//! A parser for the serializer's exact output.
//!
//! Each parsing function carries a completeness contract: wherever the
//! input holds a serialized form, the function returns the value that was
//! serialized. Together with the serializer's contracts this yields the
//! round-trip guarantee of the envelope's wire format.
use vstd::prelude::*;

use crate::json::JsonValue;
use crate::json::all_digits;
use crate::json::dec_digits;
use crate::json::dec_val;
use crate::json::digit_val;
use crate::json::chars_to_string;
use crate::json::esc_char;
use crate::json::esc_seq;
use crate::json::hex_char;
use crate::json::is_digit;
use crate::json::lemma_dec_digits_shape;
use crate::json::lemma_dec_digits_val;
use crate::json::lemma_dec_val_prefix_le;
use crate::json::lemma_ser_elems_first;
use crate::json::lemma_ser_members_first;
use crate::json::lemma_ser_val_first;
use crate::json::members_eq;
use crate::json::ser_elems;
use crate::json::ser_member;
use crate::json::ser_members;
use crate::json::val_eq;
use crate::json::vals_eq;
use crate::json::ser_int;
use crate::json::ser_str;
use crate::json::ser_val;

verus! {

/// Whether `p` occurs in `s` at position `i`.
pub open spec fn at_is(s: Seq<char>, i: int, p: Seq<char>) -> bool {
    &&& 0 <= i
    &&& i + p.len() <= s.len()
    &&& forall|k: int| 0 <= k < p.len() ==> s[i + k] == #[trigger] p[k]
}

/// Whether position `j` ends the input or holds no digit; a decimal number
/// ending right before `j` cannot extend any further.
pub open spec fn end_ok(s: Seq<char>, j: int) -> bool {
    j == s.len() || !is_digit(s[j])
}

/// The hypothesis under which parsing an element list is complete: a
/// non-empty serialized element list stands at `i` with `]` right after.
pub open spec fn elems_at(s: Seq<char>, i: int, es: Seq<JsonValue>) -> bool {
    es.len() > 0 && at_is(s, i, ser_elems(es)) && i + ser_elems(es).len() < s.len() && s[i
        + ser_elems(es).len()] == ']'
}

/// The member-list analogue of `elems_at`, ended by `}`.
pub open spec fn members_at(s: Seq<char>, i: int, ms: Seq<(String, JsonValue)>) -> bool {
    ms.len() > 0 && at_is(s, i, ser_members(ms)) && i + ser_members(ms).len() < s.len() && s[i
        + ser_members(ms).len()] == '}'
}

/// Whether `c` is a lower-case hexadecimal digit.
pub open spec fn is_hex(c: char) -> bool {
    is_digit(c) || 97 <= c as u32 <= 102
}

/// The numeric value of a lower-case hexadecimal digit character.
pub open spec fn hex_val(c: char) -> nat {
    if is_digit(c) {
        digit_val(c)
    } else {
        (c as u32 - 87) as nat
    }
}

/// A hexadecimal digit character reads back as its value.
pub proof fn lemma_hex_char_val(m: nat)
    requires
        m < 16,
    ensures
        is_hex(hex_char(m)),
        hex_val(hex_char(m)) == m,
{
    if m < 10 {
        assert(hex_char(m) as u32 == 48 + m);
    } else {
        assert(hex_char(m) as u32 == 87 + m);
    }
}

/// Turns a string into the vector of its characters.
pub fn str_to_vec(s: &str) -> (r: Vec<char>)
    ensures
        r@ == s@,
{
    let n = s.unicode_len();
    let mut r: Vec<char> = Vec::new();
    let mut j: usize = 0;
    while j < n
        invariant
            n == s@.len(),
            j <= n,
            r@ == s@.take(j as int),
        decreases n - j,
    {
        r.push(s.get_char(j));
        proof {
            assert(s@.take(j + 1) =~= s@.take(j as int).push(s@[j as int]));
        }
        j = j + 1;
    }
    proof {
        assert(s@.take(n as int) =~= s@);
    }
    r
}

/// Whether the characters of `pat` occur in `s` at position `i`.
pub fn match_at(s: &Vec<char>, i: usize, pat: &Vec<char>) -> (r: bool)
    ensures
        r == at_is(s@, i as int, pat@),
{
    if i > s.len() || pat.len() > s.len() - i {
        return false;
    }
    let n = s.len();
    let mut k: usize = 0;
    while k < pat.len()
        invariant
            k <= pat@.len(),
            i + pat@.len() <= s@.len(),
            n == s@.len(),
            forall|q: int| 0 <= q < k ==> s@[i + q] == #[trigger] pat@[q],
        decreases pat@.len() - k,
    {
        if s[i + k] != pat[k] {
            return false;
        }
        k = k + 1;
    }
    true
}

/// The decimal digit's value, when `c` is one.
fn digit_of(c: char) -> (r: Option<u8>)
    ensures
        r is Some <==> is_digit(c),
        r matches Some(d) ==> d as nat == digit_val(c) && d < 10,
{
    let u = c as u32;
    if 48 <= u && u <= 57 {
        Some((u - 48) as u8)
    } else {
        None
    }
}

/// The hexadecimal digit's value, when `c` is one.
fn hex_of(c: char) -> (r: Option<u8>)
    ensures
        r is Some <==> is_hex(c),
        r matches Some(d) ==> d as nat == hex_val(c) && d < 16,
{
    let u = c as u32;
    if 48 <= u && u <= 57 {
        Some((u - 48) as u8)
    } else if 97 <= u && u <= 102 {
        Some((u - 87) as u8)
    } else {
        None
    }
}

/// Scans the run of decimal digits beginning at `i`. Yields the value, the
/// position of the first non-digit, and whether the value fit in 64 bits;
/// when it did not fit, some digit prefix already exceeds the range.
fn parse_digits(s: &Vec<char>, i: usize) -> (r: (u64, usize, bool))
    requires
        i <= s@.len(),
    ensures
        r.2 ==> i <= r.1 <= s@.len(),
        r.2 ==> forall|k: int| i <= k < r.1 ==> is_digit(s@[k]),
        r.2 ==> end_ok(s@, r.1 as int),
        r.2 ==> r.0 as nat == dec_val(s@.subrange(i as int, r.1 as int)),
        !r.2 ==> exists|j: int|
            i < j <= s@.len() && (forall|k: int| i <= k < j ==> is_digit(s@[k])) && dec_val(
                s@.subrange(i as int, j),
            ) > u64::MAX,
{
    let mut cur: usize = i;
    let mut acc: u64 = 0;
    proof {
        assert(s@.subrange(i as int, i as int) =~= Seq::<char>::empty());
    }
    while cur < s.len()
        invariant
            i <= cur <= s@.len(),
            forall|k: int| i <= k < cur ==> is_digit(s@[k]),
            acc as nat == dec_val(s@.subrange(i as int, cur as int)),
        decreases s@.len() - cur,
    {
        let c = s[cur];
        match digit_of(c) {
            Option::None => {
                return (acc, cur, true);
            },
            Option::Some(d) => {
                if acc > (u64::MAX - d as u64) / 10 {
                    proof {
                        let full = s@.subrange(i as int, cur + 1);
                        assert(full.drop_last() =~= s@.subrange(i as int, cur as int));
                        assert(full.last() == s@[cur as int]);
                        assert(acc * 10 >= ((u64::MAX - d as u64) / 10 + 1) * 10);
                        assert(dec_val(full) > u64::MAX);
                    }
                    return (0, cur, false);
                }
                proof {
                    let full = s@.subrange(i as int, cur + 1);
                    assert(full.drop_last() =~= s@.subrange(i as int, cur as int));
                    assert(full.last() == s@[cur as int]);
                    assert(acc * 10 <= ((u64::MAX - d as u64) / 10) * 10);
                }
                acc = acc * 10 + d as u64;
                cur = cur + 1;
            },
        }
    }
    (acc, cur, true)
}

/// When the digit run at `i` spells exactly the digit string `d` (the next
/// character extends no number and `d`'s value fits), the scan of
/// `parse_digits` found exactly `d`.
proof fn lemma_digits_extent(
    s: Seq<char>,
    i: int,
    val: u64,
    end: int,
    ok: bool,
    d: Seq<char>,
)
    requires
        0 <= i,
        ok ==> i <= end <= s.len(),
        ok ==> forall|k: int| i <= k < end ==> is_digit(s[k]),
        ok ==> end_ok(s, end),
        ok ==> val as nat == dec_val(s.subrange(i, end)),
        !ok ==> exists|j: int|
            i < j <= s.len() && (forall|k: int| i <= k < j ==> is_digit(s[k])) && dec_val(
                s.subrange(i, j),
            ) > u64::MAX,
        at_is(s, i, d),
        all_digits(d),
        d.len() >= 1,
        end_ok(s, i + d.len()),
        dec_val(d) <= u64::MAX,
    ensures
        ok,
        end == i + d.len(),
        val as nat == dec_val(d),
{
    if !ok {
        let j = choose|j: int|
            i < j <= s.len() && (forall|k: int| i <= k < j ==> is_digit(s[k])) && dec_val(
                s.subrange(i, j),
            ) > u64::MAX;
        if j <= i + d.len() {
            assert(s.subrange(i, j) =~= d.take(j - i));
            lemma_dec_val_prefix_le(d, j - i);
            assert(false);
        } else {
            assert(i + d.len() < s.len());
            assert(is_digit(s[i + d.len()]));
            assert(false);
        }
    }
    if end < i + d.len() {
        assert(s[end] == d[end - i]);
        assert(is_digit(d[end - i]));
        assert(false);
    }
    if end > i + d.len() {
        assert(is_digit(s[i + d.len()]));
        assert(false);
    }
    assert(s.subrange(i, end) =~= d);
}

/// A prefix made of two parts splits into a prefix and a shifted prefix.
pub proof fn lemma_at_split(s: Seq<char>, i: int, a: Seq<char>, b: Seq<char>)
    requires
        at_is(s, i, a + b),
    ensures
        at_is(s, i, a),
        at_is(s, i + a.len(), b),
{
    assert forall|k: int| 0 <= k < a.len() implies s[i + k] == #[trigger] a[k] by {
        assert(s[i + k] == (a + b)[k]);
    }
    assert forall|k: int| 0 <= k < b.len() implies s[i + a.len() + k] == #[trigger] b[k] by {
        assert(s[i + (a.len() + k)] == (a + b)[a.len() + k]);
    }
}

/// Parses a decimal integer at position `i`. Complete for the output of
/// `ser_int` on any 64-bit value whenever no digit follows it.
pub fn parse_int(s: &Vec<char>, i: usize) -> (r: Option<(i64, usize)>)
    ensures
        forall|n: i64|
            (at_is(s@, i as int, ser_int(n as int)) && end_ok(s@, i + ser_int(n as int).len()))
                ==> r == Some((n, (i + ser_int(n as int).len()) as usize)),
        r matches Some(p) ==> i < p.1 <= s@.len(),
{
    if i >= s.len() {
        return None;
    }
    let neg = s[i] == '-';
    let start: usize = if neg {
        i + 1
    } else {
        i
    };
    if start > s.len() {
        return None;
    }
    let (val, end, ok) = parse_digits(s, start);
    proof {
        assert forall|n: i64|
            at_is(s@, i as int, ser_int(n as int)) && end_ok(
                s@,
                i + ser_int(n as int).len(),
            ) implies {
            &&& ok
            &&& (n < 0 ==> neg)
            &&& (n >= 0 ==> !neg)
            &&& end == start + dec_digits(if n < 0 {
                (-(n as int)) as nat
            } else {
                n as nat
            }).len()
            &&& val as nat == (if n < 0 {
                (-(n as int)) as nat
            } else {
                n as nat
            })
        } by {
            let mag: nat = if n < 0 {
                (-(n as int)) as nat
            } else {
                n as nat
            };
            let d = dec_digits(mag);
            lemma_dec_digits_shape(mag);
            lemma_dec_digits_val(mag);
            if n < 0 {
                assert(s@[i as int] == (seq!['-'] + d)[0]);
                assert(!neg ==> is_digit(s@[i as int]));
                assert(neg);
                assert forall|k: int| 0 <= k < d.len() implies s@[start + k] == #[trigger] d[k] by {
                    assert(s@[i + (k + 1)] == (seq!['-'] + d)[k + 1]);
                }
                assert(at_is(s@, start as int, d));
                lemma_digits_extent(s@, start as int, val, end as int, ok, d);
            } else {
                assert(s@[i as int] == d[0]);
                assert(is_digit(d[0]));
                assert(!neg);
                assert(at_is(s@, start as int, d));
                lemma_digits_extent(s@, start as int, val, end as int, ok, d);
            }
        }
    }
    if !ok || end == start {
        proof {
            assert forall|n: i64|
                at_is(s@, i as int, ser_int(n as int)) && end_ok(
                    s@,
                    i + ser_int(n as int).len(),
                ) implies false by {
                let mag: nat = if n < 0 {
                    (-(n as int)) as nat
                } else {
                    n as nat
                };
                lemma_dec_digits_shape(mag);
            }
        }
        return None;
    }
    if neg {
        if val > 9223372036854775808u64 {
            return None;
        }
        let m = val as i128;
        let x = (-m) as i64;
        return Some((x, end));
    }
    if val > 9223372036854775807u64 {
        return None;
    }
    Some((val as i64, end))
}

/// Reads the escaped body of a string literal up to and including the
/// closing quote, yielding the unescaped characters and the position right
/// after the quote. Complete for the output of the escape function.
fn parse_str_body(s: &Vec<char>, i: usize) -> (r: Option<(Vec<char>, usize)>)
    ensures
        forall|t: Seq<char>|
            at_is(s@, i as int, esc_seq(t) + seq!['"']) ==> (r matches Some(p) && p.0@ == t && p.1
                == i + esc_seq(t).len() + 1),
        r matches Some(p) ==> i < p.1 <= s@.len(),
    decreases s@.len() - i,
{
    if i >= s.len() {
        return None;
    }
    let c = s[i];
    if c == '"' {
        proof {
            assert forall|t: Seq<char>|
                at_is(s@, i as int, esc_seq(t) + seq!['"']) implies t =~= Seq::<char>::empty() by {
                if t.len() > 0 {
                    assert((esc_seq(t) + seq!['"'])[0] == esc_char(t[0])[0]);
                    assert(s@[i as int] == esc_char(t[0])[0]);
                    assert(esc_char(t[0])[0] != '"');
                }
            }
        }
        let empty: Vec<char> = Vec::new();
        return Some((empty, i + 1));
    }
    // For any escaped text beginning here, the head character's escape
    // stands at `i`; the proofs below identify it from the input.
    if c == '\\' {
        if i + 1 >= s.len() {
            proof {
                str_body_vacuous(s@, i as int);
            }
            return None;
        }
        let e = s[i + 1];
        if e == '"' || e == '\\' {
            let ch = if e == '"' {
                '"'
            } else {
                '\\'
            };
            match parse_str_body(s, i + 2) {
                Option::None => {
                    proof {
                        assert forall|t: Seq<char>|
                            !at_is(s@, i as int, esc_seq(t) + seq!['"']) by {
                            if at_is(s@, i as int, esc_seq(t) + seq!['"']) {
                                split_head(s@, i as int, t);
                                head_is_two(s@, i as int, t[0]);
                            }
                        }
                    }
                    return None;
                },
                Option::Some((mut tail, j)) => {
                    tail.insert(0, ch);
                    proof {
                        assert forall|t: Seq<char>|
                            at_is(s@, i as int, esc_seq(t) + seq!['"']) implies (tail@ == t && j
                            == i + esc_seq(t).len() + 1) by {
                            split_head(s@, i as int, t);
                            head_is_two(s@, i as int, t[0]);
                            assert(t[0] == ch);
                            assert(t.skip(1).insert(0, t[0]) =~= t);
                        }
                    }
                    return Some((tail, j));
                },
            }
        }
        if e == 'u' {
            if s.len() - (i + 1) < 5 {
                proof {
                    str_body_vacuous_u(s@, i as int);
                }
                return None;
            }
            if s[i + 2] != '0' || s[i + 3] != '0' {
                proof {
                    str_body_vacuous_u(s@, i as int);
                }
                return None;
            }
            let h1 = match hex_of(s[i + 4]) {
                Option::Some(h) => h,
                Option::None => {
                    proof {
                        str_body_vacuous_u(s@, i as int);
                    }
                    return None;
                },
            };
            let h2 = match hex_of(s[i + 5]) {
                Option::Some(h) => h,
                Option::None => {
                    proof {
                        str_body_vacuous_u(s@, i as int);
                    }
                    return None;
                },
            };
            let code: u8 = h1 * 16 + h2;
            match parse_str_body(s, i + 6) {
                Option::None => {
                    proof {
                        assert forall|t: Seq<char>|
                            !at_is(s@, i as int, esc_seq(t) + seq!['"']) by {
                            if at_is(s@, i as int, esc_seq(t) + seq!['"']) {
                                split_head(s@, i as int, t);
                                head_is_ctrl(s@, i as int, t[0]);
                            }
                        }
                    }
                    return None;
                },
                Option::Some((mut tail, j)) => {
                    tail.insert(0, code as char);
                    proof {
                        assert forall|t: Seq<char>|
                            at_is(s@, i as int, esc_seq(t) + seq!['"']) implies (tail@ == t && j
                            == i + esc_seq(t).len() + 1) by {
                            split_head(s@, i as int, t);
                            head_is_ctrl(s@, i as int, t[0]);
                            let c0 = t[0];
                            assert(s@[i + 4] == hex_char((c0 as u32 / 16) as nat));
                            assert(s@[i + 5] == hex_char((c0 as u32 % 16) as nat));
                            lemma_hex_char_val((c0 as u32 / 16) as nat);
                            lemma_hex_char_val((c0 as u32 % 16) as nat);
                            assert(code as u32 == c0 as u32);
                            vstd::utf8::char_u32_cast(c0, code as u32);
                            assert((code as u32) as char == c0);
                            assert(code as char == c0);
                            assert(t.skip(1).insert(0, t[0]) =~= t);
                        }
                    }
                    return Some((tail, j));
                },
            }
        }
        proof {
            str_body_vacuous_u(s@, i as int);
        }
        return None;
    }
    match parse_str_body(s, i + 1) {
        Option::None => {
            proof {
                assert forall|t: Seq<char>| !at_is(s@, i as int, esc_seq(t) + seq!['"']) by {
                    if at_is(s@, i as int, esc_seq(t) + seq!['"']) {
                        split_head(s@, i as int, t);
                    }
                }
            }
            None
        },
        Option::Some((mut tail, j)) => {
            tail.insert(0, c);
            proof {
                assert forall|t: Seq<char>|
                    at_is(s@, i as int, esc_seq(t) + seq!['"']) implies (tail@ == t && j == i
                    + esc_seq(t).len() + 1) by {
                    split_head(s@, i as int, t);
                    assert(t[0] == c);
                    assert(t.skip(1).insert(0, t[0]) =~= t);
                }
            }
            Some((tail, j))
        },
    }
}

/// A head character whose escape starts with a backslash and is not a
/// `\u` form escapes to exactly two characters.
proof fn head_is_two(s: Seq<char>, i: int, c0: char)
    requires
        0 <= i + 1 < s.len(),
        at_is(s, i, esc_char(c0)),
        s[i] == '\\',
        s[i + 1] == '"' || s[i + 1] == '\\',
    ensures
        esc_char(c0).len() == 2,
        s[i + 1] == '"' ==> c0 == '"',
        s[i + 1] == '\\' ==> c0 == '\\',
{
    assert(s[i + 0] == esc_char(c0)[0]);
    if c0 != '"' && c0 != '\\' && (c0 as u32) >= 32 {
        assert(esc_char(c0) == seq![c0]);
        assert(false);
    }
    if (c0 as u32) < 32 && c0 != '"' && c0 != '\\' {
        assert(s[i + 1] == esc_char(c0)[1]);
        assert(esc_char(c0)[1] == 'u');
        assert(false);
    }
    assert(s[i + 1] == esc_char(c0)[1]);
}

/// A head character whose escape is the `\u` form is a control character.
proof fn head_is_ctrl(s: Seq<char>, i: int, c0: char)
    requires
        0 <= i + 1 < s.len(),
        at_is(s, i, esc_char(c0)),
        s[i] == '\\',
        s[i + 1] == 'u',
    ensures
        (c0 as u32) < 32,
        esc_char(c0).len() == 6,
{
    assert(s[i + 0] == esc_char(c0)[0]);
    if c0 != '"' && c0 != '\\' && (c0 as u32) >= 32 {
        assert(esc_char(c0) == seq![c0]);
        assert(false);
    }
    assert(s[i + 1] == esc_char(c0)[1]);
    if c0 == '"' || c0 == '\\' {
        assert(false);
    }
}

/// From a non-quote at `i`, splits the escape hypothesis: the head
/// character's escape stands at `i` and the rest of the body follows it.
proof fn split_head(s: Seq<char>, i: int, t: Seq<char>)
    requires
        at_is(s, i, esc_seq(t) + seq!['"']),
        0 <= i < s.len(),
        s[i] != '"',
    ensures
        t.len() > 0,
        at_is(s, i, esc_char(t[0])),
        at_is(s, i + esc_char(t[0]).len(), esc_seq(t.skip(1)) + seq!['"']),
        esc_seq(t).len() == esc_char(t[0]).len() + esc_seq(t.skip(1)).len(),
        s[i] == esc_char(t[0])[0],
{
    if t.len() == 0 {
        assert(s[i] == (esc_seq(t) + seq!['"'])[0]);
        assert(false);
    }
    assert(esc_seq(t) == esc_char(t[0]) + esc_seq(t.skip(1)));
    assert(esc_seq(t) + seq!['"'] =~= esc_char(t[0]) + (esc_seq(t.skip(1)) + seq!['"']));
    lemma_at_split(s, i, esc_char(t[0]), esc_seq(t.skip(1)) + seq!['"']);
    assert(s[i + 0] == esc_char(t[0])[0]);
}

/// No escaped text begins at a position from which less than one escape
/// plus a closing quote can be read as a backslash escape.
proof fn str_body_vacuous(s: Seq<char>, i: int)
    requires
        0 <= i < s.len(),
        s[i] == '\\',
        i + 1 >= s.len(),
    ensures
        forall|t: Seq<char>| !at_is(s, i, esc_seq(t) + seq!['"']),
{
    assert forall|t: Seq<char>| !at_is(s, i, esc_seq(t) + seq!['"']) by {
        if at_is(s, i, esc_seq(t) + seq!['"']) {
            split_head(s, i, t);
            assert(esc_char(t[0])[0] == '\\');
            assert(esc_char(t[0]).len() >= 2);
        }
    }
}

/// No escaped text begins with a backslash escape that the input does not
/// complete in one of the recognized forms.
proof fn str_body_vacuous_u(s: Seq<char>, i: int)
    requires
        0 <= i + 1 < s.len(),
        s[i] == '\\',
        s[i + 1] != '"' && s[i + 1] != '\\',
        s[i + 1] == 'u' ==> (i + 5 >= s.len() || s[i + 2] != '0' || s[i + 3] != '0' || !is_hex(
            s[i + 4],
        ) || !is_hex(s[i + 5])),
    ensures
        forall|t: Seq<char>| !at_is(s, i, esc_seq(t) + seq!['"']),
{
    assert forall|t: Seq<char>| !at_is(s, i, esc_seq(t) + seq!['"']) by {
        if at_is(s, i, esc_seq(t) + seq!['"']) {
            split_head(s, i, t);
            let c0 = t[0];
            assert(s[i + 1] == esc_char(c0)[1]);
            assert((c0 as u32) < 32);
            assert(s[i + 1] == 'u');
            assert(s[i + 2] == '0');
            assert(s[i + 3] == '0');
            assert(s[i + 4] == hex_char((c0 as u32 / 16) as nat));
            assert(s[i + 5] == hex_char((c0 as u32 % 16) as nat));
            lemma_hex_char_val((c0 as u32 / 16) as nat);
            lemma_hex_char_val((c0 as u32 % 16) as nat);
        }
    }
}

/// Parses a JSON string literal at position `i`. Complete for the output
/// of the string serializer.
pub fn parse_string(s: &Vec<char>, i: usize) -> (r: Option<(String, usize)>)
    ensures
        forall|t: Seq<char>|
            at_is(s@, i as int, ser_str(t)) ==> (r matches Some(p) && p.0@ == t && p.1 == i
                + ser_str(t).len()),
        r matches Some(p) ==> i < p.1 <= s@.len(),
{
    if i >= s.len() || s[i] != '"' {
        proof {
            assert forall|t: Seq<char>| !at_is(s@, i as int, ser_str(t)) by {
                if at_is(s@, i as int, ser_str(t)) {
                    assert(s@[i + 0] == ser_str(t)[0]);
                }
            }
        }
        return None;
    }
    let rec = parse_str_body(s, i + 1);
    proof {
        assert forall|t: Seq<char>|
            at_is(s@, i as int, ser_str(t)) implies (rec matches Some(p) && p.0@ == t && p.1 == i
            + ser_str(t).len()) by {
            assert(ser_str(t) =~= seq!['"'] + (esc_seq(t) + seq!['"']));
            lemma_at_split(s@, i as int, seq!['"'], esc_seq(t) + seq!['"']);
        }
    }
    match rec {
        Option::None => None,
        Option::Some((buf, j)) => Some((chars_to_string(buf), j)),
    }
}

/// Splits the hypothesis that a non-empty serialized element list stands
/// at `i` with `]` after it: the first element stands at `i`, ends before
/// no digit, and the rest follows a comma.
proof fn elems_head(s: Seq<char>, i: int, es: Seq<JsonValue>)
    requires
        es.len() > 0,
        at_is(s, i, ser_elems(es)),
        i + ser_elems(es).len() < s.len(),
        s[i + ser_elems(es).len()] == ']',
    ensures
        at_is(s, i, ser_val(es[0])),
        end_ok(s, i + ser_val(es[0]).len()),
        es.len() == 1 ==> ser_elems(es) == ser_val(es[0]),
        es.len() > 1 ==> s[i + ser_val(es[0]).len()] == ',',
        es.len() > 1 ==> at_is(s, i + ser_val(es[0]).len() + 1, ser_elems(es.skip(1))),
        es.len() > 1 ==> ser_elems(es).len() == ser_val(es[0]).len() + 1 + ser_elems(
            es.skip(1),
        ).len(),
{
    if es.len() == 1 {
        assert(ser_elems(es) == ser_val(es[0]));
    } else {
        assert(ser_elems(es) == ser_val(es[0]) + seq![','] + ser_elems(es.skip(1)));
        assert(ser_elems(es) =~= ser_val(es[0]) + (seq![','] + ser_elems(es.skip(1))));
        lemma_at_split(s, i, ser_val(es[0]), seq![','] + ser_elems(es.skip(1)));
        lemma_at_split(s, i + ser_val(es[0]).len(), seq![','], ser_elems(es.skip(1)));
        assert(s[i + ser_val(es[0]).len() + 0] == seq![','][0]);
    }
}

/// The member-list analogue of `elems_head`, additionally splitting the
/// first member into its key, the colon, and its value.
proof fn members_head(s: Seq<char>, i: int, ms: Seq<(String, JsonValue)>)
    requires
        ms.len() > 0,
        at_is(s, i, ser_members(ms)),
        i + ser_members(ms).len() < s.len(),
        s[i + ser_members(ms).len()] == '}',
    ensures
        at_is(s, i, ser_str(ms[0].0@)),
        s[i + ser_str(ms[0].0@).len()] == ':',
        at_is(s, i + ser_str(ms[0].0@).len() + 1, ser_val(ms[0].1)),
        end_ok(s, i + ser_str(ms[0].0@).len() + 1 + ser_val(ms[0].1).len()),
        ser_member(ms[0]).len() == ser_str(ms[0].0@).len() + 1 + ser_val(ms[0].1).len(),
        ms.len() == 1 ==> ser_members(ms) == ser_member(ms[0]),
        ms.len() > 1 ==> s[i + ser_member(ms[0]).len()] == ',',
        ms.len() > 1 ==> at_is(s, i + ser_member(ms[0]).len() + 1, ser_members(ms.skip(1))),
        ms.len() > 1 ==> ser_members(ms).len() == ser_member(ms[0]).len() + 1 + ser_members(
            ms.skip(1),
        ).len(),
{
    let m0 = ms[0];
    if ms.len() == 1 {
        assert(ser_members(ms) == ser_member(m0));
    } else {
        assert(ser_members(ms) == ser_member(m0) + seq![','] + ser_members(ms.skip(1)));
        assert(ser_members(ms) =~= ser_member(m0) + (seq![','] + ser_members(ms.skip(1))));
        lemma_at_split(s, i, ser_member(m0), seq![','] + ser_members(ms.skip(1)));
        lemma_at_split(s, i + ser_member(m0).len(), seq![','], ser_members(ms.skip(1)));
        assert(s[i + ser_member(m0).len() + 0] == seq![','][0]);
    }
    assert(ser_member(m0) =~= ser_str(m0.0@) + (seq![':'] + ser_val(m0.1)));
    lemma_at_split(s, i, ser_str(m0.0@), seq![':'] + ser_val(m0.1));
    lemma_at_split(s, i + ser_str(m0.0@).len(), seq![':'], ser_val(m0.1));
    assert(s[i + ser_str(m0.0@).len() + 0] == seq![':'][0]);
}

/// Parses a JSON value at position `i`. Complete for the output of the
/// value serializer whenever no digit follows that output.
pub fn parse_val(s: &Vec<char>, i: usize) -> (r: Option<(JsonValue, usize)>)
    ensures
        forall|v: JsonValue|
            (at_is(s@, i as int, ser_val(v)) && end_ok(s@, i + ser_val(v).len())) ==> (r matches
                Some(p) && val_eq(p.0, v) && p.1 == i + ser_val(v).len()),
        r matches Some(p) ==> i < p.1 <= s@.len(),
    decreases s@.len() - i, 0int,
{
    if i >= s.len() {
        proof {
            assert forall|v: JsonValue| !at_is(s@, i as int, ser_val(v)) by {
                lemma_ser_val_first(v);
            }
        }
        return None;
    }
    let c = s[i];
    proof {
        assert forall|v: JsonValue|
            at_is(s@, i as int, ser_val(v)) implies s@[i as int] == ser_val(v)[0] by {
            lemma_ser_val_first(v);
            assert(s@[i + 0] == ser_val(v)[0]);
        }
        reveal_strlit("null");
        reveal_strlit("true");
        reveal_strlit("false");
    }
    if c == 'n' {
        let pat = str_to_vec("null");
        let hit = match_at(s, i, &pat);
        proof {
            assert forall|v: JsonValue|
                at_is(s@, i as int, ser_val(v)) implies (v == JsonValue::Null && ser_val(v)
                == "null"@ && hit) by {
                lemma_ser_val_first(v);
            }
        }
        if hit {
            return Some((JsonValue::Null, i + pat.len()));
        }
        return None;
    }
    if c == 't' {
        let pat = str_to_vec("true");
        let hit = match_at(s, i, &pat);
        proof {
            assert forall|v: JsonValue|
                at_is(s@, i as int, ser_val(v)) implies (v == JsonValue::Bool(true) && ser_val(v)
                == "true"@ && hit) by {
                lemma_ser_val_first(v);
            }
        }
        if hit {
            return Some((JsonValue::Bool(true), i + pat.len()));
        }
        return None;
    }
    if c == 'f' {
        let pat = str_to_vec("false");
        let hit = match_at(s, i, &pat);
        proof {
            assert forall|v: JsonValue|
                at_is(s@, i as int, ser_val(v)) implies (v == JsonValue::Bool(false) && ser_val(v)
                == "false"@ && hit) by {
                lemma_ser_val_first(v);
            }
        }
        if hit {
            return Some((JsonValue::Bool(false), i + pat.len()));
        }
        return None;
    }
    if c == '"' {
        let r0 = parse_string(s, i);
        proof {
            assert forall|v: JsonValue|
                at_is(s@, i as int, ser_val(v)) implies (v is Str && (r0 matches Some(p)
                && val_eq(JsonValue::Str(p.0), v) && p.1 == i + ser_val(v).len())) by {
                lemma_ser_val_first(v);
                match v {
                    JsonValue::Str(t) => {
                        assert(at_is(s@, i as int, ser_str(t@)));
                    },
                    _ => {
                        assert(false);
                    },
                }
            }
        }
        match r0 {
            Option::None => {
                return None;
            },
            Option::Some((st, j)) => {
                return Some((JsonValue::Str(st), j));
            },
        }
    }
    if c == '[' {
        if i + 1 < s.len() && s[i + 1] == ']' {
            proof {
                assert forall|v: JsonValue|
                    at_is(s@, i as int, ser_val(v)) implies (v matches JsonValue::Arr(es)
                    && es@.len() == 0 && ser_val(v).len() == 2) by {
                    lemma_ser_val_first(v);
                    match v {
                        JsonValue::Arr(es) => {
                            if es@.len() > 0 {
                                lemma_ser_elems_first(es@);
                                lemma_ser_val_first(es@[0]);
                                assert(s@[i + 1] == ser_val(v)[1]);
                                assert(ser_val(v)[1] == ser_elems(es@)[0]);
                                assert(false);
                            }
                            assert(ser_val(v) =~= seq!['[', ']']);
                        },
                        _ => {
                            assert(false);
                        },
                    }
                }
            }
            let empty_arr: Vec<JsonValue> = Vec::new();
            return Some((JsonValue::Arr(empty_arr), i + 2));
        }
        let r1 = parse_elems(s, i + 1);
        proof {
            assert forall|v: JsonValue|
                at_is(s@, i as int, ser_val(v)) implies (v matches JsonValue::Arr(es) && (r1
                matches Some(p) && vals_eq(p.0@, es@) && p.1 == i + 1 + ser_elems(es@).len()
                && ser_val(v).len() == 2 + ser_elems(es@).len() && p.1 < s@.len() && s@[p.1 as int]
                == ']')) by {
                lemma_ser_val_first(v);
                match v {
                    JsonValue::Arr(es) => {
                        if es@.len() == 0 {
                            assert(ser_val(v) =~= seq!['[', ']']);
                            assert(s@[i + 1] == ser_val(v)[1]);
                            assert(false);
                        }
                        lemma_ser_elems_first(es@);
                        assert(ser_val(v) =~= seq!['['] + (ser_elems(es@) + seq![']']));
                        lemma_at_split(s@, i as int, seq!['['], ser_elems(es@) + seq![']']);
                        lemma_at_split(s@, i + 1, ser_elems(es@), seq![']']);
                        assert(s@[i + 1 + ser_elems(es@).len() + 0] == seq![']'][0]);
                        assert(elems_at(s@, i + 1, es@));
                    },
                    _ => {
                        assert(false);
                    },
                }
            }
        }
        match r1 {
            Option::None => {
                return None;
            },
            Option::Some((ev, j)) => {
                if j < s.len() && s[j] == ']' {
                    return Some((JsonValue::Arr(ev), j + 1));
                }
                return None;
            },
        }
    }
    if c == '{' {
        if i + 1 < s.len() && s[i + 1] == '}' {
            proof {
                assert forall|v: JsonValue|
                    at_is(s@, i as int, ser_val(v)) implies (v matches JsonValue::Obj(ms)
                    && ms@.len() == 0 && ser_val(v).len() == 2) by {
                    lemma_ser_val_first(v);
                    match v {
                        JsonValue::Obj(ms) => {
                            if ms@.len() > 0 {
                                lemma_ser_members_first(ms@);
                                assert(s@[i + 1] == ser_val(v)[1]);
                                assert(ser_val(v)[1] == ser_members(ms@)[0]);
                                assert(false);
                            }
                            assert(ser_val(v) =~= seq!['{', '}']);
                        },
                        _ => {
                            assert(false);
                        },
                    }
                }
            }
            let empty_obj: Vec<(String, JsonValue)> = Vec::new();
            return Some((JsonValue::Obj(empty_obj), i + 2));
        }
        let r1 = parse_members(s, i + 1);
        proof {
            assert forall|v: JsonValue|
                at_is(s@, i as int, ser_val(v)) implies (v matches JsonValue::Obj(ms) && (r1
                matches Some(p) && members_eq(p.0@, ms@) && p.1 == i + 1 + ser_members(ms@).len()
                && ser_val(v).len() == 2 + ser_members(ms@).len() && p.1 < s@.len() && s@[p.1 as int]
                == '}')) by {
                lemma_ser_val_first(v);
                match v {
                    JsonValue::Obj(ms) => {
                        if ms@.len() == 0 {
                            assert(ser_val(v) =~= seq!['{', '}']);
                            assert(s@[i + 1] == ser_val(v)[1]);
                            assert(false);
                        }
                        lemma_ser_members_first(ms@);
                        assert(ser_val(v) =~= seq!['{'] + (ser_members(ms@) + seq!['}']));
                        lemma_at_split(s@, i as int, seq!['{'], ser_members(ms@) + seq!['}']);
                        lemma_at_split(s@, i + 1, ser_members(ms@), seq!['}']);
                        assert(s@[i + 1 + ser_members(ms@).len() + 0] == seq!['}'][0]);
                        assert(members_at(s@, i + 1, ms@));
                    },
                    _ => {
                        assert(false);
                    },
                }
            }
        }
        match r1 {
            Option::None => {
                return None;
            },
            Option::Some((mv, j)) => {
                if j < s.len() && s[j] == '}' {
                    return Some((JsonValue::Obj(mv), j + 1));
                }
                return None;
            },
        }
    }
    let r2 = parse_int(s, i);
    proof {
        assert forall|v: JsonValue|
            (at_is(s@, i as int, ser_val(v)) && end_ok(s@, i + ser_val(v).len())) implies (v
            matches JsonValue::Int(n) && r2 == Some((n, (i + ser_val(v).len()) as usize))) by {
            lemma_ser_val_first(v);
            match v {
                JsonValue::Int(n) => {
                    assert(ser_val(v) == ser_int(n as int));
                    assert(at_is(s@, i as int, ser_int(n as int)));
                },
                _ => {
                    assert(false);
                },
            }
        }
    }
    match r2 {
        Option::None => None,
        Option::Some((n0, j)) => Some((JsonValue::Int(n0), j)),
    }
}

/// Parses the comma-separated elements of an array, stopping before the
/// closing bracket. Complete for the serializer's element lists.
#[verifier::rlimit(50)]
pub(crate) fn parse_elems(s: &Vec<char>, i: usize) -> (r: Option<(Vec<JsonValue>, usize)>)
    ensures
        forall|es: Seq<JsonValue>|
            #[trigger] elems_at(s@, i as int, es) ==> (r matches Some(p) && vals_eq(
                p.0@,
                es,
            ) && p.1 == i + ser_elems(es).len()),
        r matches Some(p) ==> i < p.1 <= s@.len(),
    decreases s@.len() - i, 1int,
{
    match parse_val(s, i) {
        Option::None => {
            proof {
                assert forall|es: Seq<JsonValue>| !(#[trigger] elems_at(s@, i as int, es)) by {
                    if elems_at(s@, i as int, es) {
                        elems_head(s@, i as int, es);
                    }
                }
            }
            None
        },
        Option::Some((v0, j0)) => {
            if j0 < s.len() && s[j0] == ',' {
                match parse_elems(s, j0 + 1) {
                    Option::None => {
                        proof {
                            assert forall|es: Seq<JsonValue>|
                                !(#[trigger] elems_at(s@, i as int, es)) by {
                                if elems_at(s@, i as int, es) {
                                    elems_head(s@, i as int, es);
                                    if es.len() == 1 {
                                        assert(s@[j0 as int] == ']');
                                    } else {
                                        assert(elems_at(s@, j0 + 1, es.skip(1)));
                                    }
                                }
                            }
                        }
                        None
                    },
                    Option::Some((mut rest, j2)) => {
                        let ghost pre = rest@;
                        let mut out2: Vec<JsonValue> = Vec::new();
                        out2.push(v0);
                        out2.append(&mut rest);
                        proof {
                            assert(out2@ =~= seq![v0] + pre);
                            assert forall|es: Seq<JsonValue>|
                                #[trigger] elems_at(s@, i as int, es) implies (vals_eq(out2@, es) && j2 == i + ser_elems(
                                es,
                            ).len()) by {
                                elems_head(s@, i as int, es);
                                if es.len() == 1 {
                                    assert(s@[j0 as int] == ']');
                                    assert(false);
                                }
                                assert(elems_at(s@, j0 + 1, es.skip(1)));
                                assert(vals_eq(pre, es.skip(1)));
                                assert forall|k: int| 0 <= k < es.len() implies val_eq(
                                    #[trigger] out2@[k],
                                    es[k],
                                ) by {
                                    if k == 0 {
                                        assert(out2@[0] == v0);
                                    } else {
                                        assert(out2@[k] == pre[k - 1]);
                                        assert(val_eq(pre[k - 1], es.skip(1)[k - 1]));
                                        assert(es.skip(1)[k - 1] == es[k]);
                                    }
                                }
                            }
                        }
                        Some((out2, j2))
                    },
                }
            } else {
                let mut one: Vec<JsonValue> = Vec::new();
                one.push(v0);
                proof {
                    assert(one@ =~= seq![v0]);
                    assert forall|es: Seq<JsonValue>|
                        #[trigger] elems_at(s@, i as int, es) implies (vals_eq(
                        one@,
                        es,
                    ) && j0 == i + ser_elems(es).len()) by {
                        elems_head(s@, i as int, es);
                        if es.len() > 1 {
                            assert(s@[j0 as int] == ',');
                            assert(false);
                        }
                        assert(one@[0] == v0);
                        assert(vals_eq(one@, es));
                    }
                }
                Some((one, j0))
            }
        },
    }
}

/// Parses the comma-separated members of an object, stopping before the
/// closing brace. Complete for the serializer's member lists.
#[verifier::rlimit(50)]
pub(crate) fn parse_members(s: &Vec<char>, i: usize) -> (r: Option<
    (Vec<(String, JsonValue)>, usize),
>)
    ensures
        forall|ms: Seq<(String, JsonValue)>|
            #[trigger] members_at(s@, i as int, ms) ==> (r matches Some(p)
                && members_eq(p.0@, ms) && p.1 == i + ser_members(ms).len()),
        r matches Some(p) ==> i < p.1 <= s@.len(),
    decreases s@.len() - i, 1int,
{
    let key = match parse_string(s, i) {
        Option::None => {
            proof {
                assert forall|ms: Seq<(String, JsonValue)>|
                    !(#[trigger] members_at(s@, i as int, ms)) by {
                    if members_at(s@, i as int, ms) {
                        members_head(s@, i as int, ms);
                    }
                }
            }
            return None;
        },
        Option::Some(kp) => kp,
    };
    let (key_str, jk) = key;
    if !(jk < s.len() && s[jk] == ':') {
        proof {
            assert forall|ms: Seq<(String, JsonValue)>|
                !(#[trigger] members_at(s@, i as int, ms)) by {
                if members_at(s@, i as int, ms) {
                    members_head(s@, i as int, ms);
                    assert(ser_members(ms).len() >= ser_member(ms[0]).len());
                }
            }
        }
        return None;
    }
    match parse_val(s, jk + 1) {
        Option::None => {
            proof {
                assert forall|ms: Seq<(String, JsonValue)>|
                    !(#[trigger] members_at(s@, i as int, ms)) by {
                    if members_at(s@, i as int, ms) {
                        members_head(s@, i as int, ms);
                    }
                }
            }
            None
        },
        Option::Some((v0, jv)) => {
            if jv < s.len() && s[jv] == ',' {
                match parse_members(s, jv + 1) {
                    Option::None => {
                        proof {
                            assert forall|ms: Seq<(String, JsonValue)>|
                                !(#[trigger] members_at(s@, i as int, ms)) by {
                                if members_at(s@, i as int, ms) {
                                    members_head(s@, i as int, ms);
                                    if ms.len() == 1 {
                                        assert(s@[jv as int] == '}');
                                    } else {
                                        assert(members_at(s@, jv + 1, ms.skip(1)));
                                    }
                                }
                            }
                        }
                        None
                    },
                    Option::Some((mut rest, j2)) => {
                        let ghost pre = rest@;
                        let ghost kview = key_str@;
                        let mut out2: Vec<(String, JsonValue)> = Vec::new();
                        out2.push((key_str, v0));
                        out2.append(&mut rest);
                        proof {
                            assert(out2@ =~= seq![out2@[0]] + pre);
                            assert(out2@[0].0@ == kview);
                            assert forall|ms: Seq<(String, JsonValue)>|
                                #[trigger] members_at(s@, i as int, ms) implies (members_eq(out2@, ms) && j2 == i
                                + ser_members(ms).len()) by {
                                members_head(s@, i as int, ms);
                                if ms.len() == 1 {
                                    assert(s@[jv as int] == '}');
                                    assert(false);
                                }
                                assert(members_at(s@, jv + 1, ms.skip(1)));
                                assert(members_eq(pre, ms.skip(1)));
                                assert forall|k: int| 0 <= k < ms.len() implies ((
                                #[trigger] out2@[k]).0@ == ms[k].0@ && val_eq(
                                    out2@[k].1,
                                    ms[k].1,
                                )) by {
                                    if k == 0 {
                                        assert(out2@[0].1 == v0);
                                    } else {
                                        assert(out2@[k] == pre[k - 1]);
                                        assert((pre[k - 1]).0@ == ms.skip(1)[k - 1].0@ && val_eq(
                                            pre[k - 1].1,
                                            ms.skip(1)[k - 1].1,
                                        ));
                                        assert(ms.skip(1)[k - 1] == ms[k]);
                                    }
                                }
                            }
                        }
                        Some((out2, j2))
                    },
                }
            } else {
                let ghost kview = key_str@;
                let mut one: Vec<(String, JsonValue)> = Vec::new();
                one.push((key_str, v0));
                proof {
                    assert(one@.len() == 1);
                    assert(one@[0].0@ == kview);
                    assert(one@[0].1 == v0);
                    assert forall|ms: Seq<(String, JsonValue)>|
                        #[trigger] members_at(s@, i as int, ms) implies (
                    members_eq(one@, ms) && jv == i + ser_members(ms).len()) by {
                        members_head(s@, i as int, ms);
                        if ms.len() > 1 {
                            assert(s@[jv as int] == ',');
                            assert(false);
                        }
                        assert(members_eq(one@, ms));
                    }
                }
                Some((one, jv))
            }
        },
    }
}

} // verus!
