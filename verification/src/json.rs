//! A self-contained model of JSON values and a verified serializer for them.
//!
//! The wire format is the exact textual form the envelope promises to its
//! callers: objects and arrays without any whitespace, strings with `"`, `\`
//! and control characters escaped, and integers in plain decimal notation.
use vstd::prelude::*;

verus! {

/// A JSON-representable tree. Numbers are signed 64-bit integers.
#[derive(Debug, PartialEq)]
pub enum JsonValue {
    Null,
    Bool(bool),
    Int(i64),
    Str(String),
    Arr(Vec<JsonValue>),
    Obj(Vec<(String, JsonValue)>),
}

/// Structural equality of JSON values, comparing strings by their
/// character sequences.
pub open spec fn val_eq(a: JsonValue, b: JsonValue) -> bool
    decreases a,
{
    match (a, b) {
        (JsonValue::Null, JsonValue::Null) => true,
        (JsonValue::Bool(x), JsonValue::Bool(y)) => x == y,
        (JsonValue::Int(x), JsonValue::Int(y)) => x == y,
        (JsonValue::Str(x), JsonValue::Str(y)) => x@ == y@,
        (JsonValue::Arr(xs), JsonValue::Arr(ys)) => xs@.len() == ys@.len() && (forall|k: int|
            0 <= k < xs@.len() ==> val_eq(#[trigger] xs@[k], ys@[k])),
        (JsonValue::Obj(xs), JsonValue::Obj(ys)) => xs@.len() == ys@.len() && (forall|k: int|
            0 <= k < xs@.len() ==> (#[trigger] xs@[k]).0@ == ys@[k].0@ && val_eq(
                xs@[k].1,
                ys@[k].1,
            )),
        _ => false,
    }
}

/// Pointwise structural equality of two value sequences.
pub open spec fn vals_eq(a: Seq<JsonValue>, b: Seq<JsonValue>) -> bool {
    a.len() == b.len() && (forall|k: int| 0 <= k < a.len() ==> val_eq(#[trigger] a[k], b[k]))
}

/// Pointwise structural equality of two member sequences.
pub open spec fn members_eq(a: Seq<(String, JsonValue)>, b: Seq<(String, JsonValue)>) -> bool {
    a.len() == b.len() && (forall|k: int|
        0 <= k < a.len() ==> (#[trigger] a[k]).0@ == b[k].0@ && val_eq(a[k].1, b[k].1))
}

/// The decimal digit character for `n < 10`.
pub open spec fn digit_char(n: nat) -> char {
    ((48 + n) as u8) as char
}

/// The lower-case hexadecimal digit character for `n < 16`.
pub open spec fn hex_char(n: nat) -> char {
    if n < 10 {
        digit_char(n)
    } else {
        ((87 + n) as u8) as char
    }
}

/// Whether `c` is a decimal digit.
pub open spec fn is_digit(c: char) -> bool {
    48 <= c as u32 <= 57
}

/// The numeric value of a decimal digit character.
pub open spec fn digit_val(c: char) -> nat {
    (c as u32 - 48) as nat
}

/// The decimal digits of `n`, most significant first.
pub open spec fn dec_digits(n: nat) -> Seq<char>
    decreases n,
{
    if n < 10 {
        seq![digit_char(n)]
    } else {
        dec_digits(n / 10) + seq![digit_char(n % 10)]
    }
}

/// The decimal notation of an integer: a minus sign for negative values,
/// then the digits of the magnitude.
pub open spec fn ser_int(n: int) -> Seq<char> {
    if n < 0 {
        seq!['-'] + dec_digits((-n) as nat)
    } else {
        dec_digits(n as nat)
    }
}

/// The value of a sequence of decimal digit characters.
pub open spec fn dec_val(s: Seq<char>) -> nat
    decreases s.len(),
{
    if s.len() == 0 {
        0
    } else {
        dec_val(s.drop_last()) * 10 + digit_val(s.last())
    }
}

/// Whether every character of `s` is a decimal digit.
pub open spec fn all_digits(s: Seq<char>) -> bool {
    forall|k: int| 0 <= k < s.len() ==> is_digit(#[trigger] s[k])
}

/// The JSON escape of one character inside a string literal.
pub open spec fn esc_char(c: char) -> Seq<char> {
    if c == '"' {
        seq!['\\', '"']
    } else if c == '\\' {
        seq!['\\', '\\']
    } else if (c as u32) < 32 {
        seq!['\\', 'u', '0', '0', hex_char((c as u32 / 16) as nat), hex_char(
            (c as u32 % 16) as nat,
        )]
    } else {
        seq![c]
    }
}

/// The JSON escape of a whole character sequence.
pub open spec fn esc_seq(s: Seq<char>) -> Seq<char>
    decreases s.len(),
{
    if s.len() == 0 {
        Seq::empty()
    } else {
        esc_char(s[0]) + esc_seq(s.skip(1))
    }
}

/// A JSON string literal: the escaped characters between double quotes.
pub open spec fn ser_str(s: Seq<char>) -> Seq<char> {
    seq!['"'] + esc_seq(s) + seq!['"']
}

/// The serialized form of a JSON value.
pub open spec fn ser_val(v: JsonValue) -> Seq<char>
    decreases v,
{
    match v {
        JsonValue::Null => "null"@,
        JsonValue::Bool(b) => if b {
            "true"@
        } else {
            "false"@
        },
        JsonValue::Int(n) => ser_int(n as int),
        JsonValue::Str(s) => ser_str(s@),
        JsonValue::Arr(es) => seq!['['] + ser_elems(es@) + seq![']'],
        JsonValue::Obj(ms) => seq!['{'] + ser_members(ms@) + seq!['}'],
    }
}

/// The serialized elements of an array, separated by commas.
pub open spec fn ser_elems(es: Seq<JsonValue>) -> Seq<char>
    decreases es,
{
    if es.len() == 0 {
        Seq::empty()
    } else if es.len() == 1 {
        ser_val(es[0])
    } else {
        ser_val(es[0]) + seq![','] + ser_elems(es.skip(1))
    }
}

/// One serialized object member: a string key, a colon, and a value.
pub open spec fn ser_member(m: (String, JsonValue)) -> Seq<char>
    decreases m,
{
    ser_str(m.0@) + seq![':'] + ser_val(m.1)
}

/// The serialized members of an object, separated by commas.
pub open spec fn ser_members(ms: Seq<(String, JsonValue)>) -> Seq<char>
    decreases ms,
{
    if ms.len() == 0 {
        Seq::empty()
    } else if ms.len() == 1 {
        ser_member(ms[0])
    } else {
        ser_member(ms[0]) + seq![','] + ser_members(ms.skip(1))
    }
}

/// The nesting height of a JSON value, the measure the executable
/// serializer and parser recurse on.
pub open spec fn val_height(v: JsonValue) -> nat
    decreases v,
{
    match v {
        JsonValue::Null => 0,
        JsonValue::Bool(_) => 0,
        JsonValue::Int(_) => 0,
        JsonValue::Str(_) => 0,
        JsonValue::Arr(es) => 1 + elems_height(es@),
        JsonValue::Obj(ms) => 1 + members_height(ms@),
    }
}

/// The summed heights of a sequence of values.
pub open spec fn elems_height(es: Seq<JsonValue>) -> nat
    decreases es,
{
    if es.len() == 0 {
        0
    } else {
        val_height(es[0]) + elems_height(es.skip(1))
    }
}

/// The summed heights of an object's member values.
pub open spec fn members_height(ms: Seq<(String, JsonValue)>) -> nat
    decreases ms,
{
    if ms.len() == 0 {
        0
    } else {
        val_height(ms[0].1) + members_height(ms.skip(1))
    }
}

/// Each element's height is bounded by the whole sequence's height.
pub proof fn lemma_elem_height(es: Seq<JsonValue>, k: int)
    requires
        0 <= k < es.len(),
    ensures
        val_height(es[k]) <= elems_height(es),
    decreases es.len(),
{
    if k > 0 {
        lemma_elem_height(es.skip(1), k - 1);
        assert(es.skip(1)[k - 1] == es[k]);
    }
}

/// Each member value's height is bounded by the member list's height.
pub proof fn lemma_member_height(ms: Seq<(String, JsonValue)>, k: int)
    requires
        0 <= k < ms.len(),
    ensures
        val_height(ms[k].1) <= members_height(ms),
    decreases ms.len(),
{
    if k > 0 {
        lemma_member_height(ms.skip(1), k - 1);
        assert(ms.skip(1)[k - 1] == ms[k]);
    }
}

/// A serialized value is never empty and its first character identifies
/// the value's variant.
pub proof fn lemma_ser_val_first(v: JsonValue)
    ensures
        ser_val(v).len() >= 1,
        v is Null ==> ser_val(v)[0] == 'n',
        v matches JsonValue::Bool(b) ==> ser_val(v)[0] == (if b {
            't'
        } else {
            'f'
        }),
        v is Int ==> (ser_val(v)[0] == '-' || is_digit(ser_val(v)[0])),
        v is Str ==> ser_val(v)[0] == '"',
        v is Arr ==> ser_val(v)[0] == '[',
        v is Obj ==> ser_val(v)[0] == '{',
{
    reveal_strlit("null");
    reveal_strlit("true");
    reveal_strlit("false");
    match v {
        JsonValue::Int(n) => {
            let mag: nat = if n < 0 {
                (-(n as int)) as nat
            } else {
                n as nat
            };
            lemma_dec_digits_shape(mag);
            if n >= 0 {
                assert(is_digit(dec_digits(mag)[0]));
            }
        },
        _ => {},
    }
}

/// A non-empty serialized element list starts with its first element's
/// first character.
pub proof fn lemma_ser_elems_first(es: Seq<JsonValue>)
    requires
        es.len() > 0,
    ensures
        ser_elems(es).len() >= 1,
        ser_elems(es)[0] == ser_val(es[0])[0],
{
    lemma_ser_val_first(es[0]);
}

/// A non-empty serialized member list starts with a double quote.
pub proof fn lemma_ser_members_first(ms: Seq<(String, JsonValue)>)
    requires
        ms.len() > 0,
    ensures
        ser_members(ms).len() >= 1,
        ser_members(ms)[0] == '"',
{
    assert(ser_member(ms[0])[0] == '"');
}

/// Appending one element extends the serialized element list by a comma
/// (when it is not the first) and the element's own serialization.
pub proof fn lemma_ser_elems_push(es: Seq<JsonValue>, v: JsonValue)
    ensures
        es.len() == 0 ==> ser_elems(es.push(v)) == ser_val(v),
        es.len() > 0 ==> ser_elems(es.push(v)) == ser_elems(es) + seq![','] + ser_val(v),
    decreases es.len(),
{
    if es.len() == 0 {
        assert(es.push(v) =~= seq![v]);
        assert(ser_elems(seq![v]) == ser_val(seq![v][0]));
    } else if es.len() == 1 {
        assert(es.push(v)[0] == es[0]);
        assert(es.push(v).skip(1) =~= seq![v]);
        assert(ser_elems(es.push(v)) == ser_val(es[0]) + seq![','] + ser_elems(seq![v]));
        assert(ser_elems(es) + seq![','] + ser_val(v) =~= ser_val(es[0]) + seq![','] + ser_val(v));
    } else {
        assert(es.push(v).skip(1) =~= es.skip(1).push(v));
        lemma_ser_elems_push(es.skip(1), v);
        assert(ser_elems(es.push(v)) == ser_val(es[0]) + seq![','] + ser_elems(es.skip(1).push(v)));
        assert(ser_val(es[0]) + seq![','] + (ser_elems(es.skip(1)) + seq![','] + ser_val(v)) =~= (
        ser_val(es[0]) + seq![','] + ser_elems(es.skip(1))) + seq![','] + ser_val(v));
    }
}

/// The member-list analogue of `lemma_ser_elems_push`.
pub proof fn lemma_ser_members_push(ms: Seq<(String, JsonValue)>, m: (String, JsonValue))
    ensures
        ms.len() == 0 ==> ser_members(ms.push(m)) == ser_member(m),
        ms.len() > 0 ==> ser_members(ms.push(m)) == ser_members(ms) + seq![','] + ser_member(m),
    decreases ms.len(),
{
    if ms.len() == 0 {
        assert(ms.push(m) =~= seq![m]);
        assert(ser_members(seq![m]) == ser_member(seq![m][0]));
    } else if ms.len() == 1 {
        assert(ms.push(m)[0] == ms[0]);
        assert(ms.push(m).skip(1) =~= seq![m]);
        assert(ser_members(ms.push(m)) == ser_member(ms[0]) + seq![','] + ser_members(seq![m]));
        assert(ser_members(ms) + seq![','] + ser_member(m) =~= ser_member(ms[0]) + seq![',']
            + ser_member(m));
    } else {
        assert(ms.push(m).skip(1) =~= ms.skip(1).push(m));
        lemma_ser_members_push(ms.skip(1), m);
        assert(ser_members(ms.push(m)) == ser_member(ms[0]) + seq![','] + ser_members(
            ms.skip(1).push(m),
        ));
        assert(ser_member(ms[0]) + seq![','] + (ser_members(ms.skip(1)) + seq![','] + ser_member(m))
            =~= (ser_member(ms[0]) + seq![','] + ser_members(ms.skip(1))) + seq![','] + ser_member(
            m,
        ));
    }
}

/// Escaping distributes over appending one character.
pub proof fn lemma_esc_seq_push(s: Seq<char>, c: char)
    ensures
        esc_seq(s.push(c)) == esc_seq(s) + esc_char(c),
    decreases s.len(),
{
    if s.len() == 0 {
        assert(s.push(c).skip(1) =~= Seq::<char>::empty());
        assert(esc_seq(s.push(c)) == esc_char(c) + esc_seq(Seq::<char>::empty()));
        assert(esc_char(c) + esc_seq(Seq::<char>::empty()) =~= esc_seq(s) + esc_char(c));
    } else {
        assert(s.push(c).skip(1) =~= s.skip(1).push(c));
        lemma_esc_seq_push(s.skip(1), c);
        assert(esc_char(s[0]) + (esc_seq(s.skip(1)) + esc_char(c)) =~= (esc_char(s[0]) + esc_seq(
            s.skip(1),
        )) + esc_char(c));
    }
}

/// Every character of a decimal rendering is a digit, and the rendering
/// is never empty.
pub proof fn lemma_dec_digits_shape(n: nat)
    ensures
        dec_digits(n).len() >= 1,
        all_digits(dec_digits(n)),
    decreases n,
{
    if n < 10 {
    } else {
        lemma_dec_digits_shape(n / 10);
        assert forall|k: int| 0 <= k < dec_digits(n).len() implies is_digit(
            #[trigger] dec_digits(n)[k],
        ) by {
            if k < dec_digits(n / 10).len() {
                assert(dec_digits(n)[k] == dec_digits(n / 10)[k]);
            } else {
                assert(dec_digits(n)[k] == digit_char(n % 10));
            }
        }
    }
}

/// Reading back the decimal digits of `n` yields `n`.
pub proof fn lemma_dec_digits_val(n: nat)
    ensures
        dec_val(dec_digits(n)) == n,
    decreases n,
{
    if n < 10 {
        let s0 = dec_digits(n);
        assert(s0 == seq![digit_char(n)]);
        assert(s0.len() == 1);
        assert(s0.last() == digit_char(n));
        assert(s0.drop_last() =~= Seq::<char>::empty());
        assert(dec_val(Seq::<char>::empty()) == 0);
        assert(dec_val(s0) == dec_val(s0.drop_last()) * 10 + digit_val(s0.last()));
        assert(digit_char(n) as u32 == 48 + n);
        assert(digit_val(digit_char(n)) == n);
        assert(dec_val(s0) == n);
    } else {
        lemma_dec_digits_val(n / 10);
        assert(dec_digits(n).drop_last() =~= dec_digits(n / 10));
        assert(dec_digits(n).last() == digit_char(n % 10));
        assert(digit_char(n % 10) as u32 == 48 + n % 10);
        assert(digit_val(digit_char(n % 10)) == n % 10);
    }
}

/// The value of a digit prefix never exceeds the value of the whole.
pub proof fn lemma_dec_val_prefix_le(s: Seq<char>, m: int)
    requires
        0 <= m <= s.len(),
    ensures
        dec_val(s.take(m)) <= dec_val(s),
    decreases s.len(),
{
    if m == s.len() {
        assert(s.take(m) =~= s);
    } else {
        assert(s.take(m) =~= s.drop_last().take(m));
        lemma_dec_val_prefix_le(s.drop_last(), m);
    }
}

/// Relies on `String`'s `FromIterator<char>` implementation: collecting
/// characters yields the string of exactly those characters, in order.
#[verifier::external_body]
pub(crate) fn chars_to_string(v: Vec<char>) -> (r: String)
    ensures
        r@ == v@,
{
    v.into_iter().collect()
}

/// Appends the characters of `s` to `out`.
pub fn write_lit(out: &mut Vec<char>, s: &str)
    ensures
        final(out)@ == old(out)@ + s@,
{
    let n = s.unicode_len();
    let mut j: usize = 0;
    proof {
        assert(old(out)@ + s@.take(0int) =~= old(out)@);
    }
    while j < n
        invariant
            n == s@.len(),
            j <= n,
            out@ == old(out)@ + s@.take(j as int),
        decreases n - j,
    {
        let c = s.get_char(j);
        out.push(c);
        proof {
            assert(s@.take(j + 1) =~= s@.take(j as int).push(s@[j as int]));
            assert(out@ =~= old(out)@ + s@.take(j + 1));
        }
        j = j + 1;
    }
    proof {
        assert(s@.take(n as int) =~= s@);
    }
}

/// The decimal digit character for `d < 10`, as executable code.
fn digit_char_exec(d: u8) -> (c: char)
    requires
        d < 10,
    ensures
        c == digit_char(d as nat),
{
    (48 + d) as char
}

/// The lower-case hexadecimal digit character for `d < 16`.
fn hex_char_exec(d: u8) -> (c: char)
    requires
        d < 16,
    ensures
        c == hex_char(d as nat),
{
    if d < 10 {
        (48 + d) as char
    } else {
        (87 + d) as char
    }
}

/// Appends the decimal digits of `m` to `out`.
fn write_dec(out: &mut Vec<char>, m: u64)
    ensures
        final(out)@ == old(out)@ + dec_digits(m as nat),
    decreases m,
{
    if m < 10 {
        out.push(digit_char_exec(m as u8));
        proof {
            assert(out@ =~= old(out)@ + dec_digits(m as nat));
        }
    } else {
        write_dec(out, m / 10);
        out.push(digit_char_exec((m % 10) as u8));
        proof {
            assert(out@ =~= old(out)@ + (dec_digits(m as nat / 10) + seq![
                digit_char(m as nat % 10),
            ]));
        }
    }
}

/// Appends the decimal notation of `n` to `out`.
pub fn write_int(out: &mut Vec<char>, n: i64)
    ensures
        final(out)@ == old(out)@ + ser_int(n as int),
{
    if n < 0 {
        out.push('-');
        let mag: u64 = (-(n as i128)) as u64;
        assert(mag as nat == (-(n as int)) as nat);
        write_dec(out, mag);
        proof {
            assert(out@ =~= old(out)@ + (seq!['-'] + dec_digits((-(n as int)) as nat)));
        }
    } else {
        write_dec(out, n as u64);
    }
}

/// Appends the JSON escape of the characters of `s` to `out`.
pub fn write_esc(out: &mut Vec<char>, s: &str)
    ensures
        final(out)@ == old(out)@ + esc_seq(s@),
{
    let n = s.unicode_len();
    let mut j: usize = 0;
    while j < n
        invariant
            n == s@.len(),
            j <= n,
            out@ == old(out)@ + esc_seq(s@.take(j as int)),
        decreases n - j,
    {
        let c = s.get_char(j);
        let u = c as u32;
        if c == '"' {
            out.push('\\');
            out.push('"');
        } else if c == '\\' {
            out.push('\\');
            out.push('\\');
        } else if u < 32 {
            out.push('\\');
            out.push('u');
            out.push('0');
            out.push('0');
            out.push(hex_char_exec((u / 16) as u8));
            out.push(hex_char_exec((u % 16) as u8));
        } else {
            out.push(c);
        }
        proof {
            assert(s@.take(j + 1) =~= s@.take(j as int).push(s@[j as int]));
            lemma_esc_seq_push(s@.take(j as int), s@[j as int]);
            assert(out@ =~= old(out)@ + esc_seq(s@.take(j + 1)));
        }
        j = j + 1;
    }
    proof {
        assert(s@.take(n as int) =~= s@);
    }
}

/// Appends a JSON string literal holding the characters of `s` to `out`.
pub fn write_str(out: &mut Vec<char>, s: &str)
    ensures
        final(out)@ == old(out)@ + ser_str(s@),
{
    out.push('"');
    write_esc(out, s);
    out.push('"');
    proof {
        assert(out@ =~= old(out)@ + ser_str(s@));
    }
}

/// Appends the serialized form of `v` to `out`.
pub fn write_val(v: &JsonValue, out: &mut Vec<char>)
    ensures
        final(out)@ == old(out)@ + ser_val(*v),
    decreases val_height(*v),
{
    match v {
        JsonValue::Null => {
            write_lit(out, "null");
        },
        JsonValue::Bool(b) => {
            if *b {
                write_lit(out, "true");
            } else {
                write_lit(out, "false");
            }
        },
        JsonValue::Int(n) => {
            write_int(out, *n);
        },
        JsonValue::Str(s) => {
            write_str(out, s.as_str());
        },
        JsonValue::Arr(es) => {
            out.push('[');
            proof {
                assert(es@.take(0int) =~= Seq::<JsonValue>::empty());
                assert(out@ =~= old(out)@ + seq!['['] + ser_elems(es@.take(0int)));
            }
            let mut k: usize = 0;
            while k < es.len()
                invariant
                    k <= es@.len(),
                    out@ == old(out)@ + seq!['['] + ser_elems(es@.take(k as int)),
                    *v == JsonValue::Arr(*es),
                decreases es@.len() - k,
            {
                if k > 0 {
                    out.push(',');
                }
                proof {
                    lemma_elem_height(es@, k as int);
                }
                write_val(&es[k], out);
                proof {
                    assert(es@.take(k + 1) =~= es@.take(k as int).push(es@[k as int]));
                    lemma_ser_elems_push(es@.take(k as int), es@[k as int]);
                    if k > 0 {
                        assert(out@ =~= old(out)@ + seq!['['] + ser_elems(es@.take(k + 1)));
                    } else {
                        assert(es@.take(0int) =~= Seq::<JsonValue>::empty());
                        assert(out@ =~= old(out)@ + seq!['['] + ser_elems(es@.take(k + 1)));
                    }
                }
                k = k + 1;
            }
            out.push(']');
            proof {
                assert(es@.take(es@.len() as int) =~= es@);
                assert(out@ =~= old(out)@ + (seq!['['] + ser_elems(es@) + seq![']']));
            }
        },
        JsonValue::Obj(ms) => {
            out.push('{');
            proof {
                assert(ms@.take(0int) =~= Seq::<(String, JsonValue)>::empty());
                assert(out@ =~= old(out)@ + seq!['{'] + ser_members(ms@.take(0int)));
            }
            let mut k: usize = 0;
            while k < ms.len()
                invariant
                    k <= ms@.len(),
                    out@ == old(out)@ + seq!['{'] + ser_members(ms@.take(k as int)),
                    *v == JsonValue::Obj(*ms),
                decreases ms@.len() - k,
            {
                if k > 0 {
                    out.push(',');
                }
                let m = &ms[k];
                proof {
                    lemma_member_height(ms@, k as int);
                }
                write_str(out, m.0.as_str());
                out.push(':');
                write_val(&m.1, out);
                proof {
                    assert(ms@.take(k + 1) =~= ms@.take(k as int).push(ms@[k as int]));
                    lemma_ser_members_push(ms@.take(k as int), ms@[k as int]);
                    assert(ser_member(ms@[k as int]) == ser_str(ms@[k as int].0@) + seq![':']
                        + ser_val(ms@[k as int].1));
                    if k > 0 {
                        assert(out@ =~= old(out)@ + seq!['{'] + ser_members(ms@.take(k + 1)));
                    } else {
                        assert(ms@.take(0int) =~= Seq::<(String, JsonValue)>::empty());
                        assert(out@ =~= old(out)@ + seq!['{'] + ser_members(ms@.take(k + 1)));
                    }
                }
                k = k + 1;
            }
            out.push('}');
            proof {
                assert(ms@.take(ms@.len() as int) =~= ms@);
                assert(out@ =~= old(out)@ + (seq!['{'] + ser_members(ms@) + seq!['}']));
            }
        },
    }
}

} // verus!
