//! The outcome envelope, its constructors and accessors, and the conversion
//! of fallible results into wire-ready JSON strings.
use vstd::prelude::*;

use crate::json::JsonValue;
use crate::json::chars_to_string;
use crate::json::lemma_ser_val_first;
use crate::json::val_eq;
use crate::json::ser_int;
use crate::json::ser_str;
use crate::json::ser_val;
use crate::json::write_int;
use crate::json::write_lit;
use crate::json::write_str;
use crate::json::write_val;
use crate::parse::at_is;
use crate::parse::end_ok;
use crate::parse::lemma_at_split;
use crate::parse::match_at;
use crate::parse::parse_int;
use crate::parse::parse_string;
use crate::parse::parse_val;
use crate::parse::str_to_vec;

verus! {

/// The uniform success/failure record every operation returns.
#[derive(Debug, PartialEq)]
pub struct ApiResp {
    /// Whether the operation completed without error.
    pub success: bool,
    /// Informational response code: 0 on success, a caller-chosen non-zero
    /// code on failure by convention.
    pub code: i32,
    /// Empty on success; a human-readable failure description otherwise.
    pub message: String,
    /// The success payload, when the operation has one.
    pub data: Option<JsonValue>,
}

/// The serialized envelope with the given field values: a JSON object with
/// the fields `success`, `code`, `message` and `data`, in that order,
/// without any whitespace; an absent payload appears as `null`.
pub open spec fn ser_fields(success: bool, code: int, message: Seq<char>, data: Option<
    JsonValue,
>) -> Seq<char> {
    "{\"success\":"@ + (if success {
        "true"@
    } else {
        "false"@
    }) + ",\"code\":"@ + ser_int(code) + ",\"message\":"@ + ser_str(message) + ",\"data\":"@ + (
    match data {
        Option::None => "null"@,
        Option::Some(v) => ser_val(v),
    }) + "}"@
}

/// The serialized form of an envelope.
pub open spec fn ser_env(e: ApiResp) -> Seq<char> {
    ser_fields(e.success, e.code as int, e.message@, e.data)
}

impl ApiResp {
    /// Whether the operation completed without error.
    pub fn is_success(&self) -> (r: bool)
        ensures
            r == self.success,
    {
        self.success
    }

    /// The informational response code.
    pub fn get_code(&self) -> (r: i32)
        ensures
            r == self.code,
    {
        self.code
    }

    /// The response message.
    pub fn get_message(&self) -> (r: &String)
        ensures
            r == &self.message,
    {
        &self.message
    }

    /// The response payload.
    pub fn get_data(&self) -> (r: &Option<JsonValue>)
        ensures
            r == &self.data,
    {
        &self.data
    }

    /// Builds a successful envelope carrying a payload.
    pub fn success(data: JsonValue) -> (r: ApiResp)
        ensures
            r.success == true,
            r.code == 0,
            r.message@ == Seq::<char>::empty(),
            r.data == Option::Some(data),
    {
        proof {
            reveal_strlit("");
            assert(""@ =~= Seq::<char>::empty());
        }
        ApiResp { success: true, code: 0, message: String::from_str(""), data: Option::Some(data) }
    }

    /// Builds a successful envelope without a payload.
    pub fn suc() -> (r: ApiResp)
        ensures
            r.success == true,
            r.code == 0,
            r.message@ == Seq::<char>::empty(),
            r.data == Option::<JsonValue>::None,
    {
        proof {
            reveal_strlit("");
            assert(""@ =~= Seq::<char>::empty());
        }
        ApiResp { success: true, code: 0, message: String::from_str(""), data: Option::None }
    }

    /// Builds a failure envelope with a caller-chosen code and message.
    pub fn error(code: i32, message: String) -> (r: ApiResp)
        ensures
            r.success == false,
            r.code == code,
            r.message == message,
            r.data == Option::<JsonValue>::None,
    {
        ApiResp { success: false, code, message, data: Option::None }
    }

    /// Serializes the envelope to its JSON text.
    pub fn to_json(&self) -> (r: String)
        ensures
            r@ == ser_env(*self),
    {
        let mut out: Vec<char> = Vec::new();
        write_lit(&mut out, "{\"success\":");
        if self.success {
            write_lit(&mut out, "true");
        } else {
            write_lit(&mut out, "false");
        }
        write_lit(&mut out, ",\"code\":");
        write_int(&mut out, self.code as i64);
        write_lit(&mut out, ",\"message\":");
        write_str(&mut out, self.message.as_str());
        write_lit(&mut out, ",\"data\":");
        match &self.data {
            Option::None => {
                write_lit(&mut out, "null");
            },
            Option::Some(v) => {
                write_val(v, &mut out);
            },
        }
        write_lit(&mut out, "}");
        proof {
            assert(out@ =~= ser_env(*self));
        }
        chars_to_string(out)
    }

    /// Parses a serialized envelope back from its JSON text.
    ///
    /// The contract is the wire format's round-trip guarantee: for every
    /// envelope, parsing the text that `to_json` produces yields the
    /// envelope's `success`, `code`, `message` and `data` back exactly. In
    /// particular this holds for each constructor: an envelope built by
    /// `success` comes back with `success` true and its payload, one built
    /// by `suc` with `success` true, code 0, an empty message and no
    /// payload, and one built by `error` with `success` false and its code
    /// and message. The one exception is a payload that is itself JSON
    /// `null`: the wire format writes an absent payload the same way, and
    /// parsing reads `null` back as an absent payload.
    #[verifier::rlimit(100)]
    #[verifier::spinoff_prover]
    pub fn from_json(s: &str) -> (r: Option<ApiResp>)
        ensures
            forall|e: ApiResp|
                #[trigger] is_wire_form(s@, e) ==> (r matches Some(g) && env_matches(g, e)),
    {
        let cs = str_to_vec(s);
        let total = cs.len();
        proof {
            assert(cs@.len() == total as int);
        }
        let p1 = str_to_vec("{\"success\":");
        if !match_at(&cs, 0, &p1) {
            proof {
                assert forall|e: ApiResp| !(#[trigger] is_wire_form(cs@, e)) by {
                    if is_wire_form(cs@, e) {
                        env_parts(cs@, e);
                    }
                }
            }
            return None;
        }
        let j0 = p1.len();
        let pt = str_to_vec("true");
        let pf = str_to_vec("false");
        let is_t = match_at(&cs, j0, &pt);
        let is_f = if is_t {
            false
        } else {
            match_at(&cs, j0, &pf)
        };
        if !is_t && !is_f {
            proof {
                assert forall|e: ApiResp| !(#[trigger] is_wire_form(cs@, e)) by {
                    if is_wire_form(cs@, e) {
                        env_parts(cs@, e);
                    }
                }
            }
            return None;
        }
        let success = is_t;
        let j1 = if is_t {
            j0 + pt.len()
        } else {
            j0 + pf.len()
        };
        proof {
            assert forall|e: ApiResp|
                #[trigger] is_wire_form(cs@, e) implies (success == e.success && j1
                == off_code_lit(e)) by {
                env_parts(cs@, e);
                reveal_strlit("true");
                reveal_strlit("false");
                if e.success {
                    assert(cs@[off_bool() + 0] == "true"@[0]);
                } else {
                    assert(cs@[off_bool() + 0] == "false"@[0]);
                    if at_is(cs@, j0 as int, "true"@) {
                        assert(cs@[j0 + 0] == "true"@[0]);
                        assert(false);
                    }
                }
            }
        }
        let p2 = str_to_vec(",\"code\":");
        if !match_at(&cs, j1, &p2) {
            proof {
                assert forall|e: ApiResp| !(#[trigger] is_wire_form(cs@, e)) by {
                    if is_wire_form(cs@, e) {
                        env_parts(cs@, e);
                    }
                }
            }
            return None;
        }
        let j2 = j1 + p2.len();
        let ci = parse_int(&cs, j2);
        proof {
            assert forall|e: ApiResp|
                #[trigger] is_wire_form(cs@, e) implies ci == Some(
                ((e.code as i64), (off_msg_lit(e)) as usize),
            ) by {
                env_parts(cs@, e);
                assert(ser_int((e.code as i64) as int) == ser_int(e.code as int));
                assert(at_is(cs@, j2 as int, ser_int((e.code as i64) as int)));
            }
        }
        let (code64, j3) = match ci {
            Option::None => {
                return None;
            },
            Option::Some(p) => p,
        };
        if code64 > 2147483647i64 || code64 < -2147483648i64 {
            proof {
                assert forall|e: ApiResp| !(#[trigger] is_wire_form(cs@, e)) by {
                    if is_wire_form(cs@, e) {
                        env_parts(cs@, e);
                    }
                }
            }
            return None;
        }
        let code = code64 as i32;
        let p3 = str_to_vec(",\"message\":");
        if !match_at(&cs, j3, &p3) {
            proof {
                assert forall|e: ApiResp| !(#[trigger] is_wire_form(cs@, e)) by {
                    if is_wire_form(cs@, e) {
                        env_parts(cs@, e);
                    }
                }
            }
            return None;
        }
        let j4 = j3 + p3.len();
        let msr = parse_string(&cs, j4);
        proof {
            assert forall|e: ApiResp|
                #[trigger] is_wire_form(cs@, e) implies (msr matches Some(p) && p.0@ == e.message@
                && p.1 == off_data_lit(e)) by {
                env_parts(cs@, e);
                assert(at_is(cs@, j4 as int, ser_str(e.message@)));
            }
        }
        let (message, j5) = match msr {
            Option::None => {
                return None;
            },
            Option::Some(p) => p,
        };
        let p4 = str_to_vec(",\"data\":");
        if !match_at(&cs, j5, &p4) {
            proof {
                assert forall|e: ApiResp| !(#[trigger] is_wire_form(cs@, e)) by {
                    if is_wire_form(cs@, e) {
                        env_parts(cs@, e);
                    }
                }
            }
            return None;
        }
        let j6 = j5 + p4.len();
        let pn = str_to_vec("null");
        let is_n = match_at(&cs, j6, &pn);
        proof {
            assert forall|e: ApiResp| #[trigger] is_wire_form(cs@, e) implies j6 == off_data(
                e,
            ) by {
                env_parts(cs@, e);
                reveal_strlit("null");
                match e.data {
                    Option::None => {},
                    Option::Some(v) => {
                        lemma_ser_val_first(v);
                        assert(cs@[off_data(e) + 0] == ser_val(v)[0]);
                    },
                }
            }
        }
        let data: Option<JsonValue>;
        let j7: usize;
        if is_n {
            data = None;
            j7 = j6 + pn.len();
        } else {
            match parse_val(&cs, j6) {
                Option::None => {
                    proof {
                        assert forall|e: ApiResp| !(#[trigger] is_wire_form(cs@, e)) by {
                            if is_wire_form(cs@, e) {
                                env_parts(cs@, e);
                            }
                        }
                    }
                    return None;
                },
                Option::Some(p) => {
                    data = Some(p.0);
                    j7 = p.1;
                },
            }
        }
        proof {
            assert forall|e: ApiResp|
                #[trigger] is_wire_form(cs@, e) implies (data_matches(data, e.data) && j7
                == off_close(e)) by {
                env_parts(cs@, e);
                reveal_strlit("null");
                if is_n {
                    match e.data {
                        Option::None => {},
                        Option::Some(v) => {
                            lemma_ser_val_first(v);
                            assert(cs@[off_data(e) + 0] == ser_val(v)[0]);
                            assert(cs@[j6 + 0] == "null"@[0]);
                            assert(false);
                        },
                    }
                    assert(e.data is None);
                    assert(j7 == j6 + "null"@.len());
                } else {
                    match e.data {
                        Option::None => {
                            assert(false);
                        },
                        Option::Some(v) => {
                            assert(at_is(cs@, j6 as int, ser_val(v)));
                            assert(end_ok(cs@, j6 + ser_val(v).len()));
                        },
                    }
                }
            }
        }
        let p5 = str_to_vec("}");
        if !match_at(&cs, j7, &p5) {
            proof {
                assert forall|e: ApiResp| !(#[trigger] is_wire_form(cs@, e)) by {
                    if is_wire_form(cs@, e) {
                        env_parts(cs@, e);
                    }
                }
            }
            return None;
        }
        let j8 = j7 + p5.len();
        if j8 != cs.len() {
            proof {
                assert forall|e: ApiResp| !(#[trigger] is_wire_form(cs@, e)) by {
                    if is_wire_form(cs@, e) {
                        env_parts(cs@, e);
                    }
                }
            }
            return None;
        }
        Some(ApiResp { success, code, message, data })
    }
}

/// Whether `s` is the wire text of envelope `e`; the round-trip contract
/// quantifies over this form. A payload that is itself JSON `null` is
/// excluded: the wire format writes it exactly as it writes an absent
/// payload, so parsing maps both to the absent payload.
pub open spec fn is_wire_form(s: Seq<char>, e: ApiResp) -> bool {
    e.data != Option::Some(JsonValue::Null) && s == ser_env(e)
}

/// Structural equality of optional payloads, comparing strings inside
/// values by their character sequences.
pub open spec fn data_matches(a: Option<JsonValue>, b: Option<JsonValue>) -> bool {
    match (a, b) {
        (Option::None, Option::None) => true,
        (Option::Some(x), Option::Some(y)) => val_eq(x, y),
        _ => false,
    }
}

/// Whether envelope `g` reproduces envelope `e` field by field: the same
/// success flag and code, the same message text, and a structurally equal
/// payload.
pub open spec fn env_matches(g: ApiResp, e: ApiResp) -> bool {
    g.success == e.success && g.code == e.code && g.message@ == e.message@ && data_matches(
        g.data,
        e.data,
    )
}

/// Offset of the boolean inside a serialized envelope.
spec fn off_bool() -> int {
    "{\"success\":"@.len() as int
}

/// Offset of the literal before the code field.
spec fn off_code_lit(e: ApiResp) -> int {
    off_bool() + (if e.success {
        "true"@.len()
    } else {
        "false"@.len()
    })
}

/// Offset of the code's decimal notation.
spec fn off_code(e: ApiResp) -> int {
    off_code_lit(e) + ",\"code\":"@.len()
}

/// Offset of the literal before the message field.
spec fn off_msg_lit(e: ApiResp) -> int {
    off_code(e) + ser_int(e.code as int).len()
}

/// Offset of the message's string literal.
spec fn off_msg(e: ApiResp) -> int {
    off_msg_lit(e) + ",\"message\":"@.len()
}

/// Offset of the literal before the data field.
spec fn off_data_lit(e: ApiResp) -> int {
    off_msg(e) + ser_str(e.message@).len()
}

/// Offset of the serialized payload.
spec fn off_data(e: ApiResp) -> int {
    off_data_lit(e) + ",\"data\":"@.len()
}

/// Offset of the closing brace.
spec fn off_close(e: ApiResp) -> int {
    off_data(e) + (match e.data {
        Option::None => "null"@.len() as int,
        Option::Some(v) => ser_val(v).len() as int,
    })
}

/// Splits a serialized envelope into its literals and fields, giving the
/// position and shape of each part.
proof fn env_parts(s: Seq<char>, e: ApiResp)
    requires
        s == ser_env(e),
    ensures
        s.len() == off_close(e) + 1,
        at_is(s, 0, "{\"success\":"@),
        e.success ==> at_is(s, off_bool(), "true"@),
        !e.success ==> at_is(s, off_bool(), "false"@),
        at_is(s, off_code_lit(e), ",\"code\":"@),
        at_is(s, off_code(e), ser_int(e.code as int)),
        end_ok(s, off_msg_lit(e)),
        at_is(s, off_msg_lit(e), ",\"message\":"@),
        at_is(s, off_msg(e), ser_str(e.message@)),
        at_is(s, off_data_lit(e), ",\"data\":"@),
        e.data is None ==> at_is(s, off_data(e), "null"@),
        e.data matches Some(v) ==> at_is(s, off_data(e), ser_val(v)),
        end_ok(s, off_close(e)),
        at_is(s, off_close(e), "}"@),
        s[off_close(e)] == '}',
{
    reveal_strlit("{\"success\":");
    reveal_strlit(",\"code\":");
    reveal_strlit(",\"message\":");
    reveal_strlit(",\"data\":");
    reveal_strlit("}");
    reveal_strlit("true");
    reveal_strlit("false");
    reveal_strlit("null");
    let t1 = "{\"success\":"@;
    let b = if e.success {
        "true"@
    } else {
        "false"@
    };
    let t2 = ",\"code\":"@;
    let c = ser_int(e.code as int);
    let t3 = ",\"message\":"@;
    let m = ser_str(e.message@);
    let t4 = ",\"data\":"@;
    let d = match e.data {
        Option::None => "null"@,
        Option::Some(v) => ser_val(v),
    };
    let t5 = "}"@;
    assert(s =~= t1 + (b + (t2 + (c + (t3 + (m + (t4 + (d + t5))))))));
    assert(at_is(s, 0, t1 + (b + (t2 + (c + (t3 + (m + (t4 + (d + t5)))))))));
    lemma_at_split(s, 0, t1, b + (t2 + (c + (t3 + (m + (t4 + (d + t5)))))));
    lemma_at_split(s, t1.len() as int, b, t2 + (c + (t3 + (m + (t4 + (d + t5))))));
    lemma_at_split(s, off_code_lit(e), t2, c + (t3 + (m + (t4 + (d + t5)))));
    lemma_at_split(s, off_code(e), c, t3 + (m + (t4 + (d + t5))));
    lemma_at_split(s, off_msg_lit(e), t3, m + (t4 + (d + t5)));
    lemma_at_split(s, off_msg(e), m, t4 + (d + t5));
    lemma_at_split(s, off_data_lit(e), t4, d + t5);
    lemma_at_split(s, off_data(e), d, t5);
    assert(s[off_msg_lit(e) + 0] == t3[0]);
    assert(s[off_close(e) + 0] == t5[0]);
}

/// A failure that can describe itself to a human reader.
pub trait ErrorInfo {
    /// The description as an abstract character sequence.
    spec fn spec_description(&self) -> Seq<char>;

    /// A human-readable description of the failure.
    fn description(&self) -> (r: String)
        ensures
            r@ == self.spec_description(),
    ;
}

/// A plain textual failure, the simplest adapter into [`ErrorInfo`].
#[derive(Debug)]
pub struct OpError {
    /// The failure text.
    pub message: String,
}

impl OpError {
    /// Builds a failure from its text.
    pub fn new(message: String) -> (r: OpError)
        ensures
            r.message == message,
    {
        OpError { message }
    }
}

impl ErrorInfo for OpError {
    open spec fn spec_description(&self) -> Seq<char> {
        self.message@
    }

    fn description(&self) -> (r: String) {
        String::from_str(self.message.as_str())
    }
}

/// The standard return type of a fallible operation: an envelope, or an
/// underlying error that can describe itself.
pub type DaoResult<E> = Result<ApiResp, E>;

/// Conversion of an operation outcome into a caller-facing JSON string.
pub trait TransformResult {
    /// Turns the outcome into a JSON string. `err_log` is a contextual
    /// label naming the operation; implementations may hand it to their
    /// own diagnostics, while the failure's description itself always ends
    /// up in the envelope's message.
    fn to_json_str(self, err_log: &str) -> String;
}

impl<E: ErrorInfo> TransformResult for DaoResult<E> {
    /// On `Ok`, the envelope's own serialization; on `Err`, the
    /// serialization of a failure envelope with code -1 and the error's
    /// description as its message.
    fn to_json_str(self, err_log: &str) -> (r: String)
        ensures
            self matches Ok(e) ==> r@ == ser_env(e),
            self matches Err(ref e) ==> r@ == ser_fields(
                false,
                -1int,
                e.spec_description(),
                Option::None,
            ),
    {
        let _ = err_log;
        match self {
            Result::Ok(resp) => resp.to_json(),
            Result::Err(e) => {
                let resp = ApiResp::error(-1, e.description());
                resp.to_json()
            },
        }
    }
}

} // verus!
