use api_resp::ApiResp;
use api_resp::DaoResult;
use api_resp::ErrorInfo;
use api_resp::JsonValue;
use api_resp::OpError;
use api_resp::TransformResult;

#[test]
fn test_resp() {
    let suc_json = ApiResp::suc().to_json();
    println!("suc_json: {}", suc_json);
    let orig_suc: ApiResp = ApiResp::from_json(suc_json.as_str()).unwrap();
    assert!(orig_suc.is_success());

    let vals = vec![
        JsonValue::Obj(vec![
            ("color".to_string(), JsonValue::Str("white".to_string())),
            ("weight".to_string(), JsonValue::Int(10)),
        ]),
        JsonValue::Obj(vec![
            ("color".to_string(), JsonValue::Str("yellow".to_string())),
            ("weight".to_string(), JsonValue::Int(11)),
        ]),
    ];
    let suc_data = ApiResp::success(JsonValue::Arr(vals)).to_json();
    println!("suc_data: {}", suc_data);
    let orig_suc_data: ApiResp = ApiResp::from_json(suc_data.as_str()).unwrap();
    assert!(orig_suc_data.is_success());

    let fail_json = ApiResp::error(-1, String::from("交易出错了")).to_json();
    println!("fail_json: {}", fail_json);
    let orig_fail: ApiResp = ApiResp::from_json(fail_json.as_str()).unwrap();
    assert!(!orig_fail.is_success());
}

#[test]
fn suc_serializes_exactly() {
    let json = ApiResp::suc().to_json();
    assert_eq!(json, "{\"success\":true,\"code\":0,\"message\":\"\",\"data\":null}");
    let back = ApiResp::from_json(json.as_str()).unwrap();
    assert!(back.is_success());
    assert_eq!(back.get_code(), 0);
    assert_eq!(back.get_message(), "");
    assert!(back.get_data().is_none());
}

#[test]
fn success_array_scenario() {
    let resp = ApiResp::success(JsonValue::Arr(vec![
        JsonValue::Int(1),
        JsonValue::Int(1),
        JsonValue::Int(3),
        JsonValue::Int(5),
    ]));
    assert_eq!(
        resp.to_json(),
        "{\"success\":true,\"code\":0,\"message\":\"\",\"data\":[1,1,3,5]}"
    );
}

#[test]
fn error_scenario() {
    let resp = ApiResp::error(-1, "transaction failed".to_string());
    assert_eq!(
        resp.to_json(),
        "{\"success\":false,\"code\":-1,\"message\":\"transaction failed\",\"data\":null}"
    );
}

#[test]
fn success_round_trip_preserves_payload() {
    let payload = JsonValue::Obj(vec![
        ("id".to_string(), JsonValue::Str("01".to_string())),
        ("tags".to_string(), JsonValue::Arr(vec![
            JsonValue::Null,
            JsonValue::Bool(false),
            JsonValue::Str("".to_string()),
        ])),
        ("count".to_string(), JsonValue::Int(-42)),
    ]);
    let expected = payload.clone_by_rebuild();
    let json = ApiResp::success(payload).to_json();
    let back = ApiResp::from_json(json.as_str()).unwrap();
    assert!(back.is_success());
    assert_eq!(back.get_data(), &Some(expected));
}

// JsonValue deliberately has no Clone; rebuild the same value for comparison.
trait CloneByRebuild {
    fn clone_by_rebuild(&self) -> JsonValue;
}

impl CloneByRebuild for JsonValue {
    fn clone_by_rebuild(&self) -> JsonValue {
        match self {
            JsonValue::Null => JsonValue::Null,
            JsonValue::Bool(b) => JsonValue::Bool(*b),
            JsonValue::Int(n) => JsonValue::Int(*n),
            JsonValue::Str(s) => JsonValue::Str(s.clone()),
            JsonValue::Arr(es) => {
                JsonValue::Arr(es.iter().map(|e| e.clone_by_rebuild()).collect())
            }
            JsonValue::Obj(ms) => JsonValue::Obj(
                ms.iter().map(|m| (m.0.clone(), m.1.clone_by_rebuild())).collect(),
            ),
        }
    }
}

#[test]
fn error_round_trip_preserves_fields() {
    let json = ApiResp::error(42, "boom".to_string()).to_json();
    let back = ApiResp::from_json(json.as_str()).unwrap();
    assert!(!back.is_success());
    assert_eq!(back.get_code(), 42);
    assert_eq!(back.get_message(), "boom");
    assert!(back.get_data().is_none());
}

#[test]
fn escapes_round_trip() {
    let tricky = "a\"b\\c\nd\te\u{1}f";
    let json = ApiResp::error(7, tricky.to_string()).to_json();
    let back = ApiResp::from_json(json.as_str()).unwrap();
    assert_eq!(back.get_message(), tricky);
    assert_eq!(back.get_code(), 7);
}

#[test]
fn escapes_serialize_exactly() {
    let json = ApiResp::error(1, "a\"b\\c\nd".to_string()).to_json();
    assert_eq!(
        json,
        "{\"success\":false,\"code\":1,\"message\":\"a\\\"b\\\\c\\u000ad\",\"data\":null}"
    );
}

#[test]
fn int_extremes_round_trip() {
    for n in [i64::MIN, -1, 0, 1, i64::MAX] {
        let json = ApiResp::success(JsonValue::Int(n)).to_json();
        let back = ApiResp::from_json(json.as_str()).unwrap();
        assert_eq!(back.get_data(), &Some(JsonValue::Int(n)));
    }
}

#[test]
fn null_payload_reads_back_as_absent() {
    let json = ApiResp::success(JsonValue::Null).to_json();
    assert_eq!(json, "{\"success\":true,\"code\":0,\"message\":\"\",\"data\":null}");
    let back = ApiResp::from_json(json.as_str()).unwrap();
    assert!(back.get_data().is_none());
}

#[test]
fn malformed_inputs_are_rejected() {
    assert!(ApiResp::from_json("").is_none());
    assert!(ApiResp::from_json("{}").is_none());
    assert!(ApiResp::from_json("{\"success\":maybe,\"code\":0,\"message\":\"\",\"data\":null}")
        .is_none());
    assert!(ApiResp::from_json(
        "{\"success\":true,\"code\":99999999999999999999,\"message\":\"\",\"data\":null}"
    )
    .is_none());
    let good = "{\"success\":true,\"code\":0,\"message\":\"\",\"data\":null}";
    assert!(ApiResp::from_json(&format!("{}garbage", good)).is_none());
}

#[test]
fn to_json_str_ok_serializes_envelope() {
    let expected = ApiResp::error(5, "x".to_string()).to_json();
    let r: DaoResult<OpError> = Ok(ApiResp::error(5, "x".to_string()));
    assert_eq!(r.to_json_str("query dept"), expected);
}

#[test]
fn to_json_str_err_folds_to_generic_failure() {
    let r: DaoResult<OpError> = Err(OpError::new("db connection lost".to_string()));
    let expected = ApiResp::error(-1, "db connection lost".to_string()).to_json();
    assert_eq!(r.to_json_str("query dept"), expected);
}

#[test]
fn op_error_describes_itself() {
    let e = OpError::new("late".to_string());
    assert_eq!(e.description(), "late");
}
