use api_resp::GuardFlow;
use api_resp::OpError;
use api_resp::Rollback;
use api_resp::rollback;
use api_resp::rollback_for_no_match;

struct MockTx {
    calls: u32,
    fail: bool,
}

impl Rollback for MockTx {
    type RollbackError = String;

    fn rollback(&mut self) -> Result<(), String> {
        self.calls += 1;
        if self.fail {
            Err("connection lost".to_string())
        } else {
            Ok(())
        }
    }
}

#[test]
fn rollback_passes_success_through() {
    let mut tx = MockTx { calls: 0, fail: false };
    let r: Result<GuardFlow<u32>, String> = rollback(Ok::<u32, OpError>(5), &mut tx, 1001);
    match r.unwrap() {
        GuardFlow::Proceed(v) => assert_eq!(v, 5),
        GuardFlow::Abort(_) => panic!("a successful step must fall through"),
    }
    assert_eq!(tx.calls, 0);
}

#[test]
fn rollback_rolls_back_once_on_error() {
    let mut tx = MockTx { calls: 0, fail: false };
    let r = rollback(
        Err::<u32, OpError>(OpError::new("step failed".to_string())),
        &mut tx,
        1001,
    );
    match r.unwrap() {
        GuardFlow::Proceed(_) => panic!("a failing step must abort"),
        GuardFlow::Abort(env) => {
            assert!(!env.is_success());
            assert_eq!(env.get_code(), 1001);
            assert_eq!(env.get_message(), "step failed");
            assert!(env.get_data().is_none());
        },
    }
    assert_eq!(tx.calls, 1);
}

#[test]
fn rollback_propagates_rollback_failure() {
    let mut tx = MockTx { calls: 0, fail: true };
    let r = rollback(
        Err::<u32, OpError>(OpError::new("step failed".to_string())),
        &mut tx,
        1001,
    );
    assert_eq!(r.unwrap_err(), "connection lost");
    assert_eq!(tx.calls, 1);
}

#[test]
fn no_match_passes_positive_count_through() {
    let mut tx = MockTx { calls: 0, fail: false };
    let r = rollback_for_no_match(Ok::<u64, OpError>(3), &mut tx, 2002);
    match r.unwrap() {
        GuardFlow::Proceed(n) => assert_eq!(n, 3),
        GuardFlow::Abort(_) => panic!("an effective mutation must fall through"),
    }
    assert_eq!(tx.calls, 0);
}

#[test]
fn no_match_rolls_back_once_on_zero_rows() {
    let mut tx = MockTx { calls: 0, fail: false };
    let r = rollback_for_no_match(Ok::<u64, OpError>(0), &mut tx, 2002);
    match r.unwrap() {
        GuardFlow::Proceed(_) => panic!("a no-op mutation must abort"),
        GuardFlow::Abort(env) => {
            assert!(!env.is_success());
            assert_eq!(env.get_code(), 2002);
            assert_eq!(env.get_message(), "no matching record");
            assert!(env.get_data().is_none());
        },
    }
    assert_eq!(tx.calls, 1);
}

#[test]
fn no_match_rolls_back_once_on_error() {
    let mut tx = MockTx { calls: 0, fail: false };
    let r = rollback_for_no_match(
        Err::<u64, OpError>(OpError::new("update failed".to_string())),
        &mut tx,
        2002,
    );
    match r.unwrap() {
        GuardFlow::Proceed(_) => panic!("a failing mutation must abort"),
        GuardFlow::Abort(env) => {
            assert!(!env.is_success());
            assert_eq!(env.get_code(), 2002);
            assert_eq!(env.get_message(), "update failed");
        },
    }
    assert_eq!(tx.calls, 1);
}

#[test]
fn no_match_propagates_rollback_failure() {
    let mut tx = MockTx { calls: 0, fail: true };
    let r = rollback_for_no_match(Ok::<u64, OpError>(0), &mut tx, 2002);
    assert_eq!(r.unwrap_err(), "connection lost");
    assert_eq!(tx.calls, 1);
}
