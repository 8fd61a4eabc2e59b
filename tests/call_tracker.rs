use call_tracker::ledger::{CallError, CallTracker};

const FEE: u128 = 10_000_000_000_000_000_000_000;

fn refusal(r: Result<String, CallError>) -> (u128, String) {
    match r {
        Err(CallError::InsufficientPayment { required_yocto, message }) => (required_yocto, message),
        Ok(s) => panic!("call was accepted: {}", s),
    }
}

#[test]
fn test_record_call() {
    let mut contract = CallTracker::default();

    let result = contract.record_call("alice", 0).unwrap();
    assert!(result.contains("1 times"));
    assert_eq!(contract.get_call_count("alice"), 1);

    let result = contract.record_call("alice", 0).unwrap();
    assert!(result.contains("2 times"));
    assert_eq!(contract.get_call_count("alice"), 2);
}

#[test]
fn counts_follow_free_calls() {
    let mut t = CallTracker::default();
    assert_eq!(t.get_call_count("alice"), 0);
    for n in 1..=3u32 {
        let reply = t.record_call("alice", 0).unwrap();
        assert_eq!(reply, format!("Call recorded. You have called this function {} times.", n));
        assert_eq!(t.get_call_count("alice"), n);
    }
}

#[test]
fn fourth_unpaid_call_is_refused_and_count_kept() {
    let mut t = CallTracker::default();
    for _ in 0..3 {
        t.record_call("alice", 0).unwrap();
    }
    let (required, message) = refusal(t.record_call("alice", FEE - 1));
    assert_eq!(required, FEE);
    assert_eq!(message, "Insufficient attached deposit. You must pay 0.010 NEAR after 3 calls.");
    assert_eq!(t.get_call_count("alice"), 3);
}

#[test]
fn fourth_paid_call_is_accepted() {
    let mut t = CallTracker::default();
    for _ in 0..3 {
        t.record_call("alice", 0).unwrap();
    }
    let reply = t.record_call("alice", FEE).unwrap();
    assert!(reply.contains("4 times"));
    assert_eq!(t.get_call_count("alice"), 4);
}

#[test]
fn unknown_account_counts_zero() {
    let t = CallTracker::default();
    assert_eq!(t.get_call_count("nobody"), 0);
}

#[test]
fn accounts_are_independent() {
    let mut t = CallTracker::default();
    t.record_call("alice", 0).unwrap();
    t.record_call("alice", 0).unwrap();
    t.record_call("bob", 0).unwrap();
    assert_eq!(t.get_call_count("alice"), 2);
    assert_eq!(t.get_call_count("bob"), 1);
    t.record_call("alice", 0).unwrap();
    assert!(t.record_call("alice", 0).is_err());
    assert_eq!(t.get_call_count("bob"), 1);
    t.record_call("bob", 0).unwrap();
    assert_eq!(t.get_call_count("bob"), 2);
}

#[test]
fn query_is_stable() {
    let mut t = CallTracker::default();
    t.record_call("alice", 0).unwrap();
    let first = t.get_call_count("alice");
    assert_eq!(t.get_call_count("alice"), first);
    assert_eq!(t.get_call_count("alice"), first);
}

#[test]
fn alice_scenario() {
    let mut t = CallTracker::default();
    for n in 1..=3u32 {
        assert!(t.record_call("alice", 0).is_ok());
        assert_eq!(t.get_call_count("alice"), n);
    }
    let (_, message) = refusal(t.record_call("alice", 0));
    assert!(message.contains("0.010 NEAR"));
    assert_eq!(t.get_call_count("alice"), 3);
    assert!(t.record_call("alice", FEE).is_ok());
    assert_eq!(t.get_call_count("alice"), 4);
}

#[test]
fn configured_thresholds() {
    let mut t = CallTracker::new(12, 5);
    for _ in 0..12 {
        t.record_call("carol", 0).unwrap();
    }
    assert_eq!(t.get_call_count("carol"), 12);
    let (required, message) = refusal(t.record_call("carol", 4));
    assert_eq!(required, 5);
    assert_eq!(message, "Insufficient attached deposit. You must pay <0.001 NEAR after 12 calls.");
    let reply = t.record_call("carol", 5).unwrap();
    assert_eq!(reply, "Call recorded. You have called this function 13 times.");
}

#[test]
fn no_free_calls_zero_fee() {
    let mut t = CallTracker::new(0, 0);
    assert!(t.record_call("dave", 0).is_ok());
    let mut u = CallTracker::new(0, 1);
    let (_, message) = refusal(u.record_call("dave", 0));
    assert!(message.contains("after 0 calls."));
    assert_eq!(u.get_call_count("dave"), 0);
}

#[test]
fn next_call_decides_on_stored_count() {
    let (n, reply) = call_tracker::ledger::next_call(7, 3, FEE, FEE).ok().unwrap();
    assert_eq!(n, 8);
    assert_eq!(reply, "Call recorded. You have called this function 8 times.");
    let (required, message) = refusal(call_tracker::ledger::next_call(3, 3, FEE, 0).map(|(_, s)| s));
    assert_eq!(required, FEE);
    assert!(message.contains("0.010 NEAR after 3 calls."));
}
