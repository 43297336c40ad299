use trie_updates::payload::{PayloadEvent, PayloadTestContext, SendOutcome, WaitStep, CANCUN_TIMESTAMP};

#[test]
fn new_starts_at_cancun_and_new_payload_advances() {
    let mut ctx = PayloadTestContext::new();
    assert_eq!(ctx.timestamp, CANCUN_TIMESTAMP);
    assert_eq!(ctx.timestamp, 1710338135);
    assert_eq!(ctx.new_payload(), 1710338136);
    assert_eq!(ctx.new_payload(), 1710338137);
    assert_eq!(ctx.timestamp, 1710338137);
}

#[test]
fn only_builder_errors_fail_a_send() {
    assert!(!PayloadTestContext::send_fails(SendOutcome::Accepted));
    assert!(PayloadTestContext::send_fails(SendOutcome::Rejected));
    assert!(!PayloadTestContext::send_fails(SendOutcome::Unavailable));
}

#[test]
fn attribute_event_must_carry_the_timestamp() {
    assert!(PayloadTestContext::expect_attr_event(7, PayloadEvent::Attributes { timestamp: 7 }));
    assert!(!PayloadTestContext::expect_attr_event(7, PayloadEvent::Attributes { timestamp: 8 }));
    assert!(!PayloadTestContext::expect_attr_event(7, PayloadEvent::BuiltPayload));
}

#[test]
fn built_payload_event_is_expected() {
    assert!(PayloadTestContext::expect_built_payload(PayloadEvent::BuiltPayload));
    assert!(!PayloadTestContext::expect_built_payload(PayloadEvent::Attributes { timestamp: 1 }));
}

#[test]
fn wait_resolves_on_transactions_or_timeout() {
    assert_eq!(PayloadTestContext::wait_for_built_payload(true, 0), WaitStep::Resolve);
    assert_eq!(PayloadTestContext::wait_for_built_payload(false, 499), WaitStep::Sleep(20));
    assert_eq!(PayloadTestContext::wait_for_built_payload(false, 500), WaitStep::Resolve);
}
