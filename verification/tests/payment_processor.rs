use payment_router::payment_processor::{
    simulated_outcome, ExecutionBackend, FixedOutcome, PaymentError, PaymentProcessor,
    SimulatedExecution, MAX_RETRIES,
};
use payment_router::types::{PaymentRequest, PaymentStatus};
use std::collections::hash_map::DefaultHasher;
use std::hash::{Hash, Hasher};

fn payment(id: &str) -> PaymentRequest {
    PaymentRequest {
        id: id.to_string(),
        provider_id: "provider-1".to_string(),
        chain: "REI".to_string(),
        amount: 250,
        recipient: "0xabc".to_string(),
        metadata: "invoice 7".to_string(),
        timestamp: 1,
        status: PaymentStatus::Completed,
    }
}

/// A backend that plays a script of outcomes and counts its attempts.
struct Scripted {
    outcomes: Vec<bool>,
    attempts: usize,
}

impl ExecutionBackend for Scripted {
    fn execute(&mut self, _payment: &PaymentRequest) -> bool {
        let outcome = self.outcomes[self.attempts];
        self.attempts += 1;
        outcome
    }
}

/// A backend that notes what it is handed, and succeeds.
struct Watching {
    seen: Vec<(String, PaymentStatus, u64)>,
}

impl ExecutionBackend for Watching {
    fn execute(&mut self, payment: &PaymentRequest) -> bool {
        self.seen.push((payment.id.clone(), payment.status, payment.timestamp));
        true
    }
}

#[test]
fn new_processor_is_empty() {
    let processor = PaymentProcessor::new();
    assert!(processor.list_pending_payments().is_empty());
    assert_eq!(processor.get_payment_status("a"), None);
    assert_eq!(processor.retry_count("a"), None);
}

#[test]
fn submit_returns_id_and_stamps_the_payment() {
    let mut processor = PaymentProcessor::new();
    assert_eq!(processor.submit_payment(payment("a"), 77), Ok("a".to_string()));
    assert_eq!(processor.get_payment_status("a"), Some(PaymentStatus::Pending));
    assert_eq!(processor.retry_count("a"), Some(0));
    let pending = processor.list_pending_payments();
    assert_eq!(pending.len(), 1);
    assert_eq!(pending[0].id, "a");
    assert_eq!(pending[0].timestamp, 77);
    assert_eq!(pending[0].status, PaymentStatus::Pending);
    assert_eq!(pending[0].provider_id, "provider-1");
    assert_eq!(pending[0].chain, "REI");
    assert_eq!(pending[0].amount, 250);
    assert_eq!(pending[0].recipient, "0xabc");
    assert_eq!(pending[0].metadata, "invoice 7");
}

#[test]
fn submit_refuses_an_id_that_is_pending() {
    let mut processor = PaymentProcessor::new();
    assert!(processor.submit_payment(payment("a"), 1).is_ok());
    assert_eq!(processor.submit_payment(payment("a"), 2), Err(PaymentError::DuplicateId));
    assert_eq!(processor.list_pending_payments().len(), 1);
    assert_eq!(processor.list_pending_payments()[0].timestamp, 1);
}

#[test]
fn submit_refuses_an_id_that_is_archived() {
    let mut processor = PaymentProcessor::new();
    assert!(processor.submit_payment(payment("a"), 1).is_ok());
    assert!(processor.submit_payment(payment("b"), 1).is_ok());
    assert!(processor.submit_payment(payment("c"), 1).is_ok());
    let mut succeed = FixedOutcome { success: true };
    assert_eq!(processor.process_payment("a", &mut succeed), Ok(()));
    assert_eq!(processor.cancel_payment("b"), Ok(()));
    let mut fail = FixedOutcome { success: false };
    for _ in 0..4 {
        let _ = processor.process_payment("c", &mut fail);
    }
    assert_eq!(processor.get_payment_status("c"), Some(PaymentStatus::Failed));
    assert_eq!(processor.submit_payment(payment("a"), 9), Err(PaymentError::DuplicateId));
    assert_eq!(processor.submit_payment(payment("b"), 9), Err(PaymentError::DuplicateId));
    assert_eq!(processor.submit_payment(payment("c"), 9), Err(PaymentError::DuplicateId));
    assert!(processor.list_pending_payments().is_empty());
}

#[test]
fn process_unknown_payment_leaves_the_backend_alone() {
    let mut processor = PaymentProcessor::new();
    assert!(processor.submit_payment(payment("a"), 1).is_ok());
    let mut backend = Scripted { outcomes: vec![true], attempts: 0 };
    assert_eq!(processor.process_payment("missing", &mut backend), Err(PaymentError::NotFound));
    assert_eq!(backend.attempts, 0);
    assert_eq!(backend.outcomes, vec![true]);
    assert_eq!(processor.process_payment("a", &mut backend), Ok(()));
    assert_eq!(backend.attempts, 1);
}

#[test]
fn process_unknown_payment_is_not_found() {
    let mut processor = PaymentProcessor::new();
    let mut succeed = FixedOutcome { success: true };
    assert_eq!(processor.process_payment("missing", &mut succeed), Err(PaymentError::NotFound));
    assert!(processor.submit_payment(payment("a"), 1).is_ok());
    assert_eq!(processor.process_payment("a", &mut succeed), Ok(()));
    assert_eq!(processor.process_payment("a", &mut succeed), Err(PaymentError::NotFound));
}

#[test]
fn successful_attempt_completes_and_archives() {
    let mut processor = PaymentProcessor::new();
    assert!(processor.submit_payment(payment("a"), 1).is_ok());
    assert!(processor.submit_payment(payment("b"), 2).is_ok());
    let mut succeed = FixedOutcome { success: true };
    assert_eq!(processor.process_payment("a", &mut succeed), Ok(()));
    assert_eq!(processor.get_payment_status("a"), Some(PaymentStatus::Completed));
    assert_eq!(processor.retry_count("a"), None);
    assert_eq!(processor.get_payment_status("b"), Some(PaymentStatus::Pending));
    let pending = processor.list_pending_payments();
    assert_eq!(pending.len(), 1);
    assert_eq!(pending[0].id, "b");
}

#[test]
fn failed_attempt_goes_back_to_pending_with_one_more_retry() {
    let mut processor = PaymentProcessor::new();
    assert!(processor.submit_payment(payment("a"), 1).is_ok());
    let mut fail = FixedOutcome { success: false };
    assert_eq!(processor.process_payment("a", &mut fail), Ok(()));
    assert_eq!(processor.get_payment_status("a"), Some(PaymentStatus::Pending));
    assert_eq!(processor.retry_count("a"), Some(1));
    assert_eq!(processor.list_pending_payments().len(), 1);
}

#[test]
fn payment_that_always_fails_is_failed_on_the_fourth_attempt() {
    let mut processor = PaymentProcessor::new();
    assert!(processor.submit_payment(payment("a"), 1).is_ok());
    let mut fail = FixedOutcome { success: false };
    for attempt in 1..=3u32 {
        assert_eq!(processor.process_payment("a", &mut fail), Ok(()));
        assert_eq!(processor.get_payment_status("a"), Some(PaymentStatus::Pending));
        assert_eq!(processor.retry_count("a"), Some(attempt));
    }
    assert_eq!(processor.retry_count("a"), Some(MAX_RETRIES));
    assert_eq!(processor.process_payment("a", &mut fail), Err(PaymentError::RetryExhausted));
    assert_eq!(processor.get_payment_status("a"), Some(PaymentStatus::Failed));
    assert_eq!(processor.retry_count("a"), None);
    assert!(processor.list_pending_payments().is_empty());
    assert_eq!(processor.process_payment("a", &mut fail), Err(PaymentError::NotFound));
}

#[test]
fn success_after_failures_completes() {
    let mut processor = PaymentProcessor::new();
    assert!(processor.submit_payment(payment("a"), 1).is_ok());
    let mut backend = Scripted { outcomes: vec![false, false, false, true], attempts: 0 };
    for _ in 0..3 {
        assert_eq!(processor.process_payment("a", &mut backend), Ok(()));
    }
    assert_eq!(processor.process_payment("a", &mut backend), Ok(()));
    assert_eq!(backend.attempts, 4);
    assert_eq!(processor.get_payment_status("a"), Some(PaymentStatus::Completed));
}

#[test]
fn backend_is_handed_the_payment_in_processing() {
    let mut processor = PaymentProcessor::new();
    assert!(processor.submit_payment(payment("a"), 5).is_ok());
    let mut backend = Watching { seen: Vec::new() };
    assert_eq!(processor.process_payment("a", &mut backend), Ok(()));
    assert_eq!(backend.seen, vec![("a".to_string(), PaymentStatus::Processing, 5)]);
}

#[test]
fn cancel_pending_payment_archives_it() {
    let mut processor = PaymentProcessor::new();
    assert!(processor.submit_payment(payment("a"), 1).is_ok());
    assert_eq!(processor.cancel_payment("a"), Ok(()));
    assert_eq!(processor.get_payment_status("a"), Some(PaymentStatus::Cancelled));
    assert!(processor.list_pending_payments().is_empty());
}

#[test]
fn cancel_after_a_failed_attempt_is_allowed() {
    let mut processor = PaymentProcessor::new();
    assert!(processor.submit_payment(payment("a"), 1).is_ok());
    let mut fail = FixedOutcome { success: false };
    assert_eq!(processor.process_payment("a", &mut fail), Ok(()));
    assert_eq!(processor.cancel_payment("a"), Ok(()));
    assert_eq!(processor.get_payment_status("a"), Some(PaymentStatus::Cancelled));
}

#[test]
fn cancel_while_processing_is_invalid_state() {
    let mut processor = PaymentProcessor::new();
    assert!(processor.submit_payment(payment("a"), 1).is_ok());
    let attempt = processor.begin_processing("a").unwrap();
    assert_eq!(attempt.id, "a");
    assert_eq!(attempt.status, PaymentStatus::Processing);
    assert_eq!(processor.get_payment_status("a"), Some(PaymentStatus::Processing));
    assert_eq!(processor.cancel_payment("a"), Err(PaymentError::InvalidState));
    assert_eq!(processor.get_payment_status("a"), Some(PaymentStatus::Processing));
    assert_eq!(processor.list_pending_payments().len(), 1);
}

#[test]
fn cancel_unknown_or_archived_payment_is_not_found() {
    let mut processor = PaymentProcessor::new();
    assert_eq!(processor.cancel_payment("missing"), Err(PaymentError::NotFound));
    assert!(processor.submit_payment(payment("a"), 1).is_ok());
    let mut succeed = FixedOutcome { success: true };
    assert_eq!(processor.process_payment("a", &mut succeed), Ok(()));
    assert_eq!(processor.cancel_payment("a"), Err(PaymentError::NotFound));
    assert_eq!(processor.get_payment_status("a"), Some(PaymentStatus::Completed));
}

#[test]
fn begin_and_complete_run_an_attempt_in_two_steps() {
    let mut processor = PaymentProcessor::new();
    assert!(processor.submit_payment(payment("a"), 1).is_ok());
    assert_eq!(processor.begin_processing("missing").err(), Some(PaymentError::NotFound));
    assert!(processor.begin_processing("a").is_ok());
    assert_eq!(processor.complete_processing("a", false), Ok(()));
    assert_eq!(processor.get_payment_status("a"), Some(PaymentStatus::Pending));
    assert_eq!(processor.retry_count("a"), Some(1));
    assert!(processor.begin_processing("a").is_ok());
    assert_eq!(processor.retry_count("a"), Some(1));
    assert_eq!(processor.complete_processing("a", true), Ok(()));
    assert_eq!(processor.get_payment_status("a"), Some(PaymentStatus::Completed));
}

#[test]
fn complete_without_an_attempt_under_way_is_refused() {
    let mut processor = PaymentProcessor::new();
    assert_eq!(processor.complete_processing("missing", true), Err(PaymentError::NotFound));
    assert!(processor.submit_payment(payment("a"), 1).is_ok());
    assert_eq!(processor.complete_processing("a", true), Err(PaymentError::InvalidState));
    assert_eq!(processor.get_payment_status("a"), Some(PaymentStatus::Pending));
    assert_eq!(processor.retry_count("a"), Some(0));
}

#[test]
fn complete_two_step_failures_exhaust_the_retries() {
    let mut processor = PaymentProcessor::new();
    assert!(processor.submit_payment(payment("a"), 1).is_ok());
    for _ in 0..3 {
        assert!(processor.begin_processing("a").is_ok());
        assert_eq!(processor.complete_processing("a", false), Ok(()));
    }
    assert!(processor.begin_processing("a").is_ok());
    assert_eq!(processor.complete_processing("a", false), Err(PaymentError::RetryExhausted));
    assert_eq!(processor.get_payment_status("a"), Some(PaymentStatus::Failed));
}

#[test]
fn pending_payments_are_listed_in_order_of_submission() {
    let mut processor = PaymentProcessor::new();
    for id in ["c", "a", "b", "d"] {
        assert!(processor.submit_payment(payment(id), 1).is_ok());
    }
    assert_eq!(processor.cancel_payment("a"), Ok(()));
    let ids: Vec<String> =
        processor.list_pending_payments().iter().map(|p| p.id.clone()).collect();
    assert_eq!(ids, vec!["c".to_string(), "b".to_string(), "d".to_string()]);
}

#[test]
fn other_payments_are_untouched_by_an_attempt() {
    let mut processor = PaymentProcessor::new();
    assert!(processor.submit_payment(payment("a"), 1).is_ok());
    assert!(processor.submit_payment(payment("b"), 2).is_ok());
    let mut fail = FixedOutcome { success: false };
    assert_eq!(processor.process_payment("a", &mut fail), Ok(()));
    assert_eq!(processor.retry_count("a"), Some(1));
    assert_eq!(processor.retry_count("b"), Some(0));
    assert_eq!(processor.get_payment_status("b"), Some(PaymentStatus::Pending));
}

#[test]
fn error_messages() {
    assert_eq!(PaymentError::DuplicateId.message(), "Payment ID already exists");
    assert_eq!(PaymentError::NotFound.message(), "Payment not found");
    assert_eq!(
        PaymentError::InvalidState.message(),
        "Cannot cancel payment that is already processing"
    );
    assert_eq!(PaymentError::RetryExhausted.message(), "Payment failed after maximum retries");
}

#[test]
fn simulated_outcome_fails_one_hash_in_ten() {
    assert!(!simulated_outcome(0));
    assert!(simulated_outcome(1));
    assert!(simulated_outcome(9));
    assert!(!simulated_outcome(10));
    assert!(!simulated_outcome(18_446_744_073_709_551_610));
    assert!(simulated_outcome(u64::MAX));
}

#[test]
fn simulated_execution_goes_by_the_hash_of_the_id() {
    let mut backend = SimulatedExecution;
    let processor = PaymentProcessor::new();
    let mut seen_failure = false;
    let mut seen_success = false;
    for n in 0..200 {
        let id = format!("payment-{}", n);
        let mut hasher = DefaultHasher::new();
        id.hash(&mut hasher);
        let expected = hasher.finish() % 10 != 0;
        let request = payment(&id);
        assert_eq!(backend.execute(&request), expected);
        assert_eq!(processor.execute_blockchain_transaction(&request), expected);
        seen_failure = seen_failure || !expected;
        seen_success = seen_success || expected;
    }
    assert!(seen_failure && seen_success);
}

#[test]
fn simulated_execution_drives_the_processor() {
    let mut processor = PaymentProcessor::new();
    let mut backend = SimulatedExecution;
    for n in 0..50 {
        let id = format!("order-{}", n);
        let expected = backend.execute(&payment(&id));
        assert!(processor.submit_payment(payment(&id), n).is_ok());
        assert_eq!(processor.process_payment(&id, &mut backend), Ok(()));
        let status = processor.get_payment_status(&id);
        if expected {
            assert_eq!(status, Some(PaymentStatus::Completed));
        } else {
            assert_eq!(status, Some(PaymentStatus::Pending));
            assert_eq!(processor.retry_count(&id), Some(1));
        }
    }
}

#[test]
fn payment_clone_keeps_every_field() {
    let first = payment("a");
    let copy = first.clone();
    assert_eq!(copy.id, first.id);
    assert_eq!(copy.provider_id, first.provider_id);
    assert_eq!(copy.chain, first.chain);
    assert_eq!(copy.amount, first.amount);
    assert_eq!(copy.recipient, first.recipient);
    assert_eq!(copy.metadata, first.metadata);
    assert_eq!(copy.timestamp, first.timestamp);
    assert_eq!(copy.status, first.status);
}

#[test]
fn simulated_execution_depends_on_the_id_alone() {
    let mut backend = SimulatedExecution;
    let processor = PaymentProcessor::new();
    for n in 0..100 {
        let id = format!("invoice-{}", n);
        let first = payment(&id);
        let mut second = payment(&id);
        second.amount = 1;
        second.chain = "Polygon".to_string();
        second.status = PaymentStatus::Pending;
        second.timestamp = 99;
        let outcome = backend.execute(&first);
        assert_eq!(backend.execute(&second), outcome);
        assert_eq!(backend.execute(&first), outcome);
        assert_eq!(processor.execute_blockchain_transaction(&second), outcome);
    }
}
