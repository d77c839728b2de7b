use buffdb::transaction::{begin_statement, Outcome, TransactionState};

#[test]
fn begin_statement_text() {
    assert_eq!(begin_statement(), "BEGIN TRANSACTION");
}

#[test]
fn commit_runs_once() {
    let mut tx = TransactionState::new();
    assert!(!tx.is_committed());
    assert_eq!(tx.end_statement(Outcome::Commit), Some("COMMIT"));
    tx.record_end(true);
    assert!(tx.is_committed());
    assert_eq!(tx.end_statement(Outcome::Commit), None);
    assert_eq!(tx.end_statement(Outcome::Rollback), None);
    assert_eq!(tx.drop_statement(), None);
}

#[test]
fn failed_end_can_be_retried_and_drop_rolls_back() {
    let mut tx = TransactionState::new();
    assert_eq!(tx.end_statement(Outcome::Rollback), Some("ROLLBACK"));
    tx.record_end(false);
    assert!(!tx.is_committed());
    assert_eq!(tx.end_statement(Outcome::Commit), Some("COMMIT"));
    assert_eq!(tx.drop_statement(), Some("ROLLBACK"));
}

