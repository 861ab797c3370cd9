use syntax_survey::store::{StoreAction, Transaction};

fn run(rows: usize, results: &[bool]) -> (Vec<StoreAction>, bool) {
    let mut transaction = Transaction::begin(rows);
    let mut actions = Vec::new();
    let mut results = results.iter();
    while let Some(action) = transaction.action() {
        actions.push(action);
        match results.next() {
            Some(ok) => transaction.advance(*ok),
            None => break,
        }
    }
    (actions, transaction.is_committed())
}

#[test]
fn every_row_is_stored_before_the_commit() {
    let (actions, committed) = run(3, &[true; 5]);
    assert_eq!(
        actions,
        vec![
            StoreAction::InsertSnapshot,
            StoreAction::InsertOccurrence(0),
            StoreAction::InsertOccurrence(1),
            StoreAction::InsertOccurrence(2),
            StoreAction::Commit,
        ]
    );
    assert!(committed);
}

#[test]
fn snapshot_without_rows_is_stored() {
    let (actions, committed) = run(0, &[true, true]);
    assert_eq!(actions, vec![StoreAction::InsertSnapshot, StoreAction::Commit]);
    assert!(committed);
}

#[test]
fn failed_row_rolls_back() {
    let (actions, committed) = run(3, &[true, true, false, true, true]);
    assert_eq!(
        actions,
        vec![
            StoreAction::InsertSnapshot,
            StoreAction::InsertOccurrence(0),
            StoreAction::InsertOccurrence(1),
            StoreAction::Rollback,
        ]
    );
    assert!(!committed);
}

#[test]
fn failed_snapshot_row_rolls_back() {
    let (actions, committed) = run(2, &[false, true]);
    assert_eq!(actions, vec![StoreAction::InsertSnapshot, StoreAction::Rollback]);
    assert!(!committed);
}

#[test]
fn failed_commit_rolls_back() {
    let (actions, committed) = run(1, &[true, true, false, false]);
    assert_eq!(
        actions,
        vec![
            StoreAction::InsertSnapshot,
            StoreAction::InsertOccurrence(0),
            StoreAction::Commit,
            StoreAction::Rollback,
        ]
    );
    assert!(!committed);
}

#[test]
fn nothing_is_committed_before_the_end() {
    let (actions, committed) = run(2, &[true, true, true]);
    assert_eq!(actions.last(), Some(&StoreAction::Commit));
    assert!(!committed);
}

#[test]
fn storing_is_over_after_the_commit() {
    let mut transaction = Transaction::begin(0);
    transaction.advance(true);
    transaction.advance(true);
    assert!(transaction.is_committed());
    assert_eq!(transaction.action(), None);
    transaction.advance(false);
    assert!(transaction.is_committed());
    assert_eq!(transaction.action(), None);
}
