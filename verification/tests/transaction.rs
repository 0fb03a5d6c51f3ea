use cloudstate::table::TableEdit;
use cloudstate::transaction::{admitted_edits, Transaction, TransactionContext, TransactionStep};

#[test]
fn first_op_begins_a_write_transaction_then_reuses_it() {
    let mut cx = TransactionContext::new();
    assert_eq!(cx.get_or_create_transaction_mut(), TransactionStep::Begin(Transaction::Write));
    assert_eq!(cx.get_or_create_transaction_mut(), TransactionStep::Reuse(Transaction::Write));
    assert_eq!(cx.commit_transaction(), Some(Transaction::Write));
    assert_eq!(cx.commit_transaction(), None);
}

#[test]
fn read_only_before_begin_makes_read_transactions() {
    let mut cx = TransactionContext::new();
    cx.set_read_only();
    assert!(cx.read_only);
    assert_eq!(cx.get_or_create_transaction_mut(), TransactionStep::Begin(Transaction::Read));
    assert_eq!(cx.commit_transaction(), Some(Transaction::Read));
    assert_eq!(cx.get_or_create_transaction_mut(), TransactionStep::Begin(Transaction::Read));
}

#[test]
fn read_only_after_begin_has_no_effect() {
    let mut cx = TransactionContext::new();
    cx.get_or_create_transaction_mut();
    cx.set_read_only();
    assert!(!cx.read_only);
    assert_eq!(cx.current_transaction, Some(Transaction::Write));
}

#[test]
fn read_transaction_ignores_inserts() {
    let edits: Vec<TableEdit<u8, u8>> = vec![TableEdit::Insert(1, 2), TableEdit::Insert(3, 4)];
    assert!(admitted_edits(Transaction::Read, edits).is_empty());
    let edits: Vec<TableEdit<u8, u8>> = vec![TableEdit::Insert(1, 2), TableEdit::Remove(1)];
    assert_eq!(admitted_edits(Transaction::Write, edits).len(), 2);
}
