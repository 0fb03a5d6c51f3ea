//! The transaction that a script's ops share: whether one is open, whether it
//! reads or writes, and what a table of a reading transaction does with edits.
//!
//! The transactions themselves belong to the database; this module decides
//! when one is begun, of which kind, and when it is committed.

use vstd::prelude::*;
use crate::table::TableEdit;

verus! {

/// The kind of an open transaction.
#[derive(PartialEq, Eq, Structural, Clone, Copy, Debug)]
pub enum Transaction {
    Read,
    Write,
}

/// What the caller is to do to obtain the transaction that an op uses.
#[derive(PartialEq, Eq, Structural, Clone, Copy, Debug)]
pub enum TransactionStep {
    /// Begin a new transaction of this kind and keep it open.
    Begin(Transaction),
    /// Go on with the open transaction, which is of this kind.
    Reuse(Transaction),
}

/// The transaction state of one script run.
pub struct TransactionContext {
    pub current_transaction: Option<Transaction>,
    pub read_only: bool,
}

impl TransactionContext {
    /// No transaction is open and writes are allowed.
    pub fn new() -> (r: Self)
        ensures
            r.current_transaction is None,
            !r.read_only,
    {
        TransactionContext { current_transaction: None, read_only: false }
    }

    /// Asks for reading transactions from now on. This has effect only while
    /// no transaction is open.
    pub fn set_read_only(&mut self)
        ensures
            final(self).current_transaction == old(self).current_transaction,
            final(self).read_only == (old(self).read_only || old(self).current_transaction is None),
    {
        if self.current_transaction.is_none() {
            self.read_only = true;
        }
    }

    /// The transaction that the next op uses: the open one, or a new one that
    /// reads when read-only was asked for and writes otherwise.
    pub fn get_or_create_transaction_mut(&mut self) -> (step: TransactionStep)
        ensures
            final(self).read_only == old(self).read_only,
            match old(self).current_transaction {
                Some(t) => step == TransactionStep::Reuse(t) && final(self).current_transaction
                    == Some(t),
                None => {
                    let t = if old(self).read_only {
                        Transaction::Read
                    } else {
                        Transaction::Write
                    };
                    step == TransactionStep::Begin(t) && final(self).current_transaction == Some(t)
                },
            },
    {
        match self.current_transaction {
            Some(t) => TransactionStep::Reuse(t),
            None => {
                let t = if self.read_only {
                    Transaction::Read
                } else {
                    Transaction::Write
                };
                self.current_transaction = Some(t);
                TransactionStep::Begin(t)
            },
        }
    }

    /// Closes the open transaction, if any, and hands it back to be committed.
    pub fn commit_transaction(&mut self) -> (committed: Option<Transaction>)
        ensures
            committed == old(self).current_transaction,
            final(self).current_transaction is None,
            final(self).read_only == old(self).read_only,
    {
        let committed = self.current_transaction;
        self.current_transaction = None;
        committed
    }
}

/// The edits that a table opened in a transaction of the given kind carries
/// out: a reading transaction's table ignores insertions. A removal through a
/// reading transaction's table is a fault, so none is passed here.
pub fn admitted_edits<K, V>(transaction: Transaction, edits: Vec<TableEdit<K, V>>) -> (r: Vec<
    TableEdit<K, V>,
>)
    requires
        transaction == Transaction::Read ==> forall|i: int|
            0 <= i < edits@.len() ==> (#[trigger] edits@[i]) is Insert,
    ensures
        transaction == Transaction::Write ==> r@ == edits@,
        transaction == Transaction::Read ==> r@.len() == 0,
{
    match transaction {
        Transaction::Write => edits,
        Transaction::Read => Vec::new(),
    }
}

} // verus!
