//! What the executor sees of a transaction: its id, and its maximum gas, which a
//! mint transaction does not have.

use vstd::prelude::*;
use crate::collision_manager::TxId;
use crate::error::Error;

verus! {

/// The kinds of transaction.
#[derive(Debug, Copy, Clone, PartialEq, Eq, Structural)]
pub enum TransactionKind {
    Script,
    Create,
    Upgrade,
    Upload,
    Blob,
    Mint,
}

/// A raw transaction: its kind, its id on the chain, and the maximum gas that the
/// chain's gas costs and fee parameters give it.
#[derive(Debug, Copy, Clone, PartialEq, Eq, Structural)]
pub struct Transaction {
    pub kind: TransactionKind,
    pub id: TxId,
    pub max_gas: u64,
}

/// A transaction that passed the checks, with the metadata they recorded.
#[derive(Debug, Copy, Clone, PartialEq, Eq, Structural)]
pub struct CheckedTransaction {
    pub kind: TransactionKind,
    pub id: TxId,
    pub metadata_max_gas: u64,
}

/// Either a checked transaction, with the version of the consensus parameters it
/// was checked against, or a raw one.
#[derive(Debug, Copy, Clone, PartialEq, Eq, Structural)]
pub enum MaybeCheckedTransaction {
    CheckedTransaction(CheckedTransaction, u32),
    Transaction(Transaction),
}

impl MaybeCheckedTransaction {
    /// The id of the wrapped transaction.
    pub fn id(&self) -> (r: TxId)
        ensures
            r == match *self {
                MaybeCheckedTransaction::CheckedTransaction(tx, _) => tx.id,
                MaybeCheckedTransaction::Transaction(tx) => tx.id,
            },
    {
        match self {
            MaybeCheckedTransaction::CheckedTransaction(tx, _) => tx.id,
            MaybeCheckedTransaction::Transaction(tx) => tx.id,
        }
    }
}

/// The maximum gas of a transaction, where it has one.
pub trait TransactionExt {
    /// The maximum gas, or `None` for a mint transaction.
    spec fn gas_bound(&self) -> Option<u64>;

    fn max_gas(&self) -> (r: Result<u64, Error>)
        ensures
            r == match self.gas_bound() {
                Some(g) => Ok::<u64, Error>(g),
                None => Err(Error::MintNotPoolable),
            },
    ;
}

impl TransactionExt for Transaction {
    open spec fn gas_bound(&self) -> Option<u64> {
        if self.kind == TransactionKind::Mint {
            None
        } else {
            Some(self.max_gas)
        }
    }

    fn max_gas(&self) -> (r: Result<u64, Error>) {
        match self.kind {
            TransactionKind::Mint => Err(Error::MintNotPoolable),
            _ => Ok(self.max_gas),
        }
    }
}

impl TransactionExt for CheckedTransaction {
    open spec fn gas_bound(&self) -> Option<u64> {
        if self.kind == TransactionKind::Mint {
            None
        } else {
            Some(self.metadata_max_gas)
        }
    }

    fn max_gas(&self) -> (r: Result<u64, Error>) {
        match self.kind {
            TransactionKind::Mint => Err(Error::MintNotPoolable),
            _ => Ok(self.metadata_max_gas),
        }
    }
}

impl TransactionExt for MaybeCheckedTransaction {
    open spec fn gas_bound(&self) -> Option<u64> {
        match *self {
            MaybeCheckedTransaction::CheckedTransaction(tx, _) => tx.gas_bound(),
            MaybeCheckedTransaction::Transaction(tx) => tx.gas_bound(),
        }
    }

    fn max_gas(&self) -> (r: Result<u64, Error>) {
        match self {
            MaybeCheckedTransaction::CheckedTransaction(tx, _) => tx.max_gas(),
            MaybeCheckedTransaction::Transaction(tx) => tx.max_gas(),
        }
    }
}

} // verus!
