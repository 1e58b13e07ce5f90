//! The SQL layer's view of the store: transactions of the MVCC layer.

use vstd::prelude::*;
use crate::engine::Engine;
use crate::error::Error;
use crate::engine::scan_of;
use crate::keys::{KeyView, key_code};
use crate::mvcc::{Mvcc, MvccTransaction, active_of, next_version, with_prefix};
use crate::values::u64_le;

verus! {

pub open spec fn txn_of(r: Result<KVTransaction, Error>) -> Result<MvccTransaction, Error> {
    match r {
        Ok(t) => Ok(t.txn),
        Err(e) => Err(e),
    }
}

/// The store the SQL layer runs its statements against.
pub struct KVEngine<E: Engine> {
    pub kv: Mvcc<E>,
}

impl<E: Engine> KVEngine<E> {
    pub fn new(engine: E) -> (r: Self)
        requires
            engine.inv(),
        ensures
            r.kv.inv(),
            r.kv.entries() == engine.entries(),
            r.kv.infallible() == engine.infallible(),
    {
        KVEngine { kv: Mvcc::new(engine) }
    }

    /// Starts a transaction.
    pub fn begin(&mut self) -> (r: Result<KVTransaction, Error>)
        requires
            old(self).kv.inv(),
        ensures
            final(self).kv.inv(),
            final(self).kv.infallible() == old(self).kv.infallible(),
            MvccTransaction::begin_post(old(self).kv.entries(), final(self).kv.entries(), txn_of(r)),
            old(self).kv.infallible() && next_version(old(self).kv.entries()) is Some && next_version(
                old(self).kv.entries(),
            )->Some_0 < u64::MAX && active_of(
                scan_of(
                    old(self).kv.entries().insert(
                        key_code(KeyView::NextVersion),
                        u64_le((next_version(old(self).kv.entries())->Some_0 + 1) as u64),
                    ),
                    with_prefix(seq![1u8]),
                ),
            ) is Some ==> r is Ok,
    {
        match self.kv.begin() {
            Ok(txn) => Ok(KVTransaction::new(txn)),
            Err(e) => Err(e),
        }
    }
}

/// A transaction of the SQL layer.
pub struct KVTransaction {
    pub txn: MvccTransaction,
}

impl KVTransaction {
    pub fn new(txn: MvccTransaction) -> (r: Self)
        ensures
            r.txn == txn,
    {
        KVTransaction { txn }
    }
}

} // verus!
