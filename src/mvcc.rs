//! Snapshot-isolated transactions over any engine. Each transaction gets a
//! version; it reads the newest version of a key that it can see, and a write
//! fails where a concurrent or newer transaction has written the key.

use vstd::prelude::*;
use crate::bytes::{lex_le, lex_lt, lemma_lex_prefix, lemma_lex_trichotomy, lemma_lex_irreflexive};
use crate::engine::{
    Bound, Engine, EngineIterator, is_scan_of, scan_of, in_range, in_prefix_range, prefix_end, lemma_scan_of,
    scan_prefix as engine_scan_prefix, ascending,
};
use crate::error::Error;
use crate::keys::{MvccKey, MvccKeyPrefix, KeyView, Version, key_code, parse_key, prefix_code, lemma_decode_encode, lemma_key_order};
use crate::keycode::{escape, bytes_code, be_value, u64_bytes, lemma_u64_bytes, lemma_lex_equal_len_prefix};
use crate::memory::{MemoryEngine, map_of, lemma_map_of_all};
use crate::values::{
    u64_le, stored_code, is_stored_code, stored_of, opt_view, serialize_counter,
    deserialize_counter, serialize_stored, decode_stored,
};

verus! {

/// What a transaction saw when it began.
pub struct TransactionState {
    /// The transaction's own version.
    pub version: Version,
    /// The versions of the transactions in flight when it began.
    pub active_versions: Vec<Version>,
}

impl TransactionState {
    /// A version is visible when it is not one of the active ones and not newer.
    pub open spec fn visible(&self, v: u64) -> bool {
        !self.active_versions@.contains(v) && v <= self.version
    }

    /// The lowest version whose writes can conflict with this transaction's:
    /// the oldest active one, or else the next after its own.
    pub open spec fn conflict_floor(&self) -> u64 {
        if self.active_versions@.len() == 0 {
            (self.version + 1) as u64
        } else {
            choose|lo: u64|
                self.active_versions@.contains(lo) && forall|x: u64|
                    self.active_versions@.contains(x) ==> lo <= x
        }
    }

    pub fn is_visible(&self, version: Version) -> (r: bool)
        ensures
            r == self.visible(version),
    {
        let mut i: usize = 0;
        while i < self.active_versions.len()
            invariant
                i <= self.active_versions@.len(),
                forall|j: int| 0 <= j < i ==> self.active_versions@[j] != version,
            decreases self.active_versions@.len() - i,
        {
            if self.active_versions[i] == version {
                return false;
            }
            i = i + 1;
        }
        version <= self.version
    }

    fn conflict_floor_of(&self) -> (r: u64)
        requires
            self.version < u64::MAX,
        ensures
            r == self.conflict_floor(),
    {
        if self.active_versions.len() == 0 {
            return self.version + 1;
        }
        let mut lo: u64 = self.active_versions[0];
        let mut i: usize = 1;
        proof {
            assert(self.active_versions@.subrange(0, 1)[0] == lo);
        }
        while i < self.active_versions.len()
            invariant
                1 <= i <= self.active_versions@.len(),
                self.active_versions@.subrange(0, i as int).contains(lo),
                forall|j: int| 0 <= j < i ==> lo <= self.active_versions@[j],
            decreases self.active_versions@.len() - i,
        {
            if self.active_versions[i] < lo {
                lo = self.active_versions[i];
                proof {
                    assert(self.active_versions@.subrange(0, i + 1)[i as int] == lo);
                }
            } else {
                proof {
                    let j = choose|j: int| 0 <= j < i && self.active_versions@.subrange(0, i as int)[j] == lo;
                    assert(self.active_versions@.subrange(0, i + 1)[j] == lo);
                }
            }
            i = i + 1;
        }
        proof {
            let a = self.active_versions@;
            assert(a.subrange(0, i as int) =~= a);
            assert forall|x: u64| a.contains(x) implies lo <= x by {
                let j = choose|j: int| 0 <= j < a.len() && a[j] == x;
            }
            let c = self.conflict_floor();
            assert(a.contains(c) && forall|x: u64| a.contains(x) ==> c <= x);
            let jc = choose|j: int| 0 <= j < a.len() && a[j] == c;
            let jl = choose|j: int| 0 <= j < a.len() && a[j] == lo;
            assert(lo <= a[jc] && c <= a[jl]);
        }
        lo
    }
}

/// The keys of the versions of `key` from `lo` to `hi`, both included.
pub open spec fn versions_of(key: Seq<u8>, lo: u64, hi: u64) -> spec_fn(Seq<u8>) -> bool {
    |k: Seq<u8>|
        lex_le(key_code(KeyView::Version(key, lo)), k) && lex_le(
            k,
            key_code(KeyView::Version(key, hi)),
        )
}

/// The keys that start with `p`, as a prefix scan covers them.
pub open spec fn with_prefix(p: Seq<u8>) -> spec_fn(Seq<u8>) -> bool {
    |k: Seq<u8>| in_prefix_range(p, k)
}

/// What a read finds.
pub ghost enum ReadOutcome {
    /// No visible version.
    Absent,
    /// The stored bytes of the newest visible version.
    Stored(Seq<u8>),
    /// A key that is not a version record stands in the way.
    BadKey,
}

/// Walks `r` from its end to the first visible version.
pub open spec fn read_back(r: Seq<(Seq<u8>, Seq<u8>)>, st: &TransactionState) -> ReadOutcome
    decreases r.len(),
{
    if r.len() == 0 {
        ReadOutcome::Absent
    } else {
        match parse_key(r.last().0) {
            Some(KeyView::Version(_, w)) => if st.visible(w) {
                ReadOutcome::Stored(r.last().1)
            } else {
                read_back(r.drop_last(), st)
            },
            _ => ReadOutcome::BadKey,
        }
    }
}

/// What `get(key)` finds in the entries `m` for the transaction `st`: the
/// newest visible among the versions of `key` up to the transaction's own.
pub open spec fn read_spec(m: Map<Seq<u8>, Seq<u8>>, st: &TransactionState, key: Seq<u8>) -> ReadOutcome {
    read_back(scan_of(m, versions_of(key, 0, st.version)), st)
}

/// The outcome of the conflict check before a write.
pub ghost enum WriteCheck {
    Clear,
    Conflict,
    BadKey,
}

/// The newest version of `key` from the conflict floor on decides: a version
/// the transaction cannot see is a conflict.
pub open spec fn write_check(m: Map<Seq<u8>, Seq<u8>>, st: &TransactionState, key: Seq<u8>) -> WriteCheck {
    let r = scan_of(m, versions_of(key, st.conflict_floor(), u64::MAX));
    if r.len() == 0 {
        WriteCheck::Clear
    } else {
        match parse_key(r.last().0) {
            Some(KeyView::Version(_, w)) => if st.visible(w) {
                WriteCheck::Clear
            } else {
                WriteCheck::Conflict
            },
            _ => WriteCheck::BadKey,
        }
    }
}

/// The entries after a successful write of `value` (`None` deletes) to `key`
/// by version `v`.
pub open spec fn written(m: Map<Seq<u8>, Seq<u8>>, v: u64, key: Seq<u8>, value: Option<Seq<u8>>) -> Map<Seq<u8>, Seq<u8>> {
    m.insert(key_code(KeyView::TxnWrite(v, key)), seq![]).insert(
        key_code(KeyView::Version(key, v)),
        stored_code(value),
    )
}

/// The version the counter in `m` hands out next (`None` where the counter
/// is unreadable).
pub open spec fn next_version(m: Map<Seq<u8>, Seq<u8>>) -> Option<u64> {
    let k = key_code(KeyView::NextVersion);
    if !m.contains_key(k) {
        Some(1)
    } else if m[k].len() < 8 {
        None
    } else {
        Some(counter_value(m[k]))
    }
}

/// The number a stored counter holds: its first eight bytes, least
/// significant first.
pub open spec fn counter_value(b: Seq<u8>) -> u64 {
    be_value(b.subrange(0, 8).reverse()) as u64
}

/// The versions named by a run of active-transaction markers, in order
/// (`None` where another kind of key is among them).
pub open spec fn active_of(r: Seq<(Seq<u8>, Seq<u8>)>) -> Option<Seq<u64>>
    decreases r.len(),
{
    if r.len() == 0 {
        Some(seq![])
    } else {
        match (active_of(r.drop_last()), parse_key(r.last().0)) {
            (Some(s), Some(KeyView::TxnActive(w))) => Some(s.push(w)),
            _ => None,
        }
    }
}

/// The write-set range of version `v`: the keys from the prefix
/// `TxnWrite(v)` up to the prefix `TxnWrite(v + 1)`, which among encoded keys
/// are exactly the markers of `v` (see `lemma_markers_are_write_set`).
pub open spec fn write_markers(v: u64) -> spec_fn(Seq<u8>) -> bool {
    |k: Seq<u8>|
        lex_le(seq![2u8] + u64_bytes(v), k) && lex_lt(k, seq![2u8] + u64_bytes((v + 1) as u64))
}

/// The keys that rolling back version `v` removes from `m`: its write-set
/// markers and the version records they name.
pub open spec fn rollback_keys(m: Map<Seq<u8>, Seq<u8>>, v: u64) -> Set<Seq<u8>> {
    Set::new(
        |k: Seq<u8>|
            (m.contains_key(k) && write_markers(v)(k)) || exists|w: Seq<u8>|
                #![trigger m.contains_key(w)]
                m.contains_key(w) && write_markers(v)(w) && is_marker_of(w, v) && k == key_code(
                    KeyView::Version(parse_key(w)->Some_0->TxnWrite_1, v),
                ),
    )
}

/// A key among `v`'s write set that does not decode as a marker of `v`.
pub open spec fn has_bad_marker(m: Map<Seq<u8>, Seq<u8>>, v: u64) -> bool {
    exists|w: Seq<u8>| #![trigger m.contains_key(w)] m.contains_key(w) && write_markers(v)(w) && !is_marker_of(w, v)
}

/// What a prefix scan assembles.
pub ghost enum FoldOutcome {
    Entries(Map<Seq<u8>, Seq<u8>>),
    BadKey,
    BadValue,
}

/// Folds the version records of `r`, in order, into the newest visible value
/// of each user key: a visible payload sets the key, a visible delete removes it.
pub open spec fn scan_fold(r: Seq<(Seq<u8>, Seq<u8>)>, st: &TransactionState) -> FoldOutcome
    decreases r.len(),
{
    if r.len() == 0 {
        FoldOutcome::Entries(Map::empty())
    } else {
        match scan_fold(r.drop_last(), st) {
            FoldOutcome::Entries(mm) => match parse_key(r.last().0) {
                Some(KeyView::Version(uk, w)) => if !st.visible(w) {
                    FoldOutcome::Entries(mm)
                } else if !is_stored_code(r.last().1) {
                    FoldOutcome::BadValue
                } else {
                    match stored_of(r.last().1) {
                        Some(val) => FoldOutcome::Entries(mm.insert(uk, val)),
                        None => FoldOutcome::Entries(mm.remove(uk)),
                    }
                },
                _ => FoldOutcome::BadKey,
            },
            other => other,
        }
    }
}

/// The prefix of all version records of user keys that start with `p`: the
/// tag, then `p` escaped, without a terminator.
pub open spec fn version_prefix(p: Seq<u8>) -> Seq<u8> {
    seq![3u8] + escape(p)
}

/// What a prefix scan of the entries `m` returns to the transaction `st`.
pub open spec fn scan_spec(m: Map<Seq<u8>, Seq<u8>>, st: &TransactionState, p: Seq<u8>) -> FoldOutcome {
    scan_fold(scan_of(m, with_prefix(version_prefix(p))), st)
}

/// One entry of a prefix scan.
#[derive(Debug, PartialEq, Eq)]
pub struct ScanResult {
    pub key: Vec<u8>,
    pub value: Vec<u8>,
}

pub open spec fn results_view(v: Seq<ScanResult>) -> Seq<(Seq<u8>, Seq<u8>)> {
    v.map_values(|r: ScanResult| (r.key@, r.value@))
}

/// The shared store under all transactions.
pub struct Mvcc<E: Engine> {
    engine: E,
}

impl<E: Engine> Mvcc<E> {
    pub closed spec fn entries(&self) -> Map<Seq<u8>, Seq<u8>> {
        self.engine.entries()
    }

    pub closed spec fn inv(&self) -> bool {
        self.engine.inv()
    }

    /// The engine underneath never fails.
    pub closed spec fn infallible(&self) -> bool {
        self.engine.infallible()
    }

    pub fn new(eng: E) -> (r: Self)
        requires
            eng.inv(),
        ensures
            r.inv(),
            r.entries() == eng.entries(),
            r.infallible() == eng.infallible(),
    {
        Mvcc { engine: eng }
    }

    /// Starts a transaction.
    pub fn begin(&mut self) -> (r: Result<MvccTransaction, Error>)
        requires
            old(self).inv(),
        ensures
            final(self).inv(),
            final(self).infallible() == old(self).infallible(),
            MvccTransaction::begin_post(old(self).entries(), final(self).entries(), r),
            old(self).infallible() && next_version(old(self).entries()) is Some && next_version(
                old(self).entries(),
            )->Some_0 < u64::MAX && active_of(
                scan_of(
                    old(self).entries().insert(
                        key_code(KeyView::NextVersion),
                        u64_le((next_version(old(self).entries())->Some_0 + 1) as u64),
                    ),
                    with_prefix(seq![1u8]),
                ),
            ) is Some ==> r is Ok,
    {
        MvccTransaction::begin(&mut self.engine)
    }
}

/// A transaction: the snapshot it began with. Its operations act on the
/// store they are handed.
pub struct MvccTransaction {
    state: TransactionState,
}

impl MvccTransaction {
    pub closed spec fn view(&self) -> &TransactionState {
        &self.state
    }

    pub closed spec fn wf(&self) -> bool {
        self.state.version < u64::MAX
    }

    pub open spec fn begin_post(
        m0: Map<Seq<u8>, Seq<u8>>,
        m: Map<Seq<u8>, Seq<u8>>,
        r: Result<MvccTransaction, Error>,
    ) -> bool {
        &&& next_version(m0) is None ==> r is Err
        &&& next_version(m0) == Some(u64::MAX) ==> r is Err
        &&& r is Ok ==> {
            let t = r->Ok_0;
            let v = t@.version;
            let m1 = m0.insert(key_code(KeyView::NextVersion), u64_le((v + 1) as u64));
            &&& t.wf()
            &&& next_version(m0) == Some(v)
            &&& is_scan_of(m1, with_prefix(seq![1u8]), scan_of(m1, with_prefix(seq![1u8])))
            &&& active_of(scan_of(m1, with_prefix(seq![1u8]))) == Some(t@.active_versions@)
            &&& m == m1.insert(key_code(KeyView::TxnActive(v)), seq![])
        }
    }

    pub fn version(&self) -> (r: Version)
        ensures
            r == self@.version,
    {
        self.state.version
    }

    /// The versions that were active when this transaction began.
    pub fn active_versions(&self) -> (r: Vec<Version>)
        ensures
            r@ == self@.active_versions@,
    {
        let r = self.state.active_versions.clone();
        proof {
            assert(r@ =~= self.state.active_versions@);
        }
        r
    }

    /// Takes the next version from the counter, notes which transactions are
    /// active, and marks this one active.
    pub fn begin<E: Engine>(engine: &mut E) -> (r: Result<MvccTransaction, Error>)
        requires
            old(engine).inv(),
        ensures
            final(engine).inv(),
            final(engine).infallible() == old(engine).infallible(),
            MvccTransaction::begin_post(old(engine).entries(), final(engine).entries(), r),
            old(engine).infallible() && next_version(old(engine).entries()) is Some && next_version(
                old(engine).entries(),
            )->Some_0 < u64::MAX && active_of(
                scan_of(
                    old(engine).entries().insert(
                        key_code(KeyView::NextVersion),
                        u64_le((next_version(old(engine).entries())->Some_0 + 1) as u64),
                    ),
                    with_prefix(seq![1u8]),
                ),
            ) is Some ==> r is Ok,
    {
        let ghost m0 = engine.entries();
        let stored = engine.get(MvccKey::NextVersion.encode())?;
        let new_version = next_version_of(stored)?;
        let next = match serialize_counter(new_version + 1) {
            Some(b) => b,
            None => return Err(Error::Internal),
        };
        engine.set(MvccKey::NextVersion.encode(), next)?;
        let active_versions = Self::scan_active(engine)?;
        engine.set(MvccKey::TxnActive(new_version).encode(), Vec::new())?;
        Ok(MvccTransaction { state: TransactionState { version: new_version, active_versions } })
    }

    /// The versions of the active transactions, in key order.
    fn scan_active<E: Engine>(engine: &mut E) -> (r: Result<Vec<Version>, Error>)
        requires
            old(engine).inv(),
        ensures
            final(engine).inv(),
            final(engine).infallible() == old(engine).infallible(),
            final(engine).entries() == old(engine).entries(),
            active_of(scan_of(old(engine).entries(), with_prefix(seq![1u8]))) is None ==> r is Err,
            old(engine).infallible() && active_of(scan_of(old(engine).entries(), with_prefix(seq![1u8]))) is Some
                ==> r is Ok,
            r is Ok ==> active_of(scan_of(old(engine).entries(), with_prefix(seq![1u8])))
                == Some(r->Ok_0@),
            r is Ok ==> is_scan_of(
                old(engine).entries(),
                with_prefix(seq![1u8]),
                scan_of(old(engine).entries(), with_prefix(seq![1u8])),
            ),
    {
        let ghost m = engine.entries();
        let prefix = MvccKeyPrefix::TxnActive.encode();
        let it = engine_scan_prefix(engine, prefix)?;
        let ghost all = it@;
        proof {
            let rng = with_prefix(seq![1u8]);
            assert forall|k: Seq<u8>| #[trigger] rng(k) == in_prefix_range(prefix_code(&MvccKeyPrefix::TxnActive), k) by {}
            assert(is_scan_of(m, rng, all));
            lemma_scan_of(m, rng, all);
        }
        active_versions_of(it)
    }

    /// The value of `key` as this transaction sees it.
    pub fn get<E: Engine>(&self, mvcc: &mut Mvcc<E>, key: Vec<u8>) -> (r: Result<Option<Vec<u8>>, Error>)
        requires
            old(mvcc).inv(),
        ensures
            final(mvcc).inv(),
            final(mvcc).infallible() == old(mvcc).infallible(),
            final(mvcc).entries() == old(mvcc).entries(),
            old(mvcc).infallible() ==> r != Err::<Option<Vec<u8>>, Error>(Error::Io),
            read_spec(old(mvcc).entries(), self@, key@) == ReadOutcome::Absent ==> r == Ok::<
                Option<Vec<u8>>,
                Error,
            >(None) || r == Err::<Option<Vec<u8>>, Error>(Error::Io),
            forall|b: Seq<u8>|
                read_spec(old(mvcc).entries(), self@, key@) == ReadOutcome::Stored(b)
                    && is_stored_code(b) ==> (r is Ok && opt_view(r->Ok_0) == stored_of(b)) || r
                    == Err::<Option<Vec<u8>>, Error>(Error::Io),
            read_spec(old(mvcc).entries(), self@, key@) == ReadOutcome::BadKey ==> r == Err::<
                Option<Vec<u8>>,
                Error,
            >(Error::Internal) || r == Err::<Option<Vec<u8>>, Error>(Error::Io),
            keys_encoded(old(mvcc).entries()) && r != Err::<Option<Vec<u8>>, Error>(Error::Io)
                ==> read_spec(old(mvcc).entries(), self@, key@) == newest_visible(
                old(mvcc).entries(),
                self@,
                key@,
            ),
    {
        let ghost m = mvcc.entries();
        let k1 = key.clone();
        let k2 = key.clone();
        proof {
            assert(k1@ =~= key@);
            assert(k2@ =~= key@);
        }
        let from = MvccKey::Version(k1, 0).encode();
        let to = MvccKey::Version(k2, self.state.version).encode();
        let ghost start = Bound::Included(from);
        let ghost end = Bound::Included(to);
        let mut it = mvcc.engine.scan(Bound::Included(from), Bound::Included(to))?;
        let ghost all = it@;
        proof {
            let rng = versions_of(key@, 0, self.state.version);
            assert forall|k: Seq<u8>| #[trigger] rng(k) == in_range(&start, &end, k) by {}
            assert(is_scan_of(m, rng, all));
            lemma_scan_of(m, rng, all);
            if keys_encoded(m) {
                lemma_snapshot_read(m, &self.state, key@, all);
            }
        }
        newest_visible_of(&mut it, &self.state)
    }

    /// What a write of `value` (`None` deletes) to `key` by the transaction
    /// `st` ends in: a conflict or a corrupt key leaves the store alone and
    /// fails (with that error, unless the engine failed first); the write
    /// succeeds where the check is clear and the engine does not fail.
    pub open spec fn write_post(
        m0: Map<Seq<u8>, Seq<u8>>,
        m1: Map<Seq<u8>, Seq<u8>>,
        infallible: bool,
        st: &TransactionState,
        key: Seq<u8>,
        value: Option<Seq<u8>>,
        r: Result<(), Error>,
    ) -> bool {
        &&& write_check(m0, st, key) == WriteCheck::Conflict ==> (r == Err::<(), Error>(Error::WriteConflict)
            || r == Err::<(), Error>(Error::Io)) && m1 == m0
        &&& write_check(m0, st, key) == WriteCheck::BadKey ==> (r == Err::<(), Error>(Error::Internal) || r
            == Err::<(), Error>(Error::Io)) && m1 == m0
        &&& r == Err::<(), Error>(Error::WriteConflict) ==> write_check(m0, st, key) == WriteCheck::Conflict
        &&& infallible && write_check(m0, st, key) == WriteCheck::Clear ==> r is Ok
        &&& r is Ok ==> write_check(m0, st, key) == WriteCheck::Clear && m1 == written(m0, st.version, key, value)
    }

    /// Writes `value` to `key` (`None` deletes it), unless another
    /// transaction's write conflicts.
    fn write_inner<E: Engine>(&self, mvcc: &mut Mvcc<E>, key: Vec<u8>, value: Option<Vec<u8>>) -> (r: Result<(), Error>)
        requires
            old(mvcc).inv(),
            self.wf(),
        ensures
            final(mvcc).inv(),
            final(mvcc).infallible() == old(mvcc).infallible(),
            Self::write_post(old(mvcc).entries(), final(mvcc).entries(), old(mvcc).infallible(), self@, key@, opt_view(value), r),
    {
        let ghost m = mvcc.entries();
        let lo = self.state.conflict_floor_of();
        let k1 = key.clone();
        let k2 = key.clone();
        let k3 = key.clone();
        proof {
            assert(k1@ =~= key@);
            assert(k2@ =~= key@);
            assert(k3@ =~= key@);
        }
        let from = MvccKey::Version(k1, lo).encode();
        let to = MvccKey::Version(k2, u64::MAX).encode();
        let ghost start = Bound::Included(from);
        let ghost end = Bound::Included(to);
        let mut it = mvcc.engine.scan(Bound::Included(from), Bound::Included(to))?;
        let ghost all = it@;
        proof {
            let rng = versions_of(key@, self.state.conflict_floor(), u64::MAX);
            assert forall|k: Seq<u8>| #[trigger] rng(k) == in_range(&start, &end, k) by {}
            assert(is_scan_of(m, rng, all));
            lemma_scan_of(m, rng, all);
        }
        let last = it.next_back();
        conflict_of(last, &self.state)?;
        let stored = match serialize_stored(&value) {
            Some(b) => b,
            None => return Err(Error::Internal),
        };
        mvcc.engine.set(MvccKey::TxnWrite(self.state.version, k3).encode(), Vec::new())?;
        mvcc.engine.set(MvccKey::Version(key, self.state.version).encode(), stored)?;
        Ok(())
    }

    /// Sets `key` to `value` in this transaction.
    pub fn set<E: Engine>(&self, mvcc: &mut Mvcc<E>, key: Vec<u8>, value: Vec<u8>) -> (r: Result<(), Error>)
        requires
            old(mvcc).inv(),
            self.wf(),
        ensures
            final(mvcc).inv(),
            final(mvcc).infallible() == old(mvcc).infallible(),
            Self::write_post(old(mvcc).entries(), final(mvcc).entries(), old(mvcc).infallible(), self@, key@, Some(value@), r),
    {
        self.write_inner(mvcc, key, Some(value))
    }

    /// Deletes `key` in this transaction.
    pub fn delete<E: Engine>(&self, mvcc: &mut Mvcc<E>, key: Vec<u8>) -> (r: Result<(), Error>)
        requires
            old(mvcc).inv(),
            self.wf(),
        ensures
            final(mvcc).inv(),
            final(mvcc).infallible() == old(mvcc).infallible(),
            Self::write_post(old(mvcc).entries(), final(mvcc).entries(), old(mvcc).infallible(), self@, key@, None, r),
    {
        self.write_inner(mvcc, key, None)
    }
}

impl MvccTransaction {
    /// Scans this transaction's write-set markers: the keys from
    /// `TxnWrite(v)` up to `TxnWrite(v + 1)`.
    fn scan_markers<E: Engine>(&self, mvcc: &mut Mvcc<E>) -> (r: Result<EngineIterator, Error>)
        requires
            old(mvcc).inv(),
            self.wf(),
        ensures
            final(mvcc).inv(),
            final(mvcc).infallible() == old(mvcc).infallible(),
            final(mvcc).entries() == old(mvcc).entries(),
            r is Err ==> r == Err::<EngineIterator, Error>(Error::Io),
            old(mvcc).infallible() ==> r is Ok,
            r is Ok ==> r->Ok_0.wf() && is_scan_of(old(mvcc).entries(), write_markers(self@.version), r->Ok_0@),
    {
        let ghost m = mvcc.entries();
        let ghost v = self.state.version;
        let from = MvccKeyPrefix::TxnWrite(self.state.version).encode();
        let to = MvccKeyPrefix::TxnWrite(self.state.version + 1).encode();
        let ghost start = Bound::Included(from);
        let ghost end = Bound::Excluded(to);
        let r = mvcc.engine.scan(Bound::Included(from), Bound::Excluded(to));
        proof {
            if r is Ok {
                let rng = write_markers(v);
                assert forall|k: Seq<u8>| #[trigger] rng(k) == in_range(&start, &end, k) by {}
                assert(is_scan_of(m, rng, r->Ok_0@));
            }
        }
        r
    }

    /// Ends the transaction: its write-set markers and its active marker go;
    /// its versions stay and become visible to later transactions.
    pub fn commit<E: Engine>(&self, mvcc: &mut Mvcc<E>) -> (r: Result<(), Error>)
        requires
            old(mvcc).inv(),
            self.wf(),
        ensures
            final(mvcc).inv(),
            final(mvcc).infallible() == old(mvcc).infallible(),
            r is Err ==> r == Err::<(), Error>(Error::Io),
            old(mvcc).infallible() ==> r is Ok,
            r is Ok ==> final(mvcc).entries() == old(mvcc).entries().remove_keys(
                Set::new(write_markers(self@.version)),
            ).remove(key_code(KeyView::TxnActive(self@.version))),
    {
        let ghost m = mvcc.entries();
        let ghost v = self.state.version;
        let mut it = self.scan_markers(mvcc)?;
        let ghost all = it@;
        let total = it.remaining();
        let mut i: usize = 0;
        while i < total
            invariant
                it.wf(),
                mvcc.inv(),
                mvcc.infallible() == old(mvcc).infallible(),
                m == old(mvcc).entries(),
                v == self.state.version,
                total == all.len(),
                is_scan_of(m, write_markers(v), all),
                0 <= i <= all.len(),
                it@ == all.subrange(i as int, all.len() as int),
                mvcc.entries() == m.remove_keys(taken_keys(all, i as int)),
            decreases all.len() - i,
        {
            let ghost before = it@;
            match it.next() {
                None => {
                    return Ok(());
                },
                Some((key, _)) => {
                    proof {
                        assert(before[0] == all[i as int]);
                        lemma_taken_step(all, i as int);
                    }
                    mvcc.engine.delete(key)?;
                    proof {
                        assert(it@ =~= all.subrange(i + 1, all.len() as int));
                        assert(mvcc.entries() =~= m.remove_keys(taken_keys(all, i + 1)));
                    }
                    i = i + 1;
                },
            }
        }
        proof {
            assert(m.remove_keys(taken_keys(all, all.len() as int)) =~= m.remove_keys(
                Set::new(write_markers(v)),
            )) by {
                assert forall|k: Seq<u8>| m.contains_key(k) && #[trigger] write_markers(v)(k) implies taken_keys(all, all.len() as int).contains(k) by {
                    let x = choose|x: int| 0 <= x < all.len() && (#[trigger] all[x].0) == k;
                }
            }
        }
        mvcc.engine.delete(MvccKey::TxnActive(self.state.version).encode())?;
        Ok(())
    }

    /// Ends the transaction undoing its writes: the versions it wrote, its
    /// write-set markers and its active marker go.
    pub fn rollback<E: Engine>(&self, mvcc: &mut Mvcc<E>) -> (r: Result<(), Error>)
        requires
            old(mvcc).inv(),
            self.wf(),
        ensures
            final(mvcc).inv(),
            final(mvcc).infallible() == old(mvcc).infallible(),
            has_bad_marker(old(mvcc).entries(), self@.version) ==> r == Err::<(), Error>(Error::Internal) || r
                == Err::<(), Error>(Error::Io),
            old(mvcc).infallible() && !has_bad_marker(old(mvcc).entries(), self@.version) ==> r is Ok,
            r is Ok ==> final(mvcc).entries() == old(mvcc).entries().remove_keys(
                rollback_keys(old(mvcc).entries(), self@.version),
            ).remove(key_code(KeyView::TxnActive(self@.version))),
    {
        let ghost m = mvcc.entries();
        let ghost v = self.state.version;
        let it = self.scan_markers(mvcc)?;
        let ghost all = it@;
        let dels = match undo_keys_of(it, self.state.version) {
            Ok(d) => d,
            Err(e) => {
                proof {
                    let i = choose|i: int| 0 <= i < all.len() && !is_marker_of(#[trigger] all[i].0, v);
                    lemma_bad_marker(m, v, all, i);
                }
                return Err(e);
            },
        };
        proof {
            lemma_no_bad_marker(m, v, all);
        }
        let n = dels.len();
        let mut j: usize = 0;
        while j < n
            invariant
                mvcc.inv(),
                mvcc.infallible() == old(mvcc).infallible(),
                m == old(mvcc).entries(),
                n == dels@.len(),
                j <= n,
                mvcc.entries() == m.remove_keys(vec_keys(dels@.subrange(0, j as int))),
            decreases n - j,
        {
            let d = dels[j].clone();
            proof {
                assert(d@ =~= dels@[j as int]@);
            }
            mvcc.engine.delete(d)?;
            proof {
                assert(mvcc.entries() =~= m.remove_keys(vec_keys(dels@.subrange(0, j + 1)))) by {
                    let s1 = dels@.subrange(0, j + 1);
                    let s0 = dels@.subrange(0, j as int);
                    assert forall|k: Seq<u8>| #[trigger] vec_keys(s1).contains(k) <==> (vec_keys(s0).contains(k) || k == dels@[j as int]@) by {
                        if vec_keys(s1).contains(k) {
                            let y = choose|y: int| 0 <= y < s1.len() && (#[trigger] s1[y])@ == k;
                            if y < j {
                                assert(s0[y] == s1[y]);
                            }
                        }
                        if vec_keys(s0).contains(k) {
                            let y = choose|y: int| 0 <= y < s0.len() && (#[trigger] s0[y])@ == k;
                            assert(s1[y] == s0[y]);
                        }
                        if k == dels@[j as int]@ {
                            assert(s1[j as int] == dels@[j as int]);
                        }
                    }
                }
            }
            j = j + 1;
        }
        proof {
            assert(dels@.subrange(0, n as int) =~= dels@);
            lemma_undo_keys_all(m, v, all);
            assert(vec_keys(dels@) =~= undo_keys(all, all.len() as int, v));
            assert(m.remove_keys(vec_keys(dels@)) =~= m.remove_keys(rollback_keys(m, v))) by {
                assert forall|k: Seq<u8>| m.contains_key(k) implies (#[trigger] vec_keys(dels@).contains(k) <==> rollback_keys(m, v).contains(k)) by {
                    assert(vec_keys(dels@).contains(k) == undo_keys(all, all.len() as int, v).contains(k));
                }
            }
        }
        mvcc.engine.delete(MvccKey::TxnActive(self.state.version).encode())?;
        Ok(())
    }
}

impl MvccTransaction {
    /// The newest visible value of every user key that starts with `prefix`,
    /// in key order; deleted keys are left out. The prefix must not end in
    /// 0x00 or 0xFF: its escaped form would end in 0xFF, and the scan would
    /// run to the end of the store.
    pub fn scan_prefix<E: Engine>(&self, mvcc: &mut Mvcc<E>, prefix: Vec<u8>) -> (r: Result<Vec<ScanResult>, Error>)
        requires
            old(mvcc).inv(),
            prefix@.len() == 0 || (prefix@.last() != 0 && prefix@.last() != 255),
        ensures
            final(mvcc).inv(),
            final(mvcc).infallible() == old(mvcc).infallible(),
            final(mvcc).entries() == old(mvcc).entries(),
            old(mvcc).infallible() ==> r != Err::<Vec<ScanResult>, Error>(Error::Io),
            scan_spec(old(mvcc).entries(), self@, prefix@) == FoldOutcome::BadKey ==> r == Err::<
                Vec<ScanResult>,
                Error,
            >(Error::Internal) || r == Err::<Vec<ScanResult>, Error>(Error::Io),
            forall|mm: Map<Seq<u8>, Seq<u8>>|
                scan_spec(old(mvcc).entries(), self@, prefix@) == FoldOutcome::Entries(mm) ==> (r is Ok
                    && ascending(results_view(r->Ok_0@)) && map_of(results_view(r->Ok_0@)) == mm) || r
                    == Err::<Vec<ScanResult>, Error>(Error::Io),
    {
        let ghost m = mvcc.entries();
        let ghost p = prefix@;
        let mut enc = MvccKeyPrefix::Version(prefix).encode();
        proof {
            assert(enc@ == seq![3u8] + escape(p) + seq![0u8, 0u8]);
        }
        enc.pop();
        enc.pop();
        proof {
            assert(enc@ =~= version_prefix(p));
        }
        let it = engine_scan_prefix(&mut mvcc.engine, enc)?;
        let ghost all = it@;
        proof {
            let rng = with_prefix(version_prefix(p));
            assert forall|k: Seq<u8>| #[trigger] rng(k) == in_prefix_range(version_prefix(p), k) by {}
            assert(is_scan_of(m, rng, all));
            lemma_scan_of(m, rng, all);
        }
        fold_visible(it, &self.state)
    }
}

/// Folds scanned version records into the newest visible value of each user
/// key, in key order.
pub fn fold_visible(items: EngineIterator, st: &TransactionState) -> (r: Result<Vec<ScanResult>, Error>)
    requires
        items.wf(),
    ensures
        r != Err::<Vec<ScanResult>, Error>(Error::Io),
        scan_fold(items@, st) is Entries ==> r is Ok && ascending(results_view(r->Ok_0@)) && map_of(
            results_view(r->Ok_0@),
        ) == scan_fold(items@, st)->Entries_0,
        scan_fold(items@, st) == FoldOutcome::BadKey ==> r == Err::<Vec<ScanResult>, Error>(Error::Internal),
{
    let ghost all = items@;
    let mut it = items;
    let total = it.remaining();
    let mut results = MemoryEngine::new();
    let mut i: usize = 0;
    while i < total
        invariant
            it.wf(),
            all == items@,
            total == all.len(),
            0 <= i <= all.len(),
            it@ == all.subrange(i as int, all.len() as int),
            results.inv(),
            fold_holds(scan_fold(all.subrange(0, i as int), st), results.entries()),
        decreases all.len() - i,
    {
        let ghost before = it@;
        match it.next() {
            None => {
                return Err(Error::Internal);
            },
            Some((key, value)) => {
                proof {
                    assert(before[0] == all[i as int]);
                    assert(it@ =~= all.subrange(i + 1, all.len() as int));
                    assert(all.subrange(0, i + 1).drop_last() =~= all.subrange(0, i as int));
                    assert(all.subrange(0, i + 1).last() == all[i as int]);
                }
                match MvccKey::decode(key) {
                    Ok(MvccKey::Version(raw_key, version)) => {
                        if st.is_visible(version) {
                            match decode_stored(&value) {
                                Some(Some(raw_value)) => {
                                    let _ = results.set(raw_key, raw_value);
                                },
                                Some(None) => {
                                    let _ = results.delete(raw_key);
                                },
                                None => {
                                    proof {
                                        lemma_fold_stuck(all.subrange(0, i + 1), all.subrange(i + 1, all.len() as int), st);
                                        assert(all.subrange(0, i + 1) + all.subrange(i + 1, all.len() as int) =~= all);
                                    }
                                    return Err(Error::Parse);
                                },
                            }
                        }
                    },
                    _ => {
                        proof {
                            lemma_fold_stuck(all.subrange(0, i + 1), all.subrange(i + 1, all.len() as int), st);
                            assert(all.subrange(0, i + 1) + all.subrange(i + 1, all.len() as int) =~= all);
                        }
                        return Err(Error::Internal);
                    },
                }
                i = i + 1;
            },
        }
    }
    proof {
        assert(all.subrange(0, i as int) =~= all);
    }
    let mut out_it = match results.scan(Bound::Unbounded, Bound::Unbounded) {
        Ok(o) => o,
        Err(_) => return Err(Error::Internal),
    };
    let ghost rs = out_it@;
    proof {
        lemma_full_scan_map(results.entries(), rs);
    }
    let n = out_it.remaining();
    let mut out: Vec<ScanResult> = Vec::new();
    let mut j: usize = 0;
    while j < n
        invariant
            out_it.wf(),
            n == rs.len(),
            0 <= j <= n,
            out_it@ == rs.subrange(j as int, rs.len() as int),
            results_view(out@) == rs.subrange(0, j as int),
        decreases n - j,
    {
        let ghost before = out_it@;
        match out_it.next() {
            None => {
                return Err(Error::Internal);
            },
            Some((key, value)) => {
                let ghost o0 = out@;
                out.push(ScanResult { key, value });
                proof {
                    assert(before[0] == rs[j as int]);
                    assert(out_it@ =~= rs.subrange(j + 1, rs.len() as int));
                    assert(results_view(out@) =~= results_view(o0).push(rs[j as int]));
                    assert(rs.subrange(0, j + 1) =~= rs.subrange(0, j as int).push(rs[j as int]));
                }
                j = j + 1;
            },
        }
    }
    proof {
        assert(rs.subrange(0, n as int) =~= rs);
    }
    Ok(out)
}

/// Once a fold has met a bad key or a bad value, what follows changes nothing.
proof fn lemma_fold_stuck(a: Seq<(Seq<u8>, Seq<u8>)>, b: Seq<(Seq<u8>, Seq<u8>)>, st: &TransactionState)
    requires
        !(scan_fold(a, st) is Entries),
    ensures
        scan_fold(a + b, st) == scan_fold(a, st),
    decreases b.len(),
{
    if b.len() == 0 {
        assert(a + b =~= a);
    } else {
        lemma_fold_stuck(a, b.drop_last(), st);
        assert((a + b).drop_last() =~= a + b.drop_last());
    }
}

/// What undoing the markers `markers` of version `v` deletes: each marker and
/// the version record it names. A marker that is not one of `v` is corruption.
pub fn undo_keys_of(markers: EngineIterator, v: u64) -> (r: Result<Vec<Vec<u8>>, Error>)
    requires
        markers.wf(),
    ensures
        r is Ok <==> forall|i: int| 0 <= i < markers@.len() ==> is_marker_of(#[trigger] markers@[i].0, v),
        r is Ok ==> vec_keys(r->Ok_0@) == undo_keys(markers@, markers@.len() as int, v),
        r is Err ==> r == Err::<Vec<Vec<u8>>, Error>(Error::Internal),
{
    let ghost all = markers@;
    let mut it = markers;
    let total = it.remaining();
    let mut dels: Vec<Vec<u8>> = Vec::new();
    let mut i: usize = 0;
    proof {
        assert(vec_keys(dels@) =~= undo_keys(all, 0, v));
    }
    while i < total
        invariant
            it.wf(),
            all == markers@,
            total == all.len(),
            0 <= i <= all.len(),
            it@ == all.subrange(i as int, all.len() as int),
            forall|x: int| 0 <= x < i ==> is_marker_of(#[trigger] all[x].0, v),
            vec_keys(dels@) == undo_keys(all, i as int, v),
        decreases all.len() - i,
    {
        let ghost before = it@;
        match it.next() {
            None => {
                return Err(Error::Internal);
            },
            Some((key, _)) => {
                proof {
                    assert(before[0] == all[i as int]);
                    assert(it@ =~= all.subrange(i + 1, all.len() as int));
                }
                let kc = key.clone();
                proof {
                    assert(kc@ =~= key@);
                }
                match MvccKey::decode(kc) {
                    Ok(MvccKey::TxnWrite(w, raw_key)) => {
                        if w != v {
                            proof {
                                assert(!is_marker_of(all[i as int].0, v));
                            }
                            return Err(Error::Internal);
                        }
                        let ghost d0 = dels@;
                        let vk = MvccKey::Version(raw_key, v).encode();
                        proof {
                            assert(is_marker_of(all[i as int].0, v));
                            lemma_undo_step(all, i as int, v);
                            lemma_vec_keys_push(d0, vk);
                            lemma_vec_keys_push(d0.push(vk), key);
                        }
                        dels.push(vk);
                        dels.push(key);
                        proof {
                            assert(vec_keys(dels@) =~= undo_keys(all, i + 1, v));
                            assert forall|x: int| 0 <= x < i + 1 implies is_marker_of(#[trigger] all[x].0, v) by {}
                        }
                    },
                    _ => {
                        proof {
                            assert(!is_marker_of(all[i as int].0, v));
                        }
                        return Err(Error::Internal);
                    },
                }
                i = i + 1;
            },
        }
    }
    Ok(dels)
}

/// The version a transaction takes, from the stored counter: 1 where there is
/// none; an unreadable counter, or one that cannot be raised, is an error.
pub fn next_version_of(stored: Option<Vec<u8>>) -> (r: Result<u64, Error>)
    ensures
        stored is None ==> r == Ok::<u64, Error>(1),
        stored is Some && stored->Some_0@.len() < 8 ==> r == Err::<u64, Error>(Error::Parse),
        stored is Some && stored->Some_0@.len() >= 8 && counter_value(stored->Some_0@) == u64::MAX ==> r
            == Err::<u64, Error>(Error::Internal),
        stored is Some && stored->Some_0@.len() >= 8 && counter_value(stored->Some_0@) < u64::MAX ==> r
            == Ok::<u64, Error>(counter_value(stored->Some_0@)),
{
    let v = match stored {
        Some(value) => match deserialize_counter(&value) {
            Some(v) => v,
            None => return Err(Error::Parse),
        },
        None => 1,
    };
    if v == u64::MAX {
        return Err(Error::Internal);
    }
    Ok(v)
}

/// The versions named by a run of active-transaction markers, in order; any
/// other key among them is corruption.
pub fn active_versions_of(items: EngineIterator) -> (r: Result<Vec<u64>, Error>)
    requires
        items.wf(),
    ensures
        r is Ok <==> active_of(items@) is Some,
        r is Ok ==> active_of(items@) == Some(r->Ok_0@),
        r is Err ==> r == Err::<Vec<u64>, Error>(Error::Internal),
{
    let ghost all = items@;
    let mut it = items;
    let total = it.remaining();
    let mut out: Vec<u64> = Vec::new();
    let mut i: usize = 0;
    while i < total
        invariant
            it.wf(),
            all == items@,
            total == all.len(),
            0 <= i <= all.len(),
            it@ == all.subrange(i as int, all.len() as int),
            active_of(all.subrange(0, i as int)) == Some(out@),
        decreases all.len() - i,
    {
        let ghost before = it@;
        match it.next() {
            None => {
                return Err(Error::Internal);
            },
            Some((key, _)) => {
                proof {
                    assert(all.subrange(0, i + 1).drop_last() =~= all.subrange(0, i as int));
                    assert(all.subrange(0, i + 1).last() == before[0]);
                    assert(it@ =~= all.subrange(i + 1, all.len() as int));
                }
                match MvccKey::decode(key) {
                    Ok(MvccKey::TxnActive(v)) => {
                        out.push(v);
                    },
                    _ => {
                        proof {
                            lemma_active_of_bad(all, i + 1);
                        }
                        return Err(Error::Internal);
                    },
                }
                i = i + 1;
            },
        }
    }
    proof {
        assert(all.subrange(0, i as int) =~= all);
    }
    Ok(out)
}

/// Decides a write from the newest version of its key at or above the
/// conflict floor: none, or one `st` can see, lets it go ahead; one it cannot
/// see is a conflict; a key that is no version record is corruption.
pub fn conflict_of(last: Option<(Vec<u8>, Vec<u8>)>, st: &TransactionState) -> (r: Result<(), Error>)
    ensures
        last is None ==> r is Ok,
        last is Some ==> match parse_key(last->Some_0.0@) {
            Some(KeyView::Version(_, w)) => (r is Ok <==> st.visible(w)) && (!st.visible(w) ==> r
                == Err::<(), Error>(Error::WriteConflict)),
            _ => r == Err::<(), Error>(Error::Internal),
        },
{
    match last {
        Some((k, _)) => match MvccKey::decode(k) {
            Ok(MvccKey::Version(_, version)) => {
                if st.is_visible(version) {
                    Ok(())
                } else {
                    Err(Error::WriteConflict)
                }
            },
            _ => Err(Error::Internal),
        },
        None => Ok(()),
    }
}

/// Walks a scan of versions from its end to the first version `st` can see
/// and decodes its stored value.
pub fn newest_visible_of(it: &mut EngineIterator, st: &TransactionState) -> (r: Result<Option<Vec<u8>>, Error>)
    requires
        old(it).wf(),
    ensures
        r != Err::<Option<Vec<u8>>, Error>(Error::Io),
        read_back(old(it)@, st) == ReadOutcome::Absent ==> r == Ok::<Option<Vec<u8>>, Error>(None),
        forall|b: Seq<u8>|
            read_back(old(it)@, st) == ReadOutcome::Stored(b) && is_stored_code(b) ==> r is Ok && opt_view(
                r->Ok_0,
            ) == stored_of(b),
        forall|b: Seq<u8>|
            read_back(old(it)@, st) == ReadOutcome::Stored(b) && !is_stored_code(b) ==> r is Ok || r
                == Err::<Option<Vec<u8>>, Error>(Error::Parse),
        read_back(old(it)@, st) == ReadOutcome::BadKey ==> r == Err::<Option<Vec<u8>>, Error>(Error::Internal),
{
    let ghost all = it@;
    let mut n: usize = it.remaining();
    loop
        invariant
            it.wf(),
            all == old(it)@,
            n == it@.len(),
            read_back(all, st) == read_back(it@, st),
        decreases n,
    {
        let ghost before = it@;
        match it.next_back() {
            None => {
                return Ok(None);
            },
            Some((k, value)) => {
                match MvccKey::decode(k) {
                    Ok(MvccKey::Version(_, version)) => {
                        if st.is_visible(version) {
                            proof {
                                assert(read_back(before, st) == ReadOutcome::Stored(value@));
                            }
                            return match decode_stored(&value) {
                                Some(v) => Ok(v),
                                None => Err(Error::Parse),
                            };
                        }
                    },
                    _ => {
                        return Err(Error::Internal);
                    },
                }
                n = n - 1;
            },
        }
    }
}

/// The fold so far has met no bad key, and where it has met no bad value
/// either, its entries are `acc`.
pub open spec fn fold_holds(f: FoldOutcome, acc: Map<Seq<u8>, Seq<u8>>) -> bool {
    match f {
        FoldOutcome::Entries(mm) => mm == acc,
        FoldOutcome::BadKey => false,
        FoldOutcome::BadValue => true,
    }
}

proof fn lemma_full_scan_map(m: Map<Seq<u8>, Seq<u8>>, r: Seq<(Seq<u8>, Seq<u8>)>)
    requires
        is_scan_of(m, |k: Seq<u8>| in_range(&Bound::Unbounded, &Bound::Unbounded, k), r),
    ensures
        ascending(r),
        map_of(r) == m,
{
    lemma_map_of_all(r);
    assert forall|k: Seq<u8>| #[trigger] map_of(r).contains_key(k) == m.contains_key(k) by {
        if m.contains_key(k) {
            assert(in_range(&Bound::Unbounded, &Bound::Unbounded, k));
        }
    }
    assert(map_of(r) =~= m);
}

/// The keys of the first `i` pairs of `all`.
pub open spec fn taken_keys(all: Seq<(Seq<u8>, Seq<u8>)>, i: int) -> Set<Seq<u8>> {
    Set::new(|k: Seq<u8>| exists|x: int| 0 <= x < i && (#[trigger] all[x].0) == k)
}

proof fn lemma_taken_step(all: Seq<(Seq<u8>, Seq<u8>)>, i: int)
    requires
        0 <= i < all.len(),
    ensures
        taken_keys(all, i + 1) == taken_keys(all, i).insert(all[i].0),
{
    assert forall|k: Seq<u8>| #[trigger] taken_keys(all, i + 1).contains(k) == taken_keys(all, i).insert(all[i].0).contains(k) by {
        if taken_keys(all, i + 1).contains(k) {
            let x = choose|x: int| 0 <= x < i + 1 && (#[trigger] all[x].0) == k;
        }
        if taken_keys(all, i).contains(k) {
            let x = choose|x: int| 0 <= x < i && (#[trigger] all[x].0) == k;
        }
    }
    assert(taken_keys(all, i + 1) =~= taken_keys(all, i).insert(all[i].0));
}

proof fn lemma_vec_keys_push(s: Seq<Vec<u8>>, a: Vec<u8>)
    ensures
        vec_keys(s.push(a)) == vec_keys(s).insert(a@),
{
    let t = s.push(a);
    assert forall|k: Seq<u8>| #[trigger] vec_keys(t).contains(k) == vec_keys(s).insert(a@).contains(k) by {
        if vec_keys(t).contains(k) {
            let y = choose|y: int| 0 <= y < t.len() && (#[trigger] t[y])@ == k;
            if y < s.len() {
                assert(s[y] == t[y]);
            }
        }
        if vec_keys(s).contains(k) {
            let y = choose|y: int| 0 <= y < s.len() && (#[trigger] s[y])@ == k;
            assert(t[y] == s[y]);
        }
        if k == a@ {
            assert(t[s.len() as int] == a);
        }
    }
    assert(vec_keys(t) =~= vec_keys(s).insert(a@));
}

proof fn lemma_undo_step(all: Seq<(Seq<u8>, Seq<u8>)>, i: int, v: u64)
    requires
        0 <= i < all.len(),
        is_marker_of(all[i].0, v),
    ensures
        undo_keys(all, i + 1, v) == undo_keys(all, i, v).insert(
            key_code(KeyView::Version(parse_key(all[i].0)->Some_0->TxnWrite_1, v)),
        ).insert(all[i].0),
{
    let vk = key_code(KeyView::Version(parse_key(all[i].0)->Some_0->TxnWrite_1, v));
    assert forall|k: Seq<u8>| #[trigger] undo_keys(all, i + 1, v).contains(k) == undo_keys(all, i, v).insert(vk).insert(all[i].0).contains(k) by {
        if undo_keys(all, i + 1, v).contains(k) {
            let x = choose|x: int| 0 <= x < i + 1 && undo_pair(#[trigger] all[x].0, v, k);
        }
        if undo_keys(all, i, v).contains(k) {
            let x = choose|x: int| 0 <= x < i && undo_pair(#[trigger] all[x].0, v, k);
        }
        if k == vk || k == all[i].0 {
            assert(undo_pair(all[i].0, v, k));
        }
    }
    assert(undo_keys(all, i + 1, v) =~= undo_keys(all, i, v).insert(vk).insert(all[i].0));
}

/// The keys held in a vector of keys.
pub open spec fn vec_keys(s: Seq<Vec<u8>>) -> Set<Seq<u8>> {
    Set::new(|k: Seq<u8>| exists|y: int| 0 <= y < s.len() && (#[trigger] s[y])@ == k)
}

/// `k` is a write-set marker of version `v`.
pub open spec fn is_marker_of(k: Seq<u8>, v: u64) -> bool {
    parse_key(k) is Some && parse_key(k)->Some_0 is TxnWrite && parse_key(k)->Some_0->TxnWrite_0 == v
}

/// `k` is the marker `w` itself or the version record it names.
pub open spec fn undo_pair(w: Seq<u8>, v: u64, k: Seq<u8>) -> bool {
    k == w || (is_marker_of(w, v) && k == key_code(KeyView::Version(parse_key(w)->Some_0->TxnWrite_1, v)))
}

/// What undoing the first `i` markers of `all` removes.
pub open spec fn undo_keys(all: Seq<(Seq<u8>, Seq<u8>)>, i: int, v: u64) -> Set<Seq<u8>> {
    Set::new(|k: Seq<u8>| exists|x: int| 0 <= x < i && undo_pair(#[trigger] all[x].0, v, k))
}

proof fn lemma_bad_marker(m: Map<Seq<u8>, Seq<u8>>, v: u64, all: Seq<(Seq<u8>, Seq<u8>)>, i: int)
    requires
        is_scan_of(m, write_markers(v), all),
        0 <= i < all.len(),
        !is_marker_of(all[i].0, v),
    ensures
        has_bad_marker(m, v),
{
    let w = all[i].0;
    assert(m.contains_key(w) && write_markers(v)(w));
}

proof fn lemma_no_bad_marker(m: Map<Seq<u8>, Seq<u8>>, v: u64, all: Seq<(Seq<u8>, Seq<u8>)>)
    requires
        is_scan_of(m, write_markers(v), all),
        forall|x: int| 0 <= x < all.len() ==> is_marker_of(#[trigger] all[x].0, v),
    ensures
        !has_bad_marker(m, v),
{
    if has_bad_marker(m, v) {
        let w = choose|w: Seq<u8>| #![trigger m.contains_key(w)] m.contains_key(w) && write_markers(v)(w) && !is_marker_of(w, v);
        let x = choose|x: int| 0 <= x < all.len() && (#[trigger] all[x].0) == w;
    }
}

proof fn lemma_undo_keys_all(m: Map<Seq<u8>, Seq<u8>>, v: u64, all: Seq<(Seq<u8>, Seq<u8>)>)
    requires
        is_scan_of(m, write_markers(v), all),
        forall|x: int| 0 <= x < all.len() ==> is_marker_of(#[trigger] all[x].0, v),
    ensures
        forall|k: Seq<u8>| m.contains_key(k) ==> (#[trigger] undo_keys(all, all.len() as int, v).contains(k)
            <==> rollback_keys(m, v).contains(k)),
{
    assert forall|k: Seq<u8>| m.contains_key(k) implies (#[trigger] undo_keys(all, all.len() as int, v).contains(k)
        <==> rollback_keys(m, v).contains(k)) by {
        if undo_keys(all, all.len() as int, v).contains(k) {
            let x = choose|x: int| 0 <= x < all.len() && undo_pair(#[trigger] all[x].0, v, k);
            let w = all[x].0;
            assert(m.contains_key(w) && write_markers(v)(w));
        }
        if rollback_keys(m, v).contains(k) {
            if m.contains_key(k) && write_markers(v)(k) {
                let x = choose|x: int| 0 <= x < all.len() && (#[trigger] all[x].0) == k;
                assert(undo_pair(all[x].0, v, k));
            } else {
                let w = choose|w: Seq<u8>|
                    #![trigger m.contains_key(w)]
                    m.contains_key(w) && write_markers(v)(w) && is_marker_of(w, v) && k == key_code(
                        KeyView::Version(parse_key(w)->Some_0->TxnWrite_1, v),
                    );
                let x = choose|x: int| 0 <= x < all.len() && (#[trigger] all[x].0) == w;
                assert(undo_pair(all[x].0, v, k));
            }
        }
    }
}

/// A key between two keys that start with one byte starts with it too.
proof fn lemma_between_first_byte(a: Seq<u8>, b: Seq<u8>, k: Seq<u8>)
    requires
        a.len() > 0,
        b.len() > 0,
        a[0] == b[0],
        lex_le(a, k),
        lex_lt(k, b),
    ensures
        k.len() > 0 && k[0] == a[0],
{
    lemma_lex_trichotomy(a, k);
}

/// Every key in the write-set range of `v` starts with the marker tag.
pub proof fn lemma_markers_tag(v: u64, k: Seq<u8>)
    requires
        write_markers(v)(k),
    ensures
        k.len() > 0 && k[0] == 2u8,
{
    lemma_between_first_byte(seq![2u8] + u64_bytes(v), seq![2u8] + u64_bytes((v + 1) as u64), k);
}

/// The write-set marker of `k` by version `v` lies in `v`'s write-set range.
pub proof fn lemma_marker_in_range(v: u64, k: Seq<u8>)
    requires
        v < u64::MAX,
    ensures
        write_markers(v)(key_code(KeyView::TxnWrite(v, k))),
{
    let p = seq![2u8] + u64_bytes(v);
    let q = seq![2u8] + u64_bytes((v + 1) as u64);
    let w = key_code(KeyView::TxnWrite(v, k));
    assert(w =~= p + bytes_code(k));
    lemma_lex_prefix(p, bytes_code(k));
    lemma_u64_bytes(v);
    lemma_u64_bytes((v + 1) as u64);
    crate::keycode::lemma_u64_order(v, (v + 1) as u64);
    crate::keycode::lemma_lex_common_prefix(seq![2u8], u64_bytes(v), u64_bytes((v + 1) as u64));
    assert(p != q) by {
        if p == q {
            assert(p.subrange(1, 9) =~= u64_bytes(v));
            assert(q.subrange(1, 9) =~= u64_bytes((v + 1) as u64));
        }
    }
    lemma_lex_equal_len_prefix(p, q, bytes_code(k), seq![]);
    assert(q + seq![] =~= q);
}

/// Among encoded keys, the write-set range of `v` holds exactly the markers
/// `TxnWrite(v, _)`: what commit and rollback remove there is this
/// transaction's write set and nothing else.
pub proof fn lemma_markers_are_write_set(v: u64, kv: KeyView)
    requires
        v < u64::MAX,
    ensures
        write_markers(v)(key_code(kv)) <==> (kv is TxnWrite && kv->TxnWrite_0 == v),
{
    let c = key_code(kv);
    if kv is TxnWrite && kv->TxnWrite_0 == v {
        lemma_marker_in_range(v, kv->TxnWrite_1);
    }
    if write_markers(v)(c) {
        lemma_markers_tag(v, c);
        match kv {
            KeyView::TxnWrite(w, k) => {
                let pv = seq![2u8] + u64_bytes(v);
                let pn = seq![2u8] + u64_bytes((v + 1) as u64);
                let pw = seq![2u8] + u64_bytes(w);
                let bc = bytes_code(k);
                assert(c =~= pw + bc);
                lemma_u64_bytes(v);
                lemma_u64_bytes(w);
                lemma_u64_bytes((v + 1) as u64);
                assert(bc + seq![] =~= bc);
                assert(pv + seq![] =~= pv);
                assert(pn + seq![] =~= pn);
                if w != v {
                    crate::keycode::lemma_u64_order(w, v);
                    crate::keycode::lemma_lex_common_prefix(seq![2u8], u64_bytes(w), u64_bytes(v));
                    assert(pw != pv) by {
                        if pw == pv {
                            assert(pw.subrange(1, 9) =~= u64_bytes(w));
                            assert(pv.subrange(1, 9) =~= u64_bytes(v));
                        }
                    }
                    lemma_lex_equal_len_prefix(pw, pv, bc, seq![]);
                    lemma_lex_trichotomy(pv, c);
                    if w > v {
                        if w == v + 1 {
                            assert(pw == pn);
                            lemma_lex_prefix(pn, bc);
                            lemma_lex_trichotomy(c, pn);
                        } else {
                            crate::keycode::lemma_u64_order(w, (v + 1) as u64);
                            crate::keycode::lemma_lex_common_prefix(seq![2u8], u64_bytes(w), u64_bytes((v + 1) as u64));
                            assert(pw != pn) by {
                                if pw == pn {
                                    assert(pw.subrange(1, 9) =~= u64_bytes(w));
                                    assert(pn.subrange(1, 9) =~= u64_bytes((v + 1) as u64));
                                }
                            }
                            lemma_lex_equal_len_prefix(pw, pn, bc, seq![]);
                            lemma_lex_trichotomy(c, pn);
                        }
                    }
                }
            },
            _ => {
                assert(c[0] != 2u8);
            },
        }
    }
}

/// Every key that starts with `p` lies in `p`'s prefix range.
pub proof fn lemma_in_prefix_range(p: Seq<u8>, x: Seq<u8>)
    ensures
        in_prefix_range(p, p + x),
{
    lemma_lex_prefix(p, x);
    match prefix_end(p) {
        None => {},
        Some(e) => {
            let n = p.len() - 1;
            assert(p.drop_last() + seq![p.last()] =~= p);
            assert(e =~= p.drop_last() + seq![(p.last() + 1) as u8]);
            assert(p != e) by {
                assert(p[n] != e[n]);
            }
            lemma_lex_equal_len_prefix(p, e, x, seq![]);
            assert(e + seq![] =~= e);
            crate::keycode::lemma_lex_common_prefix(p.drop_last(), seq![p.last()], seq![(p.last() + 1) as u8]);
            assert(lex_lt(seq![p.last()], seq![(p.last() + 1) as u8])) by {
                reveal_with_fuel(lex_lt, 2);
            }
        },
    }
}

/// Rolling back erases the transaction: afterwards its active marker and its
/// write-set markers are gone, and so is every version record that one of
/// its markers named.
pub proof fn lemma_rollback_erases(m0: Map<Seq<u8>, Seq<u8>>, m1: Map<Seq<u8>, Seq<u8>>, v: u64)
    requires
        v < u64::MAX,
        m1 == m0.remove_keys(rollback_keys(m0, v)).remove(key_code(KeyView::TxnActive(v))),
    ensures
        !m1.contains_key(key_code(KeyView::TxnActive(v))),
        forall|k: Seq<u8>| !m1.contains_key(#[trigger] key_code(KeyView::TxnWrite(v, k))),
        forall|k: Seq<u8>|
            m0.contains_key(#[trigger] key_code(KeyView::TxnWrite(v, k))) ==> !m1.contains_key(
                key_code(KeyView::Version(k, v)),
            ),
{
    assert forall|k: Seq<u8>| #![trigger key_code(KeyView::TxnWrite(v, k))] true implies {
        &&& !m1.contains_key(key_code(KeyView::TxnWrite(v, k)))
        &&& m0.contains_key(key_code(KeyView::TxnWrite(v, k))) ==> !m1.contains_key(key_code(KeyView::Version(k, v)))
    } by {
        let w = key_code(KeyView::TxnWrite(v, k));
        lemma_marker_in_range(v, k);
        lemma_decode_encode(KeyView::TxnWrite(v, k));
        if m0.contains_key(w) {
            assert(rollback_keys(m0, v).contains(w));
            assert(rollback_keys(m0, v).contains(key_code(KeyView::Version(k, v))));
        }
    }
}

/// Every key of the store is the encoding of a logical key.
pub open spec fn keys_encoded(m: Map<Seq<u8>, Seq<u8>>) -> bool {
    forall|k: Seq<u8>| #[trigger] m.contains_key(k) ==> exists|kv: KeyView| key_code(kv) == k
}

/// The record key of version `w` of `key`.
#[verifier::opaque]
pub open spec fn version_key(key: Seq<u8>, w: u64) -> Seq<u8> {
    key_code(KeyView::Version(key, w))
}

/// The versions of `key` in the store that `st` can see.
#[verifier::opaque]
pub open spec fn visible_versions(m: Map<Seq<u8>, Seq<u8>>, st: &TransactionState, key: Seq<u8>) -> Set<u64> {
    Set::new(|w: u64| m.contains_key(version_key(key, w)) && st.visible(w))
}

/// What a snapshot read of `key` finds: the stored bytes of the greatest
/// version of `key` that `st` can see, or nothing.
pub open spec fn newest_visible(m: Map<Seq<u8>, Seq<u8>>, st: &TransactionState, key: Seq<u8>) -> ReadOutcome {
    let ws = visible_versions(m, st, key);
    if exists|w: u64| ws.contains(w) && forall|u: u64| ws.contains(u) ==> u <= w {
        let top = choose|w: u64| ws.contains(w) && forall|u: u64| ws.contains(u) ==> u <= w;
        ReadOutcome::Stored(m[version_key(key, top)])
    } else {
        ReadOutcome::Absent
    }
}

proof fn lemma_visible_member(m: Map<Seq<u8>, Seq<u8>>, st: &TransactionState, key: Seq<u8>, w: u64)
    ensures
        version_key(key, w) == key_code(KeyView::Version(key, w)),
        visible_versions(m, st, key).contains(w) == (m.contains_key(key_code(KeyView::Version(key, w))) && st.visible(w)),
{
    reveal(version_key);
    reveal(visible_versions);
}

/// The version a version record names.
pub open spec fn version_at(k: Seq<u8>) -> u64 {
    parse_key(k)->Some_0->Version_1
}

pub open spec fn is_version_of(k: Seq<u8>, key: Seq<u8>) -> bool {
    parse_key(k) is Some && parse_key(k)->Some_0 is Version && parse_key(k)->Some_0->Version_0 == key
}

/// In a store of encoded keys, the keys between the versions `lo` and `hi` of
/// `key` are exactly the version records of `key` from `lo` to `hi`.
proof fn lemma_versions_range(key: Seq<u8>, lo: u64, hi: u64, kv: KeyView)
    ensures
        versions_of(key, lo, hi)(key_code(kv)) <==> (kv is Version && kv->Version_0 == key && lo <= kv->Version_1 <= hi),
{
    let a = KeyView::Version(key, lo);
    let b = KeyView::Version(key, hi);
    let k = key_code(kv);
    lemma_decode_encode(kv);
    lemma_decode_encode(a);
    lemma_decode_encode(b);
    lemma_lex_trichotomy(key_code(a), k);
    lemma_lex_trichotomy(k, key_code(b));
    match kv {
        KeyView::Version(k2, w) => {
            lemma_key_order(a, kv);
            lemma_key_order(kv, b);
            lemma_lex_irreflexive(key);
            lemma_lex_trichotomy(key, k2);
        },
        _ => {
            let la = key_code(a);
            assert(la[0] == 3u8);
            assert(k[0] < 3u8);
            assert(lex_lt(k, la));
        },
    }
}

/// Walking back over version records of one key finds the last visible one.
proof fn lemma_read_back_versions(q: Seq<(Seq<u8>, Seq<u8>)>, st: &TransactionState, key: Seq<u8>)
    requires
        forall|i: int| 0 <= i < q.len() ==> is_version_of(#[trigger] q[i].0, key),
    ensures
        read_back(q, st) != ReadOutcome::BadKey,
        read_back(q, st) == ReadOutcome::Absent <==> forall|i: int| 0 <= i < q.len() ==> !st.visible(version_at(#[trigger] q[i].0)),
        read_back(q, st) is Stored ==> exists|j: int|
            0 <= j < q.len() && st.visible(version_at(q[j].0)) && read_back(q, st) == ReadOutcome::Stored(q[j].1)
                && forall|i: int| j < i < q.len() ==> !st.visible(version_at(#[trigger] q[i].0)),
    decreases q.len(),
{
    if q.len() > 0 {
        let p = q.drop_last();
        assert forall|i: int| 0 <= i < p.len() implies is_version_of(#[trigger] p[i].0, key) by {
            assert(p[i] == q[i]);
        }
        lemma_read_back_versions(p, st, key);
        let last = q.len() - 1;
        assert(q.last() == q[last]);
        assert(is_version_of(q[last].0, key));
        if st.visible(version_at(q[last].0)) {
        } else {
            assert forall|i: int| 0 <= i < p.len() implies p[i] == q[i] by {}
            if read_back(p, st) is Stored {
                let j = choose|j: int|
                    0 <= j < p.len() && st.visible(version_at(p[j].0)) && read_back(p, st) == ReadOutcome::Stored(p[j].1)
                        && forall|i: int| j < i < p.len() ==> !st.visible(version_at(#[trigger] p[i].0));
                assert(q[j] == p[j]);
                assert forall|i: int| j < i < q.len() implies !st.visible(version_at(#[trigger] q[i].0)) by {
                    if i < last {
                        assert(p[i] == q[i]);
                    }
                }
            } else {
                assert forall|i: int| 0 <= i < q.len() implies !st.visible(version_at(#[trigger] q[i].0)) by {
                    if i < last {
                        assert(p[i] == q[i]);
                    }
                }
            }
        }
    }
}

/// What the scan of the versions of `key` up to `st`'s own holds: version
/// records of `key`, each up to `st`'s version, and every visible one of them.
proof fn lemma_scan_versions(m: Map<Seq<u8>, Seq<u8>>, st: &TransactionState, key: Seq<u8>, r: Seq<(Seq<u8>, Seq<u8>)>)
    requires
        keys_encoded(m),
        is_scan_of(m, versions_of(key, 0, st.version), r),
    ensures
        forall|i: int| 0 <= i < r.len() ==> is_version_of(#[trigger] r[i].0, key) && r[i].0 == key_code(
            KeyView::Version(key, version_at(r[i].0)),
        ) && version_at(r[i].0) <= st.version,
        forall|w: u64| #[trigger] visible_versions(m, st, key).contains(w) ==> exists|i: int| 0 <= i < r.len() && version_at(r[i].0) == w,
{
    let rng = versions_of(key, 0, st.version);
    assert forall|i: int| 0 <= i < r.len() implies is_version_of(#[trigger] r[i].0, key) && r[i].0 == key_code(
        KeyView::Version(key, version_at(r[i].0)),
    ) && version_at(r[i].0) <= st.version by {
        let kv = choose|kv: KeyView| key_code(kv) == r[i].0;
        assert(m.contains_key(r[i].0));
        lemma_versions_range(key, 0, st.version, kv);
        lemma_decode_encode(kv);
    }
    assert forall|w: u64| #[trigger] visible_versions(m, st, key).contains(w) implies exists|i: int| 0 <= i < r.len() && version_at(r[i].0) == w by {
        lemma_visible_member(m, st, key, w);
        let k = key_code(KeyView::Version(key, w));
        lemma_versions_range(key, 0, st.version, KeyView::Version(key, w));
        assert(m.contains_key(k) && rng(k));
        let i = choose|i: int| 0 <= i < r.len() && (#[trigger] r[i].0) == k;
        lemma_decode_encode(KeyView::Version(key, w));
    }
}

/// The last visible version in the scan is the greatest visible one.
proof fn lemma_last_visible_is_newest(
    m: Map<Seq<u8>, Seq<u8>>,
    st: &TransactionState,
    key: Seq<u8>,
    r: Seq<(Seq<u8>, Seq<u8>)>,
    j: int,
)
    requires
        ascending(r),
        0 <= j < r.len(),
        m.contains_key(r[j].0) && m[r[j].0] == r[j].1,
        st.visible(version_at(r[j].0)),
        forall|i: int| j < i < r.len() ==> !st.visible(version_at(#[trigger] r[i].0)),
        forall|i: int| 0 <= i < r.len() ==> is_version_of(#[trigger] r[i].0, key) && r[i].0 == key_code(
            KeyView::Version(key, version_at(r[i].0)),
        ),
        forall|w: u64| #[trigger] visible_versions(m, st, key).contains(w) ==> exists|i: int| 0 <= i < r.len() && version_at(r[i].0) == w,
    ensures
        newest_visible(m, st, key) == ReadOutcome::Stored(r[j].1),
{
    let ws = visible_versions(m, st, key);
    let top = version_at(r[j].0);
    lemma_visible_member(m, st, key, top);
    assert(ws.contains(top));
    assert forall|u: u64| ws.contains(u) implies u <= top by {
        let i = choose|i: int| 0 <= i < r.len() && version_at(r[i].0) == u;
        if i > j {
            lemma_visible_member(m, st, key, u);
        } else if i < j {
            assert(lex_lt(r[i].0, r[j].0));
            lemma_key_order(KeyView::Version(key, u), KeyView::Version(key, top));
            lemma_lex_irreflexive(key);
        }
    }
    let c = choose|w: u64| ws.contains(w) && forall|u: u64| ws.contains(u) ==> u <= w;
    assert(c <= top && top <= c);
    lemma_visible_member(m, st, key, c);
}

/// Snapshot isolation of reads: in a store whose keys are all encoded logical
/// keys, a transaction's read of `key` finds the value written by the greatest
/// version it can see (its own, or one committed before it began and not
/// newer than it), or nothing where there is none. `r` is the store's scan of
/// the versions of `key` up to the transaction's own, which the read walks.
pub proof fn lemma_snapshot_read(
    m: Map<Seq<u8>, Seq<u8>>,
    st: &TransactionState,
    key: Seq<u8>,
    r: Seq<(Seq<u8>, Seq<u8>)>,
)
    requires
        keys_encoded(m),
        is_scan_of(m, versions_of(key, 0, st.version), r),
    ensures
        read_spec(m, st, key) == newest_visible(m, st, key),
{
    lemma_scan_of(m, versions_of(key, 0, st.version), r);
    lemma_scan_versions(m, st, key, r);
    lemma_read_back_versions(r, st, key);
    let ws = visible_versions(m, st, key);
    if read_back(r, st) is Stored {
        let j = choose|j: int|
            0 <= j < r.len() && st.visible(version_at(r[j].0)) && read_back(r, st) == ReadOutcome::Stored(r[j].1)
                && forall|i: int| j < i < r.len() ==> !st.visible(version_at(#[trigger] r[i].0));
        lemma_last_visible_is_newest(m, st, key, r, j);
    } else {
        assert forall|w: u64| !ws.contains(w) by {
            if ws.contains(w) {
                let i = choose|i: int| 0 <= i < r.len() && version_at(r[i].0) == w;
                lemma_visible_member(m, st, key, w);
                assert(!st.visible(version_at(r[i].0)));
            }
        }
    }
}

proof fn lemma_active_of_items(r: Seq<(Seq<u8>, Seq<u8>)>, s: Seq<u64>)
    requires
        active_of(r) == Some(s),
    ensures
        s.len() == r.len(),
        forall|i: int| 0 <= i < r.len() ==> parse_key(#[trigger] r[i].0) == Some(KeyView::TxnActive(s[i])),
    decreases r.len(),
{
    if r.len() > 0 {
        let p = active_of(r.drop_last())->Some_0;
        lemma_active_of_items(r.drop_last(), p);
        assert(s == p.push(parse_key(r.last().0)->Some_0->TxnActive_0));
        assert forall|i: int| 0 <= i < r.len() implies parse_key(#[trigger] r[i].0) == Some(KeyView::TxnActive(s[i])) by {
            if i < r.len() - 1 {
                assert(r.drop_last()[i] == r[i]);
            }
        }
    }
}

/// A transaction cannot see the writes of a transaction that was active when
/// it began: that one's active marker puts its version among the active ones.
pub proof fn lemma_active_writer_invisible(
    m0: Map<Seq<u8>, Seq<u8>>,
    m1: Map<Seq<u8>, Seq<u8>>,
    t: MvccTransaction,
    w: u64,
)
    requires
        MvccTransaction::begin_post(m0, m1, Ok(t)),
        m0.contains_key(key_code(KeyView::TxnActive(w))),
    ensures
        !t@.visible(w),
{
    let v = t@.version;
    let mid = m0.insert(key_code(KeyView::NextVersion), u64_le((v + 1) as u64));
    let marker = key_code(KeyView::TxnActive(w));
    assert(marker[0] == 1u8);
    assert(marker != key_code(KeyView::NextVersion));
    assert(mid.contains_key(marker));
    assert(marker =~= seq![1u8] + u64_bytes(w));
    lemma_in_prefix_range(seq![1u8], u64_bytes(w));
    let rng = with_prefix(seq![1u8]);
    assert(rng(marker));
    let r = scan_of(mid, rng);
    let act = t@.active_versions@;
    assert(active_of(r) == Some(act));
    assert(is_scan_of(mid, rng, r));
    let i = choose|i: int| 0 <= i < r.len() && (#[trigger] r[i].0) == marker;
    lemma_active_of_items(r, act);
    lemma_decode_encode(KeyView::TxnActive(w));
    assert(act[i] == w);
    assert(act.contains(w));
}

/// A transaction that begins later gets a newer version than an earlier one,
/// so the earlier one cannot see its writes, provided the version counter was
/// left alone in between.
pub proof fn lemma_later_writer_invisible(
    m0: Map<Seq<u8>, Seq<u8>>,
    m1: Map<Seq<u8>, Seq<u8>>,
    t: MvccTransaction,
    m2: Map<Seq<u8>, Seq<u8>>,
    m3: Map<Seq<u8>, Seq<u8>>,
    u: MvccTransaction,
)
    requires
        MvccTransaction::begin_post(m0, m1, Ok(t)),
        m2.contains_key(key_code(KeyView::NextVersion)) && m2[key_code(KeyView::NextVersion)]
            == m1[key_code(KeyView::NextVersion)],
        MvccTransaction::begin_post(m2, m3, Ok(u)),
    ensures
        u@.version == t@.version + 1,
        !t@.visible(u@.version),
{
    let nv = key_code(KeyView::NextVersion);
    let v = t@.version;
    assert(key_code(KeyView::TxnActive(v)) != nv) by {
        assert(key_code(KeyView::TxnActive(v))[0] == 1u8);
    }
    assert(m1[nv] == u64_le((v + 1) as u64));
    let b = u64_le((v + 1) as u64);
    lemma_u64_bytes((v + 1) as u64);
    assert(b.subrange(0, 8).reverse() =~= u64_bytes((v + 1) as u64));
}

proof fn lemma_version_code_distinct(key: Seq<u8>, w: u64, other: KeyView)
    requires
        other != KeyView::Version(key, w),
    ensures
        key_code(KeyView::Version(key, w)) != key_code(other),
{
    lemma_decode_encode(KeyView::Version(key, w));
    lemma_decode_encode(other);
}

/// Two stores that agree on the version records of `key` that `st` can see
/// give `st` the same read of `key`.
#[verifier::rlimit(60)]
proof fn lemma_same_visible(m: Map<Seq<u8>, Seq<u8>>, m2: Map<Seq<u8>, Seq<u8>>, st: &TransactionState, key: Seq<u8>)
    requires
        forall|w: u64|
            st.visible(w) ==> (m2.contains_key(#[trigger] version_key(key, w)) == m.contains_key(
                version_key(key, w),
            ) && (m.contains_key(version_key(key, w)) ==> m2[version_key(key, w)]
                == m[version_key(key, w)])),
    ensures
        newest_visible(m2, st, key) == newest_visible(m, st, key),
{
    let ws = visible_versions(m, st, key);
    let ws2 = visible_versions(m2, st, key);
    assert(ws2 =~= ws) by {
        reveal(visible_versions);
    }
    if exists|w: u64| ws.contains(w) && forall|u: u64| ws.contains(u) ==> u <= w {
        let top = choose|w: u64| ws.contains(w) && forall|u: u64| ws.contains(u) ==> u <= w;
        assert(st.visible(top) && m.contains_key(version_key(key, top))) by {
            reveal(visible_versions);
        }
    }
}

/// Another transaction's write, of a version this transaction cannot see,
/// leaves this transaction's reads as they were.
pub proof fn lemma_invisible_write_keeps_reads(
    m: Map<Seq<u8>, Seq<u8>>,
    v: u64,
    k: Seq<u8>,
    value: Option<Seq<u8>>,
    st: &TransactionState,
    key: Seq<u8>,
)
    requires
        !st.visible(v),
    ensures
        newest_visible(written(m, v, k, value), st, key) == newest_visible(m, st, key),
{
    let m2 = written(m, v, k, value);
    assert forall|w: u64| st.visible(w) implies (m2.contains_key(#[trigger] version_key(key, w))
        == m.contains_key(version_key(key, w)) && (m.contains_key(version_key(key, w))
        ==> m2[version_key(key, w)] == m[version_key(key, w)])) by {
        reveal(version_key);
        lemma_version_code_distinct(key, w, KeyView::TxnWrite(v, k));
        lemma_version_code_distinct(key, w, KeyView::Version(k, v));
    }
    lemma_same_visible(m, m2, st, key);
}

/// Committing a transaction removes no version record, so no reader's view
/// changes.
pub proof fn lemma_commit_keeps_reads(m: Map<Seq<u8>, Seq<u8>>, v: u64, st: &TransactionState, key: Seq<u8>)
    requires
    ensures
        newest_visible(
            m.remove_keys(Set::new(write_markers(v))).remove(key_code(KeyView::TxnActive(v))),
            st,
            key,
        ) == newest_visible(m, st, key),
{
    let m2 = m.remove_keys(Set::new(write_markers(v))).remove(key_code(KeyView::TxnActive(v)));
    assert forall|w: u64| st.visible(w) implies (m2.contains_key(#[trigger] version_key(key, w))
        == m.contains_key(version_key(key, w)) && (m.contains_key(version_key(key, w))
        ==> m2[version_key(key, w)] == m[version_key(key, w)])) by {
        reveal(version_key);
        let c = key_code(KeyView::Version(key, w));
        lemma_version_code_distinct(key, w, KeyView::TxnActive(v));
        if write_markers(v)(c) {
            lemma_markers_tag(v, c);
        }
    }
    lemma_same_visible(m, m2, st, key);
}

/// A key at or after a prefix that starts with 3 starts with 3 or more.
proof fn lemma_version_range_tag(p: Seq<u8>, k: Seq<u8>)
    requires
        p.len() > 0,
        p[0] == 3u8,
        in_prefix_range(p, k),
    ensures
        k.len() > 0 && k[0] >= 3u8,
{
    reveal_with_fuel(lex_lt, 2);
    lemma_lex_trichotomy(p, k);
}

/// Two maps that agree on the keys of a range have the same scan of it.
proof fn lemma_scan_same_range(
    m: Map<Seq<u8>, Seq<u8>>,
    m2: Map<Seq<u8>, Seq<u8>>,
    rng: spec_fn(Seq<u8>) -> bool,
    r: Seq<(Seq<u8>, Seq<u8>)>,
)
    requires
        is_scan_of(m, rng, r),
        forall|k: Seq<u8>| #[trigger] rng(k) ==> m2.contains_key(k) == m.contains_key(k) && (m.contains_key(k) ==> m2[k] == m[k]),
    ensures
        is_scan_of(m2, rng, r),
        scan_of(m2, rng) == scan_of(m, rng),
{
    assert forall|k: Seq<u8>| #[trigger] m2.contains_key(k) && rng(k) implies exists|i: int| 0 <= i < r.len() && (#[trigger] r[i].0) == k by {
        assert(m.contains_key(k));
    }
    lemma_scan_of(m, rng, r);
    lemma_scan_of(m2, rng, r);
}

/// Committing a transaction leaves every snapshot prefix scan as it was: the
/// commit removes only markers, none of which lies among the version records.
pub proof fn lemma_commit_keeps_scans(
    m: Map<Seq<u8>, Seq<u8>>,
    v: u64,
    st: &TransactionState,
    p: Seq<u8>,
    r: Seq<(Seq<u8>, Seq<u8>)>,
)
    requires
        is_scan_of(m, with_prefix(version_prefix(p)), r),
    ensures
        scan_spec(
            m.remove_keys(Set::new(write_markers(v))).remove(key_code(KeyView::TxnActive(v))),
            st,
            p,
        ) == scan_spec(m, st, p),
{
    let m2 = m.remove_keys(Set::new(write_markers(v))).remove(key_code(KeyView::TxnActive(v)));
    let rng = with_prefix(version_prefix(p));
    assert forall|k: Seq<u8>| #[trigger] rng(k) implies m2.contains_key(k) == m.contains_key(k) && (m.contains_key(k) ==> m2[k] == m[k]) by {
        lemma_version_range_tag(version_prefix(p), k);
        assert(key_code(KeyView::TxnActive(v))[0] == 1u8);
        if write_markers(v)(k) {
            lemma_markers_tag(v, k);
        }
    }
    lemma_scan_same_range(m, m2, rng, r);
}

/// A record is a version record that `st` cannot see.
pub open spec fn hidden_record(st: &TransactionState, k: Seq<u8>) -> bool {
    parse_key(k) is Some && parse_key(k)->Some_0 is Version && !st.visible(parse_key(k)->Some_0->Version_1)
}

/// A version record the transaction cannot see adds nothing to its scan.
proof fn lemma_fold_skip(a: Seq<(Seq<u8>, Seq<u8>)>, x: (Seq<u8>, Seq<u8>), b: Seq<(Seq<u8>, Seq<u8>)>, st: &TransactionState)
    requires
        hidden_record(st, x.0),
    ensures
        scan_fold(a + seq![x] + b, st) == scan_fold(a + b, st),
    decreases b.len(),
{
    if b.len() == 0 {
        assert(a + seq![x] + b =~= a.push(x));
        assert(a.push(x).drop_last() =~= a);
        assert(a + b =~= a);
    } else {
        let b2 = b.drop_last();
        lemma_fold_skip(a, x, b2, st);
        assert((a + seq![x] + b).drop_last() =~= a + seq![x] + b2);
        assert((a + b).drop_last() =~= a + b2);
        assert((a + seq![x] + b).last() == b.last());
        assert((a + b).last() == b.last());
    }
}

/// The keys before `q` sort before `k`, the others after it.
pub open spec fn splits_at(r: Seq<(Seq<u8>, Seq<u8>)>, k: Seq<u8>, q: int) -> bool {
    &&& 0 <= q <= r.len()
    &&& forall|i: int| 0 <= i < q ==> lex_lt(#[trigger] r[i].0, k)
    &&& forall|i: int| q <= i < r.len() ==> lex_lt(k, #[trigger] r[i].0)
}

/// Where a key not in an ascending sequence would go.
proof fn lemma_insert_position(r: Seq<(Seq<u8>, Seq<u8>)>, k: Seq<u8>)
    requires
        ascending(r),
        forall|i: int| 0 <= i < r.len() ==> (#[trigger] r[i].0) != k,
    ensures
        exists|q: int| #[trigger] splits_at(r, k, q),
    decreases r.len(),
{
    if r.len() == 0 {
        assert(splits_at(r, k, 0));
    } else {
        let last = r.len() - 1;
        lemma_lex_trichotomy(r[last].0, k);
        if lex_lt(r[last].0, k) {
            assert forall|i: int| 0 <= i < r.len() implies lex_lt(#[trigger] r[i].0, k) by {
                if i < last {
                    crate::bytes::lemma_lex_transitive(r[i].0, r[last].0, k);
                }
            }
            assert(splits_at(r, k, r.len() as int));
        } else {
            let p = r.drop_last();
            assert forall|i: int| 0 <= i < p.len() implies (#[trigger] p[i].0) != k by {
                assert(p[i] == r[i]);
            }
            lemma_insert_position(p, k);
            let q = choose|q: int| #[trigger] splits_at(p, k, q);
            assert forall|i: int| 0 <= i < q implies lex_lt(#[trigger] r[i].0, k) by {
                assert(p[i] == r[i]);
            }
            assert forall|i: int| q <= i < r.len() implies lex_lt(k, #[trigger] r[i].0) by {
                if i < last {
                    assert(p[i] == r[i]);
                }
            }
            assert(splits_at(r, k, q));
        }
    }
}

/// Changing the value of a key in a map changes it in the scan.
proof fn lemma_update_scan(
    m: Map<Seq<u8>, Seq<u8>>,
    m2: Map<Seq<u8>, Seq<u8>>,
    rng: spec_fn(Seq<u8>) -> bool,
    r: Seq<(Seq<u8>, Seq<u8>)>,
    i: int,
    x: (Seq<u8>, Seq<u8>),
)
    requires
        is_scan_of(m, rng, r),
        0 <= i < r.len(),
        r[i].0 == x.0,
        forall|y: Seq<u8>| #[trigger] rng(y) && y != x.0 ==> m2.contains_key(y) == m.contains_key(y) && (m.contains_key(y) ==> m2[y] == m[y]),
        m2.contains_key(x.0) && m2[x.0] == x.1,
    ensures
        is_scan_of(m2, rng, r.update(i, x)),
{
    let r2 = r.update(i, x);
    assert forall|c: int, d: int| 0 <= c < d < r2.len() implies lex_lt(#[trigger] r2[c].0, #[trigger] r2[d].0) by {
        assert(r2[c].0 == r[c].0 && r2[d].0 == r[d].0);
    }
    assert forall|j: int| 0 <= j < r2.len() implies rng(#[trigger] r2[j].0) && m2.contains_key(r2[j].0) && m2[r2[j].0] == r2[j].1 by {
        if j != i {
            lemma_lex_irreflexive(x.0);
            if j < i {
                assert(lex_lt(r[j].0, r[i].0));
            } else {
                assert(lex_lt(r[i].0, r[j].0));
            }
            assert(r[j].0 != x.0);
            assert(m.contains_key(r[j].0));
        }
    }
    assert forall|y: Seq<u8>| #[trigger] m2.contains_key(y) && rng(y) implies exists|j: int| 0 <= j < r2.len() && (#[trigger] r2[j].0) == y by {
        if y == x.0 {
            assert(r2[i].0 == y);
        } else {
            let j = choose|j: int| 0 <= j < r.len() && (#[trigger] r[j].0) == y;
            assert(r2[j].0 == y);
        }
    }
}

/// Adding a key to a map adds it to the scan, in its place.
proof fn lemma_insert_scan(
    m: Map<Seq<u8>, Seq<u8>>,
    m2: Map<Seq<u8>, Seq<u8>>,
    rng: spec_fn(Seq<u8>) -> bool,
    r: Seq<(Seq<u8>, Seq<u8>)>,
    q: int,
    x: (Seq<u8>, Seq<u8>),
)
    requires
        is_scan_of(m, rng, r),
        splits_at(r, x.0, q),
        rng(x.0),
        !m.contains_key(x.0),
        forall|y: Seq<u8>| #[trigger] rng(y) && y != x.0 ==> m2.contains_key(y) == m.contains_key(y) && (m.contains_key(y) ==> m2[y] == m[y]),
        m2.contains_key(x.0) && m2[x.0] == x.1,
    ensures
        is_scan_of(m2, rng, r.take(q) + seq![x] + r.skip(q)),
{
    let rec = x.0;
    let r2 = r.take(q) + seq![x] + r.skip(q);
    assert forall|i: int| 0 <= i < r2.len() implies (#[trigger] r2[i]) == (if i < q {
        r[i]
    } else if i == q {
        x
    } else {
        r[i - 1]
    }) by {}
    assert forall|c: int, d: int| 0 <= c < d < r2.len() implies lex_lt(#[trigger] r2[c].0, #[trigger] r2[d].0) by {
        if d < q {
        } else if d == q {
        } else if c < q {
            crate::bytes::lemma_lex_transitive(r[c].0, rec, r[d - 1].0);
        } else if c == q {
        } else {
        }
    }
    assert forall|i: int| 0 <= i < r2.len() implies rng(#[trigger] r2[i].0) && m2.contains_key(r2[i].0) && m2[r2[i].0] == r2[i].1 by {
        if i != q {
            let j = if i < q { i } else { i - 1 };
            assert(r2[i] == r[j]);
            assert(m.contains_key(r[j].0));
        }
    }
    assert forall|y: Seq<u8>| #[trigger] m2.contains_key(y) && rng(y) implies exists|j: int| 0 <= j < r2.len() && (#[trigger] r2[j].0) == y by {
        if y == rec {
            assert(r2[q].0 == y);
        } else {
            let j = choose|j: int| 0 <= j < r.len() && (#[trigger] r[j].0) == y;
            if j < q {
                assert(r2[j].0 == y);
            } else {
                assert(r2[j + 1].0 == y);
            }
        }
    }
}

/// Another transaction's write, of a version this transaction cannot see,
/// leaves this transaction's prefix scans as they were.
pub proof fn lemma_invisible_write_keeps_scans(
    m: Map<Seq<u8>, Seq<u8>>,
    v: u64,
    k: Seq<u8>,
    value: Option<Seq<u8>>,
    st: &TransactionState,
    p: Seq<u8>,
    r: Seq<(Seq<u8>, Seq<u8>)>,
)
    requires
        !st.visible(v),
        is_scan_of(m, with_prefix(version_prefix(p)), r),
    ensures
        scan_spec(written(m, v, k, value), st, p) == scan_spec(m, st, p),
{
    let rng = with_prefix(version_prefix(p));
    let marker = key_code(KeyView::TxnWrite(v, k));
    let rec = key_code(KeyView::Version(k, v));
    let val = stored_code(value);
    let m1 = m.insert(marker, seq![]);
    let m2 = written(m, v, k, value);
    assert(m2 == m1.insert(rec, val));
    assert forall|x: Seq<u8>| #[trigger] rng(x) implies m1.contains_key(x) == m.contains_key(x) && (m.contains_key(x) ==> m1[x] == m[x]) by {
        lemma_version_range_tag(version_prefix(p), x);
        assert(marker[0] == 2u8);
    }
    lemma_scan_same_range(m, m1, rng, r);
    lemma_scan_of(m, rng, r);
    lemma_decode_encode(KeyView::Version(k, v));
    let x = (rec, val);
    assert(hidden_record(st, rec));
    if !rng(rec) {
        assert forall|y: Seq<u8>| #[trigger] rng(y) implies m2.contains_key(y) == m1.contains_key(y) && (m1.contains_key(y) ==> m2[y] == m1[y]) by {}
        lemma_scan_same_range(m1, m2, rng, r);
    } else if m1.contains_key(rec) {
        let i = choose|i: int| 0 <= i < r.len() && (#[trigger] r[i].0) == rec;
        let r2 = r.update(i, x);
        assert forall|y: Seq<u8>| #[trigger] rng(y) && y != rec implies m2.contains_key(y) == m.contains_key(y) && (m.contains_key(y) ==> m2[y] == m[y]) by {
            assert(m1.contains_key(y) == m.contains_key(y));
        }
        lemma_update_scan(m, m2, rng, r, i, x);
        lemma_scan_of(m2, rng, r2);
        let a = r.take(i);
        let b = r.skip(i + 1);
        assert(r =~= a + seq![r[i]] + b);
        assert(r2 =~= a + seq![x] + b);
        lemma_fold_skip(a, r[i], b, st);
        lemma_fold_skip(a, x, b, st);
    } else {
        assert forall|i: int| 0 <= i < r.len() implies (#[trigger] r[i].0) != rec by {}
        lemma_insert_position(r, rec);
        let q = choose|q: int| #[trigger] splits_at(r, rec, q);
        let a = r.take(q);
        let b = r.skip(q);
        let r2 = a + seq![x] + b;
        assert(r =~= a + b);
        lemma_insert_scan(m, m2, rng, r, q, x);
        lemma_scan_of(m2, rng, r2);
        lemma_fold_skip(a, x, b, st);
    }
}

/// Conflict detection: once a version `a` of `key` is in the store, a
/// transaction that cannot see `a` (it was active when the transaction began,
/// or is newer) and whose conflict range reaches `a` fails to write `key`, as
/// long as no newer version of `key` has been written since. `r` is the
/// store's scan of the versions of `key` from the transaction's conflict
/// floor on, which the write checks.
pub proof fn lemma_write_conflict(
    m: Map<Seq<u8>, Seq<u8>>,
    st: &TransactionState,
    key: Seq<u8>,
    a: u64,
    r: Seq<(Seq<u8>, Seq<u8>)>,
)
    requires
        keys_encoded(m),
        is_scan_of(m, versions_of(key, st.conflict_floor(), u64::MAX), r),
        m.contains_key(key_code(KeyView::Version(key, a))),
        a >= st.conflict_floor(),
        !st.visible(a),
        forall|w: u64| a < w ==> !m.contains_key(#[trigger] key_code(KeyView::Version(key, w))),
    ensures
        write_check(m, st, key) == WriteCheck::Conflict,
{
    let lo = st.conflict_floor();
    let rng = versions_of(key, lo, u64::MAX);
    lemma_scan_of(m, rng, r);
    let ka = key_code(KeyView::Version(key, a));
    lemma_versions_range(key, lo, u64::MAX, KeyView::Version(key, a));
    assert(rng(ka));
    let i = choose|i: int| 0 <= i < r.len() && (#[trigger] r[i].0) == ka;
    let n = r.len() - 1;
    let last = r[n].0;
    assert(m.contains_key(last) && rng(last));
    let kv = choose|kv: KeyView| key_code(kv) == last;
    lemma_versions_range(key, lo, u64::MAX, kv);
    let w = kv->Version_1;
    assert(kv == KeyView::Version(key, w));
    if w != a {
        assert(w <= a);
        assert(i < n) by {
            if i == n {
                lemma_decode_encode(kv);
                lemma_decode_encode(KeyView::Version(key, a));
            }
        }
        assert(lex_lt(r[i].0, r[n].0));
        lemma_key_order(KeyView::Version(key, a), kv);
        lemma_lex_irreflexive(key);
    }
    lemma_decode_encode(kv);
    assert(r.last() == r[n]);
}

/// Rolling back a transaction this transaction cannot see leaves this
/// transaction's reads as they were: what goes is markers and version records
/// of the rolled-back version.
pub proof fn lemma_rollback_keeps_reads(m: Map<Seq<u8>, Seq<u8>>, v: u64, st: &TransactionState, key: Seq<u8>)
    requires
        !st.visible(v),
    ensures
        newest_visible(
            m.remove_keys(rollback_keys(m, v)).remove(key_code(KeyView::TxnActive(v))),
            st,
            key,
        ) == newest_visible(m, st, key),
{
    let m2 = m.remove_keys(rollback_keys(m, v)).remove(key_code(KeyView::TxnActive(v)));
    assert forall|w: u64| st.visible(w) implies (m2.contains_key(#[trigger] version_key(key, w))
        == m.contains_key(version_key(key, w)) && (m.contains_key(version_key(key, w))
        ==> m2[version_key(key, w)] == m[version_key(key, w)])) by {
        reveal(version_key);
        let c = key_code(KeyView::Version(key, w));
        lemma_version_code_distinct(key, w, KeyView::TxnActive(v));
        if write_markers(v)(c) {
            lemma_markers_tag(v, c);
        }
        if rollback_keys(m, v).contains(c) && !(m.contains_key(c) && write_markers(v)(c)) {
            let x = choose|x: Seq<u8>|
                #![trigger m.contains_key(x)]
                m.contains_key(x) && write_markers(v)(x) && is_marker_of(x, v) && c == key_code(
                    KeyView::Version(parse_key(x)->Some_0->TxnWrite_1, v),
                );
            lemma_version_code_distinct(key, w, KeyView::Version(parse_key(x)->Some_0->TxnWrite_1, v));
        }
    }
    lemma_same_visible(m, m2, st, key);
}

/// The transaction layer keeps every key of the store an encoded logical
/// key: an empty store has none; begin adds the counter and an active marker;
/// a write adds a write-set marker and a version record; commit and rollback
/// only remove keys.
pub proof fn lemma_keys_stay_encoded(
    m: Map<Seq<u8>, Seq<u8>>,
    v: u64,
    k: Seq<u8>,
    value: Option<Seq<u8>>,
    counter: Seq<u8>,
    gone: Set<Seq<u8>>,
)
    requires
        keys_encoded(m),
    ensures
        keys_encoded(Map::<Seq<u8>, Seq<u8>>::empty()),
        keys_encoded(
            m.insert(key_code(KeyView::NextVersion), counter).insert(key_code(KeyView::TxnActive(v)), seq![]),
        ),
        keys_encoded(written(m, v, k, value)),
        keys_encoded(m.remove_keys(gone).remove(key_code(KeyView::TxnActive(v)))),
{
    let m1 = m.insert(key_code(KeyView::NextVersion), counter).insert(key_code(KeyView::TxnActive(v)), seq![]);
    assert forall|x: Seq<u8>| #[trigger] m1.contains_key(x) implies exists|kv: KeyView| key_code(kv) == x by {
        if x == key_code(KeyView::NextVersion) {
            assert(key_code(KeyView::NextVersion) == x);
        } else if x == key_code(KeyView::TxnActive(v)) {
            assert(key_code(KeyView::TxnActive(v)) == x);
        } else {
            assert(m.contains_key(x));
        }
    }
    let m2 = written(m, v, k, value);
    assert forall|x: Seq<u8>| #[trigger] m2.contains_key(x) implies exists|kv: KeyView| key_code(kv) == x by {
        if x == key_code(KeyView::TxnWrite(v, k)) {
            assert(key_code(KeyView::TxnWrite(v, k)) == x);
        } else if x == key_code(KeyView::Version(k, v)) {
            assert(key_code(KeyView::Version(k, v)) == x);
        } else {
            assert(m.contains_key(x));
        }
    }
    let m3 = m.remove_keys(gone).remove(key_code(KeyView::TxnActive(v)));
    assert forall|x: Seq<u8>| #[trigger] m3.contains_key(x) implies exists|kv: KeyView| key_code(kv) == x by {
        assert(m.contains_key(x));
    }
}

proof fn lemma_active_of_bad(all: Seq<(Seq<u8>, Seq<u8>)>, i: int)
    requires
        0 < i <= all.len(),
        !(parse_key(all[i - 1].0) is Some && parse_key(all[i - 1].0)->Some_0 is TxnActive),
    ensures
        active_of(all) is None,
    decreases all.len() - i,
{
    if i == all.len() {
        assert(all.last() == all[i - 1]);
    } else {
        lemma_active_of_bad(all.drop_last(), i);
        assert(all.drop_last()[i - 1] == all[i - 1]);
    }
}

} // verus!
