//! The interface every key/value engine offers: point operations and ordered
//! range scans over byte keys.

use vstd::prelude::*;
use crate::bytes::{lex_lt, lex_le, compare_bytes, lemma_lex_irreflexive, lemma_lex_trichotomy};
use crate::error::Error;

verus! {

/// One end of a key range.
#[derive(Debug)]
pub enum Bound {
    Included(Vec<u8>),
    Excluded(Vec<u8>),
    Unbounded,
}

/// `k` is at or after the start bound `b`.
pub open spec fn after_start(b: &Bound, k: Seq<u8>) -> bool {
    match b {
        Bound::Included(s) => lex_le(s@, k),
        Bound::Excluded(s) => lex_lt(s@, k),
        Bound::Unbounded => true,
    }
}

/// `k` is at or before the end bound `b`.
pub open spec fn before_end(b: &Bound, k: Seq<u8>) -> bool {
    match b {
        Bound::Included(s) => lex_le(k, s@),
        Bound::Excluded(s) => lex_lt(k, s@),
        Bound::Unbounded => true,
    }
}

pub open spec fn in_range(start: &Bound, end: &Bound, k: Seq<u8>) -> bool {
    after_start(start, k) && before_end(end, k)
}

/// The key/value pairs of a sequence, as values.
pub open spec fn pairs_view(v: Seq<(Vec<u8>, Vec<u8>)>) -> Seq<(Seq<u8>, Seq<u8>)> {
    v.map_values(|p: (Vec<u8>, Vec<u8>)| (p.0@, p.1@))
}

/// Keys strictly ascending.
pub open spec fn ascending<V>(r: Seq<(Seq<u8>, V)>) -> bool {
    forall|i: int, j: int| 0 <= i < j < r.len() ==> lex_lt(#[trigger] r[i].0, #[trigger] r[j].0)
}

/// `r` lists exactly the entries of `m` whose keys lie in the range, in
/// ascending key order.
pub open spec fn is_scan_of<V>(
    m: Map<Seq<u8>, V>,
    range: spec_fn(Seq<u8>) -> bool,
    r: Seq<(Seq<u8>, V)>,
) -> bool {
    &&& ascending(r)
    &&& forall|i: int|
        0 <= i < r.len() ==> range(#[trigger] r[i].0) && m.contains_key(r[i].0) && m[r[i].0]
            == r[i].1
    &&& forall|k: Seq<u8>|
        #![trigger m.contains_key(k)]
        m.contains_key(k) && range(k) ==> exists|i: int| 0 <= i < r.len() && (#[trigger] r[i].0) == k
}

/// The scan of `m` over `range`: its entries in the range, in key order.
pub open spec fn scan_of(m: Map<Seq<u8>, Seq<u8>>, range: spec_fn(Seq<u8>) -> bool) -> Seq<(Seq<u8>, Seq<u8>)> {
    choose|r: Seq<(Seq<u8>, Seq<u8>)>| is_scan_of(m, range, r)
}

/// A scan result is determined by the map and the range.
pub proof fn lemma_scan_of(
    m: Map<Seq<u8>, Seq<u8>>,
    range: spec_fn(Seq<u8>) -> bool,
    r: Seq<(Seq<u8>, Seq<u8>)>,
)
    requires
        is_scan_of(m, range, r),
    ensures
        scan_of(m, range) == r,
{
    let q = scan_of(m, range);
    lemma_scan_unique(m, range, r, q);
}

proof fn lemma_scan_unique(
    m: Map<Seq<u8>, Seq<u8>>,
    range: spec_fn(Seq<u8>) -> bool,
    r: Seq<(Seq<u8>, Seq<u8>)>,
    q: Seq<(Seq<u8>, Seq<u8>)>,
)
    requires
        is_scan_of(m, range, r),
        is_scan_of(m, range, q),
    ensures
        r == q,
    decreases r.len() + q.len(),
{
    if r.len() == 0 {
        if q.len() > 0 {
            assert(m.contains_key(q[0].0) && range(q[0].0));
        }
        assert(q =~= r);
    } else if q.len() == 0 {
        assert(m.contains_key(r[0].0) && range(r[0].0));
    } else {
        let a = r[0].0;
        let b = q[0].0;
        lemma_lex_trichotomy(a, b);
        assert(m.contains_key(a) && range(a));
        assert(m.contains_key(b) && range(b));
        let j = choose|j: int| 0 <= j < q.len() && (#[trigger] q[j].0) == a;
        let i = choose|i: int| 0 <= i < r.len() && (#[trigger] r[i].0) == b;
        lemma_lex_irreflexive(a);
        lemma_lex_irreflexive(b);
        if j > 0 {
            assert(lex_lt(b, a));
        }
        if i > 0 {
            assert(lex_lt(a, b));
        }
        assert(a == b);
        let r2 = r.drop_first();
        let q2 = q.drop_first();
        let range2 = |k: Seq<u8>| range(k) && lex_lt(a, k);
        assert(is_scan_of(m, range2, r2)) by {
            assert forall|k: Seq<u8>| #[trigger] m.contains_key(k) && range2(k) implies exists|x: int| 0 <= x < r2.len() && (#[trigger] r2[x].0) == k by {
                let x = choose|x: int| 0 <= x < r.len() && (#[trigger] r[x].0) == k;
                assert(x != 0);
                assert(r2[x - 1].0 == k);
            }
            assert forall|x: int| 0 <= x < r2.len() implies range2(#[trigger] r2[x].0) by {
                assert(r2[x] == r[x + 1]);
            }
        }
        assert(is_scan_of(m, range2, q2)) by {
            assert forall|k: Seq<u8>| #[trigger] m.contains_key(k) && range2(k) implies exists|x: int| 0 <= x < q2.len() && (#[trigger] q2[x].0) == k by {
                let x = choose|x: int| 0 <= x < q.len() && (#[trigger] q[x].0) == k;
                assert(x != 0);
                assert(q2[x - 1].0 == k);
            }
            assert forall|x: int| 0 <= x < q2.len() implies range2(#[trigger] q2[x].0) by {
                assert(q2[x] == q[x + 1]);
            }
        }
        lemma_scan_unique(m, range2, r2, q2);
        assert(r[0] == q[0]);
        assert(r =~= seq![r[0]] + r2);
        assert(q =~= seq![q[0]] + q2);
    }
}

/// `k` lies in the range a prefix scan covers.
pub open spec fn in_prefix_range(prefix: Seq<u8>, k: Seq<u8>) -> bool {
    lex_le(prefix, k) && match prefix_end(prefix) {
        None => true,
        Some(e) => lex_lt(k, e),
    }
}

/// The exclusive end of the keys that start with `prefix`: the prefix with
/// its last byte raised by one. Where there is none to raise (the prefix is
/// empty or ends in 0xFF) the scan runs to the end.
pub open spec fn prefix_end(prefix: Seq<u8>) -> Option<Seq<u8>> {
    if prefix.len() == 0 || prefix.last() == 255 {
        None
    } else {
        Some(prefix.drop_last().push((prefix.last() + 1) as u8))
    }
}

pub open spec fn prefix_end_bound(prefix: Seq<u8>, b: &Bound) -> bool {
    match prefix_end(prefix) {
        None => b is Unbounded,
        Some(e) => b is Excluded && b->Excluded_0@ == e,
    }
}

/// Tests `k` against the start bound.
pub fn check_after_start(b: &Bound, k: &[u8]) -> (r: bool)
    ensures
        r == after_start(b, k@),
{
    match b {
        Bound::Included(s) => compare_bytes(s.as_slice(), k) <= 0,
        Bound::Excluded(s) => compare_bytes(s.as_slice(), k) < 0,
        Bound::Unbounded => true,
    }
}

/// Tests `k` against the end bound.
pub fn check_before_end(b: &Bound, k: &[u8]) -> (r: bool)
    ensures
        r == before_end(b, k@),
{
    match b {
        Bound::Included(s) => compare_bytes(k, s.as_slice()) <= 0,
        Bound::Excluded(s) => compare_bytes(k, s.as_slice()) < 0,
        Bound::Unbounded => true,
    }
}

/// The end bound of a prefix scan (see [`prefix_end`]).
pub fn prefix_end_of(prefix: &Vec<u8>) -> (r: Bound)
    ensures
        prefix_end_bound(prefix@, &r),
{
    let n = prefix.len();
    if n == 0 || prefix[n - 1] == 255 {
        Bound::Unbounded
    } else {
        let mut end: Vec<u8> = Vec::new();
        let mut i: usize = 0;
        while i < n - 1
            invariant
                n == prefix@.len(),
                n > 0,
                i <= n - 1,
                end@ == prefix@.subrange(0, i as int),
            decreases n - 1 - i,
        {
            end.push(prefix[i]);
            proof {
                assert(end@ =~= prefix@.subrange(0, i + 1));
            }
            i = i + 1;
        }
        end.push(prefix[n - 1] + 1);
        proof {
            assert(end@ =~= prefix@.drop_last().push((prefix@.last() + 1) as u8));
        }
        Bound::Excluded(end)
    }
}

/// The result of a scan: the matching pairs in ascending key order, taken
/// from either end.
pub struct EngineIterator {
    items: Vec<(Vec<u8>, Vec<u8>)>,
    front: usize,
    back: usize,
}

impl EngineIterator {
    /// The pairs not yet taken, in ascending key order.
    pub closed spec fn view(&self) -> Seq<(Seq<u8>, Seq<u8>)> {
        pairs_view(self.items@.subrange(self.front as int, self.back as int))
    }

    pub closed spec fn wf(&self) -> bool {
        self.front <= self.back <= self.items@.len()
    }

    pub fn new(items: Vec<(Vec<u8>, Vec<u8>)>) -> (r: Self)
        ensures
            r.wf(),
            r@ == pairs_view(items@),
    {
        let n = items.len();
        proof {
            assert(items@.subrange(0, n as int) =~= items@);
        }
        EngineIterator { items, front: 0, back: n }
    }

    /// How many pairs are left.
    pub fn remaining(&self) -> (r: usize)
        requires
            self.wf(),
        ensures
            r == self@.len(),
    {
        self.back - self.front
    }

    /// Takes the smallest remaining pair.
    pub fn next(&mut self) -> (r: Option<(Vec<u8>, Vec<u8>)>)
        requires
            old(self).wf(),
        ensures
            final(self).wf(),
            old(self)@.len() == 0 ==> r is None && final(self)@ == old(self)@,
            old(self)@.len() > 0 ==> r is Some && (r->Some_0.0@, r->Some_0.1@) == old(self)@[0]
                && final(self)@ == old(self)@.drop_first(),
    {
        if self.front >= self.back {
            return None;
        }
        let (k, v) = &self.items[self.front];
        let r = (k.clone(), v.clone());
        let ghost before = self.items@.subrange(self.front as int, self.back as int);
        self.front = self.front + 1;
        proof {
            assert(self.items@.subrange(self.front as int, self.back as int) =~= before.drop_first());
            assert(pairs_view(before.drop_first()) =~= pairs_view(before).drop_first());
        }
        Some(r)
    }

    /// Takes the largest remaining pair.
    pub fn next_back(&mut self) -> (r: Option<(Vec<u8>, Vec<u8>)>)
        requires
            old(self).wf(),
        ensures
            final(self).wf(),
            old(self)@.len() == 0 ==> r is None && final(self)@ == old(self)@,
            old(self)@.len() > 0 ==> r is Some && (r->Some_0.0@, r->Some_0.1@) == old(self)@.last()
                && final(self)@ == old(self)@.drop_last(),
    {
        if self.front >= self.back {
            return None;
        }
        let (k, v) = &self.items[self.back - 1];
        let r = (k.clone(), v.clone());
        let ghost before = self.items@.subrange(self.front as int, self.back as int);
        self.back = self.back - 1;
        proof {
            assert(self.items@.subrange(self.front as int, self.back as int) =~= before.drop_last());
            assert(pairs_view(before.drop_last()) =~= pairs_view(before).drop_last());
        }
        Some(r)
    }
}

/// An ordered store from byte keys to byte values. Engines outside this
/// library (one backed by a file, say) implement the operations only; the
/// contracts below are what the transaction layer relies on them to keep.
pub trait Engine {
    /// The entries the engine holds. Each verified engine defines it; the
    /// default leaves it unspecified.
    closed spec fn entries(&self) -> Map<Seq<u8>, Seq<u8>> {
        arbitrary()
    }

    /// The engine's own consistency condition, kept by every operation
    /// (none by default).
    open spec fn inv(&self) -> bool {
        true
    }

    /// The engine never fails (an engine in memory). By default an engine
    /// may fail, as one that does I/O does.
    open spec fn infallible(&self) -> bool {
        false
    }

    /// Stores `value` under `key`, replacing what was there.
    fn set(&mut self, key: Vec<u8>, value: Vec<u8>) -> (r: Result<(), Error>)
        requires
            old(self).inv(),
        ensures
            r is Err ==> r->Err_0 == Error::Io,
            old(self).infallible() ==> r is Ok,
            final(self).infallible() == old(self).infallible(),
            final(self).inv(),
            r is Ok ==> final(self).entries() == old(self).entries().insert(key@, value@),
    ;

    /// The value stored under `key`, if any.
    fn get(&mut self, key: Vec<u8>) -> (r: Result<Option<Vec<u8>>, Error>)
        requires
            old(self).inv(),
        ensures
            r is Err ==> r->Err_0 == Error::Io,
            old(self).infallible() ==> r is Ok,
            final(self).infallible() == old(self).infallible(),
            final(self).inv(),
            final(self).entries() == old(self).entries(),
            r is Ok ==> (r->Ok_0 is Some <==> old(self).entries().contains_key(key@)),
            r is Ok && r->Ok_0 is Some ==> r->Ok_0->Some_0@ == old(self).entries()[key@],
    ;

    /// Removes `key`; a missing key is no error.
    fn delete(&mut self, key: Vec<u8>) -> (r: Result<(), Error>)
        requires
            old(self).inv(),
        ensures
            r is Err ==> r->Err_0 == Error::Io,
            old(self).infallible() ==> r is Ok,
            final(self).infallible() == old(self).infallible(),
            final(self).inv(),
            r is Ok ==> final(self).entries() == old(self).entries().remove(key@),
    ;

    /// The entries whose keys lie between `start` and `end`, in key order.
    fn scan(&mut self, start: Bound, end: Bound) -> (r: Result<EngineIterator, Error>)
        requires
            old(self).inv(),
        ensures
            r is Err ==> r->Err_0 == Error::Io,
            old(self).infallible() ==> r is Ok,
            final(self).infallible() == old(self).infallible(),
            final(self).inv(),
            final(self).entries() == old(self).entries(),
            r is Ok ==> r->Ok_0.wf() && is_scan_of(
                old(self).entries(),
                |k: Seq<u8>| in_range(&start, &end, k),
                r->Ok_0@,
            ),
    ;
}

/// The entries whose keys lie in `[prefix, prefix_end(prefix))`, in key order.
pub fn scan_prefix<E: Engine>(engine: &mut E, prefix: Vec<u8>) -> (r: Result<EngineIterator, Error>)
    requires
        old(engine).inv(),
    ensures
        r is Err ==> r->Err_0 == Error::Io,
        old(engine).infallible() ==> r is Ok,
        final(engine).infallible() == old(engine).infallible(),
        final(engine).inv(),
        final(engine).entries() == old(engine).entries(),
        r is Ok ==> r->Ok_0.wf() && is_scan_of(
            old(engine).entries(),
            |k: Seq<u8>| in_prefix_range(prefix@, k),
            r->Ok_0@,
        ),
{
    let end = prefix_end_of(&prefix);
    let ghost p = prefix@;
    let ghost e = end;
    let r = engine.scan(Bound::Included(prefix), end);
    proof {
        if r is Ok {
            let it = r->Ok_0;
            let m = old(engine).entries();
            assert forall|k: Seq<u8>| #[trigger] in_range(&Bound::Included(prefix), &e, k) == in_prefix_range(p, k) by {}
            assert(is_scan_of(m, |k: Seq<u8>| in_prefix_range(p, k), it@));
        }
    }
    r
}

} // verus!
