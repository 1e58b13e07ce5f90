//! An engine held in memory: its entries in a vector sorted by key.

use vstd::prelude::*;
use crate::bytes::{lex_lt, compare_bytes, lemma_lex_irreflexive, lemma_lex_transitive};
use crate::engine::{
    Bound, Engine, EngineIterator, ascending, is_scan_of, in_range, pairs_view,
    check_after_start, check_before_end,
};
use crate::error::Error;

verus! {

/// The map a sequence of pairs with distinct keys stands for.
pub open spec fn map_of<V>(s: Seq<(Seq<u8>, V)>) -> Map<Seq<u8>, V> {
    Map::new(
        |k: Seq<u8>| exists|i: int| 0 <= i < s.len() && s[i].0 == k,
        |k: Seq<u8>| s[index_of(s, k)].1,
    )
}

/// A position of `k` among the keys of `s`, where it occurs.
pub open spec fn index_of<V>(s: Seq<(Seq<u8>, V)>, k: Seq<u8>) -> int {
    choose|i: int| 0 <= i < s.len() && s[i].0 == k
}

pub proof fn lemma_map_of_index<V>(s: Seq<(Seq<u8>, V)>, n: int)
    requires
        ascending(s),
        0 <= n < s.len(),
    ensures
        map_of(s).contains_key(s[n].0),
        map_of(s)[s[n].0] == s[n].1,
{
    let k = s[n].0;
    assert(0 <= n < s.len() && s[n].0 == k);
    let j = index_of(s, k);
    if j != n {
        lemma_lex_irreflexive(k);
        if j < n {
            assert(lex_lt(s[j].0, s[n].0));
        } else {
            assert(lex_lt(s[n].0, s[j].0));
        }
    }
    assert(map_of(s)[k] == s[j].1);
}

pub proof fn lemma_map_of_all<V>(s: Seq<(Seq<u8>, V)>)
    requires
        ascending(s),
    ensures
        forall|i: int|
            0 <= i < s.len() ==> map_of(s).contains_key(#[trigger] s[i].0) && map_of(s)[s[i].0]
                == s[i].1,
        forall|k: Seq<u8>|
            map_of(s).contains_key(k) ==> exists|i: int| 0 <= i < s.len() && #[trigger] s[i].0 == k,
{
    assert forall|i: int| 0 <= i < s.len() implies map_of(s).contains_key(#[trigger] s[i].0)
        && map_of(s)[s[i].0] == s[i].1 by {
        lemma_map_of_index(s, i);
    }
}

pub proof fn lemma_replace_entry<V>(
    old_s: Seq<(Seq<u8>, V)>,
    s: Seq<(Seq<u8>, V)>,
    p: int,
    k: Seq<u8>,
    v: V,
)
    requires
        ascending(old_s),
        0 <= p < old_s.len(),
        old_s[p].0 == k,
        s == old_s.update(p, (k, v)),
    ensures
        ascending(s),
        map_of(s) == map_of(old_s).insert(k, v),
{
        assert(ascending(s)) by {
            assert forall|i: int, j: int| 0 <= i < j < s.len() implies lex_lt(
                #[trigger] s[i].0,
                #[trigger] s[j].0,
            ) by {
                assert(s[i].0 == old_s[i].0 && s[j].0 == old_s[j].0);
            }
        }
        lemma_map_of_all(old_s);
        lemma_map_of_all(s);
        assert(map_of(s) =~= map_of(old_s).insert(k, v)) by {
            assert forall|x: Seq<u8>| #[trigger]
                map_of(s).contains_key(x) == map_of(old_s).insert(k, v).contains_key(x) by {
                if map_of(old_s).contains_key(x) {
                    let j = choose|j: int| 0 <= j < old_s.len() && old_s[j].0 == x;
                    assert(s[j].0 == x);
                }
                if map_of(s).contains_key(x) {
                    let j = choose|j: int| 0 <= j < s.len() && s[j].0 == x;
                    assert(old_s[j].0 == x);
                }
            }
            assert forall|x: Seq<u8>| #[trigger] map_of(s).contains_key(x) implies map_of(s)[x]
                == map_of(old_s).insert(k, v)[x] by {
                let j = choose|j: int| 0 <= j < s.len() && s[j].0 == x;
                assert(s[j].0 == x);
                lemma_lex_irreflexive(x);
                if j != p {
                    if j < p {
                        assert(lex_lt(s[j].0, s[p].0));
                    } else {
                        assert(lex_lt(s[p].0, s[j].0));
                    }
                    assert(x != k);
                    assert(old_s[j] == s[j]);
                    assert(map_of(old_s)[x] == old_s[j].1);
                }
            }
        }
}

pub proof fn lemma_insert_entry<V>(
    old_s: Seq<(Seq<u8>, V)>,
    s: Seq<(Seq<u8>, V)>,
    p: int,
    k: Seq<u8>,
    v: V,
)
    requires
        ascending(old_s),
        0 <= p <= old_s.len(),
        forall|i: int| 0 <= i < p ==> lex_lt(#[trigger] old_s[i].0, k),
        p == old_s.len() || lex_lt(k, old_s[p].0),
        s == old_s.insert(p, (k, v)),
    ensures
        ascending(s),
        map_of(s) == map_of(old_s).insert(k, v),
{
        assert(ascending(s)) by {
            assert forall|i: int, j: int| 0 <= i < j < s.len() implies lex_lt(
                #[trigger] s[i].0,
                #[trigger] s[j].0,
            ) by {
                if j < p {
                } else if j == p {
                } else if i < p {
                    if j - 1 > p {
                        lemma_lex_transitive(k, old_s[p as int].0, old_s[j - 1].0);
                    }
                    lemma_lex_transitive(old_s[i].0, k, old_s[j - 1].0);
                } else if i == p {
                    if j - 1 > p {
                        lemma_lex_transitive(k, old_s[p as int].0, old_s[j - 1].0);
                    }
                } else {
                }
            }
        }
        lemma_map_of_all(old_s);
        lemma_map_of_all(s);
        assert(map_of(s) =~= map_of(old_s).insert(k, v)) by {
            assert forall|x: Seq<u8>| #[trigger]
                map_of(s).contains_key(x) == map_of(old_s).insert(k, v).contains_key(x) by {
                if map_of(old_s).contains_key(x) {
                    let j = choose|j: int| 0 <= j < old_s.len() && old_s[j].0 == x;
                    if j < p {
                        assert(s[j].0 == x);
                    } else {
                        assert(s[j + 1].0 == x);
                    }
                }
                if x == k {
                    assert(s[p as int].0 == x);
                }
                if map_of(s).contains_key(x) {
                    let j = choose|j: int| 0 <= j < s.len() && s[j].0 == x;
                    if j < p {
                        assert(old_s[j].0 == x);
                    } else if j > p {
                        assert(old_s[j - 1].0 == x);
                    }
                }
            }
            assert forall|x: Seq<u8>| #[trigger] map_of(s).contains_key(x) implies map_of(s)[x]
                == map_of(old_s).insert(k, v)[x] by {
                let j = choose|j: int| 0 <= j < s.len() && s[j].0 == x;
                assert(s[j].0 == x);
                lemma_lex_irreflexive(x);
                if j < p {
                    assert(lex_lt(s[j].0, s[p].0));
                    assert(old_s[j] == s[j]);
                    assert(map_of(old_s)[x] == old_s[j].1);
                } else if j > p {
                    assert(lex_lt(s[p].0, s[j].0));
                    assert(old_s[j - 1] == s[j]);
                    assert(map_of(old_s)[x] == old_s[j - 1].1);
                }
            }
        }
}

pub proof fn lemma_remove_entry<V>(
    old_s: Seq<(Seq<u8>, V)>,
    s: Seq<(Seq<u8>, V)>,
    p: int,
    k: Seq<u8>,
)
    requires
        ascending(old_s),
        0 <= p < old_s.len(),
        old_s[p].0 == k,
        s == old_s.remove(p),
    ensures
        ascending(s),
        map_of(s) == map_of(old_s).remove(k),
{
        assert(ascending(s)) by {
            assert forall|i: int, j: int| 0 <= i < j < s.len() implies lex_lt(
                #[trigger] s[i].0,
                #[trigger] s[j].0,
            ) by {
                if i >= p {
                    assert(s[i] == old_s[i + 1]);
                }
                if j >= p {
                    assert(s[j] == old_s[j + 1]);
                }
            }
        }
        lemma_map_of_all(old_s);
        lemma_map_of_all(s);
        lemma_lex_irreflexive(k);
        assert(map_of(s) =~= map_of(old_s).remove(k)) by {
            assert forall|x: Seq<u8>| #[trigger]
                map_of(s).contains_key(x) == map_of(old_s).remove(k).contains_key(x) by {
                if map_of(old_s).contains_key(x) && x != k {
                    let j = choose|j: int| 0 <= j < old_s.len() && old_s[j].0 == x;
                    if j < p {
                        assert(s[j].0 == x);
                    } else {
                        assert(j != p);
                        assert(s[j - 1].0 == x);
                    }
                }
                if map_of(s).contains_key(x) {
                    let j = choose|j: int| 0 <= j < s.len() && s[j].0 == x;
                    if j < p {
                        assert(old_s[j].0 == x);
                        assert(lex_lt(x, k));
                    } else {
                        assert(old_s[j + 1].0 == x);
                        assert(lex_lt(k, x));
                    }
                }
            }
            assert forall|x: Seq<u8>| #[trigger] map_of(s).contains_key(x) implies map_of(s)[x]
                == map_of(old_s).remove(k)[x] by {
                let j = choose|j: int| 0 <= j < s.len() && s[j].0 == x;
                if j < p {
                    assert(old_s[j] == s[j]);
                    assert(lex_lt(x, k));
                } else {
                    assert(old_s[j + 1] == s[j]);
                    assert(lex_lt(k, x));
                }
            }
        }
}

/// An engine that keeps its entries in memory, sorted by key.
pub struct MemoryEngine {
    data: Vec<(Vec<u8>, Vec<u8>)>,
}

impl MemoryEngine {
    pub closed spec fn pairs(&self) -> Seq<(Seq<u8>, Seq<u8>)> {
        pairs_view(self.data@)
    }

    pub fn new() -> (r: Self)
        ensures
            r.inv(),
            r.entries() == Map::<Seq<u8>, Seq<u8>>::empty(),
    {
        let r = MemoryEngine { data: Vec::new() };
        proof {
            assert(r.entries() =~= Map::<Seq<u8>, Seq<u8>>::empty());
        }
        r
    }

    /// Where `key` is, or where it would go.
    fn find(&self, key: &[u8]) -> (r: (usize, bool))
        requires
            self.inv(),
        ensures
            r.0 <= self.pairs().len(),
            forall|i: int| 0 <= i < r.0 ==> lex_lt(#[trigger] self.pairs()[i].0, key@),
            r.1 ==> r.0 < self.pairs().len() && self.pairs()[r.0 as int].0 == key@,
            !r.1 ==> r.0 == self.pairs().len() || lex_lt(key@, self.pairs()[r.0 as int].0),
    {
        let mut i: usize = 0;
        while i < self.data.len()
            invariant
                i <= self.data@.len(),
                forall|j: int| 0 <= j < i ==> lex_lt(#[trigger] self.pairs()[j].0, key@),
            decreases self.data@.len() - i,
        {
            let c = compare_bytes(self.data[i].0.as_slice(), key);
            if c == 0 {
                return (i, true);
            } else if c > 0 {
                return (i, false);
            }
            i = i + 1;
        }
        (i, false)
    }

    proof fn lemma_absent(&self, key: Seq<u8>, p: int)
        requires
            self.inv(),
            0 <= p <= self.pairs().len(),
            forall|i: int| 0 <= i < p ==> lex_lt(#[trigger] self.pairs()[i].0, key),
            p == self.pairs().len() || lex_lt(key, self.pairs()[p].0),
        ensures
            !self.entries().contains_key(key),
    {
        let s = self.pairs();
        lemma_map_of_all(s);
        lemma_lex_irreflexive(key);
        if self.entries().contains_key(key) {
            let j = choose|j: int| 0 <= j < s.len() && s[j].0 == key;
            if j > p {
                lemma_lex_transitive(key, s[p].0, s[j].0);
            }
        }
    }
}

impl Engine for MemoryEngine {
    closed spec fn entries(&self) -> Map<Seq<u8>, Seq<u8>> {
        map_of(pairs_view(self.data@))
    }

    closed spec fn inv(&self) -> bool {
        ascending(pairs_view(self.data@))
    }

    open spec fn infallible(&self) -> bool {
        true
    }

    fn set(&mut self, key: Vec<u8>, value: Vec<u8>) -> (r: Result<(), Error>)
    {
        let (p, found) = self.find(key.as_slice());
        let ghost old_s = self.pairs();
        let ghost k = key@;
        let ghost v = value@;
        if found {
            self.data.remove(p);
            self.data.insert(p, (key, value));
            proof {
                assert(self.pairs() =~= old_s.update(p as int, (k, v)));
                lemma_replace_entry(old_s, self.pairs(), p as int, k, v);
            }
        } else {
            self.data.insert(p, (key, value));
            proof {
                assert(self.pairs() =~= old_s.insert(p as int, (k, v)));
                lemma_insert_entry(old_s, self.pairs(), p as int, k, v);
            }
        }
        Ok(())
    }

    fn get(&mut self, key: Vec<u8>) -> (r: Result<Option<Vec<u8>>, Error>)
    {
        let (p, found) = self.find(key.as_slice());
        proof {
            lemma_map_of_all(self.pairs());
        }
        if found {
            proof {
                lemma_map_of_index(self.pairs(), p as int);
            }
            Ok(Some(self.data[p].1.clone()))
        } else {
            proof {
                self.lemma_absent(key@, p as int);
            }
            Ok(None)
        }
    }

    fn delete(&mut self, key: Vec<u8>) -> (r: Result<(), Error>)
    {
        let (p, found) = self.find(key.as_slice());
        let ghost old_s = self.pairs();
        let ghost k = key@;
        if found {
            self.data.remove(p);
            proof {
                assert(self.pairs() =~= old_s.remove(p as int));
                lemma_remove_entry(old_s, self.pairs(), p as int, k);
            }
        } else {
            proof {
                self.lemma_absent(k, p as int);
                assert(map_of(old_s).remove(k) =~= map_of(old_s));
            }
        }
        Ok(())
    }

    fn scan(&mut self, start: Bound, end: Bound) -> (r: Result<EngineIterator, Error>)
    {
        let ghost s = self.pairs();
        let mut out: Vec<(Vec<u8>, Vec<u8>)> = Vec::new();
        let ghost mut idx: Seq<int> = seq![];
        let mut i: usize = 0;
        while i < self.data.len()
            invariant
                s == self.pairs(),
                ascending(s),
                i <= s.len(),
                idx.len() == out@.len(),
                forall|a: int| 0 <= a < idx.len() ==> 0 <= #[trigger] idx[a] < i,
                forall|a: int, b: int| 0 <= a < b < idx.len() ==> #[trigger] idx[a] < #[trigger] idx[b],
                forall|a: int| 0 <= a < idx.len() ==> #[trigger] pairs_view(out@)[a] == s[idx[a]],
                forall|a: int| 0 <= a < idx.len() ==> in_range(&start, &end, #[trigger] s[idx[a]].0),
                forall|j: int| 0 <= j < i && in_range(&start, &end, #[trigger] s[j].0) ==> exists|a: int| 0 <= a < idx.len() && idx[a] == j,
            decreases s.len() - i,
        {
            let k = self.data[i].0.as_slice();
            proof {
                assert(s[i as int].0 == self.data@[i as int].0@);
            }
            if check_after_start(&start, k) && check_before_end(&end, k) {
                let pair = (self.data[i].0.clone(), self.data[i].1.clone());
                let ghost old_out = out@;
                proof {
                    assert(pair.0@ =~= self.data@[i as int].0@);
                    assert(pair.1@ =~= self.data@[i as int].1@);
                }
                out.push(pair);
                proof {
                    assert(pairs_view(out@) =~= pairs_view(old_out).push(s[i as int]));
                    let old_idx = idx;
                    idx = idx.push(i as int);
                    assert forall|j: int| 0 <= j < i + 1 && in_range(&start, &end, #[trigger] s[j].0) implies exists|a: int| 0 <= a < idx.len() && idx[a] == j by {
                        if j < i {
                            let a = choose|a: int| 0 <= a < old_idx.len() && old_idx[a] == j;
                            assert(idx[a] == j);
                        } else {
                            assert(idx[idx.len() - 1] == j);
                        }
                    }
                }
            } else {
                proof {
                    assert(!in_range(&start, &end, s[i as int].0));
                }
            }
            i = i + 1;
        }
        let ghost rv = pairs_view(out@);
        proof {
            lemma_map_of_all(s);
            assert forall|a: int, b: int| 0 <= a < b < rv.len() implies lex_lt(#[trigger] rv[a].0, #[trigger] rv[b].0) by {
                assert(idx[a] < idx[b]);
            }
            assert forall|k: Seq<u8>| #[trigger] map_of(s).contains_key(k) && in_range(&start, &end, k) implies exists|a: int| 0 <= a < rv.len() && (#[trigger] rv[a].0) == k by {
                let j = choose|j: int| 0 <= j < s.len() && s[j].0 == k;
                let a = choose|a: int| 0 <= a < idx.len() && idx[a] == j;
                assert(rv[a].0 == k);
            }
            assert(is_scan_of(map_of(s), |k: Seq<u8>| in_range(&start, &end, k), rv));
        }
        Ok(EngineIterator::new(out))
    }
}

} // verus!
