//! The append-only log of the disk engine, as bytes: how a record is framed,
//! how replaying the log rebuilds the index, and how compaction rewrites it.
//! Reading and writing the file itself is left to the caller.

use vstd::prelude::*;
use crate::bytes::{lex_lt, compare_bytes, lemma_lex_irreflexive, lemma_lex_transitive};
use crate::engine::{Bound, ascending, in_range, check_after_start, check_before_end, pairs_view};
use crate::error::Error;
use crate::keycode::{be_digits, be_value, pow256, lemma_be_digits_len, lemma_be_round_trip};
use crate::memory::{
    map_of, lemma_map_of_all, lemma_map_of_index, lemma_replace_entry, lemma_insert_entry,
    lemma_remove_entry,
};

verus! {

/// The bytes before a record's key: its key length and its value length.
pub const LOG_HEADER_SIZE: usize = 8;

/// The value-length field: the length, or all ones (-1) for a tombstone.
pub open spec fn len_field(value: Option<Seq<u8>>) -> Seq<u8> {
    match value {
        None => seq![255u8, 255u8, 255u8, 255u8],
        Some(v) => be_digits(v.len(), 4),
    }
}

/// A log record: key length and value length (big-endian, 4 bytes each),
/// the key, then the value (none for a tombstone).
pub open spec fn record_code(key: Seq<u8>, value: Option<Seq<u8>>) -> Seq<u8> {
    be_digits(key.len(), 4) + len_field(value) + key + match value {
        Some(v) => v,
        None => seq![],
    }
}

/// The key fits its length field, the value fits a non-negative `i32`.
pub open spec fn record_fits(key: Seq<u8>, value: Option<Seq<u8>>) -> bool {
    key.len() < 0x1_0000_0000 && (value is Some ==> value->Some_0.len() < 0x8000_0000)
}

/// Replays the records of `log` from offset `off` onto the index `kd`;
/// `None` where a record is cut short or malformed.
pub open spec fn replay_from(log: Seq<u8>, off: int, kd: Map<Seq<u8>, (u64, u32)>) -> Option<Map<Seq<u8>, (u64, u32)>>
    decreases log.len() - off,
{
    if off < 0 {
        None
    } else if off >= log.len() {
        Some(kd)
    } else if off + 8 > log.len() {
        None
    } else {
        let klen = be_value(log.subrange(off, off + 4)) as int;
        let vraw = be_value(log.subrange(off + 4, off + 8)) as int;
        let kend = off + 8 + klen;
        if kend > log.len() {
            None
        } else {
            let key = log.subrange(off + 8, kend);
            if vraw == 0xFFFF_FFFF {
                replay_from(log, kend, kd.remove(key))
            } else if vraw >= 0x8000_0000 || kend + vraw > log.len() {
                None
            } else {
                replay_from(log, kend + vraw, kd.insert(key, (kend as u64, vraw as u32)))
            }
        }
    }
}

/// The index that replaying the whole log builds.
pub open spec fn replay(log: Seq<u8>) -> Option<Map<Seq<u8>, (u64, u32)>> {
    replay_from(log, 0, Map::empty())
}

/// The values an index points at in the log.
pub open spec fn log_values(log: Seq<u8>, kd: Map<Seq<u8>, (u64, u32)>) -> Map<Seq<u8>, Seq<u8>> {
    kd.map_values(|p: (u64, u32)| log.subrange(p.0 as int, p.0 as int + p.1 as int))
}

/// Every entry of the index points inside the first `n` bytes.
pub open spec fn within(kd: Map<Seq<u8>, (u64, u32)>, n: int) -> bool {
    forall|k: Seq<u8>| #[trigger] kd.contains_key(k) ==> kd[k].0 as int + kd[k].1 as int <= n
}

/// The log a sequence of writes appends (`None` deletes).
pub open spec fn ops_log(ops: Seq<(Seq<u8>, Option<Seq<u8>>)>) -> Seq<u8>
    decreases ops.len(),
{
    if ops.len() == 0 {
        seq![]
    } else {
        ops_log(ops.drop_last()) + record_code(ops.last().0, ops.last().1)
    }
}

/// The same writes applied to an empty map.
pub open spec fn apply_ops(ops: Seq<(Seq<u8>, Option<Seq<u8>>)>) -> Map<Seq<u8>, Seq<u8>>
    decreases ops.len(),
{
    if ops.len() == 0 {
        Map::empty()
    } else {
        match ops.last().1 {
            Some(v) => apply_ops(ops.drop_last()).insert(ops.last().0, v),
            None => apply_ops(ops.drop_last()).remove(ops.last().0),
        }
    }
}

proof fn lemma_pow256_4()
    ensures
        pow256(4) == 0x1_0000_0000,
{
    reveal_with_fuel(pow256, 5);
}

proof fn lemma_len_field(value: Option<Seq<u8>>)
    requires
        value is Some ==> value->Some_0.len() < 0x8000_0000,
    ensures
        len_field(value).len() == 4,
        value is None ==> be_value(len_field(value)) == 0xFFFF_FFFF,
        value is Some ==> be_value(len_field(value)) == value->Some_0.len(),
{
    lemma_pow256_4();
    match value {
        None => {
            reveal_with_fuel(be_value, 5);
            let s = len_field(value);
            assert(s.drop_last().drop_last().drop_last().drop_last() =~= Seq::<u8>::empty());
        },
        Some(v) => {
            lemma_be_digits_len(v.len(), 4);
            lemma_be_round_trip(v.len(), 4);
        },
    }
}

/// Replaying a log that continues past `L` goes through `L` exactly as
/// replaying `L` alone does.
proof fn lemma_replay_append(l: Seq<u8>, r: Seq<u8>, off: int, kd: Map<Seq<u8>, (u64, u32)>)
    requires
        0 <= off <= l.len(),
        replay_from(l, off, kd) is Some,
    ensures
        replay_from(l + r, off, kd) == replay_from(l + r, l.len() as int, replay_from(l, off, kd)->Some_0),
    decreases l.len() - off,
{
    let lr = l + r;
    if off < l.len() {
        assert(lr.subrange(off, off + 4) =~= l.subrange(off, off + 4));
        assert(lr.subrange(off + 4, off + 8) =~= l.subrange(off + 4, off + 8));
        let klen = be_value(l.subrange(off, off + 4)) as int;
        let vraw = be_value(l.subrange(off + 4, off + 8)) as int;
        let kend = off + 8 + klen;
        assert(lr.subrange(off + 8, kend) =~= l.subrange(off + 8, kend));
        if vraw == 0xFFFF_FFFF {
            lemma_replay_append(l, r, kend, kd.remove(l.subrange(off + 8, kend)));
        } else {
            lemma_replay_append(l, r, kend + vraw, kd.insert(l.subrange(off + 8, kend), (kend as u64, vraw as u32)));
        }
    }
}

/// Replaying one record at the end of the log.
proof fn lemma_replay_record(l: Seq<u8>, key: Seq<u8>, value: Option<Seq<u8>>, kd: Map<Seq<u8>, (u64, u32)>)
    requires
        record_fits(key, value),
        l.len() + record_code(key, value).len() < 0x1_0000_0000_0000_0000,
    ensures
        replay_from(l + record_code(key, value), l.len() as int, kd) == Some(
            match value {
                None => kd.remove(key),
                Some(v) => kd.insert(key, ((l.len() + 8 + key.len()) as u64, v.len() as u32)),
            },
        ),
{
    let rec = record_code(key, value);
    let lr = l + rec;
    let off = l.len() as int;
    lemma_pow256_4();
    lemma_be_digits_len(key.len(), 4);
    lemma_be_round_trip(key.len(), 4);
    lemma_len_field(value);
    let body = match value {
        Some(v) => v,
        None => seq![],
    };
    assert(rec =~= be_digits(key.len(), 4) + len_field(value) + key + body);
    assert(lr.subrange(off, off + 4) =~= be_digits(key.len(), 4));
    assert(lr.subrange(off + 4, off + 8) =~= len_field(value));
    let kend = off + 8 + key.len();
    assert(lr.subrange(off + 8, kend) =~= key);
    assert(lr.len() == kend + body.len());
    match value {
        None => {
            let kd2 = kd.remove(key);
            assert(replay_from(lr, kend, kd2) == Some(kd2));
            assert(replay_from(lr, off, kd) == replay_from(lr, kend, kd2));
        },
        Some(v) => {
            let kd2 = kd.insert(key, (kend as u64, v.len() as u32));
            assert(replay_from(lr, kend + v.len(), kd2) == Some(kd2));
            assert(replay_from(lr, off, kd) == replay_from(lr, kend + v.len(), kd2));
        },
    }
}

/// Opening a log written by any sequence of writes yields an index whose
/// values are those the writes leave in a map.
pub proof fn lemma_log_replay(ops: Seq<(Seq<u8>, Option<Seq<u8>>)>)
    requires
        forall|i: int| 0 <= i < ops.len() ==> record_fits(#[trigger] ops[i].0, ops[i].1),
        ops_log(ops).len() < 0x1_0000_0000_0000_0000,
    ensures
        replay(ops_log(ops)) is Some,
        within(replay(ops_log(ops))->Some_0, ops_log(ops).len() as int),
        log_values(ops_log(ops), replay(ops_log(ops))->Some_0) == apply_ops(ops),
    decreases ops.len(),
{
    if ops.len() == 0 {
        assert(log_values(seq![], Map::empty()) =~= Map::<Seq<u8>, Seq<u8>>::empty());
    } else {
        let prev = ops.drop_last();
        let (key, value) = ops.last();
        assert(ops.last() == ops[ops.len() - 1]);
        let l = ops_log(prev);
        let rec = record_code(key, value);
        assert(ops_log(ops) == l + rec);
        assert forall|i: int| 0 <= i < prev.len() implies record_fits(#[trigger] prev[i].0, prev[i].1) by {
            assert(prev[i] == ops[i]);
        }
        lemma_log_replay(prev);
        let kd = replay(l)->Some_0;
        lemma_replay_append(l, rec, 0, Map::empty());
        lemma_replay_record(l, key, value, kd);
        let lr = l + rec;
        let kd2 = replay(lr)->Some_0;
        lemma_len_field(value);
        lemma_be_digits_len(key.len(), 4);
        assert forall|k: Seq<u8>| #[trigger] kd2.contains_key(k) implies kd2[k].0 as int + kd2[k].1 as int <= lr.len() by {
            if k != key {
                assert(kd.contains_key(k));
            }
        }
        assert(log_values(lr, kd2) =~= apply_ops(ops)) by {
            assert forall|k: Seq<u8>| #[trigger] kd2.contains_key(k) implies log_values(lr, kd2)[k] == apply_ops(ops)[k] by {
                if k == key {
                    let v = value->Some_0;
                    let p: int = (l.len() + 8 + key.len()) as int;
                    assert(lr.subrange(p, p + v.len()) =~= v);
                } else {
                    assert(kd.contains_key(k));
                    let (p, n) = kd[k];
                    assert(lr.subrange(p as int, p as int + n as int) =~= l.subrange(p as int, p as int + n as int));
                    assert(log_values(l, kd)[k] == apply_ops(prev)[k]);
                }
            }
        }
    }
}

/// Reads a big-endian `u32` at `off`.
fn read_u32_be(log: &[u8], off: usize) -> (r: u32)
    requires
        off + 4 <= log@.len(),
    ensures
        r as int == be_value(log@.subrange(off as int, off + 4)),
{
    let b0 = log[off] as u32;
    let b1 = log[off + 1] as u32;
    let b2 = log[off + 2] as u32;
    let b3 = log[off + 3] as u32;
    proof {
        reveal_with_fuel(be_value, 5);
        let s = log@.subrange(off as int, off + 4);
        assert(s.drop_last().drop_last().drop_last().drop_last() =~= Seq::<u8>::empty());
        assert(s.drop_last().drop_last().drop_last() =~= seq![s[0]]);
    }
    ((b0 * 256 + b1) * 256 + b2) * 256 + b3
}

/// Appends the big-endian bytes of `v`.
fn push_u32_be(out: &mut Vec<u8>, v: u32)
    ensures
        final(out)@ == old(out)@ + be_digits(v as nat, 4),
{
    let d3 = (v % 256) as u8;
    let x1 = v / 256;
    let d2 = (x1 % 256) as u8;
    let x2 = x1 / 256;
    let d1 = (x2 % 256) as u8;
    let x3 = x2 / 256;
    let d0 = (x3 % 256) as u8;
    out.push(d0);
    out.push(d1);
    out.push(d2);
    out.push(d3);
    proof {
        reveal_with_fuel(be_digits, 5);
        assert(be_digits(v as nat, 4) =~= seq![d0, d1, d2, d3]);
    }
}

/// The bytes of one record.
pub fn encode_record(key: &[u8], value: Option<&[u8]>) -> (r: Vec<u8>)
    requires
        record_fits(key@, match value {
            Some(v) => Some(v@),
            None => None,
        }),
    ensures
        r@ == record_code(key@, match value {
            Some(v) => Some(v@),
            None => None,
        }),
{
    let mut out: Vec<u8> = Vec::new();
    push_u32_be(&mut out, key.len() as u32);
    match value {
        Some(v) => push_u32_be(&mut out, v.len() as u32),
        None => {
            out.push(255);
            out.push(255);
            out.push(255);
            out.push(255);
        },
    }
    let ghost head = out@;
    let mut i: usize = 0;
    while i < key.len()
        invariant
            i <= key@.len(),
            out@ == head + key@.subrange(0, i as int),
        decreases key@.len() - i,
    {
        out.push(key[i]);
        proof {
            assert(out@ =~= head + key@.subrange(0, i + 1));
        }
        i = i + 1;
    }
    proof {
        assert(key@.subrange(0, key@.len() as int) =~= key@);
    }
    match value {
        Some(v) => {
            let ghost mid = out@;
            let mut j: usize = 0;
            while j < v.len()
                invariant
                    j <= v@.len(),
                    out@ == mid + v@.subrange(0, j as int),
                decreases v@.len() - j,
            {
                out.push(v[j]);
                proof {
                    assert(out@ =~= mid + v@.subrange(0, j + 1));
                }
                j = j + 1;
            }
            proof {
                assert(v@.subrange(0, v@.len() as int) =~= v@);
                assert(out@ =~= record_code(key@, Some(v@)));
            }
        },
        None => {
            proof {
                assert(out@ =~= record_code(key@, None));
            }
        },
    }
    out
}

/// The index entries of a vector, as values.
pub open spec fn kd_pairs(v: Seq<(Vec<u8>, (u64, u32))>) -> Seq<(Seq<u8>, (u64, u32))> {
    v.map_values(|p: (Vec<u8>, (u64, u32))| (p.0@, p.1))
}

proof fn lemma_absent_in<V>(s: Seq<(Seq<u8>, V)>, key: Seq<u8>, p: int)
    requires
        ascending(s),
        0 <= p <= s.len(),
        forall|i: int| 0 <= i < p ==> lex_lt(#[trigger] s[i].0, key),
        p == s.len() || lex_lt(key, s[p].0),
    ensures
        !map_of(s).contains_key(key),
{
    lemma_map_of_all(s);
    lemma_lex_irreflexive(key);
    if map_of(s).contains_key(key) {
        let j = choose|j: int| 0 <= j < s.len() && s[j].0 == key;
        if j > p {
            lemma_lex_transitive(key, s[p].0, s[j].0);
        }
    }
}

/// The disk engine's index: for each live key, where its value lies in the
/// log (offset of the value, length), in key order.
pub struct KeyDir {
    data: Vec<(Vec<u8>, (u64, u32))>,
}

impl KeyDir {
    pub closed spec fn view(&self) -> Map<Seq<u8>, (u64, u32)> {
        map_of(kd_pairs(self.data@))
    }

    pub closed spec fn inv(&self) -> bool {
        ascending(kd_pairs(self.data@))
    }

    pub fn new() -> (r: Self)
        ensures
            r.inv(),
            r@ == Map::<Seq<u8>, (u64, u32)>::empty(),
    {
        let r = KeyDir { data: Vec::new() };
        proof {
            assert(r@ =~= Map::<Seq<u8>, (u64, u32)>::empty());
        }
        r
    }

    fn find(&self, key: &[u8]) -> (r: (usize, bool))
        requires
            self.inv(),
        ensures
            r.0 <= kd_pairs(self.data@).len(),
            forall|i: int| 0 <= i < r.0 ==> lex_lt(#[trigger] kd_pairs(self.data@)[i].0, key@),
            r.1 ==> r.0 < kd_pairs(self.data@).len() && kd_pairs(self.data@)[r.0 as int].0 == key@,
            !r.1 ==> r.0 == kd_pairs(self.data@).len() || lex_lt(key@, kd_pairs(self.data@)[r.0 as int].0),
    {
        let mut i: usize = 0;
        while i < self.data.len()
            invariant
                i <= self.data@.len(),
                forall|j: int| 0 <= j < i ==> lex_lt(#[trigger] kd_pairs(self.data@)[j].0, key@),
            decreases self.data@.len() - i,
        {
            let c = compare_bytes(self.data[i].0.as_slice(), key);
            if c == 0 {
                return (i, true);
            } else if c > 0 {
                return (i, false);
            }
            i = i + 1;
        }
        (i, false)
    }

    /// Points `key` at `pos`.
    pub fn insert(&mut self, key: Vec<u8>, pos: (u64, u32))
        requires
            old(self).inv(),
        ensures
            final(self).inv(),
            final(self)@ == old(self)@.insert(key@, pos),
    {
        let (p, found) = self.find(key.as_slice());
        let ghost old_s = kd_pairs(self.data@);
        let ghost k = key@;
        if found {
            self.data.remove(p);
            self.data.insert(p, (key, pos));
            proof {
                assert(kd_pairs(self.data@) =~= old_s.update(p as int, (k, pos)));
                lemma_replace_entry(old_s, kd_pairs(self.data@), p as int, k, pos);
            }
        } else {
            self.data.insert(p, (key, pos));
            proof {
                assert(kd_pairs(self.data@) =~= old_s.insert(p as int, (k, pos)));
                lemma_insert_entry(old_s, kd_pairs(self.data@), p as int, k, pos);
            }
        }
    }

    /// Drops `key`; a missing key is left alone.
    pub fn remove(&mut self, key: &[u8])
        requires
            old(self).inv(),
        ensures
            final(self).inv(),
            final(self)@ == old(self)@.remove(key@),
    {
        let (p, found) = self.find(key);
        let ghost old_s = kd_pairs(self.data@);
        if found {
            self.data.remove(p);
            proof {
                assert(kd_pairs(self.data@) =~= old_s.remove(p as int));
                lemma_remove_entry(old_s, kd_pairs(self.data@), p as int, key@);
            }
        } else {
            proof {
                lemma_absent_in(old_s, key@, p as int);
                assert(map_of(old_s).remove(key@) =~= map_of(old_s));
            }
        }
    }

    /// Where the value of `key` lies, if it is live.
    pub fn get(&self, key: &[u8]) -> (r: Option<(u64, u32)>)
        requires
            self.inv(),
        ensures
            r is Some <==> self@.contains_key(key@),
            r is Some ==> r->Some_0 == self@[key@],
    {
        let (p, found) = self.find(key);
        if found {
            proof {
                lemma_map_of_index(kd_pairs(self.data@), p as int);
            }
            Some(self.data[p].1)
        } else {
            proof {
                lemma_absent_in(kd_pairs(self.data@), key@, p as int);
            }
            None
        }
    }

    /// The live keys between `start` and `end` with their positions, in key order.
    pub fn scan(&self, start: &Bound, end: &Bound) -> (r: Vec<(Vec<u8>, (u64, u32))>)
        requires
            self.inv(),
        ensures
            crate::engine::is_scan_of(self@, |k: Seq<u8>| in_range(start, end, k), kd_pairs(r@)),
    {
        let ghost s = kd_pairs(self.data@);
        let mut out: Vec<(Vec<u8>, (u64, u32))> = Vec::new();
        let ghost mut idx: Seq<int> = seq![];
        let mut i: usize = 0;
        while i < self.data.len()
            invariant
                s == kd_pairs(self.data@),
                ascending(s),
                i <= s.len(),
                idx.len() == out@.len(),
                forall|a: int| 0 <= a < idx.len() ==> 0 <= #[trigger] idx[a] < i,
                forall|a: int, b: int| 0 <= a < b < idx.len() ==> #[trigger] idx[a] < #[trigger] idx[b],
                forall|a: int| 0 <= a < idx.len() ==> #[trigger] kd_pairs(out@)[a] == s[idx[a]],
                forall|a: int| 0 <= a < idx.len() ==> in_range(start, end, #[trigger] s[idx[a]].0),
                forall|j: int| 0 <= j < i && in_range(start, end, #[trigger] s[j].0) ==> exists|a: int| 0 <= a < idx.len() && idx[a] == j,
            decreases s.len() - i,
        {
            let k = self.data[i].0.as_slice();
            proof {
                assert(s[i as int].0 == self.data@[i as int].0@);
            }
            if check_after_start(start, k) && check_before_end(end, k) {
                let pair = (self.data[i].0.clone(), self.data[i].1);
                let ghost old_out = out@;
                proof {
                    assert(pair.0@ =~= self.data@[i as int].0@);
                }
                out.push(pair);
                proof {
                    assert(kd_pairs(out@) =~= kd_pairs(old_out).push(s[i as int]));
                    let old_idx = idx;
                    idx = idx.push(i as int);
                    assert forall|j: int| 0 <= j < i + 1 && in_range(start, end, #[trigger] s[j].0) implies exists|a: int| 0 <= a < idx.len() && idx[a] == j by {
                        if j < i {
                            let a = choose|a: int| 0 <= a < old_idx.len() && old_idx[a] == j;
                            assert(idx[a] == j);
                        } else {
                            assert(idx[idx.len() - 1] == j);
                        }
                    }
                }
            }
            i = i + 1;
        }
        let ghost rv = kd_pairs(out@);
        proof {
            lemma_map_of_all(s);
            assert forall|a: int, b: int| 0 <= a < b < rv.len() implies lex_lt(#[trigger] rv[a].0, #[trigger] rv[b].0) by {
                assert(idx[a] < idx[b]);
            }
            assert forall|k: Seq<u8>| #[trigger] map_of(s).contains_key(k) && in_range(start, end, k) implies exists|a: int| 0 <= a < rv.len() && (#[trigger] rv[a].0) == k by {
                let j = choose|j: int| 0 <= j < s.len() && s[j].0 == k;
                let a = choose|a: int| 0 <= a < idx.len() && idx[a] == j;
                assert(rv[a].0 == k);
            }
        }
        out
    }
}

/// Rebuilds the index by replaying the whole log from its start. A record cut
/// short or malformed is an error.
pub fn build_keydir(log: &[u8]) -> (r: Result<KeyDir, Error>)
    ensures
        r is Ok <==> replay(log@) is Some,
        r is Ok ==> r->Ok_0.inv() && r->Ok_0@ == replay(log@)->Some_0,
        r is Err ==> r == Err::<KeyDir, Error>(Error::Parse),
{
    let mut kd = KeyDir::new();
    let n = log.len();
    let mut off: usize = 0;
    while off < n
        invariant
            n == log@.len(),
            off <= n,
            kd.inv(),
            replay(log@) == replay_from(log@, off as int, kd@),
        decreases n - off,
    {
        if n - off < LOG_HEADER_SIZE {
            return Err(Error::Parse);
        }
        let klen = read_u32_be(log, off) as usize;
        let vraw = read_u32_be(log, off + 4);
        if n - (off + 8) < klen {
            return Err(Error::Parse);
        }
        let kend = off + 8 + klen;
        let mut key: Vec<u8> = Vec::new();
        let mut i: usize = off + 8;
        while i < kend
            invariant
                off + 8 <= i <= kend,
                kend <= n,
                n == log@.len(),
                key@ == log@.subrange(off + 8, i as int),
            decreases kend - i,
        {
            key.push(log[i]);
            proof {
                assert(key@ =~= log@.subrange(off + 8, i + 1));
            }
            i = i + 1;
        }
        if vraw == 0xFFFF_FFFF {
            kd.remove(key.as_slice());
            off = kend;
        } else if vraw >= 0x8000_0000 || n - kend < vraw as usize {
            return Err(Error::Parse);
        } else {
            kd.insert(key, (kend as u64, vraw));
            off = kend + vraw as usize;
        }
    }
    Ok(kd)
}

/// The writes compaction makes: each live pair once, in key order.
pub open spec fn compaction_ops(pairs: Seq<(Seq<u8>, Seq<u8>)>) -> Seq<(Seq<u8>, Option<Seq<u8>>)> {
    pairs.map_values(|p: (Seq<u8>, Seq<u8>)| (p.0, Some(p.1)))
}

proof fn lemma_apply_distinct(pairs: Seq<(Seq<u8>, Seq<u8>)>)
    requires
        ascending(pairs),
    ensures
        apply_ops(compaction_ops(pairs)) == map_of(pairs),
    decreases pairs.len(),
{
    if pairs.len() == 0 {
        assert(map_of(pairs) =~= Map::<Seq<u8>, Seq<u8>>::empty());
    } else {
        let prev = pairs.drop_last();
        assert(compaction_ops(pairs).drop_last() =~= compaction_ops(prev));
        lemma_apply_distinct(prev);
        lemma_map_of_all(pairs);
        lemma_map_of_all(prev);
        let (k, v) = pairs.last();
        assert(map_of(pairs) =~= map_of(prev).insert(k, v)) by {
            assert forall|x: Seq<u8>| #[trigger] map_of(pairs).contains_key(x) == map_of(prev).insert(k, v).contains_key(x) by {
                if map_of(prev).contains_key(x) {
                    let j = choose|j: int| 0 <= j < prev.len() && prev[j].0 == x;
                    assert(pairs[j].0 == x);
                }
                if map_of(pairs).contains_key(x) && x != k {
                    let j = choose|j: int| 0 <= j < pairs.len() && pairs[j].0 == x;
                    assert(j != pairs.len() - 1);
                    assert(prev[j].0 == x);
                }
                if x == k {
                    assert(pairs[pairs.len() - 1].0 == x);
                }
            }
            assert forall|x: Seq<u8>| #[trigger] map_of(pairs).contains_key(x) implies map_of(pairs)[x] == map_of(prev).insert(k, v)[x] by {
                let j = choose|j: int| 0 <= j < pairs.len() && pairs[j].0 == x;
                lemma_lex_irreflexive(x);
                if j != pairs.len() - 1 {
                    assert(lex_lt(pairs[j].0, pairs[pairs.len() - 1].0));
                    assert(prev[j] == pairs[j]);
                    assert(map_of(prev)[x] == prev[j].1);
                }
            }
        }
    }
}

/// Rewrites the live pairs (in key order) as a fresh log, one record each,
/// with the index that points into it.
pub fn compact_log(pairs: &Vec<(Vec<u8>, Vec<u8>)>) -> (r: (Vec<u8>, KeyDir))
    requires
        ascending(pairs_view(pairs@)),
        forall|i: int| 0 <= i < pairs@.len() ==> record_fits(#[trigger] pairs@[i].0@, Some(pairs@[i].1@)),
    ensures
        r.1.inv(),
        r.0@ == ops_log(compaction_ops(pairs_view(pairs@))),
        replay(r.0@) == Some(r.1@),
        log_values(r.0@, r.1@) == map_of(pairs_view(pairs@)),
{
    let ghost all = compaction_ops(pairs_view(pairs@));
    let mut out: Vec<u8> = Vec::new();
    let mut kd = KeyDir::new();
    let n = pairs.len();
    let mut i: usize = 0;
    while i < n
        invariant
            n == pairs@.len(),
            i <= n,
            all == compaction_ops(pairs_view(pairs@)),
            forall|j: int| 0 <= j < pairs@.len() ==> record_fits(#[trigger] pairs@[j].0@, Some(pairs@[j].1@)),
            kd.inv(),
            out@ == ops_log(all.take(i as int)),
            replay(out@) == Some(kd@),
        decreases n - i,
    {
        let ghost l = out@;
        let key = &pairs[i].0;
        let value = &pairs[i].1;
        let rec = encode_record(key.as_slice(), Some(value.as_slice()));
        let start = out.len();
        let mut j: usize = 0;
        while j < rec.len()
            invariant
                j <= rec@.len(),
                out@ == l + rec@.subrange(0, j as int),
            decreases rec@.len() - j,
        {
            out.push(rec[j]);
            proof {
                assert(out@ =~= l + rec@.subrange(0, j + 1));
            }
            j = j + 1;
        }
        let total = out.len();
        proof {
            assert(rec@.subrange(0, rec@.len() as int) =~= rec@);
            assert(all.take(i + 1).drop_last() =~= all.take(i as int));
            assert(all.take(i + 1).last() == (key@, Some(value@)));
            lemma_replay_append(l, rec@, 0, Map::empty());
            lemma_replay_record(l, key@, Some(value@), kd@);
            lemma_be_digits_len(key@.len(), 4);
            lemma_len_field(Some(value@));
        }
        let kc = key.clone();
        proof {
            assert(kc@ =~= key@);
        }
        kd.insert(kc, ((start + 8 + key.len()) as u64, value.len() as u32));
        i = i + 1;
    }
    let out_len = out.len();
    proof {
        assert(out@.len() == out_len);
        assert(all.take(n as int) =~= all);
        assert forall|j: int| 0 <= j < all.len() implies record_fits(#[trigger] all[j].0, all[j].1) by {}
        lemma_log_replay(all);
        lemma_apply_distinct(pairs_view(pairs@));
    }
    (out, kd)
}

} // verus!
