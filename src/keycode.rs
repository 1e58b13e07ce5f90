//! The order-preserving key codec: big-endian fixed-width integers and
//! self-delimiting escaped byte strings, concatenated without length prefixes.

use vstd::prelude::*;
use crate::error::Error;
use crate::bytes::{lex_lt, lemma_lex_skip};

verus! {

/// The `n` big-endian base-256 digits of `v` (the low `n` bytes).
pub open spec fn be_digits(v: nat, n: nat) -> Seq<u8>
    decreases n,
{
    if n == 0 {
        seq![]
    } else {
        be_digits(v / 256, (n - 1) as nat).push((v % 256) as u8)
    }
}

/// The number whose big-endian base-256 digits are `s`.
pub open spec fn be_value(s: Seq<u8>) -> nat
    decreases s.len(),
{
    if s.len() == 0 {
        0
    } else {
        be_value(s.drop_last()) * 256 + s.last() as nat
    }
}

pub open spec fn pow256(n: nat) -> nat
    decreases n,
{
    if n == 0 {
        1
    } else {
        256 * pow256((n - 1) as nat)
    }
}

/// The eight bytes of a `u64`, most significant first.
pub open spec fn u64_bytes(v: u64) -> Seq<u8> {
    be_digits(v as nat, 8)
}

/// A byte string with each zero byte written as `0x00 0xFF`.
pub open spec fn escape(s: Seq<u8>) -> Seq<u8>
    decreases s.len(),
{
    if s.len() == 0 {
        seq![]
    } else if s[0] == 0 {
        seq![0u8, 255u8] + escape(s.drop_first())
    } else {
        seq![s[0]] + escape(s.drop_first())
    }
}

/// The encoding of a byte string: escaped, then terminated by `0x00 0x00`.
pub open spec fn bytes_code(s: Seq<u8>) -> Seq<u8> {
    escape(s) + seq![0u8, 0u8]
}

/// Reads one encoded byte string from the front of `s`: the string and the
/// number of bytes it took, or `None` where `s` does not start with one.
pub open spec fn parse_bytes(s: Seq<u8>) -> Option<(Seq<u8>, nat)>
    decreases s.len(),
{
    if s.len() == 0 {
        None
    } else if s[0] == 0 {
        if s.len() < 2 {
            None
        } else if s[1] == 0 {
            Some((seq![], 2))
        } else if s[1] == 255 {
            match parse_bytes(s.subrange(2, s.len() as int)) {
                Some((v, n)) => Some((seq![0u8] + v, n + 2)),
                None => None,
            }
        } else {
            None
        }
    } else {
        match parse_bytes(s.drop_first()) {
            Some((v, n)) => Some((seq![s[0]] + v, n + 1)),
            None => None,
        }
    }
}

/// Reads a `u64` from the front of `s`.
pub open spec fn parse_u64(s: Seq<u8>) -> Option<u64> {
    if s.len() < 8 {
        None
    } else {
        Some(be_value(s.subrange(0, 8)) as u64)
    }
}

pub proof fn lemma_pow256_pos(n: nat)
    ensures
        pow256(n) >= 1,
    decreases n,
{
    if n > 0 {
        lemma_pow256_pos((n - 1) as nat);
    }
}

pub proof fn lemma_pow256_8()
    ensures
        pow256(8) == 0x1_0000_0000_0000_0000,
{
    reveal_with_fuel(pow256, 9);
}

pub proof fn lemma_pow256_mono(a: nat, b: nat)
    requires
        a <= b,
    ensures
        pow256(a) <= pow256(b),
    decreases b,
{
    if a < b {
        lemma_pow256_mono(a, (b - 1) as nat);
        lemma_pow256_pos((b - 1) as nat);
    }
}

pub proof fn lemma_be_digits_len(v: nat, n: nat)
    ensures
        be_digits(v, n).len() == n,
    decreases n,
{
    if n > 0 {
        lemma_be_digits_len(v / 256, (n - 1) as nat);
    }
}

pub proof fn lemma_be_value_bound(s: Seq<u8>)
    ensures
        be_value(s) < pow256(s.len()),
    decreases s.len(),
{
    if s.len() > 0 {
        lemma_be_value_bound(s.drop_last());
        let p = pow256((s.len() - 1) as nat);
        let b = be_value(s.drop_last());
        assert(b * 256 + (s.last() as nat) < 256 * p) by (nonlinear_arith)
            requires
                b < p,
                s.last() < 256,
        ;
    }
}

/// Decoding the digits of a number gives the number back.
pub proof fn lemma_be_round_trip(v: nat, n: nat)
    requires
        v < pow256(n),
    ensures
        be_value(be_digits(v, n)) == v,
    decreases n,
{
    if n > 0 {
        let p = pow256((n - 1) as nat);
        assert(v / 256 < p) by (nonlinear_arith)
            requires
                v < 256 * p,
        ;
        lemma_be_round_trip(v / 256, (n - 1) as nat);
        let d = be_digits(v, n);
        assert(d.drop_last() == be_digits(v / 256, (n - 1) as nat));
        assert(v == (v / 256) * 256 + v % 256) by (nonlinear_arith);
    } else {
        lemma_pow256_pos(0);
    }
}

pub proof fn lemma_u64_bytes(v: u64)
    ensures
        u64_bytes(v).len() == 8,
        be_value(u64_bytes(v)) == v,
{
    lemma_be_digits_len(v as nat, 8);
    lemma_pow256_8();
    lemma_be_round_trip(v as nat, 8);
}

/// An encoded byte string followed by anything reads back as that string.
pub proof fn lemma_parse_bytes_code(s: Seq<u8>, rest: Seq<u8>)
    ensures
        parse_bytes(bytes_code(s) + rest) == Some((s, (escape(s).len() + 2) as nat)),
    decreases s.len(),
{
    let t = bytes_code(s) + rest;
    if s.len() == 0 {
        assert(escape(s) =~= seq![]);
        assert(t[0] == 0 && t[1] == 0);
    } else {
        let tail = bytes_code(s.drop_first()) + rest;
        lemma_parse_bytes_code(s.drop_first(), rest);
        if s[0] == 0 {
            assert(t =~= seq![0u8, 255u8] + tail);
            assert(t.subrange(2, t.len() as int) =~= tail);
            assert(seq![0u8] + s.drop_first() =~= s);
        } else {
            assert(t =~= seq![s[0]] + tail);
            assert(t.drop_first() =~= tail);
            assert(seq![s[0]] + s.drop_first() =~= s);
        }
    }
}

/// Builds an encoding by appending fields to an output buffer.
pub struct Serializer {
    output: Vec<u8>,
}

impl Serializer {
    pub closed spec fn view(&self) -> Seq<u8> {
        self.output@
    }

    pub fn new() -> (r: Self)
        ensures
            r@ == Seq::<u8>::empty(),
    {
        Serializer { output: Vec::new() }
    }

    /// Appends a variant tag: one byte holding the variant's index.
    pub fn serialize_variant(&mut self, index: u8)
        ensures
            final(self)@ == old(self)@.push(index),
    {
        self.output.push(index);
    }

    /// Appends the eight big-endian bytes of `v`.
    pub fn serialize_u64(&mut self, v: u64)
        ensures
            final(self)@ == old(self)@ + u64_bytes(v),
    {
        let mut digits: [u8; 8] = [0u8; 8];
        let mut x: u64 = v;
        let mut i: usize = 8;
        proof {
            assert(pow256(0) == 1);
            assert(v as nat / 1 == v as nat);
        }
        while i > 0
            invariant
                i <= 8,
                x as nat == v as nat / pow256((8 - i) as nat),
                forall|j: int| i <= j < 8 ==> digits@[j] == be_digits(v as nat, 8)[j],
            decreases i,
        {
            proof {
                lemma_pow256_pos((8 - i) as nat);
                lemma_digit_at(v as nat, 8, (i - 1) as nat);
                let p = pow256((8 - i) as nat);
                assert(v as nat / p / 256 == v as nat / (256 * p)) by (nonlinear_arith)
                    requires
                        p >= 1,
                ;
                assert(pow256((8 - (i - 1)) as nat) == 256 * p);
            }
            i = i - 1;
            digits[i] = (x % 256) as u8;
            x = x / 256;
        }
        let mut j: usize = 0;
        let ghost start = self.output@;
        proof {
            lemma_be_digits_len(v as nat, 8);
        }
        while j < 8
            invariant
                j <= 8,
                self.output@ == start + be_digits(v as nat, 8).subrange(0, j as int),
                forall|k: int| 0 <= k < 8 ==> digits@[k] == be_digits(v as nat, 8)[k],
                be_digits(v as nat, 8).len() == 8,
            decreases 8 - j,
        {
            self.output.push(digits[j]);
            proof {
                assert(be_digits(v as nat, 8).subrange(0, j + 1) =~= be_digits(
                    v as nat,
                    8,
                ).subrange(0, j as int).push(digits@[j as int]));
            }
            j = j + 1;
        }
        proof {
            assert(be_digits(v as nat, 8).subrange(0, 8) =~= be_digits(v as nat, 8));
        }
    }

    /// Appends `v` escaped and terminated (see [`bytes_code`]).
    pub fn serialize_bytes(&mut self, v: &[u8])
        ensures
            final(self)@ == old(self)@ + bytes_code(v@),
    {
        let ghost start = self.output@;
        let mut i: usize = 0;
        while i < v.len()
            invariant
                i <= v@.len(),
                self.output@ == start + escape(v@.subrange(0, i as int)),
            decreases v@.len() - i,
        {
            proof {
                lemma_escape_push(v@.subrange(0, i as int), v@[i as int]);
                assert(v@.subrange(0, i + 1) =~= v@.subrange(0, i as int).push(v@[i as int]));
            }
            if v[i] == 0 {
                self.output.push(0);
                self.output.push(255);
                proof {
                    assert(self.output@ =~= start + escape(v@.subrange(0, i + 1)));
                }
            } else {
                self.output.push(v[i]);
                proof {
                    assert(self.output@ =~= start + escape(v@.subrange(0, i + 1)));
                }
            }
            i = i + 1;
        }
        self.output.push(0);
        self.output.push(0);
        proof {
            assert(v@.subrange(0, i as int) =~= v@);
            assert(self.output@ =~= start + bytes_code(v@));
        }
    }

    pub fn into_bytes(self) -> (r: Vec<u8>)
        ensures
            r@ == self@,
    {
        self.output
    }
}

pub proof fn lemma_digit_at(v: nat, n: nat, k: nat)
    requires
        k < n,
    ensures
        be_digits(v, n).len() == n,
        be_digits(v, n)[k as int] == ((v / pow256((n - 1 - k) as nat)) % 256) as u8,
    decreases n,
{
    lemma_be_digits_len(v, n);
    lemma_be_digits_len(v / 256, (n - 1) as nat);
    if k + 1 < n {
        lemma_digit_at(v / 256, (n - 1) as nat, k);
        let p = pow256((n - 2 - k) as nat);
        lemma_pow256_pos((n - 2 - k) as nat);
        assert(v / 256 / p == v / (256 * p)) by (nonlinear_arith)
            requires
                p >= 1,
        ;
        assert(pow256((n - 1 - k) as nat) == 256 * p);
    } else {
        assert(pow256(0) == 1);
        assert(v / 1 == v);
        assert(be_digits(v, n) == be_digits(v / 256, (n - 1) as nat).push((v % 256) as u8));
    }
}

pub proof fn lemma_escape_push(s: Seq<u8>, b: u8)
    ensures
        escape(s.push(b)) == escape(s) + (if b == 0 {
            seq![0u8, 255u8]
        } else {
            seq![b]
        }),
    decreases s.len(),
{
    if s.len() == 0 {
        assert(s.push(b).drop_first() =~= seq![]);
        assert(escape(seq![]) =~= Seq::<u8>::empty());
        assert(escape(s) =~= Seq::<u8>::empty());
    } else {
        lemma_escape_push(s.drop_first(), b);
        assert(s.push(b).drop_first() =~= s.drop_first().push(b));
    }
}

/// Reads fields of an encoding from the front of its input.
pub struct Deserializer {
    input: Vec<u8>,
    pos: usize,
}

impl Deserializer {
    /// What is left to read.
    pub closed spec fn view(&self) -> Seq<u8> {
        self.input@.subrange(self.pos as int, self.input@.len() as int)
    }

    pub closed spec fn wf(&self) -> bool {
        self.pos <= self.input@.len()
    }

    pub fn new(input: Vec<u8>) -> (r: Self)
        ensures
            r.wf(),
            r@ == input@,
    {
        proof {
            assert(input@.subrange(0, input@.len() as int) =~= input@);
        }
        Deserializer { input, pos: 0 }
    }

    /// Takes the next `len` bytes, or fails where fewer are left.
    pub fn take_bytes(&mut self, len: usize) -> (r: Result<Vec<u8>, Error>)
        requires
            old(self).wf(),
        ensures
            final(self).wf(),
            old(self)@.len() < len ==> r is Err && final(self)@ == old(self)@,
            old(self)@.len() >= len ==> r is Ok && r->Ok_0@ == old(self)@.subrange(0, len as int)
                && final(self)@ == old(self)@.subrange(len as int, old(self)@.len() as int),
    {
        if self.input.len() - self.pos < len {
            return Err(Error::Internal);
        }
        let mut out: Vec<u8> = Vec::new();
        let base = self.pos;
        let n = self.input.len();
        let mut i: usize = 0;
        while i < len
            invariant
                self.wf(),
                n == self.input@.len(),
                base == self.pos,
                i <= len,
                base + len <= n,
                out@ == self.input@.subrange(base as int, base + i),
            decreases len - i,
        {
            out.push(self.input[base + i]);
            proof {
                assert(out@ =~= self.input@.subrange(base as int, base + i + 1));
            }
            i = i + 1;
        }
        let ghost before = self@;
        self.pos = self.pos + len;
        proof {
            assert(out@ =~= before.subrange(0, len as int));
            assert(self@ =~= before.subrange(len as int, before.len() as int));
        }
        Ok(out)
    }

    /// Reads one variant tag.
    pub fn next_variant(&mut self) -> (r: Result<u8, Error>)
        requires
            old(self).wf(),
        ensures
            final(self).wf(),
            old(self)@.len() == 0 ==> r is Err,
            old(self)@.len() > 0 ==> r == Ok::<u8, Error>(old(self)@[0]) && final(self)@
                == old(self)@.drop_first(),
    {
        if self.pos >= self.input.len() {
            return Err(Error::Internal);
        }
        let b = self.input[self.pos];
        let ghost before = self@;
        self.pos = self.pos + 1;
        proof {
            assert(self@ =~= before.drop_first());
        }
        Ok(b)
    }

    /// Reads a big-endian `u64`.
    pub fn next_u64(&mut self) -> (r: Result<u64, Error>)
        requires
            old(self).wf(),
        ensures
            final(self).wf(),
            parse_u64(old(self)@) is None ==> r is Err,
            parse_u64(old(self)@) is Some ==> r == Ok::<u64, Error>(parse_u64(old(self)@)->Some_0)
                && final(self)@ == old(self)@.subrange(8, old(self)@.len() as int),
    {
        let bytes = self.take_bytes(8)?;
        let mut acc: u64 = 0;
        let mut i: usize = 0;
        while i < 8
            invariant
                i <= 8,
                bytes@.len() == 8,
                acc as nat == be_value(bytes@.subrange(0, i as int)),
                acc < pow256(i as nat),
            decreases 8 - i,
        {
            proof {
                assert(bytes@.subrange(0, i + 1).drop_last() =~= bytes@.subrange(0, i as int));
                lemma_pow256_8();
                lemma_pow256_mono(i as nat + 1, 8);
                let p = pow256(i as nat);
                assert(acc * 256 + bytes@[i as int] < 256 * p) by (nonlinear_arith)
                    requires
                        acc < p,
                        bytes@[i as int] < 256,
                ;
            }
            acc = acc * 256 + bytes[i] as u64;
            i = i + 1;
        }
        proof {
            assert(bytes@.subrange(0, 8) =~= bytes@);
        }
        Ok(acc)
    }

    /// Reads one encoded byte string (see [`bytes_code`]).
    pub fn next_bytes(&mut self) -> (r: Result<Vec<u8>, Error>)
        requires
            old(self).wf(),
        ensures
            final(self).wf(),
            parse_bytes(old(self)@) is None ==> r is Err,
            parse_bytes(old(self)@) is Some ==> r is Ok && r->Ok_0@ == parse_bytes(
                old(self)@,
            )->Some_0.0 && final(self)@ == old(self)@.subrange(
                parse_bytes(old(self)@)->Some_0.1 as int,
                old(self)@.len() as int,
            ),
    {
        let ghost s0 = self@;
        assert(s0 == old(self)@);
        let mut res: Vec<u8> = Vec::new();
        let mut i: usize = self.pos;
        let len = self.input.len();
        loop
            invariant
                self.wf(),
                self@ == s0,
                s0 == old(self)@,
                len == self.input@.len(),
                self.pos <= i <= len,
                ({
                    let here = self.input@.subrange(i as int, len as int);
                    parse_bytes(s0) == match parse_bytes(here) {
                        Some((v, n)) => Some((res@ + v, (n + (i - self.pos)) as nat)),
                        None => None::<(Seq<u8>, nat)>,
                    }
                }),
            decreases len - i,
        {
            let ghost here = self.input@.subrange(i as int, len as int);
            if i >= len {
                proof {
                    assert(parse_bytes(here) is None);
                    assert(parse_bytes(s0) is None);
                }
                return Err(Error::Internal);
            }
            let b = self.input[i];
            proof {
                assert(here[0] == b);
            }
            if b == 0 {
                if i + 1 >= len {
                    proof {
                        assert(parse_bytes(here) is None);
                        assert(parse_bytes(s0) is None);
                    assert(parse_bytes(s0) is None);
                    }
                    return Err(Error::Internal);
                }
                let c = self.input[i + 1];
                proof {
                    assert(here[1] == c);
                }
                if c == 0 {
                    let ghost start_pos = self.pos;
                    proof {
                        assert(res@ + seq![] =~= res@);
                    }
                    self.pos = i + 2;
                    proof {
                        assert(self@ =~= s0.subrange(i + 2 - start_pos, s0.len() as int));
                    }
                    return Ok(res);
                } else if c == 255 {
                    res.push(0);
                    proof {
                        let next = self.input@.subrange(i + 2, len as int);
                        assert(here.subrange(2, here.len() as int) =~= next);
                    }
                    i = i + 2;
                } else {
                    proof {
                        assert(parse_bytes(here) is None);
                        assert(parse_bytes(s0) is None);
                    assert(parse_bytes(s0) is None);
                    }
                    return Err(Error::Internal);
                }
            } else {
                res.push(b);
                proof {
                    assert(here.drop_first() =~= self.input@.subrange(i + 1, len as int));
                }
                i = i + 1;
            }
        }
    }
}

/// A common prefix does not change the order.
pub proof fn lemma_lex_common_prefix(p: Seq<u8>, x: Seq<u8>, y: Seq<u8>)
    ensures
        lex_lt(p + x, p + y) == lex_lt(x, y),
{
    let a = p + x;
    let b = p + y;
    assert(a.subrange(0, p.len() as int) =~= b.subrange(0, p.len() as int));
    lemma_lex_skip(a, b, p.len() as int);
    assert(a.subrange(p.len() as int, a.len() as int) =~= x);
    assert(b.subrange(p.len() as int, b.len() as int) =~= y);
}

/// Two different strings of one length decide the order of anything that
/// starts with them.
pub proof fn lemma_lex_equal_len_prefix(s: Seq<u8>, t: Seq<u8>, x: Seq<u8>, y: Seq<u8>)
    requires
        s.len() == t.len(),
        s != t,
    ensures
        lex_lt(s + x, t + y) == lex_lt(s, t),
    decreases s.len(),
{
    if s.len() == 0 {
        assert(s =~= t);
    } else if s[0] != t[0] {
        assert((s + x)[0] == s[0]);
        assert((t + y)[0] == t[0]);
    } else {
        assert((s + x).drop_first() =~= s.drop_first() + x);
        assert((t + y).drop_first() =~= t.drop_first() + y);
        if s.drop_first() == t.drop_first() {
            assert(s =~= seq![s[0]] + s.drop_first());
            assert(t =~= seq![t[0]] + t.drop_first());
        }
        lemma_lex_equal_len_prefix(s.drop_first(), t.drop_first(), x, y);
    }
}

/// Big-endian digits of one width sort as the numbers do.
pub proof fn lemma_be_order(v: nat, w: nat, n: nat)
    requires
        v < pow256(n),
        w < pow256(n),
    ensures
        lex_lt(be_digits(v, n), be_digits(w, n)) == (v < w),
    decreases n,
{
    if n == 0 {
        assert(pow256(0) == 1);
    } else {
        let p = pow256((n - 1) as nat);
        let sv = be_digits(v / 256, (n - 1) as nat);
        let sw = be_digits(w / 256, (n - 1) as nat);
        lemma_be_digits_len(v / 256, (n - 1) as nat);
        lemma_be_digits_len(w / 256, (n - 1) as nat);
        assert(v / 256 < p && w / 256 < p) by (nonlinear_arith)
            requires
                v < 256 * p,
                w < 256 * p,
        ;
        lemma_be_order(v / 256, w / 256, (n - 1) as nat);
        lemma_be_round_trip(v / 256, (n - 1) as nat);
        lemma_be_round_trip(w / 256, (n - 1) as nat);
        let a = (v % 256) as u8;
        let b = (w % 256) as u8;
        if sv == sw {
            assert(v / 256 == w / 256);
            lemma_lex_common_prefix(sv, seq![a], seq![b]);
            assert(sv.push(a) =~= sv + seq![a]);
            assert(sw.push(b) =~= sw + seq![b]);
            assert(lex_lt(seq![a], seq![b]) == (a < b)) by {
                reveal_with_fuel(lex_lt, 2);
                assert(seq![a].drop_first() =~= Seq::<u8>::empty());
                assert(seq![b].drop_first() =~= Seq::<u8>::empty());
            }
            assert((v < w) == (v % 256 < w % 256)) by (nonlinear_arith)
                requires
                    v / 256 == w / 256,
            ;
        } else {
            lemma_lex_equal_len_prefix(sv, sw, seq![a], seq![b]);
            assert(sv.push(a) =~= sv + seq![a]);
            assert(sw.push(b) =~= sw + seq![b]);
            assert(v / 256 != w / 256);
            assert((v < w) == (v / 256 < w / 256)) by (nonlinear_arith)
                requires
                    v / 256 != w / 256,
            ;
        }
    }
}

/// The eight bytes of `u64`s sort as the numbers do.
pub proof fn lemma_u64_order(a: u64, b: u64)
    ensures
        lex_lt(u64_bytes(a), u64_bytes(b)) == (a < b),
        u64_bytes(a) == u64_bytes(b) <==> a == b,
{
    lemma_pow256_8();
    lemma_be_order(a as nat, b as nat, 8);
    lemma_u64_bytes(a);
    lemma_u64_bytes(b);
}

/// Encoded byte strings sort as the strings do, whatever follows them.
pub proof fn lemma_bytes_code_order(k1: Seq<u8>, k2: Seq<u8>, x: Seq<u8>, y: Seq<u8>)
    requires
        k1 != k2,
    ensures
        lex_lt(bytes_code(k1) + x, bytes_code(k2) + y) == lex_lt(k1, k2),
    decreases k1.len() + k2.len(),
{
    reveal_with_fuel(lex_lt, 3);
    let a = bytes_code(k1) + x;
    let b = bytes_code(k2) + y;
    if k1.len() == 0 && k2.len() == 0 {
        assert(k1 =~= k2);
    }
    if k1.len() > 0 {
        assert(escape(k1) == (if k1[0] == 0 {
            seq![0u8, 255u8]
        } else {
            seq![k1[0]]
        }) + escape(k1.drop_first()));
    }
    if k2.len() > 0 {
        assert(escape(k2) == (if k2[0] == 0 {
            seq![0u8, 255u8]
        } else {
            seq![k2[0]]
        }) + escape(k2.drop_first()));
    }
    if k1.len() == 0 {
        assert(escape(k1) =~= Seq::<u8>::empty());
        assert(a[0] == 0 && a[1] == 0);
        if k2[0] != 0 {
            assert(b[0] == k2[0]);
        } else {
            assert(b[0] == 0 && b[1] == 255);
            assert(a.drop_first()[0] == 0 && b.drop_first()[0] == 255);
        }
    } else if k2.len() == 0 {
        assert(escape(k2) =~= Seq::<u8>::empty());
        assert(b[0] == 0 && b[1] == 0);
        if k1[0] != 0 {
            assert(a[0] == k1[0]);
        } else {
            assert(a[0] == 0 && a[1] == 255);
            assert(a.drop_first()[0] == 255 && b.drop_first()[0] == 0);
        }
    } else if k1[0] != k2[0] {
        if k1[0] != 0 && k2[0] != 0 {
            assert(a[0] == k1[0] && b[0] == k2[0]);
        } else if k1[0] == 0 {
            assert(a[0] == 0 && b[0] == k2[0]);
        } else {
            assert(a[0] == k1[0] && b[0] == 0);
        }
    } else {
        let t1 = k1.drop_first();
        let t2 = k2.drop_first();
        assert(k1 =~= seq![k1[0]] + t1);
        assert(k2 =~= seq![k2[0]] + t2);
        assert(t1 != t2);
        let head = if k1[0] == 0 {
            seq![0u8, 255u8]
        } else {
            seq![k1[0]]
        };
        assert(a =~= head + (bytes_code(t1) + x));
        assert(b =~= head + (bytes_code(t2) + y));
        lemma_lex_common_prefix(head, bytes_code(t1) + x, bytes_code(t2) + y);
        lemma_bytes_code_order(t1, t2, x, y);
    }
}

} // verus!
