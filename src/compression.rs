//! Compression for strictly increasing sequences of `u64` values.
//!
//! Each value is stored as its difference from the one before. Differences in
//! `1..256` take a single tag byte; any other difference takes a zero tag byte,
//! a kind in the discriminator stream, and an entry in the stream of its width.
use vstd::prelude::*;

verus! {

/// `a + b` modulo 2^64.
pub open spec fn wrap_add(a: u64, b: u64) -> u64 {
    if a + b > u64::MAX {
        (a + b - 0x1_0000_0000_0000_0000) as u64
    } else {
        (a + b) as u64
    }
}

/// `a - b` modulo 2^64.
pub open spec fn wrap_sub(a: u64, b: u64) -> u64 {
    if a - b < 0 {
        (a - b + 0x1_0000_0000_0000_0000) as u64
    } else {
        (a - b) as u64
    }
}

/// The last element of `s`, or zero for the empty sequence.
pub open spec fn last_or_zero(s: Seq<u64>) -> u64 {
    if s.len() == 0 {
        0
    } else {
        s.last()
    }
}

/// The differences between consecutive values, the first taken from zero.
pub open spec fn deltas_of(v: Seq<u64>) -> Seq<u64>
    decreases v.len(),
{
    if v.len() == 0 {
        seq![]
    } else {
        deltas_of(v.drop_last()).push(wrap_sub(v.last(), last_or_zero(v.drop_last())))
    }
}

/// The running sums of the differences `d`, starting from zero.
pub open spec fn sums_of(d: Seq<u64>) -> Seq<u64>
    decreases d.len(),
{
    if d.len() == 0 {
        seq![]
    } else {
        let p = sums_of(d.drop_last());
        p.push(wrap_add(last_or_zero(p), d.last()))
    }
}

/// Whether a difference is stored in its tag byte alone.
pub open spec fn is_direct(d: u64) -> bool {
    0 < d && d < 256
}

/// Which of the wider streams holds a difference.
#[derive(Clone, Copy, Debug, PartialEq, Eq, Structural)]
enum Others {
    Unsigned16,
    Unsigned32,
    Unsigned64,
}

spec fn tier_of(d: u64) -> Others {
    if d < 0x1_0000 {
        Others::Unsigned16
    } else if d < 0x1_0000_0000 {
        Others::Unsigned32
    } else {
        Others::Unsigned64
    }
}

spec fn tag_of(d: u64) -> u8 {
    if is_direct(d) {
        d as u8
    } else {
        0
    }
}

spec fn enc_bytes(d: Seq<u64>) -> Seq<u8>
    decreases d.len(),
{
    if d.len() == 0 {
        seq![]
    } else {
        enc_bytes(d.drop_last()).push(tag_of(d.last()))
    }
}

spec fn enc_other(d: Seq<u64>) -> Seq<Others>
    decreases d.len(),
{
    if d.len() == 0 {
        seq![]
    } else if is_direct(d.last()) {
        enc_other(d.drop_last())
    } else {
        enc_other(d.drop_last()).push(tier_of(d.last()))
    }
}

spec fn enc_u16s(d: Seq<u64>) -> Seq<u16>
    decreases d.len(),
{
    if d.len() == 0 {
        seq![]
    } else if !is_direct(d.last()) && tier_of(d.last()) == Others::Unsigned16 {
        enc_u16s(d.drop_last()).push(d.last() as u16)
    } else {
        enc_u16s(d.drop_last())
    }
}

spec fn enc_u32s(d: Seq<u64>) -> Seq<u32>
    decreases d.len(),
{
    if d.len() == 0 {
        seq![]
    } else if !is_direct(d.last()) && tier_of(d.last()) == Others::Unsigned32 {
        enc_u32s(d.drop_last()).push(d.last() as u32)
    } else {
        enc_u32s(d.drop_last())
    }
}

spec fn enc_u64s(d: Seq<u64>) -> Seq<u64>
    decreases d.len(),
{
    if d.len() == 0 {
        seq![]
    } else if !is_direct(d.last()) && tier_of(d.last()) == Others::Unsigned64 {
        enc_u64s(d.drop_last()).push(d.last())
    } else {
        enc_u64s(d.drop_last())
    }
}

/// A compressed stream of `u64` values.
pub struct Compressed {
    bytes: Vec<u8>,
    other: Vec<Others>,
    u16s: Vec<u16>,
    u32s: Vec<u32>,
    u64s: Vec<u64>,
    deltas: Ghost<Seq<u64>>,
}

impl Compressed {
    /// The stored differences, in order.
    pub closed spec fn deltas(&self) -> Seq<u64> {
        self.deltas@
    }

    /// The values that the stream decodes to.
    pub open spec fn view(&self) -> Seq<u64> {
        sums_of(self.deltas())
    }

    /// The five streams are the encoding of the stored differences.
    pub closed spec fn wf(&self) -> bool {
        &&& self.bytes@ == enc_bytes(self.deltas@)
        &&& self.other@ == enc_other(self.deltas@)
        &&& self.u16s@ == enc_u16s(self.deltas@)
        &&& self.u32s@ == enc_u32s(self.deltas@)
        &&& self.u64s@ == enc_u64s(self.deltas@)
    }

    /// How many differences went to the 16-, 32- and 64-bit streams.
    pub closed spec fn wide_counts(&self) -> (nat, nat, nat) {
        (self.u16s@.len(), self.u32s@.len(), self.u64s@.len())
    }

    /// How many differences went to the 16-, 32- and 64-bit streams.
    pub fn overflow_counts(&self) -> (r: (usize, usize, usize))
        ensures
            r.0 == self.wide_counts().0,
            r.1 == self.wide_counts().1,
            r.2 == self.wide_counts().2,
    {
        (self.u16s.len(), self.u32s.len(), self.u64s.len())
    }

    fn empty(size: usize) -> (r: Compressed)
        ensures
            r.wf(),
            r.deltas() == Seq::<u64>::empty(),
            r.wide_counts() == (0nat, 0nat, 0nat),
    {
        Compressed {
            bytes: Vec::with_capacity(size),
            other: vec![],
            u16s: vec![],
            u32s: vec![],
            u64s: vec![],
            deltas: Ghost(Seq::empty()),
        }
    }

    /// Appends one difference: in the tag byte when it lies in `1..256`,
    /// else in the narrowest of the 16-, 32- and 64-bit streams that holds it.
    fn push(&mut self, delta: u64)
        requires
            old(self).wf(),
        ensures
            final(self).wf(),
            final(self).deltas() == old(self).deltas().push(delta),
            final(self).wide_counts() == if is_direct(delta) {
                old(self).wide_counts()
            } else if delta < 0x1_0000 {
                (old(self).wide_counts().0 + 1, old(self).wide_counts().1, old(self).wide_counts().2)
            } else if delta < 0x1_0000_0000 {
                (old(self).wide_counts().0, old(self).wide_counts().1 + 1, old(self).wide_counts().2)
            } else {
                (old(self).wide_counts().0, old(self).wide_counts().1, old(self).wide_counts().2 + 1)
            },
    {
        let ghost d = self.deltas@.push(delta);
        assert(d.drop_last() =~= self.deltas@);
        if 0 < delta && delta < 256 {
            self.bytes.push(delta as u8);
        } else {
            self.bytes.push(0);
            if delta < 0x1_0000 {
                self.other.push(Others::Unsigned16);
                self.u16s.push(delta as u16);
            } else if delta < 0x1_0000_0000 {
                self.other.push(Others::Unsigned32);
                self.u32s.push(delta as u32);
            } else {
                self.other.push(Others::Unsigned64);
                self.u64s.push(delta);
            }
        }
        self.deltas = Ghost(d);
    }

    /// Compresses `values` in order.
    pub fn from(values: &Vec<u64>) -> (r: Compressed)
        ensures
            r.wf(),
            r@ == values@,
    {
        let mut compressor = Compressor::with_capacity(values.len());
        let mut i: usize = 0;
        while i < values.len()
            invariant
                i <= values.len(),
                compressor.wf(),
                compressor@ == values@.take(i as int),
            decreases values.len() - i,
        {
            compressor.push(values[i]);
            assert(values@.take(i + 1) =~= values@.take(i as int).push(values@[i as int]));
            i = i + 1;
        }
        assert(values@.take(values.len() as int) =~= values@);
        compressor.done()
    }

    /// A decoder that yields the stored values from the first.
    pub fn decompress(&self) -> (r: Decompressor<'_>)
        requires
            self.wf(),
        ensures
            r.wf(),
            r.remaining() == self@,
    {
        proof {
            lemma_sums_len(self.deltas@);
            assert(self.deltas@.take(0) =~= Seq::<u64>::empty());
        }
        Decompressor { current: 0, source: self, pos: 0, other_pos: 0, u16_pos: 0, u32_pos: 0, u64_pos: 0 }
    }
}

/// Builds a `Compressed` one value at a time.
pub struct Compressor {
    current: u64,
    compressed: Compressed,
    values: Ghost<Seq<u64>>,
}

impl Compressor {
    /// The values pushed so far.
    pub closed spec fn view(&self) -> Seq<u64> {
        self.values@
    }

    /// The output encodes the differences of the values pushed.
    pub closed spec fn wf(&self) -> bool {
        &&& self.compressed.wf()
        &&& self.compressed.deltas() == deltas_of(self.values@)
        &&& self.current == last_or_zero(self.values@)
    }

    /// How many differences went to the 16-, 32- and 64-bit streams so far.
    pub closed spec fn wide_counts(&self) -> (nat, nat, nat) {
        self.compressed.wide_counts()
    }

    /// An empty compressor whose tag stream has room for `size` values.
    pub fn with_capacity(size: usize) -> (r: Compressor)
        ensures
            r.wf(),
            r@ == Seq::<u64>::empty(),
            r.wide_counts() == (0nat, 0nat, 0nat),
    {
        Compressor { current: 0, compressed: Compressed::empty(size), values: Ghost(Seq::empty()) }
    }

    /// An empty compressor.
    pub fn new() -> (r: Compressor)
        ensures
            r.wf(),
            r@ == Seq::<u64>::empty(),
            r.wide_counts() == (0nat, 0nat, 0nat),
    {
        Compressor::with_capacity(0)
    }

    /// Pushes the next value. Order is not checked: the difference from the
    /// previous value is taken modulo 2^64, so any sequence decodes again.
    pub fn push(&mut self, next: u64)
        requires
            old(self).wf(),
        ensures
            final(self).wf(),
            final(self)@ == old(self)@.push(next),
            ({
                let delta = wrap_sub(next, last_or_zero(old(self)@));
                let (a, b, c) = old(self).wide_counts();
                final(self).wide_counts() == if is_direct(delta) {
                    (a, b, c)
                } else if delta < 0x1_0000 {
                    (a + 1, b, c)
                } else if delta < 0x1_0000_0000 {
                    (a, b + 1, c)
                } else {
                    (a, b, c + 1)
                }
            }),
    {
        let ghost v = self.values@.push(next);
        assert(v.drop_last() =~= self.values@);
        self.compressed.push(next.wrapping_sub(self.current));
        self.current = next;
        self.values = Ghost(v);
    }

    /// The compressed form of the values pushed.
    pub fn done(self) -> (r: Compressed)
        requires
            self.wf(),
        ensures
            r.wf(),
            r@ == self@,
            r.wide_counts() == self.wide_counts(),
    {
        proof {
            lemma_round_trip(self.values@);
        }
        self.compressed
    }
}

/// Yields the values of a `Compressed`, front to back.
pub struct Decompressor<'a> {
    current: u64,
    source: &'a Compressed,
    pos: usize,
    other_pos: usize,
    u16_pos: usize,
    u32_pos: usize,
    u64_pos: usize,
}

impl<'a> Decompressor<'a> {
    /// The values not yet yielded.
    pub closed spec fn remaining(&self) -> Seq<u64> {
        sums_of(self.source.deltas()).skip(self.pos as int)
    }

    /// The positions in the five streams are those after `pos` values.
    pub closed spec fn wf(&self) -> bool {
        let d = self.source.deltas();
        &&& self.source.wf()
        &&& self.pos <= d.len()
        &&& self.current == last_or_zero(sums_of(d.take(self.pos as int)))
        &&& self.other_pos == enc_other(d.take(self.pos as int)).len()
        &&& self.u16_pos == enc_u16s(d.take(self.pos as int)).len()
        &&& self.u32_pos == enc_u32s(d.take(self.pos as int)).len()
        &&& self.u64_pos == enc_u64s(d.take(self.pos as int)).len()
    }

    /// The next value, or `None` once all have been yielded.
    pub fn next(&mut self) -> (r: Option<u64>)
        requires
            old(self).wf(),
        ensures
            final(self).wf(),
            old(self).remaining().len() == 0 ==> r is None && final(self).remaining() == old(
                self,
            ).remaining(),
            old(self).remaining().len() > 0 ==> r == Some(old(self).remaining()[0])
                && final(self).remaining() == old(self).remaining().drop_first(),
    {
        let ghost d = self.source.deltas();
        proof {
            lemma_sums_len(d);
            lemma_enc_len(d);
        }
        if self.pos >= self.source.bytes.len() {
            return None;
        }
        let ghost p = self.pos as int;
        proof {
            lemma_enc_len(d);
            lemma_enc_prefix(d, p + 1);
            assert(d.take(p + 1).drop_last() =~= d.take(p));
            assert(d.take(p + 1).last() == d[p]);
            lemma_enc_prefix(d, p);
            lemma_enc_len(d.take(p));
            lemma_sums_prefix(d, p + 1);
            lemma_sums_len(d.take(p + 1));
            lemma_sums_len(d.take(p));
            let q = d.take(p + 1);
            assert(enc_bytes(q) == enc_bytes(d.take(p)).push(tag_of(d[p])));
            assert(enc_bytes(q)[p] == enc_bytes(d)[p]);
            if !is_direct(d[p]) {
                assert(enc_other(q) == enc_other(d.take(p)).push(tier_of(d[p])));
                assert(enc_other(d)[self.other_pos as int] == enc_other(q)[self.other_pos as int]);
                if tier_of(d[p]) == Others::Unsigned16 {
                    assert(enc_u16s(q) == enc_u16s(d.take(p)).push(d[p] as u16));
                    assert(enc_u16s(d)[self.u16_pos as int] == enc_u16s(q)[self.u16_pos as int]);
                } else if tier_of(d[p]) == Others::Unsigned32 {
                    assert(enc_u32s(q) == enc_u32s(d.take(p)).push(d[p] as u32));
                    assert(enc_u32s(d)[self.u32_pos as int] == enc_u32s(q)[self.u32_pos as int]);
                } else {
                    assert(enc_u64s(q) == enc_u64s(d.take(p)).push(d[p]));
                    assert(enc_u64s(d)[self.u64_pos as int] == enc_u64s(q)[self.u64_pos as int]);
                }
            }
        }
        let byte = self.source.bytes[self.pos];
        let delta: u64;
        if byte > 0 {
            delta = byte as u64;
        } else {
            let kind = self.source.other[self.other_pos];
            match kind {
                Others::Unsigned16 => {
                    delta = self.source.u16s[self.u16_pos] as u64;
                    assert(self.u16_pos < self.source.u16s.len());
            self.u16_pos = self.u16_pos + 1;
                },
                Others::Unsigned32 => {
                    delta = self.source.u32s[self.u32_pos] as u64;
                    assert(self.u32_pos < self.source.u32s.len());
            self.u32_pos = self.u32_pos + 1;
                },
                Others::Unsigned64 => {
                    delta = self.source.u64s[self.u64_pos];
                    assert(self.u64_pos < self.source.u64s.len());
            self.u64_pos = self.u64_pos + 1;
                },
            }
            assert(self.other_pos < self.source.other.len());
            self.other_pos = self.other_pos + 1;
        }
        assert(delta == d[p]);
        self.current = self.current.wrapping_add(delta);
        self.pos = self.pos + 1;
        proof {
            let q = d.take(p + 1);
            assert(q.drop_last() =~= d.take(p));
            assert(sums_of(q) == sums_of(d.take(p)).push(wrap_add(last_or_zero(sums_of(d.take(p))), d[p])));
            assert(self.current == sums_of(q)[p]);
            assert(sums_of(d)[p] == sums_of(q)[p]);
            assert(old(self).remaining()[0] == sums_of(d)[p]);
            assert(self.remaining() =~= old(self).remaining().drop_first());
        }
        Some(self.current)
    }

    /// How many values are left to yield: the lower bound and the upper bound,
    /// which are equal.
    pub fn size_hint(&self) -> (r: (usize, Option<usize>))
        requires
            self.wf(),
        ensures
            r.0 == self.remaining().len(),
            r.1 == Some(r.0),
    {
        proof {
            lemma_sums_len(self.source.deltas());
            lemma_enc_len(self.source.deltas());
        }
        let n = self.source.bytes.len() - self.pos;
        (n, Some(n))
    }

    /// Yields every remaining value, in order.
    pub fn collect(&mut self) -> (r: Vec<u64>)
        requires
            old(self).wf(),
        ensures
            final(self).wf(),
            r@ == old(self).remaining(),
            final(self).remaining().len() == 0,
    {
        let mut out: Vec<u64> = Vec::new();
        loop
            invariant
                self.wf(),
                out@ + self.remaining() == old(self).remaining(),
            decreases self.remaining().len(),
        {
            let ghost before = self.remaining();
            match self.next() {
                Some(v) => {
                    out.push(v);
                    assert(out@ + self.remaining() =~= old(self).remaining()) by {
                        assert(before =~= seq![v] + before.drop_first());
                    }
                },
                None => {
                    assert(out@ + self.remaining() =~= out@);
                    return out;
                },
            }
        }
    }
}

proof fn lemma_sums_len(d: Seq<u64>)
    ensures
        sums_of(d).len() == d.len(),
    decreases d.len(),
{
    if d.len() > 0 {
        lemma_sums_len(d.drop_last());
    }
}

proof fn lemma_deltas_len(v: Seq<u64>)
    ensures
        deltas_of(v).len() == v.len(),
    decreases v.len(),
{
    if v.len() > 0 {
        lemma_deltas_len(v.drop_last());
    }
}

proof fn lemma_enc_len(d: Seq<u64>)
    ensures
        enc_bytes(d).len() == d.len(),
        enc_other(d).len() == enc_u16s(d).len() + enc_u32s(d).len() + enc_u64s(d).len(),
    decreases d.len(),
{
    if d.len() > 0 {
        lemma_enc_len(d.drop_last());
    }
}

/// The encodings of a prefix are prefixes of the encodings of the whole.
proof fn lemma_enc_prefix(d: Seq<u64>, i: int)
    requires
        0 <= i <= d.len(),
    ensures
        enc_bytes(d.take(i)) == enc_bytes(d).take(i),
        enc_other(d.take(i)).len() <= enc_other(d).len(),
        enc_other(d.take(i)) == enc_other(d).take(enc_other(d.take(i)).len() as int),
        enc_u16s(d.take(i)) == enc_u16s(d).take(enc_u16s(d.take(i)).len() as int),
        enc_u32s(d.take(i)) == enc_u32s(d).take(enc_u32s(d.take(i)).len() as int),
        enc_u64s(d.take(i)) == enc_u64s(d).take(enc_u64s(d.take(i)).len() as int),
        enc_u16s(d.take(i)).len() <= enc_u16s(d).len(),
        enc_u32s(d.take(i)).len() <= enc_u32s(d).len(),
        enc_u64s(d.take(i)).len() <= enc_u64s(d).len(),
    decreases d.len(),
{
    lemma_enc_len(d);
    if i == d.len() {
        assert(d.take(i) =~= d);
        assert(enc_bytes(d).take(i) =~= enc_bytes(d));
        assert(enc_other(d).take(enc_other(d).len() as int) =~= enc_other(d));
        assert(enc_u16s(d).take(enc_u16s(d).len() as int) =~= enc_u16s(d));
        assert(enc_u32s(d).take(enc_u32s(d).len() as int) =~= enc_u32s(d));
        assert(enc_u64s(d).take(enc_u64s(d).len() as int) =~= enc_u64s(d));
    } else {
        let e = d.drop_last();
        lemma_enc_prefix(e, i);
        assert(e.take(i) =~= d.take(i));
        lemma_enc_len(e);
        assert(enc_bytes(d).take(i) =~= enc_bytes(e).take(i));
        assert(enc_other(d).take(enc_other(d.take(i)).len() as int) =~= enc_other(e).take(
            enc_other(d.take(i)).len() as int,
        ));
        assert(enc_u16s(d).take(enc_u16s(d.take(i)).len() as int) =~= enc_u16s(e).take(
            enc_u16s(d.take(i)).len() as int,
        ));
        assert(enc_u32s(d).take(enc_u32s(d.take(i)).len() as int) =~= enc_u32s(e).take(
            enc_u32s(d.take(i)).len() as int,
        ));
        assert(enc_u64s(d).take(enc_u64s(d.take(i)).len() as int) =~= enc_u64s(e).take(
            enc_u64s(d.take(i)).len() as int,
        ));
    }
}

/// The running sums of a prefix are a prefix of the running sums.
proof fn lemma_sums_prefix(d: Seq<u64>, i: int)
    requires
        0 <= i <= d.len(),
    ensures
        sums_of(d.take(i)) == sums_of(d).take(i),
    decreases d.len(),
{
    lemma_sums_len(d);
    if i == d.len() {
        assert(d.take(i) =~= d);
        assert(sums_of(d).take(i) =~= sums_of(d));
    } else {
        let e = d.drop_last();
        lemma_sums_prefix(e, i);
        assert(e.take(i) =~= d.take(i));
        lemma_sums_len(e);
        assert(sums_of(d).take(i) =~= sums_of(e).take(i));
    }
}

/// Decoding the differences of any sequence of values gives that sequence
/// back: compressing and then decompressing is the identity.
pub proof fn lemma_round_trip(v: Seq<u64>)
    ensures
        sums_of(deltas_of(v)) == v,
    decreases v.len(),
{
    if v.len() > 0 {
        let e = v.drop_last();
        lemma_round_trip(e);
        lemma_deltas_len(e);
        assert(deltas_of(v).drop_last() =~= deltas_of(e));
        assert(sums_of(deltas_of(v)) =~= v);
    }
}

} // verus!
