//! Binary record formats for lineages and tips. Both are length-stable
//! across restarts: a lineage is a 32-bit big-endian count followed by each
//! branch number as 32 bits big-endian; a tip is a 64-bit big-endian
//! height, the 32-byte head identifier, the 32-byte parent identifier, and
//! the lineage encoding. Decoding rejects a stream that ends before the
//! announced contents.

use vstd::prelude::*;

use crate::types::{BlockHash, Error, Lineage, Tip, TipView, tip_view_wf};

verus! {

/// The four bytes of `n`, most significant first.
pub open spec fn u32_be(n: u32) -> Seq<u8> {
    seq![(n >> 24) as u8, (n >> 16) as u8, (n >> 8) as u8, n as u8]
}

/// The eight bytes of `n`, most significant first.
pub open spec fn u64_be(n: u64) -> Seq<u8> {
    seq![
        (n >> 56) as u8,
        (n >> 48) as u8,
        (n >> 40) as u8,
        (n >> 32) as u8,
        (n >> 24) as u8,
        (n >> 16) as u8,
        (n >> 8) as u8,
        n as u8,
    ]
}

/// The 32-bit number whose big-endian bytes stand at `i`.
pub open spec fn be32_at(d: Seq<u8>, i: int) -> u32 {
    (((d[i] as u32) << 24) | ((d[i + 1] as u32) << 16) | ((d[i + 2] as u32) << 8) | (d[i
        + 3] as u32))
}

/// The 64-bit number whose big-endian bytes stand at `i`.
pub open spec fn be64_at(d: Seq<u8>, i: int) -> u64 {
    (((d[i] as u64) << 56) | ((d[i + 1] as u64) << 48) | ((d[i + 2] as u64) << 40) | ((d[i
        + 3] as u64) << 32) | ((d[i + 4] as u64) << 24) | ((d[i + 5] as u64) << 16) | ((d[i
        + 6] as u64) << 8) | (d[i + 7] as u64))
}

proof fn lemma_u32_be_recompose(n: u32)
    ensures
        ((((n >> 24) as u8) as u32) << 24) | ((((n >> 16) as u8) as u32) << 16) | ((((n
            >> 8) as u8) as u32) << 8) | ((n as u8) as u32) == n,
{
    assert(((((n >> 24) as u8) as u32) << 24) | ((((n >> 16) as u8) as u32) << 16) | ((((n
        >> 8) as u8) as u32) << 8) | ((n as u8) as u32) == n) by (bit_vector);
}

proof fn lemma_u64_be_recompose(n: u64)
    ensures
        ((((n >> 56) as u8) as u64) << 56) | ((((n >> 48) as u8) as u64) << 48) | ((((n
            >> 40) as u8) as u64) << 40) | ((((n >> 32) as u8) as u64) << 32) | ((((n
            >> 24) as u8) as u64) << 24) | ((((n >> 16) as u8) as u64) << 16) | ((((n
            >> 8) as u8) as u64) << 8) | ((n as u8) as u64) == n,
{
    assert(((((n >> 56) as u8) as u64) << 56) | ((((n >> 48) as u8) as u64) << 48) | ((((n
        >> 40) as u8) as u64) << 40) | ((((n >> 32) as u8) as u64) << 32) | ((((n
        >> 24) as u8) as u64) << 24) | ((((n >> 16) as u8) as u64) << 16) | ((((n
        >> 8) as u8) as u64) << 8) | ((n as u8) as u64) == n) by (bit_vector);
}

/// Each branch number of `l` in order, four big-endian bytes each.
pub open spec fn elems_enc(l: Seq<u32>) -> Seq<u8>
    decreases l.len(),
{
    if l.len() == 0 {
        Seq::empty()
    } else {
        u32_be(l[0]) + elems_enc(l.drop_first())
    }
}

proof fn lemma_elems_enc_len(l: Seq<u32>)
    ensures
        elems_enc(l).len() == 4 * l.len(),
    decreases l.len(),
{
    if l.len() > 0 {
        lemma_elems_enc_len(l.drop_first());
    }
}

proof fn lemma_elems_enc_snoc(l: Seq<u32>, x: u32)
    ensures
        elems_enc(l.push(x)) == elems_enc(l) + u32_be(x),
    decreases l.len(),
{
    if l.len() == 0 {
        assert(l.push(x)[0] == x);
        assert(l.push(x).drop_first() =~= Seq::<u32>::empty());
        assert(elems_enc(Seq::<u32>::empty()) == Seq::<u8>::empty());
        assert(elems_enc(l.push(x)) =~= elems_enc(l) + u32_be(x));
    } else {
        assert(l.push(x)[0] == l[0]);
        assert(l.push(x).drop_first() =~= l.drop_first().push(x));
        lemma_elems_enc_snoc(l.drop_first(), x);
        assert(elems_enc(l.push(x)) =~= elems_enc(l) + u32_be(x));
    }
}

proof fn lemma_elems_enc_index(l: Seq<u32>, j: int)
    requires
        0 <= j < l.len(),
    ensures
        forall|k: int| 0 <= k < 4 ==> elems_enc(l)[4 * j + k] == u32_be(l[j])[k],
    decreases j,
{
    lemma_elems_enc_len(l);
    lemma_elems_enc_len(l.drop_first());
    if j == 0 {
        assert(forall|k: int| 0 <= k < 4 ==> elems_enc(l)[4 * j + k] == u32_be(l[0])[k]);
    } else {
        lemma_elems_enc_index(l.drop_first(), j - 1);
        assert forall|k: int| 0 <= k < 4 implies elems_enc(l)[4 * j + k] == u32_be(l[j])[k] by {
            assert(elems_enc(l)[4 * j + k] == elems_enc(l.drop_first())[4 * (j - 1) + k]);
            assert(l.drop_first()[j - 1] == l[j]);
        }
    }
}

/// The encoding of a lineage: its element count as 32 bits big-endian,
/// then each branch number in order, 32 bits big-endian each.
pub open spec fn lineage_enc(l: Seq<u32>) -> Seq<u8> {
    u32_be(l.len() as u32) + elems_enc(l)
}

/// What decoding a lineage at `pos` yields: the branch numbers and the
/// position just past them, or nothing if the stream ends before the
/// announced count of elements.
pub open spec fn lineage_dec(d: Seq<u8>, pos: int) -> Option<(Seq<u32>, int)> {
    if 0 <= pos && pos + 4 <= d.len() {
        let n = be32_at(d, pos) as int;
        if pos + 4 + 4 * n <= d.len() {
            Some((Seq::new(n as nat, |j: int| be32_at(d, pos + 4 + 4 * j)), pos + 4 + 4 * n))
        } else {
            None
        }
    } else {
        None
    }
}

/// The encoding of a tip: height as 64 bits big-endian, the head and
/// parent identifiers as 32 raw bytes each, then the lineage encoding.
pub open spec fn tip_enc(t: TipView) -> Seq<u8> {
    u64_be(t.height) + t.last + t.prev + lineage_enc(t.lineage)
}

/// What decoding a tip at `pos` yields, or nothing if the stream ends
/// before the fixed fields or inside the lineage.
pub open spec fn tip_dec(d: Seq<u8>, pos: int) -> Option<(TipView, int)> {
    if 0 <= pos && pos + 72 <= d.len() {
        match lineage_dec(d, pos + 72) {
            Some((lin, end)) => Some(
                (
                    TipView {
                        height: be64_at(d, pos),
                        last: d.subrange(pos + 8, pos + 40),
                        prev: d.subrange(pos + 40, pos + 72),
                        lineage: lin,
                    },
                    end,
                ),
            ),
            None => None,
        }
    } else {
        None
    }
}

fn decode_err() -> (r: Error)
    ensures
        r is StorageErr,
{
    Error::StorageErr("decode: the stream ends before the encoded value".to_string())
}

fn push_u32_be(out: &mut Vec<u8>, n: u32)
    ensures
        final(out)@ == old(out)@ + u32_be(n),
{
    out.push((n >> 24) as u8);
    out.push((n >> 16) as u8);
    out.push((n >> 8) as u8);
    out.push(n as u8);
    proof {
        assert(out@ =~= old(out)@ + u32_be(n));
    }
}

fn push_u64_be(out: &mut Vec<u8>, n: u64)
    ensures
        final(out)@ == old(out)@ + u64_be(n),
{
    out.push((n >> 56) as u8);
    out.push((n >> 48) as u8);
    out.push((n >> 40) as u8);
    out.push((n >> 32) as u8);
    out.push((n >> 24) as u8);
    out.push((n >> 16) as u8);
    out.push((n >> 8) as u8);
    out.push(n as u8);
    proof {
        assert(out@ =~= old(out)@ + u64_be(n));
    }
}

fn push_bytes(out: &mut Vec<u8>, b: &Vec<u8>)
    ensures
        final(out)@ == old(out)@ + b@,
{
    proof {
        assert(out@ =~= old(out)@ + b@.take(0));
    }
    let mut i: usize = 0;
    while i < b.len()
        invariant
            i <= b@.len(),
            out@ == old(out)@ + b@.take(i as int),
        decreases b@.len() - i,
    {
        out.push(b[i]);
        proof {
            assert(out@ =~= old(out)@ + b@.take(i as int + 1));
        }
        i = i + 1;
    }
    proof {
        assert(b@.take(b@.len() as int) =~= b@);
    }
}

fn read_u32_be(data: &Vec<u8>, pos: usize) -> (r: u32)
    requires
        pos + 4 <= data@.len(),
    ensures
        r == be32_at(data@, pos as int),
{
    proof {
        assert(data.len() == data@.len());
    }
    let b0 = data[pos];
    let b1 = data[pos + 1];
    let b2 = data[pos + 2];
    let b3 = data[pos + 3];
    ((b0 as u32) << 24) | ((b1 as u32) << 16) | ((b2 as u32) << 8) | (b3 as u32)
}

fn read_u64_be(data: &Vec<u8>, pos: usize) -> (r: u64)
    requires
        pos + 8 <= data@.len(),
    ensures
        r == be64_at(data@, pos as int),
{
    proof {
        assert(data.len() == data@.len());
    }
    let b0 = data[pos];
    let b1 = data[pos + 1];
    let b2 = data[pos + 2];
    let b3 = data[pos + 3];
    let b4 = data[pos + 4];
    let b5 = data[pos + 5];
    let b6 = data[pos + 6];
    let b7 = data[pos + 7];
    ((b0 as u64) << 56) | ((b1 as u64) << 48) | ((b2 as u64) << 40) | ((b3 as u64) << 32) | ((
    b4 as u64) << 24) | ((b5 as u64) << 16) | ((b6 as u64) << 8) | (b7 as u64)
}

fn copy_bytes(data: &Vec<u8>, pos: usize, len: usize) -> (r: Vec<u8>)
    requires
        pos + len <= data@.len(),
    ensures
        r@ == data@.subrange(pos as int, pos as int + len as int),
{
    proof {
        assert(data.len() == data@.len());
    }
    let mut v: Vec<u8> = Vec::new();
    let mut i: usize = 0;
    while i < len
        invariant
            i <= len,
            pos + len <= data@.len(),
            data@.len() <= usize::MAX,
            v@.len() == i,
            forall|k: int| 0 <= k < i ==> v@[k] == data@[pos + k],
        decreases len - i,
    {
        v.push(data[pos + i]);
        i = i + 1;
    }
    proof {
        assert(v@ =~= data@.subrange(pos as int, pos as int + len as int));
    }
    v
}

impl Lineage {
    /// Serialization for lineage, necessary to serialize fork tips:
    /// appends the lineage encoding to `out`.
    pub fn write(&self, out: &mut Vec<u8>)
        requires
            self.wf(),
        ensures
            final(out)@ == old(out)@ + lineage_enc(self@),
    {
        proof {
            self.lemma_view();
        }
        let n: u32 = self.0.len() as u32;
        push_u32_be(out, n);
        proof {
            assert(out@ =~= old(out)@ + u32_be(n) + elems_enc(self@.take(0)));
        }
        let mut i: usize = 0;
        while i < self.0.len()
            invariant
                i <= self@.len(),
                self.wf(),
                self@ == self.0@,
                n == self@.len() as u32,
                out@ == old(out)@ + u32_be(n) + elems_enc(self@.take(i as int)),
            decreases self@.len() - i,
        {
            let x = self.0[i];
            push_u32_be(out, x);
            proof {
                lemma_elems_enc_snoc(self@.take(i as int), x);
                assert(self@.take(i as int).push(x) =~= self@.take(i as int + 1));
                assert(out@ =~= old(out)@ + u32_be(n) + elems_enc(self@.take(i as int + 1)));
            }
            i = i + 1;
        }
        proof {
            assert(self@.take(self@.len() as int) =~= self@);
            assert(out@ =~= old(out)@ + lineage_enc(self@));
        }
    }

    /// Deserialization for lineage, necessary to deserialize fork tips:
    /// reads a lineage at `pos` and returns it with the position just past
    /// it. Fails with a decode error if the stream is truncated before the
    /// announced count of elements.
    pub fn read(data: &Vec<u8>, pos: usize) -> (r: Result<(Lineage, usize), Error>)
        ensures
            match r {
                Ok((l, end)) => {
                    &&& lineage_dec(data@, pos as int) == Some((l@, end as int))
                    &&& pos <= end
                    &&& end as int <= data@.len()
                    &&& l@.len() <= u32::MAX
                },
                Err(e) => lineage_dec(data@, pos as int) is None && e is StorageErr,
            },
    {
        if data.len() < 4 || pos > data.len() - 4 {
            return Err(decode_err());
        }
        let n = read_u32_be(data, pos);
        let rem: usize = data.len() - pos - 4;
        let count: usize = n as usize;
        if count > rem / 4 {
            proof {
                assert(4 * (rem / 4) + rem % 4 == rem);
            }
            return Err(decode_err());
        }
        proof {
            assert(4 * (rem / 4) + rem % 4 == rem);
            assert(pos + 4 + 4 * (count as int) <= data@.len());
        }
        proof {
            assert(data.len() == data@.len());
        }
        let mut branches: Vec<u32> = Vec::new();
        let mut j: usize = 0;
        while j < count
            invariant
                j <= count,
                n == be32_at(data@, pos as int),
                count == n as usize,
                pos + 4 + 4 * (count as int) <= data@.len(),
                data@.len() <= usize::MAX,
                branches@.len() == j,
                forall|k: int| 0 <= k < j ==> branches@[k] == be32_at(
                    data@,
                    pos as int + 4 + 4 * k,
                ),
            decreases count - j,
        {
            let x = read_u32_be(data, pos + 4 + 4 * j);
            branches.push(x);
            j = j + 1;
        }
        let end: usize = pos + 4 + 4 * count;
        proof {
            assert(branches@ =~= Seq::new(
                count as nat,
                |k: int| be32_at(data@, pos as int + 4 + 4 * k),
            ));
            assert(lineage_dec(data@, pos as int) == Some((branches@, end as int)));
        }
        let l = Lineage(branches);
        proof {
            l.lemma_view();
        }
        Ok((l, end))
    }
}

impl Tip {
    /// Serialization of a tip, required to save to datastore: appends the
    /// tip encoding to `out`.
    pub fn write(&self, out: &mut Vec<u8>)
        requires
            self.wf(),
        ensures
            final(out)@ == old(out)@ + tip_enc(self@),
    {
        push_u64_be(out, self.height);
        push_bytes(out, &self.last_block_h.bytes);
        push_bytes(out, &self.prev_block_h.bytes);
        self.lineage.write(out);
        proof {
            assert(out@ =~= old(out)@ + tip_enc(self@));
        }
    }

    /// Deserialization of a tip: reads a tip at `pos` and returns it with
    /// the position just past it. Fails with a decode error if the stream
    /// is truncated.
    pub fn read(data: &Vec<u8>, pos: usize) -> (r: Result<(Tip, usize), Error>)
        ensures
            match r {
                Ok((t, end)) => {
                    &&& tip_dec(data@, pos as int) == Some((t@, end as int))
                    &&& pos <= end
                    &&& end as int <= data@.len()
                },
                Err(e) => tip_dec(data@, pos as int) is None && e is StorageErr,
            },
    {
        if data.len() < 72 || pos > data.len() - 72 {
            return Err(decode_err());
        }
        let height = read_u64_be(data, pos);
        let last = copy_bytes(data, pos + 8, 32);
        let prev = copy_bytes(data, pos + 40, 32);
        match Lineage::read(data, pos + 72) {
            Ok((lin, end)) => {
                let t = Tip {
                    height,
                    last_block_h: BlockHash { bytes: last },
                    prev_block_h: BlockHash { bytes: prev },
                    lineage: lin,
                };
                proof {
                    let d = data@;
                    let p = pos as int;
                    assert(t@ =~= TipView {
                        height: be64_at(d, p),
                        last: d.subrange(p + 8, p + 40),
                        prev: d.subrange(p + 40, p + 72),
                        lineage: lin@,
                    });
                }
                Ok((t, end))
            },
            Err(e) => Err(e),
        }
    }
}

/// Round trip for lineages, at any position in a stream: decoding a
/// lineage encoding that ends the stream yields exactly the encoded branch
/// numbers and consumes the stream to its end.
pub proof fn lemma_lineage_roundtrip_at(p: Seq<u8>, l: Seq<u32>)
    requires
        l.len() <= u32::MAX,
    ensures
        lineage_dec(p + lineage_enc(l), p.len() as int) == Some(
            (l, (p + lineage_enc(l)).len() as int),
        ),
{
    let d = p + lineage_enc(l);
    let n: u32 = l.len() as u32;
    let i = p.len() as int;
    lemma_elems_enc_len(l);
    assert(d.len() == p.len() + 4 + 4 * l.len());
    assert(d[i] == u32_be(n)[0]);
    assert(d[i + 1] == u32_be(n)[1]);
    assert(d[i + 2] == u32_be(n)[2]);
    assert(d[i + 3] == u32_be(n)[3]);
    lemma_u32_be_recompose(n);
    assert(be32_at(d, i) == n);
    assert(n as int == l.len());
    assert forall|j: int| 0 <= j < l.len() implies be32_at(d, i + 4 + 4 * j) == l[j] by {
        lemma_elems_enc_index(l, j);
        let off = i + 4 + 4 * j;
        assert(d[off] == lineage_enc(l)[4 + 4 * j]);
        assert(lineage_enc(l)[4 + 4 * j] == elems_enc(l)[4 * j]);
        assert(d[off + 1] == lineage_enc(l)[4 + 4 * j + 1]);
        assert(lineage_enc(l)[4 + 4 * j + 1] == elems_enc(l)[4 * j + 1]);
        assert(d[off + 2] == lineage_enc(l)[4 + 4 * j + 2]);
        assert(lineage_enc(l)[4 + 4 * j + 2] == elems_enc(l)[4 * j + 2]);
        assert(d[off + 3] == lineage_enc(l)[4 + 4 * j + 3]);
        assert(lineage_enc(l)[4 + 4 * j + 3] == elems_enc(l)[4 * j + 3]);
        assert(d[off] == u32_be(l[j])[0]);
        assert(d[off + 1] == u32_be(l[j])[1]);
        assert(d[off + 2] == u32_be(l[j])[2]);
        assert(d[off + 3] == u32_be(l[j])[3]);
        lemma_u32_be_recompose(l[j]);
    }
    assert(Seq::new(l.len(), |j: int| be32_at(d, i + 4 + 4 * j)) =~= l);
}

/// Round trip: decoding the encoding of any lineage yields a lineage with
/// the same branch numbers (so the same `last_branch`), consuming exactly
/// the encoding.
pub proof fn lemma_lineage_roundtrip(l: Seq<u32>)
    requires
        l.len() <= u32::MAX,
    ensures
        lineage_dec(lineage_enc(l), 0) == Some((l, lineage_enc(l).len() as int)),
{
    lemma_lineage_roundtrip_at(Seq::empty(), l);
    assert(Seq::<u8>::empty() + lineage_enc(l) =~= lineage_enc(l));
}

/// Round trip: decoding the encoding of any well-formed tip yields an
/// equal tip value, consuming exactly the encoding.
pub proof fn lemma_tip_roundtrip(t: TipView)
    requires
        tip_view_wf(t),
    ensures
        tip_dec(tip_enc(t), 0) == Some((t, tip_enc(t).len() as int)),
{
    let d = tip_enc(t);
    let p = u64_be(t.height) + t.last + t.prev;
    assert(p.len() == 72);
    assert(d =~= p + lineage_enc(t.lineage));
    lemma_lineage_roundtrip_at(p, t.lineage);
    lemma_u64_be_recompose(t.height);
    assert(d[0] == u64_be(t.height)[0]);
    assert(d[1] == u64_be(t.height)[1]);
    assert(d[2] == u64_be(t.height)[2]);
    assert(d[3] == u64_be(t.height)[3]);
    assert(d[4] == u64_be(t.height)[4]);
    assert(d[5] == u64_be(t.height)[5]);
    assert(d[6] == u64_be(t.height)[6]);
    assert(d[7] == u64_be(t.height)[7]);
    assert(be64_at(d, 0) == t.height);
    assert(d.subrange(8, 40) =~= t.last);
    assert(d.subrange(40, 72) =~= t.prev);
    assert(TipView {
        height: be64_at(d, 0),
        last: d.subrange(8, 40),
        prev: d.subrange(40, 72),
        lineage: t.lineage,
    } =~= t);
}

} // verus!
