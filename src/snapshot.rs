use crate::bit_vec::{byte_bit, bytes_for, BitVec};
use crate::error::BvError;
use crate::select_support::SelectSupport;
use crate::sparse_array::SparseArray;
use crate::rank_support::popcount;
use crate::rank_support::{
    block_size,
    blocks_per_super,
    rb_table,
    rp_table,
    rs_table,
    super_block_size,
    RankSupport,
};
use std::borrow::Cow;
use vstd::bytes::{
    lemma_auto_spec_u64_to_from_le_bytes,
    spec_u16_to_le_bytes,
    spec_u64_from_le_bytes,
    spec_u64_to_le_bytes,
    u16_to_le_bytes,
    u64_from_le_bytes,
    u64_to_le_bytes,
};
use vstd::prelude::*;

verus! {

/// Snapshot kind of a rank index.
pub const RANK_SNAPSHOT: u8 = 0;

/// Snapshot kind of a select support.
pub const SELECT_SNAPSHOT: u8 = 1;

/// Snapshot kind of a sparse array.
pub const SPARSE_SNAPSHOT: u8 = 2;

/// Version of the snapshot format.
pub const SNAPSHOT_VERSION: u8 = 1;

/// The six bytes that open a snapshot: the magic `BVRS`, the version and
/// the kind.
pub open spec fn header(kind: u8) -> Seq<u8> {
    seq![0x42u8, 0x56u8, 0x52u8, 0x53u8, SNAPSHOT_VERSION, kind]
}

/// Each number as eight little-endian bytes, in order.
pub open spec fn u64s_le(xs: Seq<u64>) -> Seq<u8>
    decreases xs.len(),
{
    if xs.len() == 0 {
        Seq::empty()
    } else {
        u64s_le(xs.drop_last()) + spec_u64_to_le_bytes(xs.last())
    }
}

/// Each number as two little-endian bytes, in order.
pub open spec fn u16s_le(xs: Seq<u16>) -> Seq<u8>
    decreases xs.len(),
{
    if xs.len() == 0 {
        Seq::empty()
    } else {
        u16s_le(xs.drop_last()) + spec_u16_to_le_bytes(xs.last())
    }
}

/// The rows one after the other, each number as two little-endian bytes.
pub open spec fn rows_le16(rows: Seq<Seq<u16>>) -> Seq<u8>
    decreases rows.len(),
{
    if rows.len() == 0 {
        Seq::empty()
    } else {
        rows_le16(rows.drop_last()) + u16s_le(rows.last())
    }
}

/// The rows one after the other.
pub open spec fn rows_bytes(rows: Seq<Seq<u8>>) -> Seq<u8>
    decreases rows.len(),
{
    if rows.len() == 0 {
        Seq::empty()
    } else {
        rows_bytes(rows.drop_last()) + rows.last()
    }
}

#[verifier::opaque]
/// The snapshot of an index over `bits`: header, bit count, the bitvector's
/// bytes, the three derived sizes, then the superblock counters, the block
/// counters and the in-block table.
pub open spec fn index_snapshot(kind: u8, bits: BitVec) -> Seq<u8> {
    let n = bits.size as nat;
    header(kind) + spec_u64_to_le_bytes(bits.size as u64) + bits.bv@ + spec_u64_to_le_bytes(
        super_block_size(n) as u64,
    ) + spec_u64_to_le_bytes(block_size(n) as u64) + spec_u64_to_le_bytes(
        blocks_per_super(n) as u64,
    ) + u64s_le(rs_table(bits@)) + rows_le16(rb_table(bits@)) + rows_bytes(rp_table(n))
}

/// `p` is the start of `s`.
pub open spec fn is_prefix(p: Seq<u8>, s: Seq<u8>) -> bool {
    p.len() <= s.len() && s.take(p.len() as int) == p
}

/// What a snapshot's first bytes say: its header, its bit count and the
/// bitvector's bytes.
proof fn lemma_snapshot_front(kind: u8, b: BitVec, s: Seq<u8>)
    requires
        b.wf(),
        is_prefix(index_snapshot(kind, b), s),
    ensures
        s.len() >= 14 + b.bv@.len(),
        s.take(6) == header(kind),
        spec_u64_from_le_bytes(s.subrange(6, 14)) == b.size as u64,
        s.subrange(14, 14 + b.bv@.len() as int) == b.bv@,
{
    reveal(index_snapshot);
    lemma_auto_spec_u64_to_from_le_bytes();
    let snap = index_snapshot(kind, b);
    let front = header(kind) + spec_u64_to_le_bytes(b.size as u64) + b.bv@;
    assert forall|i: int| 0 <= i < front.len() implies s[i] == front[i] by {
        assert(s.take(snap.len() as int)[i] == s[i]);
        assert(snap[i] == front[i]);
    }
    assert(s.take(6) =~= header(kind));
    assert(s.subrange(6, 14) =~= spec_u64_to_le_bytes(b.size as u64));
    assert(s.subrange(14, 14 + b.bv@.len() as int) =~= b.bv@);
}

/// Two bitvectors with equal bytes and sizes have equal snapshots.
proof fn lemma_snapshot_same_bits(kind: u8, a: BitVec, b: BitVec)
    requires
        a.bv@ == b.bv@,
        a.size == b.size,
    ensures
        index_snapshot(kind, a) == index_snapshot(kind, b),
{
    reveal(index_snapshot);
    assert(a@ =~= b@);
}

/// A snapshot determines the bitvector it was taken of: two well-formed
/// bitvectors whose snapshots agree hold the same bytes, the same size and
/// the same bits, so every rank and select query answers alike on the index
/// loaded from a snapshot and on the index it was saved from.
pub proof fn lemma_snapshot_round_trip(kind: u8, a: BitVec, b: BitVec)
    requires
        a.wf(),
        b.wf(),
        index_snapshot(kind, a) == index_snapshot(kind, b),
    ensures
        a.bv@ == b.bv@,
        a.size == b.size,
        a@ == b@,
{
    let s = index_snapshot(kind, a);
    assert(s.take(s.len() as int) =~= s);
    lemma_snapshot_front(kind, a, s);
    lemma_snapshot_front(kind, b, s);
    assert(a@ =~= b@);
}

/// Appends the eight little-endian bytes of `x`.
fn put_u64(out: &mut Vec<u8>, x: u64)
    ensures
        final(out)@ == old(out)@ + spec_u64_to_le_bytes(x),
{
    let mut t = u64_to_le_bytes(x);
    out.append(&mut t);
}

/// The number stored in the eight little-endian bytes at `at`.
fn get_u64(bytes: &Vec<u8>, at: usize) -> (x: u64)
    requires
        at + 8 <= bytes@.len(),
    ensures
        x == spec_u64_from_le_bytes(bytes@.subrange(at as int, at + 8)),
{
    let len = bytes.len();
    assert(at + 8 <= len);
    let s = vstd::slice::slice_subrange(bytes.as_slice(), at, at + 8);
    u64_from_le_bytes(s)
}

/// The snapshot of `r` under `kind`.
pub(crate) fn index_bytes(kind: u8, r: &RankSupport) -> (out: Vec<u8>)
    requires
        r.wf(),
    ensures
        out@ == index_snapshot(kind, r.bits()),
{
    let bv = r.bit_vec();
    let ghost bits = r.bits();
    let ghost n = bits.size as nat;
    proof {
        r.lemma_tables();
    }
    let mut out: Vec<u8> = Vec::new();
    out.push(0x42);
    out.push(0x56);
    out.push(0x52);
    out.push(0x53);
    out.push(SNAPSHOT_VERSION);
    out.push(kind);
    assert(out@ =~= header(kind));
    put_u64(&mut out, bv.size as u64);
    let ghost pre = out@;
    let mut i: usize = 0;
    while i < bv.bv.len()
        invariant
            i <= bv.bv@.len(),
            out@ == pre + bv.bv@.take(i as int),
        decreases bv.bv@.len() - i,
    {
        out.push(bv.bv[i]);
        i += 1;
        assert(out@ =~= pre + bv.bv@.take(i as int));
    }
    assert(bv.bv@.take(i as int) =~= bv.bv@);
    put_u64(&mut out, r.super_block_size as u64);
    put_u64(&mut out, r.block_size as u64);
    put_u64(&mut out, r.blocks_per_super as u64);
    let ghost pre = out@;
    let mut k: usize = 0;
    while k < r.rs.len()
        invariant
            k <= r.rs@.len(),
            out@ == pre + u64s_le(r.rs@.take(k as int)),
        decreases r.rs@.len() - k,
    {
        put_u64(&mut out, r.rs[k]);
        assert(r.rs@.take(k + 1).drop_last() =~= r.rs@.take(k as int));
        k += 1;
        assert(out@ =~= pre + u64s_le(r.rs@.take(k as int)));
    }
    assert(r.rs@.take(k as int) =~= r.rs@);
    let ghost pre = out@;
    let ghost rbv = r.rb@.map_values(|row: Vec<u16>| row@);
    let mut k: usize = 0;
    while k < r.rb.len()
        invariant
            k <= r.rb@.len(),
            rbv == r.rb@.map_values(|row: Vec<u16>| row@),
            out@ == pre + rows_le16(rbv.take(k as int)),
        decreases r.rb@.len() - k,
    {
        let row = &r.rb[k];
        let ghost mid = out@;
        let mut j: usize = 0;
        while j < row.len()
            invariant
                j <= row@.len(),
                out@ == mid + u16s_le(row@.take(j as int)),
            decreases row@.len() - j,
        {
            let mut t = u16_to_le_bytes(row[j]);
            out.append(&mut t);
            assert(row@.take(j + 1).drop_last() =~= row@.take(j as int));
            j += 1;
            assert(out@ =~= mid + u16s_le(row@.take(j as int)));
        }
        assert(row@.take(j as int) =~= row@);
        assert(rbv.take(k + 1).drop_last() =~= rbv.take(k as int));
        k += 1;
        assert(out@ =~= pre + rows_le16(rbv.take(k as int)));
    }
    assert(rbv.take(k as int) =~= rbv);
    let ghost pre = out@;
    let ghost rpv = r.rp@.map_values(|row: Vec<u8>| row@);
    let mut p: usize = 0;
    while p < r.rp.len()
        invariant
            p <= r.rp@.len(),
            rpv == r.rp@.map_values(|row: Vec<u8>| row@),
            out@ == pre + rows_bytes(rpv.take(p as int)),
        decreases r.rp@.len() - p,
    {
        let row = &r.rp[p];
        let ghost mid = out@;
        let mut j: usize = 0;
        while j < row.len()
            invariant
                j <= row@.len(),
                out@ == mid + row@.take(j as int),
            decreases row@.len() - j,
        {
            out.push(row[j]);
            j += 1;
            assert(out@ =~= mid + row@.take(j as int));
        }
        assert(row@.take(j as int) =~= row@);
        assert(rpv.take(p + 1).drop_last() =~= rpv.take(p as int));
        p += 1;
        assert(out@ =~= pre + rows_bytes(rpv.take(p as int)));
    }
    assert(rpv.take(p as int) =~= rpv);
    proof {
        reveal(index_snapshot);
    }
    out
}

/// Reads the index part of a snapshot of `kind` from the front of `bytes`:
/// the index and where its part ends. `CorruptSnapshot` exactly when no
/// well-formed bitvector's snapshot starts `bytes`.
pub(crate) fn read_index(bytes: &Vec<u8>, kind: u8) -> (r: Result<
    (RankSupport<'static>, usize),
    BvError,
>)
    ensures
        match r {
            Ok((z, end)) => z.wf() && end <= bytes@.len() && bytes@.take(end as int)
                == index_snapshot(kind, z.bits()),
            Err(e) => e == BvError::CorruptSnapshot && forall|b: BitVec|
                #![trigger index_snapshot(kind, b)]
                b.wf() ==> !is_prefix(index_snapshot(kind, b), bytes@),
        },
{
    if bytes.len() < 14 || bytes[0] != 0x42 || bytes[1] != 0x56 || bytes[2] != 0x52 || bytes[3]
        != 0x53 || bytes[4] != SNAPSHOT_VERSION || bytes[5] != kind {
        proof {
            assert forall|b: BitVec| b.wf() implies !is_prefix(
                #[trigger] index_snapshot(kind, b),
                bytes@,
            ) by {
                if is_prefix(index_snapshot(kind, b), bytes@) {
                    lemma_snapshot_front(kind, b, bytes@);
                    assert(bytes@.take(6)[0] == bytes@[0]);
                }
            }
        }
        return Err(BvError::CorruptSnapshot);
    }
    let n64 = get_u64(bytes, 6);
    if n64 > usize::MAX as u64 {
        proof {
            assert forall|b: BitVec| b.wf() implies !is_prefix(
                #[trigger] index_snapshot(kind, b),
                bytes@,
            ) by {
                if is_prefix(index_snapshot(kind, b), bytes@) {
                    lemma_snapshot_front(kind, b, bytes@);
                }
            }
        }
        return Err(BvError::CorruptSnapshot);
    }
    let n = n64 as usize;
    let nb = n / 8 + if n % 8 == 0 {
        0
    } else {
        1
    };
    assert(nb == bytes_for(n as nat));
    if bytes.len() - 14 < nb {
        proof {
            assert forall|b: BitVec| b.wf() implies !is_prefix(
                #[trigger] index_snapshot(kind, b),
                bytes@,
            ) by {
                if is_prefix(index_snapshot(kind, b), bytes@) {
                    lemma_snapshot_front(kind, b, bytes@);
                }
            }
        }
        return Err(BvError::CorruptSnapshot);
    }
    let mut bv: Vec<u8> = Vec::with_capacity(nb);
    let mut i: usize = 0;
    let len = bytes.len();
    while i < nb
        invariant
            14 + nb <= bytes@.len() == len,
            i <= nb,
            bv@ == bytes@.subrange(14, 14 + i),
        decreases nb - i,
    {
        bv.push(bytes[14 + i]);
        i += 1;
        assert(bv@ =~= bytes@.subrange(14, 14 + i));
    }
    let bits = BitVec { bv, size: n };
    let lead: usize = (8 - n % 8) % 8;
    assert(lead == 8 * nb - n);
    if nb > 0 {
        let first = bits.bv[0];
        let mut j: u8 = (8 - lead) as u8;
        while j < 8
            invariant
                bits.bv@.len() == nb,
                bits.bv@ == bytes@.subrange(14, 14 + nb),
                bits.size == n,
                n64 == n,
                n64 == spec_u64_from_le_bytes(bytes@.subrange(6, 14)),
                14 + nb <= bytes@.len(),
                nb == bytes_for(n as nat),
                lead == 8 * nb - n,
                nb > 0,
                first == bits.bv@[0],
                8 - lead <= j <= 8,
                forall|t: u8| 8 - lead <= t < j ==> !#[trigger] byte_bit(first, t),
            decreases 8 - j,
        {
            if first & (1u8 << j) != 0 {
                proof {
                    assert forall|b: BitVec| b.wf() implies !is_prefix(
                        #[trigger] index_snapshot(kind, b),
                        bytes@,
                    ) by {
                        if is_prefix(index_snapshot(kind, b), bytes@) {
                            lemma_snapshot_front(kind, b, bytes@);
                            lemma_auto_spec_u64_to_from_le_bytes();
                            assert(b.size == n);
                            assert(b.bv@ == bits.bv@);
                            assert(b.lead() == lead);
                            assert(byte_bit(b.bv@[0], j));
                        }
                    }
                }
                return Err(BvError::CorruptSnapshot);
            }
            j += 1;
        }
    }
    assert(bits.wf());
    let z = RankSupport::new_with_index_computation(Cow::Owned(bits));
    let enc = index_bytes(kind, &z);
    proof {
        assert forall|b: BitVec|
            b.wf() && is_prefix(#[trigger] index_snapshot(kind, b), bytes@) implies index_snapshot(
            kind,
            b,
        ) == enc@ by {
            lemma_snapshot_front(kind, b, bytes@);
            lemma_auto_spec_u64_to_from_le_bytes();
            lemma_snapshot_same_bits(kind, b, z.bits());
        }
    }
    if enc.len() > bytes.len() {
        return Err(BvError::CorruptSnapshot);
    }
    let mut j: usize = 0;
    while j < enc.len()
        invariant
            forall|b: BitVec|
                b.wf() && is_prefix(#[trigger] index_snapshot(kind, b), bytes@) ==> index_snapshot(
                    kind,
                    b,
                ) == enc@,
            enc@.len() <= bytes@.len(),
            j <= enc@.len(),
            forall|t: int| 0 <= t < j ==> bytes@[t] == enc@[t],
        decreases enc@.len() - j,
    {
        if bytes[j] != enc[j] {
            proof {
                assert forall|b: BitVec| b.wf() implies !is_prefix(
                    #[trigger] index_snapshot(kind, b),
                    bytes@,
                ) by {
                    if is_prefix(index_snapshot(kind, b), bytes@) {
                        assert(bytes@.take(enc@.len() as int)[j as int] == bytes@[j as int]);
                    }
                }
            }
            return Err(BvError::CorruptSnapshot);
        }
        j += 1;
    }
    assert(bytes@.take(enc@.len() as int) =~= enc@);
    Ok((z, enc.len()))
}

/// Reads a whole snapshot of an index of `kind`; `CorruptSnapshot` exactly
/// when `bytes` is no well-formed bitvector's snapshot.
fn read_whole_index(bytes: &Vec<u8>, kind: u8) -> (r: Result<RankSupport<'static>, BvError>)
    ensures
        match r {
            Ok(z) => z.wf() && bytes@ == index_snapshot(kind, z.bits()),
            Err(e) => e == BvError::CorruptSnapshot && forall|b: BitVec|
                #![trigger index_snapshot(kind, b)]
                b.wf() ==> bytes@ != index_snapshot(kind, b),
        },
{
    match read_index(bytes, kind) {
        Ok((z, end)) => {
            if end != bytes.len() {
                proof {
                    assert forall|b: BitVec| b.wf() implies bytes@ != #[trigger] index_snapshot(
                        kind,
                        b,
                    ) by {
                        if bytes@ == index_snapshot(kind, b) {
                            assert(bytes@.take(bytes@.len() as int) =~= bytes@);
                            lemma_snapshot_front(kind, b, bytes@);
                            lemma_snapshot_front(kind, z.bits(), bytes@);
                            lemma_auto_spec_u64_to_from_le_bytes();
                            lemma_snapshot_same_bits(kind, b, z.bits());
                        }
                    }
                }
                return Err(BvError::CorruptSnapshot);
            }
            assert(bytes@.take(end as int) =~= bytes@);
            Ok(z)
        },
        Err(e) => {
            proof {
                assert forall|b: BitVec| b.wf() implies bytes@ != #[trigger] index_snapshot(
                    kind,
                    b,
                ) by {
                    if bytes@ == index_snapshot(kind, b) {
                        assert(bytes@.take(bytes@.len() as int) =~= bytes@);
                    }
                }
            }
            Err(e)
        },
    }
}

impl<'bv> RankSupport<'bv> {
    /// The snapshot of this index: its bitvector, derived sizes and tables.
    pub fn to_bytes(&self) -> (r: Vec<u8>)
        requires
            self.wf(),
        ensures
            r@ == index_snapshot(RANK_SNAPSHOT, self.bits()),
    {
        index_bytes(RANK_SNAPSHOT, self)
    }

    /// The index that `bytes` is the snapshot of, owning its bitvector;
    /// `CorruptSnapshot` exactly when `bytes` is no index's snapshot.
    pub fn from_bytes(bytes: &Vec<u8>) -> (r: Result<RankSupport<'static>, BvError>)
        ensures
            match r {
                Ok(z) => z.wf() && bytes@ == index_snapshot(RANK_SNAPSHOT, z.bits()),
                Err(e) => e == BvError::CorruptSnapshot && forall|b: BitVec|
                    #![trigger index_snapshot(RANK_SNAPSHOT, b)]
                    b.wf() ==> bytes@ != index_snapshot(RANK_SNAPSHOT, b),
            },
    {
        read_whole_index(bytes, RANK_SNAPSHOT)
    }
}

impl<'bv> SelectSupport<'bv> {
    /// The snapshot of the rank index under these queries.
    pub fn to_bytes(&self) -> (r: Vec<u8>)
        requires
            self.wf(),
        ensures
            r@ == index_snapshot(SELECT_SNAPSHOT, self.index().bits()),
    {
        index_bytes(SELECT_SNAPSHOT, self.rank_support())
    }

    /// Select queries over the index that `bytes` is the snapshot of;
    /// `CorruptSnapshot` exactly when `bytes` is no such snapshot.
    pub fn from_bytes(bytes: &Vec<u8>) -> (r: Result<SelectSupport<'static>, BvError>)
        ensures
            match r {
                Ok(z) => z.wf() && bytes@ == index_snapshot(SELECT_SNAPSHOT, z.index().bits()),
                Err(e) => e == BvError::CorruptSnapshot && forall|b: BitVec|
                    #![trigger index_snapshot(SELECT_SNAPSHOT, b)]
                    b.wf() ==> bytes@ != index_snapshot(SELECT_SNAPSHOT, b),
            },
    {
        match read_whole_index(bytes, SELECT_SNAPSHOT) {
            Ok(z) => Ok(SelectSupport::new(Cow::Owned(z))),
            Err(e) => Err(e),
        }
    }
}

/// One element's bytes, preceded by their count as eight little-endian bytes.
pub open spec fn frame(p: Seq<u8>) -> Seq<u8> {
    spec_u64_to_le_bytes(p.len() as u64) + p
}

/// The frames of the elements, one after the other.
pub open spec fn frames(ps: Seq<Seq<u8>>) -> Seq<u8>
    decreases ps.len(),
{
    if ps.len() == 0 {
        Seq::empty()
    } else {
        frame(ps[0]) + frames(ps.drop_first())
    }
}

/// Exactly `c` frames, read from the front of `s`, with nothing after them.
pub open spec fn parse_frames(s: Seq<u8>, c: nat) -> Option<Seq<Seq<u8>>>
    decreases c,
{
    if c == 0 {
        if s.len() == 0 {
            Some(Seq::empty())
        } else {
            None
        }
    } else if s.len() < 8 {
        None
    } else {
        let l = spec_u64_from_le_bytes(s.take(8)) as int;
        if s.len() - 8 < l {
            None
        } else {
            match parse_frames(s.skip(8 + l), (c - 1) as nat) {
                Some(rest) => Some(seq![s.subrange(8, 8 + l)] + rest),
                None => None,
            }
        }
    }
}

/// The element count and every element's length can be written.
pub open spec fn payload_ok(ps: Seq<Seq<u8>>) -> bool {
    &&& ps.len() <= u64::MAX
    &&& forall|i: int| 0 <= i < ps.len() ==> (#[trigger] ps[i]).len() <= u64::MAX
}

/// The snapshot of a sparse array with presence bits `bits` whose elements
/// are written as `payload`: the index part, the element count, then one
/// frame per element.
pub open spec fn sparse_snapshot(bits: BitVec, payload: Seq<Seq<u8>>) -> Seq<u8> {
    index_snapshot(SPARSE_SNAPSHOT, bits) + spec_u64_to_le_bytes(payload.len() as u64) + frames(
        payload,
    )
}

/// A sparse array could have been saved as `bytes`.
pub open spec fn is_sparse_snapshot(bytes: Seq<u8>) -> bool {
    exists|b: BitVec, ps: Seq<Seq<u8>>|
        #![trigger sparse_snapshot(b, ps)]
        b.wf() && ps.len() == popcount(b@) && payload_ok(ps) && bytes == sparse_snapshot(b, ps)
}

proof fn lemma_frames_push(ps: Seq<Seq<u8>>, x: Seq<u8>)
    ensures
        frames(ps.push(x)) == frames(ps) + frame(x),
    decreases ps.len(),
{
    if ps.len() == 0 {
        assert(ps.push(x).drop_first() =~= Seq::<Seq<u8>>::empty());
        assert(ps.push(x)[0] == x);
        assert(frames(Seq::<Seq<u8>>::empty()) == Seq::<u8>::empty());
        assert(frames(ps.push(x)) == frame(x) + Seq::<u8>::empty());
        assert(frames(ps.push(x)) =~= frames(ps) + frame(x));
    } else {
        lemma_frames_push(ps.drop_first(), x);
        assert(ps.push(x).drop_first() =~= ps.drop_first().push(x));
        assert(ps.push(x)[0] == ps[0]);
        let a = frame(ps[0]);
        let b = frames(ps.drop_first());
        let c = frame(x);
        assert(frames(ps.push(x)) == a + frames(ps.drop_first().push(x)));
        assert(frames(ps.push(x)) == a + (b + c));
        assert(frames(ps) == a + b);
        assert(a + (b + c) =~= (a + b) + c);
    }
}

/// Reading the frames of `ps` gives `ps` back.
proof fn lemma_parse_frames(ps: Seq<Seq<u8>>)
    requires
        payload_ok(ps),
    ensures
        parse_frames(frames(ps), ps.len()) == Some(ps),
    decreases ps.len(),
{
    lemma_auto_spec_u64_to_from_le_bytes();
    if ps.len() > 0 {
        let s = frames(ps);
        let l = ps[0].len() as int;
        assert(s.take(8) =~= spec_u64_to_le_bytes(ps[0].len() as u64));
        assert(s.skip(8 + l) =~= frames(ps.drop_first()));
        assert(s.subrange(8, 8 + l) =~= ps[0]);
        assert(payload_ok(ps.drop_first())) by {
            assert forall|i: int| 0 <= i < ps.drop_first().len() implies (
            #[trigger] ps.drop_first()[i]).len() <= u64::MAX by {
                assert(ps.drop_first()[i] == ps[i + 1]);
            }
        }
        lemma_parse_frames(ps.drop_first());
        assert(seq![ps[0]] + ps.drop_first() =~= ps);
    }
}

/// What reads as `c` frames is the frames of what was read.
proof fn lemma_parse_frames_sound(s: Seq<u8>, c: nat)
    requires
        parse_frames(s, c) is Some,
        c <= u64::MAX,
    ensures
        frames(parse_frames(s, c)->0) == s,
        parse_frames(s, c)->0.len() == c,
        payload_ok(parse_frames(s, c)->0),
    decreases c,
{
    lemma_auto_spec_u64_to_from_le_bytes();
    if c == 0 {
        assert(s =~= Seq::<u8>::empty());
    } else {
        let l = spec_u64_from_le_bytes(s.take(8)) as int;
        let rest = parse_frames(s.skip(8 + l), (c - 1) as nat)->0;
        lemma_parse_frames_sound(s.skip(8 + l), (c - 1) as nat);
        let ps = seq![s.subrange(8, 8 + l)] + rest;
        assert(ps.drop_first() =~= rest);
        assert forall|i: int| 0 <= i < ps.len() implies (#[trigger] ps[i]).len() <= u64::MAX by {
            if i > 0 {
                assert(ps[i] == rest[i - 1]);
            }
        }
        assert(spec_u64_to_le_bytes(spec_u64_from_le_bytes(s.take(8))) == s.take(8));
        assert(frames(ps) =~= s);
    }
}

/// A sparse-array snapshot determines the presence bits and the element
/// bytes it was taken of: loading what was saved gives back every position,
/// every element and so every query's answer.
pub proof fn lemma_sparse_snapshot_round_trip(
    a: BitVec,
    pa: Seq<Seq<u8>>,
    b: BitVec,
    pb: Seq<Seq<u8>>,
)
    requires
        a.wf(),
        b.wf(),
        payload_ok(pa),
        payload_ok(pb),
        sparse_snapshot(a, pa) == sparse_snapshot(b, pb),
    ensures
        a.bv@ == b.bv@,
        a.size == b.size,
        a@ == b@,
        pa == pb,
{
    let s = sparse_snapshot(a, pa);
    let ia = index_snapshot(SPARSE_SNAPSHOT, a);
    let ib = index_snapshot(SPARSE_SNAPSHOT, b);
    lemma_sparse_front(a, pa);
    lemma_sparse_front(b, pb);
    assert(a.size as u64 == b.size as u64) by {
        lemma_auto_spec_u64_to_from_le_bytes();
    }
    assert(a@ =~= b@);
    lemma_snapshot_same_bits(SPARSE_SNAPSHOT, a, b);
    assert(s.skip(ia.len() as int) =~= spec_u64_to_le_bytes(pa.len() as u64) + frames(pa));
    assert(s.skip(ib.len() as int) =~= spec_u64_to_le_bytes(pb.len() as u64) + frames(pb));
    lemma_payload_unique(pa, pb);
}

/// The index part of a sparse-array snapshot starts it.
proof fn lemma_sparse_front(b: BitVec, ps: Seq<Seq<u8>>)
    requires
        b.wf(),
    ensures
        is_prefix(index_snapshot(SPARSE_SNAPSHOT, b), sparse_snapshot(b, ps)),
        sparse_snapshot(b, ps).len() >= 14 + b.bv@.len(),
        spec_u64_from_le_bytes(sparse_snapshot(b, ps).subrange(6, 14)) == b.size as u64,
        sparse_snapshot(b, ps).subrange(14, 14 + b.bv@.len() as int) == b.bv@,
{
    let s = sparse_snapshot(b, ps);
    let ib = index_snapshot(SPARSE_SNAPSHOT, b);
    assert(s.take(ib.len() as int) =~= ib);
    lemma_snapshot_front(SPARSE_SNAPSHOT, b, s);
}

/// The count and frames after the index part name one payload.
proof fn lemma_payload_unique(pa: Seq<Seq<u8>>, pb: Seq<Seq<u8>>)
    requires
        payload_ok(pa),
        payload_ok(pb),
        spec_u64_to_le_bytes(pa.len() as u64) + frames(pa) == spec_u64_to_le_bytes(
            pb.len() as u64,
        ) + frames(pb),
    ensures
        pa == pb,
{
    lemma_auto_spec_u64_to_from_le_bytes();
    let s = spec_u64_to_le_bytes(pa.len() as u64) + frames(pa);
    assert(s.take(8) =~= spec_u64_to_le_bytes(pa.len() as u64));
    assert(s.take(8) =~= spec_u64_to_le_bytes(pb.len() as u64));
    assert(s.skip(8) =~= frames(pa));
    assert(s.skip(8) =~= frames(pb));
    lemma_parse_frames(pa);
    lemma_parse_frames(pb);
}

/// In a sparse-array snapshot whose index part is `z`'s, the count after it
/// is `z`'s popcount and the rest reads as that many frames.
proof fn lemma_expected_parse(bytes: Seq<u8>, z: BitVec, end: int)
    requires
        z.wf(),
        0 <= end <= bytes.len(),
        bytes.take(end) == index_snapshot(SPARSE_SNAPSHOT, z),
        is_sparse_snapshot(bytes),
    ensures
        end + 8 <= bytes.len(),
        spec_u64_from_le_bytes(bytes.subrange(end, end + 8)) == popcount(z@),
        parse_frames(bytes.skip(end + 8), popcount(z@)) is Some,
{
    let (b, ps) = choose|b: BitVec, ps: Seq<Seq<u8>>|
        b.wf() && ps.len() == popcount(b@) && payload_ok(ps) && bytes == sparse_snapshot(b, ps);
    lemma_sparse_front(b, ps);
    lemma_snapshot_front(SPARSE_SNAPSHOT, z, bytes);
    assert(b.size as u64 == z.size as u64) by {
        lemma_auto_spec_u64_to_from_le_bytes();
    }
    assert(b@ =~= z@);
    lemma_snapshot_same_bits(SPARSE_SNAPSHOT, b, z);
    lemma_auto_spec_u64_to_from_le_bytes();
    let ib = index_snapshot(SPARSE_SNAPSHOT, b);
    assert(end == ib.len());
    assert(bytes.subrange(end, end + 8) =~= spec_u64_to_le_bytes(ps.len() as u64));
    assert(bytes.skip(end + 8) =~= frames(ps));
    lemma_parse_frames(ps);
}

/// Reads `count` frames from position `start` to the end of `bytes`, as
/// `parse_frames` reads them.
fn read_frames(bytes: &Vec<u8>, start: usize, count: u64) -> (r: Option<Vec<Vec<u8>>>)
    requires
        start <= bytes@.len(),
    ensures
        match r {
            Some(v) => parse_frames(bytes@.skip(start as int), count as nat) == Some(
                v@.map_values(|e: Vec<u8>| e@),
            ),
            None => parse_frames(bytes@.skip(start as int), count as nat) is None,
        },
{
    let ghost tail = bytes@.skip(start as int);
    let len = bytes.len();
    let mut pos = start;
    let mut vals: Vec<Vec<u8>> = Vec::new();
    let mut k: u64 = 0;
    while k < count
        invariant
            len == bytes@.len(),
            start <= pos <= len,
            k <= count,
            tail == bytes@.skip(start as int),
            parse_frames(tail, count as nat) == match parse_frames(
                bytes@.skip(pos as int),
                (count - k) as nat,
            ) {
                Some(rest) => Some(vals@.map_values(|e: Vec<u8>| e@) + rest),
                None => None,
            },
        decreases count - k,
    {
        let ghost rem = bytes@.skip(pos as int);
        if len - pos < 8 {
            return None;
        }
        let l = get_u64(bytes, pos);
        assert(rem.take(8) =~= bytes@.subrange(pos as int, pos + 8));
        if ((len - pos - 8) as u64) < l {
            return None;
        }
        let l = l as usize;
        let mut e: Vec<u8> = Vec::with_capacity(l);
        let mut t: usize = 0;
        while t < l
            invariant
                len == bytes@.len(),
                pos + 8 + l <= len,
                t <= l,
                e@ == bytes@.subrange(pos + 8, pos + 8 + t),
            decreases l - t,
        {
            e.push(bytes[pos + 8 + t]);
            t += 1;
            assert(e@ =~= bytes@.subrange(pos + 8, pos + 8 + t));
        }
        proof {
            assert(rem.subrange(8, 8 + l) =~= e@);
            assert(rem.skip(8 + l) =~= bytes@.skip(pos + 8 + l));
            let ghost before = vals@.map_values(|x: Vec<u8>| x@);
            assert(vals@.push(e).map_values(|x: Vec<u8>| x@) =~= before.push(e@));
            match parse_frames(bytes@.skip(pos + 8 + l), (count - k - 1) as nat) {
                Some(rest) => {
                    assert(before + (seq![e@] + rest) =~= before.push(e@) + rest);
                },
                None => {},
            }
        }
        vals.push(e);
        pos = pos + 8 + l;
        k += 1;
    }
    if pos != len {
        return None;
    }
    proof {
        assert(bytes@.skip(pos as int) =~= Seq::<u8>::empty());
        let vv = vals@.map_values(|e: Vec<u8>| e@);
        assert(vv + Seq::<Seq<u8>>::empty() =~= vv);
    }
    Some(vals)
}

impl<'bv, T> SparseArray<'bv, T> {
    /// The snapshot of this array, with `payload[k]` written for its `k`-th
    /// element.
    pub fn to_bytes(&self, payload: &Vec<Vec<u8>>) -> (r: Vec<u8>)
        requires
            self.wf(),
            payload@.len() == self@.1.len(),
        ensures
            r@ == sparse_snapshot(self.bitvector(), payload@.map_values(|e: Vec<u8>| e@)),
    {
        let mut out = index_bytes(SPARSE_SNAPSHOT, self.s.rank_support());
        put_u64(&mut out, payload.len() as u64);
        let ghost pre = out@;
        let ghost pv = payload@.map_values(|e: Vec<u8>| e@);
        let mut k: usize = 0;
        while k < payload.len()
            invariant
                k <= payload@.len(),
                pv == payload@.map_values(|e: Vec<u8>| e@),
                out@ == pre + frames(pv.take(k as int)),
            decreases payload@.len() - k,
        {
            let e = &payload[k];
            put_u64(&mut out, e.len() as u64);
            let ghost mid = out@;
            let mut j: usize = 0;
            while j < e.len()
                invariant
                    j <= e@.len(),
                    out@ == mid + e@.take(j as int),
                decreases e@.len() - j,
            {
                out.push(e[j]);
                j += 1;
                assert(out@ =~= mid + e@.take(j as int));
            }
            proof {
                assert(e@.take(j as int) =~= e@);
                assert(pv.take(k + 1) =~= pv.take(k as int).push(e@));
                lemma_frames_push(pv.take(k as int), e@);
            }
            k += 1;
            assert(out@ =~= pre + frames(pv.take(k as int)));
        }
        assert(pv.take(k as int) =~= pv);
        out
    }

    /// The sparse array that `bytes` is the snapshot of, holding each
    /// element's bytes; `CorruptSnapshot` exactly when `bytes` is no sparse
    /// array's snapshot.
    pub fn from_bytes(bytes: &Vec<u8>) -> (r: Result<SparseArray<'static, Vec<u8>>, BvError>)
        ensures
            match r {
                Ok(a) => a.wf() && bytes@ == sparse_snapshot(
                    a.bitvector(),
                    a@.1.map_values(|e: Vec<u8>| e@),
                ),
                Err(e) => e == BvError::CorruptSnapshot && !is_sparse_snapshot(bytes@),
            },
    {
        let (z, end) = match read_index(bytes, SPARSE_SNAPSHOT) {
            Ok(p) => p,
            Err(e) => {
                proof {
                    if is_sparse_snapshot(bytes@) {
                        let (b, ps) = choose|b: BitVec, ps: Seq<Seq<u8>>|
                            b.wf() && ps.len() == popcount(b@) && payload_ok(ps) && bytes@
                                == sparse_snapshot(b, ps);
                        let ib = index_snapshot(SPARSE_SNAPSHOT, b);
                        assert(bytes@.take(ib.len() as int) =~= ib);
                    }
                }
                return Err(e);
            },
        };
        let ghost tail = bytes@.skip(end + 8);
        let ghost expected = is_sparse_snapshot(bytes@);
        proof {
            if expected {
                lemma_expected_parse(bytes@, z.bits(), end as int);
            }
        }
        if bytes.len() - end < 8 {
            return Err(BvError::CorruptSnapshot);
        }
        let count = get_u64(bytes, end);
        let n = z.bit_vec().size;
        let pop: u64 = if n == 0 {
            0
        } else {
            z.rank1((n - 1) as u64)
        };
        proof {
            crate::rank_support::lemma_ones_past_end(z@, n as int);
        }
        if count != pop {
            return Err(BvError::CorruptSnapshot);
        }
        let vals = match read_frames(bytes, end + 8, count) {
            Some(v) => v,
            None => {
                return Err(BvError::CorruptSnapshot);
            },
        };
        proof {
            let vv = vals@.map_values(|e: Vec<u8>| e@);
            lemma_parse_frames_sound(tail, count as nat);
            assert(bytes@.subrange(end as int, end + 8) =~= spec_u64_to_le_bytes(vv.len() as u64))
                by {
                lemma_auto_spec_u64_to_from_le_bytes();
                assert(spec_u64_to_le_bytes(spec_u64_from_le_bytes(
                    bytes@.subrange(end as int, end + 8),
                )) == bytes@.subrange(end as int, end + 8));
            }
            assert(bytes@ =~= bytes@.take(end as int) + bytes@.subrange(end as int, end + 8)
                + tail);
        }
        let sel = SelectSupport::new(Cow::Owned(z));
        let a = SparseArray { s: sel, v: vals };
        proof {
            a.lemma_view();
        }
        Ok(a)
    }
}

} // verus!
