use vstd::arithmetic::power2::{lemma2_to64, lemma_pow2_unfold, pow2};
use crate::error::BvError;
use vstd::prelude::*;

verus! {

/// Big-endian value of a bit sequence: the first bit is the most significant.
pub open spec fn bits_value(s: Seq<bool>) -> nat
    decreases s.len(),
{
    if s.len() == 0 {
        0
    } else {
        2 * bits_value(s.drop_last()) + if s.last() {
            1nat
        } else {
            0nat
        }
    }
}

/// The low `w` bits of `v`, most significant first.
pub open spec fn bits_of(v: nat, w: nat) -> Seq<bool>
    decreases w,
{
    if w == 0 {
        Seq::empty()
    } else {
        bits_of(v / 2, (w - 1) as nat).push(v % 2 == 1)
    }
}

/// Bits `l .. r` of `s`, where a position past the end reads as `false`.
pub open spec fn window(s: Seq<bool>, l: int, r: int) -> Seq<bool> {
    Seq::new((r - l) as nat, |t: int| l + t < s.len() && s[l + t])
}

/// `v` shifted right by `k` bits.
pub open spec fn shr(v: nat, k: nat) -> nat
    decreases k,
{
    if k == 0 {
        v
    } else {
        shr(v / 2, (k - 1) as nat)
    }
}

/// Writing `w` bits gives `w` bits.
pub proof fn lemma_bits_of_len(v: nat, w: nat)
    ensures
        bits_of(v, w).len() == w,
    decreases w,
{
    if w > 0 {
        lemma_bits_of_len(v / 2, (w - 1) as nat);
    }
}

/// Reading a bit sequence as a number and writing it back gives the sequence.
pub proof fn lemma_bits_of_value(s: Seq<bool>)
    ensures
        bits_of(bits_value(s), s.len()) == s,
    decreases s.len(),
{
    if s.len() > 0 {
        let v = bits_value(s);
        let b: nat = if s.last() { 1 } else { 0 };
        assert(v / 2 == bits_value(s.drop_last()));
        assert(v % 2 == b);
        lemma_bits_of_value(s.drop_last());
        assert(bits_of(v, s.len()) =~= s);
    }
}

/// A sequence of `w` bits has a value below `2^w`.
pub proof fn lemma_bits_value_bound(s: Seq<bool>)
    ensures
        bits_value(s) < pow2(s.len()),
    decreases s.len(),
{
    if s.len() > 0 {
        lemma_bits_value_bound(s.drop_last());
        lemma_pow2_unfold(s.len());
    } else {
        lemma2_to64();
    }
}

/// An extract with equal ends holds no bits and reads as zero.
pub proof fn lemma_extract_empty(s: Seq<bool>, l: int)
    ensures
        window(s, l, l).len() == 0,
        bits_value(window(s, l, l)) == 0,
{
}

/// Zero reads back as zero in any width.
proof fn lemma_bits_of_zero(w: nat)
    ensures
        bits_value(bits_of(0, w)) == 0,
    decreases w,
{
    if w > 0 {
        lemma_bits_of_zero((w - 1) as nat);
        assert(bits_of(0, w).drop_last() =~= bits_of(0, (w - 1) as nat));
    }
}

/// One written in `w` bits reads back as one, or as zero in no bits.
proof fn lemma_bits_of_one(w: nat)
    ensures
        bits_value(bits_of(1, w)) == if w == 0 {
            0nat
        } else {
            1nat
        },
{
    if w > 0 {
        lemma_bits_of_zero((w - 1) as nat);
        assert(bits_of(1, w).drop_last() =~= bits_of(0, (w - 1) as nat));
    }
}

/// Halving commutes with shifting.
proof fn lemma_shr_half(v: nat, k: nat)
    ensures
        shr(v, k) / 2 == shr(v / 2, k),
        shr(v, k + 1) == shr(v / 2, k),
    decreases k,
{
    if k > 0 {
        lemma_shr_half(v / 2, (k - 1) as nat);
    }
}

/// Writing `k + 1` low bits is writing bit `k` in front of the `k` below it.
proof fn lemma_bits_of_front(v: nat, k: nat)
    ensures
        bits_of(v, k + 1) == seq![shr(v, k) % 2 == 1] + bits_of(v, k),
    decreases k,
{
    if k > 0 {
        lemma_bits_of_front(v / 2, (k - 1) as nat);
        assert(bits_of(v, k + 1) =~= seq![shr(v, k) % 2 == 1] + bits_of(v, k));
    } else {
        assert(bits_of(v / 2, 0) == Seq::<bool>::empty());
        assert(bits_of(v, 1) =~= seq![shr(v, 0) % 2 == 1] + bits_of(v, 0));
    }
}

/// Number of bytes needed to hold `bits` bits.
pub open spec fn bytes_for(bits: nat) -> nat {
    (bits + 7) / 8
}

/// Whether bit `k` (counted from the least significant end) of `b` is set.
pub open spec fn byte_bit(b: u8, k: u8) -> bool {
    b & (1u8 << k) != 0
}

/// A length counted in bytes.
#[derive(Debug, Copy, Clone, PartialEq, Eq, Structural, PartialOrd, Ord)]
pub struct ByteSize(pub usize);

impl From<BitVecSize> for ByteSize {
    /// The bytes needed for that many bits.
    fn from(b: BitVecSize) -> ByteSize {
        let u = b.0;
        ByteSize(u / 8 + if u % 8 == 0 {
            0
        } else {
            1
        })
    }
}

impl vstd::std_specs::convert::FromSpecImpl<BitVecSize> for ByteSize {
    open spec fn obeys_from_spec() -> bool {
        true
    }

    open spec fn from_spec(b: BitVecSize) -> ByteSize {
        ByteSize(bytes_for(b.0 as nat) as usize)
    }
}

impl ByteSize {
    pub fn to_usize(&self) -> (r: usize)
        ensures
            r == self.0,
    {
        self.0
    }

    pub fn to_u64(&self) -> (r: u64)
        ensures
            r == self.0,
    {
        self.0 as u64
    }
}

/// A length counted in bits.
#[derive(Debug, Copy, Clone, PartialEq, Eq, Structural, PartialOrd, Ord)]
pub struct BitVecSize(pub usize);

impl From<ByteSize> for BitVecSize {
    /// The bits in that many bytes, or `usize::MAX` where they do not fit.
    fn from(b: ByteSize) -> BitVecSize {
        let u = b.0;
        if u <= usize::MAX / 8 {
            BitVecSize(u * 8)
        } else {
            BitVecSize(usize::MAX)
        }
    }
}

impl vstd::std_specs::convert::FromSpecImpl<ByteSize> for BitVecSize {
    open spec fn obeys_from_spec() -> bool {
        true
    }

    open spec fn from_spec(b: ByteSize) -> BitVecSize {
        if b.0 <= usize::MAX / 8 {
            BitVecSize((b.0 * 8) as usize)
        } else {
            BitVecSize(usize::MAX)
        }
    }
}

impl BitVecSize {
    pub fn to_usize(&self) -> (r: usize)
        ensures
            r == self.0,
    {
        self.0
    }

    pub fn to_u64(&self) -> (r: u64)
        ensures
            r == self.0,
    {
        self.0 as u64
    }
}

/// A bitvector of `size` bits packed big-endian into `bv`.
///
/// The bits form one big-endian number right-aligned in the bytes: bit 0 is
/// the most significant of the `size` bits, and the unused bits, if any, are
/// the high bits of the first byte.
#[derive(Debug, Clone, PartialEq, Eq, PartialOrd, Ord)]
pub struct BitVec {
    pub bv: Vec<u8>,
    pub size: usize,
}

impl BitVec {
    /// The bytes hold exactly the bits, with fewer than eight to spare.
    pub open spec fn wf(&self) -> bool {
        &&& self.bv@.len() == bytes_for(self.size as nat)
        &&& self.padding_clear()
    }

    /// The unused bits at the front of the first byte are zero.
    pub open spec fn padding_clear(&self) -> bool {
        forall|j: u8| 8 - self.lead() <= j < 8 ==> !#[trigger] byte_bit(self.bv@[0], j)
    }

    /// Number of unused bits at the front of the first byte.
    pub open spec fn lead(&self) -> int {
        8 * self.bv@.len() - self.size
    }

    /// Bit `i` as it is stored.
    pub open spec fn bit(&self, i: int) -> bool {
        let q = i + self.lead();
        byte_bit(self.bv@[q / 8], (7 - q % 8) as u8)
    }
}

impl BitVec {
    /// The bytes spell the number that the bits spell.
    pub proof fn lemma_bytes_spell_bits(&self)
        requires
            self.wf(),
        ensures
            bytes_value(self.bv@) == bits_value(self@),
    {
        assert(self@ =~= bytes_bits(self.bv@, self.lead()));
        lemma_bytes_bits_value(self.bv@, self.lead());
    }
}

impl View for BitVec {
    type V = Seq<bool>;

    open spec fn view(&self) -> Seq<bool> {
        Seq::new(self.size as nat, |i: int| self.bit(i))
    }
}

/// Setting bit `k` of a byte sets that bit and keeps the others.
proof fn lemma_or_bit(b: u8, k: u8, j: u8)
    requires
        k < 8,
        j < 8,
    ensures
        byte_bit(b | (1u8 << k), j) == (j == k || byte_bit(b, j)),
{
    assert((b | (1u8 << k)) & (1u8 << j) != 0 <==> (j == k || b & (1u8 << j) != 0)) by (bit_vector)
        requires
            k < 8,
            j < 8,
    ;
}

/// Big-endian value of a byte sequence: the first byte is the most
/// significant.
pub open spec fn bytes_value(bs: Seq<u8>) -> nat
    decreases bs.len(),
{
    if bs.len() == 0 {
        0
    } else {
        256 * bytes_value(bs.drop_last()) + bs.last() as nat
    }
}

/// The bits of `bs` after skipping `lead` of them, most significant first.
pub open spec fn bytes_bits(bs: Seq<u8>, lead: int) -> Seq<bool> {
    Seq::new(
        (8 * bs.len() - lead) as nat,
        |i: int| byte_bit(bs[(i + lead) / 8], (7 - (i + lead) % 8) as u8),
    )
}

/// Writing the low `w` bits of `v` and reading them back gives `v` modulo
/// `2^w`.
pub proof fn lemma_bits_of_mod(v: nat, w: nat)
    ensures
        bits_value(bits_of(v, w)) == v % pow2(w),
    decreases w,
{
    if w == 0 {
        lemma2_to64();
    } else {
        lemma_bits_of_mod(v / 2, (w - 1) as nat);
        lemma_pow2_unfold(w);
        vstd::arithmetic::power2::lemma_pow2_pos((w - 1) as nat);
        vstd::arithmetic::div_mod::lemma_mod_breakdown(v as int, 2, pow2((w - 1) as nat) as int);
        assert(bits_of(v, w).drop_last() =~= bits_of(v / 2, (w - 1) as nat));
    }
}

/// Bits of a byte seen through its half.
proof fn lemma_byte_half(x: u8, j: u8)
    requires
        j < 7,
    ensures
        byte_bit(x, (j + 1) as u8) == byte_bit(x / 2, j),
        !byte_bit(x / 2, 7),
        byte_bit(x, 0) == (x % 2 == 1),
{
    assert((x & (1u8 << ((j + 1) as u8))) != 0 <==> ((x / 2) & (1u8 << j)) != 0) by (bit_vector)
        requires
            j < 7,
    ;
    assert((x / 2) & (1u8 << 7u8) == 0) by (bit_vector);
    assert((x & (1u8 << 0u8) != 0) <==> (x % 2 == 1)) by (bit_vector);
}

/// A byte with no bit set is zero.
proof fn lemma_no_bit_zero(x: u8)
    requires
        forall|j: u8| j < 8 ==> !#[trigger] byte_bit(x, j),
    ensures
        x == 0,
{
    assert(!byte_bit(x, 0) && !byte_bit(x, 1) && !byte_bit(x, 2) && !byte_bit(x, 3) && !byte_bit(
        x,
        4,
    ) && !byte_bit(x, 5) && !byte_bit(x, 6) && !byte_bit(x, 7));
    assert(x & (1u8 << 0u8) == 0 && x & (1u8 << 1u8) == 0 && x & (1u8 << 2u8) == 0 && x & (1u8
        << 3u8) == 0 && x & (1u8 << 4u8) == 0 && x & (1u8 << 5u8) == 0 && x & (1u8 << 6u8) == 0
        && x & (1u8 << 7u8) == 0 ==> x == 0) by (bit_vector);
}

/// The low `k` bits of a byte whose higher bits are clear spell its value.
proof fn lemma_low_bits_value(x: u8, k: nat)
    requires
        k <= 8,
        forall|j: u8| k <= j < 8 ==> !#[trigger] byte_bit(x, j),
    ensures
        bits_value(Seq::new(k, |t: int| byte_bit(x, (k - 1 - t) as u8))) == x,
    decreases k,
{
    let s = Seq::new(k, |t: int| byte_bit(x, (k - 1 - t) as u8));
    if k == 0 {
        lemma_no_bit_zero(x);
    } else {
        let h = x / 2;
        assert forall|j: u8| k - 1 <= j < 8 implies !#[trigger] byte_bit(h, j) by {
            if j < 7 {
                lemma_byte_half(x, j);
            } else {
                lemma_byte_half(x, 0);
            }
        }
        lemma_low_bits_value(h, (k - 1) as nat);
        let t = Seq::new((k - 1) as nat, |u: int| byte_bit(h, (k - 2 - u) as u8));
        assert forall|u: int| 0 <= u < k - 1 implies s.drop_last()[u] == t[u] by {
            lemma_byte_half(x, (k - 2 - u) as u8);
        }
        assert(s.drop_last() =~= t);
        lemma_byte_half(x, 0);
    }
}

/// The value of two bit sequences one after the other.
proof fn lemma_bits_value_append(a: Seq<bool>, b: Seq<bool>)
    ensures
        bits_value(a + b) == bits_value(a) * pow2(b.len()) + bits_value(b),
    decreases b.len(),
{
    if b.len() == 0 {
        assert(a + b =~= a);
        lemma2_to64();
    } else {
        lemma_bits_value_append(a, b.drop_last());
        assert((a + b).drop_last() =~= a + b.drop_last());
        lemma_pow2_unfold(b.len());
        let p = pow2((b.len() - 1) as nat);
        let va = bits_value(a);
        let vb = bits_value(b.drop_last());
        assert(2 * (va * p + vb) == va * (2 * p) + 2 * vb) by (nonlinear_arith);
    }
}

/// Bytes whose skipped bits are clear spell the number their remaining bits
/// spell.
proof fn lemma_bytes_bits_value(bs: Seq<u8>, lead: int)
    requires
        0 <= lead < 8,
        lead <= 8 * bs.len(),
        bs.len() > 0 ==> forall|j: u8| 8 - lead <= j < 8 ==> !#[trigger] byte_bit(bs[0], j),
    ensures
        bits_value(bytes_bits(bs, lead)) == bytes_value(bs),
    decreases bs.len(),
{
    let all = bytes_bits(bs, lead);
    if bs.len() == 0 {
        assert(all.len() == 0);
    } else if bs.len() == 1 {
        let k = (8 - lead) as nat;
        let x = bs[0];
        assert(all =~= Seq::new(k, |t: int| byte_bit(x, (k - 1 - t) as u8)));
        lemma_low_bits_value(x, k);
        assert(bytes_value(bs.drop_last()) == 0);
    } else {
        let init = bs.drop_last();
        let x = bs.last();
        let tail = Seq::new(8, |t: int| byte_bit(x, (7 - t) as u8));
        assert forall|i: int| 0 <= i < all.len() implies all[i] == (bytes_bits(init, lead)
            + tail)[i] by {
            if i >= 8 * init.len() - lead {
                let t = i - (8 * init.len() - lead);
                assert((i + lead) / 8 == init.len() && (i + lead) % 8 == t);
            } else {
                assert((i + lead) / 8 < init.len());
            }
        }
        assert(all =~= bytes_bits(init, lead) + tail);
        assert(init[0] == bs[0]);
        lemma_bytes_bits_value(init, lead);
        lemma_bits_value_append(bytes_bits(init, lead), tail);
        lemma_low_bits_value(x, 8);
        assert(tail =~= Seq::new(8, |t: int| byte_bit(x, (8 - 1 - t) as u8)));
        lemma2_to64();
        assert(bits_value(all) == bytes_value(init) * 256 + x);
    }
}

/// Clearing bit `k` of a byte clears that bit and keeps the others.
proof fn lemma_clear_bit(b: u8, k: u8, j: u8)
    requires
        k < 8,
        j < 8,
    ensures
        byte_bit(b & !(1u8 << k), j) == (j != k && byte_bit(b, j)),
{
    assert((b & !(1u8 << k)) & (1u8 << j) != 0 <==> (j != k && b & (1u8 << j) != 0))
        by (bit_vector)
        requires
            k < 8,
            j < 8,
    ;
}

/// No bit of a zero byte is set.
proof fn lemma_zero_bit(k: u8)
    requires
        k < 8,
    ensures
        !byte_bit(0, k),
{
    assert(0u8 & (1u8 << k) == 0) by (bit_vector)
        requires
            k < 8,
    ;
}

/// Byte and bit of a position shifted by the unused bits of the first byte.
proof fn lemma_locate(i: int, lead: int)
    requires
        0 <= i,
        0 <= lead < 8,
    ensures
        (i + lead) / 8 == i / 8 + (i % 8 + lead) / 8,
        (i + lead) % 8 == (i % 8 + lead) % 8,
{
}

impl BitVec {
    /// A vector of `size` zero bits.
    pub fn new(size: usize) -> (r: Self)
        ensures
            r.wf(),
            r.size == size,
            r@ == Seq::new(size as nat, |i: int| false),
    {
        BitVec::new_with_zeros(size)
    }

    /// A vector of `size` zero bits.
    pub fn new_with_zeros(size: usize) -> (r: Self)
        ensures
            r.wf(),
            r.size == size,
            r@ == Seq::new(size as nat, |i: int| false),
            r.bv@ == Seq::new(bytes_for(size as nat), |i: int| 0u8),
    {
        let byte_size = ByteSize::from(BitVecSize(size));
        let n = byte_size.to_usize();
        let mut bv: Vec<u8> = Vec::with_capacity(n);
        let mut k: usize = 0;
        while k < n
            invariant
                k <= n,
                bv@ == Seq::new(k as nat, |t: int| 0u8),
            decreases n - k,
        {
            bv.push(0);
            k += 1;
            assert(bv@ =~= Seq::new(k as nat, |t: int| 0u8));
        }
        let r = BitVec { bv, size };
        proof {
            assert forall|j: u8| 8 - r.lead() <= j < 8 implies !#[trigger] byte_bit(r.bv@[0], j) by {
                lemma_zero_bit(j);
            }
            assert forall|i: int| 0 <= i < size implies !r.bit(i) by {
                let q = i + r.lead();
                lemma_zero_bit((7 - q % 8) as u8);
            }
            assert(r@ =~= Seq::new(size as nat, |i: int| false));
        }
        r
    }

    /// The bits of the bytes of `vec`, eight to a byte, first byte first.
    pub fn new_with_vec(vec: Vec<u8>) -> (r: Self)
        requires
            vec@.len() <= usize::MAX / 8,
        ensures
            r.wf(),
            r.bv@ == vec@,
            r.size == 8 * vec@.len(),
            r.lead() == 0,
    {
        let size = BitVecSize::from(ByteSize(vec.len())).to_usize();
        let bv = vec;
        BitVec { bv, size }
    }

    /// A copy that owns its bytes.
    pub fn duplicate(&self) -> (r: BitVec)
        ensures
            r.bv@ == self.bv@,
            r.size == self.size,
            r.wf() == self.wf(),
            r@ == self@,
    {
        let bv = self.bv.clone();
        assert(bv@ =~= self.bv@);
        let r = BitVec { bv, size: self.size };
        assert(r@ =~= self@);
        r
    }

    fn lead_exec(&self) -> (r: usize)
        requires
            self.bv@.len() == bytes_for(self.size as nat),
        ensures
            r == self.lead(),
            r < 8,
    {
        (8 - self.size % 8) % 8
    }

    /// Bit `i`, or `false` when `i` is past the end.
    pub fn get(&self, i: usize) -> (r: bool)
        requires
            self.wf(),
        ensures
            r == (i < self.size && self@[i as int]),
    {
        self.get_bool(i)
    }

    fn get_bool(&self, i: usize) -> (r: bool)
        requires
            self.wf(),
        ensures
            r == (i < self.size && self@[i as int]),
    {
        if i >= self.size {
            return false;
        }
        let lead = self.lead_exec();
        proof {
            lemma_locate(i as int, lead as int);
        }
        let byte = i / 8 + (i % 8 + lead) / 8;
        let pos = (7 - (i % 8 + lead) % 8) as u8;
        self.bv[byte] & (1u8 << pos) != 0
    }

    /// Bit `i` as a number, `0` past the end.
    pub fn get_u8(&self, i: usize) -> (r: u8)
        requires
            self.wf(),
        ensures
            r == if i < self.size && self@[i as int] {
                1u8
            } else {
                0u8
            },
    {
        if self.get_bool(i) {
            1
        } else {
            0
        }
    }

    /// Sets bit `i` to one; a position past the end is left alone.
    pub fn set(&mut self, i: usize)
        requires
            old(self).wf(),
        ensures
            final(self).wf(),
            final(self).size == old(self).size,
            final(self)@ == if i < old(self).size {
                old(self)@.update(i as int, true)
            } else {
                old(self)@
            },
    {
        self.set_bool(i);
    }

    pub(crate) fn set_bool(&mut self, i: usize)
        requires
            old(self).wf(),
        ensures
            final(self).wf(),
            final(self).size == old(self).size,
            final(self)@ == if i < old(self).size {
                old(self)@.update(i as int, true)
            } else {
                old(self)@
            },
    {
        if i >= self.size {
            return;
        }
        let lead = self.lead_exec();
        proof {
            lemma_locate(i as int, lead as int);
        }
        let byte = i / 8 + (i % 8 + lead) / 8;
        let pos = (7 - (i % 8 + lead) % 8) as u8;
        let b = self.bv[byte];
        self.bv.set(byte, b | (1u8 << pos));
        proof {
            let qi = i + lead;
            if byte == 0 {
                assert forall|j: u8| 8 - self.lead() <= j < 8 implies !#[trigger] byte_bit(
                    self.bv@[0],
                    j,
                ) by {
                    lemma_or_bit(b, pos, j);
                    assert(!byte_bit(old(self).bv@[0], j));
                }
            }
            assert forall|j: int| 0 <= j < self.size implies self.bit(j) == (j == i || old(
                self,
            ).bit(j)) by {
                let qj = j + self.lead();
                if qj / 8 == byte {
                    lemma_or_bit(b, pos, (7 - qj % 8) as u8);
                }
            }
            assert(self@ =~= old(self)@.update(i as int, true));
        }
    }
}

impl BitVec {
    /// Bits `left .. right` as a vector of their own, where a position past the
    /// end reads as zero; `OutOfOrderExtract` when `left > right`.
    pub fn extract(&self, left: usize, right: usize) -> (r: Result<BitVec, BvError>)
        requires
            self.wf(),
        ensures
            left <= right ==> (r matches Ok(e) && e.wf() && e@ == window(
                self@,
                left as int,
                right as int,
            )),
            left > right ==> r == Err::<BitVec, BvError>(BvError::OutOfOrderExtract),
    {
        if left > right {
            return Err(BvError::OutOfOrderExtract);
        }
        let w = right - left;
        let mut out = BitVec::new_with_zeros(w);
        let mut t: usize = 0;
        while t < w
            invariant
                t <= w == right - left,
                self.wf(),
                out.wf(),
                out.size == w,
                forall|u: int| 0 <= u < t ==> out@[u] == window(self@, left as int, right as int)[u],
                forall|u: int| t <= u < w ==> !out@[u],
            decreases w - t,
        {
            if self.get(left + t) {
                out.set(t);
            }
            t += 1;
        }
        assert(out@ =~= window(self@, left as int, right as int));
        Ok(out)
    }

    /// The big-endian number that the bits spell.
    pub fn to_u64(&self) -> (r: u64)
        requires
            self.wf(),
            self.size <= 64,
        ensures
            r == bits_value(self@),
            r == bytes_value(self.bv@),
    {
        proof {
            self.lemma_bytes_spell_bits();
        }
        let mut val: u64 = 0;
        let mut i: usize = 0;
        while i < self.size
            invariant
                i <= self.size <= 64,
                self.wf(),
                val == bits_value(self@.take(i as int)),
            decreases self.size - i,
        {
            proof {
                lemma_bits_value_bound(self@.take(i as int));
                lemma_bits_value_bound(self@.take(i + 1));
                if i + 1 < 64 {
                    vstd::arithmetic::power2::lemma_pow2_strictly_increases((i + 1) as nat, 64);
                }
                lemma2_to64();
                assert(self@.take(i + 1).drop_last() =~= self@.take(i as int));
            }
            let bit: u64 = if self.get(i) {
                1
            } else {
                0
            };
            val = 2 * val + bit;
            i += 1;
        }
        assert(self@.take(i as int) =~= self@);
        val
    }

    /// The low `size` bits of `u` as a vector, most significant first.
    pub fn from_u64(u: u64, size: usize) -> (r: Self)
        requires
            size <= 64,
        ensures
            r.wf(),
            r.size == size,
            r@ == bits_of(u as nat, size as nat),
            r.bv@.len() == bytes_for(size as nat),
            bytes_value(r.bv@) == u as nat % pow2(size as nat),
    {
        let mut out = BitVec::new_with_zeros(size);
        let mut v: u64 = u;
        let mut k: usize = 0;
        while k < size
            invariant
                k <= size <= 64,
                out.wf(),
                out.size == size,
                v == shr(u as nat, k as nat),
                out@.subrange(size - k, size as int) == bits_of(u as nat, k as nat),
                forall|t: int| 0 <= t < size - k ==> !out@[t],
            decreases size - k,
        {
            proof {
                lemma_bits_of_front(u as nat, k as nat);
                lemma_shr_half(u as nat, k as nat);
                lemma_bits_of_len(u as nat, k as nat);
                lemma_bits_of_len(u as nat, (k + 1) as nat);
            }
            let pos = size - 1 - k;
            let ghost before = out@;
            if v % 2 == 1 {
                out.set(pos);
            }
            v = v / 2;
            k += 1;
            assert(out@.subrange(size - k, size as int) =~= seq![before[pos as int] || shr(
                u as nat,
                (k - 1) as nat,
            ) % 2 == 1] + before.subrange(size - (k - 1), size as int));
        }
        assert(out@ =~= out@.subrange(0, size as int));
        proof {
            out.lemma_bytes_spell_bits();
            lemma_bits_of_mod(u as nat, size as nat);
        }
        out
    }
}

/// Relies on `rand::random`: a value drawn from the thread-local generator;
/// nothing is promised of it.
pub assume_specification<T>[ rand::random::<T> ]() -> (r: T)
    where
        rand::distributions::Standard: rand::distributions::Distribution<T>,
;

impl BitVec {
    /// A vector of `size` bits whose bytes are drawn at random.
    pub fn new_with_random(size: usize) -> (r: Self)
        ensures
            r.wf(),
            r.size == size,
    {
        let byte_size = ByteSize::from(BitVecSize(size));
        let n = byte_size.to_usize();
        let mut bv: Vec<u8> = Vec::with_capacity(n);
        let mut k: usize = 0;
        while k < n
            invariant
                k <= n,
                bv@.len() == k,
            decreases n - k,
        {
            bv.push(rand::random::<u8>());
            k += 1;
        }
        let r = BitVec { bv, size };
        let lead = if n == 0 {
            0
        } else {
            r.lead_exec()
        };
        let mut r = r;
        let mut q: usize = 0;
        while q < lead
            invariant
                r.bv@.len() == bytes_for(size as nat),
                r.size == size,
                lead == r.lead(),
                lead < 8,
                q <= lead,
                forall|j: u8| 8 - q <= j < 8 ==> !#[trigger] byte_bit(r.bv@[0], j),
            decreases lead - q,
        {
            let b = r.bv[0];
            let k = (7 - q) as u8;
            r.bv.set(0, b & !(1u8 << k));
            proof {
                assert forall|j: u8| 8 - (q + 1) <= j < 8 implies !#[trigger] byte_bit(
                    r.bv@[0],
                    j,
                ) by {
                    lemma_clear_bit(b, k, j);
                }
            }
            q += 1;
        }
        r
    }

    /// The bytes of `self` followed by those of `other`, every bit of them
    /// counted.
    pub fn concat(&self, other: &Self) -> (r: Self)
        requires
            self.bv@.len() + other.bv@.len() <= usize::MAX / 8,
        ensures
            r.wf(),
            r.bv@ == self.bv@ + other.bv@,
            r.size == 8 * (self.bv@.len() + other.bv@.len()),
            r.lead() == 0,
    {
        let mut bv = self.bv.clone();
        let mut tail = other.bv.clone();
        assert(bv@ =~= self.bv@);
        assert(tail@ =~= other.bv@);
        bv.append(&mut tail);
        let size = BitVecSize::from(ByteSize(bv.len())).to_usize();
        BitVec { bv, size }
    }

    /// At least eight bytes: zero bytes put in front of a shorter vector,
    /// which then counts all sixty-four bits.
    pub fn zero_extend(&self) -> (r: Self)
        requires
            self.wf(),
        ensures
            r.wf(),
            self.bv@.len() >= 8 ==> r.bv@ == self.bv@ && r.size == self.size,
            self.bv@.len() < 8 ==> r.bv@ == Seq::new((8 - self.bv@.len()) as nat, |i: int| 0u8)
                + self.bv@ && r.size == 64,
    {
        let size = self.bv.len();
        if size >= 8 {
            self.duplicate()
        } else {
            let remain = 8 - size;
            let zeros: BitVec = BitVec::new_with_zeros(
                BitVecSize::from(ByteSize(remain)).to_usize(),
            );
            BitVec::concat(&zeros, self)
        }
    }

    /// The bits of the number one more, as many bits as before.
    pub fn incr(self) -> (r: Self)
        requires
            self.wf(),
            self.size <= 64,
            bits_value(self@) < u64::MAX,
        ensures
            r.wf(),
            r.size == self.size,
            r@ == bits_of(bits_value(self@) + 1, self.size as nat),
            r.bv@.len() == self.bv@.len(),
            bytes_value(r.bv@) == (bytes_value(self.bv@) + 1) % pow2(self.size as nat),
    {
        let one = BitVec::from_u64(1, self.size);
        proof {
            lemma_bits_of_one(self.size as nat);
            one.lemma_bytes_spell_bits();
            self.lemma_bytes_spell_bits();
        }
        let r = one.sum(&self);
        proof {
            if self.size == 0 {
                assert(bytes_value(self.bv@) == 0 && bytes_value(r.bv@) == 0);
                lemma2_to64();
            }
        }
        r
    }

    /// The bits of the sum of the two numbers, as many bits as `self` has.
    pub fn sum(&self, rhs: &BitVec) -> (r: BitVec)
        requires
            self.wf(),
            rhs.wf(),
            self.size <= 64,
            rhs.size <= 64,
            bits_value(self@) + bits_value(rhs@) <= u64::MAX,
        ensures
            r.wf(),
            r.size == self.size,
            r@ == bits_of(bits_value(self@) + bits_value(rhs@), self.size as nat),
            r.bv@.len() == self.bv@.len(),
            bytes_value(r.bv@) == (bytes_value(self.bv@) + bytes_value(rhs.bv@)) % pow2(
                self.size as nat,
            ),
    {
        proof {
            self.lemma_bytes_spell_bits();
            rhs.lemma_bytes_spell_bits();
        }
        BitVec::from_u64(self.to_u64() + rhs.to_u64(), self.size)
    }
}

impl core::ops::Add for BitVec {
    type Output = BitVec;

    /// `a + b` is `a.sum(&b)`.
    fn add(self, rhs: BitVec) -> BitVec {
        self.sum(&rhs)
    }
}

// `add_spec` would have to name the exact `BitVec` that `+` returns, bytes
// vector included. A spec function cannot build a `Vec`, and two vectors with
// the same contents are not known to be the same value, so no `add_spec` can
// be met; `+` is `sum`, whose contract states the result's bits and bytes.
impl vstd::std_specs::ops::AddSpecImpl for BitVec {
    /// False: what `+` returns is stated by `sum`.
    open spec fn obeys_add_spec() -> bool {
        false
    }

    open spec fn add_req(self, rhs: BitVec) -> bool {
        &&& self.wf()
        &&& rhs.wf()
        &&& self.size <= 64
        &&& rhs.size <= 64
        &&& bits_value(self@) + bits_value(rhs@) <= u64::MAX
    }

    /// Not relied on, since `obeys_add_spec` is false.
    open spec fn add_spec(self, rhs: BitVec) -> BitVec {
        self
    }
}

} // verus!
