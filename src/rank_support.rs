use crate::bit_vec::{bits_of, lemma_bits_of_value, lemma_bits_value_bound, window, BitVec};
use std::borrow::Cow;
use vstd::arithmetic::power2::{lemma_pow2_unfold, lemma2_to64, pow2};
use vstd::prelude::*;

verus! {

/// Number of ones among the first `m` bits of `s`; positions past the end
/// count as zero.
pub open spec fn ones(s: Seq<bool>, m: int) -> nat
    decreases m,
{
    if m <= 0 {
        0
    } else {
        ones(s, m - 1) + if m - 1 < s.len() && s[m - 1] {
            1nat
        } else {
            0nat
        }
    }
}

/// `rank1(i)`: the ones in positions `0 ..= i`.
pub open spec fn rank_of(s: Seq<bool>, i: int) -> nat {
    ones(s, i + 1)
}

/// The number of ones in `s`.
pub open spec fn popcount(s: Seq<bool>) -> nat {
    ones(s, s.len() as int)
}

/// `⌈log₂ n⌉`, with `0` for `n <= 1`.
pub open spec fn log_ceil(n: nat) -> nat
    decreases n,
{
    if n <= 1 {
        0
    } else {
        1 + log_ceil(((n + 1) / 2) as nat)
    }
}

/// Superblock size `⌈L·L/2⌉`, at least one.
pub open spec fn super_block_size(n: nat) -> nat {
    let l = log_ceil(n);
    if l == 0 {
        1
    } else {
        (l * l + 1) / 2
    }
}

/// Block size `⌈L/2⌉`, at least one.
pub open spec fn block_size(n: nat) -> nat {
    let l = log_ceil(n);
    if l == 0 {
        1
    } else {
        (l + 1) / 2
    }
}

/// Blocks counted in each superblock: `L`, at least one.
pub open spec fn blocks_per_super(n: nat) -> nat {
    let l = log_ceil(n);
    if l == 0 {
        1
    } else {
        l
    }
}

/// `⌈n / d⌉` for a positive `d`.
pub open spec fn ceil_div(n: nat, d: nat) -> nat {
    if d == 0 {
        0
    } else {
        n / d + if n % d == 0 {
            0nat
        } else {
            1nat
        }
    }
}

/// Number of superblocks over `n` bits.
pub open spec fn num_supers(n: nat) -> nat {
    ceil_div(n, super_block_size(n))
}

/// One more position adds its bit to the count.
pub proof fn lemma_ones_step(s: Seq<bool>, m: int)
    ensures
        ones(s, m + 1) == ones(s, m) + if 0 <= m < s.len() && s[m] {
            1nat
        } else {
            0nat
        },
{
    if m < 0 {
        assert(ones(s, m + 1) == 0);
    }
}

/// A longer prefix holds at least as many ones, and no more than the
/// positions it adds.
pub proof fn lemma_ones_mono(s: Seq<bool>, a: int, b: int)
    requires
        a <= b,
    ensures
        ones(s, a) <= ones(s, b),
        a >= 0 ==> ones(s, b) - ones(s, a) <= b - a,
    decreases b - a,
{
    if a < b {
        lemma_ones_mono(s, a, b - 1);
    }
}

/// A prefix holds no more ones than positions.
pub proof fn lemma_ones_bound(s: Seq<bool>, m: int)
    requires
        m >= 0,
    ensures
        ones(s, m) <= m,
{
    lemma_ones_mono(s, 0, m);
}

/// Past the end the count stays at the popcount.
pub proof fn lemma_ones_past_end(s: Seq<bool>, m: int)
    requires
        m >= s.len(),
    ensures
        ones(s, m) == popcount(s),
    decreases m,
{
    if m > s.len() {
        lemma_ones_past_end(s, m - 1);
    }
}

/// Setting a bit at or past `m` leaves the first `m` bits' count alone.
pub proof fn lemma_ones_update_before(s: Seq<bool>, p: int, m: int)
    requires
        0 <= p < s.len(),
        m <= p,
    ensures
        ones(s.update(p, true), m) == ones(s, m),
    decreases m,
{
    if m > 0 {
        lemma_ones_update_before(s, p, m - 1);
    }
}

/// Setting a clear bit before `m` adds one to the first `m` bits' count.
pub proof fn lemma_ones_update_after(s: Seq<bool>, p: int, m: int)
    requires
        0 <= p < s.len(),
        !s[p],
        p < m,
    ensures
        ones(s.update(p, true), m) == ones(s, m) + 1,
    decreases m,
{
    if m - 1 == p {
        lemma_ones_update_before(s, p, p);
    } else {
        lemma_ones_update_after(s, p, m - 1);
    }
}

/// Counting inside a window is counting in the whole between its ends.
pub proof fn lemma_ones_window(s: Seq<bool>, l: int, w: int, m: int)
    requires
        0 <= l,
        0 <= m <= w,
    ensures
        ones(window(s, l, l + w), m) + ones(s, l) == ones(s, l + m),
    decreases m,
{
    if m > 0 {
        lemma_ones_window(s, l, w, m - 1);
        lemma_ones_step(s, l + m - 1);
        lemma_ones_step(window(s, l, l + w), m - 1);
    }
}

/// Position `i` is `r` bits into block `j` of superblock `k`.
proof fn lemma_decompose(i: int, s: int, b: int, bps: int)
    requires
        0 <= i,
        1 <= b,
        1 <= s <= bps * b,
    ensures
        i == (i / s) * s + (i % s / b) * b + i % s % b,
        0 <= i % s % b < b,
        0 <= i % s / b < bps,
        0 <= (i / s) * s <= i,
        i / s >= 0,
{
    let k = i / s;
    let rem = i % s;
    let j = rem / b;
    let r = rem % b;
    assert(i == k * s + rem && rem == j * b + r) by (nonlinear_arith)
        requires
            s > 0,
            b > 0,
            k == i / s,
            rem == i % s,
            j == rem / b,
            r == rem % b,
    ;
    assert(j < bps) by (nonlinear_arith)
        requires
            rem == j * b + r,
            r >= 0,
            rem < s,
            s <= bps * b,
            b > 0,
    ;
    assert(0 <= k * s) by (nonlinear_arith)
        requires
            k >= 0,
            s >= 0,
    ;
}

/// The three parts of a rank add up: ones before the superblock, ones of the
/// superblock before the block, and ones of the block up to `i`.
proof fn lemma_rank_parts(bits: Seq<bool>, ks: int, left: int, i: int, b: int)
    requires
        0 <= ks <= left <= i < left + b,
    ensures
        ones(bits, ks) <= ones(bits, left) <= ones(bits, i + 1) <= i + 1,
        ones(bits, ks) + (ones(bits, left) - ones(bits, ks)) + ones(
            window(bits, left, left + b),
            i - left + 1,
        ) == ones(bits, i + 1),
{
    lemma_ones_window(bits, left, b, i - left + 1);
    lemma_ones_mono(bits, ks, left);
    lemma_ones_mono(bits, left, i + 1);
    lemma_ones_bound(bits, i + 1);
}

/// `log_ceil(n) <= k` whenever `n <= 2^k`.
proof fn lemma_log_ceil_upper(n: nat, k: nat)
    requires
        n <= pow2(k),
    ensures
        log_ceil(n) <= k,
    decreases k,
{
    if n > 1 {
        if k == 0 {
            lemma2_to64();
        } else {
            lemma_pow2_unfold(k);
            lemma_log_ceil_upper(((n + 1) / 2) as nat, (k - 1) as nat);
        }
    }
}

/// `2^(log_ceil(n) - 1) < n` for `n >= 2`.
proof fn lemma_log_ceil_lower(n: nat)
    requires
        n >= 2,
    ensures
        log_ceil(n) >= 1,
        pow2((log_ceil(n) - 1) as nat) < n,
    decreases n,
{
    let m = ((n + 1) / 2) as nat;
    assert(log_ceil(n) == 1 + log_ceil(m));
    if m >= 2 {
        lemma_log_ceil_lower(m);
        lemma_pow2_unfold(log_ceil(m));
    } else {
        lemma2_to64();
    }
}

/// The derived sizes of an index over `n <= usize::MAX` bits stay small, and
/// the blocks of a superblock cover it.
pub proof fn lemma_params(n: nat)
    requires
        n <= usize::MAX,
    ensures
        log_ceil(n) <= 64,
        1 <= block_size(n) <= 32,
        1 <= blocks_per_super(n) <= 64,
        1 <= super_block_size(n) <= 2048,
        super_block_size(n) <= blocks_per_super(n) * block_size(n),
        blocks_per_super(n) * block_size(n) <= 2048,
        pow2(block_size(n)) <= if n < 2 {
            2
        } else {
            n
        },
{
    lemma2_to64();
    lemma_log_ceil_upper(n, 64);
    let l = log_ceil(n);
    if l > 0 {
        assert(l * l <= 64 * 64) by (nonlinear_arith)
            requires
                l <= 64,
        ;
        assert((l * l + 1) / 2 <= l * ((l + 1) / 2)) by (nonlinear_arith)
            requires
                l >= 1,
        ;
        assert(l * ((l + 1) / 2) <= 64 * 32) by (nonlinear_arith)
            requires
                1 <= l <= 64,
        ;
        assert((l * l + 1) / 2 >= 1) by (nonlinear_arith)
            requires
                l >= 1,
        ;
    }
    if n >= 2 {
        lemma_log_ceil_lower(n);
        if l >= 2 && block_size(n) < l - 1 {
            vstd::arithmetic::power2::lemma_pow2_strictly_increases(block_size(n), (l - 1) as nat);
        }
    } else {
        assert(pow2(1) == 2) by {
            lemma2_to64();
        }
    }
}

/// Every superblock starts before the end.
pub proof fn lemma_ceil_div(n: nat, d: nat, k: nat)
    requires
        d > 0,
    ensures
        ceil_div(n, d) * d >= n,
        k < ceil_div(n, d) ==> k * d < n,
        k * d < n ==> k < ceil_div(n, d),
{
    let q = n / d;
    let r = n % d;
    assert(n == q * d + r) by (nonlinear_arith)
        requires
            d > 0,
            q == n / d,
            r == n % d,
    ;
    assert(k < ceil_div(n, d) ==> k * d < n) by (nonlinear_arith)
        requires
            d > 0,
            n == q * d + r,
            0 <= r < d,
            ceil_div(n, d) == q + if r == 0 {
                0nat
            } else {
                1nat
            },
    ;
    assert(k * d < n ==> k < ceil_div(n, d)) by (nonlinear_arith)
        requires
            d > 0,
            n == q * d + r,
            0 <= r < d,
            ceil_div(n, d) == q + if r == 0 {
                0nat
            } else {
                1nat
            },
    ;
    assert(ceil_div(n, d) * d >= n) by (nonlinear_arith)
        requires
            d > 0,
            n == q * d + r,
            0 <= r < d,
            ceil_div(n, d) == q + if r == 0 {
                0nat
            } else {
                1nat
            },
    ;
}

/// A three-level rank index over a bitvector that it borrows or owns.
///
/// `rs[k]` counts the ones before superblock `k`, `rb[k][j]` the ones of
/// superblock `k` before its block `j`, and `rp[p][j]` the ones among the
/// first `j` bits of the `block_size`-bit pattern `p`.
#[derive(Debug, PartialEq)]
pub struct RankSupport<'bv> {
    pub(crate) bv: Cow<'bv, BitVec>,
    pub(crate) super_block_size: usize,
    pub(crate) block_size: usize,
    pub(crate) blocks_per_super: usize,
    pub(crate) rs: Vec<u64>,
    pub(crate) rb: Vec<Vec<u16>>,
    pub(crate) rp: Vec<Vec<u8>>,
}

/// The superblock counters over `bits` for superblocks of `s` bits.
pub open spec fn rs_ok(rs: Seq<u64>, bits: Seq<bool>, s: nat) -> bool {
    &&& rs.len() == ceil_div(bits.len(), s)
    &&& forall|k: int| 0 <= k < rs.len() ==> #[trigger] rs[k] == ones(bits, k * s)
}

/// The block counters over `bits`, `bps` blocks of `b` bits per superblock.
pub open spec fn rb_ok(rb: Seq<Vec<u16>>, bits: Seq<bool>, s: nat, b: nat, bps: nat) -> bool {
    &&& rb.len() == ceil_div(bits.len(), s)
    &&& forall|k: int| 0 <= k < rb.len() ==> (#[trigger] rb[k])@.len() == bps
    &&& forall|k: int, j: int|
        0 <= k < rb.len() && 0 <= j < bps ==> #[trigger] rb[k]@[j] == ones(bits, k * s + j * b)
            - ones(bits, k * s)
}

/// The in-block table for patterns of `b` bits.
pub open spec fn rp_ok(rp: Seq<Vec<u8>>, b: nat) -> bool {
    &&& rp.len() == pow2(b)
    &&& forall|p: int| 0 <= p < rp.len() ==> (#[trigger] rp[p])@.len() == b + 1
    &&& forall|p: int, j: int|
        0 <= p < rp.len() && 0 <= j <= b ==> #[trigger] rp[p]@[j] == ones(bits_of(p as nat, b), j)
}

/// The superblock counters that an index over `bits` holds.
pub open spec fn rs_table(bits: Seq<bool>) -> Seq<u64> {
    let s = super_block_size(bits.len());
    Seq::new(num_supers(bits.len()), |k: int| ones(bits, k * s) as u64)
}

/// The block counters that an index over `bits` holds, one row per superblock.
pub open spec fn rb_table(bits: Seq<bool>) -> Seq<Seq<u16>> {
    let n = bits.len();
    let s = super_block_size(n);
    let b = block_size(n);
    Seq::new(
        num_supers(n),
        |k: int|
            Seq::new(
                blocks_per_super(n),
                |j: int| (ones(bits, k * s + j * b) - ones(bits, k * s)) as u16,
            ),
    )
}

/// The in-block table that an index over `n` bits holds, one row per pattern.
pub open spec fn rp_table(n: nat) -> Seq<Seq<u8>> {
    let b = block_size(n);
    Seq::new(pow2(b), |p: int| Seq::new(b + 1, |j: int| ones(bits_of(p as nat, b), j) as u8))
}

/// The bitvector that a `Cow` holds or borrows.
pub open spec fn cow_bits<'a>(c: Cow<'a, BitVec>) -> BitVec {
    match c {
        Cow::Borrowed(b) => *b,
        Cow::Owned(b) => b,
    }
}

/// Bytes that the three tables of an index over `n` bits occupy: eight per
/// superblock counter, two per block counter, one per table entry.
pub open spec fn overhead_of(n: nat) -> nat {
    8 * num_supers(n) + 2 * num_supers(n) * blocks_per_super(n) + pow2(block_size(n)) * (
    block_size(n) + 1)
}

/// `overhead_of(n)`, saturating at `usize::MAX`.
pub open spec fn reported_overhead(n: nat) -> nat {
    if overhead_of(n) <= usize::MAX {
        overhead_of(n)
    } else {
        usize::MAX as nat
    }
}

impl<'bv> RankSupport<'bv> {
    /// The indexed bitvector.
    pub open(crate) spec fn bits(&self) -> BitVec {
        cow_bits(self.bv)
    }

    /// How the index holds its bitvector: borrowed or owned.
    pub closed spec fn source(&self) -> Cow<'bv, BitVec> {
        self.bv
    }

    /// Every table holds what its definition says of the indexed bits.
    pub open(crate) spec fn wf(&self) -> bool {
        let bits = self.bits();
        let n = bits.size as nat;
        &&& bits.wf()
        &&& self.super_block_size == super_block_size(n)
        &&& self.block_size == block_size(n)
        &&& self.blocks_per_super == blocks_per_super(n)
        &&& rs_ok(self.rs@, bits@, self.super_block_size as nat)
        &&& rb_ok(
            self.rb@,
            bits@,
            self.super_block_size as nat,
            self.block_size as nat,
            self.blocks_per_super as nat,
        )
        &&& rp_ok(self.rp@, self.block_size as nat)
    }

    /// The indexed bitvector.
    pub fn bit_vec(&self) -> (r: &BitVec)
        ensures
            *r == self.bits(),
            r@ == self@,
            self.wf() ==> r.wf(),
    {
        match &self.bv {
            Cow::Borrowed(b) => b,
            Cow::Owned(b) => b,
        }
    }
}

impl<'bv> Clone for RankSupport<'bv> {
    /// A copy that shares a borrowed bitvector and copies an owned one.
    fn clone(&self) -> Self {
        let bv = match &self.bv {
            Cow::Borrowed(b) => Cow::Borrowed(*b),
            Cow::Owned(b) => Cow::Owned(b.duplicate()),
        };
        RankSupport {
            bv,
            super_block_size: self.super_block_size,
            block_size: self.block_size,
            blocks_per_super: self.blocks_per_super,
            rs: self.rs.clone(),
            rb: self.rb.clone(),
            rp: self.rp.clone(),
        }
    }
}

impl<'bv> View for RankSupport<'bv> {
    type V = Seq<bool>;

    open spec fn view(&self) -> Seq<bool> {
        self.bits()@
    }
}

/// `⌈log₂ n⌉`, with `0` for `n <= 1`.
fn log_ceil_exec(n: usize) -> (r: usize)
    ensures
        r == log_ceil(n as nat),
        r <= 64,
{
    proof {
        lemma_params(n as nat);
    }
    let mut m = n;
    let mut l: usize = 0;
    while m > 1
        invariant
            log_ceil(n as nat) == l + log_ceil(m as nat),
            log_ceil(n as nat) <= 64,
        decreases m,
    {
        assert(log_ceil(m as nat) == 1 + log_ceil(((m + 1) / 2) as nat));
        m = m / 2 + m % 2;
        l += 1;
    }
    l
}

/// `⌈n / d⌉` for a positive `d`.
fn ceil_div_exec(n: usize, d: usize) -> (r: usize)
    requires
        d > 0,
    ensures
        r == ceil_div(n as nat, d as nat),
{
    if n % d == 0 {
        n / d
    } else {
        assert(n / d < n) by (nonlinear_arith)
            requires
                d >= 1,
                n % d != 0,
        ;
        n / d + 1
    }
}

/// Bit `base + off`, `false` past the end, for a `base` within the vector.
fn bit_after(bv: &BitVec, base: usize, off: usize) -> (r: bool)
    requires
        bv.wf(),
        base <= bv.size,
    ensures
        r == (base + off < bv.size && bv@[base + off]),
{
    if off < bv.size - base {
        bv.get(base + off)
    } else {
        false
    }
}

impl<'bv> RankSupport<'bv> {
    /// Superblock size, block size and blocks per superblock for `n` bits.
    fn params(n: usize) -> (r: (usize, usize, usize))
        ensures
            r.0 == super_block_size(n as nat),
            r.1 == block_size(n as nat),
            r.2 == blocks_per_super(n as nat),
    {
        proof {
            lemma_params(n as nat);
        }
        let l = log_ceil_exec(n);
        if l == 0 {
            (1, 1, 1)
        } else {
            ((l * l + 1) / 2, (l + 1) / 2, l)
        }
    }

    /// The superblock counters: ones before each superblock of `s` bits.
    fn compute_rs(bv: &BitVec, s: usize) -> (r: Vec<u64>)
        requires
            bv.wf(),
            s > 0,
        ensures
            rs_ok(r@, bv@, s as nat),
    {
        let n = bv.size;
        let nsup = ceil_div_exec(n, s);
        let mut rs: Vec<u64> = Vec::with_capacity(nsup);
        if nsup == 0 {
            return rs;
        }
        rs.push(0);
        let mut count: u64 = 0;
        let mut k: usize = 0;
        while k + 1 < nsup
            invariant
                bv.wf(),
                n == bv.size,
                s > 0,
                nsup == ceil_div(n as nat, s as nat),
                k + 1 <= nsup,
                count == ones(bv@, k * s),
                rs@.len() == k + 1,
                forall|t: int| 0 <= t <= k ==> #[trigger] rs@[t] == ones(bv@, t * s),
            decreases nsup - k,
        {
            proof {
                lemma_ceil_div(n as nat, s as nat, (k + 1) as nat);
                assert((k + 1) * s == k * s + s) by (nonlinear_arith);
            }
            let pos = k * s;
            let mut j: usize = 0;
            while j < s
                invariant
                    bv.wf(),
                    n == bv.size,
                    j <= s,
                    pos + s < n,
                    count == ones(bv@, pos + j),
                decreases s - j,
            {
                proof {
                    lemma_ones_step(bv@, pos + j);
                    lemma_ones_bound(bv@, pos + j + 1);
                }
                count += bv.get_u8(pos + j) as u64;
                j += 1;
            }
            k += 1;
            rs.push(count);
        }
        rs
    }

    /// The block counters: in each superblock, ones before each of its blocks.
    fn compute_rb(bv: &BitVec, s: usize, b: usize, bps: usize) -> (r: Vec<Vec<u16>>)
        requires
            bv.wf(),
            s == super_block_size(bv.size as nat),
            b == block_size(bv.size as nat),
            bps == blocks_per_super(bv.size as nat),
        ensures
            rb_ok(r@, bv@, s as nat, b as nat, bps as nat),
    {
        proof {
            lemma_params(bv.size as nat);
        }
        let n = bv.size;
        let nsup = ceil_div_exec(n, s);
        let mut rb: Vec<Vec<u16>> = Vec::with_capacity(nsup);
        let mut k: usize = 0;
        while k < nsup
            invariant
                bv.wf(),
                n == bv.size,
                1 <= s,
                1 <= b,
                1 <= bps,
                bps * b <= 2048,
                nsup == ceil_div(n as nat, s as nat),
                k <= nsup,
                rb@.len() == k,
                forall|kk: int| 0 <= kk < k ==> (#[trigger] rb@[kk])@.len() == bps,
                forall|kk: int, j: int|
                    0 <= kk < k && 0 <= j < bps ==> #[trigger] rb@[kk]@[j] == ones(
                        bv@,
                        kk * s + j * b,
                    ) - ones(bv@, kk * s),
            decreases nsup - k,
        {
            proof {
                lemma_ceil_div(n as nat, s as nat, k as nat);
            }
            let base = k * s;
            let mut row: Vec<u16> = Vec::with_capacity(bps);
            row.push(0);
            let mut local: u64 = 0;
            let mut j: usize = 0;
            while j + 1 < bps
                invariant
                    bv.wf(),
                    n == bv.size,
                    base < n,
                    1 <= b,
                    j + 1 <= bps,
                    bps * b <= 2048,
                    local == ones(bv@, base + j * b) - ones(bv@, base as int),
                    row@.len() == j + 1,
                    forall|jj: int|
                        0 <= jj <= j ==> #[trigger] row@[jj] == ones(bv@, base + jj * b) - ones(
                            bv@,
                            base as int,
                        ),
                decreases bps - j,
            {
                proof {
                    assert((j + 1) * b == j * b + b) by (nonlinear_arith);
                    assert((j + 1) * b <= bps * b) by (nonlinear_arith)
                        requires
                            j + 1 < bps,
                    ;
                    lemma_ones_mono(bv@, base as int, base + j * b);
                }
                let off = j * b;
                let mut t: usize = 0;
                while t < b
                    invariant
                        bv.wf(),
                        n == bv.size,
                        base < n,
                        t <= b,
                        off + b <= 2048,
                        local == ones(bv@, base + off + t) - ones(bv@, base as int),
                    decreases b - t,
                {
                    proof {
                        lemma_ones_step(bv@, base + off + t);
                        lemma_ones_mono(bv@, base as int, base + off + t + 1);
                    }
                    if bit_after(bv, base, off + t) {
                        local += 1;
                    }
                    t += 1;
                }
                proof {
                    lemma_ones_mono(bv@, base as int, base + off + b);
                }
                j += 1;
                row.push(local as u16);
            }
            rb.push(row);
            k += 1;
        }
        rb
    }

    /// The in-block table: for each `b`-bit pattern, the ones among its first
    /// `j` bits, for `j` in `0 ..= b`.
    fn compute_rp(b: usize) -> (r: Vec<Vec<u8>>)
        requires
            1 <= b <= 32,
            pow2(b as nat) <= usize::MAX,
        ensures
            rp_ok(r@, b as nat),
    {
        let mut rows: usize = 1;
        let mut t: usize = 0;
        proof {
            lemma2_to64();
        }
        while t < b
            invariant
                t <= b <= 32,
                rows == pow2(t as nat),
                pow2(b as nat) <= usize::MAX,
            decreases b - t,
        {
            proof {
                lemma_pow2_unfold((t + 1) as nat);
                if t + 1 < b {
                    vstd::arithmetic::power2::lemma_pow2_strictly_increases((t + 1) as nat, b as nat);
                }
            }
            rows = rows * 2;
            t += 1;
        }
        let mut rp: Vec<Vec<u8>> = Vec::with_capacity(rows);
        let mut p: usize = 0;
        while p < rows
            invariant
                1 <= b <= 32,
                rows == pow2(b as nat),
                p <= rows,
                rp@.len() == p,
                forall|q: int| 0 <= q < p ==> (#[trigger] rp@[q])@.len() == b + 1,
                forall|q: int, j: int|
                    0 <= q < p && 0 <= j <= b ==> #[trigger] rp@[q]@[j] == ones(
                        bits_of(q as nat, b as nat),
                        j,
                    ),
            decreases rows - p,
        {
            let temp = BitVec::from_u64(p as u64, b);
            let mut row: Vec<u8> = Vec::with_capacity(b + 1);
            row.push(0);
            let mut c: u8 = 0;
            let mut j: usize = 0;
            while j < b
                invariant
                    j <= b <= 32,
                    temp.wf(),
                    temp.size == b,
                    temp@ == bits_of(p as nat, b as nat),
                    c == ones(temp@, j as int),
                    row@.len() == j + 1,
                    forall|jj: int| 0 <= jj <= j ==> #[trigger] row@[jj] == ones(temp@, jj),
                decreases b - j,
            {
                proof {
                    lemma_ones_step(temp@, j as int);
                    lemma_ones_bound(temp@, j + 1);
                }
                if temp.get(j) {
                    c += 1;
                }
                j += 1;
                row.push(c);
            }
            rp.push(row);
            p += 1;
        }
        rp
    }
}

impl<'bv> RankSupport<'bv> {
    /// Builds the three tables for the bitvector in `self.bv`.
    pub fn compute_index(&mut self)
        requires
            old(self).bits().wf(),
        ensures
            final(self).wf(),
            final(self).bits() == old(self).bits(),
            final(self).source() == old(self).source(),
    {
        let bv = self.bit_vec();
        proof {
            lemma_params(bv.size as nat);
        }
        let (s, b, bps) = RankSupport::params(bv.size);
        let rs = RankSupport::compute_rs(bv, s);
        let rb = RankSupport::compute_rb(bv, s, b, bps);
        let rp = RankSupport::compute_rp(b);
        self.super_block_size = s;
        self.block_size = b;
        self.blocks_per_super = bps;
        self.rs = rs;
        self.rb = rb;
        self.rp = rp;
    }

    /// An index over the bitvector that `bit_vec` borrows or owns.
    pub fn new_with_index_computation(bit_vec: Cow<'bv, BitVec>) -> (r: RankSupport<'bv>)
        requires
            cow_bits(bit_vec).wf(),
        ensures
            r.wf(),
            r.source() == bit_vec,
            r.bits() == cow_bits(bit_vec),
            r@ == cow_bits(bit_vec)@,
    {
        let mut r = RankSupport {
            bv: bit_vec,
            super_block_size: 1,
            block_size: 1,
            blocks_per_super: 1,
            rs: Vec::new(),
            rb: Vec::new(),
            rp: Vec::new(),
        };
        r.compute_index();
        r
    }

    /// Sets bit `i` of the indexed bitvector, taking a copy of it first if it
    /// is borrowed, and rebuilds the index; a position past the end is left
    /// alone.
    pub fn set(&mut self, i: usize)
        requires
            old(self).wf(),
        ensures
            final(self).wf(),
            final(self).bits().size == old(self).bits().size,
            final(self)@ == if i < old(self).bits().size {
                old(self)@.update(i as int, true)
            } else {
                old(self)@
            },
    {
        let mut bits = self.bit_vec().duplicate();
        bits.set(i);
        self.bv = Cow::Owned(bits);
        self.compute_index();
    }
}

impl<'bv> RankSupport<'bv> {
    /// An index over `bit_vec`, which it borrows and does not copy.
    pub fn new(bit_vec: &'bv BitVec) -> (r: RankSupport<'bv>)
        requires
            bit_vec.wf(),
        ensures
            r.wf(),
            r.source() == Cow::Borrowed(bit_vec),
            r.bits() == *bit_vec,
            r@ == bit_vec@,
    {
        RankSupport::new_with_index_computation(Cow::Borrowed(bit_vec))
    }

    /// `rank1(i)` by a linear count: the ones in positions `0 ..= i`.
    pub fn dummy_rankn(bv: &BitVec, i: usize) -> (r: u64)
        requires
            bv.wf(),
        ensures
            r == rank_of(bv@, i as int),
    {
        let end = if i < bv.size {
            i + 1
        } else {
            bv.size
        };
        let mut rank: u64 = 0;
        let mut ind: usize = 0;
        while ind < end
            invariant
                bv.wf(),
                end <= bv.size,
                ind <= end,
                rank == ones(bv@, ind as int),
            decreases end - ind,
        {
            proof {
                lemma_ones_step(bv@, ind as int);
                lemma_ones_bound(bv@, ind + 1);
            }
            rank += bv.get_u8(ind) as u64;
            ind += 1;
        }
        proof {
            if i >= bv.size {
                lemma_ones_past_end(bv@, i + 1);
                lemma_ones_past_end(bv@, bv.size as int);
            }
        }
        rank
    }

    /// The number of ones in positions `0 ..= i`; past the end, all of them.
    ///
    /// Bitvectors shorter than 64 bits, and those too close to `usize::MAX`
    /// bits for block arithmetic, are counted linearly.
    pub fn rank1(&self, i: u64) -> (r: u64)
        requires
            self.wf(),
        ensures
            r == rank_of(self@, i as int),
    {
        let bv = self.bit_vec();
        let n = bv.size;
        if n == 0 {
            proof {
                lemma_ones_past_end(self@, i + 1);
            }
            return 0;
        }
        let i_orig = i;
        let i: usize = if i >= n as u64 {
            n - 1
        } else {
            i as usize
        };
        proof {
            if i_orig >= n {
                lemma_ones_past_end(self@, i_orig + 1);
                lemma_ones_past_end(self@, n as int);
            }
        }
        if n < 64 || n > usize::MAX - 64 {
            return RankSupport::dummy_rankn(bv, i);
        }
        proof {
            lemma_params(n as nat);
        }
        let s = self.super_block_size;
        let b = self.block_size;
        let k = i / s;
        let rem = i % s;
        let j = rem / b;
        let r = rem % b;
        proof {
            lemma_decompose(i as int, s as int, b as int, self.blocks_per_super as int);
            lemma_ceil_div(n as nat, s as nat, k as nat);
        }
        let left = i - r;
        assert(b <= 32);
        let pattern = match bv.extract(left, left + b) {
            Ok(e) => {
                assert(e@.len() == b);
                e.to_u64()
            },
            Err(_) => 0,
        };
        proof {
            let w = window(self@, left as int, left + b);
            lemma_bits_value_bound(w);
            lemma_bits_of_value(w);
            lemma_rank_parts(self@, k * s, left as int, i as int, b as int);
        }
        let p = pattern as usize;
        self.rs[k] + self.rb[k][j] as u64 + self.rp[p][r + 1] as u64
    }

    /// Bytes that the three tables occupy, saturating at `usize::MAX`.
    pub fn overhead(&self) -> (r: usize)
        requires
            self.wf(),
        ensures
            r == reported_overhead(self@.len()),
    {
        proof {
            lemma_params(self@.len());
            lemma2_to64();
            if block_size(self@.len()) < 32 {
                vstd::arithmetic::power2::lemma_pow2_strictly_increases(
                    block_size(self@.len()),
                    32,
                );
            }
            assert(pow2(block_size(self@.len())) * (block_size(self@.len()) + 1) <= 0x1_0000_0000
                * 33) by (nonlinear_arith)
                requires
                    pow2(block_size(self@.len())) <= 0x1_0000_0000,
                    block_size(self@.len()) <= 32,
            ;
        }
        let supers = self.rs.len() as u128;
        let bps = self.blocks_per_super as u128;
        assert(2 * supers * bps <= 2 * 0x1_0000_0000_0000_0000 * 64) by (nonlinear_arith)
            requires
                supers <= 0x1_0000_0000_0000_0000,
                bps <= 64,
        ;
        let total: u128 = 8 * supers + 2 * supers * bps + (
        self.rp.len() as u128) * (self.block_size as u128 + 1);
        if total > usize::MAX as u128 {
            usize::MAX
        } else {
            total as usize
        }
    }
}

impl<'bv> RankSupport<'bv> {
    /// A well-formed index holds exactly the tables that its bits determine.
    pub(crate) proof fn lemma_tables(&self)
        requires
            self.wf(),
        ensures
            self.rs@ == rs_table(self@),
            self.rb@.map_values(|row: Vec<u16>| row@) == rb_table(self@),
            self.rp@.map_values(|row: Vec<u8>| row@) == rp_table(self@.len()),
    {
        let n = self@.len();
        lemma_params(n);
        assert forall|k: int| 0 <= k < self.rs@.len() implies self.rs@[k] == rs_table(self@)[k] by {
            lemma_ones_bound(self@, k * super_block_size(n));
        }
        assert(self.rs@ =~= rs_table(self@));
        assert forall|k: int| 0 <= k < self.rb@.len() implies self.rb@[k]@ == rb_table(self@)[k] by {
            assert(self.rb@[k]@ =~= rb_table(self@)[k]);
        }
        assert(self.rb@.map_values(|row: Vec<u16>| row@) =~= rb_table(self@));
        assert forall|p: int| 0 <= p < self.rp@.len() implies self.rp@[p]@ == rp_table(n)[p] by {
            assert(self.rp@[p]@ =~= rp_table(n)[p]);
        }
        assert(self.rp@.map_values(|row: Vec<u8>| row@) =~= rp_table(n));
    }
}

/// `rank1(0)` counts bit 0 alone, so it is zero exactly when bit 0 is clear.
pub proof fn lemma_rank_first(s: Seq<bool>)
    requires
        s.len() > 0,
    ensures
        rank_of(s, 0) == if s[0] {
            1nat
        } else {
            0nat
        },
        !s[0] ==> rank_of(s, 0) == 0,
{
    lemma_ones_step(s, 0);
}

/// `rank1(n - 1)` is the number of ones.
pub proof fn lemma_rank_last(s: Seq<bool>)
    requires
        s.len() > 0,
    ensures
        rank_of(s, s.len() - 1) == popcount(s),
{
}

/// The reported overhead depends on the bit count alone, so two indexes over
/// equal bitvectors report the same overhead.
pub proof fn lemma_overhead_deterministic(a: Seq<bool>, b: Seq<bool>)
    requires
        a == b,
    ensures
        reported_overhead(a.len()) == reported_overhead(b.len()),
{
}

} // verus!
