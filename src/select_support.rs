use crate::bit_vec::BitVec;
use crate::rank_support::{lemma_ones_past_end, lemma_ones_step, ones, popcount, rank_of, RankSupport};
use std::borrow::Cow;
use vstd::prelude::*;

verus! {

/// `i` is the position of the `k`-th one of `s`, counting from one.
pub open spec fn is_select(s: Seq<bool>, k: int, i: int) -> bool {
    &&& 0 <= i < s.len()
    &&& s[i]
    &&& rank_of(s, i) == k
}

/// What `select1(k)` answers over `s`: the position of the `k`-th one, or
/// nothing when `k` is zero or above the popcount.
pub open spec fn select_ok(s: Seq<bool>, k: int, r: Option<u64>) -> bool {
    match r {
        Some(p) => 1 <= k <= popcount(s) && is_select(s, k, p as int) && (p == 0 || rank_of(
            s,
            p - 1,
        ) == k - 1),
        None => k == 0 || k > popcount(s),
    }
}

/// The rank index that a `Cow` holds or borrows.
pub open spec fn cow_rank<'a>(c: Cow<'a, RankSupport<'a>>) -> RankSupport<'a> {
    match c {
        Cow::Borrowed(r) => *r,
        Cow::Owned(r) => r,
    }
}

/// Select queries answered by binary search over a rank index.
#[derive(PartialEq)]
pub struct SelectSupport<'bv> {
    pub(crate) r: Cow<'bv, RankSupport<'bv>>,
}

impl<'bv> View for SelectSupport<'bv> {
    type V = Seq<bool>;

    open spec fn view(&self) -> Seq<bool> {
        self.index()@
    }
}

impl<'bv> SelectSupport<'bv> {
    /// The rank index that the queries go through.
    pub open(crate) spec fn index(&self) -> RankSupport<'bv> {
        cow_rank(self.r)
    }

    /// The rank index is well formed.
    pub open spec fn wf(&self) -> bool {
        self.index().wf()
    }

    /// The rank index.
    pub(crate) fn rank_support(&self) -> (r: &RankSupport<'bv>)
        ensures
            *r == self.index(),
    {
        match &self.r {
            Cow::Borrowed(r) => r,
            Cow::Owned(r) => r,
        }
    }

    /// The smallest position in `l ..= r` whose rank reaches `i`, given that
    /// the rank before `l` is below `i` and the rank at `r` reaches it. The
    /// right end may be the bit count itself, whose rank is the popcount.
    fn binary_search_select1(&self, l: usize, r: usize, i: u64) -> (p: u64)
        requires
            self.wf(),
            1 <= i,
            l <= r <= self@.len(),
            l == 0 || rank_of(self@, l - 1) < i,
            rank_of(self@, r as int) >= i,
        ensures
            is_select(self@, i as int, p as int),
            p == 0 || rank_of(self@, p - 1) == i - 1,
    {
        let rank = self.rank_support();
        let mut lo = l;
        let mut hi = r;
        while lo < hi
            invariant
                rank.wf(),
                rank@ == self@,
                lo <= hi <= self@.len(),
                lo == 0 || rank_of(self@, lo - 1) < i,
                rank_of(self@, hi as int) >= i,
            decreases hi - lo,
        {
            let mid = lo + (hi - lo) / 2;
            if rank.rank1(mid as u64) < i {
                lo = mid + 1;
            } else {
                hi = mid;
            }
        }
        proof {
            let n = self@.len() as int;
            lemma_ones_past_end(self@, n);
            lemma_ones_past_end(self@, n + 1);
            if n == 0 {
                lemma_ones_past_end(self@, 1);
            }
            assert(lo < n);
            lemma_ones_step(self@, lo as int);
            assert(lo == 0 ==> ones(self@, lo as int) == 0);
        }
        lo as u64
    }

    pub(crate) fn rank1(&self, u: u64) -> (r: u64)
        requires
            self.wf(),
        ensures
            r == rank_of(self@, u as int),
    {
        self.rank_support().rank1(u)
    }

    pub(crate) fn get_size(&self) -> (r: usize)
        requires
            self.wf(),
        ensures
            r == self@.len(),
    {
        self.rank_support().bit_vec().size
    }

    /// Sets bit `i` and rebuilds the index, taking a copy of a borrowed one.
    pub(crate) fn set(&mut self, i: usize)
        requires
            old(self).wf(),
        ensures
            final(self).wf(),
            final(self)@ == if i < old(self)@.len() {
                old(self)@.update(i as int, true)
            } else {
                old(self)@
            },
    {
        let mut bits = self.rank_support().bit_vec().duplicate();
        bits.set(i);
        self.r = Cow::Owned(RankSupport::new_with_index_computation(Cow::Owned(bits)));
    }
}

impl<'bv> SelectSupport<'bv> {
    /// Select queries over the rank index that `r` borrows or owns.
    pub fn new(r: Cow<'bv, RankSupport<'bv>>) -> (s: SelectSupport<'bv>)
        requires
            cow_rank(r).wf(),
        ensures
            s.wf(),
            s.index() == cow_rank(r),
            s@ == cow_rank(r)@,
    {
        SelectSupport { r }
    }

    /// `select1(i)` by a linear scan.
    pub fn dummy_selectn(&self, i: usize) -> (r: Option<u64>)
        requires
            self.wf(),
        ensures
            select_ok(self@, i as int, r),
    {
        let bv: &BitVec = self.rank_support().bit_vec();
        if i == 0 {
            return None;
        }
        let mut seen: usize = 0;
        let mut ind: usize = 0;
        while ind < bv.size
            invariant
                bv.wf(),
                bv@ == self@,
                ind <= bv.size,
                seen == ones(self@, ind as int),
                seen < i,
            decreases bv.size - ind,
        {
            proof {
                lemma_ones_step(self@, ind as int);
            }
            if bv.get(ind) {
                seen += 1;
                if seen == i {
                    proof {
                        crate::rank_support::lemma_ones_mono(self@, ind + 1, bv.size as int);
                        lemma_ones_past_end(self@, bv.size as int);
                    }
                    return Some(ind as u64);
                }
            }
            ind += 1;
        }
        proof {
            lemma_ones_past_end(self@, bv.size as int);
        }
        None
    }

    /// The position of the `i`-th one, counting from one; `None` when `i` is
    /// zero or exceeds the number of ones.
    pub fn select1(&self, i: u64) -> (r: Option<u64>)
        requires
            self.wf(),
        ensures
            select_ok(self@, i as int, r),
    {
        let size = self.get_size();
        if size == 0 || i == 0 {
            return None;
        }
        let max_rank = self.rank1((size - 1) as u64);
        proof {
            lemma_ones_past_end(self@, size as int);
        }
        if i > max_rank {
            None
        } else {
            Some(self.binary_search_select1(0, size, i))
        }
    }

    /// Bytes that the rank index's tables occupy, saturating at `usize::MAX`.
    pub fn overhead(self) -> (r: usize)
        requires
            self.wf(),
        ensures
            r == crate::rank_support::reported_overhead(self@.len()),
    {
        self.rank_support().overhead()
    }
}

/// What `select1(k)` returns is the position of a set bit whose rank is `k`,
/// whose predecessor's rank is `k - 1`, and before which every rank is below
/// `k`: the least position of rank `k`.
pub proof fn lemma_select_least(s: Seq<bool>, k: int, r: Option<u64>)
    requires
        select_ok(s, k, r),
        r is Some,
    ensures
        s[r->0 as int],
        rank_of(s, r->0 as int) == k,
        r->0 == 0 || rank_of(s, r->0 - 1) == k - 1,
        forall|j: int| 0 <= j < r->0 ==> rank_of(s, j) < k,
{
    let i = r->0 as int;
    assert forall|j: int| 0 <= j < i implies rank_of(s, j) < k by {
        crate::rank_support::lemma_ones_mono(s, j + 1, i);
    }
}

/// One past the number of ones, `select1` finds nothing.
pub proof fn lemma_select_past_popcount(s: Seq<bool>, r: Option<u64>)
    requires
        select_ok(s, popcount(s) + 1int, r),
    ensures
        r is None,
{
}

} // verus!
