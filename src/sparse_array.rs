use crate::bit_vec::BitVec;
use crate::error::BvError;
use crate::rank_support::{
    lemma_ones_mono,
    lemma_ones_past_end,
    lemma_ones_step,
    lemma_ones_update_after,
    lemma_ones_update_before,
    ones,
    popcount,
    rank_of,
    RankSupport,
};
use crate::select_support::SelectSupport;
use std::borrow::Cow;
use vstd::prelude::*;

verus! {

/// The element stored for position `i`: present exactly where the bit is set,
/// and then the one whose rank the position has.
pub open spec fn element_at<T>(bits: Seq<bool>, vals: Seq<T>, i: int) -> Option<T> {
    if 0 <= i < bits.len() && bits[i] {
        Some(vals[rank_of(bits, i) - 1])
    } else {
        None
    }
}

/// `pos` may be appended at: it is a position and every set bit lies before it.
pub open spec fn can_append(bits: Seq<bool>, pos: int) -> bool {
    0 <= pos < bits.len() && ones(bits, pos) == popcount(bits)
}

/// The contents after the elements of `pairs`, each with its position, were
/// appended in order.
pub open spec fn append_all<T>(bits: Seq<bool>, vals: Seq<T>, pairs: Seq<(T, int)>) -> (
    Seq<bool>,
    Seq<T>,
)
    decreases pairs.len(),
{
    if pairs.len() == 0 {
        (bits, vals)
    } else {
        let prev = append_all(bits, vals, pairs.drop_last());
        (prev.0.update(pairs.last().1, true), prev.1.push(pairs.last().0))
    }
}

/// A logical array over positions `0 .. size()` that holds an element at few
/// of them: a bit per position marks where, and the elements are kept in
/// position order.
#[derive(PartialEq)]
pub struct SparseArray<'bv, T> {
    pub(crate) s: SelectSupport<'bv>,
    pub(crate) v: Vec<T>,
}

impl<'bv, T> View for SparseArray<'bv, T> {
    type V = (Seq<bool>, Seq<T>);

    /// The presence bits and the elements in position order.
    closed spec fn view(&self) -> (Seq<bool>, Seq<T>) {
        (self.s@, self.v@)
    }
}

impl<'bv, T> SparseArray<'bv, T> {
    /// The presence bitvector.
    pub open(crate) spec fn bitvector(&self) -> BitVec {
        self.s.index().bits()
    }

    /// One element for each set bit.
    pub open(crate) spec fn wf(&self) -> bool {
        &&& self.s.wf()
        &&& self.v@.len() == popcount(self.s@)
    }

    pub(crate) proof fn lemma_view(&self)
        ensures
            self@ == (self.s@, self.v@),
    {
    }

    fn set_bv_index(&mut self, i: usize)
        requires
            old(self).s.wf(),
        ensures
            final(self).s.wf(),
            final(self).v == old(self).v,
            final(self).s@ == if i < old(self).s@.len() {
                old(self).s@.update(i as int, true)
            } else {
                old(self).s@
            },
    {
        self.s.set(i);
    }
}

impl<'bv, T> SparseArray<'bv, T> {
    /// An empty array over positions `0 .. size`.
    pub fn new(size: usize) -> (r: SparseArray<'bv, T>)
        ensures
            r.wf(),
            r@.0 == Seq::new(size as nat, |i: int| false),
            r@.1 == Seq::<T>::empty(),
    {
        let bv = Cow::Owned(BitVec::new(size));
        let r = Cow::Owned(RankSupport::new_with_index_computation(bv));
        let s = SelectSupport::new(r);
        let v = Vec::new();
        proof {
            assert(popcount(s@) == 0) by {
                lemma_no_ones(s@, size as int);
            }
        }
        SparseArray { s, v }
    }

    /// Stores `elem` at `pos` and rebuilds the index. `OutOfRange` when `pos`
    /// is not a position, `NonMonotonic` when an element already stands at
    /// `pos` or after it; either way nothing changes.
    pub fn append(&mut self, elem: T, pos: usize) -> (r: Result<(), BvError>)
        requires
            old(self).wf(),
        ensures
            final(self).wf(),
            pos >= old(self)@.0.len() ==> r == Err::<(), BvError>(BvError::OutOfRange),
            pos < old(self)@.0.len() && !can_append(old(self)@.0, pos as int) ==> r == Err::<
                (),
                BvError,
            >(BvError::NonMonotonic),
            r is Err ==> final(self)@ == old(self)@,
            can_append(old(self)@.0, pos as int) ==> r is Ok && final(self)@ == (
                old(self)@.0.update(pos as int, true),
                old(self)@.1.push(elem),
            ),
    {
        let size = self.s.get_size();
        if pos >= size {
            return Err(BvError::OutOfRange);
        }
        let before = if pos == 0 {
            0
        } else {
            self.s.rank1((pos - 1) as u64)
        };
        proof {
            lemma_ones_past_end(self.s@, size as int);
        }
        if before != self.v.len() as u64 {
            return Err(BvError::NonMonotonic);
        }
        proof {
            lemma_append_count(self.s@, pos as int);
        }
        self.v.push(elem);
        self.set_bv_index(pos);
        Ok(())
    }

    /// The element of rank `u`, counting from one.
    pub fn get_at_rank(&self, u: usize) -> (r: Option<&T>)
        requires
            self.wf(),
        ensures
            match r {
                Some(x) => 1 <= u <= self@.1.len() && *x == self@.1[u - 1],
                None => u == 0 || u > self@.1.len(),
            },
    {
        if u >= 1 && u <= self.v.len() {
            Some(&self.v[u - 1])
        } else {
            None
        }
    }

    /// The element stored at position `u`, if any.
    pub fn get_at_index(&mut self, u: usize) -> (r: Option<&T>)
        requires
            old(self).wf(),
        ensures
            *final(self) == *old(self),
            match r {
                Some(x) => element_at(old(self)@.0, old(self)@.1, u as int) == Some(*x),
                None => element_at(old(self)@.0, old(self)@.1, u as int) is None,
            },
    {
        let size = self.s.get_size();
        if u < size && self.s.rank_support().bit_vec().get(u) {
            let rank = self.s.rank1(u as u64);
            proof {
                lemma_ones_step(self.s@, u as int);
                lemma_ones_mono(self.s@, u + 1, size as int);
                lemma_ones_past_end(self.s@, size as int);
                assert(self.s@[u as int]);
                assert(1 <= rank <= self.v@.len());
            }
            let len = self.v.len();
            let k = (rank - 1) as usize;
            assert(k == rank_of(old(self)@.0, u as int) - 1);
            return Some(&self.v[k]);
        }
        None
    }

    /// The number of elements at positions `0 ..= u`.
    pub fn num_elem_at(&self, u: u64) -> (r: u64)
        requires
            self.wf(),
        ensures
            r == rank_of(self@.0, u as int),
    {
        self.s.rank1(u)
    }

    /// The number of positions.
    pub fn size(&self) -> (r: usize)
        requires
            self.wf(),
        ensures
            r == self@.0.len(),
    {
        self.s.get_size()
    }

    /// The elements in position order.
    pub fn elements(&self) -> (r: &Vec<T>)
        ensures
            r@ == self@.1,
    {
        &self.v
    }

    /// The same positions holding `vals` instead, in the same order;
    /// `OutOfRange` when `vals` does not hold one element per stored one.
    pub fn with_elements<U>(self, vals: Vec<U>) -> (r: Result<SparseArray<'bv, U>, BvError>)
        requires
            self.wf(),
        ensures
            match r {
                Ok(a) => vals@.len() == self@.1.len() && a.wf() && a@ == (self@.0, vals@),
                Err(e) => vals@.len() != self@.1.len() && e == BvError::OutOfRange,
            },
    {
        if vals.len() != self.v.len() {
            return Err(BvError::OutOfRange);
        }
        Ok(SparseArray { s: self.s, v: vals })
    }

    /// The number of elements stored.
    pub fn num_elem(&self) -> (r: usize)
        requires
            self.wf(),
        ensures
            r == self@.1.len(),
            r == popcount(self@.0),
    {
        self.v.len()
    }
}

proof fn lemma_no_ones(s: Seq<bool>, m: int)
    requires
        forall|i: int| 0 <= i < s.len() ==> !s[i],
    ensures
        ones(s, m) == 0,
    decreases m,
{
    if m > 0 {
        lemma_no_ones(s, m - 1);
    }
}

/// At a position that may be appended at, the bit is clear and setting it adds
/// one to the popcount.
proof fn lemma_append_count(s: Seq<bool>, pos: int)
    requires
        can_append(s, pos),
    ensures
        !s[pos],
        popcount(s.update(pos, true)) == popcount(s) + 1,
        ones(s.update(pos, true), pos + 1) == popcount(s) + 1,
{
    lemma_ones_step(s, pos);
    lemma_ones_mono(s, pos + 1, s.len() as int);
    lemma_ones_past_end(s, s.len() as int);
    lemma_ones_update_after(s, pos, s.len() as int);
    lemma_ones_update_after(s, pos, pos + 1);
}

/// After an append at `pos`, the element found at `pos` is the one appended,
/// and every other position answers as before.
pub proof fn lemma_append_then_lookup<T>(bits: Seq<bool>, vals: Seq<T>, elem: T, pos: int, q: int)
    requires
        vals.len() == popcount(bits),
        can_append(bits, pos),
    ensures
        element_at(bits.update(pos, true), vals.push(elem), pos) == Some(elem),
        q != pos ==> element_at(bits.update(pos, true), vals.push(elem), q) == element_at(
            bits,
            vals,
            q,
        ),
{
    lemma_append_count(bits, pos);
    let nb = bits.update(pos, true);
    let nv = vals.push(elem);
    assert(nv[vals.len() as int] == elem);
    if 0 <= q < pos {
        lemma_ones_update_before(bits, pos, q + 1);
        if bits[q] {
            lemma_ones_step(bits, q);
            lemma_ones_mono(bits, q + 1, bits.len() as int);
            lemma_ones_past_end(bits, bits.len() as int);
            assert(nv[rank_of(bits, q) - 1] == vals[rank_of(bits, q) - 1]);
        }
    } else if pos < q < bits.len() {
        if bits[q] {
            lemma_ones_step(bits, q);
            lemma_ones_mono(bits, pos, q);
            lemma_ones_mono(bits, q + 1, bits.len() as int);
            lemma_ones_past_end(bits, bits.len() as int);
        }
    }
}

/// What holds after appends at strictly increasing positions into an empty
/// array of `n` positions: one element per set bit, no set bit after the last
/// position, and each element found at its position.
proof fn lemma_append_all_inv<T>(n: nat, pairs: Seq<(T, int)>)
    requires
        forall|k: int| 0 <= k < pairs.len() ==> 0 <= #[trigger] pairs[k].1 < n,
        forall|a: int, b: int| 0 <= a < b < pairs.len() ==> pairs[a].1 < pairs[b].1,
    ensures
        ({
            let st = append_all(Seq::new(n, |i: int| false), Seq::<T>::empty(), pairs);
            &&& st.0.len() == n
            &&& st.1.len() == popcount(st.0)
            &&& pairs.len() > 0 ==> ones(st.0, pairs.last().1 + 1) == popcount(st.0)
            &&& forall|k: int|
                0 <= k < pairs.len() ==> element_at(st.0, st.1, #[trigger] pairs[k].1) == Some(
                    pairs[k].0,
                )
        }),
    decreases pairs.len(),
{
    let zeros = Seq::new(n, |i: int| false);
    if pairs.len() == 0 {
        lemma_no_ones(zeros, n as int);
    } else {
        let init = pairs.drop_last();
        assert forall|k: int| 0 <= k < init.len() implies 0 <= #[trigger] init[k].1 < n by {
            assert(init[k] == pairs[k]);
        }
        assert forall|a: int, b: int| 0 <= a < b < init.len() implies init[a].1 < init[b].1 by {
            assert(init[a] == pairs[a] && init[b] == pairs[b]);
        }
        lemma_append_all_inv(n, init);
        let prev = append_all(zeros, Seq::<T>::empty(), init);
        let (elem, pos) = pairs.last();
        if init.len() == 0 {
            lemma_no_ones(zeros, pos);
            lemma_no_ones(zeros, n as int);
        } else {
            let last = init.last().1;
            assert(last == pairs[init.len() - 1].1);
            lemma_ones_mono(prev.0, last + 1, pos);
            lemma_ones_mono(prev.0, pos, n as int);
            lemma_ones_past_end(prev.0, n as int);
        }
        assert(can_append(prev.0, pos));
        lemma_append_count(prev.0, pos);
        let st = append_all(zeros, Seq::<T>::empty(), pairs);
        assert(st == (prev.0.update(pos, true), prev.1.push(elem)));
        assert forall|k: int| 0 <= k < pairs.len() implies element_at(
            st.0,
            st.1,
            #[trigger] pairs[k].1,
        ) == Some(pairs[k].0) by {
            lemma_append_then_lookup(prev.0, prev.1, elem, pos, pairs[k].1);
            if k < init.len() {
                assert(init[k] == pairs[k]);
            }
        }
    }
}

/// Elements appended at strictly increasing positions into an empty array are
/// each found at their own position.
pub proof fn lemma_appended_all_found<T>(n: nat, pairs: Seq<(T, int)>)
    requires
        forall|k: int| 0 <= k < pairs.len() ==> 0 <= #[trigger] pairs[k].1 < n,
        forall|a: int, b: int| 0 <= a < b < pairs.len() ==> pairs[a].1 < pairs[b].1,
    ensures
        forall|k: int|
            0 <= k < pairs.len() ==> element_at(
                append_all(Seq::new(n, |i: int| false), Seq::<T>::empty(), pairs).0,
                append_all(Seq::new(n, |i: int| false), Seq::<T>::empty(), pairs).1,
                #[trigger] pairs[k].1,
            ) == Some(pairs[k].0),
{
    lemma_append_all_inv(n, pairs);
}

} // verus!
