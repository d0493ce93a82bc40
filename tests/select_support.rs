use bvrs::BitVec;
use bvrs::RankSupport;
use bvrs::SelectSupport;
use std::borrow::Cow;

#[test]
fn select_support_small_tests() {
    for i in 1..=128 {
        let size = i * 8;
        let b = BitVec::new_with_random(size);
        let r = RankSupport::new_with_index_computation(Cow::Borrowed(&b));
        let s = SelectSupport::new(Cow::Borrowed(&r));
        for j in 1..b.size {
            let dummy_res = SelectSupport::dummy_selectn(&s, j);
            let smart_res = s.select1(j as u64);
            assert_eq!(dummy_res, smart_res, "size: {}, point: {}", size, j);
        }
    }
}

#[test]
fn select_of_known_pattern() {
    let b = BitVec::new_with_vec(vec![0b10010001, 0b10000001]);
    let r = RankSupport::new(&b);
    let s = SelectSupport::new(Cow::Borrowed(&r));
    assert_eq!(s.select1(1), Some(0));
    assert_eq!(s.select1(2), Some(3));
    assert_eq!(s.select1(3), Some(7));
    assert_eq!(s.select1(4), Some(8));
    assert_eq!(s.select1(5), Some(15));
    assert_eq!(s.select1(6), None);
}

#[test]
fn select_all_zeros_64() {
    let b = BitVec::new(64);
    let r = RankSupport::new(&b);
    let s = SelectSupport::new(Cow::Borrowed(&r));
    assert_eq!(s.select1(1), None);
}

#[test]
fn select_all_ones_64() {
    let b = BitVec::new_with_vec(vec![0xff; 8]);
    let r = RankSupport::new(&b);
    let s = SelectSupport::new(Cow::Borrowed(&r));
    for k in 1..=64u64 {
        assert_eq!(s.select1(k), Some(k - 1));
    }
    assert_eq!(s.select1(65), None);
}

#[test]
fn select_zero_is_absent() {
    let b = BitVec::new_with_vec(vec![0xff; 8]);
    let r = RankSupport::new(&b);
    let s = SelectSupport::new(Cow::Borrowed(&r));
    assert_eq!(s.select1(0), None);
    assert_eq!(s.dummy_selectn(0), None);
}

#[test]
fn select_past_popcount_is_absent() {
    let b = BitVec::new_with_random(2000);
    let r = RankSupport::new(&b);
    let total = r.rank1(1999);
    let s = SelectSupport::new(Cow::Owned(r));
    assert_eq!(s.select1(total + 1), None);
    assert_eq!(s.dummy_selectn(total as usize + 1), None);
}

#[test]
fn select_then_rank_agree() {
    let b = BitVec::new_with_random(3000);
    let r = RankSupport::new(&b);
    let s = SelectSupport::new(Cow::Borrowed(&r));
    let total = r.rank1(2999);
    for k in 1..=total {
        let i = s.select1(k).unwrap();
        assert!(b.get(i as usize));
        assert_eq!(r.rank1(i), k);
        assert!(i == 0 || r.rank1(i - 1) == k - 1);
    }
}

#[test]
fn select_overhead_matches_rank() {
    let b = BitVec::new(64);
    let r = RankSupport::new(&b);
    let s = SelectSupport::new(Cow::Borrowed(&r));
    assert_eq!(s.overhead(), 112);
}

#[test]
fn select_snapshot_round_trip() {
    let b = BitVec::new_with_random(700);
    let r = RankSupport::new(&b);
    let s = SelectSupport::new(Cow::Borrowed(&r));
    let saved = s.to_bytes();
    let s2 = SelectSupport::from_bytes(&saved).unwrap();
    for k in 1..700u64 {
        assert_eq!(s.select1(k), s2.select1(k));
    }
    assert!(RankSupport::from_bytes(&saved).is_err());
}
