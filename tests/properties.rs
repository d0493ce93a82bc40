use bvrs::BitVec;
use bvrs::RankSupport;
use bvrs::SelectSupport;
use std::borrow::Cow;

#[test]
fn randomized_rank_and_select_against_oracles() {
    let sizes = [64usize, 256, 1024, 40960, 51200, 61440];
    for round in 0..100 {
        let size = sizes[round % sizes.len()];
        let b = BitVec::new_with_random(size);
        let r = RankSupport::new(&b);
        let s = SelectSupport::new(Cow::Borrowed(&r));
        let step = if size > 2000 { 997 } else { 7 };
        for i in (0..size).step_by(step) {
            assert_eq!(r.rank1(i as u64), RankSupport::dummy_rankn(&b, i));
        }
        let total = r.rank1(size as u64 - 1) as usize;
        let kstep = std::cmp::max(1, total / 20);
        for k in (1..=total + 1).step_by(kstep) {
            assert_eq!(s.select1(k as u64), s.dummy_selectn(k));
        }
        assert_eq!(s.select1(total as u64 + 1), None);
    }
}
