use bvrs::BitVec;
use bvrs::RankSupport;

fn check_rank_against_oracle(b: &BitVec, r: &RankSupport, step: usize) {
    for j in (0..b.size).step_by(step) {
        let dummy_res = RankSupport::dummy_rankn(b, j);
        let smart_res = r.rank1(j as u64);
        assert_eq!(dummy_res, smart_res, "size: {}, point: {}", b.size, j);
    }
}

#[test]
fn rank_support_small_tests() {
    for i in 1..=128 {
        let size = i * 8;
        let b = BitVec::new_with_random(size);
        let mut r = RankSupport::new(&b);
        r.compute_index();
        check_rank_against_oracle(&b, &r, 1);
    }
}

#[test]
fn small_tests_two() {
    for i in 1..=128 {
        let size = i * 8;
        let b = BitVec::new_with_random(size);
        let r = RankSupport::new(&b);
        check_rank_against_oracle(&b, &r, 1);
    }
}

#[test]
fn medium_tests() {
    for i in 128..=160 {
        let size = i * 128;
        let b = BitVec::new_with_random(size);
        let mut r = RankSupport::new(&b);
        r.compute_index();
        check_rank_against_oracle(&b, &r, 80);
    }
}

#[test]
fn large_tests() {
    for i in 256..=280 {
        let size = i * 128;
        let b = BitVec::new_with_random(size);
        let mut r = RankSupport::new(&b);
        r.compute_index();
        check_rank_against_oracle(&b, &r, 250);
    }
}

#[test]
fn very_large_tests() {
    for size in [40960, 51200, 61440] {
        let b = BitVec::new_with_random(size);
        let mut r = RankSupport::new(&b);
        r.compute_index();
        check_rank_against_oracle(&b, &r, 250);
    }
}

#[test]
fn simple_test() {
    let size = 128;
    let b = BitVec::new_with_random(size);
    let mut r = RankSupport::new(&b);
    r.compute_index();
    let saved = r.to_bytes();
    let r2 = RankSupport::from_bytes(&saved).unwrap();
    check_rank_against_oracle(&b, &r2, 1);
}

#[test]
fn new_with_load_test() {
    let size = 128;
    let b = BitVec::new_with_random(size);
    let b = b.clone();
    let r = RankSupport::new(&b);
    let saved = r.to_bytes();
    let r2 = RankSupport::from_bytes(&saved).unwrap();
    check_rank_against_oracle(&b, &r2, 1);
}

#[test]
fn overhead() {
    let mut overheads = vec![];
    for i in 1..=84 {
        let size = i * i * 8;
        let b = BitVec::new_with_random(size);
        let mut r = RankSupport::new(&b);
        r.compute_index();
        let overhead = r.overhead();
        overheads.push((size, overhead, size as f64 / overhead as f64));
    }
    println!("Overheads: {:?}", overheads);
}

#[test]
fn rank_of_known_pattern_counts_inclusively() {
    let b = BitVec::new_with_vec(vec![0b10010001, 0b10000001]);
    let r = RankSupport::new(&b);
    assert_eq!(r.rank1(0), 1);
    assert_eq!(r.rank1(3), 2);
    assert_eq!(r.rank1(7), 3);
    assert_eq!(r.rank1(8), 4);
    assert_eq!(r.rank1(15), 5);
}

#[test]
fn rank_of_clear_first_bit_is_zero() {
    let b = BitVec::new_with_vec(vec![0b01010001, 0b10000001]);
    let r = RankSupport::new(&b);
    assert_eq!(r.rank1(0), 0);
    assert_eq!(r.rank1(1), 1);
}

#[test]
fn rank_all_zeros_64() {
    let b = BitVec::new(64);
    let r = RankSupport::new(&b);
    for i in 0..64 {
        assert_eq!(r.rank1(i), 0);
    }
}

#[test]
fn rank_all_ones_64() {
    let b = BitVec::new_with_vec(vec![0xff; 8]);
    let r = RankSupport::new(&b);
    for i in 0..64 {
        assert_eq!(r.rank1(i), i + 1);
    }
}

#[test]
fn rank_all_ones_large_uses_index() {
    let b = BitVec::new_with_vec(vec![0xff; 512]);
    let r = RankSupport::new(&b);
    for i in 0..4096 {
        assert_eq!(r.rank1(i), i + 1);
    }
}

#[test]
fn rank_last_is_popcount() {
    let b = BitVec::new_with_random(5000);
    let r = RankSupport::new(&b);
    let total = (0..b.size).filter(|&i| b.get(i)).count() as u64;
    assert_eq!(r.rank1(4999), total);
}

#[test]
fn rank_past_the_end_is_popcount() {
    let b = BitVec::new_with_vec(vec![0b10100000; 16]);
    let r = RankSupport::new(&b);
    assert_eq!(r.rank1(127), 32);
    assert_eq!(r.rank1(128), 32);
    assert_eq!(r.rank1(u64::MAX), 32);
}

#[test]
fn rank_of_empty_vector_is_zero() {
    let b = BitVec::new(0);
    let r = RankSupport::new(&b);
    assert_eq!(r.rank1(0), 0);
    assert_eq!(r.rank1(10), 0);
}

#[test]
fn rank_of_odd_length_vectors() {
    for size in [1, 3, 7, 63, 65, 100, 129, 1001] {
        let b = BitVec::new_with_random(size);
        let r = RankSupport::new(&b);
        check_rank_against_oracle(&b, &r, 1);
    }
}

#[test]
fn set_rebuilds_the_index() {
    let b = BitVec::new(256);
    let mut r = RankSupport::new(&b);
    r.set(10);
    r.set(200);
    assert_eq!(r.rank1(9), 0);
    assert_eq!(r.rank1(10), 1);
    assert_eq!(r.rank1(199), 1);
    assert_eq!(r.rank1(255), 2);
    assert!(!b.get(10));
}

#[test]
fn overhead_exact_values() {
    let b = BitVec::new(64);
    assert_eq!(RankSupport::new(&b).overhead(), 112);
    let b = BitVec::new(16);
    assert_eq!(RankSupport::new(&b).overhead(), 44);
}

#[test]
fn overhead_is_deterministic() {
    let b = BitVec::new_with_random(3000);
    let c = b.clone();
    assert_eq!(RankSupport::new(&b).overhead(), RankSupport::new(&c).overhead());
}
