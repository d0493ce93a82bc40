use bvrs::BitVec;
use bvrs::BvError;

#[test]
fn test_new() {}

#[test]
fn test_new_with_vec() {}

#[test]
fn test_new_with_random() {}

#[test]
fn test_get_bool() {}

#[test]
fn test_get_u8() {}

#[test]
fn test_concat() {}

#[test]
fn test_incr() {
    let bv1 = BitVec::new_with_vec(vec![0b10010001, 0b10000001]);
    let bv2 = bv1.incr();
    assert_eq!(bv2, BitVec::new_with_vec(vec![0b10010001, 0b10000010]));
    let bv3 = bv2.incr();
    assert_eq!(bv3, BitVec::new_with_vec(vec![0b10010001, 0b10000011]));
    let bv4 = bv3.incr();
    assert_eq!(bv4, BitVec::new_with_vec(vec![0b10010001, 0b10000100]));
}

#[test]
fn test_add() {
    let bv1 = BitVec::new_with_vec(vec![0b10010001, 0b10000001]);
    let bv2 = BitVec::new_with_vec(vec![0b10000001, 0b10000001]);
    let addition = bv1 + bv2;
    assert_eq!(addition, BitVec::new_with_vec(vec![0b00010011, 0b00000010]));
}

#[test]
fn bits_read_most_significant_first() {
    let b = BitVec::new_with_vec(vec![0b10010001, 0b10000001]);
    let ones: Vec<usize> = (0..b.size).filter(|&i| b.get(i)).collect();
    assert_eq!(ones, vec![0, 3, 7, 8, 15]);
    assert_eq!(b.get_u8(3), 1);
    assert_eq!(b.get_u8(4), 0);
}

#[test]
fn get_past_the_end_reads_zero() {
    let b = BitVec::new_with_vec(vec![0xff]);
    assert!(b.get(7));
    assert!(!b.get(8));
    assert!(!b.get(1000));
    assert_eq!(b.get_u8(8), 0);
}

#[test]
fn short_vector_uses_low_bits_of_first_byte() {
    let mut b = BitVec::new_with_zeros(12);
    assert_eq!(b.bv.len(), 2);
    b.set(0);
    b.set(11);
    assert_eq!(b.bv, vec![0b00001000, 0b00000001]);
    assert!(b.get(0));
    assert!(b.get(11));
    assert!(!b.get(1));
}

#[test]
fn set_past_the_end_changes_nothing() {
    let mut b = BitVec::new(16);
    b.set(16);
    b.set(100);
    assert_eq!(b, BitVec::new(16));
}

#[test]
fn extract_reads_big_endian_value() {
    let b = BitVec::new_with_vec(vec![0b10010001, 0b10000001]);
    let e = b.extract(0, 8).unwrap();
    assert_eq!(e.size, 8);
    assert_eq!(e.to_u64(), 0b10010001);
    let e = b.extract(5, 10).unwrap();
    assert_eq!(e.to_u64(), 0b00110);
    let e = b.extract(14, 20).unwrap();
    assert_eq!(e.to_u64(), 0b010000);
}

#[test]
fn extract_with_equal_ends_is_zero() {
    let b = BitVec::new_with_vec(vec![0xff, 0xff]);
    let e = b.extract(5, 5).unwrap();
    assert_eq!(e.size, 0);
    assert_eq!(e.to_u64(), 0);
}

#[test]
fn extract_out_of_order_fails() {
    let b = BitVec::new(16);
    assert_eq!(b.extract(6, 5), Err(BvError::OutOfOrderExtract));
}

#[test]
fn from_u64_keeps_low_bits() {
    let b = BitVec::from_u64(0x1_2345, 16);
    assert_eq!(b.size, 16);
    assert_eq!(b.to_u64(), 0x2345);
    let b = BitVec::from_u64(5, 3);
    assert_eq!(b.bv, vec![0b101]);
    assert!(b.get(0) && !b.get(1) && b.get(2));
}

#[test]
fn to_u64_of_full_word() {
    let b = BitVec::new_with_vec(vec![0x01, 0x02, 0x03, 0x04, 0x05, 0x06, 0x07, 0x08]);
    assert_eq!(b.to_u64(), 0x0102030405060708);
}

#[test]
fn zero_extend_pads_to_eight_bytes() {
    let b = BitVec::new_with_vec(vec![0xab, 0xcd]);
    let z = b.zero_extend();
    assert_eq!(z.bv, vec![0, 0, 0, 0, 0, 0, 0xab, 0xcd]);
    assert_eq!(z.size, 64);
    assert_eq!(z.to_u64(), 0xabcd);
}

#[test]
fn concat_joins_bytes() {
    let a = BitVec::new_with_vec(vec![0x12]);
    let b = BitVec::new_with_vec(vec![0x34, 0x56]);
    let c = a.concat(&b);
    assert_eq!(c.bv, vec![0x12, 0x34, 0x56]);
    assert_eq!(c.size, 24);
}

#[test]
fn random_vector_has_requested_size() {
    let b = BitVec::new_with_random(100);
    assert_eq!(b.size, 100);
    assert_eq!(b.bv.len(), 13);
}

#[test]
fn fibonacci_values() {
    assert_eq!(bvrs::fibonacci(0), 1);
    assert_eq!(bvrs::fibonacci(1), 1);
    assert_eq!(bvrs::fibonacci(10), 89);
}

#[test]
fn to_u64_is_value_of_bytes() {
    let b = BitVec::new_with_vec(vec![0b10010001, 0b10000001]);
    assert_eq!(b.to_u64(), 37249);
}

#[test]
fn from_u64_clears_spare_bits() {
    let b = BitVec::from_u64(0xff, 5);
    assert_eq!(b.bv, vec![0b00011111]);
    let b = BitVec::from_u64(0x1_2345, 12);
    assert_eq!(b.bv, vec![0x03, 0x45]);
    assert_eq!(BitVec::from_u64(0x345, 12).to_u64(), 0x345);
}

#[test]
fn random_vector_spare_bits_are_zero() {
    for _ in 0..50 {
        let b = BitVec::new_with_random(13);
        assert_eq!(b.bv[0] & 0b11100000, 0);
    }
}
