use bvrs::BitVec;
use bvrs::BvError;
use bvrs::RankSupport;
use bvrs::SparseArray;

#[test]
fn rank_snapshot_round_trip_keeps_every_rank() {
    for size in [0, 5, 64, 1000] {
        let b = BitVec::new_with_random(size);
        let r = RankSupport::new(&b);
        let r2 = RankSupport::from_bytes(&r.to_bytes()).unwrap();
        for i in 0..(size as u64 + 2) {
            assert_eq!(r.rank1(i), r2.rank1(i));
        }
        assert_eq!(r2.bit_vec(), &b);
    }
}

#[test]
fn snapshot_starts_with_magic_and_version() {
    let b = BitVec::new(8);
    let saved = RankSupport::new(&b).to_bytes();
    assert_eq!(&saved[0..6], &[0x42, 0x56, 0x52, 0x53, 1, 0]);
}

#[test]
fn truncated_snapshot_is_corrupt() {
    let b = BitVec::new_with_random(300);
    let saved = RankSupport::new(&b).to_bytes();
    for cut in [0, 3, 13, 20, saved.len() - 1] {
        let res = RankSupport::from_bytes(&saved[..cut].to_vec());
        assert_eq!(res.err(), Some(BvError::CorruptSnapshot));
    }
}

#[test]
fn tampered_snapshot_is_corrupt() {
    let b = BitVec::new_with_random(300);
    let mut saved = RankSupport::new(&b).to_bytes();
    let last = saved.len() - 1;
    saved[last] ^= 0xff;
    assert_eq!(RankSupport::from_bytes(&saved).err(), Some(BvError::CorruptSnapshot));
    let mut longer = RankSupport::new(&b).to_bytes();
    longer.push(0);
    assert_eq!(RankSupport::from_bytes(&longer).err(), Some(BvError::CorruptSnapshot));
}

#[test]
fn foreign_bytes_are_corrupt() {
    let res = RankSupport::from_bytes(&b"{\"bv\": [1, 2, 3]}".to_vec());
    assert_eq!(res.err(), Some(BvError::CorruptSnapshot));
}

#[test]
fn sparse_snapshot_with_wrong_count_is_corrupt() {
    let mut sa: SparseArray<u8> = SparseArray::new(64);
    let _ = sa.append(1, 10);
    let saved = sa.to_bytes(&vec![vec![1u8]]);
    assert!(SparseArray::<Vec<u8>>::from_bytes(&saved).is_ok());
    let mut cut = saved.clone();
    cut.pop();
    assert_eq!(SparseArray::<Vec<u8>>::from_bytes(&cut).err(), Some(BvError::CorruptSnapshot));
    let rank_saved = RankSupport::new(&BitVec::new(64)).to_bytes();
    assert_eq!(
        SparseArray::<Vec<u8>>::from_bytes(&rank_saved).err(),
        Some(BvError::CorruptSnapshot)
    );
}

#[test]
fn snapshot_with_spare_bit_set_is_corrupt() {
    let b = BitVec::new(12);
    let mut saved = RankSupport::new(&b).to_bytes();
    saved[14] |= 0x80;
    assert_eq!(RankSupport::from_bytes(&saved).err(), Some(BvError::CorruptSnapshot));
}
