use bvrs::BvError;
use bvrs::SparseArray;

#[derive(PartialEq, Debug)]
struct Point {
    x: i64,
    y: i64,
}

#[test]
fn single_element_get_at_index_tests() {
    for i in 1..=32 {
        let size = i * 32;
        let mut sa: SparseArray<String> = SparseArray::new(size);
        let _ = sa.append("alp".to_owned(), 3);
        let res = sa.get_at_index(3).unwrap();
        assert_eq!(*res, "alp".to_owned());
    }
}

#[test]
fn fail_get_at_index_tests() {
    for i in 1..=32 {
        let size = i * 32;
        let mut sa: SparseArray<String> = SparseArray::new(size);
        let _ = sa.append("alp".to_owned(), 3);
        let res = sa.get_at_index(4);
        assert_eq!(res, None);
    }
}

#[test]
fn single_element_get_at_rank_tests() {
    for i in 1..=32 {
        let size = i * 32;
        let mut sa: SparseArray<String> = SparseArray::new(size);
        let _ = sa.append("alp".to_owned(), 3);
        let res = sa.get_at_rank(1).unwrap();
        assert_eq!(*res, "alp".to_owned());
    }
}

#[test]
fn fail_get_at_rank_tests() {
    for i in 1..=32 {
        let size = i * 32;
        let mut sa: SparseArray<String> = SparseArray::new(size);
        let _ = sa.append("alp".to_owned(), 3);
        let res = sa.get_at_rank(2);
        assert_eq!(res, None);
    }
}

#[test]
fn test_generic_construction() {
    for i in 1..=32 {
        let size = i * 32;
        let mut sa: SparseArray<Point> = SparseArray::new(size);
        let _ = sa.append(Point { x: 3, y: -4 }, 3);
        let res = sa.get_at_index(3).unwrap();
        assert_eq!(*res, Point { x: 3, y: -4 });
    }
    for i in 1..=32 {
        let size = i * 32;
        let mut sa: SparseArray<Point> = SparseArray::new(size);
        let _ = sa.append(Point { x: 3, y: -4 }, 3);
        let res = sa.get_at_index(4);
        assert_eq!(res, None);
    }
}

#[test]
fn test_generic_save_load() {
    let size = 128;
    let mut sa: SparseArray<Point> = SparseArray::new(size);
    let _ = sa.append(Point { x: 3, y: -4 }, 3);
    let payload: Vec<Vec<u8>> =
        sa.elements().iter().map(|p| serde_json::to_vec(&(p.x, p.y)).unwrap()).collect();
    let saved = sa.to_bytes(&payload);
    let raw = SparseArray::<Vec<u8>>::from_bytes(&saved).unwrap();
    let points: Vec<Point> = raw
        .elements()
        .iter()
        .map(|e| {
            let (x, y): (i64, i64) = serde_json::from_slice(e).unwrap();
            Point { x, y }
        })
        .collect();
    let mut sa2 = raw.with_elements(points).unwrap();
    let res = sa2.get_at_index(3).unwrap();
    assert_eq!(*res, Point { x: 3, y: -4 });
}

#[test]
fn string_map_scenario() {
    let mut sa: SparseArray<String> = SparseArray::new(128);
    assert_eq!(sa.append("alp".to_owned(), 3), Ok(()));
    assert_eq!(sa.get_at_index(3), Some(&"alp".to_owned()));
    assert_eq!(sa.get_at_index(4), None);
    assert_eq!(sa.get_at_rank(1), Some(&"alp".to_owned()));
    assert_eq!(sa.get_at_rank(2), None);
    assert_eq!(sa.num_elem(), 1);
    assert_eq!(sa.num_elem_at(5), 1);
    assert_eq!(sa.size(), 128);
}

#[test]
fn record_round_trip_scenario() {
    let mut sa: SparseArray<(i64, i64)> = SparseArray::new(128);
    assert_eq!(sa.append((3, -4), 3), Ok(()));
    let payload: Vec<Vec<u8>> =
        sa.elements().iter().map(|e| serde_json::to_vec(e).unwrap()).collect();
    let saved = sa.to_bytes(&payload);
    let raw = SparseArray::<Vec<u8>>::from_bytes(&saved).unwrap();
    let vals: Vec<(i64, i64)> =
        raw.elements().iter().map(|e| serde_json::from_slice(e).unwrap()).collect();
    let mut loaded = raw.with_elements(vals).unwrap();
    assert_eq!(loaded.get_at_index(3), Some(&(3, -4)));
    assert_eq!(loaded.get_at_index(2), None);
    assert_eq!(loaded.size(), 128);
}

#[test]
fn every_appended_element_is_found() {
    let mut sa: SparseArray<u32> = SparseArray::new(1000);
    let positions = [0usize, 1, 7, 64, 65, 300, 511, 512, 999];
    for (k, &p) in positions.iter().enumerate() {
        assert_eq!(sa.append(k as u32 * 10, p), Ok(()));
    }
    for (k, &p) in positions.iter().enumerate() {
        assert_eq!(sa.get_at_index(p), Some(&(k as u32 * 10)));
        assert_eq!(sa.num_elem_at(p as u64), k as u64 + 1);
        assert_eq!(sa.get_at_rank(k + 1), Some(&(k as u32 * 10)));
    }
    assert_eq!(sa.get_at_index(2), None);
    assert_eq!(sa.num_elem(), positions.len());
}

#[test]
fn append_out_of_range_fails() {
    let mut sa: SparseArray<u8> = SparseArray::new(16);
    assert_eq!(sa.append(1, 16), Err(BvError::OutOfRange));
    assert_eq!(sa.num_elem(), 0);
}

#[test]
fn append_not_increasing_fails() {
    let mut sa: SparseArray<u8> = SparseArray::new(16);
    assert_eq!(sa.append(1, 5), Ok(()));
    assert_eq!(sa.append(2, 5), Err(BvError::NonMonotonic));
    assert_eq!(sa.append(2, 4), Err(BvError::NonMonotonic));
    assert_eq!(sa.append(2, 6), Ok(()));
    assert_eq!(sa.num_elem(), 2);
    assert_eq!(sa.get_at_index(5), Some(&1));
}

#[test]
fn get_at_rank_zero_is_absent() {
    let mut sa: SparseArray<u8> = SparseArray::new(16);
    let _ = sa.append(9, 2);
    assert_eq!(sa.get_at_rank(0), None);
}

#[test]
fn with_elements_checks_count() {
    let mut sa: SparseArray<u8> = SparseArray::new(16);
    let _ = sa.append(9, 2);
    assert!(sa.with_elements(vec![1u16, 2]).is_err());
}
