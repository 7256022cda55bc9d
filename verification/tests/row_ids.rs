use string_column::row_ids::RowIDs;

fn both() -> Vec<RowIDs> {
    vec![RowIDs::new_vector(), RowIDs::new_bitmap()]
}

fn of(bitmap: bool, ids: &[u32]) -> RowIDs {
    let mut s = if bitmap { RowIDs::new_bitmap() } else { RowIDs::new_vector() };
    for r in ids {
        s.add(*r);
    }
    s
}

#[test]
fn row_ids_new_is_empty() {
    for s in both() {
        assert!(s.is_empty());
        assert_eq!(s.len(), 0);
        assert!(s.to_vec().is_empty());
        assert!(!s.contains(0));
    }
    assert!(!RowIDs::new().has_bitmap());
    assert!(!RowIDs::new_vector().has_bitmap());
    assert!(RowIDs::new_bitmap().has_bitmap());
}

#[test]
fn row_ids_with_capacity_is_an_empty_bitmap() {
    for n in [0u32, 1, 63, 64, 65, 1000] {
        let mut s = RowIDs::with_capacity(n);
        assert!(s.has_bitmap());
        assert!(s.is_empty());
        assert_eq!(s.len(), 0);
        s.add(n);
        assert_eq!(s.to_vec(), vec![n]);
    }
}

#[test]
fn row_ids_add_keeps_order_and_drops_duplicates() {
    for mut s in both() {
        for r in [70u32, 3, 64, 3, 0, 63, 70, 1_000_000] {
            s.add(r);
        }
        assert_eq!(s.to_vec(), vec![0, 3, 63, 64, 70, 1_000_000]);
        assert_eq!(s.len(), 6);
        assert!(!s.is_empty());
        assert!(s.contains(63));
        assert!(s.contains(64));
        assert!(s.contains(1_000_000));
        assert!(!s.contains(1));
        assert!(!s.contains(65));
        assert!(!s.contains(u32::MAX));
    }
}

#[test]
fn row_ids_add_greatest_row_id() {
    let mut s = RowIDs::new_vector();
    s.add(u32::MAX);
    s.add(0);
    assert_eq!(s.to_vec(), vec![0, u32::MAX]);
    assert!(s.contains(u32::MAX));
}

#[test]
fn row_ids_add_range_is_half_open() {
    for mut s in both() {
        s.add(100);
        s.add_range(3, 7);
        assert_eq!(s.to_vec(), vec![3, 4, 5, 6, 100]);
        s.add_range(5, 9);
        assert_eq!(s.to_vec(), vec![3, 4, 5, 6, 7, 8, 100]);
        s.add_range(9, 9);
        s.add_range(12, 4);
        assert_eq!(s.to_vec(), vec![3, 4, 5, 6, 7, 8, 100]);
        assert_eq!(s.len(), 7);
    }
}

#[test]
fn row_ids_union_of_every_pair_of_representations() {
    for left_bitmap in [false, true] {
        for right_bitmap in [false, true] {
            let mut a = of(left_bitmap, &[1, 5, 9, 200]);
            let b = of(right_bitmap, &[0, 5, 6, 300]);
            a.union_in_place(&b);
            assert_eq!(a.to_vec(), vec![0, 1, 5, 6, 9, 200, 300]);
            assert_eq!(a.has_bitmap(), left_bitmap);
            assert_eq!(b.to_vec(), vec![0, 5, 6, 300]);

            let mut c = of(left_bitmap, &[1, 2]);
            c.union_in_place(&of(right_bitmap, &[]));
            assert_eq!(c.to_vec(), vec![1, 2]);
            let mut d = of(left_bitmap, &[]);
            d.union_in_place(&of(right_bitmap, &[7, 8]));
            assert_eq!(d.to_vec(), vec![7, 8]);
            let mut e = of(left_bitmap, &[1, 2]);
            e.union_in_place(&of(right_bitmap, &[3, 4]));
            assert_eq!(e.to_vec(), vec![1, 2, 3, 4]);
            let mut f = of(left_bitmap, &[3, 4]);
            f.union_in_place(&of(right_bitmap, &[1, 2]));
            assert_eq!(f.to_vec(), vec![1, 2, 3, 4]);
        }
    }
}

#[test]
fn row_ids_intersect_of_every_pair_of_representations() {
    for left_bitmap in [false, true] {
        for right_bitmap in [false, true] {
            let mut a = of(left_bitmap, &[1, 5, 9, 64, 200]);
            let b = of(right_bitmap, &[0, 5, 6, 64, 300]);
            a.intersect_in_place(&b);
            assert_eq!(a.to_vec(), vec![5, 64]);
            assert_eq!(a.has_bitmap(), left_bitmap);

            let mut c = of(left_bitmap, &[1, 2]);
            c.intersect_in_place(&of(right_bitmap, &[]));
            assert!(c.is_empty());
            let mut d = of(left_bitmap, &[1, 2]);
            d.intersect_in_place(&of(right_bitmap, &[3]));
            assert!(d.is_empty());
        }
    }
}

#[test]
fn row_ids_duplicate_and_clear() {
    for bitmap in [false, true] {
        let mut a = of(bitmap, &[4, 2, 130]);
        let b = a.duplicate();
        assert_eq!(b.to_vec(), vec![2, 4, 130]);
        assert_eq!(b.has_bitmap(), bitmap);
        a.clear();
        assert!(a.is_empty());
        assert_eq!(a.has_bitmap(), bitmap);
        assert_eq!(b.to_vec(), vec![2, 4, 130]);
        assert_eq!(b.into_sorted_vec(), vec![2, 4, 130]);
        a.add(1);
        assert_eq!(a.to_vec(), vec![1]);
    }
}
