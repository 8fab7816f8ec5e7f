use texatlas::{
    Atlas, AtlasMemParam, BLInsertError, BLInserterInitializer, BLRemoveError, SqPos, SqSize,
};

fn atlas(w: u32, h: u32) -> Atlas<4, u8, u32> {
    Atlas::new(SqSize::new([w, h]), BLInserterInitializer, 0u8)
}

fn unit() -> Option<SqSize> {
    Some(SqSize::new([1, 1]))
}

fn overlaps(a: &AtlasMemParam, b: &AtlasMemParam) -> bool {
    a.pos.x < b.pos.x + b.size.w
        && b.pos.x < a.pos.x + a.size.w
        && a.pos.y < b.pos.y + b.size.h
        && b.pos.y < a.pos.y + a.size.h
}

fn assert_apart(a: &Atlas<4, u8, u32>) {
    let size = a.size();
    let placed: Vec<AtlasMemParam> = a.iter().into_iter().filter_map(|(_, m, _, _)| m).collect();
    for (i, p) in placed.iter().enumerate() {
        assert!(p.pos.x + p.size.w <= size.w && p.pos.y + p.size.h <= size.h);
        for q in placed.iter().skip(i + 1) {
            assert!(!overlaps(p, q), "{:?} overlaps {:?}", p, q);
        }
    }
}

#[test]
fn fill_unit_cells_then_reuse_freed_cell() {
    let mut a = atlas(4, 4);
    let mut placed = Vec::new();
    for k in 0..16u64 {
        let (id, m) = a.insert(k, k as u32, unit()).expect("room for every cell");
        assert_eq!(id, k as usize);
        placed.push(m.unwrap());
    }
    // Bottom-Left order: row by row, left to right.
    for (k, m) in placed.iter().enumerate() {
        assert_eq!(m.pos, SqPos::new([(k % 4) as u32, (k / 4) as u32]));
    }
    assert_eq!(a.insert(16, 16, unit()), Err(BLInsertError::InsNotEnoughSpace));
    let freed = a.get_amp_by_name(5).unwrap();
    let (ud, key, memp) = a.remove_by_name(5).unwrap().unwrap();
    assert_eq!((ud, key, memp), (5, 5, Some(freed)));
    let (id, m) = a.insert(99, 99, unit()).expect("the freed cell is free again");
    assert_eq!(id, 5);
    assert_eq!(m, Some(freed));
    assert_eq!(a.insert(100, 100, unit()), Err(BLInsertError::InsNotEnoughSpace));
    assert_apart(&a);
}

#[test]
fn duplicate_key_is_refused_and_nothing_changes() {
    let mut a = atlas(4, 4);
    let (id, m) = a.insert(7, 70, Some(SqSize::new([2, 2]))).unwrap();
    let snapshot = |a: &Atlas<4, u8, u32>| -> Vec<(usize, Option<AtlasMemParam>, u32, u64)> {
        a.iter().into_iter().map(|(i, m, u, k)| (i, m, *u, k)).collect()
    };
    let before = snapshot(&a);
    assert_eq!(a.insert(7, 71, Some(SqSize::new([1, 1]))), Err(BLInsertError::KeyDuplicate));
    assert_eq!(a.insert(7, 72, None), Err(BLInsertError::KeyDuplicate));
    assert_eq!(a.insert(7, 73, Some(SqSize::new([9, 9]))), Err(BLInsertError::InsDataIsTooLarge));
    assert_eq!(snapshot(&a), before);
    assert_eq!(before, vec![(id, m, 70, 7)]);
    let (memp, ud, key) = a.get(id).unwrap();
    assert_eq!((memp, *ud, key), (m, 70, 7));
}

#[test]
fn oversized_rectangle_is_refused() {
    let mut a = atlas(4, 4);
    assert_eq!(a.insert(1, 1, Some(SqSize::new([5, 1]))), Err(BLInsertError::InsDataIsTooLarge));
    assert_eq!(a.insert(1, 1, Some(SqSize::new([1, 5]))), Err(BLInsertError::InsDataIsTooLarge));
    assert_eq!(a.insert(1, 1, Some(SqSize::new([5, 5]))), Err(BLInsertError::InsDataIsTooLarge));
    assert!(a.iter().is_empty());
    assert_eq!(a.get_id(1), None);
    // The whole atlas is not too large.
    let (_, m) = a.insert(1, 1, Some(SqSize::new([4, 4]))).unwrap();
    assert_eq!(m.unwrap().pos, SqPos::new([0, 0]));
}

#[test]
fn zero_footprint_entries_take_no_space() {
    let mut a = atlas(2, 2);
    let (id, m) = a.insert(32, 0, None).unwrap();
    assert_eq!((id, m), (0, None));
    assert_eq!(a.get_amp(id), None);
    let (memp, ud, key) = a.get_by_name(32).unwrap();
    assert_eq!((memp, *ud, key), (None, 0, 32));
    for k in 0..4u64 {
        assert!(a.insert(k, 1, unit()).is_ok());
    }
    assert_eq!(a.insert(9, 1, unit()), Err(BLInsertError::InsNotEnoughSpace));
    // Even a full atlas takes an entry without a footprint.
    assert!(a.insert(10, 1, None).is_ok());
    assert_eq!(a.remove(id), Ok((0, 32, None)));
}

#[test]
fn lookup_returns_payload_and_placement() {
    let mut a = atlas(8, 8);
    let (i1, m1) = a.insert(100, 11, Some(SqSize::new([3, 2]))).unwrap();
    let (i2, m2) = a.insert(200, 22, Some(SqSize::new([2, 3]))).unwrap();
    let (i3, _) = a.insert(300, 33, Some(SqSize::new([1, 1]))).unwrap();
    assert_eq!(a.get_id(200), Some(i2));
    assert_eq!(a.get_id(400), None);
    assert_eq!(
        a.remove(i3),
        Ok((33, 300, Some(AtlasMemParam { pos: SqPos::new([5, 0]), size: SqSize::new([1, 1]) })))
    );
    let (memp, ud, key) = a.get_by_name(100).unwrap();
    assert_eq!((memp, *ud, key), (m1, 11, 100));
    let (memp, ud, key) = a.get_by_name(200).unwrap();
    assert_eq!((memp, *ud, key), (m2, 22, 200));
    assert_eq!(a.get(i1).map(|(m, u, k)| (m, *u, k)), Some((m1, 11, 100)));
    assert!(a.get_by_name(300).is_none());
    if let Some((_, ud, _)) = a.get_by_name_mut(100) {
        *ud = 111;
    }
    assert_eq!(*a.get_by_name(100).unwrap().1, 111);
    if let Some((_, ud, _)) = a.get_mut(i2) {
        *ud = 222;
    }
    assert_eq!(*a.get(i2).unwrap().1, 222);
}

#[test]
fn bottom_left_placement_order() {
    let mut a = atlas(4, 4);
    let (_, m1) = a.insert(1, 0, Some(SqSize::new([2, 1]))).unwrap();
    let (_, m2) = a.insert(2, 0, Some(SqSize::new([1, 2]))).unwrap();
    let (_, m3) = a.insert(3, 0, Some(SqSize::new([2, 2]))).unwrap();
    let (_, m4) = a.insert(4, 0, Some(SqSize::new([1, 1]))).unwrap();
    assert_eq!(m1.unwrap().pos, SqPos::new([0, 0]));
    assert_eq!(m2.unwrap().pos, SqPos::new([2, 0]));
    // Too wide for the single free column on row 0; sits on the first
    // rectangle.
    assert_eq!(m3.unwrap().pos, SqPos::new([0, 1]));
    assert_eq!(m4.unwrap().pos, SqPos::new([3, 0]));
    assert_apart(&a);
}

#[test]
fn removed_space_is_reusable_by_smaller_entries() {
    let mut a = atlas(4, 4);
    let (big, m) = a.insert(1, 0, Some(SqSize::new([4, 4]))).unwrap();
    assert_eq!(a.insert(2, 0, unit()), Err(BLInsertError::InsNotEnoughSpace));
    assert_eq!(a.remove(big), Ok((0, 1, m)));
    let (_, m2) = a.insert(2, 0, Some(SqSize::new([3, 4]))).unwrap();
    assert_eq!(m2.unwrap().pos, SqPos::new([0, 0]));
    let (_, m3) = a.insert(3, 0, Some(SqSize::new([1, 4]))).unwrap();
    assert_eq!(m3.unwrap().pos, SqPos::new([3, 0]));
    assert_eq!(a.remove_by_name(2).map(|r| r.is_ok()), Some(true));
    let (_, m4) = a.insert(4, 0, Some(SqSize::new([2, 2]))).unwrap();
    assert_eq!(m4.unwrap().pos, SqPos::new([0, 0]));
    assert_apart(&a);
}

#[test]
fn freed_ids_are_reused_oldest_first() {
    let mut a = atlas(4, 4);
    for k in 0..4u64 {
        a.insert(k, 0, unit()).unwrap();
    }
    assert!(a.remove(2).is_ok());
    assert!(a.remove(0).is_ok());
    assert_eq!(a.insert(10, 0, unit()).unwrap().0, 2);
    assert_eq!(a.insert(11, 0, unit()).unwrap().0, 0);
    assert_eq!(a.insert(12, 0, unit()).unwrap().0, 4);
}

#[test]
fn removing_missing_entries() {
    let mut a = atlas(4, 4);
    assert_eq!(a.remove(0), Err(BLRemoveError::EntryNotExist));
    a.insert(1, 0, unit()).unwrap();
    assert!(a.remove(0).is_ok());
    assert_eq!(a.remove(0), Err(BLRemoveError::EntryNotExist));
    assert_eq!(a.remove(7), Err(BLRemoveError::EntryNotExist));
    assert!(a.remove_by_name(1).is_none());
}

#[test]
fn many_operations_keep_rectangles_apart() {
    let mut a = atlas(16, 16);
    let mut seed: u64 = 12345;
    let mut next = move || {
        seed = seed.wrapping_mul(6364136223846793005).wrapping_add(1442695040888963407);
        (seed >> 33) as u32
    };
    for step in 0..400u64 {
        if next() % 3 == 0 {
            let key = (next() % 60) as u64;
            let _ = a.remove_by_name(key);
        } else {
            let size = SqSize::new([next() % 5 + 1, next() % 5 + 1]);
            let _ = a.insert(step % 60, step as u32, Some(size));
        }
        assert_apart(&a);
    }
}

#[test]
fn pixels_are_written_and_read_back() {
    let mut a = atlas(2, 2);
    assert_eq!(a.raw().len(), 16);
    assert!(a.raw().iter().all(|&v| v == 0));
    assert!(!a.is_modified());
    a.write_pixel(SqPos::new([1, 1]), &[1, 2, 3, 4]);
    assert!(a.is_modified());
    assert_eq!(a.pixel(SqPos::new([1, 1])), vec![1, 2, 3, 4]);
    assert_eq!(a.pixel(SqPos::new([0, 1])), vec![0, 0, 0, 0]);
    assert_eq!(&a.raw()[12..16], &[1, 2, 3, 4]);
    a.clear_modified();
    assert!(!a.is_modified());
}

#[test]
fn region_pixels_in_local_order() {
    let mut a = atlas(4, 3);
    let (_, m) = a.insert(1, 0, Some(SqSize::new([2, 2]))).unwrap();
    let (_, m2) = a.insert(2, 0, Some(SqSize::new([2, 3]))).unwrap();
    let m2 = m2.unwrap();
    assert_eq!(m2.pos, SqPos::new([2, 0]));
    let data: Vec<Vec<u8>> = (0..6u8).map(|i| vec![i, i, i, 255]).collect();
    a.write_obj(&m2, &data);
    assert!(a.is_modified());
    let got = a.get_obj(&m2);
    assert_eq!(got.len(), 6);
    for (i, (li, px)) in got.iter().enumerate() {
        assert_eq!(*li, i);
        assert_eq!(px, &data[i]);
    }
    // Local index 3 is (1, 1) inside the rectangle: cell (3, 1) of the atlas.
    assert_eq!(a.pixel(SqPos::new([3, 1])), vec![3, 3, 3, 255]);
    // The other entry's cells are untouched.
    for (_, px) in a.get_obj(&m.unwrap()) {
        assert_eq!(px, vec![0, 0, 0, 0]);
    }
}

#[test]
fn oversized_wins_over_duplicate_key() {
    let mut a = atlas(4, 4);
    a.insert(1, 0, unit()).unwrap();
    assert_eq!(a.insert(1, 0, Some(SqSize::new([5, 1]))), Err(BLInsertError::InsDataIsTooLarge));
    assert_eq!(a.insert(1, 0, Some(SqSize::new([1, 5]))), Err(BLInsertError::InsDataIsTooLarge));
    assert_eq!(a.insert(1, 0, unit()), Err(BLInsertError::KeyDuplicate));
    // A full atlas still reports the duplicate key first.
    for k in 2..17u64 {
        a.insert(k, 0, unit()).unwrap();
    }
    assert_eq!(a.insert(1, 0, unit()), Err(BLInsertError::KeyDuplicate));
    assert_eq!(a.insert(99, 0, unit()), Err(BLInsertError::InsNotEnoughSpace));
}
