use texatlas::{
    AtlasElemMem, AtlasMem, AtlasMemParam, BLInsertError, BLRemoveError, SqPos, SqSize,
    TypeAtlasInsertError, TypeAtlasRemoveError,
};

#[test]
fn sizes_and_positions() {
    assert_eq!(SqSize::new_checked([3, 0]), None);
    assert_eq!(SqSize::new_checked([0, 3]), None);
    let s = SqSize::new_checked([3, 2]).unwrap();
    assert_eq!((s.w(), s.h(), s.raw(), s.serial()), (3, 2, [3, 2], 6));
    let p = SqPos::new([2, 1]);
    assert_eq!((p.x(), p.y(), p.raw()), (2, 1, [2, 1]));
    assert_eq!(p.serial(s), 5);
    assert_eq!(p.serial_checked(s), Some(5));
    assert_eq!(SqPos::new([3, 0]).serial_checked(s), None);
    assert_eq!(SqPos::new([0, 2]).serial_checked(s), None);
    let mut q = p;
    *q.x_mut() = 7;
    *q.y_mut() = 8;
    assert_eq!(q, SqPos::new([7, 8]));
    let mut t = s;
    *t.w_mut() = 4;
    *t.h_mut() = 5;
    assert_eq!(t, SqSize::new([4, 5]));
}

#[test]
fn pixel_memory_cells() {
    let mut m: AtlasMem<2, u8> = AtlasMem::new(SqSize::new([3, 2]), 9);
    assert_eq!(m.raw(), &[9u8; 12][..]);
    m.set(SqPos::new([2, 1]), &[5, 6]);
    assert_eq!(m.get(SqPos::new([2, 1])), vec![5, 6]);
    assert_eq!(&m.raw()[10..12], &[5, 6]);
    assert_eq!(m.get_checked(SqPos::new([3, 0])), None);
    assert_eq!(m.get_checked(SqPos::new([0, 1])), Some(vec![9, 9]));
    let cells = m.iter();
    assert_eq!(cells.len(), 6);
    assert_eq!(cells[5], vec![5, 6]);
    assert!(cells[..5].iter().all(|c| c == &vec![9, 9]));
}

#[test]
fn slot_table_keys_and_ids() {
    let mut t: AtlasElemMem<&str> = AtlasElemMem::new();
    let m = AtlasMemParam { pos: SqPos::new([0, 0]), size: SqSize::new([1, 1]) };
    assert_eq!(t.insert(Some(m), "a", 100), Ok(0));
    assert_eq!(t.insert(None, "b", 200), Ok(1));
    assert_eq!(t.insert(None, "c", 100), Err((None, "c")));
    assert_eq!(t.get_id(200), Some(1));
    assert_eq!(t.get_id(300), None);
    assert_eq!(t.get(0).map(|(p, u, k)| (p, *u, k)), Some((Some(m), "a", 100)));
    assert_eq!(t.remove_by_name(100).map(|(i, (p, u, k))| (i, p, u, k)), Some((0, Some(m), "a", 100)));
    assert_eq!(t.get_id(100), None);
    assert_eq!(t.remove(0).map(|(_, u, _)| u), None);
    assert_eq!(t.insert(None, "d", 300), Ok(0));
    assert_eq!(t.iter(), vec![(0, None, &"d", 300), (1, None, &"b", 200)]);
    if let Some((_, u, _)) = t.get_by_name_mut(200) {
        *u = "e";
    }
    assert_eq!(t.get_by_name(200).map(|(_, u, _)| *u), Some("e"));
}

#[test]
fn glyph_atlas_errors_map_from_controller_errors() {
    assert_eq!(TypeAtlasInsertError::from(BLInsertError::KeyDuplicate), TypeAtlasInsertError::InsDuplicateKey);
    assert_eq!(
        TypeAtlasInsertError::from(BLInsertError::InsNotEnoughSpace),
        TypeAtlasInsertError::InsNotEnoughSpace
    );
    assert_eq!(
        TypeAtlasInsertError::from(BLInsertError::InsDataIsTooLarge),
        TypeAtlasInsertError::IsDataTooLarge
    );
    assert_eq!(TypeAtlasRemoveError::from(BLRemoveError::EntryNotExist), TypeAtlasRemoveError::EntryIsNotExist);
}
