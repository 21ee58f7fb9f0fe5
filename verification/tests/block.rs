use tgdrive::block::{count_parts, is_multiple, BlockMap, BlockMapError};

#[test]
fn maps_offsets_to_objects() {
    let map = BlockMap::new(1024 * 1024, 4096, 256 * 1024).unwrap();
    assert_eq!(map.locate(0).unwrap(), (0, 0));
    assert_eq!(map.locate(256 * 1024).unwrap(), (1, 0));
    assert_eq!(map.locate(256 * 1024 + 7).unwrap(), (1, 7));
}

#[test]
fn sizes_have_to_be_aligned() {
    assert_eq!(BlockMap::new(1000, 4096, 8192), Err(BlockMapError::DeviceNotSectorAligned));
    assert_eq!(BlockMap::new(8192, 4096, 1000), Err(BlockMapError::ObjectNotSectorAligned));
    assert_eq!(BlockMap::new(4096, 0, 4096), Err(BlockMapError::DeviceNotSectorAligned));
    assert!(BlockMap::new(0, 0, 0).is_ok());
}

#[test]
fn the_last_object_may_be_cut_short() {
    let map = BlockMap::new(3 * 4096, 4096, 2 * 4096).unwrap();
    assert_eq!(map.object_count(), 2);
    assert_eq!(map.locate(3 * 4096 - 1), Ok((1, 4095)));
    assert_eq!(map.locate(3 * 4096), Err(BlockMapError::OffsetOutOfBounds));
    let none = BlockMap { device_size: 0, logical_sector_size: 0, object_size: 0 };
    assert_eq!(none.locate(0), Err(BlockMapError::OffsetOutOfBounds));
    assert_eq!(BlockMap::new(0, 4096, 4096).unwrap().object_count(), 0);
}

#[test]
fn places_lead_back_to_offsets() {
    let map = BlockMap::new(5 * 8192, 4096, 8192).unwrap();
    for offset in [0u64, 1, 8191, 8192, 20000, 5 * 8192 - 1] {
        let (object_id, place) = map.locate(offset).unwrap();
        assert_eq!(object_id * 8192 + place as u64, offset);
        assert!(object_id < map.object_count());
    }
}

#[test]
fn parts_and_multiples_are_counted() {
    assert!(is_multiple(8192, 4096));
    assert!(!is_multiple(8191, 4096));
    assert!(is_multiple(0, 0));
    assert!(!is_multiple(1, 0));
    assert_eq!(count_parts(10, 3), 4);
    assert_eq!(count_parts(9, 3), 3);
    assert_eq!(count_parts(u64::MAX, 1), u64::MAX);
}
