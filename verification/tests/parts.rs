use allocator_memfd_secret::diagnostics::{Diagnostics, MASK_MMAP, MASK_TRUNCATE};
use allocator_memfd_secret::geometry::{MapIndexForPot, MAP_COUNT, MIN_SZ_POT2};
use allocator_memfd_secret::{Request, SecretArena};
use std::alloc::Layout;

#[test]
fn maps_double_in_length() {
    assert_eq!(
        SecretArena::offset_and_len_for(MapIndexForPot(0)),
        (0, 4096)
    );
    assert_eq!(
        SecretArena::offset_and_len_for(MapIndexForPot(1)),
        (4096, 8192)
    );
    assert_eq!(
        SecretArena::offset_and_len_for(MapIndexForPot(2)),
        (12288, 16384)
    );
    assert_eq!(
        SecretArena::offset_and_len_for(MapIndexForPot(18)),
        ((1 << 30) - 4096, 1 << 30)
    );
    assert_eq!(
        SecretArena::offset_and_len_for(MapIndexForPot(20)),
        ((1 << 32) - 4096, 1 << 32)
    );
    assert_eq!(
        SecretArena::offset_and_len_for(MapIndexForPot(47)),
        ((1 << 59) - 4096, 1 << 59)
    );
}

#[test]
fn maps_tile_the_file() {
    let mut end = 0;
    for i in 0..MAP_COUNT {
        let (offset, len) = SecretArena::offset_and_len_for(MapIndexForPot(i as u8));
        assert_eq!(offset, end);
        assert_eq!(len, 1usize << (i + MIN_SZ_POT2 as usize));
        end = offset + len;
    }
}

#[test]
fn the_minimum_map_is_longer_than_the_size() {
    let index = |size: usize| SecretArena::to_minimum_map_index(size).0;
    assert_eq!(index(0), 0);
    assert_eq!(index(1), 0);
    assert_eq!(index(4095), 0);
    assert_eq!(index(4096), 1);
    assert_eq!(index(8191), 1);
    assert_eq!(index(8192), 2);
    assert_eq!(index(1 << 30), 19);
    assert_eq!(index((1 << 59) - 1), 47);
    assert_eq!(index(1 << 59), 48);
    assert_eq!(index(isize::MAX as usize), 51);
}

#[test]
fn requests_are_memory_layouts() {
    let sizes = [
        0,
        1,
        7,
        8,
        9,
        4095,
        4096,
        4097,
        isize::MAX as usize - 4096,
        isize::MAX as usize - 1,
        isize::MAX as usize,
        isize::MAX as usize + 1,
        usize::MAX - 1,
        usize::MAX,
    ];
    let mut aligns = vec![0, 3, 6, 12, 100, 4095, usize::MAX, usize::MAX / 2];
    for pot in 0..64 {
        aligns.push(1usize << pot);
    }
    for size in sizes {
        for &align in &aligns {
            let request = Request::new(size, align);
            match Layout::from_size_align(size, align) {
                Ok(layout) => {
                    let request = request.unwrap();
                    assert_eq!(request.size(), layout.size());
                    assert_eq!(request.align(), layout.align());
                    assert_eq!(request.padded(), layout.pad_to_align().size());
                }
                Err(_) => assert!(request.is_none()),
            }
        }
    }
}

#[test]
fn failures_are_recorded_independently() {
    let mut diagnostics = Diagnostics::default();
    assert_eq!(diagnostics.get_failure_value(), 0);
    diagnostics.truncate_failed(4096);
    assert_eq!(diagnostics.get_failure_value(), MASK_TRUNCATE);
    diagnostics.mmap_failed();
    assert_eq!(
        diagnostics.get_failure_value(),
        MASK_TRUNCATE | MASK_MMAP
    );
    diagnostics.truncate_failed(4096);
    assert_eq!(diagnostics.get_failure_value(), 3);
    diagnostics.reset();
    assert_eq!(diagnostics.get_failure_value(), 0);
    diagnostics.mmap_failed();
    assert_eq!(diagnostics.get_failure_value(), 2);
}

#[test]
fn mapped_bytes_are_counted() {
    let mut diagnostics = Diagnostics::default();
    assert_eq!(diagnostics.get_mapped_memory(), 0);
    diagnostics.mapped_memory(4096);
    diagnostics.mapped_memory(8192);
    assert_eq!(diagnostics.get_mapped_memory(), 12288);
    assert_eq!(diagnostics.get_failure_value(), 0);
    diagnostics.mapped_memory(usize::MAX);
    assert_eq!(diagnostics.get_mapped_memory(), 12287);
    diagnostics.reset();
    assert_eq!(diagnostics.get_mapped_memory(), 0);
}
