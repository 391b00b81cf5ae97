use allocator_memfd_secret::geometry::MapIndexForPot;
use allocator_memfd_secret::{
    Allocation, Expansion, Region, Request, SecretArena, Step, SystemCall,
};
use std::mem::MaybeUninit;

const PAGE: usize = 4096;

/// Stands for a process with a limited budget of locked memory.
struct Process {
    memlock: usize,
    truncates: usize,
    maps: Vec<(i64, usize)>,
}

impl Process {
    fn new(memlock: usize) -> Self {
        Process {
            memlock,
            truncates: 0,
            maps: Vec::new(),
        }
    }

    fn arena(&self, limit: usize) -> SecretArena {
        let size = SecretArena::size_limit(0, limit as u64).unwrap();
        SecretArena::with_size_limit(size, 3).unwrap()
    }

    fn mmap(&mut self, offset: i64, len: usize) -> Option<&'static mut [MaybeUninit<u8>]> {
        if len > self.memlock {
            return None;
        }
        self.memlock -= len;
        self.maps.push((offset, len));
        Some(vec![MaybeUninit::uninit(); len].leak())
    }

    fn munmap(&mut self, regions: &[Option<Region>]) {
        for region in regions.iter().flatten() {
            self.memlock += region.len;
        }
    }

    fn allocate(
        &mut self,
        arena: &mut SecretArena,
        size: usize,
        align: usize,
    ) -> Option<Allocation> {
        let request = Request::new(size, align).unwrap();
        let mut step = arena.alloc_optional(&request);
        loop {
            match step {
                Step::Done(block) => return block,
                Step::Pending(SystemCall::Truncate { .. }) => {
                    self.truncates += 1;
                    arena.truncated(true);
                    step = arena.alloc_optional(&request);
                }
                Step::Pending(SystemCall::MapAt {
                    index, offset, len, ..
                }) => {
                    arena.mapped(index, self.mmap(offset, len));
                    step = arena.resume(&request, index);
                }
            }
        }
    }
}

/// A growing buffer of bytes.
struct Buffer {
    capacity: usize,
}

impl Buffer {
    fn try_reserve(
        &mut self,
        process: &mut Process,
        arena: &mut SecretArena,
        additional: usize,
    ) -> Result<(), ()> {
        if additional <= self.capacity {
            return Ok(());
        }
        let capacity = additional.max(2 * self.capacity).max(8);
        process.allocate(arena, capacity, 1).ok_or(())?;
        self.capacity = capacity;
        Ok(())
    }
}

fn overlap(a: Allocation, b: Allocation) -> bool {
    a.addr < b.addr + b.len && b.addr < a.addr + a.len
}

fn inside(region: Region, block: Allocation) -> bool {
    region.addr <= block.addr && block.addr + block.len <= region.addr + region.len
}

#[test]
fn global_alloc_works() {
    let mut process = Process::new(8 << 20);
    let mut arena = process.arena(8 << 20);
    let block = process.allocate(&mut arena, 1024, 1).unwrap();
    assert_eq!(block.len, 1024);
}

#[test]
fn usage_works() {
    let mut process = Process::new(8 << 20);
    let mut arena = process.arena(8 << 20);

    let value = process.allocate(&mut arena, 4, 4).unwrap();
    assert_eq!(value.len, 4);
    assert_eq!(value.addr % 4, 0);

    let slice = process.allocate(&mut arena, 1024, 1).unwrap();
    assert_eq!(slice.len, 1024);
    assert!(!overlap(value, slice));
}

#[test]
fn expand() {
    let mut process = Process::new(8 << 20);
    let mut arena = process.arena(8 << 20);
    let mut elements: Vec<Allocation> = Vec::new();
    let mut capacity = 0;

    for _ in 0..1024 {
        elements.push(process.allocate(&mut arena, 1024, 1).unwrap());
        if elements.len() > capacity {
            capacity = (2 * capacity).max(4);
            elements.push(process.allocate(&mut arena, capacity * 24, 8).unwrap());
        }
    }

    elements.sort_by_key(|block| block.addr);
    for pair in elements.windows(2) {
        assert!(!overlap(pair[0], pair[1]));
    }
    assert!(arena.mem_used() >= 1024 * 1024);
    assert_eq!(process.truncates, 1);
}

#[test]
fn unmap_returns_concurrent_resources() {
    let limit = 8 << 20;
    let mut process = Process::new(limit);
    let mut file = process.arena(limit);

    let primary_limit = {
        let mut v = Buffer { capacity: 0 };
        let mut count_to_error = 7..32;

        loop {
            let i = count_to_error.next().unwrap();
            if v.try_reserve(&mut process, &mut file, 1usize << i).is_err() {
                break i;
            };
        }
    };

    let mut secondary = process.arena(limit);

    let secondary_limit = {
        let mut v = Buffer { capacity: 0 };
        let mut count_to_error = 7..32;

        loop {
            let i = count_to_error.next().unwrap();
            if v.try_reserve(&mut process, &mut secondary, 1usize << i)
                .is_err()
            {
                break i;
            };
        }
    };

    assert!(
        primary_limit > secondary_limit,
        "{primary_limit}/{secondary_limit}"
    );
    let (mut file, regions) = SecretArena::unmap(file);
    process.munmap(&regions);
    let (mut secondary, regions) = SecretArena::unmap(secondary);
    process.munmap(&regions);

    let mut v = Buffer { capacity: 0 };
    assert!(v
        .try_reserve(&mut process, &mut secondary, 1usize << (primary_limit - 1))
        .is_ok());

    let mut v = Buffer { capacity: 0 };
    assert!(v
        .try_reserve(&mut process, &mut file, 1usize << secondary_limit)
        .is_err());
}

#[test]
fn the_limit_is_what_getrlimit_says() {
    assert_eq!(SecretArena::size_limit(0, 65536).unwrap(), 65536);
    assert_eq!(SecretArena::size_limit(0, u64::MAX).unwrap(), usize::MAX);
    assert!(SecretArena::size_limit(-1, 65536).is_err());
}

#[test]
fn an_arena_needs_a_limit_and_a_file() {
    let arena = SecretArena::new(0, 65536, 3).unwrap();
    assert_eq!(arena.memfd_len(), 65536);
    assert_eq!(arena.fd(), 3);
    let arena = SecretArena::new(0, u64::MAX, 3).unwrap();
    assert_eq!(arena.memfd_len(), usize::MAX);
    assert!(SecretArena::new(-1, 65536, 3).is_err());
    assert!(SecretArena::new(0, 65536, -1).is_err());
}

#[test]
fn a_failed_call_is_reported() {
    let Err(failure) = SecretArena::with_size_limit(PAGE, -1) else {
        panic!("no file, no arena");
    };
    assert_eq!(
        failure.message(),
        "failed to instantiate a `memfd_secret`"
    );
    assert_eq!(format!("{failure:?}"), "MemfdSecretFailed { inner: 0 }");
}

#[test]
fn a_new_arena_is_empty() {
    let arena = SecretArena::with_size_limit(12345, 7).unwrap();
    assert_eq!(arena.memfd_len(), 12345);
    assert_eq!(arena.fd(), 7);
    assert_eq!(arena.mapped_memory(), 0);
    assert_eq!(arena.mem_used(), 0);
    assert_eq!(arena.mem_free(), 0);
    assert!(!arena.failed_truncate());
    assert!(!arena.failed_mmap());
    assert_eq!(arena.regions(), [None; 48]);
}

#[test]
fn the_descriptor_is_cut_to_its_width() {
    let arena = SecretArena::with_size_limit(PAGE, (1 << 32) + 9).unwrap();
    assert_eq!(arena.fd(), 9);
}

#[test]
fn calls_come_in_order() {
    let mut arena = SecretArena::with_size_limit(3 * PAGE, 5).unwrap();
    let request = Request::new(PAGE, 8).unwrap();
    assert_eq!(
        arena.alloc_optional(&request),
        Step::Pending(SystemCall::Truncate {
            fd: 5,
            len: 3 * PAGE as i64
        })
    );
    arena.truncated(true);
    assert_eq!(
        arena.alloc_optional(&request),
        Step::Pending(SystemCall::MapAt {
            fd: 5,
            index: MapIndexForPot(0),
            offset: 0,
            len: PAGE
        })
    );
    arena.mapped(
        MapIndexForPot(0),
        Some(vec![MaybeUninit::uninit(); PAGE].leak()),
    );
    assert_eq!(
        arena.resume(&request, MapIndexForPot(0)),
        Step::Pending(SystemCall::MapAt {
            fd: 5,
            index: MapIndexForPot(1),
            offset: PAGE as i64,
            len: 2 * PAGE
        })
    );
    arena.mapped(
        MapIndexForPot(1),
        Some(vec![MaybeUninit::uninit(); 2 * PAGE].leak()),
    );
    let Step::Done(Some(block)) = arena.resume(&request, MapIndexForPot(1)) else {
        panic!("the second map has room");
    };
    let regions = arena.regions();
    assert!(inside(regions[1].unwrap(), block));
    assert_eq!(block.len, PAGE);
    assert_eq!(regions[2], None);
    assert_eq!(arena.mapped_memory(), 3 * PAGE);
}

#[test]
fn an_unlimited_file_is_asked_for_a_negative_length() {
    let mut arena = SecretArena::with_size_limit(usize::MAX, 5).unwrap();
    let request = Request::new(1, 1).unwrap();
    assert_eq!(
        arena.alloc_optional(&request),
        Step::Pending(SystemCall::Truncate { fd: 5, len: -1 })
    );
}

#[test]
fn a_file_shorter_than_a_page_serves_nothing() {
    let mut process = Process::new(8 << 20);
    let mut arena = process.arena(PAGE - 1);
    assert_eq!(process.allocate(&mut arena, 1, 1), None);
    assert_eq!(process.truncates, 0);
    assert!(process.maps.is_empty());
    assert!(!arena.failed_truncate());
    assert!(!arena.failed_mmap());
}

#[test]
fn a_failed_truncate_leaves_only_empty_blocks() {
    let mut arena = SecretArena::with_size_limit(8 << 20, 5).unwrap();
    let request = Request::new(16, 16).unwrap();
    assert!(matches!(
        arena.alloc_optional(&request),
        Step::Pending(SystemCall::Truncate { .. })
    ));
    arena.truncated(false);
    assert_eq!(arena.alloc_optional(&request), Step::Done(None));
    assert!(arena.failed_truncate());
    assert!(!arena.failed_mmap());

    // The first attempt counts.
    arena.truncated(true);
    assert_eq!(arena.alloc_optional(&request), Step::Done(None));

    let empty = Request::new(0, 16).unwrap();
    assert_eq!(
        arena.alloc_optional(&empty),
        Step::Done(Some(Allocation { addr: 16, len: 0 }))
    );

    // The record is cleared by unmapping, the failure is not.
    let (mut arena, regions) = SecretArena::unmap(arena);
    assert_eq!(regions, [None; 48]);
    assert!(!arena.failed_truncate());
    assert_eq!(arena.alloc_optional(&request), Step::Done(None));
    assert!(arena.failed_truncate());
}

#[test]
fn a_failed_mmap_is_terminal() {
    let mut process = Process::new(PAGE);
    let mut arena = process.arena(8 << 20);
    let block = process.allocate(&mut arena, 100, 1).unwrap();
    assert!(!arena.failed_mmap());

    // The second map is over the budget.
    assert_eq!(process.allocate(&mut arena, PAGE, 1), None);
    assert!(arena.failed_mmap());
    assert!(!arena.failed_truncate());

    // More budget changes nothing, and the memory that is there is still served.
    process.memlock = 8 << 20;
    assert_eq!(process.allocate(&mut arena, PAGE, 1), None);
    assert_eq!(process.maps, [(0, PAGE)]);
    let other = process.allocate(&mut arena, 100, 1).unwrap();
    assert!(!overlap(block, other));
    assert_eq!(arena.mapped_memory(), PAGE);

    // Until the arena is unmapped.
    let (mut arena, regions) = SecretArena::unmap(arena);
    assert_eq!(regions[0].unwrap().len, PAGE);
    assert!(!arena.failed_mmap());
    assert!(process.allocate(&mut arena, PAGE, 1).is_some());
}

#[test]
fn a_block_of_a_page_is_not_looked_for_in_a_page() {
    let mut process = Process::new(8 << 20);
    let mut arena = process.arena(8 << 20);
    let block = process.allocate(&mut arena, PAGE, 1).unwrap();
    assert!(inside(arena.regions()[1].unwrap(), block));
    assert_eq!(process.maps, [(0, PAGE), (PAGE as i64, 2 * PAGE)]);
}

#[test]
fn the_next_map_is_asked_when_one_is_full() {
    let mut process = Process::new(8 << 20);
    let mut arena = process.arena(8 << 20);
    for _ in 0..4 {
        let block = process.allocate(&mut arena, 1024, 1).unwrap();
        assert!(inside(arena.regions()[0].unwrap(), block));
    }
    assert_eq!(arena.mem_free(), 0);
    let block = process.allocate(&mut arena, 1024, 1).unwrap();
    assert!(inside(arena.regions()[1].unwrap(), block));
    assert_eq!(arena.mem_free(), 2 * PAGE - 1024);
}

#[test]
fn memory_adds_up() {
    let mut process = Process::new(8 << 20);
    let mut arena = process.arena(8 << 20);
    let first = process.allocate(&mut arena, 100, 1).unwrap();
    assert_eq!(first.addr, arena.regions()[0].unwrap().addr);
    assert_eq!(arena.mem_used(), 104);
    assert_eq!(arena.mem_free(), PAGE - 104);
    assert_eq!(arena.mapped_memory(), PAGE);

    // The smallest block is two words.
    let second = process.allocate(&mut arena, 1, 1).unwrap();
    assert_eq!(second.addr, first.addr + 104);
    assert_eq!(second.len, 1);
    assert_eq!(arena.mem_used(), 120);

    process.allocate(&mut arena, 100_000, 1).unwrap();
    assert_eq!(arena.mem_used(), 120 + 100_000);
    assert_eq!(
        arena.mem_used() + arena.mem_free(),
        arena.mapped_memory()
    );
    assert!(arena.mapped_memory() <= arena.memfd_len());
    assert_eq!(arena.mapped_memory(), (64 - 1) * PAGE);
    let regions = arena.regions();
    let total: usize = regions.iter().flatten().map(|region| region.len).sum();
    assert_eq!(total, arena.mapped_memory());
}

#[test]
fn blocks_are_aligned_as_asked() {
    let mut process = Process::new(64 << 20);
    let mut arena = process.arena(64 << 20);
    let mut blocks = Vec::new();
    for pot in 0..16 {
        for size in [1usize, 24, 1000, 5000] {
            let block = process.allocate(&mut arena, size, 1 << pot).unwrap();
            assert_eq!(block.addr % (1 << pot), 0);
            assert_eq!(block.len, size);
            blocks.push(block);
        }
    }
    blocks.sort_by_key(|block| block.addr);
    for pair in blocks.windows(2) {
        assert!(!overlap(pair[0], pair[1]));
    }
}

#[test]
fn an_empty_block_needs_no_file() {
    let mut process = Process::new(0);
    let mut arena = process.arena(0);
    for pot in 0..12 {
        assert_eq!(
            process.allocate(&mut arena, 0, 1 << pot),
            Some(Allocation {
                addr: 1 << pot,
                len: 0
            })
        );
    }
    assert_eq!(process.truncates, 0);
}

#[test]
fn a_block_that_no_map_can_hold_is_refused_at_once() {
    let mut process = Process::new(8 << 20);
    let mut arena = process.arena(8 << 20);
    assert_eq!(
        process.allocate(&mut arena, isize::MAX as usize, 1),
        None
    );
    assert_eq!(process.truncates, 0);
    assert_eq!(process.allocate(&mut arena, 1 << 60, 1), None);
    assert_eq!(process.truncates, 0);
}

#[test]
fn a_block_that_just_no_map_can_hold_maps_the_whole_file() {
    let mut process = Process::new(8 << 20);
    let mut arena = process.arena(7 * PAGE);
    assert_eq!(process.allocate(&mut arena, 1 << 59, 1), None);
    assert_eq!(process.truncates, 1);
    assert_eq!(
        process.maps,
        [
            (0, PAGE),
            (PAGE as i64, 2 * PAGE),
            (3 * PAGE as i64, 4 * PAGE)
        ]
    );
}

#[test]
fn a_block_goes_back_to_its_map() {
    let mut process = Process::new(8 << 20);
    let mut arena = process.arena(8 << 20);
    let mut blocks = Vec::new();
    for size in [1024usize, 1024, 3000, 5000, 9000, 40, 100_000, 1] {
        blocks.push((size, process.allocate(&mut arena, size, 8).unwrap()));
    }
    let regions = arena.regions();
    for (size, block) in blocks {
        let request = Request::new(size, 8).unwrap();
        let owner = arena.owner(block.addr, &request).unwrap();
        let region = regions[owner].unwrap();
        assert!(inside(region, block));
        let heap = arena.dealloc(block.addr, &request).unwrap();
        assert_eq!(heap.bottom() as usize, region.addr);
        assert_eq!(heap.size(), region.len);
    }
}

#[test]
fn foreign_and_empty_blocks_go_nowhere() {
    let mut process = Process::new(8 << 20);
    let mut arena = process.arena(8 << 20);
    let block = process.allocate(&mut arena, 100, 1).unwrap();
    let region = arena.regions()[0].unwrap();
    let request = Request::new(100, 1).unwrap();
    assert_eq!(arena.owner(block.addr, &request), Some(0));
    assert_eq!(arena.owner(region.addr + region.len - 1, &request), Some(0));
    assert_eq!(arena.owner(region.addr + region.len, &request), None);
    assert_eq!(arena.owner(region.addr - 1, &request), None);
    assert!(arena.dealloc(1, &request).is_none());

    // A block of that size was never looked for in the first map.
    let large = Request::new(PAGE, 1).unwrap();
    assert_eq!(arena.owner(block.addr, &large), None);

    let empty = Request::new(0, 1).unwrap();
    assert_eq!(arena.owner(block.addr, &empty), None);
    assert!(arena.dealloc(block.addr, &empty).is_none());
}

#[test]
fn maps_are_expanded_one_by_one() {
    let mut arena = SecretArena::with_size_limit(3 * PAGE, 5).unwrap();
    assert!(matches!(
        arena.expand_mapping(MapIndexForPot(0)),
        Expansion::Pending(SystemCall::Truncate { .. })
    ));
    arena.truncated(true);
    for i in 0..2 {
        assert!(matches!(
            arena.expand_mapping(MapIndexForPot(i)),
            Expansion::Pending(SystemCall::MapAt { .. })
        ));
        let memory = vec![MaybeUninit::uninit(); PAGE << i].leak();
        arena.mapped(MapIndexForPot(i), Some(memory));
        assert_eq!(
            arena.expand_mapping(MapIndexForPot(i)),
            Expansion::Settled(true)
        );
    }
    // The third would end behind the end of the file.
    assert_eq!(
        arena.expand_mapping(MapIndexForPot(2)),
        Expansion::Settled(false)
    );
}

#[test]
fn small_maps_are_ensured_before_large_ones() {
    let mut arena = SecretArena::with_size_limit(8 << 20, 5).unwrap();
    arena.truncated(true);
    let request = Request::new(5 * PAGE, 1).unwrap();
    for i in 0..4 {
        let Expansion::Pending(SystemCall::MapAt { index, len, .. }) =
            arena.pre_ensure_size(&request)
        else {
            panic!("a map is missing");
        };
        assert_eq!(index, MapIndexForPot(i));
        assert_eq!(len, PAGE << i);
        arena.mapped(index, Some(vec![MaybeUninit::uninit(); len].leak()));
    }
    assert_eq!(arena.pre_ensure_size(&request), Expansion::Settled(true));
    let empty = Request::new(0, 1).unwrap();
    assert_eq!(arena.pre_ensure_size(&empty), Expansion::Settled(true));
    let large = Request::new(1 << 60, 1).unwrap();
    assert_eq!(arena.pre_ensure_size(&large), Expansion::Settled(false));
}

#[test]
fn resuming_is_starting_over() {
    let memory = |index: usize| vec![MaybeUninit::uninit(); PAGE << index].leak();
    let page = Request::new(4090, 1).unwrap();
    let request = Request::new(1000, 1).unwrap();
    for again in [false, true] {
        let mut arena = SecretArena::with_size_limit(8 << 20, 5).unwrap();
        arena.truncated(true);
        arena.mapped(MapIndexForPot(0), Some(memory(0)));
        assert!(matches!(
            arena.alloc_optional(&page),
            Step::Done(Some(_))
        ));

        assert!(matches!(
            arena.alloc_optional(&request),
            Step::Pending(SystemCall::MapAt {
                index: MapIndexForPot(1),
                ..
            })
        ));
        arena.mapped(MapIndexForPot(1), Some(memory(1)));
        let step = if again {
            arena.alloc_optional(&request)
        } else {
            arena.resume(&request, MapIndexForPot(1))
        };
        let Step::Done(Some(block)) = step else {
            panic!("the second map has room");
        };
        assert_eq!(block.addr, arena.regions()[1].unwrap().addr);
        assert_eq!(block.len, 1000);
    }
}

#[test]
fn a_fresh_map_serves_what_leaves_room_for_a_hole() {
    for (size, index) in [
        (1usize, 0),
        (4072, 0),
        (4080, 0),
        (4081, 1),
        (4088, 1),
        (4089, 0),
        (4095, 0),
        (4096, 1),
    ] {
        let mut process = Process::new(8 << 20);
        let mut arena = process.arena(8 << 20);
        let block = process.allocate(&mut arena, size, 1).unwrap();
        assert_eq!(block.len, size);
        assert_eq!(
            Some(block.addr),
            arena.regions()[index].map(|region| region.addr)
        );
    }
}

#[test]
fn unmapping_keeps_the_file() {
    let mut process = Process::new(8 << 20);
    let mut arena = process.arena(8 << 20);
    process.allocate(&mut arena, 20_000, 1).unwrap();
    let before = arena.regions();
    let (mut arena, regions) = SecretArena::unmap(arena);
    assert_eq!(regions, before);
    assert_eq!(arena.regions(), [None; 48]);
    assert_eq!(arena.memfd_len(), 8 << 20);
    assert_eq!(arena.fd(), 3);
    assert_eq!(arena.mapped_memory(), 0);
    assert_eq!(arena.mem_used(), 0);
    assert_eq!(arena.mem_free(), 0);

    // The file already has its length.
    process.allocate(&mut arena, 1, 1).unwrap();
    assert_eq!(process.truncates, 1);
}

#[test]
fn a_heap_can_begin_off_a_word_boundary() {
    let mut arena = SecretArena::with_size_limit(PAGE, 5).unwrap();
    arena.truncated(true);
    let memory: &'static mut [MaybeUninit<u8>] =
        vec![MaybeUninit::uninit(); PAGE + 1].leak();
    arena.mapped(MapIndexForPot(0), Some(&mut memory[1..]));
    let region = arena.regions()[0].unwrap();
    assert_eq!(region.len, PAGE);
    assert_eq!(region.addr % 8, 1);
    assert_eq!(arena.mapped_memory(), PAGE);
    assert_eq!(arena.mem_free(), PAGE - 8);
    let request = Request::new(1, 1).unwrap();
    let Step::Done(Some(block)) = arena.alloc_optional(&request) else {
        panic!("the map has room");
    };
    assert_eq!(block.addr, region.addr + 7);
}

#[test]
fn a_thousand_blocks_fill_the_maps_they_need() {
    let mut process = Process::new(2 << 20);
    let mut arena = process.arena(2 << 20);
    let mut blocks: Vec<Allocation> = Vec::new();

    for _ in 0..1024 {
        let block = process.allocate(&mut arena, 1024, 1).unwrap();
        assert_eq!(block.len, 1024);
        blocks.push(block);
    }

    assert_eq!(arena.mem_used(), 1048576);
    assert_eq!(arena.mapped_memory(), 2093056);
    assert_eq!(arena.mem_free(), 2093056 - 1048576);
    blocks.sort_by_key(|block| block.addr);
    for pair in blocks.windows(2) {
        assert!(!overlap(pair[0], pair[1]));
    }
}

#[test]
fn each_block_moves_what_is_set_aside_for_it() {
    let mut process = Process::new(1 << 20);
    let mut arena = process.arena(1 << 20);
    process.allocate(&mut arena, 64, 8).unwrap();

    for (size, set_aside) in [(1, 16), (16, 16), (17, 24), (24, 24), (100, 104), (1024, 1024)] {
        let used = arena.mem_used();
        let free = arena.mem_free();
        process.allocate(&mut arena, size, 1).unwrap();
        assert_eq!(arena.mem_used(), used + set_aside);
        assert_eq!(arena.mem_free(), free - set_aside);
        assert_eq!(arena.mapped_memory(), PAGE);
    }
}

#[test]
fn blocks_stand_one_behind_the_other() {
    let mut process = Process::new(1 << 20);
    let mut arena = process.arena(1 << 20);
    let first = process.allocate(&mut arena, 24, 8).unwrap();
    let second = process.allocate(&mut arena, 1, 1).unwrap();
    let third = process.allocate(&mut arena, 40, 8).unwrap();

    assert_eq!(second.addr, first.addr + 24);
    assert_eq!(third.addr, second.addr + 16);
}

#[test]
fn an_aligned_block_leaves_a_hole_in_front() {
    let mut process = Process::new(1 << 20);
    let mut arena = process.arena(1 << 20);
    let first = process.allocate(&mut arena, 24, 8).unwrap();
    let hole = first.addr + 24;
    let aligned = process.allocate(&mut arena, 64, 512).unwrap();

    let expected = if hole % 512 == 0 {
        hole
    } else {
        (hole + 16).next_multiple_of(512)
    };
    assert_eq!(aligned.addr, expected);
    assert_eq!(arena.mem_used(), 24 + 64);

    // The hole in front is the lowest, and has room if it is used up or leaves a hole.
    if aligned.addr == hole + 16 || aligned.addr >= hole + 32 {
        let small = process.allocate(&mut arena, 16, 8).unwrap();
        assert_eq!(small.addr, hole);
    }
}

#[test]
fn the_checked_steps_are_the_same_steps() {
    let request = Request::new(100, 4).unwrap();
    let mut process = Process::new(1 << 20);
    let mut arena = process.arena(1 << 20);

    let Some(Step::Pending(SystemCall::Truncate { fd: 3, .. })) = arena.alloc_checked(&request)
    else {
        panic!("The length of the file comes first");
    };
    arena.truncated(true);
    let Some(Step::Pending(SystemCall::MapAt {
        index, offset, len, ..
    })) = arena.alloc_checked(&request)
    else {
        panic!("A map comes next");
    };
    assert_eq!((index, offset, len), (MapIndexForPot(0), 0, PAGE));
    arena.mapped(index, process.mmap(offset, len));

    let Some(Step::Done(Some(block))) = arena.resume_checked(&request, index) else {
        panic!("The map has room");
    };
    assert_eq!(block.len, 100);
    assert_eq!(block.addr % 4, 0);
    let Some(Step::Done(Some(next))) = arena.alloc_checked(&request) else {
        panic!("The map has room");
    };
    assert_eq!(next.addr, block.addr + 104);
}

#[test]
fn the_checked_steps_settle_what_asks_no_map() {
    let huge = 1usize << (usize::BITS - 2);
    let request = Request::new(huge, huge).unwrap();
    let mut process = Process::new(1 << 20);
    let mut arena = process.arena(1 << 20);
    process.allocate(&mut arena, 64, 8).unwrap();

    // No map is asked, so none can be in the way.
    assert_eq!(arena.alloc_checked(&request), Some(Step::Done(None)));
    let empty = Request::new(0, 8).unwrap();
    assert_eq!(
        arena.alloc_checked(&empty),
        Some(Step::Done(Some(Allocation { addr: 8, len: 0 })))
    );
}

#[test]
fn a_reservation_locks_the_maps_up_to_its_own() {
    // The maps up to the one that is longer than 16 pages: 1 + 2 + 4 + 8 + 16 + 32 pages.
    let needed = 63 * PAGE;

    let mut process = Process::new(needed);
    let mut arena = process.arena(1 << 20);
    let block = process.allocate(&mut arena, 16 * PAGE, 1).unwrap();
    assert_eq!(block.len, 16 * PAGE);
    assert_eq!(arena.mapped_memory(), needed);
    assert_eq!(process.memlock, 0);

    let mut process = Process::new(needed - 1);
    let mut arena = process.arena(1 << 20);
    assert_eq!(process.allocate(&mut arena, 16 * PAGE, 1), None);
    assert!(arena.failed_mmap());
    assert_eq!(arena.mapped_memory(), 31 * PAGE);

    // A file that ends before that map is no failure to lock.
    let mut process = Process::new(needed);
    let mut arena = process.arena(needed - 1);
    assert_eq!(process.allocate(&mut arena, 16 * PAGE, 1), None);
    assert!(!arena.failed_mmap());
}

#[test]
fn an_unmapped_arena_starts_over_without_a_truncate() {
    let mut process = Process::new(3 * PAGE);
    let mut arena = process.arena(1 << 20);
    assert_eq!(process.allocate(&mut arena, 16 * PAGE, 1), None);
    assert!(arena.failed_mmap());
    assert_eq!(arena.mapped_memory(), 3 * PAGE);

    let (mut arena, regions) = SecretArena::unmap(arena);
    let returned: usize = regions.iter().flatten().map(|region| region.len).sum();
    assert_eq!(returned, 3 * PAGE);
    process.munmap(&regions);
    assert_eq!(process.memlock, 3 * PAGE);
    assert!(!arena.failed_mmap());

    let request = Request::new(16 * PAGE, 1).unwrap();
    assert_eq!(
        arena.alloc_checked(&request),
        Some(Step::Pending(SystemCall::MapAt {
            fd: 3,
            index: MapIndexForPot(0),
            offset: 0,
            len: PAGE,
        }))
    );
}

#[test]
fn no_block_is_at_null() {
    let mut process = Process::new(1 << 20);
    let mut arena = process.arena(1 << 20);
    for (size, align) in [(0, 1), (0, 64), (1, 1), (5, 4), (4096, 4096)] {
        let block = process.allocate(&mut arena, size, align).unwrap();
        assert_ne!(block.addr, 0);
        assert_eq!(block.addr % align, 0);
        assert_eq!(block.len, size);
    }
}
