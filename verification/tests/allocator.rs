use arceos_loader::allocator::{AllocError, EarlyAllocator, Layout, LayoutError};

fn lay(size: usize, align: usize) -> Layout {
    Layout::from_size_align(size, align).unwrap()
}

const PAGE: usize = 4096;

fn fresh() -> EarlyAllocator<PAGE> {
    let mut a = EarlyAllocator::<PAGE>::new();
    a.init(0x1000, 0x10000);
    a
}

#[test]
fn new_allocator_is_empty() {
    let a = EarlyAllocator::<PAGE>::new();
    assert_eq!(a.total_bytes(), 0);
    assert_eq!(a.used_bytes(), 0);
    assert_eq!(a.available_bytes(), 0);
    assert_eq!(a.used_pages(), 0);
    assert_eq!(a.available_pages(), 0);
}

#[test]
fn init_makes_the_whole_region_free() {
    let a = fresh();
    assert_eq!(a.total_bytes(), 0x10000);
    assert_eq!(a.available_bytes(), 0x10000);
    assert_eq!(a.used_bytes(), 0);
    assert_eq!(a.used_pages(), 0);
    assert_eq!(a.available_pages(), 0x10);
}

#[test]
fn byte_allocations_are_consecutive() {
    let mut a = fresh();
    assert_eq!(a.alloc_bytes(lay(16, 8)), Ok(0x1000));
    assert_eq!(a.alloc_bytes(lay(32, 8)), Ok(0x1010));
    assert_eq!(a.used_bytes(), 48);
    assert_eq!(a.available_bytes(), 0x10000 - 48);
}

#[test]
fn byte_allocation_that_reaches_the_pages_is_refused() {
    let mut a = fresh();
    // Ending exactly at the page area is refused too.
    assert_eq!(a.alloc_bytes(lay(0x10000, 1)), Err(AllocError::NoMemory));
    assert_eq!(a.used_bytes(), 0);
    assert_eq!(a.alloc_bytes(lay(0xffff, 1)), Ok(0x1000));
    assert_eq!(a.available_bytes(), 1);
}

#[test]
fn pages_come_from_the_top() {
    let mut a = fresh();
    assert_eq!(a.alloc_pages(1, 12), Ok(0x10000));
    assert_eq!(a.alloc_pages(2, 12), Ok(0xe000));
    assert_eq!(a.used_pages(), 3);
    assert_eq!(a.available_pages(), 13);
    assert_eq!(a.available_bytes(), 0xd000);
}

#[test]
fn page_allocation_that_reaches_the_bytes_is_refused() {
    let mut a = fresh();
    assert_eq!(a.alloc_bytes(lay(0x1000, 1)), Ok(0x1000));
    // 15 pages would end exactly at the bytes in use.
    assert_eq!(a.alloc_pages(15, 12), Err(AllocError::NoMemory));
    assert_eq!(a.used_pages(), 0);
    assert_eq!(a.alloc_pages(14, 12), Ok(0x3000));
}

#[test]
fn dealloc_of_the_last_allocation_frees_the_byte_area() {
    let mut a = fresh();
    let p = a.alloc_bytes(lay(16, 8)).unwrap();
    let q = a.alloc_bytes(lay(16, 8)).unwrap();
    a.dealloc(p, lay(16, 8));
    assert_eq!(a.used_bytes(), 32);
    a.dealloc(q, lay(16, 8));
    assert_eq!(a.used_bytes(), 0);
    assert_eq!(a.alloc_bytes(lay(8, 8)), Ok(0x1000));
}

#[test]
fn alloc_then_dealloc_restores_the_state() {
    let mut a = fresh();
    a.alloc_pages(2, 12).unwrap();
    let before = (a.used_bytes(), a.available_bytes(), a.used_pages());
    let p = a.alloc_bytes(lay(100, 4)).unwrap();
    a.dealloc(p, lay(100, 4));
    assert_eq!((a.used_bytes(), a.available_bytes(), a.used_pages()), before);
}

#[test]
fn region_accounting_adds_up() {
    let mut a = fresh();
    a.alloc_bytes(lay(300, 8)).unwrap();
    a.alloc_pages(3, 12).unwrap();
    a.alloc_bytes(lay(5, 1)).unwrap();
    assert_eq!(a.used_bytes() + a.available_bytes() + a.used_pages() * PAGE, a.total_bytes());
}

#[test]
fn total_pages_reports_the_region_size_in_bytes() {
    let a = fresh();
    assert_eq!(a.total_pages(), 0x10000);
}

#[test]
fn add_memory_and_dealloc_pages_change_nothing() {
    let mut a = fresh();
    a.alloc_pages(1, 12).unwrap();
    assert_eq!(a.add_memory(0x100000, 0x1000), Ok(()));
    a.dealloc_pages(0x10000, 1);
    assert_eq!(a.used_pages(), 1);
    assert_eq!(a.total_bytes(), 0x10000);
}

#[test]
fn init_keeps_the_live_allocation_count() {
    let mut a = fresh();
    a.alloc_bytes(lay(16, 8)).unwrap();
    a.init(0x2000, 0x1000);
    assert_eq!(a.used_bytes(), 0);
    assert_eq!(a.alloc_bytes(lay(16, 8)), Ok(0x2000));
    // Two allocations are now counted: one dealloc leaves the bytes in use.
    a.dealloc(0x2000, lay(16, 8));
    assert_eq!(a.used_bytes(), 16);
    a.dealloc(0x2000, lay(16, 8));
    assert_eq!(a.used_bytes(), 0);
}

#[test]
fn error_variants_are_distinct() {
    let all = [
        AllocError::InvalidParam,
        AllocError::MemoryOverlap,
        AllocError::NoMemory,
        AllocError::NotAllocated,
    ];
    for i in 0..all.len() {
        for j in 0..all.len() {
            assert_eq!(all[i] == all[j], i == j);
        }
    }
}

#[test]
fn layout_checks_size_and_alignment() {
    let l = lay(24, 8);
    assert_eq!((l.size(), l.align()), (24, 8));
    assert_eq!(Layout::from_size_align(8, 0), Err(LayoutError));
    assert_eq!(Layout::from_size_align(8, 3), Err(LayoutError));
    assert_eq!(Layout::from_size_align(isize::MAX as usize, 1).map(|l| l.size()), Ok(isize::MAX as usize));
    assert_eq!(Layout::from_size_align(isize::MAX as usize, 2), Err(LayoutError));
    let top = 1usize << (usize::BITS - 1);
    for (size, align) in [(0usize, 1usize), (7, 4), (100, 64), (usize::MAX, 1), (1, 1 << 20), (0, top), (1, top)] {
        let core = core::alloc::Layout::from_size_align(size, align);
        assert_eq!(Layout::from_size_align(size, align).is_ok(), core.is_ok());
    }
}

#[test]
fn every_allocation_lies_in_its_area_and_none_overlap() {
    let mut a = fresh();
    let mut bytes = Vec::new();
    let mut pages = Vec::new();
    for i in 1..10usize {
        if let Ok(p) = a.alloc_bytes(lay(i * 100, 1)) {
            bytes.push((p, i * 100));
        }
        if let Ok(p) = a.alloc_pages(1, 12) {
            pages.push((p, PAGE));
        }
    }
    let all: Vec<(usize, usize)> = bytes.iter().chain(pages.iter()).cloned().collect();
    for (i, x) in all.iter().enumerate() {
        assert!(x.0 >= 0x1000 && x.0 + x.1 <= 0x11000);
        for y in all.iter().skip(i + 1) {
            assert!(x.0 + x.1 <= y.0 || y.0 + y.1 <= x.0);
        }
    }
    assert_eq!(a.used_pages(), pages.len());
}

#[test]
fn all_deallocated_then_next_alloc_starts_over() {
    let mut a = fresh();
    for _ in 0..5 {
        a.alloc_bytes(lay(10, 1)).unwrap();
    }
    a.alloc_pages(2, 12).unwrap();
    for _ in 0..5 {
        a.dealloc(0, lay(10, 1));
    }
    assert_eq!(a.used_bytes(), 0);
    assert_eq!(a.alloc_bytes(lay(10, 1)), Ok(0x1000));
    assert_eq!(a.used_pages(), 2);
}
