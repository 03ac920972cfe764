use bump_allocator::early::{AllocError, EarlyAllocator};

const PAGE: usize = 0x1000;

fn region() -> EarlyAllocator<PAGE> {
    let mut a = EarlyAllocator::<PAGE>::new();
    a.init(0x0, 0x2000);
    a
}

#[test]
fn page_allocation_takes_the_top_page() {
    let mut a = region();
    assert_eq!(a.alloc_pages(1, 0x1000), Ok(0x1000));
    assert_eq!(a.used_pages(), 1);
    assert_eq!(a.available_bytes(), 0x1000);
    assert_eq!(a.available_pages(), 1);
}

#[test]
fn byte_allocation_starts_at_region_start() {
    let mut a = region();
    assert_eq!(a.alloc_bytes(8, 8), Ok(0x0));
    assert_eq!(a.used_bytes(), 0x8);
}

#[test]
fn byte_allocation_into_page_zone_fails() {
    let mut a = region();
    assert_eq!(a.alloc_pages(1, 0x1000), Ok(0x1000));
    assert_eq!(a.alloc_bytes(8, 8), Ok(0x0));
    assert_eq!(a.alloc_bytes(0x1000, 8), Err(AllocError::NoMemory));
    assert_eq!(a.used_bytes(), 0x8);
    assert_eq!(a.available_bytes(), 0x1000 - 0x8);
}

#[test]
fn releasing_every_byte_allocation_resets_the_cursor() {
    let mut a = region();
    assert_eq!(a.alloc_bytes(8, 8), Ok(0x0));
    assert_eq!(a.alloc_bytes(8, 8), Ok(0x8));
    assert_eq!(a.dealloc(0x0, 8), Ok(()));
    assert_eq!(a.used_bytes(), 0x10);
    assert_eq!(a.dealloc(0x8, 8), Ok(()));
    assert_eq!(a.used_bytes(), 0x0);
    assert_eq!(a.alloc_bytes(4, 4), Ok(0x0));
}

#[test]
fn zero_page_alignment_is_invalid() {
    let mut a = region();
    assert_eq!(a.alloc_pages(1, 0), Err(AllocError::InvalidParam));
    assert_eq!(a.used_pages(), 0);
}

#[test]
fn non_power_of_two_page_alignment_is_invalid() {
    let mut a = region();
    assert_eq!(a.alloc_pages(1, 0x3000), Err(AllocError::InvalidParam));
    assert_eq!(a.alloc_pages(usize::MAX, 0x1000), Err(AllocError::InvalidParam));
    assert_eq!(a.available_bytes(), 0x2000);
}

#[test]
fn page_allocation_reaching_byte_cursor_fails() {
    let mut a = region();
    assert_eq!(a.alloc_pages(2, 0x1000), Err(AllocError::NoMemory));
    assert_eq!(a.alloc_pages(3, 0x1000), Err(AllocError::NoMemory));
    assert_eq!(a.used_pages(), 0);
    assert_eq!(a.alloc_bytes(1, 1), Ok(0x0));
    assert_eq!(a.alloc_pages(1, 0x1000), Ok(0x1000));
    assert_eq!(a.alloc_pages(1, 0x1000), Err(AllocError::NoMemory));
}

#[test]
fn byte_addresses_are_aligned() {
    let mut a = region();
    assert_eq!(a.alloc_bytes(3, 1), Ok(0x0));
    assert_eq!(a.alloc_bytes(4, 16), Ok(0x10));
    assert_eq!(a.alloc_bytes(1, 8), Ok(0x18));
    assert_eq!(a.used_bytes(), 0x19);
}

#[test]
fn page_addresses_are_aligned() {
    let mut a = EarlyAllocator::<PAGE>::new();
    a.init(0x1000, 0x5000);
    assert_eq!(a.alloc_pages(1, 0x1000), Ok(0x5000));
    assert_eq!(a.alloc_pages(1, 0x4000), Ok(0x4000));
    assert_eq!(a.used_pages(), 2);
    assert_eq!(a.alloc_pages(1, 0x1000), Ok(0x3000));
}

#[test]
fn total_size_stays_fixed() {
    let mut a = region();
    assert_eq!(a.total_bytes(), 0x2000);
    assert_eq!(a.total_pages(), 2);
    assert_eq!(a.alloc_pages(1, 0x1000), Ok(0x1000));
    assert_eq!(a.alloc_bytes(0x10, 8), Ok(0x0));
    assert_eq!(a.total_bytes(), 0x2000);
    assert_eq!(a.total_pages(), 2);
}

#[test]
fn release_without_allocation_is_refused() {
    let mut a = region();
    assert_eq!(a.dealloc(0x0, 8), Err(AllocError::NotAllocated));
    assert_eq!(a.alloc_bytes(8, 8), Ok(0x0));
    assert_eq!(a.dealloc(0x0, 8), Ok(()));
    assert_eq!(a.dealloc(0x0, 8), Err(AllocError::NotAllocated));
    assert_eq!(a.used_bytes(), 0);
}

#[test]
fn unsupported_operations_report_so() {
    let mut a = region();
    assert_eq!(a.add_memory(0x4000, 0x1000), Err(AllocError::Unsupported));
    assert_eq!(a.alloc_pages(1, 0x1000), Ok(0x1000));
    assert_eq!(a.dealloc_pages(0x1000, 1), Err(AllocError::Unsupported));
    assert_eq!(a.used_pages(), 1);
    assert_eq!(a.total_bytes(), 0x2000);
}

#[test]
fn reinit_forgets_earlier_allocations() {
    let mut a = region();
    assert_eq!(a.alloc_bytes(8, 8), Ok(0x0));
    assert_eq!(a.alloc_pages(1, 0x1000), Ok(0x1000));
    a.init(0x8000, 0x3000);
    assert_eq!(a.used_bytes(), 0);
    assert_eq!(a.used_pages(), 0);
    assert_eq!(a.total_pages(), 3);
    assert_eq!(a.dealloc(0x0, 8), Err(AllocError::NotAllocated));
    assert_eq!(a.alloc_bytes(8, 8), Ok(0x8000));
}

#[test]
fn constructors_start_empty() {
    let a = EarlyAllocator::<PAGE>::uninit_new();
    assert_eq!(a.total_bytes(), 0);
    assert_eq!(a.available_bytes(), 0);
    let mut b = EarlyAllocator::<PAGE>::new();
    let c = b.new_with_init(0x1000, 0x4000);
    assert_eq!(b.total_bytes(), 0);
    assert_eq!(c.total_bytes(), 0x4000);
    assert_eq!(c.available_pages(), 4);
}

#[test]
fn zero_sized_byte_allocation_still_counts() {
    let mut a = region();
    assert_eq!(a.alloc_bytes(0, 1), Ok(0x0));
    assert_eq!(a.used_bytes(), 0);
    assert_eq!(a.dealloc(0x0, 0), Ok(()));
    assert_eq!(a.dealloc(0x0, 0), Err(AllocError::NotAllocated));
}

#[test]
fn whole_free_zone_can_be_taken() {
    let mut a = region();
    assert_eq!(a.alloc_bytes(0x2000, 1), Ok(0x0));
    assert_eq!(a.available_bytes(), 0);
    assert_eq!(a.alloc_bytes(1, 1), Err(AllocError::NoMemory));
}

#[test]
fn region_at_top_of_address_space() {
    let mut a = EarlyAllocator::<PAGE>::new();
    a.init(usize::MAX - 0x10, 0x10);
    assert_eq!(a.alloc_bytes(1, 1), Ok(usize::MAX - 0x10));
    assert_eq!(a.alloc_bytes(1, 1 << 20), Err(AllocError::NoMemory));
    assert_eq!(a.alloc_bytes(0xf, 1), Ok(usize::MAX - 0xf));
    assert_eq!(a.available_bytes(), 0);
}
