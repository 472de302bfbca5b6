use early_alloc::bump::{AllocError, EarlyAllocator};

const PAGE_SIZE: usize = 0x1000;

fn fresh() -> EarlyAllocator<PAGE_SIZE> {
    EarlyAllocator::new()
}

#[test]
fn region_scenario() {
    let mut a = fresh();
    a.init(0x2000, 0x4000);
    assert!(a.is_initialized());
    assert_eq!(a.total_bytes(), 0x4000);
    assert_eq!(a.used_bytes(), 0);
    assert_eq!(a.available_bytes(), 0x4000);

    assert_eq!(a.alloc_bytes(16, 8), Ok(0x2000));
    assert_eq!(a.used_bytes(), 16);

    assert_eq!(a.alloc_pages(1, 0), Ok(0x5000));

    // 0x2010 + 0x3000 = 0x5010 > 0x5000: the gap is definitively too small.
    assert_eq!(a.alloc_bytes(0x3000, 8), Err(AllocError::NoMemory));
}

#[test]
fn dealloc_never_reclaims_bytes() {
    let mut a = fresh();
    a.init(0x2000, 0x4000);
    assert_eq!(a.alloc_bytes(16, 8), Ok(0x2000));
    assert_eq!(a.used_bytes(), 16);
    a.dealloc(0x2000, 16, 8);
    assert_eq!(a.used_bytes(), 16);
}

#[test]
fn dealloc_tolerates_mismatched_calls() {
    let mut a = fresh();
    a.init(0x2000, 0x4000);
    // More deallocations than allocations: the count clamps, nothing fails.
    a.dealloc(0x2000, 16, 8);
    a.dealloc(0x2000, 16, 8);
    assert_eq!(a.used_bytes(), 0);
}

#[test]
fn invalid_byte_params() {
    let mut a = fresh();
    a.init(0x2000, 0x4000);
    assert_eq!(a.alloc_bytes(0, 8), Err(AllocError::InvalidParam));
    assert_eq!(a.alloc_bytes(8, 3), Err(AllocError::InvalidParam));
}

#[test]
fn operations_before_init_fail() {
    let mut a = fresh();
    assert!(!a.is_initialized());
    assert_eq!(a.alloc_bytes(16, 8), Err(AllocError::InvalidParam));
    assert_eq!(a.alloc_pages(1, 0), Err(AllocError::InvalidParam));
    assert_eq!(a.total_bytes(), 0);
    assert_eq!(a.used_bytes(), 0);
    assert_eq!(a.available_bytes(), 0);
    assert_eq!(a.total_pages(), 0);
    assert_eq!(a.used_pages(), 0);
    assert_eq!(a.available_pages(), 0);
}

#[test]
fn add_memory_always_fails() {
    let mut a = fresh();
    a.init(0x2000, 0x4000);
    assert_eq!(a.add_memory(0x8000, 0x1000), Err(AllocError::InvalidParam));
}

#[test]
fn byte_results_are_aligned() {
    let mut a = fresh();
    a.init(0x2001, 0x4000);
    let p = a.alloc_bytes(10, 64).unwrap();
    assert_eq!(p % 64, 0);
    assert_eq!(p, 0x2040);
    let q = a.alloc_bytes(1, 1).unwrap();
    assert_eq!(q, 0x204a);
}

#[test]
fn page_results_are_aligned() {
    let mut a = fresh();
    a.init(0x2000, 0x4000);
    // align = max(2^13, PAGE_SIZE) = 0x2000
    let p = a.alloc_pages(1, 13).unwrap();
    assert_eq!(p % 0x2000, 0);
    assert_eq!(p, 0x4000);
}

#[test]
fn invalid_page_params() {
    let mut a = fresh();
    a.init(0x2000, 0x4000);
    assert_eq!(a.alloc_pages(0, 0), Err(AllocError::InvalidParam));
    assert_eq!(a.alloc_pages(1, 200), Err(AllocError::InvalidParam));
}

#[test]
fn page_arena_exhaustion() {
    let mut a = fresh();
    a.init(0x2000, 0x4000);
    assert_eq!(a.alloc_pages(5, 0), Err(AllocError::NoMemory));
    assert_eq!(a.alloc_pages(3, 0), Ok(0x3000));
    assert_eq!(a.used_pages(), 3);
    assert_eq!(a.alloc_pages(2, 0), Err(AllocError::NoMemory));
    assert_eq!(a.alloc_pages(1, 0), Ok(0x2000));
    assert_eq!(a.used_pages(), 4);
    assert_eq!(a.alloc_pages(1, 0), Err(AllocError::NoMemory));
}

#[test]
fn dealloc_pages_is_a_no_op() {
    let mut a = fresh();
    a.init(0x2000, 0x4000);
    let p = a.alloc_pages(1, 0).unwrap();
    a.dealloc_pages(p, 1);
    assert_eq!(a.used_pages(), 1);
    assert_eq!(a.available_pages(), 3);
}

#[test]
fn byte_accounting_with_page_arena_empty() {
    let mut a = fresh();
    a.init(0x2000, 0x4000);
    assert_eq!(a.used_bytes() + a.available_bytes(), a.total_bytes());
    a.alloc_bytes(100, 8).unwrap();
    assert_eq!(a.used_bytes() + a.available_bytes(), a.total_bytes());
}

#[test]
fn page_accounting_never_exceeds_total() {
    let mut a = fresh();
    a.init(0x2000, 0x4000);
    assert!(a.used_pages() + a.available_pages() <= a.total_pages());
    a.alloc_bytes(100, 8).unwrap();
    a.alloc_pages(1, 0).unwrap();
    assert!(a.used_pages() + a.available_pages() <= a.total_pages());
    assert_eq!(a.total_pages(), 4);
    assert_eq!(a.used_pages(), 1);
}

#[test]
fn successful_allocations_never_overlap() {
    let mut a = fresh();
    a.init(0x2000, 0x4000);
    let b1 = a.alloc_bytes(24, 8).unwrap();
    let b2 = a.alloc_bytes(100, 32).unwrap();
    assert!(b1 + 24 <= b2);
    let p1 = a.alloc_pages(1, 0).unwrap();
    let p2 = a.alloc_pages(1, 0).unwrap();
    assert!(p2 + 0x1000 <= p1);
    assert!(b2 + 100 <= p2);
}

#[test]
fn failed_requests_do_not_lock_out_smaller_ones() {
    let mut a = fresh();
    a.init(0x2000, 0x4000);
    assert_eq!(a.alloc_bytes(0x5000, 8), Err(AllocError::NoMemory));
    let p = a.alloc_bytes(16, 8).unwrap();
    assert_eq!(p, 0x2000);
    assert_eq!(a.alloc_pages(100, 0), Err(AllocError::NoMemory));
    assert_eq!(a.alloc_pages(1, 0), Ok(0x5000));
}

#[test]
fn init_with_zero_start_serves_the_region() {
    let mut a = fresh();
    a.init(0, 0x4000);
    assert!(a.is_initialized());
    assert_eq!(a.total_bytes(), 0x4000);
    assert_eq!(a.alloc_bytes(16, 8), Ok(0));
    assert_eq!(a.used_bytes(), 16);
    assert_eq!(a.alloc_pages(1, 0), Ok(0x3000));
}

#[test]
fn page_counters_work_with_a_non_power_of_two_page_size() {
    let mut a: EarlyAllocator<24> = EarlyAllocator::new();
    a.init(0x100, 100);
    assert_eq!(a.total_pages(), 4);
    assert_eq!(a.used_pages(), 0);
    assert_eq!(a.available_pages(), 4);
    a.alloc_bytes(10, 2).unwrap();
    assert_eq!(a.available_pages(), 3);
    // the effective page alignment max(2^0, 24) is not a power of two
    assert_eq!(a.alloc_pages(1, 0), Err(AllocError::InvalidParam));
}

#[test]
fn page_size_is_the_type_parameter() {
    let a = fresh();
    assert_eq!(a.page_size(), PAGE_SIZE);
    let b: EarlyAllocator<0x200> = EarlyAllocator::new();
    assert_eq!(b.page_size(), 0x200);
}
