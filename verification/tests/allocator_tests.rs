use pagealloc::allocator::{free_base_label, free_label, free_size_label, malloc_null_label,
    Allocator, ENOMEM};
use pagealloc::lock::AtomicLock;
use pagealloc::trace::render_line;

const MB: usize = 1 << 20;

#[test]
fn malloc_payload_supports_write_and_read_back() {
    let mut a = Allocator::new(MB);
    let p = a.malloc(100);
    assert_ne!(p, 0);
    // first region: one page at 4096, pointer just past the header
    assert_eq!(p, 4096 + 8);
    for i in 0..100 {
        a.write_byte(p, i, (i as u8).wrapping_mul(3));
    }
    for i in 0..100 {
        assert_eq!(a.read_byte(p, i), (i as u8).wrapping_mul(3));
    }
    assert_eq!(a.errno, 0);
}

#[test]
fn disjoint_allocations_do_not_disturb_each_other() {
    let mut a = Allocator::new(MB);
    let p = a.malloc(16);
    let q = a.malloc(16);
    assert_ne!(p, 0);
    assert_ne!(q, 0);
    assert_ne!(p, q);
    for i in 0..16 {
        a.write_byte(p, i, 0x11);
        a.write_byte(q, i, 0x22);
    }
    for i in 0..16 {
        assert_eq!(a.read_byte(p, i), 0x11);
        assert_eq!(a.read_byte(q, i), 0x22);
    }
}

#[test]
fn malloc_exhaustion_returns_null_and_sets_errno() {
    let mut a = Allocator::new(4096);
    let before = a.trace.clone();
    let p = a.malloc(8000);
    assert_eq!(p, 0);
    assert_eq!(a.errno, ENOMEM);
    let mut expected = before;
    expected.extend_from_slice(&render_line(&malloc_null_label(), 8000, 0));
    assert_eq!(a.trace, expected);
}

#[test]
fn free_after_malloc_allows_reuse() {
    let mut a = Allocator::new(4096);
    let p = a.malloc(100);
    assert_ne!(p, 0);
    // the single page is spoken for
    assert_eq!(a.malloc(100), 0);
    a.free(p);
    // the page came back: an unrelated malloc succeeds again
    let q = a.malloc(100);
    assert_ne!(q, 0);
    assert_ne!(q, p);
}

#[test]
fn calloc_zero_fills_the_whole_payload() {
    let mut a = Allocator::new(MB);
    let p = a.calloc(4, 8);
    assert_ne!(p, 0);
    for i in 0..32 {
        assert_eq!(a.read_byte(p, i), 0);
    }
    assert_eq!(a.errno, 0);
}

#[test]
fn calloc_overflow_fails_before_mapping() {
    let mut a = Allocator::new(MB);
    let trace_before = a.trace.clone();
    let p = a.calloc(usize::MAX, 2);
    assert_eq!(p, 0);
    assert_eq!(a.errno, ENOMEM);
    // no mapping happened: no trace line, and the next allocation still
    // lands on the very first page
    assert_eq!(a.trace, trace_before);
    assert_eq!(a.malloc(8), 4096 + 8);
}

#[test]
fn realloc_same_size_returns_same_pointer() {
    let mut a = Allocator::new(MB);
    let p = a.malloc(64);
    assert_ne!(p, 0);
    let trace_before = a.trace.clone();
    let q = a.realloc(p, 64);
    assert_eq!(q, p);
    // nothing moved, nothing traced
    assert_eq!(a.trace, trace_before);
    assert_eq!(a.errno, 0);
}

#[test]
fn realloc_grow_preserves_old_payload() {
    let mut a = Allocator::new(MB);
    let p = a.malloc(8);
    assert_ne!(p, 0);
    for i in 0..8 {
        a.write_byte(p, i, 10 + i as u8);
    }
    let q = a.realloc(p, 100);
    assert_ne!(q, 0);
    assert_ne!(q, p);
    for i in 0..8 {
        assert_eq!(a.read_byte(q, i), 10 + i as u8);
    }
    // grown bytes come from fresh zero-filled pages
    for i in 8..100 {
        assert_eq!(a.read_byte(q, i), 0);
    }
}

#[test]
fn realloc_shrink_keeps_prefix() {
    let mut a = Allocator::new(MB);
    let p = a.malloc(100);
    for i in 0..100 {
        a.write_byte(p, i, i as u8);
    }
    let q = a.realloc(p, 10);
    assert_ne!(q, 0);
    for i in 0..10 {
        assert_eq!(a.read_byte(q, i), i as u8);
    }
}

#[test]
fn realloc_to_zero_frees_and_reports_out_of_memory() {
    let mut a = Allocator::new(4096);
    let p = a.malloc(100);
    assert_ne!(p, 0);
    let q = a.realloc(p, 0);
    assert_eq!(q, 0);
    assert_eq!(a.errno, ENOMEM);
    // the old region really was deallocated: the page is available again
    assert_ne!(a.malloc(100), 0);
}

#[test]
fn realloc_null_behaves_as_malloc() {
    let mut a = Allocator::new(MB);
    let mut b = Allocator::new(MB);
    let r1 = a.realloc(0, 40);
    let r2 = b.malloc(40);
    assert_eq!(r1, r2);
    assert_ne!(r1, 0);
    assert_eq!(a.errno, b.errno);
    assert_eq!(a.trace, b.trace);
    for i in 0..40 {
        assert_eq!(a.read_byte(r1, i), b.read_byte(r2, i));
    }
}

#[test]
fn free_null_is_a_no_op() {
    let mut a = Allocator::new(MB);
    let trace_before = a.trace.clone();
    a.free(0);
    assert_eq!(a.errno, 0);
    // only the entry trace line, no base or size line, no unmapping
    let mut expected = trace_before;
    expected.extend_from_slice(&render_line(&free_label(), 0, 0));
    assert_eq!(a.trace, expected);
    // allocator state untouched: the first page is still the next one
    assert_eq!(a.malloc(8), 4096 + 8);
}

#[test]
fn free_traces_entry_base_and_recovered_size() {
    let mut a = Allocator::new(MB);
    let p = a.malloc(16);
    let before = a.trace.clone();
    a.free(p);
    let mut expected = before;
    expected.extend_from_slice(&render_line(&free_label(), 0, p));
    expected.extend_from_slice(&render_line(&free_base_label(), 0, p - 8));
    expected.extend_from_slice(&render_line(&free_size_label(), 16, p - 8));
    assert_eq!(a.trace, expected);
    assert_eq!(a.errno, 0);
}

#[test]
fn malloc_failure_trace_is_distinguished() {
    let mut a = Allocator::new(0);
    let p = a.malloc(1);
    assert_eq!(p, 0);
    let line = render_line(&malloc_null_label(), 1, 0);
    assert_eq!(a.trace, line);
}

#[test]
fn realloc_exhaustion_keeps_old_allocation() {
    let mut a = Allocator::new(4096);
    let p = a.malloc(100);
    assert_ne!(p, 0);
    for i in 0..100 {
        a.write_byte(p, i, 7);
    }
    // no capacity is left for the move, so realloc propagates null ...
    let q = a.realloc(p, 200);
    assert_eq!(q, 0);
    assert_eq!(a.errno, ENOMEM);
    // ... and the old allocation is untouched
    for i in 0..100 {
        assert_eq!(a.read_byte(p, i), 7);
    }
}

#[test]
fn malloc_success_trace_names_size_and_base() {
    let mut a = Allocator::new(MB);
    let p = a.malloc(0x1234);
    assert_ne!(p, 0);
    // the traced address is the returned pointer, one header past the base
    assert_eq!(p, 0x1008);
    assert_eq!(a.trace, b"malloc 0000000000001234 0000000000001008\n".to_vec());
}

#[test]
fn lock_releases_on_scope_exit() {
    let lock = AtomicLock::new();
    {
        let _guard = lock.lock();
    }
    // the drop released the flag, or this second acquisition would spin
    let _guard = lock.lock();
}
