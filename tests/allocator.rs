use tic_alloc::allocator::{AllocError, Allocator};
use tic_alloc::layout::{ArenaConfig, ConfigError};

const BASE: usize = 0x1000;

fn small_arena() -> ArenaConfig {
    ArenaConfig { total_size: 4096, fast_region_size: 512, fast_slot_size: 64, leaf_size: 64 }
}

fn ready(config: ArenaConfig) -> Allocator {
    match Allocator::fixed(BASE, config) {
        Ok(a) => a,
        Err(e) => panic!("layout failed: {:?}", e),
    }
}

#[test]
fn scenario_small_arena() {
    let mut a = ready(small_arena());
    let layout = a.current_layout().unwrap();
    assert_eq!(layout.general_base, BASE + 512);
    assert_eq!(layout.max_order, 5);
    assert_eq!(layout.general_size, 2048);
    assert_eq!(a.largest_free_general_block(), 2048);

    for i in 0..8usize {
        assert_eq!(a.allocate(BASE, 64, 8), Ok(BASE + 64 * i));
    }
    assert_eq!(a.allocate(BASE, 64, 8), Err(AllocError::FastPoolExhausted));

    let big = a.allocate(BASE, 1024, 8).unwrap();
    assert_eq!(big, BASE + 512);
    assert_eq!(a.largest_free_general_block(), 1024);
    a.deallocate(big, 1024, 8);
    assert_eq!(a.largest_free_general_block(), 2048);

    let p = a.allocate(BASE, 512, 8).unwrap();
    let q = a.allocate(BASE, 512, 8).unwrap();
    assert_eq!(p, BASE + 512);
    assert_eq!(q, BASE + 1024);
    assert_eq!(a.largest_free_general_block(), 1024);
    a.deallocate(p, 512, 8);
    a.deallocate(q, 512, 8);
    assert_eq!(a.largest_free_general_block(), 2048);
}

#[test]
fn slot_sized_request_is_served_by_fast_region() {
    let mut a = ready(small_arena());
    let layout = a.current_layout().unwrap();
    let p = a.allocate(BASE, 64, 64).unwrap();
    assert!(layout.is_fast_address(p));
    assert!(p >= BASE && p + 64 <= BASE + 512);
}

#[test]
fn one_byte_over_slot_goes_to_general_region() {
    let mut a = ready(small_arena());
    let layout = a.current_layout().unwrap();
    let p = a.allocate(BASE, 65, 1).unwrap();
    assert!(!layout.is_fast_address(p));
    assert_eq!(p, BASE + 512);
    let q = a.allocate(BASE, 8, 128).unwrap();
    assert!(!layout.is_fast_address(q));
}

#[test]
fn lazy_layout_is_computed_once() {
    let mut a = Allocator::deferred(small_arena());
    assert_eq!(a.layouts_computed(), 0);
    assert!(a.current_layout().is_none());
    let first = a.allocate(0x2000, 16, 4).unwrap();
    assert_eq!(first, 0x2000);
    let layout = a.current_layout().unwrap();
    for other_base in [0x3000usize, 0x2000, 0x9000, 0x2000] {
        assert!(a.allocate(other_base, 16, 4).is_ok());
        assert_eq!(a.layouts_computed(), 1);
        assert_eq!(a.current_layout().unwrap(), layout);
    }
    assert_eq!(layout.base, 0x2000);
    assert_eq!(layout.general_base, 0x2000 + 512);
}

#[test]
fn prepare_twice_keeps_the_first_layout() {
    let mut a = Allocator::deferred(small_arena());
    assert_eq!(a.prepare(0x4000), Ok(()));
    assert_eq!(a.prepare(0x8000), Ok(()));
    assert_eq!(a.layouts_computed(), 1);
    assert_eq!(a.current_layout().unwrap().base, 0x4000);
}

#[test]
fn full_fast_pool_fails_without_using_general_region() {
    let mut a = ready(small_arena());
    for _ in 0..8 {
        a.allocate(BASE, 32, 4).unwrap();
    }
    let before = a.largest_free_general_block();
    assert_eq!(a.allocate(BASE, 64, 1), Err(AllocError::FastPoolExhausted));
    assert_eq!(a.allocate(BASE, 1, 1), Err(AllocError::FastPoolExhausted));
    assert_eq!(a.largest_free_general_block(), before);
    assert_eq!(before, 2048);
}

#[test]
fn live_allocations_do_not_overlap() {
    let mut a = ready(small_arena());
    let requests = [(64usize, 8usize), (100, 8), (20, 4), (300, 8), (64, 64), (700, 8), (65, 1)];
    let mut live: Vec<(usize, usize)> = Vec::new();
    for (size, align) in requests {
        let p = a.allocate(BASE, size, align).unwrap();
        live.push((p, size));
    }
    for i in 0..live.len() {
        for j in 0..live.len() {
            if i != j {
                let (p, s) = live[i];
                let (q, t) = live[j];
                assert!(p + s <= q || q + t <= p, "{:?} meets {:?}", live[i], live[j]);
            }
        }
    }
}

#[test]
fn freed_block_serves_a_smaller_request() {
    let mut a = ready(small_arena());
    let p = a.allocate(BASE, 1000, 8).unwrap();
    a.deallocate(p, 1000, 8);
    for n in [1024usize, 600, 100, 65] {
        let q = a.allocate(BASE, n, 8).unwrap();
        assert_eq!(q, BASE + 512);
        a.deallocate(q, n, 8);
    }
    let s = a.allocate(BASE, 40, 8).unwrap();
    a.deallocate(s, 40, 8);
    assert_eq!(a.allocate(BASE, 64, 8), Ok(s));
}

#[test]
fn two_leaves_coalesce_back_to_whole_region() {
    let config = ArenaConfig { total_size: 4096, fast_region_size: 512, fast_slot_size: 16, leaf_size: 64 };
    let mut a = ready(config);
    let p = a.allocate(BASE, 64, 8).unwrap();
    let q = a.allocate(BASE, 64, 8).unwrap();
    assert_eq!(p, BASE + 512);
    assert_eq!(q, BASE + 512 + 64);
    assert_eq!(a.largest_free_general_block(), 1024);
    a.deallocate(p, 64, 8);
    assert_eq!(a.largest_free_general_block(), 1024);
    a.deallocate(q, 64, 8);
    assert_eq!(a.largest_free_general_block(), 2048);
}

#[test]
fn coalescing_in_reverse_order() {
    let config = ArenaConfig { total_size: 4096, fast_region_size: 512, fast_slot_size: 16, leaf_size: 64 };
    let mut a = ready(config);
    let p = a.allocate(BASE, 64, 8).unwrap();
    let q = a.allocate(BASE, 200, 8).unwrap();
    assert_eq!(q, BASE + 512 + 256);
    a.deallocate(q, 200, 8);
    a.deallocate(p, 64, 8);
    assert_eq!(a.largest_free_general_block(), 2048);
}

#[test]
fn general_region_runs_out() {
    let mut a = ready(small_arena());
    assert_eq!(a.allocate(BASE, 2049, 8), Err(AllocError::OutOfMemory));
    let p = a.allocate(BASE, 2048, 8).unwrap();
    assert_eq!(p, BASE + 512);
    assert_eq!(a.largest_free_general_block(), 0);
    assert_eq!(a.allocate(BASE, 65, 8), Err(AllocError::OutOfMemory));
    assert!(a.allocate(BASE, 64, 8).is_ok());
    a.deallocate(p, 2048, 8);
    assert_eq!(a.allocate(BASE, 65, 8), Ok(BASE + 512));
}

#[test]
fn fast_slot_returns_to_head_of_list() {
    let mut a = ready(small_arena());
    let p0 = a.allocate(BASE, 10, 1).unwrap();
    let p1 = a.allocate(BASE, 10, 1).unwrap();
    let p2 = a.allocate(BASE, 10, 1).unwrap();
    assert_eq!((p0, p1, p2), (BASE, BASE + 64, BASE + 128));
    a.deallocate(p1, 10, 1);
    a.deallocate(p0, 10, 1);
    assert_eq!(a.allocate(BASE, 10, 1), Ok(p0));
    assert_eq!(a.allocate(BASE, 10, 1), Ok(p1));
    assert_eq!(a.allocate(BASE, 10, 1), Ok(BASE + 192));
}

#[test]
fn deferred_configuration_error_is_reported_every_time() {
    let bad = ArenaConfig { total_size: 512, fast_region_size: 512, fast_slot_size: 64, leaf_size: 64 };
    let mut a = Allocator::deferred(bad);
    assert_eq!(a.allocate(BASE, 8, 8), Err(AllocError::Config(ConfigError::ArenaTooSmall)));
    assert_eq!(a.allocate(BASE, 8, 8), Err(AllocError::Config(ConfigError::ArenaTooSmall)));
    assert_eq!(a.layouts_computed(), 1);
    assert!(a.current_layout().is_none());
    assert_eq!(a.largest_free_general_block(), 0);
}

#[test]
fn fixed_mode_reports_configuration_error() {
    let bad = ArenaConfig { total_size: 4096, fast_region_size: 500, fast_slot_size: 64, leaf_size: 64 };
    assert!(matches!(Allocator::fixed(BASE, bad), Err(ConfigError::BadFastRegion)));
}
