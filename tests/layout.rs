use tic_alloc::layout::{checked_exp2, compute_layout, is_power_of_two, ArenaConfig, ConfigError};

fn config(total: usize, fast: usize, slot: usize, leaf: usize) -> ArenaConfig {
    ArenaConfig { total_size: total, fast_region_size: fast, fast_slot_size: slot, leaf_size: leaf }
}

#[test]
fn layout_of_small_arena() {
    let l = compute_layout(0x1000, config(4096, 512, 64, 64)).unwrap();
    assert_eq!(l.base, 0x1000);
    assert_eq!(l.fast_size, 512);
    assert_eq!(l.slot_size, 64);
    assert_eq!(l.leaf_size, 64);
    assert_eq!(l.general_base, 0x1000 + 512);
    assert_eq!(l.max_order, 5);
    assert_eq!(l.general_size, 2048);
    assert!(l.is_fast_address(0x1000));
    assert!(l.is_fast_address(0x1000 + 511));
    assert!(!l.is_fast_address(0x1000 + 512));
    assert!(!l.is_fast_address(0xfff));
}

#[test]
fn general_region_is_rounded_down_to_a_power_of_two() {
    let l = compute_layout(0, config(24 * 1024 + 100_000, 24 * 1024, 64, 16)).unwrap();
    assert_eq!(l.max_order, 12);
    assert_eq!(l.general_size, 65536);
    let exact = compute_layout(0, config(1024 + 4096, 1024, 64, 16)).unwrap();
    assert_eq!(exact.general_size, 4096);
    assert_eq!(exact.max_order, 8);
}

#[test]
fn smallest_arena_has_one_leaf() {
    let l = compute_layout(0, config(64 + 16, 64, 64, 16)).unwrap();
    assert_eq!(l.max_order, 0);
    assert_eq!(l.general_size, 16);
}

#[test]
fn each_configuration_error() {
    assert_eq!(compute_layout(0, config(4096, 512, 0, 64)), Err(ConfigError::ZeroSlotSize));
    assert_eq!(compute_layout(0, config(4096, 0, 64, 64)), Err(ConfigError::BadFastRegion));
    assert_eq!(compute_layout(0, config(4096, 500, 64, 64)), Err(ConfigError::BadFastRegion));
    assert_eq!(compute_layout(0, config(4096, 512, 64, 48)), Err(ConfigError::BadLeafSize));
    assert_eq!(compute_layout(0, config(4096, 512, 64, 0)), Err(ConfigError::BadLeafSize));
    assert_eq!(compute_layout(0, config(512 + 63, 512, 64, 64)), Err(ConfigError::ArenaTooSmall));
    assert_eq!(compute_layout(0, config(100, 512, 64, 64)), Err(ConfigError::ArenaTooSmall));
    assert_eq!(compute_layout(usize::MAX - 100, config(4096, 512, 64, 64)), Err(ConfigError::AddressOverflow));
    assert_eq!(
        compute_layout(0, config(usize::MAX, 64, 64, 1)),
        Err(ConfigError::GeneralRegionTooLarge)
    );
}

#[test]
fn errors_are_checked_in_order() {
    assert_eq!(compute_layout(0, config(0, 0, 0, 3)), Err(ConfigError::ZeroSlotSize));
    assert_eq!(compute_layout(0, config(0, 10, 64, 3)), Err(ConfigError::BadFastRegion));
    assert_eq!(compute_layout(0, config(0, 64, 64, 3)), Err(ConfigError::BadLeafSize));
}

#[test]
fn powers_of_two() {
    assert!(is_power_of_two(1));
    assert!(is_power_of_two(2));
    assert!(is_power_of_two(64));
    assert!(is_power_of_two(1usize << 63));
    assert!(!is_power_of_two(0));
    assert!(!is_power_of_two(3));
    assert!(!is_power_of_two(48));
    assert!(!is_power_of_two(usize::MAX));
    assert_eq!(checked_exp2(0), Some(1));
    assert_eq!(checked_exp2(10), Some(1024));
    assert_eq!(checked_exp2(63), Some(1usize << 63));
    assert_eq!(checked_exp2(64), None);
}
