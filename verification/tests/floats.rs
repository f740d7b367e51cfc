use cache_aware_router::config::CacheAwareConfig;
use cache_aware_router::float_order::F32Bits;

fn bits(x: f32) -> F32Bits {
    F32Bits { bits: x.to_bits() }
}

#[test]
fn the_order_of_bits_is_the_order_of_numbers() {
    let numbers = vec![
        f32::NEG_INFINITY,
        f32::MIN,
        -1.5,
        -1.0,
        -f32::MIN_POSITIVE,
        -f32::from_bits(1),
        -0.0,
        0.0,
        f32::from_bits(1),
        f32::MIN_POSITIVE,
        0.3,
        0.5,
        0.9,
        0.95,
        1.0,
        1.1,
        f32::MAX,
        f32::INFINITY,
        f32::NAN,
        -f32::NAN,
        f32::from_bits(0x7f80_0001),
    ];
    for &a in numbers.iter() {
        for &b in numbers.iter() {
            assert_eq!(bits(a).is_less(bits(b)), a < b, "{} < {}", a, b);
            assert_eq!(bits(a).is_at_most(bits(b)), a <= b, "{} <= {}", a, b);
        }
    }
}

#[test]
fn the_standard_settings_are_these() {
    let config = CacheAwareConfig::default();
    assert_eq!(f32::from_bits(config.cache_threshold.bits), 0.5);
    assert_eq!(config.balance_abs_threshold, 32);
    assert_eq!(f32::from_bits(config.balance_rel_threshold.bits), 1.1);
    assert_eq!(config.eviction_interval_secs, 30);
    assert_eq!(config.max_tree_size, 10000);
    assert_eq!(config.small_request_token_threshold, 25000);
    assert_eq!(f32::from_bits(config.kv_util_threshold.bits), 0.9);
    assert_eq!(f32::from_bits(config.alpha.bits), 0.7);
    assert_eq!(f32::from_bits(config.beta.bits), 0.3);
}
