//! The settings of the routing policy.

use vstd::prelude::*;

use crate::float_order::F32Bits;

verus! {

/// The settings of the cache-aware routing policy.
#[derive(Clone, Copy, Debug)]
pub struct CacheAwareConfig {
    /// The share of a request that must be cached for the request to go where it is cached.
    pub cache_threshold: F32Bits,
    /// How far the loads may lie apart, in requests, before the system counts as imbalanced.
    pub balance_abs_threshold: usize,
    /// How many times the least load the greatest may be before the system counts as imbalanced.
    pub balance_rel_threshold: F32Bits,
    /// How many seconds lie between two evictions. With none, nothing is evicted in the background.
    pub eviction_interval_secs: u64,
    /// How many characters of a tree a worker keeps through an eviction.
    pub max_tree_size: usize,
    /// Requests with fewer tokens are routed by load alone.
    pub small_request_token_threshold: usize,
    /// The share of its key-value cache that a worker may use before it is passed over.
    pub kv_util_threshold: F32Bits,
    /// The weight of the key-value cache utilization in a worker's score.
    pub alpha: F32Bits,
    /// The weight of the load in a worker's score.
    pub beta: F32Bits,
}

impl CacheAwareConfig {
    /// The settings used where nothing else is said: thresholds of 0.5 for cached requests and 0.9
    /// for the key-value cache, loads that may differ by 32 requests and by a factor of 1.1, an
    /// eviction every 30 seconds to 10000 characters, requests that count as small below 25000
    /// tokens, and weights of 0.7 and 0.3.
    pub open spec fn standard() -> CacheAwareConfig {
        CacheAwareConfig {
            cache_threshold: F32Bits { bits: 0x3f00_0000 },
            balance_abs_threshold: 32,
            balance_rel_threshold: F32Bits { bits: 0x3f8c_cccd },
            eviction_interval_secs: 30,
            max_tree_size: 10000,
            small_request_token_threshold: 25000,
            kv_util_threshold: F32Bits { bits: 0x3f66_6666 },
            alpha: F32Bits { bits: 0x3f33_3333 },
            beta: F32Bits { bits: 0x3e99_999a },
        }
    }
}

impl Default for CacheAwareConfig {
    fn default() -> (config: CacheAwareConfig)
        ensures
            config == CacheAwareConfig::standard(),
    {
        CacheAwareConfig {
            cache_threshold: F32Bits { bits: 0x3f00_0000 },
            balance_abs_threshold: 32,
            balance_rel_threshold: F32Bits { bits: 0x3f8c_cccd },
            eviction_interval_secs: 30,
            max_tree_size: 10000,
            small_request_token_threshold: 25000,
            kv_util_threshold: F32Bits { bits: 0x3f66_6666 },
            alpha: F32Bits { bits: 0x3f33_3333 },
            beta: F32Bits { bits: 0x3e99_999a },
        }
    }
}

} // verus!
