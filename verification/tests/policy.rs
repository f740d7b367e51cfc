use cache_aware_router::config::CacheAwareConfig;
use cache_aware_router::float_order::F32Bits;
use cache_aware_router::policy::CacheAwarePolicy;
use cache_aware_router::routing::{RelativeLoad, Selection};
use cache_aware_router::tree::Tree;
use cache_aware_router::worker::{load_range, Worker};

fn bits(x: f32) -> F32Bits {
    F32Bits { bits: x.to_bits() }
}

fn number(x: F32Bits) -> f32 {
    f32::from_bits(x.bits)
}

fn worker(url: &str) -> Worker {
    Worker {
        url: url.to_string(),
        model_id: "unknown".to_string(),
        healthy: true,
        load: 0,
        kv_util: bits(0.0),
        score: bits(0.0),
    }
}

fn worker_of_model(url: &str, model_id: &str) -> Worker {
    Worker {
        model_id: model_id.to_string(),
        ..worker(url)
    }
}

fn two_workers() -> Vec<Worker> {
    vec![worker("http://w1:8000"), worker("http://w2:8000")]
}

/// Routes a request through both stages, with the numbers that its routing needs.
fn select(policy: &mut CacheAwarePolicy, workers: &mut Vec<Worker>, text: Option<&str>) -> Option<usize> {
    let config = policy.config();
    for w in workers.iter_mut() {
        let norm_load = (w.load as f32 / 100.0).min(1.0);
        w.score = bits(number(config.alpha) * number(w.kv_util) + number(config.beta) * norm_load);
    }
    let range = load_range(workers);
    let relative = RelativeLoad {
        max_load: bits(range.max_load as f32),
        scaled_min_load: bits(range.min_load as f32 * number(config.balance_rel_threshold)),
    };
    match policy.select_worker_with_headers(workers, text, relative) {
        Selection::Decided(decision) => decision.worker,
        Selection::NeedsMatchRate(lookup) => {
            let rate = if lookup.input_char_count == 0 {
                0.0
            } else {
                lookup.matched_char_count as f32 / lookup.input_char_count as f32
            };
            policy.select_worker_by_match_rate(workers, text, &lookup, bits(rate)).worker
        }
    }
}

#[test]
fn test_cache_aware_with_balanced_load() {
    let config = CacheAwareConfig {
        eviction_interval_secs: 0,
        small_request_token_threshold: 0,
        ..Default::default()
    };
    let mut policy = CacheAwarePolicy::with_config(config);
    let mut workers = two_workers();

    policy.init_workers(&workers);

    // First request should be distributed
    let idx1 = select(&mut policy, &mut workers, Some("hello world")).unwrap();

    // Same request should go to same worker (cache hit)
    let idx2 = select(&mut policy, &mut workers, Some("hello world")).unwrap();
    assert_eq!(idx1, idx2);

    // Similar request should also go to same worker
    let idx3 = select(&mut policy, &mut workers, Some("hello")).unwrap();
    assert_eq!(idx1, idx3);
}

#[test]
fn test_cache_aware_with_imbalanced_load() {
    let mut policy = CacheAwarePolicy::with_config(CacheAwareConfig {
        cache_threshold: bits(0.5),
        balance_abs_threshold: 5,
        balance_rel_threshold: bits(2.0),
        eviction_interval_secs: 0,
        max_tree_size: 10000,
        small_request_token_threshold: 25000,
        kv_util_threshold: bits(0.9),
        alpha: bits(0.7),
        beta: bits(0.3),
    });

    let mut workers = two_workers();
    for _ in 0..20 {
        workers[0].load += 1;
    }
    policy.init_workers(&workers);

    // Should select worker2 (lower load) despite cache affinity
    for _ in 0..5 {
        let idx = select(&mut policy, &mut workers, Some("test")).unwrap();
        assert_eq!(idx, 1);
    }
}

#[test]
fn test_cache_aware_worker_removal() {
    let config = CacheAwareConfig {
        eviction_interval_secs: 0,
        ..Default::default()
    };
    let mut policy = CacheAwarePolicy::with_config(config);
    let mut workers = two_workers();

    policy.init_workers(&workers);

    // Route some requests
    select(&mut policy, &mut workers, Some("test1"));
    select(&mut policy, &mut workers, Some("test2"));

    // Remove a worker
    policy.remove_worker_by_url("http://w1:8000");
    workers[0].healthy = false;

    // All requests should now go to worker2
    let idx = select(&mut policy, &mut workers, Some("test1")).unwrap();
    assert_eq!(idx, 1);
}

#[test]
fn test_tree_removed_when_last_worker_removed() {
    let config = CacheAwareConfig {
        eviction_interval_secs: 0,
        small_request_token_threshold: 0,
        ..Default::default()
    };
    let mut policy = CacheAwarePolicy::with_config(config);

    let workers = vec![
        worker_of_model("http://m1w1:8000", "model-alpha"),
        worker_of_model("http://m1w2:8000", "model-alpha"),
    ];
    policy.init_workers(&workers);

    assert!(policy.has_tree_for_model("model-alpha"), "tree must exist after init");

    policy.remove_worker(&workers[0]);
    policy.remove_worker(&workers[1]);

    assert!(
        !policy.has_tree_for_model("model-alpha"),
        "tree must be removed after last worker is gone"
    );
}

#[test]
fn test_other_model_tree_survives_removal() {
    let config = CacheAwareConfig {
        eviction_interval_secs: 0,
        small_request_token_threshold: 0,
        ..Default::default()
    };
    let mut policy = CacheAwarePolicy::with_config(config);

    let all_workers = vec![
        worker_of_model("http://alpha:8000", "model-alpha"),
        worker_of_model("http://beta:8000", "model-beta"),
    ];
    policy.init_workers(&all_workers);

    assert!(policy.has_tree_for_model("model-alpha"));
    assert!(policy.has_tree_for_model("model-beta"));

    // Remove only model-alpha's worker.
    policy.remove_worker(&all_workers[0]);

    assert!(!policy.has_tree_for_model("model-alpha"), "model-alpha tree must be gone");
    assert!(policy.has_tree_for_model("model-beta"), "model-beta tree must remain");
}

#[test]
fn repro_tree_caches_both_divergent_prefixes() {
    let mut tree = Tree::new();
    tree.insert("This is a cat", "w1");
    tree.insert("This is a dog", "w2");

    let r1 = tree.prefix_match_with_counts("This is a cat");
    assert_eq!(r1.matched_char_count, 13, "cat should fully match");
    assert_eq!(&*r1.tenant, "w1");

    let r2 = tree.prefix_match_with_counts("This is a dog");
    assert_eq!(r2.matched_char_count, 13, "dog should fully match — it IS cached");
    assert_eq!(&*r2.tenant, "w2");

    // A third divergent suffix shares the 10-char "This is a " prefix.
    let r3 = tree.prefix_match_with_counts("This is a fox");
    assert_eq!(r3.matched_char_count, 10, "shared 'This is a ' prefix");
}

fn cfg(small_request_token_threshold: usize) -> CacheAwareConfig {
    CacheAwareConfig {
        cache_threshold: bits(0.3),
        balance_abs_threshold: 32,
        balance_rel_threshold: bits(1.5),
        eviction_interval_secs: 0,
        max_tree_size: 100_000,
        small_request_token_threshold,
        kv_util_threshold: bits(0.9),
        alpha: bits(0.7),
        beta: bits(0.3),
    }
}

/// With the threshold at 25000 both small prompts are routed by load, to different workers.
#[test]
fn repro_small_request_bypass_breaks_affinity() {
    let mut policy = CacheAwarePolicy::with_config(cfg(25_000));
    let mut workers = two_workers();
    policy.init_workers(&workers);

    let idx1 = select(&mut policy, &mut workers, Some("This is a cat")).unwrap();
    let idx2 = select(&mut policy, &mut workers, Some("This is a dog")).unwrap();

    assert_ne!(
        idx1, idx2,
        "default 25000-token bypass spreads tiny prompts across workers (no cache affinity)"
    );
}

/// With the threshold at 0 the second prompt follows the first one by the shared prefix.
#[test]
fn repro_affinity_works_when_bypass_disabled() {
    let mut policy = CacheAwarePolicy::with_config(cfg(0));
    let mut workers = two_workers();
    policy.init_workers(&workers);

    let idx1 = select(&mut policy, &mut workers, Some("This is a cat")).unwrap();
    let idx2 = select(&mut policy, &mut workers, Some("This is a dog")).unwrap();

    assert_eq!(
        idx1, idx2,
        "with bypass off, shared prefix routes req2 to req1's worker (cache hit)"
    );
}

/// While the load is balanced and no worker is idle, a request of which nothing is cached goes to the
/// worker with the smallest tree.
#[test]
fn a_low_match_goes_to_the_smallest_tree() {
    let mut policy = CacheAwarePolicy::with_config(cfg(0));
    let mut workers = two_workers();
    workers[1].load = 1;
    policy.init_workers(&workers);

    assert_eq!(select(&mut policy, &mut workers, Some("This is a cat")), Some(0));
    workers[0].load += 1;
    workers[1].load += 1;
    assert_eq!(select(&mut policy, &mut workers, Some("zzz")), Some(1));
}
