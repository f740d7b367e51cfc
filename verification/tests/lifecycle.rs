use std::collections::HashSet;

use cache_aware_router::config::CacheAwareConfig;
use cache_aware_router::float_order::F32Bits;
use cache_aware_router::policy::CacheAwarePolicy;
use cache_aware_router::routing::{RelativeLoad, Selection};
use cache_aware_router::worker::{load_range, Worker};

fn bits(x: f32) -> F32Bits {
    F32Bits { bits: x.to_bits() }
}

fn number(x: F32Bits) -> f32 {
    f32::from_bits(x.bits)
}

fn worker(url: String) -> Worker {
    Worker {
        url,
        model_id: "llama-prod".to_string(),
        healthy: true,
        load: 0,
        kv_util: bits(0.0),
        score: bits(0.0),
    }
}

/// Workers that all serve the same model.
fn make_workers(count: usize) -> Vec<Worker> {
    (1..=count).map(|i| worker(format!("http://w{}:8000", i))).collect()
}

/// A prompt of more than 100000 bytes.
fn large_prompt(prefix: &str, suffix: &str) -> String {
    let pad_len = 110_000usize.saturating_sub(prefix.len());
    let padding: String = "x".repeat(pad_len);
    format!("{}{}{}", prefix, padding, suffix)
}

fn prod_config(eviction_interval_secs: u64) -> CacheAwareConfig {
    CacheAwareConfig {
        eviction_interval_secs,
        ..CacheAwareConfig::default()
    }
}

fn assert_valid_index(idx: usize, workers: &[Worker]) {
    assert!(
        idx < workers.len(),
        "Returned index {} is out of range (workers.len() = {})",
        idx,
        workers.len()
    );
}

/// Routes a request through both stages, with the numbers that its routing needs.
fn select(policy: &mut CacheAwarePolicy, workers: &mut Vec<Worker>, text: Option<&str>) -> Option<usize> {
    let config = policy.config();
    for w in workers.iter_mut() {
        let norm_load = (w.load as f32 / 100.0).min(1.0);
        w.score = bits(number(config.alpha) * number(w.kv_util) + number(config.beta) * norm_load);
    }
    let range = load_range(workers);
    let relative = RelativeLoad {
        max_load: bits(range.max_load as f32),
        scaled_min_load: bits(range.min_load as f32 * number(config.balance_rel_threshold)),
    };
    match policy.select_worker_with_headers(workers, text, relative) {
        Selection::Decided(decision) => decision.worker,
        Selection::NeedsMatchRate(lookup) => {
            let rate = if lookup.input_char_count == 0 {
                0.0
            } else {
                lookup.matched_char_count as f32 / lookup.input_char_count as f32
            };
            policy.select_worker_by_match_rate(workers, text, &lookup, bits(rate)).worker
        }
    }
}

#[test]
fn phase1_cold_start_routing() {
    let mut workers = make_workers(4);
    let config = prod_config(0);
    let mut policy = CacheAwarePolicy::with_config(config);
    policy.init_workers(&workers);

    let small = "hello, how are you today?";
    assert!(
        small.len() < 100_000,
        "Sanity: this prompt should take the min-load path, not the cache-affinity path (len={})",
        small.len()
    );

    let mut seen = HashSet::new();
    for _ in 0..20 {
        let idx =
            select(&mut policy, &mut workers, Some(small)).expect("Should always return a worker on cold start");
        assert_valid_index(idx, &workers);
        seen.insert(idx);
    }

    println!("Phase 1 – cold start: unique workers selected = {} out of 4", seen.len());
    assert!(
        seen.len() >= 2,
        "Cold-start routing should distribute across workers, but only saw indices: {:?}",
        seen
    );
}

#[test]
fn phase2_cache_affinity_large_prompt() {
    let config = CacheAwareConfig {
        eviction_interval_secs: 0,
        ..CacheAwareConfig::default()
    };
    let mut policy = CacheAwarePolicy::with_config(config);
    let mut workers = make_workers(4);
    policy.init_workers(&workers);

    // Part A: small prompts do not use cache affinity.
    let small_prompt = "Summarise the following document:";
    let token_estimate = small_prompt.len() / 4;
    assert!(
        token_estimate < 25_000,
        "Precondition: small_prompt must be below token threshold, got {}",
        token_estimate
    );

    for _ in 0..5 {
        let idx = select(&mut policy, &mut workers, Some(small_prompt)).expect("Must select a worker");
        assert_valid_index(idx, &workers);
    }

    // Part B: a large prompt takes the cache-affinity path.
    let shared_prefix = "SHARED_PREFIX: ".to_string() + &"A".repeat(5000);
    let prompt_a = large_prompt(&shared_prefix, "_SUFFIX_A");
    let prompt_b = large_prompt(&shared_prefix, "_SUFFIX_B");

    let token_estimate_large = prompt_a.len() / 4;
    assert!(
        token_estimate_large >= 25_000,
        "Precondition: large prompt must exceed token threshold, got {}",
        token_estimate_large
    );

    let first_idx =
        select(&mut policy, &mut workers, Some(&prompt_a)).expect("Must select a worker for large prompt");
    assert_valid_index(first_idx, &workers);
    println!("Phase 2B – first large prompt routed to worker index {}", first_idx);

    let repeat_count = 5;
    for i in 0..repeat_count {
        let idx = select(&mut policy, &mut workers, Some(&prompt_a)).expect("Must select a worker");
        assert_valid_index(idx, &workers);
        assert_eq!(
            idx, first_idx,
            "Iteration {}: same large prompt must route to the same worker (cache affinity). Got {} expected {}",
            i, idx, first_idx
        );
    }

    // Part C: a prompt with the same start and another end goes to the same worker.
    let second_idx = select(&mut policy, &mut workers, Some(&prompt_b)).expect("Must select a worker for prompt_b");
    assert_valid_index(second_idx, &workers);
    assert_eq!(
        second_idx, first_idx,
        "Near-identical large prompts sharing a long prefix must co-locate on the same worker. \
         prompt_a -> worker {}, prompt_b -> worker {}",
        first_idx, second_idx
    );
    println!("Phase 2C – shared-prefix co-location confirmed (both routed to worker {})", first_idx);
}

#[test]
fn phase3_small_request_uses_min_load_and_empty_pod_priority() {
    let config = prod_config(0);
    let mut policy = CacheAwarePolicy::with_config(config);
    let mut workers = make_workers(4);
    policy.init_workers(&workers);

    workers[0].load += 2;
    workers[1].load += 1;
    workers[2].load += 3;

    println!(
        "Phase 3 – loads: w0={}, w1={}, w2={}, w3={}",
        workers[0].load, workers[1].load, workers[2].load, workers[3].load
    );

    let small = "Tell me a joke.";
    let idx = select(&mut policy, &mut workers, Some(small)).expect("Must select a worker");
    assert_valid_index(idx, &workers);

    println!("Phase 3 – small prompt routed to worker index {} (expected: 3, the empty pod)", idx);
    assert_eq!(
        idx, 3,
        "Empty pod (load==0) must be prioritised over loaded workers. Got idx {} expected 3",
        idx
    );
}

#[test]
fn phase4_load_imbalance_favors_lower_load_worker() {
    let config = CacheAwareConfig {
        balance_abs_threshold: 5,
        balance_rel_threshold: bits(1.5),
        eviction_interval_secs: 0,
        small_request_token_threshold: 0,
        ..CacheAwareConfig::default()
    };
    let mut policy = CacheAwarePolicy::with_config(config);
    let mut workers = make_workers(4);
    policy.init_workers(&workers);

    for _ in 0..20 {
        workers[0].load += 1;
    }

    println!(
        "Phase 4 – loads: w0={}, w1={}, w2={}, w3={}",
        workers[0].load, workers[1].load, workers[2].load, workers[3].load
    );

    let prompt = large_prompt("imbalance test prompt ", "");

    let mut selected_non_w0 = 0;
    let trials = 10;
    for _ in 0..trials {
        let idx = select(&mut policy, &mut workers, Some(&prompt)).expect("Must select a worker");
        assert_valid_index(idx, &workers);
        if idx != 0 {
            selected_non_w0 += 1;
        }
    }

    println!(
        "Phase 4 – {}/{} requests routed away from overloaded worker 0",
        selected_non_w0, trials
    );
    assert!(
        selected_non_w0 >= trials - 2,
        "With heavy load imbalance, at most 2 of {} requests should go to w0; got {} requests to other workers",
        trials,
        selected_non_w0
    );
}

#[test]
fn phase5_kv_util_above_threshold_excluded() {
    let config = CacheAwareConfig {
        eviction_interval_secs: 0,
        balance_abs_threshold: 1000,
        balance_rel_threshold: bits(100.0),
        ..CacheAwareConfig::default()
    };
    let mut policy = CacheAwarePolicy::with_config(config);
    let mut workers = make_workers(4);
    policy.init_workers(&workers);

    workers[0].kv_util = bits(0.95);
    println!("Phase 5 – worker 0 kv_util set to 0.95 (threshold=0.9); workers 1-3 at 0.0");

    let small = "What is 2+2?";

    let mut selected_w0 = 0;
    let trials = 20;
    for _ in 0..trials {
        let idx = select(&mut policy, &mut workers, Some(small)).expect("Must select a worker");
        assert_valid_index(idx, &workers);
        if idx == 0 {
            selected_w0 += 1;
        }
    }

    println!(
        "Phase 5 – {} of {} requests routed to high-kv_util worker 0 (should be 0)",
        selected_w0, trials
    );
    assert_eq!(
        selected_w0, 0,
        "Worker with kv_util above threshold (0.95 > 0.9) must not be selected when healthy alternatives exist"
    );

    // Where all workers are above the threshold, requests are still routed.
    for w in workers.iter_mut() {
        w.kv_util = bits(0.95);
    }
    for _ in 0..5 {
        let idx = select(&mut policy, &mut workers, Some(small))
            .expect("Must still select a worker when all exceed kv_util threshold");
        assert_valid_index(idx, &workers);
    }
    println!("Phase 5 – kv_util all-above-threshold fallback verified (no panic, valid index)");
}

#[test]
fn phase7_worker_scaling_add_remove() {
    let config = prod_config(0);
    let mut policy = CacheAwarePolicy::with_config(config);
    let mut workers = make_workers(4);
    policy.init_workers(&workers);

    // Step 1: routing works.
    let small = "test scaling request";
    let idx = select(&mut policy, &mut workers, Some(small)).expect("Should route during baseline");
    assert_valid_index(idx, &workers);

    // Step 2: add a fifth worker.
    let w5 = worker("http://w5:8000".to_string());
    policy.add_worker(&w5);
    workers.push(w5);
    println!("Phase 7 – Added w5; total workers = {}", workers.len());

    for w in workers[..4].iter_mut() {
        w.load += 2;
    }

    let idx_5 = select(&mut policy, &mut workers, Some(small)).expect("Should route after adding w5");
    assert_valid_index(idx_5, &workers);
    println!(
        "Phase 7 – After adding w5 (load=0), routed to worker index {} (expected 4 = w5)",
        idx_5
    );
    assert_eq!(
        idx_5, 4,
        "Newly added w5 with load=0 should be selected as the only empty pod. Got {}",
        idx_5
    );

    // Step 3: the first four workers become unhealthy and are removed.
    for w in workers[..4].iter_mut() {
        w.healthy = false;
        policy.remove_worker(w);
    }
    println!("Phase 7 – Marked workers 0-3 unhealthy; only w5 remains healthy");

    for w in workers[..4].iter_mut() {
        w.load = 0;
    }

    for _ in 0..5 {
        let idx = select(&mut policy, &mut workers, Some(small))
            .expect("Should route to w5 — the only healthy worker");
        assert_valid_index(idx, &workers);
        assert_eq!(
            idx, 4,
            "Only w5 is healthy; routing must select it (index 4). Got {}",
            idx
        );
    }
    println!("Phase 7 – All requests correctly routed to w5 after removing w0-w3");

    // Step 4: the last worker is removed.
    workers[4].healthy = false;
    policy.remove_worker(&workers[4]);
    println!("Phase 7 – Removed w5 (last worker); tree should be pruned");

    let result = select(&mut policy, &mut workers, Some(small));
    assert!(
        result.is_none(),
        "With no healthy workers, routing must return None (not panic). Got: {:?}",
        result
    );
    assert!(!policy.has_tree_for_model("llama-prod"));
    println!("Phase 7 – Last-worker removal: returned None safely (tree pruned, no panic)");
}

#[test]
fn phase8_eviction_bounding() {
    let config = CacheAwareConfig {
        eviction_interval_secs: 0,
        max_tree_size: 100,
        ..CacheAwareConfig::default()
    };
    let mut policy = CacheAwarePolicy::with_config(config);
    let mut workers = make_workers(4);
    policy.init_workers(&workers);

    println!("Phase 8 – Inserting 20 distinct large prompts to overflow max_tree_size=100");
    for i in 0..20 {
        let unique_prompt = large_prompt(&format!("DISTINCT_PROMPT_{:05}", i), "");
        let idx =
            select(&mut policy, &mut workers, Some(&unique_prompt)).expect("Must select a worker during flood");
        assert_valid_index(idx, &workers);
    }

    println!("Phase 8 – Calling evict_cache(max_size=100) to prune tree");
    policy.evict_cache(100);

    println!("Phase 8 – Routing after eviction should still work");
    for i in 0..10 {
        let test_prompt = if i % 2 == 0 {
            large_prompt("POST_EVICTION_LARGE_", "")
        } else {
            "small post-eviction request".to_string()
        };

        let idx = select(&mut policy, &mut workers, Some(&test_prompt)).expect("Must select a worker after eviction");
        assert_valid_index(idx, &workers);
    }
}
