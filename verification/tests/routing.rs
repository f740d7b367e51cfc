use cache_aware_router::choice::{choose_least_busy, choose_smallest_tree, least_loaded};
use cache_aware_router::config::CacheAwareConfig;
use cache_aware_router::float_order::F32Bits;
use cache_aware_router::model_key::normalize_model_key;
use cache_aware_router::policy::{join_decode_worker, CacheAwarePolicy};
use cache_aware_router::routing::{CacheLookup, Decision, PairSelection, RelativeLoad, Route, Selection};
use cache_aware_router::tree::Tree;
use cache_aware_router::worker::{find_by_url, get_healthy_worker_indices, load_range, LoadRange, Worker};

fn bits(x: f32) -> F32Bits {
    F32Bits { bits: x.to_bits() }
}

fn worker(url: &str, load: usize, kv_util: f32) -> Worker {
    let norm_load = (load as f32 / 100.0).min(1.0);
    Worker {
        url: url.to_string(),
        model_id: "m".to_string(),
        healthy: true,
        load,
        kv_util: bits(kv_util),
        score: bits(0.7 * kv_util + 0.3 * norm_load),
    }
}

fn idle_workers() -> Vec<Worker> {
    vec![worker("w0", 0, 0.0), worker("w1", 0, 0.0), worker("w2", 0, 0.0)]
}

fn config() -> CacheAwareConfig {
    CacheAwareConfig {
        small_request_token_threshold: 0,
        ..CacheAwareConfig::default()
    }
}

fn balanced() -> RelativeLoad {
    RelativeLoad {
        max_load: bits(0.0),
        scaled_min_load: bits(0.0),
    }
}

fn decided(selection: Selection) -> Decision {
    match selection {
        Selection::Decided(decision) => decision,
        Selection::NeedsMatchRate(lookup) => panic!("not decided: {:?}", lookup),
    }
}

fn looked_up(selection: Selection) -> CacheLookup {
    match selection {
        Selection::Decided(decision) => panic!("decided: {:?}", decision),
        Selection::NeedsMatchRate(lookup) => lookup,
    }
}

#[test]
fn models_without_a_name_share_a_key() {
    assert_eq!(normalize_model_key(""), "default");
    assert_eq!(normalize_model_key("unknown"), "default");
    assert_eq!(normalize_model_key("default"), "default");
    assert_eq!(normalize_model_key("llama"), "llama");
    assert_eq!(normalize_model_key(" "), " ");
}

#[test]
fn healthy_workers_are_found_in_order() {
    let mut workers = idle_workers();
    assert_eq!(get_healthy_worker_indices(&workers), vec![0, 1, 2]);
    workers[1].healthy = false;
    assert_eq!(get_healthy_worker_indices(&workers), vec![0, 2]);
    assert_eq!(get_healthy_worker_indices(&[]), Vec::<usize>::new());
}

#[test]
fn the_load_range_spans_all_workers() {
    let mut workers = vec![worker("w0", 7, 0.0), worker("w1", 3, 0.0), worker("w2", 5, 0.0)];
    workers[0].healthy = false;
    assert_eq!(load_range(&workers), LoadRange { max_load: 7, min_load: 3 });
    assert_eq!(load_range(&[]), LoadRange { max_load: 0, min_load: 0 });
    let full = vec![worker("w0", usize::MAX, 0.0)];
    assert_eq!(load_range(&full), LoadRange { max_load: usize::MAX, min_load: 0 });
}

#[test]
fn the_first_worker_at_an_address_is_found() {
    let workers = vec![worker("a", 0, 0.0), worker("b", 0, 0.0), worker("b", 0, 0.0)];
    assert_eq!(find_by_url(&workers, &"b".to_string()), Some(1));
    assert_eq!(find_by_url(&workers, &"c".to_string()), None);
}

#[test]
fn the_idle_worker_with_the_smallest_tree_is_chosen() {
    let mut tree = Tree::new();
    tree.insert("abc", "w0");
    tree.insert("a", "w1");
    tree.insert("ab", "w2");
    let mut workers = idle_workers();
    let all = vec![0, 1, 2];
    let keys = vec![0, 9, 0];
    assert_eq!(choose_least_busy(&workers, &all, bits(0.9), Some(&tree), &keys), Some(1));
    workers[1].load = 1;
    assert_eq!(choose_least_busy(&workers, &all, bits(0.9), Some(&tree), &keys), Some(2));
    workers[2].kv_util = bits(0.91);
    assert_eq!(choose_least_busy(&workers, &all, bits(0.9), Some(&tree), &keys), Some(0));
}

#[test]
fn keys_decide_among_equal_workers() {
    let workers = idle_workers();
    let all = vec![0, 1, 2];
    assert_eq!(choose_least_busy(&workers, &all, bits(0.9), None, &vec![5, 4, 6]), Some(1));
    assert_eq!(choose_least_busy(&workers, &all, bits(0.9), None, &vec![5, 5, 5]), Some(0));
    assert_eq!(choose_least_busy(&workers, &vec![2, 0], bits(0.9), None, &vec![5, 5, 5]), Some(2));
    assert_eq!(choose_least_busy(&workers, &Vec::new(), bits(0.9), None, &vec![5, 5, 5]), None);
}

#[test]
fn the_best_score_within_the_threshold_is_chosen() {
    // Scores: 0.7 * 0.5 + 0.3 * 0.5 = 0.5, 0.7 * 0.8 + 0.3 * 0.1 = 0.59, 0.7 * 0.95 + 0.003.
    let workers = vec![worker("w0", 50, 0.5), worker("w1", 10, 0.8), worker("w2", 1, 0.95)];
    let keys = vec![9, 0, 0];
    assert_eq!(choose_least_busy(&workers, &vec![0, 1, 2], bits(0.9), None, &keys), Some(0));
    assert_eq!(choose_least_busy(&workers, &vec![1, 2], bits(0.9), None, &keys), Some(1));
}

#[test]
fn equal_scores_leave_it_to_the_loads_and_the_keys() {
    // The scores of loads from 100 on are alike.
    let busy = vec![worker("w0", 200, 0.0), worker("w1", 100, 0.0), worker("w2", 100, 0.0)];
    assert_eq!(choose_least_busy(&busy, &vec![0, 1], bits(0.9), None, &vec![1, 2, 0]), Some(1));
    assert_eq!(choose_least_busy(&busy, &vec![1, 0], bits(0.9), None, &vec![1, 2, 0]), Some(1));
    assert_eq!(choose_least_busy(&busy, &vec![0, 1, 2], bits(0.9), None, &vec![0, 2, 1]), Some(2));
    assert_eq!(choose_least_busy(&busy, &vec![0, 1, 2], bits(0.9), None, &vec![0, 1, 1]), Some(1));
}

#[test]
fn an_imbalanced_system_routes_to_the_shorter_queue() {
    let workers = vec![worker("w0", 150, 0.0), worker("w1", 250, 0.0)];
    let mut policy = CacheAwarePolicy::new();
    policy.init_workers(&workers);
    for _ in 0..50 {
        let decision = policy.select_worker_min_load(&workers, None, &vec![0, 1], "m", 250, 150);
        assert_eq!(decision.worker, Some(0));
    }
    let decision = policy.select_worker_min_load_with_keys(&workers, None, &vec![0, 1], "m", 250, 150, &vec![1, 0]);
    assert_eq!(decision.worker, Some(0));
}

#[test]
fn scores_that_are_no_numbers_leave_it_to_the_loads_and_the_keys() {
    let mut workers = vec![worker("w0", 5, 0.1), worker("w1", 1, 0.1)];
    workers[0].score = bits(f32::NAN);
    assert_eq!(choose_least_busy(&workers, &vec![0, 1], bits(0.9), None, &vec![1, 2]), Some(1));
    workers[1].load = 5;
    assert_eq!(choose_least_busy(&workers, &vec![0, 1], bits(0.9), None, &vec![1, 2]), Some(0));
    assert_eq!(choose_least_busy(&workers, &vec![0, 1], bits(0.9), None, &vec![2, 1]), Some(1));
}

#[test]
fn the_smallest_tree_is_chosen_among_idle_then_uncrowded_workers() {
    let mut tree = Tree::new();
    tree.insert("abc", "w0");
    tree.insert("ab", "w1");
    tree.insert("a", "w2");
    let all = vec![0, 1, 2];
    let keys = vec![0, 0, 0];
    let mut workers = vec![worker("w0", 0, 0.0), worker("w1", 9, 0.8), worker("w2", 1, 0.95)];
    assert_eq!(choose_smallest_tree(&workers, &all, bits(0.9), Some(&tree), &keys), Some(0));
    workers[0].load = 1;
    assert_eq!(choose_smallest_tree(&workers, &all, bits(0.9), Some(&tree), &keys), Some(1));
    assert_eq!(choose_least_busy(&workers, &all, bits(0.9), Some(&tree), &keys), Some(0));
    workers[0].kv_util = bits(0.95);
    workers[1].kv_util = bits(0.95);
    assert_eq!(choose_smallest_tree(&workers, &all, bits(0.9), Some(&tree), &keys), Some(2));
    assert_eq!(choose_smallest_tree(&workers, &all, bits(0.9), None, &vec![2, 1, 3]), Some(1));
    assert_eq!(choose_smallest_tree(&workers, &Vec::new(), bits(0.9), None, &keys), None);
}

#[test]
fn where_all_are_crowded_the_smallest_tree_is_chosen() {
    let mut tree = Tree::new();
    tree.insert("abc", "w0");
    tree.insert("ab", "w1");
    let workers = vec![worker("w0", 0, 0.95), worker("w1", 70, 1.0)];
    assert_eq!(choose_least_busy(&workers, &vec![0, 1], bits(0.9), Some(&tree), &vec![0, 0]), Some(1));
    // A utilization that is no number is not within any threshold.
    let broken = vec![worker("w0", 0, f32::NAN), worker("w1", 70, 0.1)];
    assert_eq!(choose_least_busy(&broken, &vec![0, 1], bits(0.9), Some(&tree), &vec![0, 0]), Some(1));
}

#[test]
fn the_first_of_the_least_loaded_is_chosen() {
    let workers = vec![worker("w0", 4, 0.0), worker("w1", 2, 0.0), worker("w2", 2, 0.0)];
    assert_eq!(least_loaded(&workers, &vec![0, 1, 2]), Some(1));
    assert_eq!(least_loaded(&workers, &vec![2, 1]), Some(2));
    assert_eq!(least_loaded(&workers, &Vec::new()), None);
}

#[test]
fn the_policy_says_what_it_is() {
    let policy = CacheAwarePolicy::new();
    assert_eq!(policy.name(), "cache_aware");
    assert!(policy.needs_request_text());
    assert!(policy.requires_initialization());
    assert_eq!(policy.config().max_tree_size, 10000);
    assert_eq!(CacheAwarePolicy::default().config().eviction_interval_secs, 30);
}

#[test]
fn tokens_are_estimated_by_bytes() {
    let policy = CacheAwarePolicy::new();
    assert_eq!(policy.estimate_tokens(""), 0);
    assert_eq!(policy.estimate_tokens("abc"), 0);
    assert_eq!(policy.estimate_tokens("abcd"), 1);
    assert_eq!(policy.estimate_tokens("üüüü"), 2);
}

#[test]
fn workers_are_added_to_the_tree_of_their_model() {
    let mut policy = CacheAwarePolicy::new();
    assert!(!policy.has_tree_for_model("m"));
    policy.add_worker(&worker("w0", 0, 0.0));
    assert!(policy.has_tree_for_model("m"));
    assert!(policy.tree_has_tenant("m", "w0"));
    assert!(!policy.tree_has_tenant("m", "w1"));
    assert!(!policy.tree_has_tenant("other", "w0"));
    let mut nameless = worker("w1", 0, 0.0);
    nameless.model_id = "unknown".to_string();
    policy.add_worker(&nameless);
    assert!(policy.tree_has_tenant("", "w1"));
    assert!(policy.tree_has_tenant("default", "w1"));
    policy.add_worker_by_url("w2", "m");
    assert!(policy.tree_has_tenant("m", "w2"));
    assert!(policy.tree_has_tenant("m", "w0"));
}

#[test]
fn a_worker_added_by_address_keeps_the_name_of_its_model() {
    let mut policy = CacheAwarePolicy::new();
    policy.add_worker_by_url("w0", "unknown");
    assert!(!policy.has_tree_for_model("unknown"));
    policy.add_worker_by_url("w0", "default");
    assert!(policy.has_tree_for_model("unknown"));
}

#[test]
fn removing_undoes_adding() {
    let mut policy = CacheAwarePolicy::new();
    let w0 = worker("w0", 0, 0.0);
    policy.add_worker(&w0);
    policy.remove_worker(&worker("w1", 0, 0.0));
    assert!(policy.has_tree_for_model("m"));
    policy.remove_worker(&w0);
    assert!(!policy.has_tree_for_model("m"));
    policy.remove_worker(&w0);
    assert!(!policy.has_tree_for_model("m"));
}

#[test]
fn an_address_is_removed_from_all_trees() {
    let mut policy = CacheAwarePolicy::new();
    policy.add_worker_by_url("w0", "a");
    policy.add_worker_by_url("w0", "b");
    policy.add_worker_by_url("w1", "b");
    policy.add_worker_by_url("w1", "c");
    policy.remove_worker_by_url("w0");
    assert!(!policy.has_tree_for_model("a"));
    assert!(policy.has_tree_for_model("b"));
    assert!(!policy.tree_has_tenant("b", "w0"));
    assert!(policy.tree_has_tenant("b", "w1"));
    assert!(policy.tree_has_tenant("c", "w1"));
}

#[test]
fn a_model_can_be_removed() {
    let mut policy = CacheAwarePolicy::new();
    policy.add_worker_by_url("w0", "a");
    policy.add_worker_by_url("w0", "default");
    policy.remove_model("unknown");
    assert!(!policy.has_tree_for_model("default"));
    assert!(policy.has_tree_for_model("a"));
    policy.remove_model("b");
    assert!(policy.has_tree_for_model("a"));
}

#[test]
fn an_eviction_bounds_all_trees() {
    let mut policy = CacheAwarePolicy::with_config(config());
    let workers = vec![worker("w0", 0, 0.0)];
    policy.init_workers(&workers);
    let lookup = looked_up(policy.select_worker_with_draws(&workers, Some("abcdef"), balanced(), &vec![0], 0));
    policy.select_worker_by_match_rate_with_keys(&workers, Some("abcdef"), &lookup, bits(0.0), &vec![0]);
    policy.evict_cache(6);
    let kept = looked_up(policy.select_worker_with_draws(&workers, Some("abcdef"), balanced(), &vec![0], 0));
    assert_eq!(kept.matched_char_count, 6);
    policy.evict_cache(5);
    let gone = looked_up(policy.select_worker_with_draws(&workers, Some("abcdef"), balanced(), &vec![0], 0));
    assert_eq!(gone.matched_char_count, 0);
    assert_eq!(gone.tenant, "w0");
    assert!(policy.tree_has_tenant("m", "w0"));
}

#[test]
fn routes_are_chosen_by_size_balance_and_model() {
    let mut policy = CacheAwarePolicy::with_config(CacheAwareConfig {
        small_request_token_threshold: 2,
        balance_abs_threshold: 5,
        ..CacheAwareConfig::default()
    });
    let mut workers = idle_workers();
    assert_eq!(policy.route(&[], Some("12345678"), balanced()), Route::NoWorker);
    assert_eq!(policy.route(&workers, Some("1234567"), balanced()), Route::ByLoad);
    assert_eq!(policy.route(&workers, Some("12345678"), balanced()), Route::AnyWorker);
    assert_eq!(policy.route(&workers, None, balanced()), Route::AnyWorker);
    policy.init_workers(&workers);
    assert_eq!(policy.route(&workers, Some("12345678"), balanced()), Route::ByCache);
    assert_eq!(policy.route(&workers, None, balanced()), Route::ByCache);
    workers[0].load = 6;
    let uneven = RelativeLoad {
        max_load: bits(6.0),
        scaled_min_load: bits(0.0),
    };
    assert_eq!(policy.route(&workers, Some("12345678"), uneven), Route::ByLoad);
    assert_eq!(policy.route(&workers, Some("12345678"), balanced()), Route::ByCache);
    workers[0].load = 5;
    assert_eq!(policy.route(&workers, Some("12345678"), uneven), Route::ByCache);
    for w in workers.iter_mut() {
        w.healthy = false;
    }
    assert_eq!(policy.route(&workers, Some("1234567"), uneven), Route::NoWorker);
}

#[test]
fn nobody_gets_a_request_without_healthy_workers() {
    let mut policy = CacheAwarePolicy::new();
    let mut workers = idle_workers();
    policy.init_workers(&workers);
    for w in workers.iter_mut() {
        w.healthy = false;
    }
    let nobody = Decision { worker: None, processed: 0, load_range: None };
    assert_eq!(decided(policy.select_worker_with_headers(&workers, Some("x"), balanced())), nobody);
    assert_eq!(decided(policy.select_worker_with_headers(&[], None, balanced())), nobody);
}

#[test]
fn a_small_request_goes_by_load_and_is_remembered() {
    let mut policy = CacheAwarePolicy::new();
    let workers = vec![worker("w0", 3, 0.0), worker("w1", 0, 0.0), worker("w2", 1, 0.0)];
    policy.init_workers(&workers);
    let decision = decided(policy.select_worker_with_draws(&workers, Some("abc"), balanced(), &vec![0, 0, 0], 0));
    assert_eq!(
        decision,
        Decision {
            worker: Some(1),
            processed: 1,
            load_range: Some(LoadRange { max_load: 3, min_load: 0 }),
        }
    );
    let mut large = CacheAwarePolicy::with_config(config());
    large.init_workers(&workers);
    large.select_worker_min_load_with_keys(&workers, Some("abc"), &vec![1], "m", 3, 0, &vec![0, 0, 0]);
    let lookup = looked_up(large.select_worker_with_draws(&workers, Some("abc"), balanced(), &vec![0, 0, 0], 0));
    assert_eq!(lookup.matched_char_count, 3);
    assert_eq!(lookup.tenant, "w1");
}

#[test]
fn small_requests_spread_over_idle_workers() {
    let mut policy = CacheAwarePolicy::new();
    let workers = idle_workers();
    policy.init_workers(&workers);
    let mut chosen = Vec::new();
    for text in ["one", "two", "six"] {
        let decision = decided(policy.select_worker_with_headers(&workers, Some(text), balanced()));
        chosen.push(decision.worker.unwrap());
    }
    chosen.sort();
    assert_eq!(chosen, vec![0, 1, 2]);
}

#[test]
fn a_request_by_load_without_healthy_workers_still_reports_the_loads() {
    let mut policy = CacheAwarePolicy::new();
    let workers = idle_workers();
    let decision = policy.select_worker_min_load(&workers, Some("abc"), &Vec::new(), "m", 9, 4);
    assert_eq!(
        decision,
        Decision {
            worker: None,
            processed: 0,
            load_range: Some(LoadRange { max_load: 9, min_load: 4 }),
        }
    );
}

#[test]
fn any_healthy_worker_may_get_a_request_for_an_unknown_model() {
    let mut policy = CacheAwarePolicy::with_config(config());
    let mut workers = idle_workers();
    workers[0].healthy = false;
    let keys = vec![0, 0, 0];
    for (pick, place) in [(0, 1), (1, 2)] {
        let decision = decided(policy.select_worker_with_draws(&workers, Some("abc"), balanced(), &keys, pick));
        assert_eq!(decision, Decision { worker: Some(place), processed: 1, load_range: None });
    }
    let mut seen = [false; 3];
    for _ in 0..200 {
        let decision = decided(policy.select_worker_with_headers(&workers, Some("abc"), balanced()));
        seen[decision.worker.unwrap()] = true;
    }
    assert_eq!(seen, [false, true, true]);
    assert!(!policy.has_tree_for_model("m"));
}

#[test]
fn a_cached_request_goes_where_it_is_cached() {
    let mut policy = CacheAwarePolicy::with_config(config());
    let workers = idle_workers();
    policy.init_workers(&workers);
    let keys = vec![7, 1, 7];
    let lookup = looked_up(policy.select_worker_with_draws(&workers, Some("hello"), balanced(), &keys, 0));
    assert_eq!(lookup.model_key, "m");
    assert_eq!(lookup.matched_char_count, 0);
    assert_eq!(lookup.input_char_count, 5);
    let first = policy.select_worker_by_match_rate_with_keys(&workers, Some("hello"), &lookup, bits(0.0), &keys);
    assert_eq!(
        first,
        Decision {
            worker: Some(1),
            processed: 2,
            load_range: Some(LoadRange { max_load: 0, min_load: 0 }),
        }
    );
    let lookup = looked_up(policy.select_worker_with_draws(&workers, Some("hello"), balanced(), &keys, 0));
    assert_eq!(lookup.tenant, "w1");
    assert_eq!(lookup.matched_char_count, 5);
    let again = policy.select_worker_by_match_rate(&workers, Some("hello"), &lookup, bits(1.0));
    assert_eq!(again, Decision { worker: Some(1), processed: 1, load_range: None });
}

#[test]
fn a_match_rate_at_the_threshold_is_not_enough() {
    let mut policy = CacheAwarePolicy::with_config(config());
    let workers = idle_workers();
    policy.init_workers(&workers);
    let keys = vec![0, 1, 2];
    let lookup = CacheLookup {
        model_key: "m".to_string(),
        tenant: "w2".to_string(),
        matched_char_count: 1,
        input_char_count: 2,
    };
    let at = policy.select_worker_by_match_rate_with_keys(&workers, None, &lookup, bits(0.5), &keys);
    assert_eq!(at.worker, Some(0));
    let above = policy.select_worker_by_match_rate_with_keys(&workers, None, &lookup, bits(0.51), &keys);
    assert_eq!(above.worker, Some(2));
    let none = policy.select_worker_by_match_rate_with_keys(&workers, None, &lookup, bits(f32::NAN), &keys);
    assert_eq!(none.worker, Some(0));
}

#[test]
fn a_low_match_goes_by_tree_size_and_a_lost_target_by_load() {
    let workers = vec![worker("w0", 1, 0.0), worker("w1", 2, 0.0), worker("w2", 40, 0.0)];
    let lookup = CacheLookup {
        model_key: "m".to_string(),
        tenant: "w2".to_string(),
        matched_char_count: 0,
        input_char_count: 3,
    };
    let route = |rate: f32| {
        let mut policy = CacheAwarePolicy::with_config(config());
        policy.init_workers(&workers);
        policy.select_worker_min_load_with_keys(&workers, Some("cat"), &vec![0], "m", 40, 1, &vec![0, 0, 0]);
        policy.select_worker_min_load_with_keys(&workers, Some("fish"), &vec![2], "m", 40, 1, &vec![0, 0, 0]);
        policy.select_worker_by_match_rate_with_keys(&workers, Some("zzz"), &lookup, bits(rate), &vec![0, 0, 0])
    };
    let load_range = Some(LoadRange { max_load: 40, min_load: 1 });
    assert_eq!(route(0.0), Decision { worker: Some(1), processed: 2, load_range });
    assert_eq!(route(1.0), Decision { worker: Some(0), processed: 2, load_range });
}

#[test]
fn a_cached_request_follows_its_worker_whatever_the_readings() {
    let mut policy = CacheAwarePolicy::with_config(config());
    let mut workers = idle_workers();
    policy.init_workers(&workers);
    let keys = vec![7, 1, 7];
    let lookup = looked_up(policy.select_worker_with_draws(&workers, Some("hello"), balanced(), &keys, 0));
    let first = policy.select_worker_by_match_rate_with_keys(&workers, Some("hello"), &lookup, bits(0.0), &keys);
    assert_eq!(first.worker, Some(1));
    workers[1].load = 20;
    workers[1].kv_util = bits(0.85);
    workers.swap(0, 1);
    let lookup = looked_up(policy.select_worker_with_draws(&workers, Some("hello"), balanced(), &keys, 0));
    assert_eq!(lookup.tenant, "w1");
    assert_eq!(lookup.matched_char_count, 5);
    let again = policy.select_worker_by_match_rate_with_keys(&workers, Some("hello"), &lookup, bits(1.0), &keys);
    assert_eq!(again.worker, Some(0));
}

#[test]
fn a_request_routed_by_load_is_followed_by_similar_ones() {
    let mut policy = CacheAwarePolicy::with_config(config());
    let workers = idle_workers();
    policy.init_workers(&workers);
    let keys = vec![7, 7, 1];
    let first = policy.select_worker_min_load_with_keys(&workers, Some("hello"), &vec![0, 1, 2], "m", 0, 0, &keys);
    assert_eq!(first.worker, Some(2));
    for (text, matched, rate) in [("hello", 5, 1.0), ("help", 3, 0.75)] {
        let lookup = looked_up(policy.select_worker_with_draws(&workers, Some(text), balanced(), &vec![0, 0, 0], 0));
        assert_eq!(lookup.tenant, "w2");
        assert_eq!(lookup.matched_char_count, matched);
        let next = policy.select_worker_by_match_rate(&workers, Some(text), &lookup, bits(rate));
        assert_eq!(next, Decision { worker: Some(2), processed: 1, load_range: None });
    }
}

#[test]
fn removing_undoes_adding_to_a_tree_of_others() {
    let workers = vec![worker("w0", 0, 0.0)];
    let mut policy = CacheAwarePolicy::with_config(config());
    policy.init_workers(&workers);
    policy.select_worker_min_load(&workers, Some("hello"), &vec![0], "m", 0, 0);
    let added = worker("w1", 0, 0.0);
    policy.add_worker(&added);
    assert!(policy.tree_has_tenant("m", "w1"));
    policy.remove_worker(&added);
    assert!(!policy.tree_has_tenant("m", "w1"));
    assert!(policy.tree_has_tenant("m", "w0"));
    let lookup = looked_up(policy.select_worker_with_headers(&workers, Some("hello"), balanced()));
    assert_eq!(lookup.tenant, "w0");
    assert_eq!(lookup.matched_char_count, 5);
}

#[test]
fn the_keys_of_all_trees_are_listed() {
    let mut policy = CacheAwarePolicy::new();
    assert_eq!(policy.tree_keys(), Vec::<String>::new());
    policy.add_worker_by_url("w0", "b");
    policy.add_worker_by_url("w1", "b");
    policy.add_worker_by_url("w0", "a");
    let mut keys = policy.tree_keys();
    keys.sort();
    assert_eq!(keys, vec!["a".to_string(), "b".to_string()]);
}

#[test]
fn a_cache_target_that_cannot_take_the_request_is_passed_over() {
    let keys = vec![0, 1];
    let lookup = CacheLookup {
        model_key: "m".to_string(),
        tenant: "w1".to_string(),
        matched_char_count: 5,
        input_char_count: 5,
    };
    let route = |workers: &Vec<Worker>| {
        let mut policy = CacheAwarePolicy::with_config(config());
        policy.init_workers(workers);
        policy.select_worker_by_match_rate_with_keys(workers, Some("hello"), &lookup, bits(1.0), &keys)
    };
    let mut workers = vec![worker("w0", 0, 0.0), worker("w1", 31, 0.89)];
    assert_eq!(route(&workers), Decision { worker: Some(1), processed: 1, load_range: None });
    workers[1].load = 32;
    let by_load = Decision {
        worker: Some(0),
        processed: 2,
        load_range: Some(LoadRange { max_load: 32, min_load: 0 }),
    };
    assert_eq!(route(&workers), by_load);
    workers[1].load = 1;
    workers[1].kv_util = bits(0.9);
    assert_eq!(route(&workers).worker, Some(0));
    workers[1].kv_util = bits(0.1);
    workers[1].healthy = false;
    assert_eq!(route(&workers).worker, Some(0));
    workers[1].healthy = true;
    workers[1].url = "elsewhere".to_string();
    assert_eq!(route(&workers).worker, Some(0));
}

#[test]
fn a_stale_tenant_is_forgotten_where_nobody_can_take_the_request() {
    let mut policy = CacheAwarePolicy::with_config(config());
    let mut workers = vec![worker("w0", 0, 0.0)];
    policy.init_workers(&workers);
    workers[0].healthy = false;
    let lookup = CacheLookup {
        model_key: "m".to_string(),
        tenant: "w0".to_string(),
        matched_char_count: 5,
        input_char_count: 5,
    };
    policy.select_worker_by_match_rate(&workers, Some("hello"), &lookup, bits(0.1));
    assert!(policy.tree_has_tenant("m", "w0"));
    let decision = policy.select_worker_by_match_rate(&workers, Some("hello"), &lookup, bits(1.0));
    assert_eq!(decision.worker, None);
    assert_eq!(decision.processed, 0);
    assert!(policy.has_tree_for_model("m"));
    assert!(!policy.tree_has_tenant("m", "w0"));
}

#[test]
fn a_request_without_a_text_counts_as_empty() {
    let mut policy = CacheAwarePolicy::with_config(config());
    let workers = idle_workers();
    policy.init_workers(&workers);
    let lookup = looked_up(policy.select_worker_with_headers(&workers, None, balanced()));
    assert_eq!(lookup.input_char_count, 0);
    assert_eq!(lookup.matched_char_count, 0);
    assert_eq!(lookup.tenant, "w2");
}

#[test]
fn a_pair_takes_the_least_loaded_decode_worker() {
    let mut decode = vec![worker("d0", 3, 0.0), worker("d1", 1, 0.0), worker("d2", 1, 0.0)];
    assert_eq!(join_decode_worker(Some(7), &decode), Some((7, 1)));
    assert_eq!(join_decode_worker(None, &decode), None);
    decode[1].healthy = false;
    decode[2].healthy = false;
    assert_eq!(join_decode_worker(Some(7), &decode), Some((7, 0)));
    decode[0].healthy = false;
    assert_eq!(join_decode_worker(Some(7), &decode), None);
}

#[test]
fn a_pair_is_routed_like_its_prefill_worker() {
    let mut policy = CacheAwarePolicy::new();
    let prefill = vec![worker("p0", 2, 0.0), worker("p1", 0, 0.0)];
    let decode = vec![worker("d0", 3, 0.0), worker("d1", 1, 0.0)];
    policy.init_workers(&prefill);
    match policy.select_worker_pair_with_headers(&prefill, &decode, Some("x"), balanced()) {
        PairSelection::Decided(decision) => {
            assert_eq!(decision.pair, Some((1, 1)));
            assert_eq!(decision.prefill.processed, 1);
        }
        PairSelection::NeedsMatchRate(lookup) => panic!("not decided: {:?}", lookup),
    }
    match policy.select_worker_pair_with_headers(&[], &decode, Some("x"), balanced()) {
        PairSelection::Decided(decision) => assert_eq!(decision.pair, None),
        PairSelection::NeedsMatchRate(lookup) => panic!("not decided: {:?}", lookup),
    }
    let mut cached = CacheAwarePolicy::with_config(config());
    cached.init_workers(&prefill);
    match cached.select_worker_pair_with_headers(&prefill, &decode, Some("x"), balanced()) {
        PairSelection::Decided(decision) => panic!("decided: {:?}", decision),
        PairSelection::NeedsMatchRate(lookup) => {
            let decision = cached.select_worker_pair_by_match_rate(&prefill, &decode, Some("x"), &lookup, bits(0.0));
            assert_eq!(decision.pair, Some((1, 1)));
            assert_eq!(decision.prefill.processed, 2);
            let alone = cached.select_worker_pair_by_match_rate(&prefill, &[], Some("x"), &lookup, bits(0.0));
            assert_eq!(alone.pair, None);
            assert_eq!(alone.prefill.worker, Some(1));
        }
    }
}
