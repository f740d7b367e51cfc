//! Laws of routing decisions, stated on what the workers report and on what the trees hold.

use vstd::prelude::*;

use crate::choice::{
    by_load, is_order, law_all_crowded_by_size, law_best_score, law_crowded_workers_excluded, law_keys_break_ties_of_score,
    law_least_busy_idle_by_size, law_least_busy_is_candidate, law_least_is_candidate, law_least_is_first, law_shortest_queue,
    law_smallest_tree_idle_first, law_smallest_tree_within_by_size, least,
};
use crate::config::CacheAwareConfig;
use crate::float_order::F32Bits;
use crate::model::{cached, lane, prefixes};
use crate::model_key::{law_names_are_kept_apart, model_key};
use crate::prefix::lemma_prefix_is_take;
use crate::routing::{
    after_load_decision, after_rate_decision, are_evicted, cache_target, estimated_tokens, is_cache_target, is_selection,
    load_decision, pair_decision, pair_of, rate_decision, route_of, served_model, text_or_empty, with_worker, with_workers, without_url,
    without_worker,
    CacheLookup, Decision, RelativeLoad, Selection, Trees,
};
use crate::routing_laws::{are_valid, is_healthy_place, law_added_worker_takes_part};
use crate::tree::TreeModel;
use crate::tree_laws::{
    law_eviction_is_least_recently_used, law_fresh_is_valid, law_insert_caches_prefixes, law_insert_keeps_valid,
    law_look_up_is_a_use, law_look_up_keeps_cache, law_match_is_longest, law_removed_tenant_is_gone,
};
use crate::worker::{healthy_indices, law_healthy_places, law_load_range, load_range_of, LoadRange, Worker};

verus! {

/// The place of a healthy worker is among the healthy places, and all of those are such places.
proof fn lemma_healthy(workers: Seq<Worker>)
    requires
        workers.len() <= usize::MAX,
    ensures
        forall|i: usize| #[trigger] healthy_indices(workers).contains(i) <==> is_healthy_place(workers, i),
{
    law_healthy_places(workers);
    let healthy = healthy_indices(workers);
    assert forall|i: usize| #[trigger] healthy.contains(i) <==> is_healthy_place(workers, i) by {
        if i < workers.len() && workers[i as int].healthy {
            let j = choose|j: int| 0 <= j < healthy.len() && (#[trigger] healthy[j]) == i;
            assert(healthy[j] == i);
        }
    }
}

/// The workers serve the model of the first healthy one.
pub proof fn law_first_healthy_worker_gives_the_model(workers: Seq<Worker>, first: int)
    requires
        workers.len() <= usize::MAX,
        0 <= first < workers.len(),
        workers[first].healthy,
        forall|i: int| 0 <= i < first ==> !(#[trigger] workers[i]).healthy,
    ensures
        served_model(workers) == model_key(workers[first].model_id@),
{
    law_healthy_places(workers);
    let healthy = healthy_indices(workers);
    let j = choose|j: int| 0 <= j < healthy.len() && (#[trigger] healthy[j]) == first as usize;
    assert(workers[(first as usize) as int].healthy);
    assert(healthy[j] == first);
    if j > 0 {
        assert(healthy[0] < healthy[j]);
        assert(workers[healthy[0] as int].healthy);
    }
}

/// Four bytes of a text make a token.
pub proof fn law_four_bytes_make_a_token(text: Seq<char>)
    requires
        vstd::utf8::encode_utf8(text).len() <= usize::MAX,
    ensures
        4 * estimated_tokens(text) <= vstd::utf8::encode_utf8(text).len() < 4 * estimated_tokens(text) + 4,
{
}

/// Where no worker is healthy, a request is not routed.
pub proof fn law_nobody_healthy(
    trees: Trees,
    config: CacheAwareConfig,
    workers: Seq<Worker>,
    text: Option<Seq<char>>,
    relative: RelativeLoad,
)
    requires
        workers.len() <= usize::MAX,
    ensures
        route_of(trees, config, workers, text, relative) is NoWorker <==> forall|i: int|
            0 <= i < workers.len() ==> !(#[trigger] workers[i]).healthy,
{
    law_healthy_places(workers);
    let healthy = healthy_indices(workers);
    if healthy.len() > 0 {
        assert(workers[healthy[0] as int].healthy);
    } else {
        assert forall|i: int| 0 <= i < workers.len() implies !(#[trigger] workers[i]).healthy by {
            assert(workers[(i as usize) as int] == workers[i]);
        }
    }
}

/// A request with a text of fewer bytes than four times the token threshold is routed by load, if some
/// worker is healthy.
pub proof fn law_small_request_goes_by_load(
    trees: Trees,
    config: CacheAwareConfig,
    workers: Seq<Worker>,
    text: Seq<char>,
    relative: RelativeLoad,
    healthy: int,
)
    requires
        workers.len() <= usize::MAX,
        0 <= healthy < workers.len(),
        workers[healthy].healthy,
        vstd::utf8::encode_utf8(text).len() < 4 * config.small_request_token_threshold,
        vstd::utf8::encode_utf8(text).len() <= usize::MAX,
    ensures
        route_of(trees, config, workers, Some(text), relative) is ByLoad,
{
    law_nobody_healthy(trees, config, workers, Some(text), relative);
    law_four_bytes_make_a_token(text);
}

/// Where two loads differ by more than the absolute threshold, and the greatest load is more than the
/// least one times the relative threshold, a request is routed by load, if some worker is healthy.
pub proof fn law_imbalanced_request_goes_by_load(
    trees: Trees,
    config: CacheAwareConfig,
    workers: Seq<Worker>,
    text: Option<Seq<char>>,
    relative: RelativeLoad,
    healthy: int,
    high: int,
    low: int,
)
    requires
        workers.len() <= usize::MAX,
        0 <= healthy < workers.len(),
        workers[healthy].healthy,
        0 <= high < workers.len(),
        0 <= low < workers.len(),
        workers[high].load - workers[low].load > config.balance_abs_threshold,
        relative.scaled_min_load.less(relative.max_load),
    ensures
        route_of(trees, config, workers, text, relative) is ByLoad,
{
    law_nobody_healthy(trees, config, workers, text, relative);
    law_load_range(workers);
}

/// A request that is not small is routed by what is cached, if some worker is healthy, the model of
/// the workers has a tree, and the loads are in balance: either no two of them differ by more than
/// the absolute threshold, or the greatest is not more than the least times the relative threshold.
/// Where the model has no tree, any healthy worker may get it. Loads that are all `usize::MAX` are
/// left out: the least one is then read as 0.
pub proof fn law_balanced_request_goes_by_cache(
    trees: Trees,
    config: CacheAwareConfig,
    workers: Seq<Worker>,
    text: Option<Seq<char>>,
    relative: RelativeLoad,
    healthy: int,
)
    requires
        workers.len() <= usize::MAX,
        0 <= healthy < workers.len(),
        workers[healthy].healthy,
        text matches Some(t) ==> 4 * config.small_request_token_threshold <= vstd::utf8::encode_utf8(t).len() <= usize::MAX,
        ((exists|i: int| 0 <= i < workers.len() && (#[trigger] workers[i]).load < usize::MAX) && (forall|i: int, j: int|
            0 <= i < workers.len() && 0 <= j < workers.len() ==> (#[trigger] workers[i]).load - (#[trigger] workers[j]).load
                <= config.balance_abs_threshold)) || !relative.scaled_min_load.less(relative.max_load),
    ensures
        trees.contains_key(served_model(workers)) ==> route_of(trees, config, workers, text, relative) is ByCache,
        !trees.contains_key(served_model(workers)) ==> route_of(trees, config, workers, text, relative) is AnyWorker,
{
    law_nobody_healthy(trees, config, workers, text, relative);
    if let Some(t) = text {
        law_four_bytes_make_a_token(t);
    }
    law_load_range(workers);
    if relative.scaled_min_load.less(relative.max_load) {
        let i = choose|i: int| 0 <= i < workers.len() && (#[trigger] workers[i]).load == load_range_of(workers).max_load;
        let j = choose|j: int| 0 <= j < workers.len() && (#[trigger] workers[j]).load == load_range_of(workers).min_load;
        assert(workers[i].load - workers[j].load <= config.balance_abs_threshold);
    }
}

/// What becomes of a request follows its route. Routed by what is cached, it waits for its match rate,
/// and the lookup speaks of the model of the workers and of the request's text, which is empty where
/// there is none. Routed by load, it is decided, with the loads to report, and counts once. Where any
/// worker may get it, a healthy one does, and it counts once. Where no worker is healthy, nobody gets
/// it, and nothing is counted.
pub proof fn law_selection_follows_route(
    before: Trees,
    config: CacheAwareConfig,
    workers: Seq<Worker>,
    text: Option<Seq<char>>,
    relative: RelativeLoad,
    keys: Seq<u32>,
    pick: usize,
    selection: Selection,
    after: Trees,
)
    requires
        workers.len() <= usize::MAX,
        pick < healthy_indices(workers).len() || healthy_indices(workers).len() == 0,
        is_selection(before, config, workers, text, relative, keys, pick, selection, after),
    ensures
        route_of(before, config, workers, text, relative) is ByCache <==> selection is NeedsMatchRate,
        selection matches Selection::NeedsMatchRate(lookup) ==> lookup.model_key@ == served_model(workers)
            && lookup.input_char_count == (match text {
            Some(t) => t.len(),
            None => 0,
        }) && lookup.matched_char_count <= lookup.input_char_count,
        route_of(before, config, workers, text, relative) is ByLoad ==> (selection matches Selection::Decided(decision)
            && decision.processed == 1 && decision.worker is Some && decision.load_range == Some(load_range_of(workers))),
        route_of(before, config, workers, text, relative) is AnyWorker ==> (selection matches Selection::Decided(decision)
            && decision.processed == 1 && (decision.worker matches Some(i) && is_healthy_place(workers, i))
            && decision.load_range is None && after == before),
        route_of(before, config, workers, text, relative) is NoWorker ==> (selection matches Selection::Decided(decision)
            && decision.processed == 0 && decision.worker is None && decision.load_range is None && after == before),
{
    let healthy = healthy_indices(workers);
    lemma_healthy(workers);
    if healthy.len() > 0 {
        assert(healthy.contains(healthy[pick as int]));
        law_least_busy_is_candidate(
            workers,
            healthy,
            config.kv_util_threshold,
            before.get(model_key(served_model(workers))),
            keys,
        );
    }
}

/// Where any healthy worker may get a request, every healthy worker can.
pub proof fn law_any_healthy_worker_can_be_picked(
    trees: Trees,
    config: CacheAwareConfig,
    workers: Seq<Worker>,
    text: Option<Seq<char>>,
    relative: RelativeLoad,
    keys: Seq<u32>,
    wanted: usize,
) -> (pick: usize)
    requires
        workers.len() <= usize::MAX,
        wanted < workers.len(),
        workers[wanted as int].healthy,
        route_of(trees, config, workers, text, relative) is AnyWorker,
    ensures
        pick < healthy_indices(workers).len(),
        is_selection(
            trees,
            config,
            workers,
            text,
            relative,
            keys,
            pick,
            Selection::Decided((Decision { worker: Some(wanted), processed: 1, load_range: None })),
            trees,
        ),
{
    law_healthy_places(workers);
    let healthy = healthy_indices(workers);
    let j = choose|j: int| 0 <= j < healthy.len() && (#[trigger] healthy[j]) == wanted;
    lemma_increasing_bound(healthy, j);
    j as usize
}

/// A place in an increasing sequence is no greater than what stands there.
proof fn lemma_increasing_bound(s: Seq<usize>, j: int)
    requires
        0 <= j < s.len(),
        forall|i: int, k: int| 0 <= i < k < s.len() ==> (#[trigger] s[i]) < (#[trigger] s[k]),
    ensures
        j <= s[j],
    decreases j,
{
    if j > 0 {
        lemma_increasing_bound(s, j - 1);
        assert(s[j - 1] < s[j]);
    }
}

/// A request goes to the worker that has it cached exactly if its match rate is above the threshold and
/// the first worker at the address that was looked up is healthy, uses less of its key-value cache
/// than the threshold, and has less load than the absolute threshold.
pub proof fn law_cache_hit(
    trees: Trees,
    config: CacheAwareConfig,
    workers: Seq<Worker>,
    lookup: CacheLookup,
    match_rate: F32Bits,
    keys: Seq<u32>,
    first: usize,
)
    requires
        first < workers.len(),
        workers[first as int].url@ == lookup.tenant@,
        forall|j: int| 0 <= j < first ==> (#[trigger] workers[j]).url@ != lookup.tenant@,
    ensures
        rate_decision(trees, config, workers, lookup, match_rate, keys).load_range is None
            <==> config.cache_threshold.less(match_rate) && workers[first as int].healthy && workers[first as int].kv_util.less(
            config.kv_util_threshold,
        ) && workers[first as int].load < config.balance_abs_threshold,
        rate_decision(trees, config, workers, lookup, match_rate, keys).load_range is None ==> rate_decision(
            trees,
            config,
            workers,
            lookup,
            match_rate,
            keys,
        ).worker == Some(first) && rate_decision(trees, config, workers, lookup, match_rate, keys).processed == 1,
{
    let url = lookup.tenant@;
    assert forall|i: usize| #[trigger] is_cache_target(config, workers, url, i) implies i == first by {
        if first < i {
            assert(workers[first as int].url@ != url);
        }
        if i < first {
            assert(workers[i as int].url@ != url);
        }
    }
    if workers[first as int].healthy && workers[first as int].kv_util.less(config.kv_util_threshold)
        && workers[first as int].load < config.balance_abs_threshold {
        assert(is_cache_target(config, workers, url, first));
        assert(cache_target(config, workers, url) == Some(first));
    } else {
        assert(cache_target(config, workers, url) is None) by {
            if exists|i: usize| is_cache_target(config, workers, url, i) {
                let i = choose|i: usize| is_cache_target(config, workers, url, i);
                assert(i == first);
            }
        }
    }
}

/// Whoever gets a request because it has it cached is at the address that was looked up, is healthy,
/// uses less of its key-value cache than the threshold, and has less load than the absolute
/// threshold. Any other request reports the loads, and counts twice if somebody gets it.
pub proof fn law_rated_request(
    trees: Trees,
    config: CacheAwareConfig,
    workers: Seq<Worker>,
    lookup: CacheLookup,
    match_rate: F32Bits,
    keys: Seq<u32>,
)
    ensures
        match rate_decision(trees, config, workers, lookup, match_rate, keys).load_range {
            None => rate_decision(trees, config, workers, lookup, match_rate, keys).worker matches Some(i) && {
                &&& config.cache_threshold.less(match_rate)
                &&& i < workers.len()
                &&& workers[i as int].url@ == lookup.tenant@
                &&& workers[i as int].healthy
                &&& workers[i as int].kv_util.less(config.kv_util_threshold)
                &&& workers[i as int].load < config.balance_abs_threshold
                &&& rate_decision(trees, config, workers, lookup, match_rate, keys).processed == 1
            },
            Some(range) => range == load_range_of(workers) && rate_decision(
                trees,
                config,
                workers,
                lookup,
                match_rate,
                keys,
            ).processed == (if rate_decision(trees, config, workers, lookup, match_rate, keys).worker is Some {
                2int
            } else {
                0
            }),
        },
{
    if exists|i: usize| is_cache_target(config, workers, lookup.tenant@, i) {
        let i = choose|i: usize| is_cache_target(config, workers, lookup.tenant@, i);
        assert(cache_target(config, workers, lookup.tenant@) == Some(i));
    }
}

/// Where enough of a request is cached, but it does not go there, it goes where it would go by load.
pub proof fn law_lost_target_goes_by_load(
    trees: Trees,
    config: CacheAwareConfig,
    workers: Seq<Worker>,
    lookup: CacheLookup,
    match_rate: F32Bits,
    keys: Seq<u32>,
)
    requires
        config.cache_threshold.less(match_rate),
        rate_decision(trees, config, workers, lookup, match_rate, keys).load_range is Some,
    ensures
        rate_decision(trees, config, workers, lookup, match_rate, keys).worker == load_decision(
            trees,
            config,
            workers,
            healthy_indices(workers),
            lookup.model_key@,
            load_range_of(workers),
            keys,
        ).worker,
{
}

/// Where too little of a request is cached, and some healthy worker is idle and within the threshold
/// of the key-value cache, the request goes to such a worker. No other one of them holds less of the
/// tree of the model, and none that holds as much has a lower key.
pub proof fn law_low_match_goes_to_idle_worker(
    trees: Trees,
    config: CacheAwareConfig,
    workers: Seq<Worker>,
    lookup: CacheLookup,
    match_rate: F32Bits,
    keys: Seq<u32>,
    idle: usize,
)
    requires
        workers.len() <= usize::MAX,
        trees.contains_key(model_key(lookup.model_key@)),
        !config.cache_threshold.less(match_rate),
        is_healthy_place(workers, idle),
        workers[idle as int].load == 0,
        workers[idle as int].kv_util.at_most(config.kv_util_threshold),
    ensures
        rate_decision(trees, config, workers, lookup, match_rate, keys).worker matches Some(chosen) && ({
            let tree = trees[model_key(lookup.model_key@)];
            &&& is_healthy_place(workers, chosen)
            &&& workers[chosen as int].load == 0
            &&& workers[chosen as int].kv_util.at_most(config.kv_util_threshold)
            &&& tree.tenant_size(workers[chosen as int].url@) <= tree.tenant_size(workers[idle as int].url@)
            &&& tree.tenant_size(workers[chosen as int].url@) == tree.tenant_size(workers[idle as int].url@)
                ==> keys[chosen as int] <= keys[idle as int]
        }),
{
    lemma_healthy(workers);
    law_smallest_tree_idle_first(
        workers,
        healthy_indices(workers),
        config.kv_util_threshold,
        trees[model_key(lookup.model_key@)],
        keys,
        idle,
    );
}

/// Where too little of a request is cached, and no healthy worker within the threshold of the key-value
/// cache is idle, the request goes to a worker within that threshold, if there is one. No other one
/// of them holds less of the tree of the model, and none that holds as much has a lower key.
pub proof fn law_low_match_goes_to_smallest_share(
    trees: Trees,
    config: CacheAwareConfig,
    workers: Seq<Worker>,
    lookup: CacheLookup,
    match_rate: F32Bits,
    keys: Seq<u32>,
    within: usize,
)
    requires
        workers.len() <= usize::MAX,
        trees.contains_key(model_key(lookup.model_key@)),
        !config.cache_threshold.less(match_rate),
        forall|i: usize|
            #[trigger] is_healthy_place(workers, i) && workers[i as int].kv_util.at_most(config.kv_util_threshold)
                ==> workers[i as int].load > 0,
        is_healthy_place(workers, within),
        workers[within as int].kv_util.at_most(config.kv_util_threshold),
    ensures
        rate_decision(trees, config, workers, lookup, match_rate, keys).worker matches Some(chosen) && ({
            let tree = trees[model_key(lookup.model_key@)];
            &&& is_healthy_place(workers, chosen)
            &&& workers[chosen as int].kv_util.at_most(config.kv_util_threshold)
            &&& tree.tenant_size(workers[chosen as int].url@) <= tree.tenant_size(workers[within as int].url@)
            &&& tree.tenant_size(workers[chosen as int].url@) == tree.tenant_size(workers[within as int].url@)
                ==> keys[chosen as int] <= keys[within as int]
        }),
{
    lemma_healthy(workers);
    law_smallest_tree_within_by_size(
        workers,
        healthy_indices(workers),
        config.kv_util_threshold,
        trees[model_key(lookup.model_key@)],
        keys,
        within,
    );
}

/// Where every healthy worker is above the threshold of the key-value cache, a request that goes by load
/// and one of which too little is cached go to a healthy worker. No other one holds less of the tree
/// of the model, and none that holds as much has a lower key.
pub proof fn law_crowded_workers_by_size(
    trees: Trees,
    config: CacheAwareConfig,
    workers: Seq<Worker>,
    lookup: CacheLookup,
    match_rate: F32Bits,
    range: LoadRange,
    keys: Seq<u32>,
    other: usize,
)
    requires
        workers.len() <= usize::MAX,
        trees.contains_key(model_key(lookup.model_key@)),
        !config.cache_threshold.less(match_rate),
        forall|i: usize|
            #[trigger] is_healthy_place(workers, i) ==> !workers[i as int].kv_util.at_most(config.kv_util_threshold),
        is_healthy_place(workers, other),
    ensures
        rate_decision(trees, config, workers, lookup, match_rate, keys).worker == load_decision(
            trees,
            config,
            workers,
            healthy_indices(workers),
            lookup.model_key@,
            range,
            keys,
        ).worker,
        rate_decision(trees, config, workers, lookup, match_rate, keys).worker matches Some(chosen) && ({
            let tree = trees[model_key(lookup.model_key@)];
            &&& is_healthy_place(workers, chosen)
            &&& tree.tenant_size(workers[chosen as int].url@) <= tree.tenant_size(workers[other as int].url@)
            &&& tree.tenant_size(workers[chosen as int].url@) == tree.tenant_size(workers[other as int].url@)
                ==> keys[chosen as int] <= keys[other as int]
        }),
{
    lemma_healthy(workers);
    law_all_crowded_by_size(
        workers,
        healthy_indices(workers),
        config.kv_util_threshold,
        trees[model_key(lookup.model_key@)],
        keys,
        other,
    );
}

/// A request that goes by load goes to an idle worker, if a healthy one within the threshold of the
/// key-value cache is idle. No such worker holds less of the tree of the model, and none that holds
/// as much has a lower key.
pub proof fn law_load_decision_takes_idle_worker(
    trees: Trees,
    config: CacheAwareConfig,
    workers: Seq<Worker>,
    model_id: Seq<char>,
    range: LoadRange,
    keys: Seq<u32>,
    idle: usize,
)
    requires
        workers.len() <= usize::MAX,
        trees.contains_key(model_key(model_id)),
        is_healthy_place(workers, idle),
        workers[idle as int].load == 0,
        workers[idle as int].kv_util.at_most(config.kv_util_threshold),
    ensures
        load_decision(trees, config, workers, healthy_indices(workers), model_id, range, keys).worker matches Some(chosen) && ({
            let tree = trees[model_key(model_id)];
            &&& is_healthy_place(workers, chosen)
            &&& workers[chosen as int].load == 0
            &&& workers[chosen as int].kv_util.at_most(config.kv_util_threshold)
            &&& tree.tenant_size(workers[chosen as int].url@) <= tree.tenant_size(workers[idle as int].url@)
            &&& tree.tenant_size(workers[chosen as int].url@) == tree.tenant_size(workers[idle as int].url@)
                ==> keys[chosen as int] <= keys[idle as int]
        }),
{
    lemma_healthy(workers);
    law_least_busy_idle_by_size(
        workers,
        healthy_indices(workers),
        config.kv_util_threshold,
        trees[model_key(model_id)],
        keys,
        idle,
    );
}

/// Where the healthy workers within the threshold of the key-value cache are all busy and have numbers
/// for scores, a request that goes by load goes to one of them. No other one has a lower score; none
/// with the same score has a lower load; none with the same score and load has a lower key.
pub proof fn law_load_decision_takes_best_score(
    trees: Trees,
    config: CacheAwareConfig,
    workers: Seq<Worker>,
    model_id: Seq<char>,
    range: LoadRange,
    keys: Seq<u32>,
    within: usize,
)
    requires
        workers.len() <= usize::MAX,
        forall|i: usize|
            #[trigger] is_healthy_place(workers, i) && workers[i as int].kv_util.at_most(config.kv_util_threshold)
                ==> workers[i as int].load > 0 && !workers[i as int].score.is_nan(),
        is_healthy_place(workers, within),
        workers[within as int].kv_util.at_most(config.kv_util_threshold),
    ensures
        load_decision(trees, config, workers, healthy_indices(workers), model_id, range, keys).worker matches Some(chosen) && {
            &&& is_healthy_place(workers, chosen)
            &&& workers[chosen as int].kv_util.at_most(config.kv_util_threshold)
            &&& !workers[within as int].score.less(workers[chosen as int].score)
            &&& !workers[chosen as int].score.less(workers[within as int].score) ==> workers[chosen as int].load
                <= workers[within as int].load
            &&& !workers[chosen as int].score.less(workers[within as int].score) && workers[chosen as int].load
                == workers[within as int].load ==> keys[chosen as int] <= keys[within as int]
        },
{
    lemma_healthy(workers);
    let healthy = healthy_indices(workers);
    let tree = trees.get(model_key(model_id));
    law_least_busy_is_candidate(workers, healthy, config.kv_util_threshold, tree, keys);
    law_crowded_workers_excluded(workers, healthy, config.kv_util_threshold, tree, keys, within);
    law_best_score(workers, healthy, config.kv_util_threshold, tree, keys, within);
    law_keys_break_ties_of_score(workers, healthy, config.kv_util_threshold, tree, keys, within);
}

/// Where the scores of the healthy workers within the threshold of the key-value cache do not fall as
/// the load rises, a request that goes by load goes to one with the least load among them.
pub proof fn law_load_decision_takes_shortest_queue(
    trees: Trees,
    config: CacheAwareConfig,
    workers: Seq<Worker>,
    model_id: Seq<char>,
    range: LoadRange,
    keys: Seq<u32>,
    within: usize,
)
    requires
        workers.len() <= usize::MAX,
        forall|i: usize|
            #[trigger] is_healthy_place(workers, i) && workers[i as int].kv_util.at_most(config.kv_util_threshold)
                ==> !workers[i as int].score.is_nan(),
        forall|i: usize, j: usize|
            #[trigger] is_healthy_place(workers, i) && #[trigger] is_healthy_place(workers, j)
                && workers[i as int].kv_util.at_most(config.kv_util_threshold) && workers[j as int].kv_util.at_most(
                config.kv_util_threshold,
            ) && workers[i as int].load < workers[j as int].load ==> workers[i as int].score.at_most(workers[j as int].score),
        is_healthy_place(workers, within),
        workers[within as int].kv_util.at_most(config.kv_util_threshold),
    ensures
        load_decision(trees, config, workers, healthy_indices(workers), model_id, range, keys).worker matches Some(chosen)
            && workers[chosen as int].load <= workers[within as int].load,
{
    lemma_healthy(workers);
    let healthy = healthy_indices(workers);
    assert forall|i: usize, j: usize|
        #[trigger] healthy.contains(i) && #[trigger] healthy.contains(j) && workers[i as int].kv_util.at_most(
            config.kv_util_threshold,
        ) && workers[j as int].kv_util.at_most(config.kv_util_threshold) && workers[i as int].load
            < workers[j as int].load implies workers[i as int].score.at_most(workers[j as int].score) by {
        assert(is_healthy_place(workers, i) && is_healthy_place(workers, j));
    }
    assert forall|i: usize|
        #[trigger] healthy.contains(i) && workers[i as int].kv_util.at_most(config.kv_util_threshold) implies !workers[
        i as int].score.is_nan() by {
        assert(is_healthy_place(workers, i));
    }
    law_shortest_queue(workers, healthy, config.kv_util_threshold, trees.get(model_key(model_id)), keys, within);
}

/// Of a pair, the decode worker is the first of the healthy ones with the least load.
pub proof fn law_decode_worker_is_first(prefill: usize, decode_workers: Seq<Worker>, earlier: usize)
    requires
        decode_workers.len() <= usize::MAX,
        is_healthy_place(decode_workers, earlier),
        pair_of(Some(prefill), decode_workers) matches Some(pair) && earlier < pair.1,
    ensures
        pair_of(Some(prefill), decode_workers) matches Some(pair) && decode_workers[pair.1 as int].load
            < decode_workers[earlier as int].load,
{
    law_healthy_places(decode_workers);
    lemma_healthy(decode_workers);
    let healthy = healthy_indices(decode_workers);
    let before = by_load(decode_workers);
    let chosen = least(healthy, before);
    assert(is_order(healthy, before));
    law_least_is_candidate(healthy, before);
    let j = choose|j: int| 0 <= j < healthy.len() && healthy[j] == chosen;
    assert(healthy.contains(earlier));
    let k = choose|k: int| 0 <= k < healthy.len() && healthy[k] == earlier;
    if j <= k {
        if j < k {
            assert(healthy[j] < healthy[k]);
        }
    }
    assert forall|i: int| 0 <= i < j implies healthy[i] != #[trigger] healthy[j] by {
        assert(healthy[i] < healthy[j]);
    }
    law_least_is_first(healthy, before, j, k);
}

/// Models with different names keep apart: adding a worker to one, removing a worker from one, or
/// removing one leaves the tree of the other as it is.
pub proof fn law_named_models_keep_apart(trees: Trees, model_id: Seq<char>, other: Seq<char>, url: Seq<char>)
    requires
        model_id != other,
        model_id.len() > 0 && model_id != "unknown"@,
        other.len() > 0 && other != "unknown"@,
    ensures
        model_key(other) == other,
        with_worker(trees, model_key(model_id), url).get(other) == trees.get(other),
        without_worker(trees, model_key(model_id), url).get(other) == trees.get(other),
        trees.remove(model_key(model_id)).get(other) == trees.get(other),
        with_worker(trees, model_key(model_id), url).contains_key(model_id),
        !trees.remove(model_key(model_id)).contains_key(model_id),
{
    law_names_are_kept_apart(model_id, other);
}

/// Adding a worker changes nothing about what anybody has cached, and it changes no other tree.
pub proof fn law_adding_keeps_caches(trees: Trees, key: Seq<char>, url: Seq<char>, tenant: Seq<char>)
    requires
        are_valid(trees),
    ensures
        forall|k: Seq<char>| #[trigger]
            with_worker(trees, key, url).contains_key(k) <==> k == key || trees.contains_key(k),
        trees.contains_key(key) ==> with_worker(trees, key, url)[key].tenant_size(tenant) == trees[key].tenant_size(tenant),
        trees.contains_key(key) ==> cached(lane(with_worker(trees, key, url)[key].nodes, tenant)) == cached(
            lane(trees[key].nodes, tenant),
        ),
        !trees.contains_key(key) ==> with_worker(trees, key, url)[key].tenant_size(tenant) == 0,
{
    let tree = if trees.contains_key(key) {
        trees[key]
    } else {
        TreeModel::fresh()
    };
    let root = Seq::<char>::empty();
    law_fresh_is_valid();
    law_insert_caches_prefixes(tree, root, url, tenant);
    law_insert_caches_prefixes(tree, root, url, url);
    assert(prefixes(root) =~= Set::empty());
    assert(cached(lane(tree.nodes, url)).union(prefixes(root)) =~= cached(lane(tree.nodes, url)));
    if !trees.contains_key(key) {
        assert(cached(lane(tree.nodes, tenant)) =~= Set::empty());
    }
}

/// Removing a worker leaves everybody else with what they have cached.
pub proof fn law_removing_keeps_caches_of_others(trees: Trees, key: Seq<char>, url: Seq<char>, other: Seq<char>)
    requires
        are_valid(trees),
        trees.contains_key(key),
        other != url,
        trees[key].has_tenant(other),
    ensures
        without_worker(trees, key, url).contains_key(key),
        without_worker(trees, key, url)[key].tenant_size(other) == trees[key].tenant_size(other),
        lane(without_worker(trees, key, url)[key].nodes, other) == lane(trees[key].nodes, other),
        without_url(trees, url).contains_key(key),
        lane(without_url(trees, url)[key].nodes, other) == lane(trees[key].nodes, other),
{
    let left = trees[key].remove_tenant(url);
    law_removed_tenant_is_gone(trees[key], url, other);
    assert(left.has_tenant(other));
    assert(!left.is_empty());
}

/// A decision by load or by tree size is recorded for the worker that gets the request, in the tree of
/// the model: it has all starts of the text cached. Nobody else gains or loses anything. Without a
/// text, a worker or a tree, nothing changes.
pub proof fn law_load_decision_is_recorded(
    trees: Trees,
    workers: Seq<Worker>,
    text: Option<Seq<char>>,
    key: Seq<char>,
    decision: Decision,
    tenant: Seq<char>,
    other_key: Seq<char>,
)
    requires
        are_valid(trees),
    ensures
        text is None || decision.worker is None || !trees.contains_key(key) ==> after_load_decision(
            trees,
            workers,
            text,
            key,
            decision,
        ) == trees,
        after_load_decision(trees, workers, text, key, decision).dom() == trees.dom(),
        other_key != key ==> after_load_decision(trees, workers, text, key, decision).get(other_key) == trees.get(other_key),
        trees.contains_key(key) ==> (match (text, decision.worker) {
            (Some(t), Some(chosen)) => cached(
                lane(after_load_decision(trees, workers, text, key, decision)[key].nodes, tenant),
            ) == (if tenant == workers[chosen as int].url@ {
                cached(lane(trees[key].nodes, tenant)).union(prefixes(t))
            } else {
                cached(lane(trees[key].nodes, tenant))
            }),
            _ => true,
        }),
{
    let after = after_load_decision(trees, workers, text, key, decision);
    assert(after.dom() =~= trees.dom());
    if trees.contains_key(key) {
        if let (Some(t), Some(chosen)) = (text, decision.worker) {
            law_insert_caches_prefixes(trees[key], t, workers[chosen as int].url@, tenant);
        }
    }
}

/// A decision at a known match rate is recorded for the worker that gets the request, in the tree of the
/// model that was looked up: it has all starts of the text cached. Nobody else gains or loses
/// anything, and no other tree changes.
pub proof fn law_rate_decision_is_recorded(
    trees: Trees,
    config: CacheAwareConfig,
    workers: Seq<Worker>,
    text: Option<Seq<char>>,
    lookup: CacheLookup,
    match_rate: F32Bits,
    decision: Decision,
    chosen: usize,
    tenant: Seq<char>,
    other_key: Seq<char>,
)
    requires
        are_valid(trees),
        trees.contains_key(lookup.model_key@),
        decision.worker == Some(chosen),
    ensures
        after_rate_decision(trees, config, workers, text, lookup, match_rate, decision).dom() == trees.dom(),
        other_key != lookup.model_key@ ==> after_rate_decision(trees, config, workers, text, lookup, match_rate, decision).get(
            other_key,
        ) == trees.get(other_key),
        after_rate_decision(trees, config, workers, text, lookup, match_rate, decision)[lookup.model_key@].has_tenant(
            workers[chosen as int].url@,
        ),
        cached(
            lane(
                after_rate_decision(trees, config, workers, text, lookup, match_rate, decision)[lookup.model_key@].nodes,
                tenant,
            ),
        ) == (match text {
            Some(t) if tenant == workers[chosen as int].url@ => cached(lane(trees[lookup.model_key@].nodes, tenant)).union(
                prefixes(t),
            ),
            _ => cached(lane(trees[lookup.model_key@].nodes, tenant)),
        }),
{
    let key = lookup.model_key@;
    let url = workers[chosen as int].url@;
    let t = text_or_empty(text);
    let after = after_rate_decision(trees, config, workers, text, lookup, match_rate, decision);
    let tree = trees[key];
    assert(after.dom() =~= trees.dom());
    law_insert_keeps_valid(tree, t, url);
    law_insert_caches_prefixes(tree, t, url, tenant);
    law_insert_caches_prefixes(tree.insert(t, url), t, url, tenant);
    let texts = cached(lane(tree.nodes, url));
    assert(texts.union(prefixes(t)).union(prefixes(t)) =~= texts.union(prefixes(t)));
    if text is None {
        assert(prefixes(t) =~= Set::empty());
        assert(texts.union(prefixes(t)) =~= texts);
    }
    let root = Seq::<char>::empty();
    assert(root.is_prefix_of(t)) by {
        assert(root =~= t.subrange(0, 0));
    }
    assert(tree.nodes.contains_key(root));
}

/// Where nobody can get a request of which enough is cached, the worker that was looked up is forgotten
/// in the tree of the model. Everybody else keeps what they have, and no other tree changes. Where too
/// little is cached, nothing changes.
pub proof fn law_stale_worker_is_forgotten(
    trees: Trees,
    config: CacheAwareConfig,
    workers: Seq<Worker>,
    text: Option<Seq<char>>,
    lookup: CacheLookup,
    match_rate: F32Bits,
    decision: Decision,
    other: Seq<char>,
    other_key: Seq<char>,
)
    requires
        are_valid(trees),
        trees.contains_key(lookup.model_key@),
        decision.worker is None,
    ensures
        !config.cache_threshold.less(match_rate) ==> after_rate_decision(
            trees,
            config,
            workers,
            text,
            lookup,
            match_rate,
            decision,
        ) == trees,
        config.cache_threshold.less(match_rate) ==> !after_rate_decision(
            trees,
            config,
            workers,
            text,
            lookup,
            match_rate,
            decision,
        )[lookup.model_key@].has_tenant(lookup.tenant@),
        other != lookup.tenant@ ==> lane(
            after_rate_decision(trees, config, workers, text, lookup, match_rate, decision)[lookup.model_key@].nodes,
            other,
        ) == lane(trees[lookup.model_key@].nodes, other),
        other_key != lookup.model_key@ ==> after_rate_decision(trees, config, workers, text, lookup, match_rate, decision).get(
            other_key,
        ) == trees.get(other_key),
        after_rate_decision(trees, config, workers, text, lookup, match_rate, decision).dom() == trees.dom(),
{
    let after = after_rate_decision(trees, config, workers, text, lookup, match_rate, decision);
    law_removed_tenant_is_gone(trees[lookup.model_key@], lookup.tenant@, other);
    assert(after.dom() =~= trees.dom());
}

/// A request that waits for its match rate has changed nothing about what is cached, in any tree.
pub proof fn law_waiting_request_keeps_caches(
    before: Trees,
    config: CacheAwareConfig,
    workers: Seq<Worker>,
    text: Option<Seq<char>>,
    relative: RelativeLoad,
    keys: Seq<u32>,
    pick: usize,
    lookup: CacheLookup,
    after: Trees,
    key: Seq<char>,
    tenant: Seq<char>,
)
    requires
        are_valid(before),
        is_selection(before, config, workers, text, relative, keys, pick, Selection::NeedsMatchRate(lookup), after),
    ensures
        after.dom() == before.dom(),
        key != served_model(workers) ==> after.get(key) == before.get(key),
        before.contains_key(key) ==> cached(lane(after[key].nodes, tenant)) == cached(lane(before[key].nodes, tenant)),
        before.contains_key(key) ==> after[key].has_tenant(tenant) == before[key].has_tenant(tenant),
{
    let served = served_model(workers);
    let root = Seq::<char>::empty();
    law_look_up_keeps_cache(before[served], text_or_empty(text), lookup.tenant@);
    assert(after.dom() =~= before.dom());
    let l = lane(after[served].nodes, tenant);
    let m = lane(before[served].nodes, tenant);
    assert(l.dom() == m.dom());
    assert(before[served].is_valid());
    assert(after[served].is_valid());
    assert(l.dom().contains(root) == m.dom().contains(root));
    assert(l.contains_key(root) == m.contains_key(root));
}

/// An eviction is least-recently-used in every tree: whatever node a worker loses of a tree, it also
/// loses every leaf of its own in this tree that it used earlier.
pub proof fn law_evicted_trees_lose_oldest_first(
    before: Trees,
    after: Trees,
    max_size: usize,
    key: Seq<char>,
    url: Seq<char>,
    p: Seq<char>,
    q: Seq<char>,
)
    requires
        are_valid(before),
        are_evicted(before, after, max_size),
        before.contains_key(key),
        before[key].nodes.contains_key(p) && before[key].nodes[p].contains_key(url),
        !(after[key].nodes.contains_key(p) && after[key].nodes[p].contains_key(url)),
        before[key].nodes.contains_key(q) && before[key].nodes[q].contains_key(url),
        q.len() > 0,
        forall|r: Seq<char>|
            before[key].nodes.contains_key(r) && before[key].nodes[r].contains_key(url) && #[trigger] q.is_prefix_of(r)
                ==> r == q,
        before[key].nodes[q][url] < before[key].nodes[p][url],
    ensures
        !(after[key].nodes.contains_key(q) && after[key].nodes[q].contains_key(url)),
{
    law_eviction_is_least_recently_used(before[key], after[key], max_size, url, p, q);
}

/// A decision by load reports the loads that it was given, and counts once if somebody gets the request.
pub proof fn law_load_decision_counts_once(
    trees: Trees,
    config: CacheAwareConfig,
    workers: Seq<Worker>,
    candidates: Seq<usize>,
    model_id: Seq<char>,
    range: LoadRange,
    keys: Seq<u32>,
)
    ensures
        load_decision(trees, config, workers, candidates, model_id, range, keys).load_range == Some(range),
        load_decision(trees, config, workers, candidates, model_id, range, keys).worker is Some <==> candidates.len() > 0,
        load_decision(trees, config, workers, candidates, model_id, range, keys).processed == (if candidates.len() > 0 {
            1int
        } else {
            0
        }),
{
    law_least_busy_is_candidate(workers, candidates, config.kv_util_threshold, trees.get(model_key(model_id)), keys);
}

/// A pair keeps the decision on its prefill worker. It is there exactly if a worker prefills and some
/// decode worker is healthy.
pub proof fn law_pair_keeps_prefill_decision(prefill: Decision, decode_workers: Seq<Worker>)
    requires
        decode_workers.len() <= usize::MAX,
    ensures
        pair_decision(prefill, decode_workers).prefill == prefill,
        pair_decision(prefill, decode_workers).pair is Some <==> prefill.worker is Some && exists|i: int|
            0 <= i < decode_workers.len() && (#[trigger] decode_workers[i]).healthy,
        pair_decision(prefill, decode_workers).pair matches Some(pair) ==> prefill.worker == Some(pair.0),
{
    law_healthy_places(decode_workers);
    let healthy = healthy_indices(decode_workers);
    if healthy.len() > 0 {
        assert(decode_workers[healthy[0] as int].healthy);
    }
    if exists|i: int| 0 <= i < decode_workers.len() && (#[trigger] decode_workers[i]).healthy {
        let i = choose|i: int| 0 <= i < decode_workers.len() && (#[trigger] decode_workers[i]).healthy;
        assert(decode_workers[(i as usize) as int].healthy);
    }
}

/// A request that waits for its match rate was looked up in the tree of the model: no node's path has
/// more characters in common with the start of the request than were matched, and the worker that
/// was found holds a node whose path has as many.
pub proof fn law_lookup_speaks_for_longest_match(
    before: Trees,
    config: CacheAwareConfig,
    workers: Seq<Worker>,
    text: Seq<char>,
    relative: RelativeLoad,
    keys: Seq<u32>,
    pick: usize,
    lookup: CacheLookup,
    after: Trees,
    p: Seq<char>,
    k: int,
)
    requires
        are_valid(before),
        is_selection(before, config, workers, Some(text), relative, keys, pick, Selection::NeedsMatchRate(lookup), after),
        !before[served_model(workers)].is_empty(),
        before[served_model(workers)].nodes.contains_key(p),
        0 <= k <= p.len(),
        k <= text.len(),
        forall|i: int| 0 <= i < k ==> p[i] == text[i],
    ensures
        k <= lookup.matched_char_count <= text.len(),
        exists|q: Seq<char>|
            before[served_model(workers)].nodes.contains_key(q) && (#[trigger] before[served_model(
                workers,
            )].nodes[q]).contains_key(lookup.tenant@) && q.len() >= lookup.matched_char_count && forall|i: int|
                0 <= i < lookup.matched_char_count ==> q[i] == text[i],
{
    let tree = before[served_model(workers)];
    law_match_is_longest(tree, text, p, k);
    let place = law_look_up_is_a_use(tree, text, lookup.tenant@);
    let start = text.take(lookup.matched_char_count as int);
    lemma_prefix_is_take(start, place);
    assert forall|i: int| 0 <= i < lookup.matched_char_count implies place[i] == text[i] by {
        assert(start[i] == place[i]);
    }
    assert(tree.nodes.contains_key(place) && tree.nodes[place].contains_key(lookup.tenant@));
}

/// Initializing a policy with workers adds these workers to the trees of their models, and nobody else.
/// Who took part in a tree before still does, and nobody's cache changes.
pub proof fn law_initializing_adds_only_the_workers(trees: Trees, workers: Seq<Worker>, key: Seq<char>, tenant: Seq<char>)
    requires
        are_valid(trees),
    ensures
        are_valid(with_workers(trees, workers)),
        (with_workers(trees, workers).contains_key(key) && with_workers(trees, workers)[key].has_tenant(tenant)) <==> (
        trees.contains_key(key) && trees[key].has_tenant(tenant)) || exists|i: int|
            0 <= i < workers.len() && model_key((#[trigger] workers[i]).model_id@) == key && workers[i].url@ == tenant,
        trees.contains_key(key) ==> with_workers(trees, workers).contains_key(key) && with_workers(
            trees,
            workers,
        )[key].tenant_size(tenant) == trees[key].tenant_size(tenant),
    decreases workers.len(),
{
    if workers.len() > 0 {
        let rest = workers.drop_last();
        let last = workers.last();
        let last_key = model_key(last.model_id@);
        let before = with_workers(trees, rest);
        law_initializing_adds_only_the_workers(trees, rest, key, tenant);
        law_added_worker_takes_part(before, last_key, last.url@, key, tenant);
        law_adding_keeps_caches(before, last_key, last.url@, tenant);
        assert(workers[workers.len() - 1] == last);
        let joins = exists|i: int|
            0 <= i < rest.len() && model_key((#[trigger] rest[i]).model_id@) == key && rest[i].url@ == tenant;
        let all_join = exists|i: int|
            0 <= i < workers.len() && model_key((#[trigger] workers[i]).model_id@) == key && workers[i].url@ == tenant;
        assert(all_join <==> joins || (last_key == key && last.url@ == tenant)) by {
            if joins {
                let i = choose|i: int|
                    0 <= i < rest.len() && model_key((#[trigger] rest[i]).model_id@) == key && rest[i].url@ == tenant;
                assert(workers[i] == rest[i]);
            }
            if all_join {
                let i = choose|i: int|
                    0 <= i < workers.len() && model_key((#[trigger] workers[i]).model_id@) == key && workers[i].url@ == tenant;
                if i < rest.len() {
                    assert(rest[i] == workers[i]);
                }
            }
        }
        assert(with_workers(trees, workers) == with_worker(before, last_key, last.url@));
        if key != last_key {
            assert(with_workers(trees, workers).get(key) == before.get(key));
        }
    }
}

} // verus!
