//! Laws of routing.

use vstd::prelude::*;

use crate::choice::{
    by_load, is_order, law_crowded_workers_excluded, law_idle_workers_first, law_least_busy_is_candidate,
    law_least_is_candidate, law_none_before_least, law_smallest_tree_is_candidate, law_smallest_tree_within, least, least_busy,
    size_in,
};
use crate::config::CacheAwareConfig;
use crate::float_order::F32Bits;
use crate::model::{branch, cached, is_held, lane, prefixes};
use crate::model_key::{law_model_key_idempotent, model_key};
use crate::routing::{
    after_load_decision, after_rate_decision, are_evicted, cache_target, hit_target, is_cache_target, is_imbalanced, is_lookup,
    is_selection, is_small, load_decision, pair_of, rate_decision, served_model, text_or_empty, with_worker, with_workers,
    without_url, without_worker, CacheLookup, Decision, RelativeLoad, Selection, Trees,
};
use crate::tree::{next_time, TreeModel};
use crate::tree_laws::{
    law_eviction_bounds_tenants, law_fresh_is_valid, law_insert_caches_prefixes, law_insert_keeps_valid,
    law_inserted_text_is_found, law_look_up_keeps_cache, law_removed_tenant_is_gone, law_shared_prefix_is_found,
};
use crate::worker::{healthy_indices, lemma_healthy_indices, load_range_of, LoadRange, Worker};

verus! {

/// Whether the worker at `i` is there and healthy.
pub open spec fn is_healthy_place(workers: Seq<Worker>, i: usize) -> bool {
    i < workers.len() && workers[i as int].healthy
}

/// Whether some worker is healthy.
pub open spec fn any_healthy(workers: Seq<Worker>) -> bool {
    exists|i: usize| is_healthy_place(workers, i)
}

/// Whether all trees are valid.
pub open spec fn are_valid(trees: Trees) -> bool {
    forall|key: Seq<char>| #[trigger] trees.contains_key(key) ==> trees[key].is_valid()
}

/// Some worker is healthy exactly if there are healthy places.
proof fn lemma_any_healthy(workers: Seq<Worker>)
    requires
        workers.len() <= usize::MAX,
    ensures
        any_healthy(workers) <==> healthy_indices(workers).len() > 0,
        forall|i: usize| #[trigger] healthy_indices(workers).contains(i) <==> is_healthy_place(workers, i),
{
    lemma_healthy_indices(workers);
    let healthy = healthy_indices(workers);
    if healthy.len() > 0 {
        assert(healthy.contains(healthy[0]));
        assert(is_healthy_place(workers, healthy[0]));
    }
    if any_healthy(workers) {
        let i = choose|i: usize| is_healthy_place(workers, i);
        assert(healthy.contains(i));
    }
}

/// A decision by load sends the request to a healthy worker, if there is one.
proof fn lemma_load_decision_is_healthy(
    trees: Trees,
    config: CacheAwareConfig,
    workers: Seq<Worker>,
    model_id: Seq<char>,
    range: LoadRange,
    keys: Seq<u32>,
)
    requires
        workers.len() <= usize::MAX,
    ensures
        match load_decision(trees, config, workers, healthy_indices(workers), model_id, range, keys).worker {
            Some(i) => is_healthy_place(workers, i),
            None => !any_healthy(workers),
        },
{
    lemma_any_healthy(workers);
    law_least_busy_is_candidate(
        workers,
        healthy_indices(workers),
        config.kv_util_threshold,
        trees.get(model_key(model_id)),
        keys,
    );
}

/// Where a request goes before its match rate is known, it goes to a healthy worker. It goes nowhere
/// only where no worker is healthy.
pub proof fn law_selected_worker_is_healthy(
    before: Trees,
    config: CacheAwareConfig,
    workers: Seq<Worker>,
    text: Option<Seq<char>>,
    relative: RelativeLoad,
    keys: Seq<u32>,
    pick: usize,
    selection: Selection,
    after: Trees,
)
    requires
        workers.len() <= usize::MAX,
        pick < healthy_indices(workers).len() || healthy_indices(workers).len() == 0,
        is_selection(before, config, workers, text, relative, keys, pick, selection, after),
    ensures
        match selection {
            Selection::Decided(decision) => match decision.worker {
                Some(i) => is_healthy_place(workers, i),
                None => !any_healthy(workers),
            },
            Selection::NeedsMatchRate(_) => any_healthy(workers),
        },
{
    lemma_any_healthy(workers);
    lemma_load_decision_is_healthy(before, config, workers, served_model(workers), load_range_of(workers), keys);
    if healthy_indices(workers).len() > 0 {
        assert(healthy_indices(workers).contains(healthy_indices(workers)[pick as int]));
    }
}

/// Where a request goes once its match rate is known, it goes to a healthy worker. It goes nowhere
/// only where no worker is healthy.
pub proof fn law_rated_worker_is_healthy(
    trees: Trees,
    config: CacheAwareConfig,
    workers: Seq<Worker>,
    lookup: CacheLookup,
    match_rate: F32Bits,
    keys: Seq<u32>,
)
    requires
        workers.len() <= usize::MAX,
    ensures
        match rate_decision(trees, config, workers, lookup, match_rate, keys).worker {
            Some(i) => is_healthy_place(workers, i),
            None => !any_healthy(workers),
        },
{
    lemma_load_decision_is_healthy(trees, config, workers, lookup.model_key@, load_range_of(workers), keys);
    lemma_any_healthy(workers);
    law_smallest_tree_is_candidate(
        workers,
        healthy_indices(workers),
        config.kv_util_threshold,
        trees.get(model_key(lookup.model_key@)),
        keys,
    );
    if let Some(target) = hit_target(config, workers, lookup, match_rate) {
        assert(is_cache_target(config, workers, lookup.tenant@, target));
    }
}

/// Where too little of a request is cached and no healthy worker within the threshold of the
/// key-value cache is idle, the request goes to a worker within that threshold, if there is one, and
/// no healthy one of them has a smaller tree.
pub proof fn law_low_match_goes_to_smallest_tree(
    trees: Trees,
    config: CacheAwareConfig,
    workers: Seq<Worker>,
    lookup: CacheLookup,
    match_rate: F32Bits,
    keys: Seq<u32>,
    within: usize,
)
    requires
        workers.len() <= usize::MAX,
        !config.cache_threshold.less(match_rate),
        forall|i: usize|
            #[trigger] is_healthy_place(workers, i) && workers[i as int].kv_util.at_most(config.kv_util_threshold)
                ==> workers[i as int].load > 0,
        is_healthy_place(workers, within),
        workers[within as int].kv_util.at_most(config.kv_util_threshold),
    ensures
        rate_decision(trees, config, workers, lookup, match_rate, keys).worker matches Some(chosen) && {
            &&& is_healthy_place(workers, chosen)
            &&& workers[chosen as int].kv_util.at_most(config.kv_util_threshold)
            &&& size_in(trees.get(model_key(lookup.model_key@)), workers[chosen as int].url@) <= size_in(
                trees.get(model_key(lookup.model_key@)),
                workers[within as int].url@,
            )
        },
{
    lemma_any_healthy(workers);
    law_smallest_tree_within(
        workers,
        healthy_indices(workers),
        config.kv_util_threshold,
        trees.get(model_key(lookup.model_key@)),
        keys,
        within,
    );
}

/// A small request is routed by load, whatever is cached, and so is any request while the loads are
/// out of balance.
pub proof fn law_routed_by_load(
    before: Trees,
    config: CacheAwareConfig,
    workers: Seq<Worker>,
    text: Option<Seq<char>>,
    relative: RelativeLoad,
    keys: Seq<u32>,
    pick: usize,
    selection: Selection,
    after: Trees,
)
    requires
        workers.len() <= usize::MAX,
        any_healthy(workers),
        is_small(config, text) || is_imbalanced(config, load_range_of(workers), relative),
        is_selection(before, config, workers, text, relative, keys, pick, selection, after),
    ensures
        selection matches Selection::Decided(decision) && decision.worker is Some && decision.worker == least_busy(
            workers,
            healthy_indices(workers),
            config.kv_util_threshold,
            before.get(served_model(workers)),
            keys,
        ),
{
    lemma_any_healthy(workers);
    law_model_key_idempotent(workers[healthy_indices(workers)[0] as int].model_id@);
    lemma_load_decision_is_healthy(before, config, workers, served_model(workers), load_range_of(workers), keys);
}

/// A request that is routed by load goes to an idle worker, if a healthy one within the threshold of
/// the key-value cache is idle. No such worker has a smaller tree.
pub proof fn law_idle_worker_gets_request(
    trees: Trees,
    config: CacheAwareConfig,
    workers: Seq<Worker>,
    model_id: Seq<char>,
    range: LoadRange,
    keys: Seq<u32>,
    idle: usize,
)
    requires
        workers.len() <= usize::MAX,
        is_healthy_place(workers, idle),
        workers[idle as int].load == 0,
        workers[idle as int].kv_util.at_most(config.kv_util_threshold),
    ensures
        load_decision(trees, config, workers, healthy_indices(workers), model_id, range, keys).worker matches Some(chosen) && {
            &&& is_healthy_place(workers, chosen)
            &&& workers[chosen as int].load == 0
            &&& workers[chosen as int].kv_util.at_most(config.kv_util_threshold)
            &&& size_in(trees.get(model_key(model_id)), workers[chosen as int].url@) <= size_in(
                trees.get(model_key(model_id)),
                workers[idle as int].url@,
            )
        },
{
    lemma_any_healthy(workers);
    law_idle_workers_first(
        workers,
        healthy_indices(workers),
        config.kv_util_threshold,
        trees.get(model_key(model_id)),
        keys,
        idle,
    );
}

/// A request that is routed by load goes to no worker above the threshold of the key-value cache, if
/// a healthy one is within it.
pub proof fn law_crowded_worker_gets_no_request(
    trees: Trees,
    config: CacheAwareConfig,
    workers: Seq<Worker>,
    model_id: Seq<char>,
    range: LoadRange,
    keys: Seq<u32>,
    within: usize,
)
    requires
        workers.len() <= usize::MAX,
        is_healthy_place(workers, within),
        workers[within as int].kv_util.at_most(config.kv_util_threshold),
    ensures
        load_decision(trees, config, workers, healthy_indices(workers), model_id, range, keys).worker matches Some(chosen)
            && workers[chosen as int].kv_util.at_most(config.kv_util_threshold),
{
    lemma_any_healthy(workers);
    law_crowded_workers_excluded(
        workers,
        healthy_indices(workers),
        config.kv_util_threshold,
        trees.get(model_key(model_id)),
        keys,
        within,
    );
}

/// A request that is routed by load to an idle worker makes that worker's tree grow: the next one
/// does not go there again, if an idle worker at another address holds nothing.
pub proof fn law_small_requests_spread(
    trees: Trees,
    config: CacheAwareConfig,
    workers: Seq<Worker>,
    text: Seq<char>,
    model_id: Seq<char>,
    range: LoadRange,
    keys: Seq<u32>,
    next_keys: Seq<u32>,
    chosen: usize,
    idle: usize,
)
    requires
        workers.len() <= usize::MAX,
        model_key(model_id) == model_id,
        trees.contains_key(model_id),
        trees[model_id].is_valid(),
        text.len() > 0,
        load_decision(trees, config, workers, healthy_indices(workers), model_id, range, keys).worker == Some(chosen),
        is_healthy_place(workers, idle),
        workers[idle as int].load == 0,
        workers[idle as int].kv_util.at_most(config.kv_util_threshold),
        workers[idle as int].url@ != workers[chosen as int].url@,
        trees[model_id].tenant_size(workers[idle as int].url@) == 0,
    ensures
        load_decision(
            after_load_decision(
                trees,
                workers,
                Some(text),
                model_id,
                load_decision(trees, config, workers, healthy_indices(workers), model_id, range, keys),
            ),
            config,
            workers,
            healthy_indices(workers),
            model_id,
            range,
            next_keys,
        ).worker != Some(chosen),
{
    let decision = load_decision(trees, config, workers, healthy_indices(workers), model_id, range, keys);
    let after = after_load_decision(trees, workers, Some(text), model_id, decision);
    let url = workers[chosen as int].url@;
    let other = workers[idle as int].url@;
    let tree = trees[model_id];
    assert(after[model_id] == tree.insert(text, url));
    law_insert_caches_prefixes(tree, text, url, other);
    law_insert_keeps_valid(tree, text, url);
    let texts = cached(lane(tree.insert(text, url).nodes, url));
    assert(texts.finite());
    assert(texts.contains(text)) by {
        assert(text.is_prefix_of(text)) by {
            assert(text =~= text.subrange(0, text.len() as int));
        }
        assert(prefixes(text).contains(text));
    }
    assert(texts.len() > 0) by {
        if texts.len() == 0 {
            assert(texts =~= Set::empty());
        }
    }
    law_idle_worker_gets_request(after, config, workers, model_id, range, next_keys, idle);
}

/// Where a request has gone once its match rate was known, a request that shares with it all that is
/// cached of it finds the same worker in the tree of the model, unless the clock has run out. If
/// enough of it is cached, and the worker can take it then, it goes there, whatever has become of the
/// workers in the meantime. A request with the same text is cached as a whole.
pub proof fn law_similar_request_goes_to_same_worker(
    trees: Trees,
    config: CacheAwareConfig,
    workers: Seq<Worker>,
    text: Option<Seq<char>>,
    lookup: CacheLookup,
    match_rate: F32Bits,
    keys: Seq<u32>,
    chosen: usize,
    next_text: Seq<char>,
    next_lookup: CacheLookup,
    next_match_rate: F32Bits,
    next_keys: Seq<u32>,
    next_trees: Trees,
    next_workers: Seq<Worker>,
    next_place: usize,
)
    requires
        trees.contains_key(lookup.model_key@),
        trees[lookup.model_key@].is_valid(),
        trees[lookup.model_key@].clock < u64::MAX - 1,
        rate_decision(trees, config, workers, lookup, match_rate, keys).worker == Some(chosen),
        is_lookup(
            after_rate_decision(
                trees,
                config,
                workers,
                text,
                lookup,
                match_rate,
                rate_decision(trees, config, workers, lookup, match_rate, keys),
            ),
            lookup.model_key@,
            next_text,
            next_lookup,
        ),
        next_text == text_or_empty(text) || branch(
            after_rate_decision(
                trees,
                config,
                workers,
                text,
                lookup,
                match_rate,
                rate_decision(trees, config, workers, lookup, match_rate, keys),
            )[lookup.model_key@].nodes,
            next_text,
        ).is_prefix_of(text_or_empty(text)),
    ensures
        next_lookup.tenant@ == workers[chosen as int].url@,
        next_text == text_or_empty(text) ==> next_lookup.matched_char_count == next_lookup.input_char_count,
        config.cache_threshold.less(next_match_rate) && is_cache_target(
            config,
            next_workers,
            workers[chosen as int].url@,
            next_place,
        ) ==> rate_decision(next_trees, config, next_workers, next_lookup, next_match_rate, next_keys).worker == Some(
            next_place,
        ),
{
    let key = lookup.model_key@;
    let decision = rate_decision(trees, config, workers, lookup, match_rate, keys);
    let after = after_rate_decision(trees, config, workers, text, lookup, match_rate, decision);
    let url = workers[chosen as int].url@;
    let inserted = text_or_empty(text);
    let tree = if decision.load_range is Some && text is Some {
        trees[key].insert(inserted, url)
    } else {
        trees[key]
    };
    law_insert_keeps_valid(trees[key], inserted, url);
    assert(tree.is_valid());
    assert(tree.clock < u64::MAX);
    assert(after[key] == tree.insert(inserted, url));
    if next_text == inserted {
        law_inserted_text_is_found(tree, inserted, url, next_lookup.tenant@);
    } else {
        law_shared_prefix_is_found(tree, inserted, url, next_text, next_lookup.tenant@);
    }
    if is_cache_target(config, next_workers, url, next_place) {
        lemma_cache_target_is_unique(config, next_workers, url, next_place);
    }
}

/// A request that was routed by load is remembered: a request with the same text, or one that shares
/// with it all that is cached of it, finds the worker that got it in the tree of the model, unless
/// the clock has run out. A request with the same text is cached as a whole. If enough of the request
/// is cached, and the worker can take it then, it goes there.
pub proof fn law_request_routed_by_load_is_remembered(
    trees: Trees,
    config: CacheAwareConfig,
    workers: Seq<Worker>,
    text: Seq<char>,
    key: Seq<char>,
    decision: Decision,
    chosen: usize,
    next_text: Seq<char>,
    next_lookup: CacheLookup,
    next_match_rate: F32Bits,
    next_keys: Seq<u32>,
    next_trees: Trees,
    next_workers: Seq<Worker>,
    next_place: usize,
)
    requires
        trees.contains_key(key),
        trees[key].is_valid(),
        trees[key].clock < u64::MAX,
        decision.worker == Some(chosen),
        is_lookup(after_load_decision(trees, workers, Some(text), key, decision), key, next_text, next_lookup),
        next_text == text || branch(
            after_load_decision(trees, workers, Some(text), key, decision)[key].nodes,
            next_text,
        ).is_prefix_of(text),
    ensures
        next_lookup.tenant@ == workers[chosen as int].url@,
        next_text == text ==> next_lookup.matched_char_count == next_lookup.input_char_count,
        config.cache_threshold.less(next_match_rate) && is_cache_target(
            config,
            next_workers,
            workers[chosen as int].url@,
            next_place,
        ) ==> rate_decision(next_trees, config, next_workers, next_lookup, next_match_rate, next_keys).worker == Some(
            next_place,
        ),
{
    let url = workers[chosen as int].url@;
    assert(after_load_decision(trees, workers, Some(text), key, decision)[key] == trees[key].insert(text, url));
    if next_text == text {
        law_inserted_text_is_found(trees[key], text, url, next_lookup.tenant@);
    } else {
        law_shared_prefix_is_found(trees[key], text, url, next_text, next_lookup.tenant@);
    }
    if is_cache_target(config, next_workers, url, next_place) {
        lemma_cache_target_is_unique(config, next_workers, url, next_place);
    }
}

/// At most one worker may get a request because it has the request cached.
proof fn lemma_cache_target_is_unique(config: CacheAwareConfig, workers: Seq<Worker>, url: Seq<char>, place: usize)
    requires
        is_cache_target(config, workers, url, place),
    ensures
        cache_target(config, workers, url) == Some(place),
{
    let target = choose|i: usize| is_cache_target(config, workers, url, i);
    assert(cache_target(config, workers, url) == Some(target));
    if target < place {
        assert(workers[target as int].url@ != url);
    }
    if place < target {
        assert(workers[place as int].url@ != url);
    }
}

/// A request that was routed by what is cached, and that comes again, is routed by what is cached
/// again, as long as the loads are in balance and the workers serve the same model, whatever else has
/// become of them in the meantime. It then finds all of itself cached, by the worker that got it,
/// unless the clock has run out. If that is enough, and the worker can take it then, it goes to the
/// same worker.
pub proof fn law_repeated_request_goes_to_same_worker(
    before: Trees,
    config: CacheAwareConfig,
    workers: Seq<Worker>,
    text: Option<Seq<char>>,
    relative: RelativeLoad,
    keys: Seq<u32>,
    pick: usize,
    lookup: CacheLookup,
    looked_up: Trees,
    match_rate: F32Bits,
    rate_keys: Seq<u32>,
    chosen: usize,
    next_workers: Seq<Worker>,
    next_relative: RelativeLoad,
    next_place: usize,
    next_keys: Seq<u32>,
    next_pick: usize,
    next_selection: Selection,
    next_looked_up: Trees,
    next_match_rate: F32Bits,
    next_rate_keys: Seq<u32>,
)
    requires
        are_valid(before),
        before[served_model(workers)].clock < u64::MAX - 2,
        is_selection(
            before,
            config,
            workers,
            text,
            relative,
            keys,
            pick,
            Selection::NeedsMatchRate(lookup),
            looked_up,
        ),
        rate_decision(looked_up, config, workers, lookup, match_rate, rate_keys).worker == Some(chosen),
        is_selection(
            after_rate_decision(
                looked_up,
                config,
                workers,
                text,
                lookup,
                match_rate,
                rate_decision(looked_up, config, workers, lookup, match_rate, rate_keys),
            ),
            config,
            next_workers,
            text,
            next_relative,
            next_keys,
            next_pick,
            next_selection,
            next_looked_up,
        ),
        next_workers.len() <= usize::MAX,
        any_healthy(next_workers),
        served_model(next_workers) == served_model(workers),
        !is_imbalanced(config, load_range_of(next_workers), next_relative),
    ensures
        next_selection matches Selection::NeedsMatchRate(next_lookup) && {
            &&& next_lookup.tenant@ == workers[chosen as int].url@
            &&& next_lookup.matched_char_count == next_lookup.input_char_count
            &&& config.cache_threshold.less(next_match_rate) && is_cache_target(
                config,
                next_workers,
                workers[chosen as int].url@,
                next_place,
            ) ==> rate_decision(
                next_looked_up,
                config,
                next_workers,
                next_lookup,
                next_match_rate,
                next_rate_keys,
            ).worker == Some(next_place)
        },
{
    let key = served_model(workers);
    lemma_any_healthy(next_workers);
    law_look_up_keeps_cache(before[key], text_or_empty(text), lookup.tenant@);
    if let Selection::NeedsMatchRate(next_lookup) = next_selection {
        law_similar_request_goes_to_same_worker(
            looked_up,
            config,
            workers,
            text,
            lookup,
            match_rate,
            rate_keys,
            chosen,
            text_or_empty(text),
            next_lookup,
            next_match_rate,
            next_rate_keys,
            next_looked_up,
            next_workers,
            next_place,
        );
    }
}

/// Of a pair, the decode worker is healthy, and no healthy one has less load. There is no pair only
/// where a prefill worker is missing or no decode worker is healthy.
pub proof fn law_decode_worker_is_least_loaded(prefill: Option<usize>, decode_workers: Seq<Worker>, other: usize)
    requires
        decode_workers.len() <= usize::MAX,
    ensures
        match pair_of(prefill, decode_workers) {
            Some(pair) => {
                &&& prefill == Some(pair.0)
                &&& is_healthy_place(decode_workers, pair.1)
                &&& is_healthy_place(decode_workers, other) ==> decode_workers[pair.1 as int].load <= decode_workers[other as int].load
            },
            None => prefill is None || !any_healthy(decode_workers),
        },
{
    lemma_any_healthy(decode_workers);
    let healthy = healthy_indices(decode_workers);
    let before = by_load(decode_workers);
    if prefill is Some && healthy.len() > 0 {
        law_least_is_candidate(healthy, before);
        assert(is_order(healthy, before));
        law_none_before_least(healthy, before);
        if is_healthy_place(decode_workers, other) {
            assert(healthy.contains(other));
            assert(!before(other, least(healthy, before)));
        }
    }
}

/// The empty text, inserted, makes its tenant take part in the tree.
proof fn lemma_insert_empty(tree: TreeModel, url: Seq<char>, other: Seq<char>)
    ensures
        tree.insert(Seq::empty(), url).has_tenant(url),
        tree.is_valid() && other != url ==> tree.insert(Seq::empty(), url).has_tenant(other) == tree.has_tenant(other),
{
    let root = Seq::<char>::empty();
    assert(root.is_prefix_of(root)) by {
        assert(root =~= root.subrange(0, 0));
    }
}

/// A worker that is added takes part in the tree of its model. Who took part in a tree before still
/// does, and nobody else does. The trees of other models stay as they are.
pub proof fn law_added_worker_takes_part(trees: Trees, key: Seq<char>, url: Seq<char>, other_key: Seq<char>, other: Seq<char>)
    requires
        are_valid(trees),
    ensures
        are_valid(with_worker(trees, key, url)),
        with_worker(trees, key, url).contains_key(key),
        with_worker(trees, key, url)[key].has_tenant(url),
        other != url ==> with_worker(trees, key, url)[key].has_tenant(other) == (trees.contains_key(key)
            && trees[key].has_tenant(other)),
        other_key != key ==> with_worker(trees, key, url).get(other_key) == trees.get(other_key),
{
    let tree = if trees.contains_key(key) {
        trees[key]
    } else {
        TreeModel::fresh()
    };
    law_fresh_is_valid();
    law_insert_keeps_valid(tree, Seq::empty(), url);
    lemma_insert_empty(tree, url, other);
}

/// All workers that a policy is initialized with take part in the trees of their models, and models
/// that none of them serves keep their trees as they are.
pub proof fn law_initialized_workers_take_part(trees: Trees, workers: Seq<Worker>, i: int, other_key: Seq<char>)
    requires
        are_valid(trees),
        0 <= i < workers.len(),
    ensures
        are_valid(with_workers(trees, workers)),
        with_workers(trees, workers).contains_key(model_key(workers[i].model_id@)),
        with_workers(trees, workers)[model_key(workers[i].model_id@)].has_tenant(workers[i].url@),
        (forall|j: int| 0 <= j < workers.len() ==> model_key((#[trigger] workers[j]).model_id@) != other_key) ==> with_workers(
            trees,
            workers,
        ).get(other_key) == trees.get(other_key),
    decreases workers.len(),
{
    let rest = workers.drop_last();
    let last = workers.last();
    let last_key = model_key(last.model_id@);
    let key = model_key(workers[i].model_id@);
    if rest.len() > 0 {
        law_initialized_workers_take_part(trees, rest, if i < rest.len() { i } else { 0 }, other_key);
    }
    let before = with_workers(trees, rest);
    assert(are_valid(before));
    law_added_worker_takes_part(before, last_key, last.url@, key, workers[i].url@);
    law_added_worker_takes_part(before, last_key, last.url@, other_key, workers[i].url@);
    if i < rest.len() {
        assert(workers[i] == rest[i]);
        if key != last_key {
            assert(with_workers(trees, workers).get(key) == before.get(key));
        }
    }
    if forall|j: int| 0 <= j < workers.len() ==> model_key((#[trigger] workers[j]).model_id@) != other_key {
        assert forall|j: int| 0 <= j < rest.len() implies model_key((#[trigger] rest[j]).model_id@) != other_key by {
            assert(workers[j] == rest[j]);
        }
        assert(model_key(workers[workers.len() - 1].model_id@) != other_key);
    }
}

/// Whether a worker serves the model with this key.
pub open spec fn serves(key: Seq<char>) -> spec_fn(Worker) -> bool {
    |worker: Worker| model_key(worker.model_id@) == key
}

/// Each model gets the tree that its own workers alone would have given it.
pub proof fn law_models_are_independent(trees: Trees, workers: Seq<Worker>, key: Seq<char>)
    ensures
        with_workers(trees, workers).get(key) == with_workers(trees, workers.filter(serves(key))).get(key),
    decreases workers.len(),
{
    reveal(Seq::filter);
    if workers.len() > 0 {
        let rest = workers.drop_last();
        let last = workers.last();
        law_models_are_independent(trees, rest, key);
        if serves(key)(last) {
            assert(workers.filter(serves(key)).drop_last() =~= rest.filter(serves(key)));
        }
    }
}

/// A worker that is removed takes no part in the tree of its model any more. The tree stays exactly
/// as long as another worker takes part in it, and that one keeps all that it has cached. The trees
/// of other models stay as they are.
pub proof fn law_removed_worker_takes_no_part(
    trees: Trees,
    key: Seq<char>,
    url: Seq<char>,
    other_key: Seq<char>,
    other: Seq<char>,
)
    requires
        are_valid(trees),
    ensures
        are_valid(without_worker(trees, key, url)),
        without_worker(trees, key, url).contains_key(key) ==> !without_worker(trees, key, url)[key].has_tenant(url),
        without_worker(trees, key, url).contains_key(key) <==> trees.contains_key(key) && exists|t: Seq<char>|
            t != url && #[trigger] trees[key].has_tenant(t),
        trees.contains_key(key) && other != url && trees[key].has_tenant(other) ==> without_worker(
            trees,
            key,
            url,
        )[key].has_tenant(other) && lane(without_worker(trees, key, url)[key].nodes, other) == lane(trees[key].nodes, other),
        other_key != key ==> without_worker(trees, key, url).get(other_key) == trees.get(other_key),
{
    if trees.contains_key(key) {
        lemma_removed(trees[key], url);
        law_removed_tenant_is_gone(trees[key], url, other);
        if other != url && trees[key].has_tenant(other) {
            assert(trees[key].remove_tenant(url).has_tenant(other));
            assert(!trees[key].remove_tenant(url).is_empty());
        }
    }
}

/// What is left of a tree is empty exactly if nobody else took part in it.
proof fn lemma_removed(tree: TreeModel, url: Seq<char>)
    requires
        tree.is_valid(),
    ensures
        tree.remove_tenant(url).is_empty() <==> !exists|t: Seq<char>| t != url && #[trigger] tree.has_tenant(t),
{
    let root = Seq::<char>::empty();
    let after = tree.remove_tenant(url);
    assert(after.nodes[root] == tree.nodes[root].remove(url));
    if !after.is_empty() {
        let t = choose|t: Seq<char>| after.nodes[root].contains_key(t);
        assert(t != url && tree.has_tenant(t));
    }
    if exists|t: Seq<char>| t != url && #[trigger] tree.has_tenant(t) {
        let t = choose|t: Seq<char>| t != url && #[trigger] tree.has_tenant(t);
        assert(after.nodes[root].contains_key(t));
        assert(is_held(after.nodes[root]));
    }
}

/// Removing the only worker of a model undoes adding it.
pub proof fn law_removing_undoes_adding(trees: Trees, key: Seq<char>, url: Seq<char>)
    requires
        !trees.contains_key(key),
    ensures
        without_worker(with_worker(trees, key, url), key, url) == trees,
{
    let tree = TreeModel::fresh();
    let added = with_worker(trees, key, url);
    let root = Seq::<char>::empty();
    law_fresh_is_valid();
    law_insert_keeps_valid(tree, root, url);
    lemma_removed(tree.insert(root, url), url);
    assert forall|t: Seq<char>| t != url implies !(#[trigger] tree.insert(root, url).has_tenant(t)) by {
        lemma_insert_empty(tree, url, t);
    }
    assert(without_worker(added, key, url) =~= trees);
}

/// Removing a worker that was just added to a tree of others leaves that tree with the nodes that it
/// had: the same workers take part in it, and each holds as much as before. Only the clock has moved.
/// All other trees stay as they were.
pub proof fn law_removing_undoes_adding_to_others(trees: Trees, key: Seq<char>, url: Seq<char>, other: Seq<char>)
    requires
        are_valid(trees),
        trees.contains_key(key),
        !trees[key].is_empty(),
        !trees[key].has_tenant(url),
    ensures
        without_worker(with_worker(trees, key, url), key, url) == trees.insert(
            key,
            (TreeModel { nodes: trees[key].nodes, clock: next_time(trees[key].clock) }),
        ),
        without_worker(with_worker(trees, key, url), key, url).dom() == trees.dom(),
        without_worker(with_worker(trees, key, url), key, url)[key].has_tenant(other) == trees[key].has_tenant(other),
        without_worker(with_worker(trees, key, url), key, url)[key].tenant_size(other) == trees[key].tenant_size(other),
{
    let root = Seq::<char>::empty();
    let tree = trees[key];
    let added = tree.insert(root, url);
    let removed = added.remove_tenant(url);
    let after = without_worker(with_worker(trees, key, url), key, url);
    assert(root.is_prefix_of(root)) by {
        assert(root =~= root.subrange(0, 0));
    }
    assert(branch(tree.nodes, root) =~= root);
    assert forall|p: Seq<char>| tree.nodes.contains_key(p) implies !(#[trigger] tree.nodes[p]).contains_key(url) by {
        assert(root.is_prefix_of(p)) by {
            assert(root =~= p.subrange(0, 0));
        }
    }
    assert forall|p: Seq<char>| #[trigger] added.nodes.contains_key(p) implies tree.nodes.contains_key(p)
        && added.nodes[p].remove(url) == tree.nodes[p] by {
        if p.is_prefix_of(root) {
            assert(p =~= root);
        }
        assert(added.nodes[p].remove(url) =~= tree.nodes[p]);
    }
    assert(removed.nodes =~= tree.nodes) by {
        assert forall|p: Seq<char>| #[trigger] removed.nodes.contains_key(p) <==> tree.nodes.contains_key(p) by {
            if tree.nodes.contains_key(p) {
                assert(added.nodes.contains_key(p));
                if p.len() == 0 {
                    assert(p =~= root);
                }
            }
        }
    }
    assert(!removed.is_empty());
    assert(after =~= trees.insert(key, (TreeModel { nodes: tree.nodes, clock: next_time(tree.clock) })));
    assert(after.dom() =~= trees.dom());
}

/// Removing a worker by its address is removing it from every tree. It then takes part in none, and
/// the trees in which another worker takes part are those that stay.
pub proof fn law_removed_url_takes_no_part(trees: Trees, url: Seq<char>, key: Seq<char>, other: Seq<char>)
    requires
        are_valid(trees),
    ensures
        are_valid(without_url(trees, url)),
        without_url(trees, url).get(key) == without_worker(trees, key, url).get(key),
        without_url(trees, url).contains_key(key) ==> !without_url(trees, url)[key].has_tenant(url),
        trees.contains_key(key) && other != url && trees[key].has_tenant(other) ==> without_url(trees, url).contains_key(key)
            && without_url(trees, url)[key].has_tenant(other),
{
    assert forall|k: Seq<char>| #[trigger] without_url(trees, url).contains_key(k) implies without_url(
        trees,
        url,
    )[k].is_valid() by {
        law_removed_tenant_is_gone(trees[k], url, other);
    }
    law_removed_worker_takes_no_part(trees, key, url, key, other);
}

/// An eviction keeps every tree and everybody in it, and it leaves nobody with more than `max_size`
/// characters of a tree.
pub proof fn law_evicted_trees_are_bounded(before: Trees, after: Trees, max_size: usize, key: Seq<char>, url: Seq<char>)
    requires
        are_valid(before),
        are_evicted(before, after, max_size),
    ensures
        are_valid(after),
        after.contains_key(key) == before.contains_key(key),
        before.contains_key(key) ==> after[key].tenant_size(url) <= max_size,
        before.contains_key(key) ==> after[key].has_tenant(url) == before[key].has_tenant(url),
{
    assert forall|k: Seq<char>| #[trigger] after.contains_key(k) implies after[k].is_valid() by {
        assert(before.dom().contains(k));
        assert(before.contains_key(k));
        law_eviction_bounds_tenants(before[k], after[k], max_size, url);
    }
    assert(after.contains_key(key) == before.contains_key(key)) by {
        assert(after.dom().contains(key) == before.dom().contains(key));
    }
    if before.contains_key(key) {
        law_eviction_bounds_tenants(before[key], after[key], max_size, url);
    }
}

} // verus!
