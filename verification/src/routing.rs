//! What a routing decision is, and what it does to the trees.

use vstd::prelude::*;

use crate::choice::{by_load, least, least_busy, smallest_tree};
use crate::config::CacheAwareConfig;
use crate::float_order::F32Bits;
use crate::model::match_len;
use crate::model_key::model_key;
use crate::tree::TreeModel;
use crate::worker::{healthy_indices, is_first_at, load_range_of, LoadRange, Worker};

verus! {

/// The trees of a policy, by the key of their model.
pub type Trees = Map<Seq<char>, TreeModel>;

/// The greatest load as a number, and the least load times the relative threshold.
#[derive(Clone, Copy, Debug)]
pub struct RelativeLoad {
    pub max_load: F32Bits,
    pub scaled_min_load: F32Bits,
}

/// Where a request goes, and what is to be counted for it.
#[derive(Clone, Copy, Debug, PartialEq, Eq, Structural)]
pub struct Decision {
    /// The place of the worker that gets the request.
    pub worker: Option<usize>,
    /// How many times the request counts as processed by that worker.
    pub processed: u32,
    /// The load range to report, where the request did not go to where it is cached.
    pub load_range: Option<LoadRange>,
}

/// What the cache of a model has of a request.
#[derive(Debug)]
pub struct CacheLookup {
    /// The key of the model.
    pub model_key: String,
    /// The worker that used the cached part last.
    pub tenant: String,
    /// How many characters of the request are cached.
    pub matched_char_count: usize,
    /// How many characters the request has.
    pub input_char_count: usize,
}

/// How far the routing of a request has come.
#[derive(Debug)]
pub enum Selection {
    /// It is decided where the request goes.
    Decided(Decision),
    /// The share of the request that is cached decides.
    NeedsMatchRate(CacheLookup),
}

/// The ways in which a request can be routed.
#[derive(Clone, Copy, Debug, PartialEq, Eq, Structural)]
pub enum Route {
    /// No worker is healthy.
    NoWorker,
    /// To the least busy worker.
    ByLoad,
    /// To any healthy worker: there is no tree for the model.
    AnyWorker,
    /// To the worker that has most of the request cached.
    ByCache,
}

/// Where a request goes to be prefilled and to be decoded.
#[derive(Clone, Copy, Debug)]
pub struct PairDecision {
    /// The places of the two workers.
    pub pair: Option<(usize, usize)>,
    /// The decision on the worker that prefills.
    pub prefill: Decision,
}

/// How far the routing of a request to a pair of workers has come.
#[derive(Debug)]
pub enum PairSelection {
    /// It is decided where the request goes.
    Decided(PairDecision),
    /// The share of the request that is cached decides.
    NeedsMatchRate(CacheLookup),
}

/// The decision that nobody gets the request.
pub open spec fn no_decision() -> Decision {
    Decision { worker: None, processed: 0, load_range: None }
}

/// The text of a request. A request without one counts as empty.
pub open spec fn text_or_empty(text: Option<Seq<char>>) -> Seq<char> {
    match text {
        Some(text) => text,
        None => Seq::empty(),
    }
}

/// The characters of a request's text, if it has one.
pub open spec fn text_view(text: Option<&str>) -> Option<Seq<char>> {
    match text {
        Some(text) => Some(text@),
        None => None,
    }
}

/// The estimated number of tokens of a text: a token for every four bytes.
pub open spec fn estimated_tokens(text: Seq<char>) -> usize {
    (vstd::utf8::encode_utf8(text).len() as usize) / 4
}

/// Whether a request is so small that it is routed by load.
pub open spec fn is_small(config: CacheAwareConfig, text: Option<Seq<char>>) -> bool {
    text matches Some(text) && estimated_tokens(text) < config.small_request_token_threshold
}

/// Whether the loads are out of balance: they lie further apart than the absolute threshold, and
/// the greatest is more than the least times the relative threshold.
pub open spec fn is_imbalanced(config: CacheAwareConfig, range: LoadRange, relative: RelativeLoad) -> bool {
    &&& range.max_load - range.min_load > config.balance_abs_threshold
    &&& relative.scaled_min_load.less(relative.max_load)
}

/// The key of the model that the workers serve: that of the first healthy one.
pub open spec fn served_model(workers: Seq<Worker>) -> Seq<char> {
    model_key(workers[healthy_indices(workers)[0] as int].model_id@)
}

/// How a request is routed.
pub open spec fn route_of(
    trees: Trees,
    config: CacheAwareConfig,
    workers: Seq<Worker>,
    text: Option<Seq<char>>,
    relative: RelativeLoad,
) -> Route {
    if healthy_indices(workers).len() == 0 {
        Route::NoWorker
    } else if is_small(config, text) || is_imbalanced(config, load_range_of(workers), relative) {
        Route::ByLoad
    } else if trees.contains_key(served_model(workers)) {
        Route::ByCache
    } else {
        Route::AnyWorker
    }
}

/// The trees after the worker at `url` got `text`. A model without a tree does not get one.
pub open spec fn with_text(trees: Trees, key: Seq<char>, text: Seq<char>, url: Seq<char>) -> Trees {
    if trees.contains_key(key) {
        trees.insert(key, trees[key].insert(text, url))
    } else {
        trees
    }
}

/// The trees after the worker at `url` was added to a model, which gets a tree if it has none.
pub open spec fn with_worker(trees: Trees, key: Seq<char>, url: Seq<char>) -> Trees {
    let tree = if trees.contains_key(key) {
        trees[key]
    } else {
        TreeModel::fresh()
    };
    trees.insert(key, tree.insert(Seq::empty(), url))
}

/// The trees after all these workers were added, in order.
pub open spec fn with_workers(trees: Trees, workers: Seq<Worker>) -> Trees
    decreases workers.len(),
{
    if workers.len() == 0 {
        trees
    } else {
        with_worker(with_workers(trees, workers.drop_last()), model_key(workers.last().model_id@), workers.last().url@)
    }
}

/// The trees after the worker at `url` left a model. A tree without workers is gone.
pub open spec fn without_worker(trees: Trees, key: Seq<char>, url: Seq<char>) -> Trees {
    if !trees.contains_key(key) {
        trees
    } else if trees[key].remove_tenant(url).is_empty() {
        trees.remove(key)
    } else {
        trees.insert(key, trees[key].remove_tenant(url))
    }
}

/// The trees after the worker at `url` left every model. Trees without workers are gone.
pub open spec fn without_url(trees: Trees, url: Seq<char>) -> Trees {
    Map::new(
        |key: Seq<char>| trees.contains_key(key) && !trees[key].remove_tenant(url).is_empty(),
        |key: Seq<char>| trees[key].remove_tenant(url),
    )
}

/// Whether `after` are these trees with every worker cut down to `max_size` characters of each.
pub open spec fn are_evicted(before: Trees, after: Trees, max_size: usize) -> bool {
    &&& after.dom() == before.dom()
    &&& forall|key: Seq<char>| #[trigger] before.contains_key(key) ==> before[key].evicts_to(after[key], max_size)
}

/// The decision that a choice among the workers leads to: it is counted once, and the loads are
/// reported.
pub open spec fn counted_decision(chosen: Option<usize>, range: LoadRange) -> Decision {
    Decision {
        worker: chosen,
        processed: if chosen is Some {
            1
        } else {
            0
        },
        load_range: Some(range),
    }
}

/// The decision by load among the candidates.
pub open spec fn load_decision(
    trees: Trees,
    config: CacheAwareConfig,
    workers: Seq<Worker>,
    candidates: Seq<usize>,
    model_id: Seq<char>,
    range: LoadRange,
    keys: Seq<u32>,
) -> Decision {
    counted_decision(
        least_busy(workers, candidates, config.kv_util_threshold, trees.get(model_key(model_id)), keys),
        range,
    )
}

/// The decision by tree size among the candidates.
pub open spec fn size_decision(
    trees: Trees,
    config: CacheAwareConfig,
    workers: Seq<Worker>,
    candidates: Seq<usize>,
    model_id: Seq<char>,
    range: LoadRange,
    keys: Seq<u32>,
) -> Decision {
    counted_decision(
        smallest_tree(workers, candidates, config.kv_util_threshold, trees.get(model_key(model_id)), keys),
        range,
    )
}

/// The trees after a decision by load or by tree size: the chosen worker has the request's text.
pub open spec fn after_load_decision(
    trees: Trees,
    workers: Seq<Worker>,
    text: Option<Seq<char>>,
    model_id: Seq<char>,
    decision: Decision,
) -> Trees {
    match (decision.worker, text) {
        (Some(chosen), Some(text)) => with_text(trees, model_id, text, workers[chosen as int].url@),
        _ => trees,
    }
}

/// Whether a lookup says what a tree has of a text.
pub open spec fn is_lookup(trees: Trees, key: Seq<char>, text: Seq<char>, lookup: CacheLookup) -> bool {
    &&& lookup.model_key@ == key
    &&& lookup.matched_char_count == match_len(trees[key].nodes, text)
    &&& lookup.input_char_count == text.len()
    &&& lookup.matched_char_count <= lookup.input_char_count
    &&& trees[key].answers(text, lookup.tenant@)
}

/// Whether `selection` is how far the routing of a request comes before its match rate is known,
/// and `after` are the trees then. The keys, one for each worker, decide among workers that are
/// otherwise equal; `pick` says which healthy worker gets a request that any of them may get.
pub open spec fn is_selection(
    before: Trees,
    config: CacheAwareConfig,
    workers: Seq<Worker>,
    text: Option<Seq<char>>,
    relative: RelativeLoad,
    keys: Seq<u32>,
    pick: usize,
    selection: Selection,
    after: Trees,
) -> bool {
    let healthy = healthy_indices(workers);
    let key = served_model(workers);
    match route_of(before, config, workers, text, relative) {
        Route::NoWorker => selection == Selection::Decided(no_decision()) && after == before,
        Route::ByLoad => {
            let decision = load_decision(before, config, workers, healthy, key, load_range_of(workers), keys);
            selection == Selection::Decided(decision) && after == after_load_decision(before, workers, text, key, decision)
        },
        Route::AnyWorker => selection == Selection::Decided(
            Decision { worker: Some(healthy[pick as int]), processed: 1, load_range: None },
        ) && after == before,
        Route::ByCache => selection matches Selection::NeedsMatchRate(lookup) && is_lookup(
            before,
            key,
            text_or_empty(text),
            lookup,
        ) && after == before.insert(key, before[key].look_up(text_or_empty(text), lookup.tenant@)),
    }
}

/// Whether the worker at `i` may get a request because it has the request cached: it is the first
/// one at its address, it is healthy, and neither its key-value cache nor its load has reached the
/// threshold.
pub open spec fn is_cache_target(config: CacheAwareConfig, workers: Seq<Worker>, url: Seq<char>, i: usize) -> bool {
    &&& is_first_at(workers, url, i)
    &&& workers[i as int].healthy
    &&& workers[i as int].kv_util.less(config.kv_util_threshold)
    &&& workers[i as int].load < config.balance_abs_threshold
}

/// The worker that may get a request because it has the request cached.
pub open spec fn cache_target(config: CacheAwareConfig, workers: Seq<Worker>, url: Seq<char>) -> Option<usize> {
    if exists|i: usize| is_cache_target(config, workers, url, i) {
        Some(choose|i: usize| is_cache_target(config, workers, url, i))
    } else {
        None
    }
}

/// The worker that a lookup speaks for, if so much of the request is cached that it goes there.
pub open spec fn hit_target(
    config: CacheAwareConfig,
    workers: Seq<Worker>,
    lookup: CacheLookup,
    match_rate: F32Bits,
) -> Option<usize> {
    if config.cache_threshold.less(match_rate) {
        cache_target(config, workers, lookup.tenant@)
    } else {
        None
    }
}

/// The decision once the match rate is known. A request of which enough is cached goes to the worker
/// that has it cached, or by load where that worker cannot take it. Any other request goes to the
/// worker with the smallest tree. A request that does not go where it is cached counts twice as
/// processed.
pub open spec fn rate_decision(
    trees: Trees,
    config: CacheAwareConfig,
    workers: Seq<Worker>,
    lookup: CacheLookup,
    match_rate: F32Bits,
    keys: Seq<u32>,
) -> Decision {
    match hit_target(config, workers, lookup, match_rate) {
        Some(target) => Decision { worker: Some(target), processed: 1, load_range: None },
        None => {
            let healthy = healthy_indices(workers);
            let range = load_range_of(workers);
            let elsewhere = if config.cache_threshold.less(match_rate) {
                load_decision(trees, config, workers, healthy, lookup.model_key@, range, keys)
            } else {
                size_decision(trees, config, workers, healthy, lookup.model_key@, range, keys)
            };
            Decision {
                worker: elsewhere.worker,
                processed: if elsewhere.worker is Some {
                    2
                } else {
                    0
                },
                load_range: elsewhere.load_range,
            }
        },
    }
}

/// The trees once the match rate is known: the chosen worker has the request's text. Where nobody
/// can get the request, the worker that the lookup spoke for is taken out of the tree.
pub open spec fn after_rate_decision(
    trees: Trees,
    config: CacheAwareConfig,
    workers: Seq<Worker>,
    text: Option<Seq<char>>,
    lookup: CacheLookup,
    match_rate: F32Bits,
    decision: Decision,
) -> Trees {
    let key = lookup.model_key@;
    match decision.worker {
        Some(chosen) => {
            let routed = if decision.load_range is Some {
                after_load_decision(trees, workers, text, key, decision)
            } else {
                trees
            };
            with_text(routed, key, text_or_empty(text), workers[chosen as int].url@)
        },
        None => if config.cache_threshold.less(match_rate) && trees.contains_key(key) {
            trees.insert(key, trees[key].remove_tenant(lookup.tenant@))
        } else {
            trees
        },
    }
}

/// The pair of workers for a request that is decoded elsewhere than prefilled: the healthy decode
/// worker with the least load joins the prefill worker.
pub open spec fn pair_of(prefill: Option<usize>, decode_workers: Seq<Worker>) -> Option<(usize, usize)> {
    let healthy = healthy_indices(decode_workers);
    match prefill {
        Some(prefill) => if healthy.len() > 0 {
            Some((prefill, least(healthy, by_load(decode_workers))))
        } else {
            None
        },
        None => None,
    }
}

/// The decision on a pair of workers that a decision on the prefill worker leads to.
pub open spec fn pair_decision(prefill: Decision, decode_workers: Seq<Worker>) -> PairDecision {
    PairDecision { pair: pair_of(prefill.worker, decode_workers), prefill }
}

/// How far the routing to a pair of workers has come, given how far that to the prefill worker has.
pub open spec fn pair_selection(prefill: Selection, decode_workers: Seq<Worker>) -> PairSelection {
    match prefill {
        Selection::Decided(decision) => PairSelection::Decided(pair_decision(decision, decode_workers)),
        Selection::NeedsMatchRate(lookup) => PairSelection::NeedsMatchRate(lookup),
    }
}

} // verus!
