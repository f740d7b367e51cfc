//! The cache-aware routing policy.

use dashmap::DashMap;
use vstd::prelude::*;

use crate::choice::{
    choose_least_busy, choose_smallest_tree, law_least_busy_is_candidate, law_smallest_tree_is_candidate, least_loaded,
};
use crate::config::CacheAwareConfig;
use crate::float_order::F32Bits;
use crate::model_key::{model_key, normalize_model_key};
use crate::random::{draw_keys, random_index};
use crate::routing::{
    after_load_decision, after_rate_decision, are_evicted, cache_target, counted_decision, estimated_tokens, is_cache_target, is_lookup,
    is_selection, load_decision, pair_decision, pair_of, pair_selection, rate_decision, route_of, size_decision, text_view, with_text,
    with_worker, with_workers, without_url, without_worker, CacheLookup, Decision, PairDecision, PairSelection, RelativeLoad,
    Route, Selection, Trees,
};
use crate::tree::Tree;
use crate::tree_map::{
    entry_tree, trees_contains_key, trees_get, trees_insert, trees_keys, trees_new, trees_of, trees_remove,
    trees_remove_if_empty,
};
use crate::worker::{
    are_places, find_by_url, get_healthy_worker_indices, healthy_indices, load_range, LoadRange, Worker,
};

verus! {

/// Routes requests to where they are cached while the load is balanced, and to the least busy worker
/// while it is not. Every model has a prefix tree of its own.
///
/// A request goes to where it is cached if more of it is cached than the cache threshold asks for,
/// and if the worker is healthy, uses less of its key-value cache than the threshold and has less
/// load than the absolute balance threshold. Where enough is cached but the worker cannot take the
/// request, it goes to the least busy worker. Where not enough is cached, it goes to the worker with
/// the smallest tree. Small requests always go to the least busy worker, and requests for a model
/// without a tree to any healthy one.
pub struct CacheAwarePolicy {
    config: CacheAwareConfig,
    trees: DashMap<String, Tree>,
}

/// What a map of trees stands for.
spec fn models_of(map: DashMap<String, Tree>) -> Trees {
    trees_of(map).map_values(|tree: Tree| tree@)
}

/// Whether every tree of a map is well formed.
spec fn are_wf(map: DashMap<String, Tree>) -> bool {
    forall|key: Seq<char>| #[trigger] trees_of(map).contains_key(key) ==> trees_of(map)[key].wf()
}

impl View for CacheAwarePolicy {
    type V = Trees;

    closed spec fn view(&self) -> Trees {
        models_of(self.trees)
    }
}

impl CacheAwarePolicy {
    /// Every tree is well formed.
    pub closed spec fn wf(&self) -> bool {
        are_wf(self.trees)
    }

    /// The settings.
    pub closed spec fn settings(&self) -> CacheAwareConfig {
        self.config
    }

    /// What holds of every tree holds of every tree of a policy.
    pub proof fn lemma_valid(&self, key: Seq<char>)
        requires
            self.wf(),
            self@.contains_key(key),
        ensures
            self@[key].is_valid(),
    {
        trees_of(self.trees)[key].lemma_valid();
    }

    /// A policy with the standard settings and no trees.
    pub fn new() -> (policy: CacheAwarePolicy)
        ensures
            policy.wf(),
            policy.settings() == CacheAwareConfig::standard(),
            (policy@ == Trees::empty()),
    {
        Self::with_config(CacheAwareConfig::default())
    }

    /// A policy with these settings and no trees.
    pub fn with_config(config: CacheAwareConfig) -> (policy: CacheAwarePolicy)
        ensures
            policy.wf(),
            policy.settings() == config,
            (policy@ == Trees::empty()),
    {
        let policy = CacheAwarePolicy { config, trees: trees_new() };
        assert(policy@ =~= Trees::empty());
        policy
    }

    /// The settings.
    pub fn config(&self) -> (config: CacheAwareConfig)
        ensures
            config == self.settings(),
    {
        self.config
    }

    /// The name of the policy.
    pub fn name(&self) -> (name: &'static str)
        ensures
            name@ == "cache_aware"@,
    {
        "cache_aware"
    }

    /// Whether the policy reads the text of requests: it does.
    pub fn needs_request_text(&self) -> (needed: bool)
        ensures
            needed,
    {
        true
    }

    /// Whether the policy must be told of the workers first: it must.
    pub fn requires_initialization(&self) -> (required: bool)
        ensures
            required,
    {
        true
    }

    /// The estimated number of tokens of a text.
    pub fn estimate_tokens(&self, text: &str) -> (tokens: usize)
        ensures
            tokens == estimated_tokens(text@),
    {
        text.len() / 4
    }

    /// Takes the worker at `url` into the tree of a model, which gets a tree if it has none.
    pub fn add_worker_by_url(&mut self, url: &str, model_id: &str)
        requires
            old(self).wf(),
        ensures
            final(self).wf(),
            final(self).settings() == old(self).settings(),
            final(self)@ == with_worker(old(self)@, model_id@, url@),
    {
        let mut tree = match trees_remove(&mut self.trees, model_id) {
            Some(tree) => tree,
            None => Tree::new(),
        };
        proof {
            reveal_strlit("");
            assert(""@ =~= Seq::<char>::empty());
        }
        tree.insert("", url);
        trees_insert(&mut self.trees, model_id.to_owned(), tree);
        assert(self@ =~= with_worker(old(self)@, model_id@, url@));
    }

    /// Takes a worker into the tree of its model.
    pub fn add_worker(&mut self, worker: &Worker)
        requires
            old(self).wf(),
        ensures
            final(self).wf(),
            final(self).settings() == old(self).settings(),
            final(self)@ == with_worker(old(self)@, model_key(worker.model_id@), worker.url@),
    {
        self.add_worker_by_url(worker.url.as_str(), normalize_model_key(worker.model_id.as_str()));
    }

    /// Takes all workers into the trees of their models.
    pub fn init_workers(&mut self, workers: &[Worker])
        requires
            old(self).wf(),
        ensures
            final(self).wf(),
            final(self).settings() == old(self).settings(),
            final(self)@ == with_workers(old(self)@, workers@),
    {
        let mut i: usize = 0;
        assert(workers@.take(0).len() == 0);
        while i < workers.len()
            invariant
                i <= workers@.len(),
                workers@.len() == workers.len(),
                self.wf(),
                self.settings() == old(self).settings(),
                self@ == with_workers(old(self)@, workers@.take(i as int)),
            decreases workers@.len() - i,
        {
            assert(workers@.take(i + 1).drop_last() =~= workers@.take(i as int));
            self.add_worker(&workers[i]);
            i += 1;
        }
        assert(workers@.take(i as int) =~= workers@);
    }

    /// Takes the worker at `url` out of the tree under `key`. A tree without workers is removed.
    fn remove_from_tree(&mut self, key: &str, url: &str)
        requires
            old(self).wf(),
        ensures
            final(self).wf(),
            final(self).settings() == old(self).settings(),
            final(self)@ == without_worker(old(self)@, key@, url@),
    {
        if let Some(mut tree) = trees_remove(&mut self.trees, key) {
            tree.remove_tenant(url);
            trees_insert(&mut self.trees, key.to_owned(), tree);
            trees_remove_if_empty(&mut self.trees, key);
        }
        assert(self@ =~= without_worker(old(self)@, key@, url@));
    }

    /// Takes a worker out of the tree of its model. A tree without workers is removed.
    pub fn remove_worker(&mut self, worker: &Worker)
        requires
            old(self).wf(),
        ensures
            final(self).wf(),
            final(self).settings() == old(self).settings(),
            final(self)@ == without_worker(old(self)@, model_key(worker.model_id@), worker.url@),
    {
        self.remove_from_tree(normalize_model_key(worker.model_id.as_str()), worker.url.as_str());
    }

    /// Takes the worker at `url` out of all trees. Trees without workers are removed.
    pub fn remove_worker_by_url(&mut self, url: &str)
        requires
            old(self).wf(),
        ensures
            final(self).wf(),
            final(self).settings() == old(self).settings(),
            final(self)@ == without_url(old(self)@, url@),
    {
        let keys = trees_keys(&self.trees);
        let ghost before = self@;
        let mut n: usize = 0;
        while n < keys.len()
            invariant
                n <= keys@.len(),
                self.wf(),
                self.settings() == old(self).settings(),
                before == old(self)@,
                forall|i: int| 0 <= i < keys@.len() ==> before.contains_key((#[trigger] keys@[i])@),
                forall|i: int, j: int| 0 <= i < j < keys@.len() ==> (#[trigger] keys@[i])@ != (#[trigger] keys@[j])@,
                forall|i: int|
                    n <= i < keys@.len() ==> self@.contains_key((#[trigger] keys@[i])@) && self@[keys@[i]@]
                        == before[keys@[i]@],
                forall|i: int|
                    0 <= i < n ==> (self@.contains_key((#[trigger] keys@[i])@) <==> !before[keys@[i]@].remove_tenant(
                        url@,
                    ).is_empty()),
                forall|i: int|
                    0 <= i < n && self@.contains_key((#[trigger] keys@[i])@) ==> self@[keys@[i]@]
                        == before[keys@[i]@].remove_tenant(url@),
                forall|key: Seq<char>| #[trigger] self@.contains_key(key) ==> before.contains_key(key),
            decreases keys@.len() - n,
        {
            self.remove_from_tree(keys[n].as_str(), url);
            n += 1;
        }
        proof {
            let after = without_url(before, url@);
            assert forall|key: Seq<char>| #[trigger] self@.contains_key(key) <==> after.contains_key(key) by {
                if before.contains_key(key) {
                    let i = choose|i: int| 0 <= i < keys@.len() && (#[trigger] keys@[i])@ == key;
                    assert(keys@[i]@ == key);
                }
            }
            assert forall|key: Seq<char>| #[trigger] self@.contains_key(key) implies self@[key] == after[key] by {
                let i = choose|i: int| 0 <= i < keys@.len() && (#[trigger] keys@[i])@ == key;
                assert(keys@[i]@ == key);
            }
            assert(self@ =~= after);
        }
    }

    /// Removes the tree of a model.
    pub fn remove_model(&mut self, model_id: &str)
        requires
            old(self).wf(),
        ensures
            final(self).wf(),
            final(self).settings() == old(self).settings(),
            final(self)@ == old(self)@.remove(model_key(model_id@)),
    {
        let _ = trees_remove(&mut self.trees, normalize_model_key(model_id));
        assert(self@ =~= old(self)@.remove(model_key(model_id@)));
    }

    /// Whether a model has a tree.
    pub fn has_tree_for_model(&self, model_id: &str) -> (found: bool)
        ensures
            found == self@.contains_key(model_key(model_id@)),
    {
        trees_contains_key(&self.trees, normalize_model_key(model_id))
    }

    /// Whether a model has a tree in which the worker takes part.
    pub fn tree_has_tenant(&self, model_id: &str, worker_url: &str) -> (found: bool)
        requires
            self.wf(),
        ensures
            found == (self@.contains_key(model_key(model_id@)) && self@[model_key(model_id@)].has_tenant(worker_url@)),
    {
        match trees_get(&self.trees, normalize_model_key(model_id)) {
            Some(entry) => entry_tree(&entry).has_tenant(worker_url),
            None => false,
        }
    }

    /// The keys of the models that have a tree, each once, in no stated order.
    pub fn tree_keys(&self) -> (keys: Vec<String>)
        ensures
            forall|i: int| 0 <= i < keys@.len() ==> self@.contains_key((#[trigger] keys@[i])@),
            forall|key: Seq<char>|
                self@.contains_key(key) ==> exists|i: int| 0 <= i < keys@.len() && (#[trigger] keys@[i])@ == key,
            forall|i: int, j: int| 0 <= i < j < keys@.len() ==> (#[trigger] keys@[i])@ != (#[trigger] keys@[j])@,
    {
        trees_keys(&self.trees)
    }

    /// Cuts every worker down to `max_size` characters of each tree.
    pub fn evict_cache(&mut self, max_size: usize)
        requires
            old(self).wf(),
        ensures
            final(self).wf(),
            final(self).settings() == old(self).settings(),
            are_evicted(old(self)@, final(self)@, max_size),
    {
        let keys = trees_keys(&self.trees);
        let ghost before = self@;
        let mut n: usize = 0;
        while n < keys.len()
            invariant
                n <= keys@.len(),
                self.wf(),
                self.settings() == old(self).settings(),
                before == old(self)@,
                self@.dom() == before.dom(),
                forall|i: int| 0 <= i < keys@.len() ==> before.contains_key((#[trigger] keys@[i])@),
                forall|key: Seq<char>|
                    before.contains_key(key) ==> exists|i: int| 0 <= i < keys@.len() && (#[trigger] keys@[i])@ == key,
                forall|i: int, j: int| 0 <= i < j < keys@.len() ==> (#[trigger] keys@[i])@ != (#[trigger] keys@[j])@,
                forall|i: int| n <= i < keys@.len() ==> self@[(#[trigger] keys@[i])@] == before[keys@[i]@],
                forall|i: int|
                    0 <= i < n ==> before[(#[trigger] keys@[i])@].evicts_to(self@[keys@[i]@], max_size),
            decreases keys@.len() - n,
        {
            let ghost step = self@;
            assert(step.contains_key(keys@[n as int]@));
            if let Some(mut tree) = trees_remove(&mut self.trees, keys[n].as_str()) {
                tree.evict_tenant_by_size(max_size);
                trees_insert(&mut self.trees, keys[n].clone(), tree);
                assert(self@ =~= step.insert(keys@[n as int]@, tree@));
                assert(self@.dom() =~= before.dom());
            }
            n += 1;
        }
        assert forall|key: Seq<char>| #[trigger] before.contains_key(key) implies before[key].evicts_to(
            self@[key],
            max_size,
        ) by {
            let i = choose|i: int| 0 <= i < keys@.len() && (#[trigger] keys@[i])@ == key;
            assert(before[keys@[i]@].evicts_to(self@[keys@[i]@], max_size));
        }
    }
}

impl CacheAwarePolicy {
    /// Lets the worker at `url` have `text` in the tree under `key`, if there is one.
    fn record_text(&mut self, key: &str, text: &str, url: &str)
        requires
            old(self).wf(),
        ensures
            final(self).wf(),
            final(self).settings() == old(self).settings(),
            final(self)@ == with_text(old(self)@, key@, text@, url@),
    {
        if let Some(mut tree) = trees_remove(&mut self.trees, key) {
            tree.insert(text, url);
            trees_insert(&mut self.trees, key.to_owned(), tree);
        }
        assert(self@ =~= with_text(old(self)@, key@, text@, url@));
    }

    /// Takes the worker at `url` out of the tree under `key`, which stays even without workers.
    fn forget_tenant(&mut self, key: &str, url: &str)
        requires
            old(self).wf(),
        ensures
            final(self).wf(),
            final(self).settings() == old(self).settings(),
            final(self)@ == (if old(self)@.contains_key(key@) {
                old(self)@.insert(key@, old(self)@[key@].remove_tenant(url@))
            } else {
                old(self)@
            }),
    {
        if let Some(mut tree) = trees_remove(&mut self.trees, key) {
            tree.remove_tenant(url);
            trees_insert(&mut self.trees, key.to_owned(), tree);
            assert(self@ =~= old(self)@.insert(key@, old(self)@[key@].remove_tenant(url@)));
        } else {
            assert(self@ =~= old(self)@);
        }
    }

    /// Settles a choice among the workers: the chosen one has the request's text.
    fn settle(
        &mut self,
        workers: &[Worker],
        request_text: Option<&str>,
        model_id: &str,
        chosen: Option<usize>,
        range: LoadRange,
    ) -> (decision: Decision)
        requires
            old(self).wf(),
            chosen matches Some(place) ==> place < workers@.len(),
        ensures
            final(self).wf(),
            final(self).settings() == old(self).settings(),
            decision == counted_decision(chosen, range),
            final(self)@ == after_load_decision(old(self)@, workers@, text_view(request_text), model_id@, decision),
    {
        match chosen {
            Some(place) => {
                if let Some(text) = request_text {
                    self.record_text(model_id, text, workers[place].url.as_str());
                }
                Decision { worker: Some(place), processed: 1, load_range: Some(range) }
            },
            None => Decision { worker: None, processed: 0, load_range: Some(range) },
        }
    }

    /// Routes a request to the least busy of the candidates. The keys, one for each worker, decide
    /// among workers that are otherwise equal.
    pub fn select_worker_min_load_with_keys(
        &mut self,
        workers: &[Worker],
        request_text: Option<&str>,
        healthy_indices: &Vec<usize>,
        model_id: &str,
        max_load: usize,
        min_load: usize,
        keys: &Vec<u32>,
    ) -> (decision: Decision)
        requires
            old(self).wf(),
            are_places(workers@, healthy_indices@),
            keys@.len() == workers@.len(),
        ensures
            final(self).wf(),
            final(self).settings() == old(self).settings(),
            decision == load_decision(
                old(self)@,
                old(self).settings(),
                workers@,
                healthy_indices@,
                model_id@,
                (LoadRange { max_load, min_load }),
                keys@,
            ),
            final(self)@ == after_load_decision(old(self)@, workers@, text_view(request_text), model_id@, decision),
    {
        let kv_threshold = self.config.kv_util_threshold;
        let tree_key = normalize_model_key(model_id);
        let chosen = match trees_get(&self.trees, tree_key) {
            Some(entry) => choose_least_busy(
                workers,
                healthy_indices,
                kv_threshold,
                Some(entry_tree(&entry)),
                keys,
            ),
            None => choose_least_busy(workers, healthy_indices, kv_threshold, None, keys),
        };
        proof {
            law_least_busy_is_candidate(
                workers@,
                healthy_indices@,
                kv_threshold,
                self@.get(model_key(model_id@)),
                keys@,
            );
        }
        self.settle(workers, request_text, model_id, chosen, LoadRange { max_load, min_load })
    }

    /// Routes a request that is hardly cached anywhere to the candidate with the smallest tree. The
    /// keys, one for each worker, decide among workers that are otherwise equal.
    fn select_smallest_tree_with_keys(
        &mut self,
        workers: &[Worker],
        request_text: Option<&str>,
        healthy_indices: &Vec<usize>,
        model_id: &str,
        range: LoadRange,
        keys: &Vec<u32>,
    ) -> (decision: Decision)
        requires
            old(self).wf(),
            are_places(workers@, healthy_indices@),
            keys@.len() == workers@.len(),
        ensures
            final(self).wf(),
            final(self).settings() == old(self).settings(),
            decision == size_decision(
                old(self)@,
                old(self).settings(),
                workers@,
                healthy_indices@,
                model_id@,
                range,
                keys@,
            ),
            final(self)@ == after_load_decision(old(self)@, workers@, text_view(request_text), model_id@, decision),
    {
        let kv_threshold = self.config.kv_util_threshold;
        let chosen = match trees_get(&self.trees, normalize_model_key(model_id)) {
            Some(entry) => choose_smallest_tree(
                workers,
                healthy_indices,
                kv_threshold,
                Some(entry_tree(&entry)),
                keys,
            ),
            None => choose_smallest_tree(workers, healthy_indices, kv_threshold, None, keys),
        };
        proof {
            law_smallest_tree_is_candidate(
                workers@,
                healthy_indices@,
                kv_threshold,
                self@.get(model_key(model_id@)),
                keys@,
            );
        }
        self.settle(workers, request_text, model_id, chosen, range)
    }

    /// Routes a request to the least busy of the candidates. Chance decides among workers that are
    /// otherwise equal.
    pub fn select_worker_min_load(
        &mut self,
        workers: &[Worker],
        request_text: Option<&str>,
        healthy_indices: &Vec<usize>,
        model_id: &str,
        max_load: usize,
        min_load: usize,
    ) -> (decision: Decision)
        requires
            old(self).wf(),
            are_places(workers@, healthy_indices@),
        ensures
            final(self).wf(),
            final(self).settings() == old(self).settings(),
            exists|keys: Seq<u32>|
                keys.len() == workers@.len() && decision == #[trigger] load_decision(
                    old(self)@,
                    old(self).settings(),
                    workers@,
                    healthy_indices@,
                    model_id@,
                    (LoadRange { max_load, min_load }),
                    keys,
                ),
            final(self)@ == after_load_decision(old(self)@, workers@, text_view(request_text), model_id@, decision),
    {
        let keys = draw_keys(workers.len());
        self.select_worker_min_load_with_keys(
            workers,
            request_text,
            healthy_indices,
            model_id,
            max_load,
            min_load,
            &keys,
        )
    }

    /// How a request is routed.
    pub fn route(&self, workers: &[Worker], request_text: Option<&str>, relative: RelativeLoad) -> (route: Route)
        ensures
            route == route_of(self@, self.settings(), workers@, text_view(request_text), relative),
    {
        let healthy = get_healthy_worker_indices(workers);
        if healthy.len() == 0 {
            return Route::NoWorker;
        }
        if let Some(text) = request_text {
            if self.estimate_tokens(text) < self.config.small_request_token_threshold {
                return Route::ByLoad;
            }
        }
        let range = load_range(workers);
        if range.max_load.saturating_sub(range.min_load) > self.config.balance_abs_threshold
            && relative.scaled_min_load.is_less(relative.max_load) {
            return Route::ByLoad;
        }
        if self.has_tree_for_model(workers[healthy[0]].model_id.as_str()) {
            Route::ByCache
        } else {
            Route::AnyWorker
        }
    }

    /// Looks a text up in the tree under `key`, which must be there.
    fn look_up(&mut self, key: &str, text: &str) -> (lookup: CacheLookup)
        requires
            old(self).wf(),
            old(self)@.contains_key(key@),
        ensures
            final(self).wf(),
            final(self).settings() == old(self).settings(),
            is_lookup(old(self)@, key@, text@, lookup),
            final(self)@ == old(self)@.insert(key@, old(self)@[key@].look_up(text@, lookup.tenant@)),
    {
        let mut tree = match trees_remove(&mut self.trees, key) {
            Some(tree) => tree,
            None => Tree::new(),
        };
        let result = tree.prefix_match_with_counts(text);
        trees_insert(&mut self.trees, key.to_owned(), tree);
        assert(self@ =~= old(self)@.insert(key@, old(self)@[key@].look_up(text@, result.tenant@)));
        CacheLookup {
            model_key: key.to_owned(),
            tenant: result.tenant,
            matched_char_count: result.matched_char_count,
            input_char_count: result.input_char_count,
        }
    }

    /// Routes a request, as far as that is possible before its match rate is known. The keys, one
    /// for each worker, decide among workers that are otherwise equal; `pick` says which healthy
    /// worker gets a request that any of them may get.
    pub fn select_worker_with_draws(
        &mut self,
        workers: &[Worker],
        request_text: Option<&str>,
        relative: RelativeLoad,
        keys: &Vec<u32>,
        pick: usize,
    ) -> (selection: Selection)
        requires
            old(self).wf(),
            keys@.len() == workers@.len(),
            pick < healthy_indices(workers@).len() || healthy_indices(workers@).len() == 0,
        ensures
            final(self).wf(),
            final(self).settings() == old(self).settings(),
            is_selection(
                old(self)@,
                old(self).settings(),
                workers@,
                text_view(request_text),
                relative,
                keys@,
                pick,
                selection,
                final(self)@,
            ),
    {
        let route = self.route(workers, request_text, relative);
        let healthy = get_healthy_worker_indices(workers);
        if healthy.len() == 0 {
            return Selection::Decided(Decision { worker: None, processed: 0, load_range: None });
        }
        let model_id = normalize_model_key(workers[healthy[0]].model_id.as_str());
        match route {
            Route::ByLoad => {
                let range = load_range(workers);
                Selection::Decided(
                    self.select_worker_min_load_with_keys(
                        workers,
                        request_text,
                        &healthy,
                        model_id,
                        range.max_load,
                        range.min_load,
                        keys,
                    ),
                )
            },
            Route::ByCache => {
                proof {
                    reveal_strlit("");
                    assert(""@ =~= Seq::<char>::empty());
                }
                let text = match request_text {
                    Some(text) => text,
                    None => "",
                };
                Selection::NeedsMatchRate(self.look_up(model_id, text))
            },
            _ => Selection::Decided(Decision { worker: Some(healthy[pick]), processed: 1, load_range: None }),
        }
    }

    /// Routes a request, as far as that is possible before its match rate is known. Chance decides
    /// among workers that are otherwise equal.
    pub fn select_worker_with_headers(
        &mut self,
        workers: &[Worker],
        request_text: Option<&str>,
        relative: RelativeLoad,
    ) -> (selection: Selection)
        requires
            old(self).wf(),
        ensures
            final(self).wf(),
            final(self).settings() == old(self).settings(),
            exists|keys: Seq<u32>, pick: usize|
                keys.len() == workers@.len() && (pick < healthy_indices(workers@).len() || healthy_indices(workers@).len() == 0)
                    && #[trigger] is_selection(
                    old(self)@,
                    old(self).settings(),
                    workers@,
                    text_view(request_text),
                    relative,
                    keys,
                    pick,
                    selection,
                    final(self)@,
                ),
    {
        let keys = draw_keys(workers.len());
        let healthy_count: usize = get_healthy_worker_indices(workers).len();
        let pick: usize = if healthy_count > 0 {
            random_index(healthy_count)
        } else {
            0
        };
        self.select_worker_with_draws(workers, request_text, relative, &keys, pick)
    }

    /// The worker that may get a request because it has the request cached.
    fn find_cache_target(&self, workers: &[Worker], url: &String) -> (target: Option<usize>)
        ensures
            target == cache_target(self.settings(), workers@, url@),
    {
        let found = find_by_url(workers, url);
        let target = match found {
            Some(place) => {
                let worker = &workers[place];
                if worker.healthy && worker.kv_util.is_less(self.config.kv_util_threshold) && worker.load
                    < self.config.balance_abs_threshold {
                    Some(place)
                } else {
                    None
                }
            },
            None => None,
        };
        proof {
            let config = self.settings();
            assert forall|i: usize| is_cache_target(config, workers@, url@, i) implies found == Some(i) by {
                if let Some(place) = found {
                    if place < i {
                        assert(workers@[place as int].url@ != url@);
                    }
                    if i < place {
                        assert(workers@[i as int].url@ != url@);
                    }
                } else {
                    assert(workers@[i as int].url@ != url@);
                }
            }
            if let Some(place) = target {
                assert(is_cache_target(config, workers@, url@, place));
            }
        }
        target
    }

    /// Routes a request whose match rate is known. The keys, one for each worker, decide among
    /// workers that are otherwise equal.
    pub fn select_worker_by_match_rate_with_keys(
        &mut self,
        workers: &[Worker],
        request_text: Option<&str>,
        lookup: &CacheLookup,
        match_rate: F32Bits,
        keys: &Vec<u32>,
    ) -> (decision: Decision)
        requires
            old(self).wf(),
            keys@.len() == workers@.len(),
        ensures
            final(self).wf(),
            final(self).settings() == old(self).settings(),
            decision == rate_decision(old(self)@, old(self).settings(), workers@, *lookup, match_rate, keys@),
            final(self)@ == after_rate_decision(
                old(self)@,
                old(self).settings(),
                workers@,
                text_view(request_text),
                *lookup,
                match_rate,
                decision,
            ),
    {
        let healthy = get_healthy_worker_indices(workers);
        let hit = self.config.cache_threshold.is_less(match_rate);
        let target = if hit {
            self.find_cache_target(workers, &lookup.tenant)
        } else {
            None
        };
        let mut decision = Decision { worker: target, processed: 0, load_range: None };
        if target.is_none() {
            let range = load_range(workers);
            let model_id = lookup.model_key.as_str();
            let ghost kv_threshold = self.settings().kv_util_threshold;
            let ghost tree = self@.get(model_key(model_id@));
            decision =
            if hit {
                self.select_worker_min_load_with_keys(
                    workers,
                    request_text,
                    &healthy,
                    model_id,
                    range.max_load,
                    range.min_load,
                    keys,
                )
            } else {
                self.select_smallest_tree_with_keys(workers, request_text, &healthy, model_id, range, keys)
            };
            proof {
                law_least_busy_is_candidate(workers@, healthy@, kv_threshold, tree, keys@);
                law_smallest_tree_is_candidate(workers@, healthy@, kv_threshold, tree, keys@);
            }
        }
        match decision.worker {
            Some(place) => {
                proof {
                    reveal_strlit("");
                    assert(""@ =~= Seq::<char>::empty());
                }
                let text = match request_text {
                    Some(text) => text,
                    None => "",
                };
                self.record_text(lookup.model_key.as_str(), text, workers[place].url.as_str());
                Decision {
                    worker: decision.worker,
                    processed: decision.processed + 1,
                    load_range: decision.load_range,
                }
            },
            None => {
                if hit {
                    self.forget_tenant(lookup.model_key.as_str(), lookup.tenant.as_str());
                }
                decision
            },
        }
    }

    /// Routes a request whose match rate is known. Chance decides among workers that are otherwise
    /// equal.
    pub fn select_worker_by_match_rate(
        &mut self,
        workers: &[Worker],
        request_text: Option<&str>,
        lookup: &CacheLookup,
        match_rate: F32Bits,
    ) -> (decision: Decision)
        requires
            old(self).wf(),
        ensures
            final(self).wf(),
            final(self).settings() == old(self).settings(),
            exists|keys: Seq<u32>|
                keys.len() == workers@.len() && decision == #[trigger] rate_decision(
                    old(self)@,
                    old(self).settings(),
                    workers@,
                    *lookup,
                    match_rate,
                    keys,
                ),
            final(self)@ == after_rate_decision(
                old(self)@,
                old(self).settings(),
                workers@,
                text_view(request_text),
                *lookup,
                match_rate,
                decision,
            ),
    {
        let keys = draw_keys(workers.len());
        self.select_worker_by_match_rate_with_keys(workers, request_text, lookup, match_rate, &keys)
    }
}

impl CacheAwarePolicy {
    /// Routes a request to a worker that prefills it and a healthy one with the least load that
    /// decodes it, as far as that is possible before the match rate is known. Chance decides among
    /// prefill workers that are otherwise equal.
    pub fn select_worker_pair_with_headers(
        &mut self,
        prefill_workers: &[Worker],
        decode_workers: &[Worker],
        request_text: Option<&str>,
        relative: RelativeLoad,
    ) -> (selection: PairSelection)
        requires
            old(self).wf(),
        ensures
            final(self).wf(),
            final(self).settings() == old(self).settings(),
            exists|keys: Seq<u32>, pick: usize, prefill: Selection|
                keys.len() == prefill_workers@.len() && (pick < healthy_indices(prefill_workers@).len() || healthy_indices(
                    prefill_workers@,
                ).len() == 0) && #[trigger] is_selection(
                    old(self)@,
                    old(self).settings(),
                    prefill_workers@,
                    text_view(request_text),
                    relative,
                    keys,
                    pick,
                    prefill,
                    final(self)@,
                ) && selection == pair_selection(prefill, decode_workers@),
    {
        match self.select_worker_with_headers(prefill_workers, request_text, relative) {
            Selection::Decided(prefill) => PairSelection::Decided(
                PairDecision { pair: join_decode_worker(prefill.worker, decode_workers), prefill },
            ),
            Selection::NeedsMatchRate(lookup) => PairSelection::NeedsMatchRate(lookup),
        }
    }

    /// Routes a request whose match rate is known to a worker that prefills it and a healthy one
    /// with the least load that decodes it. Chance decides among prefill workers that are otherwise
    /// equal.
    pub fn select_worker_pair_by_match_rate(
        &mut self,
        prefill_workers: &[Worker],
        decode_workers: &[Worker],
        request_text: Option<&str>,
        lookup: &CacheLookup,
        match_rate: F32Bits,
    ) -> (decision: PairDecision)
        requires
            old(self).wf(),
        ensures
            final(self).wf(),
            final(self).settings() == old(self).settings(),
            decision == pair_decision(decision.prefill, decode_workers@),
            exists|keys: Seq<u32>|
                keys.len() == prefill_workers@.len() && decision.prefill == #[trigger] rate_decision(
                    old(self)@,
                    old(self).settings(),
                    prefill_workers@,
                    *lookup,
                    match_rate,
                    keys,
                ),
            final(self)@ == after_rate_decision(
                old(self)@,
                old(self).settings(),
                prefill_workers@,
                text_view(request_text),
                *lookup,
                match_rate,
                decision.prefill,
            ),
    {
        let prefill = self.select_worker_by_match_rate(prefill_workers, request_text, lookup, match_rate);
        PairDecision { pair: join_decode_worker(prefill.worker, decode_workers), prefill }
    }
}

/// Joins a decode worker to the worker that prefills a request: the healthy one with the least load.
pub fn join_decode_worker(prefill: Option<usize>, decode_workers: &[Worker]) -> (pair: Option<(usize, usize)>)
    ensures
        pair == pair_of(prefill, decode_workers@),
{
    let healthy = get_healthy_worker_indices(decode_workers);
    match (prefill, least_loaded(decode_workers, &healthy)) {
        (Some(prefill), Some(decode)) => Some((prefill, decode)),
        _ => None,
    }
}

impl Default for CacheAwarePolicy {
    fn default() -> (policy: CacheAwarePolicy)
        ensures
            policy.wf(),
            policy.settings() == CacheAwareConfig::standard(),
            (policy@ == Trees::empty()),
    {
        Self::new()
    }
}

} // verus!
