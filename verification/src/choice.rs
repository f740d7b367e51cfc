//! The choice of the least busy worker.

use vstd::prelude::*;

use crate::float_order::F32Bits;
use crate::tree::{Tree, TreeModel};
use crate::worker::{are_places, lemma_filter, lemma_filter_step, Worker};

verus! {

/// The candidate that stays when the candidates are met one after the other, and a later one takes
/// the place of the one kept so far only if it comes before it.
pub open spec fn least(candidates: Seq<usize>, before: spec_fn(usize, usize) -> bool) -> usize
    decreases candidates.len(),
{
    if candidates.len() <= 1 {
        candidates[0]
    } else if before(candidates.last(), least(candidates.drop_last(), before)) {
        candidates.last()
    } else {
        least(candidates.drop_last(), before)
    }
}

/// Whether a relation orders the candidates, some of which may be level with others.
pub open spec fn is_order(candidates: Seq<usize>, before: spec_fn(usize, usize) -> bool) -> bool {
    &&& forall|a: usize| candidates.contains(a) ==> !(#[trigger] before(a, a))
    &&& forall|a: usize, b: usize, c: usize|
        candidates.contains(a) && candidates.contains(b) && candidates.contains(c) && (#[trigger] before(a, b)
            && #[trigger] before(b, c)) ==> before(a, c)
    &&& forall|a: usize, b: usize, c: usize|
        candidates.contains(a) && candidates.contains(b) && candidates.contains(c) && !(#[trigger] before(a, b))
            && !(#[trigger] before(b, c)) ==> !before(a, c)
}

/// The least of some candidates is one of them.
pub proof fn law_least_is_candidate(candidates: Seq<usize>, before: spec_fn(usize, usize) -> bool)
    requires
        candidates.len() > 0,
    ensures
        candidates.contains(least(candidates, before)),
    decreases candidates.len(),
{
    if candidates.len() > 1 {
        let rest = candidates.drop_last();
        law_least_is_candidate(rest, before);
        let k = choose|k: int| 0 <= k < rest.len() && rest[k] == least(rest, before);
        assert(candidates[k] == least(rest, before));
        assert(candidates[candidates.len() - 1] == candidates.last());
    } else {
        assert(candidates[0] == least(candidates, before));
    }
}

/// Where the candidates are ordered, none of them comes before the least.
pub proof fn law_none_before_least(candidates: Seq<usize>, before: spec_fn(usize, usize) -> bool)
    requires
        candidates.len() > 0,
        is_order(candidates, before),
    ensures
        forall|a: usize| candidates.contains(a) ==> !(#[trigger] before(a, least(candidates, before))),
    decreases candidates.len(),
{
    let chosen = least(candidates, before);
    law_least_is_candidate(candidates, before);
    if candidates.len() > 1 {
        let rest = candidates.drop_last();
        let last = candidates.last();
        assert forall|a: usize| #[trigger] rest.contains(a) implies candidates.contains(a) by {
            let k = choose|k: int| 0 <= k < rest.len() && rest[k] == a;
            assert(candidates[k] == a);
        }
        assert(is_order(rest, before));
        law_none_before_least(rest, before);
        law_least_is_candidate(rest, before);
        let kept = least(rest, before);
        assert(candidates[candidates.len() - 1] == last);
        assert(candidates.contains(kept));
        assert forall|a: usize| candidates.contains(a) implies !(#[trigger] before(a, chosen)) by {
            let k = choose|k: int| 0 <= k < candidates.len() && candidates[k] == a;
            if k < rest.len() {
                assert(rest[k] == a);
                assert(rest.contains(a));
                assert(!before(a, kept));
                if before(last, kept) {
                    if before(a, last) {
                        assert(before(a, kept));
                    }
                }
            } else {
                assert(a == last);
                assert(!before(last, last));
            }
        }
    } else {
        assert forall|a: usize| candidates.contains(a) implies !(#[trigger] before(a, chosen)) by {
            assert(a == candidates[0]);
        }
    }
}

/// How many characters a worker holds of a tree, if there is one.
pub open spec fn size_in(tree: Option<TreeModel>, url: Seq<char>) -> usize {
    match tree {
        Some(tree) => tree.tenant_size(url),
        None => 0,
    }
}

/// The order by tree size. Among workers with equally much, the key decides.
pub open spec fn by_size(workers: Seq<Worker>, tree: Option<TreeModel>, keys: Seq<u32>) -> spec_fn(usize, usize) -> bool {
    |a: usize, b: usize|
        {
            let size_a = size_in(tree, workers[a as int].url@);
            let size_b = size_in(tree, workers[b as int].url@);
            size_a < size_b || (size_a == size_b && keys[a as int] < keys[b as int])
        }
}

/// The order by score. Among workers with scores that are equal or cannot be told apart, the load
/// decides, and then the key.
pub open spec fn by_score(workers: Seq<Worker>, keys: Seq<u32>) -> spec_fn(usize, usize) -> bool {
    |a: usize, b: usize|
        {
            let score_a = workers[a as int].score;
            let score_b = workers[b as int].score;
            let load_a = workers[a as int].load;
            let load_b = workers[b as int].load;
            score_a.less(score_b) || (!score_b.less(score_a) && (load_a < load_b || (load_a == load_b && keys[a as int]
                < keys[b as int])))
        }
}

/// The order by load.
pub open spec fn by_load(workers: Seq<Worker>) -> spec_fn(usize, usize) -> bool {
    |a: usize, b: usize| workers[a as int].load < workers[b as int].load
}

/// Whether the worker at `i` uses no more of its key-value cache than the threshold.
pub open spec fn is_within(workers: Seq<Worker>, kv_threshold: F32Bits) -> spec_fn(usize) -> bool {
    |i: usize| workers[i as int].kv_util.at_most(kv_threshold)
}

/// Whether the worker at `i` is idle and within the threshold.
pub open spec fn is_idle(workers: Seq<Worker>, kv_threshold: F32Bits) -> spec_fn(usize) -> bool {
    |i: usize| workers[i as int].load == 0 && workers[i as int].kv_util.at_most(kv_threshold)
}

/// The worker to which a request goes by load: the idle worker with the smallest tree; where none is
/// idle, the worker with the least score among those within the threshold; where none is within
/// it, the worker with the smallest tree.
pub open spec fn least_busy(
    workers: Seq<Worker>,
    candidates: Seq<usize>,
    kv_threshold: F32Bits,
    tree: Option<TreeModel>,
    keys: Seq<u32>,
) -> Option<usize> {
    let idle = candidates.filter(is_idle(workers, kv_threshold));
    let within = candidates.filter(is_within(workers, kv_threshold));
    if idle.len() > 0 {
        Some(least(idle, by_size(workers, tree, keys)))
    } else if within.len() > 0 {
        Some(least(within, by_score(workers, keys)))
    } else if candidates.len() > 0 {
        Some(least(candidates, by_size(workers, tree, keys)))
    } else {
        None
    }
}

/// The worker to which a request goes that is hardly cached anywhere: the one with the smallest tree
/// among those that are idle; where none is idle, among those within the threshold; where none is
/// within it, among all.
pub open spec fn smallest_tree(
    workers: Seq<Worker>,
    candidates: Seq<usize>,
    kv_threshold: F32Bits,
    tree: Option<TreeModel>,
    keys: Seq<u32>,
) -> Option<usize> {
    let idle = candidates.filter(is_idle(workers, kv_threshold));
    let within = candidates.filter(is_within(workers, kv_threshold));
    if idle.len() > 0 {
        Some(least(idle, by_size(workers, tree, keys)))
    } else if within.len() > 0 {
        Some(least(within, by_size(workers, tree, keys)))
    } else if candidates.len() > 0 {
        Some(least(candidates, by_size(workers, tree, keys)))
    } else {
        None
    }
}

/// The idle candidates, and the candidates within the threshold.
fn idle_and_within(workers: &[Worker], candidates: &Vec<usize>, kv_threshold: F32Bits) -> (pools: (Vec<usize>, Vec<usize>))
    requires
        are_places(workers@, candidates@),
    ensures
        pools.0@ == candidates@.filter(is_idle(workers@, kv_threshold)),
        pools.1@ == candidates@.filter(is_within(workers@, kv_threshold)),
        are_places(workers@, pools.0@),
        are_places(workers@, pools.1@),
{
    let mut idle: Vec<usize> = Vec::new();
    let mut within: Vec<usize> = Vec::new();
    let mut i: usize = 0;
    proof {
        reveal(Seq::filter);
        assert(candidates@.take(0) =~= Seq::<usize>::empty());
    }
    while i < candidates.len()
        invariant
            i <= candidates@.len(),
            are_places(workers@, candidates@),
            are_places(workers@, idle@),
            are_places(workers@, within@),
            idle@ == candidates@.take(i as int).filter(is_idle(workers@, kv_threshold)),
            within@ == candidates@.take(i as int).filter(is_within(workers@, kv_threshold)),
        decreases candidates@.len() - i,
    {
        proof {
            lemma_filter_step(candidates@, i as int, is_idle(workers@, kv_threshold));
            lemma_filter_step(candidates@, i as int, is_within(workers@, kv_threshold));
        }
        let place: usize = candidates[i];
        if workers[place].kv_util.is_at_most(kv_threshold) {
            within.push(place);
            if workers[place].load == 0 {
                idle.push(place);
            }
        }
        i += 1;
    }
    assert(candidates@.take(i as int) =~= candidates@);
    (idle, within)
}

/// What a tree, if there is one, stands for.
pub open spec fn tree_view(tree: Option<&Tree>) -> Option<TreeModel> {
    match tree {
        Some(tree) => Some(tree@),
        None => None,
    }
}

/// How many characters a worker holds of a tree, if there is one.
fn size_of(tree: Option<&Tree>, url: &String) -> (size: usize)
    requires
        tree is Some ==> tree->0.wf(),
    ensures
        size == size_in(tree_view(tree), url@),
{
    match tree {
        Some(tree) => tree.tenant_size(url.as_str()),
        None => 0,
    }
}

/// The candidate with the smallest tree.
fn smallest(workers: &[Worker], candidates: &Vec<usize>, tree: Option<&Tree>, keys: &Vec<u32>) -> (chosen: usize)
    requires
        candidates@.len() > 0,
        are_places(workers@, candidates@),
        keys@.len() == workers@.len(),
        tree is Some ==> tree->0.wf(),
    ensures
        chosen == least(candidates@, by_size(workers@, tree_view(tree), keys@)),
{
    let ghost before = by_size(workers@, tree_view(tree), keys@);
    let mut chosen: usize = candidates[0];
    let mut size: usize = size_of(tree, &workers[chosen].url);
    let mut i: usize = 1;
    while i < candidates.len()
        invariant
            1 <= i <= candidates@.len(),
            are_places(workers@, candidates@),
            keys@.len() == workers@.len(),
            tree is Some ==> tree->0.wf(),
            before == by_size(workers@, tree_view(tree), keys@),
            chosen == least(candidates@.take(i as int), before),
            chosen < workers@.len(),
            size == size_in(tree_view(tree), workers@[chosen as int].url@),
        decreases candidates@.len() - i,
    {
        let place: usize = candidates[i];
        let place_size: usize = size_of(tree, &workers[place].url);
        assert(candidates@.take(i + 1).drop_last() =~= candidates@.take(i as int));
        if place_size < size || (place_size == size && keys[place] < keys[chosen]) {
            chosen = place;
            size = place_size;
        }
        i += 1;
    }
    assert(candidates@.take(i as int) =~= candidates@);
    chosen
}

/// The candidate with the least score.
fn best_scored(workers: &[Worker], candidates: &Vec<usize>, keys: &Vec<u32>) -> (chosen: usize)
    requires
        candidates@.len() > 0,
        are_places(workers@, candidates@),
        keys@.len() == workers@.len(),
    ensures
        chosen == least(candidates@, by_score(workers@, keys@)),
{
    let ghost before = by_score(workers@, keys@);
    let mut chosen: usize = candidates[0];
    let mut i: usize = 1;
    while i < candidates.len()
        invariant
            1 <= i <= candidates@.len(),
            are_places(workers@, candidates@),
            keys@.len() == workers@.len(),
            before == by_score(workers@, keys@),
            chosen == least(candidates@.take(i as int), before),
            chosen < workers@.len(),
        decreases candidates@.len() - i,
    {
        let place: usize = candidates[i];
        let score = workers[place].score;
        let chosen_score = workers[chosen].score;
        let load: usize = workers[place].load;
        let chosen_load: usize = workers[chosen].load;
        assert(candidates@.take(i + 1).drop_last() =~= candidates@.take(i as int));
        if score.is_less(chosen_score) || (!chosen_score.is_less(score) && (load < chosen_load || (load == chosen_load
            && keys[place] < keys[chosen]))) {
            chosen = place;
        }
        i += 1;
    }
    assert(candidates@.take(i as int) =~= candidates@);
    chosen
}

/// The first candidate with the least load, if there are candidates.
pub fn least_loaded(workers: &[Worker], candidates: &Vec<usize>) -> (chosen: Option<usize>)
    requires
        are_places(workers@, candidates@),
    ensures
        chosen == (if candidates@.len() == 0 {
            None
        } else {
            Some(least(candidates@, by_load(workers@)))
        }),
{
    if candidates.len() == 0 {
        return None;
    }
    let ghost before = by_load(workers@);
    let mut chosen: usize = candidates[0];
    let mut i: usize = 1;
    while i < candidates.len()
        invariant
            1 <= i <= candidates@.len(),
            are_places(workers@, candidates@),
            before == by_load(workers@),
            chosen == least(candidates@.take(i as int), before),
            chosen < workers@.len(),
        decreases candidates@.len() - i,
    {
        let place: usize = candidates[i];
        assert(candidates@.take(i + 1).drop_last() =~= candidates@.take(i as int));
        if workers[place].load < workers[chosen].load {
            chosen = place;
        }
        i += 1;
    }
    assert(candidates@.take(i as int) =~= candidates@);
    Some(chosen)
}

/// The candidate to which a request goes by load. The keys, one for each worker, decide among
/// candidates that are otherwise equal.
pub fn choose_least_busy(
    workers: &[Worker],
    candidates: &Vec<usize>,
    kv_threshold: F32Bits,
    tree: Option<&Tree>,
    keys: &Vec<u32>,
) -> (chosen: Option<usize>)
    requires
        are_places(workers@, candidates@),
        keys@.len() == workers@.len(),
        tree is Some ==> tree->0.wf(),
    ensures
        chosen == least_busy(workers@, candidates@, kv_threshold, tree_view(tree), keys@),
{
    let (idle, within) = idle_and_within(workers, candidates, kv_threshold);
    if idle.len() > 0 {
        Some(smallest(workers, &idle, tree, keys))
    } else if within.len() > 0 {
        Some(best_scored(workers, &within, keys))
    } else if candidates.len() > 0 {
        Some(smallest(workers, candidates, tree, keys))
    } else {
        None
    }
}

/// The candidate to which a request goes that is hardly cached anywhere. The keys, one for each
/// worker, decide among candidates that are otherwise equal.
pub fn choose_smallest_tree(
    workers: &[Worker],
    candidates: &Vec<usize>,
    kv_threshold: F32Bits,
    tree: Option<&Tree>,
    keys: &Vec<u32>,
) -> (chosen: Option<usize>)
    requires
        are_places(workers@, candidates@),
        keys@.len() == workers@.len(),
        tree is Some ==> tree->0.wf(),
    ensures
        chosen == smallest_tree(workers@, candidates@, kv_threshold, tree_view(tree), keys@),
{
    let (idle, within) = idle_and_within(workers, candidates, kv_threshold);
    if idle.len() > 0 {
        Some(smallest(workers, &idle, tree, keys))
    } else if within.len() > 0 {
        Some(smallest(workers, &within, tree, keys))
    } else if candidates.len() > 0 {
        Some(smallest(workers, candidates, tree, keys))
    } else {
        None
    }
}

/// A request that is hardly cached anywhere goes to one of the candidates, and it goes nowhere only
/// where there are none.
pub proof fn law_smallest_tree_is_candidate(
    workers: Seq<Worker>,
    candidates: Seq<usize>,
    kv_threshold: F32Bits,
    tree: Option<TreeModel>,
    keys: Seq<u32>,
)
    ensures
        match smallest_tree(workers, candidates, kv_threshold, tree, keys) {
            Some(chosen) => candidates.contains(chosen),
            None => candidates.len() == 0,
        },
{
    let idle = candidates.filter(is_idle(workers, kv_threshold));
    let within = candidates.filter(is_within(workers, kv_threshold));
    let before = by_size(workers, tree, keys);
    lemma_filter(candidates, is_idle(workers, kv_threshold));
    lemma_filter(candidates, is_within(workers, kv_threshold));
    if idle.len() > 0 {
        law_least_is_candidate(idle, before);
    } else if within.len() > 0 {
        law_least_is_candidate(within, before);
    } else if candidates.len() > 0 {
        law_least_is_candidate(candidates, before);
    }
}

/// Where no candidate within the threshold is idle, a request that is hardly cached anywhere goes to
/// a candidate within the threshold, and no other one of them has a smaller tree.
pub proof fn law_smallest_tree_within(
    workers: Seq<Worker>,
    candidates: Seq<usize>,
    kv_threshold: F32Bits,
    tree: Option<TreeModel>,
    keys: Seq<u32>,
    within: usize,
)
    requires
        forall|i: usize|
            #[trigger] candidates.contains(i) && workers[i as int].kv_util.at_most(kv_threshold) ==> workers[i as int].load > 0,
        candidates.contains(within),
        workers[within as int].kv_util.at_most(kv_threshold),
    ensures
        smallest_tree(workers, candidates, kv_threshold, tree, keys) matches Some(chosen) && {
            &&& candidates.contains(chosen)
            &&& workers[chosen as int].kv_util.at_most(kv_threshold)
            &&& size_in(tree, workers[chosen as int].url@) <= size_in(tree, workers[within as int].url@)
        },
{
    let idle = candidates.filter(is_idle(workers, kv_threshold));
    let pool = candidates.filter(is_within(workers, kv_threshold));
    lemma_filter(candidates, is_idle(workers, kv_threshold));
    lemma_filter(candidates, is_within(workers, kv_threshold));
    if idle.len() > 0 {
        assert(idle.contains(idle[0]));
        assert(candidates.contains(idle[0]));
    }
    assert(pool.contains(within));
    assert(pool.len() > 0);
    let before = by_size(workers, tree, keys);
    law_least_is_candidate(pool, before);
    assert(is_order(pool, before));
    law_none_before_least(pool, before);
    assert(!before(within, least(pool, before)));
}

/// A request goes to one of the candidates, and it goes nowhere only where there are none.
pub proof fn law_least_busy_is_candidate(
    workers: Seq<Worker>,
    candidates: Seq<usize>,
    kv_threshold: F32Bits,
    tree: Option<TreeModel>,
    keys: Seq<u32>,
)
    ensures
        match least_busy(workers, candidates, kv_threshold, tree, keys) {
            Some(chosen) => candidates.contains(chosen),
            None => candidates.len() == 0,
        },
{
    let idle = candidates.filter(is_idle(workers, kv_threshold));
    let within = candidates.filter(is_within(workers, kv_threshold));
    lemma_filter(candidates, is_idle(workers, kv_threshold));
    lemma_filter(candidates, is_within(workers, kv_threshold));
    if idle.len() > 0 {
        law_least_is_candidate(idle, by_size(workers, tree, keys));
    } else if within.len() > 0 {
        law_least_is_candidate(within, by_score(workers, keys));
    } else if candidates.len() > 0 {
        law_least_is_candidate(candidates, by_size(workers, tree, keys));
    }
}

/// Where some candidate is idle and within the threshold, the request goes to such a candidate, and
/// no other one of them has a smaller tree.
pub proof fn law_idle_workers_first(
    workers: Seq<Worker>,
    candidates: Seq<usize>,
    kv_threshold: F32Bits,
    tree: Option<TreeModel>,
    keys: Seq<u32>,
    idle: usize,
)
    requires
        candidates.contains(idle),
        workers[idle as int].load == 0,
        workers[idle as int].kv_util.at_most(kv_threshold),
    ensures
        least_busy(workers, candidates, kv_threshold, tree, keys) matches Some(chosen) && {
            &&& candidates.contains(chosen)
            &&& workers[chosen as int].load == 0
            &&& workers[chosen as int].kv_util.at_most(kv_threshold)
            &&& size_in(tree, workers[chosen as int].url@) <= size_in(tree, workers[idle as int].url@)
        },
{
    let pool = candidates.filter(is_idle(workers, kv_threshold));
    lemma_filter(candidates, is_idle(workers, kv_threshold));
    assert(pool.contains(idle));
    assert(pool.len() > 0);
    let before = by_size(workers, tree, keys);
    law_least_is_candidate(pool, before);
    assert(is_order(pool, before));
    law_none_before_least(pool, before);
    assert(!before(idle, least(pool, before)));
}

/// Where some candidate uses no more of its key-value cache than the threshold, no candidate that
/// uses more gets the request.
pub proof fn law_crowded_workers_excluded(
    workers: Seq<Worker>,
    candidates: Seq<usize>,
    kv_threshold: F32Bits,
    tree: Option<TreeModel>,
    keys: Seq<u32>,
    within: usize,
)
    requires
        candidates.contains(within),
        workers[within as int].kv_util.at_most(kv_threshold),
    ensures
        least_busy(workers, candidates, kv_threshold, tree, keys) matches Some(chosen)
            && workers[chosen as int].kv_util.at_most(kv_threshold),
{
    let idle = candidates.filter(is_idle(workers, kv_threshold));
    let pool = candidates.filter(is_within(workers, kv_threshold));
    lemma_filter(candidates, is_idle(workers, kv_threshold));
    lemma_filter(candidates, is_within(workers, kv_threshold));
    assert(pool.contains(within));
    assert(pool.len() > 0);
    law_least_is_candidate(pool, by_score(workers, keys));
    if idle.len() > 0 {
        law_least_is_candidate(idle, by_size(workers, tree, keys));
        assert(idle.contains(least(idle, by_size(workers, tree, keys))));
    }
}

/// Where the candidates within the threshold are all busy and have numbers for scores, none of them
/// has a lower score than the one that gets the request, and none with the same score has a lower
/// load.
pub proof fn law_best_score(
    workers: Seq<Worker>,
    candidates: Seq<usize>,
    kv_threshold: F32Bits,
    tree: Option<TreeModel>,
    keys: Seq<u32>,
    within: usize,
)
    requires
        forall|i: usize|
            #[trigger] candidates.contains(i) && workers[i as int].kv_util.at_most(kv_threshold) ==> workers[i as int].load > 0
                && !workers[i as int].score.is_nan(),
        candidates.contains(within),
        workers[within as int].kv_util.at_most(kv_threshold),
    ensures
        least_busy(workers, candidates, kv_threshold, tree, keys) matches Some(chosen) && {
            &&& workers[chosen as int].score.at_most(workers[within as int].score)
            &&& workers[within as int].score.at_most(workers[chosen as int].score) ==> workers[chosen as int].load
                <= workers[within as int].load
        },
{
    let idle = candidates.filter(is_idle(workers, kv_threshold));
    let pool = candidates.filter(is_within(workers, kv_threshold));
    lemma_filter(candidates, is_idle(workers, kv_threshold));
    lemma_filter(candidates, is_within(workers, kv_threshold));
    if idle.len() > 0 {
        assert(idle.contains(idle[0]));
        assert(candidates.contains(idle[0]));
    }
    assert(pool.contains(within));
    assert(pool.len() > 0);
    let before = by_score(workers, keys);
    law_least_is_candidate(pool, before);
    assert(forall|i: usize| #[trigger] pool.contains(i) ==> candidates.contains(i));
    assert(is_order(pool, before));
    law_none_before_least(pool, before);
    assert(!before(within, least(pool, before)));
}

/// Where the scores of the candidates within the threshold are numbers that do not fall as the load
/// rises, as when all use equally much of their key-value cache, none of them has a lower load than
/// the one that gets the request.
pub proof fn law_shortest_queue(
    workers: Seq<Worker>,
    candidates: Seq<usize>,
    kv_threshold: F32Bits,
    tree: Option<TreeModel>,
    keys: Seq<u32>,
    within: usize,
)
    requires
        forall|i: usize|
            #[trigger] candidates.contains(i) && workers[i as int].kv_util.at_most(kv_threshold)
                ==> !workers[i as int].score.is_nan(),
        forall|i: usize, j: usize|
            #[trigger] candidates.contains(i) && #[trigger] candidates.contains(j) && workers[i as int].kv_util.at_most(
                kv_threshold,
            ) && workers[j as int].kv_util.at_most(kv_threshold) && workers[i as int].load < workers[j as int].load
                ==> workers[i as int].score.at_most(workers[j as int].score),
        candidates.contains(within),
        workers[within as int].kv_util.at_most(kv_threshold),
    ensures
        least_busy(workers, candidates, kv_threshold, tree, keys) matches Some(chosen) && workers[chosen as int].load
            <= workers[within as int].load,
{
    law_least_busy_is_candidate(workers, candidates, kv_threshold, tree, keys);
    law_crowded_workers_excluded(workers, candidates, kv_threshold, tree, keys, within);
    if exists|i: usize|
        #[trigger] candidates.contains(i) && workers[i as int].kv_util.at_most(kv_threshold) && workers[i as int].load == 0 {
        let idle = choose|i: usize|
            #[trigger] candidates.contains(i) && workers[i as int].kv_util.at_most(kv_threshold) && workers[i as int].load == 0;
        law_idle_workers_first(workers, candidates, kv_threshold, tree, keys, idle);
    } else {
        law_best_score(workers, candidates, kv_threshold, tree, keys, within);
    }
}

/// Where every candidate uses more of its key-value cache than the threshold, the request goes to a
/// candidate with the smallest tree.
pub proof fn law_all_crowded(
    workers: Seq<Worker>,
    candidates: Seq<usize>,
    kv_threshold: F32Bits,
    tree: Option<TreeModel>,
    keys: Seq<u32>,
    other: usize,
)
    requires
        forall|i: usize| #[trigger] candidates.contains(i) ==> !workers[i as int].kv_util.at_most(kv_threshold),
        candidates.contains(other),
    ensures
        least_busy(workers, candidates, kv_threshold, tree, keys) matches Some(chosen) && candidates.contains(chosen)
            && size_in(tree, workers[chosen as int].url@) <= size_in(tree, workers[other as int].url@),
{
    let idle = candidates.filter(is_idle(workers, kv_threshold));
    let within = candidates.filter(is_within(workers, kv_threshold));
    lemma_filter(candidates, is_idle(workers, kv_threshold));
    lemma_filter(candidates, is_within(workers, kv_threshold));
    if idle.len() > 0 {
        assert(idle.contains(idle[0]));
        assert(candidates.contains(idle[0]));
    }
    if within.len() > 0 {
        assert(within.contains(within[0]));
        assert(candidates.contains(within[0]));
    }
    let before = by_size(workers, tree, keys);
    law_least_is_candidate(candidates, before);
    assert(is_order(candidates, before));
    law_none_before_least(candidates, before);
    assert(!before(other, least(candidates, before)));
}

/// Where the candidates are ordered, the least one is the first of those that are level with it: it
/// comes before every candidate that stands earlier.
pub proof fn law_least_is_first(candidates: Seq<usize>, before: spec_fn(usize, usize) -> bool, place: int, earlier: int)
    requires
        is_order(candidates, before),
        0 <= earlier < place < candidates.len(),
        forall|j: int| 0 <= j < place ==> candidates[j] != #[trigger] candidates[place],
        candidates[place] == least(candidates, before),
    ensures
        before(candidates[place], candidates[earlier]),
    decreases candidates.len(),
{
    let rest = candidates.drop_last();
    let last = candidates.last();
    assert forall|a: usize| #[trigger] rest.contains(a) implies candidates.contains(a) by {
        let k = choose|k: int| 0 <= k < rest.len() && rest[k] == a;
        assert(candidates[k] == a);
    }
    assert(is_order(rest, before));
    law_none_before_least(rest, before);
    law_least_is_candidate(rest, before);
    let kept = least(rest, before);
    assert(candidates[candidates.len() - 1] == last);
    assert(candidates.contains(last));
    if before(last, kept) {
        assert(rest[earlier] == candidates[earlier]);
        assert(rest.contains(candidates[earlier]));
        assert(!before(candidates[earlier], kept));
        if place < rest.len() {
            assert(rest[place] == last);
            assert(rest.contains(last));
            assert(!before(last, kept));
        }
        if !before(last, candidates[earlier]) {
            assert(!before(last, kept));
        }
    } else {
        if place == candidates.len() - 1 {
            let k = choose|k: int| 0 <= k < rest.len() && rest[k] == kept;
            assert(candidates[k] == candidates[place]);
        } else {
            assert forall|j: int| 0 <= j < place implies rest[j] != #[trigger] rest[place] by {
                assert(candidates[j] != candidates[place]);
            }
            law_least_is_first(rest, before, place, earlier);
        }
    }
}

/// Where some candidate is idle and within the threshold, a request that is hardly cached anywhere
/// goes to such a candidate. No other one of them holds less of the tree, and none that holds as much
/// has a lower key.
pub proof fn law_smallest_tree_idle_first(
    workers: Seq<Worker>,
    candidates: Seq<usize>,
    kv_threshold: F32Bits,
    tree: TreeModel,
    keys: Seq<u32>,
    idle: usize,
)
    requires
        candidates.contains(idle),
        workers[idle as int].load == 0,
        workers[idle as int].kv_util.at_most(kv_threshold),
    ensures
        smallest_tree(workers, candidates, kv_threshold, Some(tree), keys) matches Some(chosen) && {
            &&& candidates.contains(chosen)
            &&& workers[chosen as int].load == 0
            &&& workers[chosen as int].kv_util.at_most(kv_threshold)
            &&& tree.tenant_size(workers[chosen as int].url@) <= tree.tenant_size(workers[idle as int].url@)
            &&& tree.tenant_size(workers[chosen as int].url@) == tree.tenant_size(workers[idle as int].url@)
                ==> keys[chosen as int] <= keys[idle as int]
        },
{
    let pool = candidates.filter(is_idle(workers, kv_threshold));
    lemma_filter(candidates, is_idle(workers, kv_threshold));
    assert(pool.contains(idle));
    assert(pool.len() > 0);
    let before = by_size(workers, Some(tree), keys);
    law_least_is_candidate(pool, before);
    assert(is_order(pool, before));
    law_none_before_least(pool, before);
    assert(!before(idle, least(pool, before)));
}

/// Where no candidate within the threshold is idle, a request that is hardly cached anywhere goes to a
/// candidate within the threshold. No other one of them holds less of the tree, and none that holds
/// as much has a lower key.
pub proof fn law_smallest_tree_within_by_size(
    workers: Seq<Worker>,
    candidates: Seq<usize>,
    kv_threshold: F32Bits,
    tree: TreeModel,
    keys: Seq<u32>,
    within: usize,
)
    requires
        forall|i: usize|
            #[trigger] candidates.contains(i) && workers[i as int].kv_util.at_most(kv_threshold) ==> workers[i as int].load > 0,
        candidates.contains(within),
        workers[within as int].kv_util.at_most(kv_threshold),
    ensures
        smallest_tree(workers, candidates, kv_threshold, Some(tree), keys) matches Some(chosen) && {
            &&& candidates.contains(chosen)
            &&& workers[chosen as int].kv_util.at_most(kv_threshold)
            &&& tree.tenant_size(workers[chosen as int].url@) <= tree.tenant_size(workers[within as int].url@)
            &&& tree.tenant_size(workers[chosen as int].url@) == tree.tenant_size(workers[within as int].url@)
                ==> keys[chosen as int] <= keys[within as int]
        },
{
    let idle = candidates.filter(is_idle(workers, kv_threshold));
    let pool = candidates.filter(is_within(workers, kv_threshold));
    lemma_filter(candidates, is_idle(workers, kv_threshold));
    lemma_filter(candidates, is_within(workers, kv_threshold));
    if idle.len() > 0 {
        assert(idle.contains(idle[0]));
        assert(candidates.contains(idle[0]));
    }
    assert(pool.contains(within));
    assert(pool.len() > 0);
    let before = by_size(workers, Some(tree), keys);
    law_least_is_candidate(pool, before);
    assert(is_order(pool, before));
    law_none_before_least(pool, before);
    assert(!before(within, least(pool, before)));
}

/// Where every candidate uses more of its key-value cache than the threshold, a request goes to a
/// candidate with the smallest tree, whether it goes by load or is hardly cached anywhere. None that
/// holds as much has a lower key.
pub proof fn law_all_crowded_by_size(
    workers: Seq<Worker>,
    candidates: Seq<usize>,
    kv_threshold: F32Bits,
    tree: TreeModel,
    keys: Seq<u32>,
    other: usize,
)
    requires
        forall|i: usize| #[trigger] candidates.contains(i) ==> !workers[i as int].kv_util.at_most(kv_threshold),
        candidates.contains(other),
    ensures
        least_busy(workers, candidates, kv_threshold, Some(tree), keys) == smallest_tree(
            workers,
            candidates,
            kv_threshold,
            Some(tree),
            keys,
        ),
        least_busy(workers, candidates, kv_threshold, Some(tree), keys) matches Some(chosen) && {
            &&& candidates.contains(chosen)
            &&& tree.tenant_size(workers[chosen as int].url@) <= tree.tenant_size(workers[other as int].url@)
            &&& tree.tenant_size(workers[chosen as int].url@) == tree.tenant_size(workers[other as int].url@)
                ==> keys[chosen as int] <= keys[other as int]
        },
{
    let idle = candidates.filter(is_idle(workers, kv_threshold));
    let within = candidates.filter(is_within(workers, kv_threshold));
    lemma_filter(candidates, is_idle(workers, kv_threshold));
    lemma_filter(candidates, is_within(workers, kv_threshold));
    if idle.len() > 0 {
        assert(idle.contains(idle[0]));
        assert(candidates.contains(idle[0]));
    }
    if within.len() > 0 {
        assert(within.contains(within[0]));
        assert(candidates.contains(within[0]));
    }
    let before = by_size(workers, Some(tree), keys);
    law_least_is_candidate(candidates, before);
    assert(is_order(candidates, before));
    law_none_before_least(candidates, before);
    assert(!before(other, least(candidates, before)));
}

/// Where some candidate is idle and within the threshold, a request that goes by load goes to such a
/// candidate. No other one of them holds less of the tree, and none that holds as much has a lower
/// key.
pub proof fn law_least_busy_idle_by_size(
    workers: Seq<Worker>,
    candidates: Seq<usize>,
    kv_threshold: F32Bits,
    tree: TreeModel,
    keys: Seq<u32>,
    idle: usize,
)
    requires
        candidates.contains(idle),
        workers[idle as int].load == 0,
        workers[idle as int].kv_util.at_most(kv_threshold),
    ensures
        least_busy(workers, candidates, kv_threshold, Some(tree), keys) matches Some(chosen) && {
            &&& candidates.contains(chosen)
            &&& workers[chosen as int].load == 0
            &&& workers[chosen as int].kv_util.at_most(kv_threshold)
            &&& tree.tenant_size(workers[chosen as int].url@) <= tree.tenant_size(workers[idle as int].url@)
            &&& tree.tenant_size(workers[chosen as int].url@) == tree.tenant_size(workers[idle as int].url@)
                ==> keys[chosen as int] <= keys[idle as int]
        },
{
    let pool = candidates.filter(is_idle(workers, kv_threshold));
    lemma_filter(candidates, is_idle(workers, kv_threshold));
    assert(pool.contains(idle));
    assert(pool.len() > 0);
    let before = by_size(workers, Some(tree), keys);
    law_least_is_candidate(pool, before);
    assert(is_order(pool, before));
    law_none_before_least(pool, before);
    assert(!before(idle, least(pool, before)));
}

/// Where there is no tree, the key alone decides among the idle candidates within the threshold, and
/// where all candidates are above it, among all.
pub proof fn law_keys_decide_without_a_tree(
    workers: Seq<Worker>,
    candidates: Seq<usize>,
    kv_threshold: F32Bits,
    keys: Seq<u32>,
    other: usize,
)
    requires
        candidates.contains(other),
        (workers[other as int].load == 0 && workers[other as int].kv_util.at_most(kv_threshold)) || (forall|i: usize|
            #[trigger] candidates.contains(i) ==> !workers[i as int].kv_util.at_most(kv_threshold)),
    ensures
        least_busy(workers, candidates, kv_threshold, None, keys) matches Some(chosen) && keys[chosen as int]
            <= keys[other as int],
        smallest_tree(workers, candidates, kv_threshold, None, keys) matches Some(chosen) && keys[chosen as int]
            <= keys[other as int],
{
    let idle = candidates.filter(is_idle(workers, kv_threshold));
    let within = candidates.filter(is_within(workers, kv_threshold));
    lemma_filter(candidates, is_idle(workers, kv_threshold));
    lemma_filter(candidates, is_within(workers, kv_threshold));
    let before = by_size(workers, None, keys);
    if workers[other as int].load == 0 && workers[other as int].kv_util.at_most(kv_threshold) {
        assert(idle.contains(other));
        assert(idle.len() > 0);
        law_least_is_candidate(idle, before);
        assert(is_order(idle, before));
        law_none_before_least(idle, before);
        assert(!before(other, least(idle, before)));
    } else {
        if idle.len() > 0 {
            assert(idle.contains(idle[0]));
            assert(candidates.contains(idle[0]));
        }
        if within.len() > 0 {
            assert(within.contains(within[0]));
            assert(candidates.contains(within[0]));
        }
        law_least_is_candidate(candidates, before);
        assert(is_order(candidates, before));
        law_none_before_least(candidates, before);
        assert(!before(other, least(candidates, before)));
    }
}

/// Where the candidates within the threshold are all busy and have numbers for scores, none of them
/// with the same score and the same load as the one that gets the request has a lower key.
pub proof fn law_keys_break_ties_of_score(
    workers: Seq<Worker>,
    candidates: Seq<usize>,
    kv_threshold: F32Bits,
    tree: Option<TreeModel>,
    keys: Seq<u32>,
    within: usize,
)
    requires
        forall|i: usize|
            #[trigger] candidates.contains(i) && workers[i as int].kv_util.at_most(kv_threshold) ==> workers[i as int].load > 0
                && !workers[i as int].score.is_nan(),
        candidates.contains(within),
        workers[within as int].kv_util.at_most(kv_threshold),
    ensures
        least_busy(workers, candidates, kv_threshold, tree, keys) matches Some(chosen) && (workers[chosen as int].load
            == workers[within as int].load && workers[within as int].score.at_most(workers[chosen as int].score)
            ==> keys[chosen as int] <= keys[within as int]),
{
    let idle = candidates.filter(is_idle(workers, kv_threshold));
    let pool = candidates.filter(is_within(workers, kv_threshold));
    lemma_filter(candidates, is_idle(workers, kv_threshold));
    lemma_filter(candidates, is_within(workers, kv_threshold));
    if idle.len() > 0 {
        assert(idle.contains(idle[0]));
        assert(candidates.contains(idle[0]));
    }
    assert(pool.contains(within));
    assert(pool.len() > 0);
    let before = by_score(workers, keys);
    law_least_is_candidate(pool, before);
    assert(forall|i: usize| #[trigger] pool.contains(i) ==> candidates.contains(i));
    assert(is_order(pool, before));
    law_none_before_least(pool, before);
    assert(!before(within, least(pool, before)));
}

/// Where the candidates within the threshold are all busy, and none of their scores is a number, none of
/// them has a lower load than the one that gets the request, and none with the same load has a lower
/// key.
pub proof fn law_loads_decide_without_scores(
    workers: Seq<Worker>,
    candidates: Seq<usize>,
    kv_threshold: F32Bits,
    tree: Option<TreeModel>,
    keys: Seq<u32>,
    within: usize,
)
    requires
        forall|i: usize|
            #[trigger] candidates.contains(i) && workers[i as int].kv_util.at_most(kv_threshold) ==> workers[i as int].load > 0
                && workers[i as int].score.is_nan(),
        candidates.contains(within),
        workers[within as int].kv_util.at_most(kv_threshold),
    ensures
        least_busy(workers, candidates, kv_threshold, tree, keys) matches Some(chosen) && {
            &&& workers[chosen as int].load <= workers[within as int].load
            &&& workers[chosen as int].load == workers[within as int].load ==> keys[chosen as int] <= keys[within as int]
        },
{
    let idle = candidates.filter(is_idle(workers, kv_threshold));
    let pool = candidates.filter(is_within(workers, kv_threshold));
    lemma_filter(candidates, is_idle(workers, kv_threshold));
    lemma_filter(candidates, is_within(workers, kv_threshold));
    if idle.len() > 0 {
        assert(idle.contains(idle[0]));
        assert(candidates.contains(idle[0]));
    }
    assert(pool.contains(within));
    assert(pool.len() > 0);
    let before = by_score(workers, keys);
    law_least_is_candidate(pool, before);
    assert(forall|i: usize| #[trigger] pool.contains(i) ==> candidates.contains(i));
    assert(is_order(pool, before));
    law_none_before_least(pool, before);
    assert(!before(within, least(pool, before)));
}

} // verus!
