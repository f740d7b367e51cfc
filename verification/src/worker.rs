//! Workers, as a routing decision sees them.

use vstd::prelude::*;

use crate::float_order::F32Bits;

verus! {

/// What a routing decision reads of a worker.
#[derive(Debug)]
pub struct Worker {
    /// Where the worker is reached. This is also its name in the prefix trees.
    pub url: String,
    /// The model that the worker serves.
    pub model_id: String,
    /// Whether the worker can take requests.
    pub healthy: bool,
    /// How many requests the worker is processing.
    pub load: usize,
    /// The share of its key-value cache that the worker uses.
    pub kv_util: F32Bits,
    /// The weighted sum of the cache utilization and the load: the less, the better.
    pub score: F32Bits,
}

/// The greatest and the least load of some workers.
#[derive(Clone, Copy, Debug, PartialEq, Eq, Structural)]
pub struct LoadRange {
    pub max_load: usize,
    pub min_load: usize,
}

/// Whether the worker at `i` is healthy.
pub open spec fn is_healthy(workers: Seq<Worker>) -> spec_fn(usize) -> bool {
    |i: usize| workers[i as int].healthy
}

/// The numbers below `n`, in order.
pub open spec fn numbers(n: nat) -> Seq<usize> {
    Seq::new(n, |i: int| i as usize)
}

/// The places of the healthy workers, in order.
pub open spec fn healthy_indices(workers: Seq<Worker>) -> Seq<usize> {
    numbers(workers.len()).filter(is_healthy(workers))
}

/// Whether all these are places of workers.
pub open spec fn are_places(workers: Seq<Worker>, indices: Seq<usize>) -> bool {
    forall|j: int| 0 <= j < indices.len() ==> (#[trigger] indices[j]) < workers.len()
}

/// One more number looked at: a filter keeps it or drops it.
pub proof fn lemma_filter_step(s: Seq<usize>, n: int, keep: spec_fn(usize) -> bool)
    requires
        0 <= n < s.len(),
    ensures
        s.take(n + 1).filter(keep) == (if keep(s[n]) {
            s.take(n).filter(keep).push(s[n])
        } else {
            s.take(n).filter(keep)
        }),
{
    reveal(Seq::filter);
    assert(s.take(n + 1).drop_last() =~= s.take(n));
}

/// A filter keeps exactly what it should.
pub proof fn lemma_filter(s: Seq<usize>, keep: spec_fn(usize) -> bool)
    ensures
        forall|i: usize| #[trigger] s.filter(keep).contains(i) <==> s.contains(i) && keep(i),
    decreases s.len(),
{
    reveal(Seq::filter);
    if s.len() > 0 {
        let rest = s.drop_last();
        lemma_filter(rest, keep);
        assert forall|i: usize| #[trigger] s.filter(keep).contains(i) <==> s.contains(i) && keep(i) by {
            assert(s =~= rest.push(s.last()));
            if s.contains(i) {
                let k = choose|k: int| 0 <= k < s.len() && s[k] == i;
                if k < rest.len() {
                    assert(rest[k] == i);
                    assert(rest.contains(i));
                }
            }
            if rest.contains(i) {
                let k = choose|k: int| 0 <= k < rest.len() && rest[k] == i;
                assert(s[k] == i);
            }
            assert(s[s.len() - 1] == s.last());
            if keep(s.last()) {
                let kept = rest.filter(keep);
                assert(s.filter(keep) == kept.push(s.last()));
                if kept.contains(i) {
                    let k = choose|k: int| 0 <= k < kept.len() && kept[k] == i;
                    assert(kept.push(s.last())[k] == i);
                }
                assert(kept.push(s.last())[kept.len() as int] == s.last());
                if s.filter(keep).contains(i) {
                    let k = choose|k: int| 0 <= k < s.filter(keep).len() && s.filter(keep)[k] == i;
                    if k < kept.len() {
                        assert(kept[k] == i);
                    }
                }
            }
        }
    }
}

/// The healthy places are the places of healthy workers.
pub proof fn lemma_healthy_indices(workers: Seq<Worker>)
    requires
        workers.len() <= usize::MAX,
    ensures
        forall|i: usize| #[trigger] healthy_indices(workers).contains(i) <==> i < workers.len() && workers[i as int].healthy,
        are_places(workers, healthy_indices(workers)),
{
    let all = numbers(workers.len());
    lemma_filter(all, is_healthy(workers));
    assert forall|i: usize| i < workers.len() implies #[trigger] all.contains(i) by {
        assert(all[i as int] == i);
    }
    assert forall|j: int| 0 <= j < healthy_indices(workers).len() implies (#[trigger] healthy_indices(workers)[j])
        < workers.len() by {
        assert(healthy_indices(workers).contains(healthy_indices(workers)[j]));
    }
}

/// The places of the healthy workers, in order.
pub fn get_healthy_worker_indices(workers: &[Worker]) -> (indices: Vec<usize>)
    ensures
        indices@ == healthy_indices(workers@),
        are_places(workers@, indices@),
{
    let mut indices: Vec<usize> = Vec::new();
    let ghost all = numbers(workers@.len());
    let mut i: usize = 0;
    proof {
        reveal(Seq::filter);
        assert(all.take(0) =~= Seq::<usize>::empty());
    }
    while i < workers.len()
        invariant
            i <= workers@.len(),
            all == numbers(workers@.len()),
            workers@.len() == workers.len(),
            indices@ == all.take(i as int).filter(is_healthy(workers@)),
        decreases workers@.len() - i,
    {
        proof {
            lemma_filter_step(all, i as int, is_healthy(workers@));
        }
        if workers[i].healthy {
            indices.push(i);
        }
        i += 1;
    }
    proof {
        assert(all.take(i as int) =~= all);
        lemma_healthy_indices(workers@);
    }
    indices
}

/// The greatest load of the workers, or 0.
pub open spec fn greatest_load(workers: Seq<Worker>) -> usize
    decreases workers.len(),
{
    if workers.len() == 0 {
        0
    } else if workers.last().load > greatest_load(workers.drop_last()) {
        workers.last().load
    } else {
        greatest_load(workers.drop_last())
    }
}

/// The least load of the workers, or the greatest `usize`.
pub open spec fn least_load(workers: Seq<Worker>) -> usize
    decreases workers.len(),
{
    if workers.len() == 0 {
        usize::MAX
    } else if workers.last().load < least_load(workers.drop_last()) {
        workers.last().load
    } else {
        least_load(workers.drop_last())
    }
}

/// The range of the workers' loads. A least load of `usize::MAX` is read as 0.
pub open spec fn load_range_of(workers: Seq<Worker>) -> LoadRange {
    LoadRange {
        max_load: greatest_load(workers),
        min_load: if least_load(workers) == usize::MAX {
            0
        } else {
            least_load(workers)
        },
    }
}

/// The range of the loads of all workers, healthy or not.
pub fn load_range(workers: &[Worker]) -> (range: LoadRange)
    ensures
        range == load_range_of(workers@),
{
    let mut max_load: usize = 0;
    let mut min_load: usize = usize::MAX;
    let mut i: usize = 0;
    assert(workers@.take(0).len() == 0);
    while i < workers.len()
        invariant
            i <= workers@.len(),
            workers@.len() == workers.len(),
            max_load == greatest_load(workers@.take(i as int)),
            min_load == least_load(workers@.take(i as int)),
        decreases workers@.len() - i,
    {
        assert(workers@.take(i + 1).drop_last() =~= workers@.take(i as int));
        let load = workers[i].load;
        if load > max_load {
            max_load = load;
        }
        if load < min_load {
            min_load = load;
        }
        i += 1;
    }
    assert(workers@.take(i as int) =~= workers@);
    LoadRange {
        max_load,
        min_load: if min_load == usize::MAX {
            0
        } else {
            min_load
        },
    }
}

/// The least and the greatest load bound every load, and some worker has each of them.
proof fn lemma_load_bounds(workers: Seq<Worker>)
    ensures
        forall|i: int|
            0 <= i < workers.len() ==> least_load(workers) <= (#[trigger] workers[i]).load <= greatest_load(workers),
        workers.len() > 0 ==> exists|i: int| 0 <= i < workers.len() && (#[trigger] workers[i]).load == greatest_load(workers),
        workers.len() > 0 ==> exists|i: int| 0 <= i < workers.len() && (#[trigger] workers[i]).load == least_load(workers),
    decreases workers.len(),
{
    if workers.len() > 0 {
        let rest = workers.drop_last();
        lemma_load_bounds(rest);
        assert(workers[workers.len() - 1] == workers.last());
        assert forall|i: int| 0 <= i < workers.len() implies least_load(workers) <= (#[trigger] workers[i]).load
            <= greatest_load(workers) by {
            if i < rest.len() {
                assert(workers[i] == rest[i]);
            }
        }
        if rest.len() > 0 {
            let i = choose|i: int| 0 <= i < rest.len() && (#[trigger] rest[i]).load == greatest_load(rest);
            let j = choose|j: int| 0 <= j < rest.len() && (#[trigger] rest[j]).load == least_load(rest);
            assert(workers[i].load == greatest_load(rest));
            assert(workers[j].load == least_load(rest));
        }
    }
}

/// The load range bounds every load. The upper end of it is the load of some worker, and so is the
/// lower end, unless every load is `usize::MAX`.
pub proof fn law_load_range(workers: Seq<Worker>)
    ensures
        forall|i: int|
            0 <= i < workers.len() ==> load_range_of(workers).min_load <= (#[trigger] workers[i]).load
                <= load_range_of(workers).max_load,
        workers.len() > 0 ==> exists|i: int|
            0 <= i < workers.len() && (#[trigger] workers[i]).load == load_range_of(workers).max_load,
        (exists|i: int| 0 <= i < workers.len() && (#[trigger] workers[i]).load < usize::MAX) ==> exists|i: int|
            0 <= i < workers.len() && (#[trigger] workers[i]).load == load_range_of(workers).min_load,
{
    lemma_load_bounds(workers);
}

/// Whether the worker at `i` is the first one with this address.
pub open spec fn is_first_at(workers: Seq<Worker>, url: Seq<char>, i: usize) -> bool {
    &&& i < workers.len()
    &&& workers[i as int].url@ == url
    &&& forall|j: int| 0 <= j < i ==> (#[trigger] workers[j]).url@ != url
}

/// The place of the first worker with this address.
pub fn find_by_url(workers: &[Worker], url: &String) -> (found: Option<usize>)
    ensures
        match found {
            Some(i) => is_first_at(workers@, url@, i),
            None => forall|j: int| 0 <= j < workers@.len() ==> (#[trigger] workers@[j]).url@ != url@,
        },
{
    let mut i: usize = 0;
    while i < workers.len()
        invariant
            i <= workers@.len(),
            workers@.len() == workers.len(),
            forall|j: int| 0 <= j < i ==> (#[trigger] workers@[j]).url@ != url@,
        decreases workers@.len() - i,
    {
        if workers[i].url == *url {
            return Some(i);
        }
        i += 1;
    }
    None
}

/// What is kept by a filter is in the order that it was in.
proof fn lemma_filter_increasing(s: Seq<usize>, keep: spec_fn(usize) -> bool)
    requires
        forall|i: int, j: int| 0 <= i < j < s.len() ==> (#[trigger] s[i]) < (#[trigger] s[j]),
    ensures
        forall|i: int, j: int|
            0 <= i < j < s.filter(keep).len() ==> (#[trigger] s.filter(keep)[i]) < (#[trigger] s.filter(keep)[j]),
    decreases s.len(),
{
    reveal(Seq::filter);
    if s.len() > 0 {
        let rest = s.drop_last();
        let kept = rest.filter(keep);
        lemma_filter_increasing(rest, keep);
        lemma_filter(rest, keep);
        if keep(s.last()) {
            assert(s.filter(keep) == kept.push(s.last()));
            assert forall|i: int| 0 <= i < kept.len() implies (#[trigger] kept[i]) < s.last() by {
                assert(kept.contains(kept[i]));
                let k = choose|k: int| 0 <= k < rest.len() && rest[k] == kept[i];
                assert(s[k] == kept[i]);
                assert(s[s.len() - 1] == s.last());
            }
        }
    }
}

/// The healthy places are those of healthy workers, all of them, each once and in order.
pub proof fn law_healthy_places(workers: Seq<Worker>)
    requires
        workers.len() <= usize::MAX,
    ensures
        forall|j: int|
            0 <= j < healthy_indices(workers).len() ==> (#[trigger] healthy_indices(workers)[j]) < workers.len()
                && workers[healthy_indices(workers)[j] as int].healthy,
        forall|i: usize|
            i < workers.len() && (#[trigger] workers[i as int]).healthy ==> exists|j: int|
                0 <= j < healthy_indices(workers).len() && (#[trigger] healthy_indices(workers)[j]) == i,
        forall|j: int, k: int|
            0 <= j < k < healthy_indices(workers).len() ==> (#[trigger] healthy_indices(workers)[j]) < (
            #[trigger] healthy_indices(workers)[k]),
{
    let healthy = healthy_indices(workers);
    lemma_healthy_indices(workers);
    lemma_filter_increasing(numbers(workers.len()), is_healthy(workers));
    assert forall|j: int| 0 <= j < healthy.len() implies (#[trigger] healthy[j]) < workers.len()
        && workers[healthy[j] as int].healthy by {
        assert(healthy.contains(healthy[j]));
    }
    assert forall|i: usize| i < workers.len() && (#[trigger] workers[i as int]).healthy implies exists|j: int|
        0 <= j < healthy.len() && (#[trigger] healthy[j]) == i by {
        assert(healthy.contains(i));
    }
}

} // verus!
