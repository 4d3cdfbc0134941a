//! From a profile to the samples of its flame graph: the stack traces of
//! the visible samples, each once with the number of its samples.

use crate::flame_graph::model::{Weighted, total_weight};
use crate::profile::{ExecutionSample, StackTrace, ThreadView};
use crate::timeline::sample_total;
use vstd::prelude::*;

verus! {

/// The keys of the visible samples of a timeline, in the order of the
/// samples.
pub open spec fn timeline_keys(samples: Seq<ExecutionSample>, visible: Set<(usize, i64, i64)>) -> Seq<
    (usize, i64, i64),
>
    decreases samples.len(),
{
    if samples.len() == 0 {
        Seq::empty()
    } else {
        let rest = timeline_keys(samples.drop_last(), visible);
        let key = samples.last().stack_trace_key.parts();
        if visible.contains(key) {
            rest.push(key)
        } else {
            rest
        }
    }
}

/// The keys of the visible samples of the listed threads: thread by
/// thread, in the order of the threads, the keys of its timeline.
pub open spec fn visible_sample_keys(
    threads: Seq<ThreadView>,
    samples: Map<i64, Vec<ExecutionSample>>,
    visible: Set<(usize, i64, i64)>,
) -> Seq<(usize, i64, i64)>
    decreases threads.len(),
{
    if threads.len() == 0 {
        Seq::empty()
    } else {
        let id = threads.last().os_thread_id;
        visible_sample_keys(threads.drop_last(), samples, visible) + if samples.contains_key(id) {
            timeline_keys(samples[id]@, visible)
        } else {
            Seq::empty()
        }
    }
}

/// The keys of a sequence without repetition, each at the place of its
/// first occurrence.
pub open spec fn first_seen(keys: Seq<(usize, i64, i64)>) -> Seq<(usize, i64, i64)>
    decreases keys.len(),
{
    if keys.len() == 0 {
        Seq::empty()
    } else if keys.drop_last().contains(keys.last()) {
        first_seen(keys.drop_last())
    } else {
        first_seen(keys.drop_last()).push(keys.last())
    }
}

/// How often a key occurs in a sequence.
pub open spec fn count_in(keys: Seq<(usize, i64, i64)>, key: (usize, i64, i64)) -> nat
    decreases keys.len(),
{
    if keys.len() == 0 {
        0
    } else {
        count_in(keys.drop_last(), key) + if keys.last() == key {
            1nat
        } else {
            0nat
        }
    }
}

/// The stack traces of the listed keys, each with the number of times
/// that its key occurs in `all`.
pub open spec fn weighted(
    order: Seq<(usize, i64, i64)>,
    all: Seq<(usize, i64, i64)>,
    pool: Map<(usize, i64, i64), StackTrace>,
) -> Seq<Weighted> {
    Seq::new(
        order.len(),
        |i: int| Weighted { frames: pool[order[i]]@, count: count_in(all, order[i]) },
    )
}

/// A timeline has no more visible samples than samples.
pub proof fn lemma_timeline_keys_len(samples: Seq<ExecutionSample>, visible: Set<(usize, i64, i64)>)
    ensures
        timeline_keys(samples, visible).len() <= samples.len(),
    decreases samples.len(),
{
    if samples.len() > 0 {
        lemma_timeline_keys_len(samples.drop_last(), visible);
    }
}

/// The keys of the first samples of a timeline are the first of its keys.
pub proof fn lemma_timeline_keys_step(
    samples: Seq<ExecutionSample>,
    visible: Set<(usize, i64, i64)>,
    j: int,
)
    requires
        0 <= j < samples.len(),
    ensures
        timeline_keys(samples.take(j + 1), visible) == if visible.contains(
            samples[j].stack_trace_key.parts(),
        ) {
            timeline_keys(samples.take(j), visible).push(samples[j].stack_trace_key.parts())
        } else {
            timeline_keys(samples.take(j), visible)
        },
{
    assert(samples.take(j + 1).drop_last() =~= samples.take(j));
}

/// The listed threads have no more visible samples than samples.
pub proof fn lemma_visible_sample_keys_len(
    threads: Seq<ThreadView>,
    samples: Map<i64, Vec<ExecutionSample>>,
    visible: Set<(usize, i64, i64)>,
)
    ensures
        visible_sample_keys(threads, samples, visible).len() <= sample_total(threads, samples),
    decreases threads.len(),
{
    if threads.len() > 0 {
        lemma_visible_sample_keys_len(threads.drop_last(), samples, visible);
        let id = threads.last().os_thread_id;
        if samples.contains_key(id) {
            lemma_timeline_keys_len(samples[id]@, visible);
        }
    }
}

/// The first threads of a list have no more samples than all of them.
pub proof fn lemma_total_of_prefix(
    threads: Seq<ThreadView>,
    samples: Map<i64, Vec<ExecutionSample>>,
    i: int,
)
    requires
        0 <= i <= threads.len(),
    ensures
        sample_total(threads.take(i), samples) <= sample_total(threads, samples),
    decreases threads.len(),
{
    if i < threads.len() {
        lemma_total_of_prefix(threads.drop_last(), samples, i);
        assert(threads.drop_last().take(i) =~= threads.take(i));
    } else {
        assert(threads.take(i) =~= threads);
    }
}

/// A key occurs in a sequence no more often than the sequence is long,
/// and at least once where the sequence holds it.
pub proof fn lemma_count_in_bounds(keys: Seq<(usize, i64, i64)>, key: (usize, i64, i64))
    ensures
        count_in(keys, key) <= keys.len(),
        keys.contains(key) <==> count_in(keys, key) > 0,
    decreases keys.len(),
{
    if keys.len() > 0 {
        lemma_count_in_bounds(keys.drop_last(), key);
        if keys.contains(key) {
            let i = choose|i: int| 0 <= i < keys.len() && keys[i] == key;
            if i < keys.len() - 1 {
                assert(keys.drop_last()[i] == key);
            }
        }
        if keys.drop_last().contains(key) {
            let i = choose|i: int| 0 <= i < keys.drop_last().len() && keys.drop_last()[i] == key;
            assert(keys[i] == key);
        }
        if keys.last() == key {
            assert(keys[keys.len() - 1] == key);
        }
    }
}

/// The keys without repetition are the keys of the sequence, each once.
pub proof fn lemma_first_seen(keys: Seq<(usize, i64, i64)>)
    ensures
        first_seen(keys).no_duplicates(),
        forall|k: (usize, i64, i64)| first_seen(keys).contains(k) <==> keys.contains(k),
    decreases keys.len(),
{
    if keys.len() > 0 {
        let head = keys.drop_last();
        let x = keys.last();
        lemma_first_seen(head);
        let f = first_seen(keys);
        let g = first_seen(head);
        assert forall|k: (usize, i64, i64)| f.contains(k) <==> keys.contains(k) by {
            if keys.contains(k) {
                let i = choose|i: int| 0 <= i < keys.len() && keys[i] == k;
                if i < keys.len() - 1 {
                    assert(head[i] == k);
                    assert(head.contains(k));
                    assert(g.contains(k));
                    let j = choose|j: int| 0 <= j < g.len() && g[j] == k;
                    assert(f[j] == k);
                } else if head.contains(x) {
                    assert(head.contains(k));
                    assert(g.contains(k));
                    let j = choose|j: int| 0 <= j < g.len() && g[j] == k;
                    assert(f[j] == k);
                } else {
                    assert(f[f.len() - 1] == k);
                }
            }
            if f.contains(k) {
                let j = choose|j: int| 0 <= j < f.len() && f[j] == k;
                if j < g.len() {
                    assert(g[j] == k);
                    assert(g.contains(k));
                    assert(head.contains(k));
                    let i = choose|i: int| 0 <= i < head.len() && head[i] == k;
                    assert(keys[i] == k);
                } else {
                    assert(keys[keys.len() - 1] == k);
                }
            }
        }
        if !head.contains(x) {
            assert forall|i: int, j: int| 0 <= i < f.len() && 0 <= j < f.len() && i != j implies f[i]
                != f[j] by {
                if i == g.len() {
                    assert(g[j] == f[j]);
                    assert(g.contains(f[j]));
                } else if j == g.len() {
                    assert(g[i] == f[i]);
                    assert(g.contains(f[i]));
                }
            }
        }
    }
}

/// The weight of the listed keys after one more occurrence of `x`: one
/// more where `x` is listed once, the same where it is not listed.
pub proof fn lemma_weight_after_push(
    order: Seq<(usize, i64, i64)>,
    all: Seq<(usize, i64, i64)>,
    pool: Map<(usize, i64, i64), StackTrace>,
    x: (usize, i64, i64),
)
    requires
        order.no_duplicates(),
    ensures
        total_weight(weighted(order, all.push(x), pool)) == total_weight(weighted(order, all, pool))
            + if order.contains(x) {
            1nat
        } else {
            0nat
        },
    decreases order.len(),
{
    let after = weighted(order, all.push(x), pool);
    let before = weighted(order, all, pool);
    assert(all.push(x).drop_last() =~= all);
    if order.len() > 0 {
        let head = order.drop_last();
        lemma_weight_after_push(head, all, pool, x);
        assert(after.drop_last() =~= weighted(head, all.push(x), pool));
        assert(before.drop_last() =~= weighted(head, all, pool));
        if order.last() == x {
            if head.contains(x) {
                let i = choose|i: int| 0 <= i < head.len() && head[i] == x;
                assert(order[i] == x && order[order.len() - 1] == x);
            }
            assert(order[order.len() - 1] == x);
        } else {
            if order.contains(x) {
                let i = choose|i: int| 0 <= i < order.len() && order[i] == x;
                assert(head[i] == x);
            }
            if head.contains(x) {
                let i = choose|i: int| 0 <= i < head.len() && head[i] == x;
                assert(order[i] == x);
            }
        }
    }
}

/// The keys of a sequence, each once with the number of its occurrences,
/// weigh as much as the sequence is long.
pub proof fn lemma_weight_is_length(
    all: Seq<(usize, i64, i64)>,
    pool: Map<(usize, i64, i64), StackTrace>,
)
    ensures
        total_weight(weighted(first_seen(all), all, pool)) == all.len(),
    decreases all.len(),
{
    if all.len() > 0 {
        let head = all.drop_last();
        let x = all.last();
        lemma_weight_is_length(head, pool);
        lemma_first_seen(head);
        lemma_count_in_bounds(head, x);
        assert(head.push(x) =~= all);
        lemma_weight_after_push(first_seen(head), head, pool, x);
        if !head.contains(x) {
            let w = weighted(first_seen(all), all, pool);
            assert(w.drop_last() =~= weighted(first_seen(head), all, pool));
            assert(w.last().count == 1);
        }
    } else {
        assert(weighted(first_seen(all), all, pool) =~= Seq::empty());
    }
}

/// The first of a sequence of weighted stack traces weigh no more than all
/// of them.
pub proof fn lemma_weight_of_prefix(samples: Seq<Weighted>, i: int)
    requires
        0 <= i <= samples.len(),
    ensures
        total_weight(samples.take(i)) <= total_weight(samples),
    decreases samples.len(),
{
    if i < samples.len() {
        lemma_weight_of_prefix(samples.drop_last(), i);
        assert(samples.drop_last().take(i) =~= samples.take(i));
    } else {
        assert(samples.take(i) =~= samples);
    }
}

/// Every key of a visible sample is visible.
pub proof fn lemma_timeline_keys_are_visible(
    samples: Seq<ExecutionSample>,
    visible: Set<(usize, i64, i64)>,
    key: (usize, i64, i64),
)
    requires
        timeline_keys(samples, visible).contains(key),
    ensures
        visible.contains(key),
    decreases samples.len(),
{
    let keys = timeline_keys(samples, visible);
    let i = choose|i: int| 0 <= i < keys.len() && keys[i] == key;
    if samples.len() > 0 {
        let rest = timeline_keys(samples.drop_last(), visible);
        if i < rest.len() {
            assert(rest[i] == key);
            lemma_timeline_keys_are_visible(samples.drop_last(), visible, key);
        }
    }
}

/// Every key of a visible sample of the listed threads is visible.
pub proof fn lemma_visible_keys_are_visible(
    threads: Seq<ThreadView>,
    samples: Map<i64, Vec<ExecutionSample>>,
    visible: Set<(usize, i64, i64)>,
    key: (usize, i64, i64),
)
    requires
        visible_sample_keys(threads, samples, visible).contains(key),
    ensures
        visible.contains(key),
    decreases threads.len(),
{
    let keys = visible_sample_keys(threads, samples, visible);
    let i = choose|i: int| 0 <= i < keys.len() && keys[i] == key;
    if threads.len() > 0 {
        let rest = visible_sample_keys(threads.drop_last(), samples, visible);
        let id = threads.last().os_thread_id;
        if i < rest.len() {
            assert(rest[i] == key);
            lemma_visible_keys_are_visible(threads.drop_last(), samples, visible, key);
        } else {
            let own = timeline_keys(samples[id]@, visible);
            assert(own[i - rest.len()] == key);
            lemma_timeline_keys_are_visible(samples[id]@, visible, key);
        }
    }
}

} // verus!
