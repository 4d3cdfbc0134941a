//! Threads and their timelines: what it means for them to be in order,
//! how many samples they hold, and the sorts that put them in order.

use crate::profile::{ExecutionSample, OffCpu, Thread, ThreadView};
use crate::text::text_lt;
use vstd::prelude::*;

verus! {

/// The threads of a list as plain values.
pub open spec fn thread_views(threads: Seq<Thread>) -> Seq<ThreadView> {
    Seq::new(threads.len(), |i: int| threads[i]@)
}

/// Whether a thread with the given id is among the threads.
pub open spec fn has_thread_id(threads: Seq<ThreadView>, id: i64) -> bool {
    exists|i: int| 0 <= i < threads.len() && (#[trigger] threads[i]).os_thread_id == id
}

/// Whether no two threads of the list share an id.
pub open spec fn distinct_ids(threads: Seq<ThreadView>) -> bool {
    forall|i: int, j: int|
        0 <= i < j < threads.len() ==> (#[trigger] threads[i]).os_thread_id != (
        #[trigger] threads[j]).os_thread_id
}

/// Whether the threads stand in ascending order of name.
pub open spec fn sorted_by_name(threads: Seq<ThreadView>) -> bool {
    forall|i: int, j: int|
        0 <= i < j < threads.len() ==> !text_lt((#[trigger] threads[j]).name, (
        #[trigger] threads[i]).name)
}

/// Whether the samples stand in ascending order of time.
pub open spec fn sorted_by_time(samples: Seq<ExecutionSample>) -> bool {
    forall|i: int, j: int|
        0 <= i < j < samples.len() ==> (#[trigger] samples[i]).timestamp_nanos <= (
        #[trigger] samples[j]).timestamp_nanos
}

/// Whether the off-CPU samples stand in ascending order of time.
pub open spec fn sorted_by_start(samples: Seq<OffCpu>) -> bool {
    forall|i: int, j: int|
        0 <= i < j < samples.len() ==> (#[trigger] samples[i]).timestamp <= (
        #[trigger] samples[j]).timestamp
}

/// The samples taken at the given time, in their order.
pub open spec fn at_time(samples: Seq<ExecutionSample>, t: i64) -> Seq<ExecutionSample> {
    samples.filter(|s: ExecutionSample| s.timestamp_nanos == t)
}

/// The off-CPU samples that start at the given time, in their order.
pub open spec fn at_start(samples: Seq<OffCpu>, t: i64) -> Seq<OffCpu> {
    samples.filter(|s: OffCpu| s.timestamp == t)
}

/// The threads of the given name, in their order.
pub open spec fn named(threads: Seq<ThreadView>, name: Seq<char>) -> Seq<ThreadView> {
    threads.filter(|t: ThreadView| t.name == name)
}

/// `Vec::sort_by_key` by the time of the sample: afterwards the vector
/// holds the same samples in ascending order of time, and samples of one
/// time stand in the order in which they stood before.
#[verifier::external_body]
pub(crate) fn sort_by_time(samples: &mut Vec<ExecutionSample>)
    ensures
        final(samples)@.len() == old(samples)@.len(),
        final(samples)@.to_multiset() == old(samples)@.to_multiset(),
        sorted_by_time(final(samples)@),
        forall|t: i64| #[trigger] at_time(final(samples)@, t) == at_time(old(samples)@, t),
{
    samples.sort_by_key(|s| s.timestamp_nanos)
}

/// `Vec::sort_by_key` by the start of the sample: afterwards the vector
/// holds the same samples in ascending order of start, and samples of one
/// start stand in the order in which they stood before.
#[verifier::external_body]
pub(crate) fn sort_by_start(samples: &mut Vec<OffCpu>)
    ensures
        final(samples)@.len() == old(samples)@.len(),
        final(samples)@.to_multiset() == old(samples)@.to_multiset(),
        sorted_by_start(final(samples)@),
        forall|t: i64| #[trigger] at_start(final(samples)@, t) == at_start(old(samples)@, t),
{
    samples.sort_by_key(|s| s.timestamp)
}

/// `Vec::sort_by` with the order of the names: afterwards the vector holds
/// the same threads in ascending order of name, and threads of one name
/// stand in the order in which they stood before.
#[verifier::external_body]
pub(crate) fn sort_by_name(threads: &mut Vec<Thread>)
    ensures
        final(threads)@.len() == old(threads)@.len(),
        thread_views(final(threads)@).to_multiset() == thread_views(old(threads)@).to_multiset(),
        sorted_by_name(thread_views(final(threads)@)),
        forall|name: Seq<char>| #[trigger]
            named(thread_views(final(threads)@), name) == named(thread_views(old(threads)@), name),
{
    threads.sort_by(|a, b| a.name.cmp(&b.name))
}

/// The number of samples in the timeline of a thread, 0 where the thread
/// has none.
pub open spec fn timeline_len<S>(samples: Map<i64, Vec<S>>, id: i64) -> nat {
    if samples.contains_key(id) {
        samples[id]@.len()
    } else {
        0
    }
}

/// The number of samples in the timelines of the listed threads.
pub open spec fn sample_total<S>(threads: Seq<ThreadView>, samples: Map<i64, Vec<S>>) -> nat
    decreases threads.len(),
{
    if threads.len() == 0 {
        0
    } else {
        sample_total(threads.drop_last(), samples) + timeline_len(
            samples,
            threads.last().os_thread_id,
        )
    }
}

/// The total does not change where no listed thread's timeline changes
/// its length.
pub proof fn lemma_total_unchanged<S>(
    threads: Seq<ThreadView>,
    before: Map<i64, Vec<S>>,
    after: Map<i64, Vec<S>>,
)
    requires
        forall|i: int|
            0 <= i < threads.len() ==> timeline_len(before, (#[trigger] threads[i]).os_thread_id)
                == timeline_len(after, threads[i].os_thread_id),
    ensures
        sample_total(threads, before) == sample_total(threads, after),
    decreases threads.len(),
{
    if threads.len() > 0 {
        let head = threads.drop_last();
        assert forall|i: int| 0 <= i < head.len() implies timeline_len(
            before,
            (#[trigger] head[i]).os_thread_id,
        ) == timeline_len(after, head[i].os_thread_id) by {
            assert(head[i] == threads[i]);
        }
        lemma_total_unchanged(head, before, after);
        assert(threads.last() == threads[threads.len() - 1]);
    }
}

/// A sample more in the timeline of one listed thread is a sample more
/// in the total.
pub proof fn lemma_total_grows<S>(
    threads: Seq<ThreadView>,
    before: Map<i64, Vec<S>>,
    after: Map<i64, Vec<S>>,
    id: i64,
    more: nat,
)
    requires
        distinct_ids(threads),
        has_thread_id(threads, id),
        timeline_len(after, id) == timeline_len(before, id) + more,
        forall|other: i64| other != id ==> timeline_len(before, other) == timeline_len(after, other),
    ensures
        sample_total(threads, after) == sample_total(threads, before) + more,
    decreases threads.len(),
{
    let k = choose|k: int| 0 <= k < threads.len() && (#[trigger] threads[k]).os_thread_id == id;
    let head = threads.drop_last();
    assert(threads.last() == threads[threads.len() - 1]);
    assert forall|i: int, j: int| 0 <= i < j < head.len() implies (#[trigger] head[i]).os_thread_id
        != (#[trigger] head[j]).os_thread_id by {
        assert(head[i] == threads[i]);
        assert(head[j] == threads[j]);
    }
    if threads.last().os_thread_id == id {
        assert forall|i: int| 0 <= i < head.len() implies timeline_len(
            before,
            (#[trigger] head[i]).os_thread_id,
        ) == timeline_len(after, head[i].os_thread_id) by {
            assert(head[i] == threads[i]);
        }
        lemma_total_unchanged(head, before, after);
    } else {
        assert(head[k] == threads[k]);
        lemma_total_grows(head, before, after, id, more);
    }
}

/// A thread without samples adds nothing to the total.
pub proof fn lemma_total_push<S>(threads: Seq<ThreadView>, samples: Map<i64, Vec<S>>, t: ThreadView)
    ensures
        sample_total(threads.push(t), samples) == sample_total(threads, samples) + timeline_len(
            samples,
            t.os_thread_id,
        ),
{
    assert(threads.push(t).drop_last() =~= threads);
}

/// Every item of a sequence is an item of each sequence that holds the same
/// items as often.
pub proof fn lemma_same_items<T>(a: Seq<T>, b: Seq<T>, i: int)
    requires
        a.to_multiset() == b.to_multiset(),
        0 <= i < a.len(),
    ensures
        b.contains(a[i]),
{
    broadcast use vstd::seq_lib::group_to_multiset_ensures;

    assert(a.contains(a[i]));
    assert(a.to_multiset().count(a[i]) > 0);
}

/// Threads in another order still have distinct ids, and the same ids.
pub proof fn lemma_reordered_threads(a: Seq<ThreadView>, b: Seq<ThreadView>)
    requires
        a.to_multiset() == b.to_multiset(),
        distinct_ids(a),
    ensures
        distinct_ids(b),
        forall|id: i64| has_thread_id(a, id) <==> has_thread_id(b, id),
{
    broadcast use vstd::seq_lib::group_to_multiset_ensures;

    assert(a.no_duplicates());
    a.lemma_multiset_has_no_duplicates();
    b.lemma_multiset_has_no_duplicates_conv();
    assert forall|i: int, j: int| 0 <= i < j < b.len() implies (#[trigger] b[i]).os_thread_id != (
    #[trigger] b[j]).os_thread_id by {
        lemma_same_items(b, a, i);
        lemma_same_items(b, a, j);
        let x = choose|x: int| 0 <= x < a.len() && a[x] == b[i];
        let y = choose|y: int| 0 <= y < a.len() && a[y] == b[j];
        assert(b[i] != b[j]);
        assert(x != y);
    }
    assert forall|id: i64| has_thread_id(a, id) <==> has_thread_id(b, id) by {
        if has_thread_id(a, id) {
            let k = choose|k: int| 0 <= k < a.len() && (#[trigger] a[k]).os_thread_id == id;
            lemma_same_items(a, b, k);
            let x = choose|x: int| 0 <= x < b.len() && b[x] == a[k];
            assert(b[x].os_thread_id == id);
        }
        if has_thread_id(b, id) {
            let k = choose|k: int| 0 <= k < b.len() && (#[trigger] b[k]).os_thread_id == id;
            lemma_same_items(b, a, k);
            let x = choose|x: int| 0 <= x < a.len() && a[x] == b[k];
            assert(a[x].os_thread_id == id);
        }
    }
}

/// The total as a fold over the threads.
pub open spec fn total_fold<S>(threads: Seq<ThreadView>, samples: Map<i64, Vec<S>>) -> nat {
    threads.fold_left(
        0nat,
        |sum: nat, t: ThreadView| sum + timeline_len(samples, t.os_thread_id),
    )
}

/// The total is that fold.
pub proof fn lemma_total_is_fold<S>(threads: Seq<ThreadView>, samples: Map<i64, Vec<S>>)
    ensures
        sample_total(threads, samples) == total_fold(threads, samples),
    decreases threads.len(),
{
    if threads.len() > 0 {
        lemma_total_is_fold(threads.drop_last(), samples);
    }
}

/// The total does not depend on the order of the threads.
pub proof fn lemma_total_reordered<S>(
    a: Seq<ThreadView>,
    b: Seq<ThreadView>,
    samples: Map<i64, Vec<S>>,
)
    requires
        a.to_multiset() == b.to_multiset(),
    ensures
        sample_total(a, samples) == sample_total(b, samples),
{
    let f = |sum: nat, t: ThreadView| sum + timeline_len(samples, t.os_thread_id);
    assert(vstd::seq_lib::commutative_foldl(f));
    vstd::seq_lib::lemma_fold_left_permutation(a, b, f, 0nat);
    lemma_total_is_fold(a, samples);
    lemma_total_is_fold(b, samples);
}

} // verus!
