//! The state of one ingestion of a binary trace: the pools of what was
//! resolved so far and the timelines of the samples seen so far.

use crate::fx::{map_contains, map_get, map_insert, map_new, map_remove};
use crate::interval::TimeInterval;
use crate::profile::{
    ConstantPoolKey, ExecutionSample, StackTrace, Thread, ThreadState, thread_state_of,
};
use crate::timeline::{
    distinct_ids, has_thread_id, lemma_total_grows, lemma_total_push, lemma_total_unchanged,
    sample_total, thread_views, timeline_len,
};
use rustc_hash::FxHashMap;
use vstd::prelude::*;

verus! {

/// The quotient of `a` by a positive `b`, rounded towards zero.
pub open spec fn truncated_quotient(a: int, b: int) -> int
    recommends
        b > 0,
{
    if a >= 0 {
        a / b
    } else {
        -((-a) / b)
    }
}

/// The time of a tick in nanoseconds, by the clock of the chunk's header:
/// the start time plus the ticks since the start tick, at a billion
/// nanoseconds for each `ticks_per_second` ticks and rounded towards zero.
/// Nothing where the header counts no ticks per second, or where the time
/// does not fit.
pub open spec fn tick_nanos(start_nanos: i64, start_ticks: i64, ticks_per_second: i64, tick: i64) -> Option<
    i64,
> {
    let nanos = start_nanos + truncated_quotient(
        (tick - start_ticks) * 1_000_000_000,
        ticks_per_second as int,
    );
    if ticks_per_second > 0 && i64::MIN <= nanos <= i64::MAX {
        Some(nanos as i64)
    } else {
        None
    }
}

/// The time of a tick in nanoseconds, by the clock of the chunk's header.
pub fn timestamp_nanos(start_nanos: i64, start_ticks: i64, ticks_per_second: i64, tick: i64) -> (r:
    Option<i64>)
    ensures
        r == tick_nanos(start_nanos, start_ticks, ticks_per_second, tick),
{
    if ticks_per_second <= 0 {
        return None;
    }
    let elapsed: i128 = tick as i128 - start_ticks as i128;
    let scaled: i128 = elapsed * 1_000_000_000;
    let nanos: i128 = start_nanos as i128 + scaled / (ticks_per_second as i128);
    if nanos < i64::MIN as i128 || nanos > i64::MAX as i128 {
        None
    } else {
        Some(nanos as i64)
    }
}

/// The millisecond in which a nanosecond lies, rounded towards zero.
pub open spec fn millis_of(nanos: i64) -> i64 {
    truncated_quotient(truncated_quotient(nanos as int, 1000), 1000) as i64
}

/// The millisecond in which a nanosecond lies, rounded towards zero.
pub fn timestamp_millis(nanos: i64) -> (r: i64)
    ensures
        r == millis_of(nanos),
{
    nanos / 1000 / 1000
}

/// Whether the pool holds the stack trace of every sample.
pub open spec fn keys_known(
    samples: Map<i64, Vec<ExecutionSample>>,
    traces: Map<(usize, i64, i64), StackTrace>,
) -> bool {
    forall|id: i64, i: int|
        samples.contains_key(id) && 0 <= i < samples[id]@.len() ==> traces.contains_key(
            (#[trigger] samples[id]@[i]).stack_trace_key.parts(),
        )
}

/// Whether no timeline holds more than `n` samples.
pub open spec fn within(samples: Map<i64, Vec<ExecutionSample>>, n: nat) -> bool {
    forall|id: i64| samples.contains_key(id) ==> (#[trigger] samples[id])@.len() <= n
}

/// Whether a timeline holds `n` samples, or `n` is 0.
pub open spec fn attained(samples: Map<i64, Vec<ExecutionSample>>, n: nat) -> bool {
    n == 0 || exists|id: i64| samples.contains_key(id) && (#[trigger] samples[id])@.len() == n
}

/// Whether the interval holds the millisecond of every sample.
pub open spec fn spans(samples: Map<i64, Vec<ExecutionSample>>, interval: TimeInterval) -> bool {
    forall|id: i64, i: int|
        samples.contains_key(id) && 0 <= i < samples[id]@.len() ==> interval.start_millis
            <= millis_of((#[trigger] samples[id]@[i]).timestamp_nanos) <= interval.end_millis
}

/// The state of an ingestion.
pub struct Ingestor {
    /// The stack traces resolved so far, by their place in the constant
    /// pool.
    pub traces: FxHashMap<(usize, i64, i64), StackTrace>,
    /// The names of the thread states resolved so far.
    pub states: FxHashMap<(usize, i64, i64), String>,
    /// The threads seen so far, in the order in which they were first
    /// seen.
    pub threads: Vec<Thread>,
    /// The samples of each thread, in the order in which they were seen.
    pub samples: FxHashMap<i64, Vec<ExecutionSample>>,
    /// The length of the longest timeline.
    pub column_count: usize,
    /// The span of the samples, in milliseconds.
    pub interval: TimeInterval,
    /// The number of samples seen so far.
    pub event_count: usize,
}

/// The state of an ingestion as plain values.
pub struct IngestorView {
    pub traces: Map<(usize, i64, i64), Seq<crate::profile::StackFrameView>>,
    pub states: Map<(usize, i64, i64), Seq<char>>,
    pub threads: Seq<crate::profile::ThreadView>,
    pub samples: Map<i64, Seq<ExecutionSample>>,
    pub column_count: nat,
    pub interval: TimeInterval,
    pub event_count: nat,
}

impl View for Ingestor {
    type V = IngestorView;

    open spec fn view(&self) -> IngestorView {
        IngestorView {
            traces: Map::new(
                |k: (usize, i64, i64)| self.traces@.contains_key(k),
                |k: (usize, i64, i64)| self.traces@[k]@,
            ),
            states: Map::new(
                |k: (usize, i64, i64)| self.states@.contains_key(k),
                |k: (usize, i64, i64)| self.states@[k]@,
            ),
            threads: thread_views(self.threads@),
            samples: Map::new(
                |id: i64| self.samples@.contains_key(id),
                |id: i64| self.samples@[id]@,
            ),
            column_count: self.column_count as nat,
            interval: self.interval,
            event_count: self.event_count as nat,
        }
    }
}

/// The state before the first event as plain values.
pub open spec fn fresh_state() -> IngestorView {
    IngestorView {
        traces: Map::empty(),
        states: Map::empty(),
        threads: Seq::empty(),
        samples: Map::empty(),
        column_count: 0,
        interval: TimeInterval { start_millis: i64::MAX, end_millis: 0 },
        event_count: 0,
    }
}

impl IngestorView {
    /// The state with a resolved stack trace put into the pool, unless the
    /// pool holds one under the key already.
    pub open spec fn with_trace(
        self,
        key: (usize, i64, i64),
        frames: Seq<crate::profile::StackFrameView>,
    ) -> IngestorView {
        if self.traces.contains_key(key) {
            self
        } else {
            IngestorView { traces: self.traces.insert(key, frames), ..self }
        }
    }

    /// The state with a thread added with an empty timeline, unless a
    /// thread with its id was seen already.
    pub open spec fn with_thread(self, thread: crate::profile::ThreadView) -> IngestorView {
        if self.samples.contains_key(thread.os_thread_id) {
            self
        } else {
            IngestorView {
                threads: self.threads.push(thread),
                samples: self.samples.insert(thread.os_thread_id, Seq::empty()),
                ..self
            }
        }
    }

    /// The state with the resolved name of a thread state put into the
    /// pool.
    pub open spec fn with_state(self, key: (usize, i64, i64), name: Seq<char>) -> IngestorView {
        IngestorView { states: self.states.insert(key, name), ..self }
    }

    /// The state with a sample appended to the timeline of its thread:
    /// one sample more, the column count raised to the length of the
    /// timeline where that is greater, and the interval widened to hold
    /// the millisecond of the sample.
    pub open spec fn with_sample(
        self,
        os_thread_id: i64,
        timestamp_nanos: i64,
        state: ThreadState,
        stack_trace_key: ConstantPoolKey,
    ) -> IngestorView {
        let timeline = self.samples[os_thread_id].push(
            ExecutionSample { timestamp_nanos, state, stack_trace_key },
        );
        IngestorView {
            samples: self.samples.insert(os_thread_id, timeline),
            column_count: if timeline.len() > self.column_count {
                timeline.len()
            } else {
                self.column_count
            },
            interval: self.interval.widened(millis_of(timestamp_nanos), millis_of(timestamp_nanos)),
            event_count: self.event_count + 1,
            ..self
        }
    }
}

impl Ingestor {
    /// The invariant of the state: the threads have distinct ids and are
    /// the ones that have a timeline, every sample's stack trace is in the
    /// pool, every sample seen is in one timeline, the column count is the
    /// length of the longest timeline, and the interval holds every sample.
    pub open spec fn wf(&self) -> bool {
        &&& distinct_ids(thread_views(self.threads@))
        &&& forall|id: i64|
            self.samples@.contains_key(id) <==> has_thread_id(thread_views(self.threads@), id)
        &&& keys_known(self.samples@, self.traces@)
        &&& self.event_count == sample_total(thread_views(self.threads@), self.samples@)
        &&& within(self.samples@, self.column_count as nat)
        &&& attained(self.samples@, self.column_count as nat)
        &&& spans(self.samples@, self.interval)
    }

    /// The state before the first event.
    pub fn new() -> (r: Self)
        ensures
            r.wf(),
            r.traces@ == Map::<(usize, i64, i64), StackTrace>::empty(),
            r.states@ == Map::<(usize, i64, i64), String>::empty(),
            r.threads@.len() == 0,
            r.samples@ == Map::<i64, Vec<ExecutionSample>>::empty(),
            r.column_count == 0,
            r.interval == (TimeInterval { start_millis: i64::MAX, end_millis: 0 }),
            r.event_count == 0,
            r@ == fresh_state(),
    {
        let r = Ingestor {
            traces: map_new(),
            states: map_new(),
            threads: Vec::new(),
            samples: map_new(),
            column_count: 0,
            interval: TimeInterval::unset(),
            event_count: 0,
        };
        proof {
            assert(r@.traces =~= fresh_state().traces);
            assert(r@.states =~= fresh_state().states);
            assert(r@.threads =~= fresh_state().threads);
            assert(r@.samples =~= fresh_state().samples);
        }
        r
    }

    /// Whether the stack trace of the key is resolved.
    pub fn has_stack_trace(&self, key: ConstantPoolKey) -> (r: bool)
        ensures
            r == self.traces@.contains_key(key.parts()),
    {
        map_contains(&self.traces, key.to_parts())
    }

    /// Puts a resolved stack trace into the pool, unless the pool holds one
    /// under the key already.
    pub fn add_stack_trace(&mut self, key: ConstantPoolKey, trace: StackTrace)
        requires
            old(self).wf(),
        ensures
            final(self).wf(),
            final(self).traces@ == (if old(self).traces@.contains_key(key.parts()) {
                old(self).traces@
            } else {
                old(self).traces@.insert(key.parts(), trace)
            }),
            final(self).states == old(self).states,
            final(self).threads == old(self).threads,
            final(self).samples == old(self).samples,
            final(self).column_count == old(self).column_count,
            final(self).interval == old(self).interval,
            final(self).event_count == old(self).event_count,
            final(self)@ == old(self)@.with_trace(key.parts(), trace@),
    {
        if !map_contains(&self.traces, key.to_parts()) {
            map_insert(&mut self.traces, key.to_parts(), trace);
        }
        proof {
            assert(self@.traces =~= old(self)@.with_trace(key.parts(), trace@).traces);
        }
    }

    /// Whether a thread with the given id was seen.
    pub fn has_thread(&self, os_thread_id: i64) -> (r: bool)
        requires
            self.wf(),
        ensures
            r == has_thread_id(thread_views(self.threads@), os_thread_id),
            r == self.samples@.contains_key(os_thread_id),
    {
        map_contains(&self.samples, os_thread_id)
    }

    /// Adds a thread with an empty timeline, unless a thread with its id was
    /// seen already.
    pub fn add_thread(&mut self, thread: Thread)
        requires
            old(self).wf(),
        ensures
            final(self).wf(),
            has_thread_id(thread_views(final(self).threads@), thread.os_thread_id),
            has_thread_id(thread_views(old(self).threads@), thread.os_thread_id) ==> {
                &&& final(self).threads == old(self).threads
                &&& final(self).samples == old(self).samples
            },
            !has_thread_id(thread_views(old(self).threads@), thread.os_thread_id) ==> {
                &&& thread_views(final(self).threads@) == thread_views(old(self).threads@).push(
                    thread@,
                )
                &&& final(self).samples@.dom() == old(self).samples@.dom().insert(
                    thread.os_thread_id,
                )
                &&& final(self).samples@[thread.os_thread_id]@.len() == 0
                &&& forall|id: i64|
                    old(self).samples@.contains_key(id) ==> final(self).samples@[id] == old(self).samples@[id]
            },
            final(self).traces == old(self).traces,
            final(self).states == old(self).states,
            final(self).column_count == old(self).column_count,
            final(self).interval == old(self).interval,
            final(self).event_count == old(self).event_count,
            final(self)@ == old(self)@.with_thread(thread@),
    {
        if map_contains(&self.samples, thread.os_thread_id) {
            return ;
        }
        let ghost before = thread_views(self.threads@);
        let ghost view = thread@;
        let id = thread.os_thread_id;
        self.threads.push(thread);
        map_insert(&mut self.samples, id, Vec::new());
        proof {
            let after = thread_views(self.threads@);
            assert(after =~= before.push(view));
            assert forall|i: int, j: int| 0 <= i < j < after.len() implies (
            #[trigger] after[i]).os_thread_id != (#[trigger] after[j]).os_thread_id by {
                if j == before.len() {
                    assert(before[i] == after[i]);
                } else {
                    assert(before[i] == after[i]);
                    assert(before[j] == after[j]);
                }
            }
            assert forall|other: i64|
                self.samples@.contains_key(other) <==> has_thread_id(after, other) by {
                if has_thread_id(before, other) {
                    let k = choose|k: int|
                        0 <= k < before.len() && (#[trigger] before[k]).os_thread_id == other;
                    assert(after[k] == before[k]);
                }
                if other == id {
                    assert(after[before.len() as int].os_thread_id == id);
                }
                if has_thread_id(after, other) && other != id {
                    let k = choose|k: int|
                        0 <= k < after.len() && (#[trigger] after[k]).os_thread_id == other;
                    assert(before[k] == after[k]);
                }
            }
            lemma_total_push(before, self.samples@, view);
            lemma_total_unchanged(before, old(self).samples@, self.samples@);
            assert(self.samples@.dom() =~= old(self).samples@.dom().insert(id));
            assert(self@.samples =~= old(self)@.with_thread(view).samples);
            if self.column_count > 0 {
                let longest = choose|l: i64|
                    old(self).samples@.contains_key(l) && (#[trigger] old(self).samples@[l])@.len()
                        == self.column_count;
                assert(self.samples@.contains_key(longest) && self.samples@[longest]@.len()
                    == self.column_count);
            }
            assert forall|other: i64, k: int|
                self.samples@.contains_key(other) && 0 <= k < self.samples@[other]@.len() implies self.interval.start_millis
                <= millis_of((#[trigger] self.samples@[other]@[k]).timestamp_nanos)
                <= self.interval.end_millis by {
                assert(self.samples@[other]@[k] == old(self).samples@[other]@[k]);
            }
        }
    }

    /// The thread state that the key's name denotes, where the name is
    /// resolved.
    pub fn known_state(&self, key: ConstantPoolKey) -> (r: Option<ThreadState>)
        ensures
            r == (if self.states@.contains_key(key.parts()) {
                Some(thread_state_of(self.states@[key.parts()]@))
            } else {
                None
            }),
            r == (if self@.states.contains_key(key.parts()) {
                Some(thread_state_of(self@.states[key.parts()]))
            } else {
                None
            }),
    {
        match map_get(&self.states, key.to_parts()) {
            Some(name) => Some(ThreadState::from(name.as_str())),
            None => None,
        }
    }

    /// Puts the resolved name of a thread state into the pool and returns
    /// the state that it denotes.
    pub fn add_state(&mut self, key: ConstantPoolKey, name: String) -> (r: ThreadState)
        requires
            old(self).wf(),
        ensures
            final(self).wf(),
            r == thread_state_of(name@),
            final(self).states@ == old(self).states@.insert(key.parts(), name),
            final(self).traces == old(self).traces,
            final(self).threads == old(self).threads,
            final(self).samples == old(self).samples,
            final(self).column_count == old(self).column_count,
            final(self).interval == old(self).interval,
            final(self).event_count == old(self).event_count,
            final(self)@ == old(self)@.with_state(key.parts(), name@),
    {
        let state = ThreadState::from(name.as_str());
        map_insert(&mut self.states, key.to_parts(), name);
        proof {
            assert(self@.states =~= old(self)@.with_state(key.parts(), name@).states);
        }
        state
    }

    /// Appends a sample to the timeline of its thread.
    pub fn push_sample(
        &mut self,
        os_thread_id: i64,
        timestamp_nanos: i64,
        state: ThreadState,
        stack_trace_key: ConstantPoolKey,
    )
        requires
            old(self).wf(),
            old(self).samples@.contains_key(os_thread_id),
            old(self).traces@.contains_key(stack_trace_key.parts()),
            old(self).event_count < usize::MAX,
        ensures
            final(self).wf(),
            final(self).samples@.dom() == old(self).samples@.dom(),
            final(self).samples@[os_thread_id]@ == old(self).samples@[os_thread_id]@.push(
                ExecutionSample { timestamp_nanos, state, stack_trace_key },
            ),
            forall|id: i64|
                id != os_thread_id && old(self).samples@.contains_key(id) ==> final(self).samples@[id] == old(self).samples@[id],
            final(self).event_count == old(self).event_count + 1,
            final(self).column_count == (if old(self).samples@[os_thread_id]@.len() + 1 > old(self).column_count {
                old(self).samples@[os_thread_id]@.len() + 1
            } else {
                old(self).column_count as nat
            }),
            final(self).interval == old(self).interval.widened(
                millis_of(timestamp_nanos),
                millis_of(timestamp_nanos),
            ),
            final(self).traces == old(self).traces,
            final(self).states == old(self).states,
            final(self).threads == old(self).threads,
            final(self)@ == old(self)@.with_sample(
                os_thread_id,
                timestamp_nanos,
                state,
                stack_trace_key,
            ),
    {
        let ghost before = self.samples@;
        let ghost threads = thread_views(self.threads@);
        let sample = ExecutionSample { timestamp_nanos, state, stack_trace_key };
        let mut timeline = match map_remove(&mut self.samples, os_thread_id) {
            Some(timeline) => timeline,
            None => Vec::new(),
        };
        assert(timeline@ == before[os_thread_id]@);
        proof {
            lemma_total_grows(
                threads,
                before,
                before.insert(os_thread_id, timeline),
                os_thread_id,
                0,
            );
            assert(timeline@.len() <= self.event_count) by {
                lemma_timeline_in_total(threads, before, os_thread_id);
            }
        }
        timeline.push(sample);
        let len = timeline.len();
        map_insert(&mut self.samples, os_thread_id, timeline);
        let millis = timestamp_millis(timestamp_nanos);
        self.interval.widen(millis, millis);
        if len > self.column_count {
            self.column_count = len;
        }
        self.event_count = self.event_count + 1;
        proof {
            let after = self.samples@;
            assert(after.dom() =~= before.dom());
            lemma_total_grows(threads, before, after, os_thread_id, 1);
            assert forall|id: i64, i: int|
                after.contains_key(id) && 0 <= i < after[id]@.len() implies self.traces@.contains_key(
                (#[trigger] after[id]@[i]).stack_trace_key.parts(),
            ) by {
                if id == os_thread_id {
                    if i < before[id]@.len() {
                        assert(after[id]@[i] == before[id]@[i]);
                    }
                } else {
                    assert(after[id]@[i] == before[id]@[i]);
                }
            }
            assert forall|id: i64, i: int|
                after.contains_key(id) && 0 <= i < after[id]@.len() implies self.interval.start_millis
                <= millis_of((#[trigger] after[id]@[i]).timestamp_nanos)
                <= self.interval.end_millis by {
                if id == os_thread_id {
                    if i < before[id]@.len() {
                        assert(after[id]@[i] == before[id]@[i]);
                    }
                } else {
                    assert(after[id]@[i] == before[id]@[i]);
                }
            }
            assert(self@.samples =~= old(self)@.with_sample(
                os_thread_id,
                timestamp_nanos,
                state,
                stack_trace_key,
            ).samples);
            if len > old(self).column_count {
                assert(after[os_thread_id]@.len() == self.column_count);
            } else if old(self).column_count > 0 {
                let longest = choose|id: i64|
                    before.contains_key(id) && (#[trigger] before[id])@.len() == old(self).column_count;
                assert(after.contains_key(longest) && after[longest]@.len() == self.column_count);
            }
        }
    }
}

/// The timeline of a listed thread holds no more samples than all the
/// listed threads' timelines together.
pub proof fn lemma_timeline_in_total<S>(
    threads: Seq<crate::profile::ThreadView>,
    samples: Map<i64, Vec<S>>,
    id: i64,
)
    requires
        has_thread_id(threads, id),
    ensures
        timeline_len(samples, id) <= sample_total(threads, samples),
    decreases threads.len(),
{
    let k = choose|k: int| 0 <= k < threads.len() && (#[trigger] threads[k]).os_thread_id == id;
    assert(threads.last() == threads[threads.len() - 1]);
    if threads.last().os_thread_id != id {
        assert(threads.drop_last()[k] == threads[k]);
        lemma_timeline_in_total(threads.drop_last(), samples, id);
    }
}

} // verus!
