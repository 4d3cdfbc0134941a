//! Profiles of execution samples, read from a binary trace.

pub mod ingest;

use crate::execution_sample::ingest::{
    Ingestor, IngestorView, attained, fresh_state, keys_known, millis_of, spans, tick_nanos,
    timestamp_nanos, within,
};
use crate::filter::{
    FilterError, compile_optional, filter_threads, passes, passes_both, passes_by, pattern_view, regex_of,
    render, rendered, usable, visible_threads,
};
use crate::fx::{
    map_get, map_insert, map_keys, map_new, map_remove, set_contains, set_insert, set_new,
};
use crate::gzip::{Encoding, decode, decoded};
use crate::interval::TimeInterval;
use crate::jfr::{
    events_return, returns_to_end,
    accessor_at, accessor_of, as_int, as_long, as_text, chunk_clock, chunk_events, chunk_step,
    class_name_of, clock_of, descriptor_of, elements, elements_of, event_class_name, event_step,
    event_value, events_of, field_of, get_field, get_field_raw, int_in, long_in, next_chunk,
    next_event, open_reader, pool_descriptor, pool_reference, raw_field_of, reader_of, reference_in,
    text_in, text_view, value_of,
};
use crate::profile::{
    ConstantPoolKey, ExecutionSample, FrameType, StackFrame, StackTrace, Thread, ThreadState,
    ThreadView, display_name, frame_type_of, thread_state_of,
};
use crate::text::str_eq;
use crate::timeline::{
    at_time, distinct_ids, has_thread_id, lemma_reordered_threads, lemma_same_items,
    lemma_total_reordered, lemma_total_unchanged, named, sample_total, sort_by_name, sort_by_time,
    sorted_by_name, sorted_by_time, thread_views, timeline_len,
};
use jfrs::reader::event::{Accessor, Event, EventIterator};
use jfrs::reader::{Chunk, JfrReader};
use regex::Regex;
use rustc_hash::{FxHashMap, FxHashSet};
use std::io::Cursor;
use vstd::prelude::*;
use vstd::string::StringExecFns;

verus! {

/// Why a trace could not be loaded.
#[derive(Copy, Clone, Debug, PartialEq, Eq, Structural)]
pub enum LoadError {
    /// The trace reader could not read a chunk or an event.
    Reader,
    /// A field that must refer to the constant pool is missing or holds
    /// something else.
    FieldNotPoolReference(Field),
    /// A field is missing or holds a value of another type.
    MissingField(Field),
    /// The sampled thread has neither a Java name nor an OS name.
    MissingThreadIdentity,
    /// The trace holds more events than bytes, counts no ticks per second,
    /// or dates an event outside the range of time.
    MalformedInput,
    /// The bytes are not compressed as they are said to be.
    Compression,
}

/// The fields of a trace that the ingestion reads.
#[derive(Copy, Clone, Debug, PartialEq, Eq, Structural)]
pub enum Field {
    StackTrace,
    State,
    SampledThread,
    OsThreadId,
    StartTime,
    Frames,
    ClassName,
    MethodName,
    FrameType,
    LineNumber,
    StateName,
}

/// A profile of execution samples.
///
/// `threads`, `stack_trace_pool` and `per_thread_samples` are what was
/// loaded; `filtered_threads` and `filtered_stack_trace_keys` are what the
/// last filter left visible of them.
pub struct Profile {
    /// The threads, in ascending order of name.
    pub threads: Vec<Thread>,
    /// The visible threads.
    pub filtered_threads: Vec<Thread>,
    /// The keys of the visible stack traces.
    pub filtered_stack_trace_keys: FxHashSet<(usize, i64, i64)>,
    /// The stack traces, by their place in the constant pool.
    pub stack_trace_pool: FxHashMap<(usize, i64, i64), StackTrace>,
    /// The samples of each thread by its id, in ascending order of time.
    pub per_thread_samples: FxHashMap<i64, Vec<ExecutionSample>>,
    /// The length of the longest timeline.
    pub column_count: usize,
    /// The span of the samples, in milliseconds.
    pub interval: TimeInterval,
}

/// Whether every timeline stands in ascending order of time.
pub open spec fn timelines_sorted(samples: Map<i64, Vec<ExecutionSample>>) -> bool {
    forall|id: i64| samples.contains_key(id) ==> sorted_by_time((#[trigger] samples[id])@)
}

impl Profile {
    /// The invariant of a profile: the threads stand in order of name and
    /// have distinct ids, the timelines are those of the threads and stand
    /// in order of time, the column count is the length of the longest,
    /// the interval holds every sample, the pool holds the stack trace of
    /// every sample, and only stack traces of the pool are visible.
    pub open spec fn wf(&self) -> bool {
        &&& distinct_ids(thread_views(self.threads@))
        &&& sorted_by_name(thread_views(self.threads@))
        &&& forall|id: i64|
            self.per_thread_samples@.contains_key(id) <==> has_thread_id(
                thread_views(self.threads@),
                id,
            )
        &&& keys_known(self.per_thread_samples@, self.stack_trace_pool@)
        &&& timelines_sorted(self.per_thread_samples@)
        &&& within(self.per_thread_samples@, self.column_count as nat)
        &&& attained(self.per_thread_samples@, self.column_count as nat)
        &&& spans(self.per_thread_samples@, self.interval)
        &&& self.filtered_stack_trace_keys@.subset_of(self.stack_trace_pool@.dom())
        &&& sample_total(thread_views(self.threads@), self.per_thread_samples@) <= usize::MAX
    }

    /// The number of samples of the profile.
    pub open spec fn total(&self) -> nat {
        sample_total(thread_views(self.threads@), self.per_thread_samples@)
    }

    /// A profile without threads and without samples.
    pub fn new() -> (r: Self)
        ensures
            r.wf(),
            r.threads@.len() == 0,
            r.filtered_threads@.len() == 0,
            r.filtered_stack_trace_keys@ == Set::<(usize, i64, i64)>::empty(),
            r.stack_trace_pool@ == Map::<(usize, i64, i64), StackTrace>::empty(),
            r.per_thread_samples@ == Map::<i64, Vec<ExecutionSample>>::empty(),
            r.column_count == 0,
            r.interval == (TimeInterval { start_millis: 0, end_millis: 0 }),
    {
        Profile {
            threads: Vec::new(),
            filtered_threads: Vec::new(),
            filtered_stack_trace_keys: set_new(),
            stack_trace_pool: map_new(),
            per_thread_samples: map_new(),
            column_count: 0,
            interval: TimeInterval::new(0, 0),
        }
    }

    /// The visible threads.
    pub fn filtered_threads(&self) -> (r: &Vec<Thread>)
        ensures
            r == &self.filtered_threads,
    {
        &self.filtered_threads
    }

    /// The sample at the given place of the timeline of a thread, with its
    /// stack trace; nothing where the thread has no such sample or the pool
    /// lacks its stack trace.
    pub fn sample_info(&self, os_thread_id: i64, sample_idx: usize) -> (r: Option<
        (ExecutionSample, &StackTrace),
    >)
        ensures
            r is Some <==> {
                &&& self.per_thread_samples@.contains_key(os_thread_id)
                &&& sample_idx < self.per_thread_samples@[os_thread_id]@.len()
                &&& self.stack_trace_pool@.contains_key(
                    self.per_thread_samples@[os_thread_id]@[sample_idx as int].stack_trace_key.parts(),
                )
            },
            r is Some ==> {
                &&& r.unwrap().0 == self.per_thread_samples@[os_thread_id]@[sample_idx as int]
                &&& *r.unwrap().1 == self.stack_trace_pool@[r.unwrap().0.stack_trace_key.parts()]
            },
    {
        let samples = match map_get(&self.per_thread_samples, os_thread_id) {
            Some(samples) => samples,
            None => {
                return None;
            },
        };
        if sample_idx >= samples.len() {
            return None;
        }
        let sample = samples[sample_idx];
        match map_get(&self.stack_trace_pool, sample.stack_trace_key.to_parts()) {
            Some(trace) => Some((sample, trace)),
            None => None,
        }
    }

    /// Whether the stack trace of the sample is visible.
    pub fn is_valid_sample(&self, sample: &ExecutionSample) -> (r: bool)
        ensures
            r == self.filtered_stack_trace_keys@.contains(sample.stack_trace_key.parts()),
    {
        set_contains(&self.filtered_stack_trace_keys, sample.stack_trace_key.to_parts())
    }
}

impl Default for Profile {
    fn default() -> (r: Self)
        ensures
            r.wf(),
            r.threads@.len() == 0,
            r.filtered_threads@.len() == 0,
            r.filtered_stack_trace_keys@ == Set::<(usize, i64, i64)>::empty(),
            r.stack_trace_pool@ == Map::<(usize, i64, i64), StackTrace>::empty(),
            r.per_thread_samples@ == Map::<i64, Vec<ExecutionSample>>::empty(),
            r.column_count == 0,
            r.interval == (TimeInterval { start_millis: 0, end_millis: 0 }),
    {
        Profile::new()
    }
}

/// A copy of a list of threads.
pub fn clone_threads(threads: &Vec<Thread>) -> (r: Vec<Thread>)
    ensures
        thread_views(r@) == thread_views(threads@),
{
    let mut copy: Vec<Thread> = Vec::new();
    let mut i: usize = 0;
    while i < threads.len()
        invariant
            i <= threads.len(),
            copy@.len() == i,
            forall|j: int| 0 <= j < i ==> copy@[j]@ == threads@[j]@,
        decreases threads.len() - i,
    {
        copy.push(threads[i].clone());
        i = i + 1;
    }
    assert(thread_views(copy@) =~= thread_views(threads@));
    copy
}

/// The items among the first `i + 1` of a sequence are those among the
/// first `i` and the item at `i`.
pub proof fn lemma_take_one_more<T>(s: Seq<T>, i: int)
    requires
        0 <= i < s.len(),
    ensures
        s.take(i + 1).to_set() == s.take(i).to_set().insert(s[i]),
{
    let a = s.take(i + 1);
    let b = s.take(i);
    assert forall|k: T| a.contains(k) <==> (b.contains(k) || k == s[i]) by {
        if b.contains(k) {
            let j = choose|j: int| 0 <= j < b.len() && b[j] == k;
            assert(a[j] == k);
        }
        if k == s[i] {
            assert(a[i] == k);
        }
        if a.contains(k) {
            let j = choose|j: int| 0 <= j < a.len() && a[j] == k;
            if j < i {
                assert(b[j] == k);
            }
        }
    }
    assert(a.to_set() =~= b.to_set().insert(s[i]));
}

/// The set of the keys of a pool.
pub fn all_keys(pool: &FxHashMap<(usize, i64, i64), StackTrace>) -> (r: FxHashSet<(usize, i64, i64)>)
    ensures
        r@ == pool@.dom(),
{
    let keys = map_keys(pool);
    let mut set: FxHashSet<(usize, i64, i64)> = set_new();
    let mut i: usize = 0;
    while i < keys.len()
        invariant
            i <= keys.len(),
            set@ =~= keys@.take(i as int).to_set(),
        decreases keys.len() - i,
    {
        set_insert(&mut set, keys[i]);
        proof {
            lemma_take_one_more(keys@, i as int);
        }
        i = i + 1;
    }
    assert(keys@.take(keys@.len() as int) =~= keys@);
    set
}

/// Puts every timeline in ascending order of time, samples of one time
/// staying in the order in which they were seen.
fn sort_timelines(state: &mut Ingestor)
    requires
        old(state).wf(),
    ensures
        final(state).wf(),
        timelines_sorted(final(state).samples@),
        final(state).samples@.dom() == old(state).samples@.dom(),
        forall|id: i64|
            old(state).samples@.contains_key(id) ==> (#[trigger] final(state).samples@[id])@.to_multiset()
                == old(state).samples@[id]@.to_multiset(),
        forall|id: i64, t: i64|
            old(state).samples@.contains_key(id) ==> #[trigger] at_time(
                final(state).samples@[id]@,
                t,
            ) == at_time(old(state).samples@[id]@, t),
        final(state).threads == old(state).threads,
        final(state).traces == old(state).traces,
        final(state).column_count == old(state).column_count,
        final(state).interval == old(state).interval,
        final(state).event_count == old(state).event_count,
{
    let ghost threads = thread_views(state.threads@);
    let mut i: usize = 0;
    while i < state.threads.len()
        invariant
            i <= state.threads.len(),
            state.wf(),
            threads == thread_views(state.threads@),
            state.threads == old(state).threads,
            state.traces == old(state).traces,
            state.column_count == old(state).column_count,
            state.interval == old(state).interval,
            state.event_count == old(state).event_count,
            state.samples@.dom() == old(state).samples@.dom(),
            forall|id: i64|
                old(state).samples@.contains_key(id) ==> (#[trigger] state.samples@[id])@.to_multiset()
                    == old(state).samples@[id]@.to_multiset(),
            forall|id: i64, t: i64|
                old(state).samples@.contains_key(id) ==> #[trigger] at_time(state.samples@[id]@, t)
                    == at_time(old(state).samples@[id]@, t),
            forall|j: int|
                0 <= j < i ==> sorted_by_time(
                    state.samples@[(#[trigger] threads[j]).os_thread_id]@,
                ),
        decreases state.threads.len() - i,
    {
        let id = state.threads[i].os_thread_id;
        let ghost before = state.samples@;
        assert(threads[i as int].os_thread_id == id);
        assert(has_thread_id(threads, id));
        let mut timeline = match map_remove(&mut state.samples, id) {
            Some(timeline) => timeline,
            None => Vec::new(),
        };
        let ghost unsorted = timeline@;
        sort_by_time(&mut timeline);
        let ghost sorted = timeline@;
        map_insert(&mut state.samples, id, timeline);
        proof {
            let after = state.samples@;
            assert(after.dom() =~= before.dom());
            assert forall|other: i64, k: int|
                after.contains_key(other) && 0 <= k < after[other]@.len() implies state.traces@.contains_key(
                (#[trigger] after[other]@[k]).stack_trace_key.parts(),
            ) by {
                if other == id {
                    lemma_same_items(sorted, unsorted, k);
                    let x = choose|x: int| 0 <= x < unsorted.len() && unsorted[x] == sorted[k];
                    assert(before[id]@[x] == sorted[k]);
                } else {
                    assert(after[other]@[k] == before[other]@[k]);
                }
            }
            assert forall|other: i64, k: int|
                after.contains_key(other) && 0 <= k < after[other]@.len() implies state.interval.start_millis
                <= millis_of((#[trigger] after[other]@[k]).timestamp_nanos)
                <= state.interval.end_millis by {
                if other == id {
                    lemma_same_items(sorted, unsorted, k);
                    let x = choose|x: int| 0 <= x < unsorted.len() && unsorted[x] == sorted[k];
                    assert(before[id]@[x] == sorted[k]);
                } else {
                    assert(after[other]@[k] == before[other]@[k]);
                }
            }
            if state.column_count > 0 {
                let longest = choose|l: i64|
                    before.contains_key(l) && (#[trigger] before[l])@.len() == state.column_count;
                assert(after.contains_key(longest) && after[longest]@.len() == state.column_count);
            }
            assert forall|x: int| 0 <= x < threads.len() implies timeline_len(
                before,
                (#[trigger] threads[x]).os_thread_id,
            ) == timeline_len(after, threads[x].os_thread_id) by {}
            lemma_total_unchanged(threads, before, after);
            assert forall|j: int| 0 <= j < i + 1 implies sorted_by_time(
                after[(#[trigger] threads[j]).os_thread_id]@,
            ) by {
                if j < i {
                    assert(threads[j].os_thread_id != threads[i as int].os_thread_id);
                    assert(after[threads[j].os_thread_id] == before[threads[j].os_thread_id]);
                }
            }
        }
        i = i + 1;
    }
    proof {
        assert forall|id: i64| state.samples@.contains_key(id) implies sorted_by_time(
            (#[trigger] state.samples@[id])@,
        ) by {
            let k = choose|k: int|
                0 <= k < threads.len() && (#[trigger] threads[k]).os_thread_id == id;
            assert(sorted_by_time(state.samples@[threads[k].os_thread_id]@));
        }
    }
}

impl Ingestor {
    /// The profile of what was seen: the threads in order of name, every
    /// timeline in order of time, and everything visible.
    pub fn finish(self) -> (r: Profile)
        requires
            self.wf(),
        ensures
            r.wf(),
            r.total() == self.event_count,
            thread_views(r.threads@).to_multiset() == thread_views(self.threads@).to_multiset(),
            thread_views(r.filtered_threads@) == thread_views(r.threads@),
            r.stack_trace_pool == self.traces,
            r.filtered_stack_trace_keys@ == self.traces@.dom(),
            r.per_thread_samples@.dom() == self.samples@.dom(),
            forall|id: i64|
                self.samples@.contains_key(id) ==> (#[trigger] r.per_thread_samples@[id])@.to_multiset()
                    == self.samples@[id]@.to_multiset(),
            r.column_count == self.column_count,
            r.interval == self.interval,
            r.holds(self@),
    {
        let mut state = self;
        sort_timelines(&mut state);
        let ghost unsorted = thread_views(state.threads@);
        let mut threads = state.threads;
        sort_by_name(&mut threads);
        proof {
            lemma_reordered_threads(unsorted, thread_views(threads@));
            lemma_total_reordered(unsorted, thread_views(threads@), state.samples@);
        }
        let filtered_threads = clone_threads(&threads);
        let filtered_stack_trace_keys = all_keys(&state.traces);
        proof {
            assert(state.traces@.dom() =~= self@.traces.dom());
            assert(state.samples@.dom() =~= self@.samples.dom());
        }
        Profile {
            threads,
            filtered_threads,
            filtered_stack_trace_keys,
            stack_trace_pool: state.traces,
            per_thread_samples: state.samples,
            column_count: state.column_count,
            interval: state.interval,
        }
    }
}

/// The name of a field in the trace.
pub open spec fn field_name_of(field: Field) -> Seq<char> {
    match field {
        Field::StackTrace => "stackTrace"@,
        Field::State => "state"@,
        Field::SampledThread => "sampledThread"@,
        Field::OsThreadId => "osThreadId"@,
        Field::StartTime => "startTime"@,
        Field::Frames => "frames"@,
        Field::ClassName => "type"@,
        Field::MethodName => "method"@,
        Field::FrameType => "description"@,
        Field::LineNumber => "lineNumber"@,
        Field::StateName => "name"@,
    }
}

/// The name of a field in the trace.
pub fn field_name(field: Field) -> (r: &'static str)
    ensures
        r@ == field_name_of(field),
{
    match field {
        Field::StackTrace => "stackTrace",
        Field::State => "state",
        Field::SampledThread => "sampledThread",
        Field::OsThreadId => "osThreadId",
        Field::StartTime => "startTime",
        Field::Frames => "frames",
        Field::ClassName => "type",
        Field::MethodName => "method",
        Field::FrameType => "description",
        Field::LineNumber => "lineNumber",
        Field::StateName => "name",
    }
}

/// What is said of a field that is missing.
pub open spec fn missing_text(field: Field) -> Seq<char> {
    match field {
        Field::StackTrace => "Failed to get stackTrace"@,
        Field::State => "Failed to get state"@,
        Field::SampledThread => "Failed to get sampled thread"@,
        Field::OsThreadId => "Failed to get osThreadId"@,
        Field::StartTime => "Failed to get startTime"@,
        Field::Frames => "failed to get stack frames"@,
        Field::ClassName => "failed to get type name"@,
        Field::MethodName => "failed to get method name"@,
        Field::FrameType => "failed to get frame type"@,
        Field::LineNumber => "failed to get line number"@,
        Field::StateName => "failed to get thread state"@,
    }
}

/// What is said of an error.
pub open spec fn message_of(e: LoadError) -> Seq<char> {
    match e {
        LoadError::Reader => "Failed to read the trace"@,
        LoadError::FieldNotPoolReference(field) => "Field "@ + field_name_of(field)
            + " is not constant pool"@,
        LoadError::MissingField(field) => missing_text(field),
        LoadError::MissingThreadIdentity => "Failed to get thread name"@,
        LoadError::MalformedInput => "Malformed input"@,
        LoadError::Compression => "Failed to decompress the trace"@,
    }
}

impl LoadError {
    /// The error in words.
    pub fn message(&self) -> (r: String)
        ensures
            r@ == message_of(*self),
    {
        match self {
            LoadError::Reader => String::from_str("Failed to read the trace"),
            LoadError::FieldNotPoolReference(field) => {
                let mut text = String::from_str("Field ");
                text.append(field_name(*field));
                text.append(" is not constant pool");
                text
            },
            LoadError::MissingField(field) => String::from_str(
                match field {
                    Field::StackTrace => "Failed to get stackTrace",
                    Field::State => "Failed to get state",
                    Field::SampledThread => "Failed to get sampled thread",
                    Field::OsThreadId => "Failed to get osThreadId",
                    Field::StartTime => "Failed to get startTime",
                    Field::Frames => "failed to get stack frames",
                    Field::ClassName => "failed to get type name",
                    Field::MethodName => "failed to get method name",
                    Field::FrameType => "failed to get frame type",
                    Field::LineNumber => "failed to get line number",
                    Field::StateName => "failed to get thread state",
                },
            ),
            LoadError::MissingThreadIdentity => String::from_str("Failed to get thread name"),
            LoadError::MalformedInput => String::from_str("Malformed input"),
            LoadError::Compression => String::from_str("Failed to decompress the trace"),
        }
    }
}

/// The key of a field that must refer to the constant pool, given what
/// the field holds: the class id and the index, where it is such a
/// reference.
pub fn pool_key(chunk_seq: usize, reference: Option<(i64, i64)>, field: Field) -> (r: Result<
    ConstantPoolKey,
    LoadError,
>)
    ensures
        r == (match reference {
            Some(found) => Ok(
                ConstantPoolKey { chunk_seq, class_id: found.0, constant_pool_index: found.1 },
            ),
            None => Err(LoadError::FieldNotPoolReference(field)),
        }),
{
    match reference {
        Some((class_id, constant_index)) => Ok(
            ConstantPoolKey::new(chunk_seq, class_id, constant_index),
        ),
        None => Err(LoadError::FieldNotPoolReference(field)),
    }
}

/// The value of a field that must be present.
pub fn required<T>(value: Option<T>, field: Field) -> (r: Result<T, LoadError>)
    ensures
        r == (match value {
            Some(v) => Ok::<T, LoadError>(v),
            None => Err(LoadError::MissingField(field)),
        }),
{
    match value {
        Some(v) => Ok(v),
        None => Err(LoadError::MissingField(field)),
    }
}

/// The thread of the given id: named by its Java name where it has one,
/// else by its OS name.
pub fn thread_identity(os_thread_id: i64, java_name: Option<String>, os_name: Option<String>) -> (r:
    Result<Thread, LoadError>)
    ensures
        java_name is Some ==> r is Ok && r.unwrap()@ == (ThreadView {
            os_thread_id,
            name: java_name.unwrap()@,
        }),
        java_name is None && os_name is Some ==> r is Ok && r.unwrap()@ == (ThreadView {
            os_thread_id,
            name: os_name.unwrap()@,
        }),
        java_name is None && os_name is None ==> r == Err::<Thread, LoadError>(
            LoadError::MissingThreadIdentity,
        ),
{
    match java_name {
        Some(name) => Ok(Thread { os_thread_id, name }),
        None => match os_name {
            Some(name) => Ok(Thread { os_thread_id, name }),
            None => Err(LoadError::MissingThreadIdentity),
        },
    }
}

/// A stack frame or an error, the stack frame as plain values.
pub open spec fn frame_view(r: Result<StackFrame, LoadError>) -> Result<
    crate::profile::StackFrameView,
    LoadError,
> {
    match r {
        Ok(frame) => Ok(frame@),
        Err(e) => Err(e),
    }
}

/// The stack frame of the given parts, each of which must be present: the
/// name of the class, the name of the method, the description of the
/// frame type and the line number. The first that is missing, in this
/// order, is the error.
pub fn stack_frame(
    class_name: Option<String>,
    method_name: Option<String>,
    description: Option<String>,
    line_number: Option<i32>,
) -> (r: Result<StackFrame, LoadError>)
    ensures
        class_name is None ==> r == Err::<StackFrame, LoadError>(
            LoadError::MissingField(Field::ClassName),
        ),
        class_name is Some && method_name is None ==> r == Err::<StackFrame, LoadError>(
            LoadError::MissingField(Field::MethodName),
        ),
        class_name is Some && method_name is Some && description is None ==> r == Err::<
            StackFrame,
            LoadError,
        >(LoadError::MissingField(Field::FrameType)),
        class_name is Some && method_name is Some && description is Some && line_number is None
            ==> r == Err::<StackFrame, LoadError>(LoadError::MissingField(Field::LineNumber)),
        frame_view(r) == frame_of_parts(
            text_view(class_name),
            text_view(method_name),
            text_view(description),
            line_number,
        ),
        class_name is Some && method_name is Some && description is Some && line_number is Some
            ==> r is Ok && r.unwrap()@ == (crate::profile::StackFrameView {
            class_name: class_name.unwrap()@,
            method_name: method_name.unwrap()@,
            frame_type: frame_type_of(description.unwrap()@),
            line_number: line_number.unwrap(),
            name: display_name(
                class_name.unwrap()@,
                method_name.unwrap()@,
                frame_type_of(description.unwrap()@),
                line_number.unwrap(),
            ),
        }),
{
    let class_name = match class_name {
        Some(v) => v,
        None => {
            return Err(LoadError::MissingField(Field::ClassName));
        },
    };
    let method_name = match method_name {
        Some(v) => v,
        None => {
            return Err(LoadError::MissingField(Field::MethodName));
        },
    };
    let frame_type = match description {
        Some(v) => FrameType::from(v.as_str()),
        None => {
            return Err(LoadError::MissingField(Field::FrameType));
        },
    };
    let line_number = match line_number {
        Some(v) => v,
        None => {
            return Err(LoadError::MissingField(Field::LineNumber));
        },
    };
    Ok(StackFrame::new(class_name, method_name, frame_type, line_number))
}

/// The field of that name of a value that may be missing itself.
pub open spec fn below_of(accessor: Option<Accessor<'static>>, name: Seq<char>) -> Option<
    Accessor<'static>,
> {
    match accessor {
        Some(found) => field_of(found, name),
        None => None,
    }
}

/// The text that a value holds, where the value is there and is a string.
pub open spec fn text_under(accessor: Option<Accessor<'static>>) -> Option<Seq<char>> {
    match accessor {
        Some(found) => text_in(found),
        None => None,
    }
}

/// The key of the constant-pool entry that a field of an event refers to;
/// an error where the field is missing or holds something else.
pub open spec fn key_of(chunk_seq: usize, accessor: Accessor<'static>, field: Field) -> Result<
    ConstantPoolKey,
    LoadError,
> {
    let reference = match raw_field_of(accessor, field_name_of(field)) {
        Some(found) => reference_in(found),
        None => None,
    };
    match reference {
        Some(found) => Ok(
            ConstantPoolKey { chunk_seq, class_id: found.0, constant_pool_index: found.1 },
        ),
        None => Err(LoadError::FieldNotPoolReference(field)),
    }
}

/// The entry of the constant pool of a chunk that a key names.
pub open spec fn entry_of(chunk: Chunk, key: ConstantPoolKey) -> Accessor<'static> {
    accessor_of(chunk, descriptor_of(key.class_id, key.constant_pool_index))
}

/// The stack frame of the given parts, each of which must be present: the
/// name of the class, the name of the method, the description of the
/// frame type and the line number. The first that is missing, in this
/// order, is the error.
pub open spec fn frame_of_parts(
    class_name: Option<Seq<char>>,
    method_name: Option<Seq<char>>,
    description: Option<Seq<char>>,
    line_number: Option<i32>,
) -> Result<crate::profile::StackFrameView, LoadError> {
    if class_name is None {
        Err(LoadError::MissingField(Field::ClassName))
    } else if method_name is None {
        Err(LoadError::MissingField(Field::MethodName))
    } else if description is None {
        Err(LoadError::MissingField(Field::FrameType))
    } else if line_number is None {
        Err(LoadError::MissingField(Field::LineNumber))
    } else {
        Ok(
            crate::profile::StackFrameView {
                class_name: class_name.unwrap(),
                method_name: method_name.unwrap(),
                frame_type: frame_type_of(description.unwrap()),
                line_number: line_number.unwrap(),
                name: display_name(
                    class_name.unwrap(),
                    method_name.unwrap(),
                    frame_type_of(description.unwrap()),
                    line_number.unwrap(),
                ),
            },
        )
    }
}

/// The stack frame that an element of the frames of a stack trace holds:
/// the name of the class of its method, the name of its method, the
/// description of its type and its line number.
pub open spec fn frame_at(item: Accessor<'static>) -> Result<crate::profile::StackFrameView, LoadError> {
    frame_of_parts(
        text_under(
            below_of(
                below_of(below_of(field_of(item, "method"@), "type"@), "name"@),
                "string"@,
            ),
        ),
        text_under(below_of(below_of(field_of(item, "method"@), "name"@), "string"@)),
        text_under(below_of(field_of(item, "type"@), "description"@)),
        match field_of(item, "lineNumber"@) {
            Some(found) => int_in(found),
            None => None,
        },
    )
}

/// The stack frames that the given elements hold, in their order; the
/// error of the first element that holds none.
pub open spec fn frames_from(items: Seq<Accessor<'static>>) -> Result<
    Seq<crate::profile::StackFrameView>,
    LoadError,
>
    decreases items.len(),
{
    if items.len() == 0 {
        Ok(Seq::empty())
    } else {
        match frames_from(items.drop_last()) {
            Err(e) => Err(e),
            Ok(frames) => match frame_at(items.last()) {
                Ok(frame) => Ok(frames.push(frame)),
                Err(e) => Err(e),
            },
        }
    }
}

/// The stack trace that a key names in the constant pool of its chunk:
/// the frames that the elements of its field `frames` hold.
pub open spec fn stack_trace_of(chunk: Chunk, key: ConstantPoolKey) -> Result<
    Seq<crate::profile::StackFrameView>,
    LoadError,
> {
    let items = match field_of(entry_of(chunk, key), "frames"@) {
        Some(found) => elements_of(found),
        None => None,
    };
    match items {
        Some(items) => frames_from(items),
        None => Err(LoadError::MissingField(Field::Frames)),
    }
}

/// The name of the thread state that a key names in the constant pool of
/// its chunk.
pub open spec fn state_name_of(chunk: Chunk, key: ConstantPoolKey) -> Option<Seq<char>> {
    text_under(field_of(entry_of(chunk, key), "name"@))
}

/// The thread that an accessor describes: named by its Java name where it
/// has one, else by its OS name.
pub open spec fn thread_of(os_thread_id: i64, accessor: Accessor<'static>) -> Result<
    ThreadView,
    LoadError,
> {
    let java_name = text_under(field_of(accessor, "javaName"@));
    let os_name = text_under(field_of(accessor, "osName"@));
    if java_name is Some {
        Ok(ThreadView { os_thread_id, name: java_name.unwrap() })
    } else if os_name is Some {
        Ok(ThreadView { os_thread_id, name: os_name.unwrap() })
    } else {
        Err(LoadError::MissingThreadIdentity)
    }
}

/// The stack frames of a list as plain values.
pub open spec fn frame_views(frames: Seq<StackFrame>) -> Seq<crate::profile::StackFrameView> {
    Seq::new(frames.len(), |i: int| frames[i]@)
}

/// A stack trace or an error, the stack trace as plain values.
pub open spec fn trace_view(r: Result<StackTrace, LoadError>) -> Result<
    Seq<crate::profile::StackFrameView>,
    LoadError,
> {
    match r {
        Ok(trace) => Ok(trace@),
        Err(e) => Err(e),
    }
}

/// A thread or an error, the thread as plain values.
pub open spec fn thread_view(r: Result<Thread, LoadError>) -> Result<ThreadView, LoadError> {
    match r {
        Ok(thread) => Ok(thread@),
        Err(e) => Err(e),
    }
}

/// The field of that name of a value that may be missing itself.
fn below<'a>(accessor: Option<Accessor<'a>>, name: &str) -> (r: Option<Accessor<'a>>)
    ensures
        r == below_of(accessor, name@),
{
    match accessor {
        Some(found) => get_field(&found, name),
        None => None,
    }
}

/// The text that a value holds, where the value is there and is a string.
fn text_of<'a>(accessor: Option<Accessor<'a>>) -> (r: Option<String>)
    ensures
        text_view(r) == text_under(accessor),
{
    match accessor {
        Some(found) => as_text(&found),
        None => None,
    }
}

impl Profile {
    /// The key of the constant-pool entry that a field of an event refers
    /// to.
    fn get_constant_pool<'a>(chunk_seq: usize, accessor: &Accessor<'a>, field: Field) -> (r: Result<
        ConstantPoolKey,
        LoadError,
    >)
        ensures
            r == key_of(chunk_seq, *accessor, field),
    {
        let reference = match get_field_raw(accessor, field_name(field)) {
            Some(found) => pool_reference(&found),
            None => None,
        };
        pool_key(chunk_seq, reference, field)
    }

    /// Resolves the stack trace of a key from the constant pool of its
    /// chunk.
    fn parse_stack_trace(key: &ConstantPoolKey, chunk: &Chunk) -> (r: Result<StackTrace, LoadError>)
        ensures
            trace_view(r) == stack_trace_of(*chunk, *key),
    {
        let descriptor = pool_descriptor(key.class_id, key.constant_pool_index);
        let accessor = accessor_at(chunk, &descriptor);
        let items = match below(Some(accessor), "frames") {
            Some(found) => elements(found),
            None => None,
        };
        let items = match required(items, Field::Frames) {
            Ok(items) => items,
            Err(e) => {
                return Err(e);
            },
        };
        let mut frames: Vec<StackFrame> = Vec::new();
        let mut i: usize = 0;
        assert(frame_views(frames@) =~= Seq::empty());
        while i < items.len()
            invariant
                i <= items.len(),
                frames@.len() == i,
                frames_from(items@.take(i as int)) == Ok::<
                    Seq<crate::profile::StackFrameView>,
                    LoadError,
                >(frame_views(frames@)),
                stack_trace_of(*chunk, *key) == frames_from(items@),
            decreases items.len() - i,
        {
            let item = &items[i];
            let method = get_field(item, "method");
            let class_name = text_of(
                below(below(below(get_field(item, "method"), "type"), "name"), "string"),
            );
            let method_name = text_of(below(below(method, "name"), "string"));
            let description = text_of(below(get_field(item, "type"), "description"));
            let line_number = match get_field(item, "lineNumber") {
                Some(found) => as_int(&found),
                None => None,
            };
            proof {
                assert(items@.take(i + 1).drop_last() =~= items@.take(i as int));
                assert(items@.take(i + 1).last() == items@[i as int]);
            }
            let ghost before = frame_views(frames@);
            match stack_frame(class_name, method_name, description, line_number) {
                Ok(frame) => {
                    frames.push(frame);
                    assert(frame_views(frames@) =~= before.push(frames@[i as int]@));
                },
                Err(e) => {
                    proof {
                        lemma_frames_from_fails(items@, i + 1);
                    }
                    return Err(e);
                },
            }
            i = i + 1;
        }
        let trace = StackTrace { frames };
        proof {
            assert(items@.take(items@.len() as int) =~= items@);
            assert(trace@ =~= frame_views(trace.frames@));
        }
        Ok(trace)
    }

    /// Resolves the name of a thread state from the constant pool of its
    /// chunk.
    fn parse_thread_state(key: &ConstantPoolKey, chunk: &Chunk) -> (r: Result<String, LoadError>)
        ensures
            r is Ok == state_name_of(*chunk, *key) is Some,
            r is Ok ==> r.unwrap()@ == state_name_of(*chunk, *key).unwrap(),
            r is Err ==> r == Err::<String, LoadError>(LoadError::MissingField(Field::StateName)),
    {
        let descriptor = pool_descriptor(key.class_id, key.constant_pool_index);
        let accessor = accessor_at(chunk, &descriptor);
        required(text_of(get_field(&accessor, "name")), Field::StateName)
    }

    /// The thread that an event names as the sampled one.
    fn parse_thread<'a>(os_thread_id: i64, accessor: &Accessor<'a>) -> (r: Result<Thread, LoadError>)
        ensures
            thread_view(r) == thread_of(os_thread_id, *accessor),
    {
        let java_name = text_of(get_field(accessor, "javaName"));
        let os_name = text_of(get_field(accessor, "osName"));
        thread_identity(os_thread_id, java_name, os_name)
    }
}

/// Where the first elements hold no stack frames, all of them hold none,
/// for the same reason.
pub proof fn lemma_frames_from_fails(items: Seq<Accessor<'static>>, n: int)
    requires
        0 <= n <= items.len(),
        frames_from(items.take(n)) is Err,
    ensures
        frames_from(items) == frames_from(items.take(n)),
    decreases items.len() - n,
{
    if n < items.len() {
        assert(items.take(n + 1).drop_last() =~= items.take(n));
        lemma_frames_from_fails(items, n + 1);
    } else {
        assert(items.take(n) =~= items);
    }
}

/// The error of a result that is one.
pub open spec fn failure<T>(r: Result<T, LoadError>) -> LoadError {
    match r {
        Err(e) => e,
        Ok(_) => LoadError::MalformedInput,
    }
}

/// The number that a field of a value holds, where the field is there and
/// is a long.
pub open spec fn long_under(accessor: Accessor<'static>, name: Seq<char>) -> Option<i64> {
    match field_of(accessor, name) {
        Some(found) => long_in(found),
        None => None,
    }
}

/// The state with the stack trace of the key resolved from its chunk,
/// unless the pool holds it already; the error where it cannot be
/// resolved.
pub open spec fn resolved_trace(s: IngestorView, chunk: Chunk, key: ConstantPoolKey) -> Result<
    IngestorView,
    LoadError,
> {
    if s.traces.contains_key(key.parts()) {
        Ok(s)
    } else {
        match stack_trace_of(chunk, key) {
            Ok(frames) => Ok(s.with_trace(key.parts(), frames)),
            Err(e) => Err(e),
        }
    }
}

/// The state with the sampled thread resolved, unless a thread of its id
/// was seen already; the error where the thread has no name.
pub open spec fn resolved_thread(s: IngestorView, os_thread_id: i64, accessor: Accessor<'static>) -> Result<
    IngestorView,
    LoadError,
> {
    if s.samples.contains_key(os_thread_id) {
        Ok(s)
    } else {
        match thread_of(os_thread_id, accessor) {
            Ok(thread) => Ok(s.with_thread(thread)),
            Err(e) => Err(e),
        }
    }
}

/// The thread state of the key, and the state with its name resolved from
/// its chunk unless the pool holds it already; the error where it cannot
/// be resolved.
pub open spec fn resolved_state(s: IngestorView, chunk: Chunk, key: ConstantPoolKey) -> Result<
    (IngestorView, ThreadState),
    LoadError,
> {
    if s.states.contains_key(key.parts()) {
        Ok((s, thread_state_of(s.states[key.parts()])))
    } else {
        match state_name_of(chunk, key) {
            Some(name) => Ok((s.with_state(key.parts(), name), thread_state_of(name))),
            None => Err(LoadError::MissingField(Field::StateName)),
        }
    }
}

/// The state after one execution sample was taken into it: the keys of
/// its stack trace and of its thread state and the id of its thread are
/// read, then its stack trace, its thread and its thread state are
/// resolved where they are not resolved yet, then its time is read and
/// converted by the clock of the chunk, and the sample is appended to the
/// timeline of its thread. The first of these steps that fails gives the
/// error.
pub open spec fn ingested(
    s: IngestorView,
    chunk_seq: usize,
    chunk: Chunk,
    clock: (i64, i64, i64),
    event: Event<'static>,
) -> Result<IngestorView, LoadError> {
    let value = value_of(event);
    let trace_key = key_of(chunk_seq, value, Field::StackTrace);
    let state_key = key_of(chunk_seq, value, Field::State);
    let thread = field_of(value, "sampledThread"@);
    let os_thread_id = long_under(thread.unwrap(), "osThreadId"@);
    let with_trace = resolved_trace(s, chunk, trace_key.unwrap());
    let with_thread = resolved_thread(with_trace.unwrap(), os_thread_id.unwrap(), thread.unwrap());
    let with_state = resolved_state(with_thread.unwrap(), chunk, state_key.unwrap());
    let tick = long_under(value, "startTime"@);
    let nanos = tick_nanos(clock.0, clock.1, clock.2, tick.unwrap());
    if trace_key is Err {
        Err(failure(trace_key))
    } else if state_key is Err {
        Err(failure(state_key))
    } else if thread is None {
        Err(LoadError::MissingField(Field::SampledThread))
    } else if os_thread_id is None {
        Err(LoadError::MissingField(Field::OsThreadId))
    } else if with_trace is Err {
        Err(failure(with_trace))
    } else if with_thread is Err {
        Err(failure(with_thread))
    } else if with_state is Err {
        Err(failure(with_state))
    } else if tick is None {
        Err(LoadError::MissingField(Field::StartTime))
    } else if nanos is None {
        Err(LoadError::MalformedInput)
    } else {
        Ok(
            with_state.unwrap().0.with_sample(
                os_thread_id.unwrap(),
                nanos.unwrap(),
                with_state.unwrap().1,
                trace_key.unwrap(),
            ),
        )
    }
}

/// Takes one execution sample into the state: resolves its stack trace,
/// its thread and its thread state where they are not resolved yet, and
/// appends the sample to the timeline of its thread.
fn ingest_event<'a>(
    state: &mut Ingestor,
    chunk_seq: usize,
    chunk: &'a Chunk,
    clock: (i64, i64, i64),
    event: &'a Event<'a>,
) -> (r: Result<(), LoadError>)
    requires
        old(state).wf(),
        old(state).event_count < usize::MAX,
    ensures
        final(state).wf(),
        r is Ok ==> final(state).event_count == old(state).event_count + 1,
        r is Ok ==> ingested(old(state)@, chunk_seq, *chunk, clock, *event) == Ok::<
            IngestorView,
            LoadError,
        >(final(state)@),
        r is Err ==> ingested(old(state)@, chunk_seq, *chunk, clock, *event) == Err::<
            IngestorView,
            LoadError,
        >(r.unwrap_err()),
{
    let value = event_value(event);
    let stack_trace_key = match Profile::get_constant_pool(chunk_seq, &value, Field::StackTrace) {
        Ok(key) => key,
        Err(e) => {
            return Err(e);
        },
    };
    let thread_state_key = match Profile::get_constant_pool(chunk_seq, &value, Field::State) {
        Ok(key) => key,
        Err(e) => {
            return Err(e);
        },
    };
    let thread_accessor = match required(get_field(&value, "sampledThread"), Field::SampledThread) {
        Ok(found) => found,
        Err(e) => {
            return Err(e);
        },
    };
    let os_thread_id = match get_field(&thread_accessor, "osThreadId") {
        Some(found) => as_long(&found),
        None => None,
    };
    let os_thread_id = match required(os_thread_id, Field::OsThreadId) {
        Ok(id) => id,
        Err(e) => {
            return Err(e);
        },
    };
    if !state.has_stack_trace(stack_trace_key) {
        match Profile::parse_stack_trace(&stack_trace_key, chunk) {
            Ok(trace) => {
                state.add_stack_trace(stack_trace_key, trace);
            },
            Err(e) => {
                return Err(e);
            },
        }
    }
    if !state.has_thread(os_thread_id) {
        match Profile::parse_thread(os_thread_id, &thread_accessor) {
            Ok(thread) => {
                state.add_thread(thread);
            },
            Err(e) => {
                return Err(e);
            },
        }
    }
    let thread_state = match state.known_state(thread_state_key) {
        Some(known) => known,
        None => match Profile::parse_thread_state(&thread_state_key, chunk) {
            Ok(name) => state.add_state(thread_state_key, name),
            Err(e) => {
                return Err(e);
            },
        },
    };
    let tick = match get_field(&value, "startTime") {
        Some(found) => as_long(&found),
        None => None,
    };
    let tick = match required(tick, Field::StartTime) {
        Ok(tick) => tick,
        Err(e) => {
            return Err(e);
        },
    };
    let nanos = match timestamp_nanos(clock.0, clock.1, clock.2, tick) {
        Some(nanos) => nanos,
        None => {
            return Err(LoadError::MalformedInput);
        },
    };
    state.push_sample(os_thread_id, nanos, thread_state, stack_trace_key);
    Ok(())
}

/// What reading the events of a chunk gives: the state after every
/// execution sample among them was taken into it, and what is left of
/// the budget, of which every event takes one; the error of the first
/// event that cannot be read or taken, or of an event beyond the budget.
pub open spec fn events_read(
    events: EventIterator<'static, 'static>,
    s: IngestorView,
    chunk_seq: usize,
    chunk: Chunk,
    clock: (i64, i64, i64),
    budget: nat,
) -> Result<(IngestorView, nat), LoadError>
    decreases budget,
{
    match event_step(events).0 {
        None => Ok((s, budget)),
        Some(Err(_)) => Err(LoadError::Reader),
        Some(Ok(event)) => if budget == 0 {
            Err(LoadError::MalformedInput)
        } else {
            let taken = if class_name_of(event) == "jdk.ExecutionSample"@ {
                ingested(s, chunk_seq, chunk, clock, event)
            } else {
                Ok(s)
            };
            match taken {
                Err(e) => Err(e),
                Ok(next) => events_read(
                    event_step(events).1,
                    next,
                    chunk_seq,
                    chunk,
                    clock,
                    (budget - 1) as nat,
                ),
            }
        },
    }
}

/// Reading events leaves no more of the budget than there was.
pub proof fn lemma_events_read_budget(
    events: EventIterator<'static, 'static>,
    s: IngestorView,
    chunk_seq: usize,
    chunk: Chunk,
    clock: (i64, i64, i64),
    budget: nat,
)
    ensures
        events_read(events, s, chunk_seq, chunk, clock, budget) matches Ok(read) ==> read.1
            <= budget,
    decreases budget,
{
    match event_step(events).0 {
        Some(Ok(event)) => {
            if budget > 0 {
                let taken = if class_name_of(event) == "jdk.ExecutionSample"@ {
                    ingested(s, chunk_seq, chunk, clock, event)
                } else {
                    Ok(s)
                };
                match taken {
                    Ok(next) => {
                        lemma_events_read_budget(
                            event_step(events).1,
                            next,
                            chunk_seq,
                            chunk,
                            clock,
                            (budget - 1) as nat,
                        );
                    },
                    Err(_) => {},
                }
            }
        },
        _ => {},
    }
}

/// What reading the chunks of a trace gives: the state after the events
/// of every chunk were read, each chunk under its place in the trace, on
/// a budget of which every chunk and every event takes one; the error of
/// the first chunk or event that cannot be read or taken, or of one beyond
/// the budget.
pub open spec fn chunks_read(
    reader: JfrReader<Cursor<Vec<u8>>>,
    s: IngestorView,
    chunk_seq: usize,
    budget: nat,
) -> Result<IngestorView, LoadError>
    decreases budget,
    via chunks_read_decreases
{
    match chunk_step(reader).0 {
        None => Ok(s),
        Some(Err(_)) => Err(LoadError::Reader),
        Some(Ok(found)) => if budget == 0 {
            Err(LoadError::MalformedInput)
        } else {
            match events_read(
                events_of(found.0, found.1),
                s,
                chunk_seq,
                found.1,
                clock_of(found.1),
                (budget - 1) as nat,
            ) {
                Err(e) => Err(e),
                Ok(read) => chunks_read(
                    chunk_step(reader).1,
                    read.0,
                    (chunk_seq + 1) as usize,
                    read.1,
                ),
            }
        },
    }
}

#[via_fn]
proof fn chunks_read_decreases(
    reader: JfrReader<Cursor<Vec<u8>>>,
    s: IngestorView,
    chunk_seq: usize,
    budget: nat,
) {
    match chunk_step(reader).0 {
        Some(Ok(found)) => {
            if budget > 0 {
                lemma_events_read_budget(
                    events_of(found.0, found.1),
                    s,
                    chunk_seq,
                    found.1,
                    clock_of(found.1),
                    (budget - 1) as nat,
                );
            }
        },
        _ => {},
    }
}

/// The number that the eight bytes from `at` give, the first of them the
/// most significant.
pub open spec fn size_at(bytes: Seq<u8>, at: int) -> int {
    ((((((bytes[at] * 256 + bytes[at + 1]) * 256 + bytes[at + 2]) * 256 + bytes[at + 3]) * 256
        + bytes[at + 4]) * 256 + bytes[at + 5]) * 256 + bytes[at + 6]) * 256 + bytes[at + 7]
}

/// The size that a chunk gives itself in its header: the number of the
/// eight bytes that follow the magic and the version.
pub open spec fn chunk_size_at(bytes: Seq<u8>, from: int) -> int {
    size_at(bytes, from + 8)
}

/// Whether every chunk from `from` on, as far as the bytes hold the start
/// of its header, gives itself a size that holds its header and is no
/// more than the bytes that are left.
pub open spec fn chunks_fit(bytes: Seq<u8>, from: int) -> bool
    decreases bytes.len() - from,
{
    if from < 0 || from + 16 > bytes.len() {
        true
    } else {
        let size = chunk_size_at(bytes, from);
        68 <= size <= bytes.len() - from && size <= i64::MAX && chunks_fit(bytes, from + size)
    }
}

/// The number that the eight bytes from `at` give.
fn read_size(bytes: &Vec<u8>, at: usize) -> (r: u64)
    requires
        at + 8 <= bytes.len(),
    ensures
        r == size_at(bytes@, at as int),
{
    let a: u64 = bytes[at] as u64 * 256 + bytes[at + 1] as u64;
    let b: u64 = a * 256 + bytes[at + 2] as u64;
    let c: u64 = b * 256 + bytes[at + 3] as u64;
    let d: u64 = c * 256 + bytes[at + 4] as u64;
    let e: u64 = d * 256 + bytes[at + 5] as u64;
    let f: u64 = e * 256 + bytes[at + 6] as u64;
    f * 256 + bytes[at + 7] as u64
}

/// Whether every chunk gives itself a size that fits the bytes.
pub fn check_chunks(bytes: &Vec<u8>) -> (r: bool)
    ensures
        r == chunks_fit(bytes@, 0),
{
    let mut from: usize = 0;
    while bytes.len() - from >= 16
        invariant
            from <= bytes.len(),
            chunks_fit(bytes@, 0) == chunks_fit(bytes@, from as int),
        decreases bytes.len() - from,
    {
        let size = read_size(bytes, from + 8);
        if size < 68 || size > (bytes.len() - from) as u64 || size > i64::MAX as u64 {
            return false;
        }
        from = from + size as usize;
    }
    true
}

/// Whether the reader of the bytes returns from every step of reading
/// them.
pub open spec fn readable(bytes: Seq<u8>) -> bool {
    returns_to_end(reader_of(bytes))
}

/// What loading a trace gives: the state after its chunks were read, on a
/// budget of as many chunks and events as the trace has bytes.
pub open spec fn trace_read(bytes: Seq<u8>) -> Result<IngestorView, LoadError> {
    chunks_read(reader_of(bytes), fresh_state(), 0, bytes.len())
}

impl Profile {
    /// Whether the profile holds what the state of an ingestion holds: the
    /// same threads, threads of one name in the order of the state; the
    /// same stack traces; and in the timeline of each thread the same
    /// samples, samples of one time in the order of the state.
    pub open spec fn holds(&self, s: IngestorView) -> bool {
        &&& thread_views(self.threads@).to_multiset() == s.threads.to_multiset()
        &&& self.stack_trace_pool@.dom() == s.traces.dom()
        &&& forall|k: (usize, i64, i64)|
            s.traces.contains_key(k) ==> (#[trigger] self.stack_trace_pool@[k])@ == s.traces[k]
        &&& self.per_thread_samples@.dom() == s.samples.dom()
        &&& forall|id: i64|
            s.samples.contains_key(id) ==> (#[trigger] self.per_thread_samples@[id])@.to_multiset()
                == s.samples[id].to_multiset()
        &&& forall|id: i64, t: i64|
            s.samples.contains_key(id) ==> #[trigger] at_time(self.per_thread_samples@[id]@, t)
                == at_time(s.samples[id], t)
        &&& forall|name: Seq<char>| #[trigger]
            named(thread_views(self.threads@), name) == named(s.threads, name)
        &&& self.column_count == s.column_count
        &&& self.interval == s.interval
    }

    /// Loads a binary trace, replacing what the profile held, and returns
    /// the number of execution samples read.
    ///
    /// The samples of a thread are put in order of time, samples of one
    /// time in the order in which the trace holds them. Everything loaded
    /// is visible afterwards. Where the trace cannot be read to its end,
    /// the profile is left as it was. A trace that yields more chunks and
    /// events than it has bytes is malformed, and so is one with a chunk
    /// that gives itself a size that does not fit the bytes; such a trace
    /// is not handed to the reader. The reader does not return on every
    /// other input: the bytes must be such that it does.
    pub fn load(&mut self, bytes: Vec<u8>) -> (r: Result<usize, LoadError>)
        requires
            chunks_fit(bytes@, 0) ==> readable(bytes@),
        ensures
            !chunks_fit(bytes@, 0) ==> r == Err::<usize, LoadError>(LoadError::MalformedInput),
            r is Ok == (chunks_fit(bytes@, 0) && trace_read(bytes@) is Ok),
            r is Ok ==> {
                &&& final(self).wf()
                &&& final(self).holds(trace_read(bytes@).unwrap())
                &&& r.unwrap() == trace_read(bytes@).unwrap().event_count
                &&& r.unwrap() == final(self).total()
                &&& r.unwrap() <= bytes@.len()
                &&& thread_views(final(self).filtered_threads@) == thread_views(final(self).threads@)
                &&& final(self).filtered_stack_trace_keys@ == final(self).stack_trace_pool@.dom()
            },
            r is Err ==> *final(self) == *old(self),
            r is Err && chunks_fit(bytes@, 0) ==> r.unwrap_err() == failure(trace_read(bytes@)),
    {
        if !check_chunks(&bytes) {
            return Err(LoadError::MalformedInput);
        }
        let mut budget = bytes.len();
        let ghost size = bytes.len();
        let ghost outcome = trace_read(bytes@);
        let mut reader = open_reader(bytes);
        let mut state = Ingestor::new();
        let mut chunk_seq: usize = 0;
        assert(sample_total(thread_views(state.threads@), state.samples@) == 0);
        loop
            invariant_except_break
                outcome == chunks_read(reader, state@, chunk_seq, budget as nat),
            invariant
                returns_to_end(reader),
                chunks_fit(bytes@, 0),
                state.wf(),
                state.event_count + budget <= size,
                chunk_seq + budget <= size,
                *self == *old(self),
                outcome == trace_read(bytes@),
                size == bytes@.len(),
            ensures
                outcome == Ok::<IngestorView, LoadError>(state@),
            decreases budget,
        {
            let ghost stepped = reader;
            let (mut chunk_reader, chunk) = match next_chunk(&mut reader) {
                None => {
                    break ;
                },
                Some(Err(_)) => {
                    return Err(LoadError::Reader);
                },
                Some(Ok(found)) => found,
            };
            if budget == 0 {
                return Err(LoadError::MalformedInput);
            }
            let ghost before_chunk = budget;
            budget = budget - 1;
            let clock = chunk_clock(&chunk);
            let ghost rest = events_read(
                events_of(chunk_reader, chunk),
                state@,
                chunk_seq,
                chunk,
                clock,
                budget as nat,
            );
            let mut events = chunk_events(&mut chunk_reader, &chunk);
            loop
                invariant_except_break
                    rest == events_read(events, state@, chunk_seq, chunk, clock, budget as nat),
                invariant
                    events_return(events),
                    returns_to_end(reader),
                    chunks_fit(bytes@, 0),
                    state.wf(),
                    state.event_count + budget <= size,
                    chunk_seq + 1 + budget <= size,
                    budget < before_chunk,
                    *self == *old(self),
                    outcome == trace_read(bytes@),
                    size == bytes@.len(),
                    clock == clock_of(chunk),
                    outcome == (match rest {
                        Err(e) => Err::<IngestorView, LoadError>(e),
                        Ok(read) => chunks_read(reader, read.0, (chunk_seq + 1) as usize, read.1),
                    }),
                ensures
                    rest == Ok::<(IngestorView, nat), LoadError>((state@, budget as nat)),
                decreases budget,
            {
                let event = match next_event(&mut events) {
                    None => {
                        break ;
                    },
                    Some(Err(_)) => {
                        return Err(LoadError::Reader);
                    },
                    Some(Ok(found)) => found,
                };
                if budget == 0 {
                    return Err(LoadError::MalformedInput);
                }
                budget = budget - 1;
                if str_eq(event_class_name(&event), "jdk.ExecutionSample") {
                    match ingest_event(&mut state, chunk_seq, &chunk, clock, &event) {
                        Ok(()) => {},
                        Err(e) => {
                            return Err(e);
                        },
                    }
                }
            }
            chunk_seq = chunk_seq + 1;
        }
        let count = state.event_count;
        *self = state.finish();
        Ok(count)
    }
}

/// What a profile of execution samples shows: a pattern that the names of
/// the threads must match, one that the text of the stack traces must
/// match, and one that it must not match. A pattern that is absent
/// excludes nothing.
#[derive(Debug)]
pub struct Filter {
    pub thread_name_regex: Option<String>,
    pub stack_trace_match_regex: Option<String>,
    pub stack_trace_reject_regex: Option<String>,
}

impl Default for Filter {
    fn default() -> (r: Self)
        ensures
            r.thread_name_regex is None,
            r.stack_trace_match_regex is None,
            r.stack_trace_reject_regex is None,
    {
        Filter {
            thread_name_regex: None,
            stack_trace_match_regex: None,
            stack_trace_reject_regex: None,
        }
    }
}

impl Filter {
    /// Whether every pattern of the filter compiles.
    pub open spec fn usable(&self) -> bool {
        &&& usable(pattern_view(self.thread_name_regex))
        &&& usable(pattern_view(self.stack_trace_match_regex))
        &&& usable(pattern_view(self.stack_trace_reject_regex))
    }
}

/// The keys of the stack traces of a pool whose text passes the two
/// patterns.
pub open spec fn visible_keys(
    pool: Map<(usize, i64, i64), StackTrace>,
    wanted: Option<Seq<char>>,
    rejected: Option<Seq<char>>,
) -> Set<(usize, i64, i64)> {
    keys_passing(pool, regex_of(wanted), regex_of(rejected))
}

/// The keys of the stack traces of a pool whose text passes the two
/// regular expressions.
pub open spec fn keys_passing(
    pool: Map<(usize, i64, i64), StackTrace>,
    wanted: Option<Regex>,
    rejected: Option<Regex>,
) -> Set<(usize, i64, i64)> {
    Set::new(
        |k: (usize, i64, i64)|
            pool.contains_key(k) && passes_by(rendered(pool[k]@), wanted, rejected),
    )
}

/// The keys of the stack traces of a pool whose text passes the two
/// regular expressions.
fn filter_keys(
    pool: &FxHashMap<(usize, i64, i64), StackTrace>,
    wanted: &Option<Regex>,
    rejected: &Option<Regex>,
) -> (r: FxHashSet<(usize, i64, i64)>)
    ensures
        r@ == keys_passing(pool@, *wanted, *rejected),
{
    if wanted.is_none() && rejected.is_none() {
        let all = all_keys(pool);
        assert(all@ =~= keys_passing(pool@, *wanted, *rejected));
        return all;
    }
    let keys = map_keys(pool);
    let ghost goal = keys_passing(pool@, *wanted, *rejected);
    let mut set: FxHashSet<(usize, i64, i64)> = set_new();
    let mut i: usize = 0;
    while i < keys.len()
        invariant
            i <= keys.len(),
            keys@.to_set() == pool@.dom(),
            goal == keys_passing(pool@, *wanted, *rejected),
            set@ =~= goal.intersect(keys@.take(i as int).to_set()),
        decreases keys.len() - i,
    {
        let key = keys[i];
        assert(keys@.to_set().contains(key)) by {
            assert(keys@.contains(keys@[i as int]));
        }
        let keep = match map_get(pool, key) {
            Some(trace) => {
                let text = render(trace);
                passes_both(text.as_str(), wanted, rejected)
            },
            None => false,
        };
        assert(keep == goal.contains(key));
        if keep {
            set_insert(&mut set, key);
        }
        proof {
            lemma_take_one_more(keys@, i as int);
        }
        i = i + 1;
    }
    proof {
        assert(keys@.take(keys@.len() as int) =~= keys@);
        assert(set@ =~= goal);
    }
    set
}

impl Profile {
    /// Whether this profile is `before` with nothing changed but what is
    /// visible, and with visible what the filter lets pass.
    pub open spec fn filtered_as(&self, before: &Profile, filter: &Filter) -> bool {
        &&& self.threads == before.threads
        &&& self.stack_trace_pool == before.stack_trace_pool
        &&& self.per_thread_samples == before.per_thread_samples
        &&& self.column_count == before.column_count
        &&& self.interval == before.interval
        &&& thread_views(self.filtered_threads@) == visible_threads(
            thread_views(before.threads@),
            pattern_view(filter.thread_name_regex),
        )
        &&& self.filtered_stack_trace_keys@ == visible_keys(
            before.stack_trace_pool@,
            pattern_view(filter.stack_trace_match_regex),
            pattern_view(filter.stack_trace_reject_regex),
        )
    }

    /// Makes visible the threads and the stack traces that the filter lets
    /// pass, whatever was visible before. Where a pattern of the filter
    /// does not compile, nothing changes.
    pub fn apply_filter(&mut self, filter: Filter) -> (r: Result<(), FilterError>)
        ensures
            r is Ok == filter.usable(),
            r is Ok ==> final(self).filtered_as(old(self), &filter),
            r is Err ==> *final(self) == *old(self) && r == Err::<(), FilterError>(
                FilterError::InvalidPattern,
            ),
            old(self).wf() ==> final(self).wf(),
    {
        let thread_name = match compile_optional(&filter.thread_name_regex) {
            Ok(re) => re,
            Err(e) => {
                return Err(e);
            },
        };
        let wanted = match compile_optional(&filter.stack_trace_match_regex) {
            Ok(re) => re,
            Err(e) => {
                return Err(e);
            },
        };
        let rejected = match compile_optional(&filter.stack_trace_reject_regex) {
            Ok(re) => re,
            Err(e) => {
                return Err(e);
            },
        };
        self.filtered_threads = filter_threads(&self.threads, &thread_name);
        self.filtered_stack_trace_keys = filter_keys(&self.stack_trace_pool, &wanted, &rejected);
        Ok(())
    }
}

/// Applying a filter twice shows what applying it once shows: what is
/// visible depends on the filter and on what was loaded, not on what
/// was visible before.
pub proof fn lemma_filter_idempotent(before: Profile, once: Profile, twice: Profile, filter: Filter)
    requires
        once.filtered_as(&before, &filter),
        twice.filtered_as(&once, &filter),
    ensures
        thread_views(twice.filtered_threads@) == thread_views(once.filtered_threads@),
        twice.filtered_stack_trace_keys@ == once.filtered_stack_trace_keys@,
        twice.filtered_as(&before, &filter),
{
}

/// A filter without patterns shows every thread and every stack trace.
pub proof fn lemma_empty_filter_shows_all(before: Profile, after: Profile, filter: Filter)
    requires
        filter.thread_name_regex is None,
        filter.stack_trace_match_regex is None,
        filter.stack_trace_reject_regex is None,
        after.filtered_as(&before, &filter),
    ensures
        thread_views(after.filtered_threads@) == thread_views(before.threads@),
        after.filtered_stack_trace_keys@ == before.stack_trace_pool@.dom(),
{
    assert(after.filtered_stack_trace_keys@ =~= before.stack_trace_pool@.dom());
}

impl Profile {
    /// Loads a binary trace that may be compressed: decompresses all of it,
    /// then loads it.
    pub fn load_encoded(&mut self, bytes: Vec<u8>, encoding: Encoding) -> (r: Result<usize, LoadError>)
        requires
            decoded(bytes@, encoding) matches Some(trace) ==> (chunks_fit(trace, 0) ==> readable(
                trace,
            )),
        ensures
            r is Ok == (decoded(bytes@, encoding) is Some && chunks_fit(
                decoded(bytes@, encoding).unwrap(),
                0,
            ) && trace_read(
                decoded(bytes@, encoding).unwrap(),
            ) is Ok),
            r is Ok ==> {
                &&& final(self).wf()
                &&& final(self).holds(trace_read(decoded(bytes@, encoding).unwrap()).unwrap())
                &&& r.unwrap() == final(self).total()
                &&& thread_views(final(self).filtered_threads@) == thread_views(final(self).threads@)
                &&& final(self).filtered_stack_trace_keys@ == final(self).stack_trace_pool@.dom()
            },
            r is Err ==> *final(self) == *old(self),
            decoded(bytes@, encoding) is None ==> r == Err::<usize, LoadError>(
                LoadError::Compression,
            ),
            r is Err && decoded(bytes@, encoding) is Some && chunks_fit(
                decoded(bytes@, encoding).unwrap(),
                0,
            ) ==> r.unwrap_err() == failure(trace_read(decoded(bytes@, encoding).unwrap())),
            decoded(bytes@, encoding) is Some && !chunks_fit(decoded(bytes@, encoding).unwrap(), 0)
                ==> r == Err::<usize, LoadError>(LoadError::MalformedInput),
    {
        match decode(bytes, encoding) {
            Some(trace) => self.load(trace),
            None => Err(LoadError::Compression),
        }
    }
}

} // verus!
