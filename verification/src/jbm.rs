//! Profiles of off-CPU samples, read from the text log of a blocking
//! monitor.

use crate::clock::{datetime_of, datetime_year, local_millis, parse_datetime, year_of};
use crate::execution_sample::{LoadError, clone_threads, frame_views};
use crate::execution_sample::ingest::truncated_quotient;
use crate::filter::{
    FilterError, compile_optional, filter_threads, pattern_view, usable, visible_threads,
};
use crate::fx::{map_get, map_insert, map_keys, map_new, map_remove};
use crate::interval::TimeInterval;
use crate::pattern::{captured, captures, compile, compiled, groups_view};
use crate::profile::{
    FrameType, OffCpu, StackFrame, StackFrameView, StackTrace, Thread, ThreadState, ThreadView,
};
use crate::text::{hex_string, hex_text, lines_of, parse_i64, parsed_i64, split_lines, texts};
use crate::timeline::{
    at_start, distinct_ids, has_thread_id, lemma_reordered_threads, named,
    lemma_same_items, sort_by_name, sort_by_start, sorted_by_name, sorted_by_start, thread_views,
};
use regex::Regex;
use rustc_hash::FxHashMap;
use vstd::prelude::*;
use vstd::string::StringExecFns;

verus! {

/// What a profile of off-CPU samples shows: a pattern that the names of
/// the threads must match, or nothing to show every thread.
#[derive(Debug)]
pub struct JbmFilter {
    pub thread_name_regex: Option<String>,
}

impl Default for JbmFilter {
    fn default() -> (r: Self)
        ensures
            r.thread_name_regex is None,
    {
        JbmFilter { thread_name_regex: None }
    }
}

/// The first line of a sample of the log, as the log gives it.
#[derive(Debug)]
pub struct Header {
    /// The date and time at which the thread went on, to the second.
    pub timestamp: String,
    /// The milliseconds past that second.
    pub millis: i64,
    /// The OS thread id.
    pub thread_id: i64,
    /// The name of the thread.
    pub thread_name: String,
    /// For how long the thread was blocked, in milliseconds.
    pub duration_millis: i64,
}

/// A header as plain values.
pub struct HeaderView {
    pub timestamp: Seq<char>,
    pub millis: i64,
    pub thread_id: i64,
    pub thread_name: Seq<char>,
    pub duration_millis: i64,
}

impl View for Header {
    type V = HeaderView;

    open spec fn view(&self) -> HeaderView {
        HeaderView {
            timestamp: self.timestamp@,
            millis: self.millis,
            thread_id: self.thread_id,
            thread_name: self.thread_name@,
            duration_millis: self.duration_millis,
        }
    }
}

/// The pattern of the first line of a sample: the date and time, the
/// milliseconds, the id and the name of the thread, and for how many
/// microseconds it was blocked.
pub const HEADER_PATTERN: &'static str =
    "^=== ([-: 0-9]+)\\.([0-9]+) PID: [0-9]+, TID: ([0-9]+) \\(([^),]*)\\), DURATION: ([0-9]+) us";

/// The pattern of a line of a call stack: a numbered frame, a separator,
/// or the heading of the JVM stack or of the native stack.
pub const FRAME_PATTERN: &'static str =
    "^(?:(\\s*[0-9]+: \\[0x[0-9A-Fa-f]+].*)|(-----+)|(JVM Stack).*|(Native Stack:).*)$";

/// Whether the groups are those of a header line: the whole match and
/// five groups, each of which took part in the match.
pub open spec fn header_shaped(groups: Seq<Option<Seq<char>>>) -> bool {
    &&& groups.len() == 6
    &&& groups[1] is Some
    &&& groups[2] is Some
    &&& groups[3] is Some
    &&& groups[4] is Some
    &&& groups[5] is Some
}

/// The header that the groups of a header line give: nothing where a
/// number among them does not fit in 64 bits. The microseconds of the
/// duration are cut to milliseconds.
pub open spec fn header_of(groups: Seq<Option<Seq<char>>>) -> Option<HeaderView> {
    let millis = parsed_i64(groups[2].unwrap());
    let thread_id = parsed_i64(groups[3].unwrap());
    let micros = parsed_i64(groups[5].unwrap());
    if header_shaped(groups) && millis is Some && thread_id is Some && micros is Some {
        Some(
            HeaderView {
                timestamp: groups[1].unwrap(),
                millis: millis.unwrap(),
                thread_id: thread_id.unwrap(),
                thread_name: groups[4].unwrap(),
                duration_millis: truncated_quotient(micros.unwrap() as int, 1000) as i64,
            },
        )
    } else {
        None
    }
}

/// The header that the groups of a header line give.
pub fn parse_header(groups: &Vec<Option<String>>) -> (r: Result<Header, LoadError>)
    ensures
        r is Ok == header_of(groups_view(groups@)) is Some,
        r is Ok ==> r.unwrap()@ == header_of(groups_view(groups@)).unwrap(),
        r is Err ==> r == Err::<Header, LoadError>(LoadError::MalformedInput),
{
    if groups.len() != 6 {
        return Err(LoadError::MalformedInput);
    }
    let ghost view = groups_view(groups@);
    assert(view[1] == groups_view(groups@)[1]);
    match (&groups[1], &groups[2], &groups[3], &groups[4], &groups[5]) {
        (Some(timestamp), Some(millis), Some(thread_id), Some(thread_name), Some(micros)) => {
            assert(view[1] == Some(timestamp@));
            assert(view[2] == Some(millis@));
            assert(view[3] == Some(thread_id@));
            assert(view[4] == Some(thread_name@));
            assert(view[5] == Some(micros@));
            let millis = match parse_i64(millis.as_str()) {
                Some(n) => n,
                None => {
                    return Err(LoadError::MalformedInput);
                },
            };
            let thread_id = match parse_i64(thread_id.as_str()) {
                Some(n) => n,
                None => {
                    return Err(LoadError::MalformedInput);
                },
            };
            let micros = match parse_i64(micros.as_str()) {
                Some(n) => n,
                None => {
                    return Err(LoadError::MalformedInput);
                },
            };
            Ok(
                Header {
                    timestamp: timestamp.clone(),
                    millis,
                    thread_id,
                    thread_name: thread_name.clone(),
                    duration_millis: micros / 1000,
                },
            )
        },
        _ => {
            assert(!header_shaped(view)) by {
                assert(view[1] is Some == groups@[1] is Some);
                assert(view[2] is Some == groups@[2] is Some);
                assert(view[3] is Some == groups@[3] is Some);
                assert(view[4] is Some == groups@[4] is Some);
                assert(view[5] is Some == groups@[5] is Some);
            }
            Err(LoadError::MalformedInput)
        },
    }
}

/// The text of the frame that the groups of a stack line give: that of the
/// first group that took part in the match, or nothing where none did.
pub open spec fn frame_text_of(groups: Seq<Option<Seq<char>>>) -> Seq<char> {
    if groups.len() > 1 && groups[1] is Some {
        groups[1].unwrap()
    } else if groups.len() > 2 && groups[2] is Some {
        groups[2].unwrap()
    } else if groups.len() > 3 && groups[3] is Some {
        groups[3].unwrap()
    } else if groups.len() > 4 && groups[4] is Some {
        groups[4].unwrap()
    } else {
        Seq::empty()
    }
}

/// The text of the frame that the groups of a stack line give.
pub fn frame_text(groups: &Vec<Option<String>>) -> (r: String)
    ensures
        r@ == frame_text_of(groups_view(groups@)),
{
    let ghost view = groups_view(groups@);
    let mut i: usize = 1;
    while i < 5 && i < groups.len()
        invariant
            1 <= i <= 5,
            view == groups_view(groups@),
            forall|j: int| 1 <= j < i && j < groups.len() ==> (#[trigger] view[j]) is None,
        decreases 5 - i,
    {
        assert(view[i as int] is Some == groups@[i as int] is Some);
        match &groups[i] {
            Some(text) => {
                assert(view[i as int] == Some(text@));
                return text.clone();
            },
            None => {},
        }
        i = i + 1;
    }
    String::new()
}

/// The name under which a thread of the log is shown: its name, and its
/// id in hexadecimal.
pub open spec fn shown_name(thread_name: Seq<char>, thread_id: i64) -> Seq<char> {
    thread_name + " [tid=0x"@ + hex_text(thread_id) + "]"@
}

/// The name under which a thread of the log is shown.
pub fn thread_label(thread_name: &str, thread_id: i64) -> (r: String)
    ensures
        r@ == shown_name(thread_name@, thread_id),
{
    let mut label = String::from_str(thread_name);
    label.append(" [tid=0x");
    let digits = hex_string(thread_id);
    label.append(digits.as_str());
    label.append("]");
    assert(label@ =~= shown_name(thread_name@, thread_id));
    label
}

/// A sample of which the header was read and the call stack is being
/// read.
#[derive(Debug)]
pub struct ParsingSample {
    pub timestamp: i64,
    pub duration: i64,
    pub thread_id: i64,
    pub state: ThreadState,
    pub frames: Vec<StackFrame>,
}

/// The place of the first stack trace of the list that equals the given
/// one, or the length of the list where none does.
pub open spec fn place_of(traces: Seq<StackTrace>, trace: StackTrace) -> int
    decreases traces.len(),
{
    if traces.len() == 0 {
        0
    } else {
        let before = place_of(traces.drop_last(), trace);
        if before < traces.len() - 1 {
            before
        } else if traces.last()@ == trace@ {
            traces.len() - 1
        } else {
            traces.len() as int
        }
    }
}

/// The place of the first stack trace of the list that equals the given
/// one.
fn find_trace(traces: &Vec<StackTrace>, trace: &StackTrace) -> (r: usize)
    ensures
        r == place_of(traces@, *trace),
        r <= traces.len(),
        r < traces.len() ==> traces@[r as int]@ == trace@,
{
    let mut i: usize = 0;
    while i < traces.len()
        invariant
            i <= traces.len(),
            place_of(traces@.take(i as int), *trace) == i,
        decreases traces.len() - i,
    {
        proof {
            assert(traces@.take(i + 1).drop_last() =~= traces@.take(i as int));
            assert(traces@.take(i + 1).last() == traces@[i as int]);
        }
        if traces[i].same(trace) {
            proof {
                lemma_place_stays(traces@, *trace, i + 1);
            }
            return i;
        }
        i = i + 1;
    }
    assert(traces@.take(traces.len() as int) =~= traces@);
    i
}

/// A place found among the first stack traces of a list is the place in
/// the list.
pub proof fn lemma_place_stays(traces: Seq<StackTrace>, trace: StackTrace, n: int)
    requires
        0 <= n <= traces.len(),
        place_of(traces.take(n), trace) < n,
    ensures
        place_of(traces, trace) == place_of(traces.take(n), trace),
        traces[place_of(traces, trace)]@ == trace@,
    decreases traces.len() - n,
{
    if n < traces.len() {
        assert(traces.take(n + 1).drop_last() =~= traces.take(n));
        lemma_place_stays(traces, trace, n + 1);
    } else {
        assert(traces.take(n) =~= traces);
        lemma_place_found(traces, trace);
    }
}

/// At a place within the list stands a stack trace that equals the given
/// one.
pub proof fn lemma_place_found(traces: Seq<StackTrace>, trace: StackTrace)
    requires
        place_of(traces, trace) < traces.len(),
    ensures
        0 <= place_of(traces, trace),
        traces[place_of(traces, trace)]@ == trace@,
    decreases traces.len(),
{
    if traces.len() > 0 {
        let before = place_of(traces.drop_last(), trace);
        if before < traces.len() - 1 {
            lemma_place_found(traces.drop_last(), trace);
            assert(traces.drop_last()[before] == traces[before]);
        } else {
            lemma_place_bounds(traces.drop_last(), trace);
        }
    }
}

/// A place is never negative and never beyond the length of the list.
pub proof fn lemma_place_bounds(traces: Seq<StackTrace>, trace: StackTrace)
    ensures
        0 <= place_of(traces, trace) <= traces.len(),
    decreases traces.len(),
{
    if traces.len() > 0 {
        lemma_place_bounds(traces.drop_last(), trace);
    }
}

/// Whether every sample of every timeline has its stack trace among the
/// first `n` of the pool.
pub open spec fn keys_below(samples: Map<i64, Vec<OffCpu>>, n: int) -> bool {
    forall|id: i64, i: int|
        samples.contains_key(id) && 0 <= i < samples[id]@.len() ==> 0 <= (
        #[trigger] samples[id]@[i]).stack_trace_key < n
}

/// Files a finished sample: puts its stack trace into the pool unless the
/// pool holds an equal one, and appends the sample, with the place of the
/// stack trace as its key, to the timeline of its thread.
///
/// Returns whether the sample was filed; it is not where the pool is
/// full, and then nothing changes.
pub fn flush_sample(
    sample: ParsingSample,
    stack_trace_pool: &mut Vec<StackTrace>,
    per_thread_samples: &mut FxHashMap<i64, Vec<OffCpu>>,
) -> (r: bool)
    requires
        old(stack_trace_pool).len() <= i32::MAX,
        keys_below(old(per_thread_samples)@, old(stack_trace_pool).len() as int),
    ensures
        final(stack_trace_pool).len() <= i32::MAX,
        keys_below(final(per_thread_samples)@, final(stack_trace_pool).len() as int),
        r == (place_of(old(stack_trace_pool)@, StackTrace { frames: sample.frames }) < i32::MAX),
        !r ==> *final(stack_trace_pool) == *old(stack_trace_pool) && *final(per_thread_samples)
            == *old(per_thread_samples),
        r ==> {
            let trace = StackTrace { frames: sample.frames };
            let place = place_of(old(stack_trace_pool)@, trace);
            let filed = OffCpu {
                timestamp: sample.timestamp,
                duration_millis: sample.duration,
                state: sample.state,
                stack_trace_key: place as i32,
            };
            let timeline = if old(per_thread_samples)@.contains_key(sample.thread_id) {
                old(per_thread_samples)@[sample.thread_id]@
            } else {
                Seq::empty()
            };
            &&& final(stack_trace_pool)@ == (if place < old(stack_trace_pool).len() {
                old(stack_trace_pool)@
            } else {
                old(stack_trace_pool)@.push(trace)
            })
            &&& final(per_thread_samples)@.dom() == old(per_thread_samples)@.dom().insert(
                sample.thread_id,
            )
            &&& final(per_thread_samples)@[sample.thread_id]@ == timeline.push(filed)
            &&& forall|id: i64|
                id != sample.thread_id && old(per_thread_samples)@.contains_key(id) ==> final(per_thread_samples)@[id] == old(per_thread_samples)@[id]
        },
{
    let thread_id = sample.thread_id;
    let timestamp = sample.timestamp;
    let duration = sample.duration;
    let state = sample.state;
    let trace = StackTrace { frames: sample.frames };
    let place = find_trace(stack_trace_pool, &trace);
    if place >= i32::MAX as usize {
        return false;
    }
    if place == stack_trace_pool.len() {
        stack_trace_pool.push(trace);
    }
    let ghost before = per_thread_samples@;
    let mut timeline = match map_remove(per_thread_samples, thread_id) {
        Some(timeline) => timeline,
        None => Vec::new(),
    };
    let ghost old_timeline = timeline@;
    timeline.push(OffCpu { timestamp, duration_millis: duration, state, stack_trace_key: place as i32 });
    map_insert(per_thread_samples, thread_id, timeline);
    proof {
        let after = per_thread_samples@;
        assert(after.dom() =~= before.dom().insert(thread_id));
        assert forall|id: i64, i: int|
            after.contains_key(id) && 0 <= i < after[id]@.len() implies 0 <= (
        #[trigger] after[id]@[i]).stack_trace_key < stack_trace_pool.len() by {
            if id == thread_id {
                if i < old_timeline.len() {
                    assert(after[id]@[i] == before[id]@[i]);
                }
            } else {
                assert(after[id]@[i] == before[id]@[i]);
            }
        }
    }
    true
}

/// Adds a thread to the list, unless the list holds one of its id: a
/// thread keeps the name under which it was first seen.
pub fn note_thread(threads: &mut Vec<Thread>, thread: Thread)
    ensures
        thread_views(final(threads)@) == (if has_thread_id(
            thread_views(old(threads)@),
            thread.os_thread_id,
        ) {
            thread_views(old(threads)@)
        } else {
            thread_views(old(threads)@).push(thread@)
        }),
        distinct_ids(thread_views(old(threads)@)) ==> distinct_ids(thread_views(final(threads)@)),
{
    let ghost views = thread_views(threads@);
    let mut i: usize = 0;
    while i < threads.len()
        invariant
            i <= threads.len(),
            *threads == *old(threads),
            views == thread_views(threads@),
            forall|j: int| 0 <= j < i ==> (#[trigger] views[j]).os_thread_id != thread.os_thread_id,
        decreases threads.len() - i,
    {
        if threads[i].os_thread_id == thread.os_thread_id {
            assert(views[i as int].os_thread_id == thread.os_thread_id);
            return ;
        }
        i = i + 1;
    }
    let ghost view = thread@;
    threads.push(thread);
    proof {
        let after = thread_views(threads@);
        assert(after =~= views.push(view));
        if distinct_ids(views) {
            assert forall|a: int, b: int| 0 <= a < b < after.len() implies (
            #[trigger] after[a]).os_thread_id != (#[trigger] after[b]).os_thread_id by {
                assert(after[a] == views[a]);
                if b < views.len() {
                    assert(after[b] == views[b]);
                }
            }
        }
    }
}

/// The sample that a header starts, given the instant that its date and
/// time denote in milliseconds since the Unix epoch: the header's time is
/// the end of the blocking, so the sample starts the duration before it.
/// Nothing where the start or the end is out of the range of time.
pub open spec fn sample_start(header: HeaderView, clock_millis: i64) -> Option<i64> {
    let end = clock_millis + header.millis;
    let start = end - header.duration_millis;
    if i64::MIN <= start <= i64::MAX && i64::MIN <= end <= i64::MAX {
        Some(start as i64)
    } else {
        None
    }
}

/// The sample that a header starts.
pub fn begin_sample(header: &Header, clock_millis: i64) -> (r: Option<ParsingSample>)
    ensures
        r is Some == sample_start(header@, clock_millis) is Some,
        r is Some ==> {
            &&& r.unwrap().timestamp == sample_start(header@, clock_millis).unwrap()
            &&& r.unwrap().duration == header.duration_millis
            &&& r.unwrap().thread_id == header.thread_id
            &&& r.unwrap().state == ThreadState::Unknown
            &&& r.unwrap().frames@.len() == 0
            &&& r.unwrap().timestamp + r.unwrap().duration == clock_millis + header.millis
        },
{
    let end: i128 = clock_millis as i128 + header.millis as i128;
    let start: i128 = end - header.duration_millis as i128;
    if start < i64::MIN as i128 || start > i64::MAX as i128 || end < i64::MIN as i128 || end
        > i64::MAX as i128 {
        return None;
    }
    Some(
        ParsingSample {
            timestamp: start as i64,
            duration: header.duration_millis,
            thread_id: header.thread_id,
            state: ThreadState::Unknown,
            frames: Vec::new(),
        },
    )
}

/// A profile of off-CPU samples.
pub struct Profile {
    /// The threads, in ascending order of name.
    pub threads: Vec<Thread>,
    /// The visible threads.
    pub filtered_threads: Vec<Thread>,
    /// The stack traces, by the number under which the samples name them.
    pub stack_trace_pool: FxHashMap<i32, StackTrace>,
    /// The samples of each thread by its id, in ascending order of start.
    pub per_thread_samples: FxHashMap<i64, Vec<OffCpu>>,
    /// The span of the samples, in milliseconds.
    pub interval: TimeInterval,
}

/// Whether the interval holds every sample from its start to its end.
pub open spec fn covers(samples: Map<i64, Vec<OffCpu>>, interval: TimeInterval) -> bool {
    forall|id: i64, i: int|
        samples.contains_key(id) && 0 <= i < samples[id]@.len() ==> interval.start_millis <= (
        #[trigger] samples[id]@[i]).timestamp && samples[id]@[i].timestamp
            + samples[id]@[i].duration_millis <= interval.end_millis
}

/// Whether every timeline stands in ascending order of start.
pub open spec fn timelines_sorted(samples: Map<i64, Vec<OffCpu>>) -> bool {
    forall|id: i64| samples.contains_key(id) ==> sorted_by_start((#[trigger] samples[id])@)
}

/// Whether the pool holds the stack trace of every sample.
pub open spec fn keys_known(samples: Map<i64, Vec<OffCpu>>, pool: Map<i32, StackTrace>) -> bool {
    forall|id: i64, i: int|
        samples.contains_key(id) && 0 <= i < samples[id]@.len() ==> pool.contains_key(
            (#[trigger] samples[id]@[i]).stack_trace_key,
        )
}

impl Profile {
    /// The invariant of a profile: the threads stand in order of name and
    /// have distinct ids, the timelines stand in order of start, the pool holds the stack trace of
    /// every sample, and the interval holds every sample.
    pub open spec fn wf(&self) -> bool {
        &&& sorted_by_name(thread_views(self.threads@))
        &&& distinct_ids(thread_views(self.threads@))
        &&& timelines_sorted(self.per_thread_samples@)
        &&& keys_known(self.per_thread_samples@, self.stack_trace_pool@)
        &&& covers(self.per_thread_samples@, self.interval)
    }

    /// A profile without threads and without samples.
    pub fn new() -> (r: Self)
        ensures
            r.wf(),
            r.threads@.len() == 0,
            r.filtered_threads@.len() == 0,
            r.stack_trace_pool@ == Map::<i32, StackTrace>::empty(),
            r.per_thread_samples@ == Map::<i64, Vec<OffCpu>>::empty(),
            r.interval == (TimeInterval { start_millis: 0, end_millis: 0 }),
    {
        Profile {
            threads: Vec::new(),
            filtered_threads: Vec::new(),
            stack_trace_pool: map_new(),
            per_thread_samples: map_new(),
            interval: TimeInterval::new(0, 0),
        }
    }

    /// The visible thread at `thread_idx` and the sample at `sample_idx` of
    /// the timeline of the thread of the given id, with its stack trace;
    /// nothing where one of them is missing.
    pub fn sample_info(&self, thread_idx: usize, os_thread_id: i64, sample_idx: usize) -> (r: Option<
        (&Thread, OffCpu, &StackTrace),
    >)
        ensures
            r is Some <==> {
                &&& thread_idx < self.filtered_threads@.len()
                &&& self.per_thread_samples@.contains_key(os_thread_id)
                &&& sample_idx < self.per_thread_samples@[os_thread_id]@.len()
                &&& self.stack_trace_pool@.contains_key(
                    self.per_thread_samples@[os_thread_id]@[sample_idx as int].stack_trace_key,
                )
            },
            r is Some ==> {
                &&& *r.unwrap().0 == self.filtered_threads@[thread_idx as int]
                &&& r.unwrap().1 == self.per_thread_samples@[os_thread_id]@[sample_idx as int]
                &&& *r.unwrap().2 == self.stack_trace_pool@[r.unwrap().1.stack_trace_key]
            },
    {
        if thread_idx >= self.filtered_threads.len() {
            return None;
        }
        let samples = match map_get(&self.per_thread_samples, os_thread_id) {
            Some(samples) => samples,
            None => {
                return None;
            },
        };
        if sample_idx >= samples.len() {
            return None;
        }
        let sample = samples[sample_idx];
        match map_get(&self.stack_trace_pool, sample.stack_trace_key) {
            Some(trace) => Some((&self.filtered_threads[thread_idx], sample, trace)),
            None => None,
        }
    }

    /// The visible threads.
    pub fn threads(&self) -> (r: &Vec<Thread>)
        ensures
            r == &self.filtered_threads,
    {
        &self.filtered_threads
    }

    /// Whether this profile is `before` with nothing changed but the
    /// visible threads, and with visible the threads that the filter lets
    /// pass.
    pub open spec fn filtered_as(&self, before: &Profile, filter: &JbmFilter) -> bool {
        &&& self.threads == before.threads
        &&& self.stack_trace_pool == before.stack_trace_pool
        &&& self.per_thread_samples == before.per_thread_samples
        &&& self.interval == before.interval
        &&& thread_views(self.filtered_threads@) == visible_threads(
            thread_views(before.threads@),
            pattern_view(filter.thread_name_regex),
        )
    }

    /// Makes visible the threads whose name the filter's pattern matches,
    /// or all without a pattern. Where the pattern does not compile,
    /// nothing changes.
    pub fn apply_filter(&mut self, filter: JbmFilter) -> (r: Result<(), FilterError>)
        ensures
            r is Ok == usable(pattern_view(filter.thread_name_regex)),
            r is Ok ==> final(self).filtered_as(old(self), &filter),
            r is Err ==> *final(self) == *old(self) && r == Err::<(), FilterError>(
                FilterError::InvalidPattern,
            ),
            old(self).wf() ==> final(self).wf(),
    {
        let thread_name = match compile_optional(&filter.thread_name_regex) {
            Ok(re) => re,
            Err(e) => {
                return Err(e);
            },
        };
        self.filtered_threads = filter_threads(&self.threads, &thread_name);
        Ok(())
    }
}

impl Default for Profile {
    fn default() -> (r: Self)
        ensures
            r.wf(),
            r.threads@.len() == 0,
            r.filtered_threads@.len() == 0,
            r.stack_trace_pool@ == Map::<i32, StackTrace>::empty(),
            r.per_thread_samples@ == Map::<i64, Vec<OffCpu>>::empty(),
            r.interval == (TimeInterval { start_millis: 0, end_millis: 0 }),
    {
        Profile::new()
    }
}

/// The stack traces of a list as plain values.
pub open spec fn trace_views(traces: Seq<StackTrace>) -> Seq<Seq<StackFrameView>> {
    Seq::new(traces.len(), |i: int| traces[i]@)
}

/// The place of the first stack trace of the list that equals the given
/// one, or the length of the list where none does.
pub open spec fn place_in(traces: Seq<Seq<StackFrameView>>, frames: Seq<StackFrameView>) -> int
    decreases traces.len(),
{
    if traces.len() == 0 {
        0
    } else {
        let before = place_in(traces.drop_last(), frames);
        if before < traces.len() - 1 {
            before
        } else if traces.last() == frames {
            traces.len() - 1
        } else {
            traces.len() as int
        }
    }
}

/// The place of a stack trace in a list is its place among the lists'
/// plain values.
pub proof fn lemma_place_views(traces: Seq<StackTrace>, trace: StackTrace)
    ensures
        place_of(traces, trace) == place_in(trace_views(traces), trace@),
    decreases traces.len(),
{
    if traces.len() > 0 {
        lemma_place_views(traces.drop_last(), trace);
        assert(trace_views(traces).drop_last() =~= trace_views(traces.drop_last()));
        assert(trace_views(traces).last() == traces.last()@);
    }
}

/// The frame that a line of a call stack is read as: its text as the name
/// of the method, without class, type or line.
pub open spec fn bare_frame(text: Seq<char>) -> StackFrameView {
    StackFrameView {
        class_name: Seq::empty(),
        method_name: text,
        frame_type: FrameType::Unknown,
        line_number: 0,
        name: text,
    }
}

/// A sample that is being read, as plain values.
pub struct ParsingView {
    pub timestamp: i64,
    pub duration: i64,
    pub thread_id: i64,
    pub state: ThreadState,
    pub frames: Seq<StackFrameView>,
}

/// What has been read of a log so far, as plain values.
pub struct ReadingView {
    pub interval: TimeInterval,
    pub threads: Seq<ThreadView>,
    pub traces: Seq<Seq<StackFrameView>>,
    pub samples: Map<i64, Seq<OffCpu>>,
    pub parsing: Option<ParsingView>,
}

impl ReadingView {
    /// What has been read after the sample that is being read was filed:
    /// its stack trace is put into the pool unless the pool holds an equal
    /// one, and the sample is appended, with the place of the stack trace
    /// as its key, to the timeline of its thread. Nothing where the pool
    /// is full.
    pub open spec fn flushed(self) -> Option<ReadingView> {
        match self.parsing {
            None => Some(self),
            Some(p) => {
                let place = place_in(self.traces, p.frames);
                let timeline = if self.samples.contains_key(p.thread_id) {
                    self.samples[p.thread_id]
                } else {
                    Seq::empty()
                };
                let filed = OffCpu {
                    timestamp: p.timestamp,
                    duration_millis: p.duration,
                    state: p.state,
                    stack_trace_key: place as i32,
                };
                if place < i32::MAX {
                    Some(
                        ReadingView {
                            traces: if place < self.traces.len() {
                                self.traces
                            } else {
                                self.traces.push(p.frames)
                            },
                            samples: self.samples.insert(p.thread_id, timeline.push(filed)),
                            parsing: None,
                            ..self
                        },
                    )
                } else {
                    None
                }
            },
        }
    }

    /// What has been read after a header started a sample, given the
    /// instant that its date and time denote: the thread of the header is
    /// noted under the name it is shown by, unless a thread of its id was
    /// noted before, the interval is widened to hold
    /// the sample, and the sample is the one being read. Nothing where the
    /// sample is out of the range of time.
    pub open spec fn begun(self, header: HeaderView, clock_millis: i64) -> Option<ReadingView> {
        match sample_start(header, clock_millis) {
            None => None,
            Some(start) => {
                let thread = ThreadView {
                    os_thread_id: header.thread_id,
                    name: shown_name(header.thread_name, header.thread_id),
                };
                Some(
                    ReadingView {
                        threads: if has_thread_id(self.threads, header.thread_id) {
                            self.threads
                        } else {
                            self.threads.push(thread)
                        },
                        interval: self.interval.widened(
                            start,
                            (clock_millis + header.millis) as i64,
                        ),
                        parsing: Some(
                            ParsingView {
                                timestamp: start,
                                duration: header.duration_millis,
                                thread_id: header.thread_id,
                                state: ThreadState::Unknown,
                                frames: Seq::empty(),
                            },
                        ),
                        ..self
                    },
                )
            },
        }
    }

    /// What has been read after a line of a call stack: the frame of the
    /// line is appended to the sample that is being read, if there is one.
    pub open spec fn with_frame(self, text: Seq<char>) -> ReadingView {
        match self.parsing {
            None => self,
            Some(p) => ReadingView {
                parsing: Some(ParsingView { frames: p.frames.push(bare_frame(text)), ..p }),
                ..self
            },
        }
    }
}

/// What has been read after one more line, given the patterns of header
/// lines and of stack lines and the instant that the machine's time zone
/// gives the header's date and time.
///
/// A header line files the sample that was being read and starts the
/// next; it is an error where the pool is full, a number of the header
/// does not fit, its date and time are of no calendar, of no year from 1
/// to 9999 or of no instant of the time zone, or the sample is out of the
/// range of time. A stack line
/// adds a frame to the sample that is being read. Any other line changes
/// nothing.
pub open spec fn line_read(
    s: ReadingView,
    header: Regex,
    frame: Regex,
    line: Seq<char>,
    clock: Option<i64>,
) -> Result<ReadingView, LoadError> {
    match captured(header, line) {
        Some(groups) => {
            let found = header_of(groups);
            let datetime = datetime_of(found.unwrap().timestamp);
            if s.flushed() is None || found is None || datetime is None || !(1 <= year_of(
                datetime.unwrap(),
            ) <= 9999) || clock is None || s.flushed().unwrap().begun(
                found.unwrap(),
                clock.unwrap(),
            ) is None {
                Err(LoadError::MalformedInput)
            } else {
                Ok(s.flushed().unwrap().begun(found.unwrap(), clock.unwrap()).unwrap())
            }
        },
        None => match captured(frame, line) {
            Some(groups) => Ok(s.with_frame(frame_text_of(groups))),
            None => Ok(s),
        },
    }
}

/// Whether a result and what has been read afterwards are what reading
/// one more line gives, for the given instant.
pub open spec fn line_outcome(
    before: ReadingView,
    after: ReadingView,
    r: Result<(), LoadError>,
    header: Regex,
    frame: Regex,
    line: Seq<char>,
    clock: Option<i64>,
) -> bool {
    match r {
        Ok(_) => line_read(before, header, frame, line, clock) == Ok::<ReadingView, LoadError>(after),
        Err(e) => line_read(before, header, frame, line, clock) == Err::<ReadingView, LoadError>(e),
    }
}

/// What has been read before the first line.
pub open spec fn nothing_read() -> ReadingView {
    ReadingView {
        interval: TimeInterval { start_millis: i64::MAX, end_millis: 0 },
        threads: Seq::empty(),
        traces: Seq::empty(),
        samples: Map::empty(),
        parsing: None,
    }
}

/// What has been read after the given lines, one after the other, each
/// header line with the instant of the same place in `clocks`; the error
/// of the first line that gives one.
pub open spec fn lines_read(
    s: ReadingView,
    header: Regex,
    frame: Regex,
    lines: Seq<Seq<char>>,
    clocks: Seq<Option<i64>>,
) -> Result<ReadingView, LoadError>
    decreases lines.len(),
{
    if lines.len() == 0 {
        Ok(s)
    } else {
        match lines_read(s, header, frame, lines.drop_last(), clocks.drop_last()) {
            Err(e) => Err(e),
            Ok(read) => line_read(read, header, frame, lines.last(), clocks.last()),
        }
    }
}

/// What a log holds: what has been read after all its lines, with the
/// sample of the last header filed; the error of the first line that
/// gives one, or of a pool that is full at the end.
pub open spec fn log_read(
    header: Regex,
    frame: Regex,
    lines: Seq<Seq<char>>,
    clocks: Seq<Option<i64>>,
) -> Result<ReadingView, LoadError> {
    match lines_read(nothing_read(), header, frame, lines, clocks) {
        Err(e) => Err(e),
        Ok(read) => match read.flushed() {
            Some(filed) => Ok(filed),
            None => Err(LoadError::MalformedInput),
        },
    }
}

/// Where the first lines give an error, all the lines give it.
pub proof fn lemma_lines_read_fails(
    s: ReadingView,
    header: Regex,
    frame: Regex,
    lines: Seq<Seq<char>>,
    clocks: Seq<Option<i64>>,
    n: int,
)
    requires
        0 <= n <= lines.len(),
        clocks.len() == lines.len(),
        lines_read(s, header, frame, lines.take(n), clocks.take(n)) is Err,
    ensures
        lines_read(s, header, frame, lines, clocks) == lines_read(
            s,
            header,
            frame,
            lines.take(n),
            clocks.take(n),
        ),
    decreases lines.len() - n,
{
    if n < lines.len() {
        assert(lines.take(n + 1).drop_last() =~= lines.take(n));
        assert(clocks.take(n + 1).drop_last() =~= clocks.take(n));
        lemma_lines_read_fails(s, header, frame, lines, clocks, n + 1);
    } else {
        assert(lines.take(n) =~= lines);
        assert(clocks.take(n) =~= clocks);
    }
}

/// What has been read of a log so far.
struct Reading {
    interval: TimeInterval,
    threads: Vec<Thread>,
    traces: Vec<StackTrace>,
    samples: FxHashMap<i64, Vec<OffCpu>>,
    parsing: Option<ParsingSample>,
}

impl View for Reading {
    type V = ReadingView;

    closed spec fn view(&self) -> ReadingView {
        ReadingView {
            interval: self.interval,
            threads: thread_views(self.threads@),
            traces: trace_views(self.traces@),
            samples: Map::new(
                |id: i64| self.samples@.contains_key(id),
                |id: i64| self.samples@[id]@,
            ),
            parsing: match self.parsing {
                Some(p) => Some(
                    ParsingView {
                        timestamp: p.timestamp,
                        duration: p.duration,
                        thread_id: p.thread_id,
                        state: p.state,
                        frames: frame_views(p.frames@),
                    },
                ),
                None => None,
            },
        }
    }
}

impl Reading {
    spec fn wf(&self) -> bool {
        &&& distinct_ids(thread_views(self.threads@))
        &&& self.traces.len() <= i32::MAX
        &&& keys_below(self.samples@, self.traces.len() as int)
        &&& covers(self.samples@, self.interval)
        &&& self.parsing matches Some(sample) ==> self.interval.start_millis <= sample.timestamp
            && sample.timestamp + sample.duration <= self.interval.end_millis
    }

    /// Files the sample that is being read, if there is one. Returns
    /// whether the pool had room for it.
    fn flush(&mut self) -> (r: bool)
        requires
            old(self).wf(),
        ensures
            final(self).wf(),
            final(self).parsing is None,
            r == old(self)@.flushed() is Some,
            r ==> final(self)@ == old(self)@.flushed().unwrap(),
    {
        let ghost start = self@;
        let parsing = match self.parsing.take() {
            Some(sample) => sample,
            None => {
                assert(self@.samples =~= start.samples);
                return true;
            },
        };
        let ghost before = self.samples@;
        let ghost pool = self.traces@;
        let ghost id = parsing.thread_id;
        let ghost trace = StackTrace { frames: parsing.frames };
        proof {
            lemma_place_views(pool, trace);
            assert(trace@ =~= frame_views(parsing.frames@));
        }
        let filed = flush_sample(parsing, &mut self.traces, &mut self.samples);
        proof {
            let after = self.samples@;
            assert forall|other: i64, i: int|
                after.contains_key(other) && 0 <= i < after[other]@.len() implies self.interval.start_millis
                <= (#[trigger] after[other]@[i]).timestamp && after[other]@[i].timestamp
                + after[other]@[i].duration_millis <= self.interval.end_millis by {
                if filed {
                    if other == id {
                        if before.contains_key(id) && i < before[id]@.len() {
                            assert(after[other]@[i] == before[other]@[i]);
                        }
                    } else {
                        assert(after[other]@[i] == before[other]@[i]);
                    }
                }
            }
            if filed {
                let goal = start.flushed().unwrap();
                assert(self@.traces =~= goal.traces);
                assert(self@.samples =~= goal.samples);
            }
        }
        filed
    }

    /// Takes one line of the log: what has been read, as plain values, is
    /// afterwards what `line_read` says for the instant that the machine's
    /// time zone gave the date and time of a header line.
    fn read_line(&mut self, line: &str, header: &Regex, frame: &Regex) -> (r: Result<(), LoadError>)
        requires
            old(self).wf(),
        ensures
            final(self).wf(),
            exists|clock: Option<i64>| #[trigger]
                line_outcome(old(self)@, final(self)@, r, *header, *frame, line@, clock),
    {
        let ghost start = self@;
        match captures(header, line) {
            Some(groups) => {
                if !self.flush() {
                    assert(line_outcome(
                        start,
                        self@,
                        Err::<(), LoadError>(LoadError::MalformedInput),
                        *header,
                        *frame,
                        line@,
                        None,
                    ));
                    return Err(LoadError::MalformedInput);
                }
                let found = match parse_header(&groups) {
                    Ok(found) => found,
                    Err(e) => {
                        assert(line_outcome(
                            start,
                            self@,
                            Err::<(), LoadError>(e),
                            *header,
                            *frame,
                            line@,
                            None,
                        ));
                        return Err(e);
                    },
                };
                let clock = match parse_datetime(found.timestamp.as_str()) {
                    Some(datetime) => {
                        let year = datetime_year(&datetime);
                        if 1 <= year && year <= 9999 {
                            local_millis(&datetime)
                        } else {
                            None
                        }
                    },
                    None => None,
                };
                let sample = match clock {
                    Some(clock) => begin_sample(&found, clock),
                    None => None,
                };
                let sample = match sample {
                    Some(sample) => sample,
                    None => {
                        assert(line_outcome(
                            start,
                            self@,
                            Err::<(), LoadError>(LoadError::MalformedInput),
                            *header,
                            *frame,
                            line@,
                            clock,
                        ));
                        return Err(LoadError::MalformedInput);
                    },
                };
                let ghost flushed = self@;
                let name = thread_label(found.thread_name.as_str(), found.thread_id);
                note_thread(&mut self.threads, Thread { os_thread_id: found.thread_id, name });
                self.interval.widen(sample.timestamp, sample.timestamp + sample.duration);
                assert(frame_views(sample.frames@) =~= Seq::empty());
                self.parsing = Some(sample);
                proof {
                    let goal = flushed.begun(found@, clock.unwrap()).unwrap();
                    assert(self@.samples =~= goal.samples);
                    assert(self@ == goal);
                    assert(line_outcome(
                        start,
                        self@,
                        Ok::<(), LoadError>(()),
                        *header,
                        *frame,
                        line@,
                        clock,
                    ));
                }
            },
            None => match captures(frame, line) {
                Some(groups) => {
                    let text = frame_text(&groups);
                    match self.parsing.take() {
                        Some(sample) => {
                            let mut sample = sample;
                            let ghost before = frame_views(sample.frames@);
                            sample.frames.push(
                                StackFrame::new(String::new(), text, FrameType::Unknown, 0),
                            );
                            assert(frame_views(sample.frames@) =~= before.push(bare_frame(text@)));
                            self.parsing = Some(sample);
                        },
                        None => {},
                    }
                    proof {
                        assert(self@.samples =~= start.samples);
                        assert(self@ == start.with_frame(text@));
                        assert(line_outcome(
                            start,
                            self@,
                            Ok::<(), LoadError>(()),
                            *header,
                            *frame,
                            line@,
                            None,
                        ));
                    }
                },
                None => {
                    assert(line_outcome(
                        start,
                        self@,
                        Ok::<(), LoadError>(()),
                        *header,
                        *frame,
                        line@,
                        None,
                    ));
                },
            },
        }
        Ok(())
    }
}

/// The pool of the stack traces of a list, each under its place in the
/// list.
fn numbered(traces: Vec<StackTrace>) -> (r: FxHashMap<i32, StackTrace>)
    requires
        traces.len() <= i32::MAX,
    ensures
        forall|k: i32| r@.contains_key(k) <==> 0 <= k < traces.len(),
        forall|k: i32| 0 <= k < traces.len() ==> (#[trigger] r@[k]) == traces@[k as int],
{
    let mut rest = traces;
    let mut pool: FxHashMap<i32, StackTrace> = map_new();
    while rest.len() > 0
        invariant
            rest.len() <= traces.len() <= i32::MAX,
            rest@ == traces@.take(rest.len() as int),
            forall|k: i32| pool@.contains_key(k) <==> rest.len() <= k < traces.len(),
            forall|k: i32| rest.len() <= k < traces.len() ==> (#[trigger] pool@[k]) == traces@[k as int],
        decreases rest.len(),
    {
        let ghost before = rest@;
        let trace = match rest.pop() {
            Some(trace) => trace,
            None => StackTrace { frames: Vec::new() },
        };
        assert(trace == traces@[rest.len() as int]);
        map_insert(&mut pool, rest.len() as i32, trace);
        assert(rest@ =~= traces@.take(rest.len() as int));
    }
    pool
}

/// Puts every timeline in ascending order of start, samples of one start
/// staying in the order in which they were read.
fn sort_timelines(
    samples: &mut FxHashMap<i64, Vec<OffCpu>>,
    Ghost(n): Ghost<int>,
    Ghost(interval): Ghost<TimeInterval>,
)
    requires
        keys_below(old(samples)@, n),
        covers(old(samples)@, interval),
    ensures
        keys_below(final(samples)@, n),
        covers(final(samples)@, interval),
        timelines_sorted(final(samples)@),
        final(samples)@.dom() == old(samples)@.dom(),
        forall|id: i64|
            old(samples)@.contains_key(id) ==> (#[trigger] final(samples)@[id])@.to_multiset() == old(samples)@[id]@.to_multiset(),
        forall|id: i64, t: i64|
            old(samples)@.contains_key(id) ==> #[trigger] at_start(final(samples)@[id]@, t)
                == at_start(old(samples)@[id]@, t),
{
    let ids = map_keys(samples);
    let mut i: usize = 0;
    while i < ids.len()
        invariant
            i <= ids.len(),
            ids@.no_duplicates(),
            ids@.to_set() == old(samples)@.dom(),
            forall|id: i64, t: i64|
                old(samples)@.contains_key(id) ==> #[trigger] at_start(samples@[id]@, t) == at_start(
                    old(samples)@[id]@,
                    t,
                ),
            samples@.dom() == old(samples)@.dom(),
            keys_below(samples@, n),
            covers(samples@, interval),
            forall|id: i64|
                old(samples)@.contains_key(id) ==> (#[trigger] samples@[id])@.to_multiset() == old(samples)@[id]@.to_multiset(),
            forall|j: int| 0 <= j < i ==> sorted_by_start(samples@[#[trigger] ids@[j]]@),
        decreases ids.len() - i,
    {
        let id = ids[i];
        let ghost before = samples@;
        assert(ids@.to_set().contains(id)) by {
            assert(ids@.contains(ids@[i as int]));
        }
        let mut timeline = match map_remove(samples, id) {
            Some(timeline) => timeline,
            None => Vec::new(),
        };
        let ghost unsorted = timeline@;
        sort_by_start(&mut timeline);
        let ghost sorted = timeline@;
        map_insert(samples, id, timeline);
        proof {
            let after = samples@;
            assert(after.dom() =~= before.dom());
            assert forall|other: i64, k: int|
                after.contains_key(other) && 0 <= k < after[other]@.len() implies 0 <= (
            #[trigger] after[other]@[k]).stack_trace_key < n by {
                if other == id {
                    lemma_same_items(sorted, unsorted, k);
                    let x = choose|x: int| 0 <= x < unsorted.len() && unsorted[x] == sorted[k];
                    assert(before[id]@[x] == sorted[k]);
                } else {
                    assert(after[other]@[k] == before[other]@[k]);
                }
            }
            assert forall|other: i64, k: int|
                after.contains_key(other) && 0 <= k < after[other]@.len() implies interval.start_millis
                <= (#[trigger] after[other]@[k]).timestamp && after[other]@[k].timestamp
                + after[other]@[k].duration_millis <= interval.end_millis by {
                if other == id {
                    lemma_same_items(sorted, unsorted, k);
                    let x = choose|x: int| 0 <= x < unsorted.len() && unsorted[x] == sorted[k];
                    assert(before[id]@[x] == sorted[k]);
                } else {
                    assert(after[other]@[k] == before[other]@[k]);
                }
            }
            assert forall|j: int| 0 <= j < i + 1 implies sorted_by_start(
                after[#[trigger] ids@[j]]@,
            ) by {
                if j < i {
                    assert(ids@[j] != ids@[i as int]);
                    assert(after[ids@[j]] == before[ids@[j]]);
                }
            }
        }
        i = i + 1;
    }
    proof {
        assert forall|id: i64| samples@.contains_key(id) implies sorted_by_start(
            (#[trigger] samples@[id])@,
        ) by {
            assert(ids@.to_set().contains(id));
            assert(ids@.contains(id));
            let j = choose|j: int| 0 <= j < ids@.len() && ids@[j] == id;
            assert(sorted_by_start(samples@[ids@[j]]@));
        }
    }
}

impl Profile {
    /// Whether the profile holds what was read of a log: the same threads
    /// in order of name, threads of one name in the order in which they
    /// were read; every stack trace under its place in the pool that was
    /// read; in the timeline of each thread the same samples in order of
    /// start, samples of one start in the order in which they were read;
    /// and the same interval.
    pub open spec fn holds(&self, s: ReadingView) -> bool {
        &&& thread_views(self.threads@).to_multiset() == s.threads.to_multiset()
        &&& forall|name: Seq<char>| #[trigger]
            named(thread_views(self.threads@), name) == named(s.threads, name)
        &&& forall|k: i32| self.stack_trace_pool@.contains_key(k) <==> 0 <= k < s.traces.len()
        &&& forall|k: i32|
            0 <= k < s.traces.len() ==> (#[trigger] self.stack_trace_pool@[k])@ == s.traces[k as int]
        &&& self.per_thread_samples@.dom() == s.samples.dom()
        &&& forall|id: i64|
            s.samples.contains_key(id) ==> (#[trigger] self.per_thread_samples@[id])@.to_multiset()
                == s.samples[id].to_multiset()
        &&& forall|id: i64, t: i64|
            s.samples.contains_key(id) ==> #[trigger] at_start(self.per_thread_samples@[id]@, t)
                == at_start(s.samples[id], t)
        &&& self.interval == s.interval
    }

    /// Loads the text log of a blocking monitor, replacing what the
    /// profile held.
    ///
    /// Lines that are neither the first line of a sample nor a line of a
    /// call stack are passed over. Every thread is visible afterwards.
    /// Where the log cannot be read to its end, the profile is left as it
    /// was. What is loaded is what `log_read` gives for the lines of the
    /// log and the instants that the machine's time zone gives the dates
    /// and times of the header lines.
    pub fn load(&mut self, bytes: Vec<u8>) -> (r: Result<(), LoadError>)
        ensures
            r is Ok ==> {
                &&& final(self).wf()
                &&& thread_views(final(self).filtered_threads@) == thread_views(final(self).threads@)
            },
            r is Err ==> *final(self) == *old(self),
            lines_of(bytes@) is None ==> r == Err::<(), LoadError>(LoadError::Reader),
            lines_of(bytes@) is Some && (compiled(HEADER_PATTERN@) is None || compiled(
                FRAME_PATTERN@,
            ) is None) ==> r == Err::<(), LoadError>(LoadError::MalformedInput),
            lines_of(bytes@) is Some && compiled(HEADER_PATTERN@) is Some && compiled(
                FRAME_PATTERN@,
            ) is Some ==> exists|clocks: Seq<Option<i64>>| #[trigger]
                log_outcome(
                    *final(self),
                    r,
                    compiled(HEADER_PATTERN@).unwrap(),
                    compiled(FRAME_PATTERN@).unwrap(),
                    lines_of(bytes@).unwrap(),
                    clocks,
                ),
    {
        let lines = match split_lines(bytes) {
            Some(lines) => lines,
            None => {
                return Err(LoadError::Reader);
            },
        };
        let header = match compile(HEADER_PATTERN) {
            Ok(re) => re,
            Err(_) => {
                return Err(LoadError::MalformedInput);
            },
        };
        let frame = match compile(FRAME_PATTERN) {
            Ok(re) => re,
            Err(_) => {
                return Err(LoadError::MalformedInput);
            },
        };
        let ghost all = texts(lines@);
        let mut reading = Reading {
            interval: TimeInterval::unset(),
            threads: Vec::new(),
            traces: Vec::new(),
            samples: map_new(),
            parsing: None,
        };
        let ghost mut clocks: Seq<Option<i64>> = Seq::empty();
        proof {
            assert(reading@.threads =~= nothing_read().threads);
            assert(reading@.traces =~= nothing_read().traces);
            assert(reading@.samples =~= nothing_read().samples);
            assert(all.take(0) =~= Seq::empty());
        }
        let mut i: usize = 0;
        while i < lines.len()
            invariant
                i <= lines.len(),
                reading.wf(),
                *self == *old(self),
                lines_of(bytes@) == Some(all),
                all == texts(lines@),
                compiled(HEADER_PATTERN@) == Some(header),
                compiled(FRAME_PATTERN@) == Some(frame),
                clocks.len() == i,
                lines_read(nothing_read(), header, frame, all.take(i as int), clocks) == Ok::<
                    ReadingView,
                    LoadError,
                >(reading@),
            decreases lines.len() - i,
        {
            let ghost before = reading@;
            let ghost mut witness: Seq<Option<i64>> = Seq::empty();
            let taken = reading.read_line(lines[i].as_str(), &header, &frame);
            proof {
                let clock = choose|clock: Option<i64>| #[trigger]
                    line_outcome(before, reading@, taken, header, frame, lines@[i as int]@, clock);
                let next = clocks.push(clock);
                assert(all.take(i + 1).drop_last() =~= all.take(i as int));
                assert(all.take(i + 1).last() == lines@[i as int]@);
                assert(next.drop_last() =~= clocks);
                if taken is Err {
                    let full = next + Seq::new((all.len() - i - 1) as nat, |j: int| None::<i64>);
                    assert(full.take(i + 1) =~= next);
                    lemma_lines_read_fails(nothing_read(), header, frame, all, full, i + 1);
                    assert(log_outcome(*self, taken, header, frame, all, full));
                    witness = full;
                }
                clocks = next;
            }
            match taken {
                Ok(()) => {},
                Err(e) => {
                    assert(log_outcome(
                        *self,
                        Err::<(), LoadError>(e),
                        compiled(HEADER_PATTERN@).unwrap(),
                        compiled(FRAME_PATTERN@).unwrap(),
                        lines_of(bytes@).unwrap(),
                        witness,
                    ));
                    return Err(e);
                },
            }
            i = i + 1;
        }
        let ghost read = reading@;
        assert(all.take(lines.len() as int) =~= all);
        if !reading.flush() {
            assert(log_outcome(
                *self,
                Err::<(), LoadError>(LoadError::MalformedInput),
                compiled(HEADER_PATTERN@).unwrap(),
                compiled(FRAME_PATTERN@).unwrap(),
                lines_of(bytes@).unwrap(),
                clocks,
            ));
            return Err(LoadError::MalformedInput);
        }
        let ghost filed = reading@;
        let ghost unsorted = thread_views(reading.threads@);
        let mut threads = reading.threads;
        sort_by_name(&mut threads);
        proof {
            lemma_reordered_threads(unsorted, thread_views(threads@));
        }
        let mut samples = reading.samples;
        sort_timelines(&mut samples, Ghost(reading.traces.len() as int), Ghost(reading.interval));
        let ghost n = reading.traces.len();
        let pool = numbered(reading.traces);
        let filtered_threads = clone_threads(&threads);
        proof {
            assert forall|id: i64, k: int|
                samples@.contains_key(id) && 0 <= k < samples@[id]@.len() implies pool@.contains_key(
                (#[trigger] samples@[id]@[k]).stack_trace_key,
            ) by {}
            assert(samples@.dom() =~= filed.samples.dom());
        }
        self.threads = threads;
        self.filtered_threads = filtered_threads;
        self.stack_trace_pool = pool;
        self.per_thread_samples = samples;
        self.interval = reading.interval;
        proof {
            assert(self.holds(filed));
            assert(log_outcome(
                *self,
                Ok::<(), LoadError>(()),
                compiled(HEADER_PATTERN@).unwrap(),
                compiled(FRAME_PATTERN@).unwrap(),
                lines_of(bytes@).unwrap(),
                clocks,
            ));
        }
        Ok(())
    }
}

/// Whether a result and the profile afterwards are what loading the lines
/// of a log gives, for the given instants of its header lines: there is
/// one instant for each line, and the profile holds what the log holds, or
/// the result is the error that reading the log gives.
pub open spec fn log_outcome(
    after: Profile,
    r: Result<(), LoadError>,
    header: Regex,
    frame: Regex,
    lines: Seq<Seq<char>>,
    clocks: Seq<Option<i64>>,
) -> bool {
    &&& clocks.len() == lines.len()
    &&& match log_read(header, frame, lines, clocks) {
        Ok(s) => r is Ok && after.holds(s),
        Err(e) => r == Err::<(), LoadError>(e),
    }
}

} // verus!
