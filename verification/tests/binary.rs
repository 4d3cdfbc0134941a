use jfrv::execution_sample::ingest::Ingestor;
use jfrv::execution_sample::pool_key;
use jfrv::execution_sample::required;
use jfrv::execution_sample::stack_frame;
use jfrv::execution_sample::thread_identity;
use jfrv::execution_sample::Field;
use jfrv::execution_sample::LoadError;
use jfrv::execution_sample::Profile;
use jfrv::gzip::decode;
use jfrv::gzip::Encoding;
use jfrv::interval::TimeInterval;
use jfrv::profile::ConstantPoolKey;
use jfrv::profile::FrameType;
use jfrv::profile::StackFrame;
use jfrv::profile::StackTrace;
use jfrv::profile::Thread;
use jfrv::profile::ThreadState;

fn trace_of(method: &str) -> StackTrace {
    StackTrace {
        frames: vec![StackFrame::new(
            "A".to_string(),
            method.to_string(),
            FrameType::JitCompiled,
            0,
        )],
    }
}

fn thread(id: i64, name: &str) -> Thread {
    Thread { os_thread_id: id, name: name.to_string() }
}

#[test]
fn mod_test_load() {
    let mut profile = Profile::default();
    assert_eq!(profile.load(vec![]), Ok(0));
    assert_eq!(profile.threads.len(), 0);
    assert_eq!(profile.stack_trace_pool.len(), 0);
}

#[test]
fn bytes_that_are_no_trace_leave_the_profile_as_it_was() {
    let mut state = Ingestor::new();
    state.add_thread(thread(1, "main"));
    state.add_stack_trace(ConstantPoolKey::new(0, 1, 1), trace_of("a"));
    state.push_sample(1, 5, ThreadState::Runnable, ConstantPoolKey::new(0, 1, 1));
    let mut profile = state.finish();
    assert_eq!(
        profile.load(b"this is no flight recording".to_vec()),
        Err(LoadError::MalformedInput)
    );
    assert_eq!(profile.load(b"no recording".to_vec()), Err(LoadError::Reader));
    assert_eq!(profile.threads.len(), 1);
    assert_eq!(profile.stack_trace_pool.len(), 1);
    assert_eq!(profile.per_thread_samples[&1].len(), 1);
}

#[test]
fn bytes_that_are_not_gzip_are_a_compression_error() {
    let mut profile = Profile::default();
    assert_eq!(
        profile.load_encoded(b"plain".to_vec(), Encoding::Gzip),
        Err(LoadError::Compression)
    );
    assert_eq!(profile.load_encoded(vec![], Encoding::Uncompressed), Ok(0));
}

#[test]
fn gzip_of_nothing_decodes_to_nothing() {
    let empty_gzip: Vec<u8> = vec![
        0x1f, 0x8b, 0x08, 0x00, 0x00, 0x00, 0x00, 0x00, 0x00, 0x03, 0x03, 0x00, 0x00, 0x00, 0x00,
        0x00, 0x00, 0x00, 0x00, 0x00,
    ];
    assert_eq!(decode(empty_gzip.clone(), Encoding::Gzip), Some(vec![]));
    assert_eq!(decode(empty_gzip.clone(), Encoding::Uncompressed), Some(empty_gzip.clone()));
    let mut profile = Profile::default();
    assert_eq!(profile.load_encoded(empty_gzip, Encoding::Gzip), Ok(0));
}

#[test]
fn gzip_of_a_text_decodes_to_the_text() {
    // gzip of "hello\n"
    let bytes: Vec<u8> = vec![
        0x1f, 0x8b, 0x08, 0x00, 0x00, 0x00, 0x00, 0x00, 0x00, 0x03, 0xcb, 0x48, 0xcd, 0xc9, 0xc9,
        0xe7, 0x02, 0x00, 0x20, 0x30, 0x3a, 0x36, 0x06, 0x00, 0x00, 0x00,
    ];
    assert_eq!(decode(bytes, Encoding::Gzip), Some(b"hello\n".to_vec()));
}

#[test]
fn key_of_a_pool_reference_carries_the_chunk() {
    assert_eq!(
        pool_key(3, Some((10, 20)), Field::StackTrace),
        Ok(ConstantPoolKey::new(3, 10, 20))
    );
    assert_eq!(
        pool_key(3, None, Field::StackTrace),
        Err(LoadError::FieldNotPoolReference(Field::StackTrace))
    );
    assert_eq!(pool_key(0, None, Field::State), Err(LoadError::FieldNotPoolReference(Field::State)));
}

#[test]
fn missing_field_is_an_error_that_names_it() {
    assert_eq!(required(Some(5), Field::StartTime), Ok(5));
    assert_eq!(required::<i64>(None, Field::StartTime), Err(LoadError::MissingField(Field::StartTime)));
    assert_eq!(
        required::<i64>(None, Field::OsThreadId),
        Err(LoadError::MissingField(Field::OsThreadId))
    );
}

#[test]
fn thread_is_named_by_java_name_before_os_name() {
    let t = thread_identity(7, Some("java".to_string()), Some("os".to_string())).unwrap();
    assert_eq!((t.os_thread_id, t.name.as_str()), (7, "java"));
    let t = thread_identity(7, None, Some("os".to_string())).unwrap();
    assert_eq!((t.os_thread_id, t.name.as_str()), (7, "os"));
    let t = thread_identity(7, Some("java".to_string()), None).unwrap();
    assert_eq!(t.name, "java");
    assert_eq!(thread_identity(7, None, None).err(), Some(LoadError::MissingThreadIdentity));
}

#[test]
fn stack_frame_needs_all_its_parts() {
    let s = |t: &str| Some(t.to_string());
    let f = stack_frame(s("A"), s("run"), s("Interpreted"), Some(3)).unwrap();
    assert_eq!(f.name(), "A.run:3");
    assert_eq!(f.frame_type, FrameType::Interpreted);
    assert_eq!(
        stack_frame(None, None, None, None).err(),
        Some(LoadError::MissingField(Field::ClassName))
    );
    assert_eq!(
        stack_frame(s("A"), None, None, None).err(),
        Some(LoadError::MissingField(Field::MethodName))
    );
    assert_eq!(
        stack_frame(s("A"), s("run"), None, None).err(),
        Some(LoadError::MissingField(Field::FrameType))
    );
    assert_eq!(
        stack_frame(s("A"), s("run"), s("Native"), None).err(),
        Some(LoadError::MissingField(Field::LineNumber))
    );
    let f = stack_frame(s("A"), s("run"), s("no such type"), Some(3)).unwrap();
    assert_eq!(f.frame_type, FrameType::Unknown);
    assert_eq!(f.name(), "run");
}

#[test]
fn new_state_is_empty() {
    let state = Ingestor::new();
    assert_eq!(state.event_count, 0);
    assert_eq!(state.column_count, 0);
    assert_eq!(state.interval, TimeInterval::new(i64::MAX, 0));
    assert!(state.threads.is_empty());
    assert!(!state.has_thread(1));
    assert!(!state.has_stack_trace(ConstantPoolKey::new(0, 0, 0)));
    assert_eq!(state.known_state(ConstantPoolKey::new(0, 0, 0)), None);
}

#[test]
fn stack_trace_is_resolved_once() {
    let mut state = Ingestor::new();
    let key = ConstantPoolKey::new(0, 5, 9);
    state.add_stack_trace(key, trace_of("first"));
    assert!(state.has_stack_trace(key));
    state.add_stack_trace(key, trace_of("second"));
    assert_eq!(state.traces.len(), 1);
    assert_eq!(state.traces[&(0, 5, 9)].frames[0].method_name, "first");
    assert!(!state.has_stack_trace(ConstantPoolKey::new(1, 5, 9)));
}

#[test]
fn thread_is_kept_under_the_name_first_seen() {
    let mut state = Ingestor::new();
    state.add_thread(thread(4, "first"));
    state.add_thread(thread(4, "second"));
    state.add_thread(thread(5, "other"));
    assert!(state.has_thread(4));
    assert!(state.has_thread(5));
    assert!(!state.has_thread(6));
    assert_eq!(state.threads.len(), 2);
    assert_eq!(state.threads[0].name, "first");
    assert_eq!(state.samples[&4].len(), 0);
}

#[test]
fn thread_state_is_resolved_from_its_name() {
    let mut state = Ingestor::new();
    let key = ConstantPoolKey::new(0, 2, 1);
    assert_eq!(state.add_state(key, "STATE_SLEEPING".to_string()), ThreadState::Sleeping);
    assert_eq!(state.known_state(key), Some(ThreadState::Sleeping));
    assert_eq!(state.add_state(ConstantPoolKey::new(0, 2, 2), "odd".to_string()), ThreadState::Unknown);
    assert_eq!(state.known_state(ConstantPoolKey::new(0, 2, 2)), Some(ThreadState::Unknown));
}

#[test]
fn samples_are_counted_and_span_the_interval() {
    let mut state = Ingestor::new();
    let key = ConstantPoolKey::new(0, 1, 1);
    state.add_stack_trace(key, trace_of("a"));
    state.add_thread(thread(1, "one"));
    state.add_thread(thread(2, "two"));
    state.push_sample(1, 7_000_000, ThreadState::Runnable, key);
    state.push_sample(1, 3_999_999, ThreadState::Runnable, key);
    state.push_sample(2, 9_000_001, ThreadState::Sleeping, key);
    assert_eq!(state.event_count, 3);
    assert_eq!(state.column_count, 2);
    assert_eq!(state.interval, TimeInterval::new(3, 9));
    assert_eq!(state.samples[&1].len(), 2);
    assert_eq!(state.samples[&2].len(), 1);
    assert_eq!(state.samples[&1][1].timestamp_nanos, 3_999_999);
}

#[test]
fn finished_profile_holds_every_sample_in_order() {
    let mut state = Ingestor::new();
    let a = ConstantPoolKey::new(0, 1, 1);
    let b = ConstantPoolKey::new(1, 1, 1);
    state.add_stack_trace(a, trace_of("a"));
    state.add_stack_trace(b, trace_of("b"));
    state.add_thread(thread(1, "worker"));
    state.add_thread(thread(2, "main"));
    state.add_thread(thread(3, "Zed"));
    state.push_sample(1, 30, ThreadState::Runnable, a);
    state.push_sample(1, 10, ThreadState::Runnable, b);
    state.push_sample(1, 20, ThreadState::Sleeping, a);
    state.push_sample(2, 5, ThreadState::Runnable, a);
    state.push_sample(1, 10, ThreadState::Sleeping, a);
    let count = state.event_count;
    let profile = state.finish();

    let names: Vec<&str> = profile.threads.iter().map(|t| t.name.as_str()).collect();
    assert_eq!(names, vec!["Zed", "main", "worker"]);
    let visible: Vec<&str> = profile.filtered_threads().iter().map(|t| t.name.as_str()).collect();
    assert_eq!(visible, names);

    let total: usize =
        profile.threads.iter().map(|t| profile.per_thread_samples[&t.os_thread_id].len()).sum();
    assert_eq!(total, count);
    assert_eq!(total, 5);

    let times: Vec<i64> = profile.per_thread_samples[&1].iter().map(|s| s.timestamp_nanos).collect();
    assert_eq!(times, vec![10, 10, 20, 30]);
    // samples of one time stay in the order in which they were seen
    assert_eq!(profile.per_thread_samples[&1][0].stack_trace_key, b);
    assert_eq!(profile.per_thread_samples[&1][1].stack_trace_key, a);
    assert_eq!(profile.per_thread_samples[&3].len(), 0);

    for samples in profile.per_thread_samples.values() {
        for sample in samples {
            assert!(profile.stack_trace_pool.contains_key(&sample.stack_trace_key.to_parts()));
            assert!(profile.is_valid_sample(sample));
        }
    }
    assert_eq!(profile.column_count, 4);
    assert_eq!(profile.filtered_stack_trace_keys.len(), 2);
}

#[test]
fn empty_profile_shows_nothing() {
    let profile = Profile::new();
    assert!(profile.threads.is_empty());
    assert!(profile.filtered_threads().is_empty());
    assert!(profile.stack_trace_pool.is_empty());
    assert!(profile.per_thread_samples.is_empty());
    assert_eq!(profile.column_count, 0);
    assert_eq!(profile.interval, TimeInterval::new(0, 0));
}

#[test]
fn sample_is_looked_up_with_its_stack_trace() {
    let mut state = Ingestor::new();
    let a = ConstantPoolKey::new(0, 1, 1);
    let b = ConstantPoolKey::new(0, 1, 2);
    state.add_stack_trace(a, trace_of("a"));
    state.add_stack_trace(b, trace_of("b"));
    state.add_thread(thread(1, "one"));
    state.push_sample(1, 20, ThreadState::Runnable, b);
    state.push_sample(1, 10, ThreadState::Sleeping, a);
    let mut profile = state.finish();

    let (sample, trace) = profile.sample_info(1, 1).unwrap();
    assert_eq!(sample.timestamp_nanos, 20);
    assert_eq!(sample.state, ThreadState::Runnable);
    assert_eq!(trace.frames[0].method_name, "b");
    let (sample, trace) = profile.sample_info(1, 0).unwrap();
    assert_eq!(sample.timestamp_nanos, 10);
    assert_eq!(trace.frames[0].method_name, "a");
    assert!(profile.sample_info(1, 2).is_none());
    assert!(profile.sample_info(2, 0).is_none());

    profile.stack_trace_pool.remove(&(0, 1, 2));
    assert!(profile.sample_info(1, 1).is_none());
    assert!(profile.sample_info(1, 0).is_some());
}
