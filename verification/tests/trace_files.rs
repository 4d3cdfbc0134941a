use jfrv::execution_sample::check_chunks;
use jfrv::execution_sample::Field;
use jfrv::execution_sample::Filter;
use jfrv::execution_sample::LoadError;
use jfrv::execution_sample::Profile;
use jfrv::flame_graph::FlameGraph;
use jfrv::gzip::Encoding;
use jfrv::profile::FrameType;
use jfrv::profile::ThreadState;
use std::io::Write;

const LONG: i64 = 1;
const INT: i64 = 2;
const STRING: i64 = 3;
const SYMBOL: i64 = 4;
const THREAD: i64 = 10;
const CLASS: i64 = 11;
const METHOD: i64 = 12;
const FRAME_TYPE: i64 = 13;
const STACK_TRACE: i64 = 14;
const THREAD_STATE: i64 = 15;
const STACK_FRAME: i64 = 16;
const EXECUTION_SAMPLE: i64 = 20;
const OTHER_EVENT: i64 = 21;

/// A field of a class of the trace: its name, its class, whether it refers
/// to the constant pool, and whether it is an array.
struct FieldDef(&'static str, i64, bool, bool);

fn classes(sample_fields: Vec<FieldDef>) -> Vec<(i64, &'static str, Vec<FieldDef>)> {
    vec![
        (LONG, "long", vec![]),
        (INT, "int", vec![]),
        (STRING, "java.lang.String", vec![]),
        (SYMBOL, "jdk.types.Symbol", vec![FieldDef("string", STRING, false, false)]),
        (
            THREAD,
            "java.lang.Thread",
            vec![
                FieldDef("osName", STRING, false, false),
                FieldDef("osThreadId", LONG, false, false),
                FieldDef("javaName", STRING, false, false),
            ],
        ),
        (CLASS, "java.lang.Class", vec![FieldDef("name", SYMBOL, true, false)]),
        (
            METHOD,
            "jdk.types.Method",
            vec![FieldDef("type", CLASS, true, false), FieldDef("name", SYMBOL, true, false)],
        ),
        (FRAME_TYPE, "jdk.types.FrameType", vec![FieldDef("description", STRING, false, false)]),
        (STACK_TRACE, "jdk.types.StackTrace", vec![FieldDef("frames", STACK_FRAME, false, true)]),
        (THREAD_STATE, "jdk.types.ThreadState", vec![FieldDef("name", STRING, false, false)]),
        (
            STACK_FRAME,
            "jdk.types.StackFrame",
            vec![
                FieldDef("method", METHOD, true, false),
                FieldDef("lineNumber", INT, false, false),
                FieldDef("type", FRAME_TYPE, true, false),
            ],
        ),
        (EXECUTION_SAMPLE, "jdk.ExecutionSample", sample_fields),
        (OTHER_EVENT, "jdk.Other", vec![FieldDef("startTime", LONG, false, false)]),
    ]
}

fn sample_fields() -> Vec<FieldDef> {
    vec![
        FieldDef("startTime", LONG, false, false),
        FieldDef("sampledThread", THREAD, true, false),
        FieldDef("stackTrace", STACK_TRACE, true, false),
        FieldDef("state", THREAD_STATE, true, false),
    ]
}

fn put_i32(out: &mut Vec<u8>, v: i32) {
    out.extend_from_slice(&v.to_be_bytes());
}

fn put_i64(out: &mut Vec<u8>, v: i64) {
    out.extend_from_slice(&v.to_be_bytes());
}

fn put_string(out: &mut Vec<u8>, s: &str) {
    out.push(3);
    put_i32(out, s.len() as i32);
    out.extend_from_slice(s.as_bytes());
}

/// The strings of the metadata, each once.
struct Strings(Vec<String>);

impl Strings {
    fn index(&mut self, s: &str) -> i32 {
        match self.0.iter().position(|known| known == s) {
            Some(i) => i as i32,
            None => {
                self.0.push(s.to_string());
                (self.0.len() - 1) as i32
            }
        }
    }
}

fn metadata_event(defs: &[(i64, &'static str, Vec<FieldDef>)]) -> Vec<u8> {
    let mut strings = Strings(vec![]);
    let mut tree = Vec::new();
    // the root: no attributes, one child, the metadata
    put_i32(&mut tree, 0);
    put_i32(&mut tree, 1);
    put_i32(&mut tree, strings.index("metadata"));
    put_i32(&mut tree, 0);
    put_i32(&mut tree, defs.len() as i32);
    for (id, name, fields) in defs {
        put_i32(&mut tree, strings.index("class"));
        put_i32(&mut tree, 2);
        put_i32(&mut tree, strings.index("id"));
        put_i32(&mut tree, strings.index(&id.to_string()));
        put_i32(&mut tree, strings.index("name"));
        put_i32(&mut tree, strings.index(name));
        put_i32(&mut tree, fields.len() as i32);
        for FieldDef(field_name, class, pooled, array) in fields {
            put_i32(&mut tree, strings.index("field"));
            put_i32(&mut tree, 2 + *pooled as i32 + *array as i32);
            put_i32(&mut tree, strings.index("name"));
            put_i32(&mut tree, strings.index(field_name));
            put_i32(&mut tree, strings.index("class"));
            put_i32(&mut tree, strings.index(&class.to_string()));
            if *pooled {
                put_i32(&mut tree, strings.index("constantPool"));
                put_i32(&mut tree, strings.index("true"));
            }
            if *array {
                put_i32(&mut tree, strings.index("dimension"));
                put_i32(&mut tree, strings.index("1"));
            }
            put_i32(&mut tree, 0);
        }
    }
    let mut payload = Vec::new();
    put_i64(&mut payload, 0); // start
    put_i64(&mut payload, 0); // duration
    put_i64(&mut payload, 0); // metadata id
    put_i32(&mut payload, strings.0.len() as i32);
    for s in strings.0.iter() {
        put_string(&mut payload, s);
    }
    put_i32(&mut payload, 0); // the name of the root
    payload.extend_from_slice(&tree);
    event(0, &payload)
}

fn event(class: i64, payload: &[u8]) -> Vec<u8> {
    let mut out = Vec::new();
    put_i32(&mut out, (4 + 8 + payload.len()) as i32);
    put_i64(&mut out, class);
    out.extend_from_slice(payload);
    out
}

/// A frame of a stack trace of the trace: class, method, line, type.
#[derive(Clone)]
struct FrameDef(&'static str, &'static str, i32, &'static str);

/// What one chunk holds.
#[derive(Clone)]
struct ChunkDef {
    start_nanos: i64,
    start_ticks: i64,
    ticks_per_second: i64,
    /// index, OS name, id, Java name
    threads: Vec<(i64, Option<&'static str>, i64, Option<&'static str>)>,
    /// index, frames from the innermost
    traces: Vec<(i64, Vec<FrameDef>)>,
    /// index, name
    states: Vec<(i64, &'static str)>,
    /// tick, thread, stack trace, state
    samples: Vec<(i64, i64, i64, i64)>,
}

fn put_optional_string(out: &mut Vec<u8>, s: Option<&str>) {
    match s {
        Some(s) => put_string(out, s),
        None => out.push(0),
    }
}

fn constant_pool_event(def: &ChunkDef) -> Vec<u8> {
    let mut symbols: Vec<&str> = Vec::new();
    let mut frame_types: Vec<&str> = Vec::new();
    let mut methods: Vec<(i64, i64)> = Vec::new();
    let mut symbol = |s: &'static str| -> i64 {
        match symbols.iter().position(|k| *k == s) {
            Some(i) => i as i64,
            None => {
                symbols.push(s);
                (symbols.len() - 1) as i64
            }
        }
    };
    let mut traces = Vec::new();
    for (index, frames) in def.traces.iter() {
        put_i64(&mut traces, *index);
        put_i32(&mut traces, frames.len() as i32);
        for FrameDef(class, method, line, frame_type) in frames {
            // a class is the symbol of its name; both pools use the symbol's index
            let m = (symbol(class), symbol(method));
            let method_index = match methods.iter().position(|k| *k == m) {
                Some(i) => i as i64,
                None => {
                    methods.push(m);
                    (methods.len() - 1) as i64
                }
            };
            let type_index = match frame_types.iter().position(|k| k == frame_type) {
                Some(i) => i as i64,
                None => {
                    frame_types.push(frame_type);
                    (frame_types.len() - 1) as i64
                }
            };
            put_i64(&mut traces, method_index);
            put_i32(&mut traces, *line);
            put_i64(&mut traces, type_index);
        }
    }

    let mut pools: Vec<(i64, i32, Vec<u8>)> = Vec::new();
    pools.push((STACK_TRACE, def.traces.len() as i32, traces));

    let mut bytes = Vec::new();
    for (i, s) in symbols.iter().enumerate() {
        put_i64(&mut bytes, i as i64);
        put_string(&mut bytes, s);
    }
    pools.push((SYMBOL, symbols.len() as i32, bytes));

    let mut bytes = Vec::new();
    for i in 0..symbols.len() {
        put_i64(&mut bytes, i as i64);
        put_i64(&mut bytes, i as i64);
    }
    pools.push((CLASS, symbols.len() as i32, bytes));

    let mut bytes = Vec::new();
    for (i, (class, name)) in methods.iter().enumerate() {
        put_i64(&mut bytes, i as i64);
        put_i64(&mut bytes, *class);
        put_i64(&mut bytes, *name);
    }
    pools.push((METHOD, methods.len() as i32, bytes));

    let mut bytes = Vec::new();
    for (i, t) in frame_types.iter().enumerate() {
        put_i64(&mut bytes, i as i64);
        put_string(&mut bytes, t);
    }
    pools.push((FRAME_TYPE, frame_types.len() as i32, bytes));

    let mut bytes = Vec::new();
    for (index, os_name, id, java_name) in def.threads.iter() {
        put_i64(&mut bytes, *index);
        put_optional_string(&mut bytes, *os_name);
        put_i64(&mut bytes, *id);
        put_optional_string(&mut bytes, *java_name);
    }
    pools.push((THREAD, def.threads.len() as i32, bytes));

    let mut bytes = Vec::new();
    for (index, name) in def.states.iter() {
        put_i64(&mut bytes, *index);
        put_string(&mut bytes, name);
    }
    pools.push((THREAD_STATE, def.states.len() as i32, bytes));

    let mut payload = Vec::new();
    put_i64(&mut payload, 0); // start
    put_i64(&mut payload, 0); // duration
    put_i64(&mut payload, 0); // no further constant pool
    payload.push(0); // flush
    put_i32(&mut payload, pools.len() as i32);
    for (class, count, bytes) in pools {
        put_i64(&mut payload, class);
        put_i32(&mut payload, count);
        payload.extend_from_slice(&bytes);
    }
    event(1, &payload)
}

fn chunk_with(def: &ChunkDef, fields: Vec<FieldDef>, sample: &dyn Fn(&(i64, i64, i64, i64)) -> Vec<u8>) -> Vec<u8> {
    let mut body = Vec::new();
    body.extend_from_slice(&event(OTHER_EVENT, &7i64.to_be_bytes()));
    for s in def.samples.iter() {
        body.extend_from_slice(&event(EXECUTION_SAMPLE, &sample(s)));
        body.extend_from_slice(&event(OTHER_EVENT, &s.0.to_be_bytes()));
    }
    let constant_pool_offset = 68 + body.len();
    body.extend_from_slice(&constant_pool_event(def));
    let metadata_offset = 68 + body.len();
    body.extend_from_slice(&metadata_event(&classes(fields)));

    let mut out = Vec::new();
    out.extend_from_slice(b"FLR\0");
    out.extend_from_slice(&2i16.to_be_bytes());
    out.extend_from_slice(&0i16.to_be_bytes());
    put_i64(&mut out, (68 + body.len()) as i64);
    put_i64(&mut out, constant_pool_offset as i64);
    put_i64(&mut out, metadata_offset as i64);
    put_i64(&mut out, def.start_nanos);
    put_i64(&mut out, 0); // duration
    put_i64(&mut out, def.start_ticks);
    put_i64(&mut out, def.ticks_per_second);
    put_i32(&mut out, 0); // integers are not compressed
    out.extend_from_slice(&body);
    out
}

fn chunk(def: &ChunkDef) -> Vec<u8> {
    chunk_with(def, sample_fields(), &|(tick, thread, trace, state)| {
        let mut payload = Vec::new();
        put_i64(&mut payload, *tick);
        put_i64(&mut payload, *thread);
        put_i64(&mut payload, *trace);
        put_i64(&mut payload, *state);
        payload
    })
}

fn two_threads() -> ChunkDef {
    ChunkDef {
        start_nanos: 1_000_000_000,
        start_ticks: 100,
        ticks_per_second: 1_000,
        threads: vec![(1, Some("os-one"), 11, Some("worker")), (2, Some("main"), 12, None)],
        traces: vec![
            (1, vec![FrameDef("", "B", 0, "Native"), FrameDef("", "A", 0, "Native")]),
            (2, vec![FrameDef("", "C", 0, "Native"), FrameDef("", "A", 0, "Native")]),
        ],
        states: vec![(1, "STATE_RUNNABLE"), (2, "STATE_SLEEPING"), (3, "STATE_ODD")],
        samples: vec![
            (130, 1, 1, 1),
            (110, 1, 2, 2),
            (120, 2, 1, 1),
            (100, 2, 2, 3),
            (110, 1, 1, 1),
        ],
    }
}

fn names(frame: &jfrv::flame_graph::Frame) -> Vec<&str> {
    frame.children.iter().map(|c| c.id.name.as_str()).collect()
}

#[test]
fn trace_of_two_threads_is_loaded_into_two_timelines() {
    let mut profile = Profile::default();
    assert_eq!(profile.load(chunk(&two_threads())), Ok(5));

    let threads: Vec<(i64, &str)> =
        profile.threads.iter().map(|t| (t.os_thread_id, t.name.as_str())).collect();
    assert_eq!(threads, vec![(12, "main"), (11, "worker")]);
    assert_eq!(profile.filtered_threads().len(), 2);

    let total: usize = profile.per_thread_samples.values().map(|s| s.len()).sum();
    assert_eq!(total, 5);
    assert_eq!(profile.column_count, 3);

    let worker: Vec<(i64, ThreadState, i64)> = profile.per_thread_samples[&11]
        .iter()
        .map(|s| (s.timestamp_nanos, s.state, s.stack_trace_key.constant_pool_index))
        .collect();
    assert_eq!(
        worker,
        vec![
            (1_010_000_000, ThreadState::Sleeping, 2),
            (1_010_000_000, ThreadState::Runnable, 1),
            (1_030_000_000, ThreadState::Runnable, 1),
        ]
    );
    let main: Vec<(i64, ThreadState)> =
        profile.per_thread_samples[&12].iter().map(|s| (s.timestamp_nanos, s.state)).collect();
    assert_eq!(
        main,
        vec![(1_000_000_000, ThreadState::Unknown), (1_020_000_000, ThreadState::Runnable)]
    );
    assert_eq!(profile.interval.start_millis, 1_000);
    assert_eq!(profile.interval.end_millis, 1_030);

    assert_eq!(profile.stack_trace_pool.len(), 2);
    let key = profile.per_thread_samples[&11][1].stack_trace_key;
    assert_eq!((key.chunk_seq, key.class_id), (0, STACK_TRACE));
    let trace = &profile.stack_trace_pool[&(0, STACK_TRACE, 1)];
    let frames: Vec<&str> = trace.frames.iter().map(|f| f.name()).collect();
    assert_eq!(frames, vec!["B", "A"]);
    assert_eq!(trace.frames[0].frame_type, FrameType::Native);
    for samples in profile.per_thread_samples.values() {
        for s in samples {
            assert!(profile.stack_trace_pool.contains_key(&s.stack_trace_key.to_parts()));
            assert!(profile.is_valid_sample(s));
        }
    }
}

#[test]
fn flame_graph_of_a_loaded_trace_puts_children_side_by_side() {
    let mut profile = Profile::default();
    assert_eq!(profile.load(chunk(&two_threads())), Ok(5));
    let graph = FlameGraph::from_execution_sample(&profile);
    assert_eq!(graph.root.total_count, 5);
    assert_eq!(names(&graph.root), vec!["A"]);
    let a = &graph.root.children[0].frame;
    assert_eq!(a.total_count, 5);
    assert_eq!(names(a), vec!["B", "C"]);
    assert_eq!(a.children[0].frame.total_count, 3);
    assert_eq!(a.children[1].frame.total_count, 2);

    let layout = jfrv::flame_graph::layout::FlameGraph::from(&graph);
    let row = |i: usize| -> Vec<(&str, usize, usize)> {
        layout.levels[i].frames.iter().map(|f| (f.title.as_str(), f.x, f.x + f.count)).collect()
    };
    assert_eq!(row(0), vec![("all", 0, 5)]);
    assert_eq!(row(1), vec![("A", 0, 5)]);
    assert_eq!(row(2), vec![("B", 0, 3), ("C", 3, 5)]);
}

#[test]
fn managed_frames_of_a_trace_are_named_with_class_and_line() {
    let mut def = two_threads();
    def.traces = vec![
        (
            1,
            vec![
                FrameDef("java/util/HashMap", "get", 42, "JIT compiled"),
                FrameDef("App", "main", 0, "Interpreted"),
                FrameDef("libjvm", "call_stub", 9, "C++"),
            ],
        ),
        (2, vec![FrameDef("App", "main", 7, "Inlined")]),
    ];
    let mut profile = Profile::default();
    assert_eq!(profile.load(chunk(&def)), Ok(5));
    let frames = &profile.stack_trace_pool[&(0, STACK_TRACE, 1)].frames;
    let shown: Vec<(&str, FrameType, i32)> =
        frames.iter().map(|f| (f.name(), f.frame_type, f.line_number)).collect();
    assert_eq!(
        shown,
        vec![
            ("java/util/HashMap.get:42", FrameType::JitCompiled, 42),
            ("App.main", FrameType::Interpreted, 0),
            ("call_stub", FrameType::Cpp, 9),
        ]
    );
    assert_eq!(frames[0].class_name, "java/util/HashMap");
    assert_eq!(frames[0].method_name, "get");
    assert_eq!(profile.stack_trace_pool[&(0, STACK_TRACE, 2)].frames[0].name(), "App.main:7");
}

#[test]
fn equal_stack_traces_of_two_chunks_have_two_keys() {
    let first = two_threads();
    let mut second = two_threads();
    second.start_nanos = 2_000_000_000;
    second.samples = vec![(100, 1, 1, 1), (101, 2, 1, 1)];
    let mut bytes = chunk(&first);
    bytes.extend_from_slice(&chunk(&second));

    let mut profile = Profile::default();
    assert_eq!(profile.load(bytes), Ok(7));
    assert_eq!(profile.threads.len(), 2);
    let mut keys: Vec<(usize, i64, i64)> = profile.stack_trace_pool.keys().cloned().collect();
    keys.sort();
    assert_eq!(keys, vec![(0, STACK_TRACE, 1), (0, STACK_TRACE, 2), (1, STACK_TRACE, 1)]);
    assert_eq!(profile.per_thread_samples[&11].len(), 4);
    assert_eq!(profile.per_thread_samples[&11][3].timestamp_nanos, 2_000_000_000);
    assert_eq!(profile.per_thread_samples[&11][3].stack_trace_key.chunk_seq, 1);
    assert_eq!(profile.interval.end_millis, 2_001);

    // both keys are counted in the one node of the stack trace that they share
    let graph = FlameGraph::from_execution_sample(&profile);
    assert_eq!(graph.root.total_count, 7);
    assert_eq!(graph.root.children[0].frame.children[0].frame.total_count, 5);
}

#[test]
fn gzipped_trace_is_loaded_as_the_trace() {
    let bytes = chunk(&two_threads());
    let mut encoder = flate2::write::GzEncoder::new(Vec::new(), flate2::Compression::default());
    encoder.write_all(&bytes).unwrap();
    let gzipped = encoder.finish().unwrap();
    assert_ne!(gzipped, bytes);

    let mut profile = Profile::default();
    assert_eq!(profile.load_encoded(gzipped.clone(), Encoding::Gzip), Ok(5));
    assert_eq!(profile.threads.len(), 2);
    assert_eq!(
        profile.load_encoded(gzipped, Encoding::Uncompressed),
        Err(LoadError::MalformedInput)
    );
    assert_eq!(profile.load_encoded(bytes, Encoding::Gzip), Err(LoadError::Compression));
    assert_eq!(profile.threads.len(), 2);
}

#[test]
fn trace_cut_short_leaves_the_profile_as_it_was() {
    let bytes = chunk(&two_threads());
    let mut profile = Profile::default();
    assert_eq!(profile.load(bytes.clone()), Ok(5));
    assert_eq!(profile.apply_filter(Filter {
        thread_name_regex: Some("main".to_string()),
        stack_trace_match_regex: None,
        stack_trace_reject_regex: None,
    }), Ok(()));
    // a chunk that gives itself more bytes than the trace has is not handed to the reader
    assert_eq!(profile.load(bytes[..bytes.len() - 10].to_vec()), Err(LoadError::MalformedInput));
    assert_eq!(profile.load(bytes[..40].to_vec()), Err(LoadError::MalformedInput));
    // the start of a header alone is read, and found too short
    assert_eq!(profile.load(bytes[..12].to_vec()), Err(LoadError::Reader));
    let mut bad_magic = bytes.clone();
    bad_magic[0] = b'X';
    assert_eq!(profile.load(bad_magic), Err(LoadError::Reader));
    assert_eq!(profile.threads.len(), 2);
    assert_eq!(profile.filtered_threads().len(), 1);
    assert_eq!(profile.stack_trace_pool.len(), 2);
}

#[test]
fn loading_replaces_what_was_loaded() {
    let mut profile = Profile::default();
    assert_eq!(profile.load(chunk(&two_threads())), Ok(5));
    let mut def = two_threads();
    def.samples = vec![(100, 2, 2, 1)];
    assert_eq!(profile.load(chunk(&def)), Ok(1));
    assert_eq!(profile.threads.len(), 1);
    assert_eq!(profile.stack_trace_pool.len(), 1);
    assert_eq!(profile.column_count, 1);
    assert_eq!(profile.load(vec![]), Ok(0));
    assert!(profile.threads.is_empty());
    assert_eq!(profile.interval.start_millis, i64::MAX);
}

#[test]
fn thread_without_any_name_fails_the_load() {
    let mut def = two_threads();
    def.threads[1] = (2, None, 12, None);
    let mut profile = Profile::default();
    assert_eq!(profile.load(chunk(&def)), Err(LoadError::MissingThreadIdentity));
    assert!(profile.threads.is_empty());
    def.threads[1] = (2, None, 12, Some("java-only"));
    assert_eq!(profile.load(chunk(&def)), Ok(5));
    assert_eq!(profile.threads[0].name, "java-only");
}

#[test]
fn reference_to_nothing_fails_the_load() {
    let mut def = two_threads();
    def.samples = vec![(100, 1, 9, 1)];
    let mut profile = Profile::default();
    assert_eq!(profile.load(chunk(&def)), Err(LoadError::MissingField(Field::Frames)));
    def.samples = vec![(100, 1, 1, 9)];
    assert_eq!(profile.load(chunk(&def)), Err(LoadError::MissingField(Field::StateName)));
    def.samples = vec![(100, 9, 1, 1)];
    assert_eq!(profile.load(chunk(&def)), Err(LoadError::MissingField(Field::SampledThread)));
    assert!(profile.threads.is_empty());
}

#[test]
fn sample_without_a_clock_fails_the_load() {
    let mut def = two_threads();
    def.ticks_per_second = 0;
    let mut profile = Profile::default();
    assert_eq!(profile.load(chunk(&def)), Err(LoadError::MalformedInput));
    def.ticks_per_second = 1;
    def.samples = vec![(i64::MAX, 1, 1, 1)];
    assert_eq!(profile.load(chunk(&def)), Err(LoadError::MalformedInput));
}

#[test]
fn field_that_is_no_pool_reference_fails_the_load() {
    let def = two_threads();
    let inline_state = vec![
        FieldDef("startTime", LONG, false, false),
        FieldDef("sampledThread", THREAD, true, false),
        FieldDef("stackTrace", STACK_TRACE, true, false),
        FieldDef("state", LONG, false, false),
    ];
    let bytes = chunk_with(&def, inline_state, &|(tick, thread, trace, state)| {
        let mut payload = Vec::new();
        put_i64(&mut payload, *tick);
        put_i64(&mut payload, *thread);
        put_i64(&mut payload, *trace);
        put_i64(&mut payload, *state);
        payload
    });
    let mut profile = Profile::default();
    assert_eq!(profile.load(bytes), Err(LoadError::FieldNotPoolReference(Field::State)));

    let no_stack_trace = vec![
        FieldDef("startTime", LONG, false, false),
        FieldDef("sampledThread", THREAD, true, false),
        FieldDef("state", THREAD_STATE, true, false),
    ];
    let bytes = chunk_with(&def, no_stack_trace, &|(tick, thread, _, state)| {
        let mut payload = Vec::new();
        put_i64(&mut payload, *tick);
        put_i64(&mut payload, *thread);
        put_i64(&mut payload, *state);
        payload
    });
    assert_eq!(profile.load(bytes), Err(LoadError::FieldNotPoolReference(Field::StackTrace)));
}

#[test]
fn sample_without_start_time_fails_the_load() {
    let def = two_threads();
    let no_start = vec![
        FieldDef("sampledThread", THREAD, true, false),
        FieldDef("stackTrace", STACK_TRACE, true, false),
        FieldDef("state", THREAD_STATE, true, false),
    ];
    let bytes = chunk_with(&def, no_start, &|(_, thread, trace, state)| {
        let mut payload = Vec::new();
        put_i64(&mut payload, *thread);
        put_i64(&mut payload, *trace);
        put_i64(&mut payload, *state);
        payload
    });
    let mut profile = Profile::default();
    assert_eq!(profile.load(bytes), Err(LoadError::MissingField(Field::StartTime)));
}

#[test]
fn errors_are_told_in_words() {
    assert_eq!(
        LoadError::FieldNotPoolReference(Field::StackTrace).message(),
        "Field stackTrace is not constant pool"
    );
    assert_eq!(LoadError::FieldNotPoolReference(Field::State).message(), "Field state is not constant pool");
    assert_eq!(LoadError::MissingField(Field::SampledThread).message(), "Failed to get sampled thread");
    assert_eq!(LoadError::MissingField(Field::OsThreadId).message(), "Failed to get osThreadId");
    assert_eq!(LoadError::MissingField(Field::StartTime).message(), "Failed to get startTime");
    assert_eq!(LoadError::MissingField(Field::Frames).message(), "failed to get stack frames");
    assert_eq!(LoadError::MissingField(Field::ClassName).message(), "failed to get type name");
    assert_eq!(LoadError::MissingField(Field::MethodName).message(), "failed to get method name");
    assert_eq!(LoadError::MissingField(Field::FrameType).message(), "failed to get frame type");
    assert_eq!(LoadError::MissingField(Field::LineNumber).message(), "failed to get line number");
    assert_eq!(LoadError::MissingField(Field::StateName).message(), "failed to get thread state");
    assert_eq!(LoadError::MissingThreadIdentity.message(), "Failed to get thread name");
    assert_eq!(LoadError::Reader.message(), "Failed to read the trace");
    assert_eq!(LoadError::MalformedInput.message(), "Malformed input");
    assert_eq!(LoadError::Compression.message(), "Failed to decompress the trace");
}

#[test]
fn chunk_of_a_size_that_does_not_fit_is_not_read() {
    let bytes = chunk(&two_threads());
    assert!(check_chunks(&bytes));
    assert!(check_chunks(&vec![]));
    assert!(check_chunks(&bytes[..15].to_vec()));
    assert!(!check_chunks(&bytes[..16].to_vec()));
    let mut twice = bytes.clone();
    twice.extend_from_slice(&bytes);
    assert!(check_chunks(&twice));

    // magic, version 2.0, and a size of -1
    let mut negative = b"FLR\0\0\x02\0\0".to_vec();
    negative.extend_from_slice(&(-1i64).to_be_bytes());
    assert_eq!(negative.len(), 16);
    assert!(!check_chunks(&negative));
    let mut profile = Profile::default();
    assert_eq!(profile.load(negative), Err(LoadError::MalformedInput));

    for size in [0i64, 67, i64::MAX, i64::MIN, bytes.len() as i64 + 1] {
        let mut wrong = bytes.clone();
        wrong[8..16].copy_from_slice(&size.to_be_bytes());
        assert!(!check_chunks(&wrong));
        assert_eq!(profile.load(wrong), Err(LoadError::MalformedInput));
    }
    let mut second_wrong = twice.clone();
    second_wrong[bytes.len() + 8..bytes.len() + 16].copy_from_slice(&67i64.to_be_bytes());
    assert!(!check_chunks(&second_wrong));
    assert_eq!(profile.load(second_wrong), Err(LoadError::MalformedInput));
    assert!(profile.threads.is_empty());
}
