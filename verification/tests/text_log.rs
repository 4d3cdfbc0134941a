use jfrv::execution_sample::LoadError;
use jfrv::filter::FilterError;
use jfrv::jbm::begin_sample;
use jfrv::jbm::flush_sample;
use jfrv::jbm::frame_text;
use jfrv::jbm::note_thread;
use jfrv::jbm::parse_header;
use jfrv::jbm::thread_label;
use jfrv::jbm::Header;
use jfrv::jbm::JbmFilter;
use jfrv::jbm::ParsingSample;
use jfrv::jbm::Profile;
use jfrv::jbm::FRAME_PATTERN;
use jfrv::jbm::HEADER_PATTERN;
use jfrv::profile::FrameType;
use jfrv::profile::OffCpu;
use jfrv::profile::StackFrame;
use jfrv::profile::StackTrace;
use jfrv::profile::Thread;
use jfrv::profile::ThreadState;
use rustc_hash::FxHashMap;

const LOG: &str = "\
jvm-blocking-monitor started
=== 2021-03-04 10:20:30.250 PID: 100, TID: 26 (worker-a), DURATION: 1500000 us
Native Stack:
  0: [0xffffffff8105a1b1] finish_task_switch
  1: [0xffffffff81a0c5a5] schedule
--------------------
JVM Stack (took 3 us):
  0: [0x7f1] Lcom/example/Db;::query
some chatter that is no frame

=== 2021-03-04 10:20:31.000 PID: 100, TID: 27 (worker-b), DURATION: 2999 us
Native Stack:
  0: [0xffffffff8105a1b1] finish_task_switch
=== 2021-03-04 10:20:29.750 PID: 100, TID: 26 (worker-a), DURATION: 500000 us
Native Stack:
  0: [0xffffffff8105a1b1] finish_task_switch
";

fn groups(texts: &[Option<&str>]) -> Vec<Option<String>> {
    texts.iter().map(|t| t.map(|s| s.to_string())).collect()
}

fn parsing(thread_id: i64, timestamp: i64, frames: &[&str]) -> ParsingSample {
    ParsingSample {
        timestamp,
        duration: 10,
        thread_id,
        state: ThreadState::Unknown,
        frames: frames
            .iter()
            .map(|f| StackFrame::new(String::new(), f.to_string(), FrameType::Unknown, 0))
            .collect(),
    }
}

#[test]
fn log_is_loaded_into_threads_and_timelines() {
    let mut profile = Profile::default();
    assert_eq!(profile.load(LOG.as_bytes().to_vec()), Ok(()));

    let names: Vec<&str> = profile.threads.iter().map(|t| t.name.as_str()).collect();
    assert_eq!(names, vec!["worker-a [tid=0x1a]", "worker-b [tid=0x1b]"]);
    assert_eq!(profile.threads().len(), 2);
    assert_eq!(profile.threads[0].os_thread_id, 26);

    let a = &profile.per_thread_samples[&26];
    let b = &profile.per_thread_samples[&27];
    assert_eq!(a.len(), 2);
    assert_eq!(b.len(), 1);
    // the header's time is the end of the blocking
    assert_eq!(a[0].duration_millis, 1500);
    assert_eq!(a[1].duration_millis, 500);
    assert_eq!(a[1].timestamp - a[0].timestamp, 500);
    assert_eq!(b[0].duration_millis, 2);
    assert_eq!(b[0].timestamp - a[0].timestamp, 2248);

    assert_eq!(profile.interval.start_millis, a[0].timestamp);
    assert_eq!(profile.interval.end_millis, b[0].timestamp + b[0].duration_millis);
    assert_eq!(profile.interval.duration_millis(), 2250);
}

#[test]
fn equal_stack_traces_of_the_log_share_one_key() {
    let mut profile = Profile::default();
    assert_eq!(profile.load(LOG.as_bytes().to_vec()), Ok(()));
    assert_eq!(profile.stack_trace_pool.len(), 2);
    let a = &profile.per_thread_samples[&26];
    let b = &profile.per_thread_samples[&27];
    // keys are given in the order in which the stack traces are first read
    assert_eq!(a[0].stack_trace_key, 0);
    assert_eq!(b[0].stack_trace_key, 1);
    assert_eq!(a[1].stack_trace_key, 1);

    let first: Vec<&str> = profile.stack_trace_pool[&0].frames.iter().map(|f| f.name()).collect();
    assert_eq!(
        first,
        vec![
            "Native Stack:",
            "  0: [0xffffffff8105a1b1] finish_task_switch",
            "  1: [0xffffffff81a0c5a5] schedule",
            "--------------------",
            "JVM Stack",
            "  0: [0x7f1] Lcom/example/Db;::query",
        ]
    );
    let frame = &profile.stack_trace_pool[&1].frames[1];
    assert_eq!(frame.class_name, "");
    assert_eq!(frame.frame_type, FrameType::Unknown);
    assert_eq!(frame.line_number, 0);
}

#[test]
fn log_without_samples_is_empty() {
    let mut profile = Profile::default();
    assert_eq!(profile.load(b"nothing to see\n  0: [0x1] orphan\n".to_vec()), Ok(()));
    assert!(profile.threads.is_empty());
    assert!(profile.stack_trace_pool.is_empty());
    assert!(profile.per_thread_samples.is_empty());
    assert_eq!(profile.interval.start_millis, i64::MAX);
    assert_eq!(profile.interval.end_millis, 0);
    assert_eq!(profile.load(vec![]), Ok(()));
}

#[test]
fn sample_without_frames_has_the_empty_stack_trace() {
    let mut profile = Profile::default();
    let log = "=== 2021-03-04 10:20:30.250 PID: 1, TID: 2 (t), DURATION: 1000 us\n";
    assert_eq!(profile.load(log.as_bytes().to_vec()), Ok(()));
    assert_eq!(profile.per_thread_samples[&2].len(), 1);
    assert!(profile.stack_trace_pool[&0].frames.is_empty());
}

#[test]
fn log_that_cannot_be_read_leaves_the_profile_as_it_was() {
    let mut profile = Profile::default();
    assert_eq!(profile.load(LOG.as_bytes().to_vec()), Ok(()));
    // a date that no calendar has
    let bad_date = "=== 2021-13-04 10:20:30.250 PID: 1, TID: 2 (t), DURATION: 1000 us\n";
    assert_eq!(profile.load(bad_date.as_bytes().to_vec()), Err(LoadError::MalformedInput));
    // a number that does not fit
    let bad_tid =
        "=== 2021-03-04 10:20:30.250 PID: 1, TID: 99999999999999999999 (t), DURATION: 1000 us\n";
    assert_eq!(profile.load(bad_tid.as_bytes().to_vec()), Err(LoadError::MalformedInput));
    let bad_duration =
        "=== 2021-03-04 10:20:30.250 PID: 1, TID: 2 (t), DURATION: 99999999999999999999 us\n";
    assert_eq!(profile.load(bad_duration.as_bytes().to_vec()), Err(LoadError::MalformedInput));
    // bytes that are no text
    assert_eq!(profile.load(vec![b'a', 0xff, 0xfe, b'\n']), Err(LoadError::Reader));
    assert_eq!(profile.threads.len(), 2);
    assert_eq!(profile.stack_trace_pool.len(), 2);
    assert_eq!(profile.per_thread_samples.len(), 2);
}

#[test]
fn threads_of_the_log_are_filtered_by_name() {
    let mut profile = Profile::default();
    assert_eq!(profile.load(LOG.as_bytes().to_vec()), Ok(()));
    assert_eq!(
        profile.apply_filter(JbmFilter { thread_name_regex: Some("tid=0x1b".to_string()) }),
        Ok(())
    );
    let names: Vec<&str> = profile.threads().iter().map(|t| t.name.as_str()).collect();
    assert_eq!(names, vec!["worker-b [tid=0x1b]"]);
    assert_eq!(profile.threads.len(), 2);
    assert_eq!(
        profile.apply_filter(JbmFilter { thread_name_regex: Some("(".to_string()) }),
        Err(FilterError::InvalidPattern)
    );
    assert_eq!(profile.threads().len(), 1);
    assert_eq!(profile.apply_filter(JbmFilter { thread_name_regex: Some("zzz".to_string()) }), Ok(()));
    assert!(profile.threads().is_empty());
    assert_eq!(profile.apply_filter(JbmFilter::default()), Ok(()));
    assert_eq!(profile.threads().len(), 2);
    assert_eq!(profile.stack_trace_pool.len(), 2);
}

#[test]
fn header_is_read_from_its_groups() {
    let re = regex::Regex::new(HEADER_PATTERN).unwrap();
    let line = "=== 2021-03-04 10:20:30.250 PID: 100, TID: 26 (worker a), DURATION: 1500999 us";
    let found: Vec<Option<String>> = re
        .captures(line)
        .unwrap()
        .iter()
        .map(|m| m.map(|m| m.as_str().to_string()))
        .collect();
    let header = parse_header(&found).unwrap();
    assert_eq!(header.timestamp, "2021-03-04 10:20:30");
    assert_eq!(header.millis, 250);
    assert_eq!(header.thread_id, 26);
    assert_eq!(header.thread_name, "worker a");
    assert_eq!(header.duration_millis, 1500);
    assert!(!re.is_match("== 2021-03-04 10:20:30.250 PID: 100, TID: 26 (w), DURATION: 1 us"));
    assert!(!re.is_match(" === 2021-03-04 10:20:30.250 PID: 100, TID: 26 (w), DURATION: 1 us"));
}

#[test]
fn header_with_a_number_that_does_not_fit_is_malformed() {
    let ok = groups(&[Some("w"), Some("t"), Some("1"), Some("2"), Some("n"), Some("3999")]);
    let header = parse_header(&ok).unwrap();
    assert_eq!((header.millis, header.thread_id, header.duration_millis), (1, 2, 3));
    for (i, bad) in [(2, "9223372036854775808"), (3, "x"), (5, "")] {
        let mut g = ok.clone();
        g[i] = Some(bad.to_string());
        assert_eq!(parse_header(&g).err(), Some(LoadError::MalformedInput));
    }
    let mut g = ok.clone();
    g[2] = Some("9223372036854775807".to_string());
    assert_eq!(parse_header(&g).unwrap().millis, i64::MAX);
    g[2] = Some("-5".to_string());
    assert_eq!(parse_header(&g).unwrap().millis, -5);
    g[2] = Some("+5".to_string());
    assert_eq!(parse_header(&g).unwrap().millis, 5);
    g[5] = Some("-1999".to_string());
    assert_eq!(parse_header(&g).unwrap().duration_millis, -1);
}

#[test]
fn header_needs_all_its_groups() {
    let ok = groups(&[Some("w"), Some("t"), Some("1"), Some("2"), Some("n"), Some("3999")]);
    for i in 1..6 {
        let mut g = ok.clone();
        g[i] = None;
        assert_eq!(parse_header(&g).err(), Some(LoadError::MalformedInput));
    }
    let mut g = ok.clone();
    g[0] = None;
    assert!(parse_header(&g).is_ok());
    assert_eq!(parse_header(&ok[0..5].to_vec()).err(), Some(LoadError::MalformedInput));
    let mut longer = ok.clone();
    longer.push(None);
    assert_eq!(parse_header(&longer).err(), Some(LoadError::MalformedInput));
    assert_eq!(parse_header(&vec![]).err(), Some(LoadError::MalformedInput));
}

#[test]
fn frame_text_is_the_first_group_that_matched() {
    assert_eq!(frame_text(&groups(&[Some("w"), Some("a"), None, None, None])), "a");
    assert_eq!(frame_text(&groups(&[Some("w"), None, Some("b"), None, None])), "b");
    assert_eq!(frame_text(&groups(&[Some("w"), None, None, Some("c"), None])), "c");
    assert_eq!(frame_text(&groups(&[Some("w"), None, None, None, Some("d")])), "d");
    assert_eq!(frame_text(&groups(&[Some("w"), None, Some("b"), None, Some("d")])), "b");
    assert_eq!(frame_text(&groups(&[Some("w"), None, None, None, None])), "");
    assert_eq!(frame_text(&groups(&[Some("w"), None, None, None, None, Some("e")])), "");
    assert_eq!(frame_text(&groups(&[Some("w")])), "");
    assert_eq!(frame_text(&groups(&[])), "");
    assert_eq!(frame_text(&groups(&[Some("w"), None, Some("b")])), "b");
}

#[test]
fn stack_lines_are_told_from_other_lines() {
    let re = regex::Regex::new(FRAME_PATTERN).unwrap();
    let text = |line: &str| -> Option<String> {
        re.captures(line).map(|c| {
            frame_text(&c.iter().map(|m| m.map(|m| m.as_str().to_string())).collect())
        })
    };
    assert_eq!(text("  3: [0x7fAb] foo bar"), Some("  3: [0x7fAb] foo bar".to_string()));
    assert_eq!(text("-----"), Some("-----".to_string()));
    assert_eq!(text("----"), None);
    assert_eq!(text("JVM Stack (took 3 us):"), Some("JVM Stack".to_string()));
    assert_eq!(text("Native Stack: deep"), Some("Native Stack:".to_string()));
    assert_eq!(text("Native Stack"), None);
    assert_eq!(text("3: [7f] foo"), None);
    assert_eq!(text(""), None);
}

#[test]
fn thread_is_labelled_with_its_id_in_hexadecimal() {
    assert_eq!(thread_label("main", 0), "main [tid=0x0]");
    assert_eq!(thread_label("main", 255), "main [tid=0xff]");
    assert_eq!(thread_label("", 4096), " [tid=0x1000]");
    assert_eq!(thread_label("t", i64::MAX), "t [tid=0x7fffffffffffffff]");
    assert_eq!(thread_label("t", -1), "t [tid=0xffffffffffffffff]");
    assert_eq!(thread_label("t", i64::MIN), "t [tid=0x8000000000000000]");
}

#[test]
fn sample_starts_the_duration_before_the_time_of_its_header() {
    let header = Header {
        timestamp: "x".to_string(),
        millis: 250,
        thread_id: 9,
        thread_name: "t".to_string(),
        duration_millis: 1500,
    };
    let sample = begin_sample(&header, 1_000_000).unwrap();
    assert_eq!(sample.timestamp, 998_750);
    assert_eq!(sample.duration, 1500);
    assert_eq!(sample.thread_id, 9);
    assert_eq!(sample.state, ThreadState::Unknown);
    assert!(sample.frames.is_empty());
}

#[test]
fn sample_out_of_the_range_of_time_does_not_start() {
    let header = |millis: i64, duration_millis: i64| Header {
        timestamp: "x".to_string(),
        millis,
        thread_id: 9,
        thread_name: "t".to_string(),
        duration_millis,
    };
    assert!(begin_sample(&header(1, 0), i64::MAX).is_none());
    assert!(begin_sample(&header(0, 1), i64::MIN).is_none());
    assert!(begin_sample(&header(1, 5), i64::MAX).is_none());
    assert_eq!(begin_sample(&header(0, 5), i64::MAX).unwrap().timestamp, i64::MAX - 5);
    assert_eq!(begin_sample(&header(0, -1), i64::MAX - 1).unwrap().timestamp, i64::MAX);
    assert!(begin_sample(&header(0, -2), i64::MAX - 1).is_none());
}

#[test]
fn finished_samples_are_filed_under_the_place_of_their_stack_trace() {
    let mut pool: Vec<StackTrace> = Vec::new();
    let mut samples: FxHashMap<i64, Vec<OffCpu>> = FxHashMap::default();
    assert!(flush_sample(parsing(1, 100, &["a", "b"]), &mut pool, &mut samples));
    assert!(flush_sample(parsing(2, 50, &["a"]), &mut pool, &mut samples));
    assert!(flush_sample(parsing(1, 70, &["a", "b"]), &mut pool, &mut samples));
    assert!(flush_sample(parsing(1, 80, &["b", "a"]), &mut pool, &mut samples));
    assert!(flush_sample(parsing(3, 90, &[]), &mut pool, &mut samples));
    assert_eq!(pool.len(), 4);
    let keys = |id: i64| -> Vec<(i64, i32)> {
        samples[&id].iter().map(|s| (s.timestamp, s.stack_trace_key)).collect()
    };
    assert_eq!(keys(1), vec![(100, 0), (70, 0), (80, 2)]);
    assert_eq!(keys(2), vec![(50, 1)]);
    assert_eq!(keys(3), vec![(90, 3)]);
    assert_eq!(samples[&1][0].duration_millis, 10);
    assert_eq!(samples[&1][0].state, ThreadState::Unknown);
}

#[test]
fn thread_is_noted_once_for_each_id() {
    let mut threads: Vec<Thread> = Vec::new();
    let t = |id: i64, name: &str| Thread { os_thread_id: id, name: name.to_string() };
    note_thread(&mut threads, t(1, "a"));
    note_thread(&mut threads, t(1, "a"));
    note_thread(&mut threads, t(1, "b"));
    note_thread(&mut threads, t(2, "a"));
    note_thread(&mut threads, t(2, "c"));
    let found: Vec<(i64, &str)> = threads.iter().map(|t| (t.os_thread_id, t.name.as_str())).collect();
    assert_eq!(found, vec![(1, "a"), (2, "a")]);
}

#[test]
fn default_text_filter_has_no_pattern() {
    assert!(JbmFilter::default().thread_name_regex.is_none());
}

#[test]
fn off_cpu_sample_is_looked_up_with_thread_and_stack_trace() {
    let mut profile = Profile::default();
    assert_eq!(profile.load(LOG.as_bytes().to_vec()), Ok(()));
    let (thread, sample, trace) = profile.sample_info(1, 26, 1).unwrap();
    assert_eq!(thread.name, "worker-b [tid=0x1b]");
    assert_eq!(sample.duration_millis, 500);
    assert_eq!(trace.frames.len(), 2);
    let (thread, sample, trace) = profile.sample_info(0, 27, 0).unwrap();
    assert_eq!(thread.os_thread_id, 26);
    assert_eq!(sample.duration_millis, 2);
    assert_eq!(trace.frames[0].name(), "Native Stack:");
    assert!(profile.sample_info(2, 26, 0).is_none());
    assert!(profile.sample_info(0, 26, 2).is_none());
    assert!(profile.sample_info(0, 28, 0).is_none());
    assert_eq!(
        profile.apply_filter(JbmFilter { thread_name_regex: Some("worker-b".to_string()) }),
        Ok(())
    );
    assert_eq!(profile.sample_info(0, 26, 0).unwrap().0.os_thread_id, 27);
    assert!(profile.sample_info(1, 26, 0).is_none());
    profile.stack_trace_pool.remove(&0);
    assert!(profile.sample_info(0, 26, 0).is_none());
}

#[test]
fn threads_and_samples_of_the_log_are_put_in_order() {
    let log = "\
=== 2021-03-04 10:20:30.000 PID: 1, TID: 9 (zulu), DURATION: 1000 us
  0: [0x1] late
=== 2021-03-04 10:20:10.000 PID: 1, TID: 9 (zulu), DURATION: 1000 us
  0: [0x1] early
=== 2021-03-04 10:20:20.000 PID: 1, TID: 8 (alpha), DURATION: 1000 us
  0: [0x1] middle
=== 2021-03-04 10:20:10.001 PID: 1, TID: 9 (zulu), DURATION: 2000 us
  0: [0x1] same start
";
    let mut profile = Profile::default();
    assert_eq!(profile.load(log.as_bytes().to_vec()), Ok(()));
    let names: Vec<&str> = profile.threads.iter().map(|t| t.name.as_str()).collect();
    assert_eq!(names, vec!["alpha [tid=0x8]", "zulu [tid=0x9]"]);
    let zulu = &profile.per_thread_samples[&9];
    let frames: Vec<&str> = zulu
        .iter()
        .map(|s| profile.stack_trace_pool[&s.stack_trace_key].frames[0].name())
        .collect();
    // samples of one start stay in the order in which the log holds them
    assert_eq!(frames, vec!["  0: [0x1] early", "  0: [0x1] same start", "  0: [0x1] late"]);
    assert_eq!(zulu[0].timestamp, zulu[1].timestamp);
    assert_eq!(zulu[2].timestamp - zulu[0].timestamp, 20_000);
    let keys: Vec<i32> = zulu.iter().map(|s| s.stack_trace_key).collect();
    assert_eq!(keys, vec![1, 3, 0]);
}

#[test]
fn one_thread_id_under_two_names_is_one_thread() {
    let log = "\
=== 2021-03-04 10:20:30.000 PID: 1, TID: 9 (second name), DURATION: 1000 us
=== 2021-03-04 10:20:10.000 PID: 1, TID: 9 (first name), DURATION: 1000 us
=== 2021-03-04 10:20:20.000 PID: 1, TID: 9 (second name), DURATION: 1000 us
";
    let mut profile = Profile::default();
    assert_eq!(profile.load(log.as_bytes().to_vec()), Ok(()));
    // the thread keeps the name under which the log first holds it
    let names: Vec<&str> = profile.threads.iter().map(|t| t.name.as_str()).collect();
    assert_eq!(names, vec!["second name [tid=0x9]"]);
    assert_eq!(profile.threads().len(), 1);
    assert_eq!(profile.per_thread_samples.len(), 1);
    assert_eq!(profile.per_thread_samples[&9].len(), 3);
    assert_eq!(profile.stack_trace_pool.len(), 1);
}

#[test]
fn log_of_two_samples_of_one_thread_is_loaded() {
    let log = "\
=== 2022-06-15 12:00:01.000 PID: 1, TID: 10 (main), DURATION: 3000 us
Native Stack:
=== 2022-06-15 12:00:02.000 PID: 1, TID: 10 (main), DURATION: 5000 us
Native Stack:
";
    let mut profile = Profile::default();
    assert!(profile.load(log.as_bytes().to_vec()).is_ok());
    let samples = &profile.per_thread_samples[&10];
    assert_eq!(samples.len(), 2);
    let durations: Vec<i64> = samples.iter().map(|s| s.duration_millis).collect();
    assert_eq!(durations, vec![3, 5]);
    assert!(samples.iter().all(|s| s.stack_trace_key == 0));
    assert_eq!(profile.stack_trace_pool.len(), 1);
    assert_eq!(profile.threads().len(), 1);
    assert_eq!(profile.threads()[0].name, "main [tid=0xa]");
}

#[test]
fn date_of_a_year_outside_1_to_9999_is_malformed() {
    let mut profile = Profile::default();
    for year in ["10000", "0000", "-0001", "-2021"] {
        let log =
            format!("=== {}-03-04 10:20:30.250 PID: 1, TID: 2 (t), DURATION: 1000 us\n", year);
        assert_eq!(profile.load(log.as_bytes().to_vec()), Err(LoadError::MalformedInput));
    }
    for year in ["9999", "0001", "1970"] {
        let log =
            format!("=== {}-03-04 10:20:30.250 PID: 1, TID: 2 (t), DURATION: 1000 us\n", year);
        assert_eq!(profile.load(log.as_bytes().to_vec()), Ok(()));
    }
}

#[test]
fn lines_may_end_with_carriage_return_and_line_feed() {
    let log = "=== 2021-03-04 10:20:30.000 PID: 1, TID: 9 (t), DURATION: 1000 us\r\n-----\r\n";
    let mut profile = Profile::default();
    assert_eq!(profile.load(log.as_bytes().to_vec()), Ok(()));
    assert_eq!(profile.stack_trace_pool[&0].frames[0].name(), "-----");
}
