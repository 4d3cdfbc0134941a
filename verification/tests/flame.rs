use jfrv::execution_sample::ingest::Ingestor;
use jfrv::execution_sample::Filter;
use jfrv::execution_sample::Profile;
use jfrv::flame_graph::layout::find_frame;
use jfrv::flame_graph::layout::frame_place;
use jfrv::flame_graph::layout::Level;
use jfrv::flame_graph::FlameGraph;
use jfrv::flame_graph::Frame;
use jfrv::flame_graph::FrameCategory;
use jfrv::flame_graph::FrameId;
use jfrv::profile::ConstantPoolKey;
use jfrv::profile::FrameType;
use jfrv::profile::StackFrame;
use jfrv::profile::StackTrace;
use jfrv::profile::Thread;
use jfrv::profile::ThreadState;

fn native(method: &str) -> StackFrame {
    StackFrame::new(String::new(), method.to_string(), FrameType::Native, 0)
}

fn typed(method: &str, frame_type: FrameType) -> StackFrame {
    StackFrame::new("T".to_string(), method.to_string(), frame_type, 0)
}

/// A stack trace from the outermost frame to the innermost.
fn path(methods: &[&str]) -> StackTrace {
    StackTrace { frames: methods.iter().rev().map(|m| native(m)).collect() }
}

fn names(frame: &Frame) -> Vec<&str> {
    frame.children.iter().map(|c| c.id.name.as_str()).collect()
}

fn conserved(frame: &Frame) -> bool {
    let below: usize = frame.children.iter().map(|c| c.frame.total_count).sum();
    frame.total_count == frame.self_count + below && frame.children.iter().all(|c| conserved(&c.frame))
}

fn two_thread_profile() -> Profile {
    let mut state = Ingestor::new();
    let ab = ConstantPoolKey::new(0, 1, 1);
    let ac = ConstantPoolKey::new(0, 1, 2);
    state.add_stack_trace(ab, path(&["A", "B"]));
    state.add_stack_trace(ac, path(&["A", "C"]));
    state.add_thread(Thread { os_thread_id: 1, name: "one".to_string() });
    state.add_thread(Thread { os_thread_id: 2, name: "two".to_string() });
    state.push_sample(1, 1, ThreadState::Runnable, ac);
    state.push_sample(1, 2, ThreadState::Runnable, ab);
    state.push_sample(2, 3, ThreadState::Runnable, ab);
    state.push_sample(2, 4, ThreadState::Runnable, ac);
    state.push_sample(2, 5, ThreadState::Runnable, ab);
    state.finish()
}

#[test]
fn empty_graph_has_a_native_root() {
    let g = FlameGraph::new();
    assert_eq!(g.depth, 0);
    assert_eq!(g.root.total_count, 0);
    assert_eq!(g.root.self_count, 0);
    assert_eq!(g.root.base_type, FrameType::Native);
    assert!(g.root.children.is_empty());
    assert_eq!(FlameGraph::default().depth, 0);
}

#[test]
fn sample_is_counted_along_its_path() {
    let mut g = FlameGraph::new();
    g.add_sample(&path(&["main", "run", "read"]), 4);
    assert_eq!(g.depth, 3);
    assert_eq!(g.root.total_count, 4);
    assert_eq!(g.root.self_count, 0);
    let main = &g.root.children[0];
    assert_eq!(main.id.name, "main");
    assert_eq!((main.frame.total_count, main.frame.self_count), (4, 0));
    let run = &main.frame.children[0];
    assert_eq!(run.id.name, "run");
    let read = &run.frame.children[0];
    assert_eq!(read.id.name, "read");
    assert_eq!((read.frame.total_count, read.frame.self_count), (4, 4));
    assert!(read.frame.children.is_empty());
}

#[test]
fn sample_without_frames_ends_in_the_root() {
    let mut g = FlameGraph::new();
    g.add_sample(&StackTrace { frames: vec![] }, 2);
    assert_eq!(g.depth, 0);
    assert_eq!((g.root.total_count, g.root.self_count), (2, 2));
}

#[test]
fn children_stand_in_order_of_name_whatever_the_order_of_samples() {
    let samples = [("delta", 1), ("alpha", 2), ("charlie", 3), ("bravo", 4), ("alpha", 5)];
    let mut forward = FlameGraph::new();
    for (name, count) in samples.iter() {
        forward.add_sample(&path(&["main", name]), *count);
    }
    let mut backward = FlameGraph::new();
    for (name, count) in samples.iter().rev() {
        backward.add_sample(&path(&["main", name]), *count);
    }
    for g in [&forward, &backward] {
        let main = &g.root.children[0].frame;
        assert_eq!(names(main), vec!["alpha", "bravo", "charlie", "delta"]);
        let counts: Vec<usize> = main.children.iter().map(|c| c.frame.total_count).collect();
        assert_eq!(counts, vec![7, 4, 3, 1]);
        assert_eq!(g.root.total_count, 15);
    }
}

#[test]
fn a_name_that_starts_another_comes_first() {
    let mut g = FlameGraph::new();
    for name in ["runner", "run", "r", "running", "Run", ""] {
        g.add_sample(&path(&[name]), 1);
    }
    assert_eq!(names(&g.root), vec!["", "Run", "r", "run", "runner", "running"]);
}

#[test]
fn names_beyond_ascii_stand_in_order_of_their_characters() {
    let mut g = FlameGraph::new();
    for name in ["\u{10000}", "\u{ffff}", "\u{e9}", "z", "a\u{e9}", "az", "a"] {
        g.add_sample(&path(&[name]), 1);
    }
    let expected = vec!["a", "az", "a\u{e9}", "z", "\u{e9}", "\u{ffff}", "\u{10000}"];
    assert_eq!(names(&g.root), expected);
    let mut sorted = expected.clone();
    sorted.sort();
    assert_eq!(sorted, expected);
}

#[test]
fn frames_of_one_name_and_different_category_do_not_merge() {
    let mut g = FlameGraph::new();
    g.add_sample(&StackTrace { frames: vec![typed("x", FrameType::Kernel)] }, 1);
    g.add_sample(&StackTrace { frames: vec![typed("x", FrameType::Native)] }, 2);
    g.add_sample(&StackTrace { frames: vec![typed("x", FrameType::Cpp)] }, 3);
    // a managed frame with a class is shown under another name
    g.add_sample(&StackTrace { frames: vec![StackFrame::new(String::new(), "x".to_string(), FrameType::JitCompiled, 0)] }, 4);
    let found: Vec<(&str, FrameCategory, usize)> = g
        .root
        .children
        .iter()
        .map(|c| (c.id.name.as_str(), c.id.category, c.frame.total_count))
        .collect();
    assert_eq!(
        found,
        vec![
            ("x", FrameCategory::Native, 5),
            ("x", FrameCategory::Java, 4),
            ("x", FrameCategory::Kernel, 1)
        ]
    );
    // the first frame that creates a node sets its base type
    assert_eq!(g.root.children[0].frame.base_type, FrameType::Native);
    assert_eq!(g.root.children[1].frame.base_type, FrameType::JitCompiled);
    assert_eq!(g.root.children[2].frame.base_type, FrameType::Kernel);
}

#[test]
fn every_node_counts_its_own_samples_and_its_children() {
    let mut g = FlameGraph::new();
    let mut added = 0;
    for (i, p) in [
        vec!["a"],
        vec!["a", "b"],
        vec!["a", "b", "c"],
        vec!["a", "c"],
        vec!["d"],
        vec![],
        vec!["a", "b"],
    ]
    .iter()
    .enumerate()
    {
        g.add_sample(&path(p), i + 1);
        added += i + 1;
        assert!(conserved(&g.root));
        assert_eq!(g.root.total_count, added);
    }
    assert_eq!(g.depth, 3);
    assert_eq!(g.root.self_count, 6);
}

#[test]
fn add_child_counts_in_the_parent_and_by_mode_in_the_child() {
    let mut root = Frame::new(FrameType::Native);
    {
        let child = root.add_child(&typed("run", FrameType::Interpreted), 3);
        assert_eq!(child.interpreted_count, 3);
        assert_eq!(child.total_count, 0);
        assert_eq!(child.base_type, FrameType::JitCompiled);
        child.add_leaf(3);
    }
    {
        let child = root.add_child(&typed("run", FrameType::Inlined), 2);
        assert_eq!((child.interpreted_count, child.inlined_count, child.c1_count), (3, 2, 0));
        child.add_leaf(2);
    }
    {
        let child = root.add_child(&typed("run", FrameType::C1Compiled), 1);
        assert_eq!(child.c1_count, 1);
        child.add_leaf(1);
    }
    {
        let child = root.add_child(&typed("run", FrameType::JitCompiled), 1);
        assert_eq!((child.interpreted_count, child.inlined_count, child.c1_count), (3, 2, 1));
        child.add_leaf(1);
    }
    assert_eq!(root.total_count, 7);
    assert_eq!(root.children.len(), 1);
    assert_eq!(root.children[0].id.name, "T.run");
    assert_eq!(root.children[0].id.category, FrameCategory::Java);
    assert_eq!(root.children[0].frame.total_count, 7);
}

fn counted(base: FrameType, total: usize, inlined: usize, c1: usize, interpreted: usize) -> Frame {
    let mut f = Frame::new(base);
    f.total_count = total;
    f.inlined_count = inlined;
    f.c1_count = c1;
    f.interpreted_count = interpreted;
    f
}

#[test]
fn node_is_inlined_from_a_third() {
    assert_eq!(counted(FrameType::JitCompiled, 9, 3, 0, 0).calculated_type(), FrameType::Inlined);
    assert_eq!(counted(FrameType::JitCompiled, 10, 3, 0, 0).calculated_type(), FrameType::JitCompiled);
    assert_eq!(counted(FrameType::JitCompiled, 9, 3, 9, 9).calculated_type(), FrameType::Inlined);
}

#[test]
fn node_is_c1_compiled_from_a_half() {
    assert_eq!(counted(FrameType::JitCompiled, 10, 3, 5, 0).calculated_type(), FrameType::C1Compiled);
    assert_eq!(counted(FrameType::JitCompiled, 11, 3, 5, 0).calculated_type(), FrameType::JitCompiled);
    assert_eq!(counted(FrameType::JitCompiled, 10, 0, 5, 10).calculated_type(), FrameType::C1Compiled);
}

#[test]
fn node_is_interpreted_from_a_half() {
    assert_eq!(counted(FrameType::JitCompiled, 10, 3, 4, 5).calculated_type(), FrameType::Interpreted);
    assert_eq!(counted(FrameType::Kernel, 11, 3, 5, 5).calculated_type(), FrameType::Kernel);
}

#[test]
fn node_without_samples_is_inlined() {
    assert_eq!(counted(FrameType::Native, 0, 0, 0, 0).calculated_type(), FrameType::Inlined);
}

#[test]
fn huge_counts_do_not_overflow_the_thresholds() {
    let f = counted(FrameType::Cpp, usize::MAX, usize::MAX / 3, 0, 0);
    assert_eq!(f.calculated_type(), FrameType::Inlined);
    let f = counted(FrameType::Cpp, usize::MAX, usize::MAX / 3 - 1, usize::MAX / 2, 0);
    assert_eq!(f.calculated_type(), FrameType::Cpp);
    let f = counted(FrameType::Cpp, usize::MAX, 0, usize::MAX / 2 + 1, 0);
    assert_eq!(f.calculated_type(), FrameType::C1Compiled);
}

#[test]
fn graph_of_two_threads_counts_both() {
    let profile = two_thread_profile();
    let g = FlameGraph::from_execution_sample(&profile);
    assert_eq!(g.depth, 2);
    assert_eq!(g.root.total_count, 5);
    assert_eq!(names(&g.root), vec!["A"]);
    let a = &g.root.children[0].frame;
    assert_eq!(a.total_count, 5);
    assert_eq!(a.self_count, 0);
    assert_eq!(names(a), vec!["B", "C"]);
    assert_eq!(a.children[0].frame.total_count, 3);
    assert_eq!(a.children[1].frame.total_count, 2);
    assert!(conserved(&g.root));
}

#[test]
fn graph_is_the_same_however_the_samples_are_split_between_two_threads() {
    let ab = ConstantPoolKey::new(0, 1, 1);
    let ac = ConstantPoolKey::new(0, 1, 2);
    let keys = [ab, ac, ab, ac, ab];
    for split in 0u32..32 {
        let mut state = Ingestor::new();
        state.add_stack_trace(ab, path(&["A", "B"]));
        state.add_stack_trace(ac, path(&["A", "C"]));
        state.add_thread(Thread { os_thread_id: 1, name: "one".to_string() });
        state.add_thread(Thread { os_thread_id: 2, name: "two".to_string() });
        for (i, key) in keys.iter().enumerate() {
            let thread: i64 = if split & (1 << i) == 0 { 1 } else { 2 };
            state.push_sample(thread, i as i64, ThreadState::Runnable, *key);
        }
        let profile = state.finish();
        let g = FlameGraph::from_execution_sample(&profile);
        assert_eq!(g.depth, 2);
        assert_eq!(g.root.total_count, 5);
        assert_eq!(names(&g.root), vec!["A"]);
        let a = &g.root.children[0].frame;
        assert_eq!(a.total_count, 5);
        assert_eq!(names(a), vec!["B", "C"]);
        assert_eq!(a.children[0].frame.total_count, 3);
        assert_eq!(a.children[1].frame.total_count, 2);
        assert!(a.children[0].frame.children.is_empty());
        assert!(a.children[1].frame.children.is_empty());
    }
}

#[test]
fn layout_of_two_threads_puts_children_side_by_side() {
    let profile = two_thread_profile();
    let g = FlameGraph::from_execution_sample(&profile);
    let layout = jfrv::flame_graph::layout::FlameGraph::from(&g);
    assert_eq!(layout.levels.len(), 3);

    let row = |i: usize| -> Vec<(&str, usize, usize)> {
        layout.levels[i].frames.iter().map(|f| (f.title.as_str(), f.x, f.count)).collect()
    };
    assert_eq!(row(0), vec![("all", 0, 5)]);
    assert_eq!(row(1), vec![("A", 0, 5)]);
    assert_eq!(row(2), vec![("B", 0, 3), ("C", 3, 2)]);
}

#[test]
fn layout_reserves_the_width_of_own_samples_before_the_children() {
    let mut g = FlameGraph::new();
    g.add_sample(&path(&[]), 1);
    g.add_sample(&path(&["a"]), 2);
    g.add_sample(&path(&["a", "x"]), 3);
    g.add_sample(&path(&["a", "y"]), 4);
    g.add_sample(&path(&["b", "z"]), 5);
    let layout = jfrv::flame_graph::layout::FlameGraph::from(&g);
    let row = |i: usize| -> Vec<(&str, usize, usize)> {
        layout.levels[i].frames.iter().map(|f| (f.title.as_str(), f.x, f.count)).collect()
    };
    assert_eq!(row(0), vec![("all", 0, 15)]);
    assert_eq!(row(1), vec![("a", 1, 9), ("b", 10, 5)]);
    assert_eq!(row(2), vec![("x", 3, 3), ("y", 6, 4), ("z", 10, 5)]);
}

#[test]
fn layout_of_the_empty_graph_is_the_root_alone() {
    let layout = jfrv::flame_graph::layout::FlameGraph::from(&FlameGraph::new());
    assert_eq!(layout.levels.len(), 1);
    assert_eq!(layout.levels[0].frames.len(), 1);
    let root = &layout.levels[0].frames[0];
    assert_eq!((root.x, root.count, root.title.as_str()), (0, 0, "all"));
    assert_eq!(root.detail.description, "");
}

#[test]
fn layout_describes_the_counts_by_mode() {
    let mut g = FlameGraph::new();
    g.add_sample(&StackTrace { frames: vec![typed("m", FrameType::Interpreted)] }, 12);
    g.add_sample(&StackTrace { frames: vec![typed("m", FrameType::C1Compiled)] }, 3);
    g.add_sample(&StackTrace { frames: vec![typed("m", FrameType::Inlined)] }, 1);
    g.add_sample(&StackTrace { frames: vec![typed("n", FrameType::Inlined)] }, 4);
    g.add_sample(&StackTrace { frames: vec![typed("o", FrameType::JitCompiled)] }, 1);
    let layout = jfrv::flame_graph::layout::FlameGraph::from(&g);
    let m = &layout.levels[1].frames[0];
    assert_eq!(m.title, "T.m");
    assert_eq!(m.detail.description, ", int=12, c1=3, inln=1");
    assert_eq!(m.detail.interpreted_count, Some(12));
    assert_eq!(m.detail.c1_compiled_count, Some(3));
    assert_eq!(m.detail.inlined_count, Some(1));
    assert_eq!(m.frame_type, FrameType::Interpreted);
    let n = &layout.levels[1].frames[1];
    assert_eq!(n.detail.description, ", inln=4");
    assert_eq!(n.detail.interpreted_count, None);
    assert_eq!(n.frame_type, FrameType::Inlined);
    let o = &layout.levels[1].frames[2];
    assert_eq!(o.detail.description, "");
    assert_eq!(o.frame_type, FrameType::JitCompiled);
    let root = &layout.levels[0].frames[0];
    assert_eq!(root.frame_type, FrameType::Native);
}

#[test]
fn rejected_stack_traces_leave_the_graph_but_not_the_timelines() {
    let mut state = Ingestor::new();
    let slow = ConstantPoolKey::new(0, 1, 1);
    let fast = ConstantPoolKey::new(0, 1, 2);
    state.add_stack_trace(
        slow,
        StackTrace {
            frames: vec![
                StackFrame::new("Db".to_string(), "SlowMethod".to_string(), FrameType::JitCompiled, 1),
                StackFrame::new("App".to_string(), "main".to_string(), FrameType::JitCompiled, 2),
            ],
        },
    );
    state.add_stack_trace(
        fast,
        StackTrace {
            frames: vec![
                StackFrame::new("Db".to_string(), "fast".to_string(), FrameType::JitCompiled, 3),
                StackFrame::new("App".to_string(), "main".to_string(), FrameType::JitCompiled, 2),
            ],
        },
    );
    state.add_thread(Thread { os_thread_id: 1, name: "main".to_string() });
    state.push_sample(1, 1, ThreadState::Runnable, slow);
    state.push_sample(1, 2, ThreadState::Runnable, fast);
    state.push_sample(1, 3, ThreadState::Runnable, slow);
    let mut profile = state.finish();
    assert_eq!(FlameGraph::from_execution_sample(&profile).root.total_count, 3);

    let filter = Filter {
        thread_name_regex: None,
        stack_trace_match_regex: None,
        stack_trace_reject_regex: Some("SlowMethod".to_string()),
    };
    assert_eq!(profile.apply_filter(filter), Ok(()));

    let g = FlameGraph::from_execution_sample(&profile);
    assert_eq!(g.root.total_count, 1);
    assert_eq!(names(&g.root), vec!["App.main:2"]);
    assert_eq!(names(&g.root.children[0].frame), vec!["Db.fast:3"]);

    let samples = &profile.per_thread_samples[&1];
    assert_eq!(samples.len(), 3);
    let valid: Vec<bool> = samples.iter().map(|s| profile.is_valid_sample(s)).collect();
    assert_eq!(valid, vec![false, true, false]);
}

#[test]
fn hidden_threads_still_count_in_the_graph() {
    let mut profile = two_thread_profile();
    let filter = Filter {
        thread_name_regex: Some("^one$".to_string()),
        stack_trace_match_regex: None,
        stack_trace_reject_regex: None,
    };
    assert_eq!(profile.apply_filter(filter), Ok(()));
    assert_eq!(profile.filtered_threads().len(), 1);
    assert_eq!(FlameGraph::from_execution_sample(&profile).root.total_count, 5);
}

fn level(frames: &[(usize, usize)]) -> Level {
    let mut g = FlameGraph::new();
    for (i, (_, count)) in frames.iter().enumerate() {
        g.add_sample(&path(&[format!("{:04}", i).as_str()]), *count);
    }
    let mut layout = jfrv::flame_graph::layout::FlameGraph::from(&g);
    let mut level = layout.levels.remove(1);
    for (f, (x, count)) in level.frames.iter_mut().zip(frames.iter()) {
        f.x = *x;
        f.count = *count;
    }
    level
}

#[test]
fn frame_is_found_where_its_interval_holds_the_offset() {
    let row = level(&[(0, 3), (3, 2), (5, 1), (10, 4)]);
    assert_eq!(find_frame(&row, 0), Some(0));
    assert_eq!(find_frame(&row, 2), Some(0));
    assert_eq!(find_frame(&row, 3), Some(1));
    assert_eq!(find_frame(&row, 4), Some(1));
    assert_eq!(find_frame(&row, 5), Some(2));
    assert_eq!(find_frame(&row, 10), Some(3));
    assert_eq!(find_frame(&row, 13), Some(3));
}

#[test]
fn no_frame_is_found_outside_all_intervals() {
    let row = level(&[(0, 3), (3, 2), (5, 1), (10, 4)]);
    assert_eq!(find_frame(&row, 6), None);
    assert_eq!(find_frame(&row, 9), None);
    assert_eq!(find_frame(&row, 14), None);
    assert_eq!(find_frame(&row, usize::MAX), None);
    assert_eq!(find_frame(&Level { frames: vec![] }, 0), None);
    let shifted = level(&[(2, 3)]);
    assert_eq!(find_frame(&shifted, 1), None);
    assert_eq!(find_frame(&shifted, 2), Some(0));
    assert_eq!(find_frame(&shifted, 5), None);
}

#[test]
fn frame_at_the_end_of_the_range_does_not_overflow() {
    let row = level(&[(usize::MAX - 1, 1)]);
    assert_eq!(find_frame(&row, usize::MAX - 1), Some(0));
    assert_eq!(find_frame(&row, usize::MAX), None);
}

#[test]
fn frame_id_keeps_name_and_category() {
    let id = FrameId { name: "x".to_string(), category: FrameCategory::Kernel };
    assert_eq!(id.name, "x");
    assert_eq!(id.category, FrameCategory::Kernel);
    assert_eq!(id, FrameId { name: "x".to_string(), category: FrameCategory::Kernel });
    assert_ne!(id, FrameId { name: "x".to_string(), category: FrameCategory::Native });
    assert_ne!(id, FrameId { name: "y".to_string(), category: FrameCategory::Kernel });
    assert!(FrameCategory::Native < FrameCategory::Java);
    assert!(FrameCategory::Java < FrameCategory::Kernel);
}

#[test]
fn bisection_ends_after_the_frames_that_start_at_or_before_the_offset() {
    let row = level(&[(0, 3), (3, 2), (5, 1), (10, 4)]);
    let places: Vec<usize> =
        [0, 2, 3, 4, 5, 6, 9, 10, 13, 14].iter().map(|x| frame_place(&row, *x)).collect();
    assert_eq!(places, vec![1, 1, 2, 2, 3, 3, 3, 4, 4, 4]);
    assert_eq!(frame_place(&Level { frames: vec![] }, 7), 0);
    let shifted = level(&[(2, 3)]);
    assert_eq!(frame_place(&shifted, 1), 0);
    assert_eq!(frame_place(&shifted, 2), 1);
    assert_eq!(frame_place(&shifted, usize::MAX), 1);
}
