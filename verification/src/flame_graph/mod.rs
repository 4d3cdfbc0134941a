//! The flame graph: a call tree in which every node counts the samples
//! whose call stack passes through it.

pub mod aggregate;
pub mod layout;
pub mod model;
pub mod order;
pub mod paths;

pub use crate::flame_graph::model::FrameCategory;

use crate::execution_sample::Profile;
use crate::flame_graph::aggregate::{
    count_in, first_seen, lemma_count_in_bounds, lemma_timeline_keys_len, lemma_timeline_keys_step,
    lemma_total_of_prefix, lemma_visible_sample_keys_len, lemma_weight_is_length,
    lemma_weight_of_prefix, timeline_keys, visible_sample_keys, weighted,
};
use crate::flame_graph::model::{
    has_room, lemma_has_child, lemma_room,
    ChildView, FlameGraphView, FrameIdView, NodeView, Weighted, add_leaf, add_steps, base_type_of,
    bump, calculated_type_of, category_of, children_total, empty_graph, empty_root, fresh, graph_of,
    has_child, id_lt, lemma_children_total_bounds, lemma_conservation, lemma_graph_of_valid,
    lemma_id_lt_transitive, lemma_lower_bound_is, lower_bound, ordered, receptive, step_of,
    steps_of, total_weight, well_formed, with_sample,
};
use crate::fx::{map_get, map_insert, map_new};
use crate::profile::{FrameType, StackFrame, StackTrace};
use crate::text::{str_eq, str_lt};
use crate::timeline::thread_views;
use rustc_hash::FxHashMap;
use vstd::prelude::*;
use vstd::string::StringExecFns;

verus! {

/// What tells the children of one node apart: the display name of the
/// frame and the category of its code.
#[derive(Debug, Hash)]
pub struct FrameId {
    pub name: String,
    pub category: FrameCategory,
}

impl View for FrameId {
    type V = FrameIdView;

    open spec fn view(&self) -> FrameIdView {
        FrameIdView { name: self.name@, category: self.category }
    }
}

impl PartialEq for FrameId {
    fn eq(&self, other: &Self) -> (r: bool) {
        self.name == other.name && self.category == other.category
    }
}

impl vstd::std_specs::cmp::PartialEqSpecImpl for FrameId {
    open spec fn obeys_eq_spec() -> bool {
        true
    }

    open spec fn eq_spec(&self, other: &Self) -> bool {
        self@ == other@
    }
}

impl Eq for FrameId {

}

/// A node of the call tree.
#[derive(Debug)]
pub struct Frame {
    pub base_type: FrameType,
    pub children: Vec<Child>,
    pub total_count: usize,
    pub self_count: usize,
    pub inlined_count: usize,
    pub c1_count: usize,
    pub interpreted_count: usize,
}

/// A child of a node, with the identity under which its parent holds it.
#[derive(Debug)]
pub struct Child {
    pub id: FrameId,
    pub frame: Frame,
}

/// The tree below a node as plain values.
pub open spec fn node_view(f: Frame) -> NodeView
    decreases f,
{
    NodeView {
        base_type: f.base_type,
        children: Seq::new(
            f.children@.len(),
            |i: int|
                if 0 <= i < f.children@.len() {
                    ChildView { id: f.children@[i].id@, node: node_view(f.children@[i].frame) }
                } else {
                    arbitrary()
                },
        ),
        total_count: f.total_count as nat,
        self_count: f.self_count as nat,
        inlined_count: f.inlined_count as nat,
        c1_count: f.c1_count as nat,
        interpreted_count: f.interpreted_count as nat,
    }
}

impl View for Frame {
    type V = NodeView;

    open spec fn view(&self) -> NodeView {
        node_view(*self)
    }
}

/// The base type and the category of a frame of the given type.
fn category_for(t: FrameType) -> (r: (FrameType, FrameCategory))
    ensures
        r.0 == base_type_of(t),
        r.1 == category_of(t),
{
    match t {
        FrameType::Interpreted
        | FrameType::JitCompiled
        | FrameType::Inlined
        | FrameType::C1Compiled => (FrameType::JitCompiled, FrameCategory::Java),
        FrameType::Cpp => (FrameType::Cpp, FrameCategory::Native),
        FrameType::Kernel => (FrameType::Kernel, FrameCategory::Kernel),
        _ => (FrameType::Native, FrameCategory::Native),
    }
}

/// The place of a category in the order of categories.
fn rank_of(c: FrameCategory) -> (r: u8)
    ensures
        r == c.rank(),
{
    match c {
        FrameCategory::Native => 0,
        FrameCategory::Java => 1,
        FrameCategory::Kernel => 2,
    }
}

impl Frame {
    /// The view of a node, field by field.
    pub proof fn lemma_view(self)
        ensures
            self@.base_type == self.base_type,
            self@.total_count == self.total_count,
            self@.self_count == self.self_count,
            self@.inlined_count == self.inlined_count,
            self@.c1_count == self.c1_count,
            self@.interpreted_count == self.interpreted_count,
            self@.children.len() == self.children@.len(),
            forall|i: int|
                0 <= i < self.children@.len() ==> #[trigger] self@.children[i] == (ChildView {
                    id: self.children@[i].id@,
                    node: self.children@[i].frame@,
                }),
    {
    }

    /// A node without samples and without children.
    pub fn new(base_type: FrameType) -> (r: Self)
        ensures
            r@ == (NodeView { base_type, ..fresh(FrameType::Native) }),
    {
        let r = Frame {
            base_type,
            children: Vec::new(),
            total_count: 0,
            self_count: 0,
            inlined_count: 0,
            c1_count: 0,
            interpreted_count: 0,
        };
        assert(r@.children =~= Seq::empty());
        r
    }

    /// Counts `count` samples that end in this node.
    pub fn add_leaf(&mut self, count: usize)
        requires
            old(self).total_count + count <= usize::MAX,
            old(self).self_count + count <= usize::MAX,
        ensures
            final(self)@ == add_leaf(old(self)@, count as nat),
    {
        self.total_count = self.total_count + count;
        self.self_count = self.self_count + count;
        assert(self@.children =~= old(self)@.children);
    }

    /// Whether the child's identity comes before the given one.
    fn child_before(child: &Child, name: &str, category: FrameCategory) -> (r: bool)
        ensures
            r == id_lt(child.id@, FrameIdView { name: name@, category }),
    {
        str_lt(child.id.name.as_str(), name) || (str_eq(child.id.name.as_str(), name) && rank_of(
            child.id.category,
        ) < rank_of(category))
    }

    /// The place of an identity among the children, found by bisection.
    fn position(&self, name: &str, category: FrameCategory) -> (r: usize)
        requires
            ordered(self@.children),
        ensures
            r == lower_bound(self@.children, FrameIdView { name: name@, category }),
            r <= self.children.len(),
    {
        let ghost id = FrameIdView { name: name@, category };
        let ghost children = self@.children;
        let mut lo: usize = 0;
        let mut hi: usize = self.children.len();
        while lo < hi
            invariant
                lo <= hi <= self.children.len(),
                children == self@.children,
                children.len() == self.children.len(),
                id == (FrameIdView { name: name@, category }),
                ordered(children),
                forall|j: int| 0 <= j < lo ==> id_lt(#[trigger] children[j].id, id),
                forall|j: int| hi <= j < children.len() ==> !id_lt(#[trigger] children[j].id, id),
            decreases hi - lo,
        {
            let mid = lo + (hi - lo) / 2;
            assert(children[mid as int].id == self.children[mid as int].id@);
            if Self::child_before(&self.children[mid], name, category) {
                assert forall|j: int| 0 <= j < mid + 1 implies id_lt(
                    #[trigger] children[j].id,
                    id,
                ) by {
                    if j < mid {
                        lemma_id_lt_transitive(children[j].id, children[mid as int].id, id);
                    }
                }
                lo = mid + 1;
            } else {
                assert forall|j: int| mid <= j < children.len() implies !id_lt(
                    #[trigger] children[j].id,
                    id,
                ) by {
                    if j > mid && id_lt(children[j].id, id) {
                        lemma_id_lt_transitive(children[mid as int].id, children[j].id, id);
                    }
                }
                hi = mid;
            }
        }
        proof {
            lemma_lower_bound_is(children, id, lo as int);
        }
        lo
    }

    /// The type under which the node is shown.
    pub fn calculated_type(&self) -> (r: FrameType)
        ensures
            r == calculated_type_of(self@),
    {
        let total = self.total_count as u128;
        if self.inlined_count as u128 * 3 >= total {
            FrameType::Inlined
        } else if self.c1_count as u128 * 2 >= total {
            FrameType::C1Compiled
        } else if self.interpreted_count as u128 * 2 >= total {
            FrameType::Interpreted
        } else {
            self.base_type
        }
    }

    /// Counts `count` entries into this node in the given execution mode.
    fn count_entry(&mut self, frame_type: FrameType, count: usize)
        requires
            old(self).inlined_count + count <= usize::MAX,
            old(self).c1_count + count <= usize::MAX,
            old(self).interpreted_count + count <= usize::MAX,
        ensures
            final(self)@ == bump(old(self)@, frame_type, count as nat),
    {
        match frame_type {
            FrameType::Interpreted => {
                self.interpreted_count = self.interpreted_count + count;
            },
            FrameType::Inlined => {
                self.inlined_count = self.inlined_count + count;
            },
            FrameType::C1Compiled => {
                self.c1_count = self.c1_count + count;
            },
            _ => {},
        }
        assert(self@.children =~= old(self)@.children);
    }

    /// Hands out the subtree of the child at `i` after counting in it `count`
    /// entries in the given execution mode.
    fn enter(&mut self, i: usize, frame_type: FrameType, count: usize) -> (r: &mut Frame)
        requires
            i < old(self).children.len(),
            old(self).children[i as int].frame.inlined_count + count <= usize::MAX,
            old(self).children[i as int].frame.c1_count + count <= usize::MAX,
            old(self).children[i as int].frame.interpreted_count + count <= usize::MAX,
        ensures
            r@ == bump(old(self)@.children[i as int].node, frame_type, count as nat),
            final(self)@.children =~= old(self)@.children.update(
                i as int,
                ChildView { id: old(self)@.children[i as int].id, node: final(r)@ },
            ),
            final(self)@.base_type == old(self)@.base_type,
            final(self)@.total_count == old(self)@.total_count,
            final(self)@.self_count == old(self)@.self_count,
            final(self)@.inlined_count == old(self)@.inlined_count,
            final(self)@.c1_count == old(self)@.c1_count,
            final(self)@.interpreted_count == old(self)@.interpreted_count,
    {
        let child = &mut self.children[i].frame;
        child.count_entry(frame_type, count);
        child
    }

    /// Counts `count` samples that pass through this node into the child
    /// that the stack frame names, creating the child where it is missing,
    /// and hands out that child, which has yet to count them itself.
    pub fn add_child(&mut self, frame: &StackFrame, count: usize) -> (r: &mut Frame)
        requires
            ordered(old(self)@.children),
            has_room(old(self)@, count as nat),
        ensures
            r@ == bump(
                if has_child(old(self)@.children, step_of(frame@).id) {
                    old(self)@.children[lower_bound(old(self)@.children, step_of(frame@).id)].node
                } else {
                    fresh(frame@.frame_type)
                },
                frame@.frame_type,
                count as nat,
            ),
            receptive(old(self)@) ==> receptive(r@) && r@.total_count <= old(self)@.total_count,
            0 <= lower_bound(old(self)@.children, step_of(frame@).id) <= old(self)@.children.len(),
            final(self)@.children.len() == old(self)@.children.len() + if has_child(
                old(self)@.children,
                step_of(frame@).id,
            ) {
                0int
            } else {
                1int
            },
            has_child(old(self)@.children, step_of(frame@).id) <==> exists|i: int|
                0 <= i < old(self)@.children.len() && (#[trigger] old(self)@.children[i]).id
                    == step_of(frame@).id,
            final(self)@ == (NodeView {
                total_count: old(self)@.total_count + count as nat,
                children: if has_child(old(self)@.children, step_of(frame@).id) {
                    old(self)@.children.update(
                        lower_bound(old(self)@.children, step_of(frame@).id),
                        ChildView { id: step_of(frame@).id, node: final(r)@ },
                    )
                } else {
                    old(self)@.children.insert(
                        lower_bound(old(self)@.children, step_of(frame@).id),
                        ChildView { id: step_of(frame@).id, node: final(r)@ },
                    )
                },
                ..old(self)@
            }),
    {
        let frame_type = frame.frame_type();
        let (base_type, category) = category_for(frame_type);
        let name = frame.name();
        let i = self.position(name, category);
        let found = i < self.children.len() && str_eq(self.children[i].id.name.as_str(), name)
            && rank_of(self.children[i].id.category) == rank_of(category);
        let ghost before = *self;
        let ghost id = step_of(frame@).id;
        assert(found == has_child(before@.children, id));
        proof {
            lemma_has_child(before@.children, id);
        }
        self.total_count = self.total_count + count;
        if !found {
            let id = FrameId { name: String::from_str(name), category };
            self.children.insert(i, Child { id, frame: Frame::new(base_type) });
        }
        let ghost now = *self;
        proof {
            if found {
                if receptive(before@) {
                    lemma_children_total_bounds(before@.children, i as int);
                    assert(well_formed(before@.children[i as int].node));
                }
                assert(now@.children =~= before@.children);
                assert(now@.children[i as int] == before@.children[i as int]);
            } else {
                assert(now@.children =~= before@.children.insert(
                    i as int,
                    ChildView { id, node: fresh(frame@.frame_type) },
                ));
            }
            assert(now@.children[i as int].id == id);
            now.children@[i as int].frame.lemma_view();
            assert(now@.children[i as int].node == now.children@[i as int].frame@);
            assert forall|place: ChildView|
                #![trigger now@.children.update(i as int, place)]
                now@.children.update(i as int, place) == if found {
                    before@.children.update(i as int, place)
                } else {
                    before@.children.insert(i as int, place)
                } by {
                if found {
                    assert(now@.children.update(i as int, place) =~= before@.children.update(
                        i as int,
                        place,
                    ));
                } else {
                    assert(now@.children.update(i as int, place) =~= before@.children.insert(
                        i as int,
                        place,
                    ));
                }
            }
        }
        self.enter(i, frame_type, count)
    }
}

impl Default for Frame {
    fn default() -> (r: Self)
        ensures
            r@ == (NodeView { base_type: FrameType::Unknown, ..fresh(FrameType::Native) }),
    {
        Frame::new(FrameType::Unknown)
    }
}

/// Counts `count` samples along the first `n` frames of a stack trace,
/// taken from the outermost of them inwards, starting at `frame`.
fn add_along(frame: &mut Frame, trace: &StackTrace, n: usize, count: usize)
    requires
        n <= trace.frames.len(),
        receptive(old(frame)@),
        old(frame).total_count + count <= usize::MAX,
    ensures
        final(frame)@ == add_steps(old(frame)@, steps_of(trace@.take(n as int)), count as nat),
    decreases n,
{
    let ghost steps = steps_of(trace@.take(n as int));
    proof {
        lemma_room(frame@, count as nat);
        frame.lemma_view();
    }
    if n == 0 {
        frame.add_leaf(count);
    } else {
        proof {
            assert(steps[0] == step_of(trace.frames@[n - 1]@));
            assert(steps.skip(1) =~= steps_of(trace@.take(n - 1)));
        }
        let child = frame.add_child(&trace.frames[n - 1], count);
        add_along(child, trace, n - 1, count);
    }
}

/// A flame graph: the call tree of the samples added to it, and the length
/// of the longest stack trace among them.
#[derive(Debug)]
pub struct FlameGraph {
    pub depth: usize,
    pub root: Frame,
}

impl View for FlameGraph {
    type V = FlameGraphView;

    open spec fn view(&self) -> FlameGraphView {
        FlameGraphView { depth: self.depth as nat, root: self.root@ }
    }
}

impl FlameGraph {
    /// A graph without samples.
    pub fn new() -> (r: Self)
        ensures
            r@ == empty_graph(),
            r@.valid(),
    {
        assert(children_total(empty_root().children) == 0);
        Self { depth: 0, root: Frame::new(FrameType::Native) }
    }

    /// Adds `count` samples that share one stack trace.
    pub fn add_sample(&mut self, stack_trace: &StackTrace, count: usize)
        requires
            receptive(old(self)@.root),
            old(self)@.root.total_count + count <= usize::MAX,
        ensures
            final(self)@ == with_sample(old(self)@, stack_trace@, count as nat),
            final(self)@.root.total_count == old(self)@.root.total_count + count,
            receptive(final(self)@.root),
            well_formed(old(self)@.root) ==> well_formed(final(self)@.root),
            old(self)@.valid() ==> final(self)@.valid(),
    {
        proof {
            if self@.valid() {
                crate::flame_graph::model::lemma_with_sample_valid(
                    self@,
                    stack_trace@,
                    count as nat,
                );
            }
        }
        proof {
            crate::flame_graph::model::lemma_add_steps(
                self@.root,
                steps_of(stack_trace@),
                count as nat,
            );
        }
        assert(stack_trace@.take(stack_trace.frames.len() as int) =~= stack_trace@);
        add_along(&mut self.root, stack_trace, stack_trace.frames.len(), count);
        if stack_trace.frames.len() > self.depth {
            self.depth = stack_trace.frames.len();
        }
    }
}

impl Default for FlameGraph {
    fn default() -> (r: Self)
        ensures
            r@ == empty_graph(),
    {
        Self::new()
    }
}

/// The keys of the visible samples of a profile, thread by thread in the
/// order of the threads.
pub open spec fn sample_keys(profile: &Profile) -> Seq<(usize, i64, i64)> {
    visible_sample_keys(
        thread_views(profile.threads@),
        profile.per_thread_samples@,
        profile.filtered_stack_trace_keys@,
    )
}

/// The samples of the flame graph of a profile: the stack traces of its
/// visible samples, each once with the number of its samples, in the
/// order in which the profile first holds them.
pub open spec fn flame_samples(profile: &Profile) -> Seq<Weighted> {
    weighted(first_seen(sample_keys(profile)), sample_keys(profile), profile.stack_trace_pool@)
}

/// Counts the visible samples of a profile by the key of their stack
/// trace. Returns the keys in the order of their first sample, and the
/// number of samples of each.
fn count_visible(profile: &Profile) -> (r: (Vec<(usize, i64, i64)>, FxHashMap<(usize, i64, i64), usize>))
    requires
        profile.wf(),
    ensures
        r.0@ == first_seen(sample_keys(profile)),
        forall|k: (usize, i64, i64)| r.1@.contains_key(k) <==> sample_keys(profile).contains(k),
        forall|k: (usize, i64, i64)| #[trigger]
            r.1@.contains_key(k) ==> r.1@[k] == count_in(sample_keys(profile), k),
        sample_keys(profile).len() <= usize::MAX,
{
    let ghost views = thread_views(profile.threads@);
    let ghost samples = profile.per_thread_samples@;
    let ghost visible = profile.filtered_stack_trace_keys@;
    let mut order: Vec<(usize, i64, i64)> = Vec::new();
    let mut counts: FxHashMap<(usize, i64, i64), usize> = map_new();
    let ghost mut done: Seq<(usize, i64, i64)> = Seq::empty();
    let mut i: usize = 0;
    while i < profile.threads.len()
        invariant
            i <= profile.threads.len(),
            profile.wf(),
            views == thread_views(profile.threads@),
            samples == profile.per_thread_samples@,
            visible == profile.filtered_stack_trace_keys@,
            done == visible_sample_keys(views.take(i as int), samples, visible),
            order@ == first_seen(done),
            forall|k: (usize, i64, i64)| counts@.contains_key(k) <==> done.contains(k),
            forall|k: (usize, i64, i64)| #[trigger]
                counts@.contains_key(k) ==> counts@[k] == count_in(done, k),
        decreases profile.threads.len() - i,
    {
        let id = profile.threads[i].os_thread_id;
        let ghost base = done;
        proof {
            assert(views.take(i + 1).drop_last() =~= views.take(i as int));
            assert(views.take(i + 1).last().os_thread_id == id);
            lemma_visible_sample_keys_len(views.take(i as int), samples, visible);
            lemma_total_of_prefix(views, samples, i + 1);
        }
        match map_get(&profile.per_thread_samples, id) {
            Some(timeline) => {
                let mut j: usize = 0;
                while j < timeline.len()
                    invariant
                        j <= timeline.len(),
                        visible == profile.filtered_stack_trace_keys@,
                        base.len() + timeline@.len() <= usize::MAX,
                        done == base + timeline_keys(timeline@.take(j as int), visible),
                        order@ == first_seen(done),
                        forall|k: (usize, i64, i64)| counts@.contains_key(k) <==> done.contains(k),
                        forall|k: (usize, i64, i64)| #[trigger]
                            counts@.contains_key(k) ==> counts@[k] == count_in(done, k),
                    decreases timeline.len() - j,
                {
                    let sample = &timeline[j];
                    proof {
                        lemma_timeline_keys_step(timeline@, visible, j as int);
                        lemma_timeline_keys_len(timeline@.take(j as int), visible);
                    }
                    if profile.is_valid_sample(sample) {
                        let key = sample.stack_trace_key.to_parts();
                        let ghost before = done;
                        proof {
                            lemma_count_in_bounds(before, key);
                            done = before.push(key);
                            assert(done.drop_last() =~= before);
                            assert(done =~= base + timeline_keys(
                                timeline@.take(j + 1),
                                visible,
                            ));
                        }
                        let known = match map_get(&counts, key) {
                            Some(count) => Some(*count),
                            None => None,
                        };
                        match known {
                            Some(count) => {
                                map_insert(&mut counts, key, count + 1);
                            },
                            None => {
                                order.push(key);
                                map_insert(&mut counts, key, 1);
                            },
                        }
                        proof {
                            assert forall|k: (usize, i64, i64)|
                                counts@.contains_key(k) <==> done.contains(k) by {
                                if before.contains(k) {
                                    let x = choose|x: int| 0 <= x < before.len() && before[x] == k;
                                    assert(done[x] == k);
                                }
                                if k == key {
                                    assert(done[before.len() as int] == k);
                                }
                                if done.contains(k) && k != key {
                                    let x = choose|x: int| 0 <= x < done.len() && done[x] == k;
                                    assert(before[x] == k);
                                }
                            }
                        }
                    }
                    j = j + 1;
                }
                assert(timeline@.take(timeline@.len() as int) =~= timeline@);
            },
            None => {
                assert(done =~= done + Seq::<(usize, i64, i64)>::empty());
            },
        }
        i = i + 1;
    }
    proof {
        assert(views.take(profile.threads.len() as int) =~= views);
        lemma_visible_sample_keys_len(views, samples, visible);
    }
    (order, counts)
}

impl FlameGraph {
    /// The flame graph of the visible samples of a profile.
    pub fn from_execution_sample(profile: &Profile) -> (r: Self)
        requires
            profile.wf(),
        ensures
            r@ == graph_of(flame_samples(profile)),
            r@.valid(),
    {
        let (order, counts) = count_visible(profile);
        let ghost all = sample_keys(profile);
        let ghost samples = flame_samples(profile);
        let mut flame = Self::new();
        proof {
            lemma_weight_is_length(all, profile.stack_trace_pool@);
            crate::flame_graph::aggregate::lemma_first_seen(all);
        }
        let mut i: usize = 0;
        while i < order.len()
            invariant
                i <= order.len(),
                profile.wf(),
                all == sample_keys(profile),
                samples == flame_samples(profile),
                order@ == first_seen(all),
                samples.len() == order.len(),
                total_weight(samples) <= usize::MAX,
                forall|k: (usize, i64, i64)| counts@.contains_key(k) <==> all.contains(k),
                forall|k: (usize, i64, i64)| #[trigger]
                    counts@.contains_key(k) ==> counts@[k] == count_in(all, k),
                forall|k: (usize, i64, i64)| first_seen(all).contains(k) <==> all.contains(k),
                flame@ == graph_of(samples.take(i as int)),
            decreases order.len() - i,
        {
            let key = order[i];
            proof {
                assert(first_seen(all).contains(key)) by {
                    assert(first_seen(all)[i as int] == key);
                }
                assert(samples.take(i + 1).drop_last() =~= samples.take(i as int));
                assert(samples.take(i + 1).last() == samples[i as int]);
                lemma_conservation(samples.take(i as int));
                lemma_conservation(samples.take(i + 1));
                lemma_weight_of_prefix(samples, i + 1);
                lemma_key_in_pool(profile, key);
            }
            let count = match map_get(&counts, key) {
                Some(count) => *count,
                None => 0,
            };
            assert(all.contains(key));
            assert(counts@.contains_key(key));
            assert(samples[i as int].count == count_in(all, key));
            assert(count == samples[i as int].count);
            match map_get(&profile.stack_trace_pool, key) {
                Some(trace) => {
                    assert(trace@ == samples[i as int].frames);
                    flame.add_sample(trace, count);
                },
                None => {},
            }
            assert(graph_of(samples.take(i + 1)) == with_sample(
                graph_of(samples.take(i as int)),
                samples[i as int].frames,
                samples[i as int].count,
            ));
            i = i + 1;
        }
        proof {
            assert(samples.take(order.len() as int) =~= samples);
            lemma_graph_of_valid(samples);
        }
        flame
    }
}

/// The pool of a well-formed profile holds the stack trace of every
/// visible sample.
pub proof fn lemma_key_in_pool(profile: &Profile, key: (usize, i64, i64))
    requires
        profile.wf(),
        sample_keys(profile).contains(key),
    ensures
        profile.stack_trace_pool@.contains_key(key),
{
    crate::flame_graph::aggregate::lemma_visible_keys_are_visible(
        thread_views(profile.threads@),
        profile.per_thread_samples@,
        profile.filtered_stack_trace_keys@,
        key,
    );
}

} // verus!
