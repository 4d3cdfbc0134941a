//! The flame graph as a mathematical tree, and what adding a sample does
//! to it.

use crate::profile::{FrameType, StackFrameView};
use crate::text::text_lt;
use vstd::prelude::*;

verus! {

/// The kind of code that a frame runs.
#[derive(Copy, Clone, Debug, PartialEq, Eq, Structural, Hash, PartialOrd, Ord)]
pub enum FrameCategory {
    Native,
    Java,
    Kernel,
}

impl FrameCategory {
    /// The place of the category in the order of categories.
    pub open spec fn rank(self) -> int {
        match self {
            FrameCategory::Native => 0,
            FrameCategory::Java => 1,
            FrameCategory::Kernel => 2,
        }
    }
}

/// The identity of a child as plain values.
pub struct FrameIdView {
    pub name: Seq<char>,
    pub category: FrameCategory,
}

/// The order of children: by name, then by category.
pub open spec fn id_lt(a: FrameIdView, b: FrameIdView) -> bool {
    text_lt(a.name, b.name) || (a.name == b.name && a.category.rank() < b.category.rank())
}

/// The category of the code of a frame of the given type.
pub open spec fn category_of(t: FrameType) -> FrameCategory {
    match t {
        FrameType::Interpreted
        | FrameType::JitCompiled
        | FrameType::Inlined
        | FrameType::C1Compiled => FrameCategory::Java,
        FrameType::Kernel => FrameCategory::Kernel,
        _ => FrameCategory::Native,
    }
}

/// The type that a node shows when no execution mode dominates it, as set
/// by the first frame that creates the node.
pub open spec fn base_type_of(t: FrameType) -> FrameType {
    match t {
        FrameType::Interpreted
        | FrameType::JitCompiled
        | FrameType::Inlined
        | FrameType::C1Compiled => FrameType::JitCompiled,
        FrameType::Cpp => FrameType::Cpp,
        FrameType::Kernel => FrameType::Kernel,
        _ => FrameType::Native,
    }
}

/// A node of the tree as plain values.
#[verifier::ext_equal]
pub struct NodeView {
    pub base_type: FrameType,
    pub children: Seq<ChildView>,
    pub total_count: nat,
    pub self_count: nat,
    pub inlined_count: nat,
    pub c1_count: nat,
    pub interpreted_count: nat,
}

/// A child of a node: its identity and its subtree.
#[verifier::ext_equal]
pub struct ChildView {
    pub id: FrameIdView,
    pub node: NodeView,
}

/// One step down the tree: the child to enter, the execution mode in
/// which the sample ran it, and the frame type from which the child takes
/// its base type where the step creates it.
pub struct Step {
    pub id: FrameIdView,
    pub frame_type: FrameType,
    pub created_as: FrameType,
}

/// The step that a stack frame stands for.
pub open spec fn step_of(f: StackFrameView) -> Step {
    Step {
        id: FrameIdView { name: f.name, category: category_of(f.frame_type) },
        frame_type: f.frame_type,
        created_as: f.frame_type,
    }
}

/// The steps of a stack trace from the outermost frame to the innermost;
/// the trace itself is stored innermost first.
pub open spec fn steps_of(frames: Seq<StackFrameView>) -> Seq<Step> {
    Seq::new(frames.len(), |i: int| step_of(frames[frames.len() - 1 - i]))
}

/// The node that a step creates where its child does not exist yet.
pub open spec fn fresh(t: FrameType) -> NodeView {
    NodeView {
        base_type: base_type_of(t),
        children: Seq::empty(),
        total_count: 0,
        self_count: 0,
        inlined_count: 0,
        c1_count: 0,
        interpreted_count: 0,
    }
}

/// The root of a graph without samples.
pub open spec fn empty_root() -> NodeView {
    fresh(FrameType::Native)
}

/// A node after `count` samples entered it in the given execution mode.
pub open spec fn bump(n: NodeView, t: FrameType, count: nat) -> NodeView {
    match t {
        FrameType::Interpreted => NodeView { interpreted_count: n.interpreted_count + count, ..n },
        FrameType::Inlined => NodeView { inlined_count: n.inlined_count + count, ..n },
        FrameType::C1Compiled => NodeView { c1_count: n.c1_count + count, ..n },
        _ => n,
    }
}

/// The number of leading children that come before `id`: where the
/// children are in order, the place of `id` among them.
pub open spec fn lower_bound(children: Seq<ChildView>, id: FrameIdView) -> int
    decreases children.len(),
{
    if children.len() > 0 && id_lt(children[0].id, id) {
        1 + lower_bound(children.skip(1), id)
    } else {
        0
    }
}

/// Whether the children hold a child with the given identity at its place.
pub open spec fn has_child(children: Seq<ChildView>, id: FrameIdView) -> bool {
    let i = lower_bound(children, id);
    i < children.len() && children[i].id == id
}

/// A node after `count` samples ended in it.
pub open spec fn add_leaf(n: NodeView, count: nat) -> NodeView {
    NodeView { total_count: n.total_count + count, self_count: n.self_count + count, ..n }
}

/// A node after `count` samples passed through it along the given steps,
/// outermost first, and ended where the steps end.
pub open spec fn add_steps(n: NodeView, steps: Seq<Step>, count: nat) -> NodeView
    decreases steps.len(),
{
    if steps.len() == 0 {
        add_leaf(n, count)
    } else {
        let s = steps[0];
        let i = lower_bound(n.children, s.id);
        let entered = if has_child(n.children, s.id) {
            n.children[i].node
        } else {
            fresh(s.created_as)
        };
        let child = ChildView {
            id: s.id,
            node: add_steps(bump(entered, s.frame_type, count), steps.skip(1), count),
        };
        let children = if has_child(n.children, s.id) {
            n.children.update(i, child)
        } else {
            n.children.insert(i, child)
        };
        NodeView { total_count: n.total_count + count, children, ..n }
    }
}

/// Whether the children stand in strictly ascending order of identity.
pub open spec fn ordered(children: Seq<ChildView>) -> bool {
    forall|i: int, j: int| 0 <= i < j < children.len() ==> id_lt(#[trigger] children[i].id, #[trigger] children[j].id)
}

/// The sum of the total counts of the children.
pub open spec fn children_total(children: Seq<ChildView>) -> nat
    decreases children.len(),
{
    if children.len() == 0 {
        0
    } else {
        children_total(children.drop_last()) + children.last().node.total_count
    }
}

/// Whether a node can take a further sample: its children stand in order,
/// every sample that reached it ended there or went on into one child,
/// and each child is well formed.
pub open spec fn receptive(n: NodeView) -> bool
    decreases n, 0nat,
{
    &&& ordered(n.children)
    &&& n.total_count == n.self_count + children_total(n.children)
    &&& forall|i: int| 0 <= i < n.children.len() ==> well_formed(#[trigger] n.children[i].node)
}

/// The invariant of a tree between samples: the node can take a sample,
/// and it counts no more entries by execution mode than samples.
pub open spec fn well_formed(n: NodeView) -> bool
    decreases n, 1nat,
{
    &&& receptive(n)
    &&& n.inlined_count + n.c1_count + n.interpreted_count <= n.total_count
}

/// The order of strings has no string before itself.
pub proof fn lemma_text_lt_irreflexive(a: Seq<char>)
    ensures
        !text_lt(a, a),
    decreases a.len(),
{
    if a.len() > 0 {
        lemma_text_lt_irreflexive(a.skip(1));
    }
}

/// The order of strings is transitive.
pub proof fn lemma_text_lt_transitive(a: Seq<char>, b: Seq<char>, c: Seq<char>)
    requires
        text_lt(a, b),
        text_lt(b, c),
    ensures
        text_lt(a, c),
    decreases a.len(),
{
    if a.len() > 0 && a[0] == b[0] && b[0] == c[0] {
        lemma_text_lt_transitive(a.skip(1), b.skip(1), c.skip(1));
    }
}

/// Of two different strings one comes before the other.
pub proof fn lemma_text_lt_total(a: Seq<char>, b: Seq<char>)
    requires
        a != b,
    ensures
        text_lt(a, b) || text_lt(b, a),
    decreases a.len(),
{
    if a.len() > 0 && b.len() > 0 && a[0] == b[0] {
        if a.skip(1) == b.skip(1) {
            assert(a =~= seq![a[0]] + a.skip(1));
            assert(b =~= seq![b[0]] + b.skip(1));
        }
        lemma_text_lt_total(a.skip(1), b.skip(1));
    } else if a.len() == 0 && b.len() == 0 {
        assert(a =~= b);
    } else if a.len() > 0 && b.len() > 0 {
        vstd::utf8::char_u32_cast(a[0], a[0] as u32);
        vstd::utf8::char_u32_cast(b[0], b[0] as u32);
        assert(a[0] as u32 != b[0] as u32);
    }
}

/// The order of identities has no identity before itself.
pub proof fn lemma_id_lt_irreflexive(a: FrameIdView)
    ensures
        !id_lt(a, a),
{
    lemma_text_lt_irreflexive(a.name);
}

/// The order of identities is transitive.
pub proof fn lemma_id_lt_transitive(a: FrameIdView, b: FrameIdView, c: FrameIdView)
    requires
        id_lt(a, b),
        id_lt(b, c),
    ensures
        id_lt(a, c),
{
    if text_lt(a.name, b.name) && text_lt(b.name, c.name) {
        lemma_text_lt_transitive(a.name, b.name, c.name);
    }
}

/// Of two different identities one comes before the other.
pub proof fn lemma_id_lt_total(a: FrameIdView, b: FrameIdView)
    requires
        a != b,
    ensures
        id_lt(a, b) || id_lt(b, a),
{
    if a.name != b.name {
        lemma_text_lt_total(a.name, b.name);
    }
}

/// The place that `lower_bound` gives is the one index before which every
/// child comes before `id` and at which none does.
pub proof fn lemma_lower_bound_is(children: Seq<ChildView>, id: FrameIdView, i: int)
    requires
        0 <= i <= children.len(),
        forall|j: int| 0 <= j < i ==> id_lt(#[trigger] children[j].id, id),
        i < children.len() ==> !id_lt(children[i].id, id),
    ensures
        lower_bound(children, id) == i,
    decreases children.len(),
{
    if i > 0 {
        assert(id_lt(children[0].id, id));
        let rest = children.skip(1);
        assert forall|j: int| 0 <= j < i - 1 implies id_lt(#[trigger] rest[j].id, id) by {
            assert(rest[j] == children[j + 1]);
        }
        lemma_lower_bound_is(rest, id, i - 1);
    }
}

/// What `lower_bound` gives is such a place.
pub proof fn lemma_lower_bound(children: Seq<ChildView>, id: FrameIdView)
    ensures
        0 <= lower_bound(children, id) <= children.len(),
        forall|j: int| 0 <= j < lower_bound(children, id) ==> id_lt(#[trigger] children[j].id, id),
        lower_bound(children, id) < children.len() ==> !id_lt(
            children[lower_bound(children, id)].id,
            id,
        ),
    decreases children.len(),
{
    if children.len() > 0 && id_lt(children[0].id, id) {
        let rest = children.skip(1);
        lemma_lower_bound(rest, id);
        let i = lower_bound(children, id);
        assert forall|j: int| 0 <= j < i implies id_lt(#[trigger] children[j].id, id) by {
            if j > 0 {
                assert(rest[j - 1] == children[j]);
            }
        }
        if i < children.len() {
            assert(rest[i - 1] == children[i]);
        }
    }
}

/// The children's total counts add up to at least the count of each child.
pub proof fn lemma_children_total_bounds(children: Seq<ChildView>, i: int)
    requires
        0 <= i < children.len(),
    ensures
        children[i].node.total_count <= children_total(children),
    decreases children.len(),
{
    if i < children.len() - 1 {
        lemma_children_total_bounds(children.drop_last(), i);
    }
}

/// Replacing a child changes the children's total by the change of that
/// child's count.
pub proof fn lemma_children_total_update(children: Seq<ChildView>, i: int, c: ChildView)
    requires
        0 <= i < children.len(),
    ensures
        children_total(children.update(i, c)) + children[i].node.total_count == children_total(
            children,
        ) + c.node.total_count,
    decreases children.len(),
{
    let updated = children.update(i, c);
    if i < children.len() - 1 {
        assert(updated.drop_last() =~= children.drop_last().update(i, c));
        lemma_children_total_update(children.drop_last(), i, c);
    } else {
        assert(updated.drop_last() =~= children.drop_last());
    }
}

/// A new child adds its count to the children's total.
pub proof fn lemma_children_total_insert(children: Seq<ChildView>, i: int, c: ChildView)
    requires
        0 <= i <= children.len(),
    ensures
        children_total(children.insert(i, c)) == children_total(children) + c.node.total_count,
    decreases children.len(),
{
    let inserted = children.insert(i, c);
    if i < children.len() {
        assert(inserted.drop_last() =~= children.drop_last().insert(i, c));
        assert(inserted.last() == children.last());
        lemma_children_total_insert(children.drop_last(), i, c);
    } else {
        assert(inserted.drop_last() =~= children);
    }
}

/// A new child at the place that `lower_bound` gives keeps the children
/// in order.
pub proof fn lemma_insert_keeps_order(children: Seq<ChildView>, c: ChildView)
    requires
        ordered(children),
        !has_child(children, c.id),
    ensures
        ordered(children.insert(lower_bound(children, c.id), c)),
{
    let i = lower_bound(children, c.id);
    lemma_lower_bound(children, c.id);
    let inserted = children.insert(i, c);
    assert forall|j: int, k: int| 0 <= j < k < inserted.len() implies id_lt(
        #[trigger] inserted[j].id,
        #[trigger] inserted[k].id,
    ) by {
        if k == i {
            assert(inserted[j] == children[j]);
        } else if j == i {
            assert(inserted[k] == children[k - 1]);
            lemma_id_lt_total(c.id, children[i].id);
            if k - 1 > i {
                lemma_id_lt_transitive(c.id, children[i].id, children[k - 1].id);
            }
        } else {
            let j0 = if j < i {
                j
            } else {
                j - 1
            };
            let k0 = if k < i {
                k
            } else {
                k - 1
            };
            assert(inserted[j] == children[j0]);
            assert(inserted[k] == children[k0]);
        }
    }
}

/// What adding samples along a path does to the node at which the path
/// starts: the node stays able to take samples, counts them once, and
/// keeps its type and its counts by execution mode.
pub proof fn lemma_add_steps(n: NodeView, steps: Seq<Step>, count: nat)
    requires
        receptive(n),
    ensures
        receptive(add_steps(n, steps, count)),
        add_steps(n, steps, count).total_count == n.total_count + count,
        add_steps(n, steps, count).self_count == n.self_count + if steps.len() == 0 {
            count
        } else {
            0
        },
        add_steps(n, steps, count).base_type == n.base_type,
        add_steps(n, steps, count).inlined_count == n.inlined_count,
        add_steps(n, steps, count).c1_count == n.c1_count,
        add_steps(n, steps, count).interpreted_count == n.interpreted_count,
    decreases steps.len(),
{
    if steps.len() > 0 {
        let s = steps[0];
        let i = lower_bound(n.children, s.id);
        lemma_lower_bound(n.children, s.id);
        let found = has_child(n.children, s.id);
        let entered = if found {
            n.children[i].node
        } else {
            fresh(s.created_as)
        };
        if found {
            assert(well_formed(n.children[i].node));
        } else {
            assert(children_total(entered.children) == 0);
        }
        let b = bump(entered, s.frame_type, count);
        lemma_add_steps(b, steps.skip(1), count);
        let child = ChildView { id: s.id, node: add_steps(b, steps.skip(1), count) };
        assert(well_formed(child.node));
        let r = add_steps(n, steps, count);
        if found {
            lemma_children_total_update(n.children, i, child);
            assert(r.children == n.children.update(i, child));
            assert forall|j: int| 0 <= j < r.children.len() implies well_formed(
                #[trigger] r.children[j].node,
            ) by {
                if j != i {
                    assert(well_formed(n.children[j].node));
                }
            }
            assert(ordered(r.children)) by {
                assert forall|j: int, k: int| 0 <= j < k < r.children.len() implies id_lt(
                    #[trigger] r.children[j].id,
                    #[trigger] r.children[k].id,
                ) by {
                    assert(r.children[j].id == n.children[j].id);
                    assert(r.children[k].id == n.children[k].id);
                }
            }
        } else {
            lemma_children_total_insert(n.children, i, child);
            lemma_insert_keeps_order(n.children, child);
            assert(r.children == n.children.insert(i, child));
            assert forall|j: int| 0 <= j < r.children.len() implies well_formed(
                #[trigger] r.children[j].node,
            ) by {
                if j < i {
                    assert(well_formed(n.children[j].node));
                } else if j > i {
                    assert(r.children[j] == n.children[j - 1]);
                    assert(well_formed(n.children[j - 1].node));
                }
            }
        }
    }
}

/// The type under which a node is shown: `Inlined` where at least a
/// third of its samples entered it inlined, else `C1Compiled` where at
/// least half entered it compiled by C1, else `Interpreted` where at
/// least half entered it interpreted, else the type it was created with.
pub open spec fn calculated_type_of(n: NodeView) -> FrameType {
    if n.inlined_count * 3 >= n.total_count {
        FrameType::Inlined
    } else if n.c1_count * 2 >= n.total_count {
        FrameType::C1Compiled
    } else if n.interpreted_count * 2 >= n.total_count {
        FrameType::Interpreted
    } else {
        n.base_type
    }
}

/// A flame graph as plain values.
pub struct FlameGraphView {
    pub depth: nat,
    pub root: NodeView,
}

/// Samples that share one stack trace.
pub struct Weighted {
    /// The frames of the stack trace, innermost first.
    pub frames: Seq<StackFrameView>,
    /// How many samples have this stack trace.
    pub count: nat,
}

/// The graph without samples.
pub open spec fn empty_graph() -> FlameGraphView {
    FlameGraphView { depth: 0, root: empty_root() }
}

/// A graph after `count` samples with the given stack trace, innermost
/// frame first, were added to it.
pub open spec fn with_sample(g: FlameGraphView, frames: Seq<StackFrameView>, count: nat) -> FlameGraphView {
    FlameGraphView {
        depth: if frames.len() > g.depth {
            frames.len()
        } else {
            g.depth
        },
        root: add_steps(g.root, steps_of(frames), count),
    }
}

/// The graph of a sequence of weighted stack traces, added one after
/// the other to the empty graph.
pub open spec fn graph_of(samples: Seq<Weighted>) -> FlameGraphView
    decreases samples.len(),
{
    if samples.len() == 0 {
        empty_graph()
    } else {
        with_sample(graph_of(samples.drop_last()), samples.last().frames, samples.last().count)
    }
}

/// The number of samples in a sequence of weighted stack traces.
pub open spec fn total_weight(samples: Seq<Weighted>) -> nat
    decreases samples.len(),
{
    if samples.len() == 0 {
        0
    } else {
        total_weight(samples.drop_last()) + samples.last().count
    }
}

/// The length of the longest stack trace of a sequence, 0 for none.
pub open spec fn max_depth(samples: Seq<Weighted>) -> nat
    decreases samples.len(),
{
    if samples.len() == 0 {
        0
    } else if samples.last().frames.len() > max_depth(samples.drop_last()) {
        samples.last().frames.len()
    } else {
        max_depth(samples.drop_last())
    }
}

/// Adding samples to a well-formed graph leaves it well formed and raises
/// the root's count by their number.
pub proof fn lemma_with_sample(g: FlameGraphView, frames: Seq<StackFrameView>, count: nat)
    requires
        well_formed(g.root),
    ensures
        well_formed(with_sample(g, frames, count).root),
        with_sample(g, frames, count).root.total_count == g.root.total_count + count,
{
    lemma_add_steps(g.root, steps_of(frames), count);
}

/// Conservation of samples: in the graph of any sequence of weighted stack
/// traces the root counts every sample once, and every node counts
/// exactly the samples that end in it and those that its children count.
/// The depth of the graph is the length of the longest stack trace.
pub proof fn lemma_conservation(samples: Seq<Weighted>)
    ensures
        well_formed(graph_of(samples).root),
        graph_of(samples).root.total_count == total_weight(samples),
        graph_of(samples).depth == max_depth(samples),
    decreases samples.len(),
{
    if samples.len() > 0 {
        lemma_conservation(samples.drop_last());
        lemma_with_sample(graph_of(samples.drop_last()), samples.last().frames, samples.last().count);
    } else {
        assert(children_total(empty_root().children) == 0);
    }
}

/// In a well-formed tree every node counts the samples that end in it and
/// those of its children, and so does every node below it.
pub proof fn lemma_well_formed_child(n: NodeView, i: int)
    requires
        well_formed(n),
        0 <= i < n.children.len(),
    ensures
        n.total_count == n.self_count + children_total(n.children),
        well_formed(n.children[i].node),
        n.children[i].node.total_count <= n.total_count,
{
    lemma_children_total_bounds(n.children, i);
}

/// Whether no path from the node down has more than `depth` steps.
pub open spec fn fits(n: NodeView, depth: nat) -> bool
    decreases n,
{
    forall|i: int|
        0 <= i < n.children.len() ==> depth > 0 && fits(
            (#[trigger] n.children[i]).node,
            (depth - 1) as nat,
        )
}

/// A tree that fits a depth fits every greater depth.
pub proof fn lemma_fits_monotone(n: NodeView, depth: nat, more: nat)
    requires
        fits(n, depth),
        depth <= more,
    ensures
        fits(n, more),
    decreases n,
{
    assert forall|i: int| 0 <= i < n.children.len() implies more > 0 && fits(
        (#[trigger] n.children[i]).node,
        (more - 1) as nat,
    ) by {
        lemma_fits_monotone(n.children[i].node, (depth - 1) as nat, (more - 1) as nat);
    }
}

/// The larger of two numbers.
pub open spec fn larger(a: nat, b: nat) -> nat {
    if a > b {
        a
    } else {
        b
    }
}

/// Adding samples along a path makes a tree no deeper than the path is
/// long.
pub proof fn lemma_add_steps_fits(n: NodeView, steps: Seq<Step>, count: nat, depth: nat)
    requires
        fits(n, depth),
    ensures
        fits(add_steps(n, steps, count), larger(depth, steps.len())),
    decreases steps.len(),
{
    let more = larger(depth, steps.len());
    let r = add_steps(n, steps, count);
    if steps.len() == 0 {
        assert(r.children == n.children);
    } else {
        let s = steps[0];
        let i = lower_bound(n.children, s.id);
        lemma_lower_bound(n.children, s.id);
        let found = has_child(n.children, s.id);
        let entered = if found {
            n.children[i].node
        } else {
            fresh(s.created_as)
        };
        let below: nat = if found {
            (depth - 1) as nat
        } else {
            0
        };
        if found {
            assert(fits(n.children[i].node, below));
        }
        let b = bump(entered, s.frame_type, count);
        assert(b.children == entered.children);
        assert(fits(b, below));
        lemma_add_steps_fits(b, steps.skip(1), count, below);
        let child = ChildView { id: s.id, node: add_steps(b, steps.skip(1), count) };
        lemma_fits_monotone(child.node, larger(below, steps.skip(1).len()), (more - 1) as nat);
        assert forall|j: int| 0 <= j < r.children.len() implies more > 0 && fits(
            (#[trigger] r.children[j]).node,
            (more - 1) as nat,
        ) by {
            if j != i {
                let j0 = if found || j < i {
                    j
                } else {
                    j - 1
                };
                assert(r.children[j] == n.children[j0]);
                assert(fits(n.children[j0].node, (depth - 1) as nat));
                lemma_fits_monotone(n.children[j0].node, (depth - 1) as nat, (more - 1) as nat);
            }
        }
    }
}

impl FlameGraphView {
    /// The invariant of a graph: its tree is well formed and no deeper
    /// than the graph says.
    pub open spec fn valid(self) -> bool {
        well_formed(self.root) && fits(self.root, self.depth)
    }
}

/// Adding samples to a valid graph leaves it valid.
pub proof fn lemma_with_sample_valid(g: FlameGraphView, frames: Seq<StackFrameView>, count: nat)
    requires
        g.valid(),
    ensures
        with_sample(g, frames, count).valid(),
{
    lemma_with_sample(g, frames, count);
    lemma_add_steps_fits(g.root, steps_of(frames), count, g.depth);
}

/// The graph of any sequence of weighted stack traces is valid.
pub proof fn lemma_graph_of_valid(samples: Seq<Weighted>)
    ensures
        graph_of(samples).valid(),
    decreases samples.len(),
{
    if samples.len() > 0 {
        lemma_graph_of_valid(samples.drop_last());
        lemma_with_sample_valid(
            graph_of(samples.drop_last()),
            samples.last().frames,
            samples.last().count,
        );
    } else {
        assert(children_total(empty_root().children) == 0);
    }
}

/// The children's total is the first child's count and the total of the
/// others.
pub proof fn lemma_children_total_first(children: Seq<ChildView>)
    requires
        children.len() > 0,
    ensures
        children_total(children) == children[0].node.total_count + children_total(
            children.skip(1),
        ),
    decreases children.len(),
{
    if children.len() > 1 {
        lemma_children_total_first(children.drop_last());
        assert(children.drop_last().skip(1) =~= children.skip(1).drop_last());
        assert(children.skip(1).last() == children.last());
    } else {
        assert(children_total(children.drop_last()) == 0);
        assert(children_total(children.skip(1)) == 0);
    }
}

/// Whether the counts of a node and the counts by execution mode of its
/// children leave room for `count` more samples.
pub open spec fn has_room(n: NodeView, count: nat) -> bool {
    &&& n.total_count + count <= usize::MAX
    &&& forall|i: int|
        0 <= i < n.children.len() ==> {
            &&& (#[trigger] n.children[i]).node.inlined_count + count <= usize::MAX
            &&& n.children[i].node.c1_count + count <= usize::MAX
            &&& n.children[i].node.interpreted_count + count <= usize::MAX
        }
}

/// A node that can take a sample has room for as many samples as its own
/// count leaves room for.
pub proof fn lemma_room(n: NodeView, count: nat)
    requires
        receptive(n),
        n.total_count + count <= usize::MAX,
    ensures
        has_room(n, count),
        n.self_count + count <= usize::MAX,
{
    assert forall|i: int| 0 <= i < n.children.len() implies {
        &&& (#[trigger] n.children[i]).node.inlined_count + count <= usize::MAX
        &&& n.children[i].node.c1_count + count <= usize::MAX
        &&& n.children[i].node.interpreted_count + count <= usize::MAX
    } by {
        lemma_children_total_bounds(n.children, i);
        assert(well_formed(n.children[i].node));
    }
}

/// Among children in order, a child of an identity is found at its place
/// exactly when there is a child of that identity.
pub proof fn lemma_has_child(children: Seq<ChildView>, id: FrameIdView)
    requires
        ordered(children),
    ensures
        has_child(children, id) <==> exists|i: int|
            0 <= i < children.len() && (#[trigger] children[i]).id == id,
{
    lemma_lower_bound(children, id);
    if exists|i: int| 0 <= i < children.len() && (#[trigger] children[i]).id == id {
        let i = choose|i: int| 0 <= i < children.len() && (#[trigger] children[i]).id == id;
        lemma_id_lt_irreflexive(id);
        assert forall|j: int| 0 <= j < i implies id_lt(#[trigger] children[j].id, id) by {}
        lemma_lower_bound_is(children, id, i);
    }
    if has_child(children, id) {
        assert(children[lower_bound(children, id)].id == id);
    }
}

} // verus!
