//! Independence of order: the flame graph of a set of samples does not
//! depend on the order in which the samples are added, but for the base
//! type of a node, which the first frame that creates the node sets.

use crate::flame_graph::model::{
    ChildView, FrameIdView, NodeView, Step, Weighted, add_steps, bump, empty_root, fresh, graph_of,
    has_child, id_lt, lemma_id_lt_irreflexive, lemma_id_lt_total, lemma_id_lt_transitive,
    lemma_lower_bound, lemma_lower_bound_is, lower_bound, steps_of,
};
use crate::profile::FrameType;
use vstd::prelude::*;

verus! {

/// The tree with every base type replaced by `Native`: what the tree
/// holds besides the base types.
pub open spec fn without_base(n: NodeView) -> NodeView
    decreases n,
{
    NodeView {
        base_type: FrameType::Native,
        children: Seq::new(
            n.children.len(),
            |i: int|
                if 0 <= i < n.children.len() {
                    ChildView { id: n.children[i].id, node: without_base(n.children[i].node) }
                } else {
                    arbitrary()
                },
        ),
        ..n
    }
}

/// The steps with every new child created as `Native`.
pub open spec fn plain(steps: Seq<Step>) -> Seq<Step> {
    Seq::new(steps.len(), |i: int| Step { created_as: FrameType::Native, ..steps[i] })
}

/// Whether every step creates its child as `Native`.
pub open spec fn is_plain(steps: Seq<Step>) -> bool {
    forall|i: int| 0 <= i < steps.len() ==> (#[trigger] steps[i]).created_as == FrameType::Native
}

/// The place of an identity depends on the identities of the children
/// alone.
pub proof fn lemma_place_by_ids(a: Seq<ChildView>, b: Seq<ChildView>, id: FrameIdView)
    requires
        a.len() == b.len(),
        forall|k: int| 0 <= k < a.len() ==> (#[trigger] a[k]).id == b[k].id,
    ensures
        lower_bound(a, id) == lower_bound(b, id),
        has_child(a, id) == has_child(b, id),
{
    lemma_lower_bound(a, id);
    let i = lower_bound(a, id);
    assert forall|k: int| 0 <= k < i implies id_lt(#[trigger] b[k].id, id) by {
        assert(a[k].id == b[k].id);
    }
    if i < a.len() {
        assert(a[i].id == b[i].id);
    }
    lemma_lower_bound_is(b, id, i);
}

/// An identity that comes before another has its place no later.
pub proof fn lemma_place_monotone(children: Seq<ChildView>, first: FrameIdView, second: FrameIdView)
    requires
        id_lt(first, second),
    ensures
        lower_bound(children, first) <= lower_bound(children, second),
        has_child(children, first) ==> lower_bound(children, first) < lower_bound(children, second),
{
    lemma_lower_bound(children, first);
    lemma_lower_bound(children, second);
    let i = lower_bound(children, first);
    let j = lower_bound(children, second);
    if j < i {
        lemma_id_lt_transitive(children[j].id, first, second);
    }
    if has_child(children, first) && j == i {
        assert(children[i].id == first);
    }
}

/// After a child was put at its place, its identity has that place and
/// is found there.
pub proof fn lemma_place_of_inserted(children: Seq<ChildView>, c: ChildView)
    ensures
        lower_bound(children.insert(lower_bound(children, c.id), c), c.id) == lower_bound(
            children,
            c.id,
        ),
        has_child(children.insert(lower_bound(children, c.id), c), c.id),
{
    lemma_lower_bound(children, c.id);
    lemma_id_lt_irreflexive(c.id);
    let i = lower_bound(children, c.id);
    let inserted = children.insert(i, c);
    assert forall|k: int| 0 <= k < i implies id_lt(#[trigger] inserted[k].id, c.id) by {
        assert(inserted[k] == children[k]);
    }
    assert(inserted[i] == c);
    lemma_lower_bound_is(inserted, c.id, i);
}

/// After a child was put at its place, a later identity has its place one
/// further and is found as before.
pub proof fn lemma_place_after_inserted(children: Seq<ChildView>, c: ChildView, later: FrameIdView)
    requires
        id_lt(c.id, later),
    ensures
        lower_bound(children.insert(lower_bound(children, c.id), c), later) == lower_bound(
            children,
            later,
        ) + 1,
        has_child(children.insert(lower_bound(children, c.id), c), later) == has_child(
            children,
            later,
        ),
        has_child(children, later) ==> children.insert(lower_bound(children, c.id), c)[lower_bound(
            children,
            later,
        ) + 1] == children[lower_bound(children, later)],
{
    lemma_lower_bound(children, c.id);
    lemma_lower_bound(children, later);
    lemma_place_monotone(children, c.id, later);
    let i = lower_bound(children, c.id);
    let j = lower_bound(children, later);
    let inserted = children.insert(i, c);
    assert forall|k: int| 0 <= k < j + 1 implies id_lt(#[trigger] inserted[k].id, later) by {
        if k < i {
            assert(inserted[k] == children[k]);
        } else if k > i {
            assert(inserted[k] == children[k - 1]);
        }
    }
    if j + 1 < inserted.len() {
        assert(inserted[j + 1] == children[j]);
    }
    lemma_lower_bound_is(inserted, later, j + 1);
}

/// After a child was put at its place, an earlier identity has its place
/// as before and is found as before.
pub proof fn lemma_place_before_inserted(children: Seq<ChildView>, c: ChildView, earlier: FrameIdView)
    requires
        id_lt(earlier, c.id),
    ensures
        lower_bound(children.insert(lower_bound(children, c.id), c), earlier) == lower_bound(
            children,
            earlier,
        ),
        has_child(children.insert(lower_bound(children, c.id), c), earlier) == has_child(
            children,
            earlier,
        ),
        has_child(children, earlier) ==> children.insert(lower_bound(children, c.id), c)[lower_bound(
            children,
            earlier,
        )] == children[lower_bound(children, earlier)],
{
    lemma_lower_bound(children, c.id);
    lemma_lower_bound(children, earlier);
    lemma_place_monotone(children, earlier, c.id);
    lemma_id_lt_irreflexive(earlier);
    let j = lower_bound(children, c.id);
    let i = lower_bound(children, earlier);
    let inserted = children.insert(j, c);
    assert forall|k: int| 0 <= k < i implies id_lt(#[trigger] inserted[k].id, earlier) by {
        assert(inserted[k] == children[k]);
    }
    if i < j {
        assert(inserted[i] == children[i]);
    } else {
        assert(inserted[i] == c);
        if id_lt(c.id, earlier) {
            lemma_id_lt_transitive(earlier, c.id, earlier);
        }
    }
    lemma_lower_bound_is(inserted, earlier, i);
}

/// The children of a node after `count` samples entered the child of the
/// step: the child is replaced by `node`, or put at its place where it
/// was missing.
pub open spec fn with_child(children: Seq<ChildView>, id: FrameIdView, node: NodeView) -> Seq<ChildView> {
    if has_child(children, id) {
        children.update(lower_bound(children, id), ChildView { id, node })
    } else {
        children.insert(lower_bound(children, id), ChildView { id, node })
    }
}

/// The subtree that a step enters, before the step is counted in it.
pub open spec fn entered_by(children: Seq<ChildView>, s: Step) -> NodeView {
    if has_child(children, s.id) {
        children[lower_bound(children, s.id)].node
    } else {
        fresh(s.created_as)
    }
}

/// Entering two children of different identity can be done in either
/// order: each finds the subtree that it would have found alone, and the
/// children are the same afterwards.
pub proof fn lemma_two_children(
    children: Seq<ChildView>,
    s: Step,
    x: NodeView,
    t: Step,
    y: NodeView,
)
    requires
        id_lt(s.id, t.id),
    ensures
        entered_by(with_child(children, s.id, x), t) == entered_by(children, t),
        entered_by(with_child(children, t.id, y), s) == entered_by(children, s),
        with_child(with_child(children, s.id, x), t.id, y) == with_child(
            with_child(children, t.id, y),
            s.id,
            x,
        ),
{
    let i = lower_bound(children, s.id);
    let j = lower_bound(children, t.id);
    let cs = ChildView { id: s.id, node: x };
    let ct = ChildView { id: t.id, node: y };
    let after_s = with_child(children, s.id, x);
    let after_t = with_child(children, t.id, y);
    lemma_lower_bound(children, s.id);
    lemma_lower_bound(children, t.id);
    lemma_place_monotone(children, s.id, t.id);
    lemma_id_lt_irreflexive(s.id);
    if has_child(children, s.id) {
        assert forall|k: int| 0 <= k < children.len() implies (#[trigger] after_s[k]).id
            == children[k].id by {}
        lemma_place_by_ids(after_s, children, t.id);
    } else {
        lemma_place_after_inserted(children, cs, t.id);
    }
    if has_child(children, t.id) {
        assert forall|k: int| 0 <= k < children.len() implies (#[trigger] after_t[k]).id
            == children[k].id by {}
        lemma_place_by_ids(after_t, children, s.id);
    } else {
        lemma_place_before_inserted(children, ct, s.id);
    }
    assert(with_child(after_s, t.id, y) =~= with_child(after_t, s.id, x));
}

/// Entering one child twice: the second time finds the subtree that the
/// first time left, and what the first time left is replaced.
pub proof fn lemma_same_child(children: Seq<ChildView>, id: FrameIdView, x: NodeView, last: NodeView)
    ensures
        has_child(with_child(children, id, x), id),
        with_child(children, id, x)[lower_bound(with_child(children, id, x), id)].node == x,
        with_child(with_child(children, id, x), id, last) == with_child(children, id, last),
{
    lemma_lower_bound(children, id);
    let after = with_child(children, id, x);
    if has_child(children, id) {
        assert forall|k: int| 0 <= k < children.len() implies (#[trigger] after[k]).id
            == children[k].id by {}
        lemma_place_by_ids(after, children, id);
    } else {
        lemma_place_of_inserted(children, ChildView { id, node: x });
    }
    assert(with_child(after, id, last) =~= with_child(children, id, last));
}

/// The steps after the first of plain steps are plain.
pub proof fn lemma_plain_rest(steps: Seq<Step>)
    requires
        is_plain(steps),
        steps.len() > 0,
    ensures
        is_plain(steps.skip(1)),
{
    assert forall|k: int| 0 <= k < steps.skip(1).len() implies (#[trigger] steps.skip(
        1,
    )[k]).created_as == FrameType::Native by {
        assert(steps.skip(1)[k] == steps[k + 1]);
    }
}

/// Samples along two paths of plain steps can be added in either order.
#[verifier::spinoff_prover]
pub proof fn lemma_add_steps_commute(n: NodeView, p: Seq<Step>, a: nat, q: Seq<Step>, b: nat)
    requires
        is_plain(p),
        is_plain(q),
    ensures
        add_steps(add_steps(n, p, a), q, b) == add_steps(add_steps(n, q, b), p, a),
    decreases p.len() + q.len(),
{
    if p.len() > 0 && q.len() > 0 {
        let s = p[0];
        let t = q[0];
        let children = n.children;
        let after_p = add_steps(n, p, a);
        let after_q = add_steps(n, q, b);
        let x = add_steps(bump(entered_by(children, s), s.frame_type, a), p.skip(1), a);
        let y = add_steps(bump(entered_by(children, t), t.frame_type, b), q.skip(1), b);
        assert(after_p.children == with_child(children, s.id, x));
        assert(after_q.children == with_child(children, t.id, y));
        let x_then = add_steps(bump(entered_by(after_q.children, s), s.frame_type, a), p.skip(1), a);
        let y_then = add_steps(bump(entered_by(after_p.children, t), t.frame_type, b), q.skip(1), b);
        assert(add_steps(after_p, q, b).children == with_child(after_p.children, t.id, y_then));
        assert(add_steps(after_q, p, a).children == with_child(after_q.children, s.id, x_then));
        if s.id == t.id {
            let e = entered_by(children, s);
            assert(e == entered_by(children, t));
            let both = bump(bump(e, s.frame_type, a), t.frame_type, b);
            assert(both == bump(bump(e, t.frame_type, b), s.frame_type, a));
            lemma_plain_rest(p);
            lemma_plain_rest(q);
            lemma_add_steps_commute(both, p.skip(1), a, q.skip(1), b);
            lemma_same_child(children, s.id, x, y_then);
            lemma_same_child(children, s.id, y, x_then);
            assert(y_then == add_steps(add_steps(both, p.skip(1), a), q.skip(1), b));
            assert(x_then == add_steps(add_steps(both, q.skip(1), b), p.skip(1), a));
        } else {
            lemma_id_lt_total(s.id, t.id);
            if id_lt(s.id, t.id) {
                lemma_two_children(children, s, x, t, y);
            } else {
                lemma_two_children(children, t, y, s, x);
            }
        }
    }
}

/// Adding samples and leaving out the base types can be done in either
/// order.
pub proof fn lemma_without_base_add_steps(n: NodeView, steps: Seq<Step>, count: nat)
    ensures
        without_base(add_steps(n, steps, count)) == add_steps(
            without_base(n),
            plain(steps),
            count,
        ),
    decreases steps.len(),
{
    let bare = without_base(n);
    let r = add_steps(n, steps, count);
    if steps.len() == 0 {
        assert(without_base(r).children =~= bare.children);
    } else {
        let s = steps[0];
        let ps = plain(steps)[0];
        let rest = steps.skip(1);
        assert(plain(steps).skip(1) =~= plain(rest));
        lemma_place_by_ids(bare.children, n.children, s.id);
        lemma_lower_bound(n.children, s.id);
        let i = lower_bound(n.children, s.id);
        let e = entered_by(n.children, s);
        let bare_e = entered_by(bare.children, ps);
        assert(bare_e == without_base(e)) by {
            if !has_child(n.children, s.id) {
                assert(without_base(e).children =~= fresh(FrameType::Native).children);
            }
        }
        let b = bump(e, s.frame_type, count);
        assert(without_base(b) == bump(bare_e, s.frame_type, count)) by {
            assert(without_base(b).children =~= without_base(e).children);
        }
        lemma_without_base_add_steps(b, rest, count);
        let x = add_steps(b, rest, count);
        assert(r.children == with_child(n.children, s.id, x));
        assert(without_base(r).children =~= with_child(bare.children, s.id, without_base(x)));
    }
}

/// The graph after one more weighted stack trace, base types left out.
pub open spec fn add_plain(v: NodeView, x: Weighted) -> NodeView {
    add_steps(v, plain(steps_of(x.frames)), x.count)
}

/// The greater of a depth and the length of a stack trace.
pub open spec fn deepen(depth: nat, x: Weighted) -> nat {
    if x.frames.len() > depth {
        x.frames.len()
    } else {
        depth
    }
}

/// The tree of a graph without its base types is the fold of its samples
/// over trees without base types, and its depth the fold of their
/// lengths.
pub proof fn lemma_graph_is_fold(samples: Seq<Weighted>)
    ensures
        without_base(graph_of(samples).root) == samples.fold_left(
            without_base(empty_root()),
            |v: NodeView, x: Weighted| add_plain(v, x),
        ),
        graph_of(samples).depth == samples.fold_left(0nat, |d: nat, x: Weighted| deepen(d, x)),
    decreases samples.len(),
{
    if samples.len() > 0 {
        lemma_graph_is_fold(samples.drop_last());
        lemma_without_base_add_steps(
            graph_of(samples.drop_last()).root,
            steps_of(samples.last().frames),
            samples.last().count,
        );
    }
}

/// Independence of order: two sequences that hold the same weighted stack
/// traces equally often give graphs of the same depth whose trees agree
/// in everything but the base types of the nodes: the same children in
/// the same order at every node, with the same counts.
pub proof fn lemma_order_independent(a: Seq<Weighted>, b: Seq<Weighted>)
    requires
        a.to_multiset() == b.to_multiset(),
    ensures
        without_base(graph_of(a).root) == without_base(graph_of(b).root),
        graph_of(a).depth == graph_of(b).depth,
{
    let f = |v: NodeView, x: Weighted| add_plain(v, x);
    let g = |d: nat, x: Weighted| deepen(d, x);
    assert(vstd::seq_lib::commutative_foldl(f)) by {
        assert forall|x: Weighted, y: Weighted, v: NodeView| #[trigger] f(f(v, x), y) == f(f(v, y), x) by {
            lemma_add_steps_commute(
                v,
                plain(steps_of(x.frames)),
                x.count,
                plain(steps_of(y.frames)),
                y.count,
            );
        }
    }
    assert(vstd::seq_lib::commutative_foldl(g));
    vstd::seq_lib::lemma_fold_left_permutation(a, b, f, without_base(empty_root()));
    vstd::seq_lib::lemma_fold_left_permutation(a, b, g, 0nat);
    lemma_graph_is_fold(a);
    lemma_graph_is_fold(b);
}

/// Independence of order at the root: the graphs of two sequences that
/// hold the same weighted stack traces equally often have, at the root,
/// children of the same identities in the same order, with the same
/// counts.
pub proof fn lemma_same_children(a: Seq<Weighted>, b: Seq<Weighted>, i: int)
    requires
        a.to_multiset() == b.to_multiset(),
        0 <= i < graph_of(a).root.children.len(),
    ensures
        graph_of(a).root.children.len() == graph_of(b).root.children.len(),
        graph_of(a).root.children[i].id == graph_of(b).root.children[i].id,
        graph_of(a).root.children[i].node.total_count == graph_of(b).root.children[i].node.total_count,
        graph_of(a).root.total_count == graph_of(b).root.total_count,
{
    lemma_order_independent(a, b);
    let x = graph_of(a).root;
    let y = graph_of(b).root;
    assert(without_base(x).children.len() == x.children.len());
    assert(without_base(y).children.len() == y.children.len());
    assert(without_base(x).children[i] == (ChildView {
        id: x.children[i].id,
        node: without_base(x.children[i].node),
    }));
    assert(without_base(y).children[i] == (ChildView {
        id: y.children[i].id,
        node: without_base(y.children[i].node),
    }));
    assert(without_base(x.children[i].node).total_count == x.children[i].node.total_count);
    assert(without_base(y.children[i].node).total_count == y.children[i].node.total_count);
}

} // verus!
