//! Counts along paths: a node of the flame graph exists where a sample
//! passes, and counts the samples that pass through it.

use crate::execution_sample::Profile;
use crate::flame_graph::aggregate::{first_seen, lemma_first_seen, lemma_weight_is_length, weighted};
use crate::flame_graph::model::{
    ChildView, FrameIdView, NodeView, Step, Weighted, add_steps, bump, empty_root, graph_of,
    has_child, id_lt, lemma_conservation, lemma_has_child, lemma_id_lt_irreflexive,
    lemma_id_lt_total, lemma_id_lt_transitive, lemma_lower_bound, lower_bound, max_depth, ordered,
    step_of, steps_of, total_weight, well_formed,
};
use crate::flame_graph::order::{
    entered_by, lemma_place_after_inserted, lemma_place_before_inserted, lemma_place_by_ids,
    lemma_same_child, with_child,
};
use crate::flame_graph::{flame_samples, sample_keys};
use crate::profile::{FrameType, StackFrameView, StackTrace};
use vstd::prelude::*;

verus! {

/// The subtree of the child of an identity, where the children hold one
/// at its place.
pub open spec fn subtree(children: Seq<ChildView>, id: FrameIdView) -> Option<NodeView> {
    if has_child(children, id) {
        Some(children[lower_bound(children, id)].node)
    } else {
        None
    }
}

/// The node to which a path of identities leads from `n`, outermost
/// first; `None` where the path leaves the tree.
pub open spec fn node_at(n: NodeView, path: Seq<FrameIdView>) -> Option<NodeView>
    decreases path.len(),
{
    if path.len() == 0 {
        Some(n)
    } else {
        match subtree(n.children, path[0]) {
            Some(below) => node_at(below, path.skip(1)),
            None => None,
        }
    }
}

/// The count of the node at the end of a path, 0 where the path leaves
/// the tree.
pub open spec fn count_at(n: NodeView, path: Seq<FrameIdView>) -> nat {
    match node_at(n, path) {
        Some(found) => found.total_count,
        None => 0,
    }
}

/// The identities of steps, in their order.
pub open spec fn ids_of(steps: Seq<Step>) -> Seq<FrameIdView> {
    Seq::new(steps.len(), |i: int| steps[i].id)
}

/// The identities that a stack trace passes, outermost first.
pub open spec fn path_of(x: Weighted) -> Seq<FrameIdView> {
    ids_of(steps_of(x.frames))
}

/// Whether `ids` starts with `path`.
pub open spec fn begins_with(ids: Seq<FrameIdView>, path: Seq<FrameIdView>) -> bool {
    path.len() <= ids.len() && forall|i: int| 0 <= i < path.len() ==> ids[i] == path[i]
}

/// The number of samples whose stack trace starts with `path`.
pub open spec fn weight_through(samples: Seq<Weighted>, path: Seq<FrameIdView>) -> nat
    decreases samples.len(),
{
    if samples.len() == 0 {
        0
    } else {
        weight_through(samples.drop_last(), path) + if begins_with(path_of(samples.last()), path) {
            samples.last().count
        } else {
            0
        }
    }
}

/// Whether the stack trace of one of the samples starts with `path`.
pub open spec fn passes(samples: Seq<Weighted>, path: Seq<FrameIdView>) -> bool {
    exists|i: int| 0 <= i < samples.len() && begins_with(path_of(#[trigger] samples[i]), path)
}

/// Steps start with a path that is not empty where the first step has the
/// first identity of the path and the other steps start with the rest.
pub proof fn lemma_begins_with_rest(steps: Seq<Step>, path: Seq<FrameIdView>)
    requires
        steps.len() > 0,
        path.len() > 0,
    ensures
        begins_with(ids_of(steps), path) <==> steps[0].id == path[0] && begins_with(
            ids_of(steps.skip(1)),
            path.skip(1),
        ),
{
    let ids = ids_of(steps);
    let rest = ids_of(steps.skip(1));
    let tail = path.skip(1);
    if begins_with(ids, path) {
        assert(ids[0] == path[0]);
        assert forall|i: int| 0 <= i < tail.len() implies rest[i] == tail[i] by {
            assert(ids[i + 1] == path[i + 1]);
        }
    }
    if steps[0].id == path[0] && begins_with(rest, tail) {
        assert forall|i: int| 0 <= i < path.len() implies ids[i] == path[i] by {
            if i > 0 {
                assert(rest[i - 1] == tail[i - 1]);
            }
        }
    }
}

/// Entering a child leaves the subtrees of the other identities as they
/// were.
pub proof fn lemma_other_subtree(children: Seq<ChildView>, id: FrameIdView, x: NodeView, other: FrameIdView)
    requires
        id != other,
    ensures
        subtree(with_child(children, id, x), other) == subtree(children, other),
{
    let after = with_child(children, id, x);
    let c = ChildView { id, node: x };
    lemma_lower_bound(children, id);
    lemma_lower_bound(children, other);
    if has_child(children, id) {
        assert forall|k: int| 0 <= k < children.len() implies (#[trigger] after[k]).id
            == children[k].id by {}
        lemma_place_by_ids(after, children, other);
    } else {
        lemma_id_lt_total(id, other);
        if id_lt(id, other) {
            lemma_place_after_inserted(children, c, other);
        } else {
            lemma_place_before_inserted(children, c, other);
        }
    }
}

/// Counting the entries by execution mode changes neither where paths
/// lead nor the counts at their ends.
pub proof fn lemma_bump_at(n: NodeView, t: FrameType, count: nat, path: Seq<FrameIdView>)
    ensures
        node_at(bump(n, t, count), path) is Some <==> node_at(n, path) is Some,
        count_at(bump(n, t, count), path) == count_at(n, path),
{
    assert(bump(n, t, count).children == n.children);
    assert(bump(n, t, count).total_count == n.total_count);
}

/// Samples added along steps reach the nodes on their path, and no
/// others: a path leads to a node afterwards where it did before or
/// where the steps start with it, and the count at its end grows by the
/// samples where the steps start with it.
pub proof fn lemma_add_steps_at(n: NodeView, steps: Seq<Step>, count: nat, path: Seq<FrameIdView>)
    ensures
        node_at(add_steps(n, steps, count), path) is Some <==> node_at(n, path) is Some
            || begins_with(ids_of(steps), path),
        count_at(add_steps(n, steps, count), path) == count_at(n, path) + if begins_with(
            ids_of(steps),
            path,
        ) {
            count
        } else {
            0
        },
    decreases path.len(),
{
    let r = add_steps(n, steps, count);
    if path.len() == 0 {
    } else if steps.len() == 0 {
        assert(r.children == n.children);
    } else {
        let s = steps[0];
        let rest = steps.skip(1);
        let tail = path.skip(1);
        let e = entered_by(n.children, s);
        let b = bump(e, s.frame_type, count);
        let x = add_steps(b, rest, count);
        assert(r.children == with_child(n.children, s.id, x));
        lemma_begins_with_rest(steps, path);
        if path[0] == s.id {
            lemma_same_child(n.children, s.id, x, x);
            assert(subtree(r.children, path[0]) == Some(x));
            lemma_add_steps_at(b, rest, count, tail);
            lemma_bump_at(e, s.frame_type, count, tail);
            if !has_child(n.children, s.id) {
                assert(node_at(n, path) is None);
                if tail.len() > 0 {
                    assert(e.children.len() == 0);
                    assert(!has_child(e.children, tail[0]));
                    assert(node_at(e, tail) is None);
                } else {
                    assert(begins_with(ids_of(rest), tail));
                }
            }
        } else {
            lemma_other_subtree(n.children, s.id, x, path[0]);
        }
    }
}

/// Counts along paths: in the graph of any samples, a path of identities
/// that is not empty leads to a node exactly where the stack trace of a
/// sample starts with it, and the node at its end counts the samples
/// whose stack traces start with it.
pub proof fn lemma_counts_along_paths(samples: Seq<Weighted>, path: Seq<FrameIdView>)
    ensures
        node_at(graph_of(samples).root, path) is Some <==> path.len() == 0 || passes(samples, path),
        count_at(graph_of(samples).root, path) == weight_through(samples, path),
    decreases samples.len(),
{
    if samples.len() == 0 {
        if path.len() > 0 {
            assert(!has_child(empty_root().children, path[0]));
        }
    } else {
        let before = samples.drop_last();
        let last = samples.last();
        lemma_counts_along_paths(before, path);
        lemma_add_steps_at(graph_of(before).root, steps_of(last.frames), last.count, path);
        if passes(before, path) {
            let i = choose|i: int|
                0 <= i < before.len() && begins_with(path_of(#[trigger] before[i]), path);
            assert(samples[i] == before[i]);
        }
        if begins_with(path_of(last), path) {
            assert(samples[samples.len() - 1] == last);
        }
        if passes(samples, path) {
            let i = choose|i: int|
                0 <= i < samples.len() && begins_with(path_of(#[trigger] samples[i]), path);
            if i < before.len() {
                assert(before[i] == samples[i]);
            }
        }
    }
}

/// A path in two parts leads where its second part leads from the end of
/// its first.
pub proof fn lemma_node_at_join(n: NodeView, path: Seq<FrameIdView>, rest: Seq<FrameIdView>)
    ensures
        node_at(n, path + rest) == match node_at(n, path) {
            Some(x) => node_at(x, rest),
            None => None,
        },
    decreases path.len(),
{
    if path.len() == 0 {
        assert(path + rest =~= rest);
    } else {
        assert((path + rest).skip(1) =~= path.skip(1) + rest);
        assert((path + rest)[0] == path[0]);
        match subtree(n.children, path[0]) {
            Some(below) => {
                lemma_node_at_join(below, path.skip(1), rest);
            },
            None => {},
        }
    }
}

/// Every node of a well-formed tree is well formed.
pub proof fn lemma_well_formed_at(n: NodeView, path: Seq<FrameIdView>)
    requires
        well_formed(n),
        node_at(n, path) is Some,
    ensures
        well_formed(node_at(n, path).unwrap()),
    decreases path.len(),
{
    if path.len() > 0 {
        lemma_lower_bound(n.children, path[0]);
        let i = lower_bound(n.children, path[0]);
        assert(well_formed(n.children[i].node));
        lemma_well_formed_at(n.children[i].node, path.skip(1));
    }
}

/// The children along paths: in the graph of any samples, the children
/// of the node at the end of a path stand in ascending order of identity,
/// and an identity is among them exactly where the stack trace of a
/// sample starts with the path and goes on with that identity.
pub proof fn lemma_children_along_paths(samples: Seq<Weighted>, path: Seq<FrameIdView>, id: FrameIdView)
    requires
        node_at(graph_of(samples).root, path) is Some,
    ensures
        ordered(node_at(graph_of(samples).root, path).unwrap().children),
        subtree(node_at(graph_of(samples).root, path).unwrap().children, id) == node_at(
            graph_of(samples).root,
            path.push(id),
        ),
        (exists|i: int|
            0 <= i < node_at(graph_of(samples).root, path).unwrap().children.len() && (
            #[trigger] node_at(graph_of(samples).root, path).unwrap().children[i]).id == id)
            <==> passes(samples, path.push(id)),
{
    let root = graph_of(samples).root;
    let x = node_at(root, path).unwrap();
    lemma_conservation(samples);
    lemma_well_formed_at(root, path);
    lemma_has_child(x.children, id);
    lemma_node_at_join(root, path, seq![id]);
    assert(path + seq![id] =~= path.push(id));
    assert(seq![id].skip(1).len() == 0);
    assert(node_at(x, seq![id]) == match subtree(x.children, id) {
        Some(below) => node_at(below, seq![id].skip(1)),
        None => None,
    });
    lemma_counts_along_paths(samples, path.push(id));
}

/// Where every stack trace starts with a path, the samples through the
/// path are all the samples.
pub proof fn lemma_weight_through_all(samples: Seq<Weighted>, path: Seq<FrameIdView>)
    requires
        forall|i: int| 0 <= i < samples.len() ==> begins_with(path_of(#[trigger] samples[i]), path),
    ensures
        weight_through(samples, path) == total_weight(samples),
    decreases samples.len(),
{
    if samples.len() > 0 {
        let before = samples.drop_last();
        assert forall|i: int| 0 <= i < before.len() implies begins_with(
            path_of(#[trigger] before[i]),
            path,
        ) by {
            assert(before[i] == samples[i]);
        }
        lemma_weight_through_all(before, path);
        assert(samples.last() == samples[samples.len() - 1]);
    }
}

/// Samples whose stack traces all have one length give a graph of that
/// depth.
pub proof fn lemma_depth_of_one_length(samples: Seq<Weighted>, length: nat)
    requires
        samples.len() > 0,
        forall|i: int| 0 <= i < samples.len() ==> (#[trigger] samples[i]).frames.len() == length,
    ensures
        max_depth(samples) == length,
    decreases samples.len(),
{
    let before = samples.drop_last();
    assert(samples.last() == samples[samples.len() - 1]);
    if before.len() > 0 {
        assert forall|i: int| 0 <= i < before.len() implies (#[trigger] before[i]).frames.len()
            == length by {
            assert(before[i] == samples[i]);
        }
        lemma_depth_of_one_length(before, length);
    } else {
        assert(max_depth(before) == 0);
    }
}

/// Two stack traces under one outermost frame. Samples of the stack
/// traces `[b, a]` and `[c, a]`, innermost frame first, in any order and
/// in any number of each, where `b` comes before `c`, give a graph of
/// depth 2 whose root has the one child `a`, which counts every sample
/// and has the two children `b` and `c` in this order; these count the
/// samples of their stack trace and have no children.
pub proof fn lemma_two_traces_under_one_frame(
    samples: Seq<Weighted>,
    a: StackFrameView,
    b: StackFrameView,
    c: StackFrameView,
)
    requires
        forall|i: int|
            0 <= i < samples.len() ==> (#[trigger] samples[i]).frames == seq![b, a]
                || samples[i].frames == seq![c, a],
        exists|i: int| 0 <= i < samples.len() && (#[trigger] samples[i]).frames == seq![b, a],
        exists|i: int| 0 <= i < samples.len() && (#[trigger] samples[i]).frames == seq![c, a],
        id_lt(step_of(b).id, step_of(c).id),
    ensures
        graph_of(samples).depth == 2,
        graph_of(samples).root.total_count == total_weight(samples),
        graph_of(samples).root.children.len() == 1,
        graph_of(samples).root.children[0].id == step_of(a).id,
        graph_of(samples).root.children[0].node.total_count == total_weight(samples),
        graph_of(samples).root.children[0].node.children.len() == 2,
        graph_of(samples).root.children[0].node.children[0].id == step_of(b).id,
        graph_of(samples).root.children[0].node.children[0].node.total_count == weight_through(
            samples,
            seq![step_of(a).id, step_of(b).id],
        ),
        graph_of(samples).root.children[0].node.children[0].node.children.len() == 0,
        graph_of(samples).root.children[0].node.children[1].id == step_of(c).id,
        graph_of(samples).root.children[0].node.children[1].node.total_count == weight_through(
            samples,
            seq![step_of(a).id, step_of(c).id],
        ),
        graph_of(samples).root.children[0].node.children[1].node.children.len() == 0,
{
    let ia = step_of(a).id;
    let ib = step_of(b).id;
    let ic = step_of(c).id;
    let root = graph_of(samples).root;
    let none = Seq::<FrameIdView>::empty();
    let pa = seq![ia];
    let pb = seq![ia, ib];
    let pc = seq![ia, ic];
    lemma_id_lt_irreflexive(ib);
    lemma_id_lt_irreflexive(ic);
    if id_lt(ic, ib) {
        lemma_id_lt_transitive(ib, ic, ib);
    }
    assert forall|i: int| 0 <= i < samples.len() implies {
        &&& (#[trigger] samples[i]).frames.len() == 2
        &&& path_of(samples[i]).len() == 2
        &&& path_of(samples[i])[0] == ia
        &&& samples[i].frames == seq![b, a] ==> path_of(samples[i])[1] == ib
        &&& samples[i].frames == seq![c, a] ==> path_of(samples[i])[1] == ic
        &&& begins_with(path_of(samples[i]), pa)
    } by {
        let f = samples[i].frames;
        assert(f == seq![b, a] || f == seq![c, a]);
        assert(f.len() == 2);
        assert(f[1] == a);
        assert(steps_of(f)[0] == step_of(f[1]));
        assert(steps_of(f)[1] == step_of(f[0]));
    }
    let wb = choose|i: int| 0 <= i < samples.len() && (#[trigger] samples[i]).frames == seq![b, a];
    let wc = choose|i: int| 0 <= i < samples.len() && (#[trigger] samples[i]).frames == seq![c, a];
    assert(begins_with(path_of(samples[wb]), pb));
    assert(begins_with(path_of(samples[wc]), pc));
    assert(passes(samples, pa));
    assert(passes(samples, pb));
    assert(passes(samples, pc));
    lemma_conservation(samples);
    lemma_depth_of_one_length(samples, 2);
    lemma_weight_through_all(samples, pa);
    lemma_counts_along_paths(samples, pa);
    lemma_counts_along_paths(samples, pb);
    lemma_counts_along_paths(samples, pc);
    assert(none.push(ia) =~= pa);
    assert(pa.push(ib) =~= pb);
    assert(pa.push(ic) =~= pc);
    // The root has the one child `a`.
    assert forall|k: int| 0 <= k < root.children.len() implies (#[trigger] root.children[k]).id
        == ia by {
        let d = root.children[k].id;
        lemma_children_along_paths(samples, none, d);
        let i = choose|i: int|
            0 <= i < samples.len() && begins_with(path_of(#[trigger] samples[i]), none.push(d));
        assert(none.push(d)[0] == d);
        assert(path_of(samples[i])[0] == none.push(d)[0]);
    }
    lemma_children_along_paths(samples, none, ia);
    lemma_id_lt_irreflexive(ia);
    if root.children.len() > 1 {
        assert(id_lt(root.children[0].id, root.children[1].id));
    }
    lemma_lower_bound(root.children, ia);
    let top = root.children[0].node;
    assert(node_at(root, pa) == Some(top));
    // The child `a` has the children `b` and `c`.
    assert forall|k: int| 0 <= k < top.children.len() implies (#[trigger] top.children[k]).id == ib
        || top.children[k].id == ic by {
        let d = top.children[k].id;
        lemma_children_along_paths(samples, pa, d);
        let i = choose|i: int|
            0 <= i < samples.len() && begins_with(path_of(#[trigger] samples[i]), pa.push(d));
        assert(pa.push(d)[1] == d);
        assert(path_of(samples[i])[1] == pa.push(d)[1]);
    }
    lemma_children_along_paths(samples, pa, ib);
    lemma_children_along_paths(samples, pa, ic);
    let kb = choose|k: int| 0 <= k < top.children.len() && (#[trigger] top.children[k]).id == ib;
    let kc = choose|k: int| 0 <= k < top.children.len() && (#[trigger] top.children[k]).id == ic;
    if kc < kb {
        assert(id_lt(top.children[kc].id, top.children[kb].id));
    }
    if kb > 0 {
        assert(id_lt(top.children[0].id, top.children[kb].id));
    }
    if kc > kb + 1 {
        assert(id_lt(top.children[kb].id, top.children[kb + 1].id));
        assert(id_lt(top.children[kb + 1].id, top.children[kc].id));
    }
    if kc + 1 < top.children.len() {
        assert(id_lt(top.children[kc].id, top.children[kc + 1].id));
    }
    assert(kb == 0 && kc == 1 && top.children.len() == 2);
    lemma_lower_bound(top.children, ib);
    lemma_lower_bound(top.children, ic);
    assert(subtree(top.children, ib) == Some(top.children[0].node));
    assert(subtree(top.children, ic) == Some(top.children[1].node));
    // Neither has children.
    assert forall|p: Seq<FrameIdView>| p.len() > 2 implies !passes(samples, p) by {
        if passes(samples, p) {
            let i = choose|i: int| 0 <= i < samples.len() && begins_with(path_of(#[trigger] samples[i]), p);
            assert(path_of(samples[i]).len() == 2);
        }
    }
    let left = top.children[0].node;
    let right = top.children[1].node;
    if left.children.len() > 0 {
        lemma_children_along_paths(samples, pb, left.children[0].id);
    }
    if right.children.len() > 0 {
        lemma_children_along_paths(samples, pc, right.children[0].id);
    }
}

/// How many of the keys have a stack trace that starts with `path`.
pub open spec fn tally(
    keys: Seq<(usize, i64, i64)>,
    pool: Map<(usize, i64, i64), StackTrace>,
    path: Seq<FrameIdView>,
) -> nat
    decreases keys.len(),
{
    if keys.len() == 0 {
        0
    } else {
        tally(keys.drop_last(), pool, path) + if begins_with(
            ids_of(steps_of(pool[keys.last()]@)),
            path,
        ) {
            1nat
        } else {
            0nat
        }
    }
}

/// The samples through a path after one more occurrence of the key `x`:
/// one more where `x` is listed once and its stack trace starts with the
/// path, the same otherwise.
pub proof fn lemma_through_after_push(
    order: Seq<(usize, i64, i64)>,
    all: Seq<(usize, i64, i64)>,
    pool: Map<(usize, i64, i64), StackTrace>,
    x: (usize, i64, i64),
    path: Seq<FrameIdView>,
)
    requires
        order.no_duplicates(),
    ensures
        weight_through(weighted(order, all.push(x), pool), path) == weight_through(
            weighted(order, all, pool),
            path,
        ) + if order.contains(x) && begins_with(ids_of(steps_of(pool[x]@)), path) {
            1nat
        } else {
            0nat
        },
    decreases order.len(),
{
    let after = weighted(order, all.push(x), pool);
    let before = weighted(order, all, pool);
    assert(all.push(x).drop_last() =~= all);
    if order.len() > 0 {
        let head = order.drop_last();
        lemma_through_after_push(head, all, pool, x, path);
        assert(after.drop_last() =~= weighted(head, all.push(x), pool));
        assert(before.drop_last() =~= weighted(head, all, pool));
        assert(after.last().frames == pool[order.last()]@);
        assert(before.last().frames == pool[order.last()]@);
        if order.last() == x {
            if head.contains(x) {
                let i = choose|i: int| 0 <= i < head.len() && head[i] == x;
                assert(order[i] == x && order[order.len() - 1] == x);
            }
            assert(order[order.len() - 1] == x);
        } else {
            if order.contains(x) {
                let i = choose|i: int| 0 <= i < order.len() && order[i] == x;
                assert(head[i] == x);
            }
            if head.contains(x) {
                let i = choose|i: int| 0 <= i < head.len() && head[i] == x;
                assert(order[i] == x);
            }
        }
    }
}

/// The keys of a sequence, each once with the number of its occurrences,
/// give as many samples through a path as the sequence has keys whose
/// stack trace starts with the path.
pub proof fn lemma_through_is_tally(
    all: Seq<(usize, i64, i64)>,
    pool: Map<(usize, i64, i64), StackTrace>,
    path: Seq<FrameIdView>,
)
    ensures
        weight_through(weighted(first_seen(all), all, pool), path) == tally(all, pool, path),
    decreases all.len(),
{
    if all.len() > 0 {
        let head = all.drop_last();
        let x = all.last();
        lemma_through_is_tally(head, pool, path);
        lemma_first_seen(head);
        assert(head.push(x) =~= all);
        lemma_through_after_push(first_seen(head), head, pool, x, path);
        if !head.contains(x) {
            let w = weighted(first_seen(all), all, pool);
            assert(w.drop_last() =~= weighted(first_seen(head), all, pool));
            assert(w.last().frames == pool[x]@);
            assert(crate::flame_graph::aggregate::count_in(head, x) == 0) by {
                crate::flame_graph::aggregate::lemma_count_in_bounds(head, x);
            }
            assert(w.last().count == 1);
        }
    } else {
        assert(weighted(first_seen(all), all, pool) =~= Seq::empty());
    }
}

/// The flame graph of a profile counts, at the end of every path, the
/// visible samples whose stack trace starts with the path, however the
/// samples are spread over the threads; at its root it counts every
/// visible sample.
pub proof fn lemma_profile_counts_along_paths(profile: &Profile, path: Seq<FrameIdView>)
    ensures
        count_at(graph_of(flame_samples(profile)).root, path) == tally(
            sample_keys(profile),
            profile.stack_trace_pool@,
            path,
        ),
        graph_of(flame_samples(profile)).root.total_count == sample_keys(profile).len(),
{
    lemma_counts_along_paths(flame_samples(profile), path);
    lemma_through_is_tally(sample_keys(profile), profile.stack_trace_pool@, path);
    lemma_conservation(flame_samples(profile));
    lemma_weight_is_length(sample_keys(profile), profile.stack_trace_pool@);
}

/// The stack trace of a visible sample of a profile, by the place of the
/// sample among the visible samples.
pub open spec fn visible_trace(profile: &Profile, i: int) -> Seq<StackFrameView> {
    profile.stack_trace_pool@[sample_keys(profile)[i]]@
}

/// Two stack traces under one outermost frame, in a profile. Where every
/// visible sample of a profile has the stack trace `[b, a]` or `[c, a]`,
/// innermost frame first, each has a sample, and `b` comes before `c`,
/// the flame graph has depth 2, its root counts every visible sample and
/// has the one child `a`, which counts them all and has the children `b`
/// and `c` in this order, each with the number of visible samples of its
/// stack trace and without children. How the samples are spread over the
/// threads makes no difference.
pub proof fn lemma_two_traces_of_a_profile(
    profile: &Profile,
    a: StackFrameView,
    b: StackFrameView,
    c: StackFrameView,
)
    requires
        forall|i: int|
            0 <= i < sample_keys(profile).len() ==> #[trigger] visible_trace(profile, i) == seq![b, a]
                || visible_trace(profile, i) == seq![c, a],
        exists|i: int|
            0 <= i < sample_keys(profile).len() && #[trigger] visible_trace(profile, i) == seq![b, a],
        exists|i: int|
            0 <= i < sample_keys(profile).len() && #[trigger] visible_trace(profile, i) == seq![c, a],
        id_lt(step_of(b).id, step_of(c).id),
    ensures
        graph_of(flame_samples(profile)).depth == 2,
        graph_of(flame_samples(profile)).root.total_count == sample_keys(profile).len(),
        graph_of(flame_samples(profile)).root.children.len() == 1,
        graph_of(flame_samples(profile)).root.children[0].id == step_of(a).id,
        graph_of(flame_samples(profile)).root.children[0].node.total_count == sample_keys(
            profile,
        ).len(),
        graph_of(flame_samples(profile)).root.children[0].node.children.len() == 2,
        graph_of(flame_samples(profile)).root.children[0].node.children[0].id == step_of(b).id,
        graph_of(flame_samples(profile)).root.children[0].node.children[0].node.total_count
            == tally(
            sample_keys(profile),
            profile.stack_trace_pool@,
            seq![step_of(a).id, step_of(b).id],
        ),
        graph_of(flame_samples(profile)).root.children[0].node.children[0].node.children.len() == 0,
        graph_of(flame_samples(profile)).root.children[0].node.children[1].id == step_of(c).id,
        graph_of(flame_samples(profile)).root.children[0].node.children[1].node.total_count
            == tally(
            sample_keys(profile),
            profile.stack_trace_pool@,
            seq![step_of(a).id, step_of(c).id],
        ),
        graph_of(flame_samples(profile)).root.children[0].node.children[1].node.children.len() == 0,
{
    let all = sample_keys(profile);
    let pool = profile.stack_trace_pool@;
    let order = first_seen(all);
    let samples = flame_samples(profile);
    lemma_first_seen(all);
    assert forall|j: int| 0 <= j < samples.len() implies (#[trigger] samples[j]).frames == seq![b, a]
        || samples[j].frames == seq![c, a] by {
        assert(0 <= j < order.len());
        assert(order.contains(order[j]));
        assert(all.contains(order[j]));
        let i = choose|i: int| 0 <= i < all.len() && all[i] == order[j];
        assert(samples[j].frames == pool[order[j]]@);
        assert(visible_trace(profile, i) == samples[j].frames);
    }
    let ib = choose|i: int| 0 <= i < all.len() && #[trigger] visible_trace(profile, i) == seq![b, a];
    let ic = choose|i: int| 0 <= i < all.len() && #[trigger] visible_trace(profile, i) == seq![c, a];
    assert(all.contains(all[ib]));
    assert(all.contains(all[ic]));
    let jb = choose|j: int| 0 <= j < order.len() && order[j] == all[ib];
    let jc = choose|j: int| 0 <= j < order.len() && order[j] == all[ic];
    assert(samples[jb].frames == visible_trace(profile, ib));
    assert(samples[jc].frames == visible_trace(profile, ic));
    lemma_two_traces_under_one_frame(samples, a, b, c);
    lemma_weight_is_length(all, pool);
    lemma_through_is_tally(all, pool, seq![step_of(a).id, step_of(b).id]);
    lemma_through_is_tally(all, pool, seq![step_of(a).id, step_of(c).id]);
}

/// Whether the frame `j` of the visible sample `i` of a profile has the
/// given identity.
pub open spec fn is_visible_frame(profile: &Profile, i: int, j: int, id: FrameIdView) -> bool {
    &&& 0 <= i < sample_keys(profile).len()
    &&& profile.filtered_stack_trace_keys@.contains(sample_keys(profile)[i])
    &&& 0 <= j < visible_trace(profile, i).len()
    &&& step_of(visible_trace(profile, i)[j]).id == id
}

/// Every node of a flame graph below its root stands for a frame of a
/// sample: its identity is that of a frame of one of the samples.
pub proof fn lemma_nodes_are_frames(samples: Seq<Weighted>, path: Seq<FrameIdView>) -> (at: (int, int))
    requires
        path.len() > 0,
        node_at(graph_of(samples).root, path) is Some,
    ensures
        0 <= at.0 < samples.len(),
        0 <= at.1 < samples[at.0].frames.len(),
        step_of(samples[at.0].frames[at.1]).id == path.last(),
{
    lemma_counts_along_paths(samples, path);
    let i = choose|i: int| 0 <= i < samples.len() && begins_with(path_of(#[trigger] samples[i]), path);
    let frames = samples[i].frames;
    let j = frames.len() - path.len();
    assert(path_of(samples[i])[path.len() - 1] == path[path.len() - 1]);
    assert(steps_of(frames)[path.len() - 1] == step_of(frames[j]));
    (i, j)
}

/// Every node of the flame graph of a profile below its root stands for
/// a frame of a visible sample, of a stack trace that the profile's
/// filter lets pass: what the filter hides leaves no node.
pub proof fn lemma_nodes_are_visible_frames(profile: &Profile, path: Seq<FrameIdView>)
    requires
        path.len() > 0,
        node_at(graph_of(flame_samples(profile)).root, path) is Some,
    ensures
        exists|i: int, j: int| is_visible_frame(profile, i, j, path.last()),
{
    let all = sample_keys(profile);
    let order = first_seen(all);
    let samples = flame_samples(profile);
    let at = lemma_nodes_are_frames(samples, path);
    lemma_first_seen(all);
    assert(order.contains(order[at.0]));
    assert(all.contains(order[at.0]));
    let i = choose|i: int| 0 <= i < all.len() && all[i] == order[at.0];
    assert(samples[at.0].frames == profile.stack_trace_pool@[order[at.0]]@);
    assert(visible_trace(profile, i) == samples[at.0].frames);
    assert(all.contains(all[i]));
    crate::flame_graph::aggregate::lemma_visible_keys_are_visible(
        crate::timeline::thread_views(profile.threads@),
        profile.per_thread_samples@,
        profile.filtered_stack_trace_keys@,
        all[i],
    );
    assert(is_visible_frame(profile, i, at.1, path.last()));
}

} // verus!
