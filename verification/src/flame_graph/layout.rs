//! The layout of a flame graph: one row of frames for each depth, every
//! frame with its offset and width in units of samples.

use crate::flame_graph::model::{
    ChildView, NodeView, calculated_type_of, children_total, fits, lemma_children_total_first,
    lemma_well_formed_child, well_formed,
};
use crate::profile::FrameType;
use crate::text::{decimal_string, decimal_text};
use vstd::prelude::*;
use vstd::string::StringExecFns;

verus! {

/// The counts of a frame by execution mode, and their description.
#[derive(Debug)]
pub struct FrameDetail {
    pub interpreted_count: Option<usize>,
    pub c1_compiled_count: Option<usize>,
    pub inlined_count: Option<usize>,
    pub description: String,
}

/// A frame of the layout.
#[derive(Debug)]
pub struct Frame {
    /// The offset of the frame from the left edge, in samples.
    pub x: usize,
    /// The width of the frame, in samples.
    pub count: usize,
    pub frame_type: FrameType,
    pub title: String,
    pub detail: FrameDetail,
}

/// The frames of one depth, from left to right.
#[derive(Debug)]
pub struct Level {
    pub frames: Vec<Frame>,
}

/// A frame of the layout as plain values.
pub struct PlacedView {
    pub x: nat,
    pub count: nat,
    pub frame_type: FrameType,
    pub title: Seq<char>,
    pub interpreted_count: Option<nat>,
    pub c1_compiled_count: Option<nat>,
    pub inlined_count: Option<nat>,
    pub description: Seq<char>,
}

/// A count, or nothing for zero.
pub open spec fn nonzero_of(n: nat) -> Option<nat> {
    if n > 0 {
        Some(n)
    } else {
        None
    }
}

/// The text `label` followed by the count, or nothing for zero.
pub open spec fn labelled(label: Seq<char>, n: nat) -> Seq<char> {
    if n > 0 {
        label + decimal_text(n as int)
    } else {
        Seq::empty()
    }
}

/// The description of the counts by execution mode: for each count that
/// is not zero a comma, its label and the count.
pub open spec fn description_of(n: NodeView) -> Seq<char> {
    labelled(", int="@, n.interpreted_count) + labelled(", c1="@, n.c1_count) + labelled(
        ", inln="@,
        n.inlined_count,
    )
}

/// The frame that a node becomes when it is placed at offset `x` under
/// the given title.
pub open spec fn placed(n: NodeView, title: Seq<char>, x: nat) -> PlacedView {
    PlacedView {
        x,
        count: n.total_count,
        frame_type: calculated_type_of(n),
        title,
        interpreted_count: nonzero_of(n.interpreted_count),
        c1_compiled_count: nonzero_of(n.c1_count),
        inlined_count: nonzero_of(n.inlined_count),
        description: description_of(n),
    }
}

impl View for Frame {
    type V = PlacedView;

    open spec fn view(&self) -> PlacedView {
        PlacedView {
            x: self.x as nat,
            count: self.count as nat,
            frame_type: self.frame_type,
            title: self.title@,
            interpreted_count: match self.detail.interpreted_count {
                Some(n) => Some(n as nat),
                None => None,
            },
            c1_compiled_count: match self.detail.c1_compiled_count {
                Some(n) => Some(n as nat),
                None => None,
            },
            inlined_count: match self.detail.inlined_count {
                Some(n) => Some(n as nat),
                None => None,
            },
            description: self.detail.description@,
        }
    }
}

impl View for Level {
    type V = Seq<PlacedView>;

    open spec fn view(&self) -> Seq<PlacedView> {
        Seq::new(self.frames@.len(), |i: int| self.frames@[i]@)
    }
}

/// The rows of a layout as plain values.
pub open spec fn rows_view(levels: Seq<Level>) -> Seq<Seq<PlacedView>> {
    Seq::new(levels.len(), |i: int| levels[i]@)
}

/// The rows after a node was placed at offset `x` of row `level`, and the
/// nodes below it in the rows below: its children from left to right in
/// their order, the first of them after the width that the node's own
/// samples take.
pub open spec fn place_node(
    n: NodeView,
    title: Seq<char>,
    x: nat,
    level: nat,
    rows: Seq<Seq<PlacedView>>,
) -> Seq<Seq<PlacedView>>
    decreases n, 1nat,
{
    place_children(
        n.children,
        x + n.self_count,
        level + 1,
        if level < rows.len() {
            rows.update(level as int, rows[level as int].push(placed(n, title, x)))
        } else {
            rows
        },
    )
}

/// The rows after the given children were placed side by side in row
/// `level`, the first at offset `x`, each as wide as its count.
pub open spec fn place_children(
    children: Seq<ChildView>,
    x: nat,
    level: nat,
    rows: Seq<Seq<PlacedView>>,
) -> Seq<Seq<PlacedView>>
    decreases children, 0nat,
{
    if children.len() == 0 {
        rows
    } else {
        place_children(
            children.skip(1),
            x + children[0].node.total_count,
            level,
            place_node(children[0].node, children[0].id.name, x, level, rows),
        )
    }
}

/// A count, or nothing for zero.
fn nonzero(n: usize) -> (r: Option<usize>)
    ensures
        r == (if n > 0 {
            Some(n)
        } else {
            None
        }),
{
    if n > 0 {
        Some(n)
    } else {
        None
    }
}

/// Appends the label and the count to the description, unless the count
/// is zero.
fn describe(description: &mut String, label: &str, n: usize)
    ensures
        final(description)@ == old(description)@ + labelled(label@, n as nat),
{
    if n > 0 {
        description.append(label);
        let digits = decimal_string(n as i128);
        description.append(digits.as_str());
        assert(description@ =~= old(description)@ + (label@ + decimal_text(n as int)));
    } else {
        assert(description@ =~= old(description)@ + Seq::<char>::empty());
    }
}

/// The frame of the layout that stands for a node of the tree.
fn frame_for(title: &str, frame: &crate::flame_graph::Frame, x: usize) -> (r: Frame)
    ensures
        r@ == placed(frame@, title@, x as nat),
{
    let mut description = String::new();
    describe(&mut description, ", int=", frame.interpreted_count);
    describe(&mut description, ", c1=", frame.c1_count);
    describe(&mut description, ", inln=", frame.inlined_count);
    assert(description@ =~= description_of(frame@));
    Frame {
        x,
        count: frame.total_count,
        frame_type: frame.calculated_type(),
        title: String::from_str(title),
        detail: FrameDetail {
            interpreted_count: nonzero(frame.interpreted_count),
            c1_compiled_count: nonzero(frame.c1_count),
            inlined_count: nonzero(frame.inlined_count),
            description,
        },
    }
}

/// Appends a frame to one row.
fn push_frame(levels: &mut Vec<Level>, level: usize, frame: Frame)
    requires
        level < old(levels).len(),
    ensures
        final(levels).len() == old(levels).len(),
        rows_view(final(levels)@) =~= rows_view(old(levels)@).update(
            level as int,
            rows_view(old(levels)@)[level as int].push(frame@),
        ),
{
    let ghost before = levels@;
    let ghost placed = frame@;
    levels[level].frames.push(frame);
    assert(levels@[level as int]@ =~= before[level as int]@.push(placed));
}

/// Places a node at offset `x` of row `level`, and the nodes below it in
/// the rows below.
fn traverse_frame(
    title: &str,
    frame: &crate::flame_graph::Frame,
    x: usize,
    level: usize,
    levels: &mut Vec<Level>,
)
    requires
        well_formed(frame@),
        level < old(levels).len(),
        fits(frame@, (old(levels).len() - 1 - level) as nat),
        x + frame@.total_count <= usize::MAX,
    ensures
        final(levels).len() == old(levels).len(),
        rows_view(final(levels)@) == place_node(
            frame@,
            title@,
            x as nat,
            level as nat,
            rows_view(old(levels)@),
        ),
    decreases frame,
{
    let ghost node = frame@;
    let ghost start = rows_view(levels@);
    proof {
        frame.lemma_view();
    }
    push_frame(levels, level, frame_for(title, frame, x));
    let ghost pushed = rows_view(levels@);
    let mut cursor = x + frame.self_count;
    let mut k: usize = 0;
    assert(node.children.skip(0) =~= node.children);
    while k < frame.children.len()
        invariant
            k <= frame.children.len(),
            node == frame@,
            well_formed(node),
            node.children.len() == frame.children.len(),
            levels.len() == old(levels).len(),
            level < levels.len(),
            fits(node, (levels.len() - 1 - level) as nat),
            cursor + children_total(node.children.skip(k as int)) == x + node.total_count,
            x + node.total_count <= usize::MAX,
            place_children(
                node.children.skip(k as int),
                cursor as nat,
                (level + 1) as nat,
                rows_view(levels@),
            ) == place_children(
                node.children,
                (x + node.self_count) as nat,
                (level + 1) as nat,
                pushed,
            ),
        decreases frame.children.len() - k,
    {
        let child = &frame.children[k];
        let ghost rest = node.children.skip(k as int);
        proof {
            frame.lemma_view();
            lemma_well_formed_child(node, k as int);
            lemma_children_total_first(rest);
            assert(rest[0] == node.children[k as int]);
            assert(rest.skip(1) =~= node.children.skip(k + 1));
            assert(node.children[k as int].node == child.frame@);
            assert(node.children[k as int].id == child.id@);
        }
        traverse_frame(child.id.name.as_str(), &child.frame, cursor, level + 1, levels);
        cursor = cursor + child.frame.total_count;
        k = k + 1;
    }
    assert(node.children.skip(k as int).len() == 0);
}

/// The layout of a flame graph.
#[derive(Debug)]
pub struct FlameGraph {
    pub levels: Vec<Level>,
}

/// Rows without frames.
pub open spec fn empty_rows(n: nat) -> Seq<Seq<PlacedView>> {
    Seq::new(n, |i: int| Seq::<PlacedView>::empty())
}

/// The rows of the layout of a tree of the given depth: one for each depth
/// from 0, the root alone in the first under the title `all`.
pub open spec fn layout_of(root: NodeView, depth: nat) -> Seq<Seq<PlacedView>> {
    place_node(root, "all"@, 0, 0, empty_rows(depth + 1))
}

impl FlameGraph {
    /// Flattens a flame graph into rows.
    pub fn from(flame_graph: &crate::flame_graph::FlameGraph) -> (r: Self)
        requires
            flame_graph@.valid(),
            flame_graph.depth < usize::MAX,
        ensures
            rows_view(r.levels@) == layout_of(flame_graph@.root, flame_graph@.depth),
            r.levels@.len() == flame_graph.depth + 1,
            r.levels@[0]@ == seq![placed(flame_graph@.root, "all"@, 0)],
            forall|i: int| 0 <= i < r.levels@.len() ==> in_order(#[trigger] r.levels@[i]@),
    {
        proof {
            lemma_layout(flame_graph@.root, flame_graph@.depth);
        }
        let mut levels: Vec<Level> = Vec::new();
        let mut i: usize = 0;
        while i <= flame_graph.depth
            invariant
                i <= flame_graph.depth + 1,
                flame_graph.depth < usize::MAX,
                levels.len() == i,
                forall|j: int| 0 <= j < i ==> (#[trigger] levels@[j]).frames@.len() == 0,
            decreases flame_graph.depth + 1 - i,
        {
            levels.push(Level { frames: Vec::new() });
            i = i + 1;
        }
        assert(rows_view(levels@) =~= empty_rows((flame_graph.depth + 1) as nat)) by {
            assert forall|j: int| 0 <= j < levels@.len() implies rows_view(levels@)[j]
                == Seq::<PlacedView>::empty() by {
                assert(levels@[j]@ =~= Seq::<PlacedView>::empty());
            }
        }
        traverse_frame("all", &flame_graph.root, 0, 0, &mut levels);
        proof {
            assert forall|i: int| 0 <= i < levels@.len() implies in_order(#[trigger] levels@[i]@) by {
                assert(rows_view(levels@)[i] == levels@[i]@);
            }
            assert(rows_view(levels@)[0] == levels@[0]@);
        }
        FlameGraph { levels }
    }
}

/// Whether the frame's interval, from its offset up to its offset plus
/// its width, holds `x`.
pub open spec fn covers(f: PlacedView, x: nat) -> bool {
    f.x <= x < f.x + f.count
}

/// Whether the frames of a row stand from left to right without overlap.
pub open spec fn in_order(row: Seq<PlacedView>) -> bool {
    forall|i: int, j: int|
        0 <= i < j < row.len() ==> (#[trigger] row[i]).x + row[i].count <= (#[trigger] row[j]).x
}

/// In a row whose frames stand in order without overlap, at most one
/// frame holds a given offset.
pub proof fn lemma_one_frame_covers(row: Seq<PlacedView>, x: nat, i: int, j: int)
    requires
        in_order(row),
        0 <= i < row.len(),
        0 <= j < row.len(),
        covers(row[i], x),
        covers(row[j], x),
    ensures
        i == j,
{
}

/// The number of frames before the place at which a bisection of the row
/// for `x` ends: the frame before that place starts at or before `x`, the
/// frame at it after `x`. In a row whose frames stand in order, these are
/// all the frames that start at or before `x`.
pub fn frame_place(level: &Level, x: usize) -> (r: usize)
    ensures
        r <= level@.len(),
        r > 0 ==> level@[r - 1].x <= x,
        r < level@.len() ==> level@[r as int].x > x,
        in_order(level@) ==> forall|j: int| 0 <= j < r ==> (#[trigger] level@[j]).x <= x,
        in_order(level@) ==> forall|j: int| r <= j < level@.len() ==> (#[trigger] level@[j]).x > x,
{
    let mut lo: usize = 0;
    let mut hi: usize = level.frames.len();
    while lo < hi
        invariant
            lo <= hi <= level.frames.len(),
            level@.len() == level.frames.len(),
            lo > 0 ==> level@[lo - 1].x <= x,
            hi < level@.len() ==> level@[hi as int].x > x,
            in_order(level@) ==> forall|j: int| 0 <= j < lo ==> (#[trigger] level@[j]).x <= x,
            in_order(level@) ==> forall|j: int| hi <= j < level@.len() ==> (#[trigger] level@[j]).x > x,
        decreases hi - lo,
    {
        let mid = lo + (hi - lo) / 2;
        let f = &level.frames[mid];
        assert(level@[mid as int] == f@);
        if f.x > x {
            hi = mid;
        } else {
            lo = mid + 1;
        }
    }
    lo
}

/// Finds by bisection the frame of a row whose interval holds `x`.
///
/// An index that is returned is that of a frame that holds `x`. In a row
/// whose frames stand in order without overlap, a frame that holds `x` is
/// found if there is one.
pub fn find_frame(level: &Level, x: usize) -> (r: Option<usize>)
    ensures
        r matches Some(i) ==> i < level@.len() && covers(level@[i as int], x as nat),
        r is None && in_order(level@) ==> forall|i: int|
            0 <= i < level@.len() ==> !covers(#[trigger] level@[i], x as nat),
{
    let place = frame_place(level, x);
    if place > 0 {
        let f = &level.frames[place - 1];
        assert(level@[place - 1] == f@);
        if f.x as u128 + f.count as u128 > x as u128 {
            return Some(place - 1);
        }
    }
    None
}

/// Placing a node leaves the number of rows and the rows above the node
/// as they are, and appends the node to its own row.
pub proof fn lemma_place_node_rows(
    n: NodeView,
    title: Seq<char>,
    x: nat,
    level: nat,
    rows: Seq<Seq<PlacedView>>,
)
    ensures
        place_node(n, title, x, level, rows).len() == rows.len(),
        forall|r: int| 0 <= r < level && r < rows.len() ==> #[trigger] place_node(n, title, x, level, rows)[r] == rows[r],
        level < rows.len() ==> place_node(n, title, x, level, rows)[level as int] == rows[level as int].push(
            placed(n, title, x),
        ),
    decreases n, 1nat,
{
    let pushed = if level < rows.len() {
        rows.update(level as int, rows[level as int].push(placed(n, title, x)))
    } else {
        rows
    };
    lemma_place_children_rows(n.children, x + n.self_count, level + 1, pushed);
    let result = place_node(n, title, x, level, rows);
    assert forall|r: int| 0 <= r < level && r < rows.len() implies #[trigger] result[r] == rows[r] by {
        assert(result[r] == pushed[r]);
    }
    if level < rows.len() {
        assert(result[level as int] == pushed[level as int]);
    }
}

/// Placing children leaves the number of rows and the rows above the
/// children as they are.
pub proof fn lemma_place_children_rows(
    children: Seq<ChildView>,
    x: nat,
    level: nat,
    rows: Seq<Seq<PlacedView>>,
)
    ensures
        place_children(children, x, level, rows).len() == rows.len(),
        forall|r: int| 0 <= r < level && r < rows.len() ==> #[trigger] place_children(children, x, level, rows)[r] == rows[r],
    decreases children, 0nat,
{
    if children.len() > 0 {
        let first = place_node(children[0].node, children[0].id.name, x, level, rows);
        lemma_place_node_rows(children[0].node, children[0].id.name, x, level, rows);
        lemma_place_children_rows(children.skip(1), x + children[0].node.total_count, level, first);
        let result = place_children(children, x, level, rows);
        assert forall|r: int| 0 <= r < level && r < rows.len() implies #[trigger] result[r] == rows[r] by {
            assert(result[r] == first[r]);
            assert(first[r] == rows[r]);
        }
    }
}

/// Whether the frames of a row stand in order without overlap and end at
/// or before `x`.
pub open spec fn ends_by(row: Seq<PlacedView>, x: nat) -> bool {
    &&& in_order(row)
    &&& forall|i: int| 0 <= i < row.len() ==> (#[trigger] row[i]).x + row[i].count <= x
}

/// Whether the rows from `level` down stand in order and end at or before
/// `x`.
pub open spec fn rows_end_by(rows: Seq<Seq<PlacedView>>, level: nat, x: nat) -> bool {
    forall|r: int| level <= r < rows.len() ==> ends_by(#[trigger] rows[r], x)
}

/// Placing a well-formed node at or after the end of the rows from its
/// level down keeps these rows in order, and they end at or before the
/// end of the node.
pub proof fn lemma_place_node_order(
    n: NodeView,
    title: Seq<char>,
    x: nat,
    level: nat,
    rows: Seq<Seq<PlacedView>>,
)
    requires
        well_formed(n),
        rows_end_by(rows, level, x),
    ensures
        rows_end_by(place_node(n, title, x, level, rows), level, x + n.total_count),
    decreases n, 1nat,
{
    let pushed = if level < rows.len() {
        rows.update(level as int, rows[level as int].push(placed(n, title, x)))
    } else {
        rows
    };
    let result = place_node(n, title, x, level, rows);
    assert(rows_end_by(pushed, level + 1, x + n.self_count)) by {
        assert forall|r: int| level + 1 <= r < pushed.len() implies ends_by(
            #[trigger] pushed[r],
            x + n.self_count,
        ) by {
            assert(pushed[r] == rows[r]);
            assert(ends_by(rows[r], x));
        }
    }
    assert forall|i: int| 0 <= i < n.children.len() implies well_formed(
        (#[trigger] n.children[i]).node,
    ) by {}
    lemma_place_children_order(n.children, x + n.self_count, level + 1, pushed);
    lemma_place_children_rows(n.children, x + n.self_count, level + 1, pushed);
    assert forall|r: int| level <= r < result.len() implies ends_by(
        #[trigger] result[r],
        x + n.total_count,
    ) by {
        if r == level {
            let row = rows[level as int];
            let own = row.push(placed(n, title, x));
            assert(result[r] == own);
            assert(ends_by(row, x));
            assert forall|i: int, j: int| 0 <= i < j < own.len() implies (#[trigger] own[i]).x
                + own[i].count <= (#[trigger] own[j]).x by {
                if j == row.len() {
                    assert(own[i] == row[i]);
                } else {
                    assert(own[i] == row[i]);
                    assert(own[j] == row[j]);
                }
            }
            assert forall|i: int| 0 <= i < own.len() implies (#[trigger] own[i]).x + own[i].count
                <= x + n.total_count by {
                if i < row.len() {
                    assert(own[i] == row[i]);
                }
            }
        } else {
            assert(ends_by(result[r], x + n.self_count + children_total(n.children)));
        }
    }
}

/// Placing well-formed children side by side at or after the end of the
/// rows from their level down keeps these rows in order, and they end at
/// or before the end of the last child.
pub proof fn lemma_place_children_order(
    children: Seq<ChildView>,
    x: nat,
    level: nat,
    rows: Seq<Seq<PlacedView>>,
)
    requires
        forall|i: int| 0 <= i < children.len() ==> well_formed((#[trigger] children[i]).node),
        rows_end_by(rows, level, x),
    ensures
        rows_end_by(place_children(children, x, level, rows), level, x + children_total(children)),
    decreases children, 0nat,
{
    if children.len() > 0 {
        let first = place_node(children[0].node, children[0].id.name, x, level, rows);
        lemma_place_node_order(children[0].node, children[0].id.name, x, level, rows);
        let rest = children.skip(1);
        assert forall|i: int| 0 <= i < rest.len() implies well_formed((#[trigger] rest[i]).node) by {
            assert(rest[i] == children[i + 1]);
        }
        lemma_place_children_order(rest, x + children[0].node.total_count, level, first);
        lemma_children_total_first(children);
    }
}

/// The layout of a well-formed tree: as many rows as the depth and one,
/// the root alone in the first, and in every row the frames in order
/// without overlap, none beyond the width of the root.
pub proof fn lemma_layout(root: NodeView, depth: nat)
    requires
        well_formed(root),
    ensures
        layout_of(root, depth).len() == depth + 1,
        layout_of(root, depth)[0] == seq![placed(root, "all"@, 0)],
        forall|r: int| 0 <= r <= depth ==> ends_by(#[trigger] layout_of(root, depth)[r], root.total_count),
{
    let rows = empty_rows(depth + 1);
    lemma_place_node_rows(root, "all"@, 0, 0, rows);
    lemma_place_node_order(root, "all"@, 0, 0, rows);
    assert(rows[0].push(placed(root, "all"@, 0)) =~= seq![placed(root, "all"@, 0)]);
}

} // verus!
