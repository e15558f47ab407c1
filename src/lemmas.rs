use vstd::prelude::*;
use crate::node::{Node, parent_view};
use crate::render::{child_lines, children_below, Line};
use crate::tree::{adopted, node_wf, single_parent, size_total, sorted_by, Tree};

verus! {

/// Every child is one level deeper than its parent.
pub open spec fn depths_consistent(nodes: Seq<Node>) -> bool {
    forall|i: int, k: int|
        0 <= i < nodes.len() && 0 <= k < nodes[i].children@.len()
            ==> nodes[#[trigger] nodes[i].children@[k] as int].depth == nodes[i].depth + 1
}

/// The node at `m` is the child of a later node whose path is its parent path.
pub open spec fn has_parent_node(nodes: Seq<Node>, m: int) -> bool {
    exists|i: int, k: int|
        m < i < nodes.len() && 0 <= k < nodes[i].children@.len()
            && #[trigger] nodes[i].children@[k] == m
            && parent_view(nodes[m].path_spec()) == nodes[i].path_spec()
}

/// In an assembled tree the root is the one node of depth zero, every child lives
/// directly under its parent's path, and every node but the root is the child of a
/// node of the tree whose path is its parent path, and of that node alone.
pub proof fn lemma_single_root(t: &Tree)
    requires
        t.wf(),
    ensures
        t.nodes@[t.root_index()].depth == 0,
        forall|i: int| 0 <= i < t.nodes@.len() && i != t.root_index() ==> (#[trigger] t.nodes@[i]).depth >= 1,
        forall|i: int, k: int|
            0 <= i < t.nodes@.len() && 0 <= k < t.nodes@[i].children@.len() ==> {
                &&& (#[trigger] t.nodes@[i].children@[k]) < i
                &&& parent_view(t.nodes@[t.nodes@[i].children@[k] as int].path_spec()) == t.nodes@[i].path_spec()
            },
        forall|m: int| 0 <= m < t.root_index() ==> #[trigger] has_parent_node(t.nodes@, m),
        single_parent(t.nodes@),
{
    assert forall|i: int, k: int|
        0 <= i < t.nodes@.len() && 0 <= k < t.nodes@[i].children@.len() implies {
            &&& (#[trigger] t.nodes@[i].children@[k]) < i
            &&& parent_view(t.nodes@[t.nodes@[i].children@[k] as int].path_spec()) == t.nodes@[i].path_spec()
        } by {
        assert(node_wf(t.nodes@, t.order, i));
    }
    assert forall|m: int| 0 <= m < t.root_index() implies #[trigger] has_parent_node(t.nodes@, m) by {
        assert(adopted(t.nodes@, m));
        let (i, k) = choose|i: int, k: int|
            m < i < t.nodes@.len() && 0 <= k < t.nodes@[i].children@.len()
                && #[trigger] t.nodes@[i].children@[k] == m;
        assert(node_wf(t.nodes@, t.order, i));
        assert(parent_view(t.nodes@[m].path_spec()) == t.nodes@[i].path_spec());
    }
}

/// In an assembled tree a node whose children's sizes total more than zero has that
/// total as its size.
pub proof fn lemma_directory_size(t: &Tree, i: int)
    requires
        t.wf(),
        0 <= i < t.nodes@.len(),
    ensures
        size_total(t.nodes@, t.nodes@[i].children@) > 0
            ==> t.nodes@[i].file_size == Some(size_total(t.nodes@, t.nodes@[i].children@) as u64),
{
    assert(node_wf(t.nodes@, t.order, i));
}

/// In an assembled tree the children of every node are in the tree's order, each
/// list judged by its own members alone.
pub proof fn lemma_sorted_levels(t: &Tree)
    requires
        t.wf(),
    ensures
        forall|i: int| 0 <= i < t.nodes@.len() ==> sorted_by(t.nodes@, t.order, #[trigger] t.nodes@[i].children@),
{
    assert forall|i: int| 0 <= i < t.nodes@.len() implies sorted_by(t.nodes@, t.order, #[trigger] t.nodes@[i].children@) by {
        assert(node_wf(t.nodes@, t.order, i));
    }
}

proof fn lemma_child_lines_depth(nodes: Seq<Node>, i: int, k: int, base: Seq<char>, limit: nat)
    requires
        children_below(nodes),
        depths_consistent(nodes),
        0 <= i < nodes.len(),
        nodes[i].depth < limit,
    ensures
        forall|m: int| 0 <= m < child_lines(nodes, i, k, base, limit).len()
            ==> nodes[(#[trigger] child_lines(nodes, i, k, base, limit)[m]).0 as int].depth <= limit,
    decreases i, nodes[i].children@.len() - k,
{
    let ls = child_lines(nodes, i, k, base, limit);
    if k >= 0 && k < nodes[i].children@.len() {
        let cs = nodes[i].children@;
        let c = cs[k];
        let last = k + 1 == cs.len();
        assert(c < i);
        let nb = base + if last { crate::render::SEP@ } else { crate::render::VT@ };
        let here: Seq<Line> = seq![(c, base + if last { crate::render::UPRT@ } else { crate::render::VTRT@ })];
        let below = if nodes[c as int].is_dir && nodes[c as int].depth < limit && c < i {
            child_lines(nodes, c as int, 0, nb, limit)
        } else {
            Seq::empty()
        };
        let rest = child_lines(nodes, i, k + 1, base, limit);
        assert(ls == here + below + rest);
        if nodes[c as int].is_dir && nodes[c as int].depth < limit {
            lemma_child_lines_depth(nodes, c as int, 0, nb, limit);
        }
        lemma_child_lines_depth(nodes, i, k + 1, base, limit);
        assert forall|m: int| 0 <= m < ls.len() implies nodes[(#[trigger] ls[m]).0 as int].depth <= limit by {
            if m == 0 {
                assert(ls[m] == here[0]);
            } else if m < 1 + below.len() {
                assert(ls[m] == below[m - 1]);
            } else {
                assert(ls[m] == rest[m - 1 - below.len()]);
            }
        }
    }
}

/// With a depth limit of at least one, and each child one level below its parent,
/// no rendered line shows a node deeper than the limit.
pub proof fn lemma_depth_limit(t: &Tree, d: usize)
    requires
        t.wf(),
        t.max_depth == Some(d),
        d >= 1,
        depths_consistent(t.nodes@),
    ensures
        forall|m: int| 0 <= m < t.lines().len() ==> t.nodes@[(#[trigger] t.lines()[m]).0 as int].depth <= d,
{
    assert forall|i: int, k: int|
        0 <= i < t.nodes@.len() && 0 <= k < t.nodes@[i].children@.len()
            implies #[trigger] t.nodes@[i].children@[k] < i by {
        assert(node_wf(t.nodes@, t.order, i));
    }
    let r = t.root_index();
    let ls = t.lines();
    let cl = child_lines(t.nodes@, r, 0, Seq::empty(), d as nat);
    lemma_child_lines_depth(t.nodes@, r, 0, Seq::empty(), d as nat);
    assert forall|m: int| 0 <= m < ls.len() implies t.nodes@[(#[trigger] ls[m]).0 as int].depth <= d by {
        if m > 0 {
            assert(ls[m] == cl[m - 1]);
        } else {
            assert(ls[m].0 as int == r);
        }
    }
}

/// Rendering depends on the tree alone: two trees with the same nodes and depth limit
/// render to the same text.
pub proof fn lemma_render_deterministic(a: &Tree, b: &Tree)
    requires
        a.nodes@ == b.nodes@,
        a.max_depth == b.max_depth,
    ensures
        a.rendered() == b.rendered(),
{
}

} // verus!
