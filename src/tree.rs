use vstd::prelude::*;
use crate::aggregate::{Branch, filed_record, files_under, lemma_under_member, no_key, under, aggregate, aggregate_error, branches_wf, find_branch, is_root, last_root, pending};
use crate::error::TreeError;
use crate::render::{render_lines, tree_lines, lines_text};
use crate::node::{Node, parent_view, path_view};
use crate::order::{Order, bytes_lt, lemma_lex_irreflexive, lemma_lex_total, lemma_lex_transitive, lex_lt};

verus! {

/// Adds two sizes, stopping at the largest `u64`.
pub open spec fn sat_add(a: nat, b: nat) -> nat {
    if a + b > u64::MAX {
        u64::MAX as nat
    } else {
        a + b
    }
}

/// The total size of the nodes at indices `cs`, saturating at the largest `u64`.
pub open spec fn size_total(nodes: Seq<Node>, cs: Seq<usize>) -> nat
    decreases cs.len(),
{
    if cs.len() == 0 {
        0
    } else {
        sat_add(size_total(nodes, cs.drop_last()), nodes[cs.last() as int].size_spec())
    }
}

/// Whether the node at `x` is placed before the node at `y` among siblings. Ties keep
/// the order of arrival, which is the order of the arena indices.
pub open spec fn ranks_before(nodes: Seq<Node>, order: Order, x: usize, y: usize) -> bool {
    match order {
        Order::Name => lex_lt(nodes[x as int].name_bytes(), nodes[y as int].name_bytes()) || (
        nodes[x as int].name_bytes() == nodes[y as int].name_bytes() && x < y),
        Order::Size => nodes[x as int].size_spec() > nodes[y as int].size_spec() || (
        nodes[x as int].size_spec() == nodes[y as int].size_spec() && x < y),
        Order::Unsorted => x < y,
    }
}

/// A sibling list is in the order that `order` asks for.
pub open spec fn sorted_by(nodes: Seq<Node>, order: Order, cs: Seq<usize>) -> bool {
    forall|a: int, b: int| 0 <= a < b < cs.len() ==> ranks_before(nodes, order, #[trigger] cs[a], #[trigger] cs[b])
}

/// The node at `i` is assembled: each child sits earlier in the arena and lives
/// directly under this node's path, the node's size is the total of its children's
/// sizes where that total is positive, and the children are sorted.
pub open spec fn node_wf(nodes: Seq<Node>, order: Order, i: int) -> bool {
    let cs = nodes[i].children@;
    &&& forall|k: int|
        0 <= k < cs.len() ==> {
            &&& (#[trigger] cs[k]) < i
            &&& nodes[cs[k] as int].depth >= 1
            &&& nodes[cs[k] as int].path@.len() >= 1
            &&& parent_view(nodes[cs[k] as int].path_spec()) == nodes[i].path_spec()
        }
    &&& size_total(nodes, cs) > 0 ==> nodes[i].file_size == Some(size_total(nodes, cs) as u64)
    &&& sorted_by(nodes, order, cs)
}

/// Every node of the arena is assembled.
pub open spec fn arena_wf(nodes: Seq<Node>, order: Order) -> bool {
    forall|i: int| 0 <= i < nodes.len() ==> #[trigger] node_wf(nodes, order, i)
}

/// The node at `c` stands for the record `e`: same path, depth and kind, and, where
/// its children's sizes total zero (always so for a file), the record's size.
pub open spec fn stands_for(nodes: Seq<Node>, c: int, e: Node) -> bool {
    &&& nodes[c].path_spec() == e.path_spec()
    &&& nodes[c].depth == e.depth
    &&& nodes[c].is_dir == e.is_dir
    &&& size_total(nodes, nodes[c].children@) == 0 ==> nodes[c].file_size == e.file_size
}

/// Some child of the node at `i` stands for the same entry as `n`.
pub open spec fn has_child_like(nodes: Seq<Node>, i: int, n: Node) -> bool {
    exists|k: int|
        0 <= k < nodes[i].children@.len() && stands_for(nodes, #[trigger] nodes[i].children@[k] as int, n)
}

/// Some node of the arena from index `lo` on has path `p` and a child that stands for
/// the same entry as `n`.
pub open spec fn placed(nodes: Seq<Node>, lo: int, p: Seq<Seq<char>>, n: Node) -> bool {
    exists|i: int| 0 <= lo <= i < nodes.len() && nodes[i].path_spec() == p && #[trigger] has_child_like(nodes, i, n)
}

/// The nodes at `x` and `y` tie under `order`: neither key goes first.
pub open spec fn same_rank(nodes: Seq<Node>, order: Order, x: usize, y: usize) -> bool {
    match order {
        Order::Name => nodes[x as int].name_bytes() == nodes[y as int].name_bytes(),
        Order::Size => nodes[x as int].size_spec() == nodes[y as int].size_spec(),
        Order::Unsorted => true,
    }
}

/// `arr` gives, for each record of `kids` in arrival order, the child of node `i` that
/// stands for it: every child stands for exactly one record, and children that tie
/// under `order` keep the records' arrival order.
#[verifier::opaque]
pub open spec fn arrival_of(nodes: Seq<Node>, order: Order, i: int, kids: Seq<Node>, arr: Seq<usize>) -> bool {
    let cs = nodes[i].children@;
    &&& arr.len() == kids.len()
    &&& cs.len() == kids.len()
    &&& arr.no_duplicates()
    &&& forall|m: int| 0 <= m < arr.len() ==> stands_for(nodes, #[trigger] arr[m] as int, kids[m]) && cs.contains(arr[m])
    &&& forall|k: int| 0 <= k < cs.len() ==> arr.contains(#[trigger] cs[k])
    &&& forall|m1: int, m2: int, k1: int, k2: int|
        0 <= m1 < m2 < arr.len() && 0 <= k1 < cs.len() && 0 <= k2 < cs.len() && #[trigger] cs[k1] == #[trigger] arr[m1]
            && #[trigger] cs[k2] == #[trigger] arr[m2] && same_rank(nodes, order, arr[m1], arr[m2]) ==> k1 < k2
}

/// The children of node `i` are exactly the records `kids`, one child each, with ties
/// under `order` kept in arrival order.
pub open spec fn holds_exactly(nodes: Seq<Node>, order: Order, i: int, kids: Seq<Node>) -> bool {
    exists|arr: Seq<usize>| arrival_of(nodes, order, i, kids, arr)
}

/// Some node from index `lo` on has path `p` and holds exactly the records `kids`.
pub open spec fn drained_in(nodes: Seq<Node>, order: Order, lo: int, p: Seq<Seq<char>>, kids: Seq<Node>) -> bool {
    exists|i: int| 0 <= lo <= i < nodes.len() && nodes[i].path_spec() == p && #[trigger] holds_exactly(nodes, order, i, kids)
}

proof fn lemma_holds_extends(a: Seq<Node>, b: Seq<Node>, order: Order)
    requires
        extends(a, b),
        arena_wf(a, order),
    ensures
        forall|i: int, kids: Seq<Node>| 0 <= i < a.len() && holds_exactly(a, order, i, kids) ==> #[trigger] holds_exactly(b, order, i, kids),
        forall|lo: int, p: Seq<Seq<char>>, kids: Seq<Node>| drained_in(a, order, lo, p, kids) ==> #[trigger] drained_in(b, order, lo, p, kids),
{
    lemma_stands_for_extends(a, b, order);
    assert forall|i: int, kids: Seq<Node>| 0 <= i < a.len() && holds_exactly(a, order, i, kids) implies #[trigger] holds_exactly(b, order, i, kids) by {
        let arr = choose|arr: Seq<usize>| arrival_of(a, order, i, kids, arr);
        reveal(arrival_of);
        assert(node_wf(a, order, i));
        assert(b[i] == a[i]);
        let cs = a[i].children@;
        assert forall|m: int| 0 <= m < arr.len() implies (#[trigger] arr[m]) < a.len() by {
            assert(cs.contains(arr[m]));
        }
        assert forall|m1: int, m2: int| 0 <= m1 < arr.len() && 0 <= m2 < arr.len()
            implies same_rank(b, order, #[trigger] arr[m1], #[trigger] arr[m2]) == same_rank(a, order, arr[m1], arr[m2]) by {
            assert(b[arr[m1] as int] == a[arr[m1] as int]);
            assert(b[arr[m2] as int] == a[arr[m2] as int]);
        }
        assert(arrival_of(b, order, i, kids, arr));
    }
    assert forall|lo: int, p: Seq<Seq<char>>, kids: Seq<Node>| drained_in(a, order, lo, p, kids) implies #[trigger] drained_in(b, order, lo, p, kids) by {
        let i = choose|i: int| 0 <= lo <= i < a.len() && a[i].path_spec() == p && #[trigger] holds_exactly(a, order, i, kids);
        assert(holds_exactly(b, order, i, kids));
    }
}

proof fn lemma_arrival(a: Seq<Node>, b: Seq<Node>, order: Order, i: int, kids: Seq<Node>, cs: Seq<usize>)
    requires
        extends(a, b),
        arena_wf(a, order),
        i == a.len(),
        i < b.len(),
        node_wf(b, order, i),
        cs.len() == kids.len(),
        b[i].children@.len() == cs.len(),
        forall|x: usize| b[i].children@.contains(x) <==> cs.contains(x),
        forall|k: int| 0 <= k < cs.len() ==> (#[trigger] cs[k]) < a.len(),
        forall|x: int, y: int| 0 <= x < y < cs.len() ==> #[trigger] cs[x] < #[trigger] cs[y],
        forall|m: int| 0 <= m < cs.len() ==> stands_for(a, #[trigger] cs[m] as int, kids[m]),
    ensures
        arrival_of(b, order, i, kids, cs),
{
    reveal(arrival_of);
    lemma_stands_for_extends(a, b, order);
    let ss = b[i].children@;
    assert forall|m: int| 0 <= m < cs.len() implies stands_for(b, #[trigger] cs[m] as int, kids[m]) && ss.contains(cs[m]) by {
        assert(stands_for(a, cs[m] as int, kids[m]));
        assert(cs.contains(cs[m]));
    }
    assert forall|k: int| 0 <= k < ss.len() implies cs.contains(#[trigger] ss[k]) by {
        assert(ss.contains(ss[k]));
    }
    assert forall|m1: int, m2: int, k1: int, k2: int|
        0 <= m1 < m2 < cs.len() && 0 <= k1 < ss.len() && 0 <= k2 < ss.len() && #[trigger] ss[k1] == #[trigger] cs[m1]
            && #[trigger] ss[k2] == #[trigger] cs[m2] && same_rank(b, order, cs[m1], cs[m2]) implies k1 < k2 by {
        assert(cs[m1] < cs[m2]);
        if k2 < k1 {
            assert(ranks_before(b, order, ss[k2], ss[k1]));
            lemma_lex_irreflexive(b[cs[m2] as int].name_bytes());
        } else if k1 == k2 {
            assert(cs[m1] == cs[m2]);
        }
    }
}

/// The node at `m` stands for some non-root record of `es`.
pub open spec fn stands_for_record(nodes: Seq<Node>, m: int, es: Seq<Node>) -> bool {
    exists|r: int| 0 <= r < es.len() && !is_root(#[trigger] es[r]) && stands_for(nodes, m, es[r])
}

/// The node at `i` is a leaf, or holds exactly the records of a branch kept for its
/// path in `bs`.
pub open spec fn exact_or_leaf(nodes: Seq<Node>, order: Order, i: int, bs: Seq<Branch>) -> bool {
    nodes[i].children@.len() == 0 || exists|j: int|
        0 <= j < bs.len() && path_view((#[trigger] bs[j]).path@) == nodes[i].path_spec()
            && holds_exactly(nodes, order, i, bs[j].children@)
}

proof fn lemma_exact_extend(
    a: Seq<Node>,
    b: Seq<Node>,
    order: Order,
    lo: int,
    p: Seq<Branch>,
    q: Seq<Branch>,
    r: Seq<Branch>,
)
    requires
        extends(a, b),
        arena_wf(a, order),
        0 <= lo <= a.len(),
        forall|i: int| lo <= i < a.len() ==> #[trigger] exact_or_leaf(a, order, i, p),
        forall|i: int| a.len() <= i < b.len() ==> #[trigger] exact_or_leaf(b, order, i, q),
        forall|x: Branch| p.contains(x) ==> r.contains(x),
        forall|x: Branch| q.contains(x) ==> r.contains(x),
    ensures
        forall|i: int| lo <= i < b.len() ==> #[trigger] exact_or_leaf(b, order, i, r),
{
    lemma_holds_extends(a, b, order);
    assert forall|i: int| lo <= i < b.len() implies #[trigger] exact_or_leaf(b, order, i, r) by {
        let (src, s) = if i < a.len() { (a, p) } else { (b, q) };
        if i < a.len() {
            assert(exact_or_leaf(a, order, i, p));
            assert(b[i] == a[i]);
        } else {
            assert(exact_or_leaf(b, order, i, q));
        }
        if s.len() > 0 && src[i].children@.len() > 0 {
            let j = choose|j: int|
                0 <= j < s.len() && path_view((#[trigger] s[j]).path@) == src[i].path_spec()
                    && holds_exactly(src, order, i, s[j].children@);
            assert(s.contains(s[j]));
            assert(r.contains(s[j]));
            let k = choose|k: int| 0 <= k < r.len() && r[k] == s[j];
            assert(holds_exactly(b, order, i, r[k].children@));
        }
    }
}

/// `b` extends `a`: the nodes of `a` stand unchanged at the front of `b`.
pub open spec fn extends(a: Seq<Node>, b: Seq<Node>) -> bool {
    a.len() <= b.len() && forall|i: int| 0 <= i < a.len() ==> #[trigger] b[i] == a[i]
}

/// The node at `m` is a child of some node after it in the arena.
pub open spec fn adopted(nodes: Seq<Node>, m: int) -> bool {
    exists|i: int, k: int|
        m < i < nodes.len() && 0 <= k < nodes[i].children@.len() && #[trigger] nodes[i].children@[k] == m
}

/// No arena index is listed as a child twice, within one node or across two.
pub open spec fn single_parent(nodes: Seq<Node>) -> bool {
    forall|i1: int, k1: int, i2: int, k2: int|
        0 <= i1 < nodes.len() && 0 <= i2 < nodes.len() && 0 <= k1 < nodes[i1].children@.len()
            && 0 <= k2 < nodes[i2].children@.len()
            && #[trigger] nodes[i1].children@[k1] == #[trigger] nodes[i2].children@[k2]
            ==> i1 == i2 && k1 == k2
}

/// Some node lists `x` as a child.
pub open spec fn is_child(nodes: Seq<Node>, x: int) -> bool {
    exists|i: int, k: int|
        0 <= i < nodes.len() && 0 <= k < nodes[i].children@.len() && #[trigger] nodes[i].children@[k] == x
}

proof fn lemma_adopted_extends(a: Seq<Node>, b: Seq<Node>)
    requires
        extends(a, b),
    ensures
        forall|m: int| adopted(a, m) ==> #[trigger] adopted(b, m),
{
    assert forall|m: int| adopted(a, m) implies #[trigger] adopted(b, m) by {
        let (i, k) = choose|i: int, k: int|
            m < i < a.len() && 0 <= k < a[i].children@.len() && #[trigger] a[i].children@[k] == m;
        assert(b[i] == a[i]);
        assert(b[i].children@[k] == m);
    }
}

proof fn lemma_stands_for_extends(a: Seq<Node>, b: Seq<Node>, order: Order)
    requires
        extends(a, b),
        arena_wf(a, order),
    ensures
        forall|c: int, e: Node| 0 <= c < a.len() && stands_for(a, c, e) ==> #[trigger] stands_for(b, c, e),
{
    assert forall|c: int, e: Node| 0 <= c < a.len() && stands_for(a, c, e) implies #[trigger] stands_for(b, c, e) by {
        assert(node_wf(a, order, c));
        assert(b[c] == a[c]);
        let cs = a[c].children@;
        assert forall|k: int| 0 <= k < cs.len() implies (#[trigger] cs[k]) < a.len() by {}
        lemma_size_total_extends(a, b, cs);
    }
}

proof fn lemma_placed_extends(a: Seq<Node>, b: Seq<Node>, order: Order)
    requires
        extends(a, b),
        arena_wf(a, order),
    ensures
        forall|lo: int, p: Seq<Seq<char>>, n: Node| placed(a, lo, p, n) ==> #[trigger] placed(b, lo, p, n),
{
    assert forall|lo: int, p: Seq<Seq<char>>, n: Node| placed(a, lo, p, n) implies #[trigger] placed(b, lo, p, n) by {
        let i = choose|i: int| 0 <= lo <= i < a.len() && a[i].path_spec() == p && #[trigger] has_child_like(a, i, n);
        let k = choose|k: int|
            0 <= k < a[i].children@.len() && stands_for(a, #[trigger] a[i].children@[k] as int, n);
        assert(node_wf(a, order, i));
        assert(b[i] == a[i]);
        lemma_stands_for_extends(a, b, order);
        assert(stands_for(b, a[i].children@[k] as int, n));
        assert(has_child_like(b, i, n));
    }
}

proof fn lemma_no_key_subset(a: Seq<Branch>, b: Seq<Branch>, p: Seq<Seq<char>>)
    requires
        no_key(a, p),
        forall|x: Branch| b.contains(x) ==> a.contains(x),
    ensures
        no_key(b, p),
{
    assert forall|j: int| 0 <= j < b.len() implies path_view((#[trigger] b[j]).path@) != p by {
        assert(b.contains(b[j]));
        let q = choose|q: int| 0 <= q < a.len() && a[q] == b[j];
    }
}

proof fn lemma_size_total_extends(a: Seq<Node>, b: Seq<Node>, cs: Seq<usize>)
    requires
        extends(a, b),
        forall|k: int| 0 <= k < cs.len() ==> (#[trigger] cs[k]) < a.len(),
    ensures
        size_total(a, cs) == size_total(b, cs),
    decreases cs.len(),
{
    if cs.len() > 0 {
        lemma_size_total_extends(a, b, cs.drop_last());
        assert(b[cs.last() as int] == a[cs.last() as int]);
    }
}

proof fn lemma_arena_extends(a: Seq<Node>, b: Seq<Node>, order: Order)
    requires
        extends(a, b),
        arena_wf(a, order),
    ensures
        forall|i: int| 0 <= i < a.len() ==> #[trigger] node_wf(b, order, i),
{
    assert forall|i: int| 0 <= i < a.len() implies #[trigger] node_wf(b, order, i) by {
        assert(node_wf(a, order, i));
        let cs = a[i].children@;
        assert(b[i] == a[i]);
        assert forall|k: int| 0 <= k < cs.len() implies (#[trigger] cs[k]) < a.len() by {}
        lemma_size_total_extends(a, b, cs);
        assert forall|k: int| 0 <= k < cs.len() implies b[cs[k] as int] == a[cs[k] as int] by {}
        assert forall|x: int, y: int| 0 <= x < y < cs.len() implies ranks_before(b, order, #[trigger] cs[x], #[trigger] cs[y]) by {
            assert(ranks_before(a, order, cs[x], cs[y]));
            assert(b[cs[x] as int] == a[cs[x] as int]);
            assert(b[cs[y] as int] == a[cs[y] as int]);
        }
    }
}

/// Sibling rank is a strict total order on arena indices.
proof fn lemma_ranks_order(nodes: Seq<Node>, order: Order)
    ensures
        forall|x: usize| !ranks_before(nodes, order, x, x),
        forall|x: usize, y: usize|
            x != y ==> ranks_before(nodes, order, x, y) || ranks_before(nodes, order, y, x),
        forall|x: usize, y: usize, z: usize|
            ranks_before(nodes, order, x, y) && ranks_before(nodes, order, y, z) ==> ranks_before(nodes, order, x, z),
{
    if order is Name {
        assert forall|x: usize| !ranks_before(nodes, order, x, x) by {
            lemma_lex_irreflexive(nodes[x as int].name_bytes());
        }
        assert forall|x: usize, y: usize|
            x != y implies ranks_before(nodes, order, x, y) || ranks_before(nodes, order, y, x) by {
            lemma_lex_total(nodes[x as int].name_bytes(), nodes[y as int].name_bytes());
        }
        assert forall|x: usize, y: usize, z: usize|
            ranks_before(nodes, order, x, y) && ranks_before(nodes, order, y, z) implies ranks_before(nodes, order, x, z) by {
            let (bx, by, bz) = (nodes[x as int].name_bytes(), nodes[y as int].name_bytes(), nodes[z as int].name_bytes());
            if lex_lt(bx, by) && lex_lt(by, bz) {
                lemma_lex_transitive(bx, by, bz);
            }
        }
    }
}

/// Whether the node at `x` goes before the node at `y` among siblings.
fn goes_before(nodes: &Vec<Node>, order: Order, x: usize, y: usize) -> (r: bool)
    requires
        x < nodes@.len(),
        y < nodes@.len(),
    ensures
        r == ranks_before(nodes@, order, x, y),
{
    match order {
        Order::Name => {
            let bx = nodes[x].name().as_bytes();
            let by = nodes[y].name().as_bytes();
            proof {
                lemma_lex_total(bx@, by@);
                lemma_lex_irreflexive(bx@);
            }
            bytes_lt(bx, by) || (!bytes_lt(by, bx) && x < y)
        },
        Order::Size => {
            let sx = nodes[x].size();
            let sy = nodes[y].size();
            sx > sy || (sx == sy && x < y)
        },
        Order::Unsorted => x < y,
    }
}

/// Stably sorts sibling indices, given in order of arrival, as `order` asks.
fn sort_children(nodes: &Vec<Node>, order: Order, cs: Vec<usize>) -> (r: Vec<usize>)
    requires
        forall|k: int| 0 <= k < cs@.len() ==> (#[trigger] cs@[k]) < nodes@.len(),
        forall|a: int, b: int| 0 <= a < b < cs@.len() ==> #[trigger] cs@[a] < #[trigger] cs@[b],
    ensures
        r@.len() == cs@.len(),
        forall|x: usize| r@.contains(x) <==> cs@.contains(x),
        forall|k: int| 0 <= k < r@.len() ==> (#[trigger] r@[k]) < nodes@.len(),
        sorted_by(nodes@, order, r@),
{
    let mut out: Vec<usize> = Vec::new();
    let mut i: usize = 0;
    while i < cs.len()
        invariant
            i <= cs@.len(),
            out@.len() == i,
            forall|x: usize| out@.contains(x) <==> cs@.subrange(0, i as int).contains(x),
            forall|k: int| 0 <= k < out@.len() ==> (#[trigger] out@[k]) < nodes@.len(),
            sorted_by(nodes@, order, out@),
            forall|k: int| 0 <= k < cs@.len() ==> (#[trigger] cs@[k]) < nodes@.len(),
            forall|a: int, b: int| 0 <= a < b < cs@.len() ==> #[trigger] cs@[a] < #[trigger] cs@[b],
        decreases cs@.len() - i,
    {
        let x = cs[i];
        assert forall|k: int| 0 <= k < out@.len() implies (#[trigger] out@[k]) < x by {
            assert(out@.contains(out@[k]));
            assert(cs@.subrange(0, i as int).contains(out@[k]));
        }
        let mut p: usize = 0;
        while p < out.len() && !goes_before(nodes, order, x, out[p])
            invariant
                p <= out@.len(),
                x < nodes@.len(),
                forall|k: int| 0 <= k < out@.len() ==> (#[trigger] out@[k]) < nodes@.len(),
                forall|k: int| 0 <= k < p ==> !ranks_before(nodes@, order, x, #[trigger] out@[k]),
            decreases out@.len() - p,
        {
            p = p + 1;
        }
        let ghost before = out@;
        out.insert(p, x);
        proof {
            lemma_ranks_order(nodes@, order);
        }
        assert(out@ =~= before.insert(p as int, x));
        assert(cs@.subrange(0, i + 1) =~= cs@.subrange(0, i as int).push(x));
        assert forall|y: usize| out@.contains(y) <==> cs@.subrange(0, i + 1).contains(y) by {
            if out@.contains(y) {
                let k = choose|k: int| 0 <= k < out@.len() && out@[k] == y;
                if k != p {
                    if k < p {
                        assert(before[k] == y);
                    } else {
                        assert(before[k - 1] == y);
                    }
                    assert(before.contains(y));
                    assert(cs@.subrange(0, i as int).contains(y));
                    let j = choose|j: int| 0 <= j < i && #[trigger] cs@.subrange(0, i as int)[j] == y;
                    assert(cs@.subrange(0, i + 1)[j] == y);
                } else {
                    assert(cs@.subrange(0, i + 1)[i as int] == y);
                }
            }
            if cs@.subrange(0, i + 1).contains(y) && y != x {
                let j = choose|j: int| 0 <= j < i + 1 && #[trigger] cs@.subrange(0, i + 1)[j] == y;
                assert(cs@.subrange(0, i as int)[j] == y);
                assert(cs@.subrange(0, i as int).contains(y));
                assert(before.contains(y));
                let k = choose|k: int| 0 <= k < before.len() && before[k] == y;
                if k < p {
                    assert(out@[k] == y);
                } else {
                    assert(out@[k + 1] == y);
                }
            }
            if y == x {
                assert(out@[p as int] == x);
            }
        }
        assert forall|a: int, b: int| 0 <= a < b < out@.len() implies ranks_before(nodes@, order, #[trigger] out@[a], #[trigger] out@[b]) by {
            if b < p {
                assert(ranks_before(nodes@, order, before[a], before[b]));
            } else if a > p {
                assert(ranks_before(nodes@, order, before[a - 1], before[b - 1]));
            } else if a < p && b > p {
                assert(ranks_before(nodes@, order, before[a], before[b - 1]));
            } else if a == p {
                // x goes before before[p], which goes before or is before[b - 1]
                assert(out@[a] == x);
                if b - 1 > p {
                    assert(ranks_before(nodes@, order, before[p as int], before[b - 1]));
                }
            } else {
                // b == p, a < p: x does not go before out[a], and x is the newest index
                assert(out@[b] == x);
                assert(!ranks_before(nodes@, order, x, before[a]));
                assert(before[a] < x);
            }
        }
        i = i + 1;
    }
    assert(cs@.subrange(0, cs@.len() as int) =~= cs@);
    out
}

/// Reverses a list of records by moving them.
fn reversed(v: Vec<Node>) -> (r: Vec<Node>)
    ensures
        r@.len() == v@.len(),
        forall|m: int| 0 <= m < v@.len() ==> #[trigger] r@[m] == v@[v@.len() - 1 - m],
{
    let ghost orig = v@;
    let mut v = v;
    let mut r: Vec<Node> = Vec::new();
    while v.len() > 0
        invariant
            v@.len() <= orig.len(),
            v@ == orig.subrange(0, v@.len() as int),
            r@.len() + v@.len() == orig.len(),
            forall|m: int| 0 <= m < r@.len() ==> #[trigger] r@[m] == orig[orig.len() - 1 - m],
        decreases v@.len(),
    {
        let ghost n = v@.len();
        assert(v@[n - 1] == orig[n - 1]);
        let x = v.pop().unwrap();
        r.push(x);
    }
    r
}

/// The total size of the nodes at indices `cs`, saturating at the largest `u64`.
fn total_size(nodes: &Vec<Node>, cs: &Vec<usize>) -> (r: u64)
    requires
        forall|k: int| 0 <= k < cs@.len() ==> (#[trigger] cs@[k]) < nodes@.len(),
    ensures
        r as nat == size_total(nodes@, cs@),
{
    let mut total: u64 = 0;
    let mut i: usize = 0;
    while i < cs.len()
        invariant
            i <= cs@.len(),
            forall|k: int| 0 <= k < cs@.len() ==> (#[trigger] cs@[k]) < nodes@.len(),
            total as nat == size_total(nodes@, cs@.subrange(0, i as int)),
        decreases cs@.len() - i,
    {
        assert(cs@.subrange(0, i + 1).drop_last() =~= cs@.subrange(0, i as int));
        total = total.saturating_add(nodes[cs[i]].size());
        i = i + 1;
    }
    assert(cs@.subrange(0, cs@.len() as int) =~= cs@);
    total
}

/// Attaches the pending children of `node`, drained from `branches`, below it in the
/// arena, depth first: each directory child is assembled before the parent's size is
/// totalled and its children sorted. Returns the arena index of `node`.
#[verifier::rlimit(100)]
#[verifier::spinoff_prover]
fn assemble(node: Node, branches: &mut Vec<Branch>, arena: &mut Vec<Node>, order: Order) -> (idx: usize)
    requires
        branches_wf(old(branches)@),
        arena_wf(old(arena)@, order),
    ensures
        branches_wf(final(branches)@),
        final(branches)@.len() <= old(branches)@.len(),
        extends(old(arena)@, final(arena)@),
        arena_wf(final(arena)@, order),
        idx == final(arena)@.len() - 1,
        idx >= old(arena)@.len(),
        final(arena)@.len() <= usize::MAX,
        forall|i: int|
            old(arena)@.len() <= i < idx && (#[trigger] final(arena)@[i]).children@.len() > 0 ==> final(arena)@[i].is_dir,
        no_key(old(branches)@, path_view(node.path@)) ==> final(arena)@[idx as int].children@.len() == 0,
        forall|j: int|
            0 <= j < old(branches)@.len() && path_view((#[trigger] old(branches)@[j]).path@) == path_view(node.path@)
                ==> final(arena)@[idx as int].children@.len() == old(branches)@[j].children@.len(),
        path_view(final(arena)@[idx as int].path@) == path_view(node.path@),
        final(arena)@[idx as int].depth == node.depth,
        final(arena)@[idx as int].is_dir == node.is_dir,
        size_total(final(arena)@, final(arena)@[idx as int].children@) == 0
            ==> final(arena)@[idx as int].file_size == node.file_size,
        forall|i: int| old(arena)@.len() <= i < idx ==> (#[trigger] final(arena)@[i]).depth >= 1,
        forall|m: int| old(arena)@.len() <= m < idx ==> #[trigger] adopted(final(arena)@, m),
        forall|j: int, m: int|
            0 <= j < old(branches)@.len() && path_view(old(branches)@[j].path@) == path_view(node.path@)
                && 0 <= m < old(branches)@[j].children@.len()
                ==> has_child_like(final(arena)@, idx as int, #[trigger] old(branches)@[j].children@[m]),
        single_parent(old(arena)@) ==> single_parent(final(arena)@),
        forall|i: int, k: int|
            old(arena)@.len() <= i < final(arena)@.len() && 0 <= k < final(arena)@[i].children@.len()
                ==> #[trigger] final(arena)@[i].children@[k] >= old(arena)@.len(),
        forall|x: Branch| final(branches)@.contains(x) ==> old(branches)@.contains(x),
        no_key(old(branches)@, path_view(node.path@)) ==> holds_exactly(final(arena)@, order, idx as int, Seq::empty()),
        forall|i: int|
            old(arena)@.len() <= i < final(arena)@.len() ==> #[trigger] exact_or_leaf(final(arena)@, order, i, old(branches)@),
        forall|j: int|
            0 <= j < old(branches)@.len() && path_view((#[trigger] old(branches)@[j]).path@) == path_view(node.path@)
                ==> holds_exactly(final(arena)@, order, idx as int, old(branches)@[j].children@),
        forall|j: int|
            0 <= j < old(branches)@.len() && !final(branches)@.contains(#[trigger] old(branches)@[j])
                ==> drained_in(final(arena)@, order, old(arena)@.len() as int, path_view(old(branches)@[j].path@),
                    old(branches)@[j].children@),
        forall|j: int, m: int|
            0 <= j < old(branches)@.len() && !final(branches)@.contains(old(branches)@[j])
                && 0 <= m < old(branches)@[j].children@.len()
                ==> placed(final(arena)@, old(arena)@.len() as int, path_view(old(branches)@[j].path@),
                    #[trigger] old(branches)@[j].children@[m]),
        forall|i: int|
            old(arena)@.len() <= i < final(arena)@.len() && ((#[trigger] final(arena)@[i]).is_dir || i == idx)
                ==> no_key(final(branches)@, final(arena)@[i].path_spec()),
    decreases old(branches)@.len(),
{
    let ghost arena0 = arena@;
    let mut node = node;
    match find_branch(branches, &node.path) {
        None => {
            node.children = Vec::new();
            arena.push(node);
            proof {
                lemma_arena_extends(arena0, arena@, order);
                assert(node_wf(arena@, order, arena0.len() as int));
                reveal(arrival_of);
                assert(arrival_of(arena@, order, arena0.len() as int, Seq::empty(), Seq::empty()));
                assert(exact_or_leaf(arena@, order, arena0.len() as int, branches@));
                assert forall|jj: int|
                    0 <= jj < branches@.len() && !branches@.contains(#[trigger] branches@[jj])
                        implies drained_in(arena@, order, arena0.len() as int, path_view(branches@[jj].path@),
                            branches@[jj].children@) by {
                    assert(branches@.contains(branches@[jj]));
                }
                assert forall|jj: int, m: int|
                    0 <= jj < branches@.len() && !branches@.contains(branches@[jj])
                        && 0 <= m < branches@[jj].children@.len()
                        implies placed(arena@, arena0.len() as int, path_view(branches@[jj].path@),
                            #[trigger] branches@[jj].children@[m]) by {
                    assert(branches@.contains(branches@[jj]));
                }
            }
            arena.len() - 1
        },
        Some(j) => {
            let ghost bs0 = branches@;
            let b = branches.remove(j);
            assert(b == bs0[j as int]);
            assert(b.wf());
            assert forall|m: int| 0 <= m < branches@.len() implies (#[trigger] branches@[m]).wf() by {
                if m < j {
                    assert(branches@[m] == bs0[m]);
                } else {
                    assert(branches@[m] == bs0[m + 1]);
                }
            }
            assert(branches@ =~= bs0.remove(j as int));
            let ghost bs1 = branches@;
            assert forall|x: Branch| bs1.contains(x) implies bs0.contains(x) by {
                let q = choose|q: int| 0 <= q < bs1.len() && bs1[q] == x;
                if q < j {
                    assert(bs0[q] == x);
                } else {
                    assert(bs0[q + 1] == x);
                }
            }
            assert forall|q: int| 0 <= q < bs1.len() implies path_view((#[trigger] bs1[q]).path@) != path_view(node.path@) by {
                if q < j {
                    assert(bs1[q] == bs0[q]);
                    assert(path_view(bs0[q].path@) != path_view(bs0[j as int].path@));
                } else {
                    assert(bs1[q] == bs0[q + 1]);
                    assert(path_view(bs0[j as int].path@) != path_view(bs0[q + 1].path@));
                }
            }
            assert forall|a: int, c: int|
                0 <= a < c < branches@.len() implies path_view((#[trigger] branches@[a]).path@) != path_view((#[trigger] branches@[c]).path@) by {
                let a0 = if a < j { a } else { a + 1 };
                let c0 = if c < j { c } else { c + 1 };
                assert(branches@[a] == bs0[a0]);
                assert(branches@[c] == bs0[c0]);
                assert(path_view(bs0[a0].path@) != path_view(bs0[c0].path@));
            }
            assert forall|jj: int| 0 <= jj < bs0.len() && path_view(bs0[jj].path@) == path_view(node.path@) implies jj == j by {
                if jj < j {
                    assert(path_view(bs0[jj].path@) != path_view(bs0[j as int].path@));
                } else if jj > j {
                    assert(path_view(bs0[j as int].path@) != path_view(bs0[jj].path@));
                }
            }
            let ghost kids = b.children@;
            let mut rev = reversed(b.children);
            let mut cs: Vec<usize> = Vec::new();
            while rev.len() > 0
                invariant
                    branches_wf(branches@),
                    branches@.len() < old(branches)@.len(),
                    arena_wf(arena@, order),
                    extends(arena0, arena@),
                    forall|i: int| arena0.len() <= i < arena@.len() ==> (#[trigger] arena@[i]).depth >= 1,
                    rev@.len() <= kids.len(),
                    forall|m: int| 0 <= m < rev@.len() ==> {
                        &&& (#[trigger] rev@[m]).depth >= 1
                        &&& rev@[m].path@.len() >= 1
                        &&& parent_view(rev@[m].path_spec()) == path_view(node.path@)
                    },
                    forall|k: int| 0 <= k < cs@.len() ==> {
                        &&& arena0.len() <= #[trigger] cs@[k] < arena@.len()
                        &&& arena@[cs@[k] as int].depth >= 1
                        &&& arena@[cs@[k] as int].path@.len() >= 1
                        &&& parent_view(arena@[cs@[k] as int].path_spec()) == path_view(node.path@)
                    },
                    forall|a: int, c: int| 0 <= a < c < cs@.len() ==> #[trigger] cs@[a] < #[trigger] cs@[c],
                    forall|m: int| arena0.len() <= m < arena@.len() ==> #[trigger] adopted(arena@, m) || cs@.contains(m as usize),
                    forall|m: int| #![trigger kids[m]] 0 <= m < kids.len() - rev@.len() ==> exists|k: int|
                        0 <= k < cs@.len() && stands_for(arena@, #[trigger] cs@[k] as int, kids[m]),
                    forall|m: int| 0 <= m < rev@.len() ==> #[trigger] rev@[m] == kids[kids.len() - 1 - m],
                    single_parent(arena0) ==> single_parent(arena@),
                    forall|x: Branch| branches@.contains(x) ==> bs1.contains(x),
                    forall|jj: int, m: int|
                        0 <= jj < bs1.len() && !branches@.contains(bs1[jj]) && 0 <= m < bs1[jj].children@.len()
                            ==> placed(arena@, arena0.len() as int, path_view(bs1[jj].path@), #[trigger] bs1[jj].children@[m]),
                    forall|i: int|
                        arena0.len() <= i < arena@.len() && (#[trigger] arena@[i]).is_dir
                            ==> no_key(branches@, arena@[i].path_spec()),
                    no_key(branches@, path_view(node.path@)),
                    cs@.len() + rev@.len() == kids.len(),
                    forall|m: int| 0 <= m < cs@.len() ==> stands_for(arena@, #[trigger] cs@[m] as int, kids[m]),
                    forall|i: int| arena0.len() <= i < arena@.len() ==> #[trigger] exact_or_leaf(arena@, order, i, bs1),
                    forall|x: Branch| bs1.contains(x) ==> bs0.contains(x),
                    forall|jj: int|
                        0 <= jj < bs1.len() && !branches@.contains(#[trigger] bs1[jj])
                            ==> drained_in(arena@, order, arena0.len() as int, path_view(bs1[jj].path@), bs1[jj].children@),
                    forall|i: int|
                        arena0.len() <= i < arena@.len() && (#[trigger] arena@[i]).children@.len() > 0 ==> arena@[i].is_dir,
                    forall|k: int| 0 <= k < cs@.len() ==> !is_child(arena@, #[trigger] cs@[k] as int),
                    forall|i: int, k: int|
                        arena0.len() <= i < arena@.len() && 0 <= k < arena@[i].children@.len()
                            ==> #[trigger] arena@[i].children@[k] >= arena0.len(),
                decreases rev@.len(),
            {
                let ghost arena1 = arena@;
                let ghost r0 = rev@;
                let ghost bsA = branches@;
                let child = rev.pop().unwrap();
                assert(child == r0[r0.len() - 1]);
                let ci: usize;
                if child.is_dir {
                    ci = assemble(child, branches, arena, order);
                } else {
                    let mut c = child;
                    c.children = Vec::new();
                    arena.push(c);
                    proof {
                        lemma_arena_extends(arena1, arena@, order);
                        assert(node_wf(arena@, order, arena1.len() as int));
                        assert(exact_or_leaf(arena@, order, arena1.len() as int, bsA));
                    }
                    ci = arena.len() - 1;
                }
                assert forall|k: int| 0 <= k < cs@.len() implies arena@[#[trigger] cs@[k] as int] == arena1[cs@[k] as int] by {}
                let ghost cs0 = cs@;
                cs.push(ci);
                proof {
                    lemma_exact_extend(arena1, arena@, order, arena0.len() as int, bs1, bsA, bs1);
                    let done = kids.len() - r0.len();
                    assert(child == kids[done]);
                    assert(stands_for(arena@, cs@[cs0.len() as int] as int, kids[done]));
                    lemma_stands_for_extends(arena1, arena@, order);
                    assert forall|m: int| #![trigger kids[m]] 0 <= m < kids.len() - rev@.len() implies exists|k: int|
                        0 <= k < cs@.len() && stands_for(arena@, #[trigger] cs@[k] as int, kids[m]) by {
                        if m < done {
                            let k = choose|k: int| 0 <= k < cs0.len() && stands_for(arena1, #[trigger] cs0[k] as int, kids[m]);
                            assert(cs@[k] == cs0[k]);
                            assert(stands_for(arena@, cs0[k] as int, kids[m]));
                        } else {
                            assert(cs@[cs0.len() as int] == ci);
                        }
                    }
                    lemma_adopted_extends(arena1, arena@);
                    lemma_placed_extends(arena1, arena@, order);
                    lemma_holds_extends(arena1, arena@, order);
                    assert forall|m: int| 0 <= m < cs@.len() implies stands_for(arena@, #[trigger] cs@[m] as int, kids[m]) by {
                        if m < cs0.len() {
                            assert(cs@[m] == cs0[m]);
                            assert(stands_for(arena1, cs0[m] as int, kids[m]));
                        }
                    }
                    assert forall|jj: int|
                        0 <= jj < bs1.len() && !branches@.contains(#[trigger] bs1[jj])
                            implies drained_in(arena@, order, arena0.len() as int, path_view(bs1[jj].path@), bs1[jj].children@) by {
                        if bsA.contains(bs1[jj]) {
                            let q = choose|q: int| 0 <= q < bsA.len() && bsA[q] == bs1[jj];
                            assert(drained_in(arena@, order, arena1.len() as int, path_view(bsA[q].path@), bsA[q].children@));
                            let w = choose|w: int| 0 <= arena1.len() <= w < arena@.len()
                                && arena@[w].path_spec() == path_view(bsA[q].path@)
                                && #[trigger] holds_exactly(arena@, order, w, bsA[q].children@);
                        } else {
                            assert(drained_in(arena1, order, arena0.len() as int, path_view(bs1[jj].path@), bs1[jj].children@));
                        }
                    }
                    assert forall|i: int|
                        arena0.len() <= i < arena@.len() && (#[trigger] arena@[i]).children@.len() > 0 implies arena@[i].is_dir by {
                        if i < arena1.len() {
                            assert(arena@[i] == arena1[i]);
                        }
                    }
                    lemma_no_key_subset(bsA, branches@, path_view(node.path@));
                    assert forall|jj: int, m: int|
                        0 <= jj < bs1.len() && !branches@.contains(bs1[jj]) && 0 <= m < bs1[jj].children@.len()
                            implies placed(arena@, arena0.len() as int, path_view(bs1[jj].path@), #[trigger] bs1[jj].children@[m]) by {
                        if bsA.contains(bs1[jj]) {
                            let q = choose|q: int| 0 <= q < bsA.len() && bsA[q] == bs1[jj];
                            assert(bsA[q].children@[m] == bs1[jj].children@[m]);
                            assert(placed(arena@, arena1.len() as int, path_view(bsA[q].path@), bsA[q].children@[m]));
                            let w = choose|w: int| 0 <= arena1.len() <= w < arena@.len()
                                && arena@[w].path_spec() == path_view(bsA[q].path@)
                                && #[trigger] has_child_like(arena@, w, bsA[q].children@[m]);
                        } else {
                            assert(placed(arena1, arena0.len() as int, path_view(bs1[jj].path@), bs1[jj].children@[m]));
                        }
                    }
                    assert forall|i: int|
                        arena0.len() <= i < arena@.len() && (#[trigger] arena@[i]).is_dir
                            implies no_key(branches@, arena@[i].path_spec()) by {
                        if i < arena1.len() {
                            assert(arena@[i] == arena1[i]);
                            lemma_no_key_subset(bsA, branches@, arena1[i].path_spec());
                        }
                    }
                    assert(node_wf(arena@, order, ci as int));
                    assert forall|k: int| 0 <= k < cs@.len() implies !is_child(arena@, #[trigger] cs@[k] as int) by {
                        if is_child(arena@, cs@[k] as int) {
                            let (i, k2) = choose|i: int, k2: int|
                                0 <= i < arena@.len() && 0 <= k2 < arena@[i].children@.len()
                                    && #[trigger] arena@[i].children@[k2] == cs@[k] as int;
                            assert(node_wf(arena@, order, i));
                            if k < cs0.len() {
                                if i < arena1.len() {
                                    assert(arena@[i] == arena1[i]);
                                    assert(is_child(arena1, cs0[k] as int));
                                }
                            }
                        }
                    }
                    assert forall|i: int, k: int|
                        arena0.len() <= i < arena@.len() && 0 <= k < arena@[i].children@.len()
                            implies #[trigger] arena@[i].children@[k] >= arena0.len() by {
                        if i < arena1.len() {
                            assert(arena@[i] == arena1[i]);
                        }
                    }
                    assert forall|m: int| arena0.len() <= m < arena@.len() implies #[trigger] adopted(arena@, m) || cs@.contains(m as usize) by {
                        if m < arena1.len() {
                            if cs0.contains(m as usize) {
                                let k = choose|k: int| 0 <= k < cs0.len() && cs0[k] == m as usize;
                                assert(cs@[k] == m as usize);
                            }
                        } else if m == ci {
                            assert(cs@[cs0.len() as int] == ci);
                        }
                    }
                }
                assert forall|m: int| 0 <= m < rev@.len() implies #[trigger] rev@[m] == r0[m] by {}
            }
            let sorted = sort_children(arena, order, cs);
            let total = total_size(arena, &sorted);
            if total > 0 {
                node.file_size = Some(total);
            }
            node.children = sorted;
            let len_before = arena.len();
            let ghost arena2 = arena@;
            arena.push(node);
            proof {
                lemma_arena_extends(arena2, arena@, order);
                let i = arena2.len() as int;
                let ss = arena@[i].children@;
                assert forall|k: int| 0 <= k < ss.len() implies (#[trigger] ss[k]) < arena2.len() by {
                    assert(ss.contains(ss[k]));
                    assert(cs@.contains(ss[k]));
                }
                lemma_size_total_extends(arena2, arena@, ss);
                assert forall|k: int| 0 <= k < ss.len() implies {
                    &&& (#[trigger] ss[k]) < i
                    &&& arena@[ss[k] as int].depth >= 1
                    &&& arena@[ss[k] as int].path@.len() >= 1
                    &&& parent_view(arena@[ss[k] as int].path_spec()) == arena@[i].path_spec()
                } by {
                    assert(ss.contains(ss[k]));
                    assert(cs@.contains(ss[k]));
                    let k2 = choose|k2: int| 0 <= k2 < cs@.len() && cs@[k2] == ss[k];
                    assert(arena@[ss[k] as int] == arena2[ss[k] as int]);
                }
                assert forall|x: int, y: int| 0 <= x < y < ss.len() implies ranks_before(arena@, order, #[trigger] ss[x], #[trigger] ss[y]) by {
                    assert(ranks_before(arena2, order, ss[x], ss[y]));
                    assert(ss.contains(ss[x]));
                    assert(ss.contains(ss[y]));
                    assert(arena@[ss[x] as int] == arena2[ss[x] as int]);
                    assert(arena@[ss[y] as int] == arena2[ss[y] as int]);
                }
                assert(node_wf(arena@, order, i));
                lemma_adopted_extends(arena2, arena@);
                assert forall|jj: int, m: int|
                    0 <= jj < bs0.len() && path_view(bs0[jj].path@) == path_view(arena@[i].path@)
                        && 0 <= m < bs0[jj].children@.len()
                        implies has_child_like(arena@, i, #[trigger] bs0[jj].children@[m]) by {
                    assert(jj == j);
                    assert(bs0[jj].children@[m] == kids[m]);
                    let k = choose|k: int| 0 <= k < cs@.len() && stands_for(arena2, #[trigger] cs@[k] as int, kids[m]);
                    assert(cs@.contains(cs@[k]));
                    assert(ss.contains(cs@[k]));
                    let k2 = choose|k2: int| 0 <= k2 < ss.len() && ss[k2] == cs@[k];
                    lemma_stands_for_extends(arena2, arena@, order);
                    assert(stands_for(arena@, cs@[k] as int, kids[m]));
                    assert(stands_for(arena@, arena@[i].children@[k2] as int, kids[m]));
                }
                assert forall|i1: int, k1: int, i2: int, k2: int|
                    0 <= i1 < arena@.len() && 0 <= i2 < arena@.len() && 0 <= k1 < arena@[i1].children@.len()
                        && 0 <= k2 < arena@[i2].children@.len()
                        && #[trigger] arena@[i1].children@[k1] == #[trigger] arena@[i2].children@[k2]
                        && single_parent(arena0)
                        implies i1 == i2 && k1 == k2 by {
                    if i1 < i && i2 < i {
                        assert(arena@[i1] == arena2[i1]);
                        assert(arena@[i2] == arena2[i2]);
                    } else if i1 == i && i2 == i {
                        lemma_ranks_order(arena2, order);
                        if k1 < k2 {
                            assert(ranks_before(arena2, order, ss[k1], ss[k2]));
                        } else if k2 < k1 {
                            assert(ranks_before(arena2, order, ss[k2], ss[k1]));
                        }
                    } else {
                        let (io, ko) = if i1 < i { (i1, k1) } else { (i2, k2) };
                        let kn = if i1 < i { k2 } else { k1 };
                        assert(arena@[io] == arena2[io]);
                        assert(ss.contains(ss[kn]));
                        assert(cs@.contains(ss[kn]));
                        let kc = choose|kc: int| 0 <= kc < cs@.len() && cs@[kc] == ss[kn];
                        assert(!is_child(arena2, cs@[kc] as int));
                        assert(arena2[io].children@[ko] == cs@[kc]);
                    }
                }
                assert forall|ii: int, k: int|
                    arena0.len() <= ii < arena@.len() && 0 <= k < arena@[ii].children@.len()
                        implies #[trigger] arena@[ii].children@[k] >= arena0.len() by {
                    if ii < i {
                        assert(arena@[ii] == arena2[ii]);
                    } else {
                        assert(ss.contains(ss[k]));
                        assert(cs@.contains(ss[k]));
                    }
                }
                lemma_placed_extends(arena2, arena@, order);
                lemma_holds_extends(arena2, arena@, order);
                lemma_stands_for_extends(arena2, arena@, order);
                assert forall|k: int| 0 <= k < cs@.len() implies (#[trigger] cs@[k]) < arena2.len() by {}
                lemma_arrival(arena2, arena@, order, i, kids, cs@);
                assert(holds_exactly(arena@, order, i, bs0[j as int].children@));
                assert(exact_or_leaf(arena@, order, i, bs0));
                lemma_exact_extend(arena2, arena@, order, arena0.len() as int, bs1, bs0, bs0);
                assert(arrival_of(arena@, order, i, kids, cs@));
                assert forall|jj: int|
                    0 <= jj < bs0.len() && path_view((#[trigger] bs0[jj]).path@) == path_view(node.path@)
                        implies holds_exactly(arena@, order, i, bs0[jj].children@) by {
                    if jj < j {
                        assert(path_view(bs0[jj].path@) != path_view(bs0[j as int].path@));
                    } else if jj > j {
                        assert(path_view(bs0[j as int].path@) != path_view(bs0[jj].path@));
                    }
                }
                assert forall|jj: int|
                    0 <= jj < bs0.len() && !branches@.contains(#[trigger] bs0[jj])
                        implies drained_in(arena@, order, arena0.len() as int, path_view(bs0[jj].path@), bs0[jj].children@) by {
                    if jj == j {
                        assert(holds_exactly(arena@, order, i, bs0[jj].children@));
                    } else {
                        let q = if jj < j { jj } else { jj - 1 };
                        assert(bs1[q] == bs0[jj]);
                        assert(drained_in(arena2, order, arena0.len() as int, path_view(bs1[q].path@), bs1[q].children@));
                    }
                }
                assert forall|jj: int, m: int|
                    0 <= jj < bs0.len() && !branches@.contains(bs0[jj]) && 0 <= m < bs0[jj].children@.len()
                        implies placed(arena@, arena0.len() as int, path_view(bs0[jj].path@), #[trigger] bs0[jj].children@[m]) by {
                    if jj == j {
                        assert(has_child_like(arena@, i, bs0[jj].children@[m]));
                    } else {
                        let q = if jj < j { jj } else { jj - 1 };
                        assert(bs1[q] == bs0[jj]);
                        assert(bs1[q].children@[m] == bs0[jj].children@[m]);
                        assert(placed(arena2, arena0.len() as int, path_view(bs1[q].path@), bs1[q].children@[m]));
                    }
                }
                assert forall|ii: int|
                    arena0.len() <= ii < i && (#[trigger] arena@[ii]).children@.len() > 0 implies arena@[ii].is_dir by {
                    assert(arena@[ii] == arena2[ii]);
                }
                assert forall|jj: int|
                    0 <= jj < bs0.len() && path_view((#[trigger] bs0[jj]).path@) == path_view(node.path@)
                        implies arena@[i].children@.len() == bs0[jj].children@.len() by {
                    if jj != j {
                        if jj < j {
                            assert(path_view(bs0[jj].path@) != path_view(bs0[j as int].path@));
                        } else {
                            assert(path_view(bs0[j as int].path@) != path_view(bs0[jj].path@));
                        }
                    }
                }
                assert forall|ii: int|
                    arena0.len() <= ii < arena@.len() && ((#[trigger] arena@[ii]).is_dir || ii == i)
                        implies no_key(branches@, arena@[ii].path_spec()) by {
                    if ii < i {
                        assert(arena@[ii] == arena2[ii]);
                    }
                }
                assert forall|m: int| arena0.len() <= m < i implies #[trigger] adopted(arena@, m) by {
                    if !adopted(arena2, m) {
                        assert(cs@.contains(m as usize));
                        assert(ss.contains(m as usize));
                        assert(m < len_before);
                        let k = choose|k: int| 0 <= k < ss.len() && ss[k] == m as usize;
                        assert(arena@[i].children@[k] == m);
                    }
                }
            }
            arena.len() - 1
        },
    }
}

/// A directory tree held in an arena: each node lists the arena indices of its
/// children, and the root is the last node.
pub struct Tree {
    pub max_depth: Option<usize>,
    pub order: Order,
    pub nodes: Vec<Node>,
}

impl Tree {
    /// The arena index of the root.
    pub open spec fn root_index(&self) -> int {
        self.nodes@.len() - 1
    }

    /// The depth below which rendering descends; no limit means the largest `usize`.
    pub open spec fn limit(&self) -> nat {
        match self.max_depth {
            Some(d) => d as nat,
            None => usize::MAX as nat,
        }
    }

    /// The tree is assembled: every node is, the root has depth zero, and every other
    /// node a positive depth.
    pub open spec fn wf(&self) -> bool {
        &&& 1 <= self.nodes@.len() <= usize::MAX
        &&& arena_wf(self.nodes@, self.order)
        &&& self.nodes@[self.root_index()].depth == 0
        &&& forall|i: int| 0 <= i < self.root_index() ==> (#[trigger] self.nodes@[i]).depth >= 1
        &&& forall|m: int| 0 <= m < self.root_index() ==> #[trigger] adopted(self.nodes@, m)
        &&& single_parent(self.nodes@)
        &&& forall|i: int|
            0 <= i < self.root_index() && (#[trigger] self.nodes@[i]).children@.len() > 0 ==> self.nodes@[i].is_dir
    }

    /// Some directory of the tree, or its root, has path `p`.
    pub open spec fn has_home(&self, p: Seq<Seq<char>>) -> bool {
        exists|i: int|
            0 <= i < self.nodes@.len() && ((#[trigger] self.nodes@[i]).is_dir || i == self.root_index())
                && self.nodes@[i].path_spec() == p
    }

    /// The lines that rendering produces, each a node and the prefix before its name.
    pub open spec fn lines(&self) -> Seq<(usize, Seq<char>)> {
        tree_lines(self.nodes@, self.root_index(), self.limit())
    }

    /// The rendered text of the tree.
    pub open spec fn rendered(&self) -> Seq<char> {
        lines_text(self.nodes@, self.lines())
    }

    /// Attaches the pending children below `root`, level by level, totalling directory
    /// sizes and sorting each directory's children as `order` asks.
    pub fn assemble_tree(root: Node, branches: Vec<Branch>, order: Order, max_depth: Option<usize>) -> (t: Tree)
        requires
            root.depth == 0,
            branches_wf(branches@),
        ensures
            t.wf(),
            t.order == order,
            t.max_depth == max_depth,
            path_view(t.nodes@[t.root_index()].path@) == path_view(root.path@),
            t.nodes@[t.root_index()].is_dir == root.is_dir,
            size_total(t.nodes@, t.nodes@[t.root_index()].children@) == 0
                ==> t.nodes@[t.root_index()].file_size == root.file_size,
            forall|j: int, m: int|
                0 <= j < branches@.len() && path_view(branches@[j].path@) == path_view(root.path@)
                    && 0 <= m < branches@[j].children@.len()
                    ==> has_child_like(t.nodes@, t.root_index(), #[trigger] branches@[j].children@[m]),
            no_key(branches@, path_view(root.path@)) ==> t.nodes@[t.root_index()].children@.len() == 0,
            no_key(branches@, path_view(root.path@)) ==> holds_exactly(t.nodes@, order, t.root_index(), Seq::empty()),
            forall|i: int| 0 <= i < t.nodes@.len() ==> #[trigger] exact_or_leaf(t.nodes@, order, i, branches@),
            forall|j: int|
                0 <= j < branches@.len() && path_view((#[trigger] branches@[j]).path@) == path_view(root.path@)
                    ==> holds_exactly(t.nodes@, order, t.root_index(), branches@[j].children@),
            forall|j: int|
                0 <= j < branches@.len() && t.has_home(path_view((#[trigger] branches@[j]).path@))
                    ==> drained_in(t.nodes@, order, 0, path_view(branches@[j].path@), branches@[j].children@),
            forall|j: int|
                0 <= j < branches@.len() && path_view((#[trigger] branches@[j]).path@) == path_view(root.path@)
                    ==> t.nodes@[t.root_index()].children@.len() == branches@[j].children@.len(),
            forall|j: int, m: int|
                0 <= j < branches@.len() && 0 <= m < branches@[j].children@.len()
                    && t.has_home(path_view(branches@[j].path@))
                    ==> placed(t.nodes@, 0, path_view(branches@[j].path@), #[trigger] branches@[j].children@[m]),
    {
        let ghost bs0 = branches@;
        let mut bs = branches;
        let mut arena: Vec<Node> = Vec::new();
        let _ = assemble(root, &mut bs, &mut arena, order);
        proof {
            assert forall|j: int, m: int|
                0 <= j < bs0.len() && 0 <= m < bs0[j].children@.len()
                    && exists|i: int|
                        0 <= i < arena@.len() && ((#[trigger] arena@[i]).is_dir || i == arena@.len() - 1)
                            && arena@[i].path_spec() == path_view(bs0[j].path@)
                    implies placed(arena@, 0, path_view(bs0[j].path@), #[trigger] bs0[j].children@[m]) by {
                let i = choose|i: int|
                    0 <= i < arena@.len() && ((#[trigger] arena@[i]).is_dir || i == arena@.len() - 1)
                        && arena@[i].path_spec() == path_view(bs0[j].path@);
                assert(no_key(bs@, arena@[i].path_spec()));
                if bs@.contains(bs0[j]) {
                    let q = choose|q: int| 0 <= q < bs@.len() && bs@[q] == bs0[j];
                }
            }
            assert forall|j: int|
                0 <= j < bs0.len() && (exists|i: int|
                    0 <= i < arena@.len() && ((#[trigger] arena@[i]).is_dir || i == arena@.len() - 1)
                        && arena@[i].path_spec() == path_view((#[trigger] bs0[j]).path@))
                    implies drained_in(arena@, order, 0, path_view(bs0[j].path@), bs0[j].children@) by {
                let i = choose|i: int|
                    0 <= i < arena@.len() && ((#[trigger] arena@[i]).is_dir || i == arena@.len() - 1)
                        && arena@[i].path_spec() == path_view(bs0[j].path@);
                assert(no_key(bs@, arena@[i].path_spec()));
                if bs@.contains(bs0[j]) {
                    let q = choose|q: int| 0 <= q < bs@.len() && bs@[q] == bs0[j];
                }
            }
        }
        Tree { max_depth, order, nodes: arena }
    }

    /// Builds a tree from a flat set of entry records, in any order.
    ///
    /// Fails with `ExpectedParent` when a non-root record has an empty path, else with
    /// `MissingRoot` when no record has depth zero, else with `ExpectedParent` when a
    /// non-root record's parent path is the path of no directory record. The last
    /// record of depth zero becomes the root. The root's children are exactly the
    /// records filed under its path, one node each; so are the children of a directory
    /// of the tree with that path, for any path that has records. Each node keeps its
    /// record's path, depth and kind, and its size wherever its children total zero;
    /// siblings that tie under `order` keep their arrival order. Every node's children
    /// are either none or exactly the records filed under its path.
    pub fn new(entries: Vec<Node>, order: Order, max_depth: Option<usize>) -> (r: Result<Tree, TreeError>)
        ensures
            aggregate_error(entries@) is None <==> r is Ok,
            r matches Err(e) ==> aggregate_error(entries@) == Some(e),
            r matches Ok(t) ==> {
                &&& t.wf()
                &&& t.order == order
                &&& t.max_depth == max_depth
                &&& path_view(t.nodes@[t.root_index()].path@) == entries@[last_root(entries@)].path_spec()
                &&& t.nodes@[t.root_index()].is_dir == entries@[last_root(entries@)].is_dir
                &&& size_total(t.nodes@, t.nodes@[t.root_index()].children@) == 0
                    ==> t.nodes@[t.root_index()].file_size == entries@[last_root(entries@)].file_size
                &&& forall|i: int|
                    0 <= i < entries@.len() && !is_root(#[trigger] entries@[i])
                        && parent_view(entries@[i].path_spec()) == entries@[last_root(entries@)].path_spec()
                        ==> has_child_like(t.nodes@, t.root_index(), entries@[i])
                &&& t.nodes@[t.root_index()].children@.len()
                    == under(entries@, entries@[last_root(entries@)].path_spec()).len()
                &&& holds_exactly(t.nodes@, order, t.root_index(), under(entries@, entries@[last_root(entries@)].path_spec()))
                &&& forall|i: int|
                    0 <= i < t.nodes@.len() ==> (#[trigger] t.nodes@[i]).children@.len() == 0
                        || holds_exactly(t.nodes@, order, i, under(entries@, t.nodes@[i].path_spec()))
                &&& forall|p: Seq<Seq<char>>|
                    t.has_home(p) && (#[trigger] under(entries@, p)).len() > 0
                        ==> drained_in(t.nodes@, order, 0, p, under(entries@, p))
                &&& forall|i: int|
                    0 <= i < entries@.len() && !is_root(#[trigger] entries@[i])
                        && t.has_home(parent_view(entries@[i].path_spec()))
                        ==> placed(t.nodes@, 0, parent_view(entries@[i].path_spec()), entries@[i])
            },
    {
        match aggregate(entries) {
            Ok((root, bs)) => {
                let ghost rp = path_view(root.path@);
                let t = Tree::assemble_tree(root, bs, order, max_depth);
                proof {
                    if !no_key(bs@, rp) {
                        let j = choose|j: int| 0 <= j < bs@.len() && path_view((#[trigger] bs@[j]).path@) == rp;
                        assert(bs@[j].children@ == under(entries@, rp));
                    } else {
                        assert(under(entries@, rp).len() == 0);
                        assert(under(entries@, rp) =~= Seq::<Node>::empty());
                    }
                    assert forall|i: int|
                        0 <= i < t.nodes@.len() implies (#[trigger] t.nodes@[i]).children@.len() == 0
                            || holds_exactly(t.nodes@, order, i, under(entries@, t.nodes@[i].path_spec())) by {
                        assert(exact_or_leaf(t.nodes@, order, i, bs@));
                        if t.nodes@[i].children@.len() > 0 {
                            let j = choose|j: int|
                                0 <= j < bs@.len() && path_view((#[trigger] bs@[j]).path@) == t.nodes@[i].path_spec()
                                    && holds_exactly(t.nodes@, order, i, bs@[j].children@);
                            assert(bs@[j].children@ == under(entries@, path_view(bs@[j].path@)));
                        }
                    }
                    assert forall|m: int| 0 <= m < t.root_index() implies #[trigger] stands_for_record(t.nodes@, m, entries@) by {
                        assert(adopted(t.nodes@, m));
                        let (i, k) = choose|i: int, k: int|
                            m < i < t.nodes@.len() && 0 <= k < t.nodes@[i].children@.len() && #[trigger] t.nodes@[i].children@[k] == m;
                        let kids = under(entries@, t.nodes@[i].path_spec());
                        assert(t.nodes@[i].children@.len() > 0);
                        assert(holds_exactly(t.nodes@, order, i, kids));
                        let arr = choose|arr: Seq<usize>| arrival_of(t.nodes@, order, i, kids, arr);
                        reveal(arrival_of);
                        assert(arr.contains(t.nodes@[i].children@[k]));
                        let q = choose|q: int| 0 <= q < arr.len() && arr[q] == m as usize;
                        assert(stands_for(t.nodes@, arr[q] as int, kids[q]));
                        lemma_under_member(entries@, t.nodes@[i].path_spec());
                        assert(filed_record(entries@, kids[q], t.nodes@[i].path_spec()));
                        let r = choose|r: int| 0 <= r < entries@.len() && #[trigger] entries@[r] == kids[q] && files_under(kids[q], t.nodes@[i].path_spec());
                        assert(!is_root(entries@[r]));
                    }
                    assert forall|p: Seq<Seq<char>>|
                        t.has_home(p) && (#[trigger] under(entries@, p)).len() > 0
                            implies drained_in(t.nodes@, order, 0, p, under(entries@, p)) by {
                        let j = choose|j: int| 0 <= j < bs@.len() && path_view((#[trigger] bs@[j]).path@) == p;
                        assert(bs@[j].children@ == under(entries@, p));
                    }
                    assert forall|i: int|
                        0 <= i < entries@.len() && !is_root(#[trigger] entries@[i])
                            && parent_view(entries@[i].path_spec()) == entries@[last_root(entries@)].path_spec()
                            implies has_child_like(t.nodes@, t.root_index(), entries@[i]) by {
                        assert(pending(bs@, entries@[i]));
                        let (j, m) = choose|j: int, m: int|
                            0 <= j < bs@.len() && 0 <= m < bs@[j].children@.len()
                                && #[trigger] bs@[j].children@[m] == entries@[i];
                        assert(bs@[j].wf());
                    }
                    assert forall|i: int|
                        0 <= i < entries@.len() && !is_root(#[trigger] entries@[i])
                            && t.has_home(parent_view(entries@[i].path_spec()))
                            implies placed(t.nodes@, 0, parent_view(entries@[i].path_spec()), entries@[i]) by {
                        assert(pending(bs@, entries@[i]));
                        let (j, m) = choose|j: int, m: int|
                            0 <= j < bs@.len() && 0 <= m < bs@[j].children@.len()
                                && #[trigger] bs@[j].children@[m] == entries@[i];
                        assert(bs@[j].wf());
                    }
                }
                Ok(t)
            },
            Err(e) => Err(e),
        }
    }

    /// The root node.
    pub fn root(&self) -> (r: &Node)
        requires
            self.wf(),
        ensures
            *r == self.nodes@[self.root_index()],
    {
        &self.nodes[self.nodes.len() - 1]
    }

    /// The tree as text: the root's name, then each descendant depth first, one per
    /// line, behind box-drawing connectors.
    pub fn render(&self) -> (r: String)
        requires
            self.wf(),
        ensures
            r@ == self.rendered(),
    {
        proof {
            assert forall|i: int, k: int|
                0 <= i < self.nodes@.len() && 0 <= k < self.nodes@[i].children@.len()
                    implies #[trigger] self.nodes@[i].children@[k] < i by {
                assert(node_wf(self.nodes@, self.order, i));
            }
        }
        let limit = match self.max_depth {
            Some(d) => d,
            None => usize::MAX,
        };
        render_lines(&self.nodes, self.nodes.len() - 1, limit)
    }
}

} // verus!
