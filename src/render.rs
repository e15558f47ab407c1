use vstd::prelude::*;
use vstd::string::StringExecFns;
use crate::node::Node;

verus! {

/// Padding below a last sibling.
pub const SEP: &'static str = "   ";

/// The `│` continuation line below a sibling that has more siblings after it.
pub const VT: &'static str = "\x1b[35m\u{2502}\x1b[0m  ";

/// The `└─` connector of a last sibling.
pub const UPRT: &'static str = "\x1b[35m\u{2514}\u{2500}\x1b[0m ";

/// The `├─` connector of a sibling that has more siblings after it.
pub const VTRT: &'static str = "\x1b[35m\u{251C}\u{2500}\x1b[0m ";

/// One rendered line: the node's arena index and the prefix drawn before its name.
pub type Line = (usize, Seq<char>);

/// The text of one line.
pub open spec fn line_text(nodes: Seq<Node>, l: Line) -> Seq<char> {
    l.1 + nodes[l.0 as int].name_spec() + seq!['\n']
}

/// The text of a sequence of lines, one after the other.
pub open spec fn lines_text(nodes: Seq<Node>, ls: Seq<Line>) -> Seq<char>
    decreases ls.len(),
{
    if ls.len() == 0 {
        Seq::empty()
    } else {
        line_text(nodes, ls[0]) + lines_text(nodes, ls.drop_first())
    }
}

/// Every child sits earlier in the arena than its parent.
pub open spec fn children_below(nodes: Seq<Node>) -> bool {
    forall|i: int, k: int|
        0 <= i < nodes.len() && 0 <= k < nodes[i].children@.len()
            ==> #[trigger] nodes[i].children@[k] < i
}

/// The lines for the children of node `i` from the `k`-th on, drawn below the prefix
/// `base`. A child's own children follow it only when it is a directory whose depth
/// is below `limit`.
pub open spec fn child_lines(nodes: Seq<Node>, i: int, k: int, base: Seq<char>, limit: nat) -> Seq<Line>
    decreases i, nodes[i].children@.len() - k,
{
    if !(0 <= i < nodes.len()) || k < 0 || k >= nodes[i].children@.len() {
        Seq::empty()
    } else {
        let cs = nodes[i].children@;
        let c = cs[k];
        let last = k + 1 == cs.len();
        let here = seq![(c, base + if last { UPRT@ } else { VTRT@ })];
        let below = if nodes[c as int].is_dir && nodes[c as int].depth < limit && c < i {
            child_lines(nodes, c as int, 0, base + if last { SEP@ } else { VT@ }, limit)
        } else {
            Seq::empty()
        };
        here + below + child_lines(nodes, i, k + 1, base, limit)
    }
}

/// The lines of a whole tree: its root, then its descendants depth first.
pub open spec fn tree_lines(nodes: Seq<Node>, root: int, limit: nat) -> Seq<Line> {
    seq![(root as usize, Seq::<char>::empty())] + child_lines(nodes, root, 0, Seq::empty(), limit)
}

pub proof fn lemma_lines_text_append(nodes: Seq<Node>, a: Seq<Line>, b: Seq<Line>)
    ensures
        lines_text(nodes, a + b) == lines_text(nodes, a) + lines_text(nodes, b),
    decreases a.len(),
{
    if a.len() == 0 {
        assert(a + b =~= b);
    } else {
        assert((a + b).drop_first() =~= a.drop_first() + b);
        lemma_lines_text_append(nodes, a.drop_first(), b);
    }
}

proof fn lemma_lines_text_single(nodes: Seq<Node>, l: Line)
    ensures
        lines_text(nodes, seq![l]) == line_text(nodes, l),
{
    let s = seq![l];
    assert(s.drop_first() =~= Seq::<Line>::empty());
    assert(lines_text(nodes, Seq::<Line>::empty()) == Seq::<char>::empty());
    assert(line_text(nodes, l) + Seq::<char>::empty() =~= line_text(nodes, l));
}

/// Appends one line: the prefix, the node's name and a line break.
fn push_line(out: &mut String, prefix: &str, n: &Node)
    ensures
        final(out)@ == old(out)@ + prefix@ + n.name_spec() + seq!['\n'],
{
    out.append(prefix);
    out.append(n.name());
    out.append("\n");
    proof {
        reveal_strlit("\n");
    }
}

/// Appends the lines for the children of node `i` from the `k`-th on.
#[verifier::rlimit(40)]
fn render_children(nodes: &Vec<Node>, i: usize, k: usize, base: &String, limit: usize, out: &mut String)
    requires
        i < nodes@.len(),
        children_below(nodes@),
    ensures
        final(out)@ == old(out)@ + lines_text(nodes@, child_lines(nodes@, i as int, k as int, base@, limit as nat)),
    decreases i, nodes@[i as int].children@.len() - k,
{
    let cs = &nodes[i].children;
    if k >= cs.len() {
        return;
    }
    let c = cs[k];
    assert(c < i);
    let last = k + 1 == cs.len();
    let mut prefix = base.clone();
    if last {
        prefix.append(UPRT);
    } else {
        prefix.append(VTRT);
    }
    let ghost out0 = out@;
    push_line(out, prefix.as_str(), &nodes[c]);
    let ghost here: Seq<Line> = seq![(c, prefix@)];
    let ghost below: Seq<Line> = Seq::empty();
    if nodes[c].is_dir && nodes[c].depth < limit {
        let mut nb = base.clone();
        if last {
            nb.append(SEP);
        } else {
            nb.append(VT);
        }
        render_children(nodes, c, 0, &nb, limit, out);
        proof {
            below = child_lines(nodes@, c as int, 0, nb@, limit as nat);
        }
    }
    let ghost out1 = out@;
    render_children(nodes, i, k + 1, base, limit, out);
    proof {
        let rest = child_lines(nodes@, i as int, k + 1, base@, limit as nat);
        assert(child_lines(nodes@, i as int, k as int, base@, limit as nat) == here + below + rest);
        lemma_lines_text_append(nodes@, here + below, rest);
        lemma_lines_text_append(nodes@, here, below);
        lemma_lines_text_single(nodes@, (c, prefix@));
    }
}

/// The text of a tree rooted at arena index `root`, descending below a node only while
/// its depth is below `limit`.
pub fn render_lines(nodes: &Vec<Node>, root: usize, limit: usize) -> (r: String)
    requires
        root < nodes@.len(),
        children_below(nodes@),
    ensures
        r@ == lines_text(nodes@, tree_lines(nodes@, root as int, limit as nat)),
{
    let mut out = String::new();
    push_line(&mut out, "", &nodes[root]);
    let empty = String::new();
    render_children(nodes, root, 0, &empty, limit, &mut out);
    proof {
        reveal_strlit("");
        let head: Seq<Line> = seq![(root, Seq::<char>::empty())];
        lemma_lines_text_append(nodes@, head, child_lines(nodes@, root as int, 0, Seq::empty(), limit as nat));
        lemma_lines_text_single(nodes@, (root, Seq::<char>::empty()));
        assert(out@ =~= lines_text(nodes@, tree_lines(nodes@, root as int, limit as nat)));
    }
    out
}

} // verus!
