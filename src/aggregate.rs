use vstd::prelude::*;
use crate::error::TreeError;
use crate::node::{Node, parent_path, parent_view, path_view, paths_equal};

verus! {

/// The children that have been collected for one directory path and not yet attached.
pub struct Branch {
    pub path: Vec<String>,
    pub children: Vec<Node>,
}

impl Branch {
    /// Every pending child is a non-root record whose parent is this branch's path.
    pub open spec fn wf(&self) -> bool {
        forall|k: int|
            0 <= k < self.children@.len() ==> {
                &&& (#[trigger] self.children@[k]).depth >= 1
                &&& self.children@[k].path@.len() >= 1
                &&& parent_view(self.children@[k].path_spec()) == path_view(self.path@)
            }
    }
}

/// All pending branches are well formed, and no path keys two of them.
pub open spec fn branches_wf(bs: Seq<Branch>) -> bool {
    &&& forall|j: int| 0 <= j < bs.len() ==> (#[trigger] bs[j]).wf()
    &&& forall|a: int, b: int|
        0 <= a < b < bs.len() ==> path_view((#[trigger] bs[a]).path@) != path_view((#[trigger] bs[b]).path@)
}

/// A record stands for the traversal root.
pub open spec fn is_root(n: Node) -> bool {
    n.depth == 0
}

/// A record makes `p` a known home for children: it is a directory at `p`.
pub open spec fn registers(n: Node, p: Seq<Seq<char>>) -> bool {
    n.is_dir && n.path_spec() == p
}

/// Some record makes `p` a known home for children.
pub open spec fn registered(es: Seq<Node>, p: Seq<Seq<char>>) -> bool {
    exists|j: int| 0 <= j < es.len() && registers(#[trigger] es[j], p)
}

/// Some non-root record has an empty path, so no parent can be computed for it.
pub open spec fn has_pathless(es: Seq<Node>) -> bool {
    exists|i: int| 0 <= i < es.len() && !is_root(#[trigger] es[i]) && es[i].path@.len() == 0
}

/// Some record is a root.
pub open spec fn has_root(es: Seq<Node>) -> bool {
    exists|i: int| 0 <= i < es.len() && is_root(#[trigger] es[i])
}

/// Some non-root record's parent was never registered.
pub open spec fn has_orphan(es: Seq<Node>) -> bool {
    exists|i: int|
        0 <= i < es.len() && !is_root(#[trigger] es[i]) && es[i].path@.len() > 0
            && !registered(es, parent_view(es[i].path_spec()))
}

/// The index of the last root record, or -1 when there is none.
pub open spec fn last_root(es: Seq<Node>) -> int
    decreases es.len(),
{
    if es.len() == 0 {
        -1
    } else if is_root(es.last()) {
        es.len() - 1
    } else {
        last_root(es.drop_last())
    }
}

/// Whether a set of records is rejected, and with which error.
pub open spec fn aggregate_error(es: Seq<Node>) -> Option<TreeError> {
    if has_pathless(es) {
        Some(TreeError::ExpectedParent)
    } else if !has_root(es) {
        Some(TreeError::MissingRoot)
    } else if has_orphan(es) {
        Some(TreeError::ExpectedParent)
    } else {
        None
    }
}

proof fn lemma_last_root(es: Seq<Node>)
    ensures
        -1 <= last_root(es) < es.len(),
        last_root(es) >= 0 ==> is_root(es[last_root(es)]),
        forall|i: int| last_root(es) < i < es.len() ==> !is_root(#[trigger] es[i]),
        has_root(es) <==> last_root(es) >= 0,
    decreases es.len(),
{
    if es.len() > 0 {
        lemma_last_root(es.drop_last());
        if !is_root(es.last()) {
            if has_root(es) {
                let i = choose|i: int| 0 <= i < es.len() && is_root(#[trigger] es[i]);
                assert(es.drop_last()[i] == es[i]);
            }
            if last_root(es) >= 0 {
                assert(es.drop_last()[last_root(es)] == es[last_root(es)]);
            }
            assert forall|i: int| last_root(es) < i < es.len() implies !is_root(#[trigger] es[i]) by {
                if i < es.len() - 1 {
                    assert(es.drop_last()[i] == es[i]);
                }
            }
        }
    }
}

/// Whether some record registers the path `p`.
fn find_registered(es: &Vec<Node>, p: &Vec<String>) -> (r: bool)
    ensures
        r == registered(es@, path_view(p@)),
{
    let mut j: usize = 0;
    while j < es.len()
        invariant
            j <= es@.len(),
            forall|k: int| 0 <= k < j ==> !registers(#[trigger] es@[k], path_view(p@)),
        decreases es@.len() - j,
    {
        let n = &es[j];
        if n.is_dir && paths_equal(&n.path, p) {
            return true;
        }
        j = j + 1;
    }
    false
}

/// Some pending branch holds exactly this record.
pub open spec fn pending(bs: Seq<Branch>, n: Node) -> bool {
    exists|j: int, m: int|
        0 <= j < bs.len() && 0 <= m < bs[j].children@.len() && #[trigger] bs[j].children@[m] == n
}

/// Finds the branch kept for path `p`, if any.
pub(crate) fn find_branch(bs: &Vec<Branch>, p: &Vec<String>) -> (r: Option<usize>)
    ensures
        r matches Some(j) ==> j < bs@.len() && path_view(bs@[j as int].path@) == path_view(p@),
        r is None ==> forall|j: int| 0 <= j < bs@.len() ==> path_view((#[trigger] bs@[j]).path@) != path_view(p@),
{
    let mut j: usize = 0;
    while j < bs.len()
        invariant
            j <= bs@.len(),
            forall|k: int| 0 <= k < j ==> path_view((#[trigger] bs@[k]).path@) != path_view(p@),
        decreases bs@.len() - j,
    {
        if paths_equal(&bs[j].path, p) {
            return Some(j);
        }
        j = j + 1;
    }
    None
}

/// No pending branch is kept for path `p`.
pub open spec fn no_key(bs: Seq<Branch>, p: Seq<Seq<char>>) -> bool {
    forall|j: int| 0 <= j < bs.len() ==> path_view((#[trigger] bs[j]).path@) != p
}

/// The record `e` is filed under path `p`: it is not a root and `p` is its parent.
pub open spec fn files_under(e: Node, p: Seq<Seq<char>>) -> bool {
    !is_root(e) && e.path@.len() > 0 && parent_view(e.path_spec()) == p
}

/// The records of `es` filed under path `p`, in arrival order.
pub open spec fn under(es: Seq<Node>, p: Seq<Seq<char>>) -> Seq<Node>
    decreases es.len(),
{
    if es.len() == 0 {
        Seq::empty()
    } else {
        (if files_under(es[0], p) { seq![es[0]] } else { Seq::empty() }) + under(es.drop_first(), p)
    }
}

/// `x` is a record of `es` filed under `p`.
pub open spec fn filed_record(es: Seq<Node>, x: Node, p: Seq<Seq<char>>) -> bool {
    exists|r: int| 0 <= r < es.len() && #[trigger] es[r] == x && files_under(x, p)
}

/// Each record filed under `p` is a record of `es` filed under `p`.
pub proof fn lemma_under_member(es: Seq<Node>, p: Seq<Seq<char>>)
    ensures
        forall|q: int| 0 <= q < under(es, p).len() ==> filed_record(es, #[trigger] under(es, p)[q], p),
    decreases es.len(),
{
    if es.len() > 0 {
        let rest = es.drop_first();
        lemma_under_member(rest, p);
        let head: Seq<Node> = if files_under(es[0], p) { seq![es[0]] } else { Seq::empty() };
        assert(under(es, p) == head + under(rest, p));
        assert forall|q: int| 0 <= q < under(es, p).len() implies filed_record(es, #[trigger] under(es, p)[q], p) by {
            if q < head.len() {
                assert(under(es, p)[q] == es[0]);
                assert(filed_record(es, es[0], p));
            } else {
                let x = under(rest, p)[q - head.len()];
                assert(under(es, p)[q] == x);
                assert(filed_record(rest, x, p));
                let r = choose|r: int| 0 <= r < rest.len() && #[trigger] rest[r] == x && files_under(x, p);
                assert(es[r + 1] == rest[r]);
                assert(filed_record(es, x, p));
            }
        }
    } else {
        assert(under(es, p) =~= Seq::<Node>::empty());
    }
}

proof fn lemma_under_step(es: Seq<Node>, at: int, p: Seq<Seq<char>>)
    requires
        0 <= at < es.len(),
    ensures
        under(es.subrange(at, es.len() as int), p) == (if files_under(es[at], p) {
            seq![es[at]]
        } else {
            Seq::empty()
        }) + under(es.subrange(at + 1, es.len() as int), p),
{
    let s = es.subrange(at, es.len() as int);
    assert(s.drop_first() =~= es.subrange(at + 1, es.len() as int));
    assert(s[0] == es[at]);
}

/// Files a non-root record under the branch of its parent path `p`, in front of the
/// children already there.
fn file_under(bs: &mut Vec<Branch>, p: Vec<String>, n: Node)
    requires
        branches_wf(old(bs)@),
        n.depth >= 1,
        n.path@.len() >= 1,
        parent_view(n.path_spec()) == path_view(p@),
    ensures
        branches_wf(final(bs)@),
        pending(final(bs)@, n),
        forall|x: Node| pending(old(bs)@, x) ==> pending(final(bs)@, x),
        final(bs)@.len() >= old(bs)@.len(),
        forall|j: int|
            0 <= j < old(bs)@.len() ==> path_view((#[trigger] final(bs)@[j]).path@) == path_view(old(bs)@[j].path@),
        forall|j: int|
            0 <= j < old(bs)@.len() && path_view(old(bs)@[j].path@) != path_view(p@)
                ==> (#[trigger] final(bs)@[j]).children@ == old(bs)@[j].children@,
        forall|j: int|
            0 <= j < old(bs)@.len() && path_view(old(bs)@[j].path@) == path_view(p@)
                ==> (#[trigger] final(bs)@[j]).children@ == seq![n] + old(bs)@[j].children@,
        forall|j: int|
            old(bs)@.len() <= j < final(bs)@.len() ==> path_view((#[trigger] final(bs)@[j]).path@) == path_view(p@)
                && final(bs)@[j].children@ == seq![n],
{
    match find_branch(bs, &p) {
        Some(j) => {
            let ghost before = bs@;
            let mut b = bs.remove(j);
            let ghost old_children = b.children@;
            b.children.insert(0, n);
            bs.insert(j, b);
            assert(bs@ =~= before.update(j as int, b));
            assert(b.children@ =~= old_children.insert(0, n));
            assert(b.children@ =~= seq![n] + old_children);
            assert forall|jj: int|
                0 <= jj < before.len() && path_view(before[jj].path@) == path_view(p@) implies jj == j by {
                if jj < j {
                    assert(path_view(before[jj].path@) != path_view(before[j as int].path@));
                } else if jj > j {
                    assert(path_view(before[j as int].path@) != path_view(before[jj].path@));
                }
            }
            assert forall|a: int, c: int|
                0 <= a < c < bs@.len() implies path_view((#[trigger] bs@[a]).path@) != path_view((#[trigger] bs@[c]).path@) by {
                assert(path_view(before[a].path@) != path_view(before[c].path@));
            }
            assert(bs@[j as int].children@[0] == n);
            assert forall|x: Node| pending(before, x) implies pending(bs@, x) by {
                let (jj, m) = choose|jj: int, m: int|
                    0 <= jj < before.len() && 0 <= m < before[jj].children@.len()
                        && #[trigger] before[jj].children@[m] == x;
                if jj == j {
                    assert(bs@[jj].children@[m + 1] == x);
                } else {
                    assert(bs@[jj].children@[m] == x);
                }
            }
        },
        None => {
            let ghost before = bs@;
            let b = Branch { path: p, children: vec![n] };
            assert(b.children@ =~= seq![n]);
            bs.push(b);
            assert(bs@[before.len() as int].children@[0] == n);
            assert forall|a: int, c: int|
                0 <= a < c < bs@.len() implies path_view((#[trigger] bs@[a]).path@) != path_view((#[trigger] bs@[c]).path@) by {
                if c < before.len() {
                    assert(path_view(before[a].path@) != path_view(before[c].path@));
                } else {
                    assert(bs@[a] == before[a]);
                }
            }
            assert forall|x: Node| pending(before, x) implies pending(bs@, x) by {
                let (jj, m) = choose|jj: int, m: int|
                    0 <= jj < before.len() && 0 <= m < before[jj].children@.len()
                        && #[trigger] before[jj].children@[m] == x;
                assert(bs@[jj] == before[jj]);
            }
        },
    }
}

/// Sorts a flat set of records into the root and the pending children of each parent
/// path. Each branch holds exactly the non-root records whose parent is its path, in
/// arrival order, and a path that keys no branch has no such records.
pub fn aggregate(entries: Vec<Node>) -> (r: Result<(Node, Vec<Branch>), TreeError>)
    ensures
        aggregate_error(entries@) is None <==> r is Ok,
        r matches Err(e) ==> aggregate_error(entries@) == Some(e),
        r matches Ok((root, bs)) ==> {
            &&& 0 <= last_root(entries@) < entries@.len()
            &&& root == entries@[last_root(entries@)]
            &&& root.depth == 0
            &&& branches_wf(bs@)
            &&& forall|i: int|
                0 <= i < entries@.len() && !is_root(#[trigger] entries@[i])
                    ==> pending(bs@, entries@[i])
            &&& forall|j: int|
                0 <= j < bs@.len() ==> (#[trigger] bs@[j]).children@ == under(entries@, path_view(bs@[j].path@))
            &&& forall|p: Seq<Seq<char>>| no_key(bs@, p) ==> (#[trigger] under(entries@, p)).len() == 0
        },
{
    let mut found_root = false;
    let mut i: usize = 0;
    while i < entries.len()
        invariant
            i <= entries@.len(),
            forall|k: int|
                0 <= k < i && !is_root(#[trigger] entries@[k]) ==> entries@[k].path@.len() > 0,
            found_root <==> exists|k: int| 0 <= k < i && is_root(#[trigger] entries@[k]),
        decreases entries@.len() - i,
    {
        if entries[i].depth != 0 && entries[i].path.len() == 0 {
            return Err(TreeError::ExpectedParent);
        }
        if entries[i].depth == 0 {
            found_root = true;
        }
        i = i + 1;
    }
    if !found_root {
        return Err(TreeError::MissingRoot);
    }
    i = 0;
    while i < entries.len()
        invariant
            i <= entries@.len(),
            !has_pathless(entries@),
            has_root(entries@),
            forall|k: int|
                0 <= k < i && !is_root(#[trigger] entries@[k])
                    ==> registered(entries@, parent_view(entries@[k].path_spec())),
        decreases entries@.len() - i,
    {
        if entries[i].depth != 0 {
            match parent_path(&entries[i].path) {
                Some(q) => {
                    if !find_registered(&entries, &q) {
                        return Err(TreeError::ExpectedParent);
                    }
                },
                None => {
                    assert(has_pathless(entries@));
                },
            }
        }
        i = i + 1;
    }
    proof {
        lemma_last_root(entries@);
    }
    let ghost es = entries@;
    let mut rest = entries;
    let mut root: Option<Node> = None;
    let mut bs: Vec<Branch> = Vec::new();
    while rest.len() > 0
        invariant
            rest@.len() <= es.len(),
            rest@ == es.subrange(0, rest@.len() as int),
            -1 <= last_root(es) < es.len(),
            last_root(es) >= 0,
            is_root(es[last_root(es)]),
            !has_pathless(es),
            forall|i: int| last_root(es) < i < es.len() ==> !is_root(#[trigger] es[i]),
            root is None ==> rest@.len() > last_root(es),
            root matches Some(n) ==> n == es[last_root(es)],
            branches_wf(bs@),
            forall|k: int|
                rest@.len() <= k < es.len() && !is_root(#[trigger] es[k]) ==> pending(bs@, es[k]),
            forall|j: int|
                0 <= j < bs@.len() ==> (#[trigger] bs@[j]).children@
                    == under(es.subrange(rest@.len() as int, es.len() as int), path_view(bs@[j].path@)),
            forall|p: Seq<Seq<char>>|
                no_key(bs@, p) ==> (#[trigger] under(es.subrange(rest@.len() as int, es.len() as int), p)).len() == 0,
        decreases rest@.len(),
    {
        let ghost at = rest@.len() - 1;
        let ghost s0 = es.subrange(at + 1, es.len() as int);
        let ghost s1 = es.subrange(at, es.len() as int);
        let ghost bs0 = bs@;
        assert(rest@[at] == es[at]);
        let n = rest.pop().unwrap();
        assert(n == es[at]);
        if n.depth == 0 {
            assert(is_root(es[at]));
            if root.is_none() {
                root = Some(n);
            }
            assert forall|p: Seq<Seq<char>>| #[trigger] under(s1, p) == under(s0, p) by {
                lemma_under_step(es, at, p);
                assert(Seq::<Node>::empty() + under(s0, p) =~= under(s0, p));
            }
        } else {
            assert(!is_root(es[at]));
            match parent_path(&n.path) {
                Some(q) => {
                    let ghost qv = path_view(q@);
                    file_under(&mut bs, q, n);
                    proof {
                        assert forall|p: Seq<Seq<char>>| p != qv implies #[trigger] under(s1, p) == under(s0, p) by {
                            lemma_under_step(es, at, p);
                            assert(Seq::<Node>::empty() + under(s0, p) =~= under(s0, p));
                        }
                        lemma_under_step(es, at, qv);
                        assert(under(s1, qv) == seq![n] + under(s0, qv));
                        if bs@.len() > bs0.len() {
                            assert forall|j: int| 0 <= j < bs0.len() implies path_view((#[trigger] bs0[j]).path@) != qv by {
                                assert(path_view(bs@[j].path@) == path_view(bs0[j].path@));
                                assert(path_view(bs@[bs0.len() as int].path@) == qv);
                                assert(path_view(bs@[j].path@) != path_view(bs@[bs0.len() as int].path@));
                            }
                            assert(no_key(bs0, qv));
                            assert(under(s0, qv).len() == 0);
                            assert(under(s0, qv) =~= Seq::<Node>::empty());
                            assert(seq![n] + under(s0, qv) =~= seq![n]);
                        }
                        assert forall|j: int| 0 <= j < bs@.len() implies (#[trigger] bs@[j]).children@ == under(s1, path_view(bs@[j].path@)) by {
                            if j < bs0.len() {
                                assert(bs0[j].children@ == under(s0, path_view(bs0[j].path@)));
                            }
                        }
                        assert forall|p: Seq<Seq<char>>| no_key(bs@, p) implies (#[trigger] under(s1, p)).len() == 0 by {
                            if p == qv {
                                let (jj, mm) = choose|jj: int, mm: int|
                                    0 <= jj < bs@.len() && 0 <= mm < bs@[jj].children@.len() && #[trigger] bs@[jj].children@[mm] == n;
                                assert(bs@[jj].wf());
                            } else {
                                assert forall|j: int| 0 <= j < bs0.len() implies path_view((#[trigger] bs0[j]).path@) != p by {
                                    assert(path_view(bs@[j].path@) == path_view(bs0[j].path@));
                                }
                                assert(no_key(bs0, p));
                                assert(under(s0, p).len() == 0);
                            }
                        }
                    }
                },
                None => {},
            }
        }
    }
    assert(es.subrange(0, es.len() as int) =~= es);
    match root {
        Some(n) => Ok((n, bs)),
        None => Err(TreeError::MissingRoot),
    }
}

} // verus!
