use vstd::prelude::*;

verus! {

/// A path as its components, each viewed as characters.
pub open spec fn path_view(p: Seq<String>) -> Seq<Seq<char>> {
    p.map_values(|s: String| s@)
}

/// The parent of a path: the path without its final component.
pub open spec fn parent_view(p: Seq<Seq<char>>) -> Seq<Seq<char>> {
    p.drop_last()
}

/// One filesystem entry: its path, its distance from the traversal root, whether it
/// is a directory, its size if known, and the arena indices of its children once the
/// tree is assembled.
#[derive(Debug, Clone)]
pub struct Node {
    pub path: Vec<String>,
    pub depth: usize,
    pub is_dir: bool,
    pub file_size: Option<u64>,
    pub children: Vec<usize>,
}

impl Node {
    /// The node's path as a sequence of components.
    pub open spec fn path_spec(&self) -> Seq<Seq<char>> {
        path_view(self.path@)
    }

    /// The UTF-8 bytes of the final path component.
    pub open spec fn name_bytes(&self) -> Seq<u8> {
        vstd::utf8::encode_utf8(self.name_spec())
    }

    /// The size that the node contributes to its parent's total.
    pub open spec fn size_spec(&self) -> nat {
        match self.file_size {
            Some(s) => s as nat,
            None => 0,
        }
    }

    /// The final component of the path, or nothing for an empty path.
    pub open spec fn name_spec(&self) -> Seq<char> {
        if self.path@.len() == 0 {
            Seq::empty()
        } else {
            self.path@.last()@
        }
    }

    /// A record as the walker hands it over, with no children attached.
    pub fn new(path: Vec<String>, depth: usize, is_dir: bool, file_size: Option<u64>) -> (r: Node)
        ensures
            r.path == path,
            r.depth == depth,
            r.is_dir == is_dir,
            r.file_size == file_size,
            r.children@.len() == 0,
    {
        Node { path, depth, is_dir, file_size, children: Vec::new() }
    }

    /// The final component of the path, or the empty string for an empty path.
    pub fn name(&self) -> (r: &str)
        ensures
            r@ == self.name_spec(),
    {
        let n = self.path.len();
        if n == 0 {
            proof {
                reveal_strlit("");
            }
            ""
        } else {
            self.path[n - 1].as_str()
        }
    }

    /// The size that the node contributes to its parent's total.
    pub fn size(&self) -> (r: u64)
        ensures
            r as nat == self.size_spec(),
    {
        match self.file_size {
            Some(s) => s,
            None => 0,
        }
    }
}

/// Whether two paths have the same components.
pub fn paths_equal(a: &Vec<String>, b: &Vec<String>) -> (r: bool)
    ensures
        r == (path_view(a@) == path_view(b@)),
{
    if a.len() != b.len() {
        proof {
            assert(path_view(a@).len() != path_view(b@).len());
        }
        return false;
    }
    let mut i: usize = 0;
    while i < a.len()
        invariant
            a@.len() == b@.len(),
            i <= a@.len(),
            forall|j: int| 0 <= j < i ==> a@[j]@ == b@[j]@,
        decreases a@.len() - i,
    {
        if a[i] != b[i] {
            proof {
                assert(path_view(a@)[i as int] != path_view(b@)[i as int]);
            }
            return false;
        }
        i = i + 1;
    }
    proof {
        assert(path_view(a@) =~= path_view(b@));
    }
    true
}

/// The parent of a path, or `None` for an empty path, which has no parent.
pub fn parent_path(p: &Vec<String>) -> (r: Option<Vec<String>>)
    ensures
        p@.len() == 0 <==> r is None,
        r matches Some(q) ==> path_view(q@) == parent_view(path_view(p@)),
{
    if p.len() == 0 {
        return None;
    }
    let mut q: Vec<String> = Vec::new();
    let mut i: usize = 0;
    while i < p.len() - 1
        invariant
            p@.len() >= 1,
            i < p@.len(),
            q@.len() == i,
            forall|j: int| 0 <= j < i ==> q@[j]@ == p@[j]@,
        decreases p@.len() - i,
    {
        q.push(p[i].clone());
        i = i + 1;
    }
    proof {
        assert(path_view(q@) =~= parent_view(path_view(p@)));
    }
    Some(q)
}

} // verus!
