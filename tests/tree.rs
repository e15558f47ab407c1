use erdtree::node::{parent_path, paths_equal};
use erdtree::order::bytes_lt;
use erdtree::render::{SEP, UPRT, VT, VTRT};
use erdtree::{Node, Order, Tree, TreeError};

fn entry(path: &str, depth: usize, is_dir: bool, size: Option<u64>) -> Node {
    let parts: Vec<String> = if path.is_empty() {
        Vec::new()
    } else {
        path.split('/').map(|s| s.to_string()).collect()
    };
    Node::new(parts, depth, is_dir, size)
}

fn sample() -> Vec<Node> {
    vec![
        entry("root", 0, true, None),
        entry("root/a", 1, false, Some(10)),
        entry("root/b", 1, true, None),
        entry("root/b/c", 2, false, Some(5)),
    ]
}

fn find<'a>(t: &'a Tree, path: &str) -> &'a Node {
    let parts: Vec<String> = path.split('/').map(|s| s.to_string()).collect();
    t.nodes.iter().find(|n| n.path == parts).expect("node present")
}

#[test]
fn round_trip_sizes_and_text() {
    let t = Tree::new(sample(), Order::Unsorted, None).ok().expect("tree");
    assert_eq!(t.root().file_size, Some(15));
    assert_eq!(t.root().depth, 0);
    assert_eq!(find(&t, "root/b").file_size, Some(5));
    assert_eq!(find(&t, "root/a").file_size, Some(10));
    let expected = format!("root\n{VTRT}a\n{UPRT}b\n{SEP}{UPRT}c\n");
    assert_eq!(t.render(), expected);
}

#[test]
fn missing_root() {
    let entries = vec![
        entry("root/a", 1, false, Some(10)),
        entry("root/b", 1, true, None),
    ];
    assert!(matches!(Tree::new(entries, Order::Unsorted, None), Err(TreeError::MissingRoot)));
    assert!(matches!(Tree::new(Vec::new(), Order::Size, None), Err(TreeError::MissingRoot)));
}

#[test]
fn orphan_is_expected_parent() {
    let entries = vec![
        entry("root", 0, true, None),
        entry("root/x/y", 2, false, Some(3)),
    ];
    assert!(matches!(Tree::new(entries, Order::Unsorted, None), Err(TreeError::ExpectedParent)));
}

#[test]
fn empty_path_is_expected_parent() {
    let entries = vec![entry("", 1, false, Some(3))];
    assert!(matches!(Tree::new(entries, Order::Unsorted, None), Err(TreeError::ExpectedParent)));
}

#[test]
fn depth_limit_one() {
    let t = Tree::new(sample(), Order::Unsorted, Some(1)).ok().expect("tree");
    let expected = format!("root\n{VTRT}a\n{UPRT}b\n");
    assert_eq!(t.render(), expected);
    assert_eq!(t.root().file_size, Some(15));
}

#[test]
fn depth_limit_zero_still_shows_root_children() {
    let t = Tree::new(sample(), Order::Unsorted, Some(0)).ok().expect("tree");
    let expected = format!("root\n{VTRT}a\n{UPRT}b\n");
    assert_eq!(t.render(), expected);
}

#[test]
fn render_is_repeatable() {
    let t = Tree::new(sample(), Order::Size, None).ok().expect("tree");
    assert_eq!(t.render(), t.render());
}

#[test]
fn size_order_largest_first() {
    let entries = vec![
        entry("root", 0, true, None),
        entry("root/a", 1, false, Some(1)),
        entry("root/b", 1, true, None),
        entry("root/b/c", 2, false, Some(5)),
    ];
    let t = Tree::new(entries, Order::Size, None).ok().expect("tree");
    let expected = format!("root\n{VTRT}b\n{VT}{UPRT}c\n{UPRT}a\n");
    assert_eq!(t.render(), expected);
    assert_eq!(t.root().file_size, Some(6));
}

#[test]
fn size_order_is_stable() {
    let entries = vec![
        entry("r", 0, true, None),
        entry("r/x", 1, false, Some(4)),
        entry("r/y", 1, false, Some(9)),
        entry("r/z", 1, false, Some(4)),
    ];
    let t = Tree::new(entries, Order::Size, None).ok().expect("tree");
    let expected = format!("r\n{VTRT}y\n{VTRT}x\n{UPRT}z\n");
    assert_eq!(t.render(), expected);
}

#[test]
fn arrival_order_does_not_matter_when_sorted() {
    let mut shuffled = sample();
    shuffled.reverse();
    let a = Tree::new(sample(), Order::Size, None).ok().expect("tree");
    let b = Tree::new(shuffled, Order::Size, None).ok().expect("tree");
    assert_eq!(a.render(), b.render());
}

#[test]
fn zero_sized_children_keep_directory_size() {
    let entries = vec![
        entry("root", 0, true, Some(7)),
        entry("root/e", 1, false, Some(0)),
    ];
    let t = Tree::new(entries, Order::Unsorted, None).ok().expect("tree");
    assert_eq!(t.root().file_size, Some(7));
}

#[test]
fn empty_directory_keeps_size() {
    let entries = vec![entry("root", 0, true, None), entry("root/d", 1, true, Some(4096))];
    let t = Tree::new(entries, Order::Unsorted, None).ok().expect("tree");
    assert_eq!(find(&t, "root/d").file_size, Some(4096));
    assert_eq!(t.root().file_size, Some(4096));
}

#[test]
fn sizes_saturate() {
    let entries = vec![
        entry("root", 0, true, None),
        entry("root/a", 1, false, Some(u64::MAX)),
        entry("root/b", 1, false, Some(3)),
    ];
    let t = Tree::new(entries, Order::Unsorted, None).ok().expect("tree");
    assert_eq!(t.root().file_size, Some(u64::MAX));
}

#[test]
fn last_root_wins() {
    let entries = vec![entry("old", 0, true, None), entry("new", 0, true, None)];
    let t = Tree::new(entries, Order::Unsorted, None).ok().expect("tree");
    assert_eq!(t.render(), "new\n");
}

#[test]
fn deeper_branches_keep_continuation_line() {
    let entries = vec![
        entry("r", 0, true, None),
        entry("r/d", 1, true, None),
        entry("r/d/f", 2, false, Some(1)),
        entry("r/g", 1, false, Some(2)),
    ];
    let t = Tree::new(entries, Order::Unsorted, None).ok().expect("tree");
    let expected = format!("r\n{VTRT}d\n{VT}{UPRT}f\n{UPRT}g\n");
    assert_eq!(t.render(), expected);
}

#[test]
fn path_helpers() {
    let p: Vec<String> = vec!["a".to_string(), "b".to_string()];
    let q = parent_path(&p).expect("parent");
    assert_eq!(q, vec!["a".to_string()]);
    assert!(parent_path(&Vec::new()).is_none());
    assert!(paths_equal(&p, &p.clone()));
    assert!(!paths_equal(&p, &q));
    assert_eq!(entry("a/b", 1, false, None).name(), "b");
    assert_eq!(entry("", 1, false, None).name(), "");
    assert_eq!(entry("a", 1, false, Some(3)).size(), 3);
    assert_eq!(entry("a", 1, false, None).size(), 0);
}

#[test]
fn name_order_ascending_per_level() {
    let entries = vec![
        entry("r", 0, true, None),
        entry("r/zeta", 1, true, None),
        entry("r/zeta/b", 2, false, Some(1)),
        entry("r/zeta/a", 2, false, Some(1)),
        entry("r/alpha", 1, false, Some(2)),
        entry("r/mid", 1, false, Some(3)),
    ];
    let t = Tree::new(entries, Order::Name, None).ok().expect("tree");
    let expected = format!("r\n{VTRT}alpha\n{VTRT}mid\n{UPRT}zeta\n{SEP}{VTRT}a\n{SEP}{UPRT}b\n");
    assert_eq!(t.render(), expected);
    assert_eq!(t.root().file_size, Some(7));
}

#[test]
fn unsorted_keeps_arrival_order() {
    let entries = vec![
        entry("r", 0, true, None),
        entry("r/zeta", 1, false, Some(1)),
        entry("r/alpha", 1, false, Some(2)),
    ];
    let t = Tree::new(entries, Order::Unsorted, None).ok().expect("tree");
    assert_eq!(t.render(), format!("r\n{VTRT}zeta\n{UPRT}alpha\n"));
}

#[test]
fn byte_order() {
    assert!(bytes_lt(b"a", b"b"));
    assert!(bytes_lt(b"ab", b"abc"));
    assert!(bytes_lt(b"", b"a"));
    assert!(!bytes_lt(b"abc", b"abc"));
    assert!(!bytes_lt(b"b", b"abc"));
}

#[test]
fn single_root_and_parents() {
    let t = Tree::new(sample(), Order::Name, None).ok().expect("tree");
    let roots = t.nodes.iter().filter(|n| n.depth == 0).count();
    assert_eq!(roots, 1);
    for (i, n) in t.nodes.iter().enumerate() {
        for &c in &n.children {
            assert!(c < i);
            let child = &t.nodes[c];
            assert_eq!(&child.path[..child.path.len() - 1], &n.path[..]);
        }
    }
    assert_eq!(t.nodes.len(), 4);
}

#[test]
fn lone_root_file() {
    let entries = vec![entry("only.txt", 0, false, Some(12))];
    let t = Tree::new(entries, Order::Size, None).ok().expect("tree");
    assert!(t.root().children.is_empty());
    assert_eq!(t.root().file_size, Some(12));
    assert!(!t.root().is_dir);
    assert_eq!(t.render(), "only.txt\n");
}

#[test]
fn every_record_kept_once_with_its_fields() {
    let t = Tree::new(sample(), Order::Unsorted, None).ok().expect("tree");
    assert_eq!(t.nodes.len(), 4);
    let b = find(&t, "root/b");
    assert!(b.is_dir);
    assert_eq!(b.depth, 1);
    assert_eq!(b.children.len(), 1);
    let c = &t.nodes[b.children[0]];
    assert_eq!(c.file_size, Some(5));
    assert_eq!(c.depth, 2);
    assert!(!c.is_dir);
    assert_eq!(t.root().children.len(), 2);
}

#[test]
fn file_root_registers_no_children() {
    let entries = vec![entry("f", 0, false, Some(1)), entry("f/x", 1, false, Some(2))];
    assert!(matches!(Tree::new(entries, Order::Unsorted, None), Err(TreeError::ExpectedParent)));
}
