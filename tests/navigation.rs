use cosmic_edit::names::{compare_bytes, final_component_of};
use cosmic_edit::node::{compare, sort_nodes, Node};
use cosmic_edit::tree::{NavTree, ProjectError};

fn file(p: &str) -> Node {
    Node::new(p.to_string(), false)
}

fn dir(p: &str) -> Node {
    Node::new(p.to_string(), true)
}

fn rows(t: &NavTree) -> Vec<(u64, u16, String, bool)> {
    let mut out = Vec::new();
    let mut i = 0;
    while let Some(e) = t.entry(i) {
        out.push((e.id, e.indent, e.node.path().clone(), e.node.is_open()));
        i += 1;
    }
    out
}

/// Every row deeper than the one before it sits right under an open folder,
/// one level down.
fn contiguous(t: &NavTree) -> bool {
    let mut i = 1;
    while let (Some(a), Some(b)) = (t.entry(i - 1), t.entry(i)) {
        if b.indent > a.indent + 1 || (b.indent > a.indent && !a.node.is_open()) {
            return false;
        }
        i += 1;
    }
    true
}

#[test]
fn final_component_cases() {
    assert_eq!(final_component_of("/x/y/readme.md"), "readme.md");
    assert_eq!(final_component_of("/usr/bin/"), "bin");
    assert_eq!(final_component_of("plain"), "plain");
    assert_eq!(final_component_of("/"), "");
    assert_eq!(final_component_of(""), "");
    assert_eq!(final_component_of("/tmp/caf\u{e9}.txt"), "caf\u{e9}.txt");
}

#[test]
fn byte_order() {
    assert_eq!(compare_bytes(b"a", b"b"), -1);
    assert_eq!(compare_bytes(b"b", b"a"), 1);
    assert_eq!(compare_bytes(b"ab", b"ab"), 0);
    assert_eq!(compare_bytes(b"ab", b"abc"), -1);
    assert_eq!(compare_bytes(b"B", b"a"), -1);
}

#[test]
fn node_classification_and_icons() {
    let f = file("/p/a.txt");
    assert_eq!(f.name(), "a.txt");
    assert!(!f.is_folder());
    assert_eq!(f.icon_name(), "text-x-generic");
    let mut d = dir("/p/sub/");
    assert_eq!(d.name(), "sub");
    assert!(d.is_folder());
    assert!(!d.is_open());
    assert_eq!(d.icon_name(), "go-next-symbolic");
    d.set_open(true);
    assert_eq!(d.icon_name(), "go-down-symbolic");
    d.make_root();
    assert!(matches!(d, Node::Folder { open: true, root: true, .. }));
}

#[test]
fn folders_sort_before_files() {
    assert_eq!(compare(&dir("/p/z"), &file("/p/a")), -1);
    assert_eq!(compare(&file("/p/a"), &dir("/p/z")), 1);
    assert_eq!(compare(&file("/p/a"), &file("/p/b")), -1);
    assert_eq!(compare(&file("/p/a"), &file("/p/a")), 0);
}

#[test]
fn sorting_is_deterministic() {
    let make = || vec![file("/p/b.txt"), dir("/p/zeta"), file("/p/a.txt"), dir("/p/sub")];
    let one: Vec<String> = sort_nodes(make()).iter().map(|n| n.path().clone()).collect();
    let two: Vec<String> = sort_nodes(make()).iter().map(|n| n.path().clone()).collect();
    assert_eq!(one, two);
    assert_eq!(one, vec!["/p/sub", "/p/zeta", "/p/a.txt", "/p/b.txt"]);
}

#[test]
fn open_project_lists_sorted_children() {
    let mut t = NavTree::new();
    let root = t
        .open_project(dir("/proj"), vec![file("/proj/b.txt"), file("/proj/a.txt"), dir("/proj/sub")])
        .unwrap();
    assert_eq!(root, 0);
    let r = rows(&t);
    assert_eq!(r.len(), 4);
    assert_eq!((r[0].1, r[0].2.as_str(), r[0].3), (0, "/proj", true));
    assert_eq!((r[1].1, r[1].2.as_str(), r[1].3), (1, "/proj/sub", false));
    assert_eq!((r[2].1, r[2].2.as_str()), (1, "/proj/a.txt"));
    assert_eq!((r[3].1, r[3].2.as_str()), (1, "/proj/b.txt"));
    assert!(matches!(t.entry(0).unwrap().node, Node::Folder { root: true, open: true, .. }));
    assert!(contiguous(&t));
}

#[test]
fn open_project_rejects_a_file() {
    let mut t = NavTree::new();
    assert_eq!(t.open_project(file("/proj/a.txt"), vec![]), Err(ProjectError::NotADirectory));
    assert_eq!(t.len(), 0);
}

#[test]
fn expand_then_collapse_round_trip() {
    let mut t = NavTree::new();
    t.open_project(dir("/proj"), vec![dir("/proj/sub"), file("/proj/a.txt")]).unwrap();
    let before = rows(&t);
    let sub = t.entity_at(1).unwrap();
    assert!(t.expand(sub, vec![file("/proj/sub/y"), dir("/proj/sub/inner"), file("/proj/sub/x")]));
    assert!(contiguous(&t));
    let mid = rows(&t);
    assert_eq!(mid.len(), 6);
    assert!(mid[1].3);
    assert_eq!((mid[2].1, mid[2].2.as_str()), (2, "/proj/sub/inner"));
    assert_eq!((mid[3].1, mid[3].2.as_str()), (2, "/proj/sub/x"));
    assert_eq!((mid[4].1, mid[4].2.as_str()), (2, "/proj/sub/y"));
    assert_eq!(mid[5].2, "/proj/a.txt");
    assert!(t.collapse(sub));
    assert_eq!(rows(&t), before);
    assert!(contiguous(&t));
}

#[test]
fn collapse_removes_nested_descendants() {
    let mut t = NavTree::new();
    t.open_project(dir("/p"), vec![dir("/p/a"), file("/p/z")]).unwrap();
    let a = t.entity_at(1).unwrap();
    t.expand(a, vec![dir("/p/a/b")]);
    let b = t.entity_at(2).unwrap();
    t.expand(b, vec![file("/p/a/b/c")]);
    assert_eq!(t.len(), 5);
    assert!(contiguous(&t));
    assert!(t.collapse(a));
    assert_eq!(t.len(), 3);
    assert_eq!(t.position(b), None);
    assert_eq!(t.entry(2).unwrap().node.path(), "/p/z");
    assert!(contiguous(&t));
}

#[test]
fn expand_is_a_no_op_on_files_open_folders_and_unknown_ids() {
    let mut t = NavTree::new();
    let root = t.open_project(dir("/p"), vec![file("/p/f")]).unwrap();
    let f = t.entity_at(1).unwrap();
    assert!(!t.expand(f, vec![file("/p/f/x")]));
    assert!(!t.expand(root, vec![file("/p/x")]));
    assert!(!t.expand(999, vec![]));
    assert!(!t.collapse(f));
    assert!(!t.collapse(999));
    assert_eq!(t.len(), 2);
}

#[test]
fn ids_stay_stable_across_insertions_and_removals() {
    let mut t = NavTree::new();
    let a = t.insert_at(0, 0, file("/a")).unwrap();
    let b = t.insert_at(1, 0, file("/b")).unwrap();
    let c = t.insert_at(0, 2, file("/c")).unwrap();
    assert_eq!((a, b, c), (0, 1, 2));
    assert_eq!(t.position(a), Some(1));
    assert_eq!(t.position(c), Some(0));
    assert_eq!(t.indent(c), Some(2));
    assert!(t.remove(c));
    assert!(!t.remove(c));
    assert_eq!(t.position(a), Some(0));
    assert_eq!(t.position(b), Some(1));
    assert_eq!(t.indent(c), None);
    assert!(t.node(b).is_some());
    assert_eq!(t.entity_at(2), None);
}
