use cosmic_edit::tabs::{title_for, TabRegistry};

fn three() -> (TabRegistry, u64, u64, u64) {
    let mut r = TabRegistry::new();
    let a = r.open(Some("/d/a.txt".to_string())).unwrap();
    let b = r.open(Some("/d/b.txt".to_string())).unwrap();
    let c = r.open(Some("/d/c.txt".to_string())).unwrap();
    (r, a, b, c)
}

#[test]
fn titles_follow_paths() {
    assert_eq!(title_for(&Some("/x/y/readme.md".to_string())), "readme.md");
    assert_eq!(title_for(&None), "Untitled");
    assert_eq!(title_for(&Some("/".to_string())), "/");
}

#[test]
fn open_appends_and_activates() {
    let (r, a, b, c) = three();
    assert_eq!(r.len(), 3);
    assert_eq!(r.active(), Some(c));
    assert_eq!(r.get(0).unwrap().id, a);
    assert_eq!(r.get(1).unwrap().title(), "b.txt");
    assert_eq!(r.position(b), Some(1));
}

#[test]
fn closing_the_last_activates_the_previous() {
    let (mut r, a, b, c) = three();
    assert!(r.close(c));
    assert_eq!(r.active(), Some(b));
    assert_eq!(r.len(), 2);
    assert_eq!(r.position(a), Some(0));
}

#[test]
fn closing_the_first_activates_the_next() {
    let (mut r, a, b, _c) = three();
    r.activate(a);
    assert!(r.close(a));
    assert_eq!(r.active(), Some(b));
    assert_eq!(r.active_tab().unwrap().title(), "b.txt");
}

#[test]
fn closing_the_sole_tab_leaves_one_blank_tab() {
    let mut r = TabRegistry::new();
    let only = r.open(Some("/d/only.rs".to_string())).unwrap();
    assert!(r.close(only));
    assert_eq!(r.len(), 1);
    let t = r.active_tab().unwrap();
    assert!(t.path.is_none());
    assert_eq!(t.title(), "Untitled");
    assert_ne!(t.id, only);
}

#[test]
fn unknown_ids_change_nothing() {
    let (mut r, _a, _b, c) = three();
    assert!(!r.close(77));
    assert!(!r.activate(77));
    assert!(!r.set_path(77, "/x".to_string()));
    assert_eq!(r.len(), 3);
    assert_eq!(r.active(), Some(c));
}

#[test]
fn set_path_retitles() {
    let mut r = TabRegistry::new();
    let t = r.open(None).unwrap();
    assert_eq!(r.active_tab().unwrap().title(), "Untitled");
    assert!(r.set_path(t, "/home/u/notes.txt".to_string()));
    assert_eq!(r.active_tab().unwrap().title(), "notes.txt");
    assert_eq!(r.active_tab().unwrap().path.as_deref(), Some("/home/u/notes.txt"));
}
