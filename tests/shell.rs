use cosmic_edit::node::Node;
use cosmic_edit::shell::{App, Config, Effect, Message, StartArg};

fn titles(e: &Effect) -> (String, String) {
    match e {
        Effect::Title { header, window } => (header.clone(), window.clone()),
        other => panic!("not a title: {:?}", other),
    }
}

#[test]
fn config_defaults_to_no_wrap() {
    assert!(!Config::new().wrap);
}

#[test]
fn one_file_argument_gives_one_active_tab() {
    let (app, e) = App::init(Config::new(), vec![StartArg::File("/x/y/readme.md".to_string())]);
    assert_eq!(app.tabs.len(), 1);
    assert_eq!(app.active_tab().unwrap().title(), "readme.md");
    assert!(!app.nav_bar_active());
    assert_eq!(titles(&e), ("readme.md".to_string(), "readme.md - COSMIC Text Editor".to_string()));
}

#[test]
fn no_arguments_gives_one_blank_tab() {
    let (app, e) = App::init(Config::new(), vec![]);
    assert_eq!(app.tabs.len(), 1);
    assert!(app.active_tab().unwrap().path.is_none());
    assert_eq!(titles(&e).1, "Untitled - COSMIC Text Editor");
}

#[test]
fn project_argument_shows_the_tree_and_a_blank_tab() {
    let root = Node::new("/proj".to_string(), true);
    let kids = vec![Node::new("/proj/a.txt".to_string(), false)];
    let (app, _) = App::init(Config::new(), vec![StartArg::Project { root, kids }]);
    assert!(app.nav_bar_active());
    assert_eq!(app.nav.len(), 2);
    assert_eq!(app.tabs.len(), 1);
}

#[test]
fn title_without_tabs_is_the_placeholder() {
    let app = App::new(Config::new());
    assert_eq!(
        titles(&app.update_title()),
        ("No Open File".to_string(), "No Open File - COSMIC Text Editor".to_string())
    );
}

#[test]
fn messages_drive_tabs_and_effects() {
    let (mut app, _) = App::init(Config::new(), vec![]);
    let blank = app.tabs.active().unwrap();
    assert!(matches!(app.update(Message::OpenDialog), Effect::PickFile));
    let e = app.update(Message::Open("/d/main.rs".to_string()));
    assert_eq!(titles(&e).0, "main.rs");
    let main = app.tabs.active().unwrap();
    match app.update(Message::Save) {
        Effect::Persist { tab, path } => {
            assert_eq!(tab, main);
            assert_eq!(path, "/d/main.rs");
        }
        other => panic!("{:?}", other),
    }
    let e = app.update(Message::TabActivate(blank));
    assert_eq!(titles(&e).0, "Untitled");
    assert!(matches!(app.update(Message::Save), Effect::PickSavePath { tab } if tab == blank));
    assert!(matches!(app.update(Message::SaveAs(blank, None)), Effect::Nothing));
    match app.update(Message::SaveAs(blank, Some("/d/new.txt".to_string()))) {
        Effect::Persist { tab, path } => {
            assert_eq!(tab, blank);
            assert_eq!(path, "/d/new.txt");
        }
        other => panic!("{:?}", other),
    }
    assert_eq!(app.active_tab().unwrap().title(), "new.txt");
    let e = app.update(Message::TabClose(blank));
    assert_eq!(titles(&e).0, "main.rs");
    assert!(matches!(app.update(Message::Wrap(true)), Effect::ApplyWrap(true)));
    assert!(app.config.wrap);
    assert!(matches!(app.update(Message::Todo), Effect::Nothing));
    let e = app.update(Message::New);
    assert_eq!(titles(&e).0, "Untitled");
    assert_eq!(app.tabs.len(), 2);
}

#[test]
fn selecting_rows_toggles_folders_and_opens_files() {
    let (mut app, _) = App::init(Config::new(), vec![]);
    let root = Node::new("/p".to_string(), true);
    app.open_project(root, vec![Node::new("/p/sub".to_string(), true), Node::new("/p/f.txt".to_string(), false)])
        .unwrap();
    let sub = app.nav.entity_at(1).unwrap();
    match app.on_nav_select(sub) {
        Effect::ListDir { id, path } => {
            assert_eq!(id, sub);
            assert_eq!(path, "/p/sub");
        }
        other => panic!("{:?}", other),
    }
    assert!(app.expand_folder(sub, vec![Node::new("/p/sub/x".to_string(), false)]));
    assert_eq!(app.nav.len(), 4);
    assert!(matches!(app.on_nav_select(sub), Effect::Nothing));
    assert_eq!(app.nav.len(), 3);
    let f = app.nav.entity_at(2).unwrap();
    let e = app.on_nav_select(f);
    assert_eq!(titles(&e).0, "f.txt");
    assert_eq!(app.tabs.len(), 2);
    assert!(matches!(app.on_nav_select(999), Effect::Nothing));
}
