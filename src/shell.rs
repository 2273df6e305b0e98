//! The command reducer: it owns the navigation tree, the tab registry and the
//! configuration, applies one message at a time, and names the one follow-up
//! action (if any) that the surrounding application must perform.
use vstd::prelude::*;
use vstd::string::StringExecFns;
use crate::node::{views, Node};
use crate::tabs::{
    activate_post, close_post, open_post, registry_ok, set_path_post, tab_index, RegistryView,
    TabRegistry,
};
use crate::tree::{
    collapse_post, expand_post, ids_ok, index_of_id, project_post, shaped, NavTree, ProjectError,
};

verus! {

/// Options applied uniformly to every open document.
#[derive(Clone, Copy, Debug, PartialEq, Eq, Structural)]
pub struct Config {
    pub wrap: bool,
}

impl Config {
    /// The default configuration: no line wrapping.
    pub fn new() -> (r: Config)
        ensures
            r.wrap == false,
    {
        Config { wrap: false }
    }
}

/// A command for the reducer.
#[derive(Debug)]
pub enum Message {
    /// Open a new untitled tab.
    New,
    /// Ask the user for a file to open.
    OpenDialog,
    /// Open a tab for a path.
    Open(String),
    /// Save the active tab.
    Save,
    /// The user chose where to save the tab `tab` (`None`: cancelled).
    SaveAs(u64, Option<String>),
    /// Make a tab active.
    TabActivate(u64),
    /// Close a tab.
    TabClose(u64),
    /// A command that is not implemented yet.
    Todo,
    /// Set line wrapping for every tab.
    Wrap(bool),
}

/// What the surrounding application must do after a message.
#[derive(Debug)]
pub enum Effect {
    /// Nothing.
    Nothing,
    /// Show these header and window titles.
    Title { header: String, window: String },
    /// Ask the user for a file; a choice comes back as `Message::Open`.
    PickFile,
    /// Ask the user where to save the tab `tab`; the answer comes back as
    /// `Message::SaveAs`.
    PickSavePath { tab: u64 },
    /// Write the document of the tab `tab` to `path`.
    Persist { tab: u64, path: String },
    /// List the directory `path` and hand its entries to `expand_folder(id, ..)`.
    ListDir { id: u64, path: String },
    /// Apply the line-wrap setting to every tab's document.
    ApplyWrap(bool),
}

/// A command-line argument, once the surrounding application has looked at
/// the filesystem: a directory with its entries, or a path to open as a tab.
#[derive(Debug)]
pub enum StartArg {
    Project { root: Node, kids: Vec<Node> },
    File(String),
}

pub open spec fn is_file_arg(a: StartArg) -> bool {
    a is File
}

pub open spec fn file_arg_path(a: StartArg) -> Seq<char> {
    match a {
        StartArg::File(p) => p@,
        StartArg::Project { .. } => Seq::empty(),
    }
}

/// What `Message::Save` asks for with the registry `r`: writing the active
/// tab to its path, asking for a path first where it has none, or nothing
/// where no tab is active.
pub open spec fn is_save_effect(e: Effect, r: RegistryView) -> bool {
    if r.active is Some && tab_index(r.tabs, r.active->0) >= 0 {
        let t = r.tabs[tab_index(r.tabs, r.active->0)];
        match t.path {
            Some(p) => e matches Effect::Persist { tab, path } && tab == t.id && path@ == p,
            None => e matches Effect::PickSavePath { tab } && tab == t.id,
        }
    } else {
        e is Nothing
    }
}

/// The header title when no tab is active.
pub open spec fn no_file() -> Seq<char> {
    "No Open File"@
}

/// What follows the tab title in the window title.
pub open spec fn product_suffix() -> Seq<char> {
    " - COSMIC Text Editor"@
}

/// The header title: the active tab's title, or `no_file()`.
pub open spec fn header_of(r: RegistryView) -> Seq<char> {
    if r.active is Some && tab_index(r.tabs, r.active->0) >= 0 {
        r.tabs[tab_index(r.tabs, r.active->0)].title
    } else {
        no_file()
    }
}

/// `e` shows the titles that the registry `r` calls for.
pub open spec fn is_title_effect(e: Effect, r: RegistryView) -> bool {
    match e {
        Effect::Title { header, window } => header@ == header_of(r) && window@ == header_of(r)
            + product_suffix(),
        _ => false,
    }
}

/// One editor window: a navigation tree, tabs, and the configuration.
pub struct App {
    pub nav: NavTree,
    pub tabs: TabRegistry,
    pub config: Config,
}

impl App {
    /// The invariant kept by every operation once the window is set up.
    pub open spec fn wf(&self) -> bool {
        &&& registry_ok(self.tabs@)
        &&& ids_ok(self.nav@)
        &&& shaped(self.nav@.entries)
    }

    /// A window with no project and no tab yet.
    pub fn new(config: Config) -> (r: App)
        ensures
            r.wf(),
            r.nav@.entries.len() == 0,
            r.tabs@.tabs.len() == 0,
            r.tabs@.next_id == 0,
            r.config == config,
    {
        App { nav: NavTree::new(), tabs: TabRegistry::new(), config }
    }

    /// The active tab, if any.
    pub fn active_tab(&self) -> (r: Option<&crate::tabs::Tab>)
        ensures
            match r {
                Some(t) => self.tabs@.active == Some(t@.id) && tab_index(self.tabs@.tabs, t@.id)
                    >= 0 && t@ == self.tabs@.tabs[tab_index(self.tabs@.tabs, t@.id)],
                None => self.tabs@.active is None || tab_index(
                    self.tabs@.tabs,
                    self.tabs@.active->0,
                ) == -1,
            },
    {
        self.tabs.active_tab()
    }

    /// Whether the navigation bar is shown: only when a project is open.
    pub fn nav_bar_active(&self) -> (r: bool)
        ensures
            r == (self.nav@.entries.len() > 0),
    {
        self.nav.len() > 0
    }

    /// Opens the project folder `root` with its entries `kids`.
    pub fn open_project(&mut self, root: Node, kids: Vec<Node>) -> (r: Result<u64, ProjectError>)
        ensures
            project_post(old(self).nav@, root@, views(kids@), r, final(self).nav@),
            final(self).tabs@ == old(self).tabs@,
            final(self).config == old(self).config,
            old(self).wf() ==> final(self).wf(),
    {
        let ghost t0 = self.nav@;
        let r = self.nav.open_project(root, kids);
        proof {
            crate::tree::lemma_project_ids(t0, root@, views(kids@), r, self.nav@);
        }
        r
    }

    /// Opens a tab for `path` (untitled for `None`) and makes it active.
    pub fn open_tab(&mut self, path: Option<String>) -> (r: Option<u64>)
        ensures
            open_post(old(self).tabs@, crate::tabs::opt_view(&path), final(self).tabs@),
            r == (if old(self).tabs@.next_id == u64::MAX {
                None
            } else {
                Some(old(self).tabs@.next_id)
            }),
            final(self).nav@ == old(self).nav@,
            final(self).config == old(self).config,
            old(self).wf() ==> final(self).wf(),
    {
        self.tabs.open(path)
    }

    /// The titles to show: the active tab's title, or a placeholder, and the
    /// same followed by the product name for the window.
    pub fn update_title(&self) -> (r: Effect)
        ensures
            is_title_effect(r, self.tabs@),
    {
        let header = match self.tabs.active_tab() {
            Some(t) => t.title().clone(),
            None => "No Open File".to_owned(),
        };
        let window = header.clone().concat(" - COSMIC Text Editor");
        Effect::Title { header, window }
    }
}

impl App {
    /// Starts a window from its command-line arguments, in order: projects
    /// are opened in the tree, files as tabs; with no tab opened, one
    /// untitled tab is. Returns the window and the titles to show.
    pub fn init(config: Config, args: Vec<StartArg>) -> (r: (App, Effect))
        ensures
            r.0.wf(),
            r.0.tabs@.tabs.len() >= 1,
            r.0.tabs@.active is Some,
            r.0.config == config,
            is_title_effect(r.1, r.0.tabs@),
            args@.len() == 0 ==> r.0.nav@.entries.len() == 0 && r.0.tabs@.tabs.len() == 1
                && r.0.tabs@.tabs[0].path is None && r.0.tabs@.tabs[0].title == crate::tabs::untitled(),
            (forall|i: int| 0 <= i < args@.len() ==> is_file_arg(#[trigger] args@[i])) ==> {
                &&& r.0.nav@.entries.len() == 0
                &&& args@.len() > 0 ==> {
                    &&& r.0.tabs@.tabs.len() == args@.len()
                    &&& r.0.tabs@.active == Some(r.0.tabs@.tabs.last().id)
                    &&& forall|i: int|
                        0 <= i < args@.len() ==> r.0.tabs@.tabs[i].path == Some(
                            file_arg_path(#[trigger] args@[i]),
                        ) && crate::tabs::is_title_for(
                            r.0.tabs@.tabs[i].path,
                            r.0.tabs@.tabs[i].title,
                        )
                }
            },
    {
        let mut app = App::new(config);
        let mut args = args;
        let ghost all = args@;
        let n = args.len();
        assert(args@ =~= all.subrange(0, n as int));
        let mut i: usize = 0;
        while i < n
            invariant
                n == all.len(),
                i <= n,
                args@ == all.subrange(i as int, n as int),
                app.wf(),
                app.config == config,
                app.tabs@.next_id <= i,
                app.tabs@.tabs.len() == app.tabs@.next_id,
                (forall|k: int| 0 <= k < i ==> is_file_arg(#[trigger] all[k])) ==> {
                    &&& app.nav@.entries.len() == 0
                    &&& app.tabs@.tabs.len() == i
                    &&& i > 0 ==> app.tabs@.active == Some(app.tabs@.tabs.last().id)
                    &&& forall|k: int|
                        0 <= k < i ==> app.tabs@.tabs[k].path == Some(file_arg_path(#[trigger] all[k]))
                            && crate::tabs::is_title_for(
                            app.tabs@.tabs[k].path,
                            app.tabs@.tabs[k].title,
                        )
                },
            decreases n - i,
        {
            let ghost before = app.tabs@;
            let ghost rest = args@;
            let arg = args.remove(0);
            assert(arg == all[i as int]);
            assert(args@ =~= all.subrange(i + 1, n as int));
            match arg {
                StartArg::Project { root, kids } => {
                    let _ = app.open_project(root, kids);
                },
                StartArg::File(path) => {
                    let _ = app.open_tab(Some(path));
                    proof {
                        let t = app.tabs@.tabs;
                        assert(forall|k: int| 0 <= k < before.tabs.len() ==> t[k] == before.tabs[k]) by {
                            assert(t.drop_last() == before.tabs);
                        }
                    }
                },
            }
            i = i + 1;
        }
        if app.tabs.is_empty() {
            let _ = app.open_tab(None);
            proof {
                reveal_strlit("Untitled");
            }
        }
        let title = app.update_title();
        (app, title)
    }

    /// Lists the entries `kids` of the folder `id` under it (see
    /// `NavTree::expand`).
    pub fn expand_folder(&mut self, id: u64, kids: Vec<Node>) -> (r: bool)
        ensures
            r == crate::tree::expandable(old(self).nav@, id, kids@.len()),
            expand_post(old(self).nav@, id, views(kids@), final(self).nav@),
            final(self).tabs@ == old(self).tabs@,
            final(self).config == old(self).config,
            old(self).wf() ==> final(self).wf(),
    {
        let ghost t0 = self.nav@;
        let r = self.nav.expand(id, kids);
        proof {
            crate::tree::lemma_expand_ids(t0, id, views(kids@), self.nav@);
        }
        r
    }

    /// The user selected the row `id` of the tree. An open folder is
    /// collapsed; for a closed folder its directory must be listed (and then
    /// handed to `expand_folder`); a file is opened in a new active tab.
    pub fn on_nav_select(&mut self, id: u64) -> (r: Effect)
        ensures
            final(self).config == old(self).config,
            old(self).wf() ==> final(self).wf(),
            ({
                let p = index_of_id(old(self).nav@.entries, id);
                let v = old(self).nav@.entries[p].node;
                if p < 0 {
                    r is Nothing && final(self).nav@ == old(self).nav@ && final(self).tabs@ == old(
                        self,
                    ).tabs@
                } else if v.is_open_folder() {
                    &&& r is Nothing
                    &&& collapse_post(old(self).nav@, id, final(self).nav@)
                    &&& final(self).tabs@ == old(self).tabs@
                } else if v.is_folder() {
                    &&& r matches Effect::ListDir { id: i, path } && i == id && path@ == v.path()
                    &&& final(self).nav@ == old(self).nav@
                    &&& final(self).tabs@ == old(self).tabs@
                } else {
                    &&& final(self).nav@ == old(self).nav@
                    &&& open_post(old(self).tabs@, Some(v.path()), final(self).tabs@)
                    &&& is_title_effect(r, final(self).tabs@)
                }
            }),
    {
        proof {
            crate::tree::lemma_index_of_id(self.nav@.entries, id);
        }
        let (is_folder, is_open, path) = match self.nav.node(id) {
            None => {
                return Effect::Nothing;
            },
            Some(n) => (n.is_folder(), n.is_open(), n.path().clone()),
        };
        if is_open {
            let ghost t0 = self.nav@;
            self.nav.collapse(id);
            proof {
                crate::tree::lemma_collapse_ids(t0, id, self.nav@);
            }
            Effect::Nothing
        } else if is_folder {
            Effect::ListDir { id, path }
        } else {
            self.open_tab(Some(path));
            self.update_title()
        }
    }

    /// Applies one message and returns what the application must do next.
    pub fn update(&mut self, msg: Message) -> (r: Effect)
        ensures
            old(self).wf() ==> final(self).wf(),
            final(self).nav@ == old(self).nav@,
            match msg {
                Message::New => open_post(old(self).tabs@, None, final(self).tabs@)
                    && is_title_effect(r, final(self).tabs@) && final(self).config == old(
                    self,
                ).config,
                Message::OpenDialog => r is PickFile && final(self).tabs@ == old(self).tabs@
                    && final(self).config == old(self).config,
                Message::Open(path) => open_post(old(self).tabs@, Some(path@), final(self).tabs@)
                    && is_title_effect(r, final(self).tabs@) && final(self).config == old(
                    self,
                ).config,
                Message::Save => is_save_effect(r, old(self).tabs@) && final(self).tabs@ == old(
                    self,
                ).tabs@ && final(self).config == old(self).config,
                Message::SaveAs(tab, Some(path)) => {
                    &&& set_path_post(old(self).tabs@, tab, path@, final(self).tabs@)
                    &&& tab_index(old(self).tabs@.tabs, tab) >= 0 ==> (r matches Effect::Persist {
                        tab: t,
                        path: p,
                    } && t == tab && p@ == path@)
                    &&& tab_index(old(self).tabs@.tabs, tab) < 0 ==> r is Nothing
                    &&& final(self).config == old(self).config
                },
                Message::SaveAs(_, None) => r is Nothing && final(self).tabs@ == old(self).tabs@
                    && final(self).config == old(self).config,
                Message::TabActivate(id) => activate_post(old(self).tabs@, id, final(self).tabs@)
                    && is_title_effect(r, final(self).tabs@) && final(self).config == old(
                    self,
                ).config,
                Message::TabClose(id) => (exists|done: bool|
                    close_post(old(self).tabs@, id, done, final(self).tabs@)) && is_title_effect(
                    r,
                    final(self).tabs@,
                ) && final(self).config == old(self).config,
                Message::Todo => r is Nothing && final(self).tabs@ == old(self).tabs@
                    && final(self).config == old(self).config,
                Message::Wrap(w) => r matches Effect::ApplyWrap(x) && x == w
                    && final(self).tabs@ == old(self).tabs@ && final(self).config == (Config {
                    wrap: w,
                }),
            },
    {
        match msg {
            Message::New => {
                self.open_tab(None);
                self.update_title()
            },
            Message::OpenDialog => Effect::PickFile,
            Message::Open(path) => {
                self.open_tab(Some(path));
                self.update_title()
            },
            Message::Save => match self.tabs.active_tab() {
                Some(tab) => match &tab.path {
                    Some(path) => Effect::Persist { tab: tab.id, path: path.clone() },
                    None => Effect::PickSavePath { tab: tab.id },
                },
                None => Effect::Nothing,
            },
            Message::SaveAs(tab, Some(path)) => {
                let target = path.clone();
                if self.tabs.set_path(tab, path) {
                    Effect::Persist { tab, path: target }
                } else {
                    Effect::Nothing
                }
            },
            Message::SaveAs(_, None) => Effect::Nothing,
            Message::TabActivate(id) => {
                self.tabs.activate(id);
                self.update_title()
            },
            Message::TabClose(id) => {
                let done = self.tabs.close(id);
                assert(close_post(old(self).tabs@, id, done, self.tabs@));
                self.update_title()
            },
            Message::Todo => Effect::Nothing,
            Message::Wrap(wrap) => {
                self.config.wrap = wrap;
                Effect::ApplyWrap(wrap)
            },
        }
    }
}

} // verus!
