//! Open documents: each tab has an id, an optional backing path and a title
//! derived from it; the registry keeps them in order with one active tab.
use vstd::prelude::*;
use crate::names::{bytes_of, final_component, final_component_of};

verus! {

/// The title of a tab without a path.
pub open spec fn untitled() -> Seq<char> {
    "Untitled"@
}

/// `title` is the title of a tab whose path is `path`: the path's final
/// component, the whole path where that is empty, or `untitled()`.
pub open spec fn is_title_for(path: Option<Seq<char>>, title: Seq<char>) -> bool {
    match path {
        None => title == untitled(),
        Some(p) => if final_component(bytes_of(p)).len() > 0 {
            bytes_of(title) == final_component(bytes_of(p))
        } else {
            title == p
        },
    }
}

/// The title of a tab whose path is `path`.
pub fn title_for(path: &Option<String>) -> (r: String)
    ensures
        is_title_for(opt_view(path), r@),
{
    match path {
        None => "Untitled".to_owned(),
        Some(p) => {
            let name = final_component_of(p.as_str());
            if name.as_str().is_empty() {
                p.as_str().to_owned()
            } else {
                proof {
                    vstd::utf8::encode_utf8_valid_utf8(name@);
                }
                name
            }
        },
    }
}

pub open spec fn opt_view(p: &Option<String>) -> Option<Seq<char>> {
    match p {
        Some(s) => Some(s@),
        None => None,
    }
}

/// One open document.
#[derive(Debug)]
pub struct Tab {
    pub id: u64,
    pub path: Option<String>,
    pub title: String,
}

pub struct TabView {
    pub id: u64,
    pub path: Option<Seq<char>>,
    pub title: Seq<char>,
}

impl View for Tab {
    type V = TabView;

    open spec fn view(&self) -> TabView {
        TabView { id: self.id, path: opt_view(&self.path), title: self.title@ }
    }
}

impl Tab {
    /// A tab with id `id` for `path`, titled after it.
    pub fn new(id: u64, path: Option<String>) -> (r: Tab)
        ensures
            r@.id == id,
            r@.path == opt_view(&path),
            is_title_for(r@.path, r@.title),
    {
        let title = title_for(&path);
        Tab { id, path, title }
    }

    pub fn title(&self) -> (r: &String)
        ensures
            r@ == self@.title,
    {
        &self.title
    }
}

/// The tabs in order, the active one's id, and the id the next tab will get.
pub struct RegistryView {
    pub tabs: Seq<TabView>,
    pub active: Option<u64>,
    pub next_id: u64,
}

pub struct TabRegistry {
    tabs: Vec<Tab>,
    active: Option<u64>,
    next_id: u64,
}

pub open spec fn tab_views(s: Seq<Tab>) -> Seq<TabView> {
    s.map_values(|t: Tab| t@)
}

/// Index of the first tab with id `id`, or -1.
pub open spec fn tab_index(s: Seq<TabView>, id: u64) -> int
    decreases s.len(),
{
    if s.len() == 0 {
        -1
    } else if tab_index(s.drop_last(), id) >= 0 {
        tab_index(s.drop_last(), id)
    } else if s.last().id == id {
        s.len() - 1
    } else {
        -1
    }
}

pub proof fn lemma_tab_index(s: Seq<TabView>, id: u64)
    ensures
        -1 <= tab_index(s, id) < s.len(),
        tab_index(s, id) >= 0 ==> s[tab_index(s, id)].id == id && forall|k: int|
            0 <= k < tab_index(s, id) ==> s[k].id != id,
        tab_index(s, id) == -1 ==> forall|k: int| 0 <= k < s.len() ==> s[k].id != id,
    decreases s.len(),
{
    if s.len() > 0 {
        let d = s.drop_last();
        lemma_tab_index(d, id);
        assert(forall|k: int| 0 <= k < d.len() ==> d[k] == s[k]);
        if tab_index(d, id) == -1 {
            assert(forall|k: int| 0 <= k < d.len() ==> #[trigger] s[k].id != id);
        }
    }
}

/// A tab with id `id` before which no tab has that id is the first one.
pub proof fn lemma_tab_index_at(s: Seq<TabView>, id: u64, p: int)
    requires
        0 <= p < s.len(),
        s[p].id == id,
        forall|k: int| 0 <= k < p ==> s[k].id != id,
    ensures
        tab_index(s, id) == p,
{
    lemma_tab_index(s, id);
}

/// Ids are unique and below the next id; the active id names a tab exactly
/// when there is one.
pub open spec fn registry_ok(r: RegistryView) -> bool {
    &&& forall|i: int| 0 <= i < r.tabs.len() ==> #[trigger] r.tabs[i].id < r.next_id
    &&& forall|i: int, j: int|
        0 <= i < j < r.tabs.len() ==> #[trigger] r.tabs[i].id != #[trigger] r.tabs[j].id
    &&& r.tabs.len() > 0 <==> r.active is Some
    &&& r.active is Some ==> tab_index(r.tabs, r.active->0) >= 0
}

/// A fresh tab for `path`: titled after it, with the next id.
pub open spec fn fresh_tab(r: RegistryView, tab: TabView, path: Option<Seq<char>>) -> bool {
    tab.id == r.next_id && tab.path == path && is_title_for(path, tab.title)
}

/// What `open(path)` leaves: the registry unchanged once every id is used,
/// else a fresh tab for `path` appended and made active.
pub open spec fn open_post(old: RegistryView, path: Option<Seq<char>>, new: RegistryView) -> bool {
    if old.next_id == u64::MAX {
        new == old
    } else {
        &&& new.tabs.len() == old.tabs.len() + 1
        &&& new.tabs.drop_last() == old.tabs
        &&& fresh_tab(old, new.tabs.last(), path)
        &&& new.active == Some(old.next_id)
        &&& new.next_id == old.next_id + 1
    }
}

/// What `activate(id)` leaves.
pub open spec fn activate_post(old: RegistryView, id: u64, new: RegistryView) -> bool {
    if tab_index(old.tabs, id) >= 0 {
        new == RegistryView { active: Some(id), ..old }
    } else {
        new == old
    }
}

/// What `set_path(id, path)` leaves: the tab `id` backed by `path` and titled
/// after it, everything else as it was.
pub open spec fn set_path_post(old: RegistryView, id: u64, path: Seq<char>, new: RegistryView) -> bool {
    let p = tab_index(old.tabs, id);
    if p >= 0 {
        &&& new.tabs.len() == old.tabs.len()
        &&& forall|k: int| 0 <= k < old.tabs.len() && k != p ==> new.tabs[k] == old.tabs[k]
        &&& new.tabs[p].id == id
        &&& new.tabs[p].path == Some(path)
        &&& is_title_for(Some(path), new.tabs[p].title)
        &&& new.active == old.active
        &&& new.next_id == old.next_id
    } else {
        new == old
    }
}

/// What `close(id)` leaves, when it returns `done`.
pub open spec fn close_post(old: RegistryView, id: u64, done: bool, new: RegistryView) -> bool {
    let p = tab_index(old.tabs, id);
    if p < 0 || (old.tabs.len() == 1 && old.next_id == u64::MAX) {
        !done && new == old
    } else if old.tabs.len() == 1 {
        &&& done
        &&& new.tabs.len() == 1
        &&& fresh_tab(old, new.tabs[0], None)
        &&& new.active == Some(old.next_id)
        &&& new.next_id == old.next_id + 1
    } else {
        &&& done
        &&& new.tabs == old.tabs.remove(p)
        &&& new.active == Some(
            if p > 0 {
                old.tabs[p - 1].id
            } else {
                old.tabs[1].id
            },
        )
        &&& new.next_id == old.next_id
    }
}

/// Closing a tab never leaves the registry empty: closing the only tab
/// leaves exactly one (a new untitled one), closing one of several leaves one
/// fewer.
pub proof fn lemma_close_keeps_a_tab(old: RegistryView, id: u64, done: bool, new: RegistryView)
    requires
        close_post(old, id, done, new),
        old.tabs.len() >= 1,
    ensures
        new.tabs.len() >= 1,
        done && old.tabs.len() == 1 ==> new.tabs.len() == 1 && new.tabs[0].path is None
            && new.tabs[0].title == untitled() && new.active == Some(new.tabs[0].id),
        done && old.tabs.len() > 1 ==> new.tabs.len() == old.tabs.len() - 1,
{
    lemma_tab_index(old.tabs, id);
}

impl View for TabRegistry {
    type V = RegistryView;

    closed spec fn view(&self) -> RegistryView {
        RegistryView { tabs: tab_views(self.tabs@), active: self.active, next_id: self.next_id }
    }
}

impl TabRegistry {
    /// An empty registry.
    pub fn new() -> (r: TabRegistry)
        ensures
            r@.tabs.len() == 0,
            r@.active is None,
            r@.next_id == 0,
            registry_ok(r@),
    {
        TabRegistry { tabs: Vec::new(), active: None, next_id: 0 }
    }

    pub fn len(&self) -> (r: usize)
        ensures
            r == self@.tabs.len(),
    {
        self.tabs.len()
    }

    pub fn is_empty(&self) -> (r: bool)
        ensures
            r == (self@.tabs.len() == 0),
    {
        self.tabs.len() == 0
    }

    /// The tab at `position`, if there is one.
    pub fn get(&self, position: usize) -> (r: Option<&Tab>)
        ensures
            match r {
                Some(t) => position < self@.tabs.len() && t@ == self@.tabs[position as int],
                None => position >= self@.tabs.len(),
            },
    {
        if position < self.tabs.len() {
            Some(&self.tabs[position])
        } else {
            None
        }
    }

    /// The id of the active tab, if any.
    pub fn active(&self) -> (r: Option<u64>)
        ensures
            r == self@.active,
    {
        self.active
    }

    /// The position of the tab with id `id`, if there is one.
    pub fn position(&self, id: u64) -> (r: Option<usize>)
        ensures
            match r {
                Some(p) => p < self@.tabs.len() && p as int == tab_index(self@.tabs, id),
                None => tab_index(self@.tabs, id) == -1,
            },
    {
        proof {
            lemma_tab_index(self@.tabs, id);
        }
        let mut i: usize = 0;
        while i < self.tabs.len()
            invariant
                i <= self.tabs@.len(),
                forall|k: int| 0 <= k < i ==> #[trigger] self.tabs@[k].id != id,
            decreases self.tabs.len() - i,
        {
            if self.tabs[i].id == id {
                proof {
                    lemma_tab_index_at(self@.tabs, id, i as int);
                }
                return Some(i);
            }
            i = i + 1;
        }
        proof {
            if tab_index(self@.tabs, id) >= 0 {
                assert(self.tabs@[tab_index(self@.tabs, id)].id == id);
            }
        }
        None
    }

    /// The active tab, if any.
    pub fn active_tab(&self) -> (r: Option<&Tab>)
        ensures
            match r {
                Some(t) => self@.active == Some(t@.id) && tab_index(self@.tabs, t@.id) >= 0
                    && t@ == self@.tabs[tab_index(self@.tabs, t@.id)],
                None => self@.active is None || tab_index(self@.tabs, self@.active->0) == -1,
            },
    {
        match self.active {
            None => None,
            Some(id) => match self.position(id) {
                Some(p) => {
                    proof {
                        lemma_tab_index(self@.tabs, id);
                    }
                    Some(&self.tabs[p])
                },
                None => None,
            },
        }
    }

    /// Appends a tab for `path`, titled after it, and makes it active.
    /// Returns its id; `None`, with nothing changed, once every id is used.
    pub fn open(&mut self, path: Option<String>) -> (r: Option<u64>)
        ensures
            r == (if old(self)@.next_id == u64::MAX {
                None
            } else {
                Some(old(self)@.next_id)
            }),
            open_post(old(self)@, opt_view(&path), final(self)@),
            registry_ok(old(self)@) ==> registry_ok(final(self)@),
    {
        if self.next_id == u64::MAX {
            return None;
        }
        let id = self.next_id;
        let ghost old_tabs = self@.tabs;
        let tab = Tab::new(id, path);
        self.tabs.push(tab);
        self.active = Some(id);
        self.next_id = id + 1;
        assert(self@.tabs.drop_last() =~= old_tabs);
        proof {
            let t = self@.tabs;
            lemma_tab_index(t, id);
            assert(t[t.len() - 1].id == id);
            assert(forall|k: int| 0 <= k < old_tabs.len() ==> t[k] == old_tabs[k]);
        }
        Some(id)
    }

    /// Makes the tab `id` active; false, with nothing changed, if there is none.
    pub fn activate(&mut self, id: u64) -> (r: bool)
        ensures
            r == (tab_index(old(self)@.tabs, id) >= 0),
            activate_post(old(self)@, id, final(self)@),
            registry_ok(old(self)@) ==> registry_ok(final(self)@),
    {
        match self.position(id) {
            Some(_) => {
                self.active = Some(id);
                true
            },
            None => false,
        }
    }

    /// Closes the tab `id`. The tab before it becomes active, or the one after
    /// it where it is the first. Closing the only tab leaves one new untitled
    /// tab, active. Returns false, with nothing changed, if there is no such
    /// tab, or if it is the only one and no id is left for the new tab.
    pub fn close(&mut self, id: u64) -> (r: bool)
        ensures
            close_post(old(self)@, id, r, final(self)@),
            registry_ok(old(self)@) ==> registry_ok(final(self)@),
    {
        let p = match self.position(id) {
            Some(p) => p,
            None => {
                return false;
            },
        };
        let ghost old_v = self@;
        if self.tabs.len() == 1 {
            if self.next_id == u64::MAX {
                return false;
            }
            self.tabs.remove(p);
            let blank = self.next_id;
            let tab = Tab::new(blank, None);
            self.tabs.push(tab);
            self.active = Some(blank);
            self.next_id = blank + 1;
            proof {
                lemma_tab_index(self@.tabs, blank);
                assert(self@.tabs[0].id == blank);
            }
            return true;
        }
        let next_active = if p > 0 {
            self.tabs[p - 1].id
        } else {
            self.tabs[1].id
        };
        self.active = Some(next_active);
        self.tabs.remove(p);
        assert(self@.tabs =~= old_v.tabs.remove(p as int));
        proof {
            lemma_tab_index(self@.tabs, next_active);
            let q: int = if p > 0 {
                p - 1
            } else {
                0
            };
            assert(self@.tabs[q].id == next_active);
        }
        true
    }

    /// Gives the tab `id` a backing path and titles it after that path.
    /// Returns false, with nothing changed, if there is no such tab.
    pub fn set_path(&mut self, id: u64, path: String) -> (r: bool)
        ensures
            r == (tab_index(old(self)@.tabs, id) >= 0),
            set_path_post(old(self)@, id, path@, final(self)@),
            registry_ok(old(self)@) ==> registry_ok(final(self)@),
    {
        let p = match self.position(id) {
            Some(p) => p,
            None => {
                return false;
            },
        };
        let ghost old_v = self@;
        let tab = Tab::new(id, Some(path));
        self.tabs.remove(p);
        self.tabs.insert(p, tab);
        assert(self@.tabs =~= old_v.tabs.update(p as int, tab@));
        proof {
            lemma_tab_index(old_v.tabs, id);
            if registry_ok(old_v) && self@.active is Some {
                let a = self@.active->0;
                lemma_tab_index(old_v.tabs, a);
                lemma_tab_index(self@.tabs, a);
                let q = tab_index(old_v.tabs, a);
                assert(self@.tabs[q].id == a);
            }
        }
        true
    }
}

} // verus!
