//! The navigation tree: a flat sequence of entries, each with a stable id, an
//! indent and a node. The descendants of an open folder are the entries right
//! after it with a greater indent, so expanding and collapsing work on one
//! contiguous range.
use vstd::prelude::*;
use crate::node::{sort_nodes, sorted_from, views, Node, NodeView};

verus! {

broadcast use vstd::seq_lib::group_to_multiset_ensures;

/// One row of the tree.
#[derive(Debug)]
pub struct Entry {
    pub id: u64,
    pub indent: u16,
    pub node: Node,
}

pub struct EntryView {
    pub id: u64,
    pub indent: u16,
    pub node: NodeView,
}

impl View for Entry {
    type V = EntryView;

    open spec fn view(&self) -> EntryView {
        EntryView { id: self.id, indent: self.indent, node: self.node@ }
    }
}

/// The rows in order and the id the next inserted row will get.
pub struct TreeView {
    pub entries: Seq<EntryView>,
    pub next_id: u64,
}

/// Why a project could not be opened.
#[derive(PartialEq, Eq, Structural, Debug, Clone, Copy)]
pub enum ProjectError {
    /// The project's path is not a directory.
    NotADirectory,
    /// No ids are left for the new rows.
    IdsExhausted,
}

/// The tree's rows; ids are never reused.
pub struct NavTree {
    entries: Vec<Entry>,
    next_id: u64,
}

pub open spec fn entry_views(s: Seq<Entry>) -> Seq<EntryView> {
    s.map_values(|e: Entry| e@)
}

/// Index of the first row with id `id`, or -1.
pub open spec fn index_of_id(s: Seq<EntryView>, id: u64) -> int
    decreases s.len(),
{
    if s.len() == 0 {
        -1
    } else if index_of_id(s.drop_last(), id) >= 0 {
        index_of_id(s.drop_last(), id)
    } else if s.last().id == id {
        s.len() - 1
    } else {
        -1
    }
}

/// First index at or after `q` whose indent is at most that of row `p`, or the
/// length of `s`.
pub open spec fn scan_end(s: Seq<EntryView>, p: int, q: int) -> int
    decreases s.len() - q,
{
    if q >= s.len() || q < 0 {
        s.len() as int
    } else if s[q].indent <= s[p].indent {
        q
    } else {
        scan_end(s, p, q + 1)
    }
}

/// End of the run of descendants of row `p`.
pub open spec fn run_end(s: Seq<EntryView>, p: int) -> int {
    scan_end(s, p, p + 1)
}

/// A row may follow another if it is at most one level deeper, and deeper only
/// below an open folder.
pub open spec fn step_ok(a: EntryView, b: EntryView) -> bool {
    &&& b.indent <= a.indent + 1
    &&& b.indent > a.indent ==> a.node.is_open_folder()
}

/// The rows form a tree in which only open folders have children listed, each
/// child one level deeper than its folder and right after it (or after its
/// earlier siblings and their descendants).
pub open spec fn shaped(s: Seq<EntryView>) -> bool {
    forall|i: int| 0 < i < s.len() ==> step_ok(s[i - 1], #[trigger] s[i])
}

/// Rows for `nodes` in order, at `indent`, with consecutive ids from `first_id`.
pub open spec fn child_entries(nodes: Seq<NodeView>, indent: int, first_id: int) -> Seq<
    EntryView,
> {
    Seq::new(
        nodes.len(),
        |i: int| EntryView { id: (first_id + i) as u64, indent: indent as u16, node: nodes[i] },
    )
}

/// The rows of `old` with the sorted `kids` inserted after row `p`, one level
/// deeper, and row `p` replaced by `head`.
pub open spec fn with_children(
    old: TreeView,
    p: int,
    head: EntryView,
    kids: Seq<NodeView>,
    new: TreeView,
) -> bool {
    exists|sorted: Seq<NodeView>|
        #![trigger sorted_from(kids, sorted)]
        sorted_from(kids, sorted) && new.entries == old.entries.subrange(0, p).push(head)
            + child_entries(sorted, head.indent + 1, old.next_id as int) + old.entries.subrange(
            p + 1,
            old.entries.len() as int,
        )
}

/// Whether `expand(id, kids)` has work to do: `id` names a closed folder that
/// is not at the deepest indent, and enough ids are left for the children.
pub open spec fn expandable(old: TreeView, id: u64, n: nat) -> bool {
    let p = index_of_id(old.entries, id);
    &&& p >= 0
    &&& old.entries[p].node.is_folder()
    &&& !old.entries[p].node.is_open_folder()
    &&& old.entries[p].indent < u16::MAX
    &&& old.next_id + n <= u64::MAX
}

/// What `expand(id, kids)` leaves.
pub open spec fn expand_post(old: TreeView, id: u64, kids: Seq<NodeView>, new: TreeView) -> bool {
    let p = index_of_id(old.entries, id);
    if expandable(old, id, kids.len()) {
        let e = old.entries[p];
        &&& with_children(
            old,
            p,
            EntryView { id: e.id, indent: e.indent, node: e.node.with_open(true) },
            kids,
            new,
        )
        &&& new.next_id == old.next_id + kids.len()
    } else {
        new == old
    }
}

/// Whether `collapse(id)` has work to do: `id` names a folder.
pub open spec fn collapsible(old: TreeView, id: u64) -> bool {
    let p = index_of_id(old.entries, id);
    p >= 0 && old.entries[p].node.is_folder()
}

/// What `collapse(id)` leaves: the folder closed and its descendants gone.
pub open spec fn collapse_post(old: TreeView, id: u64, new: TreeView) -> bool {
    let p = index_of_id(old.entries, id);
    if collapsible(old, id) {
        let e = old.entries[p];
        &&& new.entries == old.entries.subrange(0, p).push(
            EntryView { id: e.id, indent: e.indent, node: e.node.with_open(false) },
        ) + old.entries.subrange(run_end(old.entries, p), old.entries.len() as int)
        &&& new.next_id == old.next_id
    } else {
        new == old
    }
}

pub proof fn lemma_index_of_id(s: Seq<EntryView>, id: u64)
    ensures
        -1 <= index_of_id(s, id) < s.len(),
        index_of_id(s, id) >= 0 ==> s[index_of_id(s, id)].id == id && forall|k: int|
            0 <= k < index_of_id(s, id) ==> s[k].id != id,
        index_of_id(s, id) == -1 ==> forall|k: int| 0 <= k < s.len() ==> s[k].id != id,
    decreases s.len(),
{
    if s.len() > 0 {
        let d = s.drop_last();
        lemma_index_of_id(d, id);
        assert(forall|k: int| 0 <= k < d.len() ==> d[k] == s[k]);
        if index_of_id(d, id) == -1 {
            assert(forall|k: int| 0 <= k < d.len() ==> #[trigger] s[k].id != id);
        }
    }
}

/// A row with id `id` before which no row has that id is the first one.
pub proof fn lemma_index_of_id_at(s: Seq<EntryView>, id: u64, p: int)
    requires
        0 <= p < s.len(),
        s[p].id == id,
        forall|k: int| 0 <= k < p ==> s[k].id != id,
    ensures
        index_of_id(s, id) == p,
{
    lemma_index_of_id(s, id);
}

pub proof fn lemma_scan_end(s: Seq<EntryView>, p: int, q: int, b: int)
    requires
        0 <= p < s.len(),
        0 <= q <= b <= s.len(),
        forall|k: int| q <= k < b ==> s[k].indent > s[p].indent,
        b == s.len() || s[b].indent <= s[p].indent,
    ensures
        scan_end(s, p, q) == b,
    decreases s.len() - q,
{
    if q < b {
        lemma_scan_end(s, p, q + 1, b);
    }
}

pub proof fn lemma_scan_end_bounds(s: Seq<EntryView>, p: int, q: int)
    requires
        0 <= p < s.len(),
        0 <= q <= s.len(),
    ensures
        q <= scan_end(s, p, q) <= s.len(),
        forall|k: int| q <= k < scan_end(s, p, q) ==> s[k].indent > s[p].indent,
        scan_end(s, p, q) == s.len() || s[scan_end(s, p, q)].indent <= s[p].indent,
    decreases s.len() - q,
{
    if q < s.len() && s[q].indent > s[p].indent {
        lemma_scan_end_bounds(s, p, q + 1);
    }
}

/// Ids are unique and all below the next id.
pub open spec fn ids_ok(t: TreeView) -> bool {
    &&& forall|i: int| 0 <= i < t.entries.len() ==> #[trigger] t.entries[i].id < t.next_id
    &&& forall|i: int, j: int|
        0 <= i < j < t.entries.len() ==> #[trigger] t.entries[i].id != #[trigger] t.entries[j].id
}

/// A folder as the root of an opened project: open, and marked as root.
pub open spec fn rooted(v: NodeView) -> NodeView {
    match v {
        NodeView::Folder { path, name, .. } => NodeView::Folder { path, name, open: true, root: true },
        NodeView::File { .. } => v,
    }
}

/// What `open_project(root, kids)` returns and leaves.
pub open spec fn project_post(
    old: TreeView,
    root: NodeView,
    kids: Seq<NodeView>,
    r: Result<u64, ProjectError>,
    new: TreeView,
) -> bool {
    if !root.is_folder() {
        r == Err::<u64, ProjectError>(ProjectError::NotADirectory) && new == old
    } else if old.next_id + 1 + kids.len() > u64::MAX {
        r == Err::<u64, ProjectError>(ProjectError::IdsExhausted) && new == old
    } else {
        &&& r == Ok::<u64, ProjectError>(old.next_id)
        &&& exists|sorted: Seq<NodeView>|
            #![trigger sorted_from(kids, sorted)]
            sorted_from(kids, sorted) && new.entries == old.entries.push(
                EntryView { id: old.next_id, indent: 0, node: rooted(root) },
            ) + child_entries(sorted, 1, old.next_id + 1)
        &&& new.next_id == old.next_id + 1 + kids.len()
    }
}

proof fn lemma_expand_shaped(
    s: Seq<EntryView>,
    p: int,
    head: EntryView,
    c: Seq<EntryView>,
    n: Seq<EntryView>,
)
    requires
        shaped(s),
        0 <= p < s.len(),
        head.indent == s[p].indent,
        head.indent < u16::MAX,
        head.node.is_open_folder(),
        !s[p].node.is_open_folder(),
        forall|i: int| 0 <= i < c.len() ==> #[trigger] c[i].indent == head.indent + 1,
        n == s.subrange(0, p).push(head) + c + s.subrange(p + 1, s.len() as int),
    ensures
        shaped(n),
{
    let m = c.len();
    assert forall|i: int| 0 < i < n.len() implies step_ok(n[i - 1], #[trigger] n[i]) by {
        if i < p {
            assert(step_ok(s[i - 1], s[i]));
        } else if i == p {
            assert(step_ok(s[i - 1], s[i]));
        } else if i <= p + m {
            assert(n[i] == c[i - p - 1]);
            if i > p + 1 {
                assert(n[i - 1] == c[i - p - 2]);
            }
        } else {
            assert(n[i] == s[i - m]);
            assert(step_ok(s[i - m - 1], s[i - m]));
            if i == p + m + 1 {
                if m > 0 {
                    assert(n[i - 1] == c[m - 1]);
                }
            } else {
                assert(n[i - 1] == s[i - m - 1]);
            }
        }
    }
}

proof fn lemma_collapse_shaped(s: Seq<EntryView>, p: int, head: EntryView, q: int, n: Seq<EntryView>)
    requires
        shaped(s),
        0 <= p < s.len(),
        p + 1 <= q <= s.len(),
        head.indent == s[p].indent,
        q == s.len() || s[q].indent <= s[p].indent,
        n == s.subrange(0, p).push(head) + s.subrange(q, s.len() as int),
    ensures
        shaped(n),
{
    assert forall|i: int| 0 < i < n.len() implies step_ok(n[i - 1], #[trigger] n[i]) by {
        if i <= p {
            assert(step_ok(s[i - 1], s[i]));
        } else if i == p + 1 {
            assert(n[i] == s[q]);
        } else {
            assert(n[i] == s[q + i - p - 1]);
            assert(n[i - 1] == s[q + i - p - 2]);
            assert(step_ok(s[q + i - p - 2], s[q + i - p - 1]));
        }
    }
}

proof fn lemma_project_shaped(s: Seq<EntryView>, re: EntryView, c: Seq<EntryView>, n: Seq<EntryView>)
    requires
        shaped(s),
        re.indent == 0,
        re.node.is_open_folder(),
        forall|i: int| 0 <= i < c.len() ==> #[trigger] c[i].indent == 1,
        n == s.push(re) + c,
    ensures
        shaped(n),
{
    let l = s.len();
    assert forall|i: int| 0 < i < n.len() implies step_ok(n[i - 1], #[trigger] n[i]) by {
        if i < l {
            assert(step_ok(s[i - 1], s[i]));
        } else if i > l {
            assert(n[i] == c[i - l - 1]);
            if i > l + 1 {
                assert(n[i - 1] == c[i - l - 2]);
            }
        }
    }
}

/// The row `id` is not an open folder (it may be a closed folder, a file, or
/// absent).
pub open spec fn not_open(t: TreeView, id: u64) -> bool {
    let p = index_of_id(t.entries, id);
    !(p >= 0 && t.entries[p].node.is_open_folder())
}

/// In a shaped tree only an open folder has rows listed under it: the run
/// after any other row is empty, and every row of a run is deeper than the
/// row it follows.
pub proof fn lemma_runs(s: Seq<EntryView>, p: int)
    requires
        shaped(s),
        0 <= p < s.len(),
    ensures
        p + 1 <= run_end(s, p) <= s.len(),
        forall|k: int| p < k < run_end(s, p) ==> s[k].indent > s[p].indent,
        run_end(s, p) == s.len() || s[run_end(s, p)].indent <= s[p].indent,
        !s[p].node.is_open_folder() ==> run_end(s, p) == p + 1,
{
    lemma_scan_end_bounds(s, p, p + 1);
    if !s[p].node.is_open_folder() && p + 1 < s.len() {
        assert(step_ok(s[p], s[p + 1]));
        lemma_scan_end(s, p, p + 1, p + 1);
    }
}

/// Expanding a folder that is not open and then collapsing it gives back the
/// rows it started from: the same nodes, ids, positions and indents.
pub proof fn lemma_expand_collapse_round_trip(
    t0: TreeView,
    id: u64,
    kids: Seq<NodeView>,
    t1: TreeView,
    t2: TreeView,
)
    requires
        shaped(t0.entries),
        not_open(t0, id),
        expand_post(t0, id, kids, t1),
        collapse_post(t1, id, t2),
    ensures
        t2.entries == t0.entries,
{
    let s = t0.entries;
    let p = index_of_id(s, id);
    lemma_index_of_id(s, id);
    if p >= 0 {
        lemma_runs(s, p);
    }
    if expandable(t0, id, kids.len()) {
        let e = s[p];
        let head = EntryView { id: e.id, indent: e.indent, node: e.node.with_open(true) };
        let sorted = choose|sorted: Seq<NodeView>|
            #![trigger sorted_from(kids, sorted)]
            sorted_from(kids, sorted) && t1.entries == s.subrange(0, p).push(head) + child_entries(
                sorted,
                head.indent + 1,
                t0.next_id as int,
            ) + s.subrange(p + 1, s.len() as int);
        let c = child_entries(sorted, head.indent + 1, t0.next_id as int);
        let u = t1.entries;
        let m = c.len();
        assert(u[p] == head);
        assert forall|k: int| 0 <= k < p implies u[k].id != id by {
            assert(u[k] == s[k]);
        }
        lemma_index_of_id_at(u, id, p);
        assert forall|k: int| p + 1 <= k < p + 1 + m implies u[k].indent > u[p].indent by {
            assert(u[k] == c[k - p - 1]);
        }
        if p + 1 + m < u.len() {
            assert(u[p + 1 + m] == s[p + 1]);
        }
        lemma_scan_end(u, p, p + 1, p + 1 + m);
        assert(t2.entries =~= s);
    } else {
        if p >= 0 && s[p].node.is_folder() {
            assert(s[p].node.with_open(false) == s[p].node);
            assert(t2.entries =~= s);
        }
    }
}

/// Opening a project keeps ids unique and below the next id.
pub proof fn lemma_project_ids(
    old: TreeView,
    root: NodeView,
    kids: Seq<NodeView>,
    r: Result<u64, ProjectError>,
    new: TreeView,
)
    requires
        project_post(old, root, kids, r, new),
    ensures
        ids_ok(old) ==> ids_ok(new),
{
    if ids_ok(old) && r is Ok {
        let sorted = choose|sorted: Seq<NodeView>|
            #![trigger sorted_from(kids, sorted)]
            sorted_from(kids, sorted) && new.entries == old.entries.push(
                EntryView { id: old.next_id, indent: 0, node: rooted(root) },
            ) + child_entries(sorted, 1, old.next_id + 1);
        let l = old.entries.len();
        let c = child_entries(sorted, 1, old.next_id + 1);
        assert(sorted.len() == kids.len()) by {
            assert(sorted.len() == sorted.to_multiset().len());
            assert(kids.len() == kids.to_multiset().len());
        }
        assert forall|i: int| 0 <= i < new.entries.len() implies #[trigger] new.entries[i].id
            < new.next_id && (i >= l ==> new.entries[i].id == old.next_id + i - l) && (i < l
            ==> new.entries[i] == old.entries[i]) by {
            if i > l {
                assert(new.entries[i] == c[i - l - 1]);
            }
        }
    }
}

/// Expanding a folder keeps ids unique and below the next id.
pub proof fn lemma_expand_ids(old: TreeView, id: u64, kids: Seq<NodeView>, new: TreeView)
    requires
        expand_post(old, id, kids, new),
    ensures
        ids_ok(old) ==> ids_ok(new),
{
    if ids_ok(old) && expandable(old, id, kids.len()) {
        let p = index_of_id(old.entries, id);
        lemma_index_of_id(old.entries, id);
        let e = old.entries[p];
        let head = EntryView { id: e.id, indent: e.indent, node: e.node.with_open(true) };
        let sorted = choose|sorted: Seq<NodeView>|
            #![trigger sorted_from(kids, sorted)]
            sorted_from(kids, sorted) && new.entries == old.entries.subrange(0, p).push(head)
                + child_entries(sorted, head.indent + 1, old.next_id as int)
                + old.entries.subrange(p + 1, old.entries.len() as int);
        let c = child_entries(sorted, head.indent + 1, old.next_id as int);
        assert(sorted.len() == kids.len()) by {
            assert(sorted.len() == sorted.to_multiset().len());
            assert(kids.len() == kids.to_multiset().len());
        }
        let m = c.len();
        assert forall|i: int| 0 <= i < new.entries.len() implies #[trigger] new.entries[i].id
            < new.next_id && (p < i <= p + m ==> new.entries[i].id == old.next_id + i - p - 1)
            && (i <= p ==> new.entries[i].id == old.entries[i].id) && (i > p + m
            ==> new.entries[i] == old.entries[i - m]) by {
            if p < i <= p + m {
                assert(new.entries[i] == c[i - p - 1]);
            }
        }
        assert forall|i: int, j: int| 0 <= i < j < new.entries.len() implies #[trigger] new.entries[i].id
            != #[trigger] new.entries[j].id by {
            if i > p + m {
                assert(old.entries[i - m].id != old.entries[j - m].id);
            } else if i <= p && j > p + m {
                assert(old.entries[i].id != old.entries[j - m].id);
            } else if i <= p && j <= p {
                assert(old.entries[i].id != old.entries[j].id);
            }
        }
    }
}

/// Collapsing a folder keeps ids unique and below the next id.
pub proof fn lemma_collapse_ids(old: TreeView, id: u64, new: TreeView)
    requires
        collapse_post(old, id, new),
    ensures
        ids_ok(old) ==> ids_ok(new),
{
    if ids_ok(old) && collapsible(old, id) {
        let s = old.entries;
        let p = index_of_id(s, id);
        lemma_index_of_id(s, id);
        lemma_scan_end_bounds(s, p, p + 1);
        let q = run_end(s, p);
        let g = q - p - 1;
        assert forall|i: int| 0 <= i < new.entries.len() implies #[trigger] new.entries[i].id
            < new.next_id && (i <= p ==> new.entries[i].id == s[i].id) && (i > p
            ==> new.entries[i] == s[i + g]) by {}
        assert forall|i: int, j: int| 0 <= i < j < new.entries.len() implies #[trigger] new.entries[i].id
            != #[trigger] new.entries[j].id by {
            if i > p {
                assert(s[i + g].id != s[j + g].id);
            } else if j > p {
                assert(s[i].id != s[j + g].id);
            } else {
                assert(s[i].id != s[j].id);
            }
        }
    }
}

impl View for NavTree {
    type V = TreeView;

    closed spec fn view(&self) -> TreeView {
        TreeView { entries: entry_views(self.entries@), next_id: self.next_id }
    }
}

impl NavTree {
    /// An empty tree.
    pub fn new() -> (r: NavTree)
        ensures
            r@.entries.len() == 0,
            r@.next_id == 0,
            ids_ok(r@),
            shaped(r@.entries),
    {
        NavTree { entries: Vec::new(), next_id: 0 }
    }

    pub fn len(&self) -> (r: usize)
        ensures
            r == self@.entries.len(),
    {
        self.entries.len()
    }

    /// The row at `position`, if there is one.
    pub fn entry(&self, position: usize) -> (r: Option<&Entry>)
        ensures
            match r {
                Some(e) => position < self@.entries.len() && e@ == self@.entries[position as int],
                None => position >= self@.entries.len(),
            },
    {
        if position < self.entries.len() {
            Some(&self.entries[position])
        } else {
            None
        }
    }

    /// The id of the row at `position`, if there is one.
    pub fn entity_at(&self, position: usize) -> (r: Option<u64>)
        ensures
            match r {
                Some(id) => position < self@.entries.len() && id == self@.entries[position as int].id,
                None => position >= self@.entries.len(),
            },
    {
        if position < self.entries.len() {
            Some(self.entries[position].id)
        } else {
            None
        }
    }

    /// The position of the row with id `id`, if there is one.
    pub fn position(&self, id: u64) -> (r: Option<usize>)
        ensures
            match r {
                Some(p) => p < self@.entries.len() && p as int == index_of_id(self@.entries, id),
                None => index_of_id(self@.entries, id) == -1,
            },
    {
        proof {
            lemma_index_of_id(self@.entries, id);
        }
        let mut i: usize = 0;
        while i < self.entries.len()
            invariant
                i <= self.entries@.len(),
                forall|k: int| 0 <= k < i ==> #[trigger] self.entries@[k].id != id,
            decreases self.entries.len() - i,
        {
            if self.entries[i].id == id {
                proof {
                    lemma_index_of_id_at(self@.entries, id, i as int);
                }
                return Some(i);
            }
            i = i + 1;
        }
        proof {
            if index_of_id(self@.entries, id) >= 0 {
                assert(self.entries@[index_of_id(self@.entries, id)].id == id);
            }
        }
        None
    }

    /// The indent of the row with id `id`, if there is one.
    pub fn indent(&self, id: u64) -> (r: Option<u16>)
        ensures
            match r {
                Some(d) => index_of_id(self@.entries, id) >= 0 && d == self@.entries[index_of_id(
                    self@.entries,
                    id,
                )].indent,
                None => index_of_id(self@.entries, id) == -1,
            },
    {
        match self.position(id) {
            Some(p) => Some(self.entries[p].indent),
            None => None,
        }
    }

    /// The node of the row with id `id`, if there is one.
    pub fn node(&self, id: u64) -> (r: Option<&Node>)
        ensures
            match r {
                Some(n) => index_of_id(self@.entries, id) >= 0 && n@ == self@.entries[index_of_id(
                    self@.entries,
                    id,
                )].node,
                None => index_of_id(self@.entries, id) == -1,
            },
    {
        match self.position(id) {
            Some(p) => Some(&self.entries[p].node),
            None => None,
        }
    }

    /// Inserts a row at `position` and returns its new id; `None`, with the
    /// tree unchanged, once every id has been used.
    pub fn insert_at(&mut self, position: usize, indent: u16, node: Node) -> (r: Option<u64>)
        requires
            position <= old(self)@.entries.len(),
        ensures
            old(self)@.next_id == u64::MAX ==> r is None && final(self)@ == old(self)@,
            old(self)@.next_id < u64::MAX ==> r == Some(old(self)@.next_id) && final(self)@
                == (TreeView {
                entries: old(self)@.entries.insert(
                    position as int,
                    EntryView { id: old(self)@.next_id, indent, node: node@ },
                ),
                next_id: (old(self)@.next_id + 1) as u64,
            }),
            ids_ok(old(self)@) ==> ids_ok(final(self)@),
    {
        if self.next_id == u64::MAX {
            return None;
        }
        let id = self.next_id;
        let ghost old_entries = self@.entries;
        self.entries.insert(position, Entry { id, indent, node });
        self.next_id = id + 1;
        assert(self@.entries =~= old_entries.insert(
            position as int,
            EntryView { id, indent, node: node@ },
        ));
        Some(id)
    }

    /// Removes the row with id `id`; false, with the tree unchanged, if there
    /// is none.
    pub fn remove(&mut self, id: u64) -> (r: bool)
        ensures
            r == (index_of_id(old(self)@.entries, id) >= 0),
            r ==> final(self)@ == (TreeView {
                entries: old(self)@.entries.remove(index_of_id(old(self)@.entries, id)),
                next_id: old(self)@.next_id,
            }),
            !r ==> final(self)@ == old(self)@,
            ids_ok(old(self)@) ==> ids_ok(final(self)@),
    {
        match self.position(id) {
            Some(p) => {
                let ghost old_entries = self@.entries;
                self.entries.remove(p);
                assert(self@.entries =~= old_entries.remove(p as int));
                true
            },
            None => false,
        }
    }

    /// Inserts `kids`, sorted, after row `p` at `indent` with fresh ids.
    fn insert_children(&mut self, p: usize, indent: u16, kids: Vec<Node>)
        requires
            p < old(self)@.entries.len(),
            old(self)@.next_id + kids@.len() <= u64::MAX,
        ensures
            exists|sorted: Seq<NodeView>|
                #![trigger sorted_from(views(kids@), sorted)]
                sorted_from(views(kids@), sorted) && final(self)@.entries == old(
                    self,
                )@.entries.subrange(0, p + 1) + child_entries(
                    sorted,
                    indent as int,
                    old(self)@.next_id as int,
                ) + old(self)@.entries.subrange(p + 1, old(self)@.entries.len() as int),
            final(self)@.next_id == old(self)@.next_id + kids@.len(),
    {
        let ghost old_entries = self@.entries;
        let ghost len = old_entries.len();
        let mut sorted = sort_nodes(kids);
        let ghost sv = views(sorted@);
        let base = self.next_id;
        let n = sorted.len();
        let l = self.entries.len();
        assert(p < l);
        let at = p + 1;
        assert(child_entries(sv.subrange(n as int, n as int), indent as int, base + n)
            =~= Seq::<EntryView>::empty());
        assert(old_entries =~= old_entries.subrange(0, p + 1) + Seq::<EntryView>::empty()
            + old_entries.subrange(p + 1, len as int));
        while sorted.len() > 0
            invariant
                p < old_entries.len(),
                at == p + 1,
                len == old_entries.len(),
                p < self.entries@.len(),
                sorted@.len() <= n,
                n == sv.len(),
                base + n <= u64::MAX,
                views(sorted@) == sv.subrange(0, sorted@.len() as int),
                self@.entries == old_entries.subrange(0, p + 1) + child_entries(
                    sv.subrange(sorted@.len() as int, n as int),
                    indent as int,
                    base + sorted@.len(),
                ) + old_entries.subrange(p + 1, len as int),
                self@.next_id == base,
            decreases sorted.len(),
        {
            let ghost k0 = sorted@.len();
            let ghost cur = self@.entries;
            let ghost sb = sorted@;
            let node = sorted.pop().unwrap();
            let k = sorted.len();
            assert(sb =~= sorted@.push(node));
            assert(views(sb)[k as int] == node@);
            assert(views(sorted@) =~= sv.subrange(0, k as int));
            assert(node@ == sv[k as int]);
            let id = base + k as u64;
            self.entries.insert(at, Entry { id, indent, node });
            let ghost e = EntryView { id, indent, node: node@ };
            assert(child_entries(sv.subrange(k as int, n as int), indent as int, base + k) =~= seq![
                e,
            ] + child_entries(sv.subrange(k0 as int, n as int), indent as int, base + k0));
            assert(self@.entries =~= cur.insert(p + 1, e));
            assert(self@.entries =~= old_entries.subrange(0, p + 1) + child_entries(
                sv.subrange(k as int, n as int),
                indent as int,
                base + k,
            ) + old_entries.subrange(p + 1, len as int));
        }
        self.next_id = base + n as u64;
        assert(sv.subrange(0, n as int) =~= sv);
        assert(sorted_from(views(kids@), sv));
    }

    /// Lists `kids` under the closed folder `id`: sorted, one level deeper,
    /// right after it, with fresh ids; the folder is marked open. Does nothing
    /// and returns false unless `expandable`.
    pub fn expand(&mut self, id: u64, kids: Vec<Node>) -> (r: bool)
        ensures
            r == expandable(old(self)@, id, kids@.len()),
            expand_post(old(self)@, id, views(kids@), final(self)@),
            shaped(old(self)@.entries) ==> shaped(final(self)@.entries),
    {
        let p = match self.position(id) {
            Some(p) => p,
            None => {
                return false;
            },
        };
        let ghost t0 = self@;
        let indent = self.entries[p].indent;
        if !self.entries[p].node.is_folder() || self.entries[p].node.is_open() || indent
            == u16::MAX {
            return false;
        }
        if kids.len() as u64 > u64::MAX - self.next_id {
            return false;
        }
        let mut entry = self.entries.remove(p);
        entry.node.set_open(true);
        self.entries.insert(p, entry);
        let ghost head = t0.entries[p as int];
        let ghost head = EntryView { id: head.id, indent: head.indent, node: head.node.with_open(true) };
        assert(self@.entries =~= t0.entries.subrange(0, p as int).push(head) + t0.entries.subrange(
            p + 1,
            t0.entries.len() as int,
        ));
        let ghost t_mid = self@;
        self.insert_children(p, indent + 1, kids);
        proof {
            let sorted = choose|sorted: Seq<NodeView>|
                #![trigger sorted_from(views(kids@), sorted)]
                sorted_from(views(kids@), sorted) && self@.entries == t_mid.entries.subrange(
                    0,
                    p + 1,
                ) + child_entries(sorted, indent + 1, t_mid.next_id as int)
                    + t_mid.entries.subrange(p + 1, t_mid.entries.len() as int);
            assert(t_mid.entries.subrange(0, p + 1) =~= t0.entries.subrange(0, p as int).push(
                head,
            ));
            assert(t_mid.entries.subrange(p + 1, t_mid.entries.len() as int) =~= t0.entries.subrange(
                p + 1,
                t0.entries.len() as int,
            ));
            assert(self@.entries == t0.entries.subrange(0, p as int).push(head) + child_entries(
                sorted,
                head.indent + 1,
                t0.next_id as int,
            ) + t0.entries.subrange(p + 1, t0.entries.len() as int));
            assert(with_children(t0, p as int, head, views(kids@), self@));
            if shaped(t0.entries) {
                lemma_expand_shaped(
                    t0.entries,
                    p as int,
                    head,
                    child_entries(sorted, head.indent + 1, t0.next_id as int),
                    self@.entries,
                );
            }
        }
        true
    }

    /// Marks the folder `id` closed and removes the rows of its descendants.
    /// Does nothing and returns false unless `id` names a folder.
    pub fn collapse(&mut self, id: u64) -> (r: bool)
        ensures
            r == collapsible(old(self)@, id),
            collapse_post(old(self)@, id, final(self)@),
            shaped(old(self)@.entries) ==> shaped(final(self)@.entries),
    {
        let p = match self.position(id) {
            Some(p) => p,
            None => {
                return false;
            },
        };
        if !self.entries[p].node.is_folder() {
            return false;
        }
        let ghost t0 = self@;
        let ghost s = t0.entries;
        let indent = self.entries[p].indent;
        let mut entry = self.entries.remove(p);
        entry.node.set_open(false);
        self.entries.insert(p, entry);
        let ghost head = EntryView { id: s[p as int].id, indent, node: s[p as int].node.with_open(false) };
        let l = self.entries.len();
        assert(p < l);
        let at = p + 1;
        let ghost mut q: int = p + 1;
        assert(self@.entries =~= s.subrange(0, p as int).push(head) + s.subrange(q, s.len() as int));
        while at < self.entries.len() && self.entries[at].indent > indent
            invariant
                at == p + 1,
                p < s.len(),
                indent == s[p as int].indent,
                p + 1 <= q <= s.len(),
                scan_end(s, p as int, q) == run_end(s, p as int),
                self@.entries == s.subrange(0, p as int).push(head) + s.subrange(q, s.len() as int),
                self@.next_id == t0.next_id,
            decreases self.entries.len() - at,
        {
            let ghost cur = self@.entries;
            self.entries.remove(at);
            assert(self@.entries =~= cur.remove(at as int));
            assert(cur[at as int] == s[q]);
            proof {
                q = q + 1;
            }
            assert(self@.entries =~= s.subrange(0, p as int).push(head) + s.subrange(q, s.len() as int));
        }
        proof {
            if q < s.len() {
                assert(self@.entries[at as int] == s[q]);
            }
            assert(scan_end(s, p as int, q) == q);
            lemma_scan_end_bounds(s, p as int, p + 1);
            if shaped(s) {
                lemma_collapse_shaped(s, p as int, head, q, self@.entries);
            }
        }
        true
    }

    /// Opens a project: appends its folder `root` at indent 0, open and marked
    /// as root, then its `kids` sorted at indent 1. Returns the root's id.
    pub fn open_project(&mut self, root: Node, kids: Vec<Node>) -> (r: Result<u64, ProjectError>)
        ensures
            project_post(old(self)@, root@, views(kids@), r, final(self)@),
            shaped(old(self)@.entries) ==> shaped(final(self)@.entries),
    {
        if !root.is_folder() {
            return Err(ProjectError::NotADirectory);
        }
        if self.next_id == u64::MAX || kids.len() as u64 > u64::MAX - self.next_id - 1 {
            return Err(ProjectError::IdsExhausted);
        }
        let ghost t0 = self@;
        let mut root = root;
        root.make_root();
        let id = self.next_id;
        let ghost rv = root@;
        let p = self.entries.len();
        self.entries.push(Entry { id, indent: 0, node: root });
        self.next_id = id + 1;
        let ghost re = EntryView { id, indent: 0, node: rv };
        assert(self@.entries =~= t0.entries.push(re));
        let ghost t_mid = self@;
        self.insert_children(p, 1, kids);
        proof {
            let sorted = choose|sorted: Seq<NodeView>|
                #![trigger sorted_from(views(kids@), sorted)]
                sorted_from(views(kids@), sorted) && self@.entries == t_mid.entries.subrange(
                    0,
                    p + 1,
                ) + child_entries(sorted, 1, t_mid.next_id as int) + t_mid.entries.subrange(
                    p + 1,
                    t_mid.entries.len() as int,
                );
            assert(t_mid.entries.subrange(0, p + 1) =~= t0.entries.push(re));
            assert(t_mid.entries.subrange(p + 1, t_mid.entries.len() as int) =~= Seq::<
                EntryView,
            >::empty());
            assert(self@.entries =~= t0.entries.push(re) + child_entries(
                sorted,
                1,
                id + 1,
            ));
            if shaped(t0.entries) {
                lemma_project_shaped(t0.entries, re, child_entries(sorted, 1, id + 1), self@.entries);
            }
        }
        Ok(id)
    }
}

} // verus!
