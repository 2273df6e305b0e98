//! One filesystem entry shown in the navigator, its icon, and the order in
//! which siblings are listed.
use vstd::multiset::Multiset;
use vstd::prelude::*;
use crate::names::{
    bytes_of, cmp_bytes, compare_bytes, final_component, final_component_of, lemma_bytes_of_injective,
    lemma_cmp_bytes_antisym, lemma_cmp_bytes_trans, lemma_cmp_bytes_zero,
};

verus! {

broadcast use vstd::seq_lib::group_to_multiset_ensures;

/// A file or folder of a project.
#[derive(Debug)]
pub enum Node {
    Folder { path: String, name: String, open: bool, root: bool },
    File { path: String, name: String },
}

/// What a `Node` holds, with strings seen as their characters.
pub enum NodeView {
    Folder { path: Seq<char>, name: Seq<char>, open: bool, root: bool },
    File { path: Seq<char>, name: Seq<char> },
}

impl View for Node {
    type V = NodeView;

    open spec fn view(&self) -> NodeView {
        match self {
            Node::Folder { path, name, open, root } => NodeView::Folder {
                path: path@,
                name: name@,
                open: *open,
                root: *root,
            },
            Node::File { path, name } => NodeView::File { path: path@, name: name@ },
        }
    }
}

impl NodeView {
    pub open spec fn path(self) -> Seq<char> {
        match self {
            NodeView::Folder { path, .. } => path,
            NodeView::File { path, .. } => path,
        }
    }

    pub open spec fn name(self) -> Seq<char> {
        match self {
            NodeView::Folder { name, .. } => name,
            NodeView::File { name, .. } => name,
        }
    }

    /// Folders are listed before files.
    pub open spec fn rank(self) -> int {
        match self {
            NodeView::Folder { .. } => 0,
            NodeView::File { .. } => 1,
        }
    }

    /// The two flags of a folder as one number; zero for a file.
    pub open spec fn flags(self) -> int {
        match self {
            NodeView::Folder { open, root, .. } => (if open {
                2int
            } else {
                0int
            }) + (if root {
                1int
            } else {
                0int
            }),
            NodeView::File { .. } => 0,
        }
    }

    pub open spec fn is_folder(self) -> bool {
        self is Folder
    }

    pub open spec fn is_open_folder(self) -> bool {
        self matches NodeView::Folder { open: true, .. }
    }

    /// The same node with its `open` flag set to `open` (a file is unchanged).
    pub open spec fn with_open(self, open: bool) -> NodeView {
        match self {
            NodeView::Folder { path, name, root, .. } => NodeView::Folder { path, name, open, root },
            NodeView::File { .. } => self,
        }
    }
}

/// The node that a path classifies as: a closed, non-root folder for a
/// directory, a file otherwise, named by the path's final component.
pub open spec fn classified(path: Seq<char>, name: Seq<char>, is_dir: bool) -> NodeView {
    if is_dir {
        NodeView::Folder { path, name, open: false, root: false }
    } else {
        NodeView::File { path, name }
    }
}

/// The order of siblings, three-way: folders first, then by name, then by
/// path, then by the folder flags; names and paths compare by their bytes.
pub open spec fn node_cmp(a: NodeView, b: NodeView) -> int {
    if a.rank() != b.rank() {
        if a.rank() < b.rank() {
            -1
        } else {
            1
        }
    } else if cmp_bytes(bytes_of(a.name()), bytes_of(b.name())) != 0 {
        cmp_bytes(bytes_of(a.name()), bytes_of(b.name()))
    } else if cmp_bytes(bytes_of(a.path()), bytes_of(b.path())) != 0 {
        cmp_bytes(bytes_of(a.path()), bytes_of(b.path()))
    } else if a.flags() != b.flags() {
        if a.flags() < b.flags() {
            -1
        } else {
            1
        }
    } else {
        0
    }
}

/// Each node is no greater than every node after it.
pub open spec fn sorted_views(s: Seq<NodeView>) -> bool {
    forall|i: int, j: int| 0 <= i < j < s.len() ==> node_cmp(s[i], s[j]) <= 0
}

pub open spec fn views(s: Seq<Node>) -> Seq<NodeView> {
    s.map_values(|n: Node| n@)
}

/// `r` is `input` put in sibling order.
pub open spec fn sorted_from(input: Seq<NodeView>, r: Seq<NodeView>) -> bool {
    &&& sorted_views(r)
    &&& r.to_multiset() == input.to_multiset()
}

pub proof fn lemma_node_cmp_antisym(a: NodeView, b: NodeView)
    ensures
        node_cmp(a, b) == -node_cmp(b, a),
{
    lemma_cmp_bytes_antisym(bytes_of(a.name()), bytes_of(b.name()));
    lemma_cmp_bytes_antisym(bytes_of(a.path()), bytes_of(b.path()));
}

pub proof fn lemma_node_cmp_zero(a: NodeView, b: NodeView)
    requires
        node_cmp(a, b) == 0,
    ensures
        a == b,
{
    lemma_cmp_bytes_zero(bytes_of(a.name()), bytes_of(b.name()));
    lemma_cmp_bytes_zero(bytes_of(a.path()), bytes_of(b.path()));
    lemma_bytes_of_injective(a.name(), b.name());
    lemma_bytes_of_injective(a.path(), b.path());
}

pub proof fn lemma_node_cmp_trans(a: NodeView, b: NodeView, c: NodeView)
    requires
        node_cmp(a, b) <= 0,
        node_cmp(b, c) <= 0,
    ensures
        node_cmp(a, c) <= 0,
{
    let (na, nb, nc) = (bytes_of(a.name()), bytes_of(b.name()), bytes_of(c.name()));
    let (pa, pb, pc) = (bytes_of(a.path()), bytes_of(b.path()), bytes_of(c.path()));
    lemma_cmp_bytes_antisym(na, nb);
    lemma_cmp_bytes_antisym(nb, nc);
    lemma_cmp_bytes_antisym(na, nc);
    lemma_cmp_bytes_antisym(pa, pb);
    lemma_cmp_bytes_antisym(pb, pc);
    lemma_cmp_bytes_antisym(pa, pc);
    lemma_cmp_bytes_zero(na, nb);
    lemma_cmp_bytes_zero(nb, nc);
    lemma_cmp_bytes_zero(na, nc);
    lemma_cmp_bytes_zero(pa, pb);
    lemma_cmp_bytes_zero(pb, pc);
    lemma_cmp_bytes_zero(pa, pc);
    if a.rank() == b.rank() && b.rank() == c.rank() {
        if cmp_bytes(na, nb) <= 0 && cmp_bytes(nb, nc) <= 0 {
            lemma_cmp_bytes_trans(na, nb, nc);
        }
        if cmp_bytes(pa, pb) <= 0 && cmp_bytes(pb, pc) <= 0 {
            lemma_cmp_bytes_trans(pa, pb, pc);
        }
    }
}

/// Two sequences in sibling order that hold the same nodes are equal.
pub proof fn lemma_sorted_unique(s1: Seq<NodeView>, s2: Seq<NodeView>)
    requires
        sorted_views(s1),
        sorted_views(s2),
        s1.to_multiset() == s2.to_multiset(),
    ensures
        s1 == s2,
    decreases s1.len(),
{
    if s1.len() == 0 {
        assert(s1.len() == s1.to_multiset().len());
        assert(s2.len() == s2.to_multiset().len());
        assert(s1 =~= s2);
    } else {
        assert(s1.len() == s1.to_multiset().len());
        assert(s2.len() == s2.to_multiset().len());
        let a = s1[0];
        let b = s2[0];
        assert(s1.contains(a));
        assert(s2.contains(b));
        assert(s1.to_multiset().count(a) > 0);
        assert(s2.to_multiset().count(b) > 0);
        assert(s2.contains(a));
        let k = choose|k: int| 0 <= k < s2.len() && s2[k] == a;
        assert(s1.contains(b));
        let m = choose|m: int| 0 <= m < s1.len() && s1[m] == b;
        if m > 0 {
            assert(node_cmp(s1[0], s1[m]) <= 0);
        } else {
            lemma_node_cmp_zero_refl(a);
        }
        if k > 0 {
            assert(node_cmp(s2[0], s2[k]) <= 0);
        } else {
            lemma_node_cmp_zero_refl(b);
        }
        lemma_node_cmp_antisym(a, b);
        lemma_node_cmp_zero(a, b);
        assert(s1.remove(0) =~= s1.drop_first());
        assert(s2.remove(0) =~= s2.drop_first());
        lemma_sorted_unique(s1.drop_first(), s2.drop_first());
        assert(s1 =~= seq![a] + s1.drop_first());
        assert(s2 =~= seq![b] + s2.drop_first());
    }
}

pub proof fn lemma_node_cmp_zero_refl(a: NodeView)
    ensures
        node_cmp(a, a) == 0,
{
    lemma_cmp_bytes_zero(bytes_of(a.name()), bytes_of(a.name()));
    lemma_cmp_bytes_zero(bytes_of(a.path()), bytes_of(a.path()));
}

/// Sorting is deterministic: two results of putting the same nodes in
/// sibling order are the same sequence.
pub proof fn lemma_sort_deterministic(input: Seq<NodeView>, r1: Seq<NodeView>, r2: Seq<NodeView>)
    requires
        sorted_from(input, r1),
        sorted_from(input, r2),
    ensures
        r1 == r2,
{
    lemma_sorted_unique(r1, r2);
}

/// The icon shown for a node: an open folder, a closed folder, or a file.
pub open spec fn icon_of(v: NodeView) -> Seq<char> {
    match v {
        NodeView::Folder { open: true, .. } => "go-down-symbolic"@,
        NodeView::Folder { open: false, .. } => "go-next-symbolic"@,
        NodeView::File { .. } => "text-x-generic"@,
    }
}

impl Node {
    /// The node for `path`, given whether the path is a directory: a closed,
    /// non-root folder if it is, a file otherwise. Its name is the path's
    /// final component, fixed here once.
    pub fn new(path: String, is_dir: bool) -> (r: Node)
        ensures
            r@ == classified(path@, r@.name(), is_dir),
            bytes_of(r@.name()) == final_component(bytes_of(path@)),
    {
        let name = final_component_of(path.as_str());
        if is_dir {
            Node::Folder { path, name, open: false, root: false }
        } else {
            Node::File { path, name }
        }
    }

    pub fn path(&self) -> (r: &String)
        ensures
            r@ == self@.path(),
    {
        match self {
            Node::Folder { path, .. } => path,
            Node::File { path, .. } => path,
        }
    }

    pub fn name(&self) -> (r: &String)
        ensures
            r@ == self@.name(),
    {
        match self {
            Node::Folder { name, .. } => name,
            Node::File { name, .. } => name,
        }
    }

    pub fn is_folder(&self) -> (r: bool)
        ensures
            r == self@.is_folder(),
    {
        match self {
            Node::Folder { .. } => true,
            Node::File { .. } => false,
        }
    }

    pub fn is_open(&self) -> (r: bool)
        ensures
            r == self@.is_open_folder(),
    {
        match self {
            Node::Folder { open, .. } => *open,
            Node::File { .. } => false,
        }
    }

    /// Sets the `open` flag of a folder; a file is left as it is.
    pub fn set_open(&mut self, value: bool)
        ensures
            final(self)@ == old(self)@.with_open(value),
    {
        match self {
            Node::Folder { open, .. } => {
                *open = value;
            },
            Node::File { .. } => {},
        }
    }

    /// Marks a folder as the root of an opened project, shown open.
    pub fn make_root(&mut self)
        ensures
            match old(self)@ {
                NodeView::Folder { path, name, .. } => final(self)@ == NodeView::Folder {
                    path,
                    name,
                    open: true,
                    root: true,
                },
                NodeView::File { .. } => final(self)@ == old(self)@,
            },
    {
        match self {
            Node::Folder { open, root, .. } => {
                *open = true;
                *root = true;
            },
            Node::File { .. } => {},
        }
    }

    /// The name of the icon shown for this node.
    pub fn icon_name(&self) -> (r: &'static str)
        ensures
            r@ == icon_of(self@),
    {
        match self {
            Node::Folder { open: true, .. } => "go-down-symbolic",
            Node::Folder { open: false, .. } => "go-next-symbolic",
            Node::File { .. } => "text-x-generic",
        }
    }

    fn rank(&self) -> (r: u8)
        ensures
            r as int == self@.rank(),
    {
        match self {
            Node::Folder { .. } => 0,
            Node::File { .. } => 1,
        }
    }

    fn flags(&self) -> (r: u8)
        ensures
            r as int == self@.flags(),
    {
        match self {
            Node::Folder { open, root, .. } => {
                let o: u8 = if *open {
                    2
                } else {
                    0
                };
                let t: u8 = if *root {
                    1
                } else {
                    0
                };
                o + t
            },
            Node::File { .. } => 0,
        }
    }
}

/// Compares two nodes in sibling order: -1, 0 or 1.
pub fn compare(a: &Node, b: &Node) -> (r: i8)
    ensures
        r as int == node_cmp(a@, b@),
{
    let (ra, rb) = (a.rank(), b.rank());
    if ra != rb {
        return if ra < rb {
            -1
        } else {
            1
        };
    }
    let c = compare_bytes(a.name().as_str().as_bytes(), b.name().as_str().as_bytes());
    if c != 0 {
        return c;
    }
    let c = compare_bytes(a.path().as_str().as_bytes(), b.path().as_str().as_bytes());
    if c != 0 {
        return c;
    }
    let (fa, fb) = (a.flags(), b.flags());
    if fa != fb {
        if fa < fb {
            -1
        } else {
            1
        }
    } else {
        0
    }
}

/// Puts sibling nodes in sibling order.
pub fn sort_nodes(nodes: Vec<Node>) -> (r: Vec<Node>)
    ensures
        sorted_from(views(nodes@), views(r@)),
        r@.len() == nodes@.len(),
{
    let mut rest = nodes;
    let mut out: Vec<Node> = Vec::new();
    assert(views(out@).to_multiset().add(views(rest@).to_multiset()) =~= views(
        nodes@,
    ).to_multiset());
    while rest.len() > 0
        invariant
            sorted_views(views(out@)),
            views(out@).to_multiset().add(views(rest@).to_multiset()) == views(
                nodes@,
            ).to_multiset(),
        decreases rest.len(),
    {
        let ghost rest0 = rest@;
        let ghost out0 = out@;
        let node = rest.pop().unwrap();
        assert(views(rest0) =~= views(rest@).push(node@));
        let mut j: usize = 0;
        while j < out.len() && compare(&out[j], &node) < 0
            invariant
                j <= out@.len(),
                out@ == out0,
                forall|k: int| 0 <= k < j ==> node_cmp(#[trigger] out@[k]@, node@) < 0,
            decreases out.len() - j,
        {
            j = j + 1;
        }
        let ghost nv = node@;
        let ghost ov = views(out0);
        proof {
            if j < ov.len() {
                lemma_node_cmp_antisym(ov[j as int], nv);
                assert forall|q: int| j <= q < ov.len() implies node_cmp(nv, ov[q]) <= 0 by {
                    if q > j {
                        lemma_node_cmp_trans(nv, ov[j as int], ov[q]);
                    }
                }
            }
        }
        out.insert(j, node);
        let ghost t = views(out@);
        assert(t =~= ov.insert(j as int, nv));
        assert(t.remove(j as int) =~= ov);
        assert(t.contains(nv));
        assert(t.to_multiset() =~= ov.to_multiset().insert(nv));
        assert forall|p: int, q: int| 0 <= p < q < t.len() implies node_cmp(t[p], t[q]) <= 0 by {
            if p < j && q == j {
                assert(node_cmp(out0[p]@, nv) < 0);
            } else if p < j && q > j {
                assert(node_cmp(ov[p], ov[q - 1]) <= 0);
            } else if p == j {
                assert(node_cmp(nv, ov[q - 1]) <= 0);
            } else if p > j {
                assert(node_cmp(ov[p - 1], ov[q - 1]) <= 0);
            }
        }
        assert(views(out@).to_multiset().add(views(rest@).to_multiset()) =~= views(
            nodes@,
        ).to_multiset());
    }
    assert(views(rest@).to_multiset() =~= Multiset::empty());
    assert(views(out@).len() == views(out@).to_multiset().len());
    assert(views(nodes@).len() == views(nodes@).to_multiset().len());
    assert(views(out@).to_multiset() =~= views(out@).to_multiset().add(Multiset::empty()));
    out
}

} // verus!
