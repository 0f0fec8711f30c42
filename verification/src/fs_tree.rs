//! The file tree of an archive, kept in an `ego_tree::Tree`.

use vstd::prelude::*;
use ego_tree::{NodeId, Tree};
use regex::Regex;
use crate::node::{Fs, FsNode, NodeKind, NodeView, OutputFile, Record, Timestamp};
use crate::text::{chars_of, push_all, string_of, string_views};
use crate::tree_laws::{all_sorted, extend_record, lemma_inserted_from, lemma_sorted_tree, node_map};

verus! {

/// `ego_tree::Tree`, a tree kept in a vector. What it holds is told by
/// `tree_slots`.
#[verifier::external_type_specification]
#[verifier::external_body]
#[verifier::reject_recursive_types(T)]
pub struct ExTree<T>(Tree<T>);

/// `ego_tree::NodeId`, which names a node of a tree by its position in the
/// vector.
#[verifier::external_type_specification]
#[verifier::external_body]
pub struct ExNodeId(NodeId);

/// One node of an `ego_tree::Tree`, as the vector behind the tree holds it.
pub struct Slot {
    pub value: NodeView,
    pub parent: int,
    pub children: Seq<int>,
}

/// The nodes that a tree holds, in the order in which they were put in:
/// each with its value, the position of its parent (-1 where it has none)
/// and the positions of its children, first to last.
pub uninterp spec fn tree_slots(t: Tree<FsNode>) -> Seq<Slot>;

/// The position, among the nodes of its tree, that a node id stands for.
pub uninterp spec fn node_index(id: NodeId) -> int;

/// The order of strings: by the first character in which they differ, a
/// proper prefix first.
pub open spec fn name_le(a: Seq<char>, b: Seq<char>) -> bool
    decreases a.len(),
{
    if a.len() == 0 {
        true
    } else if b.len() == 0 {
        false
    } else if a[0] != b[0] {
        (a[0] as u32) < (b[0] as u32)
    } else {
        name_le(a.skip(1), b.skip(1))
    }
}

/// The nodes at the positions `kids` come in the order of their names.
pub open spec fn sorted_by_name(s: Seq<Slot>, kids: Seq<int>) -> bool {
    forall|a: int, b: int|
        0 <= a < b < kids.len() ==> name_le(
            s[#[trigger] kids[a]].value.name,
            s[#[trigger] kids[b]].value.name,
        )
}

/// `after` holds the positions of `before`, each as often, in the order of
/// the nodes' names.
pub open spec fn sorted_arrangement(s: Seq<Slot>, before: Seq<int>, after: Seq<int>) -> bool {
    after.to_multiset() == before.to_multiset() && sorted_by_name(s, after)
}

/// The tree with one more node, put in as the last child of `cur`.
pub open spec fn with_child(s: Seq<Slot>, cur: int, value: NodeView) -> Seq<Slot> {
    s.update(cur, Slot { children: s[cur].children.push(s.len() as int), ..s[cur] }).push(
        Slot { value, parent: cur, children: Seq::empty() },
    )
}

/// Wraps `ego_tree::Tree::new`: the tree holds its root and nothing else.
#[verifier::external_body]
fn tree_new(root: FsNode) -> (t: Tree<FsNode>)
    ensures
        tree_slots(t) == seq![Slot { value: root@, parent: -1, children: Seq::empty() }],
{
    Tree::new(root)
}

/// Wraps `ego_tree::Tree::root` and `NodeRef::id`: the root is the first
/// node.
#[verifier::external_body]
fn tree_root(t: &Tree<FsNode>) -> (id: NodeId)
    ensures
        node_index(id) == 0,
{
    t.root().id()
}

/// Wraps `ego_tree::Tree::get` and `NodeRef::children`: the ids of the
/// children of a node, first to last.
#[verifier::external_body]
fn tree_children(t: &Tree<FsNode>, id: NodeId) -> (r: Vec<NodeId>)
    requires
        0 <= node_index(id) < tree_slots(*t).len(),
    ensures
        r@.len() == tree_slots(*t)[node_index(id)].children.len(),
        forall|k: int|
            0 <= k < r@.len() ==> node_index(#[trigger] r@[k]) == tree_slots(*t)[node_index(
                id,
            )].children[k],
{
    t.get(id).unwrap().children().map(|c| c.id()).collect()
}

/// Wraps `ego_tree::Tree::get` and `NodeRef::value`: the value of a node.
#[verifier::external_body]
fn tree_value(t: &Tree<FsNode>, id: NodeId) -> (v: &FsNode)
    requires
        0 <= node_index(id) < tree_slots(*t).len(),
    ensures
        v@ == tree_slots(*t)[node_index(id)].value,
{
    t.get(id).unwrap().value()
}

/// Wraps `ego_tree::Tree::get_mut` and `NodeMut::append`: the new node goes
/// to the end of the tree's nodes, as the last child of `parent`, and has no
/// children; nothing else changes.
#[verifier::external_body]
fn tree_append(t: &mut Tree<FsNode>, parent: NodeId, value: FsNode) -> (id: NodeId)
    requires
        0 <= node_index(parent) < tree_slots(*old(t)).len(),
    ensures
        node_index(id) == tree_slots(*old(t)).len(),
        tree_slots(*final(t)) == with_child(tree_slots(*old(t)), node_index(parent), value@),
{
    t.get_mut(parent).unwrap().append(value).id()
}

/// Wraps `ego_tree::Tree::get_mut` and `NodeMut::sort_by_key`, with the
/// node's name as the key: the children of `id` are put in the order of
/// their names, which for strings is the order of `name_le`. The nodes keep
/// their places, values and parents, and every other node its children.
#[verifier::external_body]
fn tree_sort_children(t: &mut Tree<FsNode>, id: NodeId)
    requires
        0 <= node_index(id) < tree_slots(*old(t)).len(),
    ensures
        tree_slots(*final(t)).len() == tree_slots(*old(t)).len(),
        forall|i: int|
            0 <= i < tree_slots(*old(t)).len() ==> (#[trigger] tree_slots(*final(t))[i]).value
                == tree_slots(*old(t))[i].value && tree_slots(*final(t))[i].parent == tree_slots(
                *old(t),
            )[i].parent,
        forall|i: int|
            0 <= i < tree_slots(*old(t)).len() && i != node_index(id) ==> (#[trigger] tree_slots(
                *final(t),
            )[i]).children == tree_slots(*old(t))[i].children,
        sorted_arrangement(
            tree_slots(*old(t)),
            tree_slots(*old(t))[node_index(id)].children,
            tree_slots(*final(t))[node_index(id)].children,
        ),
{
    t.get_mut(id).unwrap().sort_by_key(|n| n.value().name());
}

/// The two characters that part the segments of a path inside an archive.
pub open spec fn is_separator(c: char) -> bool {
    c == '\\' || c == '/'
}

/// The pieces of `s` from position `i` on between separators, where the
/// piece that holds `i` began at `start`. Two separators in a row, and one
/// at either end, give an empty piece.
pub open spec fn pieces_from(s: Seq<char>, start: int, i: int) -> Seq<Seq<char>>
    decreases s.len() - i,
{
    if i < 0 || i >= s.len() {
        seq![s.subrange(start, s.len() as int)]
    } else if is_separator(s[i]) {
        seq![s.subrange(start, i)] + pieces_from(s, i + 1, i + 1)
    } else {
        pieces_from(s, start, i + 1)
    }
}

/// The pieces of `p` that are not empty, in order.
pub open spec fn non_empty(p: Seq<Seq<char>>) -> Seq<Seq<char>>
    decreases p.len(),
{
    if p.len() == 0 {
        Seq::empty()
    } else if p.last().len() > 0 {
        non_empty(p.drop_last()).push(p.last())
    } else {
        non_empty(p.drop_last())
    }
}

/// The segments of a path: what stands between its separators, without the
/// empty pieces.
pub open spec fn segments(path: Seq<char>) -> Seq<Seq<char>> {
    non_empty(pieces_from(path, 0, 0))
}

/// Wraps `regex::Regex::new` and `Regex::split` for the pattern `[\\/]`,
/// which matches one backslash or one slash: the pieces of `text` between
/// successive matches, empty ones included.
#[verifier::external_body]
fn regex_split(pattern: &str, text: &str) -> (r: Vec<String>)
    requires
        pattern@ == "[\\\\/]"@,
    ensures
        string_views(r@) == pieces_from(text@, 0, 0),
{
    Regex::new(pattern).unwrap().split(text).map(|s| s.to_string()).collect()
}

/// Cuts a path into its segments.
pub fn path_segments(path: &str) -> (r: Vec<String>)
    ensures
        string_views(r@) == segments(path@),
{
    let pieces = regex_split("[\\\\/]", path);
    let mut r: Vec<String> = Vec::new();
    let mut i: usize = 0;
    proof {
        assert(string_views(pieces@).take(0) == Seq::<Seq<char>>::empty());
        assert(string_views(r@) == Seq::<Seq<char>>::empty());
    }
    while i < pieces.len()
        invariant
            i <= pieces.len(),
            string_views(r@) == non_empty(string_views(pieces@).take(i as int)),
        decreases pieces.len() - i,
    {
        proof {
            let all = string_views(pieces@);
            assert(all.take(i + 1).drop_last() == all.take(i as int));
            assert(all.take(i + 1).last() == pieces@[i as int]@);
        }
        if pieces[i].as_str().unicode_len() > 0 {
            proof {
                assert(string_views(r@.push(pieces@[i as int])) == string_views(r@).push(
                    pieces@[i as int]@,
                ));
            }
            r.push(pieces[i].clone());
        }
        i += 1;
    }
    proof {
        let all = string_views(pieces@);
        assert(all.take(pieces.len() as int) == all);
    }
    r
}

/// The first child of `cur`, from its `k`-th on, that goes by `name`.
pub open spec fn child_named_from(s: Seq<Slot>, cur: int, name: Seq<char>, k: int) -> Option<int>
    decreases s[cur].children.len() - k,
{
    let kids = s[cur].children;
    if k < 0 || k >= kids.len() {
        None
    } else if s[kids[k]].value.name == name {
        Some(kids[k])
    } else {
        child_named_from(s, cur, name, k + 1)
    }
}

/// The node that an entry makes for the `k`-th segment of its path: a file
/// where the segment is the last one and the entry is no directory, else a
/// directory. It takes the entry's time, and for its parent's name the
/// segment before it, or the empty string at the top.
pub open spec fn new_node(
    segs: Seq<Seq<char>>,
    k: int,
    is_dir: bool,
    modified: Option<Timestamp>,
) -> NodeView {
    NodeView {
        kind: if k == segs.len() - 1 && !is_dir {
            NodeKind::File
        } else {
            NodeKind::Dir
        },
        name: segs[k],
        modified,
        parent: Some(
            if k == 0 {
                Seq::empty()
            } else {
                segs[k - 1]
            },
        ),
    }
}

/// The tree after a walk from `cur` down the segments from the `k`-th on:
/// at each segment the walk goes to the child of that name, and where there
/// is none it makes one, as the last child.
pub open spec fn inserted_from(
    s: Seq<Slot>,
    cur: int,
    segs: Seq<Seq<char>>,
    k: int,
    is_dir: bool,
    modified: Option<Timestamp>,
) -> Seq<Slot>
    decreases segs.len() - k,
{
    if k < 0 || k >= segs.len() {
        s
    } else {
        match child_named_from(s, cur, segs[k], 0) {
            Some(c) => inserted_from(s, c, segs, k + 1, is_dir, modified),
            None => inserted_from(
                with_child(s, cur, new_node(segs, k, is_dir, modified)),
                s.len() as int,
                segs,
                k + 1,
                is_dir,
                modified,
            ),
        }
    }
}

/// The tree with an entry put in, by a walk from the root along the
/// segments of the entry's path.
pub open spec fn inserted(s: Seq<Slot>, record: Record) -> Seq<Slot> {
    inserted_from(s, 0, segments(record.path), 0, record.is_dir, record.modified)
}

/// The position of the parent of node `j`.
pub open spec fn parent_of(s: Seq<Slot>, j: int) -> int {
    s[j].parent
}

/// The position of the `k`-th child of node `i`.
pub open spec fn child_at(s: Seq<Slot>, i: int, k: int) -> int {
    s[i].children[k]
}

/// The name of node `j`.
pub open spec fn name_of(s: Seq<Slot>, j: int) -> Seq<char> {
    s[j].value.name
}

/// Node `j` is among the children that its parent lists.
pub open spec fn listed(s: Seq<Slot>, j: int) -> bool {
    s[s[j].parent].children.contains(j)
}

/// What node `j` is: the root placeholder, a directory or a file.
pub open spec fn kind_of(s: Seq<Slot>, j: int) -> NodeKind {
    s[j].value.kind
}

/// Every node but the first stands after its parent.
pub open spec fn parents_before(s: Seq<Slot>) -> bool {
    forall|j: int| 0 < j < s.len() ==> 0 <= #[trigger] parent_of(s, j) < j
}

/// Every node but the first is a directory or a file.
pub open spec fn kinds_below_root(s: Seq<Slot>) -> bool {
    forall|j: int| 0 < j < s.len() ==> #[trigger] kind_of(s, j) != NodeKind::Root
}

/// Every node but the first is listed by its parent.
pub open spec fn all_listed(s: Seq<Slot>) -> bool {
    forall|j: int| 0 < j < s.len() ==> #[trigger] listed(s, j)
}

/// The children that a node lists stand after it and name it as their
/// parent.
pub open spec fn children_linked(s: Seq<Slot>) -> bool {
    forall|i: int, k: int|
        0 <= i < s.len() && 0 <= k < s[i].children.len() ==> i < #[trigger] child_at(s, i, k)
            < s.len() && parent_of(s, child_at(s, i, k)) == i
}

/// No two children of a node share a name.
pub open spec fn sibling_names_differ(s: Seq<Slot>) -> bool {
    forall|i: int, a: int, b: int|
        0 <= i < s.len() && 0 <= a < b < s[i].children.len() ==> name_of(
            s,
            #[trigger] child_at(s, i, a),
        ) != name_of(s, #[trigger] child_at(s, i, b))
}

/// What holds of the nodes of every file tree: the first is the root
/// placeholder; every other node is a directory or a file that stands after
/// its parent and is listed by it; the children that a node lists name it
/// as their parent; and no two children of a node share a name.
pub open spec fn well_formed(s: Seq<Slot>) -> bool {
    &&& s.len() >= 1
    &&& s[0].parent == -1
    &&& s[0].value.kind == NodeKind::Root
    &&& parents_before(s)
    &&& kinds_below_root(s)
    &&& all_listed(s)
    &&& children_linked(s)
    &&& sibling_names_differ(s)
}

/// The child found by name is a child of that name; and where none is
/// found, none of the children looked at has the name.
pub proof fn lemma_child_named(s: Seq<Slot>, cur: int, name: Seq<char>, k: int)
    requires
        well_formed(s),
        0 <= cur < s.len(),
        0 <= k,
    ensures
        match child_named_from(s, cur, name, k) {
            Some(c) => cur < c < s.len() && s[c].parent == cur && s[c].value.name == name,
            None => forall|j: int|
                k <= j < s[cur].children.len() ==> name_of(s, #[trigger] child_at(s, cur, j))
                    != name,
        },
    decreases s[cur].children.len() - k,
{
    if k < s[cur].children.len() {
        let c = child_at(s, cur, k);
        assert(parent_of(s, c) == cur);
        if s[c].value.name != name {
            lemma_child_named(s, cur, name, k + 1);
        }
    }
}

proof fn lemma_with_child_parents(s: Seq<Slot>, cur: int, value: NodeView)
    requires
        well_formed(s),
        0 <= cur < s.len(),
        value.kind != NodeKind::Root,
    ensures
        parents_before(with_child(s, cur, value)),
        kinds_below_root(with_child(s, cur, value)),
        all_listed(with_child(s, cur, value)),
{
    let t = with_child(s, cur, value);
    let n = s.len() as int;
    assert forall|j: int| 0 < j < t.len() implies 0 <= #[trigger] parent_of(t, j) < j by {
        if j < n {
            assert(parent_of(t, j) == parent_of(s, j));
        }
    }
    assert forall|j: int| 0 < j < t.len() implies #[trigger] kind_of(t, j)
        != NodeKind::Root by {
        if j < n {
            assert(kind_of(t, j) == kind_of(s, j));
        }
    }
    assert forall|j: int| 0 < j < t.len() implies #[trigger] listed(t, j) by {
        if j < n {
            let p = parent_of(s, j);
            assert(t[j].parent == p);
            assert(listed(s, j));
            let w = choose|w: int| 0 <= w < s[p].children.len() && s[p].children[w] == j;
            if p == cur {
                assert(t[p].children[w] == j);
            } else {
                assert(t[p].children == s[p].children);
            }
        } else {
            assert(t[cur].children[s[cur].children.len() as int] == n);
        }
    }
}

proof fn lemma_with_child_children(s: Seq<Slot>, cur: int, value: NodeView)
    requires
        well_formed(s),
        0 <= cur < s.len(),
        forall|j: int|
            0 <= j < s[cur].children.len() ==> name_of(s, #[trigger] child_at(s, cur, j))
                != value.name,
    ensures
        children_linked(with_child(s, cur, value)),
        sibling_names_differ(with_child(s, cur, value)),
{
    let t = with_child(s, cur, value);
    let n = s.len() as int;
    assert forall|i: int, k: int|
        0 <= i < t.len() && 0 <= k < t[i].children.len() implies i < #[trigger] child_at(t, i, k)
        < t.len() && parent_of(t, child_at(t, i, k)) == i by {
        if i < n && k < s[i].children.len() {
            assert(child_at(t, i, k) == child_at(s, i, k));
        }
    }
    assert forall|i: int, a: int, b: int|
        0 <= i < t.len() && 0 <= a < b < t[i].children.len() implies name_of(
        t,
        #[trigger] child_at(t, i, a),
    ) != name_of(t, #[trigger] child_at(t, i, b)) by {
        if i < n {
            assert(child_at(t, i, a) == child_at(s, i, a));
            if b < s[i].children.len() {
                assert(child_at(t, i, b) == child_at(s, i, b));
            }
        }
    }
}

/// A tree stays well-formed when a node gets one more child, of a name
/// that none of its children has.
pub proof fn lemma_with_child_well_formed(s: Seq<Slot>, cur: int, value: NodeView)
    requires
        well_formed(s),
        0 <= cur < s.len(),
        value.kind != NodeKind::Root,
        forall|j: int|
            0 <= j < s[cur].children.len() ==> name_of(s, #[trigger] child_at(s, cur, j))
                != value.name,
    ensures
        well_formed(with_child(s, cur, value)),
{
    lemma_with_child_parents(s, cur, value);
    lemma_with_child_children(s, cur, value);
}

/// The lines that stand for the children of node `i` from the `k`-th on
/// and for all that is below them. Each line begins with `prefix`, then a
/// branch sign, then the node's name; the lines below a node begin with
/// `prefix` and a trunk sign.
pub open spec fn rendered_children(s: Seq<Slot>, i: int, prefix: Seq<char>, k: int) -> Seq<char>
    decreases s.len() - i, s[i].children.len() - k,
{
    let kids = s[i].children;
    if i < 0 || i >= s.len() || k < 0 || k >= kids.len() || !(i < kids[k] < s.len()) {
        Seq::empty()
    } else {
        let last = k == kids.len() - 1;
        prefix + branch(last) + s[kids[k]].value.name + seq!['\n'] + rendered_children(
            s,
            kids[k],
            prefix + trunk(last),
            0,
        ) + rendered_children(s, i, prefix, k + 1)
    }
}

/// The sign before the name of a node: one for the last child of its
/// parent, another for the children before it.
pub open spec fn branch(last: bool) -> Seq<char> {
    if last {
        "└── "@
    } else {
        "├── "@
    }
}

/// What the lines below a node hold in the column of that node's branch
/// sign: blanks below a last child, a vertical line below the others.
pub open spec fn trunk(last: bool) -> Seq<char> {
    if last {
        "    "@
    } else {
        "│   "@
    }
}

/// The lines for the top-level nodes from the `k`-th on: the name of each
/// on a line of its own, followed by the lines of what is below it.
pub open spec fn rendered_from(s: Seq<Slot>, k: int) -> Seq<char>
    decreases s[0].children.len() - k,
{
    let kids = s[0].children;
    if k < 0 || k >= kids.len() {
        Seq::empty()
    } else {
        s[kids[k]].value.name + seq!['\n'] + rendered_children(s, kids[k], Seq::empty(), 0)
            + rendered_from(s, k + 1)
    }
}

/// The tree after the entries are put in one by one, the last one first.
pub open spec fn inserted_all(s: Seq<Slot>, records: Seq<Record>) -> Seq<Slot>
    decreases records.len(),
{
    if records.len() == 0 {
        s
    } else {
        inserted_all(inserted(s, records.last()), records.drop_last())
    }
}

/// `t` is the tree `s` with the children of every node in the order of
/// their names.
pub open spec fn sorted_tree(s: Seq<Slot>, t: Seq<Slot>) -> bool {
    &&& same_nodes(s, t)
    &&& forall|x: int|
        0 <= x < s.len() ==> sorted_arrangement(s, s[x].children, #[trigger] children_of(t, x))
}

/// The file tree of an archive.
#[derive(Debug)]
pub struct FsTree {
    tree: Tree<FsNode>,
}

impl FsTree {
    /// The nodes of the tree, the root placeholder first.
    pub closed spec fn slots(&self) -> Seq<Slot> {
        tree_slots(self.tree)
    }

    /// What holds of every file tree.
    pub open spec fn wf(&self) -> bool {
        well_formed(self.slots())
    }

    /// The tree drawn as text: the root placeholder is left out, and each
    /// node has a line of its own.
    pub open spec fn rendered(&self) -> Seq<char> {
        rendered_from(self.slots(), 0)
    }

    /// The nodes of a tree that holds the root placeholder alone.
    pub open spec fn new_slots() -> Seq<Slot> {
        seq![Slot { value: FsNode::Empty@, parent: -1, children: Seq::empty() }]
    }

    /// A tree that holds the root placeholder alone.
    pub fn new() -> (r: FsTree)
        ensures
            r.wf(),
            r.slots() == Self::new_slots(),
    {
        FsTree { tree: tree_new(FsNode::Empty) }
    }

    /// The tree as the `ego_tree::Tree` that holds it.
    pub fn as_tree(&self) -> (t: &Tree<FsNode>)
        ensures
            tree_slots(*t) == self.slots(),
    {
        &self.tree
    }

    fn find_child(&self, cur: NodeId, name: &String) -> (r: Option<NodeId>)
        requires
            self.wf(),
            0 <= node_index(cur) < self.slots().len(),
        ensures
            match r {
                Some(c) => child_named_from(self.slots(), node_index(cur), name@, 0) == Some(
                    node_index(c),
                ),
                None => child_named_from(self.slots(), node_index(cur), name@, 0) is None,
            },
    {
        let kids = tree_children(&self.tree, cur);
        let mut j: usize = 0;
        while j < kids.len()
            invariant
                j <= kids.len(),
                self.wf(),
                0 <= node_index(cur) < self.slots().len(),
                kids@.len() == self.slots()[node_index(cur)].children.len(),
                forall|k: int|
                    0 <= k < kids@.len() ==> node_index(#[trigger] kids@[k])
                        == self.slots()[node_index(cur)].children[k],
                child_named_from(self.slots(), node_index(cur), name@, 0) == child_named_from(
                    self.slots(),
                    node_index(cur),
                    name@,
                    j as int,
                ),
            decreases kids.len() - j,
        {
            let child = kids[j];
            proof {
                assert(node_index(kids@[j as int]) == child_at(
                    self.slots(),
                    node_index(cur),
                    j as int,
                ));
            }
            let child_name = tree_value(&self.tree, child).name();
            if child_name == *name {
                return Some(child);
            }
            j += 1;
        }
        None
    }

    /// Puts an entry into the tree: the walk goes from the root along the
    /// segments of the entry's path and makes the nodes that are missing.
    pub fn append_file(&mut self, file: OutputFile)
        requires
            old(self).wf(),
        ensures
            final(self).wf(),
            final(self).slots() == inserted(old(self).slots(), file@),
            node_map(final(self).slots()) == extend_record(node_map(old(self).slots()), file@),
    {
        proof {
            assert(segments(file@.path).take(0) == Seq::<Seq<char>>::empty());
            lemma_inserted_from(
                self.slots(),
                0,
                segments(file@.path),
                0,
                file.is_dir,
                file.modified,
            );
        }
        let segs = path_segments(file.path.as_str());
        let mut cur = tree_root(&self.tree);
        let mut parent = String::new();
        let mut k: usize = 0;
        while k < segs.len()
            invariant
                k <= segs.len(),
                self.wf(),
                0 <= node_index(cur) < self.slots().len(),
                string_views(segs@) == segments(file@.path),
                k > 0 ==> parent@ == segs@[k - 1]@,
                k == 0 ==> parent@ == Seq::<char>::empty(),
                inserted(old(self).slots(), file@) == inserted_from(
                    self.slots(),
                    node_index(cur),
                    segments(file@.path),
                    k as int,
                    file.is_dir,
                    file.modified,
                ),
            decreases segs.len() - k,
        {
            let part = &segs[k];
            let ghost all = segments(file@.path);
            proof {
                assert(all[k as int] == part@);
                lemma_child_named(self.slots(), node_index(cur), part@, 0);
            }
            match self.find_child(cur, part) {
                Some(c) => {
                    cur = c;
                },
                None => {
                    let fs = Fs {
                        name: part.clone(),
                        parent: Some(parent.clone()),
                        modified: file.modified,
                    };
                    let node = if k + 1 == segs.len() && !file.is_dir {
                        FsNode::File(fs)
                    } else {
                        FsNode::Dir(fs)
                    };
                    proof {
                        if k > 0 {
                            assert(all[k - 1] == segs@[k - 1]@);
                        }
                        assert(node@ == new_node(all, k as int, file.is_dir, file.modified));
                        lemma_with_child_well_formed(self.slots(), node_index(cur), node@);
                    }
                    cur = tree_append(&mut self.tree, cur, node);
                },
            }
            parent = part.clone();
            k += 1;
        }
    }

    /// Whether the archive holds one directory that everything else is
    /// in: the tree has no top-level node, or one that is a directory.
    pub fn only_one_root_dir(&self) -> (r: bool)
        requires
            self.wf(),
        ensures
            r == (self.slots()[0].children.len() == 0 || (self.slots()[0].children.len() == 1
                && kind_of(self.slots(), self.slots()[0].children[0]) == NodeKind::Dir)),
    {
        let root = tree_root(&self.tree);
        let kids = tree_children(&self.tree, root);
        if kids.len() == 0 {
            true
        } else if kids.len() == 1 {
            proof {
                assert(node_index(kids@[0]) == child_at(self.slots(), 0, 0));
            }
            tree_value(&self.tree, kids[0]).is_dir()
        } else {
            false
        }
    }
}


fn branch_sign(last: bool) -> (r: Vec<char>)
    ensures
        r@ == branch(last),
{
    if last {
        chars_of("└── ")
    } else {
        chars_of("├── ")
    }
}

fn trunk_sign(last: bool) -> (r: Vec<char>)
    ensures
        r@ == trunk(last),
{
    if last {
        chars_of("    ")
    } else {
        chars_of("│   ")
    }
}

/// Node `x` is node `a` or stands below it.
pub open spec fn descends(s: Seq<Slot>, x: int, a: int) -> bool
    decreases x,
{
    x == a || (0 < x < s.len() && 0 <= s[x].parent < x && descends(s, s[x].parent, a))
}

/// The children of node `x`.
pub open spec fn children_of(s: Seq<Slot>, x: int) -> Seq<int> {
    s[x].children
}

/// Two trees hold the same nodes under the same parents; only the order of
/// a node's children may differ.
pub open spec fn same_nodes(s: Seq<Slot>, t: Seq<Slot>) -> bool {
    &&& s.len() == t.len()
    &&& forall|i: int| 0 <= i < s.len() ==> #[trigger] parent_of(t, i) == parent_of(s, i)
    &&& forall|i: int| 0 <= i < s.len() ==> (#[trigger] t[i]).value == s[i].value
}

/// The children of every node of `t` that is `a` or below it are those
/// which it has in `s`, in the order of their names, and every other node
/// has its children as in `s`.
pub open spec fn sorted_below(s: Seq<Slot>, t: Seq<Slot>, a: int) -> bool {
    &&& same_nodes(s, t)
    &&& forall|x: int|
        0 <= x < s.len() && descends(s, x, a) ==> sorted_arrangement(
            s,
            s[x].children,
            #[trigger] children_of(t, x),
        )
    &&& forall|x: int|
        0 <= x < s.len() && !descends(s, x, a) ==> #[trigger] children_of(t, x)
            == s[x].children
}

proof fn lemma_descends_not_above(s: Seq<Slot>, x: int, a: int)
    requires
        descends(s, x, a),
    ensures
        a <= x,
    decreases x,
{
    if x != a {
        lemma_descends_not_above(s, s[x].parent, a);
    }
}

proof fn lemma_descends_same_parents(s: Seq<Slot>, t: Seq<Slot>, x: int, a: int)
    requires
        same_nodes(s, t),
    ensures
        descends(s, x, a) == descends(t, x, a),
    decreases x,
{
    if x != a && 0 < x < s.len() {
        assert(parent_of(t, x) == parent_of(s, x));
        if 0 <= s[x].parent < x {
            lemma_descends_same_parents(s, t, s[x].parent, a);
        }
    }
}

proof fn lemma_descends_through(s: Seq<Slot>, x: int, c: int, a: int)
    requires
        descends(s, x, c),
        0 < c < s.len(),
        0 <= s[c].parent < c,
        s[c].parent == a,
    ensures
        descends(s, x, a),
    decreases x,
{
    if x == c {
        assert(descends(s, a, a));
    } else {
        lemma_descends_through(s, s[x].parent, c, a);
    }
}

/// A node below `a` is a child of `a` or stands below one.
proof fn lemma_descends_via_child(s: Seq<Slot>, x: int, a: int) -> (c: int)
    requires
        descends(s, x, a),
        x != a,
    ensures
        0 < c < s.len(),
        s[c].parent == a,
        descends(s, x, c),
    decreases x,
{
    if s[x].parent == a {
        x
    } else {
        lemma_descends_via_child(s, s[x].parent, a)
    }
}

proof fn lemma_all_descend_from_root(s: Seq<Slot>, x: int)
    requires
        well_formed(s),
        0 <= x < s.len(),
    ensures
        descends(s, x, 0),
    decreases x,
{
    if x != 0 {
        assert(0 <= parent_of(s, x) < x);
        lemma_all_descend_from_root(s, s[x].parent);
    }
}

/// The children that a well-formed tree lists for a node are all
/// different.
pub proof fn lemma_children_distinct(s: Seq<Slot>, i: int)
    requires
        well_formed(s),
        0 <= i < s.len(),
    ensures
        s[i].children.no_duplicates(),
{
    let kids = s[i].children;
    assert forall|a: int, b: int| 0 <= a < kids.len() && 0 <= b < kids.len() && a != b implies kids[a]
        != kids[b] by {
        if a < b {
            assert(name_of(s, child_at(s, i, a)) != name_of(s, child_at(s, i, b)));
        } else {
            assert(name_of(s, child_at(s, i, b)) != name_of(s, child_at(s, i, a)));
        }
    }
}

/// Two lists that hold the same numbers, each as often, are of one
/// length and hold the same numbers; and where the one has none twice, the
/// other has none twice.
pub proof fn lemma_same_elements(before: Seq<int>, after: Seq<int>)
    requires
        after.to_multiset() == before.to_multiset(),
    ensures
        after.len() == before.len(),
        forall|x: int| after.contains(x) == before.contains(x),
        before.no_duplicates() ==> after.no_duplicates(),
{
    before.to_multiset_ensures();
    after.to_multiset_ensures();
    assert forall|x: int| after.contains(x) == before.contains(x) by {
        assert(after.contains(x) <==> after.to_multiset().count(x) > 0);
        assert(before.contains(x) <==> before.to_multiset().count(x) > 0);
    }
    if before.no_duplicates() {
        before.lemma_multiset_has_no_duplicates();
        after.lemma_multiset_has_no_duplicates_conv();
    }
}

/// A tree stays well-formed when the children of its nodes are put in
/// another order.
pub proof fn lemma_rearranged_well_formed(s: Seq<Slot>, t: Seq<Slot>)
    requires
        well_formed(s),
        same_nodes(s, t),
        forall|x: int|
            0 <= x < s.len() ==> (#[trigger] children_of(t, x)).to_multiset()
                == s[x].children.to_multiset(),
    ensures
        well_formed(t),
{
    assert(t[0].parent == -1) by {
        assert(parent_of(t, 0) == parent_of(s, 0));
    }
    assert(t[0].value == s[0].value);
    assert forall|j: int| 0 < j < t.len() implies 0 <= #[trigger] parent_of(t, j) < j by {
        assert(parent_of(t, j) == parent_of(s, j));
    }
    assert forall|j: int| 0 < j < t.len() implies #[trigger] kind_of(t, j)
        != NodeKind::Root by {
        assert(t[j].value == s[j].value);
        assert(kind_of(s, j) != NodeKind::Root);
    }
    assert forall|j: int| 0 < j < t.len() implies #[trigger] listed(t, j) by {
        assert(parent_of(t, j) == parent_of(s, j));
        let p = parent_of(s, j);
        assert(0 <= p < j);
        assert(listed(s, j));
        assert(children_of(t, p).to_multiset() == s[p].children.to_multiset());
        lemma_same_elements(s[p].children, t[p].children);
    }
    assert forall|i: int, k: int|
        0 <= i < t.len() && 0 <= k < t[i].children.len() implies i < #[trigger] child_at(t, i, k)
        < t.len() && parent_of(t, child_at(t, i, k)) == i by {
        let c = child_at(t, i, k);
        assert(children_of(t, i).to_multiset() == s[i].children.to_multiset());
        lemma_same_elements(s[i].children, t[i].children);
        assert(t[i].children.contains(c));
        assert(s[i].children.contains(c));
        let w = choose|w: int| 0 <= w < s[i].children.len() && s[i].children[w] == c;
        assert(c == child_at(s, i, w));
        assert(parent_of(t, c) == parent_of(s, c));
    }
    assert forall|i: int, x: int, y: int|
        0 <= i < t.len() && 0 <= x < y < t[i].children.len() implies name_of(
        t,
        #[trigger] child_at(t, i, x),
    ) != name_of(t, #[trigger] child_at(t, i, y)) by {
        let cx = child_at(t, i, x);
        let cy = child_at(t, i, y);
        assert(children_of(t, i).to_multiset() == s[i].children.to_multiset());
        lemma_same_elements(s[i].children, t[i].children);
        lemma_children_distinct(s, i);
        assert(t[i].children.contains(cx));
        assert(t[i].children.contains(cy));
        assert(s[i].children.contains(cx));
        assert(s[i].children.contains(cy));
        let wx = choose|w: int| 0 <= w < s[i].children.len() && s[i].children[w] == cx;
        let wy = choose|w: int| 0 <= w < s[i].children.len() && s[i].children[w] == cy;
        assert(cx != cy);
        assert(cx == child_at(s, i, wx));
        assert(cy == child_at(s, i, wy));
        if wx < wy {
            assert(name_of(s, child_at(s, i, wx)) != name_of(s, child_at(s, i, wy)));
        } else {
            assert(name_of(s, child_at(s, i, wy)) != name_of(s, child_at(s, i, wx)));
        }
        assert(t[cx].value == s[cx].value);
        assert(t[cy].value == s[cy].value);
    }
}

/// An order by name stays one where the nodes keep their values.
proof fn lemma_sorted_same_names(s: Seq<Slot>, t: Seq<Slot>, kids: Seq<int>)
    requires
        same_nodes(s, t),
        forall|k: int| 0 <= k < kids.len() ==> 0 <= #[trigger] kids[k] < s.len(),
        sorted_by_name(t, kids),
    ensures
        sorted_by_name(s, kids),
{
    assert forall|a: int, b: int| 0 <= a < b < kids.len() implies name_le(
        s[#[trigger] kids[a]].value.name,
        s[#[trigger] kids[b]].value.name,
    ) by {
        assert(t[kids[a]].value == s[kids[a]].value);
        assert(t[kids[b]].value == s[kids[b]].value);
    }
}

impl FsTree {
    fn render_children(&self, id: NodeId, prefix: &Vec<char>, out: &mut Vec<char>)
        requires
            self.wf(),
            0 <= node_index(id) < self.slots().len(),
        ensures
            final(out)@ == old(out)@ + rendered_children(
                self.slots(),
                node_index(id),
                prefix@,
                0,
            ),
        decreases self.slots().len() - node_index(id),
    {
        let ghost s = self.slots();
        let ghost i = node_index(id);
        let ghost start = out@;
        let kids = tree_children(&self.tree, id);
        let mut k: usize = 0;
        while k < kids.len()
            invariant
                k <= kids.len(),
                self.wf(),
                s == self.slots(),
                i == node_index(id),
                0 <= i < s.len(),
                kids@.len() == s[i].children.len(),
                forall|j: int|
                    0 <= j < kids@.len() ==> node_index(#[trigger] kids@[j]) == s[i].children[j],
                start + rendered_children(s, i, prefix@, 0) == out@ + rendered_children(
                    s,
                    i,
                    prefix@,
                    k as int,
                ),
            decreases kids.len() - k,
        {
            let child = kids[k];
            let last = k + 1 == kids.len();
            let ghost c = node_index(child);
            let ghost before = out@;
            proof {
                assert(node_index(kids@[k as int]) == child_at(s, i, k as int));
            }
            push_all(out, prefix);
            let sign = branch_sign(last);
            push_all(out, &sign);
            let name = tree_value(&self.tree, child).name();
            let name_chars = chars_of(name.as_str());
            push_all(out, &name_chars);
            out.push('\n');
            let mut deeper = prefix.clone();
            let below = trunk_sign(last);
            push_all(&mut deeper, &below);
            let ghost line = out@;
            self.render_children(child, &deeper, out);
            proof {
                let rest = rendered_children(s, i, prefix@, k + 1);
                let under = rendered_children(s, c, prefix@ + trunk(last), 0);
                assert(line == before + prefix@ + branch(last) + s[c].value.name + seq!['\n']);
                assert(out@ + rest == before + (prefix@ + branch(last) + s[c].value.name
                    + seq!['\n'] + under + rest));
            }
            k += 1;
        }
        proof {
            assert(out@ + Seq::<char>::empty() == out@);
        }
    }

    /// Draws the tree as text.
    pub fn to_string(&self) -> (r: String)
        requires
            self.wf(),
        ensures
            r@ == self.rendered(),
    {
        let ghost s = self.slots();
        let mut out: Vec<char> = Vec::new();
        let root = tree_root(&self.tree);
        let kids = tree_children(&self.tree, root);
        let empty: Vec<char> = Vec::new();
        let mut k: usize = 0;
        proof {
            assert(out@ + rendered_from(s, 0) == rendered_from(s, 0));
        }
        while k < kids.len()
            invariant
                k <= kids.len(),
                self.wf(),
                s == self.slots(),
                empty@ == Seq::<char>::empty(),
                kids@.len() == s[0].children.len(),
                forall|j: int|
                    0 <= j < kids@.len() ==> node_index(#[trigger] kids@[j]) == s[0].children[j],
                rendered_from(s, 0) == out@ + rendered_from(s, k as int),
            decreases kids.len() - k,
        {
            let child = kids[k];
            let ghost c = node_index(child);
            let ghost before = out@;
            proof {
                assert(node_index(kids@[k as int]) == child_at(s, 0, k as int));
            }
            let name = tree_value(&self.tree, child).name();
            let name_chars = chars_of(name.as_str());
            push_all(&mut out, &name_chars);
            out.push('\n');
            self.render_children(child, &empty, &mut out);
            proof {
                let rest = rendered_from(s, k + 1);
                let under = rendered_children(s, c, Seq::empty(), 0);
                assert(out@ + rest == before + (s[c].value.name + seq!['\n'] + under + rest));
            }
            k += 1;
        }
        proof {
            assert(out@ + Seq::<char>::empty() == out@);
        }
        string_of(out.as_slice())
    }

    fn sort_from(&mut self, id: NodeId)
        requires
            old(self).wf(),
            0 <= node_index(id) < old(self).slots().len(),
        ensures
            final(self).wf(),
            sorted_below(old(self).slots(), final(self).slots(), node_index(id)),
        decreases old(self).slots().len() - node_index(id),
    {
        let ghost s0 = self.slots();
        let ghost a = node_index(id);
        tree_sort_children(&mut self.tree, id);
        let ghost s1 = self.slots();
        proof {
            assert(same_nodes(s0, s1)) by {
                assert forall|i: int| 0 <= i < s0.len() implies #[trigger] parent_of(s1, i)
                    == parent_of(s0, i) by {
                    assert(s1[i].parent == s0[i].parent);
                }
            }
            assert forall|i: int| 0 <= i < s0.len() && i != a implies #[trigger] children_of(
                s1,
                i,
            ) == s0[i].children by {
                assert(s1[i].children == s0[i].children);
            }
            assert forall|x: int| 0 <= x < s0.len() implies (#[trigger] children_of(
                s1,
                x,
            )).to_multiset() == s0[x].children.to_multiset() by {
                if x != a {
                    assert(children_of(s1, x) == s0[x].children);
                }
            }
            lemma_rearranged_well_formed(s0, s1);
        }
        let kids = tree_children(&self.tree, id);
        let mut k: usize = 0;
        while k < kids.len()
            invariant
                k <= kids.len(),
                well_formed(s0),
                s0 == old(self).slots(),
                self.wf(),
                a == node_index(id),
                0 <= a < s0.len(),
                same_nodes(s0, self.slots()),
                kids@.len() == self.slots()[a].children.len(),
                forall|j: int|
                    0 <= j < kids@.len() ==> node_index(#[trigger] kids@[j])
                        == self.slots()[a].children[j],
                sorted_arrangement(s0, s0[a].children, self.slots()[a].children),
                forall|x: int|
                    0 <= x < s0.len() ==> #[trigger] children_of(self.slots(), x) == s0[x].children
                        || sorted_arrangement(s0, s0[x].children, children_of(self.slots(), x)),
                forall|x: int|
                    0 <= x < s0.len() && !descends(s0, x, a) ==> #[trigger] children_of(
                        self.slots(),
                        x,
                    ) == s0[x].children,
                forall|x: int, j: int|
                    0 <= x < s0.len() && 0 <= j < k && descends(
                        s0,
                        x,
                        #[trigger] child_at(self.slots(), a, j),
                    ) ==> sorted_arrangement(
                        s0,
                        s0[x].children,
                        #[trigger] children_of(self.slots(), x),
                    ),
            decreases kids.len() - k,
        {
            let child = kids[k];
            let ghost sk = self.slots();
            let ghost c = node_index(child);
            proof {
                assert(node_index(kids@[k as int]) == child_at(sk, a, k as int));
                assert(a < c < sk.len() && parent_of(sk, c) == a);
                assert(sk.len() == s0.len());
            }
            self.sort_from(child);
            proof {
                let sn = self.slots();
                assert(same_nodes(sk, sn));
                assert(same_nodes(s0, sn)) by {
                    assert forall|i: int| 0 <= i < s0.len() implies #[trigger] parent_of(sn, i)
                        == parent_of(s0, i) by {
                        assert(parent_of(sn, i) == parent_of(sk, i));
                        assert(parent_of(sk, i) == parent_of(s0, i));
                    }
                    assert forall|i: int| 0 <= i < s0.len() implies (#[trigger] sn[i]).value
                        == s0[i].value by {
                        assert(sn[i].value == sk[i].value);
                        assert(sk[i].value == s0[i].value);
                    }
                }
                assert(parent_of(s0, c) == a) by {
                    assert(parent_of(sk, c) == parent_of(s0, c));
                }
                assert(0 <= parent_of(s0, c) < c);
                // The node `a` itself is not below `c`.
                assert(!descends(sk, a, c)) by {
                    if descends(sk, a, c) {
                        lemma_descends_not_above(sk, a, c);
                    }
                }
                assert(children_of(sn, a) == sk[a].children);
                assert forall|x: int| 0 <= x < s0.len() implies #[trigger] children_of(sn, x)
                    == s0[x].children || sorted_arrangement(
                    s0,
                    s0[x].children,
                    children_of(sn, x),
                ) by {
                    lemma_descends_same_parents(s0, sk, x, c);
                    if descends(sk, x, c) {
                        assert(sorted_arrangement(sk, sk[x].children, children_of(sn, x)));
                        assert(children_of(sk, x) == s0[x].children || sorted_arrangement(
                            s0,
                            s0[x].children,
                            children_of(sk, x),
                        ));
                        assert forall|w: int| 0 <= w < sn[x].children.len() implies 0
                            <= #[trigger] sn[x].children[w] < s0.len() by {
                            assert(x < child_at(sn, x, w) < sn.len());
                        }
                        lemma_sorted_same_names(s0, sk, sn[x].children);
                    } else {
                        assert(children_of(sn, x) == sk[x].children);
                        assert(children_of(sk, x) == s0[x].children || sorted_arrangement(
                            s0,
                            s0[x].children,
                            children_of(sk, x),
                        ));
                    }
                }
                assert forall|x: int| 0 <= x < s0.len() && !descends(s0, x, a) implies #[trigger] children_of(
                    sn,
                    x,
                ) == s0[x].children by {
                    lemma_descends_same_parents(s0, sk, x, c);
                    if descends(s0, x, c) {
                        lemma_descends_through(s0, x, c, a);
                    }
                    assert(children_of(sn, x) == sk[x].children);
                    assert(children_of(sk, x) == s0[x].children);
                }
                assert forall|x: int, j: int|
                    0 <= x < s0.len() && 0 <= j < k + 1 && descends(
                        s0,
                        x,
                        #[trigger] child_at(sn, a, j),
                    ) implies sorted_arrangement(
                    s0,
                    s0[x].children,
                    #[trigger] children_of(sn, x),
                ) by {
                    assert(child_at(sn, a, j) == child_at(sk, a, j));
                    lemma_descends_same_parents(s0, sk, x, c);
                    if descends(sk, x, c) {
                        assert(sorted_arrangement(sk, sk[x].children, children_of(sn, x)));
                        assert(children_of(sk, x) == s0[x].children || sorted_arrangement(
                            s0,
                            s0[x].children,
                            children_of(sk, x),
                        ));
                        assert forall|w: int| 0 <= w < sn[x].children.len() implies 0
                            <= #[trigger] sn[x].children[w] < s0.len() by {
                            assert(x < child_at(sn, x, w) < sn.len());
                        }
                        lemma_sorted_same_names(s0, sk, sn[x].children);
                    } else {
                        assert(children_of(sn, x) == sk[x].children);
                        assert(j < k);
                        assert(sorted_arrangement(s0, s0[x].children, children_of(sk, x)));
                    }
                }
            }
            k += 1;
        }
        proof {
            let sn = self.slots();
            lemma_same_elements(s0[a].children, sn[a].children);
            assert forall|x: int| 0 <= x < s0.len() && descends(s0, x, a) implies sorted_arrangement(
                s0,
                s0[x].children,
                #[trigger] children_of(sn, x),
            ) by {
                if x != a {
                    let c = lemma_descends_via_child(s0, x, a);
                    assert(listed(s0, c));
                    assert(s0[a].children.contains(c));
                    assert(sn[a].children.contains(c));
                    let j = choose|j: int| 0 <= j < sn[a].children.len() && sn[a].children[j] == c;
                    assert(child_at(sn, a, j) == c);
                }
            }
        }
    }

    /// Puts the children of every node in the order of their names. The
    /// nodes stay as they are, each at its path.
    pub fn sort(&mut self)
        requires
            old(self).wf(),
        ensures
            final(self).wf(),
            sorted_tree(old(self).slots(), final(self).slots()),
            all_sorted(final(self).slots()),
            node_map(final(self).slots()) == node_map(old(self).slots()),
    {
        let ghost s0 = self.slots();
        let root = tree_root(&self.tree);
        self.sort_from(root);
        proof {
            assert forall|x: int| 0 <= x < s0.len() implies sorted_arrangement(
                s0,
                s0[x].children,
                #[trigger] children_of(self.slots(), x),
            ) by {
                lemma_all_descend_from_root(s0, x);
            }
            lemma_sorted_tree(s0, self.slots());
        }
    }
}

} // verus!
