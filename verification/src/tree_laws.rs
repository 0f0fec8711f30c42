//! The nodes of a file tree by their paths, and what holds of file trees
//! whatever the order in which their entries were put in.

use vstd::prelude::*;
use crate::fs_tree::{
    branch, child_at, child_named_from, children_of, inserted, inserted_all, inserted_from,
    lemma_child_named, rendered_children, rendered_from, sorted_tree, trunk,
    lemma_rearranged_well_formed, lemma_with_child_well_formed, listed, name_le, name_of,
    new_node, parent_of, same_nodes, segments, sorted_arrangement, sorted_by_name, well_formed,
    with_child, FsTree, Slot,
};
use crate::node::{NodeKind, NodeView, Record, Timestamp};

verus! {

/// The names on the way from the root down to node `i`.
pub open spec fn path_of(s: Seq<Slot>, i: int) -> Seq<Seq<char>>
    decreases i,
{
    if 0 < i < s.len() && 0 <= s[i].parent < i {
        path_of(s, s[i].parent).push(s[i].value.name)
    } else {
        Seq::empty()
    }
}

/// Some node below the root stands at the path `p`.
pub open spec fn has_path(s: Seq<Slot>, p: Seq<Seq<char>>) -> bool {
    exists|i: int| 0 < i < s.len() && #[trigger] path_of(s, i) == p
}

/// The node that stands at the path `p`.
pub open spec fn index_at(s: Seq<Slot>, p: Seq<Seq<char>>) -> int {
    choose|i: int| 0 < i < s.len() && #[trigger] path_of(s, i) == p
}

/// The nodes of a tree by their paths.
pub open spec fn node_map(s: Seq<Slot>) -> Map<Seq<Seq<char>>, NodeView> {
    Map::new(|p: Seq<Seq<char>>| has_path(s, p), |p: Seq<Seq<char>>| s[index_at(s, p)].value)
}

proof fn lemma_path_of_step(s: Seq<Slot>, i: int)
    requires
        well_formed(s),
        0 < i < s.len(),
    ensures
        0 <= s[i].parent < i,
        path_of(s, i) == path_of(s, s[i].parent).push(s[i].value.name),
        path_of(s, i).len() >= 1,
        path_of(s, i).drop_last() == path_of(s, s[i].parent),
        path_of(s, i).last() == s[i].value.name,
{
    assert(0 <= parent_of(s, i) < i);
}

/// No two nodes of a tree stand at the same path.
pub proof fn lemma_path_injective(s: Seq<Slot>, i: int, j: int)
    requires
        well_formed(s),
        0 <= i < s.len(),
        0 <= j < s.len(),
        path_of(s, i) == path_of(s, j),
    ensures
        i == j,
    decreases i,
{
    if i == 0 {
        if j != 0 {
            lemma_path_of_step(s, j);
        }
    } else {
        lemma_path_of_step(s, i);
        if j == 0 {
        } else {
            lemma_path_of_step(s, j);
            let pi = s[i].parent;
            let pj = s[j].parent;
            lemma_path_injective(s, pi, pj);
            assert(listed(s, i));
            assert(listed(s, j));
            let a = choose|a: int| 0 <= a < s[pi].children.len() && s[pi].children[a] == i;
            let b = choose|b: int| 0 <= b < s[pi].children.len() && s[pi].children[b] == j;
            if a < b {
                assert(name_of(s, child_at(s, pi, a)) != name_of(s, child_at(s, pi, b)));
            } else if b < a {
                assert(name_of(s, child_at(s, pi, b)) != name_of(s, child_at(s, pi, a)));
            }
        }
    }
}

proof fn lemma_index_at(s: Seq<Slot>, i: int)
    requires
        well_formed(s),
        0 < i < s.len(),
    ensures
        has_path(s, path_of(s, i)),
        index_at(s, path_of(s, i)) == i,
        node_map(s).dom().contains(path_of(s, i)),
        node_map(s)[path_of(s, i)] == s[i].value,
{
    let p = path_of(s, i);
    let w = index_at(s, p);
    lemma_path_injective(s, w, i);
}

proof fn lemma_with_child_path(s: Seq<Slot>, cur: int, value: NodeView, i: int)
    requires
        well_formed(s),
        0 <= cur < s.len(),
        0 <= i < s.len(),
    ensures
        path_of(with_child(s, cur, value), i) == path_of(s, i),
    decreases i,
{
    let t = with_child(s, cur, value);
    if i > 0 {
        lemma_path_of_step(s, i);
        assert(t[i].parent == s[i].parent);
        assert(t[i].value == s[i].value);
        lemma_with_child_path(s, cur, value, s[i].parent);
    }
}

/// The nodes by path of a tree with one more child: those of the tree,
/// and the child at the path of its parent followed by its name.
proof fn lemma_with_child_map(s: Seq<Slot>, cur: int, value: NodeView)
    requires
        well_formed(s),
        well_formed(with_child(s, cur, value)),
        0 <= cur < s.len(),
    ensures
        path_of(with_child(s, cur, value), s.len() as int) == path_of(s, cur).push(value.name),
        !node_map(s).dom().contains(path_of(s, cur).push(value.name)),
        node_map(with_child(s, cur, value)) == node_map(s).insert(
            path_of(s, cur).push(value.name),
            value,
        ),
{
    let t = with_child(s, cur, value);
    let n = s.len() as int;
    let q = path_of(s, cur).push(value.name);
    lemma_with_child_path(s, cur, value, cur);
    assert(t[n].parent == cur);
    assert(path_of(t, n) == q);
    assert forall|i: int| 0 <= i < n implies #[trigger] path_of(t, i) == path_of(s, i) by {
        lemma_with_child_path(s, cur, value, i);
    }
    if has_path(s, q) {
        let x = index_at(s, q);
        assert(path_of(t, x) == q);
        lemma_path_injective(t, x, n);
    }
    assert forall|p: Seq<Seq<char>>| has_path(t, p) == (has_path(s, p) || p == q) by {
        if has_path(t, p) {
            let w = index_at(t, p);
            if w < n {
                assert(path_of(s, w) == p);
            }
        }
        if has_path(s, p) {
            let w = index_at(s, p);
            assert(path_of(t, w) == p);
        }
    }
    assert forall|p: Seq<Seq<char>>| has_path(t, p) implies #[trigger] node_map(t)[p]
        == node_map(s).insert(q, value)[p] by {
        let w = index_at(t, p);
        if p == q {
            lemma_path_injective(t, w, n);
        } else {
            let v = index_at(s, p);
            assert(path_of(t, v) == p);
            lemma_path_injective(t, w, v);
            assert(t[v].value == s[v].value);
        }
    }
    assert(node_map(t) =~= node_map(s).insert(q, value));
}

/// `p` is one of the paths that a walk along `segs` passes after its
/// first `k` segments.
pub open spec fn is_new_prefix(segs: Seq<Seq<char>>, k: int, p: Seq<Seq<char>>) -> bool {
    k < p.len() <= segs.len() && p == segs.take(p.len() as int)
}

/// The nodes by path after a walk along `segs` from its `k`-th segment
/// on: the nodes that were there stay, and each path that the walk passes
/// and finds empty gets the node that the entry makes for it.
pub open spec fn extended(
    m: Map<Seq<Seq<char>>, NodeView>,
    segs: Seq<Seq<char>>,
    k: int,
    is_dir: bool,
    modified: Option<Timestamp>,
) -> Map<Seq<Seq<char>>, NodeView> {
    Map::new(
        |p: Seq<Seq<char>>| m.dom().contains(p) || is_new_prefix(segs, k, p),
        |p: Seq<Seq<char>>|
            if m.dom().contains(p) {
                m[p]
            } else {
                new_node(segs, p.len() - 1, is_dir, modified)
            },
    )
}

/// A walk leaves a tree well-formed, and its nodes by path are those of
/// the tree extended along the walk.
pub proof fn lemma_inserted_from(
    s: Seq<Slot>,
    cur: int,
    segs: Seq<Seq<char>>,
    k: int,
    is_dir: bool,
    modified: Option<Timestamp>,
)
    requires
        well_formed(s),
        0 <= cur < s.len(),
        0 <= k <= segs.len(),
        path_of(s, cur) == segs.take(k),
    ensures
        well_formed(inserted_from(s, cur, segs, k, is_dir, modified)),
        node_map(inserted_from(s, cur, segs, k, is_dir, modified)) == extended(
            node_map(s),
            segs,
            k,
            is_dir,
            modified,
        ),
    decreases segs.len() - k,
{
    let m = node_map(s);
    if k >= segs.len() {
        assert(extended(m, segs, k, is_dir, modified) =~= m);
    } else {
        let next = segs.take(k + 1);
        assert(next == segs.take(k).push(segs[k]));
        match child_named_from(s, cur, segs[k], 0) {
            Some(c) => {
                lemma_child_named(s, cur, segs[k], 0);
                lemma_path_of_step(s, c);
                assert(path_of(s, c) == next);
                lemma_index_at(s, c);
                lemma_inserted_from(s, c, segs, k + 1, is_dir, modified);
                assert forall|p: Seq<Seq<char>>|
                    m.dom().contains(p) || is_new_prefix(segs, k, p) implies m.dom().contains(p)
                    || is_new_prefix(segs, k + 1, p) by {
                    if !m.dom().contains(p) && p.len() == k + 1 {
                        assert(p == next);
                    }
                }
                assert(extended(m, segs, k + 1, is_dir, modified) =~= extended(
                    m,
                    segs,
                    k,
                    is_dir,
                    modified,
                ));
            },
            None => {
                let v = new_node(segs, k, is_dir, modified);
                let s1 = with_child(s, cur, v);
                lemma_child_named(s, cur, segs[k], 0);
                lemma_with_child_well_formed(s, cur, v);
                lemma_with_child_map(s, cur, v);
                let m1 = node_map(s1);
                assert(m1 == m.insert(next, v));
                lemma_inserted_from(s1, s.len() as int, segs, k + 1, is_dir, modified);
                assert forall|p: Seq<Seq<char>>|
                    (m1.dom().contains(p) || is_new_prefix(segs, k + 1, p)) == (m.dom().contains(
                        p,
                    ) || is_new_prefix(segs, k, p)) by {
                    if p == next {
                        assert(is_new_prefix(segs, k, p));
                    }
                    if is_new_prefix(segs, k, p) && p.len() == k + 1 {
                        assert(p == next);
                    }
                }
                assert(extended(m1, segs, k + 1, is_dir, modified) =~= extended(
                    m,
                    segs,
                    k,
                    is_dir,
                    modified,
                ));
            },
        }
    }
}


/// The path `p` is one that the walk for the entry `r` passes.
pub open spec fn touches(r: Record, p: Seq<Seq<char>>) -> bool {
    is_new_prefix(segments(r.path), 0, p)
}

/// The node that the entry `r` makes at the path `p` where it finds none.
pub open spec fn made(r: Record, p: Seq<Seq<char>>) -> NodeView {
    new_node(segments(r.path), p.len() - 1, r.is_dir, r.modified)
}

/// The nodes by path once the entry `r` is put in.
pub open spec fn extend_record(m: Map<Seq<Seq<char>>, NodeView>, r: Record) -> Map<
    Seq<Seq<char>>,
    NodeView,
> {
    extended(m, segments(r.path), 0, r.is_dir, r.modified)
}

/// The nodes by path once the entries are put in, the last one first.
pub open spec fn extend_all(m: Map<Seq<Seq<char>>, NodeView>, records: Seq<Record>) -> Map<
    Seq<Seq<char>>,
    NodeView,
>
    decreases records.len(),
{
    if records.len() == 0 {
        m
    } else {
        extend_all(extend_record(m, records.last()), records.drop_last())
    }
}

/// Some entry passes the path `p`.
pub open spec fn touched(records: Seq<Record>, p: Seq<Seq<char>>) -> bool {
    exists|i: int| 0 <= i < records.len() && touches(#[trigger] records[i], p)
}

/// The entries agree on every node: any two of them that pass the same
/// path would make the same node there, of the same kind and time.
pub open spec fn consistent(records: Seq<Record>) -> bool {
    forall|i: int, j: int, p: Seq<Seq<char>>|
        0 <= i < records.len() && 0 <= j < records.len() && #[trigger] touches(records[i], p)
            && #[trigger] touches(records[j], p) ==> made(records[i], p) == made(records[j], p)
}

/// Putting entries into a well-formed tree leaves it well-formed, and its
/// nodes by path are those of the tree extended by the entries.
pub proof fn lemma_inserted_all(s: Seq<Slot>, records: Seq<Record>)
    requires
        well_formed(s),
    ensures
        well_formed(inserted_all(s, records)),
        node_map(inserted_all(s, records)) == extend_all(node_map(s), records),
    decreases records.len(),
{
    if records.len() > 0 {
        let r = records.last();
        let segs = segments(r.path);
        assert(segs.take(0) == Seq::<Seq<char>>::empty());
        lemma_inserted_from(s, 0, segs, 0, r.is_dir, r.modified);
        lemma_inserted_all(inserted(s, r), records.drop_last());
    }
}

proof fn lemma_touched_split(records: Seq<Record>, p: Seq<Seq<char>>)
    requires
        records.len() > 0,
    ensures
        touched(records, p) == (touched(records.drop_last(), p) || touches(records.last(), p)),
{
    let dl = records.drop_last();
    if touched(records, p) {
        let i = choose|i: int| 0 <= i < records.len() && touches(#[trigger] records[i], p);
        if i < records.len() - 1 {
            assert(touches(dl[i], p));
        }
    }
    if touched(dl, p) {
        let i = choose|i: int| 0 <= i < dl.len() && touches(#[trigger] dl[i], p);
        assert(touches(records[i], p));
    }
    if touches(records.last(), p) {
        assert(touches(records[records.len() - 1], p));
    }
}

/// After the entries are put in there is a node at a path if there was
/// one before or an entry passes the path; and a node that was there
/// before is as it was.
pub proof fn lemma_extend_all_keeps(
    m: Map<Seq<Seq<char>>, NodeView>,
    records: Seq<Record>,
    p: Seq<Seq<char>>,
)
    ensures
        extend_all(m, records).dom().contains(p) == (m.dom().contains(p) || touched(records, p)),
        m.dom().contains(p) ==> extend_all(m, records)[p] == m[p],
    decreases records.len(),
{
    if records.len() > 0 {
        let m1 = extend_record(m, records.last());
        lemma_extend_all_keeps(m1, records.drop_last(), p);
        lemma_touched_split(records, p);
    }
}

/// Where the entries agree, the node at a path that was empty before is
/// the one that any entry passing the path makes.
pub proof fn lemma_extend_all_makes(
    m: Map<Seq<Seq<char>>, NodeView>,
    records: Seq<Record>,
    p: Seq<Seq<char>>,
    i: int,
)
    requires
        consistent(records),
        !m.dom().contains(p),
        0 <= i < records.len(),
        touches(records[i], p),
    ensures
        extend_all(m, records)[p] == made(records[i], p),
    decreases records.len(),
{
    let last = records.last();
    let dl = records.drop_last();
    let m1 = extend_record(m, last);
    if touches(last, p) {
        lemma_extend_all_keeps(m1, dl, p);
        assert(touches(records[records.len() - 1], p));
    } else {
        assert(i < records.len() - 1);
        assert(dl[i] == records[i]);
        assert(consistent(dl)) by {
            assert forall|a: int, b: int, q: Seq<Seq<char>>|
                0 <= a < dl.len() && 0 <= b < dl.len() && #[trigger] touches(dl[a], q)
                    && #[trigger] touches(dl[b], q) implies made(dl[a], q) == made(dl[b], q) by {
                assert(touches(records[a], q) && touches(records[b], q));
            }
        }
        lemma_extend_all_makes(m1, dl, p, i);
    }
}

proof fn lemma_same_records(a: Seq<Record>, b: Seq<Record>)
    requires
        a.to_multiset() == b.to_multiset(),
    ensures
        forall|r: Record| a.contains(r) == b.contains(r),
{
    a.to_multiset_ensures();
    b.to_multiset_ensures();
    assert forall|r: Record| a.contains(r) == b.contains(r) by {
        assert(a.contains(r) <==> a.to_multiset().count(r) > 0);
        assert(b.contains(r) <==> b.to_multiset().count(r) > 0);
    }
}

proof fn lemma_touched_by_same(a: Seq<Record>, b: Seq<Record>, p: Seq<Seq<char>>)
    requires
        forall|r: Record| a.contains(r) == b.contains(r),
        touched(a, p),
    ensures
        touched(b, p),
{
    let i = choose|i: int| 0 <= i < a.len() && touches(#[trigger] a[i], p);
    assert(a.contains(a[i]));
    assert(b.contains(a[i]));
    let j = choose|j: int| 0 <= j < b.len() && b[j] == a[i];
    assert(touches(b[j], p));
}

/// The same entries in another order give the same paths.
pub proof fn lemma_same_paths(a: Seq<Record>, b: Seq<Record>)
    requires
        a.to_multiset() == b.to_multiset(),
    ensures
        extend_all(Map::empty(), a).dom() == extend_all(Map::empty(), b).dom(),
{
    lemma_same_records(a, b);
    let e = Map::<Seq<Seq<char>>, NodeView>::empty();
    assert forall|p: Seq<Seq<char>>|
        extend_all(e, a).dom().contains(p) == extend_all(e, b).dom().contains(p) by {
        lemma_extend_all_keeps(e, a, p);
        lemma_extend_all_keeps(e, b, p);
        if touched(a, p) {
            lemma_touched_by_same(a, b, p);
        }
        if touched(b, p) {
            lemma_touched_by_same(b, a, p);
        }
    }
    assert(extend_all(e, a).dom() =~= extend_all(e, b).dom());
}

/// The same entries in another order, where they agree, give the same
/// node at every path.
pub proof fn lemma_same_nodes_by_path(a: Seq<Record>, b: Seq<Record>)
    requires
        a.to_multiset() == b.to_multiset(),
        consistent(a),
    ensures
        extend_all(Map::empty(), a) == extend_all(Map::empty(), b),
{
    lemma_same_records(a, b);
    lemma_same_paths(a, b);
    let e = Map::<Seq<Seq<char>>, NodeView>::empty();
    assert(consistent(b)) by {
        assert forall|i: int, j: int, p: Seq<Seq<char>>|
            0 <= i < b.len() && 0 <= j < b.len() && #[trigger] touches(b[i], p)
                && #[trigger] touches(b[j], p) implies made(b[i], p) == made(b[j], p) by {
            assert(b.contains(b[i]));
            assert(b.contains(b[j]));
            assert(a.contains(b[i]));
            assert(a.contains(b[j]));
            let x = choose|x: int| 0 <= x < a.len() && a[x] == b[i];
            let y = choose|y: int| 0 <= y < a.len() && a[y] == b[j];
            assert(touches(a[x], p) && touches(a[y], p));
        }
    }
    assert forall|p: Seq<Seq<char>>| extend_all(e, a).dom().contains(p) implies extend_all(
        e,
        a,
    )[p] == extend_all(e, b)[p] by {
        lemma_extend_all_keeps(e, a, p);
        let i = choose|i: int| 0 <= i < a.len() && touches(#[trigger] a[i], p);
        assert(a.contains(a[i]));
        assert(b.contains(a[i]));
        let j = choose|j: int| 0 <= j < b.len() && b[j] == a[i];
        lemma_extend_all_makes(e, a, p, i);
        lemma_extend_all_makes(e, b, p, j);
    }
    assert(extend_all(e, a) =~= extend_all(e, b));
}

/// A node with all that is below it.
pub struct Entry {
    pub node: NodeView,
    pub children: Seq<Entry>,
}

/// A node known by its name alone.
pub open spec fn bare(v: NodeView) -> NodeView {
    NodeView { kind: NodeKind::Dir, name: v.name, modified: None, parent: None }
}

/// The children of node `i` from the `k`-th on, each with all that is
/// below it; with `names_only`, each node is known by its name alone.
pub open spec fn forest(s: Seq<Slot>, i: int, k: int, names_only: bool) -> Seq<Entry>
    decreases s.len() - i, s[i].children.len() - k,
{
    let kids = s[i].children;
    if i < 0 || i >= s.len() || k < 0 || k >= kids.len() || !(i < kids[k] < s.len()) {
        Seq::empty()
    } else {
        seq![
            Entry {
                node: if names_only {
                    bare(s[kids[k]].value)
                } else {
                    s[kids[k]].value
                },
                children: forest(s, kids[k], 0, names_only),
            },
        ] + forest(s, i, k + 1, names_only)
    }
}

/// What a tree holds below its root, in full.
pub open spec fn structure(s: Seq<Slot>) -> Seq<Entry> {
    forest(s, 0, 0, false)
}

/// What a tree holds below its root, by names alone.
pub open spec fn shape(s: Seq<Slot>) -> Seq<Entry> {
    forest(s, 0, 0, true)
}

/// The children of every node come in the order of their names.
pub open spec fn all_sorted(s: Seq<Slot>) -> bool {
    forall|x: int| 0 <= x < s.len() ==> sorted_by_name(s, #[trigger] children_of(s, x))
}

/// The names of the children of node `i`, first to last.
pub open spec fn child_names(s: Seq<Slot>, i: int) -> Seq<Seq<char>> {
    Seq::new(s[i].children.len(), |k: int| name_of(s, child_at(s, i, k)))
}

proof fn lemma_name_le_reflexive(a: Seq<char>)
    ensures
        name_le(a, a),
    decreases a.len(),
{
    if a.len() > 0 {
        lemma_name_le_reflexive(a.skip(1));
    }
}

/// Two strings that each come no later than the other are the same.
pub proof fn lemma_name_le_antisymmetric(a: Seq<char>, b: Seq<char>)
    requires
        name_le(a, b),
        name_le(b, a),
    ensures
        a == b,
    decreases a.len(),
{
    if a.len() == 0 {
        assert(b.len() == 0);
        assert(a =~= b);
    } else {
        assert(b.len() > 0);
        assert(a[0] == b[0]);
        lemma_name_le_antisymmetric(a.skip(1), b.skip(1));
        assert(a =~= seq![a[0]] + a.skip(1));
        assert(b =~= seq![b[0]] + b.skip(1));
    }
}

/// The strings of `x` come in order and are all different.
pub open spec fn ascending(x: Seq<Seq<char>>) -> bool {
    forall|a: int, b: int|
        0 <= a < b < x.len() ==> name_le(#[trigger] x[a], #[trigger] x[b]) && x[a] != x[b]
}

/// Two ascending lists of the same strings are the same list.
proof fn lemma_ascending_equal(x: Seq<Seq<char>>, y: Seq<Seq<char>>)
    requires
        ascending(x),
        ascending(y),
        forall|n: Seq<char>| x.contains(n) == y.contains(n),
    ensures
        x == y,
    decreases x.len(),
{
    if x.len() == 0 {
        if y.len() > 0 {
            assert(y.contains(y[0]));
        }
        assert(x =~= y);
    } else if y.len() == 0 {
        assert(x.contains(x[0]));
    } else {
        assert(x.contains(x[0]));
        assert(y.contains(y[0]));
        let m = choose|m: int| 0 <= m < x.len() && x[m] == y[0];
        let l = choose|l: int| 0 <= l < y.len() && y[l] == x[0];
        if m > 0 {
            assert(name_le(x[0], x[m]));
        } else {
            lemma_name_le_reflexive(x[0]);
        }
        if l > 0 {
            assert(name_le(y[0], y[l]));
        } else {
            lemma_name_le_reflexive(y[0]);
        }
        lemma_name_le_antisymmetric(x[0], y[0]);
        let xt = x.skip(1);
        let yt = y.skip(1);
        assert(ascending(xt)) by {
            assert forall|a: int, b: int| 0 <= a < b < xt.len() implies name_le(
                #[trigger] xt[a],
                #[trigger] xt[b],
            ) && xt[a] != xt[b] by {
                assert(name_le(x[a + 1], x[b + 1]) && x[a + 1] != x[b + 1]);
            }
        }
        assert(ascending(yt)) by {
            assert forall|a: int, b: int| 0 <= a < b < yt.len() implies name_le(
                #[trigger] yt[a],
                #[trigger] yt[b],
            ) && yt[a] != yt[b] by {
                assert(name_le(y[a + 1], y[b + 1]) && y[a + 1] != y[b + 1]);
            }
        }
        assert forall|n: Seq<char>| xt.contains(n) == yt.contains(n) by {
            if xt.contains(n) {
                let w = choose|w: int| 0 <= w < xt.len() && xt[w] == n;
                assert(x[w + 1] == n);
                assert(name_le(x[0], x[w + 1]) && x[0] != x[w + 1]);
                assert(x.contains(n));
                assert(y.contains(n));
                let v = choose|v: int| 0 <= v < y.len() && y[v] == n;
                assert(v > 0);
                assert(yt[v - 1] == n);
            }
            if yt.contains(n) {
                let w = choose|w: int| 0 <= w < yt.len() && yt[w] == n;
                assert(y[w + 1] == n);
                assert(name_le(y[0], y[w + 1]) && y[0] != y[w + 1]);
                assert(y.contains(n));
                assert(x.contains(n));
                let v = choose|v: int| 0 <= v < x.len() && x[v] == n;
                assert(v > 0);
                assert(xt[v - 1] == n);
            }
        }
        lemma_ascending_equal(xt, yt);
        assert(x =~= seq![x[0]] + xt);
        assert(y =~= seq![y[0]] + yt);
    }
}

proof fn lemma_child_path(s: Seq<Slot>, i: int, k: int)
    requires
        well_formed(s),
        0 <= i < s.len(),
        0 <= k < s[i].children.len(),
    ensures
        i < child_at(s, i, k) < s.len(),
        s[child_at(s, i, k)].parent == i,
        path_of(s, child_at(s, i, k)) == path_of(s, i).push(name_of(s, child_at(s, i, k))),
{
    let c = child_at(s, i, k);
    assert(i < c < s.len() && parent_of(s, c) == i);
    lemma_path_of_step(s, c);
}

/// A name is that of a child of node `i` exactly if some node stands at
/// the path of `i` followed by the name.
proof fn lemma_child_names_are_paths(s: Seq<Slot>, i: int, n: Seq<char>)
    requires
        well_formed(s),
        0 <= i < s.len(),
    ensures
        child_names(s, i).contains(n) == has_path(s, path_of(s, i).push(n)),
{
    let x = child_names(s, i);
    let q = path_of(s, i).push(n);
    if x.contains(n) {
        let k = choose|k: int| 0 <= k < x.len() && x[k] == n;
        lemma_child_path(s, i, k);
        assert(path_of(s, child_at(s, i, k)) == q);
    }
    if has_path(s, q) {
        let c = index_at(s, q);
        lemma_path_of_step(s, c);
        assert(q.drop_last() == path_of(s, i));
        lemma_path_injective(s, s[c].parent, i);
        assert(listed(s, c));
        let k = choose|k: int| 0 <= k < s[i].children.len() && s[i].children[k] == c;
        assert(x[k] == name_of(s, child_at(s, i, k)));
        assert(q.last() == n);
    }
}

proof fn lemma_child_names_ascending(s: Seq<Slot>, i: int)
    requires
        well_formed(s),
        all_sorted(s),
        0 <= i < s.len(),
    ensures
        ascending(child_names(s, i)),
{
    let x = child_names(s, i);
    let kids = children_of(s, i);
    assert(sorted_by_name(s, kids));
    assert forall|a: int, b: int| 0 <= a < b < x.len() implies name_le(
        #[trigger] x[a],
        #[trigger] x[b],
    ) && x[a] != x[b] by {
        assert(name_le(s[kids[a]].value.name, s[kids[b]].value.name));
        assert(name_of(s, child_at(s, i, a)) != name_of(s, child_at(s, i, b)));
    }
}

/// Nodes that stand at the same path in two sorted trees with the same
/// paths have children of the same names, in the same order.
proof fn lemma_same_child_names(s: Seq<Slot>, t: Seq<Slot>, i: int, j: int)
    requires
        well_formed(s),
        well_formed(t),
        all_sorted(s),
        all_sorted(t),
        node_map(s).dom() == node_map(t).dom(),
        0 <= i < s.len(),
        0 <= j < t.len(),
        path_of(s, i) == path_of(t, j),
    ensures
        child_names(s, i) == child_names(t, j),
{
    lemma_child_names_ascending(s, i);
    lemma_child_names_ascending(t, j);
    assert forall|n: Seq<char>| child_names(s, i).contains(n) == child_names(t, j).contains(
        n,
    ) by {
        lemma_child_names_are_paths(s, i, n);
        lemma_child_names_are_paths(t, j, n);
        let q = path_of(s, i).push(n);
        assert(node_map(s).dom().contains(q) == has_path(s, q));
        assert(node_map(t).dom().contains(q) == has_path(t, q));
    }
    lemma_ascending_equal(child_names(s, i), child_names(t, j));
}

/// Two sorted trees with the same nodes by path hold the same below
/// nodes that stand at the same path; with the same paths alone, they hold
/// the same by names.
proof fn lemma_same_forest(
    s: Seq<Slot>,
    t: Seq<Slot>,
    i: int,
    j: int,
    k: int,
    names_only: bool,
)
    requires
        well_formed(s),
        well_formed(t),
        all_sorted(s),
        all_sorted(t),
        node_map(s).dom() == node_map(t).dom(),
        !names_only ==> node_map(s) == node_map(t),
        0 <= i < s.len(),
        0 <= j < t.len(),
        path_of(s, i) == path_of(t, j),
        0 <= k,
    ensures
        forest(s, i, k, names_only) == forest(t, j, k, names_only),
    decreases s.len() - i, s[i].children.len() - k,
{
    lemma_same_child_names(s, t, i, j);
    let x = child_names(s, i);
    let y = child_names(t, j);
    assert(x.len() == s[i].children.len());
    assert(y.len() == t[j].children.len());
    if k < s[i].children.len() {
        lemma_child_path(s, i, k);
        lemma_child_path(t, j, k);
        let a = child_at(s, i, k);
        let b = child_at(t, j, k);
        assert(x[k] == name_of(s, a));
        assert(y[k] == name_of(t, b));
        assert(path_of(s, a) == path_of(t, b));
        lemma_index_at(s, a);
        lemma_index_at(t, b);
        lemma_same_forest(s, t, a, b, 0, names_only);
        lemma_same_forest(s, t, i, j, k + 1, names_only);
    }
}

proof fn lemma_same_nodes_path(s: Seq<Slot>, t: Seq<Slot>, i: int)
    requires
        same_nodes(s, t),
        0 <= i < s.len(),
    ensures
        path_of(t, i) == path_of(s, i),
    decreases i,
{
    if i > 0 {
        assert(parent_of(t, i) == parent_of(s, i));
        assert(t[i].value == s[i].value);
        if 0 <= s[i].parent < i {
            lemma_same_nodes_path(s, t, s[i].parent);
        }
    }
}

/// A tree whose nodes have their children put in another order has its
/// nodes at the same paths.
pub proof fn lemma_rearranged(s: Seq<Slot>, t: Seq<Slot>)
    requires
        well_formed(s),
        same_nodes(s, t),
        forall|x: int|
            0 <= x < s.len() ==> (#[trigger] children_of(t, x)).to_multiset()
                == s[x].children.to_multiset(),
    ensures
        well_formed(t),
        node_map(t) == node_map(s),
{
    lemma_rearranged_well_formed(s, t);
    assert forall|p: Seq<Seq<char>>| has_path(t, p) == has_path(s, p) by {
        if has_path(t, p) {
            let w = index_at(t, p);
            lemma_same_nodes_path(s, t, w);
            assert(path_of(s, w) == p);
        }
        if has_path(s, p) {
            let w = index_at(s, p);
            lemma_same_nodes_path(s, t, w);
            assert(path_of(t, w) == p);
        }
    }
    assert forall|p: Seq<Seq<char>>| has_path(t, p) implies #[trigger] node_map(t)[p]
        == node_map(s)[p] by {
        let w = index_at(t, p);
        let v = index_at(s, p);
        lemma_same_nodes_path(s, t, w);
        lemma_path_injective(s, w, v);
        assert(t[w].value == s[w].value);
    }
    assert(node_map(t) =~= node_map(s));
}

/// A sorted tree is well-formed, has the nodes of the tree it was sorted
/// from at their paths, and the children of each of its nodes in order.
pub proof fn lemma_sorted_tree(s: Seq<Slot>, t: Seq<Slot>)
    requires
        well_formed(s),
        sorted_tree(s, t),
    ensures
        well_formed(t),
        all_sorted(t),
        node_map(t) == node_map(s),
{
    assert forall|x: int| 0 <= x < s.len() implies (#[trigger] children_of(t, x)).to_multiset()
        == s[x].children.to_multiset() by {
        assert(sorted_arrangement(s, s[x].children, children_of(t, x)));
    }
    lemma_rearranged(s, t);
    assert forall|x: int| 0 <= x < t.len() implies sorted_by_name(
        t,
        #[trigger] children_of(t, x),
    ) by {
        let kids = children_of(t, x);
        assert(sorted_arrangement(s, s[x].children, kids));
        assert forall|a: int, b: int| 0 <= a < b < kids.len() implies name_le(
            t[#[trigger] kids[a]].value.name,
            t[#[trigger] kids[b]].value.name,
        ) by {
            assert(x < child_at(t, x, a) < t.len());
            assert(x < child_at(t, x, b) < t.len());
            assert(t[kids[a]].value == s[kids[a]].value);
            assert(t[kids[b]].value == s[kids[b]].value);
        }
    }
}

/// A tree that holds the root placeholder alone is well-formed and has
/// no node at any path.
pub proof fn lemma_new_tree()
    ensures
        well_formed(FsTree::new_slots()),
        node_map(FsTree::new_slots()) == Map::<Seq<Seq<char>>, NodeView>::empty(),
{
    let s = FsTree::new_slots();
    assert(node_map(s) =~= Map::<Seq<Seq<char>>, NodeView>::empty());
}

/// The sorted tree of a set of entries does not depend on the order in
/// which the entries are listed, as long as the entries agree on every
/// node: two lists that hold the same entries, each as often, give trees
/// that hold the same nodes in the same places.
pub proof fn lemma_order_independence(
    a: Seq<Record>,
    b: Seq<Record>,
    tree_a: Seq<Slot>,
    tree_b: Seq<Slot>,
)
    requires
        a.to_multiset() == b.to_multiset(),
        consistent(a),
        sorted_tree(inserted_all(FsTree::new_slots(), a), tree_a),
        sorted_tree(inserted_all(FsTree::new_slots(), b), tree_b),
    ensures
        structure(tree_a) == structure(tree_b),
{
    lemma_new_tree();
    lemma_inserted_all(FsTree::new_slots(), a);
    lemma_inserted_all(FsTree::new_slots(), b);
    lemma_sorted_tree(inserted_all(FsTree::new_slots(), a), tree_a);
    lemma_sorted_tree(inserted_all(FsTree::new_slots(), b), tree_b);
    lemma_same_nodes_by_path(a, b);
    lemma_same_forest(tree_a, tree_b, 0, 0, 0, false);
}

/// The sorted tree of a set of entries has the same names in the same
/// places whatever the order in which the entries are listed.
pub proof fn lemma_shape_order_independence(
    a: Seq<Record>,
    b: Seq<Record>,
    tree_a: Seq<Slot>,
    tree_b: Seq<Slot>,
)
    requires
        a.to_multiset() == b.to_multiset(),
        sorted_tree(inserted_all(FsTree::new_slots(), a), tree_a),
        sorted_tree(inserted_all(FsTree::new_slots(), b), tree_b),
    ensures
        shape(tree_a) == shape(tree_b),
{
    lemma_new_tree();
    lemma_inserted_all(FsTree::new_slots(), a);
    lemma_inserted_all(FsTree::new_slots(), b);
    lemma_sorted_tree(inserted_all(FsTree::new_slots(), a), tree_a);
    lemma_sorted_tree(inserted_all(FsTree::new_slots(), b), tree_b);
    lemma_same_paths(a, b);
    lemma_same_forest(tree_a, tree_b, 0, 0, 0, true);
}


/// The lines that stand for `entries` and for all that is below them,
/// each line behind `prefix`.
pub open spec fn drawn(entries: Seq<Entry>, prefix: Seq<char>) -> Seq<char>
    decreases entries,
{
    if entries.len() == 0 {
        Seq::empty()
    } else {
        let last = entries.len() == 1;
        prefix + branch(last) + entries[0].node.name + seq!['\n'] + drawn(
            entries[0].children,
            prefix + trunk(last),
        ) + drawn(entries.skip(1), prefix)
    }
}

/// The lines that stand for top-level `entries` and for all that is
/// below them.
pub open spec fn drawn_top(entries: Seq<Entry>) -> Seq<char>
    decreases entries,
{
    if entries.len() == 0 {
        Seq::empty()
    } else {
        entries[0].node.name + seq!['\n'] + drawn(entries[0].children, Seq::empty()) + drawn_top(
            entries.skip(1),
        )
    }
}

proof fn lemma_forest_unfold(s: Seq<Slot>, i: int, k: int, names_only: bool)
    requires
        well_formed(s),
        0 <= i < s.len(),
        0 <= k <= s[i].children.len(),
    ensures
        forest(s, i, k, names_only).len() == s[i].children.len() - k,
        k < s[i].children.len() ==> forest(s, i, k, names_only)[0].node.name == name_of(
            s,
            child_at(s, i, k),
        ) && forest(s, i, k, names_only)[0].children == forest(
            s,
            child_at(s, i, k),
            0,
            names_only,
        ) && forest(s, i, k, names_only).skip(1) == forest(s, i, k + 1, names_only),
    decreases s[i].children.len() - k,
{
    if k < s[i].children.len() {
        let c = child_at(s, i, k);
        assert(i < c < s.len());
        lemma_forest_unfold(s, i, k + 1, names_only);
        let f = forest(s, i, k, names_only);
        let rest = forest(s, i, k + 1, names_only);
        assert(f.skip(1) =~= rest);
    }
}

proof fn lemma_drawn_children(s: Seq<Slot>, i: int, prefix: Seq<char>, k: int, names_only: bool)
    requires
        well_formed(s),
        0 <= i < s.len(),
        0 <= k <= s[i].children.len(),
    ensures
        rendered_children(s, i, prefix, k) == drawn(forest(s, i, k, names_only), prefix),
    decreases s.len() - i, s[i].children.len() - k,
{
    lemma_forest_unfold(s, i, k, names_only);
    if k < s[i].children.len() {
        let c = child_at(s, i, k);
        assert(i < c < s.len());
        let last = k == s[i].children.len() - 1;
        lemma_drawn_children(s, c, prefix + trunk(last), 0, names_only);
        lemma_drawn_children(s, i, prefix, k + 1, names_only);
    }
}

proof fn lemma_drawn_top(s: Seq<Slot>, k: int, names_only: bool)
    requires
        well_formed(s),
        0 <= k <= s[0].children.len(),
    ensures
        rendered_from(s, k) == drawn_top(forest(s, 0, k, names_only)),
    decreases s[0].children.len() - k,
{
    lemma_forest_unfold(s, 0, k, names_only);
    if k < s[0].children.len() {
        let c = child_at(s, 0, k);
        assert(0 < c < s.len());
        lemma_drawn_children(s, c, Seq::empty(), 0, names_only);
        lemma_drawn_top(s, k + 1, names_only);
    }
}

/// The drawing of a tree shows its shape and nothing else: it is made of
/// the names in their places.
pub proof fn lemma_drawing_shows_shape(s: Seq<Slot>)
    requires
        well_formed(s),
    ensures
        rendered_from(s, 0) == drawn_top(shape(s)),
{
    lemma_drawn_top(s, 0, true);
}

/// The sorted tree of a set of entries is drawn the same whatever the
/// order in which the entries are listed.
pub proof fn lemma_drawing_order_independence(
    a: Seq<Record>,
    b: Seq<Record>,
    tree_a: Seq<Slot>,
    tree_b: Seq<Slot>,
)
    requires
        a.to_multiset() == b.to_multiset(),
        sorted_tree(inserted_all(FsTree::new_slots(), a), tree_a),
        sorted_tree(inserted_all(FsTree::new_slots(), b), tree_b),
    ensures
        rendered_from(tree_a, 0) == rendered_from(tree_b, 0),
{
    lemma_new_tree();
    lemma_inserted_all(FsTree::new_slots(), a);
    lemma_inserted_all(FsTree::new_slots(), b);
    lemma_sorted_tree(inserted_all(FsTree::new_slots(), a), tree_a);
    lemma_sorted_tree(inserted_all(FsTree::new_slots(), b), tree_b);
    lemma_shape_order_independence(a, b, tree_a, tree_b);
    lemma_drawing_shows_shape(tree_a);
    lemma_drawing_shows_shape(tree_b);
}

} // verus!
