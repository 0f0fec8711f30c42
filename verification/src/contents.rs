//! What a listing tells of an archive, and the record of which archives
//! hold a single top-level directory.

use vstd::prelude::*;
use crate::codepage::Codepage;
use crate::fs_tree::{inserted, kind_of, sorted_tree, well_formed, FsTree, Slot};
use crate::multi_volume::{ArchiveMultiVolume, MultiVolumeView};
use crate::node::{opt_view, NodeKind, OutputFile};
use crate::text::{chars_of, push_all, same_text, string_of};
use crate::tree_laws::{all_sorted, extend_record, node_map};

verus! {

/// For the archives listed so far, by path, whether each holds a single
/// top-level directory.
#[derive(Debug, Clone)]
pub struct RootDirCache {
    entries: Vec<(String, bool)>,
}

impl RootDirCache {
    /// No path is recorded twice.
    pub closed spec fn keys_differ(&self) -> bool {
        forall|i: int, j: int|
            0 <= i < j < self.entries@.len() ==> (#[trigger] self.entries@[i]).0@
                != (#[trigger] self.entries@[j]).0@
    }

    /// The place of the record of `path`.
    pub closed spec fn position(&self, path: Seq<char>) -> int {
        choose|i: int| 0 <= i < self.entries@.len() && (#[trigger] self.entries@[i]).0@ == path
    }

    /// There is a record of `path`.
    pub closed spec fn holds(&self, path: Seq<char>) -> bool {
        exists|i: int| 0 <= i < self.entries@.len() && (#[trigger] self.entries@[i]).0@ == path
    }

    /// What holds of every record: no path is in it twice.
    pub open spec fn wf(&self) -> bool {
        self.keys_differ()
    }

    fn find(&self, path: &str) -> (r: Option<usize>)
        requires
            self.wf(),
        ensures
            match r {
                Some(i) => i < self.entries@.len() && self.entries@[i as int].0@ == path@
                    && self.holds(path@) && self.position(path@) == i,
                None => !self.holds(path@),
            },
    {
        let mut i: usize = 0;
        while i < self.entries.len()
            invariant
                i <= self.entries.len(),
                self.wf(),
                forall|j: int| 0 <= j < i ==> (#[trigger] self.entries@[j]).0@ != path@,
            decreases self.entries.len() - i,
        {
            if same_text(self.entries[i].0.as_str(), path) {
                proof {
                    let w = self.position(path@);
                    assert(self.entries@[i as int].0@ == path@);
                    if w < i {
                        assert(self.entries@[w].0@ != self.entries@[i as int].0@);
                    } else if i < w {
                        assert(self.entries@[i as int].0@ != self.entries@[w].0@);
                    }
                }
                return Some(i);
            }
            i += 1;
        }
        None
    }

    /// A record that holds no archive.
    pub fn new() -> (r: Self)
        ensures
            r.wf(),
            r@ == Map::<Seq<char>, bool>::empty(),
    {
        let r = RootDirCache { entries: Vec::new() };
        proof {
            assert(r@ =~= Map::<Seq<char>, bool>::empty());
        }
        r
    }

    /// Whether the archive at `path` holds a single top-level directory, as
    /// far as it was recorded.
    pub fn get(&self, path: &str) -> (r: Option<bool>)
        requires
            self.wf(),
        ensures
            r == if self@.dom().contains(path@) {
                Some(self@[path@])
            } else {
                None
            },
    {
        match self.find(path) {
            Some(i) => Some(self.entries[i].1),
            None => None,
        }
    }

    /// Records the flag of the archive at `path`, in place of an earlier
    /// one.
    pub fn insert(&mut self, path: String, flag: bool)
        requires
            old(self).wf(),
        ensures
            final(self).wf(),
            final(self)@ == old(self)@.insert(path@, flag),
    {
        let ghost before = *self;
        match self.find(path.as_str()) {
            Some(i) => {
                self.entries.set(i, (path, flag));
                proof {
                    assert forall|k: Seq<char>| self.holds(k) == before.holds(k) by {
                        if before.holds(k) {
                            let w = before.position(k);
                            assert(self.entries@[w].0@ == k);
                        }
                        if self.holds(k) {
                            let w = self.position(k);
                            assert(before.entries@[w].0@ == k);
                        }
                    }
                    assert forall|k: Seq<char>| #[trigger] self.holds(k) && k != path@ implies self.entries@[self.position(
                        k,
                    )].1 == before.entries@[before.position(k)].1 by {
                        let w = self.position(k);
                        let v = before.position(k);
                        assert(before.entries@[w].0@ == k);
                        if w < v {
                            assert(before.entries@[w].0@ != before.entries@[v].0@);
                        } else if v < w {
                            assert(before.entries@[v].0@ != before.entries@[w].0@);
                        }
                    }
                    assert(self.holds(path@));
                    let w = self.position(path@);
                    if w < i {
                        assert(self.entries@[w].0@ != self.entries@[i as int].0@);
                    } else if i < w {
                        assert(self.entries@[i as int].0@ != self.entries@[w].0@);
                    }
                    assert(self@ =~= before@.insert(path@, flag));
                }
            },
            None => {
                self.entries.push((path, flag));
                proof {
                    let n = before.entries@.len() as int;
                    assert(self.entries@[n].0@ == path@);
                    assert forall|k: Seq<char>| self.holds(k) == (before.holds(k) || k
                        == path@) by {
                        if before.holds(k) {
                            let w = before.position(k);
                            assert(self.entries@[w].0@ == k);
                        }
                        if self.holds(k) {
                            let w = self.position(k);
                            if w < n {
                                assert(before.entries@[w].0@ == k);
                            }
                        }
                    }
                    assert forall|k: Seq<char>| #[trigger] before.holds(k) implies self.entries@[self.position(
                        k,
                    )].1 == before.entries@[before.position(k)].1 by {
                        let v = before.position(k);
                        assert(self.entries@[v].0@ == k);
                        let w = self.position(k);
                        if w < v {
                            assert(self.entries@[w].0@ != self.entries@[v].0@);
                        } else if v < w {
                            assert(self.entries@[v].0@ != self.entries@[w].0@);
                        }
                    }
                    let w = self.position(path@);
                    if w < n {
                        assert(self.entries@[w].0@ != self.entries@[n].0@);
                    }
                    assert(self@ =~= before@.insert(path@, flag));
                }
            },
        }
    }
}

impl View for RootDirCache {
    type V = Map<Seq<char>, bool>;

    closed spec fn view(&self) -> Map<Seq<char>, bool> {
        Map::new(|k: Seq<char>| self.holds(k), |k: Seq<char>| self.entries@[self.position(k)].1)
    }
}

/// A record, still empty, of the archives that hold a single top-level
/// directory.
pub fn archives_have_root_dir() -> (r: RootDirCache)
    ensures
        r.wf(),
        r@ == Map::<Seq<char>, bool>::empty(),
{
    RootDirCache::new()
}

/// Whether what a tree holds is wrapped in one directory: it has no
/// top-level node, or one that is a directory.
pub open spec fn single_root_dir(s: Seq<Slot>) -> bool {
    s[0].children.len() == 0 || (s[0].children.len() == 1 && kind_of(s, s[0].children[0])
        == NodeKind::Dir)
}

/// What is known of an archive once it is listed.
#[derive(Debug)]
pub struct ArchiveContents {
    path: String,
    contents: FsTree,
    password: Option<String>,
    codepage: Option<Codepage>,
    multi_volume: Option<ArchiveMultiVolume>,
    has_root_dir: bool,
}

/// The contents of an archive as the contracts see them.
pub struct ContentsView {
    pub path: Seq<char>,
    pub tree: Seq<Slot>,
    pub password: Option<Seq<char>>,
    pub codepage: Option<Codepage>,
    pub multi_volume: Option<MultiVolumeView>,
    pub has_root_dir: bool,
}

/// The volumes of an archive, if it has any, as the contracts see them.
pub open spec fn opt_volume_view(m: Option<ArchiveMultiVolume>) -> Option<MultiVolumeView> {
    match m {
        Some(m) => Some(m@),
        None => None,
    }
}

impl View for ArchiveContents {
    type V = ContentsView;

    closed spec fn view(&self) -> ContentsView {
        ContentsView {
            path: self.path@,
            tree: self.contents.slots(),
            password: opt_view(self.password),
            codepage: self.codepage,
            multi_volume: opt_volume_view(self.multi_volume),
            has_root_dir: self.has_root_dir,
        }
    }
}

impl ArchiveContents {
    /// What holds of the contents of every archive: the tree is
    /// well-formed.
    pub closed spec fn wf(&self) -> bool {
        self.contents.wf()
    }

    /// The tree of a well-formed value is a well-formed tree.
    pub proof fn lemma_tree_well_formed(&self)
        requires
            self.wf(),
        ensures
            well_formed(self@.tree),
    {
    }

    /// The contents of an archive of which nothing is known yet.
    pub fn new(path: String) -> (r: Self)
        ensures
            r.wf(),
            r@ == (ContentsView {
                path: path@,
                tree: FsTree::new_slots(),
                password: None,
                codepage: None,
                multi_volume: None,
                has_root_dir: false,
            }),
    {
        ArchiveContents {
            path,
            contents: FsTree::new(),
            password: None,
            codepage: None,
            multi_volume: None,
            has_root_dir: false,
        }
    }

    /// Puts an entry into the tree.
    pub fn append_file(&mut self, file: OutputFile)
        requires
            old(self).wf(),
        ensures
            final(self).wf(),
            final(self)@ == (ContentsView { tree: inserted(old(self)@.tree, file@), ..old(self)@ }),
            node_map(final(self)@.tree) == extend_record(node_map(old(self)@.tree), file@),
    {
        self.contents.append_file(file);
    }

    /// Works out whether the archive holds a single top-level directory,
    /// keeps the answer and records it under the archive's path.
    pub fn set_has_root_dir(&mut self, cache: &mut RootDirCache) -> (r: bool)
        requires
            old(self).wf(),
            old(cache).wf(),
        ensures
            final(self).wf(),
            r == single_root_dir(old(self)@.tree),
            final(self)@ == (ContentsView { has_root_dir: r, ..old(self)@ }),
            final(cache).wf(),
            final(cache)@ == old(cache)@.insert(old(self)@.path, r),
    {
        self.has_root_dir = self.contents.only_one_root_dir();
        cache.insert(self.path.clone(), self.has_root_dir);
        self.has_root_dir
    }

    /// Keeps the password that opened the archive; the empty one counts
    /// as none.
    pub fn set_password(&mut self, password: String)
        requires
            old(self).wf(),
        ensures
            final(self).wf(),
            final(self)@ == (ContentsView {
                password: if password@.len() == 0 {
                    None
                } else {
                    Some(password@)
                },
                ..old(self)@
            }),
    {
        if password.as_str().unicode_len() == 0 {
            self.password = None;
        } else {
            self.password = Some(password);
        }
    }

    /// Keeps the codepage that the listing was made with.
    pub fn set_codepage(&mut self, codepage: Option<Codepage>)
        requires
            old(self).wf(),
        ensures
            final(self).wf(),
            final(self)@ == (ContentsView { codepage, ..old(self)@ }),
    {
        self.codepage = codepage;
    }

    /// Puts the children of every node of the tree in the order of their
    /// names.
    pub fn sort(&mut self)
        requires
            old(self).wf(),
        ensures
            final(self).wf(),
            final(self)@ == (ContentsView { tree: final(self)@.tree, ..old(self)@ }),
            sorted_tree(old(self)@.tree, final(self)@.tree),
            all_sorted(final(self)@.tree),
            node_map(final(self)@.tree) == node_map(old(self)@.tree),
    {
        self.contents.sort();
    }

    /// Whether the archive is split into volumes.
    pub fn is_multi_volume(&self) -> (r: bool)
        ensures
            r == self@.multi_volume.is_some(),
    {
        self.multi_volume.is_some()
    }

    /// Keeps the volumes that the archive is split into.
    pub fn set_multi_volume(&mut self, multi_volume: ArchiveMultiVolume)
        requires
            old(self).wf(),
        ensures
            final(self).wf(),
            final(self)@ == (ContentsView { multi_volume: Some(multi_volume@), ..old(self)@ }),
    {
        self.multi_volume = Some(multi_volume);
    }

    /// Where the archive is split into volumes, keeps the path that was
    /// asked for; else nothing changes.
    pub fn set_actual_path(&mut self, actual_path: String)
        requires
            old(self).wf(),
        ensures
            final(self).wf(),
            final(self)@ == (ContentsView {
                multi_volume: match old(self)@.multi_volume {
                    Some(m) => Some(MultiVolumeView { actual_path: actual_path@, ..m }),
                    None => None,
                },
                ..old(self)@
            }),
    {
        let taken = self.multi_volume.take();
        match taken {
            Some(mut m) => {
                m.set_actual_path(actual_path);
                self.multi_volume = Some(m);
            },
            None => {},
        }
    }

    /// The path of the archive.
    pub fn path(&self) -> (r: &String)
        ensures
            r@ == self@.path,
    {
        &self.path
    }

    /// The tree of the archive's entries.
    pub fn contents(&self) -> (r: &FsTree)
        ensures
            r.slots() == self@.tree,
            self.wf() ==> r.wf(),
    {
        &self.contents
    }

    /// The password that opened the archive, if it took one.
    pub fn password(&self) -> (r: &Option<String>)
        ensures
            opt_view(*r) == self@.password,
    {
        &self.password
    }

    /// The codepage that the listing was made with, if any.
    pub fn codepage(&self) -> (r: Option<Codepage>)
        ensures
            r == self@.codepage,
    {
        self.codepage
    }

    /// The volumes of the archive, if it is split.
    pub fn multi_volume(&self) -> (r: &Option<ArchiveMultiVolume>)
        ensures
            opt_volume_view(*r) == self@.multi_volume,
    {
        &self.multi_volume
    }

    /// Whether the archive holds a single top-level directory, as last
    /// worked out.
    pub fn has_root_dir(&self) -> (r: bool)
        ensures
            r == self@.has_root_dir,
    {
        self.has_root_dir
    }

    /// The archive as text: its path on a line of its own, the tree, and
    /// an empty line.
    pub fn to_string(&self) -> (r: String)
        requires
            self.wf(),
        ensures
            r@ == self@.path + seq!['\n'] + crate::fs_tree::rendered_from(self@.tree, 0)
                + seq!['\n'],
    {
        let mut v = chars_of(self.path.as_str());
        v.push('\n');
        let tree = self.contents.to_string();
        let tree_chars = chars_of(tree.as_str());
        push_all(&mut v, &tree_chars);
        v.push('\n');
        string_of(v.as_slice())
    }
}

} // verus!
