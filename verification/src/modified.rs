//! The times of the entries of the archives listed last, kept in an
//! `lru::LruCache` for when the entries are extracted.

use vstd::prelude::*;
use lru::LruCache;
use std::num::NonZeroUsize;
use crate::node::{OutputFile, Record, Timestamp};
use crate::text::same_text;

verus! {

/// The time of each entry of an archive, by the entry's path.
#[derive(Debug, Clone)]
pub struct FilesModified {
    entries: Vec<(String, Option<Timestamp>)>,
}

/// The map that a list of pairs stands for: a later pair counts before an
/// earlier one of the same path.
pub open spec fn map_of(pairs: Seq<(String, Option<Timestamp>)>) -> Map<
    Seq<char>,
    Option<Timestamp>,
>
    decreases pairs.len(),
{
    if pairs.len() == 0 {
        Map::empty()
    } else {
        map_of(pairs.drop_last()).insert(pairs.last().0@, pairs.last().1)
    }
}

impl View for FilesModified {
    type V = Map<Seq<char>, Option<Timestamp>>;

    closed spec fn view(&self) -> Map<Seq<char>, Option<Timestamp>> {
        map_of(self.entries@)
    }
}

impl FilesModified {
    /// The times of no entries.
    pub fn new() -> (r: Self)
        ensures
            r@ == Map::<Seq<char>, Option<Timestamp>>::empty(),
    {
        FilesModified { entries: Vec::new() }
    }

    /// Keeps the time of the entry at `path`, in place of an earlier one.
    pub fn insert(&mut self, path: String, modified: Option<Timestamp>)
        ensures
            final(self)@ == old(self)@.insert(path@, modified),
    {
        proof {
            assert(self.entries@.push((path, modified)).drop_last() == self.entries@);
        }
        self.entries.push((path, modified));
    }

    /// The time kept for the entry at `path`: `None` where none is kept
    /// for it, and `Some(None)` where the entry is known to have none.
    pub fn get(&self, path: &str) -> (r: Option<Option<Timestamp>>)
        ensures
            r == if self@.dom().contains(path@) {
                Some(self@[path@])
            } else {
                None
            },
    {
        let mut i: usize = self.entries.len();
        proof {
            assert(self.entries@.take(i as int) == self.entries@);
        }
        while i > 0
            invariant
                i <= self.entries.len(),
                self@.dom().contains(path@) == map_of(self.entries@.take(i as int)).dom().contains(
                    path@,
                ),
                self@.dom().contains(path@) ==> self@[path@] == map_of(
                    self.entries@.take(i as int),
                )[path@],
            decreases i,
        {
            i -= 1;
            proof {
                assert(self.entries@.take(i + 1).drop_last() == self.entries@.take(i as int));
                assert(self.entries@.take(i + 1).last() == self.entries@[i as int]);
            }
            if same_text(self.entries[i].0.as_str(), path) {
                return Some(self.entries[i].1);
            }
        }
        None
    }
}

/// `lru::LruCache`, which keeps the entries used last and drops the one
/// used least recently when it is full.
#[verifier::external_type_specification]
#[verifier::external_body]
#[verifier::reject_recursive_types(K)]
#[verifier::reject_recursive_types(V)]
#[verifier::reject_recursive_types(S)]
pub struct ExLruCache<K, V, S>(LruCache<K, V, S>);

/// `lru::DefaultHasher`, the hasher that an `LruCache` takes where none is
/// named.
#[verifier::external_type_specification]
#[verifier::external_body]
pub struct ExDefaultHasher(lru::DefaultHasher);

/// What a cache holds: the paths of archives, each with the times of the
/// archive's entries, the one used last first.
pub uninterp spec fn lru_entries(c: LruCache<String, FilesModified>) -> Seq<
    (Seq<char>, Map<Seq<char>, Option<Timestamp>>),
>;

/// How many archives a cache holds at most.
pub uninterp spec fn lru_capacity(c: LruCache<String, FilesModified>) -> nat;

/// The place of the archive at `path` among the entries from the `k`-th
/// on.
pub open spec fn place_of(
    entries: Seq<(Seq<char>, Map<Seq<char>, Option<Timestamp>>)>,
    path: Seq<char>,
    k: int,
) -> Option<int>
    decreases entries.len() - k,
{
    if k < 0 || k >= entries.len() {
        None
    } else if entries[k].0 == path {
        Some(k)
    } else {
        place_of(entries, path, k + 1)
    }
}

/// The times kept for the archive at `path`; none where the archive is
/// not among the entries.
pub open spec fn times_of(
    entries: Seq<(Seq<char>, Map<Seq<char>, Option<Timestamp>>)>,
    path: Seq<char>,
) -> Map<Seq<char>, Option<Timestamp>> {
    match place_of(entries, path, 0) {
        Some(i) => entries[i].1,
        None => Map::empty(),
    }
}

/// The entries that stay behind when the archive at `path` is used: all
/// others in their order; but where the archive is new and the cache is
/// full, the entry used least recently goes.
pub open spec fn others(
    entries: Seq<(Seq<char>, Map<Seq<char>, Option<Timestamp>>)>,
    capacity: nat,
    path: Seq<char>,
) -> Seq<(Seq<char>, Map<Seq<char>, Option<Timestamp>>)> {
    match place_of(entries, path, 0) {
        Some(i) => entries.remove(i),
        None => if entries.len() == capacity {
            entries.drop_last()
        } else {
            entries
        },
    }
}

/// Wraps `lru::LruCache::new`: a cache that holds nothing, and at most
/// `capacity` entries.
#[verifier::external_body]
fn lru_new(capacity: usize) -> (c: LruCache<String, FilesModified>)
    requires
        capacity > 0,
    ensures
        lru_entries(c) == Seq::<(Seq<char>, Map<Seq<char>, Option<Timestamp>>)>::empty(),
        lru_capacity(c) == capacity,
{
    LruCache::new(NonZeroUsize::new(capacity).unwrap())
}

/// Wraps `lru::LruCache::get_or_insert_mut`, with `FilesModified::new` to
/// make what is missing: the value kept for the key, or a new one; either
/// way its entry is now the first, and what the caller makes of the value
/// is what the cache holds for the key.
#[verifier::external_body]
fn lru_get_or_insert_mut<'a>(c: &'a mut LruCache<String, FilesModified>, key: String) -> (v: &'a mut FilesModified)
    ensures
        v@ == times_of(lru_entries(*old(c)), key@),
        lru_entries(*final(c)) == seq![(key@, final(v)@)] + others(
            lru_entries(*old(c)),
            lru_capacity(*old(c)),
            key@,
        ),
        lru_capacity(*final(c)) == lru_capacity(*old(c)),
{
    c.get_or_insert_mut(key, FilesModified::new)
}

/// Wraps `lru::LruCache::peek`: the value kept for the key, if any; the
/// cache stays as it is.
#[verifier::external_body]
fn lru_peek<'a>(c: &'a LruCache<String, FilesModified>, key: &String) -> (v: Option<&'a FilesModified>)
    ensures
        match v {
            Some(m) => place_of(lru_entries(*c), key@, 0) is Some && m@ == times_of(
                lru_entries(*c),
                key@,
            ),
            None => place_of(lru_entries(*c), key@, 0) is None,
        },
{
    c.peek(key)
}

/// The times of the entries of the archives listed last.
#[derive(Debug)]
pub struct ModifiedCache {
    cache: LruCache<String, FilesModified>,
}

impl ModifiedCache {
    /// The archives, by path, each with the times of its entries, the
    /// archive used last first.
    pub closed spec fn entries(&self) -> Seq<(Seq<char>, Map<Seq<char>, Option<Timestamp>>)> {
        lru_entries(self.cache)
    }

    /// How many archives are kept at most.
    pub closed spec fn capacity(&self) -> nat {
        lru_capacity(self.cache)
    }

    /// A cache for a thousand archives, with none in it.
    pub fn new() -> (r: Self)
        ensures
            r.entries() == Seq::<(Seq<char>, Map<Seq<char>, Option<Timestamp>>)>::empty(),
            r.capacity() == 1000,
    {
        ModifiedCache { cache: lru_new(1000) }
    }

    /// The times kept for the entries of the archive at `archive_path`.
    pub fn get(&self, archive_path: &String) -> (r: Option<&FilesModified>)
        ensures
            match r {
                Some(m) => place_of(self.entries(), archive_path@, 0) is Some && m@ == times_of(
                    self.entries(),
                    archive_path@,
                ),
                None => place_of(self.entries(), archive_path@, 0) is None,
            },
    {
        lru_peek(&self.cache, archive_path)
    }
}

/// The entries of a cache once the time of one entry of an archive is
/// kept: the archive comes first, with its times and the new one among
/// them, and the other archives follow.
pub open spec fn remembered(
    entries: Seq<(Seq<char>, Map<Seq<char>, Option<Timestamp>>)>,
    capacity: nat,
    archive_path: Seq<char>,
    path: Seq<char>,
    modified: Option<Timestamp>,
) -> Seq<(Seq<char>, Map<Seq<char>, Option<Timestamp>>)> {
    seq![(archive_path, times_of(entries, archive_path).insert(path, modified))] + others(
        entries,
        capacity,
        archive_path,
    )
}

/// The entries of a cache once the times of the entries of a listing are
/// kept, the last one first.
pub open spec fn remembered_all(
    entries: Seq<(Seq<char>, Map<Seq<char>, Option<Timestamp>>)>,
    capacity: nat,
    archive_path: Seq<char>,
    records: Seq<Record>,
) -> Seq<(Seq<char>, Map<Seq<char>, Option<Timestamp>>)>
    decreases records.len(),
{
    if records.len() == 0 {
        entries
    } else {
        remembered_all(
            remembered(
                entries,
                capacity,
                archive_path,
                records.last().path,
                records.last().modified,
            ),
            capacity,
            archive_path,
            records.drop_last(),
        )
    }
}

impl OutputFile {
    /// Keeps the time of the entry for the archive at `archive_path`.
    pub fn cache_modified(&self, archive_path: String, cache: &mut ModifiedCache)
        ensures
            final(cache).capacity() == old(cache).capacity(),
            final(cache).entries() == remembered(
                old(cache).entries(),
                old(cache).capacity(),
                archive_path@,
                self@.path,
                self@.modified,
            ),
    {
        let map = lru_get_or_insert_mut(&mut cache.cache, archive_path);
        map.insert(self.path.clone(), self.modified);
    }
}

} // verus!
