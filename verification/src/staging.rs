//! The directory that an archive is extracted into before its entries go
//! to their place: its name, the paths inside it, and the names under which
//! the entries are moved out of it.

use vstd::prelude::*;
use crate::text::{
    chars_of, decimal, lemma_decimal_injective, lemma_decimal_round_trip, push_all, same_text,
    string_of, string_views, to_decimal,
};

verus! {

/// A path component without the blanks at its end.
pub open spec fn without_trailing_blanks(c: Seq<char>) -> Seq<char>
    decreases c.len(),
{
    if c.len() > 0 && c.last() == ' ' {
        without_trailing_blanks(c.drop_last())
    } else {
        c
    }
}

/// A path component as it is used: without the blanks at its end, but
/// left as it is where it holds nothing but blanks.
pub open spec fn trimmed(c: Seq<char>) -> Seq<char> {
    if without_trailing_blanks(c).len() == 0 {
        c
    } else {
        without_trailing_blanks(c)
    }
}

/// The components of a path, each trimmed.
pub open spec fn trimmed_all(path: Seq<Seq<char>>) -> Seq<Seq<char>> {
    Seq::new(path.len(), |i: int| trimmed(path[i]))
}

/// Trims one component of a path.
pub fn trim_component(c: &str) -> (r: String)
    ensures
        r@ == trimmed(c@),
{
    let v = chars_of(c);
    let mut end: usize = v.len();
    proof {
        assert(v@.take(v.len() as int) == v@);
    }
    while end > 0 && v[end - 1] == ' '
        invariant
            end <= v.len(),
            without_trailing_blanks(v@) == without_trailing_blanks(v@.take(end as int)),
        decreases end,
    {
        proof {
            assert(v@.take(end as int).drop_last() == v@.take(end - 1));
        }
        end -= 1;
    }
    proof {
        assert(v@.take(v.len() as int) == v@);
        if end > 0 {
            assert(v@.take(end as int).last() != ' ');
        }
    }
    if end == 0 {
        c.to_string()
    } else {
        proof {
            assert(v@.take(end as int) == v@.subrange(0, end as int));
        }
        let kept = crate::text::copy_range(&v, 0, end);
        string_of(kept.as_slice())
    }
}

/// Trims each component of the path that archives are to be extracted to.
pub fn trim_target(target_dir: &Vec<String>) -> (r: Vec<String>)
    ensures
        string_views(r@) == trimmed_all(string_views(target_dir@)),
{
    let mut r: Vec<String> = Vec::new();
    let mut i: usize = 0;
    while i < target_dir.len()
        invariant
            i <= target_dir.len(),
            r@.len() == i,
            forall|j: int| 0 <= j < i ==> (#[trigger] r@[j])@ == trimmed(target_dir@[j]@),
        decreases target_dir.len() - i,
    {
        r.push(trim_component(target_dir[i].as_str()));
        i += 1;
    }
    proof {
        assert(string_views(r@) =~= trimmed_all(string_views(target_dir@)));
    }
    r
}

/// The name of a staging directory made at `millis` milliseconds since the
/// Unix epoch.
pub open spec fn staging_name_of(millis: nat) -> Seq<char> {
    "_EZ"@ + decimal(millis)
}

/// Names a staging directory by the time at which it is made.
pub fn staging_name(millis: u128) -> (r: String)
    ensures
        r@ == staging_name_of(millis as nat),
{
    let mut v = chars_of("_EZ");
    let digits = to_decimal(millis);
    push_all(&mut v, &digits);
    string_of(v.as_slice())
}

/// The components of `path` from the first `..` on; none where it has no
/// such component.
pub open spec fn from_parent_dir(path: Seq<Seq<char>>) -> Seq<Seq<char>>
    decreases path.len(),
{
    if path.len() == 0 {
        path
    } else if path[0] == ".."@ {
        path
    } else {
        from_parent_dir(path.skip(1))
    }
}

/// `path` as seen from `dest`: where `dest` is relative, `path` counts
/// from its first `..` on; what is left is taken without `dest` in front
/// where it begins with `dest`, and as it is where it does not.
pub open spec fn relative_to(dest: Seq<Seq<char>>, dest_is_relative: bool, path: Seq<Seq<char>>) -> Seq<
    Seq<char>,
> {
    let p = if dest_is_relative {
        from_parent_dir(path)
    } else {
        path
    };
    if dest.is_prefix_of(p) {
        p.skip(dest.len() as int)
    } else {
        p
    }
}

fn copy_from(path: &Vec<String>, from: usize) -> (r: Vec<String>)
    requires
        from <= path.len(),
    ensures
        string_views(r@) == string_views(path@).skip(from as int),
{
    let mut r: Vec<String> = Vec::new();
    let mut i: usize = from;
    while i < path.len()
        invariant
            from <= i <= path.len(),
            r@.len() == i - from,
            forall|j: int| 0 <= j < i - from ==> (#[trigger] r@[j])@ == path@[from + j]@,
        decreases path.len() - i,
    {
        r.push(path[i].clone());
        i += 1;
    }
    proof {
        assert(string_views(r@) =~= string_views(path@).skip(from as int));
    }
    r
}

/// Whether `path`, from its component `from` on, begins with `dest`.
fn begins_with(path: &Vec<String>, from: usize, dest: &Vec<String>) -> (r: bool)
    requires
        from <= path.len(),
    ensures
        r == string_views(dest@).is_prefix_of(string_views(path@).skip(from as int)),
{
    let ghost p = string_views(path@).skip(from as int);
    let ghost d = string_views(dest@);
    if dest.len() > path.len() - from {
        return false;
    }
    let mut i: usize = 0;
    while i < dest.len()
        invariant
            i <= dest.len(),
            from <= path.len(),
            dest.len() <= path.len() - from,
            p == string_views(path@).skip(from as int),
            d == string_views(dest@),
            forall|j: int| 0 <= j < i ==> d[j] == p[j],
        decreases dest.len() - i,
    {
        proof {
            assert(d[i as int] == dest@[i as int]@);
            assert(p[i as int] == path@[from + i]@);
        }
        if !same_text(dest[i].as_str(), path[from + i].as_str()) {
            proof {
                assert(p.subrange(0, d.len() as int)[i as int] != d[i as int]);
            }
            return false;
        }
        i += 1;
    }
    proof {
        assert(d =~= p.subrange(0, d.len() as int));
    }
    true
}

/// `path` as seen from `dest`, both given by their components.
pub fn _relative_path(dest: &Vec<String>, dest_is_relative: bool, path: &Vec<String>) -> (r: Vec<
    String,
>)
    ensures
        string_views(r@) == relative_to(
            string_views(dest@),
            dest_is_relative,
            string_views(path@),
        ),
{
    let ghost all = string_views(path@);
    let mut from: usize = 0;
    if dest_is_relative {
        proof {
            assert(all.skip(0) == all);
        }
        while from < path.len() && !same_text(path[from].as_str(), "..")
            invariant
                from <= path.len(),
                all == string_views(path@),
                from_parent_dir(all) == from_parent_dir(all.skip(from as int)),
            decreases path.len() - from,
        {
            proof {
                assert(all.skip(from as int)[0] == path@[from as int]@);
                assert(all.skip(from as int).skip(1) == all.skip(from + 1));
            }
            from += 1;
        }
        proof {
            if from < path.len() {
                assert(all.skip(from as int)[0] == path@[from as int]@);
            }
            assert(from_parent_dir(all) == all.skip(from as int));
        }
    } else {
        proof {
            assert(all.skip(0) == all);
        }
    }
    if begins_with(path, from, dest) {
        proof {
            assert(all.skip(from as int).skip(dest@.len() as int) == all.skip(
                from + dest@.len(),
            ));
        }
        copy_from(path, from + dest.len())
    } else {
        copy_from(path, from)
    }
}

/// A staging directory: its path, by components, and whether the archive
/// staged in it holds a single top-level directory.
#[derive(Debug, Clone)]
pub struct TempTargetDir {
    pub path: Vec<String>,
    pub has_root_dir: bool,
}

impl TempTargetDir {
    /// The staging directory at `path` for an archive of which `flag` is
    /// on record; an archive not on record counts as having no single
    /// top-level directory.
    pub fn new(path: Vec<String>, flag: Option<bool>) -> (r: Self)
        ensures
            r.path == path,
            r.has_root_dir == match flag {
                Some(f) => f,
                None => false,
            },
    {
        TempTargetDir {
            path,
            has_root_dir: match flag {
                Some(f) => f,
                None => false,
            },
        }
    }

    /// Where the tool is told to extract to: the directory itself for an
    /// archive with a single top-level directory, else `*` inside it, which
    /// makes the tool put each archive into a directory of its own name.
    pub fn output_path(&self) -> (r: Vec<String>)
        ensures
            string_views(r@) == if self.has_root_dir {
                string_views(self.path@)
            } else {
                string_views(self.path@).push("*"@)
            },
    {
        let mut r = copy_from(&self.path, 0);
        proof {
            assert(string_views(self.path@).skip(0) == string_views(self.path@));
        }
        if !self.has_root_dir {
            let star = "*".to_string();
            proof {
                assert(string_views(r@.push(star)) == string_views(r@).push(star@));
            }
            r.push(star);
        }
        r
    }

    /// `path` as seen from the staging directory.
    pub fn relative_path(&self, self_is_relative: bool, path: &Vec<String>) -> (r: Vec<String>)
        ensures
            string_views(r@) == relative_to(
                string_views(self.path@),
                self_is_relative,
                string_views(path@),
            ),
    {
        _relative_path(&self.path, self_is_relative, path)
    }

    /// `path` as the archive knows it: as seen from the staging directory,
    /// or from the directory above it where the archive holds a single
    /// top-level directory.
    pub fn archive_relative_path(&self, self_is_relative: bool, path: &Vec<String>) -> (r: Vec<
        String,
    >)
        ensures
            string_views(r@) == if !self.has_root_dir {
                relative_to(string_views(self.path@), self_is_relative, string_views(path@))
            } else if self.path@.len() == 0 {
                relative_to(Seq::empty(), self_is_relative, string_views(path@))
            } else {
                relative_to(
                    string_views(self.path@).drop_last(),
                    self_is_relative,
                    string_views(path@),
                )
            },
    {
        if !self.has_root_dir {
            self.relative_path(self_is_relative, path)
        } else {
            let mut parent = copy_from(&self.path, 0);
            proof {
                assert(string_views(self.path@).skip(0) == string_views(self.path@));
            }
            if parent.len() > 0 {
                let ghost before = parent@;
                parent.pop();
                proof {
                    assert(string_views(parent@) =~= string_views(before).drop_last());
                }
            } else {
                proof {
                    assert(string_views(parent@) =~= Seq::<Seq<char>>::empty());
                }
            }
            _relative_path(&parent, self_is_relative, path)
        }
    }
}

/// The `k`-th name to try for an entry called `name`: the name itself,
/// then the name with `.1`, `.2` and so on behind it.
pub open spec fn candidate(name: Seq<char>, k: nat) -> Seq<char> {
    if k == 0 {
        name
    } else {
        name + "."@ + decimal(k)
    }
}

/// The first of the numbers `k`, `k + 1`, ... whose candidate is not
/// taken, looking no further than `fuel` numbers ahead.
pub open spec fn first_free(name: Seq<char>, taken: Seq<Seq<char>>, k: nat, fuel: nat) -> nat
    decreases fuel,
{
    if fuel == 0 || !taken.contains(candidate(name, k)) {
        k
    } else {
        first_free(name, taken, k + 1, (fuel - 1) as nat)
    }
}

/// The name under which an entry called `name` goes where the names
/// `taken` are in use.
pub open spec fn free_name(name: Seq<char>, taken: Seq<Seq<char>>) -> Seq<char> {
    candidate(name, first_free(name, taken, 0, taken.len()))
}

/// The names under which the entries `staged` go, one after the other,
/// where the names `taken` are in use: each takes its free name, which is
/// then in use too.
pub open spec fn placed(staged: Seq<Seq<char>>, taken: Seq<Seq<char>>) -> Seq<Seq<char>>
    decreases staged.len(),
{
    if staged.len() == 0 {
        Seq::empty()
    } else {
        let n = free_name(staged[0], taken);
        seq![n] + placed(staged.skip(1), taken.push(n))
    }
}

fn is_taken(name: &Vec<char>, taken: &Vec<String>) -> (r: bool)
    ensures
        r == string_views(taken@).contains(name@),
{
    let ghost all = string_views(taken@);
    let mut i: usize = 0;
    while i < taken.len()
        invariant
            i <= taken.len(),
            all == string_views(taken@),
            forall|j: int| 0 <= j < i ==> all[j] != name@,
        decreases taken.len() - i,
    {
        let t = chars_of(taken[i].as_str());
        proof {
            assert(all[i as int] == taken@[i as int]@);
        }
        if crate::text::equal_chars(&t, name) {
            return true;
        }
        i += 1;
    }
    false
}

fn candidate_name(name: &Vec<char>, k: u128) -> (r: Vec<char>)
    ensures
        r@ == candidate(name@, k as nat),
{
    let mut r = name.clone();
    if k > 0 {
        r.push('.');
        let digits = to_decimal(k);
        push_all(&mut r, &digits);
        proof {
            reveal_strlit(".");
            assert("."@ == seq!['.']);
            assert(name@.push('.') == name@ + "."@);
        }
    }
    r
}

/// Picks the name under which an entry goes into a directory where the
/// names `taken` are in use.
pub fn unused_name(name: &str, taken: &Vec<String>) -> (r: String)
    ensures
        r@ == free_name(name@, string_views(taken@)),
{
    let base = chars_of(name);
    let ghost all = string_views(taken@);
    let limit: u128 = taken.len() as u128;
    let mut k: u128 = 0;
    let mut cand = candidate_name(&base, k);
    while k < limit && is_taken(&cand, taken)
        invariant
            k <= limit,
            limit == taken.len(),
            all == string_views(taken@),
            base@ == name@,
            cand@ == candidate(name@, k as nat),
            first_free(name@, all, 0, all.len()) == first_free(
                name@,
                all,
                k as nat,
                (limit - k) as nat,
            ),
        decreases limit - k,
    {
        k += 1;
        cand = candidate_name(&base, k);
    }
    string_of(cand.as_slice())
}

/// Picks the names under which the entries of a staging directory go
/// into a directory that holds `existing`.
pub fn final_names(staged: &Vec<String>, existing: &Vec<String>) -> (r: Vec<String>)
    ensures
        string_views(r@) == placed(string_views(staged@), string_views(existing@)),
{
    let ghost all = string_views(staged@);
    let mut taken: Vec<String> = Vec::new();
    let mut e: usize = 0;
    while e < existing.len()
        invariant
            e <= existing.len(),
            taken@.len() == e,
            forall|j: int| 0 <= j < e ==> (#[trigger] taken@[j])@ == existing@[j]@,
        decreases existing.len() - e,
    {
        taken.push(existing[e].clone());
        e += 1;
    }
    proof {
        assert(string_views(taken@) =~= string_views(existing@));
        assert(all.skip(0) == all);
    }
    let mut r: Vec<String> = Vec::new();
    let mut i: usize = 0;
    while i < staged.len()
        invariant
            i <= staged.len(),
            all == string_views(staged@),
            placed(all, string_views(existing@)) == string_views(r@) + placed(
                all.skip(i as int),
                string_views(taken@),
            ),
        decreases staged.len() - i,
    {
        let n = unused_name(staged[i].as_str(), &taken);
        proof {
            let rest = all.skip(i as int);
            assert(rest[0] == staged@[i as int]@);
            assert(rest.skip(1) == all.skip(i + 1));
            assert(string_views(taken@.push(n)) == string_views(taken@).push(n@));
            assert(string_views(r@.push(n)) == string_views(r@).push(n@));
            let tail = placed(all.skip(i + 1), string_views(taken@).push(n@));
            assert(string_views(r@) + (seq![n@] + tail) == string_views(r@).push(n@) + tail);
        }
        taken.push(n.clone());
        r.push(n);
        i += 1;
    }
    proof {
        assert(string_views(r@) + Seq::<Seq<char>>::empty() == string_views(r@));
    }
    r
}


/// Where an archive is staged, and where its entries go from there; both
/// paths by their components.
#[derive(Debug, Clone)]
pub struct StagingPlan {
    pub staging: Vec<String>,
    pub destination: Vec<String>,
}

/// The staging directory and the destination for an archive.
///
/// Where a target directory is given, the entries go there, and the
/// staging directory is made beside it, in the directory that holds it,
/// under a name that is not the target's own; only where no directory holds
/// the target is it made inside. Where no target is given, the entries go to
/// the directory that holds the archive, and the staging directory is made
/// there, beside the archive; or both are the archive's path where that is
/// no file.
pub open spec fn planned_staging(
    target: Seq<Seq<char>>,
    target_has_parent: bool,
    archive: Seq<Seq<char>>,
    archive_is_file: bool,
    millis: nat,
) -> (Seq<Seq<char>>, Seq<Seq<char>>) {
    if target.len() > 0 {
        let name = free_name(staging_name_of(millis), seq![target.last()]);
        (
            if target_has_parent {
                target.drop_last().push(name)
            } else {
                target.push(name)
            },
            target,
        )
    } else if archive_is_file && archive.len() > 0 {
        (archive.drop_last().push(staging_name_of(millis)), archive.drop_last())
    } else {
        (archive.push(staging_name_of(millis)), archive)
    }
}

/// Plans where an archive is staged at `millis` milliseconds since the
/// Unix epoch, and where its entries go. `target` and `archive` are paths by
/// their components; `target_has_parent` says whether some directory holds
/// the target directory.
pub fn plan_staging(
    target: &Vec<String>,
    target_has_parent: bool,
    archive: &Vec<String>,
    archive_is_file: bool,
    millis: u128,
) -> (r: StagingPlan)
    ensures
        (string_views(r.staging@), string_views(r.destination@)) == planned_staging(
            string_views(target@),
            target_has_parent,
            string_views(archive@),
            archive_is_file,
            millis as nat,
        ),
{
    let name = staging_name(millis);
    proof {
        assert(string_views(target@).skip(0) == string_views(target@));
        assert(string_views(archive@).skip(0) == string_views(archive@));
    }
    if target.len() > 0 {
        let mut own: Vec<String> = Vec::new();
        own.push(target[target.len() - 1].clone());
        proof {
            assert(string_views(own@) =~= seq![string_views(target@).last()]);
        }
        let name = unused_name(name.as_str(), &own);
        let destination = copy_from(target, 0);
        let mut staging = copy_from(target, 0);
        if target_has_parent {
            let ghost before = staging@;
            staging.pop();
            proof {
                assert(string_views(staging@) =~= string_views(before).drop_last());
            }
        }
        proof {
            assert(string_views(staging@.push(name)) == string_views(staging@).push(name@));
        }
        staging.push(name);
        StagingPlan { staging, destination }
    } else if archive_is_file && archive.len() > 0 {
        let mut destination = copy_from(archive, 0);
        let ghost before = destination@;
        destination.pop();
        proof {
            assert(string_views(destination@) =~= string_views(before).drop_last());
        }
        let mut staging = copy_from(&destination, 0);
        proof {
            assert(string_views(destination@).skip(0) == string_views(destination@));
            assert(string_views(staging@.push(name)) == string_views(staging@).push(name@));
        }
        staging.push(name);
        StagingPlan { staging, destination }
    } else {
        let destination = copy_from(archive, 0);
        let mut staging = copy_from(archive, 0);
        proof {
            assert(string_views(staging@.push(name)) == string_views(staging@).push(name@));
        }
        staging.push(name);
        StagingPlan { staging, destination }
    }
}

/// Where a target directory is given that some directory holds, the
/// staging directory is neither the target directory nor inside it: what
/// the tool writes while it extracts does not show up there.
pub proof fn lemma_staging_outside_target(
    target: Seq<Seq<char>>,
    archive: Seq<Seq<char>>,
    archive_is_file: bool,
    millis: nat,
)
    requires
        target.len() > 0,
    ensures
        planned_staging(target, true, archive, archive_is_file, millis).1 == target,
        !target.is_prefix_of(planned_staging(target, true, archive, archive_is_file, millis).0),
{
    let taken = seq![target.last()];
    let name = free_name(staging_name_of(millis), taken);
    lemma_free_name_is_smallest_unused(staging_name_of(millis), taken);
    let staging = target.drop_last().push(name);
    assert(taken[0] == target.last());
    assert(taken.contains(target.last()));
    if target.is_prefix_of(staging) {
        assert(staging.subrange(0, target.len() as int)[target.len() - 1] == name);
    }
}

/// The candidates for a name are all different.
pub proof fn lemma_candidates_differ(name: Seq<char>, j: nat, k: nat)
    requires
        j != k,
    ensures
        candidate(name, j) != candidate(name, k),
{
    reveal_strlit(".");
    lemma_decimal_round_trip(j);
    lemma_decimal_round_trip(k);
    if j > 0 && k > 0 {
        let a = candidate(name, j);
        let b = candidate(name, k);
        if a == b {
            assert(a.skip(name.len() as int + 1) == decimal(j));
            assert(b.skip(name.len() as int + 1) == decimal(k));
            lemma_decimal_injective(j, k);
        }
    } else if j > 0 {
        assert(candidate(name, j).len() > name.len());
    } else {
        assert(candidate(name, k).len() > name.len());
    }
}

/// The search for a free number stops within its fuel, and every
/// candidate that it passed over is taken.
pub proof fn lemma_first_free_passes_taken(
    name: Seq<char>,
    taken: Seq<Seq<char>>,
    k: nat,
    fuel: nat,
)
    ensures
        k <= first_free(name, taken, k, fuel) <= k + fuel,
        forall|j: nat|
            k <= j < first_free(name, taken, k, fuel) ==> taken.contains(
                #[trigger] candidate(name, j),
            ),
        first_free(name, taken, k, fuel) < k + fuel ==> !taken.contains(
            candidate(name, first_free(name, taken, k, fuel)),
        ),
    decreases fuel,
{
    if fuel > 0 && taken.contains(candidate(name, k)) {
        lemma_first_free_passes_taken(name, taken, k + 1, (fuel - 1) as nat);
    }
}

/// Names that all occur in a list, and are all different, are no more
/// than the list is long.
proof fn lemma_no_more_names_than_places(name: Seq<char>, taken: Seq<Seq<char>>, m: nat)
    requires
        forall|j: nat| j < m ==> taken.contains(#[trigger] candidate(name, j)),
    ensures
        m <= taken.len(),
    decreases taken.len(),
{
    if m > 0 {
        let top = candidate(name, (m - 1) as nat);
        assert(taken.contains(top));
        let at = choose|i: int| 0 <= i < taken.len() && taken[i] == top;
        let rest = taken.remove(at);
        assert forall|j: nat| j < m - 1 implies rest.contains(#[trigger] candidate(name, j)) by {
            let c = candidate(name, j);
            lemma_candidates_differ(name, j, (m - 1) as nat);
            assert(taken.contains(c));
            let w = choose|i: int| 0 <= i < taken.len() && taken[i] == c;
            if w < at {
                assert(rest[w] == c);
            } else {
                assert(rest[w - 1] == c);
            }
        }
        lemma_no_more_names_than_places(name, rest, (m - 1) as nat);
    }
}

/// The name picked for an entry is not in use, and it is the entry's own
/// name or carries the smallest number whose name is not in use: every
/// candidate before it is taken.
pub proof fn lemma_free_name_is_smallest_unused(name: Seq<char>, taken: Seq<Seq<char>>)
    ensures
        !taken.contains(free_name(name, taken)),
        free_name(name, taken) == candidate(name, first_free(name, taken, 0, taken.len())),
        forall|j: nat|
            j < first_free(name, taken, 0, taken.len()) ==> taken.contains(
                #[trigger] candidate(name, j),
            ),
{
    let k = first_free(name, taken, 0, taken.len());
    lemma_first_free_passes_taken(name, taken, 0, taken.len());
    if taken.contains(candidate(name, k)) {
        assert(k == taken.len());
        assert forall|j: nat| j < k + 1 implies taken.contains(#[trigger] candidate(name, j)) by {}
        lemma_no_more_names_than_places(name, taken, k + 1);
    }
}

/// No two entries are given the same name, and none the name of what was
/// there before: each name given out is unused when it is picked.
pub proof fn lemma_placed_names_are_new(staged: Seq<Seq<char>>, taken: Seq<Seq<char>>)
    ensures
        placed(staged, taken).len() == staged.len(),
        forall|i: int|
            0 <= i < staged.len() ==> !taken.contains(#[trigger] placed(staged, taken)[i]),
        forall|i: int, j: int|
            0 <= i < j < staged.len() ==> placed(staged, taken)[i] != placed(staged, taken)[j],
    decreases staged.len(),
{
    if staged.len() > 0 {
        let n = free_name(staged[0], taken);
        let more = taken.push(n);
        let tail = placed(staged.skip(1), more);
        lemma_free_name_is_smallest_unused(staged[0], taken);
        lemma_placed_names_are_new(staged.skip(1), more);
        let all = placed(staged, taken);
        assert(all == seq![n] + tail);
        assert forall|i: int| 0 <= i < staged.len() implies !taken.contains(#[trigger] all[i]) by {
            if i > 0 {
                assert(all[i] == tail[i - 1]);
                assert(!more.contains(tail[i - 1]));
                if taken.contains(all[i]) {
                    let w = choose|w: int| 0 <= w < taken.len() && taken[w] == all[i];
                    assert(more[w] == all[i]);
                }
            }
        }
        assert forall|i: int, j: int| 0 <= i < j < staged.len() implies all[i] != all[j] by {
            assert(all[j] == tail[j - 1]);
            if i == 0 {
                assert(!more.contains(tail[j - 1]));
                assert(more[taken.len() as int] == n);
            } else {
                assert(all[i] == tail[i - 1]);
            }
        }
    }
}

} // verus!
