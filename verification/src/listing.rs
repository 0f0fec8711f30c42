//! Reading what the archive tool prints when it lists an archive.

use vstd::prelude::*;
use time::format_description::well_known::Iso8601;
use time::PrimitiveDateTime;
use time_tz::timezones::get_by_name;
use time_tz::PrimitiveDateTimeExt;
use crate::codepage::{is_mis_decoded, mis_decoded, Codepage};
use crate::contents::{single_root_dir, ArchiveContents, ContentsView, RootDirCache};
use crate::error::{ErrorView, SevenzError};
use crate::fs_tree::{inserted_all, sorted_tree, FsTree};
use crate::tree_laws::{all_sorted, extend_all, lemma_inserted_all, lemma_new_tree, node_map};
use crate::modified::{remembered_all, ModifiedCache};
use crate::multi_volume::{all_volumes, archive_multi_volume, MultiVolumeView};
use crate::node::{OutputFile, Record, Timestamp};
use crate::text::{
    chars_of, equal_chars, lines, parse_bounded, parse_number, push_all, remove_all,
    replace_char, split_lines, starts_with, string_of, views, with_char_replaced, without,
};

verus! {

/// The moment that a date and time in ISO 8601 stands for, with the
/// offset that the named time zone has at that moment; `None` where the text
/// is no such date and time or the zone is not known.
pub uninterp spec fn localized(text: Seq<char>, zone: Seq<char>) -> Option<Timestamp>;

/// Wraps `time_tz::timezones::get_by_name`, `time::PrimitiveDateTime::parse`
/// with the format `Iso8601::DEFAULT`, and
/// `time_tz::PrimitiveDateTimeExt::assume_timezone_utc`.
#[verifier::external_body]
fn localize(text: &str, zone: &str) -> (r: Option<Timestamp>)
    ensures
        r == localized(text@, zone@),
{
    let tz = get_by_name(zone)?;
    let at = PrimitiveDateTime::parse(text, &Iso8601::DEFAULT).ok()?.assume_timezone_utc(tz);
    Some(
        Timestamp {
            unix_nanos: at.unix_timestamp_nanos(),
            offset_seconds: at.offset().whole_seconds(),
        },
    )
}

/// What one line of a listing says.
#[derive(Debug, Clone)]
pub enum LineType {
    Path(String),
    Folder(bool),
    Attributes(bool),
    Modified(Timestamp),
    Volumes(usize),
}

/// A line as the contracts see it.
pub enum LineView {
    Path(Seq<char>),
    Folder(bool),
    Attributes(bool),
    Modified(Timestamp),
    Volumes(usize),
}

impl View for LineType {
    type V = LineView;

    open spec fn view(&self) -> LineView {
        match *self {
            LineType::Path(s) => LineView::Path(s@),
            LineType::Folder(b) => LineView::Folder(b),
            LineType::Attributes(b) => LineView::Attributes(b),
            LineType::Modified(t) => LineView::Modified(t),
            LineType::Volumes(n) => LineView::Volumes(n),
        }
    }
}

/// The value of a line that begins with `key`: the line without `key`, a
/// blank, an equals sign and a blank, wherever these stand in it.
pub open spec fn field_value(line: Seq<char>, key: Seq<char>) -> Seq<char> {
    remove_all(line, key + " = "@)
}

/// What a line says. The key it begins with decides: `Path` gives the
/// value as it is; `Folder`, whether the value is a plus sign; `Attributes`,
/// whether the value begins with `D`; `Modified`, the moment that the value
/// stands for in the zone, once its blanks are turned into `T`; `Volumes`,
/// the number that the value is. A line that begins with no key says
/// nothing, nor does one whose time or number cannot be read.
pub open spec fn line_type(line: Seq<char>, zone: Seq<char>) -> Option<LineView> {
    if "Path"@.is_prefix_of(line) {
        Some(LineView::Path(field_value(line, "Path"@)))
    } else if "Folder"@.is_prefix_of(line) {
        Some(LineView::Folder(field_value(line, "Folder"@) == "+"@))
    } else if "Attributes"@.is_prefix_of(line) {
        Some(LineView::Attributes("D"@.is_prefix_of(field_value(line, "Attributes"@))))
    } else if "Modified"@.is_prefix_of(line) {
        match localized(replace_char(field_value(line, "Modified"@), ' ', 'T'), zone) {
            Some(t) => Some(LineView::Modified(t)),
            None => None,
        }
    } else if "Volumes"@.is_prefix_of(line) {
        match parse_number(field_value(line, "Volumes"@), usize::MAX as nat) {
            Some(n) => Some(LineView::Volumes(n as usize)),
            None => None,
        }
    } else {
        None
    }
}

/// What a line says, if anything, as the contracts see it.
pub open spec fn opt_line_view(l: Option<LineType>) -> Option<LineView> {
    match l {
        Some(l) => Some(l@),
        None => None,
    }
}

/// The value of `line` if it begins with `key`.
fn field(line: &Vec<char>, key: &str) -> (r: Option<Vec<char>>)
    ensures
        match r {
            Some(v) => key@.is_prefix_of(line@) && v@ == field_value(line@, key@),
            None => !key@.is_prefix_of(line@),
        },
{
    let mut k = chars_of(key);
    if !starts_with(line, &k) {
        return None;
    }
    let tail = chars_of(" = ");
    push_all(&mut k, &tail);
    Some(without(line, &k))
}

impl LineType {
    /// Reads one line of a listing, given as its characters.
    pub fn of_chars(line: &Vec<char>, zone: &str) -> (r: Option<LineType>)
        ensures
            opt_line_view(r) == line_type(line@, zone@),
    {
        if let Some(v) = field(line, "Path") {
            return Some(LineType::Path(string_of(v.as_slice())));
        }
        if let Some(v) = field(line, "Folder") {
            let plus = chars_of("+");
            return Some(LineType::Folder(equal_chars(&v, &plus)));
        }
        if let Some(v) = field(line, "Attributes") {
            let d = chars_of("D");
            return Some(LineType::Attributes(starts_with(&v, &d)));
        }
        if let Some(v) = field(line, "Modified") {
            let date = with_char_replaced(&v, ' ', 'T');
            let text = string_of(date.as_slice());
            return match localize(text.as_str(), zone) {
                Some(t) => Some(LineType::Modified(t)),
                None => None,
            };
        }
        if let Some(v) = field(line, "Volumes") {
            return match parse_bounded(&v, usize::MAX as u128) {
                Some(n) => Some(LineType::Volumes(n as usize)),
                None => None,
            };
        }
        None
    }

    /// Reads one line of a listing.
    pub fn new(line: &str, zone: &str) -> (r: Option<LineType>)
        ensures
            opt_line_view(r) == line_type(line@, zone@),
    {
        let v = chars_of(line);
        Self::of_chars(&v, zone)
    }
}

/// The line of ten dashes that parts the head of a listing from its
/// entries.
pub open spec fn is_divider(line: Seq<char>) -> bool {
    line == "----------"@
}

/// The position of the first divider from line `i` on, or the number of
/// lines where there is none.
pub open spec fn head_end(all: Seq<Seq<char>>, i: int) -> int
    decreases all.len() - i,
{
    if i < 0 || i >= all.len() {
        all.len() as int
    } else if is_divider(all[i]) {
        i
    } else {
        head_end(all, i + 1)
    }
}

/// The number of volumes that the head of a listing declares: that of
/// its last `Volumes` line with a number of two or more.
pub open spec fn declared_volumes(head: Seq<Seq<char>>, zone: Seq<char>) -> Option<usize>
    decreases head.len(),
{
    if head.len() == 0 {
        None
    } else {
        match line_type(head.last(), zone) {
            Some(LineView::Volumes(n)) if n >= 2 => Some(n),
            _ => declared_volumes(head.drop_last(), zone),
        }
    }
}

/// The lines after the divider, cut into blocks at each empty line. There
/// is always one block more than there are empty lines.
pub open spec fn blocks(body: Seq<Seq<char>>) -> Seq<Seq<Seq<char>>>
    decreases body.len(),
{
    if body.len() == 0 {
        seq![Seq::empty()]
    } else {
        let before = blocks(body.drop_last());
        if body.last().len() == 0 {
            before.push(Seq::empty())
        } else {
            before.drop_last().push(before.last().push(body.last()))
        }
    }
}

/// The entry that a block describes, or the path in it that was decoded
/// with the wrong codepage. Each `Path` line is tested and gives the path;
/// `Folder` and `Attributes` lines each can make the entry a directory; a
/// `Modified` line gives the time. Of several lines of a kind the last one
/// counts, and of several bad paths the first.
pub open spec fn block_record(block: Seq<Seq<char>>, zone: Seq<char>) -> Result<Record, Seq<char>>
    decreases block.len(),
{
    if block.len() == 0 {
        Ok(Record { path: Seq::empty(), is_dir: false, modified: None })
    } else {
        match block_record(block.drop_last(), zone) {
            Err(bad) => Err(bad),
            Ok(r) => match line_type(block.last(), zone) {
                Some(LineView::Path(p)) => if mis_decoded(p) {
                    Err(p)
                } else {
                    Ok(Record { path: p, ..r })
                },
                Some(LineView::Folder(b)) => Ok(Record { is_dir: r.is_dir || b, ..r }),
                Some(LineView::Attributes(b)) => Ok(Record { is_dir: r.is_dir || b, ..r }),
                Some(LineView::Modified(t)) => Ok(Record { modified: Some(t), ..r }),
                _ => Ok(r),
            },
        }
    }
}

/// The entries of all blocks, in the order of the blocks; where a block
/// holds a bad path, that path, and of several such blocks the last one
/// counts.
pub open spec fn block_records(all: Seq<Seq<Seq<char>>>, zone: Seq<char>) -> Result<
    Seq<Record>,
    Seq<char>,
>
    decreases all.len(),
{
    if all.len() == 0 {
        Ok(Seq::empty())
    } else {
        match block_record(all.last(), zone) {
            Err(bad) => Err(bad),
            Ok(r) => match block_records(all.drop_last(), zone) {
                Err(bad) => Err(bad),
                Ok(rs) => Ok(rs.push(r)),
            },
        }
    }
}

/// The lines of a listing before its divider.
pub open spec fn head_of(text: Seq<char>) -> Seq<Seq<char>> {
    lines(text).take(head_end(lines(text), 0))
}

/// The lines of a listing after its divider.
pub open spec fn body_of(text: Seq<char>) -> Seq<Seq<char>> {
    if head_end(lines(text), 0) < lines(text).len() {
        lines(text).skip(head_end(lines(text), 0) + 1)
    } else {
        Seq::empty()
    }
}

/// What a listing holds: the number of volumes that its head declares and
/// the entries of its body; or the path that was decoded with the wrong
/// codepage.
pub open spec fn listing_of(text: Seq<char>, zone: Seq<char>) -> Result<
    (Option<usize>, Seq<Record>),
    Seq<char>,
> {
    match block_records(blocks(body_of(text)), zone) {
        Err(bad) => Err(bad),
        Ok(records) => Ok((declared_volumes(head_of(text), zone), records)),
    }
}

/// A block that holds a mis-decoded path gives no entry.
pub proof fn lemma_bad_path_fails_block(block: Seq<Seq<char>>, zone: Seq<char>, l: int)
    requires
        0 <= l < block.len(),
        line_type(block[l], zone) matches Some(LineView::Path(p)) && mis_decoded(p),
    ensures
        block_record(block, zone) is Err,
    decreases block.len(),
{
    if l < block.len() - 1 {
        assert(block.drop_last()[l] == block[l]);
        lemma_bad_path_fails_block(block.drop_last(), zone, l);
    }
}

/// Where one block gives no entry, the blocks give none.
pub proof fn lemma_bad_block_fails_all(all: Seq<Seq<Seq<char>>>, zone: Seq<char>, b: int)
    requires
        0 <= b < all.len(),
        block_record(all[b], zone) is Err,
    ensures
        block_records(all, zone) is Err,
    decreases all.len(),
{
    if b < all.len() - 1 {
        assert(all.drop_last()[b] == all[b]);
        lemma_bad_block_fails_all(all.drop_last(), zone, b);
    }
}

/// A listing with a mis-decoded path in any of its blocks is not read:
/// reading it fails, whatever else it holds. A path of one or more
/// characters that are all replacement characters is such a path.
pub proof fn lemma_bad_path_fails_listing(text: Seq<char>, zone: Seq<char>, b: int, l: int)
    requires
        0 <= b < blocks(body_of(text)).len(),
        0 <= l < blocks(body_of(text))[b].len(),
        line_type(blocks(body_of(text))[b][l], zone) matches Some(LineView::Path(p)) && (
        mis_decoded(p) || (p.len() > 0 && forall|i: int|
            0 <= i < p.len() ==> crate::codepage::replacement_character(#[trigger] p[i]))),
    ensures
        listing_of(text, zone) is Err,
{
    let all = blocks(body_of(text));
    match line_type(all[b][l], zone) {
        Some(LineView::Path(p)) => {
            if !mis_decoded(p) {
                crate::codepage::lemma_all_suspicious_is_mis_decoded(p);
            }
        },
        _ => {},
    }
    lemma_bad_path_fails_block(all[b], zone, l);
    lemma_bad_block_fails_all(all, zone, b);
}

/// What a listing holds.
#[derive(Debug, Clone)]
pub struct Listing {
    pub volumes: Option<usize>,
    pub files: Vec<OutputFile>,
}

/// The views of the entries of `v`.
pub open spec fn records_of(v: Seq<OutputFile>) -> Seq<Record> {
    Seq::new(v.len(), |i: int| v[i]@)
}

/// The entry read so far from an open block.
struct Draft {
    path: Vec<char>,
    is_dir: bool,
    modified: Option<Timestamp>,
    bad: Option<Vec<char>>,
}

impl Draft {
    spec fn stands_for(&self, r: Result<Record, Seq<char>>) -> bool {
        match r {
            Ok(rec) => self.bad is None && rec == (Record {
                path: self.path@,
                is_dir: self.is_dir,
                modified: self.modified,
            }),
            Err(bad) => self.bad matches Some(b) && b@ == bad,
        }
    }

    fn new() -> (r: Self)
        ensures
            r.stands_for(block_record(Seq::empty(), Seq::empty())),
    {
        Draft { path: Vec::new(), is_dir: false, modified: None, bad: None }
    }

    fn take_line(&mut self, line: &Vec<char>, zone: &str, Ghost(block): Ghost<Seq<Seq<char>>>)
        requires
            old(self).stands_for(block_record(block, zone@)),
        ensures
            final(self).stands_for(block_record(block.push(line@), zone@)),
    {
        proof {
            assert(block.push(line@).drop_last() == block);
        }
        if self.bad.is_some() {
            return;
        }
        match LineType::of_chars(line, zone) {
            Some(LineType::Path(p)) => {
                let chars = chars_of(p.as_str());
                if is_mis_decoded(&chars) {
                    self.bad = Some(chars);
                } else {
                    self.path = chars;
                }
            },
            Some(LineType::Folder(b)) => {
                self.is_dir = self.is_dir || b;
            },
            Some(LineType::Attributes(b)) => {
                self.is_dir = self.is_dir || b;
            },
            Some(LineType::Modified(t)) => {
                self.modified = Some(t);
            },
            _ => {},
        }
    }
}

/// The entries read so far from the closed blocks.
struct Entries {
    files: Vec<OutputFile>,
    bad: Option<Vec<char>>,
}

impl Entries {
    spec fn stands_for(&self, r: Result<Seq<Record>, Seq<char>>) -> bool {
        match r {
            Ok(rs) => self.bad is None && records_of(self.files@) == rs,
            Err(bad) => self.bad matches Some(b) && b@ == bad,
        }
    }

    fn close(&mut self, draft: Draft, Ghost(closed): Ghost<Seq<Seq<Seq<char>>>>, Ghost(block): Ghost<
        Seq<Seq<char>>,
    >, Ghost(zone): Ghost<Seq<char>>)
        requires
            old(self).stands_for(block_records(closed, zone)),
            draft.stands_for(block_record(block, zone)),
        ensures
            final(self).stands_for(block_records(closed.push(block), zone)),
    {
        proof {
            assert(closed.push(block).drop_last() == closed);
        }
        match draft.bad {
            Some(b) => {
                self.bad = Some(b);
            },
            None => {
                if self.bad.is_none() {
                    let file = OutputFile {
                        path: string_of(draft.path.as_slice()),
                        is_dir: draft.is_dir,
                        modified: draft.modified,
                    };
                    proof {
                        assert(records_of(self.files@.push(file)) == records_of(self.files@).push(
                            file@,
                        ));
                    }
                    self.files.push(file);
                }
            },
        }
    }
}

/// Reads a listing: the number of volumes that its head declares, and its
/// entries in the order in which they are listed. It fails where an entry's
/// path was decoded with the wrong codepage.
pub fn parse_listing(output: &str, zone: &str) -> (r: Result<Listing, SevenzError>)
    ensures
        match r {
            Ok(l) => listing_of(output@, zone@) == Ok::<_, Seq<char>>(
                (l.volumes, records_of(l.files@)),
            ),
            Err(e) => e@ matches ErrorView::InvalidUtf8(bad) && listing_of(output@, zone@) == Err::<
                (Option<usize>, Seq<Record>),
                _,
            >(bad),
        },
{
    let text = chars_of(output);
    let all = split_lines(&text);
    let divider = chars_of("----------");
    let ghost ls = lines(output@);
    proof {
        assert(views(all@).len() == all@.len());
        assert forall|j: int| 0 <= j < all@.len() implies (#[trigger] all@[j])@ == ls[j] by {
            assert(views(all@)[j] == all@[j]@);
        }
    }

    // The head: everything before the first divider.
    let mut volumes: Option<usize> = None;
    let mut i: usize = 0;
    proof {
        assert(ls.take(0) == Seq::<Seq<char>>::empty());
    }
    while i < all.len() && !equal_chars(&all[i], &divider)
        invariant
            i <= all.len(),
            all@.len() == ls.len(),
            divider@ == "----------"@,
            forall|j: int| 0 <= j < all@.len() ==> (#[trigger] all@[j])@ == ls[j],
            head_end(ls, 0) == head_end(ls, i as int),
            volumes == declared_volumes(ls.take(i as int), zone@),
        decreases all.len() - i,
    {
        proof {
            assert(ls.take(i + 1).drop_last() == ls.take(i as int));
            assert(ls.take(i + 1).last() == all@[i as int]@);
        }
        match LineType::of_chars(&all[i], zone) {
            Some(LineType::Volumes(n)) => {
                if n >= 2 {
                    volumes = Some(n);
                }
            },
            _ => {},
        }
        i += 1;
    }
    proof {
        if i < all.len() {
            assert(is_divider(ls[i as int]));
        }
        assert(head_end(ls, 0) == i);
    }

    // The body: everything after it, block by block.
    let ghost body = body_of(output@);
    let mut entries = Entries { files: Vec::new(), bad: None };
    let mut draft = Draft::new();
    let ghost mut closed: Seq<Seq<Seq<char>>> = Seq::empty();
    let ghost mut block: Seq<Seq<char>> = Seq::empty();
    let first: usize = if i < all.len() {
        i + 1
    } else {
        i
    };
    let mut j: usize = first;
    proof {
        assert(body.take(0) == Seq::<Seq<char>>::empty());
        assert(closed.push(block) == blocks(body.take(0)));
        assert(records_of(entries.files@) == Seq::<Record>::empty());
    }
    while j < all.len()
        invariant
            first <= j <= all.len(),
            all@.len() == ls.len(),
            forall|x: int| 0 <= x < all@.len() ==> (#[trigger] all@[x])@ == ls[x],
            body.len() == all.len() - first,
            forall|x: int| 0 <= x < body.len() ==> #[trigger] body[x] == ls[first + x],
            blocks(body.take(j - first)) == closed.push(block),
            entries.stands_for(block_records(closed, zone@)),
            draft.stands_for(block_record(block, zone@)),
        decreases all.len() - j,
    {
        let line = &all[j];
        proof {
            assert(body.take(j - first + 1).drop_last() == body.take(j - first));
            assert(body.take(j - first + 1).last() == line@);
            assert(closed.push(block).drop_last() == closed);
        }
        if line.len() == 0 {
            entries.close(draft, Ghost(closed), Ghost(block), Ghost(zone@));
            draft = Draft::new();
            proof {
                closed = closed.push(block);
                block = Seq::empty();
            }
        } else {
            draft.take_line(line, zone, Ghost(block));
            proof {
                block = block.push(line@);
            }
        }
        j += 1;
    }
    proof {
        assert(body.take(body.len() as int) == body);
    }
    entries.close(draft, Ghost(closed), Ghost(block), Ghost(zone@));
    match entries.bad {
        Some(b) => Err(SevenzError::InvalidUtf8(string_of(b.as_slice()))),
        None => Ok(Listing { volumes, files: entries.files }),
    }
}

/// What the contents of an archive are, given its listing: the tree holds
/// the entries, put in from the last to the first and then sorted, so that
/// there is a node at each path that an entry passes, made by the last entry
/// in the listing that passes it, and the children of every node come in the
/// order of their names; password
/// and codepage are those that the listing was made with, the empty
/// password counting as none; the volumes are named where the listing
/// declares two or more; and the flag says whether the tree has a single
/// top-level directory.
pub open spec fn contents_of_listing(
    c: ContentsView,
    archive_path: Seq<char>,
    password: Seq<char>,
    codepage: Option<Codepage>,
    volumes: Option<usize>,
    records: Seq<Record>,
) -> bool {
    &&& c.path == archive_path
    &&& c.password == if password.len() == 0 {
        None
    } else {
        Some(password)
    }
    &&& c.codepage == codepage
    &&& c.multi_volume == match volumes {
        Some(n) => Some(
            MultiVolumeView {
                volumes: all_volumes(archive_path, n as nat),
                actual_path: Seq::empty(),
            },
        ),
        None => None,
    }
    &&& sorted_tree(inserted_all(FsTree::new_slots(), records), c.tree)
    &&& all_sorted(c.tree)
    &&& node_map(c.tree) == extend_all(Map::empty(), records)
    &&& c.has_root_dir == single_root_dir(c.tree)
}

/// Builds the contents of an archive from what its listing holds, keeps
/// the times of its entries, and records whether it has a single top-level
/// directory.
pub fn build_contents(
    archive_path: &str,
    listing: Listing,
    password: &str,
    codepage: Option<Codepage>,
    cache: &mut RootDirCache,
    times: &mut ModifiedCache,
) -> (r: ArchiveContents)
    requires
        old(cache).wf(),
    ensures
        r.wf(),
        contents_of_listing(
            r@,
            archive_path@,
            password@,
            codepage,
            listing.volumes,
            records_of(listing.files@),
        ),
        final(cache).wf(),
        final(cache)@ == old(cache)@.insert(archive_path@, r@.has_root_dir),
        final(times).capacity() == old(times).capacity(),
        final(times).entries() == remembered_all(
            old(times).entries(),
            old(times).capacity(),
            archive_path@,
            records_of(listing.files@),
        ),
{
    let mut archive = ArchiveContents::new(archive_path.to_string());
    proof {
        assert(records_of(listing.files@).take(listing.files@.len() as int) == records_of(
            listing.files@,
        ));
    }
    match listing.volumes {
        Some(n) => {
            archive.set_multi_volume(archive_multi_volume(archive_path, n));
        },
        None => {},
    }
    let ghost records = records_of(listing.files@);
    let volumes = listing.volumes;
    let mut files = listing.files;
    proof {
        assert(records.take(files.len() as int) == records);
    }
    while files.len() > 0
        invariant
            files@.len() <= records.len(),
            records_of(files@) == records.take(files@.len() as int),
            archive.wf(),
            archive@.path == archive_path@,
            archive@.password is None,
            archive@.codepage is None,
            archive@.has_root_dir == false,
            archive@.multi_volume == match volumes {
                Some(n) => Some(
                    MultiVolumeView {
                        volumes: all_volumes(archive_path@, n as nat),
                        actual_path: Seq::empty(),
                    },
                ),
                None => None,
            },
            inserted_all(FsTree::new_slots(), records) == inserted_all(
                archive@.tree,
                records.take(files@.len() as int),
            ),
            times.capacity() == old(times).capacity(),
            remembered_all(
                old(times).entries(),
                old(times).capacity(),
                archive_path@,
                records,
            ) == remembered_all(
                times.entries(),
                times.capacity(),
                archive_path@,
                records.take(files@.len() as int),
            ),
        decreases files.len(),
    {
        let ghost before = files@;
        let file = files.pop().unwrap();
        proof {
            let n = before.len() as int;
            assert(records.take(n).last() == file@) by {
                assert(records_of(before)[n - 1] == before[n - 1]@);
            }
            assert(records.take(n).drop_last() == records.take(n - 1));
            assert(records_of(files@) =~= records.take(n - 1)) by {
                assert forall|i: int| 0 <= i < n - 1 implies records_of(files@)[i] == records.take(
                    n - 1,
                )[i] by {
                    assert(records_of(before)[i] == before[i]@);
                }
            }
        }
        file.cache_modified(archive_path.to_string(), times);
        archive.append_file(file);
    }
    proof {
        lemma_new_tree();
        lemma_inserted_all(FsTree::new_slots(), records);
    }
    archive.sort();
    archive.set_password(password.to_string());
    archive.set_codepage(codepage);
    archive.set_has_root_dir(cache);
    archive
}

/// Reads a listing and builds the contents of the archive from it. A
/// listing that cannot be read leaves both caches as they are.
pub fn read_listing(
    output: &str,
    archive_path: &str,
    password: &str,
    codepage: Option<Codepage>,
    zone: &str,
    cache: &mut RootDirCache,
    times: &mut ModifiedCache,
) -> (r: Result<ArchiveContents, SevenzError>)
    requires
        old(cache).wf(),
    ensures
        final(cache).wf(),
        final(times).capacity() == old(times).capacity(),
        match r {
            Ok(c) => c.wf() && (listing_of(output@, zone@) matches Ok(l) && contents_of_listing(
                c@,
                archive_path@,
                password@,
                codepage,
                l.0,
                l.1,
            ) && final(times).entries() == remembered_all(
                old(times).entries(),
                old(times).capacity(),
                archive_path@,
                l.1,
            )) && final(cache)@ == old(cache)@.insert(archive_path@, c@.has_root_dir),
            Err(e) => e@ matches ErrorView::InvalidUtf8(bad) && listing_of(output@, zone@) == Err::<
                (Option<usize>, Seq<Record>),
                _,
            >(bad) && final(cache)@ == old(cache)@ && final(times).entries() == old(
                times,
            ).entries(),
        },
{
    match parse_listing(output, zone) {
        Ok(listing) => Ok(
            build_contents(archive_path, listing, password, codepage, cache, times),
        ),
        Err(e) => Err(e),
    }
}

} // verus!
