//! Archives split into volumes: the rank that a volume's name carries, and
//! the names of the other volumes.

use vstd::prelude::*;
use regex::Regex;
use crate::text::{
    chars_of, decimal, padded_decimal, parse_bounded, parse_number, push_all, string_of,
    string_views, to_decimal, to_padded_decimal,
};

verus! {

/// What a regular expression finds in a text for one of its named groups:
/// `None` where the pattern is no regular expression or matches nowhere in
/// the text; else, for the leftmost match, what the group matched, or `None`
/// where the group took no part in it.
pub uninterp spec fn captured(pattern: Seq<char>, text: Seq<char>, group: Seq<char>) -> Option<
    Option<Seq<char>>,
>;

/// The text with the leftmost match of a regular expression replaced, where
/// `$name` in the replacement stands for what the group `name` matched, and
/// the text itself where nothing matches; `None` where the pattern is no
/// regular expression.
pub uninterp spec fn replaced(pattern: Seq<char>, text: Seq<char>, replacement: Seq<char>) -> Option<
    Seq<char>,
>;

/// Wraps `regex::Regex::new`, `Regex::captures` and `Captures::name`.
#[verifier::external_body]
fn regex_capture(pattern: &str, text: &str, group: &str) -> (r: Option<Option<String>>)
    ensures
        match r {
            Some(Some(m)) => captured(pattern@, text@, group@) == Some(Some(m@)),
            Some(None) => captured(pattern@, text@, group@) == Some(None::<Seq<char>>),
            None => captured(pattern@, text@, group@) is None,
        },
{
    let re = Regex::new(pattern).ok()?;
    re.captures(text).map(|c| c.name(group).map(|m| m.as_str().to_string()))
}

/// Wraps `regex::Regex::new` and `Regex::replace`.
#[verifier::external_body]
fn regex_replace(pattern: &str, text: &str, replacement: &str) -> (r: Option<String>)
    ensures
        match r {
            Some(t) => replaced(pattern@, text@, replacement@) == Some(t@),
            None => replaced(pattern@, text@, replacement@) is None,
        },
{
    Regex::new(pattern).ok().map(|re| re.replace(text, replacement).into_owned())
}

/// A multi-volume archive: the paths of its volumes in the order of their
/// ranks, and the path that was asked for.
#[derive(Debug, Clone)]
pub struct ArchiveMultiVolume {
    volumes: Vec<String>,
    actual_path: String,
}

/// A multi-volume archive as the contracts see it.
pub struct MultiVolumeView {
    pub volumes: Seq<Seq<char>>,
    pub actual_path: Seq<char>,
}

impl View for ArchiveMultiVolume {
    type V = MultiVolumeView;

    closed spec fn view(&self) -> MultiVolumeView {
        MultiVolumeView { volumes: string_views(self.volumes@), actual_path: self.actual_path@ }
    }
}

impl Default for ArchiveMultiVolume {
    fn default() -> (r: Self)
        ensures
            r@.volumes == Seq::<Seq<char>>::empty(),
            r@.actual_path == Seq::<char>::empty(),
    {
        ArchiveMultiVolume { volumes: Vec::new(), actual_path: String::new() }
    }
}

impl ArchiveMultiVolume {
    /// Adds the path of the next volume.
    pub fn append_archive(&mut self, archive: String)
        ensures
            final(self)@.volumes == old(self)@.volumes.push(archive@),
            final(self)@.actual_path == old(self)@.actual_path,
    {
        proof {
            assert(string_views(self.volumes@.push(archive)) == string_views(self.volumes@).push(
                archive@,
            ));
        }
        self.volumes.push(archive);
    }

    /// Keeps the path that was asked for.
    pub fn set_actual_path(&mut self, actual_path: String)
        ensures
            final(self)@.volumes == old(self)@.volumes,
            final(self)@.actual_path == actual_path@,
    {
        self.actual_path = actual_path;
    }

    /// The paths of the volumes, first to last.
    pub fn volumes(&self) -> (r: &Vec<String>)
        ensures
            string_views(r@) == self@.volumes,
    {
        &self.volumes
    }

    /// The path that was asked for.
    pub fn actual_path(&self) -> (r: &String)
        ensures
            r@ == self@.actual_path,
    {
        &self.actual_path
    }
}

/// The three ways in which the name of a volume carries its rank.
#[derive(Debug, Clone, Copy, PartialEq, Eq, Structural)]
pub enum RankReplacer {
    /// `.part<N>.rar`, the rank written as it is.
    RarPart,
    /// `.r<NN>`, the rank in two digits.
    RNum,
    /// `.7z.<NNN>` or `.zip.<NNN>`, the rank in three digits.
    ExtNum,
}

/// The suffix of a volume's name, as a regular expression: one named group
/// holds the digits of the rank in each of the three families, and `ext`
/// the extension before the rank in the third.
pub open spec fn volume_pattern() -> Seq<char> {
    "(\\.part(?<rarpart>\\d+)\\.rar|\\.r(?<rnum>\\d+)|\\.(?<ext>7z|zip)\\.(?<extnum>\\d+))$"@
}

impl RankReplacer {
    /// The suffix for a rank, as a replacement for a match of the
    /// pattern; `$ext` stands for the extension that the match held.
    pub open spec fn replacement(self, rank: nat) -> Seq<char> {
        match self {
            RankReplacer::RarPart => ".part"@ + decimal(rank) + ".rar"@,
            RankReplacer::RNum => ".r"@ + padded_decimal(rank, 2),
            RankReplacer::ExtNum => ".$ext."@ + padded_decimal(rank, 3),
        }
    }

    /// Writes the suffix for `rank`.
    pub fn replace(&self, rank: usize) -> (r: String)
        ensures
            r@ == self.replacement(rank as nat),
    {
        let v = match self {
            RankReplacer::RarPart => {
                let mut v = chars_of(".part");
                let digits = to_decimal(rank as u128);
                push_all(&mut v, &digits);
                let tail = chars_of(".rar");
                push_all(&mut v, &tail);
                v
            },
            RankReplacer::RNum => {
                let mut v = chars_of(".r");
                let digits = to_padded_decimal(rank as u128, 2);
                push_all(&mut v, &digits);
                v
            },
            RankReplacer::ExtNum => {
                let mut v = chars_of(".$ext.");
                let digits = to_padded_decimal(rank as u128, 3);
                push_all(&mut v, &digits);
                v
            },
        };
        string_of(v.as_slice())
    }

    /// The pattern that finds the suffix of a volume's name.
    pub fn regex() -> (r: &'static str)
        ensures
            r@ == volume_pattern(),
    {
        "(\\.part(?<rarpart>\\d+)\\.rar|\\.r(?<rnum>\\d+)|\\.(?<ext>7z|zip)\\.(?<extnum>\\d+))$"
    }
}

/// The rank that the digits of a group denote, where they are a number
/// that the machine can hold.
pub open spec fn rank_of_digits(digits: Seq<char>) -> Option<usize> {
    match parse_number(digits, usize::MAX as nat) {
        Some(n) => Some(n as usize),
        None => None,
    }
}

/// The family and rank that the three groups of a match give: the first
/// group that took part decides the family, in the order `rarpart`, `rnum`,
/// `extnum`, and its digits are the rank. There is none where no group took
/// part or the digits are no such number.
pub open spec fn rank_of_groups(
    rarpart: Option<Seq<char>>,
    rnum: Option<Seq<char>>,
    extnum: Option<Seq<char>>,
) -> Option<(RankReplacer, usize)> {
    match rarpart {
        Some(d) => match rank_of_digits(d) {
            Some(n) => Some((RankReplacer::RarPart, n)),
            None => None,
        },
        None => match rnum {
            Some(d) => match rank_of_digits(d) {
                Some(n) => Some((RankReplacer::RNum, n)),
                None => None,
            },
            None => match extnum {
                Some(d) => match rank_of_digits(d) {
                    Some(n) => Some((RankReplacer::ExtNum, n)),
                    None => None,
                },
                None => None,
            },
        },
    }
}

/// What a group of the volume pattern holds in a name; `None` also where
/// the pattern finds nothing in the name.
pub open spec fn volume_group(name: Seq<char>, group: Seq<char>) -> Option<Seq<char>> {
    match captured(volume_pattern(), name, group) {
        Some(g) => g,
        None => None,
    }
}

/// The family and rank of a volume's name, if it is one.
pub open spec fn rank_of_name(name: Seq<char>) -> Option<(RankReplacer, usize)> {
    rank_of_groups(
        volume_group(name, "rarpart"@),
        volume_group(name, "rnum"@),
        volume_group(name, "extnum"@),
    )
}

/// The name of the volume of rank `rank` beside the volume `name`.
pub open spec fn volume_name(name: Seq<char>, family: RankReplacer, rank: nat) -> Option<
    Seq<char>,
> {
    replaced(volume_pattern(), name, family.replacement(rank))
}

/// The name of the first volume beside the volume `name`; `None` where
/// `name` is no volume's name or is itself the first.
pub open spec fn first_volume(name: Seq<char>) -> Option<Seq<char>> {
    match rank_of_name(name) {
        Some((family, rank)) => if rank == 1 {
            None
        } else {
            volume_name(name, family, 1)
        },
        None => None,
    }
}

/// The names of the volumes of the ranks 1 to `count` beside the volume
/// `name`, in that order.
pub open spec fn volume_names(name: Seq<char>, family: RankReplacer, count: nat) -> Seq<
    Seq<char>,
>
    decreases count,
{
    if count == 0 {
        Seq::empty()
    } else {
        match volume_name(name, family, count) {
            Some(v) => volume_names(name, family, (count - 1) as nat).push(v),
            None => volume_names(name, family, (count - 1) as nat),
        }
    }
}

/// The volumes of an archive of `count` volumes of which `name` is one;
/// none where `name` is no volume's name.
pub open spec fn all_volumes(name: Seq<char>, count: nat) -> Seq<Seq<char>> {
    match rank_of_name(name) {
        Some((family, _)) => volume_names(name, family, count),
        None => Seq::empty(),
    }
}

/// The name of a volume together with the rank it carries.
#[derive(Debug, Clone)]
pub struct ArchiveMultiRank {
    rank: usize,
    replacer: RankReplacer,
    file_name: String,
}

fn parse_rank(digits: &String) -> (r: Option<usize>)
    ensures
        r == rank_of_digits(digits@),
{
    let v = chars_of(digits.as_str());
    match parse_bounded(&v, usize::MAX as u128) {
        Some(n) => Some(n as usize),
        None => None,
    }
}

impl ArchiveMultiRank {
    /// The rank that the name carries.
    pub closed spec fn rank(&self) -> usize {
        self.rank
    }

    /// The way in which the name carries its rank.
    pub closed spec fn family(&self) -> RankReplacer {
        self.replacer
    }

    /// The name of the volume.
    pub closed spec fn name(&self) -> Seq<char> {
        self.file_name@
    }

    /// Reads family and rank from what the three groups of the volume
    /// pattern held in `file_name`.
    pub fn from_groups(
        file_name: String,
        rarpart: Option<String>,
        rnum: Option<String>,
        extnum: Option<String>,
    ) -> (r: Option<Self>)
        ensures
            match r {
                Some(m) => rank_of_groups(
                    crate::node::opt_view(rarpart),
                    crate::node::opt_view(rnum),
                    crate::node::opt_view(extnum),
                ) == Some((m.family(), m.rank())) && m.name() == file_name@,
                None => rank_of_groups(
                    crate::node::opt_view(rarpart),
                    crate::node::opt_view(rnum),
                    crate::node::opt_view(extnum),
                ) is None,
            },
    {
        let (digits, replacer) = match rarpart {
            Some(d) => (d, RankReplacer::RarPart),
            None => match rnum {
                Some(d) => (d, RankReplacer::RNum),
                None => match extnum {
                    Some(d) => (d, RankReplacer::ExtNum),
                    None => {
                        return None;
                    },
                },
            },
        };
        match parse_rank(&digits) {
            Some(rank) => Some(ArchiveMultiRank { rank, replacer, file_name }),
            None => None,
        }
    }

    /// Reads family and rank from the name of a volume.
    pub fn new(file_name: String) -> (r: Option<Self>)
        ensures
            match r {
                Some(m) => rank_of_name(file_name@) == Some((m.family(), m.rank())) && m.name()
                    == file_name@,
                None => rank_of_name(file_name@) is None,
            },
    {
        let pattern = RankReplacer::regex();
        let rarpart = flatten(regex_capture(pattern, file_name.as_str(), "rarpart"));
        let rnum = flatten(regex_capture(pattern, file_name.as_str(), "rnum"));
        let extnum = flatten(regex_capture(pattern, file_name.as_str(), "extnum"));
        Self::from_groups(file_name, rarpart, rnum, extnum)
    }

    /// Whether the volume is the first.
    pub fn is_first(&self) -> (r: bool)
        ensures
            r == (self.rank() == 1),
    {
        self.rank == 1
    }

    /// The name with the rank replaced.
    pub fn replace(&self, rank: usize) -> (r: Option<String>)
        ensures
            crate::node::opt_view(r) == volume_name(self.name(), self.family(), rank as nat),
    {
        let suffix = self.replacer.replace(rank);
        regex_replace(RankReplacer::regex(), self.file_name.as_str(), suffix.as_str())
    }

    /// The names for the ranks 1 to `volume_count`.
    pub fn replace_iter(&self, volume_count: usize) -> (r: Vec<String>)
        ensures
            string_views(r@) == volume_names(self.name(), self.family(), volume_count as nat),
    {
        let mut r: Vec<String> = Vec::new();
        let mut done: usize = 0;
        proof {
            assert(string_views(r@) == Seq::<Seq<char>>::empty());
        }
        while done < volume_count
            invariant
                done <= volume_count,
                string_views(r@) == volume_names(self.name(), self.family(), done as nat),
            decreases volume_count - done,
        {
            let rank: usize = done + 1;
            match self.replace(rank) {
                Some(name) => {
                    proof {
                        assert(string_views(r@.push(name)) == string_views(r@).push(name@));
                    }
                    r.push(name);
                },
                None => {},
            }
            done = rank;
        }
        r
    }
}

fn flatten(g: Option<Option<String>>) -> (r: Option<String>)
    ensures
        r == match g {
            Some(x) => x,
            None => None,
        },
{
    match g {
        Some(x) => x,
        None => None,
    }
}

/// The path of the first volume of the archive that `archive_path` is a
/// volume of. `None` where the path is not that of a volume, or is that of
/// the first one.
pub fn get_first_volume(archive_path: &str) -> (r: Option<String>)
    ensures
        crate::node::opt_view(r) == first_volume(archive_path@),
{
    let rank = ArchiveMultiRank::new(archive_path.to_string());
    match rank {
        Some(rank) => {
            if rank.is_first() {
                None
            } else {
                rank.replace(1)
            }
        },
        None => None,
    }
}

/// The volumes of the archive of `volume_count` volumes that `archive_path`
/// is one of, by rank.
pub fn archive_multi_volume(archive_path: &str, volume_count: usize) -> (r: ArchiveMultiVolume)
    ensures
        r@.volumes == all_volumes(archive_path@, volume_count as nat),
        r@.actual_path == Seq::<char>::empty(),
{
    let mut multi = ArchiveMultiVolume::default();
    match ArchiveMultiRank::new(archive_path.to_string()) {
        Some(rank) => {
            let names = rank.replace_iter(volume_count);
            let mut i: usize = 0;
            proof {
                assert(string_views(names@).take(0) == Seq::<Seq<char>>::empty());
            }
            while i < names.len()
                invariant
                    i <= names.len(),
                    multi@.volumes == string_views(names@).take(i as int),
                    multi@.actual_path == Seq::<char>::empty(),
                decreases names.len() - i,
            {
                proof {
                    assert(string_views(names@).take(i + 1) == string_views(names@).take(
                        i as int,
                    ).push(names@[i as int]@));
                }
                multi.append_archive(names[i].clone());
                i += 1;
            }
            proof {
                assert(string_views(names@).take(names.len() as int) == string_views(names@));
            }
        },
        None => {},
    }
    multi
}

} // verus!
