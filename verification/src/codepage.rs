//! Codepages that the archive tool can be told to read names in, and the
//! heuristic that tells a name decoded with the wrong one.

use vstd::prelude::*;
use crate::text::{chars_of, decimal, string_of, to_decimal};

verus! {

/// U+FFFD, which a decoder writes in place of bytes it cannot read.
pub open spec fn replacement_character(c: char) -> bool {
    c as u32 == 0xFFFD
}

/// The half-width katakana block, U+FF61 to U+FF9F.
pub open spec fn halfwidth_katakana(c: char) -> bool {
    0xFF61 <= c as u32 <= 0xFF9F
}

/// The Latin-1 supplement block, U+0080 to U+00FF.
pub open spec fn latin_capital_letter(c: char) -> bool {
    0x0080 <= c as u32 <= 0x00FF
}

/// A character that a name decoded with the wrong codepage is likely to hold.
pub open spec fn suspicious(c: char) -> bool {
    replacement_character(c) || halfwidth_katakana(c) || latin_capital_letter(c)
}

/// How many characters of `s` are suspicious.
pub open spec fn suspicious_count(s: Seq<char>) -> nat
    decreases s.len(),
{
    if s.len() == 0 {
        0
    } else {
        suspicious_count(s.drop_last()) + if suspicious(s.last()) {
            1nat
        } else {
            0nat
        }
    }
}

/// More than half of the characters of `s` are suspicious.
pub open spec fn mis_decoded(s: Seq<char>) -> bool {
    2 * suspicious_count(s) > s.len()
}

/// Whether `c` is the replacement character.
pub fn is_replacement_character(c: char) -> (r: bool)
    ensures
        r == replacement_character(c),
{
    c == '\u{FFFD}'
}

/// Whether `c` is a half-width katakana character.
pub fn is_halfwidth_katakana(c: char) -> (r: bool)
    ensures
        r == halfwidth_katakana(c),
{
    '\u{FF61}' <= c && c <= '\u{FF9F}'
}

/// Whether `c` lies in the Latin-1 supplement block.
pub fn is_latin_capital_letter(c: char) -> (r: bool)
    ensures
        r == latin_capital_letter(c),
{
    '\u{0080}' <= c && c <= '\u{00FF}'
}

/// Whether a name read from a listing looks as if it was decoded with the
/// wrong codepage.
pub fn is_mis_decoded(s: &Vec<char>) -> (r: bool)
    ensures
        r == mis_decoded(s@),
{
    let mut count: usize = 0;
    let mut i: usize = 0;
    proof {
        assert(s@.take(0) == Seq::<char>::empty());
    }
    while i < s.len()
        invariant
            i <= s.len(),
            count == suspicious_count(s@.take(i as int)),
            count <= i,
        decreases s.len() - i,
    {
        let c = s[i];
        proof {
            assert(s@.take(i + 1).drop_last() == s@.take(i as int));
        }
        if is_replacement_character(c) || is_halfwidth_katakana(c) || is_latin_capital_letter(c) {
            count += 1;
        }
        i += 1;
    }
    proof {
        assert(s@.take(s.len() as int) == s@);
    }
    count > s.len() - count
}

/// A name of at least one character, all of them suspicious, counts as
/// decoded with the wrong codepage.
pub proof fn lemma_all_suspicious_is_mis_decoded(s: Seq<char>)
    requires
        s.len() > 0,
        forall|i: int| 0 <= i < s.len() ==> suspicious(#[trigger] s[i]),
    ensures
        suspicious_count(s) == s.len(),
        mis_decoded(s),
    decreases s.len(),
{
    if s.len() > 1 {
        lemma_all_suspicious_is_mis_decoded(s.drop_last());
    } else {
        assert(suspicious_count(s.drop_last()) == 0);
    }
}

/// A codepage given to the archive tool with its `-mcp` switch.
#[allow(non_camel_case_types)]
#[derive(Debug, Clone, Copy, PartialEq, Eq, Structural)]
pub enum Codepage {
    SHIFT_JIS,
    GB2312,
    BIG5,
    UTF_8,
    Other(u16),
}

impl Codepage {
    /// The number of the codepage.
    pub open spec fn number(self) -> u16 {
        match self {
            Codepage::SHIFT_JIS => 932,
            Codepage::GB2312 => 936,
            Codepage::BIG5 => 950,
            Codepage::UTF_8 => 65001,
            Codepage::Other(n) => n,
        }
    }

    /// The switch that selects the codepage: `-mcp=` and its number.
    pub open spec fn switch(self) -> Seq<char> {
        "-mcp="@ + decimal(self.number() as nat)
    }

    /// The number of the codepage.
    pub fn as_u16(&self) -> (n: u16)
        ensures
            n == self.number(),
    {
        match self {
            Codepage::SHIFT_JIS => 932,
            Codepage::GB2312 => 936,
            Codepage::BIG5 => 950,
            Codepage::UTF_8 => 65001,
            Codepage::Other(n) => *n,
        }
    }

    /// The command line switch for this codepage.
    pub fn to_string(&self) -> (s: String)
        ensures
            s@ == self.switch(),
    {
        let mut v = chars_of("-mcp=");
        let mut digits = to_decimal(self.as_u16() as u128);
        v.append(&mut digits);
        string_of(v.as_slice())
    }
}

/// The codepages that are tried in turn when names come out mis-decoded.
pub open spec fn candidates() -> Seq<Codepage> {
    seq![
        Codepage::SHIFT_JIS,
        Codepage::GB2312,
        Codepage::BIG5,
        Codepage::UTF_8,
        Codepage::Other(0),
    ]
}

/// The codepages to try, in the order in which they are tried.
pub fn codepage_candidates() -> (v: Vec<Codepage>)
    ensures
        v@ == candidates(),
{
    let mut v: Vec<Codepage> = Vec::new();
    v.push(Codepage::SHIFT_JIS);
    v.push(Codepage::GB2312);
    v.push(Codepage::BIG5);
    v.push(Codepage::UTF_8);
    v.push(Codepage::Other(0));
    v
}

} // verus!
