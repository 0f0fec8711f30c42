//! The command lines that the archive tool is run with, and what its exit
//! and output mean.

use vstd::prelude::*;
use crate::codepage::Codepage;
use crate::error::{ErrorView, SevenzError};
use crate::node::opt_view;
use crate::text::{
    chars_of, contains, contains_sub, lines, parse_bounded, parse_number, push_all, remove_all,
    split_lines, starts_with, string_of, string_views, views, without,
};

verus! {

/// The switch that hands a password to the archive tool.
pub open spec fn password_switch(password: Seq<char>) -> Seq<char> {
    "-p"@ + password
}

/// The switch that names the directory to extract to.
pub open spec fn output_switch(dir: Seq<char>) -> Seq<char> {
    "-o"@ + dir
}

/// What follows the fixed arguments of a command line: the switch for
/// the password where there is one that is not empty, the switch for the
/// codepage where one is given, and last the path of the archive.
pub open spec fn common_arguments(
    password: Option<Seq<char>>,
    codepage: Option<Codepage>,
    archive_path: Seq<char>,
) -> Seq<Seq<char>> {
    (match password {
        Some(p) if p.len() > 0 => seq![password_switch(p)],
        _ => Seq::empty(),
    }) + (match codepage {
        Some(c) => seq![c.switch()],
        None => Seq::empty(),
    }) + seq![archive_path]
}

/// The arguments that list an archive, entry by entry, in UTF-8.
pub open spec fn list_arguments(
    password: Seq<char>,
    codepage: Option<Codepage>,
    archive_path: Seq<char>,
) -> Seq<Seq<char>> {
    seq!["l"@, "-slt"@, "-sccUTF-8"@] + common_arguments(Some(password), codepage, archive_path)
}

/// The arguments that test an archive.
pub open spec fn test_arguments(password: Option<Seq<char>>, archive_path: Seq<char>) -> Seq<
    Seq<char>,
> {
    seq!["t"@, "-sccUTF-8"@] + common_arguments(password, None, archive_path)
}

/// The arguments that extract an archive into a directory, with a new
/// name for what is there already.
pub open spec fn extract_arguments(
    output_dir: Seq<char>,
    password: Option<Seq<char>>,
    codepage: Option<Codepage>,
    archive_path: Seq<char>,
) -> Seq<Seq<char>> {
    seq!["x"@, "-aou"@, "-sccUTF-8"@, output_switch(output_dir)] + common_arguments(
        password,
        codepage,
        archive_path,
    )
}

fn joined(head: &str, tail: &str) -> (r: String)
    ensures
        r@ == head@ + tail@,
{
    let mut v = chars_of(head);
    let t = chars_of(tail);
    push_all(&mut v, &t);
    string_of(v.as_slice())
}

fn push_text(args: &mut Vec<String>, text: String)
    ensures
        string_views(final(args)@) == string_views(old(args)@).push(text@),
{
    proof {
        assert(string_views(args@.push(text)) == string_views(args@).push(text@));
    }
    args.push(text);
}

fn push_common(
    args: &mut Vec<String>,
    password: Option<&str>,
    codepage: Option<Codepage>,
    archive_path: &str,
)
    ensures
        string_views(final(args)@) == string_views(old(args)@) + common_arguments(
            match password {
                Some(p) => Some(p@),
                None => None,
            },
            codepage,
            archive_path@,
        ),
{
    let ghost start = string_views(args@);
    let ghost pw: Seq<Seq<char>> = match password {
        Some(p) if p@.len() > 0 => seq![password_switch(p@)],
        _ => Seq::empty(),
    };
    let ghost cp: Seq<Seq<char>> = match codepage {
        Some(c) => seq![c.switch()],
        None => Seq::empty(),
    };
    match password {
        Some(p) => {
            if p.unicode_len() > 0 {
                push_text(args, joined("-p", p));
            }
        },
        None => {},
    }
    proof {
        assert(string_views(args@) == start + pw);
    }
    match codepage {
        Some(c) => {
            push_text(args, c.to_string());
        },
        None => {},
    }
    proof {
        assert(string_views(args@) == start + pw + cp);
    }
    push_text(args, archive_path.to_string());
    proof {
        assert(string_views(args@) == start + (pw + cp + seq![archive_path@]));
    }
}

fn fixed(first: &str, second: &str) -> (args: Vec<String>)
    ensures
        string_views(args@) == seq![first@, second@],
{
    let mut args: Vec<String> = Vec::new();
    proof {
        assert(string_views(args@) == Seq::<Seq<char>>::empty());
    }
    push_text(&mut args, first.to_string());
    push_text(&mut args, second.to_string());
    args
}

/// The command line that lists an archive.
pub fn list_command(password: &str, codepage: Option<Codepage>, archive_path: &str) -> (args: Vec<
    String,
>)
    ensures
        string_views(args@) == list_arguments(password@, codepage, archive_path@),
{
    let mut args = fixed("l", "-slt");
    push_text(&mut args, "-sccUTF-8".to_string());
    push_common(&mut args, Some(password), codepage, archive_path);
    args
}

/// The command line that tests an archive.
pub fn test_command(password: &Option<String>, archive_path: &str) -> (args: Vec<String>)
    ensures
        string_views(args@) == test_arguments(opt_view(*password), archive_path@),
{
    let mut args = fixed("t", "-sccUTF-8");
    match password {
        Some(p) => push_common(&mut args, Some(p.as_str()), None, archive_path),
        None => push_common(&mut args, None, None, archive_path),
    }
    args
}

/// The command line that extracts an archive.
pub fn extract_command(
    output_dir: &str,
    password: &Option<String>,
    codepage: Option<Codepage>,
    archive_path: &str,
) -> (args: Vec<String>)
    ensures
        string_views(args@) == extract_arguments(
            output_dir@,
            opt_view(*password),
            codepage,
            archive_path@,
        ),
{
    let mut args = fixed("x", "-aou");
    push_text(&mut args, "-sccUTF-8".to_string());
    push_text(&mut args, joined("-o", output_dir));
    match password {
        Some(p) => push_common(&mut args, Some(p.as_str()), codepage, archive_path),
        None => push_common(&mut args, None, codepage, archive_path),
    }
    args
}

/// The tool stopped to ask for a password.
pub open spec fn asks_password(code: Option<i32>, stdout: Seq<char>) -> bool {
    code == Some(255i32) && contains_sub(stdout, "Enter password"@)
}

/// The tool was given the wrong password.
pub open spec fn refuses_password(code: Option<i32>, stderr: Seq<char>) -> bool {
    code == Some(2i32) && contains_sub(stderr, "Wrong password?"@)
}

/// Whether the tool stopped to ask for a password.
pub fn need_password(code: Option<i32>, stdout: &str) -> (r: bool)
    ensures
        r == asks_password(code, stdout@),
{
    match code {
        Some(255) => {
            let text = chars_of(stdout);
            let pat = chars_of("Enter password");
            contains(&text, &pat)
        },
        _ => false,
    }
}

/// Whether the tool was given the wrong password.
pub fn wrong_password(code: Option<i32>, stderr: &str) -> (r: bool)
    ensures
        r == refuses_password(code, stderr@),
{
    match code {
        Some(2) => {
            let text = chars_of(stderr);
            let pat = chars_of("Wrong password?");
            contains(&text, &pat)
        },
        _ => false,
    }
}

/// What a run of the listing command gave: the listing where the tool
/// ended well; that a password is needed where it asked for one or refused
/// the one given; else its complaint.
pub open spec fn list_outcome(
    code: Option<i32>,
    stdout: Seq<char>,
    stderr: Seq<char>,
    archive_path: Seq<char>,
) -> Result<Seq<char>, ErrorView> {
    if code == Some(0i32) {
        Ok(stdout)
    } else if asks_password(code, stdout) || refuses_password(code, stderr) {
        Err(ErrorView::NeedPassword(archive_path))
    } else {
        Err(ErrorView::CommandError(stderr))
    }
}

/// A text or a failure as the contracts see it.
pub open spec fn text_result_view(r: Result<String, SevenzError>) -> Result<Seq<char>, ErrorView> {
    match r {
        Ok(s) => Ok(s@),
        Err(e) => Err(e@),
    }
}

/// Reads the end of a run of the listing command. `code` is the exit code,
/// or `None` where a signal ended the tool.
pub fn list_result(code: Option<i32>, stdout: &str, stderr: &str, archive_path: &str) -> (r:
    Result<String, SevenzError>)
    ensures
        text_result_view(r) == list_outcome(code, stdout@, stderr@, archive_path@),
{
    let ended_well = match code {
        Some(0) => true,
        _ => false,
    };
    if ended_well {
        Ok(stdout.to_string())
    } else if need_password(code, stdout) || wrong_password(code, stderr) {
        Err(SevenzError::NeedPassword(archive_path.to_string()))
    } else {
        Err(SevenzError::CommandError(stderr.to_string()))
    }
}

/// The first of the lines from the `i`-th on that begins with `7-Zip`.
pub open spec fn version_line_from(all: Seq<Seq<char>>, i: int) -> Option<Seq<char>>
    decreases all.len() - i,
{
    if i < 0 || i >= all.len() {
        None
    } else if "7-Zip"@.is_prefix_of(all[i]) {
        Some(all[i])
    } else {
        version_line_from(all, i + 1)
    }
}

/// What a run of the tool with `-h` tells: that it is installed, with the
/// line that holds its version; that it is not found where the run failed;
/// or that no line of its output holds the version.
pub open spec fn version_outcome(code: Option<i32>, stdout: Seq<char>) -> Result<
    Seq<char>,
    ErrorView,
> {
    if code == Some(0i32) {
        match version_line_from(lines(stdout), 0) {
            Some(line) => Ok("7-Zip 已安装: "@ + line),
            None => Err(ErrorView::CommandError("7-Zip 已安装，但版本信息解析失败。"@)),
        }
    } else {
        Err(ErrorView::NotFound7z)
    }
}

/// Reads the end of a run of the tool with `-h`.
pub fn check_7z_version(code: Option<i32>, stdout: &str) -> (r: Result<String, SevenzError>)
    ensures
        text_result_view(r) == version_outcome(code, stdout@),
{
    match code {
        Some(0) => {},
        _ => {
            return Err(SevenzError::NotFound7z);
        },
    }
    let text = chars_of(stdout);
    let all = split_lines(&text);
    let key = chars_of("7-Zip");
    let ghost ls = lines(stdout@);
    let mut i: usize = 0;
    while i < all.len()
        invariant
            i <= all.len(),
            code == Some(0i32),
            ls == lines(stdout@),
            key@ == "7-Zip"@,
            views(all@) == ls,
            version_line_from(ls, 0) == version_line_from(ls, i as int),
        decreases all.len() - i,
    {
        proof {
            assert(views(all@)[i as int] == all@[i as int]@);
        }
        if starts_with(&all[i], &key) {
            let mut v = chars_of("7-Zip 已安装: ");
            push_all(&mut v, &all[i]);
            proof {
                assert(version_line_from(ls, i as int) == Some(ls[i as int]));
                assert(v@ == "7-Zip 已安装: "@ + ls[i as int]);
            }
            return Ok(string_of(v.as_slice()));
        }
        i += 1;
    }
    Err(SevenzError::CommandError("7-Zip 已安装，但版本信息解析失败。".to_string()))
}

/// How many folders and files an archive holds.
#[derive(Debug, Clone, Copy, PartialEq, Eq, Structural)]
pub struct ArchiveCount {
    pub folder: u32,
    pub file: u32,
}

/// The count after one more line of the tool's report is read: a line
/// that begins with `Folders: ` or `Files: ` sets the one or the other
/// number, where what follows is a number.
pub open spec fn count_with_line(c: ArchiveCount, line: Seq<char>) -> ArchiveCount {
    if "Folders: "@.is_prefix_of(line) {
        match parse_number(remove_all(line, "Folders: "@), u32::MAX as nat) {
            Some(n) => ArchiveCount { folder: n as u32, ..c },
            None => c,
        }
    } else if "Files: "@.is_prefix_of(line) {
        match parse_number(remove_all(line, "Files: "@), u32::MAX as nat) {
            Some(n) => ArchiveCount { file: n as u32, ..c },
            None => c,
        }
    } else {
        c
    }
}

/// The count that the lines of a report give, each one read in turn.
pub open spec fn count_of_lines(all: Seq<Seq<char>>) -> ArchiveCount
    decreases all.len(),
{
    if all.len() == 0 {
        ArchiveCount { folder: 0, file: 0 }
    } else {
        count_with_line(count_of_lines(all.drop_last()), all.last())
    }
}

/// What a test of an archive found: the numbers of folders and files in
/// its report where the tool ended well, else nothing.
pub open spec fn test_outcome(code: Option<i32>, stdout: Seq<char>) -> Option<ArchiveCount> {
    if code == Some(0i32) {
        Some(count_of_lines(lines(stdout)))
    } else {
        None
    }
}

fn number_after(line: &Vec<char>, key: &str) -> (r: Option<Option<u32>>)
    ensures
        match r {
            Some(n) => key@.is_prefix_of(line@) && match n {
                Some(n) => parse_number(remove_all(line@, key@), u32::MAX as nat) == Some(
                    n as nat,
                ),
                None => parse_number(remove_all(line@, key@), u32::MAX as nat) is None,
            },
            None => !key@.is_prefix_of(line@),
        },
{
    let k = chars_of(key);
    if !starts_with(line, &k) {
        return None;
    }
    let rest = without(line, &k);
    match parse_bounded(&rest, u32::MAX as u128) {
        Some(n) => Some(Some(n as u32)),
        None => Some(None),
    }
}

/// Reads the end of a test of an archive.
pub fn sevenz_test(code: Option<i32>, stdout: &str) -> (r: Option<ArchiveCount>)
    ensures
        r == test_outcome(code, stdout@),
{
    match code {
        Some(0) => {},
        _ => {
            return None;
        },
    }
    let text = chars_of(stdout);
    let all = split_lines(&text);
    let ghost ls = lines(stdout@);
    let mut count = ArchiveCount { folder: 0, file: 0 };
    let mut i: usize = 0;
    proof {
        assert(ls.take(0) == Seq::<Seq<char>>::empty());
    }
    while i < all.len()
        invariant
            i <= all.len(),
            views(all@) == ls,
            count == count_of_lines(ls.take(i as int)),
        decreases all.len() - i,
    {
        proof {
            assert(views(all@)[i as int] == all@[i as int]@);
            assert(ls.take(i + 1).drop_last() == ls.take(i as int));
            assert(ls.take(i + 1).last() == all@[i as int]@);
        }
        match number_after(&all[i], "Folders: ") {
            Some(n) => {
                match n {
                    Some(n) => {
                        count.folder = n;
                    },
                    None => {},
                }
            },
            None => {
                match number_after(&all[i], "Files: ") {
                    Some(n) => {
                        match n {
                            Some(n) => {
                                count.file = n;
                            },
                            None => {},
                        }
                    },
                    None => {},
                }
            },
        }
        i += 1;
    }
    proof {
        assert(ls.take(ls.len() as int) == ls);
    }
    Some(count)
}

} // verus!
