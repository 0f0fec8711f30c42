//! What can go wrong when the archive tool is run or its output is read.

use vstd::prelude::*;
use crate::text::{chars_of, push_all, string_of};

verus! {

/// The message of an error of the operating system.
#[derive(Debug, Clone)]
pub struct IoError(pub String);

/// Why an archive could not be listed or extracted.
#[derive(Debug, Clone)]
pub enum SevenzError {
    /// The archive tool was not found.
    NotFound7z,
    /// The path given is not that of a regular file.
    UnsupportedFile(String),
    /// The archive at this path wants a password, or another one.
    NeedPassword(String),
    /// The archive tool failed, with this message.
    CommandError(String),
    /// The archive tool could not be run.
    CommandIoError(IoError),
    /// A name in the listing was decoded with the wrong codepage.
    InvalidUtf8(String),
}

/// An error as the contracts see it.
pub enum ErrorView {
    NotFound7z,
    UnsupportedFile(Seq<char>),
    NeedPassword(Seq<char>),
    CommandError(Seq<char>),
    CommandIoError(Seq<char>),
    InvalidUtf8(Seq<char>),
}

impl View for SevenzError {
    type V = ErrorView;

    open spec fn view(&self) -> ErrorView {
        match *self {
            SevenzError::NotFound7z => ErrorView::NotFound7z,
            SevenzError::UnsupportedFile(p) => ErrorView::UnsupportedFile(p@),
            SevenzError::NeedPassword(p) => ErrorView::NeedPassword(p@),
            SevenzError::CommandError(m) => ErrorView::CommandError(m@),
            SevenzError::CommandIoError(e) => ErrorView::CommandIoError(e.0@),
            SevenzError::InvalidUtf8(s) => ErrorView::InvalidUtf8(s@),
        }
    }
}

impl ErrorView {
    /// The error in words.
    pub open spec fn message(self) -> Seq<char> {
        match self {
            ErrorView::NotFound7z => "7-Zip 未安装"@,
            ErrorView::UnsupportedFile(p) => "不支持的文件: "@ + p,
            ErrorView::NeedPassword(p) => "需要密码输入: \""@ + p + "\""@,
            ErrorView::CommandError(m) => "执行 7z 命令时出错: "@ + m,
            ErrorView::CommandIoError(m) => "执行 7z 命令时出错: "@ + m,
            ErrorView::InvalidUtf8(s) => "无效的 UTF-8 字符串: "@ + s,
        }
    }
}

fn joined(head: &str, body: &str, tail: &str) -> (r: String)
    ensures
        r@ == head@ + body@ + tail@,
{
    let mut v = chars_of(head);
    let b = chars_of(body);
    push_all(&mut v, &b);
    let t = chars_of(tail);
    push_all(&mut v, &t);
    string_of(v.as_slice())
}

impl SevenzError {
    /// The error in words.
    pub fn to_string(&self) -> (r: String)
        ensures
            r@ == self@.message(),
    {
        proof {
            reveal_strlit("");
        }
        match self {
            SevenzError::NotFound7z => {
                let r = joined("7-Zip 未安装", "", "");
                assert(r@ == "7-Zip 未安装"@);
                r
            },
            SevenzError::UnsupportedFile(p) => {
                let r = joined("不支持的文件: ", p.as_str(), "");
                assert(r@ == "不支持的文件: "@ + p@);
                r
            },
            SevenzError::NeedPassword(p) => joined("需要密码输入: \"", p.as_str(), "\""),
            SevenzError::CommandError(m) => {
                let r = joined("执行 7z 命令时出错: ", m.as_str(), "");
                assert(r@ == "执行 7z 命令时出错: "@ + m@);
                r
            },
            SevenzError::CommandIoError(e) => {
                let r = joined("执行 7z 命令时出错: ", e.0.as_str(), "");
                assert(r@ == "执行 7z 命令时出错: "@ + e.0@);
                r
            },
            SevenzError::InvalidUtf8(s) => {
                let r = joined("无效的 UTF-8 字符串: ", s.as_str(), "");
                assert(r@ == "无效的 UTF-8 字符串: "@ + s@);
                r
            },
        }
    }
}

} // verus!
