//! The entries of a listing and the nodes that the file tree is made of.

use vstd::prelude::*;
use crate::text::{chars_of, string_of};

verus! {

/// A point in time as a listing gives it: nanoseconds since the Unix epoch,
/// and the offset from UTC, in seconds, of the zone it was read in.
#[derive(Debug, Clone, Copy, PartialEq, Eq, Structural)]
pub struct Timestamp {
    pub unix_nanos: i128,
    pub offset_seconds: i32,
}

/// One entry of a listing: its path inside the archive as the tool wrote
/// it, whether it is a directory, and when it was last modified.
#[derive(Debug, Clone)]
pub struct OutputFile {
    pub path: String,
    pub is_dir: bool,
    pub modified: Option<Timestamp>,
}

/// An entry as the contracts see it.
pub struct Record {
    pub path: Seq<char>,
    pub is_dir: bool,
    pub modified: Option<Timestamp>,
}

impl View for OutputFile {
    type V = Record;

    open spec fn view(&self) -> Record {
        Record { path: self.path@, is_dir: self.is_dir, modified: self.modified }
    }
}

/// What a directory or a file of the tree is known by: its name, the name
/// of the node above it, and the time taken from the entry that made it.
#[derive(Debug, Clone)]
pub struct Fs {
    pub name: String,
    pub modified: Option<Timestamp>,
    pub parent: Option<String>,
}

/// A node of the tree: the placeholder at its root, a directory or a file.
#[derive(Debug, Clone)]
pub enum FsNode {
    Empty,
    Dir(Fs),
    File(Fs),
}

/// What a node is.
#[derive(Debug, Clone, Copy, PartialEq, Eq, Structural)]
pub enum NodeKind {
    Root,
    Dir,
    File,
}

/// A node as the contracts see it. The root placeholder goes by the name
/// `\`.
pub struct NodeView {
    pub kind: NodeKind,
    pub name: Seq<char>,
    pub modified: Option<Timestamp>,
    pub parent: Option<Seq<char>>,
}

/// A string, if there is one, as the contracts see it.
pub open spec fn opt_view(s: Option<String>) -> Option<Seq<char>> {
    match s {
        Some(s) => Some(s@),
        None => None,
    }
}

impl View for FsNode {
    type V = NodeView;

    open spec fn view(&self) -> NodeView {
        match *self {
            FsNode::Empty => NodeView {
                kind: NodeKind::Root,
                name: "\\"@,
                modified: None,
                parent: None,
            },
            FsNode::Dir(fs) => NodeView {
                kind: NodeKind::Dir,
                name: fs.name@,
                modified: fs.modified,
                parent: opt_view(fs.parent),
            },
            FsNode::File(fs) => NodeView {
                kind: NodeKind::File,
                name: fs.name@,
                modified: fs.modified,
                parent: opt_view(fs.parent),
            },
        }
    }
}

impl NodeView {
    /// The node as a line of text: a folder or a page sign for a
    /// directory or a file, then the name.
    pub open spec fn label(self) -> Seq<char> {
        match self.kind {
            NodeKind::Dir => "📁 "@ + self.name,
            NodeKind::File => "📄 "@ + self.name,
            NodeKind::Root => self.name,
        }
    }
}

impl FsNode {
    /// The last segment of the node's path; `\` for the root placeholder.
    pub fn name(&self) -> (r: String)
        ensures
            r@ == self@.name,
    {
        match self {
            FsNode::Dir(fs) => fs.name.clone(),
            FsNode::File(fs) => fs.name.clone(),
            FsNode::Empty => "\\".to_string(),
        }
    }

    /// Whether the node is the root placeholder.
    pub fn is_none(&self) -> (r: bool)
        ensures
            r == (self@.kind == NodeKind::Root),
    {
        match self {
            FsNode::Empty => true,
            _ => false,
        }
    }

    /// Whether the node is a directory.
    pub fn is_dir(&self) -> (r: bool)
        ensures
            r == (self@.kind == NodeKind::Dir),
    {
        match self {
            FsNode::Dir(_) => true,
            _ => false,
        }
    }

    /// Whether the node is a file.
    pub fn is_file(&self) -> (r: bool)
        ensures
            r == (self@.kind == NodeKind::File),
    {
        match self {
            FsNode::File(_) => true,
            _ => false,
        }
    }

    /// The node as a line of text.
    pub fn to_string(&self) -> (r: String)
        ensures
            r@ == self@.label(),
    {
        let mut v: Vec<char> = if self.is_dir() {
            chars_of("📁 ")
        } else if self.is_file() {
            chars_of("📄 ")
        } else {
            Vec::new()
        };
        let name = self.name();
        let mut name_chars = chars_of(name.as_str());
        proof {
            assert(Seq::<char>::empty() + self@.name == self@.name);
        }
        v.append(&mut name_chars);
        string_of(v.as_slice())
    }
}

} // verus!
