//! The path validator: decides whether a candidate path may be
//! created, and reports the reason when it may not.

use crate::vfs::Vfs;
use vstd::prelude::*;

verus! {

/// The outcome of validating a candidate path.
#[derive(PartialEq, Eq, Structural, Clone, Copy, Debug)]
pub enum PathCheck {
    /// Nothing is in the way: the path can be created.
    Creatable,
    /// Something already exists at the path.
    AlreadyExists,
    /// The path is blank: it has no components, or only
    /// whitespace-only ones.
    Empty,
    /// The parent of the path does not exist.
    NoParent,
    /// The parent of the path exists but is a file.
    ParentNotDir,
    /// The parent directory may not be written.
    PermissionDenied,
}

/// Whether a character is whitespace: a path made of these alone
/// names nothing.
pub open spec fn is_blank_char(c: char) -> bool {
    c == ' ' || c == '\t' || c == '\n' || c == '\r'
}

/// Whether a name consists of whitespace alone (the empty name
/// included).
pub open spec fn blank_name(s: Seq<char>) -> bool {
    forall|k: int| 0 <= k < s.len() ==> is_blank_char(#[trigger] s[k])
}

/// Whether a path is blank: it has no components, or every component
/// is whitespace-only.
pub open spec fn blank_path(p: Seq<Seq<char>>) -> bool {
    forall|k: int| 0 <= k < p.len() ==> blank_name(#[trigger] p[k])
}

/// The validation outcome for `p`, checked in the order the
/// validator reports them: existence, blankness, the parent, and
/// finally permission to write in the parent.
pub open spec fn path_check_spec(fs: Vfs, p: Seq<Seq<char>>) -> PathCheck {
    if fs.has(p) {
        PathCheck::AlreadyExists
    } else if blank_path(p) {
        PathCheck::Empty
    } else if !(p.len() == 1 || fs.has(p.drop_last())) {
        PathCheck::NoParent
    } else if !fs.parent_ready(p) {
        PathCheck::ParentNotDir
    } else if !fs.parent_writable(p) {
        PathCheck::PermissionDenied
    } else {
        PathCheck::Creatable
    }
}

/// Whether this character is whitespace, executably.
fn is_blank(c: char) -> (r: bool)
    ensures
        r == is_blank_char(c),
{
    c == ' ' || c == '\t' || c == '\n' || c == '\r'
}

/// Whether the path is blank: no components, or whitespace-only
/// ones.
pub fn path_is_blank(p: &Vec<String>) -> (r: bool)
    ensures
        r == blank_path(p.deep_view()),
{
    let n = p.len();
    for i in 0..n
        invariant
            n == p@.len(),
            forall|k: int| 0 <= k < i ==> blank_name(#[trigger] p.deep_view()[k]),
    {
        let s = p[i].as_str();
        let m = s.unicode_len();
        for j in 0..m
            invariant
                i < n == p@.len(),
                m == s@.len(),
                s@ == p.deep_view()[i as int],
                forall|k: int| 0 <= k < j ==> is_blank_char(#[trigger] s@[k]),
        {
            if !is_blank(s.get_char(j)) {
                assert(!blank_name(p.deep_view()[i as int]));
                return false;
            }
        }
        assert(blank_name(p.deep_view()[i as int]));
    }
    true
}

/// Validates a candidate path against the tree.  The result is
/// `Creatable` exactly when the path is not blank and the tree
/// admits a new node there.
pub fn check_path(fs: &Vfs, p: &Vec<String>) -> (r: PathCheck)
    requires
        fs.wf(),
    ensures
        r == path_check_spec(*fs, p.deep_view()),
        (r == PathCheck::Creatable) == (fs.can_create(p.deep_view()) && !blank_path(
            p.deep_view(),
        )),
{
    proof {
        if p.deep_view().len() == 0 {
            assert(blank_path(p.deep_view()));
        }
    }
    if let Some(_) = crate::vfs::lookup(fs, p) {
        return PathCheck::AlreadyExists;
    }
    if path_is_blank(p) {
        return PathCheck::Empty;
    }
    if p.len() == 1 {
        return PathCheck::Creatable;
    }
    let mut parent = crate::vfs::clone_path(p);
    let _ = parent.pop();
    assert(parent.deep_view() =~= p.deep_view().drop_last());
    match crate::vfs::lookup(fs, &parent) {
        None => PathCheck::NoParent,
        Some(i) => {
            proof {
                fs.lemma_entry_at(i as int);
            }
            match &fs.entries[i].node {
                crate::vfs::VfsNode::File { .. } => PathCheck::ParentNotDir,
                crate::vfs::VfsNode::Dir { writable } => {
                    if *writable {
                        PathCheck::Creatable
                    } else {
                        PathCheck::PermissionDenied
                    }
                },
            }
        },
    }
}

/// Validates the path and renders the outcome as the reason string
/// handed to the interactive surface: empty when the path can be
/// created.
pub fn can_create_path(fs: &Vfs, p: &Vec<String>) -> (r: String)
    requires
        fs.wf(),
    ensures
        r@ == check_message_spec(path_check_spec(*fs, p.deep_view())),
        (r@.len() == 0) == (fs.can_create(p.deep_view()) && !blank_path(p.deep_view())),
{
    let c = check_path(fs, p);
    let m = check_message(c);
    proof {
        reveal_strlit("");
        reveal_strlit("Path already exists.");
        reveal_strlit("Path cannot be empty.");
        reveal_strlit("Parent directory does not exist.");
        reveal_strlit("Parent is not a directory.");
        reveal_strlit("Cannot create the file at this path: Permission denied.");
    }
    m.to_owned()
}

/// The reason text for each validation outcome.
pub open spec fn check_message_spec(c: PathCheck) -> Seq<char> {
    match c {
        PathCheck::Creatable => ""@,
        PathCheck::AlreadyExists => "Path already exists."@,
        PathCheck::Empty => "Path cannot be empty."@,
        PathCheck::NoParent => "Parent directory does not exist."@,
        PathCheck::ParentNotDir => "Parent is not a directory."@,
        PathCheck::PermissionDenied => "Cannot create the file at this path: Permission denied."@,
    }
}

/// The reason string for each validation outcome.
pub fn check_message(c: PathCheck) -> (r: &'static str)
    ensures
        r@ == check_message_spec(c),
        (r@.len() == 0) == (c == PathCheck::Creatable),
{
    proof {
        reveal_strlit("");
        reveal_strlit("Path already exists.");
        reveal_strlit("Path cannot be empty.");
        reveal_strlit("Parent directory does not exist.");
        reveal_strlit("Parent is not a directory.");
        reveal_strlit("Cannot create the file at this path: Permission denied.");
    }
    match c {
        PathCheck::Creatable => "",
        PathCheck::AlreadyExists => "Path already exists.",
        PathCheck::Empty => "Path cannot be empty.",
        PathCheck::NoParent => "Parent directory does not exist.",
        PathCheck::ParentNotDir => "Parent is not a directory.",
        PathCheck::PermissionDenied => "Cannot create the file at this path: Permission denied.",
    }
}

} // verus!
