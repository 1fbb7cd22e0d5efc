//! The in-memory project tree model: a project, its chapters, the
//! editor settings, and the error type shared with the interactive
//! surface.

use vstd::prelude::*;

verus! {

/// Editor settings persisted beside the projects.
#[derive(PartialEq, Eq, Clone, Debug)]
pub struct Settings {
    pub theme: String,
    pub interval: u32,
}

impl Default for Settings {
    /// The default theme is "Light" and the default autosave
    /// interval is five minutes, in milliseconds.
    fn default() -> (s: Settings)
        ensures
            s.theme@ == "Light"@,
            s.interval == 300000u32,
    {
        Settings { theme: "Light".to_owned(), interval: 300000 }
    }
}

/// One chapter of a project: a unique display name (which is also the
/// name of its directory under `Chapters/`), the identifiers of its
/// notes, and the file names of its extra attachments.
#[derive(Clone, Debug)]
pub struct Chapter {
    pub name: String,
    pub notes: Vec<String>,
    pub extras: Vec<String>,
}

/// The in-memory representation of one project: its root path, its
/// chapters in user-controlled order, and the index of the chapter
/// currently open for editing, if any.
#[derive(Clone, Debug)]
pub struct Project {
    pub path: String,
    pub chapters: Vec<Chapter>,
    pub active_chapter: Option<usize>,
}

/// The chapter names of a sequence of chapters, as a sequence of
/// character sequences.
pub open spec fn chapter_names(chapters: Seq<Chapter>) -> Seq<Seq<char>> {
    chapters.map_values(|c: Chapter| c.name@)
}

impl Project {
    /// Structural invariant: the active chapter, when present, is a
    /// valid index, and chapter names are unique within the project.
    pub open spec fn wf(self) -> bool {
        &&& match self.active_chapter {
            Some(i) => i < self.chapters@.len(),
            None => true,
        }
        &&& forall|i: int, j: int|
            0 <= i < j < self.chapters@.len() ==> self.chapters@[i].name@ != self.chapters@[j].name@
    }

    /// The names of this project's chapters, in order.
    pub open spec fn names(self) -> Seq<Seq<char>> {
        chapter_names(self.chapters@)
    }
}

/// The error type handed across the command channel to the
/// interactive surface: a numeric code and an optional message.
#[derive(Debug)]
pub struct PaperSmithError {
    code: usize,
    message: Option<String>,
}

impl PaperSmithError {
    /// The numeric code of this error, for specifications.
    pub closed spec fn spec_code(self) -> usize {
        self.code
    }

    /// The optional message of this error, for specifications.
    pub closed spec fn spec_message(self) -> Option<String> {
        self.message
    }

    pub fn new(code: usize, message: String) -> (e: PaperSmithError)
        ensures
            e.spec_code() == code,
            e.spec_message() == Some(message),
    {
        PaperSmithError { code, message: Some(message) }
    }

    pub fn new_only_code(code: usize) -> (e: PaperSmithError)
        ensures
            e.spec_code() == code,
            e.spec_message() matches Option::<String>::None,
    {
        PaperSmithError { code, message: None }
    }

    pub fn code(&self) -> (c: usize)
        ensures
            c == self.spec_code(),
    {
        self.code
    }

    pub fn message(&self) -> (m: Option<&String>)
        ensures
            m matches Some(s) ==> self.spec_message() == Some(*s),
            m matches Option::<&String>::None ==> self.spec_message() matches Option::<
                String,
            >::None,
    {
        self.message.as_ref()
    }

    /// The text shown for this error: a fixed phrase chosen by the
    /// numeric code.
    pub fn display_text(&self) -> (t: &'static str)
        ensures
            self.spec_code() == 404 ==> t@ == "Sorry, Can not find the Page!"@,
            self.spec_code() == 2 ==> t@ == "Not a valid Project"@,
            self.spec_code() != 404 && self.spec_code() != 2 ==> t@
                == "Sorry, something is wrong! Please Try Again!"@,
    {
        if self.code == 404 {
            "Sorry, Can not find the Page!"
        } else if self.code == 2 {
            "Not a valid Project"
        } else {
            "Sorry, something is wrong! Please Try Again!"
        }
    }
}

} // verus!
