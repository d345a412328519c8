use vstd::prelude::*;

use crate::note::{notes_sorted, Note, NoteView};
use crate::text::{replace_char, replace_char_in, text_lt};

verus! {

/// The separator between the segments of a project name.
pub const PROJECT_SEPARATOR: char = '.';

/// The separator between the directory levels of a relative path.
pub const PATH_SEPARATOR: char = '/';

/// A hierarchical project name such as `work.lab.notes`.
#[derive(Debug, Clone, PartialEq, Eq, PartialOrd, Ord, Hash, Default)]
pub struct ProjectName {
    name: String,
}

impl View for ProjectName {
    type V = Seq<char>;

    closed spec fn view(&self) -> Seq<char> {
        self.name@
    }
}

impl ProjectName {
    /// The project with the given dotted name.
    pub fn new(name: &str) -> (r: ProjectName)
        ensures
            r@ == name@,
    {
        ProjectName { name: name.to_owned() }
    }

    /// The dotted name.
    pub fn as_str(&self) -> (r: &str)
        ensures
            r@ == self@,
    {
        self.name.as_str()
    }

    /// The dotted name, as an owned text.
    pub fn to_string(&self) -> (r: String)
        ensures
            r@ == self@,
    {
        self.name.clone()
    }

    /// A copy of the name.
    pub fn duplicate(&self) -> (r: ProjectName)
        ensures
            r@ == self@,
    {
        ProjectName { name: self.name.clone() }
    }

    /// Whether the two names are the same text.
    pub fn same_as(&self, other: &ProjectName) -> (r: bool)
        ensures
            r == (self@ == other@),
    {
        self.name == other.name
    }

    /// The relative path of the project: one directory level per segment.
    pub fn normalize_path(&self) -> (r: String)
        ensures
            r@ == replace_char(self@, PROJECT_SEPARATOR, PATH_SEPARATOR),
    {
        replace_char_in(self.name.as_str(), PROJECT_SEPARATOR, PATH_SEPARATOR)
    }
}

impl From<String> for ProjectName {
    fn from(name: String) -> (r: ProjectName)
        ensures
            r@ == name@,
    {
        ProjectName { name }
    }
}

impl vstd::std_specs::convert::FromSpecImpl<String> for ProjectName {
    open spec fn obeys_from_spec() -> bool {
        true
    }

    closed spec fn from_spec(name: String) -> ProjectName {
        ProjectName { name }
    }
}

pub type Notes = Vec<Note>;

/// A named collection of notes, read from the active or the archive location.
#[derive(Debug, Clone, PartialEq, Eq)]
pub struct Project {
    pub name: ProjectName,
    pub archived: bool,
    pub notes: Notes,
}

/// What a project is: its name, where it was read from, and its notes in order.
pub ghost struct ProjectView {
    pub name: Seq<char>,
    pub archived: bool,
    pub notes: Seq<NoteView>,
}

/// The views of notes, in order.
pub open spec fn note_views(s: Seq<Note>) -> Seq<NoteView> {
    s.map_values(|n: Note| n@)
}

impl View for Project {
    type V = ProjectView;

    open spec fn view(&self) -> ProjectView {
        ProjectView { name: self.name@, archived: self.archived, notes: note_views(self.notes@) }
    }
}

/// The views of projects, in order.
pub open spec fn project_views(s: Seq<Project>) -> Seq<ProjectView> {
    s.map_values(|p: Project| p@)
}

impl Project {
    /// Its notes are strictly increasing, so each note is held once.
    pub open spec fn wf(&self) -> bool {
        notes_sorted(self.notes@)
    }
}

pub type Projects = Vec<Project>;

/// Projects ordered by name, each name once, each project well formed.
pub open spec fn projects_sorted(s: Seq<Project>) -> bool {
    &&& forall|i: int, j: int|
        0 <= i < j < s.len() ==> text_lt(#[trigger] s[i].name@, #[trigger] s[j].name@)
    &&& forall|i: int| 0 <= i < s.len() ==> (#[trigger] s[i]).wf()
}

} // verus!
