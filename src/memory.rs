use vstd::prelude::*;

use crate::error::ErrorKind;
use crate::note::{insert_note, note_set, notes_sorted, Note, NoteView};
use crate::project::{Project, ProjectName};

verus! {

/// Project names appear at most once.
pub open spec fn unique_names(ps: Seq<Project>) -> bool {
    forall|i: int, j: int|
        0 <= i < ps.len() && 0 <= j < ps.len() && i != j ==> #[trigger] ps[i].name@
            != #[trigger] ps[j].name@
}

/// Whether a project of that name is held.
pub open spec fn holds_project(ps: Seq<Project>, name: Seq<char>) -> bool {
    exists|i: int| 0 <= i < ps.len() && #[trigger] ps[i].name@ == name
}

/// The notes held under a project name (none where there is no such project).
pub open spec fn stored_notes(ps: Seq<Project>, name: Seq<char>) -> Set<NoteView> {
    Set::new(
        |v: NoteView|
            exists|i: int|
                0 <= i < ps.len() && #[trigger] ps[i].name@ == name && note_set(ps[i].notes@).contains(
                    v,
                ),
    )
}

/// A store that keeps its projects in memory, with the same operations as the
/// store on disk: for callers that must not touch the file system.
pub struct MemoryStore {
    active: Vec<Project>,
    archive: Vec<Project>,
}

fn find(ps: &Vec<Project>, name: &ProjectName) -> (r: Option<usize>)
    ensures
        r matches Some(i) ==> i < ps@.len() && ps@[i as int].name@ == name@,
        r is None ==> !holds_project(ps@, name@),
{
    let n = ps.len();
    let mut i: usize = 0;
    while i < n
        invariant
            n == ps@.len(),
            i <= n,
            forall|j: int| 0 <= j < i ==> (#[trigger] ps@[j]).name@ != name@,
        decreases n - i,
    {
        if ps[i].name.same_as(name) {
            return Some(i);
        }
        i = i + 1;
    }
    None
}

proof fn lemma_stored_at(ps: Seq<Project>, i: int)
    requires
        unique_names(ps),
        0 <= i < ps.len(),
    ensures
        stored_notes(ps, ps[i].name@) == note_set(ps[i].notes@),
{
    let name = ps[i].name@;
    assert forall|v: NoteView| #[trigger] stored_notes(ps, name).contains(v) implies note_set(
        ps[i].notes@,
    ).contains(v) by {
        let j = choose|j: int|
            0 <= j < ps.len() && #[trigger] ps[j].name@ == name && note_set(ps[j].notes@).contains(v);
        assert(j == i);
    }
    assert forall|v: NoteView| note_set(ps[i].notes@).contains(v) implies #[trigger] stored_notes(
        ps,
        name,
    ).contains(v) by {
        assert(ps[i].name@ == name);
    }
    assert(stored_notes(ps, name) =~= note_set(ps[i].notes@));
}

proof fn lemma_stored_absent(ps: Seq<Project>, name: Seq<char>)
    requires
        !holds_project(ps, name),
    ensures
        stored_notes(ps, name) == Set::<NoteView>::empty(),
{
    assert forall|v: NoteView| !#[trigger] stored_notes(ps, name).contains(v) by {
        if stored_notes(ps, name).contains(v) {
            let j = choose|j: int|
                0 <= j < ps.len() && #[trigger] ps[j].name@ == name && note_set(ps[j].notes@).contains(
                    v,
                );
            assert(holds_project(ps, name));
        }
    }
    assert(stored_notes(ps, name) =~= Set::<NoteView>::empty());
}

/// Replacing the project at `i` by one of the same name changes only what is
/// stored under that name.
proof fn lemma_stored_replace(ps: Seq<Project>, i: int, p: Project, other: Seq<char>)
    requires
        unique_names(ps),
        0 <= i < ps.len(),
        p.name@ == ps[i].name@,
        other != p.name@,
    ensures
        stored_notes(ps.update(i, p), other) == stored_notes(ps, other),
{
    let qs = ps.update(i, p);
    assert forall|v: NoteView| #[trigger] stored_notes(qs, other).contains(v) == stored_notes(
        ps,
        other,
    ).contains(v) by {
        if stored_notes(qs, other).contains(v) {
            let j = choose|j: int|
                0 <= j < qs.len() && #[trigger] qs[j].name@ == other && note_set(qs[j].notes@).contains(
                    v,
                );
            assert(j != i);
            assert(ps[j].name@ == other);
        }
        if stored_notes(ps, other).contains(v) {
            let j = choose|j: int|
                0 <= j < ps.len() && #[trigger] ps[j].name@ == other && note_set(ps[j].notes@).contains(
                    v,
                );
            assert(j != i);
            assert(qs[j].name@ == other);
        }
    }
    assert(stored_notes(qs, other) =~= stored_notes(ps, other));
}

proof fn lemma_unique_replace(ps: Seq<Project>, i: int, p: Project)
    requires
        unique_names(ps),
        0 <= i < ps.len(),
        p.name@ == ps[i].name@,
    ensures
        unique_names(ps.update(i, p)),
{
    let qs = ps.update(i, p);
    assert forall|a: int, b: int|
        0 <= a < qs.len() && 0 <= b < qs.len() && a != b implies #[trigger] qs[a].name@
        != #[trigger] qs[b].name@ by {
        assert(qs[a].name@ == ps[a].name@);
        assert(qs[b].name@ == ps[b].name@);
    }
}

proof fn lemma_unique_push(ps: Seq<Project>, p: Project)
    requires
        unique_names(ps),
        !holds_project(ps, p.name@),
    ensures
        unique_names(ps.push(p)),
{
    let qs = ps.push(p);
    assert forall|i: int, j: int|
        0 <= i < qs.len() && 0 <= j < qs.len() && i != j implies #[trigger] qs[i].name@
        != #[trigger] qs[j].name@ by {
        if i == ps.len() as int {
            assert(ps[j].name@ != p.name@);
        } else if j == ps.len() as int {
            assert(ps[i].name@ != p.name@);
        }
    }
}

/// Adding a project of a new name changes only what is stored under that name.
proof fn lemma_stored_push(ps: Seq<Project>, p: Project, other: Seq<char>)
    requires
        unique_names(ps),
        !holds_project(ps, p.name@),
        other != p.name@,
    ensures
        stored_notes(ps.push(p), other) == stored_notes(ps, other),
{
    let qs = ps.push(p);
    assert forall|v: NoteView| #[trigger] stored_notes(qs, other).contains(v) == stored_notes(
        ps,
        other,
    ).contains(v) by {
        if stored_notes(qs, other).contains(v) {
            let j = choose|j: int|
                0 <= j < qs.len() && #[trigger] qs[j].name@ == other && note_set(qs[j].notes@).contains(
                    v,
                );
            assert(j != ps.len() as int);
            assert(ps[j].name@ == other);
        }
        if stored_notes(ps, other).contains(v) {
            let j = choose|j: int|
                0 <= j < ps.len() && #[trigger] ps[j].name@ == other && note_set(ps[j].notes@).contains(
                    v,
                );
            assert(qs[j].name@ == other);
        }
    }
    assert(stored_notes(qs, other) =~= stored_notes(ps, other));
}

proof fn lemma_unique_remove(ps: Seq<Project>, i: int)
    requires
        unique_names(ps),
        0 <= i < ps.len(),
    ensures
        unique_names(ps.remove(i)),
{
    let qs = ps.remove(i);
    assert forall|a: int, b: int|
        0 <= a < qs.len() && 0 <= b < qs.len() && a != b implies #[trigger] qs[a].name@
        != #[trigger] qs[b].name@ by {
        let a0 = if a < i { a } else { a + 1 };
        let b0 = if b < i { b } else { b + 1 };
        assert(qs[a] == ps[a0] && qs[b] == ps[b0]);
    }
}

/// Removing the project at `i` changes only what is stored under its name.
proof fn lemma_stored_remove(ps: Seq<Project>, i: int, other: Seq<char>)
    requires
        unique_names(ps),
        0 <= i < ps.len(),
        other != ps[i].name@,
    ensures
        stored_notes(ps.remove(i), other) == stored_notes(ps, other),
{
    let qs = ps.remove(i);
    assert forall|v: NoteView| #[trigger] stored_notes(qs, other).contains(v) == stored_notes(
        ps,
        other,
    ).contains(v) by {
        if stored_notes(qs, other).contains(v) {
            let j = choose|j: int|
                0 <= j < qs.len() && #[trigger] qs[j].name@ == other && note_set(qs[j].notes@).contains(
                    v,
                );
            let j0 = if j < i { j } else { j + 1 };
            assert(qs[j] == ps[j0]);
            assert(ps[j0].name@ == other);
        }
        if stored_notes(ps, other).contains(v) {
            let j = choose|j: int|
                0 <= j < ps.len() && #[trigger] ps[j].name@ == other && note_set(ps[j].notes@).contains(
                    v,
                );
            assert(j != i);
            let j1 = if j < i { j } else { j - 1 };
            assert(qs[j1] == ps[j]);
            assert(qs[j1].name@ == other);
        }
    }
    assert(stored_notes(qs, other) =~= stored_notes(ps, other));
}

fn copy_notes(notes: &Vec<Note>) -> (r: Vec<Note>)
    ensures
        r@.len() == notes@.len(),
        forall|i: int| 0 <= i < r@.len() ==> (#[trigger] r@[i])@ == notes@[i]@,
{
    let mut out: Vec<Note> = Vec::new();
    let n = notes.len();
    let mut i: usize = 0;
    while i < n
        invariant
            n == notes@.len(),
            i <= n,
            out@.len() == i,
            forall|j: int| 0 <= j < i ==> (#[trigger] out@[j])@ == notes@[j]@,
        decreases n - i,
    {
        out.push(notes[i].duplicate());
        i = i + 1;
    }
    out
}

/// A copy of a project, marked as read from the archive or not.
fn copy_project(p: &Project, archived: bool) -> (r: Project)
    requires
        p.wf(),
    ensures
        r.name@ == p.name@,
        r.archived == archived,
        r.wf(),
        note_set(r.notes@) == note_set(p.notes@),
{
    let notes = copy_notes(&p.notes);
    proof {
        assert(note_set(notes@) =~= note_set(p.notes@)) by {
            assert forall|v: NoteView| #[trigger] note_set(notes@).contains(v) implies note_set(
                p.notes@,
            ).contains(v) by {
                let k = choose|k: int| 0 <= k < notes@.len() && notes@[k]@ == v;
                assert(p.notes@[k]@ == v);
            }
            assert forall|v: NoteView| #[trigger] note_set(p.notes@).contains(v) implies note_set(
                notes@,
            ).contains(v) by {
                let k = choose|k: int| 0 <= k < p.notes@.len() && p.notes@[k]@ == v;
                assert(notes@[k]@ == v);
            }
        }
        assert forall|a: int, b: int| 0 <= a < b < notes@.len() implies crate::note::note_lt(
            #[trigger] notes@[a]@,
            #[trigger] notes@[b]@,
        ) by {
            assert(crate::note::note_lt(p.notes@[a]@, p.notes@[b]@));
        }
    }
    Project { name: p.name.duplicate(), archived, notes }
}

impl MemoryStore {
    /// Its projects are well formed and each name is held once, both among
    /// the active and among the archived projects.
    pub closed spec fn wf(&self) -> bool {
        &&& unique_names(self.active@)
        &&& unique_names(self.archive@)
        &&& forall|i: int| 0 <= i < self.active@.len() ==> (#[trigger] self.active@[i]).wf()
        &&& forall|i: int| 0 <= i < self.archive@.len() ==> (#[trigger] self.archive@[i]).wf()
    }

    /// Whether an active project of that name is held.
    pub closed spec fn has_active(&self, name: Seq<char>) -> bool {
        holds_project(self.active@, name)
    }

    /// Whether an archived project of that name is held.
    pub closed spec fn has_archived(&self, name: Seq<char>) -> bool {
        holds_project(self.archive@, name)
    }

    /// The active notes of a project.
    pub closed spec fn active_notes(&self, name: Seq<char>) -> Set<NoteView> {
        stored_notes(self.active@, name)
    }

    /// The archived notes of a project.
    pub closed spec fn archived_notes(&self, name: Seq<char>) -> Set<NoteView> {
        stored_notes(self.archive@, name)
    }

    /// A store without projects.
    pub fn new() -> (r: MemoryStore)
        ensures
            r.wf(),
            forall|n: Seq<char>| !r.has_active(n) && !r.has_archived(n),
            forall|n: Seq<char>| r.active_notes(n) == Set::<NoteView>::empty(),
            forall|n: Seq<char>| r.archived_notes(n) == Set::<NoteView>::empty(),
    {
        let r = MemoryStore { active: Vec::new(), archive: Vec::new() };
        assert forall|n: Seq<char>| r.active_notes(n) == Set::<NoteView>::empty() by {
            lemma_stored_absent(r.active@, n);
        }
        assert forall|n: Seq<char>| r.archived_notes(n) == Set::<NoteView>::empty() by {
            lemma_stored_absent(r.archive@, n);
        }
        r
    }

    /// Adds a note to a project, which is created if needed. A note with
    /// empty text is refused and nothing changes.
    pub fn write_note(&mut self, name: &ProjectName, note: Note) -> (r: Result<(), ErrorKind>)
        requires
            old(self).wf(),
        ensures
            final(self).wf(),
            note.value@.len() == 0 ==> r == Err::<(), ErrorKind>(ErrorKind::NoteHasEmptyValue)
                && *final(self) == *old(self),
            note.value@.len() > 0 ==> {
                &&& r is Ok
                &&& final(self).has_active(name@)
                &&& final(self).active_notes(name@) == old(self).active_notes(name@).insert(note@)
                &&& forall|n: Seq<char>|
                    n != name@ ==> (#[trigger] final(self).active_notes(n) == old(self).active_notes(n)
                        && final(self).has_active(n) == old(self).has_active(n))
                &&& forall|n: Seq<char>|
                    #[trigger] final(self).archived_notes(n) == old(self).archived_notes(n)
                        && final(self).has_archived(n) == old(self).has_archived(n)
            },
    {
        if note.value.as_str().unicode_len() == 0 {
            return Err(ErrorKind::NoteHasEmptyValue);
        }
        let ghost before = self.active@;
        match find(&self.active, name) {
            Some(i) => {
                let mut p = self.active.remove(i);
                assert(p == before[i as int]);
                insert_note(&mut p.notes, note);
                let ghost np = p;
                self.active.insert(i, p);
                assert(self.active@ =~= before.update(i as int, np));
                proof {
                    lemma_stored_at(before, i as int);
                    assert forall|n: Seq<char>| n != name@ implies #[trigger] stored_notes(
                        self.active@,
                        n,
                    ) == stored_notes(before, n) && holds_project(self.active@, n) == holds_project(
                        before,
                        n,
                    ) by {
                        lemma_stored_replace(before, i as int, np, n);
                        if holds_project(before, n) {
                            let j = choose|j: int| 0 <= j < before.len() && #[trigger] before[j].name@ == n;
                            assert(self.active@[j].name@ == n);
                        }
                        if holds_project(self.active@, n) {
                            let j = choose|j: int| 0 <= j < self.active@.len() && #[trigger] self.active@[j].name@ == n;
                            assert(before[j].name@ == n);
                        }
                    }
                    lemma_unique_replace(before, i as int, np);
                    lemma_stored_at(self.active@, i as int);
                    assert(self.active@[i as int].name@ == name@);
                }
            },
            None => {
                let mut notes: Vec<Note> = Vec::new();
                assert(notes_sorted(notes@));
                assert(note_set(notes@) =~= Set::<NoteView>::empty());
                insert_note(&mut notes, note);
                let p = Project { name: name.duplicate(), archived: false, notes };
                let ghost np = p;
                self.active.push(p);
                proof {
                    lemma_stored_absent(before, name@);
                    assert forall|n: Seq<char>| n != name@ implies #[trigger] stored_notes(
                        self.active@,
                        n,
                    ) == stored_notes(before, n) && holds_project(self.active@, n) == holds_project(
                        before,
                        n,
                    ) by {
                        lemma_stored_push(before, np, n);
                        if holds_project(before, n) {
                            let j = choose|j: int| 0 <= j < before.len() && #[trigger] before[j].name@ == n;
                            assert(self.active@[j].name@ == n);
                        }
                        if holds_project(self.active@, n) {
                            let j = choose|j: int| 0 <= j < self.active@.len() && #[trigger] self.active@[j].name@ == n;
                            assert(j != before.len() as int);
                            assert(before[j].name@ == n);
                        }
                    }
                    lemma_unique_push(before, np);
                    lemma_stored_at(self.active@, before.len() as int);
                    assert(self.active@[before.len() as int].name@ == name@);
                }
            },
        }
        Ok(())
    }

    /// The project of that name, with its notes: from the archive if
    /// `archived`, else the active one. A missing project is an error naming it.
    pub fn get_project(&self, name: ProjectName, archived: bool) -> (r: Result<Project, ErrorKind>)
        requires
            self.wf(),
        ensures
            (if archived {
                self.has_archived(name@)
            } else {
                self.has_active(name@)
            }) ==> (r matches Ok(p) && p.name@ == name@ && p.archived == archived && p.wf()
                && note_set(p.notes@) == if archived {
                self.archived_notes(name@)
            } else {
                self.active_notes(name@)
            }),
            !(if archived {
                self.has_archived(name@)
            } else {
                self.has_active(name@)
            }) ==> (r matches Err(e) && e matches ErrorKind::NoProjectWithThisName(s) && s@
                == name@),
    {
        let projects = if archived {
            &self.archive
        } else {
            &self.active
        };
        match find(projects, &name) {
            Some(i) => {
                proof {
                    lemma_stored_at(projects@, i as int);
                }
                Ok(copy_project(&projects[i], archived))
            },
            None => Err(ErrorKind::NoProjectWithThisName(name.to_string())),
        }
    }

    /// The names of the active projects.
    pub fn get_projects_list(&self) -> (r: Vec<ProjectName>)
        requires
            self.wf(),
        ensures
            forall|n: Seq<char>|
                self.has_active(n) <==> exists|i: int| 0 <= i < r@.len() && #[trigger] r@[i]@ == n,
            forall|i: int, j: int|
                0 <= i < r@.len() && 0 <= j < r@.len() && i != j ==> #[trigger] r@[i]@
                    != #[trigger] r@[j]@,
    {
        let mut names: Vec<ProjectName> = Vec::new();
        let n = self.active.len();
        let mut i: usize = 0;
        while i < n
            invariant
                n == self.active@.len(),
                i <= n,
                names@.len() == i,
                forall|j: int| 0 <= j < i ==> (#[trigger] names@[j])@ == self.active@[j].name@,
            decreases n - i,
        {
            names.push(self.active[i].name.duplicate());
            i = i + 1;
        }
        assert forall|m: Seq<char>|
            self.has_active(m) <==> exists|j: int| 0 <= j < names@.len() && #[trigger] names@[j]@ == m by {
            if self.has_active(m) {
                let j = choose|j: int| 0 <= j < self.active@.len() && #[trigger] self.active@[j].name@ == m;
                assert(names@[j]@ == m);
            }
            if exists|j: int| 0 <= j < names@.len() && #[trigger] names@[j]@ == m {
                let j = choose|j: int| 0 <= j < names@.len() && #[trigger] names@[j]@ == m;
                assert(self.active@[j].name@ == m);
            }
        }
        assert forall|a: int, b: int|
            0 <= a < names@.len() && 0 <= b < names@.len() && a != b implies #[trigger] names@[a]@
            != #[trigger] names@[b]@ by {
            assert(self.active@[a].name@ != self.active@[b].name@);
        }
        names
    }

    /// Every active project with its notes.
    pub fn get_projects(&self) -> (r: Vec<Project>)
        requires
            self.wf(),
        ensures
            forall|n: Seq<char>|
                self.has_active(n) <==> exists|i: int| 0 <= i < r@.len() && #[trigger] r@[i].name@ == n,
            unique_names(r@),
            forall|i: int|
                0 <= i < r@.len() ==> {
                    &&& (#[trigger] r@[i]).wf()
                    &&& !r@[i].archived
                    &&& note_set(r@[i].notes@) == self.active_notes(r@[i].name@)
                },
    {
        let mut out: Vec<Project> = Vec::new();
        let n = self.active.len();
        let mut i: usize = 0;
        while i < n
            invariant
                n == self.active@.len(),
                self.wf(),
                i <= n,
                out@.len() == i,
                forall|j: int|
                    0 <= j < i ==> {
                        &&& (#[trigger] out@[j]).name@ == self.active@[j].name@
                        &&& out@[j].wf()
                        &&& !out@[j].archived
                        &&& note_set(out@[j].notes@) == self.active_notes(out@[j].name@)
                    },
            decreases n - i,
        {
            proof {
                lemma_stored_at(self.active@, i as int);
            }
            out.push(copy_project(&self.active[i], false));
            i = i + 1;
        }
        assert forall|m: Seq<char>|
            self.has_active(m) <==> exists|j: int| 0 <= j < out@.len() && #[trigger] out@[j].name@ == m by {
            if self.has_active(m) {
                let j = choose|j: int| 0 <= j < self.active@.len() && #[trigger] self.active@[j].name@ == m;
                assert(out@[j].name@ == m);
            }
            if exists|j: int| 0 <= j < out@.len() && #[trigger] out@[j].name@ == m {
                let j = choose|j: int| 0 <= j < out@.len() && #[trigger] out@[j].name@ == m;
                assert(self.active@[j].name@ == m);
            }
        }
        assert forall|a: int, b: int|
            0 <= a < out@.len() && 0 <= b < out@.len() && a != b implies #[trigger] out@[a].name@
            != #[trigger] out@[b].name@ by {
            assert(self.active@[a].name@ != self.active@[b].name@);
        }
        out
    }

    /// Moves a project's active notes into its archive, merging with the notes
    /// archived before: the archive keeps the union. A project without active
    /// notes is an error naming it, and nothing changes.
    pub fn archive_project(&mut self, name: &ProjectName) -> (r: Result<(), ErrorKind>)
        requires
            old(self).wf(),
        ensures
            final(self).wf(),
            !old(self).has_active(name@) ==> (r matches Err(e) && e matches ErrorKind::NoProjectWithThisName(s)
                && s@ == name@) && *final(self) == *old(self),
            old(self).has_active(name@) ==> r is Ok,
            old(self).has_active(name@) ==> !final(self).has_active(name@),
            old(self).has_active(name@) ==> final(self).active_notes(name@) == Set::<NoteView>::empty(),
            old(self).has_active(name@) ==> final(self).has_archived(name@),
            old(self).has_active(name@) ==> final(self).archived_notes(name@) == old(self).archived_notes(
                name@,
            ).union(old(self).active_notes(name@)),
            forall|n: Seq<char>|
                n != name@ ==> #[trigger] final(self).active_notes(n) == old(self).active_notes(n),
            forall|n: Seq<char>| n != name@ ==> #[trigger] final(self).has_active(n) == old(self).has_active(n),
            forall|n: Seq<char>|
                n != name@ ==> #[trigger] final(self).archived_notes(n) == old(self).archived_notes(n),
            forall|n: Seq<char>|
                n != name@ ==> #[trigger] final(self).has_archived(n) == old(self).has_archived(n),
    {
        let i = match find(&self.active, name) {
            Some(i) => i,
            None => return Err(ErrorKind::NoProjectWithThisName(name.to_string())),
        };
        let ghost active0 = self.active@;
        let ghost archive0 = self.archive@;
        let p = self.active.remove(i);
        proof {
            lemma_stored_at(active0, i as int);
            assert(p == active0[i as int]);
            assert(self.active@ =~= active0.remove(i as int));
            assert forall|n: Seq<char>| n != name@ implies #[trigger] stored_notes(self.active@, n)
                == stored_notes(active0, n) && holds_project(self.active@, n) == holds_project(
                active0,
                n,
            ) by {
                lemma_stored_remove(active0, i as int, n);
                if holds_project(active0, n) {
                    let j = choose|j: int| 0 <= j < active0.len() && #[trigger] active0[j].name@ == n;
                    assert(j != i);
                    let j1 = if j < i { j } else { j - 1 };
                    assert(self.active@[j1] == active0[j]);
                }
                if holds_project(self.active@, n) {
                    let j = choose|j: int| 0 <= j < self.active@.len() && #[trigger] self.active@[j].name@ == n;
                    let j0 = if j < i { j } else { j + 1 };
                    assert(self.active@[j] == active0[j0]);
                }
            }
            lemma_unique_remove(active0, i as int);
            assert(!holds_project(self.active@, name@)) by {
                if holds_project(self.active@, name@) {
                    let j = choose|j: int| 0 <= j < self.active@.len() && #[trigger] self.active@[j].name@ == name@;
                    let j0 = if j < i { j } else { j + 1 };
                    assert(self.active@[j] == active0[j0]);
                    assert(j0 != i);
                }
            }
            lemma_stored_absent(self.active@, name@);
        }
        let ghost moved = note_set(p.notes@);
        match find(&self.archive, name) {
            Some(j) => {
                let mut a = self.archive.remove(j);
                assert(a == archive0[j as int]);
                let ghost start = note_set(a.notes@);
                let n = p.notes.len();
                let mut k: usize = 0;
                while k < n
                    invariant
                        n == p.notes@.len(),
                        k <= n,
                        j < archive0.len(),
                        notes_sorted(a.notes@),
                        a.name@ == name@,
                        a.archived == archive0[j as int].archived,
                        note_set(a.notes@) == start.union(
                            Set::new(|v: NoteView| exists|m: int| 0 <= m < k && #[trigger] p.notes@[m]@ == v),
                        ),
                    decreases n - k,
                {
                    let copy = p.notes[k].duplicate();
                    insert_note(&mut a.notes, copy);
                    assert(note_set(a.notes@) =~= start.union(
                        Set::new(|v: NoteView| exists|m: int| 0 <= m < k + 1 && #[trigger] p.notes@[m]@ == v),
                    ));
                    k = k + 1;
                }
                assert(moved =~= Set::new(|v: NoteView| exists|m: int| 0 <= m < n && #[trigger] p.notes@[m]@ == v));
                let ghost na = a;
                self.archive.insert(j, a);
                proof {
                    lemma_stored_at(archive0, j as int);
                    assert(self.archive@ =~= archive0.update(j as int, na));
                    lemma_unique_replace(archive0, j as int, na);
                    lemma_stored_at(self.archive@, j as int);
                    assert(self.archive@[j as int].name@ == name@);
                    assert forall|m: Seq<char>| m != name@ implies #[trigger] stored_notes(self.archive@, m)
                        == stored_notes(archive0, m) && holds_project(self.archive@, m) == holds_project(
                        archive0,
                        m,
                    ) by {
                        lemma_stored_replace(archive0, j as int, na, m);
                        if holds_project(archive0, m) {
                            let q = choose|q: int| 0 <= q < archive0.len() && #[trigger] archive0[q].name@ == m;
                            assert(self.archive@[q].name@ == m);
                        }
                        if holds_project(self.archive@, m) {
                            let q = choose|q: int| 0 <= q < self.archive@.len() && #[trigger] self.archive@[q].name@ == m;
                            assert(archive0[q].name@ == m);
                        }
                    }
                }
            },
            None => {
                let Project { name: pname, archived: _, notes } = p;
                let q = Project { name: pname, archived: true, notes };
                let ghost nq = q;
                self.archive.push(q);
                proof {
                    lemma_stored_absent(archive0, name@);
                    lemma_unique_push(archive0, nq);
                    lemma_stored_at(self.archive@, archive0.len() as int);
                    assert(self.archive@[archive0.len() as int].name@ == name@);
                    assert(Set::<NoteView>::empty().union(moved) =~= moved);
                    assert forall|m: Seq<char>| m != name@ implies #[trigger] stored_notes(self.archive@, m)
                        == stored_notes(archive0, m) && holds_project(self.archive@, m) == holds_project(
                        archive0,
                        m,
                    ) by {
                        lemma_stored_push(archive0, nq, m);
                        if holds_project(archive0, m) {
                            let q = choose|q: int| 0 <= q < archive0.len() && #[trigger] archive0[q].name@ == m;
                            assert(self.archive@[q].name@ == m);
                        }
                        if holds_project(self.archive@, m) {
                            let q = choose|q: int| 0 <= q < self.archive@.len() && #[trigger] self.archive@[q].name@ == m;
                            assert(q != archive0.len() as int);
                            assert(archive0[q].name@ == m);
                        }
                    }
                }
            },
        }
        proof {
            assert(active0 == old(self).active@);
            assert(archive0 == old(self).archive@);
            assert forall|n: Seq<char>|
                #![trigger self.active_notes(n)]
                #![trigger self.has_active(n)]
                #![trigger self.archived_notes(n)]
                #![trigger self.has_archived(n)]
                n != name@ implies {
                &&& self.active_notes(n) == old(self).active_notes(n)
                &&& self.has_active(n) == old(self).has_active(n)
                &&& self.archived_notes(n) == old(self).archived_notes(n)
                &&& self.has_archived(n) == old(self).has_archived(n)
            } by {
                assert(stored_notes(self.active@, n) == stored_notes(active0, n));
                assert(holds_project(self.active@, n) == holds_project(active0, n));
                assert(stored_notes(self.archive@, n) == stored_notes(archive0, n));
                assert(holds_project(self.archive@, n) == holds_project(archive0, n));
            }
        }
        Ok(())
    }
}

/// The set of notes in a list is finite.
proof fn lemma_note_set_finite(s: Seq<Note>)
    ensures
        note_set(s).finite(),
{
    let views = s.map_values(|n: Note| n@);
    vstd::seq_lib::seq_to_set_is_finite(views);
    assert(note_set(s) =~= views.to_set()) by {
        assert forall|v: NoteView| #[trigger] note_set(s).contains(v) implies views.to_set().contains(v) by {
            let i = choose|i: int| 0 <= i < s.len() && s[i]@ == v;
            assert(views[i] == v);
        }
        assert forall|v: NoteView| #[trigger] views.to_set().contains(v) implies note_set(s).contains(v) by {
            let i = choose|i: int| 0 <= i < views.len() && views[i] == v;
            assert(s[i]@ == v);
        }
    }
}

impl MemoryStore {
    /// A well-formed store holds finitely many notes under each name.
    pub proof fn lemma_finite_notes(&self, name: Seq<char>)
        requires
            self.wf(),
        ensures
            self.active_notes(name).finite(),
            self.archived_notes(name).finite(),
    {
        if holds_project(self.active@, name) {
            let i = choose|i: int| 0 <= i < self.active@.len() && #[trigger] self.active@[i].name@ == name;
            lemma_stored_at(self.active@, i);
            lemma_note_set_finite(self.active@[i].notes@);
        } else {
            lemma_stored_absent(self.active@, name);
        }
        if holds_project(self.archive@, name) {
            let i = choose|i: int| 0 <= i < self.archive@.len() && #[trigger] self.archive@[i].name@ == name;
            lemma_stored_at(self.archive@, i);
            lemma_note_set_finite(self.archive@[i].notes@);
        } else {
            lemma_stored_absent(self.archive@, name);
        }
    }
}

/// Notes written one after another into a project of the in-memory store are
/// read back exactly, each once: a project that held no notes holds, after
/// the writes, the set of the notes written, duplicates collapsed.
pub proof fn law_memory_write_then_read(stores: Seq<MemoryStore>, name: Seq<char>, written: Seq<NoteView>)
    requires
        stores.len() == written.len() + 1,
        stores[0].active_notes(name) == Set::<NoteView>::empty(),
        forall|k: int|
            0 <= k < written.len() ==> #[trigger] stores[k + 1].active_notes(name) == stores[k].active_notes(
                name,
            ).insert(written[k]),
    ensures
        stores.last().active_notes(name) == written.to_set(),
    decreases written.len(),
{
    if written.len() == 0 {
        assert(written.to_set() =~= Set::<NoteView>::empty());
    } else {
        let k = written.len() - 1;
        let fewer = stores.drop_last();
        assert forall|j: int| 0 <= j < written.drop_last().len() implies #[trigger] fewer[j + 1].active_notes(
            name,
        ) == fewer[j].active_notes(name).insert(written.drop_last()[j]) by {
            assert(fewer[j + 1] == stores[j + 1]);
            assert(fewer[j] == stores[j]);
        }
        law_memory_write_then_read(fewer, name, written.drop_last());
        assert(stores[k + 1].active_notes(name) == stores[k].active_notes(name).insert(written[k]));
        assert(fewer.last() == stores[k]);
        assert(written =~= written.drop_last() + seq![written[k]]);
        Seq::lemma_to_set_insert_commutes(written.drop_last(), written[k]);
    }
}

/// Archiving keeps every note in the in-memory store: a project archived with
/// its first notes, then written to again and archived a second time, ends
/// with no active notes and an archive that holds both sets of notes; when the
/// two sets share no note, the archive holds as many notes as both together.
pub proof fn law_memory_archive_twice(
    first_archived: MemoryStore,
    written_again: MemoryStore,
    second_archived: MemoryStore,
    before: MemoryStore,
    name: Seq<char>,
)
    requires
        before.wf(),
        written_again.wf(),
        before.archived_notes(name) == Set::<NoteView>::empty(),
        first_archived.archived_notes(name) == before.archived_notes(name).union(
            before.active_notes(name),
        ),
        written_again.archived_notes(name) == first_archived.archived_notes(name),
        second_archived.archived_notes(name) == written_again.archived_notes(name).union(
            written_again.active_notes(name),
        ),
        second_archived.active_notes(name) == Set::<NoteView>::empty(),
    ensures
        second_archived.archived_notes(name) == before.active_notes(name).union(
            written_again.active_notes(name),
        ),
        second_archived.active_notes(name) == Set::<NoteView>::empty(),
        before.active_notes(name).disjoint(written_again.active_notes(name)) ==> second_archived.archived_notes(
            name,
        ).len() == before.active_notes(name).len() + written_again.active_notes(name).len(),
{
    assert(Set::<NoteView>::empty().union(before.active_notes(name)) =~= before.active_notes(name));
    before.lemma_finite_notes(name);
    written_again.lemma_finite_notes(name);
    if before.active_notes(name).disjoint(written_again.active_notes(name)) {
        vstd::set_lib::lemma_set_disjoint_lens(before.active_notes(name), written_again.active_notes(name));
    }
}

} // verus!
