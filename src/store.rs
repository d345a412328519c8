use vstd::prelude::*;
use vstd::string::*;

use crate::error::ErrorKind;
use crate::note::{insert_note, note_set, Note, NoteView};
use crate::project::{Project, ProjectName, PATH_SEPARATOR, PROJECT_SEPARATOR};
use crate::text::{
    concat_text, insert_text, lemma_text_order, replace_char, replace_char_in, text_lt, text_set, texts_sorted,
};
use crate::timestamp::{rfc3339_text, rfc3339_text_of, rfc3339_value, rfc3339_value_of};

verus! {

/// The extension of a record file, with its dot.
pub open spec fn record_extension() -> Seq<char> {
    seq!['.', 'c', 's', 'v']
}

/// The directory, under the data directory, that mirrors the layout for
/// archived projects.
pub open spec fn archive_dir_name() -> Seq<char> {
    seq!['.', 'a', 'r', 'c', 'h', 'i', 'v', 'e']
}

/// `rel` under the directory `dir`.
pub open spec fn join_path(dir: Seq<char>, rel: Seq<char>) -> Seq<char> {
    dir + seq![PATH_SEPARATOR] + rel
}

/// The path of a project's record file relative to its root: one level per
/// segment, with the record extension.
pub open spec fn relative_record_path(name: Seq<char>) -> Seq<char> {
    replace_char(name, PROJECT_SEPARATOR, PATH_SEPARATOR) + record_extension()
}

/// Where the active notes of a project live.
pub open spec fn active_path(data_dir: Seq<char>, name: Seq<char>) -> Seq<char> {
    join_path(data_dir, relative_record_path(name))
}

/// Where the archived notes of a project live.
pub open spec fn archive_path(data_dir: Seq<char>, name: Seq<char>) -> Seq<char> {
    join_path(join_path(data_dir, archive_dir_name()), relative_record_path(name))
}

/// The part of `path` below `data_dir`, if it lies there.
pub open spec fn relative_to(data_dir: Seq<char>, path: Seq<char>) -> Option<Seq<char>> {
    let prefix = data_dir + seq![PATH_SEPARATOR];
    if prefix.len() <= path.len() && path.subrange(0, prefix.len() as int) == prefix {
        Some(path.subrange(prefix.len() as int, path.len() as int))
    } else if data_dir.len() > 0 && data_dir.last() == PATH_SEPARATOR && data_dir.len()
        <= path.len() && path.subrange(0, data_dir.len() as int) == data_dir {
        Some(path.subrange(data_dir.len() as int, path.len() as int))
    } else {
        None
    }
}

/// The position of the dot that starts the extension of the last path
/// component, if that component has one.
pub open spec fn extension_dot(s: Seq<char>) -> Option<int>
    decreases s.len(),
{
    if s.len() == 0 {
        None
    } else if s.last() == '.' {
        Some(s.len() - 1)
    } else if s.last() == PATH_SEPARATOR {
        None
    } else {
        extension_dot(s.drop_last())
    }
}

/// The path without the extension of its last component.
pub open spec fn strip_extension(s: Seq<char>) -> Seq<char> {
    match extension_dot(s) {
        Some(k) => s.subrange(0, k),
        None => s,
    }
}

/// The project name that a relative record path stands for.
pub open spec fn name_of_relative(rel: Seq<char>) -> Seq<char> {
    replace_char(strip_extension(rel), PATH_SEPARATOR, PROJECT_SEPARATOR)
}

/// The project name that a record file path stands for, if the path lies under
/// the data directory.
pub open spec fn name_of_path(data_dir: Seq<char>, path: Seq<char>) -> Option<Seq<char>> {
    match relative_to(data_dir, path) {
        Some(rel) => Some(name_of_relative(rel)),
        None => None,
    }
}

/// Whether a relative path lies in the archive tree.
pub open spec fn in_archive(rel: Seq<char>) -> bool {
    let prefix = archive_dir_name() + seq![PATH_SEPARATOR];
    prefix.len() <= rel.len() && rel.subrange(0, prefix.len() as int) == prefix
}

/// The position of the last occurrence of `c`, if any.
pub open spec fn last_index(s: Seq<char>, c: char) -> Option<int>
    decreases s.len(),
{
    if s.len() == 0 {
        None
    } else if s.last() == c {
        Some(s.len() - 1)
    } else {
        last_index(s.drop_last(), c)
    }
}

/// The directory that holds a path: everything before its last separator.
pub open spec fn parent_of(path: Seq<char>) -> Seq<char> {
    match last_index(path, PATH_SEPARATOR) {
        Some(k) => path.subrange(0, k),
        None => Seq::empty(),
    }
}

/// The extension we add is the one that is stripped again.
proof fn lemma_extension_of_record_path(t: Seq<char>)
    ensures
        extension_dot(t + record_extension()) == Some(t.len() as int),
{
    let s = t + record_extension();
    let s1 = s.drop_last();
    let s2 = s1.drop_last();
    let s3 = s2.drop_last();
    assert(s.last() == 'v');
    assert(s1.last() == 's');
    assert(s2.last() == 'c');
    assert(s3.last() == '.');
    assert(s3.len() == t.len() + 1);
    assert(extension_dot(s3) == Some(t.len() as int));
    assert(extension_dot(s2) == extension_dot(s3));
    assert(extension_dot(s1) == extension_dot(s2));
    assert(extension_dot(s) == extension_dot(s1));
}

proof fn lemma_replace_back(s: Seq<char>)
    requires
        !s.contains(PATH_SEPARATOR),
    ensures
        replace_char(replace_char(s, PROJECT_SEPARATOR, PATH_SEPARATOR), PATH_SEPARATOR, PROJECT_SEPARATOR)
            == s,
{
    let t = replace_char(replace_char(s, PROJECT_SEPARATOR, PATH_SEPARATOR), PATH_SEPARATOR, PROJECT_SEPARATOR);
    assert forall|i: int| 0 <= i < s.len() implies t[i] == s[i] by {
        assert(s[i] != PATH_SEPARATOR);
    }
    assert(t =~= s);
}

/// A project name whose segments hold no path separator comes back unchanged
/// from the path of its record file, whatever the number of segments (none
/// included) and whatever the data directory.
pub proof fn law_name_path_round_trip(data_dir: Seq<char>, name: Seq<char>)
    requires
        !name.contains(PATH_SEPARATOR),
    ensures
        name_of_path(data_dir, active_path(data_dir, name)) == Some(name),
{
    let t = replace_char(name, PROJECT_SEPARATOR, PATH_SEPARATOR);
    let rel = relative_record_path(name);
    let path = active_path(data_dir, name);
    let prefix = data_dir + seq![PATH_SEPARATOR];
    assert(path =~= prefix + rel);
    assert(path.subrange(0, prefix.len() as int) =~= prefix);
    assert(path.subrange(prefix.len() as int, path.len() as int) =~= rel);
    lemma_extension_of_record_path(t);
    assert(strip_extension(rel) =~= t);
    lemma_replace_back(name);
}

/// Whether a csv field must be quoted: it holds the delimiter, the quote or a
/// line break.
pub open spec fn csv_needs_quotes(f: Seq<char>) -> bool {
    exists|i: int|
        0 <= i < f.len() && (f[i] == ',' || f[i] == '"' || f[i] == '\r' || f[i] == '\n')
}

/// A field's text with each quote doubled.
pub open spec fn csv_double_quotes(f: Seq<char>) -> Seq<char>
    decreases f.len(),
{
    if f.len() == 0 {
        Seq::empty()
    } else {
        (if f[0] == '"' {
            seq!['"', '"']
        } else {
            seq![f[0]]
        }) + csv_double_quotes(f.drop_first())
    }
}

/// A field as written to a record: quoted, with quotes doubled, where needed.
pub open spec fn csv_field(f: Seq<char>) -> Seq<char> {
    if csv_needs_quotes(f) {
        seq!['"'] + csv_double_quotes(f) + seq!['"']
    } else {
        f
    }
}

/// A record of two fields, as one line.
pub open spec fn csv_line(a: Seq<char>, b: Seq<char>) -> Seq<char> {
    csv_field(a) + seq![','] + csv_field(b) + seq!['\n']
}

/// The records, each a sequence of fields, that csv reads from a text without
/// a header row; `None` where it reports an error.
pub uninterp spec fn csv_rows_of(text: Seq<char>) -> Option<Seq<Seq<Seq<char>>>>;

#[verifier::external_type_specification]
#[verifier::external_body]
pub struct ExCsvError(csv::Error);

/// Relies on csv's `Writer::from_writer`, `Writer::write_record` and
/// `Writer::into_inner` with the default settings: `,` between fields,
/// `\n` after the record, a field quoted only when it holds `,`, `"`, `\r` or
/// `\n`, and quotes doubled inside a quoted field. Writing into a `Vec` cannot
/// fail, and two UTF-8 fields with ASCII punctuation stay UTF-8, so a line is
/// always produced.
#[verifier::external_body]
fn csv_record(a: &str, b: &str) -> (r: Option<String>)
    ensures
        r is Some,
        r matches Some(s) ==> s@ == csv_line(a@, b@),
{
    let mut w = csv::Writer::from_writer(Vec::new());
    w.write_record([a, b]).ok()?;
    String::from_utf8(w.into_inner().ok()?).ok()
}

/// Relies on csv's `ReaderBuilder::new().has_headers(false)` and
/// `Reader::records`: every record of the text, each as its fields.
#[verifier::external_body]
fn csv_rows(text: &str) -> (r: Result<Vec<Vec<String>>, csv::Error>)
    ensures
        r matches Ok(rows) ==> csv_rows_of(text@) == Some(rows.deep_view()),
        r is Err ==> csv_rows_of(text@) is None,
{
    let mut reader = csv::ReaderBuilder::new().has_headers(false).from_reader(text.as_bytes());
    let mut rows = Vec::new();
    for record in reader.records() {
        rows.push(record?.iter().map(String::from).collect());
    }
    Ok(rows)
}

/// The note that a record stands for: an RFC 3339 timestamp and a text.
pub open spec fn note_of_row(row: Seq<Seq<char>>) -> Option<NoteView> {
    if row.len() == 2 {
        match rfc3339_value_of(row[0]) {
            Some(t) => Some(NoteView { time_stamp: t, value: row[1] }),
            None => None,
        }
    } else {
        None
    }
}

/// Every record stands for a note.
pub open spec fn rows_are_notes(rows: Seq<Seq<Seq<char>>>) -> bool {
    forall|i: int| 0 <= i < rows.len() ==> (#[trigger] note_of_row(rows[i])) is Some
}

/// The notes that the records stand for.
pub open spec fn notes_of_rows(rows: Seq<Seq<Seq<char>>>) -> Set<NoteView> {
    Set::new(|v: NoteView| exists|i: int| 0 <= i < rows.len() && note_of_row(rows[i]) == Some(v))
}

/// The record line of a note: its RFC 3339 timestamp and its text.
pub open spec fn note_line(note: NoteView) -> Option<Seq<char>> {
    match rfc3339_text_of(note.time_stamp) {
        Some(t) => Some(csv_line(t, note.value)),
        None => None,
    }
}

/// Reads one record into a note.
fn note_from_row(row: &Vec<String>) -> (r: Option<Note>)
    ensures
        match note_of_row(row.deep_view()) {
            Some(v) => r matches Some(n) && n@ == v,
            None => r is None,
        },
{
    if row.len() != 2 {
        return None;
    }
    assert(row.deep_view()[0] == row@[0]@);
    assert(row.deep_view()[1] == row@[1]@);
    match rfc3339_value(row[0].as_str()) {
        Some(t) => Some(Note { time_stamp: t, value: row[1].clone() }),
        None => None,
    }
}

/// The project held by a record file's content: `None` stands for a missing
/// file, which is an error naming the project; content that csv cannot read,
/// or a record that is not a timestamp and a text, is a malformed record.
/// Otherwise the project holds the notes of all records, each once.
pub fn project_from_content(name: ProjectName, archived: bool, content: Option<&str>) -> (r: Result<
    Project,
    ErrorKind,
>)
    ensures
        content is None ==> (r matches Err(e) && e matches ErrorKind::NoProjectWithThisName(s)
            && s@ == name@),
        content matches Some(text) ==> match csv_rows_of(text@) {
            None => r == Err::<Project, ErrorKind>(ErrorKind::RecordMalformed),
            Some(rows) => if rows_are_notes(rows) {
                (r matches Ok(p) && p.name@ == name@ && p.archived == archived && p.wf()
                    && note_set(p.notes@) == notes_of_rows(rows))
            } else {
                r == Err::<Project, ErrorKind>(ErrorKind::RecordMalformed)
            },
        },
{
    let text = match content {
        Some(t) => t,
        None => return Err(ErrorKind::NoProjectWithThisName(name.to_string())),
    };
    let rows = match csv_rows(text) {
        Ok(rows) => rows,
        Err(_) => return Err(ErrorKind::RecordMalformed),
    };
    let ghost rv = rows.deep_view();
    let mut notes: Vec<Note> = Vec::new();
    let n = rows.len();
    let mut i: usize = 0;
    assert(note_set(notes@) =~= Set::empty());
    while i < n
        invariant
            n == rows@.len(),
            rv == rows.deep_view(),
            content == Some(text),
            csv_rows_of(text@) == Some(rv),
            i <= n,
            crate::note::notes_sorted(notes@),
            forall|j: int| 0 <= j < i ==> (#[trigger] note_of_row(rv[j])) is Some,
            note_set(notes@) == Set::new(
                |v: NoteView| exists|j: int| 0 <= j < i && note_of_row(rv[j]) == Some(v),
            ),
        decreases n - i,
    {
        assert(rv[i as int] == rows@[i as int].deep_view());
        match note_from_row(&rows[i]) {
            Some(note) => {
                let ghost old_notes = notes@;
                let ghost v = note@;
                insert_note(&mut notes, note);
                assert(note_set(notes@) =~= Set::new(
                    |w: NoteView| exists|j: int| 0 <= j < i + 1 && note_of_row(rv[j]) == Some(w),
                )) by {
                    assert forall|w: NoteView|
                        #[trigger] note_set(notes@).contains(w) implies exists|j: int|
                        0 <= j < i + 1 && note_of_row(rv[j]) == Some(w) by {
                        if w == v {
                            assert(note_of_row(rv[i as int]) == Some(w));
                        }
                    }
                }
            },
            None => {
                assert(!rows_are_notes(rv));
                return Err(ErrorKind::RecordMalformed);
            },
        }
        i = i + 1;
    }
    assert(note_set(notes@) =~= notes_of_rows(rv));
    Ok(Project { name, archived, notes })
}

/// Project names in strictly increasing order: each name once.
pub open spec fn names_sorted(s: Seq<ProjectName>) -> bool {
    forall|i: int, j: int| 0 <= i < j < s.len() ==> text_lt(#[trigger] s[i]@, #[trigger] s[j]@)
}

/// The names held, as a set.
pub open spec fn name_set(s: Seq<ProjectName>) -> Set<Seq<char>> {
    Set::new(|v: Seq<char>| exists|i: int| 0 <= i < s.len() && s[i]@ == v)
}

/// Every path lies under the data directory.
pub open spec fn paths_in_store(data_dir: Seq<char>, paths: Seq<Seq<char>>) -> bool {
    forall|i: int| 0 <= i < paths.len() ==> (#[trigger] relative_to(data_dir, paths[i])) is Some
}

/// Whether the file at `path` is the active record file of the project `n`.
pub open spec fn lists_name(data_dir: Seq<char>, path: Seq<char>, n: Seq<char>) -> bool {
    match relative_to(data_dir, path) {
        Some(rel) => !in_archive(rel) && name_of_relative(rel) == n,
        None => false,
    }
}

/// The names of the active projects whose record files are among the paths:
/// every path outside the archive tree, mapped to its name.
pub open spec fn listed_names(data_dir: Seq<char>, paths: Seq<Seq<char>>) -> Set<Seq<char>> {
    Set::new(
        |n: Seq<char>|
            exists|i: int|
                0 <= i < paths.len() && #[trigger] lists_name(data_dir, paths[i], n),
    )
}

/// The dotted names, in order.
pub open spec fn name_texts(s: Seq<ProjectName>) -> Seq<Seq<char>> {
    s.map_values(|n: ProjectName| n@)
}

proof fn lemma_sorted_texts_unique(u: Seq<Seq<char>>, v: Seq<Seq<char>>)
    requires
        forall|i: int, j: int| 0 <= i < j < u.len() ==> text_lt(#[trigger] u[i], #[trigger] u[j]),
        forall|i: int, j: int| 0 <= i < j < v.len() ==> text_lt(#[trigger] v[i], #[trigger] v[j]),
        u.to_set() == v.to_set(),
    ensures
        u == v,
    decreases u.len(),
{
    if u.len() == 0 {
        if v.len() > 0 {
            assert(v.to_set().contains(v[0]));
        }
        assert(u =~= v);
    } else {
        assert(u.to_set().contains(u[0]));
        assert(v.len() > 0);
        assert(v.to_set().contains(v[0]));
        let ku = choose|k: int| 0 <= k < u.len() && u[k] == v[0];
        let kv = choose|k: int| 0 <= k < v.len() && v[k] == u[0];
        lemma_text_order(u[0], v[0], u[0]);
        if ku > 0 {
            assert(text_lt(u[0], u[ku]));
        }
        if kv > 0 {
            assert(text_lt(v[0], v[kv]));
        }
        assert(u[0] == v[0]);
        let u1 = u.drop_first();
        let v1 = v.drop_first();
        assert forall|x: Seq<char>| u1.to_set().contains(x) == v1.to_set().contains(x) by {
            if u1.to_set().contains(x) {
                let k = choose|k: int| 0 <= k < u1.len() && u1[k] == x;
                assert(u.to_set().contains(x) && u[k + 1] == x);
                assert(v.to_set().contains(x));
                let m = choose|m: int| 0 <= m < v.len() && v[m] == x;
                lemma_text_order(u[0], x, x);
                assert(text_lt(u[0], u[k + 1]));
                assert(m != 0);
                assert(v1[m - 1] == x);
            }
            if v1.to_set().contains(x) {
                let k = choose|k: int| 0 <= k < v1.len() && v1[k] == x;
                assert(v.to_set().contains(x) && v[k + 1] == x);
                assert(u.to_set().contains(x));
                let m = choose|m: int| 0 <= m < u.len() && u[m] == x;
                lemma_text_order(v[0], x, x);
                assert(text_lt(v[0], v[k + 1]));
                assert(m != 0);
                assert(u1[m - 1] == x);
            }
        }
        assert(u1.to_set() =~= v1.to_set());
        lemma_sorted_texts_unique(u1, v1);
        assert(u =~= seq![u[0]] + u1);
        assert(v =~= seq![v[0]] + v1);
    }
}

/// Listing does not depend on the order in which the file tree is walked: two
/// walks that find the same paths, in any order and any number of times, list
/// the same names, each once and in the same order.
pub proof fn law_listing_order_independent(
    data_dir: Seq<char>,
    walk_a: Seq<Seq<char>>,
    walk_b: Seq<Seq<char>>,
    listed_a: Seq<ProjectName>,
    listed_b: Seq<ProjectName>,
)
    requires
        walk_a.to_set() == walk_b.to_set(),
        names_sorted(listed_a),
        names_sorted(listed_b),
        name_set(listed_a) == listed_names(data_dir, walk_a),
        name_set(listed_b) == listed_names(data_dir, walk_b),
    ensures
        name_texts(listed_a) == name_texts(listed_b),
{
    assert forall|n: Seq<char>|
        listed_names(data_dir, walk_a).contains(n) == listed_names(data_dir, walk_b).contains(n) by {
        if listed_names(data_dir, walk_a).contains(n) {
            let i = choose|i: int|
                0 <= i < walk_a.len() && #[trigger] lists_name(data_dir, walk_a[i], n);
            assert(walk_a.to_set().contains(walk_a[i]));
            let j = choose|j: int| 0 <= j < walk_b.len() && walk_b[j] == walk_a[i];
            assert(relative_to(data_dir, walk_b[j]) == relative_to(data_dir, walk_a[i]));
        }
        if listed_names(data_dir, walk_b).contains(n) {
            let i = choose|i: int|
                0 <= i < walk_b.len() && #[trigger] lists_name(data_dir, walk_b[i], n);
            assert(walk_b.to_set().contains(walk_b[i]));
            let j = choose|j: int| 0 <= j < walk_a.len() && walk_a[j] == walk_b[i];
            assert(relative_to(data_dir, walk_a[j]) == relative_to(data_dir, walk_b[i]));
        }
    }
    let u = name_texts(listed_a);
    let v = name_texts(listed_b);
    assert forall|x: Seq<char>| u.to_set().contains(x) == v.to_set().contains(x) by {
        if u.to_set().contains(x) {
            let k = choose|k: int| 0 <= k < u.len() && u[k] == x;
            assert(name_set(listed_a).contains(x));
            assert(name_set(listed_b).contains(x));
            let m = choose|m: int| 0 <= m < listed_b.len() && listed_b[m]@ == x;
            assert(v[m] == x);
        }
        if v.to_set().contains(x) {
            let k = choose|k: int| 0 <= k < v.len() && v[k] == x;
            assert(name_set(listed_b).contains(x));
            assert(name_set(listed_a).contains(x));
            let m = choose|m: int| 0 <= m < listed_a.len() && listed_a[m]@ == x;
            assert(u[m] == x);
        }
    }
    assert(u.to_set() =~= v.to_set());
    assert forall|i: int, j: int| 0 <= i < j < u.len() implies text_lt(#[trigger] u[i], #[trigger] u[j]) by {
        assert(text_lt(listed_a[i]@, listed_a[j]@));
    }
    assert forall|i: int, j: int| 0 <= i < j < v.len() implies text_lt(#[trigger] v[i], #[trigger] v[j]) by {
        assert(text_lt(listed_b[i]@, listed_b[j]@));
    }
    lemma_sorted_texts_unique(u, v);
}

/// Whether a record file's content reads as a project: the file exists, csv
/// reads it, and every record is a note.
pub open spec fn content_reads(content: Option<Seq<char>>) -> bool {
    match content {
        Some(text) => match csv_rows_of(text) {
            Some(rows) => rows_are_notes(rows),
            None => false,
        },
        None => false,
    }
}

/// The notes that a record file's content holds.
pub open spec fn content_notes(content: Option<Seq<char>>) -> Set<NoteView> {
    match content {
        Some(text) => match csv_rows_of(text) {
            Some(rows) => notes_of_rows(rows),
            None => Set::empty(),
        },
        None => Set::empty(),
    }
}

pub open spec fn file_view(file: (ProjectName, Option<String>)) -> (Seq<char>, Option<Seq<char>>) {
    (
        file.0@,
        match file.1 {
            Some(t) => Some(t@),
            None => None,
        },
    )
}

/// The active projects, from each listed name with the content of its active
/// file (`None` where the file is missing), in the order given. The first
/// project that cannot be read makes the whole call fail with its error; no
/// partial result is returned.
pub fn projects_from_contents(files: Vec<(ProjectName, Option<String>)>) -> (r: Result<
    Vec<Project>,
    ErrorKind,
>)
    ensures
        (forall|i: int| 0 <= i < files@.len() ==> content_reads(#[trigger] file_view(files@[i]).1))
            <==> r is Ok,
        r matches Ok(ps) ==> {
            &&& ps@.len() == files@.len()
            &&& forall|i: int|
                0 <= i < ps@.len() ==> {
                    &&& (#[trigger] ps@[i]).name@ == file_view(files@[i]).0
                    &&& !ps@[i].archived
                    &&& ps@[i].wf()
                    &&& note_set(ps@[i].notes@) == content_notes(file_view(files@[i]).1)
                }
        },
        names_sorted(files@.map_values(|f: (ProjectName, Option<String>)| f.0)) ==> (
        r matches Ok(ps) ==> crate::project::projects_sorted(ps@)),
{
    let ghost fv = files@;
    let mut rest = files;
    let mut out: Vec<Project> = Vec::new();
    let n = rest.len();
    let mut k: usize = 0;
    while k < n
        invariant
            n == fv.len(),
            fv == files@,
            k <= n,
            rest@ == fv.subrange(k as int, n as int),
            out@.len() == k,
            forall|i: int| 0 <= i < k ==> content_reads(#[trigger] file_view(fv[i]).1),
            forall|i: int|
                0 <= i < k ==> {
                    &&& (#[trigger] out@[i]).name@ == file_view(fv[i]).0
                    &&& !out@[i].archived
                    &&& out@[i].wf()
                    &&& note_set(out@[i].notes@) == content_notes(file_view(fv[i]).1)
                },
        decreases n - k,
    {
        let (name, content) = rest.remove(0);
        assert(rest@ =~= fv.subrange(k + 1, n as int));
        assert(fv[k as int] == (name, content));
        let text = match &content {
            Some(t) => Some(t.as_str()),
            None => None,
        };
        match project_from_content(name, false, text) {
            Ok(p) => {
                out.push(p);
            },
            Err(e) => {
                assert(!content_reads(file_view(fv[k as int]).1));
                return Err(e);
            },
        }
        k = k + 1;
    }
    proof {
        let names = fv.map_values(|f: (ProjectName, Option<String>)| f.0);
        if names_sorted(names) {
            assert forall|i: int, j: int| 0 <= i < j < out@.len() implies text_lt(
                #[trigger] out@[i].name@,
                #[trigger] out@[j].name@,
            ) by {
                assert(names[i] == fv[i].0);
                assert(names[j] == fv[j].0);
            }
        }
    }
    Ok(out)
}

/// What writing a note takes: the directory to create, the file to append to,
/// and the record line to append.
pub struct NoteWrite {
    pub directory: String,
    pub path: String,
    pub record: String,
}

/// What archiving a project takes.
pub enum ArchiveAction {
    /// No archive file yet: create `directory` and move the file `from` to `to`.
    Move { directory: String, from: String, to: String },
    /// An archive file exists: append the bytes of `from` to `to`, then remove `from`.
    Append { from: String, to: String },
}

/// `rel` under the directory `dir`.
fn join(dir: &str, rel: &str) -> (r: String)
    ensures
        r@ == join_path(dir@, rel@),
{
    let mut t = dir.to_owned();
    t.append("/");
    t.append(rel);
    proof {
        reveal_strlit("/");
    }
    assert(t@ =~= join_path(dir@, rel@));
    t
}

/// The rest of `s` after `prefix`, if `s` starts with it.
fn after_prefix(s: &str, prefix: &str) -> (r: Option<String>)
    ensures
        r matches Some(t) ==> prefix@.len() <= s@.len() && s@.subrange(0, prefix@.len() as int)
            == prefix@ && t@ == s@.subrange(prefix@.len() as int, s@.len() as int),
        r is None ==> !(prefix@.len() <= s@.len() && s@.subrange(0, prefix@.len() as int)
            == prefix@),
{
    let n = s.unicode_len();
    let k = prefix.unicode_len();
    if k > n {
        return None;
    }
    let head = s.substring_char(0, k).to_owned();
    if head == prefix.to_owned() {
        Some(s.substring_char(k, n).to_owned())
    } else {
        None
    }
}

/// The path without the extension of its last component.
fn strip_extension_of(s: &str) -> (r: String)
    ensures
        r@ == strip_extension(s@),
{
    let n = s.unicode_len();
    let mut i: usize = n;
    assert(s@.subrange(0, n as int) =~= s@);
    while i > 0
        invariant
            n == s@.len(),
            i <= n,
            extension_dot(s@) == extension_dot(s@.subrange(0, i as int)),
        decreases i,
    {
        let c = s.get_char(i - 1);
        assert(s@.subrange(0, i as int).last() == c);
        if c == '.' {
            return s.substring_char(0, i - 1).to_owned();
        }
        if c == PATH_SEPARATOR {
            return s.to_owned();
        }
        assert(s@.subrange(0, i as int).drop_last() =~= s@.subrange(0, i - 1));
        i = i - 1;
    }
    s.to_owned()
}

/// Everything before the last path separator.
fn parent_path(s: &str) -> (r: String)
    ensures
        r@ == parent_of(s@),
{
    let n = s.unicode_len();
    let mut i: usize = n;
    assert(s@.subrange(0, n as int) =~= s@);
    while i > 0
        invariant
            n == s@.len(),
            i <= n,
            last_index(s@, PATH_SEPARATOR) == last_index(s@.subrange(0, i as int), PATH_SEPARATOR),
        decreases i,
    {
        let c = s.get_char(i - 1);
        assert(s@.subrange(0, i as int).last() == c);
        if c == PATH_SEPARATOR {
            return s.substring_char(0, i - 1).to_owned();
        }
        assert(s@.subrange(0, i as int).drop_last() =~= s@.subrange(0, i - 1));
        i = i - 1;
    }
    String::new()
}

/// A store of projects as one record file per project under a data directory,
/// with archived projects under `.archive` in the same layout.
pub struct CSVStore {
    pub data_dir: String,
}

impl CSVStore {
    pub fn new(data_dir: String) -> (r: CSVStore)
        ensures
            r.data_dir@ == data_dir@,
    {
        CSVStore { data_dir }
    }

    /// The record file of a project's active notes.
    pub fn project_path(&self, name: &ProjectName) -> (r: String)
        ensures
            r@ == active_path(self.data_dir@, name@),
    {
        let rel = concat_text(name.normalize_path().as_str(), ".csv");
        proof {
            reveal_strlit(".csv");
        }
        assert(rel@ =~= relative_record_path(name@));
        join(self.data_dir.as_str(), rel.as_str())
    }

    /// The record file of a project's archived notes.
    pub fn project_archive_path(&self, name: &ProjectName) -> (r: String)
        ensures
            r@ == archive_path(self.data_dir@, name@),
    {
        let rel = concat_text(name.normalize_path().as_str(), ".csv");
        proof {
            reveal_strlit(".csv");
            reveal_strlit(".archive");
        }
        assert(rel@ =~= relative_record_path(name@));
        let archive = join(self.data_dir.as_str(), ".archive");
        assert(archive@ =~= join_path(self.data_dir@, archive_dir_name()));
        join(archive.as_str(), rel.as_str())
    }

    /// How to store a note: a note with empty text is refused before anything
    /// else; otherwise the note's record line is appended to the project's
    /// active file, whose directory is created first.
    pub fn note_write(&self, name: &ProjectName, note: &Note) -> (r: Result<NoteWrite, ErrorKind>)
        ensures
            note.value@.len() == 0 ==> r == Err::<NoteWrite, ErrorKind>(ErrorKind::NoteHasEmptyValue),
            note.value@.len() > 0 ==> match r {
                Ok(w) => {
                    &&& w.path@ == active_path(self.data_dir@, name@)
                    &&& w.directory@ == parent_of(w.path@)
                    &&& note_line(note@) == Some(w.record@)
                },
                Err(e) => e == ErrorKind::RecordEncoding,
            },
            note.value@.len() > 0 && note_line(note@) is None ==> r == Err::<NoteWrite, ErrorKind>(
                ErrorKind::RecordEncoding,
            ),
            note.value@.len() > 0 && note_line(note@) is Some ==> r is Ok,
            (r == Err::<NoteWrite, ErrorKind>(ErrorKind::NoteHasEmptyValue)) <==> note.value@.len() == 0,
    {
        if note.value.as_str().unicode_len() == 0 {
            return Err(ErrorKind::NoteHasEmptyValue);
        }
        let stamp = match rfc3339_text(note.time_stamp) {
            Some(t) => t,
            None => return Err(ErrorKind::RecordEncoding),
        };
        let record = match csv_record(stamp.as_str(), note.value.as_str()) {
            Some(line) => line,
            None => return Err(ErrorKind::RecordEncoding),
        };
        let path = self.project_path(name);
        let directory = parent_path(path.as_str());
        Ok(NoteWrite { directory, path, record })
    }

    /// How to archive a project. Without an active file there is nothing to
    /// archive, which is an error naming the project. Without an archive file
    /// the active file moves there; otherwise its bytes are appended to the
    /// archive file and it is removed, so the archive keeps every record.
    pub fn archive_plan(&self, name: &ProjectName, active_exists: bool, archive_exists: bool) -> (r:
        Result<ArchiveAction, ErrorKind>)
        ensures
            !active_exists ==> (r matches Err(e) && e matches ErrorKind::NoProjectWithThisName(s)
                && s@ == name@),
            active_exists ==> r is Ok,
            r matches Ok(ArchiveAction::Move { directory, from, to }) ==> {
                &&& !archive_exists
                &&& from@ == active_path(self.data_dir@, name@)
                &&& to@ == archive_path(self.data_dir@, name@)
                &&& directory@ == parent_of(to@)
            },
            r matches Ok(ArchiveAction::Append { from, to }) ==> {
                &&& archive_exists
                &&& from@ == active_path(self.data_dir@, name@)
                &&& to@ == archive_path(self.data_dir@, name@)
            },
    {
        if !active_exists {
            return Err(ErrorKind::NoProjectWithThisName(name.to_string()));
        }
        let from = self.project_path(name);
        let to = self.project_archive_path(name);
        if archive_exists {
            Ok(ArchiveAction::Append { from, to })
        } else {
            let directory = parent_path(to.as_str());
            Ok(ArchiveAction::Move { directory, from, to })
        }
    }

    /// The names of the active projects, from the paths of the regular files
    /// found under the data directory: files in the archive tree are left out,
    /// each name is listed once, in order. A path outside the data directory
    /// is an error.
    pub fn project_names_from_paths(&self, paths: &Vec<String>) -> (r: Result<
        Vec<ProjectName>,
        ErrorKind,
    >)
        ensures
            paths_in_store(self.data_dir@, paths.deep_view()) ==> (r matches Ok(names)
                && names_sorted(names@) && name_set(names@) == listed_names(
                self.data_dir@,
                paths.deep_view(),
            )),
            !paths_in_store(self.data_dir@, paths.deep_view()) ==> (r matches Err(e)
                && e matches ErrorKind::PathOutsideStore(p) && exists|i: int|
                0 <= i < paths@.len() && paths@[i]@ == p@ && relative_to(
                self.data_dir@,
                p@,
            ) is None),
    {
        let ghost pv = paths.deep_view();
        let mut texts: Vec<String> = Vec::new();
        let n = paths.len();
        let mut i: usize = 0;
        assert(text_set(texts@) =~= Set::empty());
        proof {
            reveal_strlit(".archive/");
        }
        while i < n
            invariant
                n == paths@.len(),
                pv == paths.deep_view(),
                i <= n,
                texts_sorted(texts@),
                forall|j: int| 0 <= j < i ==> (#[trigger] relative_to(self.data_dir@, pv[j])) is Some,
                text_set(texts@) == listed_names(self.data_dir@, pv.subrange(0, i as int)),
                ".archive/"@ == archive_dir_name() + seq![PATH_SEPARATOR],
            decreases n - i,
        {
            assert(pv[i as int] == paths@[i as int]@);
            let ghost prev = pv.subrange(0, i as int);
            let ghost next = pv.subrange(0, i + 1);
            assert forall|j: int| 0 <= j < i implies next[j] == prev[j] by {}
            assert(next[i as int] == pv[i as int]);
            match self.relative_path(paths[i].as_str()) {
                None => {
                    return Err(ErrorKind::PathOutsideStore(paths[i].clone()));
                },
                Some(rel) => {
                    if after_prefix(rel.as_str(), ".archive/").is_none() {
                        let stem = strip_extension_of(rel.as_str());
                        let dotted = replace_char_in(
                            stem.as_str(),
                            PATH_SEPARATOR,
                            PROJECT_SEPARATOR,
                        );
                        let ghost name = dotted@;
                        insert_text(&mut texts, dotted);
                        assert(text_set(texts@) =~= listed_names(self.data_dir@, next)) by {
                            assert forall|m: Seq<char>|
                                listed_names(self.data_dir@, next).contains(m) implies #[trigger] text_set(texts@).contains(m) by {
                                let k = choose|k: int|
                                    0 <= k < next.len() && #[trigger] lists_name(self.data_dir@, next[k], m);
                                if k < i {
                                    assert(listed_names(self.data_dir@, prev).contains(m));
                                }
                            }
                            assert forall|m: Seq<char>|
                                #[trigger] text_set(texts@).contains(m) implies listed_names(
                                self.data_dir@,
                                next,
                            ).contains(m) by {
                                if m != name {
                                    assert(listed_names(self.data_dir@, prev).contains(m));
                                    let k = choose|k: int|
                                        0 <= k < prev.len() && #[trigger] lists_name(self.data_dir@, prev[k], m);
                                    assert(next[k] == prev[k]);
                                    assert(lists_name(self.data_dir@, next[k], m));
                                } else {
                                    assert(relative_to(self.data_dir@, next[i as int]) == Some(
                                        rel@,
                                    ));
                                    assert(!in_archive(rel@));
                                    assert(lists_name(self.data_dir@, next[i as int], m));
                                }
                            }
                        }
                    } else {
                        assert(text_set(texts@) =~= listed_names(self.data_dir@, next)) by {
                            assert forall|m: Seq<char>|
                                listed_names(self.data_dir@, next).contains(m) implies #[trigger] listed_names(
                                self.data_dir@,
                                prev,
                            ).contains(m) by {
                                let k = choose|k: int|
                                    0 <= k < next.len() && #[trigger] lists_name(self.data_dir@, next[k], m);
                                assert(k != i);
                                assert(relative_to(self.data_dir@, prev[k]) == relative_to(
                                    self.data_dir@,
                                    next[k],
                                ));
                            }
                            assert forall|m: Seq<char>|
                                #[trigger] listed_names(self.data_dir@, prev).contains(m) implies listed_names(
                                self.data_dir@,
                                next,
                            ).contains(m) by {
                                let k = choose|k: int|
                                    0 <= k < prev.len() && #[trigger] lists_name(self.data_dir@, prev[k], m);
                                assert(relative_to(self.data_dir@, next[k]) == relative_to(
                                    self.data_dir@,
                                    prev[k],
                                ));
                            }
                        }
                    }
                },
            }
            i = i + 1;
        }
        assert(pv.subrange(0, n as int) =~= pv);
        let mut names: Vec<ProjectName> = Vec::new();
        let m = texts.len();
        let mut k: usize = 0;
        while k < m
            invariant
                m == texts@.len(),
                k <= m,
                names@.len() == k,
                forall|j: int| 0 <= j < k ==> (#[trigger] names@[j])@ == texts@[j]@,
            decreases m - k,
        {
            names.push(ProjectName::new(texts[k].as_str()));
            k = k + 1;
        }
        assert(name_set(names@) =~= text_set(texts@)) by {
            assert forall|v: Seq<char>| #[trigger] text_set(texts@).contains(v) implies name_set(names@).contains(v) by {
                let j = choose|j: int| 0 <= j < texts@.len() && texts@[j]@ == v;
                assert(names@[j]@ == v);
            }
            assert forall|v: Seq<char>| #[trigger] name_set(names@).contains(v) implies text_set(texts@).contains(v) by {
                let j = choose|j: int| 0 <= j < names@.len() && names@[j]@ == v;
                assert(texts@[j]@ == v);
            }
        }
        assert forall|a: int, b: int| 0 <= a < b < names@.len() implies text_lt(#[trigger] names@[a]@, #[trigger] names@[b]@) by {
            assert(text_lt(texts@[a]@, texts@[b]@));
        }
        Ok(names)
    }

    /// The part of a path below the data directory.
    fn relative_path(&self, path: &str) -> (r: Option<String>)
        ensures
            r matches Some(t) ==> relative_to(self.data_dir@, path@) == Some(t@),
            r is None ==> relative_to(self.data_dir@, path@) is None,
    {
        let prefix = join(self.data_dir.as_str(), "");
        proof {
            reveal_strlit("");
        }
        assert(prefix@ =~= self.data_dir@ + seq![PATH_SEPARATOR]);
        match after_prefix(path, prefix.as_str()) {
            Some(rest) => Some(rest),
            None => {
                let n = self.data_dir.as_str().unicode_len();
                if n > 0 && self.data_dir.as_str().get_char(n - 1) == PATH_SEPARATOR {
                    after_prefix(path, self.data_dir.as_str())
                } else {
                    None
                }
            },
        }
    }

    /// The project that a record file path stands for: the path below the data
    /// directory, without extension, with one name segment per level. A path
    /// outside the data directory is an error.
    pub fn project_name_from_path(&self, path: &str) -> (r: Result<ProjectName, ErrorKind>)
        ensures
            match name_of_path(self.data_dir@, path@) {
                Some(n) => r matches Ok(p) && p@ == n,
                None => r matches Err(e) && e matches ErrorKind::PathOutsideStore(s) && s@ == path@,
            },
    {
        match self.relative_path(path) {
            Some(rel) => {
                let stem = strip_extension_of(rel.as_str());
                let dotted = replace_char_in(stem.as_str(), PATH_SEPARATOR, PROJECT_SEPARATOR);
                Ok(ProjectName::new(dotted.as_str()))
            },
            None => Err(ErrorKind::PathOutsideStore(path.to_owned())),
        }
    }
}

} // verus!
