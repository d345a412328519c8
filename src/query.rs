use vstd::prelude::*;

use crate::error::ErrorKind;
use crate::note::{note_lt, notes_sorted, Note, NoteView};
use crate::project::{note_views, project_views, Project, ProjectName, ProjectView, Projects};
use crate::text::{insert_text, push_char, text_set, texts_sorted};
use crate::timestamp::{
    first_some, is_bound_result, parse_attempts, try_multiple_time_parser, ts_le, Timestamp,
};

verus! {

/// Whether the regex crate compiles the pattern.
pub uninterp spec fn regex_accepts(pattern: Seq<char>) -> bool;

/// Whether the compiled pattern matches somewhere in the text.
pub uninterp spec fn regex_is_match(pattern: Seq<char>, text: Seq<char>) -> bool;

/// Every successive non-overlapping match of the pattern in the text, each as
/// the text before the match, the match, and the text after it.
pub uninterp spec fn regex_match_splits(pattern: Seq<char>, text: Seq<char>) -> Seq<
    (Seq<char>, Seq<char>, Seq<char>),
>;

#[verifier::external_type_specification]
#[verifier::external_body]
pub struct ExRegex(regex::Regex);

#[verifier::external_type_specification]
#[verifier::external_body]
pub struct ExRegexError(regex::Error);

/// Relies on regex's `Regex::new`: it compiles the pattern or reports why not.
#[verifier::external_body]
fn compile_regex(source: &str) -> (r: Result<regex::Regex, regex::Error>)
    ensures
        r is Ok == regex_accepts(source@),
{
    regex::Regex::new(source)
}

/// A compiled regular expression, together with the text it was compiled from.
pub struct Pattern {
    source: String,
    regex: regex::Regex,
}

impl View for Pattern {
    type V = Seq<char>;

    closed spec fn view(&self) -> Seq<char> {
        self.source@
    }
}

/// Relies on regex's `Regex::is_match`, on the expression that `Pattern::new`
/// compiled from the pattern's text.
#[verifier::external_body]
fn pattern_is_match(pattern: &Pattern, text: &str) -> (r: bool)
    ensures
        r == regex_is_match(pattern@, text@),
{
    pattern.regex.is_match(text)
}

/// Relies on regex's `Regex::find_iter` and `Match::start` / `Match::end`, on
/// the expression that `Pattern::new` compiled from the pattern's text.
#[verifier::external_body]
fn pattern_match_splits(pattern: &Pattern, text: &str) -> (r: Vec<(String, String, String)>)
    ensures
        r.deep_view() == regex_match_splits(pattern@, text@),
{
    let mut splits = Vec::new();
    for m in pattern.regex.find_iter(text) {
        splits.push((text[..m.start()].to_string(), m.as_str().to_string(), text[m.end()..].to_string()));
    }
    splits
}

impl Pattern {
    /// Compiles a regular expression; one that does not compile is an error
    /// naming it.
    pub fn new(source: &str) -> (r: Result<Pattern, ErrorKind>)
        ensures
            regex_accepts(source@) ==> (r matches Ok(p) && p@ == source@),
            !regex_accepts(source@) ==> (r matches Err(e) && e matches ErrorKind::InvalidPattern(s)
                && s@ == source@),
    {
        match compile_regex(source) {
            Ok(regex) => Ok(Pattern { source: source.to_owned(), regex }),
            Err(_) => Err(ErrorKind::InvalidPattern(source.to_owned())),
        }
    }

    /// Whether the pattern matches somewhere in the text.
    pub fn is_match(&self, text: &str) -> (r: bool)
        ensures
            r == regex_is_match(self@, text@),
    {
        pattern_is_match(self, text)
    }
}

/// Whether the pattern matches the project's name.
pub open spec fn name_matches(pattern: Seq<char>) -> spec_fn(ProjectView) -> bool {
    |p: ProjectView| regex_is_match(pattern, p.name)
}

/// The projects whose name the pattern matches, in order.
pub open spec fn name_filtered(ps: Seq<ProjectView>, pattern: Seq<char>) -> Seq<ProjectView> {
    ps.filter(name_matches(pattern))
}

/// Keeps the projects whose name the pattern matches; their notes are not
/// looked at.
pub fn filter_projects_by_name(projects: Projects, pattern: &Pattern) -> (r: Projects)
    ensures
        project_views(r@) == name_filtered(project_views(projects@), pattern@),
{
    let ghost orig = projects@;
    let ghost pred = name_matches(pattern@);
    let mut rest = projects;
    let mut out: Vec<Project> = Vec::new();
    let n = rest.len();
    let mut k: usize = 0;
    assert(project_views(orig.subrange(0, 0)).filter(pred) =~= Seq::empty());
    while k < n
        invariant
            n == orig.len(),
            k <= n,
            pred == name_matches(pattern@),
            rest@ == orig.subrange(k as int, n as int),
            project_views(out@) == project_views(orig.subrange(0, k as int)).filter(pred),
        decreases n - k,
    {
        let p = rest.remove(0);
        assert(p == orig[k as int]);
        assert(project_views(orig.subrange(0, k + 1)) =~= project_views(
            orig.subrange(0, k as int),
        ).push(p@));
        proof {
            project_views(orig.subrange(0, k as int)).lemma_filter_push(p@, pred);
        }
        assert(rest@ =~= orig.subrange(k + 1, n as int));
        assert(pred(p@) == regex_is_match(pattern@, p.name@));
        if pattern.is_match(p.name.as_str()) {
            let ghost before = out@;
            let ghost pv = p@;
            out.push(p);
            assert(project_views(out@) =~= project_views(before).push(pv));
        }
        k = k + 1;
    }
    assert(orig.subrange(0, n as int) =~= orig);
    out
}

/// An instant lies in a time range: at or before `before` when it is set, at
/// or after `after` when it is set; an unset bound always passes.
pub open spec fn in_time_range(t: Timestamp, before: Option<Timestamp>, after: Option<Timestamp>) -> bool {
    &&& (before matches Some(b) ==> ts_le(t, b))
    &&& (after matches Some(a) ==> ts_le(a, t))
}

/// Whether a note lies in the time range.
pub open spec fn note_in_range(before: Option<Timestamp>, after: Option<Timestamp>) -> spec_fn(
    NoteView,
) -> bool {
    |n: NoteView| in_time_range(n.time_stamp, before, after)
}

/// A project with only its notes in the time range.
pub open spec fn restrict_notes(before: Option<Timestamp>, after: Option<Timestamp>) -> spec_fn(
    ProjectView,
) -> ProjectView {
    |p: ProjectView|
        ProjectView {
            name: p.name,
            archived: p.archived,
            notes: p.notes.filter(note_in_range(before, after)),
        }
}

/// Whether a project has notes.
pub open spec fn has_notes() -> spec_fn(ProjectView) -> bool {
    |p: ProjectView| p.notes.len() > 0
}

/// Each project with only its notes in the time range; a project left without
/// notes is dropped.
pub open spec fn time_filtered(
    ps: Seq<ProjectView>,
    before: Option<Timestamp>,
    after: Option<Timestamp>,
) -> Seq<ProjectView> {
    ps.map_values(restrict_notes(before, after)).filter(has_notes())
}

fn in_range(t: &Timestamp, before: &Option<Timestamp>, after: &Option<Timestamp>) -> (r: bool)
    ensures
        r == in_time_range(*t, *before, *after),
{
    let below = match before {
        Some(b) => t.is_at_or_before(b),
        None => true,
    };
    let above = match after {
        Some(a) => a.is_at_or_before(t),
        None => true,
    };
    below && above
}

/// The notes in the time range, in order.
fn keep_notes_in_range(notes: Vec<Note>, before: &Option<Timestamp>, after: &Option<Timestamp>) -> (r:
    Vec<Note>)
    ensures
        note_views(r@) == note_views(notes@).filter(note_in_range(*before, *after)),
        notes_sorted(notes@) ==> notes_sorted(r@),
{
    let ghost orig = notes@;
    let ghost pred = note_in_range(*before, *after);
    let mut rest = notes;
    let mut out: Vec<Note> = Vec::new();
    let n = rest.len();
    let mut k: usize = 0;
    assert(note_views(orig.subrange(0, 0)).filter(pred) =~= Seq::empty());
    while k < n
        invariant
            n == orig.len(),
            k <= n,
            pred == note_in_range(*before, *after),
            rest@ == orig.subrange(k as int, n as int),
            note_views(out@) == note_views(orig.subrange(0, k as int)).filter(pred),
            notes_sorted(orig) ==> notes_sorted(out@),
            notes_sorted(orig) ==> forall|a: int, b: int|
                0 <= a < out@.len() && k <= b < n ==> note_lt(
                    #[trigger] out@[a]@,
                    #[trigger] orig[b]@,
                ),
        decreases n - k,
    {
        let note = rest.remove(0);
        assert(note == orig[k as int]);
        assert(note_views(orig.subrange(0, k + 1)) =~= note_views(orig.subrange(0, k as int)).push(
            note@,
        ));
        proof {
            note_views(orig.subrange(0, k as int)).lemma_filter_push(note@, pred);
        }
        assert(rest@ =~= orig.subrange(k + 1, n as int));
        assert(pred(note@) == in_time_range(note.time_stamp, *before, *after));
        if in_range(&note.time_stamp, before, after) {
            let ghost prev = out@;
            let ghost nv = note@;
            out.push(note);
            assert(note_views(out@) =~= note_views(prev).push(nv));
            proof {
                if notes_sorted(orig) {
                    assert forall|a: int, b: int|
                        0 <= a < out@.len() && k + 1 <= b < n implies note_lt(
                        #[trigger] out@[a]@,
                        #[trigger] orig[b]@,
                    ) by {
                        if a == prev.len() {
                            assert(note_lt(orig[k as int]@, orig[b]@));
                        } else {
                            assert(note_lt(prev[a]@, orig[b]@));
                        }
                    }
                    assert forall|a: int, b: int|
                        0 <= a < b < out@.len() implies note_lt(
                        #[trigger] out@[a]@,
                        #[trigger] out@[b]@,
                    ) by {
                        if b == prev.len() {
                            assert(note_lt(prev[a]@, orig[k as int]@));
                        } else {
                            assert(note_lt(prev[a]@, prev[b]@));
                        }
                    }
                }
            }
        }
        k = k + 1;
    }
    assert(orig.subrange(0, n as int) =~= orig);
    out
}

/// Keeps, in each project, the notes in the time range (both bounds
/// inclusive), and drops the projects left without notes.
pub fn filter_projects_by_timestamps(
    projects: Projects,
    filter_before: &Option<Timestamp>,
    filter_after: &Option<Timestamp>,
) -> (r: Projects)
    ensures
        project_views(r@) == time_filtered(project_views(projects@), *filter_before, *filter_after),
        (forall|i: int| 0 <= i < projects@.len() ==> (#[trigger] projects@[i]).wf()) ==> (forall|
            i: int,
        |
            0 <= i < r@.len() ==> (#[trigger] r@[i]).wf()),
{
    let ghost orig = projects@;
    let ghost restrict = restrict_notes(*filter_before, *filter_after);
    let ghost keep = has_notes();
    let mut rest = projects;
    let mut out: Vec<Project> = Vec::new();
    let n = rest.len();
    let mut k: usize = 0;
    assert(project_views(orig.subrange(0, 0)).map_values(restrict).filter(keep) =~= Seq::empty());
    while k < n
        invariant
            n == orig.len(),
            k <= n,
            restrict == restrict_notes(*filter_before, *filter_after),
            keep == has_notes(),
            rest@ == orig.subrange(k as int, n as int),
            project_views(out@) == project_views(orig.subrange(0, k as int)).map_values(
                restrict,
            ).filter(keep),
            (forall|i: int| 0 <= i < orig.len() ==> (#[trigger] orig[i]).wf()) ==> (forall|i: int|
                0 <= i < out@.len() ==> (#[trigger] out@[i]).wf()),
        decreases n - k,
    {
        let p = rest.remove(0);
        assert(p == orig[k as int]);
        assert(rest@ =~= orig.subrange(k + 1, n as int));
        let ghost mapped = project_views(orig.subrange(0, k as int)).map_values(restrict);
        assert(project_views(orig.subrange(0, k + 1)).map_values(restrict) =~= mapped.push(
            restrict(p@),
        ));
        proof {
            mapped.lemma_filter_push(restrict(p@), keep);
        }
        let Project { name, archived, notes } = p;
        let kept = keep_notes_in_range(notes, filter_before, filter_after);
        if kept.len() > 0 {
            let q = Project { name, archived, notes: kept };
            assert(q@ == restrict(p@));
            let ghost prev = out@;
            out.push(q);
            assert(project_views(out@) =~= project_views(prev).push(q@));
        } else {
            assert(!keep(restrict(p@)));
        }
        k = k + 1;
    }
    assert(orig.subrange(0, n as int) =~= orig);
    out
}

/// How projects are narrowed: an optional name pattern and an optional time
/// range.
pub struct Filters {
    pub project_name: Option<Pattern>,
    pub timestamp_before: Option<Timestamp>,
    pub timestamp_after: Option<Timestamp>,
}

/// The projects that pass the name pattern, if any, each with only its notes
/// in the time range; projects left without notes are dropped.
pub fn get_filtered_projects(projects: Projects, filters: &Filters) -> (r: Projects)
    ensures
        project_views(r@) == time_filtered(
            match filters.project_name {
                Some(p) => name_filtered(project_views(projects@), p@),
                None => project_views(projects@),
            },
            filters.timestamp_before,
            filters.timestamp_after,
        ),
{
    let named = match &filters.project_name {
        Some(pattern) => filter_projects_by_name(projects, pattern),
        None => projects,
    };
    filter_projects_by_timestamps(named, &filters.timestamp_before, &filters.timestamp_after)
}

/// A bound text that is read without the clock: neither date word.
pub open spec fn plain_bound(s: Seq<char>) -> bool {
    s != "today"@ && s != "yesterday"@
}

/// What a plain bound argument reads as, if it reads.
pub open spec fn bound_value(arg: Option<Seq<char>>) -> Option<Option<Timestamp>> {
    match arg {
        None => Some(None),
        Some(s) => match first_some(parse_attempts(s)) {
            Some(t) => Some(Some(t)),
            None => None,
        },
    }
}

pub open spec fn arg_view(arg: Option<&str>) -> Option<Seq<char>> {
    match arg {
        Some(s) => Some(s@),
        None => None,
    }
}

/// A bound is read as a bound argument says: no bound for no argument, and
/// otherwise an instant that the text reads as for some texts of today's and
/// yesterday's dates (which only matter for the date words).
pub open spec fn bound_read_as(arg: Option<Seq<char>>, got: Option<Timestamp>) -> bool {
    match arg {
        None => got is None,
        Some(s) => match got {
            Some(t) => exists|today: Seq<char>, yesterday: Seq<char>|
                #[trigger] is_bound_result(Ok::<Timestamp, ErrorKind>(t), s, today, yesterday),
            None => false,
        },
    }
}

/// An error of reading the filter arguments names what it is about: the
/// pattern that does not compile, or one of the bound texts.
pub open spec fn names_a_filter_argument(
    e: ErrorKind,
    project_name: Option<Seq<char>>,
    filter_before: Option<Seq<char>>,
    filter_after: Option<Seq<char>>,
) -> bool {
    match e {
        ErrorKind::InvalidPattern(t) => project_name == Some(t@) && !regex_accepts(t@),
        ErrorKind::TimestampParse(t) => filter_before == Some(t@) || filter_after == Some(t@),
        _ => false,
    }
}

/// The filters given by the optional arguments: a project name pattern and
/// the bounds of a time range. A pattern that does not compile, then a bound
/// that does not read as a timestamp, is an error naming it.
pub fn get_filters_from_match(
    project_name: Option<&str>,
    filter_before: Option<&str>,
    filter_after: Option<&str>,
) -> (r: Result<Filters, ErrorKind>)
    ensures
        match project_name {
            Some(s) => !regex_accepts(s@) ==> (r matches Err(e)
                && e matches ErrorKind::InvalidPattern(t) && t@ == s@),
            None => true,
        },
        r matches Ok(f) ==> match project_name {
            Some(s) => f.project_name matches Some(p) && p@ == s@,
            None => f.project_name is None,
        },
        r matches Ok(f) ==> bound_read_as(arg_view(filter_before), f.timestamp_before)
            && bound_read_as(arg_view(filter_after), f.timestamp_after),
        r matches Err(e) ==> names_a_filter_argument(
            e,
            arg_view(project_name),
            arg_view(filter_before),
            arg_view(filter_after),
        ),
        (project_name matches Some(s) ==> regex_accepts(s@)) && (filter_before matches Some(b)
            ==> plain_bound(b@)) && (filter_after matches Some(a) ==> plain_bound(a@)) ==> match (
            bound_value(arg_view(filter_before)),
            bound_value(arg_view(filter_after)),
        ) {
            (Some(b), Some(a)) => r matches Ok(f) && f.timestamp_before == b && f.timestamp_after
                == a,
            (None, _) => r matches Err(e) && e matches ErrorKind::TimestampParse(t) && Some(t@)
                == arg_view(filter_before),
            (Some(_), None) => r matches Err(e) && e matches ErrorKind::TimestampParse(t) && Some(
                t@,
            ) == arg_view(filter_after),
        },
{
    let pattern = match project_name {
        Some(s) => match Pattern::new(s) {
            Ok(p) => Some(p),
            Err(e) => return Err(e),
        },
        None => None,
    };
    let timestamp_before = match filter_before {
        Some(s) => match try_multiple_time_parser(s) {
            Ok(t) => Some(t),
            Err(e) => return Err(e),
        },
        None => None,
    };
    let timestamp_after = match filter_after {
        Some(s) => match try_multiple_time_parser(s) {
            Ok(t) => Some(t),
            Err(e) => return Err(e),
        },
        None => None,
    };
    Ok(Filters { project_name: pattern, timestamp_before, timestamp_after })
}

/// The text after the last line feed.
pub open spec fn open_line(s: Seq<char>) -> Seq<char>
    decreases s.len(),
{
    if s.len() == 0 {
        Seq::empty()
    } else if s.last() == '\n' {
        Seq::empty()
    } else {
        open_line(s.drop_last()).push(s.last())
    }
}

/// A line without the carriage return that ends it, if any.
pub open spec fn strip_cr(l: Seq<char>) -> Seq<char> {
    if l.len() > 0 && l.last() == '\r' {
        l.drop_last()
    } else {
        l
    }
}

/// The lines that a line feed ends, without their line endings.
pub open spec fn complete_lines(s: Seq<char>) -> Seq<Seq<char>>
    decreases s.len(),
{
    if s.len() == 0 {
        Seq::empty()
    } else if s.last() == '\n' {
        complete_lines(s.drop_last()).push(strip_cr(open_line(s.drop_last())))
    } else {
        complete_lines(s.drop_last())
    }
}

/// The lines of a text: split at line feeds, a carriage return before a line
/// feed dropped too; a final line ending is optional.
pub open spec fn lines_of(s: Seq<char>) -> Seq<Seq<char>> {
    if open_line(s).len() > 0 {
        complete_lines(s).push(open_line(s))
    } else {
        complete_lines(s)
    }
}

fn without_cr(line: String) -> (r: String)
    ensures
        r@ == strip_cr(line@),
{
    let n = line.as_str().unicode_len();
    if n > 0 && line.as_str().get_char(n - 1) == '\r' {
        line.as_str().substring_char(0, n - 1).to_owned()
    } else {
        line
    }
}

/// The lines of a text.
pub fn split_lines(s: &str) -> (r: Vec<String>)
    ensures
        r.deep_view() == lines_of(s@),
{
    let n = s.unicode_len();
    let mut out: Vec<String> = Vec::new();
    let mut current = String::new();
    let mut i: usize = 0;
    assert(s@.subrange(0, 0) =~= Seq::<char>::empty());
    assert(out.deep_view() =~= complete_lines(Seq::<char>::empty()));
    while i < n
        invariant
            n == s@.len(),
            i <= n,
            out.deep_view() == complete_lines(s@.subrange(0, i as int)),
            current@ == open_line(s@.subrange(0, i as int)),
        decreases n - i,
    {
        let c = s.get_char(i);
        let ghost prefix = s@.subrange(0, i as int);
        assert(s@.subrange(0, i + 1).drop_last() =~= prefix);
        assert(s@.subrange(0, i + 1).last() == c);
        if c == '\n' {
            let line = without_cr(current);
            let ghost before = out.deep_view();
            let ghost lv = line@;
            out.push(line);
            assert(out.deep_view() =~= before.push(lv));
            current = String::new();
            assert(current@ =~= open_line(s@.subrange(0, i + 1)));
        } else {
            push_char(&mut current, c);
        }
        i = i + 1;
    }
    assert(s@.subrange(0, n as int) =~= s@);
    if current.as_str().unicode_len() > 0 {
        let ghost before = out.deep_view();
        let ghost cv = current@;
        out.push(current);
        assert(out.deep_view() =~= before.push(cv));
    }
    out
}

/// A line with one match marked: bold red from the start of the match, plain
/// again after it.
pub open spec fn highlight(split: (Seq<char>, Seq<char>, Seq<char>)) -> Seq<char> {
    split.0 + "\x1B[1m\x1B[31m"@ + split.1 + "\x1B[0m\x1B[0m"@ + split.2
}

/// The marked copies of a line, one for each match.
pub open spec fn line_hits(pattern: Seq<char>, line: Seq<char>) -> Set<Seq<char>> {
    Set::new(
        |h: Seq<char>|
            exists|k: int|
                0 <= k < regex_match_splits(pattern, line).len() && #[trigger] highlight(
                    regex_match_splits(pattern, line)[k],
                ) == h,
    )
}

/// The marked copies of the lines of a note's text.
pub open spec fn text_hits(pattern: Seq<char>, text: Seq<char>) -> Set<Seq<char>> {
    Set::new(
        |h: Seq<char>|
            exists|j: int|
                0 <= j < lines_of(text).len() && #[trigger] line_hits(
                    pattern,
                    lines_of(text)[j],
                ).contains(h),
    )
}

/// The marked lines of all notes.
pub open spec fn notes_hits(pattern: Seq<char>, notes: Seq<NoteView>) -> Set<Seq<char>> {
    Set::new(
        |h: Seq<char>|
            exists|i: int|
                0 <= i < notes.len() && #[trigger] text_hits(pattern, notes[i].value).contains(h),
    )
}

fn marked(split: &(String, String, String)) -> (r: String)
    ensures
        r@ == highlight((split.0@, split.1@, split.2@)),
{
    let mut t = split.0.clone();
    t.append("\x1B[1m\x1B[31m");
    t.append(split.1.as_str());
    t.append("\x1B[0m\x1B[0m");
    t.append(split.2.as_str());
    t
}

fn add_line_hits(acc: &mut Vec<String>, pattern: &Pattern, line: &str)
    requires
        texts_sorted(old(acc)@),
    ensures
        texts_sorted(final(acc)@),
        text_set(final(acc)@) == text_set(old(acc)@).union(line_hits(pattern@, line@)),
{
    let splits = pattern_match_splits(pattern, line);
    let ghost sv = regex_match_splits(pattern@, line@);
    let ghost start = text_set(acc@);
    let n = splits.len();
    let mut k: usize = 0;
    assert(start =~= start.union(Set::new(|h: Seq<char>| exists|m: int| 0 <= m < 0 && #[trigger] highlight(sv[m]) == h)));
    while k < n
        invariant
            n == splits@.len(),
            sv == splits.deep_view(),
            sv == regex_match_splits(pattern@, line@),
            k <= n,
            texts_sorted(acc@),
            text_set(acc@) == start.union(
                Set::new(|h: Seq<char>| exists|m: int| 0 <= m < k && #[trigger] highlight(sv[m]) == h),
            ),
        decreases n - k,
    {
        let h = marked(&splits[k]);
        assert(sv[k as int] == (splits@[k as int].0@, splits@[k as int].1@, splits@[k as int].2@));
        let ghost hv = h@;
        insert_text(acc, h);
        assert(text_set(acc@) =~= start.union(
            Set::new(|h: Seq<char>| exists|m: int| 0 <= m < k + 1 && #[trigger] highlight(sv[m]) == h),
        )) by {
            assert(highlight(sv[k as int]) == hv);
        }
        k = k + 1;
    }
    assert(line_hits(pattern@, line@) =~= Set::new(|h: Seq<char>| exists|m: int| 0 <= m < n && #[trigger] highlight(sv[m]) == h));
}

fn add_text_hits(acc: &mut Vec<String>, pattern: &Pattern, text: &str)
    requires
        texts_sorted(old(acc)@),
    ensures
        texts_sorted(final(acc)@),
        text_set(final(acc)@) == text_set(old(acc)@).union(text_hits(pattern@, text@)),
{
    let lines = split_lines(text);
    let ghost lv = lines_of(text@);
    let ghost start = text_set(acc@);
    let n = lines.len();
    let mut j: usize = 0;
    assert(start =~= start.union(Set::new(|h: Seq<char>| exists|m: int| 0 <= m < 0 && #[trigger] line_hits(pattern@, lv[m]).contains(h))));
    while j < n
        invariant
            n == lines@.len(),
            lv == lines.deep_view(),
            lv == lines_of(text@),
            j <= n,
            texts_sorted(acc@),
            text_set(acc@) == start.union(
                Set::new(|h: Seq<char>| exists|m: int| 0 <= m < j && #[trigger] line_hits(pattern@, lv[m]).contains(h)),
            ),
        decreases n - j,
    {
        assert(lv[j as int] == lines@[j as int]@);
        let ghost before = text_set(acc@);
        add_line_hits(acc, pattern, lines[j].as_str());
        assert(text_set(acc@) =~= start.union(
            Set::new(|h: Seq<char>| exists|m: int| 0 <= m < j + 1 && #[trigger] line_hits(pattern@, lv[m]).contains(h)),
        ));
        j = j + 1;
    }
    assert(text_hits(pattern@, text@) =~= Set::new(|h: Seq<char>| exists|m: int| 0 <= m < n && #[trigger] line_hits(pattern@, lv[m]).contains(h)));
}

/// The marked lines of all notes, each once, in order.
fn notes_search(notes: &Vec<Note>, pattern: &Pattern) -> (r: Vec<String>)
    ensures
        texts_sorted(r@),
        text_set(r@) == notes_hits(pattern@, note_views(notes@)),
{
    let ghost nv = note_views(notes@);
    let mut acc: Vec<String> = Vec::new();
    let n = notes.len();
    let mut i: usize = 0;
    assert(text_set(acc@) =~= Set::new(|h: Seq<char>| exists|m: int| 0 <= m < 0 && #[trigger] text_hits(pattern@, nv[m].value).contains(h)));
    while i < n
        invariant
            n == notes@.len(),
            nv == note_views(notes@),
            i <= n,
            texts_sorted(acc@),
            text_set(acc@) == Set::new(
                |h: Seq<char>| exists|m: int| 0 <= m < i && #[trigger] text_hits(pattern@, nv[m].value).contains(h),
            ),
        decreases n - i,
    {
        assert(nv[i as int].value == notes@[i as int].value@);
        add_text_hits(&mut acc, pattern, notes[i].value.as_str());
        assert(text_set(acc@) =~= Set::new(
            |h: Seq<char>| exists|m: int| 0 <= m < i + 1 && #[trigger] text_hits(pattern@, nv[m].value).contains(h),
        ));
        i = i + 1;
    }
    assert(notes_hits(pattern@, nv) =~= Set::new(|h: Seq<char>| exists|m: int| 0 <= m < n && #[trigger] text_hits(pattern@, nv[m].value).contains(h)));
    acc
}

/// The marked lines found in one project.
pub struct SearchHit {
    pub project: ProjectName,
    pub lines: Vec<String>,
}

/// What a search found in a project: its name and its marked lines.
pub open spec fn hit_views(s: Seq<SearchHit>) -> Seq<(Seq<char>, Set<Seq<char>>)> {
    s.map_values(|h: SearchHit| (h.project@, text_set(h.lines@)))
}

/// Whether the text pattern matches a line of one of the project's notes.
pub open spec fn has_hits(pattern: Seq<char>) -> spec_fn(ProjectView) -> bool {
    |p: ProjectView| notes_hits(pattern, p.notes) != Set::<Seq<char>>::empty()
}

/// A project's name with its marked lines.
pub open spec fn hits_of(pattern: Seq<char>) -> spec_fn(ProjectView) -> (Seq<char>, Set<Seq<char>>) {
    |p: ProjectView| (p.name, notes_hits(pattern, p.notes))
}

/// For each project whose notes the pattern matches, in order: its name and
/// the marked lines.
pub open spec fn search_results(ps: Seq<ProjectView>, pattern: Seq<char>) -> Seq<(Seq<char>, Set<Seq<char>>)> {
    ps.filter(has_hits(pattern)).map_values(hits_of(pattern))
}

/// Searches the projects whose name `project_pattern` matches for lines of
/// their notes that `text_pattern` matches. For every match, the line is
/// marked around the match; each project lists its marked lines once each, in
/// order, and projects without any are left out.
pub fn search_projects(projects: Projects, project_pattern: &Pattern, text_pattern: &Pattern) -> (r:
    Vec<SearchHit>)
    ensures
        hit_views(r@) == search_results(
            name_filtered(project_views(projects@), project_pattern@),
            text_pattern@,
        ),
        forall|i: int| 0 <= i < r@.len() ==> texts_sorted(#[trigger] r@[i].lines@),
{
    let named = filter_projects_by_name(projects, project_pattern);
    let ghost pv = project_views(named@);
    let ghost keep = has_hits(text_pattern@);
    let ghost of = hits_of(text_pattern@);
    let mut out: Vec<SearchHit> = Vec::new();
    let n = named.len();
    let mut i: usize = 0;
    assert(pv.subrange(0, 0).filter(keep).map_values(of) =~= Seq::empty());
    while i < n
        invariant
            n == named@.len(),
            pv == project_views(named@),
            keep == has_hits(text_pattern@),
            of == hits_of(text_pattern@),
            i <= n,
            hit_views(out@) == pv.subrange(0, i as int).filter(keep).map_values(of),
            forall|j: int| 0 <= j < out@.len() ==> texts_sorted(#[trigger] out@[j].lines@),
        decreases n - i,
    {
        let p = &named[i];
        let lines = notes_search(&p.notes, text_pattern);
        assert(pv[i as int] == p@);
        assert(pv.subrange(0, i + 1) =~= pv.subrange(0, i as int).push(p@));
        proof {
            pv.subrange(0, i as int).lemma_filter_push(p@, keep);
        }
        if lines.len() > 0 {
            assert(text_set(lines@).contains(lines@[0]@));
            assert(keep(p@));
            let hit = SearchHit { project: p.name.duplicate(), lines };
            let ghost before = out@;
            out.push(hit);
            assert(hit_views(out@) =~= hit_views(before).push(of(p@)));
            assert(pv.subrange(0, i as int).filter(keep).push(p@).map_values(of) =~= pv.subrange(
                0,
                i as int,
            ).filter(keep).map_values(of).push(of(p@)));
        } else {
            assert(text_set(lines@) =~= Set::<Seq<char>>::empty());
            assert(!keep(p@));
        }
        i = i + 1;
    }
    assert(pv.subrange(0, n as int) =~= pv);
    out
}

/// Both bounds of a time range are inclusive: of notes at instants
/// `t1 < t2 < t3`, the range from `t2` keeps the notes at `t2` and `t3`, the
/// range up to `t2` keeps those at `t1` and `t2`, and the range from `t2` up to
/// `t2` keeps only the one at `t2`.
pub proof fn law_time_range_inclusive(n1: NoteView, n2: NoteView, n3: NoteView)
    requires
        crate::timestamp::ts_lt(n1.time_stamp, n2.time_stamp),
        crate::timestamp::ts_lt(n2.time_stamp, n3.time_stamp),
    ensures
        seq![n1, n2, n3].filter(note_in_range(None, Some(n2.time_stamp))) == seq![n2, n3],
        seq![n1, n2, n3].filter(note_in_range(Some(n2.time_stamp), None)) == seq![n1, n2],
        seq![n1, n2, n3].filter(note_in_range(Some(n2.time_stamp), Some(n2.time_stamp)))
            == seq![n2],
{
    let s0 = Seq::<NoteView>::empty();
    let s1 = s0.push(n1);
    let s2 = s1.push(n2);
    let s3 = s2.push(n3);
    assert(s3 =~= seq![n1, n2, n3]);
    let t = n2.time_stamp;
    let ranges = seq![
        note_in_range(None, Some(t)),
        note_in_range(Some(t), None),
        note_in_range(Some(t), Some(t)),
    ];
    assert(s0.filter(ranges[0]) =~= s0) by {
        reveal(Seq::filter);
    }
    assert(s0.filter(ranges[1]) =~= s0) by {
        reveal(Seq::filter);
    }
    assert(s0.filter(ranges[2]) =~= s0) by {
        reveal(Seq::filter);
    }
    s0.lemma_filter_push(n1, ranges[0]);
    s0.lemma_filter_push(n1, ranges[1]);
    s0.lemma_filter_push(n1, ranges[2]);
    s1.lemma_filter_push(n2, ranges[0]);
    s1.lemma_filter_push(n2, ranges[1]);
    s1.lemma_filter_push(n2, ranges[2]);
    s2.lemma_filter_push(n3, ranges[0]);
    s2.lemma_filter_push(n3, ranges[1]);
    s2.lemma_filter_push(n3, ranges[2]);
    assert(s3.filter(ranges[0]) =~= seq![n2, n3]);
    assert(s3.filter(ranges[1]) =~= seq![n1, n2]);
    assert(s3.filter(ranges[2]) =~= seq![n2]);
}

} // verus!
