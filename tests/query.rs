use lablog::error::ErrorKind;
use lablog::note::Note;
use lablog::options::{is_xdg_placeholder, Options};
use lablog::project::{Project, ProjectName, Projects};
use lablog::query::{
    filter_projects_by_name, filter_projects_by_timestamps, get_filtered_projects, get_filters_from_match,
    search_projects, split_lines, Filters, Pattern,
};
use lablog::timestamp::Timestamp;

const START: &str = "\x1B[1m\x1B[31m";
const END: &str = "\x1B[0m\x1B[0m";

fn at(secs: i64) -> Timestamp {
    Timestamp { secs, nanos: 0 }
}

fn note(secs: i64, value: &str) -> Note {
    Note { time_stamp: at(secs), value: value.to_string() }
}

fn project(name: &str, notes: Vec<Note>) -> Project {
    Project { name: ProjectName::new(name), archived: false, notes }
}

fn three_notes() -> Projects {
    vec![project("p", vec![note(1, "t1"), note(2, "t2"), note(3, "t3")])]
}

#[test]
fn after_bound_is_inclusive() {
    let got = filter_projects_by_timestamps(three_notes(), &None, &Some(at(2)));
    assert_eq!(got, vec![project("p", vec![note(2, "t2"), note(3, "t3")])]);
}

#[test]
fn before_bound_is_inclusive() {
    let got = filter_projects_by_timestamps(three_notes(), &Some(at(2)), &None);
    assert_eq!(got, vec![project("p", vec![note(1, "t1"), note(2, "t2")])]);
}

#[test]
fn equal_bounds_keep_that_instant() {
    let got = filter_projects_by_timestamps(three_notes(), &Some(at(2)), &Some(at(2)));
    assert_eq!(got, vec![project("p", vec![note(2, "t2")])]);
}

#[test]
fn unset_bounds_keep_everything() {
    assert_eq!(filter_projects_by_timestamps(three_notes(), &None, &None), three_notes());
}

#[test]
fn projects_left_without_notes_are_dropped() {
    let projects = vec![project("early", vec![note(1, "a")]), project("late", vec![note(9, "b")])];
    let got = filter_projects_by_timestamps(projects, &None, &Some(at(5)));
    assert_eq!(got, vec![project("late", vec![note(9, "b")])]);
}

#[test]
fn name_filter_looks_at_names_only() {
    let projects = vec![
        project("work.lab", vec![note(1, "home")]),
        project("home", vec![note(1, "work")]),
        project("work", vec![note(2, "x")]),
    ];
    let pattern = Pattern::new("^work").unwrap();
    let got = filter_projects_by_name(projects, &pattern);
    assert_eq!(got, vec![project("work.lab", vec![note(1, "home")]), project("work", vec![note(2, "x")])]);
}

#[test]
fn pattern_matches_like_the_regex_crate() {
    let pattern = Pattern::new("b+c").unwrap();
    assert!(pattern.is_match("abbbc"));
    assert!(!pattern.is_match("ac"));
}

#[test]
fn invalid_pattern_is_an_error() {
    assert!(matches!(Pattern::new("("), Err(ErrorKind::InvalidPattern(s)) if s == "("));
}

#[test]
fn filters_from_arguments() {
    let filters = get_filters_from_match(Some("^a"), Some("2001-02-03"), Some("2001")).unwrap();
    assert!(filters.project_name.is_some());
    assert_eq!(filters.timestamp_before, Some(at(981158400)));
    assert_eq!(filters.timestamp_after, Some(at(978307200)));
    let none = get_filters_from_match(None, None, None).unwrap();
    assert!(none.project_name.is_none());
    assert_eq!(none.timestamp_before, None);
    assert_eq!(none.timestamp_after, None);
}

#[test]
fn filter_argument_errors() {
    assert!(matches!(get_filters_from_match(Some("["), None, None), Err(ErrorKind::InvalidPattern(_))));
    assert!(matches!(
        get_filters_from_match(None, Some("soon"), Some("2001")),
        Err(ErrorKind::TimestampParse(s)) if s == "soon"
    ));
    assert!(matches!(
        get_filters_from_match(None, Some("2001"), Some("later")),
        Err(ErrorKind::TimestampParse(s)) if s == "later"
    ));
}

#[test]
fn filtered_projects_apply_name_then_time() {
    let projects = vec![
        project("a", vec![note(1, "x"), note(5, "y")]),
        project("b", vec![note(5, "z")]),
    ];
    let filters = Filters {
        project_name: Some(Pattern::new("a").unwrap()),
        timestamp_before: None,
        timestamp_after: Some(at(2)),
    };
    assert_eq!(get_filtered_projects(projects, &filters), vec![project("a", vec![note(5, "y")])]);
}

#[test]
fn lines_split_like_str_lines() {
    assert_eq!(split_lines("a\r\nb\n"), vec!["a", "b"]);
    assert_eq!(split_lines("a\n\nb"), vec!["a", "", "b"]);
    assert_eq!(split_lines(""), Vec::<String>::new());
    assert_eq!(split_lines("one\r"), vec!["one\r"]);
    assert_eq!(split_lines("\n"), vec![""]);
}

#[test]
fn search_marks_each_match() {
    let projects = vec![
        project("a", vec![note(1, "foo bar\nbaz foo foo")]),
        project("b", vec![note(1, "nothing here")]),
    ];
    let all = Pattern::new(".*").unwrap();
    let text = Pattern::new("foo").unwrap();
    let hits = search_projects(projects, &all, &text);
    assert_eq!(hits.len(), 1);
    assert_eq!(hits[0].project, ProjectName::new("a"));
    let mut expected = vec![
        format!("{}foo{} bar", START, END),
        format!("baz {}foo{} foo", START, END),
        format!("baz foo {}foo{}", START, END),
    ];
    expected.sort();
    assert_eq!(hits[0].lines, expected);
}

#[test]
fn search_collapses_identical_marked_lines() {
    let projects = vec![project("a", vec![note(1, "same foo"), note(2, "same foo")])];
    let all = Pattern::new("").unwrap();
    let text = Pattern::new("foo").unwrap();
    let hits = search_projects(projects, &all, &text);
    assert_eq!(hits.len(), 1);
    assert_eq!(hits[0].lines, vec![format!("same {}foo{}", START, END)]);
}

#[test]
fn search_applies_the_project_pattern_first() {
    let projects = vec![project("a", vec![note(1, "foo")]), project("b", vec![note(1, "foo")])];
    let names = Pattern::new("^b$").unwrap();
    let text = Pattern::new("o+").unwrap();
    let hits = search_projects(projects, &names, &text);
    assert_eq!(hits.len(), 1);
    assert_eq!(hits[0].project, ProjectName::new("b"));
    assert_eq!(hits[0].lines, vec![format!("f{}oo{}", START, END)]);
}

#[test]
fn options_resolve_the_data_directory() {
    assert!(is_xdg_placeholder("$XDG_DATA_HOME/lablog"));
    assert!(!is_xdg_placeholder("/srv/notes"));
    let plain = Options::try_from("/srv/notes", None).unwrap();
    assert_eq!(plain.datadir, "/srv/notes");
    let xdg = Options::try_from("$XDG_DATA_HOME/lablog", Some("/home/u/.local/share/lablog".to_string())).unwrap();
    assert_eq!(xdg.datadir, "/home/u/.local/share/lablog");
    assert!(matches!(Options::try_from("$XDG_DATA_HOME/lablog", None), Err(ErrorKind::NoDataDirectory)));
}

#[test]
fn date_word_bounds_read_like_the_parser() {
    let filters = get_filters_from_match(None, Some("yesterday"), Some("today")).unwrap();
    assert_eq!(filters.timestamp_before, lablog::timestamp::try_multiple_time_parser("yesterday").ok());
    assert_eq!(filters.timestamp_after, lablog::timestamp::try_multiple_time_parser("today").ok());
    assert!(filters.timestamp_after > filters.timestamp_before);
}
