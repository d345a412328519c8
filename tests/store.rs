use std::collections::BTreeSet;
use std::collections::HashMap;

use lablog::error::ErrorKind;
use lablog::note::Note;
use lablog::project::{Project, ProjectName, Projects};

use lablog::store::{project_from_content, projects_from_contents, ArchiveAction, CSVStore};
use lablog::timestamp::Timestamp;

fn now() -> Timestamp {
    let now = chrono::Utc::now();
    Timestamp { secs: now.timestamp(), nanos: now.timestamp_subsec_nanos() }
}

/// Files kept in memory, written the way the store's plans say.
struct Disk {
    files: HashMap<String, String>,
}

impl Disk {
    fn new() -> Disk {
        Disk { files: HashMap::new() }
    }

    fn write_note(&mut self, store: &CSVStore, name: &ProjectName, note: &Note) -> Result<(), ErrorKind> {
        let plan = store.note_write(name, note)?;
        self.files.entry(plan.path).or_default().push_str(&plan.record);
        Ok(())
    }

    fn archive_project(&mut self, store: &CSVStore, name: &ProjectName) -> Result<(), ErrorKind> {
        let active = self.files.contains_key(&store.project_path(name));
        let archived = self.files.contains_key(&store.project_archive_path(name));
        match store.archive_plan(name, active, archived)? {
            ArchiveAction::Move { from, to, .. } => {
                let content = self.files.remove(&from).unwrap();
                self.files.insert(to, content);
            }
            ArchiveAction::Append { from, to } => {
                let content = self.files.remove(&from).unwrap();
                self.files.get_mut(&to).unwrap().push_str(&content);
            }
        }
        Ok(())
    }

    fn get_project(&self, store: &CSVStore, name: ProjectName, archived: bool) -> Result<Project, ErrorKind> {
        let path = if archived { store.project_archive_path(&name) } else { store.project_path(&name) };
        project_from_content(name, archived, self.files.get(&path).map(|s| s.as_str()))
    }

    fn get_projects_list(&self, store: &CSVStore) -> Result<Vec<ProjectName>, ErrorKind> {
        let paths: Vec<String> = self.files.keys().cloned().collect();
        store.project_names_from_paths(&paths)
    }

    fn get_projects(&self, store: &CSVStore) -> Result<Projects, ErrorKind> {
        let mut files = Vec::new();
        for name in self.get_projects_list(store)? {
            let content = self.files.get(&store.project_path(&name)).cloned();
            files.push((name, content));
        }
        projects_from_contents(files)
    }
}

fn sorted_notes(notes: Vec<Note>) -> Vec<Note> {
    let set: BTreeSet<Note> = notes.into_iter().collect();
    set.into_iter().collect()
}

#[test]
fn normalize_path() {
    let expected = "/test/test/test";
    let got = ProjectName::new(".test.test.test").normalize_path();

    assert_eq!(expected, got)
}

#[test]
fn write_read_notes() {
    let teststore = CSVStore::new("lablog_store_csv_test_write_read_note".to_string());
    let mut disk = Disk::new();
    let testname = ProjectName::new("test");

    let mut notes = Vec::new();

    for i in 0..100 {
        let note = Note { time_stamp: now(), value: "test".to_string() + &i.to_string() };

        disk.write_note(&teststore, &testname, &note).expect("can not write note to store");

        notes.push(note);
    }

    let testproject = Project { archived: false, name: testname.clone(), notes: sorted_notes(notes) };

    let storeproject = disk.get_project(&teststore, testname, false).expect("can not get note from store");

    if testproject.notes.len() != storeproject.notes.len() {
        panic!(
            "storenotes length ({}) is different from notes length ({})",
            testproject.notes.len(),
            storeproject.notes.len()
        )
    }

    assert_eq!(testproject, storeproject);
}

#[test]
#[should_panic]
fn write_empty_note() {
    let teststore = CSVStore::new("lablog_store_csv_test_write_read_note".to_string());
    let mut disk = Disk::new();
    let testproject = ProjectName::new("test");

    let note = Note { time_stamp: now(), value: "".to_string() };

    disk.write_note(&teststore, &testproject, &note).expect("can not write note to store");
}

#[test]
fn get_projects_list() {
    let teststore = CSVStore::new("lablog_store_csv_test_write_read_note".to_string());
    let mut disk = Disk::new();

    let note = Note { time_stamp: now(), value: "test".to_string() };

    let mut list = BTreeSet::new();

    for i in 1..100 {
        let testproject = ProjectName::new(&format!("test{}", i));

        disk.write_note(&teststore, &testproject, &note).expect("can not write note to store");

        list.insert(testproject);
    }

    let storelist = disk.get_projects_list(&teststore).expect("can not get project list from store");

    if list.len() != storelist.len() {
        panic!("storelist length ({}) is not list length ({})", storelist.len(), list.len())
    }

    let list: Vec<ProjectName> = list.into_iter().collect();
    assert_eq!(list, storelist);
}

#[test]
fn project_name_from_path() {
    let teststore = CSVStore::new("lablog_store_csv_test_write_read_note".to_string());
    {
        let expected = ProjectName::new("test");
        let path = teststore.project_path(&expected);

        let got = teststore.project_name_from_path(&path).expect("can not get project name from path");

        assert_eq!(expected, got);
    }

    {
        let expected = ProjectName::new("test.test");
        let path = teststore.project_path(&expected);

        let got = teststore.project_name_from_path(&path).expect("can not get project name from path");

        assert_eq!(expected, got);
    }

    {
        let expected = ProjectName::new("test.test.test");
        let path = teststore.project_path(&expected);

        let got = teststore.project_name_from_path(&path).expect("can not get project name from path");

        assert_eq!(expected, got);
    }
}

#[test]
fn get_projects() {
    let teststore = CSVStore::new("lablog_store_csv_test_get_projects".to_string());
    let mut disk = Disk::new();

    let note = Note { time_stamp: now(), value: "test".to_string() };

    let notes = vec![note.clone()];

    let mut testprojects: Vec<Project> = Vec::new();

    for i in 1..100 {
        let testproject = ProjectName::new(&format!("test{}", i));

        disk.write_note(&teststore, &testproject, &note).expect("can not write note to store");

        testprojects.push(Project { name: testproject, notes: notes.clone(), archived: false });
    }
    testprojects.sort_by(|a, b| a.name.cmp(&b.name));

    let storeprojects = disk.get_projects(&teststore).expect("can not get projects from store");

    if testprojects.len() != storeprojects.len() {
        panic!(
            "storeprojects length ({}) is not testprojects length ({})",
            storeprojects.len(),
            testprojects.len()
        )
    }

    assert_eq!(testprojects, storeprojects);
}

#[test]
fn archive_project() {
    let teststore = CSVStore::new("lablog_store_csv_test_get_projects".to_string());
    let mut disk = Disk::new();
    let testname = ProjectName::new("test");

    let note = Note { time_stamp: now(), value: "test".to_string() };

    disk.write_note(&teststore, &testname, &note).expect("can not write note to store");

    let notes = vec![note];

    disk.archive_project(&teststore, &testname).expect("can not archive project");

    let testproject = Project { archived: true, name: testname.clone(), notes };

    let storeproject = disk.get_project(&teststore, testname, true).expect("can not get project from store");

    assert_eq!(testproject, storeproject);
}

#[test]
fn archive_project_merging() {
    let teststore = CSVStore::new("lablog_store_csv_test_get_projects".to_string());
    let mut disk = Disk::new();
    let testname = ProjectName::new("test");

    let note = Note { time_stamp: now(), value: "test".to_string() };

    let note2 = Note { time_stamp: now(), value: "test2".to_string() };

    disk.write_note(&teststore, &testname, &note).expect("can not write note to store");

    disk.archive_project(&teststore, &testname).expect("can not archive project");

    disk.write_note(&teststore, &testname, &note2).expect("can not write note to store");

    disk.archive_project(&teststore, &testname).expect("can not archive project");

    let notes = sorted_notes(vec![note, note2]);

    let testproject = Project { archived: true, name: testname.clone(), notes };

    let storeproject = disk.get_project(&teststore, testname, true).expect("can not get project from store");

    assert_eq!(testproject, storeproject);
}

#[test]
fn name_round_trip_for_any_number_of_segments() {
    let store = CSVStore::new("/data".to_string());
    for name in ["", "a", "a.b", "a.b.c", "work.lab.2024.notes"] {
        let name = ProjectName::new(name);
        let path = store.project_path(&name);
        assert_eq!(store.project_name_from_path(&path), Ok(name));
    }
}

#[test]
fn paths_follow_the_segments() {
    let store = CSVStore::new("/data".to_string());
    let name = ProjectName::new("a.b.c");
    assert_eq!(store.project_path(&name), "/data/a/b/c.csv");
    assert_eq!(store.project_archive_path(&name), "/data/.archive/a/b/c.csv");
    assert_eq!(store.project_path(&ProjectName::new("")), "/data/.csv");
}

#[test]
fn name_from_path_strips_any_extension() {
    let store = CSVStore::new("/data/".to_string());
    assert_eq!(store.project_name_from_path("/data/x/y.txt"), Ok(ProjectName::new("x.y")));
    assert_eq!(store.project_name_from_path("/data/x/y"), Ok(ProjectName::new("x.y")));
}

#[test]
fn path_outside_the_store_is_an_error() {
    let store = CSVStore::new("/data".to_string());
    assert_eq!(
        store.project_name_from_path("/elsewhere/a.csv"),
        Err(ErrorKind::PathOutsideStore("/elsewhere/a.csv".to_string()))
    );
    assert_eq!(
        store.project_name_from_path("/database/a.csv"),
        Err(ErrorKind::PathOutsideStore("/database/a.csv".to_string()))
    );
}

#[test]
fn empty_note_is_refused_before_any_write() {
    let store = CSVStore::new("/data".to_string());
    let mut disk = Disk::new();
    let note = Note { time_stamp: Timestamp { secs: 0, nanos: 0 }, value: String::new() };
    assert_eq!(
        disk.write_note(&store, &ProjectName::new("a"), &note),
        Err(ErrorKind::NoteHasEmptyValue)
    );
    assert!(disk.files.is_empty());
}

#[test]
fn record_line_is_rfc3339_then_text() {
    let store = CSVStore::new("/data".to_string());
    let note = Note { time_stamp: Timestamp { secs: 0, nanos: 0 }, value: "test".to_string() };
    let plan = store.note_write(&ProjectName::new("a.b"), &note).unwrap();
    assert_eq!(plan.record, "1970-01-01T00:00:00Z,test\n");
    assert_eq!(plan.path, "/data/a/b.csv");
    assert_eq!(plan.directory, "/data/a");
}

#[test]
fn record_line_quotes_special_text() {
    let store = CSVStore::new("/data".to_string());
    let note = Note {
        time_stamp: Timestamp { secs: 981173106, nanos: 500_000_000 },
        value: "a,\"b\"\nc".to_string(),
    };
    let plan = store.note_write(&ProjectName::new("a"), &note).unwrap();
    assert_eq!(plan.record, "2001-02-03T04:05:06.500Z,\"a,\"\"b\"\"\nc\"\n");
    let project = project_from_content(ProjectName::new("a"), false, Some(&plan.record)).unwrap();
    assert_eq!(project.notes, vec![note]);
}

#[test]
fn unrepresentable_timestamp_cannot_be_recorded() {
    let store = CSVStore::new("/data".to_string());
    let note = Note { time_stamp: Timestamp { secs: i64::MAX, nanos: 0 }, value: "x".to_string() };
    assert_eq!(store.note_write(&ProjectName::new("a"), &note).err(), Some(ErrorKind::RecordEncoding));
}

#[test]
fn duplicate_notes_collapse() {
    let store = CSVStore::new("/data".to_string());
    let mut disk = Disk::new();
    let name = ProjectName::new("dup");
    let first = Note { time_stamp: Timestamp { secs: 10, nanos: 0 }, value: "same".to_string() };
    let second = Note { time_stamp: Timestamp { secs: 5, nanos: 0 }, value: "other".to_string() };
    disk.write_note(&store, &name, &first).unwrap();
    disk.write_note(&store, &name, &second).unwrap();
    disk.write_note(&store, &name, &first).unwrap();
    let project = disk.get_project(&store, name, false).unwrap();
    assert_eq!(project.notes, vec![second, first]);
}

#[test]
fn missing_project_is_an_error() {
    let store = CSVStore::new("/data".to_string());
    let disk = Disk::new();
    assert_eq!(
        disk.get_project(&store, ProjectName::new("nope"), false),
        Err(ErrorKind::NoProjectWithThisName("nope".to_string()))
    );
}

#[test]
fn empty_file_is_an_empty_project() {
    let project = project_from_content(ProjectName::new("e"), false, Some("")).unwrap();
    assert!(project.notes.is_empty());
    assert_eq!(project.name, ProjectName::new("e"));
}

#[test]
fn malformed_records_are_errors() {
    let name = ProjectName::new("m");
    assert_eq!(
        project_from_content(name.clone(), false, Some("not a time,text\n")),
        Err(ErrorKind::RecordMalformed)
    );
    assert_eq!(
        project_from_content(name.clone(), false, Some("2001-02-03T04:05:06Z,a,b\n")),
        Err(ErrorKind::RecordMalformed)
    );
    assert_eq!(
        project_from_content(name, false, Some("2001-02-03T04:05:06Z,a\n2001-02-03T04:05:06Z\n")),
        Err(ErrorKind::RecordMalformed)
    );
}

#[test]
fn archive_without_active_file_is_an_error() {
    let store = CSVStore::new("/data".to_string());
    let name = ProjectName::new("gone");
    assert_eq!(
        store.archive_plan(&name, false, false).err(),
        Some(ErrorKind::NoProjectWithThisName("gone".to_string()))
    );
}

#[test]
fn archive_plan_moves_then_appends() {
    let store = CSVStore::new("/data".to_string());
    let name = ProjectName::new("a.b");
    match store.archive_plan(&name, true, false).unwrap() {
        ArchiveAction::Move { directory, from, to } => {
            assert_eq!(directory, "/data/.archive/a");
            assert_eq!(from, "/data/a/b.csv");
            assert_eq!(to, "/data/.archive/a/b.csv");
        }
        ArchiveAction::Append { .. } => panic!("expected a move"),
    }
    match store.archive_plan(&name, true, true).unwrap() {
        ArchiveAction::Append { from, to } => {
            assert_eq!(from, "/data/a/b.csv");
            assert_eq!(to, "/data/.archive/a/b.csv");
        }
        ArchiveAction::Move { .. } => panic!("expected an append"),
    }
}

#[test]
fn archiving_twice_keeps_every_note() {
    let store = CSVStore::new("/data".to_string());
    let mut disk = Disk::new();
    let name = ProjectName::new("keep");
    let mut written = Vec::new();
    for i in 0..3 {
        let note = Note { time_stamp: Timestamp { secs: 100 + i, nanos: 0 }, value: format!("n{}", i) };
        disk.write_note(&store, &name, &note).unwrap();
        written.push(note);
    }
    disk.archive_project(&store, &name).unwrap();
    assert!(!disk.files.contains_key(&store.project_path(&name)));
    for i in 0..2 {
        let note = Note { time_stamp: Timestamp { secs: 10 + i, nanos: 0 }, value: format!("m{}", i) };
        disk.write_note(&store, &name, &note).unwrap();
        written.push(note);
    }
    disk.archive_project(&store, &name).unwrap();
    assert!(!disk.files.contains_key(&store.project_path(&name)));
    let archived = disk.get_project(&store, name, true).unwrap();
    assert_eq!(archived.notes.len(), 5);
    assert_eq!(archived.notes, sorted_notes(written));
}

#[test]
fn listing_ignores_walk_order_and_archive() {
    let store = CSVStore::new("/data".to_string());
    let walk_a = vec![
        "/data/b.csv".to_string(),
        "/data/a/x.csv".to_string(),
        "/data/.archive/old.csv".to_string(),
        "/data/a.csv".to_string(),
    ];
    let walk_b = vec![
        "/data/a.csv".to_string(),
        "/data/a/x.csv".to_string(),
        "/data/b.csv".to_string(),
        "/data/a.csv".to_string(),
    ];
    let expected = vec![ProjectName::new("a"), ProjectName::new("a.x"), ProjectName::new("b")];
    assert_eq!(store.project_names_from_paths(&walk_a), Ok(expected.clone()));
    assert_eq!(store.project_names_from_paths(&walk_b), Ok(expected));
}

#[test]
fn listing_refuses_a_path_outside_the_store() {
    let store = CSVStore::new("/data".to_string());
    let walk = vec!["/data/a.csv".to_string(), "/tmp/b.csv".to_string()];
    assert_eq!(
        store.project_names_from_paths(&walk),
        Err(ErrorKind::PathOutsideStore("/tmp/b.csv".to_string()))
    );
}

#[test]
fn project_name_conversions() {
    let name = ProjectName::from("x.y".to_string());
    assert_eq!(name.as_str(), "x.y");
    assert_eq!(name.to_string(), "x.y");
    assert_eq!(name.duplicate(), ProjectName::new("x.y"));
}

#[test]
fn one_unreadable_project_fails_the_whole_listing() {
    let good = "1970-01-01T00:00:00Z,x\n".to_string();
    let files = vec![
        (ProjectName::new("a"), Some(good.clone())),
        (ProjectName::new("b"), Some("garbage\n".to_string())),
        (ProjectName::new("c"), None),
    ];
    assert_eq!(projects_from_contents(files), Err(ErrorKind::RecordMalformed));
    let files = vec![(ProjectName::new("a"), Some(good.clone())), (ProjectName::new("c"), None)];
    assert_eq!(
        projects_from_contents(files),
        Err(ErrorKind::NoProjectWithThisName("c".to_string()))
    );
    let files = vec![(ProjectName::new("a"), Some(good)), (ProjectName::new("b"), Some(String::new()))];
    let projects: Projects = projects_from_contents(files).unwrap();
    assert_eq!(projects.len(), 2);
    assert_eq!(projects[0].notes, vec![Note { time_stamp: Timestamp { secs: 0, nanos: 0 }, value: "x".to_string() }]);
    assert!(projects[1].notes.is_empty());
    assert!(!projects[1].archived);
}

#[test]
fn note_from_text_keeps_the_text() {
    let note = Note::from("hello".to_string());
    assert_eq!(note.value, "hello");
}
