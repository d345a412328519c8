use lablog::error::ErrorKind;
use lablog::memory::MemoryStore;
use lablog::note::Note;
use lablog::project::ProjectName;
use lablog::timestamp::Timestamp;

fn note(secs: i64, value: &str) -> Note {
    Note { time_stamp: Timestamp { secs, nanos: 0 }, value: value.to_string() }
}

#[test]
fn memory_write_then_read_collapses_duplicates() {
    let mut store = MemoryStore::new();
    let name = ProjectName::new("lab");
    store.write_note(&name, note(2, "b")).unwrap();
    store.write_note(&name, note(1, "a")).unwrap();
    store.write_note(&name, note(2, "b")).unwrap();
    let project = store.get_project(name.clone(), false).unwrap();
    assert_eq!(project.name, name);
    assert!(!project.archived);
    assert_eq!(project.notes, vec![note(1, "a"), note(2, "b")]);
}

#[test]
fn memory_empty_note_is_refused() {
    let mut store = MemoryStore::new();
    let name = ProjectName::new("lab");
    assert_eq!(store.write_note(&name, note(1, "")), Err(ErrorKind::NoteHasEmptyValue));
    assert_eq!(
        store.get_project(name, false).err(),
        Some(ErrorKind::NoProjectWithThisName("lab".to_string()))
    );
    assert!(store.get_projects_list().is_empty());
}

#[test]
fn memory_archive_twice_keeps_every_note() {
    let mut store = MemoryStore::new();
    let name = ProjectName::new("lab");
    store.write_note(&name, note(1, "a")).unwrap();
    store.write_note(&name, note(2, "b")).unwrap();
    store.archive_project(&name).unwrap();
    assert!(store.get_project(name.clone(), false).is_err());
    store.write_note(&name, note(3, "c")).unwrap();
    store.archive_project(&name).unwrap();
    let archived = store.get_project(name.clone(), true).unwrap();
    assert!(archived.archived);
    assert_eq!(archived.notes, vec![note(1, "a"), note(2, "b"), note(3, "c")]);
    assert_eq!(
        store.get_project(name.clone(), false).err(),
        Some(ErrorKind::NoProjectWithThisName("lab".to_string()))
    );
}

#[test]
fn memory_archive_without_active_notes_is_an_error() {
    let mut store = MemoryStore::new();
    let name = ProjectName::new("none");
    assert_eq!(
        store.archive_project(&name),
        Err(ErrorKind::NoProjectWithThisName("none".to_string()))
    );
}

#[test]
fn memory_lists_active_projects_only() {
    let mut store = MemoryStore::new();
    store.write_note(&ProjectName::new("a"), note(1, "x")).unwrap();
    store.write_note(&ProjectName::new("b"), note(1, "y")).unwrap();
    store.write_note(&ProjectName::new("a"), note(2, "z")).unwrap();
    store.archive_project(&ProjectName::new("b")).unwrap();
    let names = store.get_projects_list();
    assert_eq!(names, vec![ProjectName::new("a")]);
    let projects = store.get_projects();
    assert_eq!(projects.len(), 1);
    assert_eq!(projects[0].notes, vec![note(1, "x"), note(2, "z")]);
}
