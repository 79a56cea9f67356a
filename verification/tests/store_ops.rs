use day_notes::date::{Date, Instant};
use day_notes::notes::{NewNote, Note, NotesError, ParsedDayNotes, ParsedNote};
use day_notes::store::NoteStore;

fn day() -> Date {
    Date { year: 2025, month: 10, day: 12 }
}

fn now() -> Instant {
    Instant { day: day(), secs: 3600 }
}

fn at(secs: u32) -> Instant {
    Instant { day: day(), secs }
}

#[test]
fn test_parse_note() {
    let mut store = NoteStore::new();
    let n = Note::from_pretty(&mut store, "- [ ] : test", now())
        .unwrap()
        .unwrap();
    assert_eq!(n.body, "test");
}

#[test]
fn test_parse_note_none() {
    let mut store = NoteStore::new();
    let n = Note::from_pretty(&mut store, "- [ ] :    ", now()).unwrap();
    assert!(n.is_none());
}

#[test]
fn test_parse_note_not_exist() {
    let mut store = NoteStore::new();
    let n = Note::from_pretty(&mut store, "- [x] :10: hi", now());
    assert!(n.is_err())
}

#[test]
fn test_parse_note_exist() {
    let mut store = NoteStore::new();
    let n_base = store.insert_note(NewNote::new("test", now())).unwrap();
    let n = Note::from_pretty(&mut store, "- [x] :1: hi", now())
        .unwrap()
        .unwrap();
    assert_eq!(n.body, "hi", "Expect body to update.");
    assert_eq!(n.id, n_base.id);
    assert!(n.completed)
}

#[test]
fn test_parse_dirty() {
    let mut store = NoteStore::new();
    store.insert_note(NewNote::new("test", now())).unwrap();
    let n = Note::from_pretty(&mut store, "text\n- [x] :1: hi", now());
    assert!(n.is_err())
}

#[test]
fn test_update_completion() {
    let mut store = NoteStore::new();
    let mut to_insert = NewNote::new("test", now());
    to_insert.completed = true;
    store.insert_note(to_insert).unwrap();
    let n = Note::from_pretty(&mut store, " - [ ] :1: hi", now())
        .unwrap()
        .unwrap();
    assert!(!n.completed)
}

#[test]
fn test_invalid_id_fail() {
    let mut store = NoteStore::new();
    store.insert_note(NewNote::new("test", now())).unwrap();
    let n = Note::from_pretty(&mut store, " - [ ] :42: hi", now());
    assert!(n.is_err())
}

#[test]
fn test_parse_note_id_empty_body_noop() {
    let mut store = NoteStore::new();
    store.insert_note(NewNote::new("kept", now())).unwrap();
    // an id-bearing line whose body trims to nothing is a no-op, not an edit
    let r = Note::from_pretty(&mut store, " - [ ] :1:   ", now()).unwrap();
    assert!(r.is_none());
    let after = store.get_days_notes(day()).unwrap();
    assert_eq!(after.notes[0].body, "kept");
}

#[test]
fn test_insert_day_twice_fails() {
    let mut store = NoteStore::new();
    store.insert_day(day(), None, "text").unwrap();
    let again = store.insert_day(day(), Some(3), "other");
    assert!(matches!(again, Err(NotesError::PersistenceFailure(_))));
}

#[test]
fn test_fetch_day() {
    let mut store = NoteStore::new();
    assert!(store.fetch_day(&day()).unwrap().is_none());
    store.insert_day(day(), Some(2), "hello").unwrap();
    let row = store.fetch_day(&day()).unwrap().unwrap();
    assert_eq!(row.id, 1);
    assert_eq!(row.task_count, 2);
    assert_eq!(row.day_text, "hello");
}

#[test]
fn test_update_day_text() {
    let mut store = NoteStore::new();
    store.insert_day(day(), None, "before").unwrap();
    store.update_day_text(day(), "after").unwrap();
    assert_eq!(store.fetch_day(&day()).unwrap().unwrap().day_text, "after");
}

#[test]
fn test_soft_delete_excludes() {
    let mut store = NoteStore::new();
    store.insert_note(NewNote::new("keep", now())).unwrap();
    store.insert_note(NewNote::new("drop", now())).unwrap();
    store.soft_delte_note_by_id(2, now()).unwrap();
    let snapshot = store.get_days_notes(day()).unwrap();
    assert_eq!(snapshot.note_count, 1);
    assert_eq!(snapshot.notes[0].body, "keep");
}

fn new_doc(notes: Vec<ParsedNote>, day_text: &str) -> ParsedDayNotes {
    let count = notes.len() as u32;
    ParsedDayNotes {
        notes,
        note_count: count,
        date: day(),
        day_text: String::from(day_text),
    }
}

#[test]
fn test_persist_inserts() {
    let mut store = NoteStore::new();
    let doc = new_doc(
        vec![
            ParsedNote::NewNote(NewNote::new("first", at(10))),
            ParsedNote::NewNote(NewNote::new("second", at(20))),
        ],
        "daily text\n",
    );
    let out = store.persist_parsed_day_note(doc, at(30)).unwrap();
    assert_eq!(out.note_count, 2);
    assert_eq!(out.notes[0].id, 1);
    assert_eq!(out.notes[0].body, "first");
    assert_eq!(out.notes[1].id, 2);
    assert_eq!(out.notes[1].body, "second");
    assert_eq!(out.day_text, "daily text\n");
    assert_eq!(out.date, day());
}

#[test]
fn test_deletion_by_omission() {
    let mut store = NoteStore::new();
    let seed = new_doc(
        vec![
            ParsedNote::NewNote(NewNote::new("one", at(10))),
            ParsedNote::NewNote(NewNote::new("two", at(20))),
            ParsedNote::NewNote(NewNote::new("three", at(30))),
        ],
        "",
    );
    store.persist_parsed_day_note(seed, at(40)).unwrap();
    let edit = new_doc(
        vec![
            ParsedNote::Note(Note { id: 1, body: String::from("one"), completed: false }),
            ParsedNote::Note(Note { id: 3, body: String::from("three"), completed: false }),
        ],
        "",
    );
    let out = store.persist_parsed_day_note(edit, at(50)).unwrap();
    assert_eq!(out.note_count, 2);
    assert_eq!(out.notes[0].id, 1);
    assert_eq!(out.notes[1].id, 3);
    let later = store.get_days_notes(day()).unwrap();
    assert_eq!(later.note_count, 2);
    assert!(later.notes.iter().all(|n| n.id != 2));
}

#[test]
fn test_unknown_id_update_fails_atomically() {
    let mut store = NoteStore::new();
    let seed = new_doc(vec![ParsedNote::NewNote(NewNote::new("only", at(10)))], "kept\n");
    store.persist_parsed_day_note(seed, at(20)).unwrap();
    let bad = new_doc(
        vec![ParsedNote::Note(Note { id: 999, body: String::from("x"), completed: true })],
        "clobbered\n",
    );
    let r = store.persist_parsed_day_note(bad, at(30));
    match r {
        Err(NotesError::NotFound(id)) => assert_eq!(id, 999),
        other => panic!("expected an unknown-id failure, got {:?}", other),
    }
    let after = store.get_days_notes(day()).unwrap();
    assert_eq!(after.note_count, 1);
    assert_eq!(after.notes[0].id, 1);
    assert_eq!(after.notes[0].body, "only");
    assert_eq!(after.day_text, "kept\n");
}

#[test]
fn test_persist_idempotent() {
    let mut store = NoteStore::new();
    let seed = new_doc(
        vec![
            ParsedNote::NewNote(NewNote::new("alpha", at(10))),
            ParsedNote::NewNote(NewNote::new("beta", at(20))),
        ],
        "",
    );
    store.persist_parsed_day_note(seed, at(30)).unwrap();
    let edit = |text: &str| {
        new_doc(
            vec![
                ParsedNote::Note(Note { id: 1, body: String::from("alpha"), completed: true }),
                ParsedNote::Note(Note { id: 2, body: String::from("beta"), completed: false }),
            ],
            text,
        )
    };
    let first = store.persist_parsed_day_note(edit("same\n"), at(40)).unwrap();
    let second = store.persist_parsed_day_note(edit("same\n"), at(50)).unwrap();
    assert_eq!(first.note_count, second.note_count);
    assert_eq!(first.date, second.date);
    assert_eq!(first.day_text, second.day_text);
    for (a, b) in first.notes.iter().zip(second.notes.iter()) {
        assert_eq!(a.id, b.id);
        assert_eq!(a.body, b.body);
        assert_eq!(a.completed, b.completed);
    }
}

#[test]
fn test_persist_overwrites_day_text() {
    let mut store = NoteStore::new();
    store
        .persist_parsed_day_note(new_doc(vec![], "first version\n"), at(10))
        .unwrap();
    let out = store
        .persist_parsed_day_note(new_doc(vec![], "second version\n"), at(20))
        .unwrap();
    assert_eq!(out.day_text, "second version\n");
    assert_eq!(
        store.fetch_day(&day()).unwrap().unwrap().day_text,
        "second version\n"
    );
}

#[test]
fn test_parse_notes_string_end_to_end() {
    let mut store = NoteStore::new();
    let text = "# Day: 2025-10-12\n\n - [ ] :new entry\n - [ ] :\n\nremember this\n---";
    let lines: Vec<String> = text.lines().map(String::from).collect();
    let out = day_notes::store::parse_notes_string(&lines, &mut store, now()).unwrap();
    assert_eq!(out.note_count, 1);
    assert_eq!(out.notes[0].body, "new entry");
    assert_eq!(out.day_text, "remember this\n");
}
