use day_notes::date::{Date, Instant};
use day_notes::notes::{Note, NotesError, ParsedNote};

fn now() -> Instant {
    Instant { day: Date { year: 2025, month: 10, day: 12 }, secs: 3600 }
}

#[test]
fn test_parse_none() {
    let table = vec![" - [ ] :", " - [x] :1:", " - [x] :"];
    for input in table {
        println!("{}", input);
        let note = ParsedNote::parse_pretty_md(input, now()).unwrap();
        assert!(note.is_none());
    }
}

#[test]
fn test_parse_new_notes() {
    let table = vec![
        ((false, "hi"), " - [ ] : hi"),
        ((true, "hi"), " - [x] :hi "),
        ((true, "1 text with spaces"), " - [x] :1 text with spaces"),
    ];
    for ((comp, text), input) in table {
        println!("{}", input);
        let note = ParsedNote::parse_pretty_md(input, now())
            .unwrap()
            .unwrap()
            .new_note()
            .unwrap();
        assert_eq!(note.completed, comp, "{}", input);
        assert_eq!(note.body, text, "{}", input);
    }
}

#[test]
fn test_parse_notes() {
    let table = vec![
        ((false, 42, "hi"), " - [ ] :42: hi"),
        ((true, 34, "hi"), " - [x] :34: hi"),
        (
            (true, 123456908, "text with spaces"),
            " - [x] :123456908: text with spaces",
        ),
    ];
    for ((comp, id, text), input) in table {
        let note = ParsedNote::parse_pretty_md(input, now())
            .unwrap()
            .unwrap()
            .note()
            .unwrap();
        assert_eq!(note.completed, comp);
        assert_eq!(note.id, id);
        assert_eq!(note.body, text);
    }
}

#[test]
fn test_parse_notes_fail() {
    let table = vec![
        "-[] :  ",
        "[]",
        " - [ ];34;",
        "dj;salkj",
        ";saldjf;asljdf;as",
        " - [ ];34: test",
        " - [ ]:34; test",
        " - [ ]:hi: test",
    ];
    for input in table {
        let note = ParsedNote::parse_pretty_md(input, now());
        assert!(note.is_err(), "{}", input);
    }
}

#[test]
fn test_parse_plus_sign_id() {
    // u32-style parsing accepts a leading plus on the id field
    let note = ParsedNote::parse_pretty_md(" - [ ] :+42: hi", now())
        .unwrap()
        .unwrap()
        .note()
        .unwrap();
    assert_eq!(note.id, 42);
}

#[test]
fn test_parse_id_bounds() {
    let note = ParsedNote::parse_pretty_md(" - [ ] :4294967295: edge", now())
        .unwrap()
        .unwrap()
        .note()
        .unwrap();
    assert_eq!(note.id, u32::MAX);
    let too_big = ParsedNote::parse_pretty_md(" - [ ] :4294967296: edge", now());
    assert!(matches!(too_big, Err(NotesError::MalformedId(_))));
}

#[test]
fn test_parse_malformed_id_text() {
    let r = ParsedNote::parse_pretty_md(" - [ ] :hi there: body", now());
    match r {
        Err(NotesError::MalformedId(t)) => assert_eq!(t, "hi there"),
        other => panic!("expected a malformed id, got {:?}", other),
    }
}

#[test]
fn test_parse_malformed_line_text() {
    let r = ParsedNote::parse_pretty_md("-[] :  ", now());
    assert!(matches!(r, Err(NotesError::MalformedLine(_))));
}

#[test]
fn test_note_pretty() {
    let open = Note { id: 7, body: String::from("buy milk"), completed: false };
    assert_eq!(open.pretty(), " - [ ] :7: buy milk");
    let done = Note { id: 8, body: String::from("call dentist"), completed: true };
    assert_eq!(done.pretty(), " - [x] :8: call dentist");
}

#[test]
fn test_pretty_empty() {
    assert_eq!(Note::pretty_empty(), " - [ ] :");
}

#[test]
fn test_note_round_trip() {
    let original = Note { id: 314, body: String::from("water: the plants"), completed: true };
    let line = original.pretty();
    let back = ParsedNote::parse_pretty_md(&line, now())
        .unwrap()
        .unwrap()
        .note()
        .unwrap();
    assert_eq!(back.id, 314);
    assert_eq!(back.body, "water: the plants");
    assert!(back.completed);
}
