use day_notes::date::{Date, Instant};
use day_notes::notes::{DayNotes, Note, NotesError, ParsedDayNotes};

fn now() -> Instant {
    Instant { day: Date { year: 2025, month: 10, day: 12 }, secs: 3600 }
}

fn lines_of(text: &str) -> Vec<String> {
    text.lines().map(String::from).collect()
}

#[test]
fn test_parse_day_note() {
    let lines = lines_of(
        "\n# Day: 2025-10-12\n\n - [ ] :\n\nsome words for the day\n---\n",
    );
    let (doc, _rest) = ParsedDayNotes::parse_pretty_md(&lines, 0, now()).unwrap();
    assert_eq!(doc.notes.len(), 0);
    assert_eq!(doc.note_count, 0);
    assert_eq!(doc.date, Date { year: 2025, month: 10, day: 12 });
    assert_eq!(doc.day_text, "some words for the day\n");
}

#[test]
fn test_parse_day_note_double() {
    let lines = lines_of(
        "# Day: 2025-10-12\n\nfirst day text\n---\n# Day: 2025-10-13\n\n - [ ] :1: hi\n - [x] :new item\n - [ ] :\n---\n",
    );
    let (first, cursor) = ParsedDayNotes::parse_pretty_md(&lines, 0, now()).unwrap();
    assert_eq!(first.notes.len(), 0);
    let (second, _rest) = ParsedDayNotes::parse_pretty_md(&lines, cursor, now()).unwrap();
    assert_eq!(second.notes.len(), 2);
    assert_eq!(second.date, Date { year: 2025, month: 10, day: 13 });
    assert!(second.notes[0].is_note(), "{:?}", second.notes);
    assert!(second.notes[1].is_new_note());
}

#[test]
fn test_parse_sample_document() {
    let lines = lines_of(
        "# Today: 2025-10-12\n\n - [ ] :1: buy milk\n - [x] :2: call dentist\n - [ ] :\n\nFree-form notes for the day go here.\n---\n",
    );
    let (doc, cursor) = ParsedDayNotes::parse_pretty_md(&lines, 0, now()).unwrap();
    assert_eq!(doc.date, Date { year: 2025, month: 10, day: 12 });
    assert_eq!(doc.note_count, 2);
    assert!(doc.notes[0].is_note());
    assert!(doc.notes[1].is_note());
    assert_eq!(doc.day_text, "Free-form notes for the day go here.\n");
    // the terminator is consumed, so the cursor sits after the block
    assert_eq!(cursor, lines.len());
}

#[test]
fn test_parse_day_empty_stream() {
    let lines: Vec<String> = Vec::new();
    let r = ParsedDayNotes::parse_pretty_md(&lines, 0, now());
    assert!(matches!(r, Err(NotesError::MissingHeader)));
}

#[test]
fn test_parse_day_without_terminator() {
    let lines = lines_of("# Day: 2025-10-12\n\ntail text\n");
    let (doc, cursor) = ParsedDayNotes::parse_pretty_md(&lines, 0, now()).unwrap();
    assert_eq!(doc.day_text, "tail text\n");
    assert_eq!(cursor, lines.len());
}

#[test]
fn test_parse_day_missing_header() {
    let lines = lines_of("just some text\nand some more\n");
    let r = ParsedDayNotes::parse_pretty_md(&lines, 0, now());
    assert!(matches!(r, Err(NotesError::MissingHeader)));
}

#[test]
fn test_parse_day_invalid_date() {
    let lines = lines_of("# Day: 2025-13-01\n\n---\n");
    let r = ParsedDayNotes::parse_pretty_md(&lines, 0, now());
    match r {
        Err(NotesError::InvalidDate(t)) => assert_eq!(t, "2025-13-01"),
        other => panic!("expected an invalid date, got {:?}", other),
    }
}

#[test]
fn test_parse_day_malformed_note_aborts() {
    let lines = lines_of("# Day: 2025-10-12\n\n- [ ]:broken: line\n---\n");
    let r = ParsedDayNotes::parse_pretty_md(&lines, 0, now());
    assert!(matches!(r, Err(NotesError::MalformedLine(_))));
}

#[test]
fn test_pretty_md_format() {
    let day = DayNotes {
        notes: vec![
            Note { id: 1, body: String::from("buy milk"), completed: false },
            Note { id: 2, body: String::from("call dentist"), completed: true },
        ],
        note_count: 2,
        date: Date { year: 2025, month: 10, day: 12 },
        day_text: String::from("Free-form notes for the day go here.\n"),
    };
    let other = Date { year: 2025, month: 10, day: 13 };
    let expected = "# Day: 2025-10-12\n\n - [ ] :1: buy milk\n - [x] :2: call dentist\n - [ ] :\n\nFree-form notes for the day go here.\n---";
    assert_eq!(day.pretty_md(&other), expected);
    let today = Date { year: 2025, month: 10, day: 12 };
    let expected_today = "# Today: 2025-10-12\n\n - [ ] :1: buy milk\n - [x] :2: call dentist\n - [ ] :\n\nFree-form notes for the day go here.\n---";
    assert_eq!(day.pretty_md(&today), expected_today);
}

#[test]
fn test_pretty_terminal_format() {
    let day = DayNotes {
        notes: vec![Note { id: 1, body: String::from("buy milk"), completed: false }],
        note_count: 1,
        date: Date { year: 2025, month: 10, day: 12 },
        day_text: String::from("later\n"),
    };
    let other = Date { year: 2025, month: 10, day: 13 };
    let expected = "\u{1b}[1mDay: \u{1b}[32m2025-10-12\u{1b}[0m \n\n\u{1b}[0m - [ ] :1: buy milk\n\nlater\n";
    assert_eq!(day.pretty(&other), expected);
}

#[test]
fn test_pretty_terminal_no_notes() {
    let day = DayNotes {
        notes: vec![],
        note_count: 0,
        date: Date { year: 2025, month: 10, day: 12 },
        day_text: String::new(),
    };
    let today = Date { year: 2025, month: 10, day: 12 };
    let expected = "\u{1b}[1mToday: \u{1b}[32m2025-10-12\u{1b}[0m \n\n\u{1b}[0mNo Notes.\n";
    assert_eq!(day.pretty(&today), expected);
}

#[test]
fn test_day_prefix() {
    let day = DayNotes {
        notes: vec![],
        note_count: 0,
        date: Date { year: 2025, month: 10, day: 12 },
        day_text: String::new(),
    };
    assert_eq!(day.day_prefix(&Date { year: 2025, month: 10, day: 12 }), "Today");
    assert_eq!(day.day_prefix(&Date { year: 2025, month: 10, day: 13 }), "Day");
}

#[test]
fn test_day_round_trip() {
    let day = DayNotes {
        notes: vec![
            Note { id: 5, body: String::from("one"), completed: true },
            Note { id: 9, body: String::from("two"), completed: false },
        ],
        note_count: 2,
        date: Date { year: 2024, month: 2, day: 29 },
        day_text: String::from("leap day\n"),
    };
    let text = day.pretty_md(&Date { year: 2025, month: 1, day: 1 });
    let lines = lines_of(&text);
    let (doc, _rest) = ParsedDayNotes::parse_pretty_md(&lines, 0, now()).unwrap();
    assert_eq!(doc.date, day.date);
    assert_eq!(doc.day_text, "leap day\n");
    assert_eq!(doc.notes.len(), 2);
    match &doc.notes[0] {
        day_notes::notes::ParsedNote::Note(n) => {
            assert_eq!(n.id, 5);
            assert_eq!(n.body, "one");
            assert!(n.completed);
        },
        other => panic!("expected an update intent, got {:?}", other),
    }
    match &doc.notes[1] {
        day_notes::notes::ParsedNote::Note(n) => {
            assert_eq!(n.id, 9);
            assert_eq!(n.body, "two");
            assert!(!n.completed);
        },
        other => panic!("expected an update intent, got {:?}", other),
    }
}
