use day_notes::date::{Date, Instant};
use day_notes::notes::NewNote;
use day_notes::store::NoteStore;
use day_notes::Period;

fn d(year: u32, month: u32, day: u32) -> Date {
    Date { year, month, day }
}

#[test]
fn test_get_day_notes() {
    let mut store = NoteStore::new();
    let day = d(2025, 10, 12);
    store.insert_day(day, None, "").unwrap();
    let notes = store.get_day_notes_in_range(day, day).unwrap();
    assert_eq!(notes.len(), 1);
}

#[test]
fn test_get_day_notes_none() {
    let mut store = NoteStore::new();
    let day = d(2025, 10, 12);
    store.insert_day(day, None, "").unwrap();
    let notes = store.get_day_notes_in_range(day, day).unwrap();
    assert_eq!(notes[0].notes.len(), 0);
}

#[test]
fn test_range_gap_filling() {
    let mut store = NoteStore::new();
    // only day three of the week holds notes
    let third = d(2025, 10, 3);
    store
        .insert_note(NewNote::new("lonely", Instant { day: third, secs: 60 }))
        .unwrap();
    let out = store
        .get_day_notes_in_range(d(2025, 10, 1), d(2025, 10, 7))
        .unwrap();
    assert_eq!(out.len(), 7);
    for (k, entry) in out.iter().enumerate() {
        assert_eq!(entry.date, d(2025, 10, (k + 1) as u32));
        if entry.date == third {
            assert_eq!(entry.note_count, 1);
            assert_eq!(entry.notes[0].body, "lonely");
        } else {
            assert_eq!(entry.note_count, 0);
            assert!(entry.notes.is_empty());
        }
    }
}

#[test]
fn test_range_over_month_boundary() {
    let store = NoteStore::new();
    let out = store
        .get_day_notes_in_range(d(2024, 2, 27), d(2024, 3, 2))
        .unwrap();
    let dates: Vec<Date> = out.iter().map(|e| e.date).collect();
    assert_eq!(
        dates,
        vec![d(2024, 2, 27), d(2024, 2, 28), d(2024, 2, 29), d(2024, 3, 1), d(2024, 3, 2)]
    );
}

#[test]
fn test_sorted_by_created_at() {
    let mut store = NoteStore::new();
    let day = d(2025, 10, 12);
    store
        .insert_note(NewNote::new("later", Instant { day, secs: 100 }))
        .unwrap();
    store
        .insert_note(NewNote::new("earlier", Instant { day, secs: 50 }))
        .unwrap();
    let snapshot = store.get_days_notes(day).unwrap();
    assert_eq!(snapshot.notes[0].body, "earlier");
    assert_eq!(snapshot.notes[1].body, "later");
}

#[test]
fn test_date() {
    let base = d(2024, 2, 28);
    for hour in 0..24 {
        let time = Instant { day: base, secs: hour * 3600 };
        for day in 0..2 {
            let out = day_notes::date::map_day(&time.day, Some(day)).unwrap();
            let expected = if day == 0 { d(2024, 2, 28) } else { d(2024, 2, 29) };
            assert_eq!(out, expected);
        }
    }
}

#[test]
fn test_map_day_negative() {
    let out = day_notes::date::map_day(&d(2025, 1, 1), Some(-1)).unwrap();
    assert_eq!(out, d(2024, 12, 31));
    let none = day_notes::date::map_day(&d(2025, 6, 15), None).unwrap();
    assert_eq!(none, d(2025, 6, 15));
}

#[test]
fn test_map_day_calendar_edge() {
    assert!(day_notes::date::map_day(&d(9999, 12, 31), Some(1)).is_none());
    assert!(day_notes::date::map_day(&d(0, 1, 1), Some(-1)).is_none());
}

#[test]
fn test_period_day_counts() {
    assert_eq!(Period::Week.to_day_count(), 7);
    assert_eq!(Period::Month.to_day_count(), 30);
}
