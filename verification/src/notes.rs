//! Notes and the line-oriented text format: one line per note, and a
//! day-document form that groups a date header, note lines and free text.
use vstd::prelude::*;

use crate::chars::{
    chars_to_string, find_char_from, first_index_of, is_digit_char, is_space_char, is_trimmed,
    lemma_first_index_of, lemma_first_index_of_converse, lemma_parse_u32_round_trip,
    lemma_trim_is_subrange, lemma_u32_digits, parse_u32_chars, parse_u32_spec, str_to_chars,
    sub_chars, trim_chars, trim_spec, u32_digits_spec, u32_to_chars,
};
use crate::date::{parse_date_chars, parse_date_spec, valid_date, Date, Instant};

verus! {

// ---------------------------------------------------------------------------
// Data model
// ---------------------------------------------------------------------------

/// Mathematical image of a persisted note.
pub struct NoteV {
    pub id: u32,
    pub body: Seq<char>,
    pub completed: bool,
}

/// A persisted note: stable id, body text, completion flag.
#[derive(Debug)]
pub struct Note {
    pub id: u32,
    pub body: String,
    pub completed: bool,
}

impl View for Note {
    type V = NoteV;

    open spec fn view(&self) -> NoteV {
        NoteV { id: self.id, body: self.body@, completed: self.completed }
    }
}

impl DeepView for Note {
    type V = NoteV;

    open spec fn deep_view(&self) -> NoteV {
        self@
    }
}

pub struct NewNoteV {
    pub body: Seq<char>,
    pub completed: bool,
    pub created_at: Instant,
}

/// A note that has no identity yet; it becomes a `Note` once persisted.
#[derive(Debug)]
pub struct NewNote {
    pub body: String,
    pub completed: bool,
    pub created_at: Instant,
}

impl View for NewNote {
    type V = NewNoteV;

    open spec fn view(&self) -> NewNoteV {
        NewNoteV { body: self.body@, completed: self.completed, created_at: self.created_at }
    }
}

pub enum ParsedNoteV {
    Note(NoteV),
    NewNote(NewNoteV),
}

/// The intent recovered from one edited note line: an update of an existing
/// note (the line carried an id) or a request for a new one (no id).
#[derive(Debug)]
pub enum ParsedNote {
    Note(Note),
    NewNote(NewNote),
}

impl View for ParsedNote {
    type V = ParsedNoteV;

    open spec fn view(&self) -> ParsedNoteV {
        match self {
            ParsedNote::Note(n) => ParsedNoteV::Note(n@),
            ParsedNote::NewNote(n) => ParsedNoteV::NewNote(n@),
        }
    }
}

impl DeepView for ParsedNote {
    type V = ParsedNoteV;

    open spec fn deep_view(&self) -> ParsedNoteV {
        self@
    }
}

pub struct DayNotesV {
    pub notes: Seq<NoteV>,
    pub note_count: u32,
    pub date: Date,
    pub day_text: Seq<char>,
}

/// The authoritative snapshot of one day: its alive notes in creation order,
/// their count, and the day's free text.
#[derive(Debug)]
pub struct DayNotes {
    pub notes: Vec<Note>,
    pub note_count: u32,
    pub date: Date,
    pub day_text: String,
}

impl View for DayNotes {
    type V = DayNotesV;

    open spec fn view(&self) -> DayNotesV {
        DayNotesV {
            notes: self.notes.deep_view(),
            note_count: self.note_count,
            date: self.date,
            day_text: self.day_text@,
        }
    }
}

pub struct ParsedDayNotesV {
    pub notes: Seq<ParsedNoteV>,
    pub note_count: u32,
    pub date: Date,
    pub day_text: Seq<char>,
}

/// One parsed day document: date, note intents in source order, free text.
#[derive(Debug)]
pub struct ParsedDayNotes {
    pub notes: Vec<ParsedNote>,
    pub note_count: u32,
    pub date: Date,
    pub day_text: String,
}

impl View for ParsedDayNotes {
    type V = ParsedDayNotesV;

    open spec fn view(&self) -> ParsedDayNotesV {
        ParsedDayNotesV {
            notes: self.notes.deep_view(),
            note_count: self.note_count,
            date: self.date,
            day_text: self.day_text@,
        }
    }
}

pub enum NotesErrorV {
    MalformedLine(Seq<char>),
    MalformedId(Seq<char>),
    MissingHeader,
    InvalidDate(Seq<char>),
    NotFound(u32),
    PersistenceFailure(Seq<char>),
}

/// Everything that can go wrong while parsing or persisting, with the
/// offending text or id attached for diagnostics.
#[derive(Debug)]
pub enum NotesError {
    /// The line's leading token is not a recognised checkbox marker.
    MalformedLine(String),
    /// The id segment is not a valid non-negative integer.
    MalformedId(String),
    /// The stream ended before a date header line was found.
    MissingHeader,
    /// The header's date text is not a valid `YYYY-MM-DD` day.
    InvalidDate(String),
    /// An update referenced an id with no live row.
    NotFound(u32),
    /// The persistence layer refused an operation.
    PersistenceFailure(String),
}

impl View for NotesError {
    type V = NotesErrorV;

    open spec fn view(&self) -> NotesErrorV {
        match self {
            NotesError::MalformedLine(s) => NotesErrorV::MalformedLine(s@),
            NotesError::MalformedId(s) => NotesErrorV::MalformedId(s@),
            NotesError::MissingHeader => NotesErrorV::MissingHeader,
            NotesError::InvalidDate(s) => NotesErrorV::InvalidDate(s@),
            NotesError::NotFound(id) => NotesErrorV::NotFound(*id),
            NotesError::PersistenceFailure(s) => NotesErrorV::PersistenceFailure(s@),
        }
    }
}

// ---------------------------------------------------------------------------
// The note-line grammar
// ---------------------------------------------------------------------------

/// The open-checkbox marker `- [ ] :` that starts a trimmed note line.
pub open spec fn open_marker() -> Seq<char> {
    seq!['-', ' ', '[', ' ', ']', ' ', ':']
}

/// The completed-checkbox marker `- [x] :`.
pub open spec fn done_marker() -> Seq<char> {
    seq!['-', ' ', '[', 'x', ']', ' ', ':']
}

pub open spec fn has_marker(t: Seq<char>) -> bool {
    t.len() >= 7 && (t.subrange(0, 7) == open_marker() || t.subrange(0, 7) == done_marker())
}

pub open spec fn marker_completed(t: Seq<char>) -> bool {
    t.subrange(0, 7) == done_marker()
}

/// The trimmed body text of a marker line: what follows the second colon if
/// the line has an id field, else everything after the marker.
pub open spec fn body_of_line(t: Seq<char>) -> Seq<char> {
    let rest = t.subrange(7, t.len() as int);
    match first_index_of(rest, ':') {
        Some(j) => trim_spec(rest.subrange(j + 1, rest.len() as int)),
        None => trim_spec(rest),
    }
}

/// What parsing one note line yields: an intent, nothing (a no-op line), or
/// an error. Mirrors the line grammar exactly: optional surrounding
/// whitespace, a checkbox marker, an optional id delimited by colons, and
/// body text.
pub open spec fn parse_note_spec(s: Seq<char>, now: Instant) -> Result<
    Option<ParsedNoteV>,
    NotesErrorV,
> {
    let t = trim_spec(s);
    if t.len() < 7 {
        Err(NotesErrorV::MalformedLine(t))
    } else if !has_marker(t) {
        Err(NotesErrorV::MalformedLine(t.subrange(0, 7)))
    } else {
        let completed = marker_completed(t);
        let rest = t.subrange(7, t.len() as int);
        let body = body_of_line(t);
        match first_index_of(rest, ':') {
            Some(j) => {
                if body.len() == 0 {
                    Ok(None)
                } else {
                    match parse_u32_spec(rest.subrange(0, j)) {
                        Some(id) => Ok(
                            Some(ParsedNoteV::Note(NoteV { id, body, completed })),
                        ),
                        None => Err(NotesErrorV::MalformedId(rest.subrange(0, j))),
                    }
                }
            },
            None => {
                if body.len() == 0 {
                    Ok(None)
                } else {
                    Ok(
                        Some(
                            ParsedNoteV::NewNote(
                                NewNoteV { body, completed, created_at: now },
                            ),
                        ),
                    )
                }
            },
        }
    }
}

pub open spec fn view_parse_note_result(r: Result<Option<ParsedNote>, NotesError>) -> Result<
    Option<ParsedNoteV>,
    NotesErrorV,
> {
    match r {
        Ok(Some(p)) => Ok(Some(p@)),
        Ok(None) => Ok(None),
        Err(e) => Err(e@),
    }
}

/// Does `t` start with a checkbox marker, and which one?
fn check_marker(t: &Vec<char>) -> (r: Option<bool>)
    requires
        t@.len() >= 7,
    ensures
        has_marker(t@) ==> r == Some(marker_completed(t@)),
        !has_marker(t@) ==> r is None,
{
    if t[0] == '-' && t[1] == ' ' && t[2] == '[' && t[4] == ']' && t[5] == ' ' && t[6] == ':' {
        if t[3] == ' ' {
            proof {
                assert(t@.subrange(0, 7) =~= open_marker());
                assert(t@.subrange(0, 7) != done_marker()) by {
                    assert(open_marker()[3] != done_marker()[3]);
                }
            }
            Some(false)
        } else if t[3] == 'x' {
            proof {
                assert(t@.subrange(0, 7) =~= done_marker());
            }
            Some(true)
        } else {
            proof {
                assert(t@.subrange(0, 7)[3] == t@[3]);
                assert(t@.subrange(0, 7) != open_marker());
                assert(t@.subrange(0, 7) != done_marker());
            }
            None
        }
    } else {
        proof {
            let p = t@.subrange(0, 7);
            assert(p[0] == t@[0] && p[1] == t@[1] && p[2] == t@[2] && p[4] == t@[4] && p[5]
                == t@[5] && p[6] == t@[6]);
            assert(p != open_marker());
            assert(p != done_marker());
        }
        None
    }
}

impl ParsedNote {
    /// Is this intent a request for a new note?
    pub fn is_new_note(&self) -> (r: bool)
        ensures
            r == (self@ is NewNote),
    {
        match self {
            ParsedNote::NewNote(_) => true,
            ParsedNote::Note(_) => false,
        }
    }

    /// The new-note request, if that is what this intent is.
    pub fn new_note(self) -> (r: Option<NewNote>)
        ensures
            match r {
                Some(n) => self@ == ParsedNoteV::NewNote(n@),
                None => self@ is Note,
            },
    {
        match self {
            ParsedNote::NewNote(n) => Some(n),
            ParsedNote::Note(_) => None,
        }
    }

    /// The existing-note update, if that is what this intent is.
    pub fn note(self) -> (r: Option<Note>)
        ensures
            match r {
                Some(n) => self@ == ParsedNoteV::Note(n@),
                None => self@ is NewNote,
            },
    {
        match self {
            ParsedNote::NewNote(_) => None,
            ParsedNote::Note(n) => Some(n),
        }
    }

    /// Is this intent an update of an existing note?
    pub fn is_note(&self) -> (r: bool)
        ensures
            r == (self@ is Note),
    {
        !self.is_new_note()
    }

    /// Parse one edited line into a note intent. A line whose body trims to
    /// nothing yields `Ok(None)`: it is a no-op, not an error. New-note
    /// requests are stamped with `now`.
    pub fn parse_pretty_md(s: &str, now: Instant) -> (r: Result<Option<ParsedNote>, NotesError>)
        ensures
            view_parse_note_result(r) == parse_note_spec(s@, now),
    {
        let chars = str_to_chars(s);
        let t = trim_chars(&chars);
        if t.len() < 7 {
            return Err(NotesError::MalformedLine(chars_to_string(&t)));
        }
        let completed: bool = match check_marker(&t) {
            Some(c) => c,
            None => {
                let head = sub_chars(&t, 0, 7);
                return Err(NotesError::MalformedLine(chars_to_string(&head)));
            },
        };
        let rest = sub_chars(&t, 7, t.len());
        proof {
            lemma_first_index_of(rest@, ':');
        }
        match find_char_from(&rest, ':', 0) {
            Some(j) => {
                proof {
                    assert(rest@.subrange(0, rest@.len() as int) =~= rest@);
                }
                let raw_body = sub_chars(&rest, j + 1, rest.len());
                let body = trim_chars(&raw_body);
                if body.len() == 0 {
                    return Ok(None);
                }
                let id_text = sub_chars(&rest, 0, j);
                match parse_u32_chars(&id_text) {
                    Some(id) => Ok(
                        Some(
                            ParsedNote::Note(
                                Note { id, body: chars_to_string(&body), completed },
                            ),
                        ),
                    ),
                    None => Err(NotesError::MalformedId(chars_to_string(&id_text))),
                }
            },
            None => {
                proof {
                    assert(rest@.subrange(0, rest@.len() as int) =~= rest@);
                }
                let body = trim_chars(&rest);
                if body.len() == 0 {
                    return Ok(None);
                }
                Ok(
                    Some(
                        ParsedNote::NewNote(
                            NewNote { body: chars_to_string(&body), completed, created_at: now },
                        ),
                    ),
                )
            },
        }
    }
}

// ---------------------------------------------------------------------------
// Serializing a note line
// ---------------------------------------------------------------------------

/// The serialized line for an identified note: ` - [x] :id: body`.
pub open spec fn note_line_spec(n: NoteV) -> Seq<char> {
    seq![' ', '-', ' ', '[', (if n.completed { 'x' } else { ' ' }), ']', ' ', ':']
        + u32_digits_spec(n.id as int) + seq![':', ' '] + n.body
}

/// The reserved blank slot line ` - [ ] :` that ends every serialized day.
pub open spec fn empty_line_spec() -> Seq<char> {
    seq![' ', '-', ' ', '[', ' ', ']', ' ', ':']
}

fn note_line_chars(n: &Note) -> (r: Vec<char>)
    ensures
        r@ == note_line_spec(n@),
{
    let mut r: Vec<char> = Vec::new();
    r.push(' ');
    r.push('-');
    r.push(' ');
    r.push('[');
    r.push(if n.completed {
        'x'
    } else {
        ' '
    });
    r.push(']');
    r.push(' ');
    r.push(':');
    let mut digits = u32_to_chars(n.id);
    r.append(&mut digits);
    r.push(':');
    r.push(' ');
    let mut body = str_to_chars(n.body.as_str());
    r.append(&mut body);
    assert(r@ =~= note_line_spec(n@));
    r
}

impl Note {
    /// The reserved empty note slot, serialized.
    pub fn pretty_empty() -> (r: String)
        ensures
            r@ == empty_line_spec(),
    {
        let mut v: Vec<char> = Vec::new();
        v.push(' ');
        v.push('-');
        v.push(' ');
        v.push('[');
        v.push(' ');
        v.push(']');
        v.push(' ');
        v.push(':');
        assert(v@ =~= empty_line_spec());
        chars_to_string(&v)
    }

    /// Serialize this note to its one-line text form.
    pub fn pretty(&self) -> (r: String)
        ensures
            r@ == note_line_spec(self@),
    {
        let v = note_line_chars(self);
        chars_to_string(&v)
    }
}

impl NewNote {
    /// Build a new open note with the given body, stamped at `created_at`.
    pub fn new(body: &str, created_at: Instant) -> (r: NewNote)
        ensures
            r@ == (NewNoteV { body: body@, completed: false, created_at }),
    {
        NewNote { body: body.to_owned(), completed: false, created_at }
    }

    /// The calendar day this note was created on.
    pub fn date_created(&self) -> (r: Date)
        ensures
            r == self.created_at.day,
    {
        self.created_at.day
    }

    /// The persisted note this request becomes once storage assigns `id`.
    pub fn to_note(self, id: u32) -> (r: Note)
        ensures
            r@ == (NoteV { id, body: self@.body, completed: self@.completed }),
    {
        Note { id, body: self.body, completed: self.completed }
    }
}

// ---------------------------------------------------------------------------
// Round-trip and no-op laws
// ---------------------------------------------------------------------------

/// Round-trip: serializing any note with a non-empty, trimmed body and
/// parsing the line back yields exactly the update intent for that note.
pub proof fn lemma_note_round_trip(n: NoteV, now: Instant)
    requires
        n.body.len() > 0,
        is_trimmed(n.body),
    ensures
        parse_note_spec(note_line_spec(n), now) == Ok::<Option<ParsedNoteV>, NotesErrorV>(
            Some(ParsedNoteV::Note(n)),
        ),
{
    let s = note_line_spec(n);
    let digits = u32_digits_spec(n.id as int);
    lemma_u32_digits(n.id as int);
    let dl = digits.len() as int;
    let head = seq![' ', '-', ' ', '[', (if n.completed { 'x' } else { ' ' }), ']', ' ', ':'];
    assert(s == head + digits + seq![':', ' '] + n.body);
    let len = s.len() as int;
    assert(len == 10 + dl + n.body.len());
    // every character of s by position
    assert(forall|k: int| 0 <= k < 8 ==> s[k] == head[k]);
    assert(forall|k: int| 8 <= k < 8 + dl ==> s[k] == digits[k - 8]);
    assert(s[8 + dl] == ':' && s[9 + dl] == ' ');
    assert(forall|k: int| 10 + dl <= k < len ==> s[k] == n.body[k - 10 - dl]);
    // trimming strips exactly the one leading blank
    assert(!is_space_char(s[1]));
    assert(!is_space_char(s[len - 1])) by {
        assert(s[len - 1] == n.body[n.body.len() - 1]);
    }
    lemma_trim_is_subrange(s, 1, len);
    let t = s.subrange(1, len);
    assert(trim_spec(s) == t);
    assert(t.len() >= 7);
    // the marker
    assert(t.subrange(0, 7) =~= (if n.completed { done_marker() } else { open_marker() }));
    assert(has_marker(t));
    assert(marker_completed(t) == n.completed) by {
        if !n.completed {
            assert(open_marker()[3] != done_marker()[3]);
        }
    }
    // the rest: digits, colon, blank, body
    let rest = t.subrange(7, t.len() as int);
    assert(rest.len() == dl + 2 + n.body.len());
    assert(forall|k: int| 0 <= k < dl ==> rest[k] == digits[k]);
    assert(rest[dl] == ':');
    assert(rest[dl + 1] == ' ');
    assert(forall|k: int| dl + 2 <= k < rest.len() ==> rest[k] == n.body[k - dl - 2]);
    // the first colon in the rest closes the id field
    assert forall|k: int| 0 <= k < dl implies rest[k] != ':' by {
        assert(is_digit_char(digits[k]));
    }
    lemma_first_index_of_converse(rest, ':', dl);
    assert(first_index_of(rest, ':') == Some(dl));
    // the id field parses back to the id
    assert(rest.subrange(0, dl) =~= digits);
    lemma_parse_u32_round_trip(n.id);
    // the body comes back trimmed of its one leading blank
    let raw = rest.subrange(dl + 1, rest.len() as int);
    assert(raw.len() == 1 + n.body.len());
    assert(raw[0] == ' ');
    assert(forall|k: int| 1 <= k < raw.len() ==> raw[k] == n.body[k - 1]);
    assert(!is_space_char(raw[1]));
    assert(!is_space_char(raw[raw.len() - 1]));
    lemma_trim_is_subrange(raw, 1, raw.len() as int);
    assert(raw.subrange(1, raw.len() as int) =~= n.body);
    assert(body_of_line(t) == n.body);
}

/// No-op detection: any checkbox line whose body trims to nothing — with or
/// without an id field — parses to no intent at all, not to an error.
pub proof fn lemma_noop_detection(s: Seq<char>, now: Instant)
    requires
        has_marker(trim_spec(s)),
        body_of_line(trim_spec(s)).len() == 0,
    ensures
        parse_note_spec(s, now) == Ok::<Option<ParsedNoteV>, NotesErrorV>(None),
{
}

// ---------------------------------------------------------------------------
// The day-document grammar
// ---------------------------------------------------------------------------

/// The line that closes one day's block so several days can share a buffer.
pub open spec fn terminator() -> Seq<char> {
    seq!['-', '-', '-']
}

/// The header spelling used for the current day: `# Today: `.
pub open spec fn today_header() -> Seq<char> {
    seq!['#', ' ', 'T', 'o', 'd', 'a', 'y', ':', ' ']
}

/// The header spelling used for any other day: `# Day: `.
pub open spec fn day_header() -> Seq<char> {
    seq!['#', ' ', 'D', 'a', 'y', ':', ' ']
}

/// The date text of a header line, under either header spelling.
pub open spec fn header_date_text(line: Seq<char>) -> Option<Seq<char>> {
    if line.len() >= 9 && line.subrange(0, 9) == today_header() {
        Some(line.subrange(9, line.len() as int))
    } else if line.len() >= 7 && line.subrange(0, 7) == day_header() {
        Some(line.subrange(7, line.len() as int))
    } else {
        None
    }
}

/// Scan forward from `i` for the first header line; every other line before
/// it is skipped.
pub open spec fn find_header_spec(lines: Seq<Seq<char>>, i: int) -> Option<(int, Seq<char>)>
    decreases lines.len() - i,
        when 0 <= i <= lines.len()
{
    if i >= lines.len() {
        None
    } else {
        match header_date_text(lines[i]) {
            Some(d) => Some((i, d)),
            None => find_header_spec(lines, i + 1),
        }
    }
}

/// Parse the content lines of one day, from `i` until the stream ends or a
/// terminator line is consumed: note lines become intents (no-ops dropped,
/// errors propagated), every other non-blank line joins the day's free text.
/// Yields the intents, the free text, and the cursor after the block.
pub open spec fn parse_day_body_spec(lines: Seq<Seq<char>>, i: int, now: Instant) -> Result<
    (Seq<ParsedNoteV>, Seq<char>, int),
    NotesErrorV,
>
    decreases lines.len() - i,
        when 0 <= i <= lines.len()
{
    if i >= lines.len() {
        Ok((Seq::empty(), Seq::empty(), i))
    } else if lines[i] == terminator() {
        Ok((Seq::empty(), Seq::empty(), i + 1))
    } else {
        let t = trim_spec(lines[i]);
        if t.len() == 0 {
            parse_day_body_spec(lines, i + 1, now)
        } else if t[0] == '-' {
            match parse_note_spec(lines[i], now) {
                Err(e) => Err(e),
                Ok(None) => parse_day_body_spec(lines, i + 1, now),
                Ok(Some(n)) => match parse_day_body_spec(lines, i + 1, now) {
                    Err(e) => Err(e),
                    Ok(p) => Ok((seq![n] + p.0, p.1, p.2)),
                },
            }
        } else {
            match parse_day_body_spec(lines, i + 1, now) {
                Err(e) => Err(e),
                Ok(p) => Ok((p.0, t + seq!['\n'] + p.1, p.2)),
            }
        }
    }
}

pub proof fn lemma_find_header_bounds(lines: Seq<Seq<char>>, i: int)
    requires
        0 <= i <= lines.len(),
    ensures
        match find_header_spec(lines, i) {
            Some(h) => i <= h.0 < lines.len() && header_date_text(lines[h.0]) == Some(h.1),
            None => true,
        },
    decreases lines.len() - i,
{
    if i < lines.len() && header_date_text(lines[i]) is None {
        lemma_find_header_bounds(lines, i + 1);
    }
}

pub proof fn lemma_parse_day_body_bounds(lines: Seq<Seq<char>>, i: int, now: Instant)
    requires
        0 <= i <= lines.len(),
    ensures
        match parse_day_body_spec(lines, i, now) {
            Ok(p) => p.0.len() <= lines.len() - i && i <= p.2 <= lines.len(),
            Err(_) => true,
        },
    decreases lines.len() - i,
{
    if i < lines.len() && !(lines[i] == terminator()) {
        lemma_parse_day_body_bounds(lines, i + 1, now);
    }
}

/// Parse one day's block out of a stream of lines, starting at `start`:
/// skip to the header, read its date, then read the body. The returned
/// cursor is where the next day's block would begin.
pub open spec fn parse_day_spec(lines: Seq<Seq<char>>, start: int, now: Instant) -> Result<
    (ParsedDayNotesV, int),
    NotesErrorV,
> {
    match find_header_spec(lines, start) {
        None => Err(NotesErrorV::MissingHeader),
        Some((h, dtext)) => match parse_date_spec(dtext) {
            None => Err(NotesErrorV::InvalidDate(dtext)),
            Some(date) => match parse_day_body_spec(lines, h + 1, now) {
                Err(e) => Err(e),
                Ok(p) => Ok(
                    (
                        ParsedDayNotesV {
                            notes: p.0,
                            note_count: p.0.len() as u32,
                            date,
                            day_text: p.1,
                        },
                        p.2,
                    ),
                ),
            },
        },
    }
}

pub open spec fn view_parse_day_result(r: Result<(ParsedDayNotes, usize), NotesError>) -> Result<
    (ParsedDayNotesV, int),
    NotesErrorV,
> {
    match r {
        Ok(p) => Ok((p.0@, p.1 as int)),
        Err(e) => Err(e@),
    }
}

fn is_terminator(v: &Vec<char>) -> (r: bool)
    ensures
        r == (v@ == terminator()),
{
    if v.len() == 3 && v[0] == '-' && v[1] == '-' && v[2] == '-' {
        assert(v@ =~= terminator());
        true
    } else {
        proof {
            if v@.len() == 3 {
                assert(v@[0] != '-' || v@[1] != '-' || v@[2] != '-');
            }
        }
        false
    }
}

/// The date text of a header line, or `None` for any other line.
fn header_date(line: &Vec<char>) -> (r: Option<Vec<char>>)
    ensures
        match r {
            Some(d) => header_date_text(line@) == Some(d@),
            None => header_date_text(line@) is None,
        },
{
    let mut today_pat: Vec<char> = Vec::new();
    today_pat.push('#');
    today_pat.push(' ');
    today_pat.push('T');
    today_pat.push('o');
    today_pat.push('d');
    today_pat.push('a');
    today_pat.push('y');
    today_pat.push(':');
    today_pat.push(' ');
    assert(today_pat@ =~= today_header());
    let mut day_pat: Vec<char> = Vec::new();
    day_pat.push('#');
    day_pat.push(' ');
    day_pat.push('D');
    day_pat.push('a');
    day_pat.push('y');
    day_pat.push(':');
    day_pat.push(' ');
    assert(day_pat@ =~= day_header());
    if line.len() >= 9 && crate::chars::eq_at(line, 0, &today_pat) {
        return Some(sub_chars(line, 9, line.len()));
    }
    if line.len() >= 7 && crate::chars::eq_at(line, 0, &day_pat) {
        return Some(sub_chars(line, 7, line.len()));
    }
    None
}

fn find_header(lines: &Vec<String>, start: usize) -> (r: Option<(usize, Vec<char>)>)
    requires
        start <= lines@.len(),
    ensures
        match r {
            Some(p) => find_header_spec(lines.deep_view(), start as int) == Some(
                (p.0 as int, p.1@),
            ) && p.0 < lines@.len(),
            None => find_header_spec(lines.deep_view(), start as int) is None,
        },
{
    let ghost ld = lines.deep_view();
    let n = lines.len();
    let mut i: usize = start;
    while i < n
        invariant
            start <= i <= n,
            n == lines@.len(),
            ld == lines.deep_view(),
            find_header_spec(ld, start as int) == find_header_spec(ld, i as int),
        decreases n - i,
    {
        let chars = str_to_chars(lines[i].as_str());
        proof {
            assert(ld[i as int] == lines@[i as int]@);
        }
        match header_date(&chars) {
            Some(d) => {
                return Some((i, d));
            },
            None => {
                i = i + 1;
            },
        }
    }
    None
}

/// A combined body-parse state: what a prefix of the body contributed, glued
/// onto the result of parsing the remaining lines.
pub open spec fn combine_body(
    ns0: Seq<ParsedNoteV>,
    t0: Seq<char>,
    r: Result<(Seq<ParsedNoteV>, Seq<char>, int), NotesErrorV>,
) -> Result<(Seq<ParsedNoteV>, Seq<char>, int), NotesErrorV> {
    match r {
        Err(e) => Err(e),
        Ok(p) => Ok((ns0 + p.0, t0 + p.1, p.2)),
    }
}

impl ParsedDayNotes {
    /// Parse one day's block out of `lines`, starting at index `start`.
    /// Returns the parsed day and the index just past the block, so repeated
    /// calls walk a buffer holding several days.
    pub fn parse_pretty_md(lines: &Vec<String>, start: usize, now: Instant) -> (r: Result<
        (ParsedDayNotes, usize),
        NotesError,
    >)
        requires
            start <= lines@.len(),
            lines@.len() <= u32::MAX,
        ensures
            view_parse_day_result(r) == parse_day_spec(lines.deep_view(), start as int, now),
    {
        let ghost ld = lines.deep_view();
        let n = lines.len();
        let (hidx, date_chars) = match find_header(lines, start) {
            None => {
                return Err(NotesError::MissingHeader);
            },
            Some(p) => p,
        };
        let date = match parse_date_chars(&date_chars) {
            None => {
                return Err(NotesError::InvalidDate(chars_to_string(&date_chars)));
            },
            Some(d) => d,
        };
        let ghost dtext = date_chars@;
        let body0 = hidx + 1;
        let mut notes_acc: Vec<ParsedNote> = Vec::new();
        let mut text_acc: Vec<char> = Vec::new();
        let mut cur: usize = body0;
        loop
            invariant_except_break
                body0 <= cur <= n,
                n == lines@.len() && n <= u32::MAX,
                ld == lines.deep_view(),
                find_header_spec(ld, start as int) == Some((hidx as int, dtext)),
                parse_date_spec(dtext) == Some(date),
                body0 == hidx + 1,
                notes_acc@.len() <= cur - body0,
                parse_day_body_spec(ld, body0 as int, now) == combine_body(
                    notes_acc.deep_view(),
                    text_acc@,
                    parse_day_body_spec(ld, cur as int, now),
                ),
            ensures
                body0 <= cur <= n,
                n == lines@.len() && n <= u32::MAX,
                notes_acc@.len() <= n,
                parse_day_body_spec(ld, body0 as int, now) == Ok::<
                    (Seq<ParsedNoteV>, Seq<char>, int),
                    NotesErrorV,
                >((notes_acc.deep_view(), text_acc@, cur as int)),
            decreases n - cur,
        {
            if cur >= n {
                assert(parse_day_body_spec(ld, cur as int, now) == Ok::<
                    (Seq<ParsedNoteV>, Seq<char>, int),
                    NotesErrorV,
                >((Seq::empty(), Seq::empty(), cur as int)));
                assert(notes_acc.deep_view() + Seq::<ParsedNoteV>::empty() =~= notes_acc.deep_view());
                assert(text_acc@ + Seq::<char>::empty() =~= text_acc@);
                break ;
            }
            let line_chars = str_to_chars(lines[cur].as_str());
            proof {
                assert(ld[cur as int] == lines@[cur as int]@);
            }
            if is_terminator(&line_chars) {
                assert(parse_day_body_spec(ld, cur as int, now) == Ok::<
                    (Seq<ParsedNoteV>, Seq<char>, int),
                    NotesErrorV,
                >((Seq::empty(), Seq::empty(), cur + 1 as int)));
                assert(notes_acc.deep_view() + Seq::<ParsedNoteV>::empty() =~= notes_acc.deep_view());
                assert(text_acc@ + Seq::<char>::empty() =~= text_acc@);
                cur = cur + 1;
                break ;
            }
            let t = trim_chars(&line_chars);
            if t.len() == 0 {
                cur = cur + 1;
                continue ;
            }
            if t[0] == '-' {
                match ParsedNote::parse_pretty_md(lines[cur].as_str(), now) {
                    Err(e) => {
                        return Err(e);
                    },
                    Ok(None) => {
                        cur = cur + 1;
                    },
                    Ok(Some(p)) => {
                        let ghost before = notes_acc.deep_view();
                        let ghost pv = p@;
                        notes_acc.push(p);
                        proof {
                            assert(notes_acc.deep_view() =~= before.push(pv));
                            let rest = parse_day_body_spec(ld, (cur + 1) as int, now);
                            if rest is Ok {
                                let q = rest->Ok_0;
                                assert(before + (seq![pv] + q.0) =~= before.push(pv) + q.0);
                            }
                        }
                        cur = cur + 1;
                    },
                }
            } else {
                let ghost t_old = text_acc@;
                let mut tl = t;
                text_acc.append(&mut tl);
                text_acc.push('\n');
                proof {
                    let tv = trim_spec(ld[cur as int]);
                    assert(text_acc@ =~= t_old + tv + seq!['\n']);
                    let rest = parse_day_body_spec(ld, (cur + 1) as int, now);
                    if rest is Ok {
                        let q = rest->Ok_0;
                        assert(t_old + (tv + seq!['\n'] + q.1) =~= (t_old + tv + seq!['\n']) + q.1);
                    }
                }
                cur = cur + 1;
            }
        }
        let count = notes_acc.len();
        let out = ParsedDayNotes {
            notes: notes_acc,
            note_count: count as u32,
            date,
            day_text: chars_to_string(&text_acc),
        };
        Ok((out, cur))
    }
}

// ---------------------------------------------------------------------------
// Serializing a day
// ---------------------------------------------------------------------------

/// `Today` for the current day, `Day` for any other: a display choice only.
pub open spec fn day_prefix_spec(date: Date, today: Date) -> Seq<char> {
    if date == today {
        seq!['T', 'o', 'd', 'a', 'y']
    } else {
        seq!['D', 'a', 'y']
    }
}

/// One line per note, each followed by a newline.
pub open spec fn notes_lines_spec(notes: Seq<NoteV>) -> Seq<char>
    decreases notes.len(),
{
    if notes.len() == 0 {
        Seq::empty()
    } else {
        note_line_spec(notes[0]) + seq!['\n'] + notes_lines_spec(notes.drop_first())
    }
}

pub proof fn lemma_notes_lines_push(notes: Seq<NoteV>, n: NoteV)
    ensures
        notes_lines_spec(notes.push(n)) == notes_lines_spec(notes) + note_line_spec(n)
            + seq!['\n'],
    decreases notes.len(),
{
    let s = notes.push(n);
    if notes.len() == 0 {
        assert(s[0] == n);
        assert(s.drop_first() =~= Seq::<NoteV>::empty());
        assert(notes_lines_spec(s) == note_line_spec(n) + seq!['\n'] + notes_lines_spec(
            Seq::<NoteV>::empty(),
        ));
        assert(notes_lines_spec(Seq::<NoteV>::empty()) == Seq::<char>::empty());
        assert(note_line_spec(n) + seq!['\n'] + Seq::<char>::empty() =~= note_line_spec(n)
            + seq!['\n']);
        assert(notes_lines_spec(notes) == Seq::<char>::empty());
        assert(notes_lines_spec(notes) + note_line_spec(n) + seq!['\n'] =~= note_line_spec(n)
            + seq!['\n']);
    } else {
        lemma_notes_lines_push(notes.drop_first(), n);
        assert(s.drop_first() =~= notes.drop_first().push(n));
        assert(s[0] == notes[0]);
        assert(notes_lines_spec(s) == note_line_spec(notes[0]) + seq!['\n'] + notes_lines_spec(
            notes.drop_first().push(n),
        ));
        assert(notes_lines_spec(notes) == note_line_spec(notes[0]) + seq!['\n']
            + notes_lines_spec(notes.drop_first()));
        assert(note_line_spec(notes[0]) + seq!['\n'] + (notes_lines_spec(notes.drop_first())
            + note_line_spec(n) + seq!['\n']) =~= (note_line_spec(notes[0]) + seq!['\n']
            + notes_lines_spec(notes.drop_first())) + note_line_spec(n) + seq!['\n']);
    }
}

/// The editable markdown form of a day: header, note lines, the reserved
/// empty slot, a blank line, the free text, and the closing terminator.
pub open spec fn pretty_md_spec(d: DayNotesV, today: Date) -> Seq<char> {
    seq!['#', ' '] + day_prefix_spec(d.date, today) + seq![':', ' ']
        + crate::date::date_str_spec(d.date) + seq!['\n', '\n'] + notes_lines_spec(d.notes)
        + empty_line_spec() + seq!['\n', '\n'] + d.day_text + terminator()
}

/// Text wrapped in the bold escape code and the reset code.
pub open spec fn bold_wrapped(s: Seq<char>) -> Seq<char> {
    seq!['\u{1b}', '[', '1', 'm'] + s + seq!['\u{1b}', '[', '0', 'm']
}

/// Text wrapped in the green-foreground escape code and the reset code.
pub open spec fn green_wrapped(s: Seq<char>) -> Seq<char> {
    seq!['\u{1b}', '[', '3', '2', 'm'] + s + seq!['\u{1b}', '[', '0', 'm']
}

/// The display form of a day for the terminal: a bold header with the date
/// in green, the note lines, `No Notes.` when there are none, then the
/// day's free text.
pub open spec fn pretty_spec(d: DayNotesV, today: Date) -> Seq<char> {
    bold_wrapped(
        day_prefix_spec(d.date, today) + seq![':', ' '] + green_wrapped(
            crate::date::date_str_spec(d.date),
        ) + seq![' ', '\n', '\n'],
    ) + notes_lines_spec(d.notes) + (if d.notes.len() == 0 {
        seq!['N', 'o', ' ', 'N', 'o', 't', 'e', 's', '.']
    } else {
        Seq::empty()
    }) + seq!['\n'] + d.day_text
}

/// Relies on `ansi_term::Style::paint` with the bold style: the painted
/// string is `ESC[1m`, the text, then the reset `ESC[0m`.
#[verifier::external_body]
fn paint_bold(s: &str) -> (r: String)
    ensures
        r@ == bold_wrapped(s@),
{
    ansi_term::Style::new().bold().paint(s).to_string()
}

/// Relies on `ansi_term::Color::Green.paint`: the painted string is
/// `ESC[32m`, the text, then the reset `ESC[0m`.
#[verifier::external_body]
fn paint_green(s: &str) -> (r: String)
    ensures
        r@ == green_wrapped(s@),
{
    ansi_term::Color::Green.paint(s).to_string()
}

fn push_prefix(v: &mut Vec<char>, date: &Date, today: &Date)
    ensures
        final(v)@ == old(v)@ + day_prefix_spec(*date, *today),
{
    if date.year == today.year && date.month == today.month && date.day == today.day {
        v.push('T');
        v.push('o');
        v.push('d');
        v.push('a');
        v.push('y');
        assert(*date == *today);
        assert(v@ =~= old(v)@ + day_prefix_spec(*date, *today));
    } else {
        v.push('D');
        v.push('a');
        v.push('y');
        assert(*date != *today);
        assert(v@ =~= old(v)@ + day_prefix_spec(*date, *today));
    }
}

impl DayNotes {
    /// `Today` when this day is the given current day, else `Day`.
    pub fn day_prefix(&self, today: &Date) -> (r: &'static str)
        ensures
            r@ == day_prefix_spec(self.date, *today),
    {
        if self.date.year == today.year && self.date.month == today.month && self.date.day
            == today.day {
            proof {
                assert(self.date == *today);
                reveal_strlit("Today");
                assert("Today"@ =~= day_prefix_spec(self.date, *today));
            }
            "Today"
        } else {
            proof {
                assert(self.date != *today);
                reveal_strlit("Day");
                assert("Day"@ =~= day_prefix_spec(self.date, *today));
            }
            "Day"
        }
    }

    /// Serialize this day for editing: the markdown form closed by `---`.
    #[verifier::rlimit(60)]
    pub fn pretty_md(&self, today: &Date) -> (r: String)
        requires
            valid_date(self.date),
        ensures
            r@ == pretty_md_spec(self@, *today),
    {
        let mut v: Vec<char> = Vec::new();
        v.push('#');
        v.push(' ');
        push_prefix(&mut v, &self.date, today);
        v.push(':');
        v.push(' ');
        let mut dc = crate::date::date_to_chars(&self.date);
        v.append(&mut dc);
        v.push('\n');
        v.push('\n');
        let ghost head = v@;
        let m = self.notes.len();
        let mut k: usize = 0;
        while k < m
            invariant
                0 <= k <= m,
                m == self.notes@.len(),
                v@ == head + notes_lines_spec(self.notes.deep_view().take(k as int)),
            decreases m - k,
        {
            let mut line = note_line_chars(&self.notes[k]);
            v.append(&mut line);
            v.push('\n');
            proof {
                let nv = self.notes.deep_view();
                assert(nv.take(k as int).push(nv[k as int]) =~= nv.take((k + 1) as int));
                lemma_notes_lines_push(nv.take(k as int), nv[k as int]);
                assert(nv[k as int] == self.notes@[k as int]@);
                assert(v@ =~= head + notes_lines_spec(nv.take((k + 1) as int)));
            }
            k = k + 1;
        }
        proof {
            assert(self.notes.deep_view().take(m as int) =~= self.notes.deep_view());
        }
        v.push(' ');
        v.push('-');
        v.push(' ');
        v.push('[');
        v.push(' ');
        v.push(']');
        v.push(' ');
        v.push(':');
        v.push('\n');
        v.push('\n');
        let mut txt = str_to_chars(self.day_text.as_str());
        v.append(&mut txt);
        v.push('-');
        v.push('-');
        v.push('-');
        assert(v@ =~= pretty_md_spec(self@, *today));
        chars_to_string(&v)
    }

    /// Render this day for the terminal, with a bold header and green date.
    #[verifier::rlimit(60)]
    pub fn pretty(&self, today: &Date) -> (r: String)
        requires
            valid_date(self.date),
        ensures
            r@ == pretty_spec(self@, *today),
    {
        let mut h: Vec<char> = Vec::new();
        push_prefix(&mut h, &self.date, today);
        h.push(':');
        h.push(' ');
        let dc = crate::date::date_to_chars(&self.date);
        let ds = chars_to_string(&dc);
        let green = paint_green(ds.as_str());
        let mut gc = str_to_chars(green.as_str());
        h.append(&mut gc);
        h.push(' ');
        h.push('\n');
        h.push('\n');
        let hs = chars_to_string(&h);
        let bold = paint_bold(hs.as_str());
        let mut v = str_to_chars(bold.as_str());
        let ghost head = v@;
        proof {
            assert(head == bold_wrapped(
                day_prefix_spec(self.date, *today) + seq![':', ' '] + green_wrapped(
                    crate::date::date_str_spec(self.date),
                ) + seq![' ', '\n', '\n'],
            ));
        }
        let m = self.notes.len();
        let mut k: usize = 0;
        while k < m
            invariant
                0 <= k <= m,
                m == self.notes@.len(),
                v@ == head + notes_lines_spec(self.notes.deep_view().take(k as int)),
            decreases m - k,
        {
            let mut line = note_line_chars(&self.notes[k]);
            v.append(&mut line);
            v.push('\n');
            proof {
                let nv = self.notes.deep_view();
                assert(nv.take(k as int).push(nv[k as int]) =~= nv.take((k + 1) as int));
                lemma_notes_lines_push(nv.take(k as int), nv[k as int]);
                assert(nv[k as int] == self.notes@[k as int]@);
                assert(v@ =~= head + notes_lines_spec(nv.take((k + 1) as int)));
            }
            k = k + 1;
        }
        proof {
            assert(self.notes.deep_view().take(m as int) =~= self.notes.deep_view());
        }
        if m == 0 {
            v.push('N');
            v.push('o');
            v.push(' ');
            v.push('N');
            v.push('o');
            v.push('t');
            v.push('e');
            v.push('s');
            v.push('.');
        }
        v.push('\n');
        let mut txt = str_to_chars(self.day_text.as_str());
        v.append(&mut txt);
        assert(v@ =~= pretty_spec(self@, *today));
        chars_to_string(&v)
    }
}

} // verus!
