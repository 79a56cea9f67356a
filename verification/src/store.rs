//! The note store: days and notes with stable ids, soft deletion, and the
//! reconciliation of parsed day documents against the stored state. The
//! store itself is a plain in-memory structure; durable persistence wraps it
//! from outside.
use vstd::multiset::Multiset;
use vstd::prelude::*;

use crate::date::{
    date_le_spec, date_range, date_range_spec, instant_lt, instant_lt_spec, valid_date, Date,
    Instant,
};
use crate::notes::{
    DayNotes, DayNotesV, NewNote, NewNoteV, Note, NoteV, NotesError, NotesErrorV, ParsedDayNotes,
    ParsedDayNotesV, ParsedNote, ParsedNoteV,
};

verus! {

// ---------------------------------------------------------------------------
// Rows and the store
// ---------------------------------------------------------------------------

pub struct DateRowV {
    pub id: u32,
    pub date: Date,
    pub task_count: u32,
    pub day_text: Seq<char>,
}

/// A stored day: its key, date, denormalized note count and free text.
#[derive(Debug)]
pub struct DateRow {
    pub id: u32,
    pub date: Date,
    pub task_count: u32,
    pub day_text: String,
}

impl View for DateRow {
    type V = DateRowV;

    open spec fn view(&self) -> DateRowV {
        DateRowV {
            id: self.id,
            date: self.date,
            task_count: self.task_count,
            day_text: self.day_text@,
        }
    }
}

impl DeepView for DateRow {
    type V = DateRowV;

    open spec fn deep_view(&self) -> DateRowV {
        self@
    }
}

pub struct NoteRowV {
    pub id: u32,
    pub body: Seq<char>,
    pub completed: bool,
    pub created_at: Instant,
    pub updated_at: Option<Instant>,
    pub deleted_at: Option<Instant>,
    pub day_key: u32,
}

/// A stored note row. A row whose delete marker is set is dead: it is kept
/// but excluded from every read.
#[derive(Debug)]
pub struct NoteRow {
    pub id: u32,
    pub body: String,
    pub completed: bool,
    pub created_at: Instant,
    pub updated_at: Option<Instant>,
    pub deleted_at: Option<Instant>,
    pub day_key: u32,
}

impl View for NoteRow {
    type V = NoteRowV;

    open spec fn view(&self) -> NoteRowV {
        NoteRowV {
            id: self.id,
            body: self.body@,
            completed: self.completed,
            created_at: self.created_at,
            updated_at: self.updated_at,
            deleted_at: self.deleted_at,
            day_key: self.day_key,
        }
    }
}

impl DeepView for NoteRow {
    type V = NoteRowV;

    open spec fn deep_view(&self) -> NoteRowV {
        self@
    }
}

/// A note row joined with the date of its owning day, as range reads
/// return it.
#[derive(Debug)]
pub struct NoteRowDate {
    pub id: u32,
    pub body: String,
    pub completed: bool,
    pub created_at: Instant,
    pub updated_at: Option<Instant>,
    pub deleted_at: Option<Instant>,
    pub date: Date,
}

impl From<NoteRow> for Note {
    fn from(value: NoteRow) -> (r: Note) {
        Note { id: value.id, body: value.body, completed: value.completed }
    }
}

impl vstd::std_specs::convert::FromSpecImpl<NoteRow> for Note {
    open spec fn obeys_from_spec() -> bool {
        true
    }

    open spec fn from_spec(v: NoteRow) -> Note {
        Note { id: v.id, body: v.body, completed: v.completed }
    }
}

impl From<NoteRowDate> for Note {
    fn from(value: NoteRowDate) -> (r: Note) {
        Note { id: value.id, body: value.body, completed: value.completed }
    }
}

impl vstd::std_specs::convert::FromSpecImpl<NoteRowDate> for Note {
    open spec fn obeys_from_spec() -> bool {
        true
    }

    open spec fn from_spec(v: NoteRowDate) -> Note {
        Note { id: v.id, body: v.body, completed: v.completed }
    }
}

pub struct StoreV {
    pub days: Seq<DateRowV>,
    pub notes: Seq<NoteRowV>,
    pub next_day_id: u32,
    pub next_note_id: u32,
}

/// The persistence model: day rows, note rows, and the id counters that
/// storage assigns from, starting at one.
#[derive(Debug)]
pub struct NoteStore {
    pub days: Vec<DateRow>,
    pub notes: Vec<NoteRow>,
    pub next_day_id: u32,
    pub next_note_id: u32,
}

impl View for NoteStore {
    type V = StoreV;

    open spec fn view(&self) -> StoreV {
        StoreV {
            days: self.days.deep_view(),
            notes: self.notes.deep_view(),
            next_day_id: self.next_day_id,
            next_note_id: self.next_note_id,
        }
    }
}

pub open spec fn has_day_id(days: Seq<DateRowV>, k: u32) -> bool {
    exists|j: int| 0 <= j < days.len() && days[j].id == k
}

/// The store's integrity: ids are unique and below their counters, dates are
/// unique and valid, and every note belongs to an existing day.
pub open spec fn wf_store(s: StoreV) -> bool {
    &&& 1 <= s.next_day_id
    &&& 1 <= s.next_note_id
    &&& s.days.len() <= s.next_day_id - 1
    &&& s.notes.len() <= s.next_note_id - 1
    &&& forall|i: int|
        0 <= i < s.days.len() ==> 1 <= (#[trigger] s.days[i]).id < s.next_day_id && valid_date(
            s.days[i].date,
        )
    &&& forall|i: int, j: int|
        0 <= i < j < s.days.len() ==> (#[trigger] s.days[i]).id != (#[trigger] s.days[j]).id
            && s.days[i].date != s.days[j].date
    &&& forall|i: int|
        0 <= i < s.notes.len() ==> 1 <= (#[trigger] s.notes[i]).id < s.next_note_id && has_day_id(
            s.days,
            s.notes[i].day_key,
        )
    &&& forall|i: int, j: int|
        0 <= i < j < s.notes.len() ==> (#[trigger] s.notes[i]).id != (#[trigger] s.notes[j]).id
}

// ---------------------------------------------------------------------------
// Finding rows
// ---------------------------------------------------------------------------

pub open spec fn day_index_by_date_from(days: Seq<DateRowV>, d: Date, i: int) -> Option<int>
    decreases days.len() - i,
        when 0 <= i <= days.len()
{
    if i >= days.len() {
        None
    } else if days[i].date == d {
        Some(i)
    } else {
        day_index_by_date_from(days, d, i + 1)
    }
}

/// Index of the first day row with the given date.
pub open spec fn day_index_by_date(days: Seq<DateRowV>, d: Date) -> Option<int> {
    day_index_by_date_from(days, d, 0)
}

pub proof fn lemma_day_index_by_date_from(days: Seq<DateRowV>, d: Date, i: int)
    requires
        0 <= i <= days.len(),
    ensures
        match day_index_by_date_from(days, d, i) {
            Some(j) => i <= j < days.len() && days[j].date == d && forall|k: int|
                i <= k < j ==> days[k].date != d,
            None => forall|k: int| i <= k < days.len() ==> days[k].date != d,
        },
    decreases days.len() - i,
{
    if i < days.len() && days[i].date != d {
        lemma_day_index_by_date_from(days, d, i + 1);
    }
}

pub open spec fn note_index_by_id_from(notes: Seq<NoteRowV>, id: u32, i: int) -> Option<int>
    decreases notes.len() - i,
        when 0 <= i <= notes.len()
{
    if i >= notes.len() {
        None
    } else if notes[i].id == id {
        Some(i)
    } else {
        note_index_by_id_from(notes, id, i + 1)
    }
}

/// Index of the first note row with the given id, dead or alive.
pub open spec fn note_index_by_id(notes: Seq<NoteRowV>, id: u32) -> Option<int> {
    note_index_by_id_from(notes, id, 0)
}

pub proof fn lemma_note_index_by_id_from(notes: Seq<NoteRowV>, id: u32, i: int)
    requires
        0 <= i <= notes.len(),
    ensures
        match note_index_by_id_from(notes, id, i) {
            Some(j) => i <= j < notes.len() && notes[j].id == id && forall|k: int|
                i <= k < j ==> notes[k].id != id,
            None => forall|k: int| i <= k < notes.len() ==> notes[k].id != id,
        },
    decreases notes.len() - i,
{
    if i < notes.len() && notes[i].id != id {
        lemma_note_index_by_id_from(notes, id, i + 1);
    }
}

pub open spec fn note_alive(n: NoteRowV) -> bool {
    n.deleted_at is None
}

/// Index of the live note row with the given id, if the row exists and is
/// not soft-deleted.
pub open spec fn alive_note_index(notes: Seq<NoteRowV>, id: u32) -> Option<int> {
    match note_index_by_id(notes, id) {
        Some(i) => if note_alive(notes[i]) {
            Some(i)
        } else {
            None
        },
        None => None,
    }
}

/// Appending a row only changes lookups of its own, previously absent id.
pub proof fn lemma_note_index_push(notes: Seq<NoteRowV>, rec: NoteRowV, id: u32)
    ensures
        note_index_by_id(notes.push(rec), id) == (match note_index_by_id(notes, id) {
            Some(i) => Some(i),
            None => if rec.id == id {
                Some(notes.len() as int)
            } else {
                None
            },
        }),
{
    lemma_note_index_push_from(notes, rec, id, 0);
}

proof fn lemma_note_index_push_from(notes: Seq<NoteRowV>, rec: NoteRowV, id: u32, i: int)
    requires
        0 <= i <= notes.len(),
    ensures
        note_index_by_id_from(notes.push(rec), id, i) == (match note_index_by_id_from(
            notes,
            id,
            i,
        ) {
            Some(j) => Some(j),
            None => if rec.id == id {
                Some(notes.len() as int)
            } else {
                None
            },
        }),
    decreases notes.len() - i,
{
    let p = notes.push(rec);
    if i >= notes.len() {
        assert(p[i] == rec);
        if rec.id != id {
            assert(note_index_by_id_from(p, id, i + 1) == None::<int>);
        }
    } else {
        assert(p[i] == notes[i]);
        if notes[i].id != id {
            lemma_note_index_push_from(notes, rec, id, i + 1);
        }
    }
}

/// Lookups see only ids: two stores whose rows carry the same ids in the
/// same positions agree on every lookup.
pub proof fn lemma_note_index_same_ids(a: Seq<NoteRowV>, b: Seq<NoteRowV>, id: u32)
    requires
        a.len() == b.len(),
        forall|i: int| 0 <= i < a.len() ==> (#[trigger] a[i]).id == b[i].id,
    ensures
        note_index_by_id(a, id) == note_index_by_id(b, id),
{
    lemma_note_index_same_ids_from(a, b, id, 0);
}

proof fn lemma_note_index_same_ids_from(a: Seq<NoteRowV>, b: Seq<NoteRowV>, id: u32, i: int)
    requires
        0 <= i <= a.len(),
        a.len() == b.len(),
        forall|k: int| 0 <= k < a.len() ==> (#[trigger] a[k]).id == b[k].id,
    ensures
        note_index_by_id_from(a, id, i) == note_index_by_id_from(b, id, i),
    decreases a.len() - i,
{
    if i < a.len() && a[i].id != id {
        lemma_note_index_same_ids_from(a, b, id, i + 1);
    }
}

fn day_pos_by_date(days: &Vec<DateRow>, d: &Date) -> (r: Option<usize>)
    ensures
        match r {
            Some(p) => p < days@.len() && day_index_by_date(days.deep_view(), *d) == Some(p as int),
            None => day_index_by_date(days.deep_view(), *d) is None,
        },
{
    let ghost dv = days.deep_view();
    let n = days.len();
    let mut k: usize = 0;
    while k < n
        invariant
            0 <= k <= n,
            n == days@.len(),
            dv == days.deep_view(),
            day_index_by_date(dv, *d) == day_index_by_date_from(dv, *d, k as int),
        decreases n - k,
    {
        proof {
            assert(dv[k as int] == days@[k as int]@);
        }
        if days[k].date.year == d.year && days[k].date.month == d.month && days[k].date.day
            == d.day {
            assert(dv[k as int].date == *d);
            return Some(k);
        }
        assert(dv[k as int].date != *d);
        k = k + 1;
    }
    None
}

fn note_pos_by_id(notes: &Vec<NoteRow>, id: u32) -> (r: Option<usize>)
    ensures
        match r {
            Some(p) => p < notes@.len() && note_index_by_id(notes.deep_view(), id) == Some(
                p as int,
            ),
            None => note_index_by_id(notes.deep_view(), id) is None,
        },
{
    let ghost nv = notes.deep_view();
    let n = notes.len();
    let mut k: usize = 0;
    while k < n
        invariant
            0 <= k <= n,
            n == notes@.len(),
            nv == notes.deep_view(),
            note_index_by_id(nv, id) == note_index_by_id_from(nv, id, k as int),
        decreases n - k,
    {
        proof {
            assert(nv[k as int] == notes@[k as int]@);
        }
        if notes[k].id == id {
            return Some(k);
        }
        k = k + 1;
    }
    None
}

fn day_pos_by_id(days: &Vec<DateRow>, id: u32) -> (r: Option<usize>)
    ensures
        match r {
            Some(p) => p < days@.len() && days.deep_view()[p as int].id == id,
            None => !has_day_id(days.deep_view(), id),
        },
{
    let ghost dv = days.deep_view();
    let n = days.len();
    let mut k: usize = 0;
    while k < n
        invariant
            0 <= k <= n,
            n == days@.len(),
            dv == days.deep_view(),
            forall|t: int| 0 <= t < k ==> (#[trigger] dv[t]).id != id,
        decreases n - k,
    {
        proof {
            assert(dv[k as int] == days@[k as int]@);
        }
        if days[k].id == id {
            return Some(k);
        }
        k = k + 1;
    }
    None
}

impl NoteStore {
    /// Decide the store's integrity invariant at run time, for state that
    /// was rebuilt from outside the library.
    pub fn check_wf(&self) -> (r: bool)
        ensures
            r == wf_store(self@),
    {
        let ghost s = self@;
        if self.next_day_id < 1 || self.next_note_id < 1 {
            return false;
        }
        if !(self.days.len() as u64 <= self.next_day_id as u64 - 1) {
            return false;
        }
        if !(self.notes.len() as u64 <= self.next_note_id as u64 - 1) {
            return false;
        }
        let nd = self.days.len();
        let mut i: usize = 0;
        while i < nd
            invariant
                0 <= i <= nd,
                nd == self.days@.len(),
                s == self@,
                forall|a: int|
                    0 <= a < i ==> 1 <= (#[trigger] s.days[a]).id < s.next_day_id && valid_date(
                        s.days[a].date,
                    ),
                forall|a: int, b: int|
                    0 <= a < b < s.days.len() && a < i ==> (#[trigger] s.days[a]).id != (
                    #[trigger] s.days[b]).id && s.days[a].date != s.days[b].date,
            decreases nd - i,
        {
            proof {
                assert(s.days[i as int] == self.days@[i as int]@);
            }
            let row = &self.days[i];
            if row.id < 1 || row.id >= self.next_day_id || !crate::date::check_valid_date(
                &row.date,
            ) {
                return false;
            }
            let mut j: usize = i + 1;
            while j < nd
                invariant
                    i < j <= nd,
                    nd == self.days@.len(),
                    s == self@,
                    forall|b: int|
                        i < b < j ==> (#[trigger] s.days[b]).id != s.days[i as int].id
                            && s.days[b].date != s.days[i as int].date,
                decreases nd - j,
            {
                proof {
                    assert(s.days[i as int] == self.days@[i as int]@);
                    assert(s.days[j as int] == self.days@[j as int]@);
                }
                let other = &self.days[j];
                if other.id == self.days[i].id || (other.date.year == self.days[i].date.year
                    && other.date.month == self.days[i].date.month && other.date.day
                    == self.days[i].date.day) {
                    return false;
                }
                j = j + 1;
            }
            i = i + 1;
        }
        let nn = self.notes.len();
        let mut p: usize = 0;
        while p < nn
            invariant
                0 <= p <= nn,
                nn == self.notes@.len(),
                s == self@,
                forall|a: int|
                    0 <= a < p ==> 1 <= (#[trigger] s.notes[a]).id < s.next_note_id && has_day_id(
                        s.days,
                        s.notes[a].day_key,
                    ),
                forall|a: int, b: int|
                    0 <= a < b < s.notes.len() && a < p ==> (#[trigger] s.notes[a]).id != (
                    #[trigger] s.notes[b]).id,
            decreases nn - p,
        {
            proof {
                assert(s.notes[p as int] == self.notes@[p as int]@);
            }
            let row = &self.notes[p];
            if row.id < 1 || row.id >= self.next_note_id {
                return false;
            }
            match day_pos_by_id(&self.days, row.day_key) {
                Some(_) => {},
                None => {
                    return false;
                },
            }
            let mut q: usize = p + 1;
            while q < nn
                invariant
                    p < q <= nn,
                    nn == self.notes@.len(),
                    s == self@,
                    forall|b: int| p < b < q ==> (#[trigger] s.notes[b]).id != s.notes[p as int].id,
                decreases nn - q,
            {
                proof {
                    assert(s.notes[p as int] == self.notes@[p as int]@);
                    assert(s.notes[q as int] == self.notes@[q as int]@);
                }
                if self.notes[q].id == self.notes[p].id {
                    return false;
                }
                q = q + 1;
            }
            p = p + 1;
        }
        true
    }
}

fn clone_date_row(r: &DateRow) -> (c: DateRow)
    ensures
        c@ == r@,
{
    DateRow { id: r.id, date: r.date, task_count: r.task_count, day_text: r.day_text.clone() }
}

// ---------------------------------------------------------------------------
// The store's primitive operations
// ---------------------------------------------------------------------------

impl NoteStore {
    /// A fresh store with no days, no notes, and ids starting at one.
    pub fn new() -> (s: NoteStore)
        ensures
            s@.days.len() == 0,
            s@.notes.len() == 0,
            s@.next_day_id == 1,
            s@.next_note_id == 1,
            wf_store(s@),
    {
        let s = NoteStore { days: Vec::new(), notes: Vec::new(), next_day_id: 1, next_note_id: 1 };
        proof {
            assert(s@.days =~= Seq::<DateRowV>::empty());
            assert(s@.notes =~= Seq::<NoteRowV>::empty());
        }
        s
    }

    /// Read the day row for a date, if one exists.
    pub fn fetch_day(&self, d: &Date) -> (r: Result<Option<DateRow>, NotesError>)
        ensures
            r is Ok,
            match day_index_by_date(self@.days, *d) {
                Some(i) => r->Ok_0 is Some && r->Ok_0->0@ == self@.days[i],
                None => r->Ok_0 is None,
            },
    {
        match day_pos_by_date(&self.days, d) {
            Some(p) => {
                proof {
                    assert(self@.days[p as int] == self.days@[p as int]@);
                }
                Ok(Some(clone_date_row(&self.days[p])))
            },
            None => Ok(None),
        }
    }

    /// Insert a day row for a date with no row yet. Fails, changing nothing,
    /// if the date already has a row or the id space is exhausted.
    pub fn insert_day(&mut self, d: Date, task_count: Option<u32>, text: &str) -> (r: Result<
        DateRow,
        NotesError,
    >)
        requires
            wf_store(old(self)@),
            valid_date(d),
        ensures
            wf_store(final(self)@),
            match day_index_by_date(old(self)@.days, d) {
                Some(_) => r is Err && r->Err_0@ is PersistenceFailure && final(self)@ == old(
                    self)@,
                None => {
                    if old(self)@.next_day_id == u32::MAX {
                        r is Err && r->Err_0@ is PersistenceFailure && final(self)@ == old(self)@
                    } else {
                        let row = DateRowV {
                            id: old(self)@.next_day_id,
                            date: d,
                            task_count: (match task_count {
                                Some(c) => c,
                                None => 0u32,
                            }),
                            day_text: text@,
                        };
                        &&& r is Ok
                        &&& r->Ok_0@ == row
                        &&& final(self)@.days == old(self)@.days.push(row)
                        &&& final(self)@.notes == old(self)@.notes
                        &&& final(self)@.next_day_id == old(self)@.next_day_id + 1
                        &&& final(self)@.next_note_id == old(self)@.next_note_id
                    }
                },
            },
    {
        proof {
            lemma_day_index_by_date_from(old(self)@.days, d, 0);
        }
        match day_pos_by_date(&self.days, &d) {
            Some(_) => Err(
                NotesError::PersistenceFailure(String::new()),
            ),
            None => {
                if self.next_day_id == u32::MAX {
                    return Err(NotesError::PersistenceFailure(String::new()));
                }
                let count: u32 = match task_count {
                    Some(c) => c,
                    None => 0,
                };
                let row = DateRow {
                    id: self.next_day_id,
                    date: d,
                    task_count: count,
                    day_text: text.to_owned(),
                };
                let copy = clone_date_row(&row);
                let ghost old_view = self@;
                self.days.push(row);
                self.next_day_id = self.next_day_id + 1;
                proof {
                    assert(self@.days =~= old_view.days.push(copy@));
                    assert(self@.notes =~= old_view.notes);
                    let s = self@;
                    assert forall|i: int| 0 <= i < s.notes.len() implies 1 <= (
                    #[trigger] s.notes[i]).id < s.next_note_id && has_day_id(
                        s.days,
                        s.notes[i].day_key,
                    ) by {
                        assert(old_view.notes[i] == s.notes[i]);
                        assert(has_day_id(old_view.days, s.notes[i].day_key));
                        let j = choose|j: int|
                            0 <= j < old_view.days.len() && old_view.days[j].id
                                == s.notes[i].day_key;
                        assert(s.days[j].id == s.notes[i].day_key);
                    }
                }
                Ok(copy)
            },
        }
    }

    /// Update the live note with the id carried by `n`, overwriting its body
    /// and completion and refreshing its update stamp. Fails with `NotFound`,
    /// changing nothing, when no live row has that id.
    pub fn update_note(&mut self, n: &Note, now: Instant) -> (r: Result<Note, NotesError>)
        requires
            wf_store(old(self)@),
        ensures
            wf_store(final(self)@),
            match alive_note_index(old(self)@.notes, n@.id) {
                Some(i) => {
                    &&& r is Ok
                    &&& r->Ok_0@ == (NoteV { id: n@.id, body: n@.body, completed: n@.completed })
                    &&& final(self)@.notes == old(self)@.notes.update(
                        i,
                        NoteRowV {
                            body: n@.body,
                            completed: n@.completed,
                            updated_at: Some(now),
                            ..old(self)@.notes[i]
                        },
                    )
                    &&& final(self)@.days == old(self)@.days
                    &&& final(self)@.next_day_id == old(self)@.next_day_id
                    &&& final(self)@.next_note_id == old(self)@.next_note_id
                },
                None => r is Err && r->Err_0@ == NotesErrorV::NotFound(n@.id) && final(self)@
                    == old(self)@,
            },
    {
        match note_pos_by_id(&self.notes, n.id) {
            Some(p) => {
                proof {
                    assert(self@.notes[p as int] == self.notes@[p as int]@);
                }
                if self.notes[p].deleted_at.is_none() {
                    let ghost old_view = self@;
                    let row = &mut self.notes[p];
                    row.body = n.body.clone();
                    row.completed = n.completed;
                    row.updated_at = Some(now);
                    proof {
                        let rec = NoteRowV {
                            body: n@.body,
                            completed: n@.completed,
                            updated_at: Some(now),
                            ..old_view.notes[p as int]
                        };
                        assert(self@.notes =~= old_view.notes.update(p as int, rec));
                        assert(self@.days =~= old_view.days);
                        let s = self@;
                        assert forall|i: int| 0 <= i < s.notes.len() implies 1 <= (
                        #[trigger] s.notes[i]).id < s.next_note_id && has_day_id(
                            s.days,
                            s.notes[i].day_key,
                        ) by {
                            if i != p as int {
                                assert(s.notes[i] == old_view.notes[i]);
                            }
                            assert(has_day_id(old_view.days, old_view.notes[i].day_key));
                        }
                        assert forall|i: int, j: int| 0 <= i < j < s.notes.len() implies (
                        #[trigger] s.notes[i]).id != (#[trigger] s.notes[j]).id by {
                            assert(s.notes[i].id == old_view.notes[i].id);
                            assert(s.notes[j].id == old_view.notes[j].id);
                        }
                    }
                    let out = Note { id: n.id, body: n.body.clone(), completed: n.completed };
                    Ok(out)
                } else {
                    Err(NotesError::NotFound(n.id))
                }
            },
            None => Err(NotesError::NotFound(n.id)),
        }
    }

    /// Stamp the note with the given id as deleted now. Succeeds even when
    /// the id is unknown; in that case nothing changes.
    pub fn soft_delte_note_by_id(&mut self, id: u32, now: Instant) -> (r: Result<(), NotesError>)
        requires
            wf_store(old(self)@),
        ensures
            wf_store(final(self)@),
            r is Ok,
            match note_index_by_id(old(self)@.notes, id) {
                Some(i) => {
                    &&& final(self)@.notes == old(self)@.notes.update(
                        i,
                        NoteRowV { deleted_at: Some(now), ..old(self)@.notes[i] },
                    )
                    &&& final(self)@.days == old(self)@.days
                    &&& final(self)@.next_day_id == old(self)@.next_day_id
                    &&& final(self)@.next_note_id == old(self)@.next_note_id
                },
                None => final(self)@ == old(self)@,
            },
    {
        match note_pos_by_id(&self.notes, id) {
            Some(p) => {
                let ghost old_view = self@;
                let row = &mut self.notes[p];
                row.deleted_at = Some(now);
                proof {
                    let rec = NoteRowV { deleted_at: Some(now), ..old_view.notes[p as int] };
                    assert(self@.notes =~= old_view.notes.update(p as int, rec));
                    assert(self@.days =~= old_view.days);
                    let s = self@;
                    assert forall|i: int| 0 <= i < s.notes.len() implies 1 <= (
                    #[trigger] s.notes[i]).id < s.next_note_id && has_day_id(
                        s.days,
                        s.notes[i].day_key,
                    ) by {
                        if i != p as int {
                            assert(s.notes[i] == old_view.notes[i]);
                        }
                        assert(has_day_id(old_view.days, old_view.notes[i].day_key));
                    }
                    assert forall|i: int, j: int| 0 <= i < j < s.notes.len() implies (
                    #[trigger] s.notes[i]).id != (#[trigger] s.notes[j]).id by {
                        assert(s.notes[i].id == old_view.notes[i].id);
                        assert(s.notes[j].id == old_view.notes[j].id);
                    }
                }
                Ok(())
            },
            None => Ok(()),
        }
    }

    /// Overwrite the free text of the day row for `date`; a date with no row
    /// is left untouched.
    pub fn update_day_text(&mut self, date: Date, day_text: &str) -> (r: Result<(), NotesError>)
        requires
            wf_store(old(self)@),
        ensures
            wf_store(final(self)@),
            r is Ok,
            match day_index_by_date(old(self)@.days, date) {
                Some(i) => {
                    &&& final(self)@.days == old(self)@.days.update(
                        i,
                        DateRowV { day_text: day_text@, ..old(self)@.days[i] },
                    )
                    &&& final(self)@.notes == old(self)@.notes
                    &&& final(self)@.next_day_id == old(self)@.next_day_id
                    &&& final(self)@.next_note_id == old(self)@.next_note_id
                },
                None => final(self)@ == old(self)@,
            },
    {
        match day_pos_by_date(&self.days, &date) {
            Some(p) => {
                let ghost old_view = self@;
                let row = &mut self.days[p];
                row.day_text = day_text.to_owned();
                proof {
                    let rec = DateRowV { day_text: day_text@, ..old_view.days[p as int] };
                    assert(self@.days =~= old_view.days.update(p as int, rec));
                    assert(self@.notes =~= old_view.notes);
                    let s = self@;
                    assert forall|i: int| 0 <= i < s.days.len() implies 1 <= (
                    #[trigger] s.days[i]).id < s.next_day_id && valid_date(s.days[i].date) by {
                        if i != p as int {
                            assert(s.days[i] == old_view.days[i]);
                        }
                    }
                    assert forall|i: int, j: int| 0 <= i < j < s.days.len() implies (
                    #[trigger] s.days[i]).id != (#[trigger] s.days[j]).id && s.days[i].date
                        != s.days[j].date by {
                        assert(s.days[i].id == old_view.days[i].id);
                        assert(s.days[j].id == old_view.days[j].id);
                        assert(s.days[i].date == old_view.days[i].date);
                        assert(s.days[j].date == old_view.days[j].date);
                    }
                    assert forall|i: int| 0 <= i < s.notes.len() implies 1 <= (
                    #[trigger] s.notes[i]).id < s.next_note_id && has_day_id(
                        s.days,
                        s.notes[i].day_key,
                    ) by {
                        assert(s.notes[i] == old_view.notes[i]);
                        assert(has_day_id(old_view.days, s.notes[i].day_key));
                        let j = choose|j: int|
                            0 <= j < old_view.days.len() && old_view.days[j].id
                                == s.notes[i].day_key;
                        assert(s.days[j].id == s.notes[i].day_key);
                    }
                }
                Ok(())
            },
            None => Ok(()),
        }
    }
}

// ---------------------------------------------------------------------------
// Day snapshots: the alive notes of one day, ordered by creation
// ---------------------------------------------------------------------------

pub struct SortRowV {
    pub created_at: Instant,
    pub id: u32,
    pub body: Seq<char>,
    pub completed: bool,
}

/// What the read order depends on: a note row reduced to its creation
/// instant, id, and visible content.
#[derive(Debug)]
pub struct SortRow {
    pub created_at: Instant,
    pub id: u32,
    pub body: String,
    pub completed: bool,
}

impl View for SortRow {
    type V = SortRowV;

    open spec fn view(&self) -> SortRowV {
        SortRowV {
            created_at: self.created_at,
            id: self.id,
            body: self.body@,
            completed: self.completed,
        }
    }
}

impl DeepView for SortRow {
    type V = SortRowV;

    open spec fn deep_view(&self) -> SortRowV {
        self@
    }
}

pub open spec fn owned_alive(n: NoteRowV, dk: u32) -> bool {
    note_alive(n) && n.day_key == dk
}

/// The rows of `s` that are alive and owned by day `dk`, in their order.
pub open spec fn filter_day(s: Seq<NoteRowV>, dk: u32) -> Seq<NoteRowV> {
    s.filter(|n: NoteRowV| owned_alive(n, dk))
}

/// The alive rows of one day, in storage order.
pub open spec fn day_rows(s: StoreV, dk: u32) -> Seq<NoteRowV> {
    filter_day(s.notes, dk)
}

/// Each row reduced to what the read order and read model use.
pub open spec fn reduce_all(s: Seq<NoteRowV>) -> Seq<SortRowV> {
    s.map_values(|n: NoteRowV| reduce_row(n))
}

/// The read-model notes of a sequence of reduced rows.
pub open spec fn notes_of(s: Seq<SortRowV>) -> Seq<NoteV> {
    s.map_values(|p: SortRowV| sort_note(p))
}

proof fn lemma_filter_day_take_step(s: Seq<NoteRowV>, dk: u32, k: int)
    requires
        0 <= k < s.len(),
    ensures
        filter_day(s.take(k + 1), dk) == (if owned_alive(s[k], dk) {
            filter_day(s.take(k), dk).push(s[k])
        } else {
            filter_day(s.take(k), dk)
        }),
{
    reveal(Seq::filter);
    let q = s.take(k + 1);
    assert(q.len() == k + 1);
    assert(q.last() == s[k]);
    assert(q.drop_last() =~= s.take(k));
}

proof fn lemma_reduce_all_push(s: Seq<NoteRowV>, x: NoteRowV)
    ensures
        reduce_all(s.push(x)) == reduce_all(s).push(reduce_row(x)),
{
    assert(reduce_all(s.push(x)) =~= reduce_all(s).push(reduce_row(x)));
}

proof fn lemma_notes_of_push(s: Seq<SortRowV>, x: SortRowV)
    ensures
        notes_of(s.push(x)) == notes_of(s).push(sort_note(x)),
{
    assert(notes_of(s.push(x)) =~= notes_of(s).push(sort_note(x)));
}

pub open spec fn reduce_row(n: NoteRowV) -> SortRowV {
    SortRowV { created_at: n.created_at, id: n.id, body: n.body, completed: n.completed }
}

/// The read-model image of a reduced row.
pub open spec fn sort_note(p: SortRowV) -> NoteV {
    NoteV { id: p.id, body: p.body, completed: p.completed }
}

/// Read order: creation instant first, then id — a total order on rows with
/// distinct ids.
pub open spec fn row_le(a: SortRowV, b: SortRowV) -> bool {
    instant_lt_spec(a.created_at, b.created_at) || (a.created_at == b.created_at && a.id <= b.id)
}

pub open spec fn insert_sorted_spec(x: SortRowV, s: Seq<SortRowV>) -> Seq<SortRowV>
    decreases s.len(),
{
    if s.len() == 0 {
        seq![x]
    } else if row_le(s[0], x) {
        seq![s[0]] + insert_sorted_spec(x, s.drop_first())
    } else {
        seq![x] + s
    }
}

/// Insertion sort of the reduced rows, stable in the sense that the result
/// is a function of the input sequence alone.
pub open spec fn sort_rows_spec(s: Seq<SortRowV>) -> Seq<SortRowV>
    decreases s.len(),
{
    if s.len() == 0 {
        Seq::empty()
    } else {
        insert_sorted_spec(s.last(), sort_rows_spec(s.drop_last()))
    }
}

pub open spec fn rows_sorted(s: Seq<SortRowV>) -> bool {
    forall|i: int, j: int| 0 <= i < j < s.len() ==> row_le(#[trigger] s[i], #[trigger] s[j])
}

proof fn lemma_prepend_multiset(a: SortRowV, t: Seq<SortRowV>)
    ensures
        (seq![a] + t).to_multiset() == t.to_multiset().insert(a),
    decreases t.len(),
{
    broadcast use vstd::seq_lib::group_to_multiset_ensures;

    if t.len() == 0 {
        assert(seq![a] + t =~= Seq::<SortRowV>::empty().push(a));
        assert(t =~= Seq::<SortRowV>::empty());
    } else {
        let u = t.drop_last();
        lemma_prepend_multiset(a, u);
        assert((seq![a] + u).push(t.last()) =~= seq![a] + t);
        assert((seq![a] + t).to_multiset() == (seq![a] + u).to_multiset().insert(t.last()));
        assert(u.push(t.last()) =~= t);
        assert(t.to_multiset() == u.to_multiset().insert(t.last()));
        assert(u.to_multiset().insert(a).insert(t.last()) =~= u.to_multiset().insert(
            t.last(),
        ).insert(a));
    }
}

pub proof fn lemma_insert_sorted_props(x: SortRowV, s: Seq<SortRowV>)
    requires
        rows_sorted(s),
    ensures
        ({
            let r = insert_sorted_spec(x, s);
            &&& rows_sorted(r)
            &&& r.len() == s.len() + 1
            &&& forall|k: int| 0 <= k < r.len() ==> #[trigger] r[k] == x || s.contains(r[k])
            &&& r.to_multiset() == s.to_multiset().insert(x)
        }),
    decreases s.len(),
{
    broadcast use vstd::seq_lib::group_seq_properties;

    let r = insert_sorted_spec(x, s);
    if s.len() == 0 {
        assert(r == seq![x]);
        assert(r =~= s.push(x));
        assert(s.push(x).to_multiset() =~= s.to_multiset().insert(x));
    } else if row_le(s[0], x) {
        let t = s.drop_first();
        assert(rows_sorted(t)) by {
            assert(forall|i: int| 0 <= i < t.len() ==> t[i] == s[i + 1]);
        }
        lemma_insert_sorted_props(x, t);
        let rt = insert_sorted_spec(x, t);
        assert(r == seq![s[0]] + rt);
        assert(r[0] == s[0]);
        assert(forall|k: int| 1 <= k < r.len() ==> r[k] == rt[k - 1]);
        assert forall|i: int, j: int| 0 <= i < j < r.len() implies row_le(
            #[trigger] r[i],
            #[trigger] r[j],
        ) by {
            if i == 0 {
                let e = r[j];
                assert(e == rt[j - 1]);
                if e == x {
                    assert(row_le(s[0], x));
                } else {
                    assert(t.contains(e));
                    let w = choose|w: int| 0 <= w < t.len() && t[w] == e;
                    assert(t[w] == s[w + 1]);
                    assert(row_le(s[0], s[w + 1]));
                }
            } else {
                assert(row_le(rt[i - 1], rt[j - 1]));
            }
        }
        assert forall|k: int| 0 <= k < r.len() implies #[trigger] r[k] == x || s.contains(
            r[k],
        ) by {
            if k == 0 {
                assert(s[0] == s[0]);
                assert(s.contains(s[0]));
            } else {
                if r[k] != x {
                    assert(t.contains(r[k]));
                    let w = choose|w: int| 0 <= w < t.len() && t[w] == r[k];
                    assert(s[w + 1] == r[k]);
                    assert(s.contains(s[w + 1]));
                }
            }
        }
        assert(r.to_multiset() == s.to_multiset().insert(x)) by {
            assert(s =~= seq![s[0]] + t);
            lemma_prepend_multiset(s[0], t);
            lemma_prepend_multiset(s[0], rt);
            assert(rt.to_multiset() == t.to_multiset().insert(x));
            assert(t.to_multiset().insert(x).insert(s[0]) =~= t.to_multiset().insert(
                s[0],
            ).insert(x));
        }
    } else {
        assert(r == seq![x] + s);
        assert(r[0] == x);
        assert(forall|k: int| 1 <= k < r.len() ==> r[k] == s[k - 1]);
        assert(row_le(x, s[0]));
        assert forall|i: int, j: int| 0 <= i < j < r.len() implies row_le(
            #[trigger] r[i],
            #[trigger] r[j],
        ) by {
            if i == 0 {
                if j > 1 {
                    assert(row_le(s[0], s[j - 1]));
                }
            } else {
                assert(row_le(s[i - 1], s[j - 1]));
            }
        }
        assert(r.to_multiset() == s.to_multiset().insert(x)) by {
            lemma_prepend_multiset(x, s);
        }
    }
}

pub proof fn lemma_sort_rows_props(s: Seq<SortRowV>)
    ensures
        rows_sorted(sort_rows_spec(s)),
        sort_rows_spec(s).len() == s.len(),
        sort_rows_spec(s).to_multiset() == s.to_multiset(),
    decreases s.len(),
{
    broadcast use vstd::seq_lib::group_seq_properties;

    if s.len() == 0 {
        assert(sort_rows_spec(s) =~= s);
    } else {
        let t = s.drop_last();
        lemma_sort_rows_props(t);
        lemma_insert_sorted_props(s.last(), sort_rows_spec(t));
        assert(s =~= t.push(s.last()));
        assert(t.push(s.last()).to_multiset() =~= t.to_multiset().insert(s.last()));
    }
}

proof fn lemma_insert_sorted_at(x: SortRowV, s: Seq<SortRowV>, p: int)
    requires
        0 <= p <= s.len(),
        forall|k: int| 0 <= k < p ==> row_le(#[trigger] s[k], x),
        p < s.len() ==> !row_le(s[p], x),
    ensures
        insert_sorted_spec(x, s) == s.insert(p, x),
    decreases s.len(),
{
    if s.len() == 0 {
        assert(s.insert(0, x) =~= seq![x]);
    } else if p == 0 {
        assert(!row_le(s[0], x));
        assert(s.insert(0, x) =~= seq![x] + s);
    } else {
        assert(row_le(s[0], x));
        let t = s.drop_first();
        assert(forall|k: int| 0 <= k < t.len() ==> t[k] == s[k + 1]);
        lemma_insert_sorted_at(x, t, p - 1);
        assert(seq![s[0]] + t.insert(p - 1, x) =~= s.insert(p, x));
    }
}

fn row_le_exec(a: &SortRow, b: &SortRow) -> (r: bool)
    ensures
        r == row_le(a@, b@),
{
    instant_lt(&a.created_at, &b.created_at) || (a.created_at.day.year == b.created_at.day.year
        && a.created_at.day.month == b.created_at.day.month && a.created_at.day.day
        == b.created_at.day.day && a.created_at.secs == b.created_at.secs && a.id <= b.id)
}

fn insert_row_sorted(v: &mut Vec<SortRow>, x: SortRow)
    ensures
        final(v).deep_view() == insert_sorted_spec(x@, old(v).deep_view()),
        final(v)@.len() == old(v)@.len() + 1,
{
    let ghost sv = v.deep_view();
    let ghost xv = x@;
    let n = v.len();
    let mut p: usize = 0;
    while p < n && row_le_exec(&v[p], &x)
        invariant
            0 <= p <= n,
            n == v@.len(),
            sv == v.deep_view(),
            xv == x@,
            forall|k: int| 0 <= k < p ==> row_le(#[trigger] sv[k], xv),
        decreases n - p,
    {
        proof {
            assert(sv[p as int] == v@[p as int]@);
        }
        p = p + 1;
    }
    proof {
        assert(p < n ==> sv[p as int] == v@[p as int]@);
        lemma_insert_sorted_at(xv, sv, p as int);
    }
    v.insert(p, x);
    proof {
        assert(final(v).deep_view() =~= sv.insert(p as int, xv));
    }
}

fn clone_sort_row(r: &SortRow) -> (c: SortRow)
    ensures
        c@ == r@,
{
    SortRow { created_at: r.created_at, id: r.id, body: r.body.clone(), completed: r.completed }
}

/// The reduced alive rows of one day, in storage order.
pub open spec fn day_reduced(s: StoreV, dk: u32) -> Seq<SortRowV> {
    reduce_all(day_rows(s, dk))
}

/// One day's read model: its alive notes sorted by creation instant.
pub open spec fn day_snapshot(s: StoreV, dk: u32) -> Seq<NoteV> {
    notes_of(sort_rows_spec(day_reduced(s, dk)))
}

pub open spec fn day_snapshot_by_date(s: StoreV, d: Date) -> Seq<NoteV> {
    match day_index_by_date(s.days, d) {
        Some(i) => day_snapshot(s, s.days[i].id),
        None => Seq::empty(),
    }
}

pub open spec fn day_text_of(s: StoreV, d: Date) -> Seq<char> {
    match day_index_by_date(s.days, d) {
        Some(i) => s.days[i].day_text,
        None => Seq::empty(),
    }
}

impl NoteStore {
    /// The sorted alive notes of a date's day, and the day's free text.
    fn collect_day(&self, d: &Date) -> (r: (Vec<Note>, String))
        requires
            wf_store(self@),
        ensures
            r.0.deep_view() == day_snapshot_by_date(self@, *d),
            r.1@ == day_text_of(self@, *d),
            r.0@.len() <= self@.notes.len(),
    {
        let (dk, text): (u32, String) = match day_pos_by_date(&self.days, d) {
            None => {
                let out: Vec<Note> = Vec::new();
                proof {
                    assert(out.deep_view() =~= Seq::<NoteV>::empty());
                    reveal_strlit("");
                }
                let empty_text = String::new();
                return (out, empty_text);
            },
            Some(p) => {
                proof {
                    assert(self@.days[p as int] == self.days@[p as int]@);
                }
                (self.days[p].id, self.days[p].day_text.clone())
            },
        };
        let ghost sv = self@;
        let n = self.notes.len();
        let mut filtered: Vec<SortRow> = Vec::new();
        let mut k: usize = 0;
        while k < n
            invariant
                0 <= k <= n,
                n == self.notes@.len(),
                sv == self@,
                filtered@.len() <= k,
                filtered.deep_view() == reduce_all(filter_day(sv.notes.take(k as int), dk)),
            decreases n - k,
        {
            proof {
                assert(sv.notes[k as int] == self.notes@[k as int]@);
                lemma_filter_day_take_step(sv.notes, dk, k as int);
            }
            let row = &self.notes[k];
            if row.deleted_at.is_none() && row.day_key == dk {
                let sr = SortRow {
                    created_at: row.created_at,
                    id: row.id,
                    body: row.body.clone(),
                    completed: row.completed,
                };
                let ghost srv = sr@;
                let ghost before = filtered.deep_view();
                filtered.push(sr);
                proof {
                    assert(owned_alive(sv.notes[k as int], dk));
                    lemma_reduce_all_push(filter_day(sv.notes.take(k as int), dk), sv.notes[k as int]);
                    assert(srv == reduce_row(sv.notes[k as int]));
                    assert(filtered.deep_view() =~= before.push(srv));
                }
            } else {
                proof {
                    assert(!owned_alive(sv.notes[k as int], dk));
                }
            }
            k = k + 1;
        }
        proof {
            assert(sv.notes.take(n as int) =~= sv.notes);
        }
        let ghost reduced = day_reduced(sv, dk);
        assert(filtered.deep_view() == reduced);
        let m = filtered.len();
        proof {
            assert(reduced.len() == filtered@.len());
        }
        let mut sorted: Vec<SortRow> = Vec::new();
        let mut j: usize = 0;
        while j < m
            invariant
                0 <= j <= m,
                m == filtered@.len(),
                m <= sv.notes.len(),
                reduced == filtered.deep_view(),
                sorted@.len() == j,
                sorted.deep_view() == sort_rows_spec(reduced.take(j as int)),
            decreases m - j,
        {
            let x = clone_sort_row(&filtered[j]);
            proof {
                assert(reduced.take((j + 1) as int).drop_last() =~= reduced.take(j as int));
                assert(reduced.take((j + 1) as int).last() == reduced[j as int]);
                assert(reduced[j as int] == filtered@[j as int]@);
            }
            insert_row_sorted(&mut sorted, x);
            j = j + 1;
        }
        proof {
            assert(reduced.take(m as int) =~= reduced);
        }
        let mut out: Vec<Note> = Vec::new();
        let mut t: usize = 0;
        while t < m
            invariant
                0 <= t <= m,
                m == sorted@.len(),
                sorted.deep_view() == sort_rows_spec(reduced),
                out@.len() == t,
                out.deep_view() == notes_of(sort_rows_spec(reduced).take(t as int)),
            decreases m - t,
        {
            let sr = &sorted[t];
            let ghost before = out.deep_view();
            out.push(Note { id: sr.id, body: sr.body.clone(), completed: sr.completed });
            proof {
                let ss = sort_rows_spec(reduced);
                assert(ss[t as int] == sorted@[t as int]@);
                assert(ss.take((t + 1) as int) =~= ss.take(t as int).push(ss[t as int]));
                lemma_notes_of_push(ss.take(t as int), ss[t as int]);
                assert(out.deep_view() =~= before.push(sort_note(ss[t as int])));
            }
            t = t + 1;
        }
        proof {
            let ss = sort_rows_spec(reduced);
            assert(ss.take(m as int) =~= ss);
            assert(ss.len() == reduced.len()) by {
                lemma_sort_rows_props(reduced);
            }
        }
        (out, text)
    }
}

// ---------------------------------------------------------------------------
// Inserting notes
// ---------------------------------------------------------------------------

/// The store after appending a fresh note row owned by day `dk`.
pub open spec fn add_note(s: StoreV, nn: NewNoteV, dk: u32) -> StoreV {
    StoreV {
        notes: s.notes.push(
            NoteRowV {
                id: s.next_note_id,
                body: nn.body,
                completed: nn.completed,
                created_at: nn.created_at,
                updated_at: None,
                deleted_at: None,
                day_key: dk,
            },
        ),
        next_note_id: (s.next_note_id + 1) as u32,
        ..s
    }
}

/// What inserting a standalone new note does: the note lands on the day of
/// its creation instant, whose row is created first if absent.
pub open spec fn insert_note_spec(s: StoreV, nn: NewNoteV) -> Result<(StoreV, NoteV), NotesErrorV> {
    let d = nn.created_at.day;
    let out = NoteV { id: s.next_note_id, body: nn.body, completed: nn.completed };
    match day_index_by_date(s.days, d) {
        Some(i) => if s.next_note_id == u32::MAX {
            Err(NotesErrorV::PersistenceFailure(Seq::empty()))
        } else {
            Ok((add_note(s, nn, s.days[i].id), out))
        },
        None => if s.next_day_id == u32::MAX || s.next_note_id == u32::MAX {
            Err(NotesErrorV::PersistenceFailure(Seq::empty()))
        } else {
            let s1 = StoreV {
                days: s.days.push(
                    DateRowV {
                        id: s.next_day_id,
                        date: d,
                        task_count: 0,
                        day_text: Seq::empty(),
                    },
                ),
                next_day_id: (s.next_day_id + 1) as u32,
                ..s
            };
            Ok((add_note(s1, nn, s.next_day_id), out))
        },
    }
}

impl NoteStore {
    /// Append a fresh note row with the next id, owned by day `day_key`.
    fn _insert_note(
        &mut self,
        body: &str,
        created_at: Instant,
        completed: bool,
        day_key: u32,
    ) -> (r: Result<u32, NotesError>)
        requires
            wf_store(old(self)@),
            has_day_id(old(self)@.days, day_key),
        ensures
            wf_store(final(self)@),
            if old(self)@.next_note_id == u32::MAX {
                r is Err && r->Err_0@ == NotesErrorV::PersistenceFailure(Seq::empty())
                    && final(self)@ == old(self)@
            } else {
                let nn = NewNoteV { body: body@, completed, created_at };
                &&& r is Ok
                &&& r->Ok_0 == old(self)@.next_note_id
                &&& final(self)@ == add_note(old(self)@, nn, day_key)
            },
    {
        if self.next_note_id == u32::MAX {
            return Err(NotesError::PersistenceFailure(String::new()));
        }
        let id = self.next_note_id;
        let ghost old_view = self@;
        let row = NoteRow {
            id,
            body: body.to_owned(),
            completed,
            created_at,
            updated_at: None,
            deleted_at: None,
            day_key,
        };
        self.notes.push(row);
        self.next_note_id = self.next_note_id + 1;
        proof {
            let nn = NewNoteV { body: body@, completed, created_at };
            assert(self@.notes =~= add_note(old_view, nn, day_key).notes);
            assert(self@.days =~= old_view.days);
            let s = self@;
            assert forall|i: int| 0 <= i < s.notes.len() implies 1 <= (#[trigger] s.notes[i]).id
                < s.next_note_id && has_day_id(s.days, s.notes[i].day_key) by {
                if i < old_view.notes.len() {
                    assert(s.notes[i] == old_view.notes[i]);
                    assert(has_day_id(old_view.days, old_view.notes[i].day_key));
                    let j = choose|j: int|
                        0 <= j < old_view.days.len() && old_view.days[j].id
                            == old_view.notes[i].day_key;
                    assert(s.days[j].id == s.notes[i].day_key);
                } else {
                    let j = choose|j: int|
                        0 <= j < old_view.days.len() && old_view.days[j].id == day_key;
                    assert(s.days[j].id == day_key);
                }
            }
            assert forall|i: int, j: int| 0 <= i < j < s.notes.len() implies (
            #[trigger] s.notes[i]).id != (#[trigger] s.notes[j]).id by {
                if j < old_view.notes.len() {
                    assert(s.notes[i] == old_view.notes[i]);
                    assert(s.notes[j] == old_view.notes[j]);
                } else {
                    assert(s.notes[j].id == id);
                    assert(s.notes[i].id < id);
                }
            }
        }
        Ok(id)
    }

    /// Insert a new note on the day of its creation instant, creating that
    /// day's row first when it does not exist yet.
    pub fn insert_note(&mut self, n: NewNote) -> (r: Result<Note, NotesError>)
        requires
            wf_store(old(self)@),
            valid_date(n.created_at.day),
        ensures
            wf_store(final(self)@),
            match insert_note_spec(old(self)@, n@) {
                Ok(p) => r is Ok && r->Ok_0@ == p.1 && final(self)@ == p.0,
                Err(e) => r is Err && r->Err_0@ == e && final(self)@ == old(self)@,
            },
    {
        if self.next_note_id == u32::MAX {
            return Err(NotesError::PersistenceFailure(String::new()));
        }
        let d = n.date_created();
        let dk: u32 = match day_pos_by_date(&self.days, &d) {
            Some(p) => {
                proof {
                    assert(self@.days[p as int] == self.days@[p as int]@);
                }
                let k = self.days[p].id;
                proof {
                    assert(self@.days[p as int].id == k);
                    assert(has_day_id(self@.days, k));
                }
                k
            },
            None => {
                if self.next_day_id == u32::MAX {
                    return Err(NotesError::PersistenceFailure(String::new()));
                }
                let ghost old_view = self@;
                let day = match self.insert_day(d, None, "") {
                    Ok(day) => day,
                    Err(_) => {
                        proof {
                            assert(false);
                        }
                        return Err(NotesError::PersistenceFailure(String::new()));
                    },
                };
                proof {
                    reveal_strlit("");
                    assert(""@ =~= Seq::<char>::empty());
                    let w = old_view.days.len() as int;
                    assert(self@.days[w].id == day@.id);
                    assert(has_day_id(self@.days, day@.id));
                }
                day.id
            },
        };
        assert(has_day_id(self@.days, dk));
        let completed = n.completed;
        let created_at = n.created_at;
        match self._insert_note(n.body.as_str(), created_at, completed, dk) {
            Ok(id) => Ok(n.to_note(id)),
            Err(e) => {
                proof {
                    assert(false);
                }
                Err(e)
            },
        }
    }
}

// ---------------------------------------------------------------------------
// Range reads
// ---------------------------------------------------------------------------

impl NoteStore {
    /// One `DayNotes` for every calendar day in the inclusive range, in
    /// ascending date order with no gaps: a day with no stored notes yields
    /// an empty entry, its text taken from the day row when one exists.
    pub fn get_day_notes_in_range(&self, start_day: Date, end_day: Date) -> (r: Result<
        Vec<DayNotes>,
        NotesError,
    >)
        requires
            wf_store(self@),
            valid_date(start_day),
            valid_date(end_day),
            date_le_spec(start_day, end_day),
        ensures
            r is Ok,
            ({
                let days = date_range_spec(start_day, end_day);
                let out = r->Ok_0;
                &&& out@.len() == days.len()
                &&& forall|k: int|
                    0 <= k < days.len() ==> {
                        let dv = (#[trigger] out@[k])@;
                        &&& dv.date == days[k]
                        &&& dv.notes == day_snapshot_by_date(self@, days[k])
                        &&& dv.day_text == day_text_of(self@, days[k])
                        &&& dv.note_count == dv.notes.len()
                    }
            }),
    {
        let ghost days_g = date_range_spec(start_day, end_day);
        let dates = date_range(&start_day, &end_day);
        let n = dates.len();
        let mut out: Vec<DayNotes> = Vec::new();
        let mut k: usize = 0;
        while k < n
            invariant
                0 <= k <= n,
                n == dates@.len(),
                dates@ == days_g,
                wf_store(self@),
                out@.len() == k,
                forall|t: int|
                    0 <= t < k ==> {
                        let dv = (#[trigger] out@[t])@;
                        &&& dv.date == days_g[t]
                        &&& dv.notes == day_snapshot_by_date(self@, days_g[t])
                        &&& dv.day_text == day_text_of(self@, days_g[t])
                        &&& dv.note_count == dv.notes.len()
                    },
            decreases n - k,
        {
            let day = dates[k];
            let (notes, text) = self.collect_day(&day);
            let count = notes.len();
            proof {
                assert(notes.deep_view().len() == notes@.len());
            }
            out.push(DayNotes { notes, note_count: count as u32, date: day, day_text: text });
            k = k + 1;
        }
        Ok(out)
    }

    /// Parse-level ids: is `id` named by any update intent?
    fn intents_contain_update(intents: &Vec<ParsedNote>, id: u32) -> (r: bool)
        ensures
            r == is_update_id(intents.deep_view(), id),
    {
        let ghost iv = intents.deep_view();
        let n = intents.len();
        let mut k: usize = 0;
        while k < n
            invariant
                0 <= k <= n,
                n == intents@.len(),
                iv == intents.deep_view(),
                forall|t: int|
                    0 <= t < k ==> !((#[trigger] iv[t]) is Note && iv[t]->Note_0.id == id),
            decreases n - k,
        {
            proof {
                assert(iv[k as int] == intents@[k as int]@);
            }
            match &intents[k] {
                ParsedNote::Note(nn) => {
                    if nn.id == id {
                        assert(iv[k as int] is Note && iv[k as int]->Note_0.id == id);
                        return true;
                    }
                },
                ParsedNote::NewNote(_) => {},
            }
            k = k + 1;
        }
        false
    }

    /// The snapshot of a single day, via a one-day range read.
    pub fn get_days_notes(&self, day: Date) -> (r: Result<DayNotes, NotesError>)
        requires
            wf_store(self@),
            valid_date(day),
        ensures
            r is Ok,
            r->Ok_0@.date == day,
            r->Ok_0@.notes == day_snapshot_by_date(self@, day),
            r->Ok_0@.day_text == day_text_of(self@, day),
            r->Ok_0@.note_count == r->Ok_0@.notes.len(),
    {
        let mut v = match self.get_day_notes_in_range(day, day) {
            Ok(v) => v,
            Err(e) => {
                proof {
                    assert(false);
                }
                return Err(e);
            },
        };
        proof {
            assert(date_range_spec(day, day) == seq![day]);
            assert(v@.len() == 1);
        }
        let first = v.remove(0);
        Ok(first)
    }
}

// ---------------------------------------------------------------------------
// Reconciliation: persisting a parsed day document
// ---------------------------------------------------------------------------

/// How many of the first `i` intents ask for a new note.
pub open spec fn new_intent_count(intents: Seq<ParsedNoteV>, i: int) -> int
    decreases i,
        when 0 <= i <= intents.len()
{
    if i <= 0 {
        0
    } else {
        new_intent_count(intents, i - 1) + (if intents[i - 1] is NewNote {
            1int
        } else {
            0int
        })
    }
}

pub proof fn lemma_new_count_bounds(intents: Seq<ParsedNoteV>, i: int)
    requires
        0 <= i <= intents.len(),
    ensures
        0 <= new_intent_count(intents, i) <= i,
    decreases i,
{
    if i > 0 {
        lemma_new_count_bounds(intents, i - 1);
    }
}

pub proof fn lemma_new_count_mono(intents: Seq<ParsedNoteV>, i: int, j: int)
    requires
        0 <= i <= j <= intents.len(),
    ensures
        new_intent_count(intents, i) <= new_intent_count(intents, j),
        0 <= new_intent_count(intents, i),
        new_intent_count(intents, i) <= i,
    decreases j - i,
{
    lemma_new_count_bounds(intents, i);
    if i < j {
        lemma_new_count_mono(intents, i, j - 1);
    }
}

/// Does `id` appear among the update intents?
pub open spec fn is_update_id(intents: Seq<ParsedNoteV>, id: u32) -> bool {
    exists|k: int|
        0 <= k < intents.len() && (#[trigger] intents[k]) is Note && intents[k]->Note_0.id == id
}

pub open spec fn alive_some(notes: Seq<NoteRowV>, id: u32) -> bool {
    alive_note_index(notes, id) is Some
}

/// During a sequential apply of the intents, an update's target is good if
/// it is alive at the start or is one of the ids handed out to earlier
/// new-note intents of the same document.
pub open spec fn update_target_ok(s: StoreV, intents: Seq<ParsedNoteV>, i: int, id: u32) -> bool {
    alive_some(s.notes, id) || (s.next_note_id <= id && id < s.next_note_id + new_intent_count(
        intents,
        i,
    ))
}

/// The first update intent whose target would not exist, walking the
/// intents in order.
pub open spec fn first_bad_update_from(s: StoreV, intents: Seq<ParsedNoteV>, i: int) -> Option<u32>
    decreases intents.len() - i,
        when 0 <= i <= intents.len()
{
    if i >= intents.len() {
        None
    } else {
        match intents[i] {
            ParsedNoteV::NewNote(_) => first_bad_update_from(s, intents, i + 1),
            ParsedNoteV::Note(nv) => if update_target_ok(s, intents, i, nv.id) {
                first_bad_update_from(s, intents, i + 1)
            } else {
                Some(nv.id)
            },
        }
    }
}

pub open spec fn first_bad_update(s: StoreV, intents: Seq<ParsedNoteV>) -> Option<u32> {
    first_bad_update_from(s, intents, 0)
}

proof fn lemma_first_bad_none_suffix(s: StoreV, intents: Seq<ParsedNoteV>, i: int)
    requires
        0 <= i <= intents.len(),
        first_bad_update(s, intents) is None,
    ensures
        first_bad_update_from(s, intents, i) is None,
    decreases i,
{
    if i > 0 {
        lemma_first_bad_none_suffix(s, intents, i - 1);
    }
}

/// One intent applied to the store: a new-note intent appends a fresh row
/// owned by `dk`; an update intent overwrites the live row it names.
pub open spec fn apply_one(s: StoreV, p: ParsedNoteV, dk: u32, now: Instant) -> StoreV {
    match p {
        ParsedNoteV::NewNote(nn) => add_note(s, nn, dk),
        ParsedNoteV::Note(nv) => match alive_note_index(s.notes, nv.id) {
            Some(i) => StoreV {
                notes: s.notes.update(
                    i,
                    NoteRowV {
                        body: nv.body,
                        completed: nv.completed,
                        updated_at: Some(now),
                        ..s.notes[i]
                    },
                ),
                ..s
            },
            None => s,
        },
    }
}

/// The intents from `i` on, applied in order.
pub open spec fn apply_intents(
    s: StoreV,
    intents: Seq<ParsedNoteV>,
    i: int,
    dk: u32,
    now: Instant,
) -> StoreV
    decreases intents.len() - i,
        when 0 <= i <= intents.len()
{
    if i >= intents.len() {
        s
    } else {
        apply_intents(apply_one(s, intents[i], dk, now), intents, i + 1, dk, now)
    }
}

/// Soft-delete the note with the given id, if a row holds it.
pub open spec fn delete_one(s: StoreV, id: u32, now: Instant) -> StoreV {
    match note_index_by_id(s.notes, id) {
        Some(i) => StoreV {
            notes: s.notes.update(i, NoteRowV { deleted_at: Some(now), ..s.notes[i] }),
            ..s
        },
        None => s,
    }
}

/// Deletion by omission: every previously-alive note of the day whose id no
/// update intent repeats is soft-deleted.
pub open spec fn delete_unlisted(
    s: StoreV,
    pre: Seq<u32>,
    intents: Seq<ParsedNoteV>,
    j: int,
    now: Instant,
) -> StoreV
    decreases pre.len() - j,
        when 0 <= j <= pre.len()
{
    if j >= pre.len() {
        s
    } else {
        let s1 = if is_update_id(intents, pre[j]) {
            s
        } else {
            delete_one(s, pre[j], now)
        };
        delete_unlisted(s1, pre, intents, j + 1, now)
    }
}

pub open spec fn ids_of(s: Seq<NoteRowV>) -> Seq<u32> {
    s.map_values(|n: NoteRowV| n.id)
}

/// The ids of the day's alive notes, in storage order.
pub open spec fn alive_ids_of_day(s: StoreV, dk: u32) -> Seq<u32> {
    ids_of(day_rows(s, dk))
}

proof fn lemma_ids_of_push(s: Seq<NoteRowV>, x: NoteRowV)
    ensures
        ids_of(s.push(x)) == ids_of(s).push(x.id),
{
    assert(ids_of(s.push(x)) =~= ids_of(s).push(x.id));
}

/// Insert-or-replace of the day row for a date, keeping an existing row's
/// id; yields the new store and the day's key.
pub open spec fn upsert_day(s: StoreV, d: Date, count: u32, text: Seq<char>) -> (StoreV, u32) {
    match day_index_by_date(s.days, d) {
        Some(i) => (
            StoreV {
                days: s.days.update(i, DateRowV { task_count: count, day_text: text, ..s.days[i] }),
                ..s
            },
            s.days[i].id,
        ),
        None => (
            StoreV {
                days: s.days.push(
                    DateRowV { id: s.next_day_id, date: d, task_count: count, day_text: text },
                ),
                next_day_id: (s.next_day_id + 1) as u32,
                ..s
            },
            s.next_day_id,
        ),
    }
}

/// Can the store take this document: enough note ids for its new notes, and
/// a day id if the date has no row yet.
pub open spec fn persist_capacity_ok(s: StoreV, doc: ParsedDayNotesV) -> bool {
    &&& s.next_note_id + new_intent_count(doc.notes, doc.notes.len() as int) <= u32::MAX
    &&& (day_index_by_date(s.days, doc.date) is Some || s.next_day_id < u32::MAX)
}

/// The whole reconciliation, atomically: upsert the day row, apply the
/// intents in order, soft-delete the day's unlisted notes, and read back
/// the day's snapshot. Any failure leaves the store as it was.
pub open spec fn persist_spec(s: StoreV, doc: ParsedDayNotesV, now: Instant) -> Result<
    (StoreV, DayNotesV),
    NotesErrorV,
> {
    if !persist_capacity_ok(s, doc) {
        Err(NotesErrorV::PersistenceFailure(Seq::empty()))
    } else {
        match first_bad_update(s, doc.notes) {
            Some(id) => Err(NotesErrorV::NotFound(id)),
            None => {
                let up = upsert_day(s, doc.date, doc.note_count, doc.day_text);
                let pre = alive_ids_of_day(up.0, up.1);
                let s2 = apply_intents(up.0, doc.notes, 0, up.1, now);
                let s3 = delete_unlisted(s2, pre, doc.notes, 0, now);
                let snap = day_snapshot(s3, up.1);
                Ok(
                    (
                        s3,
                        DayNotesV {
                            notes: snap,
                            note_count: snap.len() as u32,
                            date: doc.date,
                            day_text: doc.day_text,
                        },
                    ),
                )
            },
        }
    }
}

/// Day lookups see only dates: stores whose day rows carry the same dates
/// in the same positions agree on every date lookup.
proof fn lemma_day_index_same_dates(a: Seq<DateRowV>, b: Seq<DateRowV>, d: Date)
    requires
        a.len() == b.len(),
        forall|i: int| 0 <= i < a.len() ==> (#[trigger] a[i]).date == b[i].date,
    ensures
        day_index_by_date(a, d) == day_index_by_date(b, d),
{
    lemma_day_index_same_dates_from(a, b, d, 0);
}

proof fn lemma_day_index_same_dates_from(a: Seq<DateRowV>, b: Seq<DateRowV>, d: Date, i: int)
    requires
        0 <= i <= a.len(),
        a.len() == b.len(),
        forall|k: int| 0 <= k < a.len() ==> (#[trigger] a[k]).date == b[k].date,
    ensures
        day_index_by_date_from(a, d, i) == day_index_by_date_from(b, d, i),
    decreases a.len() - i,
{
    if i < a.len() && a[i].date != d {
        lemma_day_index_same_dates_from(a, b, d, i + 1);
    }
}

proof fn lemma_day_index_push(days: Seq<DateRowV>, row: DateRowV, d: Date)
    requires
        day_index_by_date(days, d) is None,
        row.date == d,
    ensures
        day_index_by_date(days.push(row), d) == Some(days.len() as int),
{
    lemma_day_index_push_from(days, row, d, 0);
}

proof fn lemma_day_index_push_from(days: Seq<DateRowV>, row: DateRowV, d: Date, i: int)
    requires
        0 <= i <= days.len(),
        day_index_by_date_from(days, d, i) is None,
        row.date == d,
    ensures
        day_index_by_date_from(days.push(row), d, i) == Some(days.len() as int),
    decreases days.len() - i,
{
    let p = days.push(row);
    if i >= days.len() {
        assert(p[i] == row);
    } else {
        assert(p[i] == days[i]);
        lemma_day_index_push_from(days, row, d, i + 1);
    }
}

impl NoteStore {
    /// Persist one parsed day document as a single atomic reconciliation:
    /// last-edit-wins on the day row, inserts and updates in intent order,
    /// soft deletion of the day's notes the document no longer lists, and
    /// the day's fresh snapshot as the result. An update naming an id with
    /// no live row fails with `NotFound` and leaves the store unchanged, as
    /// does running out of id space.
    pub fn persist_parsed_day_note(&mut self, note: ParsedDayNotes, now: Instant) -> (r: Result<
        DayNotes,
        NotesError,
    >)
        requires
            wf_store(old(self)@),
            valid_date(note@.date),
            note@.notes.len() <= u32::MAX,
        ensures
            wf_store(final(self)@),
            match persist_spec(old(self)@, note@, now) {
                Ok(p) => r is Ok && final(self)@ == p.0 && r->Ok_0@ == p.1,
                Err(e) => r is Err && r->Err_0@ == e && final(self)@ == old(self)@,
            },
    {
        let ghost s0 = self@;
        let ghost intents = note@.notes;
        let n_intents = note.notes.len();
        // how many new ids this document needs
        let mut newc: u64 = 0;
        let mut k: usize = 0;
        while k < n_intents
            invariant
                0 <= k <= n_intents,
                n_intents == note.notes@.len(),
                intents == note.notes.deep_view(),
                newc == new_intent_count(intents, k as int),
                newc <= k,
            decreases n_intents - k,
        {
            proof {
                assert(intents[k as int] == note.notes@[k as int]@);
            }
            match &note.notes[k] {
                ParsedNote::NewNote(_) => {
                    newc = newc + 1;
                },
                ParsedNote::Note(_) => {},
            }
            k = k + 1;
        }
        // capacity for the new note ids and, if needed, a new day id
        if self.next_note_id as u64 + newc > u32::MAX as u64 {
            assert(!persist_capacity_ok(s0, note@));
            return Err(NotesError::PersistenceFailure(String::new()));
        }
        let day_missing = match day_pos_by_date(&self.days, &note.date) {
            Some(_) => false,
            None => true,
        };
        if day_missing && self.next_day_id == u32::MAX {
            assert(!persist_capacity_ok(s0, note@));
            return Err(NotesError::PersistenceFailure(String::new()));
        }
        assert(persist_capacity_ok(s0, note@));
        // validate every update intent before touching anything
        let mut seen_new: u64 = 0;
        let mut i: usize = 0;
        while i < n_intents
            invariant
                0 <= i <= n_intents,
                n_intents == note.notes@.len(),
                intents == note.notes.deep_view(),
                s0 == self@,
                wf_store(s0),
                persist_capacity_ok(s0, note@),
                intents == note@.notes,
                seen_new == new_intent_count(intents, i as int),
                seen_new <= i,
                first_bad_update(s0, intents) == first_bad_update_from(s0, intents, i as int),
            decreases n_intents - i,
        {
            proof {
                assert(intents[i as int] == note.notes@[i as int]@);
            }
            match &note.notes[i] {
                ParsedNote::NewNote(_) => {
                    seen_new = seen_new + 1;
                },
                ParsedNote::Note(nn) => {
                    proof {
                        lemma_new_count_mono(intents, i as int, intents.len() as int);
                    }
                    let alive_now = match note_pos_by_id(&self.notes, nn.id) {
                        Some(p) => {
                            proof {
                                assert(s0.notes[p as int] == self.notes@[p as int]@);
                            }
                            self.notes[p].deleted_at.is_none()
                        },
                        None => false,
                    };
                    assert(alive_now == alive_some(s0.notes, nn.id));
                    let fresh = self.next_note_id <= nn.id && (nn.id as u64) < self.next_note_id
                        as u64 + seen_new;
                    if !(alive_now || fresh) {
                        assert(!update_target_ok(s0, intents, i as int, nn.id));
                        assert(first_bad_update(s0, intents) == Some(nn.id));
                        return Err(NotesError::NotFound(nn.id));
                    }
                    assert(update_target_ok(s0, intents, i as int, nn.id));
                },
            }
            i = i + 1;
        }
        assert(first_bad_update(s0, intents) is None);
        // upsert the day row
        let ghost up = upsert_day(s0, note@.date, note@.note_count, note@.day_text);
        let dk: u32 = match day_pos_by_date(&self.days, &note.date) {
            Some(p) => {
                proof {
                    assert(s0.days[p as int] == self.days@[p as int]@);
                }
                let key = self.days[p].id;
                let ghost before = self@;
                let row = &mut self.days[p];
                row.task_count = note.note_count;
                row.day_text = note.day_text.clone();
                proof {
                    assert(self@.days =~= up.0.days);
                    assert(self@.notes =~= up.0.notes);
                    assert(key == up.1);
                }
                key
            },
            None => {
                let key = self.next_day_id;
                let row = DateRow {
                    id: key,
                    date: note.date,
                    task_count: note.note_count,
                    day_text: note.day_text.clone(),
                };
                self.days.push(row);
                self.next_day_id = self.next_day_id + 1;
                proof {
                    assert(self@.days =~= up.0.days);
                    assert(self@.notes =~= up.0.notes);
                    assert(key == up.1);
                }
                key
            },
        };
        let ghost s1 = self@;
        proof {
            assert(s1 == up.0);
            assert(wf_store(s1)) by {
                assert forall|a: int| 0 <= a < s1.days.len() implies 1 <= (
                #[trigger] s1.days[a]).id < s1.next_day_id && valid_date(s1.days[a].date) by {
                    if a < s0.days.len() {
                        assert(s1.days[a].id == s0.days[a].id || s1.days[a].id == s0.next_day_id);
                    }
                }
                assert forall|a: int, b: int| 0 <= a < b < s1.days.len() implies (
                #[trigger] s1.days[a]).id != (#[trigger] s1.days[b]).id && s1.days[a].date
                    != s1.days[b].date by {
                    if b < s0.days.len() {
                        assert(s1.days[a].id == s0.days[a].id && s1.days[b].id == s0.days[b].id);
                        assert(s1.days[a].date == s0.days[a].date && s1.days[b].date
                            == s0.days[b].date);
                    } else {
                        assert(s1.days[a].id == s0.days[a].id);
                        assert(s1.days[a].date == s0.days[a].date);
                        lemma_day_index_by_date_from(s0.days, note@.date, 0);
                    }
                }
                assert forall|a: int| 0 <= a < s1.notes.len() implies 1 <= (
                #[trigger] s1.notes[a]).id < s1.next_note_id && has_day_id(
                    s1.days,
                    s1.notes[a].day_key,
                ) by {
                    assert(s1.notes[a] == s0.notes[a]);
                    assert(has_day_id(s0.days, s0.notes[a].day_key));
                    let j = choose|j: int|
                        0 <= j < s0.days.len() && s0.days[j].id == s0.notes[a].day_key;
                    assert(s1.days[j].id == s0.days[j].id);
                }
            }
            assert(has_day_id(s1.days, dk)) by {
                match day_index_by_date(s0.days, note@.date) {
                    Some(p) => {
                        lemma_day_index_by_date_from(s0.days, note@.date, 0);
                        assert(s1.days[p].id == dk);
                    },
                    None => {
                        assert(s1.days[s0.days.len() as int].id == dk);
                    },
                }
            }
        }
        // the day's alive notes before the intents are applied
        let ghost pre_g = alive_ids_of_day(s1, dk);
        let n_rows = self.notes.len();
        let mut pre: Vec<u32> = Vec::new();
        let mut t: usize = 0;
        while t < n_rows
            invariant
                0 <= t <= n_rows,
                n_rows == self.notes@.len(),
                s1 == self@,
                pre@ == ids_of(filter_day(s1.notes.take(t as int), dk)),
                pre@.len() <= t,
            decreases n_rows - t,
        {
            proof {
                assert(s1.notes[t as int] == self.notes@[t as int]@);
                lemma_filter_day_take_step(s1.notes, dk, t as int);
            }
            let row = &self.notes[t];
            if row.deleted_at.is_none() && row.day_key == dk {
                pre.push(row.id);
                proof {
                    lemma_ids_of_push(filter_day(s1.notes.take(t as int), dk), s1.notes[t as int]);
                }
            }
            t = t + 1;
        }
        proof {
            assert(s1.notes.take(n_rows as int) =~= s1.notes);
            assert(pre@ == pre_g);
        }
        // apply the intents in order
        let mut i2: usize = 0;
        while i2 < n_intents
            invariant
                0 <= i2 <= n_intents,
                n_intents == note.notes@.len(),
                intents == note.notes.deep_view(),
                wf_store(self@),
                wf_store(s1),
                first_bad_update(s0, intents) is None,
                s0.notes == s1.notes,
                s0.next_note_id == s1.next_note_id,
                persist_capacity_ok(s0, note@),
                intents == note@.notes,
                apply_intents(s1, intents, 0, dk, now) == apply_intents(
                    self@,
                    intents,
                    i2 as int,
                    dk,
                    now,
                ),
                has_day_id(s1.days, dk),
                self@.days == s1.days,
                self@.next_day_id == s1.next_day_id,
                self@.next_note_id == s1.next_note_id + new_intent_count(intents, i2 as int),
                forall|id: u32|
                    #[trigger] alive_some(self@.notes, id) == (alive_some(s1.notes, id) || (
                    s1.next_note_id <= id && id < s1.next_note_id + new_intent_count(
                        intents,
                        i2 as int,
                    ))),
            decreases n_intents - i2,
        {
            let ghost cur = self@;
            proof {
                assert(intents[i2 as int] == note.notes@[i2 as int]@);
                lemma_first_bad_none_suffix(s0, intents, i2 as int);
                lemma_new_count_mono(intents, i2 as int, intents.len() as int);
                lemma_new_count_mono(intents, (i2 + 1) as int, intents.len() as int);
            }
            match &note.notes[i2] {
                ParsedNote::NewNote(nn) => {
                    proof {
                        assert(cur.next_note_id < u32::MAX);
                    }
                    let body = nn.body.clone();
                    let created = nn.created_at;
                    let completed = nn.completed;
                    let ghost newid = cur.next_note_id;
                    match self._insert_note(body.as_str(), created, completed, dk) {
                        Ok(_) => {},
                        Err(_) => {
                            proof {
                                assert(false);
                            }
                            return Err(NotesError::PersistenceFailure(String::new()));
                        },
                    }
                    proof {
                        let nv = intents[i2 as int]->NewNote_0;
                        assert(nv == nn@);
                        assert(self@ == apply_one(cur, intents[i2 as int], dk, now));
                        let rec = NoteRowV {
                            id: newid,
                            body: nv.body,
                            completed: nv.completed,
                            created_at: nv.created_at,
                            updated_at: None,
                            deleted_at: None,
                            day_key: dk,
                        };
                        assert(self@.notes == cur.notes.push(rec));
                        assert forall|id: u32| #[trigger] alive_some(self@.notes, id) == (
                        alive_some(cur.notes, id) || id == newid) by {
                            lemma_note_index_push(cur.notes, rec, id);
                            if note_index_by_id(cur.notes, id) is Some {
                                let q = note_index_by_id(cur.notes, id)->0;
                                lemma_note_index_by_id_from(cur.notes, id, 0);
                                assert(self@.notes[q] == cur.notes[q]);
                            } else {
                                if id == newid {
                                    assert(note_index_by_id(self@.notes, id) == Some(
                                        cur.notes.len() as int,
                                    ));
                                    assert(self@.notes[cur.notes.len() as int] == rec);
                                }
                            }
                        }
                    }
                },
                ParsedNote::Note(nn) => {
                    proof {
                        assert(update_target_ok(s0, intents, i2 as int, nn@.id));
                        assert(alive_some(cur.notes, nn@.id));
                    }
                    let tmp = Note { id: nn.id, body: nn.body.clone(), completed: nn.completed };
                    match self.update_note(&tmp, now) {
                        Ok(_) => {},
                        Err(_) => {
                            proof {
                                assert(false);
                            }
                            return Err(NotesError::PersistenceFailure(String::new()));
                        },
                    }
                    proof {
                        let nv = intents[i2 as int]->Note_0;
                        assert(nv == nn@);
                        let pidx = alive_note_index(cur.notes, nv.id)->0;
                        lemma_note_index_by_id_from(cur.notes, nv.id, 0);
                        assert(0 <= pidx < cur.notes.len());
                        assert(self@.notes == cur.notes.update(
                            pidx,
                            NoteRowV {
                                body: nv.body,
                                completed: nv.completed,
                                updated_at: Some(now),
                                ..cur.notes[pidx]
                            },
                        ));
                        assert(self@ == apply_one(cur, intents[i2 as int], dk, now));
                        assert(self@.notes.len() == cur.notes.len());
                        assert forall|w: int| 0 <= w < self@.notes.len() implies (
                        #[trigger] self@.notes[w]).id == cur.notes[w].id && self@.notes[w].deleted_at
                            == cur.notes[w].deleted_at by {
                            if w != pidx {
                                assert(self@.notes[w] == cur.notes[w]);
                            }
                        }
                        assert forall|id: u32| #[trigger] alive_some(self@.notes, id)
                            == alive_some(cur.notes, id) by {
                            lemma_note_index_same_ids(self@.notes, cur.notes, id);
                            if note_index_by_id(cur.notes, id) is Some {
                                let q = note_index_by_id(cur.notes, id)->0;
                                lemma_note_index_by_id_from(cur.notes, id, 0);
                                assert(self@.notes[q].deleted_at == cur.notes[q].deleted_at);
                            }
                        }
                    }
                },
            }
            i2 = i2 + 1;
        }
        let ghost s2 = self@;
        proof {
            assert(s2 == apply_intents(s1, intents, 0, dk, now));
        }
        // soft-delete the day's notes the document no longer lists
        let n_pre = pre.len();
        let mut j: usize = 0;
        while j < n_pre
            invariant
                0 <= j <= n_pre,
                n_pre == pre@.len(),
                pre@ == pre_g,
                intents == note.notes.deep_view(),
                wf_store(self@),
                delete_unlisted(s2, pre_g, intents, 0, now) == delete_unlisted(
                    self@,
                    pre_g,
                    intents,
                    j as int,
                    now,
                ),
                self@.days == s2.days,
                self@.next_day_id == s2.next_day_id,
                self@.next_note_id == s2.next_note_id,
            decreases n_pre - j,
        {
            let ghost cur = self@;
            let id = pre[j];
            if !Self::intents_contain_update(&note.notes, id) {
                match self.soft_delte_note_by_id(id, now) {
                    Ok(_) => {},
                    Err(_) => {
                        proof {
                            assert(false);
                        }
                        return Err(NotesError::PersistenceFailure(String::new()));
                    },
                }
                proof {
                    assert(self@ == delete_one(cur, id, now));
                }
            } else {
                proof {
                    assert(self@ == cur);
                }
            }
            j = j + 1;
        }
        let ghost s3 = self@;
        proof {
            assert(s3 == delete_unlisted(s2, pre_g, intents, 0, now));
        }
        // the authoritative snapshot of the day after the edit
        proof {
            assert(day_index_by_date(s3.days, note@.date) is Some && s3.days[day_index_by_date(
                s3.days,
                note@.date,
            )->0].id == dk) by {
                match day_index_by_date(s0.days, note@.date) {
                    Some(p) => {
                        lemma_day_index_by_date_from(s0.days, note@.date, 0);
                        lemma_day_index_same_dates(s3.days, s0.days, note@.date);
                        assert(s3.days[p].id == dk);
                    },
                    None => {
                        lemma_day_index_push(
                            s0.days,
                            DateRowV {
                                id: dk,
                                date: note@.date,
                                task_count: note@.note_count,
                                day_text: note@.day_text,
                            },
                            note@.date,
                        );
                        assert(s3.days == s1.days);
                        assert(s3.days[s0.days.len() as int].id == dk);
                    },
                }
            }
        }
        let (notes_vec, _day_text) = self.collect_day(&note.date);
        let count = notes_vec.len();
        proof {
            assert(notes_vec.deep_view() == day_snapshot(s3, dk));
            assert(notes_vec.deep_view().len() == notes_vec@.len());
        }
        let out = DayNotes {
            notes: notes_vec,
            note_count: count as u32,
            date: note.date,
            day_text: note.day_text,
        };
        Ok(out)
    }
}

// ---------------------------------------------------------------------------
// One-line and whole-buffer entry points
// ---------------------------------------------------------------------------

impl Note {
    /// Parse one edited note line and apply it to the store: an update
    /// intent overwrites its live note, a new-note intent inserts a fresh
    /// one on `now`'s day, and a no-op line does nothing. The updated or
    /// inserted note is returned; a parse error or an unknown id leaves the
    /// store unchanged.
    pub fn from_pretty(store: &mut NoteStore, s: &str, now: Instant) -> (r: Result<
        Option<Note>,
        NotesError,
    >)
        requires
            wf_store(old(store)@),
            valid_date(now.day),
        ensures
            wf_store(final(store)@),
            match crate::notes::parse_note_spec(s@, now) {
                Err(e) => r is Err && r->Err_0@ == e && final(store)@ == old(store)@,
                Ok(opt) => match opt {
                    None => r is Ok && r->Ok_0 is None && final(store)@ == old(store)@,
                    Some(pv) => match pv {
                        ParsedNoteV::Note(nv) => (match alive_note_index(
                            old(store)@.notes,
                            nv.id,
                        ) {
                            Some(i) => {
                                &&& r is Ok
                                &&& r->Ok_0 is Some
                                &&& r->Ok_0->0@ == (NoteV {
                                    id: nv.id,
                                    body: nv.body,
                                    completed: nv.completed,
                                })
                                &&& final(store)@.notes == old(store)@.notes.update(
                                    i,
                                    NoteRowV {
                                        body: nv.body,
                                        completed: nv.completed,
                                        updated_at: Some(now),
                                        ..old(store)@.notes[i]
                                    },
                                )
                                &&& final(store)@.days == old(store)@.days
                                &&& final(store)@.next_day_id == old(store)@.next_day_id
                                &&& final(store)@.next_note_id == old(store)@.next_note_id
                            },
                            None => r is Err && r->Err_0@ == NotesErrorV::NotFound(nv.id) && final(
                                store)@ == old(store)@,
                        }),
                        ParsedNoteV::NewNote(nn) => (match insert_note_spec(old(store)@, nn) {
                            Ok(p) => r is Ok && r->Ok_0 is Some && r->Ok_0->0@ == p.1 && final(
                                store)@ == p.0,
                            Err(e) => r is Err && r->Err_0@ == e && final(store)@ == old(store)@,
                        }),
                    },
                },
            },
    {
        match ParsedNote::parse_pretty_md(s, now) {
            Err(e) => Err(e),
            Ok(None) => Ok(None),
            Ok(Some(ParsedNote::Note(n))) => match store.update_note(&n, now) {
                Ok(out) => Ok(Some(out)),
                Err(e) => Err(e),
            },
            Ok(Some(ParsedNote::NewNote(n))) => match store.insert_note(n) {
                Ok(out) => Ok(Some(out)),
                Err(e) => Err(e),
            },
        }
    }
}

/// Reconcile a whole edited buffer against the store: parse the first day
/// block out of `lines` and persist it atomically, returning the day's
/// fresh snapshot.
pub fn parse_notes_string(lines: &Vec<String>, store: &mut NoteStore, now: Instant) -> (r: Result<
    DayNotes,
    NotesError,
>)
    requires
        wf_store(old(store)@),
        lines@.len() <= u32::MAX,
    ensures
        wf_store(final(store)@),
        match crate::notes::parse_day_spec(lines.deep_view(), 0, now) {
            Err(e) => r is Err && r->Err_0@ == e && final(store)@ == old(store)@,
            Ok(p) => match persist_spec(old(store)@, p.0, now) {
                Ok(q) => r is Ok && r->Ok_0@ == q.1 && final(store)@ == q.0,
                Err(e) => r is Err && r->Err_0@ == e && final(store)@ == old(store)@,
            },
        },
{
    let ghost ld = lines.deep_view();
    let doc = match ParsedDayNotes::parse_pretty_md(lines, 0, now) {
        Err(e) => {
            return Err(e);
        },
        Ok(p) => p.0,
    };
    proof {
        let spec_r = crate::notes::parse_day_spec(ld, 0, now);
        assert(spec_r is Ok && spec_r->Ok_0.0 == doc@);
        match crate::notes::find_header_spec(ld, 0) {
            Some(h) => {
                crate::notes::lemma_find_header_bounds(ld, 0);
                match crate::date::parse_date_spec(h.1) {
                    Some(d) => {
                        assert(valid_date(d));
                        assert(doc@.date == d);
                        crate::notes::lemma_parse_day_body_bounds(ld, h.0 + 1, now);
                    },
                    None => {
                        assert(false);
                    },
                }
            },
            None => {
                assert(false);
            },
        }
        assert(valid_date(doc@.date));
        assert(doc@.notes.len() <= u32::MAX);
    }
    store.persist_parsed_day_note(doc, now)
}

// ---------------------------------------------------------------------------
// Idempotence of reconciliation
// ---------------------------------------------------------------------------

/// A document whose intents are all updates of existing notes.
pub open spec fn all_updates(intents: Seq<ParsedNoteV>) -> bool {
    forall|k: int| 0 <= k < intents.len() ==> (#[trigger] intents[k]) is Note
}

pub open spec fn ids_unique(notes: Seq<NoteRowV>) -> bool {
    forall|i: int, j: int|
        0 <= i < j < notes.len() ==> (#[trigger] notes[i]).id != (#[trigger] notes[j]).id
}

proof fn lemma_all_updates_count0(intents: Seq<ParsedNoteV>, i: int)
    requires
        all_updates(intents),
        0 <= i <= intents.len(),
    ensures
        new_intent_count(intents, i) == 0,
    decreases i,
{
    if i > 0 {
        lemma_all_updates_count0(intents, i - 1);
    }
}

proof fn lemma_first_bad_none_all(s: StoreV, intents: Seq<ParsedNoteV>, i: int)
    requires
        0 <= i <= intents.len(),
        first_bad_update_from(s, intents, i) is None,
    ensures
        forall|k: int|
            i <= k < intents.len() && (#[trigger] intents[k]) is Note ==> update_target_ok(
                s,
                intents,
                k,
                intents[k]->Note_0.id,
            ),
    decreases intents.len() - i,
{
    if i < intents.len() {
        lemma_first_bad_none_all(s, intents, i + 1);
    }
}

proof fn lemma_first_bad_none_intro(s: StoreV, intents: Seq<ParsedNoteV>, i: int)
    requires
        0 <= i <= intents.len(),
        forall|k: int|
            i <= k < intents.len() && (#[trigger] intents[k]) is Note ==> update_target_ok(
                s,
                intents,
                k,
                intents[k]->Note_0.id,
            ),
    ensures
        first_bad_update_from(s, intents, i) is None,
    decreases intents.len() - i,
{
    if i < intents.len() {
        lemma_first_bad_none_intro(s, intents, i + 1);
    }
}

/// With unique ids, the row holding an id is found exactly at its position.
proof fn lemma_note_index_at(notes: Seq<NoteRowV>, w: int)
    requires
        ids_unique(notes),
        0 <= w < notes.len(),
    ensures
        note_index_by_id(notes, notes[w].id) == Some(w),
{
    lemma_note_index_by_id_from(notes, notes[w].id, 0);
    match note_index_by_id(notes, notes[w].id) {
        Some(j) => {
            if j != w {
                assert(notes[j].id == notes[w].id);
            }
        },
        None => {
            assert(notes[w].id != notes[w].id);
        },
    }
}

/// The body and completion the last update intent among `intents[i..]`
/// assigns to `id`, if any does.
pub open spec fn last_update_from(intents: Seq<ParsedNoteV>, i: int, id: u32) -> Option<
    (Seq<char>, bool),
>
    decreases intents.len() - i,
        when 0 <= i <= intents.len()
{
    if i >= intents.len() {
        None
    } else {
        let rest = last_update_from(intents, i + 1, id);
        if rest is Some {
            rest
        } else if intents[i] is Note && intents[i]->Note_0.id == id {
            Some((intents[i]->Note_0.body, intents[i]->Note_0.completed))
        } else {
            None
        }
    }
}

pub open spec fn updated_row(r: NoteRowV, b: Seq<char>, c: bool, now: Instant) -> NoteRowV {
    NoteRowV { body: b, completed: c, updated_at: Some(now), ..r }
}

/// What applying an all-update document does to each row: a live row whose
/// id some update names takes the last such update's body and completion;
/// every other row is untouched.
proof fn lemma_apply_char(s: StoreV, intents: Seq<ParsedNoteV>, i: int, dk: u32, now: Instant)
    requires
        0 <= i <= intents.len(),
        all_updates(intents),
        ids_unique(s.notes),
    ensures
        ({
            let r = apply_intents(s, intents, i, dk, now);
            &&& r.days == s.days
            &&& r.next_day_id == s.next_day_id
            &&& r.next_note_id == s.next_note_id
            &&& r.notes.len() == s.notes.len()
            &&& forall|w: int|
                0 <= w < s.notes.len() ==> #[trigger] r.notes[w] == (if note_alive(s.notes[w])
                    && last_update_from(intents, i, s.notes[w].id) is Some {
                    updated_row(
                        s.notes[w],
                        (last_update_from(intents, i, s.notes[w].id)->0).0,
                        (last_update_from(intents, i, s.notes[w].id)->0).1,
                        now,
                    )
                } else {
                    s.notes[w]
                })
        }),
    decreases intents.len() - i,
{
    if i < intents.len() {
        let nv = intents[i]->Note_0;
        let s1 = apply_one(s, intents[i], dk, now);
        // the step touches at most the live row holding the named id
        match alive_note_index(s.notes, nv.id) {
            Some(q) => {
                lemma_note_index_by_id_from(s.notes, nv.id, 0);
                assert(0 <= q < s.notes.len() && s.notes[q].id == nv.id && note_alive(s.notes[q]));
                assert(s1.notes == s.notes.update(
                    q,
                    updated_row(s.notes[q], nv.body, nv.completed, now),
                ));
                assert(forall|w: int|
                    0 <= w < s.notes.len() && w != q ==> s1.notes[w] == s.notes[w]);
                assert(s1.notes[q] == updated_row(s.notes[q], nv.body, nv.completed, now));
            },
            None => {
                assert(s1 == s);
            },
        }
        assert(s1.notes.len() == s.notes.len() && forall|w: int|
            0 <= w < s.notes.len() ==> (#[trigger] s1.notes[w]).id == s.notes[w].id
                && s1.notes[w].created_at == s.notes[w].created_at && s1.notes[w].deleted_at
                == s.notes[w].deleted_at && s1.notes[w].day_key == s.notes[w].day_key);
        assert(ids_unique(s1.notes));
        lemma_apply_char(s1, intents, i + 1, dk, now);
        let r = apply_intents(s, intents, i, dk, now);
        assert(r == apply_intents(s1, intents, i + 1, dk, now));
        assert forall|w: int| 0 <= w < s.notes.len() implies #[trigger] r.notes[w] == (if
        note_alive(s.notes[w]) && last_update_from(intents, i, s.notes[w].id) is Some {
            updated_row(
                s.notes[w],
                (last_update_from(intents, i, s.notes[w].id)->0).0,
                (last_update_from(intents, i, s.notes[w].id)->0).1,
                now,
            )
        } else {
            s.notes[w]
        }) by {
            let id_w = s.notes[w].id;
            assert(s1.notes[w].id == id_w);
            assert(note_alive(s1.notes[w]) == note_alive(s.notes[w]));
            let later = last_update_from(intents, i + 1, id_w);
            if later is Some {
                // a later update settles the row either way
                assert(last_update_from(intents, i, id_w) == later);
                if note_alive(s.notes[w]) {
                    assert(updated_row(s1.notes[w], (later->0).0, (later->0).1, now) == updated_row(
                        s.notes[w],
                        (later->0).0,
                        (later->0).1,
                        now,
                    ));
                }
            } else if nv.id == id_w {
                assert(last_update_from(intents, i, id_w) == Some((nv.body, nv.completed)));
                match alive_note_index(s.notes, nv.id) {
                    Some(q) => {
                        lemma_note_index_by_id_from(s.notes, nv.id, 0);
                        lemma_note_index_at(s.notes, w);
                        assert(q == w);
                        assert(s1.notes[w] == updated_row(s.notes[w], nv.body, nv.completed, now));
                        assert(note_alive(s.notes[w]));
                        assert(r.notes[w] == s1.notes[w]);
                    },
                    None => {
                        // the only row with this id is dead, so nothing moved
                        assert(s1 == s);
                        if note_alive(s.notes[w]) {
                            lemma_note_index_at(s.notes, w);
                        }
                        assert(!note_alive(s.notes[w]));
                        assert(r.notes[w] == s.notes[w]);
                    },
                }
            } else {
                assert(last_update_from(intents, i, id_w) is None);
                match alive_note_index(s.notes, nv.id) {
                    Some(q) => {
                        lemma_note_index_by_id_from(s.notes, nv.id, 0);
                        assert(s.notes[q].id == nv.id);
                        assert(q != w);
                        assert(s1.notes[w] == s.notes[w]);
                    },
                    None => {
                        assert(s1 == s);
                    },
                }
                assert(r.notes[w] == s.notes[w]);
            }
        }
    }
}

/// What the deletion pass does to each row: ids, bodies, completion, stamps
/// of creation and update, and ownership are untouched; a row named by the
/// list and not by any update is stamped deleted; rows named by updates are
/// untouched entirely.
proof fn lemma_delete_char(
    s: StoreV,
    pre: Seq<u32>,
    intents: Seq<ParsedNoteV>,
    j: int,
    now: Instant,
)
    requires
        0 <= j <= pre.len(),
        ids_unique(s.notes),
    ensures
        ({
            let r = delete_unlisted(s, pre, intents, j, now);
            &&& r.days == s.days
            &&& r.next_day_id == s.next_day_id
            &&& r.next_note_id == s.next_note_id
            &&& r.notes.len() == s.notes.len()
            &&& forall|w: int|
                0 <= w < s.notes.len() ==> (#[trigger] r.notes[w]).id == s.notes[w].id
                    && r.notes[w].body == s.notes[w].body && r.notes[w].completed
                    == s.notes[w].completed && r.notes[w].created_at == s.notes[w].created_at
                    && r.notes[w].updated_at == s.notes[w].updated_at && r.notes[w].day_key
                    == s.notes[w].day_key
            &&& forall|w: int|
                0 <= w < s.notes.len() ==> (#[trigger] r.notes[w]).deleted_at
                    == s.notes[w].deleted_at || r.notes[w].deleted_at == Some(now)
            &&& forall|w: int|
                0 <= w < s.notes.len() && is_update_id(intents, (#[trigger] s.notes[w]).id)
                    ==> r.notes[w] == s.notes[w]
            &&& forall|w: int, t: int|
                0 <= w < s.notes.len() && j <= t < pre.len() && (#[trigger] s.notes[w]).id == (
                #[trigger] pre[t]) && !is_update_id(intents, pre[t]) ==> r.notes[w].deleted_at
                    == Some(now)
        }),
    decreases pre.len() - j,
{
    if j < pre.len() {
        let s1 = if is_update_id(intents, pre[j]) {
            s
        } else {
            delete_one(s, pre[j], now)
        };
        if !is_update_id(intents, pre[j]) {
            match note_index_by_id(s.notes, pre[j]) {
                Some(q) => {
                    lemma_note_index_by_id_from(s.notes, pre[j], 0);
                    assert(0 <= q < s.notes.len() && s.notes[q].id == pre[j]);
                    assert(s1.notes == s.notes.update(
                        q,
                        NoteRowV { deleted_at: Some(now), ..s.notes[q] },
                    ));
                    assert(forall|w: int|
                        0 <= w < s.notes.len() && w != q ==> s1.notes[w] == s.notes[w]);
                },
                None => {
                    assert(s1 == s);
                },
            }
        }
        assert(s1.notes.len() == s.notes.len() && forall|w: int|
            0 <= w < s.notes.len() ==> (#[trigger] s1.notes[w]).id == s.notes[w].id
                && s1.notes[w].body == s.notes[w].body && s1.notes[w].completed
                == s.notes[w].completed && s1.notes[w].created_at == s.notes[w].created_at
                && s1.notes[w].updated_at == s.notes[w].updated_at && s1.notes[w].day_key
                == s.notes[w].day_key);
        assert(forall|w: int|
            0 <= w < s.notes.len() ==> (#[trigger] s1.notes[w]).deleted_at
                == s.notes[w].deleted_at || s1.notes[w].deleted_at == Some(now));
        assert(ids_unique(s1.notes));
        lemma_delete_char(s1, pre, intents, j + 1, now);
        let r = delete_unlisted(s, pre, intents, j, now);
        assert(r == delete_unlisted(s1, pre, intents, j + 1, now));
        assert forall|w: int, t: int|
            0 <= w < s.notes.len() && j <= t < pre.len() && (#[trigger] s.notes[w]).id == (
            #[trigger] pre[t]) && !is_update_id(intents, pre[t]) implies r.notes[w].deleted_at
            == Some(now) by {
            if t == j {
                match note_index_by_id(s.notes, pre[j]) {
                    Some(q) => {
                        lemma_note_index_by_id_from(s.notes, pre[j], 0);
                        lemma_note_index_at(s.notes, w);
                        assert(q == w);
                        assert(s1.notes[w].deleted_at == Some(now));
                        assert(r.notes[w].deleted_at == s1.notes[w].deleted_at
                            || r.notes[w].deleted_at == Some(now));
                    },
                    None => {
                        lemma_note_index_at(s.notes, w);
                    },
                }
            } else {
                assert(s1.notes[w].id == pre[t]);
            }
        }
        assert forall|w: int|
            0 <= w < s.notes.len() && is_update_id(intents, (#[trigger] s.notes[w]).id) implies
            r.notes[w] == s.notes[w] by {
            assert(s1.notes[w].id == s.notes[w].id);
            if !is_update_id(intents, pre[j]) {
                match note_index_by_id(s.notes, pre[j]) {
                    Some(q) => {
                        lemma_note_index_by_id_from(s.notes, pre[j], 0);
                        if q == w {
                            assert(s.notes[w].id == pre[j]);
                            assert(false);
                        }
                        assert(s1.notes[w] == s.notes[w]);
                    },
                    None => {},
                }
            }
        }
    }
}

proof fn lemma_delete_skip_all(
    s: StoreV,
    pre: Seq<u32>,
    intents: Seq<ParsedNoteV>,
    j: int,
    now: Instant,
)
    requires
        0 <= j <= pre.len(),
        forall|t: int| j <= t < pre.len() ==> is_update_id(intents, #[trigger] pre[t]),
    ensures
        delete_unlisted(s, pre, intents, j, now) == s,
    decreases pre.len() - j,
{
    if j < pre.len() {
        lemma_delete_skip_all(s, pre, intents, j + 1, now);
    }
}

/// Rows that agree on everything the read model and the day filter see —
/// all fields but the update stamp — produce the same reduced day rows.
proof fn lemma_day_reduced_congruent(a: Seq<NoteRowV>, b: Seq<NoteRowV>, dk: u32)
    requires
        a.len() == b.len(),
        forall|w: int|
            0 <= w < a.len() ==> (#[trigger] a[w]).id == b[w].id && a[w].body == b[w].body
                && a[w].completed == b[w].completed && a[w].created_at == b[w].created_at
                && a[w].deleted_at == b[w].deleted_at && a[w].day_key == b[w].day_key,
    ensures
        reduce_all(filter_day(a, dk)) == reduce_all(filter_day(b, dk)),
    decreases a.len(),
{
    reveal(Seq::filter);
    if a.len() > 0 {
        let a0 = a.drop_last();
        let b0 = b.drop_last();
        assert(forall|w: int| 0 <= w < a0.len() ==> (#[trigger] a0[w]) == a[w] && b0[w] == b[w]);
        lemma_day_reduced_congruent(a0, b0, dk);
        assert(owned_alive(a.last(), dk) == owned_alive(b.last(), dk));
        if owned_alive(a.last(), dk) {
            assert(filter_day(a, dk) == filter_day(a0, dk).push(a.last()));
            assert(filter_day(b, dk) == filter_day(b0, dk).push(b.last()));
            lemma_reduce_all_push(filter_day(a0, dk), a.last());
            lemma_reduce_all_push(filter_day(b0, dk), b.last());
            assert(reduce_row(a.last()) == reduce_row(b.last()));
        } else {
            assert(filter_day(a, dk) == filter_day(a0, dk));
            assert(filter_day(b, dk) == filter_day(b0, dk));
        }
    } else {
        assert(a =~= b);
    }
}

/// Idempotence: persisting the same all-update day document twice in a row
/// succeeds both times, returns the same snapshot both times, and never
/// changes any note's identity or creation stamp. (A document holding a
/// new-note request is not idempotent: its second run would mint a fresh
/// id, so such documents are excluded here.)
pub proof fn lemma_persist_idempotent(
    s0: StoreV,
    doc: ParsedDayNotesV,
    now1: Instant,
    now2: Instant,
)
    requires
        wf_store(s0),
        all_updates(doc.notes),
        persist_spec(s0, doc, now1) is Ok,
    ensures
        ({
            let p = persist_spec(s0, doc, now1)->Ok_0;
            &&& persist_spec(p.0, doc, now2) is Ok
            &&& persist_spec(p.0, doc, now2)->Ok_0.1 == p.1
            &&& p.0.notes.len() == s0.notes.len()
            &&& forall|w: int|
                0 <= w < s0.notes.len() ==> (#[trigger] p.0.notes[w]).created_at
                    == s0.notes[w].created_at && p.0.notes[w].id == s0.notes[w].id
        }),
{
    let intents = doc.notes;
    lemma_all_updates_count0(intents, intents.len() as int);
    assert(persist_capacity_ok(s0, doc));
    assert(first_bad_update(s0, intents) is None);
    lemma_first_bad_none_all(s0, intents, 0);
    let up1 = upsert_day(s0, doc.date, doc.note_count, doc.day_text);
    let s1 = up1.0;
    let dk = up1.1;
    let pre = alive_ids_of_day(s1, dk);
    let s2 = apply_intents(s1, intents, 0, dk, now1);
    let s3 = delete_unlisted(s2, pre, intents, 0, now1);
    let p = persist_spec(s0, doc, now1)->Ok_0;
    assert(p.0 == s3);
    assert(s1.notes == s0.notes && s1.next_note_id == s0.next_note_id);
    assert(ids_unique(s0.notes));
    lemma_apply_char(s1, intents, 0, dk, now1);
    assert(ids_unique(s2.notes)) by {
        assert(forall|w: int|
            0 <= w < s2.notes.len() ==> (#[trigger] s2.notes[w]).id == s1.notes[w].id);
    }
    lemma_delete_char(s2, pre, intents, 0, now1);
    // rows keep their identity and creation stamp through both passes
    assert(s3.notes.len() == s0.notes.len());
    assert(forall|w: int|
        0 <= w < s0.notes.len() ==> (#[trigger] s3.notes[w]).id == s0.notes[w].id
            && s3.notes[w].created_at == s0.notes[w].created_at);
    assert(ids_unique(s3.notes));
    // the day row carries the document's values and its date after the first run
    let pidx: int = match day_index_by_date(s0.days, doc.date) {
        Some(q) => q,
        None => s0.days.len() as int,
    };
    assert(day_index_by_date(s1.days, doc.date) == Some(pidx) && s1.days[pidx].id == dk
        && s1.days[pidx].task_count == doc.note_count && s1.days[pidx].day_text == doc.day_text
        && s1.days[pidx].date == doc.date) by {
        match day_index_by_date(s0.days, doc.date) {
            Some(q) => {
                lemma_day_index_by_date_from(s0.days, doc.date, 0);
                lemma_day_index_same_dates(s1.days, s0.days, doc.date);
            },
            None => {
                lemma_day_index_push(
                    s0.days,
                    DateRowV {
                        id: s0.next_day_id,
                        date: doc.date,
                        task_count: doc.note_count,
                        day_text: doc.day_text,
                    },
                    doc.date,
                );
            },
        }
    }
    assert(s3.days == s1.days);
    // every update target is still alive after the first run
    assert forall|k: int|
        0 <= k < intents.len() && (#[trigger] intents[k]) is Note implies alive_some(
        s3.notes,
        intents[k]->Note_0.id,
    ) by {
        let id = intents[k]->Note_0.id;
        assert(update_target_ok(s0, intents, k, id));
        lemma_new_count_mono(intents, k as int, intents.len() as int);
        assert(alive_some(s0.notes, id));
        let w = alive_note_index(s0.notes, id)->0;
        lemma_note_index_by_id_from(s0.notes, id, 0);
        assert(s2.notes[w].deleted_at == s0.notes[w].deleted_at);
        assert(is_update_id(intents, s2.notes[w].id));
        assert(s3.notes[w] == s2.notes[w]);
        lemma_note_index_same_ids(s3.notes, s0.notes, id);
        assert(note_index_by_id(s3.notes, id) == Some(w));
        assert(note_alive(s3.notes[w]));
    }
    // the second run accepts the same document
    assert(persist_capacity_ok(s3, doc));
    assert forall|k: int|
        0 <= k < intents.len() && (#[trigger] intents[k]) is Note implies update_target_ok(
        s3,
        intents,
        k,
        intents[k]->Note_0.id,
    ) by {}
    lemma_first_bad_none_intro(s3, intents, 0);
    assert(first_bad_update(s3, intents) is None);
    // its upsert rewrites the day row with the values it already holds
    let up2 = upsert_day(s3, doc.date, doc.note_count, doc.day_text);
    assert(day_index_by_date(s3.days, doc.date) == Some(pidx));
    assert(up2.1 == dk);
    let s4 = up2.0;
    assert(s4.days == s3.days) by {
        lemma_day_index_by_date_from(s1.days, doc.date, 0);
        assert(0 <= pidx < s3.days.len());
        assert(DateRowV {
            task_count: doc.note_count,
            day_text: doc.day_text,
            ..s3.days[pidx]
        } == s3.days[pidx]);
        assert(s3.days.update(pidx, s3.days[pidx]) =~= s3.days);
    }
    assert(s4 == s3);
    // every note of the day still alive carries an updated id, so the
    // second deletion pass deletes nothing
    let pre2 = alive_ids_of_day(s3, dk);
    assert forall|t: int| 0 <= t < pre2.len() implies is_update_id(
        intents,
        #[trigger] pre2[t],
    ) by {
        let rows = day_rows(s3, dk);
        assert(pre2[t] == rows[t].id);
        lemma_filter_day_elem(s3.notes, dk, t);
        let w = choose|w: int|
            0 <= w < s3.notes.len() && s3.notes[w] == rows[t] && owned_alive(s3.notes[w], dk);
        if !is_update_id(intents, s3.notes[w].id) {
            // then the row was alive on the day before the edit, listed for
            // deletion, and the first pass stamped it — contradiction
            assert(s3.notes[w].deleted_at is None);
            assert(s2.notes[w].deleted_at is None);
            assert(s1.notes[w].deleted_at is None && s1.notes[w].day_key == dk);
            assert(owned_alive(s1.notes[w], dk));
            broadcast use vstd::seq_lib::group_filter_ensures;

            assert(filter_day(s1.notes, dk).contains(s1.notes[w]));
            let t2 = choose|t2: int|
                0 <= t2 < filter_day(s1.notes, dk).len() && filter_day(s1.notes, dk)[t2]
                    == s1.notes[w];
            assert(pre[t2] == s1.notes[w].id);
            assert(s2.notes[w].id == pre[t2]);
            assert(s3.notes[w].deleted_at == Some(now1));
            assert(false);
        }
    }
    // the second application only refreshes update stamps
    let t2s = apply_intents(s3, intents, 0, dk, now2);
    lemma_apply_char(s3, intents, 0, dk, now2);
    let s5 = delete_unlisted(t2s, pre2, intents, 0, now2);
    lemma_delete_skip_all(t2s, pre2, intents, 0, now2);
    assert(s5 == t2s);
    assert forall|w: int| 0 <= w < s3.notes.len() implies (#[trigger] t2s.notes[w]).id
        == s3.notes[w].id && t2s.notes[w].body == s3.notes[w].body && t2s.notes[w].completed
        == s3.notes[w].completed && t2s.notes[w].created_at == s3.notes[w].created_at
        && t2s.notes[w].deleted_at == s3.notes[w].deleted_at && t2s.notes[w].day_key
        == s3.notes[w].day_key by {
        let id_w = s3.notes[w].id;
        if note_alive(s3.notes[w]) && last_update_from(intents, 0, id_w) is Some {
            let vals = last_update_from(intents, 0, id_w)->0;
            assert(t2s.notes[w] == updated_row(s3.notes[w], vals.0, vals.1, now2));
            // the first run already wrote those very values
            assert(s1.notes[w].id == id_w);
            assert(note_alive(s1.notes[w]));
            assert(s2.notes[w] == updated_row(s1.notes[w], vals.0, vals.1, now1));
            assert(s3.notes[w].body == vals.0 && s3.notes[w].completed == vals.1);
        } else {
            assert(t2s.notes[w] == s3.notes[w]);
        }
    }
    lemma_day_reduced_congruent(t2s.notes, s3.notes, dk);
    assert(day_reduced(s5, dk) == day_reduced(s3, dk));
    assert(day_snapshot(s5, dk) == day_snapshot(s3, dk));
    let q = persist_spec(s3, doc, now2)->Ok_0;
    assert(q.0 == s5);
    assert(q.1 == p.1);
}

/// Each filtered row is a row of the store, alive and owned by the day.
proof fn lemma_filter_day_elem(s: Seq<NoteRowV>, dk: u32, t: int)
    requires
        0 <= t < filter_day(s, dk).len(),
    ensures
        exists|w: int|
            0 <= w < s.len() && s[w] == filter_day(s, dk)[t] && owned_alive(#[trigger] s[w], dk),
    decreases s.len(),
{
    reveal(Seq::filter);
    if s.len() > 0 {
        let s0 = s.drop_last();
        if owned_alive(s.last(), dk) {
            assert(filter_day(s, dk) == filter_day(s0, dk).push(s.last()));
            if t < filter_day(s0, dk).len() {
                lemma_filter_day_elem(s0, dk, t);
                let w = choose|w: int|
                    0 <= w < s0.len() && s0[w] == filter_day(s0, dk)[t] && owned_alive(
                        #[trigger] s0[w],
                        dk,
                    );
                assert(s[w] == s0[w]);
                assert(filter_day(s, dk)[t] == filter_day(s0, dk)[t]);
            } else {
                assert(filter_day(s, dk)[t] == s.last());
                assert(s[s.len() - 1] == s.last());
            }
        } else {
            assert(filter_day(s, dk) == filter_day(s0, dk));
            lemma_filter_day_elem(s0, dk, t);
            let w = choose|w: int|
                0 <= w < s0.len() && s0[w] == filter_day(s0, dk)[t] && owned_alive(
                    #[trigger] s0[w],
                    dk,
                );
            assert(s[w] == s0[w]);
        }
    }
}

} // verus!
