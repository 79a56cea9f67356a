//! A daily-notes manager: checklist notes grouped by calendar day, kept in a
//! store with stable ids and soft deletion, and exposed to the user as an
//! editable text document. The codecs serialize a day to that document and
//! parse an edited one back into intents; the reconciliation engine applies
//! the intents to the store atomically; the range reconstructor reads back a
//! gap-free sequence of days.
use vstd::prelude::*;

pub mod chars;
pub mod date;
pub mod notes;
pub mod store;

verus! {

/// A reporting period, counted in days around a focus day.
pub enum Period {
    Week,
    Month,
}

impl Period {
    /// How many days a period spans on either side of the focus day.
    pub fn to_day_count(&self) -> (n: usize)
        ensures
            n == (match *self {
                Period::Week => 7usize,
                Period::Month => 30usize,
            }),
    {
        match *self {
            Period::Week => 7,
            Period::Month => 30,
        }
    }
}

} // verus!
