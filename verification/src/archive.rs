//! What an archive stores of a directory: the name of each entry and the
//! time at which it was last changed.
//!
//! An entry is named by its path from the archived directory on, that
//! directory's own name included. An archive stores the calendar date and
//! the time of day of each entry, and only years from 1980 to 2107.

use vstd::prelude::*;
use crate::files::{entry_name, entry_prefix, file_line_name};
use crate::text::{first_index, lemma_first_index_is, lemma_split_segments, split, DELIMITER};

verus! {

/// A calendar date and a time of day.
#[derive(Clone, Copy, Debug, PartialEq, Eq, Structural)]
pub struct Calendar {
    pub year: i32,
    pub month: u8,
    pub day: u8,
    pub hour: u8,
    pub minute: u8,
    pub second: u8,
}

/// The time of an archive entry.
#[derive(Clone, Copy, Debug, PartialEq, Eq, Structural)]
pub struct EntryTime {
    pub year: u16,
    pub month: u8,
    pub day: u8,
    pub hour: u8,
    pub minute: u8,
    pub second: u8,
}

/// The first year that an archive can store.
pub const FIRST_YEAR: i32 = 1980;

/// The last year that an archive can store.
pub const LAST_YEAR: i32 = 2107;

/// The calendar date and time of day that lie `seconds` seconds after the
/// start of 1970, or nothing where the calendar does not reach that far.
pub uninterp spec fn calendar_of(seconds: i64) -> Option<Calendar>;

/// The date and time that `time::OffsetDateTime::from_unix_timestamp`
/// gives for a count of seconds, read field by field; nothing where it
/// gives an error.
#[verifier::external_body]
fn unix_calendar(seconds: i64) -> (r: Option<Calendar>)
    ensures
        r == calendar_of(seconds),
{
    match time::OffsetDateTime::from_unix_timestamp(seconds) {
        Ok(t) => Some(
            Calendar {
                year: t.year(),
                month: u8::from(t.month()),
                day: t.day(),
                hour: t.hour(),
                minute: t.minute(),
                second: t.second(),
            },
        ),
        Err(_) => None,
    }
}

/// The entry time of a date: the date itself where its year can be
/// stored, and nothing otherwise.
pub open spec fn entry_time_of(c: Calendar) -> Option<EntryTime> {
    if FIRST_YEAR <= c.year <= LAST_YEAR {
        Some(
            EntryTime {
                year: c.year as u16,
                month: c.month,
                day: c.day,
                hour: c.hour,
                minute: c.minute,
                second: c.second,
            },
        )
    } else {
        None
    }
}

/// The entry time of a count of seconds since the start of 1970.
pub open spec fn archive_time_of(seconds: i64) -> Option<EntryTime> {
    match calendar_of(seconds) {
        Some(c) => entry_time_of(c),
        None => None,
    }
}

/// The entry time of a date.
pub fn entry_time(c: Calendar) -> (r: Option<EntryTime>)
    ensures
        r == entry_time_of(c),
{
    if FIRST_YEAR <= c.year && c.year <= LAST_YEAR {
        Some(
            EntryTime {
                year: c.year as u16,
                month: c.month,
                day: c.day,
                hour: c.hour,
                minute: c.minute,
                second: c.second,
            },
        )
    } else {
        None
    }
}

/// The time to store with an entry that was last changed `seconds` seconds
/// after the start of 1970; nothing where an archive cannot store it.
pub fn archive_time(seconds: i64) -> (r: Option<EntryTime>)
    ensures
        r == archive_time_of(seconds),
{
    match unix_calendar(seconds) {
        Some(c) => entry_time(c),
        None => None,
    }
}

/// The name of an entry in the archive of a directory: its path without
/// the directory that the archived directory lies in.
pub open spec fn archive_name_of(path: Seq<char>, parent: Seq<char>) -> Seq<char> {
    entry_name(path, parent)
}

/// The name in the archive starts with the name of the archived
/// directory: for the directory `root` in `parent`, and for whatever lies
/// below it, the first segment of the name is `root`.
pub proof fn lemma_archive_top_level(parent: Seq<char>, root: Seq<char>, below: Seq<char>)
    requires
        !root.contains(DELIMITER),
        below.len() > 0 ==> below[0] == DELIMITER,
    ensures
        split(archive_name_of(entry_prefix(parent) + root + below, parent), DELIMITER)[0] == root,
{
    let path = entry_prefix(parent) + root + below;
    let name = archive_name_of(path, parent);
    assert(path.take(entry_prefix(parent).len() as int) == entry_prefix(parent));
    assert(name == root + below);
    assert forall|k: int| 0 <= k < root.len() implies name[k] != DELIMITER by {
        if root[k] == DELIMITER {
            assert(root.contains(DELIMITER));
        }
    }
    lemma_first_index_is(name, DELIMITER, root.len() as int);
    lemma_split_segments(name, DELIMITER);
    assert(name.take(root.len() as int) == root);
}

/// The name of the entry at `path` in the archive of a directory that lies
/// in `parent`.
pub fn archive_entry_name(path: &str, parent: &str) -> (name: String)
    ensures
        name@ == archive_name_of(path@, parent@),
{
    file_line_name(path, parent)
}

} // verus!
