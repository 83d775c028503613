use vstd::prelude::*;
use crate::date::{Date, DateParseError, date_fields, valid_ymd};
use crate::hours::{Hours, HoursParseError, duration_value};
use crate::parse::views_of;
use crate::text::{
    chars_of, find_first, lemma_split_first, lemma_trim_len, partition, slice_of, split_first,
    string_of, trim, trimmed,
};

verus! {

/// One line of an hour log: a date, a duration, tags and a description.
#[derive(Clone, Debug, PartialEq, Eq, PartialOrd, Ord, Hash)]
pub struct Entry {
    pub date: Date,
    pub hours: Hours,
    pub tags: Vec<String>,
    pub description: String,
}

/// The reasons that a line is not an hour log entry.
#[derive(Clone, Debug, PartialEq, Eq)]
pub enum EntryParseError {
    InvalidUtf8,
    InvalidEntrySyntax(InvalidEntrySyntax),
    DateParseError(DateParseError),
    HoursParseError(HoursParseError),
    UnclosedTag(UnclosedTag),
}

/// The line does not have the shape `date, hours, description`.
#[derive(Clone, Debug, PartialEq, Eq)]
pub struct InvalidEntrySyntax {
    pub data: String,
}

/// A `[` in front of the description that no `]` closes.
#[derive(Clone, Debug, PartialEq, Eq)]
pub struct UnclosedTag {
    pub data: String,
}

/// The three fields of `date, hours, description`, trimmed: split at the first two commas.
pub open spec fn entry_fields(s: Seq<char>) -> Option<(Seq<char>, Seq<char>, Seq<char>)> {
    match split_first(s, ',') {
        Some((d, rest)) => match split_first(rest, ',') {
            Some((h, desc)) => Some((trim(d), trim(h), trim(desc))),
            None => None,
        },
        None => None,
    }
}

/// The tags `[tag]` in front of a description, and the description after them; the text from
/// a `[` that no `]` closes where there is one.
pub open spec fn entry_tags(d: Seq<char>) -> Result<(Seq<Seq<char>>, Seq<char>), Seq<char>>
    decreases d.len(),
{
    if d.len() > 0 && d[0] == '[' {
        match split_first(d, ']') {
            None => Err(d),
            Some((a, b)) => {
                let rest = trim(b);
                if rest.len() < d.len() {
                    match entry_tags(rest) {
                        Ok((ts, r)) => Ok((seq![a.drop_first()] + ts, r)),
                        Err(e) => Err(e),
                    }
                } else {
                    Ok((Seq::empty(), d))
                }
            },
        }
    } else {
        Ok((Seq::empty(), d))
    }
}

/// What an hour log entry holds: its date as year, month and day, its minutes, its tags and
/// its description.
pub type EntryModel = ((int, int, int), int, Seq<Seq<char>>, Seq<char>);

impl View for Entry {
    type V = EntryModel;

    open spec fn view(&self) -> EntryModel {
        (self.date@, self.hours@, views_of(self.tags@), self.description@)
    }
}

/// The entry that the line `s` writes, if it is one.
pub open spec fn entry_value(s: Seq<char>) -> Option<EntryModel> {
    match entry_fields(s) {
        None => None,
        Some((d, h, desc)) => match date_fields(d) {
            Some(t) if valid_ymd(t.0, t.1, t.2) => match duration_value(h) {
                Some(v) => match entry_tags(desc) {
                    Ok((ts, rest)) => Some((t, v, ts, rest)),
                    Err(_) => None,
                },
                None => None,
            },
            _ => None,
        },
    }
}

/// `r` is what reading the line `s` gives: the entry, or the first of its faults.
pub open spec fn entry_outcome(s: Seq<char>, r: Result<Entry, EntryParseError>) -> bool {
    match entry_fields(s) {
        None => match r {
            Err(EntryParseError::InvalidEntrySyntax(e)) => e.data@ == s,
            _ => false,
        },
        Some((d, h, desc)) => match date_fields(d) {
            Some(t) if valid_ymd(t.0, t.1, t.2) => match duration_value(h) {
                Some(v) => match entry_tags(desc) {
                    Ok((ts, rest)) => match r {
                        Ok(e) => e@ == (t, v, ts, rest),
                        _ => false,
                    },
                    Err(x) => match r {
                        Err(EntryParseError::UnclosedTag(u)) => u.data@ == x,
                        _ => false,
                    },
                },
                None => match r {
                    Err(EntryParseError::HoursParseError(e)) => e.data@ == h,
                    _ => false,
                },
            },
            _ => r matches Err(EntryParseError::DateParseError(_)),
        },
    }
}

/// Reads the tags in front of a description.
fn parse_tags(description: Vec<char>) -> (r: Result<(Vec<String>, Vec<char>), Vec<char>>)
    ensures
        match entry_tags(description@) {
            Ok((ts, rest)) => match r {
                Ok((tags, d)) => views_of(tags@) == ts && d@ == rest,
                _ => false,
            },
            Err(e) => match r {
                Err(d) => d@ == e,
                _ => false,
            },
        },
{
    let ghost d0 = description@;
    let mut d = description;
    let mut tags: Vec<String> = Vec::new();
    assert(views_of(tags@) =~= Seq::<Seq<char>>::empty());
    assert(entry_tags(d0) matches Ok((ts, r)) ==> Seq::<Seq<char>>::empty() + ts =~= ts);
    while d.len() > 0 && d[0] == '['
        invariant
            d0 == description@,
            entry_tags(d0) == match entry_tags(d@) {
                Ok((ts, r)) => Ok((views_of(tags@) + ts, r)),
                Err(e) => Err(e),
            },
        decreases d@.len(),
    {
        match find_first(&d, ']') {
            None => {
                assert(!exists|k: int| crate::text::is_first(d@, ']', k));
                assert(entry_tags(d@) == Err::<(Seq<Seq<char>>, Seq<char>), Seq<char>>(d@));
                return Err(d);
            },
            Some(i) => {
                proof {
                    lemma_split_first(d@, ']', i as int);
                }
                assert(i >= 1);
                let inner = slice_of(&d, 1, i);
                assert(inner@ =~= d@.take(i as int).drop_first());
                let rest = trimmed(&slice_of(&d, i + 1, d.len()));
                assert(d@.subrange(i + 1, d@.len() as int) =~= d@.skip(i + 1));
                proof {
                    lemma_trim_len(d@.skip(i + 1));
                }
                let tag = string_of(&inner);
                let ghost before = tags@;
                tags.push(tag);
                assert(views_of(tags@) =~= views_of(before).push(tag@));
                proof {
                    match entry_tags(rest@) {
                        Ok((ts, r)) => {
                            assert(views_of(before) + (seq![inner@] + ts) =~= views_of(tags@) + ts);
                        },
                        Err(e) => {},
                    }
                }
                d = rest;
            },
        }
    }
    assert(entry_tags(d@) == Ok::<(Seq<Seq<char>>, Seq<char>), Seq<char>>((Seq::empty(), d@)));
    assert(views_of(tags@) + Seq::<Seq<char>>::empty() =~= views_of(tags@));
    Ok((tags, d))
}

impl Entry {
    /// Reads a line `date, hours, [tag] [tag] description`.
    pub fn from_str(data: &str) -> (r: Result<Entry, EntryParseError>)
        ensures
            entry_outcome(data@, r),
            match entry_value(data@) {
                Some(v) => match r {
                    Ok(e) => e@ == v,
                    _ => false,
                },
                None => match r {
                    Err(EntryParseError::InvalidUtf8) => false,
                    Err(_) => true,
                    _ => false,
                },
            },
    {
        let s = chars_of(data);
        let (date, rest) = match partition(&s, ',') {
            Some(p) => p,
            None => return Err(
                EntryParseError::InvalidEntrySyntax(InvalidEntrySyntax { data: data.to_owned() }),
            ),
        };
        let (hours, description) = match partition(&rest, ',') {
            Some(p) => p,
            None => return Err(
                EntryParseError::InvalidEntrySyntax(InvalidEntrySyntax { data: data.to_owned() }),
            ),
        };
        let date = string_of(&trimmed(&date));
        let hours = string_of(&trimmed(&hours));
        let description = trimmed(&description);
        let date = match Date::from_str(date.as_str()) {
            Ok(d) => d,
            Err(e) => return Err(EntryParseError::DateParseError(e)),
        };
        let hours = match Hours::from_str(hours.as_str()) {
            Ok(h) => h,
            Err(e) => return Err(EntryParseError::HoursParseError(e)),
        };
        match parse_tags(description) {
            Ok((tags, d)) => Ok(Entry { date, hours, tags, description: string_of(&d) }),
            Err(d) => Err(EntryParseError::UnclosedTag(UnclosedTag { data: string_of(&d) })),
        }
    }
}

} // verus!
