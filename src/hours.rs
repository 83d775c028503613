use vstd::prelude::*;
use crate::text::{
    chars_of, digits_of, int_in_range, padded, parse_int, partition, push_char, push_digits,
    push_padded, split_first,
};

verus! {

/// A duration in whole minutes.
#[derive(Clone, Copy, Debug, PartialEq, Eq, Structural, PartialOrd, Ord, Hash)]
pub struct Hours {
    minutes: u32,
}

/// A text that is not a duration.
#[derive(Clone, Debug, PartialEq, Eq)]
pub struct HoursParseError {
    pub data: String,
}

impl View for Hours {
    type V = int;

    closed spec fn view(&self) -> int {
        self.minutes as int
    }
}

/// The hours before an optional `h`, and what follows; no `h` counts as zero hours.
pub open spec fn hours_part(s: Seq<char>) -> Option<(int, Seq<char>)> {
    match split_first(s, 'h') {
        Some((a, b)) => match int_in_range(a, false, 0, u32::MAX as int) {
            Some(v) => Some((v, b)),
            None => None,
        },
        None => Some((0, s)),
    }
}

/// The minutes before an optional `m`, and what follows; no `m` counts as zero minutes.
pub open spec fn minutes_part(s: Seq<char>) -> Option<(int, Seq<char>)> {
    match split_first(s, 'm') {
        Some((a, b)) => match int_in_range(a, false, 0, u32::MAX as int) {
            Some(v) => Some((v, b)),
            None => None,
        },
        None => Some((0, s)),
    }
}

/// The minutes that a text such as `3h30m`, `3h` or `45m` writes: hours before minutes, each
/// optional, nothing after them, and the total within `u32`.
pub open spec fn duration_value(s: Seq<char>) -> Option<int> {
    if s.len() == 0 {
        None
    } else {
        match hours_part(s) {
            None => None,
            Some((h, r)) => match minutes_part(r) {
                None => None,
                Some((m, rest)) => if rest.len() == 0 && h * 60 + m <= u32::MAX {
                    Some(h * 60 + m)
                } else {
                    None
                },
            },
        }
    }
}

/// The text of a duration: `{h}h{mm}m`, or `{mm}m` under an hour.
pub open spec fn duration_text(v: nat) -> Seq<char> {
    if v / 60 != 0 {
        digits_of(v / 60) + seq!['h'] + padded(v % 60, 2) + seq!['m']
    } else {
        padded(v % 60, 2) + seq!['m']
    }
}

impl Hours {
    pub fn from_minutes(minutes: u32) -> (r: Hours)
        ensures
            r@ == minutes,
    {
        Hours { minutes }
    }

    pub fn from_hours_minutes(hours: u32, minutes: u32) -> (r: Hours)
        requires
            hours * 60 + minutes <= u32::MAX,
        ensures
            r@ == hours * 60 + minutes,
    {
        Hours::from_minutes(hours * 60 + minutes)
    }

    pub fn total_minutes(self) -> (r: u32)
        ensures
            r == self@,
    {
        self.minutes
    }

    /// The whole hours.
    pub fn hours(self) -> (r: u32)
        ensures
            r == self@ / 60,
    {
        self.minutes / 60
    }

    /// The minutes past the whole hours.
    pub fn minutes(self) -> (r: u32)
        ensures
            r == self@ % 60,
    {
        self.minutes % 60
    }

    /// The sum of two durations.
    pub fn add(self, other: Hours) -> (r: Hours)
        requires
            self@ + other@ <= u32::MAX,
        ensures
            r@ == self@ + other@,
    {
        Hours::from_minutes(self.minutes + other.minutes)
    }

    /// Adds `other` to this duration.
    pub fn add_assign(&mut self, other: Hours)
        requires
            old(self)@ + other@ <= u32::MAX,
        ensures
            final(self)@ == old(self)@ + other@,
    {
        self.minutes = self.minutes + other.minutes;
    }

    /// Reads a duration such as `3h30m`, `3h` or `45m`.
    pub fn from_str(data: &str) -> (r: Result<Hours, HoursParseError>)
        ensures
            match duration_value(data@) {
                Some(v) => match r {
                    Ok(h) => h@ == v,
                    _ => false,
                },
                None => match r {
                    Err(e) => e.data@ == data@,
                    _ => false,
                },
            },
    {
        let s = chars_of(data);
        if s.len() == 0 {
            return Err(HoursParseError { data: data.to_owned() });
        }
        let (hours, rest) = match partition(&s, 'h') {
            Some((a, b)) => match parse_int(&a, false, 0, 0xffff_ffff) {
                Some(v) => (v, b),
                None => return Err(HoursParseError { data: data.to_owned() }),
            },
            None => (0, s),
        };
        let (minutes, rest) = match partition(&rest, 'm') {
            Some((a, b)) => match parse_int(&a, false, 0, 0xffff_ffff) {
                Some(v) => (v, b),
                None => return Err(HoursParseError { data: data.to_owned() }),
            },
            None => (0, rest),
        };
        if rest.len() != 0 {
            return Err(HoursParseError { data: data.to_owned() });
        }
        let total = hours * 60 + minutes;
        if total > 0xffff_ffff {
            return Err(HoursParseError { data: data.to_owned() });
        }
        Ok(Hours::from_minutes(total as u32))
    }

    /// The duration as text, such as `3h05m` or `45m`.
    pub fn to_string(&self) -> (r: String)
        ensures
            r@ == duration_text(self@ as nat),
    {
        let mut out = String::new();
        let h = self.minutes / 60;
        if h != 0 {
            push_digits(&mut out, h);
            push_char(&mut out, 'h');
        }
        push_padded(&mut out, self.minutes % 60, 2);
        push_char(&mut out, 'm');
        assert(out@ =~= duration_text(self@ as nat));
        out
    }
}

} // verus!
