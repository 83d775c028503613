use vstd::prelude::*;
use vstd::utf8::{decode_utf8, valid_utf8};
use crate::entry::{Entry, EntryModel, EntryParseError, entry_outcome, entry_value};
use crate::text::{chars_of, trim, trimmed};

verus! {

/// An error on a line of an hour log file.
#[derive(Clone, Debug, PartialEq, Eq)]
pub struct FileEntryParseError {
    pub line: usize,
    pub error: EntryParseError,
}

/// Relies on std::str::from_utf8: the bytes are accepted exactly when they are valid UTF-8, and
/// then read as the characters they encode.
#[verifier::external_body]
fn utf8_text(b: &[u8]) -> (r: Option<String>)
    ensures
        match r {
            Some(s) => valid_utf8(b@) && s@ == decode_utf8(b@),
            None => !valid_utf8(b@),
        },
{
    match std::str::from_utf8(b) {
        Ok(s) => Some(s.to_string()),
        Err(_) => None,
    }
}

impl Entry {
    /// Reads an entry from bytes that must be UTF-8.
    pub fn from_bytes(data: &[u8]) -> (r: Result<Entry, EntryParseError>)
        ensures
            valid_utf8(data@) ==> entry_outcome(decode_utf8(data@), r),
            !valid_utf8(data@) ==> r matches Err(EntryParseError::InvalidUtf8),
    {
        match utf8_text(data) {
            Some(s) => Entry::from_str(s.as_str()),
            None => Err(EntryParseError::InvalidUtf8),
        }
    }
}

/// The pieces of `b` read so far between `\n` bytes, and the piece not yet ended.
pub open spec fn pieces_acc(b: Seq<u8>) -> (Seq<Seq<u8>>, Seq<u8>)
    decreases b.len(),
{
    if b.len() == 0 {
        (Seq::empty(), Seq::empty())
    } else {
        let (done, cur) = pieces_acc(b.drop_last());
        if b.last() == 10u8 {
            (done.push(cur), Seq::empty())
        } else {
            (done, cur.push(b.last()))
        }
    }
}

/// The pieces of `b` between `\n` bytes, the last one included even where it is empty.
pub open spec fn byte_lines(b: Seq<u8>) -> Seq<Seq<u8>> {
    let (done, cur) = pieces_acc(b);
    done.push(cur)
}

/// A line that the hour log skips: empty or a comment, once trimmed.
pub open spec fn skipped_entry_line(l: Seq<char>) -> bool {
    l.len() == 0 || l[0] == '#'
}

/// The entries of the lines from `i` on, or the first fault: its line number (counted from 0
/// for bytes that are not UTF-8, from 1 for a line that is no entry) and whether it is one of
/// UTF-8.
pub open spec fn entries_from(ls: Seq<Seq<u8>>, i: int) -> Result<Seq<EntryModel>, (int, bool)>
    decreases ls.len() - i,
{
    if i < 0 || i >= ls.len() {
        Ok(Seq::empty())
    } else if !valid_utf8(ls[i]) {
        Err((i, true))
    } else {
        let l = trim(decode_utf8(ls[i]));
        if skipped_entry_line(l) {
            entries_from(ls, i + 1)
        } else {
            match entry_value(l) {
                None => Err((i + 1, false)),
                Some(e) => match entries_from(ls, i + 1) {
                    Ok(es) => Ok(seq![e] + es),
                    Err(f) => Err(f),
                },
            }
        }
    }
}

/// The views of entries.
pub open spec fn entry_views(s: Seq<Entry>) -> Seq<EntryModel> {
    s.map_values(|e: Entry| e@)
}

/// The pieces of `data` between `\n` bytes.
fn split_bytes(data: &[u8]) -> (r: Vec<Vec<u8>>)
    ensures
        r@.map_values(|p: Vec<u8>| p@) == byte_lines(data@),
{
    let mut done: Vec<Vec<u8>> = Vec::new();
    let mut cur: Vec<u8> = Vec::new();
    let mut i: usize = 0;
    assert(data@.take(0) =~= Seq::<u8>::empty());
    assert(done@.map_values(|p: Vec<u8>| p@) =~= Seq::<Seq<u8>>::empty());
    while i < data.len()
        invariant
            i <= data@.len(),
            pieces_acc(data@.take(i as int)) == (done@.map_values(|p: Vec<u8>| p@), cur@),
        decreases data@.len() - i,
    {
        let c = data[i];
        assert(data@.take(i + 1).drop_last() =~= data@.take(i as int));
        assert(data@.take(i + 1).last() == c);
        if c == 10u8 {
            let ghost before = done@;
            let piece = cur;
            let ghost pv = piece@;
            done.push(piece);
            assert(done@.map_values(|p: Vec<u8>| p@) =~= before.map_values(|p: Vec<u8>| p@).push(pv));
            cur = Vec::new();
        } else {
            cur.push(c);
        }
        i = i + 1;
    }
    assert(data@.take(i as int) =~= data@);
    let ghost before = done@;
    let ghost pv = cur@;
    done.push(cur);
    assert(done@.map_values(|p: Vec<u8>| p@) =~= before.map_values(|p: Vec<u8>| p@).push(pv));
    done
}

/// Reads the entries of an hour log: one per line, skipping empty and comment lines; the first
/// fault ends the read.
pub fn parse_bytes(data: &[u8]) -> (r: Result<Vec<Entry>, FileEntryParseError>)
    ensures
        match entries_from(byte_lines(data@), 0) {
            Ok(es) => match r {
                Ok(v) => entry_views(v@) == es,
                _ => false,
            },
            Err((line, utf8)) => match r {
                Err(e) => e.line == line && (utf8 <==> e.error == EntryParseError::InvalidUtf8) && (
                !utf8 ==> entry_outcome(
                    trim(decode_utf8(byte_lines(data@)[line - 1])),
                    Err(e.error),
                )),
                _ => false,
            },
        },
{
    let pieces = split_bytes(data);
    let ghost ls = pieces@.map_values(|p: Vec<u8>| p@);
    let mut out: Vec<Entry> = Vec::new();
    let mut i: usize = 0;
    assert(entry_views(out@) =~= Seq::<EntryModel>::empty());
    assert(entries_from(ls, 0) matches Ok(es) ==> Seq::<EntryModel>::empty() + es =~= es);
    while i < pieces.len()
        invariant
            i <= pieces@.len(),
            ls == pieces@.map_values(|p: Vec<u8>| p@),
            ls == byte_lines(data@),
            match entries_from(ls, i as int) {
                Ok(es) => entries_from(ls, 0) == Ok::<Seq<EntryModel>, (int, bool)>(
                    entry_views(out@) + es,
                ),
                Err(f) => entries_from(ls, 0) == Err::<Seq<EntryModel>, (int, bool)>(f),
            },
        decreases pieces@.len() - i,
    {
        assert(ls[i as int] == pieces@[i as int]@);
        let text = match utf8_text(pieces[i].as_slice()) {
            Some(t) => t,
            None => {
                return Err(FileEntryParseError { line: i, error: EntryParseError::InvalidUtf8 });
            },
        };
        let line = trimmed(&chars_of(text.as_str()));
        if !(line.len() == 0 || line[0] == '#') {
            let s = crate::text::string_of(&line);
            match Entry::from_str(s.as_str()) {
                Ok(e) => {
                    let ghost before = out@;
                    let ghost ev = e@;
                    out.push(e);
                    proof {
                        assert(entry_views(out@) =~= entry_views(before).push(ev));
                        match entries_from(ls, i + 1) {
                            Ok(es) => {
                                assert(entry_views(before) + (seq![ev] + es) =~= entry_views(out@)
                                    + es);
                            },
                            Err(f) => {},
                        }
                    }
                },
                Err(e) => {
                    return Err(FileEntryParseError { line: i + 1, error: e });
                },
            }
        }
        i = i + 1;
    }
    assert(entry_views(out@) + Seq::<EntryModel>::empty() =~= entry_views(out@));
    Ok(out)
}

} // verus!
