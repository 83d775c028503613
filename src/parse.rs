use vstd::prelude::*;
use crate::date::{Date, ledger_date_fields, valid_ymd};
use crate::ledger::{
    Account, Cents, Mutation, Tag, Transaction, TransactionModel, mutation_views, tag_views,
};
use crate::text::{
    all_digits, chars_of, digits_at, digits_value, lemma_digits_value_nonneg, partition,
    split_first, string_of, trim, trimmed,
};

verus! {

/// A parse error: what is wrong, and the piece of text where it is.
#[derive(Clone, Debug, PartialEq, Eq)]
pub struct ParseError {
    pub details: ParseErrorDetails,
    pub token: String,
}

#[derive(Clone, Copy, Debug, PartialEq, Eq, Structural)]
pub enum ParseErrorDetails {
    InvalidTransactionHeader(InvalidTransactionHeaderDetails),
    InvalidMutation(InvalidMutationDetails),
    InvalidTag(InvalidTagDetails),
}

#[derive(Clone, Copy, Debug, PartialEq, Eq, Structural)]
pub enum InvalidTransactionHeaderDetails {
    MissingHeader,
    MissingDescription,
    InvalidDate,
}

#[derive(Clone, Copy, Debug, PartialEq, Eq, Structural)]
pub enum InvalidTagDetails {
    InvalidLabel,
    TagAfterMutation,
}

#[derive(Clone, Copy, Debug, PartialEq, Eq, Structural)]
pub enum InvalidMutationDetails {
    MissingSign,
    MissingAccount,
    InvalidAmount,
}

/// A parse error as the kind of error and the characters of its token.
pub type ErrorModel = (ParseErrorDetails, Seq<char>);

impl View for ParseError {
    type V = ErrorModel;

    open spec fn view(&self) -> ErrorModel {
        (self.details, self.token@)
    }
}

/// An error of the given kind at `token`.
pub open spec fn header_error(d: InvalidTransactionHeaderDetails, token: Seq<char>) -> ErrorModel {
    (ParseErrorDetails::InvalidTransactionHeader(d), token)
}

/// An error of the given kind at `token`.
pub open spec fn tag_error(d: InvalidTagDetails, token: Seq<char>) -> ErrorModel {
    (ParseErrorDetails::InvalidTag(d), token)
}

/// An error of the given kind at `token`.
pub open spec fn mutation_error(d: InvalidMutationDetails, token: Seq<char>) -> ErrorModel {
    (ParseErrorDetails::InvalidMutation(d), token)
}

/// A line that a parse skips over: empty or a comment, once trimmed.
pub open spec fn is_skipped(l: Seq<char>) -> bool {
    l.len() == 0 || l[0] == '#'
}

/// A character allowed in a tag label.
pub open spec fn is_label_char(c: char) -> bool {
    ('a' <= c && c <= 'z') || ('A' <= c && c <= 'Z') || ('0' <= c && c <= '9') || c == '-'
}

/// The header `DATE: DESCRIPTION`: the date as year, month and day, and the description.
pub open spec fn header_line(l: Seq<char>) -> Result<((int, int, int), Seq<char>), ErrorModel> {
    match split_first(l, ':') {
        None => Err(header_error(InvalidTransactionHeaderDetails::MissingDescription, l)),
        Some((d, desc)) => {
            let d = trim(d);
            let desc = trim(desc);
            if desc.len() == 0 {
                Err(header_error(InvalidTransactionHeaderDetails::MissingDescription, l))
            } else {
                match ledger_date_fields(d) {
                    Some(t) => if valid_ymd(t.0, t.1, t.2) {
                        Ok((t, desc))
                    } else {
                        Err(header_error(InvalidTransactionHeaderDetails::InvalidDate, d))
                    },
                    None => Err(header_error(InvalidTransactionHeaderDetails::InvalidDate, d)),
                }
            }
        },
    }
}

/// A line `LABEL: VALUE` is a tag; a line without `:` is none.
pub open spec fn tag_line(l: Seq<char>) -> Option<Result<(Seq<char>, Seq<char>), ErrorModel>> {
    match split_first(trim(l), ':') {
        None => None,
        Some((label, value)) => {
            let label = trim(label);
            let value = trim(value);
            if forall|i: int| 0 <= i < label.len() ==> is_label_char(#[trigger] label[i]) {
                Some(Ok((label, value)))
            } else {
                Some(Err(tag_error(InvalidTagDetails::InvalidLabel, label)))
            }
        },
    }
}

/// Whether `v` fits in an `i32`.
pub open spec fn fits_i32(v: int) -> bool {
    i32::MIN <= v <= i32::MAX
}

/// The number written by the digits `s`: one or more of them, and nothing else.
pub open spec fn plain_number(s: Seq<char>) -> Option<int> {
    if s.len() > 0 && all_digits(s) {
        Some(digits_value(s))
    } else {
        None
    }
}

/// The cents that `s` writes: `DIGITS` or `DIGITS.DD`, with exactly two digits after the dot,
/// the result an `i32`.
pub open spec fn cents_value(s: Seq<char>) -> Option<int> {
    match split_first(s, '.') {
        Some((w, d)) => if d.len() != 2 {
            None
        } else {
            match (plain_number(w), plain_number(d)) {
                (Some(a), Some(b)) => if fits_i32(a * 100 + b) {
                    Some(a * 100 + b)
                } else {
                    None
                },
                _ => None,
            }
        },
        None => match plain_number(s) {
            Some(a) => if fits_i32(a * 100) {
                Some(a * 100)
            } else {
                None
            },
            None => None,
        },
    }
}

/// A mutation line `SIGN AMOUNT ACCOUNT`: the signed amount in cents and the account.
pub open spec fn mutation_line(l: Seq<char>) -> Result<(int, Seq<char>), ErrorModel> {
    let data = trim(l);
    match split_first(data, ' ') {
        None => Err(mutation_error(InvalidMutationDetails::MissingAccount, data)),
        Some((a, account)) => {
            let a = trim(a);
            let account = trim(account);
            if a.len() == 0 || (a[0] != '+' && a[0] != '-') {
                Err(mutation_error(InvalidMutationDetails::MissingSign, a))
            } else {
                match cents_value(a.drop_first()) {
                    None => Err(mutation_error(InvalidMutationDetails::InvalidAmount, a)),
                    Some(v) => {
                        let v = if a[0] == '-' {
                            -v
                        } else {
                            v
                        };
                        if fits_i32(v) {
                            Ok((v, account))
                        } else {
                            Err(mutation_error(InvalidMutationDetails::InvalidAmount, a))
                        }
                    },
                }
            }
        },
    }
}

/// Where a parse stands: between transactions, or inside one whose header has been read.
pub enum ParseState {
    Between,
    InBody(TransactionModel),
}

/// One line read in a given state: the next state, and the transaction that the line ends,
/// if any.
pub open spec fn step(st: ParseState, raw: Seq<char>) -> Result<
    (ParseState, Option<TransactionModel>),
    ErrorModel,
> {
    let l = trim(raw);
    match st {
        ParseState::Between => if is_skipped(l) {
            Ok((ParseState::Between, None))
        } else {
            match header_line(l) {
                Ok((date, description)) => Ok(
                    (
                        ParseState::InBody(
                            TransactionModel {
                                date,
                                description,
                                tags: Seq::empty(),
                                mutations: Seq::empty(),
                            },
                        ),
                        None,
                    ),
                ),
                Err(e) => Err(e),
            }
        },
        ParseState::InBody(tx) => if l.len() == 0 {
            Ok((ParseState::Between, Some(tx)))
        } else if l[0] == '#' {
            Ok((ParseState::InBody(tx), None))
        } else {
            match tag_line(l) {
                Some(Ok(tag)) => if tx.mutations.len() == 0 {
                    Ok((ParseState::InBody(TransactionModel { tags: tx.tags.push(tag), ..tx }), None))
                } else {
                    Err(tag_error(InvalidTagDetails::TagAfterMutation, l))
                },
                _ => match mutation_line(l) {
                    Ok(m) => Ok(
                        (
                            ParseState::InBody(
                                TransactionModel { mutations: tx.mutations.push(m), ..tx },
                            ),
                            None,
                        ),
                    ),
                    Err(e) => Err(e),
                },
            }
        },
    }
}

/// Reading the lines from `k` on in state `st`: the next transaction that ends, with the
/// position after the lines read, or none at the end of the lines.
pub open spec fn next_transaction(ls: Seq<Seq<char>>, k: int, st: ParseState) -> Result<
    Option<(TransactionModel, int)>,
    ErrorModel,
>
    decreases ls.len() - k,
{
    if k >= ls.len() {
        match st {
            ParseState::Between => Ok(None),
            ParseState::InBody(tx) => Ok(Some((tx, ls.len() as int))),
        }
    } else {
        match step(st, ls[k]) {
            Err(e) => Err(e),
            Ok((st2, Some(tx))) => Ok(Some((tx, k + 1))),
            Ok((st2, None)) => next_transaction(ls, k + 1, st2),
        }
    }
}

/// All transactions of the lines from `p` on, or the first error.
pub open spec fn transactions_from(ls: Seq<Seq<char>>, p: int) -> Result<
    Seq<TransactionModel>,
    ErrorModel,
>
    decreases ls.len() - p,
{
    if p > ls.len() {
        Ok(Seq::empty())
    } else {
        match next_transaction(ls, p, ParseState::Between) {
            Err(e) => Err(e),
            Ok(None) => Ok(Seq::empty()),
            Ok(Some((tx, q))) => if p < q <= ls.len() {
                match transactions_from(ls, q) {
                    Ok(rest) => Ok(seq![tx] + rest),
                    Err(e) => Err(e),
                }
            } else {
                Ok(Seq::empty())
            },
        }
    }
}

/// The lines read so far from `s` and the part of the line not yet ended by a `\n`.
pub open spec fn lines_acc(s: Seq<char>) -> (Seq<Seq<char>>, Seq<char>)
    decreases s.len(),
{
    if s.len() == 0 {
        (Seq::empty(), Seq::empty())
    } else {
        let (done, cur) = lines_acc(s.drop_last());
        if s.last() == '\n' {
            (done.push(cur), Seq::empty())
        } else {
            (done, cur.push(s.last()))
        }
    }
}

/// The lines of `s`: the pieces between `\n`s, where a final `\n` ends the last line.
pub open spec fn lines_of(s: Seq<char>) -> Seq<Seq<char>> {
    let (done, cur) = lines_acc(s);
    if cur.len() > 0 {
        done.push(cur)
    } else {
        done
    }
}

/// The transactions of a ledger text, in order, or the first error.
pub open spec fn parse_ledger(s: Seq<char>) -> Result<Seq<TransactionModel>, ErrorModel> {
    transactions_from(lines_of(s), 0)
}

/// Inside a transaction that already has a mutation, a tag line (neither blank nor a comment,
/// and `LABEL: VALUE` with a valid label) ends the parse with `TagAfterMutation` at that line.
pub proof fn lemma_tag_after_mutation(ls: Seq<Seq<char>>, k: int, tx: TransactionModel)
    requires
        0 <= k < ls.len(),
        tx.mutations.len() > 0,
        !is_skipped(trim(ls[k])),
        tag_line(trim(ls[k])) matches Some(Ok(_)),
    ensures
        next_transaction(ls, k, ParseState::InBody(tx)) == Err::<
            Option<(TransactionModel, int)>,
            ErrorModel,
        >(tag_error(InvalidTagDetails::TagAfterMutation, trim(ls[k]))),
{
}

/// The state after reading the lines `p..k` from between transactions, where none of them is
/// an error and none ends a transaction.
pub open spec fn state_at(ls: Seq<Seq<char>>, p: int, k: int) -> Option<ParseState>
    decreases k - p,
{
    if k <= p {
        Some(ParseState::Between)
    } else {
        match state_at(ls, p, k - 1) {
            Some(st) => if k - 1 < ls.len() {
                match step(st, ls[k - 1]) {
                    Ok((st2, None)) => Some(st2),
                    _ => None,
                }
            } else {
                None
            },
            None => None,
        }
    }
}

proof fn lemma_state_at(ls: Seq<Seq<char>>, p: int, k: int, st: ParseState)
    requires
        0 <= p <= k <= ls.len(),
        state_at(ls, p, k) == Some(st),
    ensures
        next_transaction(ls, p, ParseState::Between) == next_transaction(ls, k, st),
    decreases k - p,
{
    if k > p {
        let prev = state_at(ls, p, k - 1)->Some_0;
        lemma_state_at(ls, p, k - 1, prev);
    }
}

/// Reading a ledger's lines from `p`: where the transaction being read already has a mutation
/// and the next line `k` is a tag line (`LABEL: VALUE` with a valid label), the read fails
/// with `TagAfterMutation` at that trimmed line.
pub proof fn lemma_tag_after_mutation_from(ls: Seq<Seq<char>>, p: int, k: int, tx: TransactionModel)
    requires
        0 <= p <= k < ls.len(),
        state_at(ls, p, k) == Some(ParseState::InBody(tx)),
        tx.mutations.len() > 0,
        !is_skipped(trim(ls[k])),
        tag_line(trim(ls[k])) matches Some(Ok(_)),
    ensures
        next_transaction(ls, p, ParseState::Between) == Err::<
            Option<(TransactionModel, int)>,
            ErrorModel,
        >(tag_error(InvalidTagDetails::TagAfterMutation, trim(ls[k]))),
{
    lemma_state_at(ls, p, k, ParseState::InBody(tx));
    lemma_tag_after_mutation(ls, k, tx);
}

/// Between transactions, a line that is neither blank nor a comment and holds no `:` ends the
/// parse with `MissingDescription` at that (trimmed) line.
pub proof fn lemma_header_without_colon(ls: Seq<Seq<char>>, k: int)
    requires
        0 <= k < ls.len(),
        !is_skipped(trim(ls[k])),
        forall|i: int| 0 <= i < trim(ls[k]).len() ==> trim(ls[k])[i] != ':',
    ensures
        next_transaction(ls, k, ParseState::Between) == Err::<
            Option<(TransactionModel, int)>,
            ErrorModel,
        >(header_error(InvalidTransactionHeaderDetails::MissingDescription, trim(ls[k]))),
{
    assert(!exists|i: int| crate::text::is_first(trim(ls[k]), ':', i));
}

/// The views of a sequence of strings.
pub open spec fn views_of(v: Seq<String>) -> Seq<Seq<char>> {
    v.map_values(|l: String| l@)
}

/// The models of a sequence of transactions.
pub open spec fn models_of(v: Seq<Transaction>) -> Seq<TransactionModel> {
    v.map_values(|t: Transaction| t@)
}

impl InvalidTransactionHeaderDetails {
    fn for_token(self, token: &Vec<char>) -> (r: ParseError)
        ensures
            r@ == header_error(self, token@),
    {
        ParseError {
            details: ParseErrorDetails::InvalidTransactionHeader(self),
            token: string_of(token),
        }
    }
}

impl InvalidTagDetails {
    fn for_token(self, token: &Vec<char>) -> (r: ParseError)
        ensures
            r@ == tag_error(self, token@),
    {
        ParseError { details: ParseErrorDetails::InvalidTag(self), token: string_of(token) }
    }
}

impl InvalidMutationDetails {
    fn for_token(self, token: &Vec<char>) -> (r: ParseError)
        ensures
            r@ == mutation_error(self, token@),
    {
        ParseError { details: ParseErrorDetails::InvalidMutation(self), token: string_of(token) }
    }
}

/// Every character of `label` is allowed in a tag label.
fn valid_label(label: &Vec<char>) -> (r: bool)
    ensures
        r == forall|j: int| 0 <= j < label@.len() ==> is_label_char(#[trigger] label@[j]),
{
    let mut i: usize = 0;
    while i < label.len()
        invariant
            i <= label@.len(),
            forall|j: int| 0 <= j < i ==> is_label_char(#[trigger] label@[j]),
        decreases label@.len() - i,
    {
        let c = label[i];
        if !(('a' <= c && c <= 'z') || ('A' <= c && c <= 'Z') || ('0' <= c && c <= '9') || c
            == '-') {
            assert(!is_label_char(label@[i as int]));
            return false;
        }
        i = i + 1;
    }
    true
}

impl Tag {
    /// Reads `LABEL: VALUE`; `None` where the line holds no `:`.
    pub fn parse_from_str(data: &Vec<char>) -> (r: Option<Result<Tag, ParseError>>)
        ensures
            match tag_line(data@) {
                None => r is None,
                Some(Ok(t)) => match r {
                    Some(Ok(tag)) => tag@ == t,
                    _ => false,
                },
                Some(Err(e)) => match r {
                    Some(Err(pe)) => pe@ == e,
                    _ => false,
                },
            },
    {
        let data = trimmed(data);
        let (label, value) = match partition(&data, ':') {
            Some(p) => p,
            None => return None,
        };
        let label = trimmed(&label);
        let value = trimmed(&value);
        if !valid_label(&label) {
            return Some(Err(InvalidTagDetails::InvalidLabel.for_token(&label)));
        }
        Some(Ok(Tag { label: string_of(&label), value: string_of(&value) }))
    }
}

impl Cents {
    /// Reads `DIGITS` or `DIGITS.DD` as cents.
    pub fn parse_from_str(data: &Vec<char>) -> (r: Result<Cents, ()>)
        ensures
            match cents_value(data@) {
                Some(v) => r == Ok::<Cents, ()>(Cents(v as i32)),
                None => r is Err,
            },
    {
        assert(data@.skip(0) =~= data@);
        match partition(data, '.') {
            Some((whole, decimals)) => {
                assert(whole@.skip(0) =~= whole@);
                assert(decimals@.skip(0) =~= decimals@);
                if decimals.len() != 2 {
                    return Err(());
                }
                let w = digits_at(&whole, 0, 0x7fff_ffff);
                let d = digits_at(&decimals, 0, 0x7fff_ffff);
                match (w, d) {
                    (Some(w), Some(d)) => {
                        let v = w * 100 + d;
                        if v <= 0x7fff_ffff {
                            Ok(Cents(v as i32))
                        } else {
                            Err(())
                        }
                    },
                    _ => {
                        proof {
                            if all_digits(decimals@) {
                                lemma_digits_value_nonneg(decimals@);
                            }
                            if all_digits(whole@) {
                                lemma_digits_value_nonneg(whole@);
                            }
                        }
                        Err(())
                    },
                }
            },
            None => match digits_at(data, 0, 0x7fff_ffff) {
                Some(w) => {
                    let v = w * 100;
                    if v <= 0x7fff_ffff {
                        Ok(Cents(v as i32))
                    } else {
                        Err(())
                    }
                },
                None => {
                    proof {
                        if all_digits(data@) {
                            lemma_digits_value_nonneg(data@);
                        }
                    }
                    Err(())
                },
            },
        }
    }
}

impl Mutation {
    /// Reads `SIGN AMOUNT ACCOUNT`.
    pub fn parse_from_str(data: &Vec<char>) -> (r: Result<Mutation, ParseError>)
        ensures
            match mutation_line(data@) {
                Ok(m) => match r {
                    Ok(mu) => mu@ == m,
                    _ => false,
                },
                Err(e) => match r {
                    Err(pe) => pe@ == e,
                    _ => false,
                },
            },
    {
        let data = trimmed(data);
        let (amount, account) = match partition(&data, ' ') {
            Some(p) => p,
            None => return Err(InvalidMutationDetails::MissingAccount.for_token(&data)),
        };
        let amount = trimmed(&amount);
        let account = trimmed(&account);
        if amount.len() == 0 || (amount[0] != '+' && amount[0] != '-') {
            return Err(InvalidMutationDetails::MissingSign.for_token(&amount));
        }
        let digits = crate::text::slice_of(&amount, 1, amount.len());
        assert(digits@ =~= amount@.drop_first());
        let v = match Cents::parse_from_str(&digits) {
            Ok(c) => c.0,
            Err(()) => return Err(InvalidMutationDetails::InvalidAmount.for_token(&amount)),
        };
        let v: i64 = if amount[0] == '-' {
            0 - v as i64
        } else {
            v as i64
        };
        if !(-0x8000_0000 <= v && v <= 0x7fff_ffff) {
            return Err(InvalidMutationDetails::InvalidAmount.for_token(&amount));
        }
        let account = string_of(&account);
        Ok(Mutation { amount: Cents(v as i32), account: Account { raw: account } })
    }
}

/// The trimmed line is empty or a comment.
fn skipped(line: &String) -> (r: bool)
    ensures
        r == is_skipped(trim(line@)),
{
    let l = trimmed(&chars_of(line.as_str()));
    l.len() == 0 || l[0] == '#'
}

/// Reads a header `DATE: DESCRIPTION`.
fn parse_header(l: &Vec<char>) -> (r: Result<(Date, Vec<char>), ParseError>)
    ensures
        match header_line(l@) {
            Ok((t, desc)) => match r {
                Ok((d, ds)) => d@ == t && ds@ == desc,
                _ => false,
            },
            Err(e) => match r {
                Err(pe) => pe@ == e,
                _ => false,
            },
        },
{
    let (date, description) = match partition(l, ':') {
        Some(p) => p,
        None => return Err(InvalidTransactionHeaderDetails::MissingDescription.for_token(l)),
    };
    let date = trimmed(&date);
    let description = trimmed(&description);
    if description.len() == 0 {
        return Err(InvalidTransactionHeaderDetails::MissingDescription.for_token(l));
    }
    let text = string_of(&date);
    match Date::parse_from_str(text.as_str()) {
        Ok(d) => Ok((d, description)),
        Err(_) => Err(InvalidTransactionHeaderDetails::InvalidDate.for_token(&date)),
    }
}

/// The lines of `data`, as `lines_of` cuts them.
pub fn split_lines(data: &str) -> (r: Vec<String>)
    ensures
        views_of(r@) == lines_of(data@),
{
    let s = chars_of(data);
    let mut done: Vec<String> = Vec::new();
    let mut cur: Vec<char> = Vec::new();
    let mut i: usize = 0;
    assert(s@.take(0) =~= Seq::<char>::empty());
    assert(views_of(done@) =~= Seq::<Seq<char>>::empty());
    while i < s.len()
        invariant
            i <= s@.len(),
            s@ == data@,
            lines_acc(s@.take(i as int)) == (views_of(done@), cur@),
        decreases s@.len() - i,
    {
        let c = s[i];
        assert(s@.take(i + 1).drop_last() =~= s@.take(i as int));
        assert(s@.take(i + 1).last() == c);
        if c == '\n' {
            let line = string_of(&cur);
            let ghost before = done@;
            done.push(line);
            assert(views_of(done@) =~= views_of(before).push(line@));
            cur = Vec::new();
        } else {
            cur.push(c);
        }
        i = i + 1;
    }
    assert(s@.take(i as int) =~= s@);
    if cur.len() > 0 {
        let line = string_of(&cur);
        let ghost before = done@;
        done.push(line);
        assert(views_of(done@) =~= views_of(before).push(line@));
    }
    done
}

/// Reading on from a transaction's header never goes back, and from between transactions it
/// moves past at least one line before a transaction ends.
pub proof fn lemma_next_progress(ls: Seq<Seq<char>>, k: int, st: ParseState)
    requires
        0 <= k <= ls.len(),
    ensures
        match next_transaction(ls, k, st) {
            Ok(Some((_, q))) => k <= q <= ls.len() && (st is Between ==> k < q),
            _ => true,
        },
    decreases ls.len() - k,
{
    if k < ls.len() {
        match step(st, ls[k]) {
            Ok((st2, None)) => {
                lemma_next_progress(ls, k + 1, st2);
            },
            _ => {},
        }
    }
}

impl Transaction {
    /// Reads the next transaction from `lines`, starting at `*pos`, and moves `*pos` past the
    /// lines read; `None` where only blank and comment lines are left.
    pub fn parse_from_lines(lines: &Vec<String>, pos: &mut usize) -> (r: Result<
        Option<Transaction>,
        ParseError,
    >)
        requires
            *old(pos) <= lines@.len(),
        ensures
            match next_transaction(views_of(lines@), *old(pos) as int, ParseState::Between) {
                Err(e) => match r {
                    Err(pe) => pe@ == e,
                    _ => false,
                },
                Ok(None) => r matches Ok(None),
                Ok(Some((tx, q))) => match r {
                    Ok(Some(t)) => t@ == tx && *final(pos) == q,
                    _ => false,
                },
            },
    {
        let ghost ls = views_of(lines@);
        let ghost start = *pos as int;
        let mut i: usize = *pos;
        while i < lines.len() && skipped(&lines[i])
            invariant
                start <= i <= lines@.len(),
                start == *old(pos),
                ls == views_of(lines@),
                next_transaction(ls, start, ParseState::Between) == next_transaction(
                    ls,
                    i as int,
                    ParseState::Between,
                ),
            decreases lines@.len() - i,
        {
            assert(ls[i as int] == lines@[i as int]@);
            i = i + 1;
        }
        if i == lines.len() {
            *pos = i;
            return Ok(None);
        }
        let l = trimmed(&chars_of(lines[i].as_str()));
        assert(ls[i as int] == lines@[i as int]@);
        let (date, desc) = match parse_header(&l) {
            Ok(h) => h,
            Err(e) => {
                *pos = i + 1;
                return Err(e);
            },
        };
        let description = string_of(&desc);
        let mut tags: Vec<Tag> = Vec::new();
        let mut mutations: Vec<Mutation> = Vec::new();
        assert(tag_views(tags@) =~= Seq::<(Seq<char>, Seq<char>)>::empty());
        assert(mutation_views(mutations@) =~= Seq::<(int, Seq<char>)>::empty());
        i = i + 1;
        while i < lines.len()
            invariant
                start < i <= lines@.len(),
                start == *old(pos),
                ls == views_of(lines@),
                next_transaction(ls, start, ParseState::Between) == next_transaction(
                    ls,
                    i as int,
                    ParseState::InBody(
                        TransactionModel {
                            date: date@,
                            description: description@,
                            tags: tag_views(tags@),
                            mutations: mutation_views(mutations@),
                        },
                    ),
                ),
            decreases lines@.len() - i,
        {
            let l = trimmed(&chars_of(lines[i].as_str()));
            assert(ls[i as int] == lines@[i as int]@);
            if l.len() == 0 {
                *pos = i + 1;
                return Ok(Some(Transaction { date, description, tags, mutations }));
            } else if l[0] != '#' {
                match Tag::parse_from_str(&l) {
                    Some(Ok(tag)) => {
                        if mutations.len() != 0 {
                            *pos = i + 1;
                            return Err(InvalidTagDetails::TagAfterMutation.for_token(&l));
                        }
                        let ghost before = tags@;
                        tags.push(tag);
                        assert(tag_views(tags@) =~= tag_views(before).push(tag@));
                    },
                    _ => match Mutation::parse_from_str(&l) {
                        Ok(m) => {
                            let ghost before = mutations@;
                            mutations.push(m);
                            assert(mutation_views(mutations@) =~= mutation_views(before).push(m@));
                        },
                        Err(e) => {
                            *pos = i + 1;
                            return Err(e);
                        },
                    },
                }
            }
            i = i + 1;
        }
        *pos = i;
        Ok(Some(Transaction { date, description, tags, mutations }))
    }

    /// Reads every transaction of a ledger text, in order; the first error ends the parse.
    pub fn parse_from_str(data: &str) -> (r: Result<Vec<Transaction>, ParseError>)
        ensures
            match parse_ledger(data@) {
                Ok(txs) => match r {
                    Ok(v) => models_of(v@) == txs,
                    _ => false,
                },
                Err(e) => match r {
                    Err(pe) => pe@ == e,
                    _ => false,
                },
            },
    {
        let lines = split_lines(data);
        let ghost ls = views_of(lines@);
        let mut out: Vec<Transaction> = Vec::new();
        let mut pos: usize = 0;
        assert(models_of(out@) =~= Seq::<TransactionModel>::empty());
        assert(transactions_from(ls, 0) matches Ok(rest) ==> Seq::<TransactionModel>::empty() + rest =~= rest);
        loop
            invariant
                pos <= lines@.len(),
                ls == views_of(lines@),
                ls == lines_of(data@),
                match transactions_from(ls, pos as int) {
                    Ok(rest) => transactions_from(ls, 0) == Ok::<Seq<TransactionModel>, ErrorModel>(
                        models_of(out@) + rest,
                    ),
                    Err(e) => transactions_from(ls, 0) == Err::<Seq<TransactionModel>, ErrorModel>(e),
                },
            decreases lines@.len() - pos,
        {
            let ghost p = pos as int;
            proof {
                lemma_next_progress(ls, p, ParseState::Between);
            }
            match Transaction::parse_from_lines(&lines, &mut pos) {
                Err(e) => {
                    return Err(e);
                },
                Ok(None) => {
                    assert(models_of(out@) + Seq::<TransactionModel>::empty() =~= models_of(out@));
                    return Ok(out);
                },
                Ok(Some(t)) => {
                    let ghost before = out@;
                    out.push(t);
                    proof {
                        assert(models_of(out@) =~= models_of(before).push(t@));
                        match transactions_from(ls, pos as int) {
                            Ok(rest) => {
                                assert(models_of(before) + (seq![t@] + rest) =~= models_of(out@)
                                    + rest);
                            },
                            Err(e) => {},
                        }
                    }
                },
            }
        }
    }
}

} // verus!
