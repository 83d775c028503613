use vstd::prelude::*;
use crate::date::{Date, date_text};
use crate::text::{
    push_str, chars_of, digits_of, find_last, lemma_split_last, padded, push_char, push_digits, push_padded,
    slice_of, split_last, string_of,
};

verus! {

/// An amount of money, in cents.
#[derive(Clone, Copy, Debug, PartialEq, Eq, Structural, PartialOrd, Ord, Hash)]
pub struct Cents(pub i32);

/// A `/`-separated account path, such as `assets/bank/checking`.
#[derive(Clone, Debug, PartialEq, Eq, PartialOrd, Ord, Hash)]
pub struct Account {
    pub raw: String,
}

/// A label and a value attached to a transaction.
#[derive(Clone, Debug, PartialEq, Eq, PartialOrd, Ord, Hash)]
pub struct Tag {
    pub label: String,
    pub value: String,
}

/// One signed amount moved to or from one account.
#[derive(Clone, Debug, PartialEq, Eq, PartialOrd, Ord, Hash)]
pub struct Mutation {
    pub amount: Cents,
    pub account: Account,
}

/// A dated entry of the ledger: a description, tags and mutations.
#[derive(Clone, Debug, PartialEq, Eq, PartialOrd, Ord, Hash)]
pub struct Transaction {
    pub date: Date,
    pub description: String,
    pub tags: Vec<Tag>,
    pub mutations: Vec<Mutation>,
}

/// What a transaction holds: its date as year, month and day, its description, its tags as
/// (label, value) and its mutations as (amount in cents, account).
pub struct TransactionModel {
    pub date: (int, int, int),
    pub description: Seq<char>,
    pub tags: Seq<(Seq<char>, Seq<char>)>,
    pub mutations: Seq<(int, Seq<char>)>,
}

impl View for Account {
    type V = Seq<char>;

    open spec fn view(&self) -> Seq<char> {
        self.raw@
    }
}

impl View for Tag {
    type V = (Seq<char>, Seq<char>);

    open spec fn view(&self) -> (Seq<char>, Seq<char>) {
        (self.label@, self.value@)
    }
}

impl View for Mutation {
    type V = (int, Seq<char>);

    open spec fn view(&self) -> (int, Seq<char>) {
        (self.amount.0 as int, self.account@)
    }
}

impl View for Transaction {
    type V = TransactionModel;

    open spec fn view(&self) -> TransactionModel {
        TransactionModel {
            date: self.date@,
            description: self.description@,
            tags: tag_views(self.tags@),
            mutations: mutation_views(self.mutations@),
        }
    }
}

/// The views of a sequence of tags.
pub open spec fn tag_views(s: Seq<Tag>) -> Seq<(Seq<char>, Seq<char>)> {
    s.map_values(|t: Tag| t@)
}

/// The views of a sequence of mutations.
pub open spec fn mutation_views(s: Seq<Mutation>) -> Seq<(int, Seq<char>)> {
    s.map_values(|m: Mutation| m@)
}

/// The sum of the amounts of `ms`.
pub open spec fn sum_amounts(ms: Seq<(int, Seq<char>)>) -> int
    decreases ms.len(),
{
    if ms.len() == 0 {
        0
    } else {
        sum_amounts(ms.drop_last()) + ms.last().0
    }
}

/// `p` is a strict ancestor of the account path `a`: `a` continues `p` with a `/`.
pub open spec fn is_ancestor(p: Seq<char>, a: Seq<char>) -> bool {
    p.len() < a.len() && a.take(p.len() as int) == p && a[p.len() as int] == '/'
}

/// `p` is one of the nodes of the account path `a`: `a` itself or a strict ancestor.
pub open spec fn is_node(p: Seq<char>, a: Seq<char>) -> bool {
    p == a || is_ancestor(p, a)
}

/// `a` lies at or below `prefix`, where one trailing `/` of `prefix` is ignored.
pub open spec fn matches_prefix_spec(a: Seq<char>, prefix: Seq<char>) -> bool {
    let p = if prefix.len() > 0 && prefix.last() == '/' {
        prefix.drop_last()
    } else {
        prefix
    };
    is_node(p, a)
}

/// The strict ancestors of `a` that end before position `k`, shallowest first.
pub open spec fn ancestors_before(a: Seq<char>, k: int) -> Seq<Seq<char>>
    decreases k,
{
    if k <= 0 {
        Seq::empty()
    } else if a[k - 1] == '/' {
        ancestors_before(a, k - 1).push(a.take(k - 1))
    } else {
        ancestors_before(a, k - 1)
    }
}

/// Every node of `a` from the top-level one down to `a` itself.
pub open spec fn nodes_of(a: Seq<char>) -> Seq<Seq<char>> {
    ancestors_before(a, a.len() as int).push(a)
}

pub proof fn lemma_ancestors_before(a: Seq<char>, k: int)
    requires
        0 <= k <= a.len(),
    ensures
        forall|t: int|
            0 <= t < ancestors_before(a, k).len() ==> {
                let p = #[trigger] ancestors_before(a, k)[t];
                p.len() < k && a[p.len() as int] == '/' && p == a.take(p.len() as int)
            },
        forall|t1: int, t2: int|
            0 <= t1 < t2 < ancestors_before(a, k).len() ==> (#[trigger] ancestors_before(a, k)[t1]).len()
                < (#[trigger] ancestors_before(a, k)[t2]).len(),
        forall|i: int|
            0 <= i < k && a[i] == '/' ==> exists|t: int|
                0 <= t < ancestors_before(a, k).len() && (#[trigger] ancestors_before(a, k)[t]).len()
                    == i,
    decreases k,
{
    if k > 0 {
        lemma_ancestors_before(a, k - 1);
        let prev = ancestors_before(a, k - 1);
        let cur = ancestors_before(a, k);
        if a[k - 1] == '/' {
            assert(cur == prev.push(a.take(k - 1)));
            assert forall|i: int| 0 <= i < k && a[i] == '/' implies exists|t: int|
                0 <= t < cur.len() && (#[trigger] cur[t]).len() == i by {
                if i == k - 1 {
                    assert(cur[cur.len() - 1].len() == i);
                } else {
                    let t = choose|t: int| 0 <= t < prev.len() && (#[trigger] prev[t]).len() == i;
                    assert(cur[t] == prev[t]);
                }
            }
        }
    }
}

pub proof fn lemma_nodes_of(a: Seq<char>)
    ensures
        nodes_of(a).len() >= 1,
        nodes_of(a).last() == a,
        forall|p: Seq<char>|
            is_node(p, a) <==> exists|t: int| 0 <= t < nodes_of(a).len() && #[trigger] nodes_of(a)[t]
                == p,
        forall|t1: int, t2: int|
            0 <= t1 < t2 < nodes_of(a).len() ==> (#[trigger] nodes_of(a)[t1]).len() < (
            #[trigger] nodes_of(a)[t2]).len(),
        forall|t: int|
            0 <= t < nodes_of(a).len() ==> match split_last(#[trigger] nodes_of(a)[t], '/') {
                Some((p, _)) => t > 0 && p == nodes_of(a)[t - 1],
                None => t == 0,
            },
{
    let n = a.len() as int;
    lemma_ancestors_before(a, n);
    let ab = ancestors_before(a, n);
    let w = nodes_of(a);
    assert(w == ab.push(a));
    assert forall|p: Seq<char>| is_node(p, a) implies exists|t: int|
        0 <= t < w.len() && #[trigger] w[t] == p by {
        if p == a {
            assert(w[w.len() - 1] == p);
        } else {
            let i = p.len() as int;
            let t = choose|t: int| 0 <= t < ab.len() && (#[trigger] ab[t]).len() == i;
            assert(ab[t] =~= p);
            assert(w[t] == ab[t]);
        }
    }
    assert forall|t: int| 0 <= t < w.len() implies is_node(#[trigger] w[t], a) by {
        if t < ab.len() {
            assert(w[t] == ab[t]);
        }
    }
    assert forall|t1: int, t2: int| 0 <= t1 < t2 < w.len() implies (#[trigger] w[t1]).len() < (
    #[trigger] w[t2]).len() by {
        assert(w[t1] == ab[t1]);
        if t2 < ab.len() {
            assert(w[t2] == ab[t2]);
        }
    }
    assert forall|t: int| 0 <= t < w.len() implies match split_last(#[trigger] w[t], '/') {
        Some((p, _)) => t > 0 && p == w[t - 1],
        None => t == 0,
    } by {
        let s = w[t];
        let lo: int = if t == 0 { -1 } else { w[t - 1].len() as int };
        if t > 0 {
            assert(w[t - 1] == ab[t - 1]);
        }
        if t < ab.len() {
            assert(s == ab[t]);
        }
        // no '/' in s strictly after position lo
        assert forall|i: int| lo < i < s.len() implies s[i] != '/' by {
            if s[i] == '/' {
                assert(a[i] == s[i]);
                let u = choose|u: int| 0 <= u < ab.len() && (#[trigger] ab[u]).len() == i;
                assert(w[u] == ab[u]);
                if u < t {
                    if u < t - 1 {
                        assert(w[u].len() < w[t - 1].len());
                    }
                } else {
                    assert(u >= t);
                    if u == t {
                        assert(ab[u].len() == s.len());
                    } else {
                        assert(w[t].len() < w[u].len());
                    }
                }
            }
        }
        if t > 0 {
            let p = w[t - 1];
            assert(a[p.len() as int] == '/');
            assert(s[p.len() as int] == '/');
            assert(crate::text::is_last(s, '/', p.len() as int));
            lemma_split_last(s, '/', p.len() as int);
            assert(s.take(p.len() as int) =~= p);
        } else {
            assert(!exists|i: int| crate::text::is_last(s, '/', i));
        }
    }
}

/// The text of an amount: a sign, the whole units and two digits of cents.
pub open spec fn cents_text(v: int) -> Seq<char> {
    let m = if v < 0 {
        -v
    } else {
        v
    };
    seq![if v < 0 {
        '-'
    } else {
        '+'
    }] + digits_of((m / 100) as nat) + seq!['.'] + padded((m % 100) as nat, 2)
}

impl Cents {
    pub fn total_cents(self) -> (r: i32)
        ensures
            r == self.0,
    {
        self.0
    }

    pub fn is_negative(self) -> (r: bool)
        ensures
            r == (self.0 < 0),
    {
        self.0 < 0
    }

    /// The amount as text, such as `+1.50` or `-0.05`.
    pub fn to_string(&self) -> (r: String)
        ensures
            r@ == cents_text(self.0 as int),
    {
        let mut out = String::new();
        let m: u32 = if self.0 < 0 {
            push_char(&mut out, '-');
            (0 - self.0 as i64) as u32
        } else {
            push_char(&mut out, '+');
            self.0 as u32
        };
        push_digits(&mut out, m / 100);
        push_char(&mut out, '.');
        push_padded(&mut out, m % 100, 2);
        assert(out@ =~= cents_text(self.0 as int));
        out
    }
}

impl Account {
    pub fn from_raw(raw: &str) -> (r: Account)
        ensures
            r@ == raw@,
    {
        Account { raw: raw.to_owned() }
    }

    pub fn as_str(&self) -> (r: &str)
        ensures
            r@ == self@,
    {
        self.raw.as_str()
    }

    /// The account equals `prefix` or lies below it.
    pub fn matches_prefix(&self, prefix: &str) -> (r: bool)
        ensures
            r == matches_prefix_spec(self@, prefix@),
    {
        let a = chars_of(self.raw.as_str());
        let p0 = chars_of(prefix);
        let p = if p0.len() > 0 && p0[p0.len() - 1] == '/' {
            slice_of(&p0, 0, p0.len() - 1)
        } else {
            slice_of(&p0, 0, p0.len())
        };
        assert(p0@.len() > 0 ==> p0@.drop_last() =~= p0@.subrange(0, p0@.len() - 1));
        assert(p0@ =~= p0@.subrange(0, p0@.len() as int));
        if p.len() > a.len() {
            return false;
        }
        let mut i: usize = 0;
        while i < p.len()
            invariant
                i <= p@.len() <= a@.len(),
                a@ == self@,
                p@ == (if prefix@.len() > 0 && prefix@.last() == '/' {
                    prefix@.drop_last()
                } else {
                    prefix@
                }),
                forall|j: int| 0 <= j < i ==> a@[j] == p@[j],
            decreases p@.len() - i,
        {
            if a[i] != p[i] {
                assert(a@.take(p@.len() as int)[i as int] != p@[i as int]);
                assert(a@ != p@ && a@.take(p@.len() as int) != p@);
                return false;
            }
            i = i + 1;
        }
        assert(a@.take(p@.len() as int) =~= p@);
        if p.len() == a.len() {
            assert(a@ =~= p@);
            true
        } else {
            a[p.len()] == '/'
        }
    }

    /// The last segment of the path.
    pub fn name(&self) -> (r: String)
        ensures
            r@ == match split_last(self@, '/') {
                Some((_, n)) => n,
                None => self@,
            },
    {
        let a = chars_of(self.raw.as_str());
        match find_last(&a, '/') {
            Some(i) => {
                proof {
                    lemma_split_last(a@, '/', i as int);
                }
                assert(i < a.len());
                let n = slice_of(&a, i + 1, a.len());
                assert(n@ =~= a@.skip(i + 1));
                string_of(&n)
            },
            None => self.raw.clone(),
        }
    }

    /// The account one level up, if there is one.
    pub fn parent(&self) -> (r: Option<Account>)
        ensures
            match split_last(self@, '/') {
                Some((p, _)) => r matches Some(q) && q@ == p,
                None => r is None,
            },
    {
        let a = chars_of(self.raw.as_str());
        match find_last(&a, '/') {
            Some(i) => {
                proof {
                    lemma_split_last(a@, '/', i as int);
                }
                let p = slice_of(&a, 0, i);
                assert(p@ =~= a@.take(i as int));
                Some(Account { raw: string_of(&p) })
            },
            None => None,
        }
    }

    /// The nodes of the path from the top-level one down to this account: the part before each
    /// `/`, in order, and then the whole path.
    pub fn walk_nodes(&self) -> (r: Vec<Account>)
        ensures
            r@.map_values(|n: Account| n@) == nodes_of(self@),
    {
        let a = chars_of(self.raw.as_str());
        let mut r: Vec<Account> = Vec::new();
        let mut i: usize = 0;
        while i < a.len()
            invariant
                i <= a@.len(),
                a@ == self@,
                r@.map_values(|n: Account| n@) == ancestors_before(a@, i as int),
            decreases a@.len() - i,
        {
            if a[i] == '/' {
                let p = slice_of(&a, 0, i);
                assert(p@ =~= a@.take(i as int));
                r.push(Account { raw: string_of(&p) });
                assert(r@.map_values(|n: Account| n@) =~= ancestors_before(a@, i as int).push(
                    a@.take(i as int),
                ));
            }
            i = i + 1;
        }
        r.push(self.clone_account());
        assert(r@.map_values(|n: Account| n@) =~= nodes_of(self@));
        r
    }

    /// A copy of this account.
    pub fn clone_account(&self) -> (r: Account)
        ensures
            r@ == self@,
    {
        Account { raw: self.raw.clone() }
    }

    /// The walk up from this account: its parent, then that one's parent, and so on.
    pub fn parents(&self) -> (r: AccountParents)
        ensures
            r.current matches Some(c) && c@ == self@,
    {
        AccountParents { current: Some(self.clone_account()) }
    }

    /// The deepest account that is a strict ancestor of both, if any.
    pub fn common_parent(&self, other: &Account) -> (r: Option<Account>)
        ensures
            match r {
                Some(p) => is_ancestor(p@, self@) && is_ancestor(p@, other@) && forall|q: Seq<char>|
                    is_ancestor(q, self@) && is_ancestor(q, other@) ==> q.len() <= p@.len(),
                None => forall|q: Seq<char>| !(is_ancestor(q, self@) && is_ancestor(q, other@)),
            },
    {
        let a = chars_of(self.raw.as_str());
        let b = chars_of(other.raw.as_str());
        let mut last: Option<usize> = None;
        let mut i: usize = 0;
        while i < a.len() && i < b.len() && a[i] == b[i]
            invariant
                i <= a@.len(),
                i <= b@.len(),
                a@ == self@,
                b@ == other@,
                a@.take(i as int) == b@.take(i as int),
                match last {
                    Some(k) => k < i && a@[k as int] == '/' && forall|j: int|
                        k < j < i ==> a@[j] != '/',
                    None => forall|j: int| 0 <= j < i ==> a@[j] != '/',
                },
            decreases a@.len() - i,
        {
            if a[i] == '/' {
                last = Some(i);
            }
            assert(a@.take(i + 1) =~= a@.take(i as int).push(a@[i as int]));
            assert(b@.take(i + 1) =~= b@.take(i as int).push(b@[i as int]));
            i = i + 1;
        }
        proof {
            assert forall|q: Seq<char>|
                is_ancestor(q, self@) && is_ancestor(q, other@) implies q.len() < i && a@[q.len() as int] == '/'
                by {
                if q.len() >= i {
                    assert(a@[i as int] == q[i as int] || i == q.len());
                    if i == q.len() {
                        assert(a@[i as int] == '/' && b@[i as int] == '/');
                    } else {
                        assert(a@.take(q.len() as int)[i as int] == a@[i as int]);
                        assert(b@.take(q.len() as int)[i as int] == b@[i as int]);
                    }
                }
            }
        }
        match last {
            Some(k) => {
                let p = slice_of(&a, 0, k);
                assert(p@ =~= a@.take(k as int));
                assert(b@.take(k as int) =~= a@.take(k as int)) by {
                    assert forall|j: int| 0 <= j < k implies b@[j] == a@[j] by {
                        assert(a@.take(i as int)[j] == b@.take(i as int)[j]);
                    }
                }
                assert(b@[k as int] == a@[k as int]) by {
                    assert(a@.take(i as int)[k as int] == b@.take(i as int)[k as int]);
                }
                Some(Account { raw: string_of(&p) })
            },
            None => None,
        }
    }
}

/// The walk up from an account, one parent at a time.
pub struct AccountParents {
    pub current: Option<Account>,
}

impl AccountParents {
    /// Moves one level up and returns the account reached, if any.
    pub fn next(&mut self) -> (r: Option<Account>)
        ensures
            match old(self).current {
                Some(c) => match split_last(c@, '/') {
                    Some((p, _)) => (r matches Some(q) && q@ == p) && (final(self).current matches Some(
                        s,
                    ) && s@ == p),
                    None => r is None && final(self).current is None,
                },
                None => r is None && final(self).current is None,
            },
    {
        let up = match &self.current {
            Some(c) => c.parent(),
            None => None,
        };
        self.current = up;
        match &self.current {
            Some(c) => Some(c.clone_account()),
            None => None,
        }
    }
}

impl Transaction {
    /// Some mutation of the transaction is on `prefix` or below it.
    pub fn mutates_account(&self, prefix: &str) -> (r: bool)
        ensures
            r == exists|i: int|
                0 <= i < self.mutations@.len() && matches_prefix_spec(
                    #[trigger] self.mutations@[i].account@,
                    prefix@,
                ),
    {
        let mut i: usize = 0;
        while i < self.mutations.len()
            invariant
                i <= self.mutations@.len(),
                forall|j: int|
                    0 <= j < i ==> !matches_prefix_spec(
                        #[trigger] self.mutations@[j].account@,
                        prefix@,
                    ),
            decreases self.mutations@.len() - i,
        {
            if self.mutations[i].account.matches_prefix(prefix) {
                return true;
            }
            i = i + 1;
        }
        false
    }
}

/// The lines `LABEL: VALUE` of tags.
pub open spec fn tag_lines(ts: Seq<(Seq<char>, Seq<char>)>) -> Seq<char>
    decreases ts.len(),
{
    if ts.len() == 0 {
        Seq::empty()
    } else {
        tag_lines(ts.drop_last()) + ts.last().0 + seq![':', ' '] + ts.last().1 + seq!['\n']
    }
}

/// The lines `AMOUNT ACCOUNT` of mutations.
pub open spec fn mutation_lines(ms: Seq<(int, Seq<char>)>) -> Seq<char>
    decreases ms.len(),
{
    if ms.len() == 0 {
        Seq::empty()
    } else {
        mutation_lines(ms.drop_last()) + cents_text(ms.last().0) + seq![' '] + ms.last().1 + seq![
            '\n',
        ]
    }
}

/// The text of a transaction: its header, its tags and its mutations, a line each.
pub open spec fn transaction_text(t: TransactionModel) -> Seq<char> {
    date_text(t.date) + seq![':', ' '] + t.description + seq!['\n'] + tag_lines(t.tags)
        + mutation_lines(t.mutations)
}

/// Appends the text of `transaction` to `out`.
pub fn write_full(out: &mut String, transaction: &Transaction)
    ensures
        final(out)@ == old(out)@ + transaction_text(transaction@),
{
    let ghost t = transaction@;
    let date = transaction.date.to_string();
    push_str(out, date.as_str());
    push_str(out, ": ");
    push_str(out, transaction.description.as_str());
    push_char(out, '\n');
    proof {
        reveal_strlit(": ");
    }
    let ghost head = out@;
    assert(head =~= old(out)@ + date_text(t.date) + seq![':', ' '] + t.description + seq!['\n']);
    let mut i: usize = 0;
    assert(tag_views(transaction.tags@).take(0) =~= Seq::<(Seq<char>, Seq<char>)>::empty());
    while i < transaction.tags.len()
        invariant
            i <= transaction.tags@.len(),
            t == transaction@,
            out@ == head + tag_lines(tag_views(transaction.tags@).take(i as int)),
        decreases transaction.tags@.len() - i,
    {
        let tag = &transaction.tags[i];
        push_str(out, tag.label.as_str());
        push_str(out, ": ");
        push_str(out, tag.value.as_str());
        push_char(out, '\n');
        proof {
            reveal_strlit(": ");
            let ts = tag_views(transaction.tags@);
            assert(ts.take(i + 1).drop_last() =~= ts.take(i as int));
            assert(ts.take(i + 1).last() == tag@);
        }
        assert(out@ =~= head + tag_lines(tag_views(transaction.tags@).take(i + 1)));
        i = i + 1;
    }
    assert(tag_views(transaction.tags@).take(i as int) =~= tag_views(transaction.tags@));
    let ghost mid = out@;
    let mut k: usize = 0;
    assert(mutation_views(transaction.mutations@).take(0) =~= Seq::<(int, Seq<char>)>::empty());
    while k < transaction.mutations.len()
        invariant
            k <= transaction.mutations@.len(),
            t == transaction@,
            out@ == mid + mutation_lines(mutation_views(transaction.mutations@).take(k as int)),
        decreases transaction.mutations@.len() - k,
    {
        let m = &transaction.mutations[k];
        let amount = m.amount.to_string();
        push_str(out, amount.as_str());
        push_char(out, ' ');
        push_str(out, m.account.raw.as_str());
        push_char(out, '\n');
        proof {
            let ms = mutation_views(transaction.mutations@);
            assert(ms.take(k + 1).drop_last() =~= ms.take(k as int));
            assert(ms.take(k + 1).last() == m@);
        }
        assert(out@ =~= mid + mutation_lines(mutation_views(transaction.mutations@).take(k + 1)));
        k = k + 1;
    }
    assert(mutation_views(transaction.mutations@).take(k as int) =~= mutation_views(
        transaction.mutations@,
    ));
    assert(out@ =~= old(out)@ + transaction_text(transaction@));
}

} // verus!
