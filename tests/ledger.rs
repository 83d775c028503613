use zzp::ledger::{write_full, Account, Cents, Mutation, Transaction};
use zzp::parse::{
    InvalidMutationDetails, InvalidTagDetails, InvalidTransactionHeaderDetails, ParseError,
    ParseErrorDetails,
};
use zzp::tree::{balance, balances_fit, compute_totals, find_unbalanced, try_compute_totals, Tree};

fn parse(text: &str) -> Result<Vec<Transaction>, ParseError> {
    Transaction::parse_from_str(text)
}

fn error_of(text: &str) -> ParseError {
    parse(text).unwrap_err()
}

fn node<'a>(tree: &'a Tree, path: &str) -> &'a zzp::tree::Node {
    tree.nodes[1..].iter().find(|n| n.account.raw == path).unwrap()
}

#[test]
fn parses_one_transaction() {
    let txs = parse("2020-01-02: buy coffee\n+1.50 assets/cash\n-1.50 expenses/coffee\n").unwrap();
    assert_eq!(txs.len(), 1);
    let t = &txs[0];
    assert_eq!(t.date.to_string(), "2020-01-02");
    assert_eq!(t.description, "buy coffee");
    assert_eq!(t.mutations.len(), 2);
    assert_eq!(t.mutations[0].amount, Cents(150));
    assert_eq!(t.mutations[0].account.raw, "assets/cash");
    assert_eq!(t.mutations[1].amount, Cents(-150));
    assert_eq!(balance(t), Cents(0));
}

#[test]
fn parses_blocks_comments_and_tags() {
    let text = "# ledger\n\n2020-01-02: one\ninvoice: 12\n# note\n+1 a\n-1 b\n\n\n2020-01-03 : two  \n  +2.05 c/d\n";
    let txs = parse(text).unwrap();
    assert_eq!(txs.len(), 2);
    assert_eq!(txs[0].tags.len(), 1);
    assert_eq!(txs[0].tags[0].label, "invoice");
    assert_eq!(txs[0].tags[0].value, "12");
    assert_eq!(txs[0].mutations[0].amount, Cents(100));
    assert_eq!(txs[1].description, "two");
    assert_eq!(txs[1].mutations[0].amount, Cents(205));
    assert_eq!(txs[1].mutations[0].account.raw, "c/d");
    assert!(parse("").unwrap().is_empty());
    assert!(parse("\n# only a comment\n\n").unwrap().is_empty());
}

#[test]
fn header_without_colon_fails() {
    let e = error_of("no colon here");
    assert_eq!(e.details, ParseErrorDetails::InvalidTransactionHeader(InvalidTransactionHeaderDetails::MissingDescription));
    assert_eq!(e.token, "no colon here");
    let e = error_of("2020-01-02:   \n+1 a\n");
    assert_eq!(e.details, ParseErrorDetails::InvalidTransactionHeader(InvalidTransactionHeaderDetails::MissingDescription));
    let e = error_of("2020-02-30: bad day\n");
    assert_eq!(e.details, ParseErrorDetails::InvalidTransactionHeader(InvalidTransactionHeaderDetails::InvalidDate));
    assert_eq!(e.token, "2020-02-30");
}

#[test]
fn mutation_errors_carry_their_token() {
    let e = error_of("2020-01-02: x\n5.00 assets/cash\n");
    assert_eq!(e.details, ParseErrorDetails::InvalidMutation(InvalidMutationDetails::MissingSign));
    assert_eq!(e.token, "5.00");
    let e = error_of("2020-01-02: x\n+5.00\n");
    assert_eq!(e.details, ParseErrorDetails::InvalidMutation(InvalidMutationDetails::MissingAccount));
    assert_eq!(e.token, "+5.00");
    let e = error_of("2020-01-02: x\n+5.0 a\n");
    assert_eq!(e.details, ParseErrorDetails::InvalidMutation(InvalidMutationDetails::InvalidAmount));
    assert_eq!(e.token, "+5.0");
    let e = error_of("2020-01-02: x\n-abc a\n");
    assert_eq!(e.details, ParseErrorDetails::InvalidMutation(InvalidMutationDetails::InvalidAmount));
    let e = error_of("2020-01-02: x\n+-5.00 a\n");
    assert_eq!(e.details, ParseErrorDetails::InvalidMutation(InvalidMutationDetails::InvalidAmount));
    assert_eq!(e.token, "+-5.00");
    let e = error_of("2020-01-02: x\n+1.+5 a\n");
    assert_eq!(e.details, ParseErrorDetails::InvalidMutation(InvalidMutationDetails::InvalidAmount));
    let e = error_of("2020-01-02: x\n+99999999 a\n");
    assert_eq!(e.details, ParseErrorDetails::InvalidMutation(InvalidMutationDetails::InvalidAmount));
}

#[test]
fn tag_after_mutation_fails() {
    let e = error_of("2020-01-02: x\n+1 a\nlabel: value\n-1 b\n");
    assert_eq!(e.details, ParseErrorDetails::InvalidTag(InvalidTagDetails::TagAfterMutation));
    assert_eq!(e.token, "label: value");
    let e = error_of("2020-01-02: x\nbad label: value\n");
    assert_eq!(e.details, ParseErrorDetails::InvalidMutation(InvalidMutationDetails::MissingSign));
    assert_eq!(e.token, "bad");
    let txs = parse("2020-01-02: x\n+1.00 assets:cash\n-1.00 b\n").unwrap();
    assert_eq!(txs[0].mutations[0].account.raw, "assets:cash");
    assert!(txs[0].tags.is_empty());
    match zzp::ledger::Tag::parse_from_str(&"bad label: value".chars().collect()) {
        Some(Err(e)) => {
            assert_eq!(e.details, ParseErrorDetails::InvalidTag(InvalidTagDetails::InvalidLabel));
            assert_eq!(e.token, "bad label");
        }
        _ => panic!("expected an invalid label"),
    }
}

#[test]
fn single_lines() {
    let m = Mutation::parse_from_str(&"-12.34 assets/bank".chars().collect()).unwrap();
    assert_eq!(m.amount, Cents(-1234));
    assert_eq!(m.account.raw, "assets/bank");
    assert_eq!(Cents::parse_from_str(&"7".chars().collect()), Ok(Cents(700)));
    assert_eq!(Cents::parse_from_str(&"7.5".chars().collect()), Err(()));
    assert!(zzp::ledger::Tag::parse_from_str(&"no tag".chars().collect()).is_none());
}

#[test]
fn unbalanced_transactions_are_found() {
    let txs = parse("2020-01-02: half\n+10.00 a\n-5.00 b\n\n2020-01-03: even\n+1 a\n-1 b\n").unwrap();
    assert!(balances_fit(&txs));
    let found = find_unbalanced(txs.clone());
    assert_eq!(found.len(), 1);
    assert_eq!(found[0].0.description, "half");
    assert_eq!(found[0].1, Cents(500));
    assert_eq!(found[0].1.to_string(), "+5.00");
}

#[test]
fn account_paths() {
    let abc = Account::from_raw("a/b/c");
    assert!(abc.matches_prefix("a/b"));
    assert!(abc.matches_prefix("a/b/"));
    assert!(abc.matches_prefix("a/b/c"));
    assert!(!abc.matches_prefix("a/bc"));
    assert!(!Account::from_raw("a/bc").matches_prefix("a/b"));
    assert_eq!(Account::from_raw("a/b").parent().unwrap().raw, "a");
    assert!(Account::from_raw("a").parent().is_none());
    assert_eq!(abc.name(), "c");
    assert_eq!(Account::from_raw("a").name(), "a");
    let walk: Vec<String> = abc.walk_nodes().into_iter().map(|n| n.raw).collect();
    assert_eq!(walk, ["a", "a/b", "a/b/c"]);
    let mut parents = abc.parents();
    assert_eq!(parents.next().unwrap().raw, "a/b");
    assert_eq!(parents.next().unwrap().raw, "a");
    assert!(parents.next().is_none());
    assert_eq!(abc.common_parent(&Account::from_raw("a/b/d")).unwrap().raw, "a/b");
    assert_eq!(abc.common_parent(&Account::from_raw("a/x")).unwrap().raw, "a");
    assert!(abc.common_parent(&Account::from_raw("x/y")).is_none());
    assert_eq!(abc.as_str(), "a/b/c");
}

#[test]
fn mutates_account_by_prefix() {
    let txs = parse("2020-01-02: x\n+1 assets/cash\n-1 income/work\n").unwrap();
    assert!(txs[0].mutates_account("assets"));
    assert!(txs[0].mutates_account("income/work"));
    assert!(!txs[0].mutates_account("inc"));
}

#[test]
fn aggregation_tree() {
    let mut tree = Tree::new();
    tree.insert(&Account::from_raw("a/b"), Cents(100));
    tree.insert(&Account::from_raw("a/c"), Cents(50));
    let a = node(&tree, "a");
    assert_eq!(a.total, Cents(150));
    assert_eq!(a.own, Cents(0));
    let ab = node(&tree, "a/b");
    assert_eq!(ab.total, Cents(100));
    assert_eq!(ab.own, Cents(100));
    assert_eq!(tree.nodes[0].total, Cents(150));
    assert_eq!(tree.nodes[0].children.len(), 1);
    assert_eq!(a.children.len(), 2);
}

#[test]
fn totals_of_a_ledger() {
    let txs = parse("2020-01-02: x\n+3 a/b\n-1 a\n-2 c\n\n2020-01-03: y\n+5 a/b/d\n").unwrap();
    let tree = compute_totals(&txs);
    assert_eq!(tree.nodes[0].total, Cents(500));
    assert_eq!(node(&tree, "a").total, Cents(700));
    assert_eq!(node(&tree, "a").own, Cents(-100));
    assert_eq!(node(&tree, "a/b").total, Cents(800));
    assert_eq!(node(&tree, "a/b").own, Cents(300));
    assert_eq!(node(&tree, "c").total, Cents(-200));
    assert_eq!(tree.nodes.len(), 5);
}

#[test]
fn writes_transactions_as_text() {
    let text = "2020-01-02: buy coffee\nshop: corner\n+1.50 assets/cash\n-0.05 expenses/coffee\n";
    let txs = parse(text).unwrap();
    let mut out = String::new();
    write_full(&mut out, &txs[0]);
    assert_eq!(out, text);
    assert_eq!(Cents(-150).to_string(), "-1.50");
    assert_eq!(Cents(0).to_string(), "+0.00");
    assert!(Cents(-1).is_negative());
    assert_eq!(Cents(42).total_cents(), 42);
}

#[test]
fn report_rows() {
    let txs = parse("2020-01-02: x\n+3 a/b\n-1 a/c\n-2 d\n").unwrap();
    let tree = compute_totals(&txs);
    let rows: Vec<(String, String, i32)> = tree
        .totals_rows()
        .into_iter()
        .map(|r| (r.prefix, r.name, r.total.total_cents()))
        .collect();
    assert_eq!(
        rows,
        [
            ("\u{251c}\u{2500}".to_string(), "a".to_string(), 200),
            ("\u{2502}  \u{251c}\u{2500}".to_string(), "b".to_string(), 300),
            ("\u{2502}  \u{2514}\u{2500}".to_string(), "c".to_string(), -100),
            ("\u{2514}\u{2500}".to_string(), "d".to_string(), -200),
        ]
    );
    let flat: Vec<(i32, String)> = tree.own_rows(true).into_iter().map(|(c, p)| (c.total_cents(), p)).collect();
    assert_eq!(flat, [(0, "a".to_string()), (300, "a/b".to_string()), (-100, "a/c".to_string()), (-200, "d".to_string())]);
    let mut zero = Tree::new();
    zero.insert(&Account::from_raw("x/y"), Cents(0));
    let flat: Vec<String> = zero.own_rows(true).into_iter().map(|(_, p)| p).collect();
    assert_eq!(flat, ["x"]);
    assert_eq!(zero.own_rows(false).len(), 2);
}

#[test]
fn large_ledgers_whose_sums_fit() {
    let text = "2020-01-02: big\n+20000000.00 a\n-20000000.00 b\n\n2020-01-03: back\n-20000000.00 a\n+20000000.00 b\n";
    let txs = parse(text).unwrap();
    assert!(balances_fit(&txs));
    assert!(find_unbalanced(txs.clone()).is_empty());
    let tree = try_compute_totals(&txs).unwrap();
    assert_eq!(tree.nodes[0].total, Cents(0));
    assert_eq!(node(&tree, "a").total, Cents(0));
    assert_eq!(node(&tree, "b").own, Cents(0));
    assert_eq!(compute_totals(&txs).nodes.len(), 3);
    let over = parse("2020-01-02: big\n+20000000.00 a\n\n2020-01-03: big\n+20000000.00 a\n").unwrap();
    assert!(try_compute_totals(&over).is_none());
    assert!(balances_fit(&over));
}

#[test]
fn ledger_years_beyond_calendar_text() {
    let txs = parse("40000-01-02: far ahead\n+1 a\n-1 b\n").unwrap();
    assert_eq!(txs[0].date.year().as_number(), 40000);
    assert_eq!(txs[0].date.day(), 2);
}
