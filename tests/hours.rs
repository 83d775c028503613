use zzp::entry::{Entry, EntryParseError};
use zzp::hours::Hours;

#[test]
fn hours_test_parse_hours() {
    assert!(matches!(Hours::from_str(""), Err(_)));
    assert!(matches!(Hours::from_str("10"), Err(_)));
    assert!(matches!(Hours::from_str("10h 50m"), Err(_)));
    assert!(Hours::from_str("10h") == Ok(Hours::from_hours_minutes(10, 0)));
    assert!(Hours::from_str("11h30m") == Ok(Hours::from_hours_minutes(11, 30)));
    assert!(Hours::from_str("12h70m") == Ok(Hours::from_hours_minutes(13, 10)));
}

#[test]
fn test_add() {
    assert!(Hours::from_minutes(1).add(Hours::from_minutes(1)) == Hours::from_minutes(2));
    assert!((&Hours::from_minutes(1)).add(*&Hours::from_minutes(1)) == Hours::from_minutes(2));
    assert!(Hours::from_minutes(90).add(Hours::from_minutes(123)) == Hours::from_minutes(213));
    assert!((&Hours::from_minutes(90)).add(*&Hours::from_minutes(123)) == Hours::from_minutes(213));

    let mut hours = Hours::from_minutes(1);
    hours.add_assign(Hours::from_minutes(1));
    assert!(hours.total_minutes() == 2);
    hours.add_assign(*&Hours::from_minutes(1));
    assert!(hours.total_minutes() == 3);
    hours.add_assign(Hours::from_minutes(87));
    assert!(hours.total_minutes() == 90);
    hours.add_assign(*&Hours::from_minutes(123));
    assert!(hours.total_minutes() == 213);
}

#[test]
fn hours_text_and_parts() {
    assert_eq!(Hours::from_str("45m").unwrap().total_minutes(), 45);
    assert_eq!(Hours::from_minutes(185).to_string(), "3h05m");
    assert_eq!(Hours::from_minutes(7).to_string(), "07m");
    assert_eq!(Hours::from_minutes(185).hours(), 3);
    assert_eq!(Hours::from_minutes(185).minutes(), 5);
    assert!(Hours::from_str("99999999h").is_err());
    assert_eq!(Hours::from_str("x").unwrap_err().data, "x");
}

#[test]
fn test_parse_entry_ok() {
    let parsed = Entry::from_str("2020-01-02, 10h12m, [one][two] [three] goofing around");
    assert!(matches!(parsed, Ok(_)));
    let parsed = parsed.unwrap();
    assert!(parsed.date.year().as_number() == 2020);
    assert!(parsed.date.month() == zzp::date::Month::January);
    assert!(parsed.date.day() == 2);
    assert!(parsed.date.day() == 2);
    assert!(parsed.hours.total_minutes() == 612);
    assert!(parsed.tags == &["one", "two", "three"]);
    assert!(parsed.description == "goofing around");
}

#[test]
fn test_parse_not_ok() {
    assert!(matches!(Entry::from_str("20m, stabbing co-workers"), Err(EntryParseError::InvalidEntrySyntax(_))));
    assert!(matches!(Entry::from_str("when was this again?, 1h30m, swapping production and test environment"), Err(EntryParseError::DateParseError(_))));
    assert!(matches!(Entry::from_str("2020-01-01, 17hhh20mmm, wrokking onnnn new yeaarss *hiccup*"), Err(EntryParseError::HoursParseError(_))));
}

#[test]
fn entry_with_unclosed_tag() {
    match Entry::from_str("2020-01-02, 1h, [one] [two goofing") {
        Err(EntryParseError::UnclosedTag(u)) => assert_eq!(u.data, "[two goofing"),
        other => panic!("unexpected {:?}", other),
    }
}

#[test]
fn hour_log_files() {
    let data = b"# log\n2020-01-02, 1h, [a] one\n\n2020-01-03, 30m, two\n";
    let entries = zzp::hour_log::parse_bytes(data).unwrap();
    assert_eq!(entries.len(), 2);
    assert_eq!(entries[0].tags, ["a"]);
    assert_eq!(entries[1].hours.total_minutes(), 30);
    let e = zzp::hour_log::parse_bytes(b"2020-01-02, 1h, ok\nnonsense\n").unwrap_err();
    assert_eq!(e.line, 2);
    assert!(matches!(e.error, EntryParseError::InvalidEntrySyntax(_)));
    let e = zzp::hour_log::parse_bytes(b"2020-01-02, 1h, ok\n\xff\n").unwrap_err();
    assert_eq!(e.line, 1);
    assert_eq!(e.error, EntryParseError::InvalidUtf8);
    assert!(matches!(Entry::from_bytes(b"\xc3"), Err(EntryParseError::InvalidUtf8)));
    assert_eq!(Entry::from_bytes("2020-01-02, 5m, caf\u{e9}".as_bytes()).unwrap().description, "caf\u{e9}");
}

#[test]
fn localized_dates() {
    let names = ["januari", "februari", "maart", "april", "mei", "juni", "juli", "augustus", "september", "oktober", "november", "december"];
    let l = zzp::localization::DateLocalization {
        january: names[0].into(),
        february: names[1].into(),
        march: names[2].into(),
        april: names[3].into(),
        may: names[4].into(),
        june: names[5].into(),
        july: names[6].into(),
        august: names[7].into(),
        september: names[8].into(),
        october: names[9].into(),
        november: names[10].into(),
        december: names[11].into(),
    };
    let date = zzp::date::Date::new(2020, 3, 7).unwrap();
    assert_eq!(zzp::localization::format_date(date, &l), "7 maart 2020");
    assert_eq!(zzp::localization::format_month(zzp::date::Month::December, &l), "december");
}
