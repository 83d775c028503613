use zzp::date::{Date, DateParseError, InvalidDate, Month, Year, YearMonth};
use zzp::partial_date::{ParsePartialDateError, PartialDate};

#[test]
fn test_make_date() {
    assert!(matches!(Date::new(2020, 1, 2), Ok(_)));
    assert!(Date::new(2020, 1, 2).unwrap().year().as_number() == 2020);
    assert!(Date::new(2020, 1, 2).unwrap().month() == Month::January);
    assert!(Date::new(2020, 1, 2).unwrap().day() == 2);

    assert!(matches!(Date::new(2020, 2, 29), Ok(_)));
    assert!(matches!(Date::new(2020, 2, 30), Err(_)));
    assert!(matches!(Date::new(2019, 2, 28), Ok(_)));
    assert!(matches!(Date::new(2019, 2, 29), Err(_)));
}

#[test]
fn test_next_date() {
    assert!(Date::new(2020, 1, 2).unwrap().next() == Date::new(2020, 1, 3).unwrap());
    assert!(Date::new(2020, 1, 31).unwrap().next() == Date::new(2020, 2, 1).unwrap());
    assert!(Date::new(2020, 12, 31).unwrap().next() == Date::new(2021, 1, 1).unwrap());
}

#[test]
fn test_parse_date() {
    assert!(Date::from_str("2020-01-02").unwrap().year().as_number() == 2020);
    assert!(Date::from_str("2020-01-02").unwrap().month() == Month::January);
    assert!(Date::from_str("2020-01-02").unwrap().day() == 2);
    assert!(matches!(Date::from_str("not-a-date"), Err(DateParseError::InvalidDateSyntax(_))));
    assert!(matches!(Date::from_str("2019-30-12"), Err(DateParseError::InvalidDate(_))));
}

#[test]
fn test_is_leap_year() {
    assert!(Year::new(2020).has_leap_day() == true);
    assert!(Year::new(2021).has_leap_day() == false);
    assert!(Year::new(1900).has_leap_day() == false);
    assert!(Year::new(2000).has_leap_day() == true);
}

#[test]
fn prev_undoes_next_across_rollovers() {
    let cases = [(2020, 1, 31), (2020, 12, 31), (2020, 2, 28), (2020, 2, 29), (2019, 2, 28), (2021, 6, 15)];
    for (y, m, d) in cases {
        let date = Date::new(y, m, d).unwrap();
        assert_eq!(date.next().prev(), date);
        assert_eq!(date.prev().next(), date);
    }
    assert_eq!(Date::new(2020, 1, 31).unwrap().next(), Date::new(2020, 2, 1).unwrap());
    assert_eq!(Date::new(2021, 1, 1).unwrap().prev(), Date::new(2020, 12, 31).unwrap());
    assert_eq!(Date::new(2020, 3, 1).unwrap().prev(), Date::new(2020, 2, 29).unwrap());
    assert_eq!(Date::new(2019, 3, 1).unwrap().prev(), Date::new(2019, 2, 28).unwrap());
}

#[test]
fn date_text_round_trip() {
    let date = Date::new(2020, 3, 7).unwrap();
    assert_eq!(date.to_string(), "2020-03-07");
    assert_eq!(Date::from_str(&date.to_string()), Ok(date));
    let early = Date::new(33, 12, 31).unwrap();
    assert_eq!(early.to_string(), "0033-12-31");
    assert_eq!(Date::from_str(&early.to_string()), Ok(early));
    assert_eq!(Date::new(-5, 1, 1).unwrap().to_string(), "-005-01-01");
}

#[test]
fn date_errors_tell_month_from_day() {
    assert!(matches!(Date::new(2020, 13, 1), Err(InvalidDate::InvalidMonthNumber(_))));
    assert!(matches!(Date::new(2020, 0, 1), Err(InvalidDate::InvalidMonthNumber(_))));
    assert!(matches!(Date::new(2020, 4, 31), Err(InvalidDate::InvalidDayForMonth(_))));
    assert!(matches!(Date::new(2020, 4, 0), Err(InvalidDate::InvalidDayForMonth(_))));
    assert!(matches!(Date::from_str("2020-01"), Err(DateParseError::InvalidDateSyntax(_))));
    assert!(matches!(Date::from_str("2020-1x-01"), Err(DateParseError::InvalidDateSyntax(_))));
    assert!(matches!(Date::from_str("2020-02-30"), Err(DateParseError::InvalidDate(_))));
    assert_eq!(Date::from_str("+2020-1-2"), Date::new(2020, 1, 2).map_err(DateParseError::InvalidDate));
}

#[test]
fn month_days_and_wrapping() {
    assert_eq!(Year::new(2020).with_month(Month::February).total_days(), 29);
    assert_eq!(Year::new(2021).with_month(Month::February).total_days(), 28);
    assert_eq!(Year::new(2021).with_month(Month::April).total_days(), 30);
    assert_eq!(Year::new(2021).with_month(Month::August).total_days(), 31);
    assert_eq!(Month::December.wrapping_next(), Month::January);
    assert_eq!(Month::January.wrapping_prev(), Month::December);
    assert_eq!(Month::new(7).unwrap().as_number(), 7);
    assert!(Month::new(13).is_err());
    assert_eq!(YearMonth::new(Year::new(2020), Month::December).next(), YearMonth::new(Year::new(2021), Month::January));
    assert_eq!(Year::new(2020).last_day(), Date::new(2020, 12, 31).unwrap());
    assert_eq!(Year::new(2020).first_month().last_day(), Date::new(2020, 1, 31).unwrap());
}

#[test]
fn partial_dates() {
    let year = PartialDate::from_str("2020").unwrap();
    let range = year.as_range();
    assert_eq!(range.start, Date::new(2020, 1, 1).unwrap());
    assert_eq!(range.end, Date::new(2021, 1, 1).unwrap());
    let month = PartialDate::from_str("2020-02").unwrap();
    assert_eq!(month.as_range().end, Date::new(2020, 3, 1).unwrap());
    assert_eq!(month.as_end_date(), Date::new(2020, 2, 29).unwrap());
    let day = PartialDate::from_str("2020-12-31").unwrap();
    assert_eq!(day.as_range().end, Date::new(2021, 1, 1).unwrap());
    assert!(matches!(PartialDate::from_str("20x0"), Err(ParsePartialDateError::InvalidSyntax(_))));
    assert!(matches!(PartialDate::from_str("2020-13"), Err(ParsePartialDateError::InvalidDate(_))));
    assert!(matches!(PartialDate::from_str("2020-02-30"), Err(ParsePartialDateError::InvalidDate(_))));
}

#[test]
fn ledger_date_helpers() {
    let d = Date::from_parts(2020, 2, 10).unwrap();
    assert_eq!(d, Date::new(2020, 2, 10).unwrap());
    assert!(Date::from_parts(2020, 2, 30).is_err());
    assert_eq!(Date::from_parts(40000, 1, 1).unwrap().to_string(), "40000-01-01");
    assert_eq!(Date::from_parts(i32::MAX, 12, 31).unwrap().year().as_number(), i32::MAX);
    assert_eq!(Date::parse_from_str("40000-12-31").unwrap().next_day(), Date::from_parts(40001, 1, 1).unwrap());
    assert!(Date::from_parts(2020, 0, 1).is_err());
    assert!(d.is_leap_year());
    assert_eq!(d.last_day_of_month(), Date::new(2020, 2, 29).unwrap());
    assert_eq!(d.last_day_of_year(), Date::new(2020, 12, 31).unwrap());
    assert_eq!(d.first_day_next_month(), Date::new(2020, 3, 1).unwrap());
    assert_eq!(Date::new(2020, 12, 5).unwrap().first_day_next_month(), Date::new(2021, 1, 1).unwrap());
    assert_eq!(d.first_day_next_year(), Date::new(2021, 1, 1).unwrap());
    assert_eq!(Date::new(2020, 2, 29).unwrap().next_day(), Date::new(2020, 3, 1).unwrap());
    assert!(zzp::date::is_leap_year(2000));
    assert!(!zzp::date::is_leap_year(1900));
    assert!(zzp::date::is_leap_year(-4));
    assert_eq!(zzp::date::days_in_month(2, true), 29);
    assert_eq!(zzp::date::days_in_month(2, false), 28);
    assert_eq!(zzp::date::days_in_month(9, false), 30);
    assert_eq!(zzp::date::days_in_month(12, false), 31);
}

#[test]
fn ledger_date_text() {
    assert_eq!(Date::parse_from_str("2020-01-02"), Ok(Date::new(2020, 1, 2).unwrap()));
    assert_eq!(Date::parse_from_str("2020-02-30"), Err(()));
    assert_eq!(Date::parse_from_str("2020-01"), Err(()));
}

#[test]
fn date_errors_carry_their_numbers() {
    match Date::new(2020, 13, 1) {
        Err(InvalidDate::InvalidMonthNumber(e)) => assert_eq!(e.number, 13),
        other => panic!("unexpected {:?}", other),
    }
    match Date::from_str("2019-02-29") {
        Err(DateParseError::InvalidDate(InvalidDate::InvalidDayForMonth(e))) => {
            assert_eq!(e.year.as_number(), 2019);
            assert_eq!(e.month, Month::February);
            assert_eq!(e.day, 29);
        }
        other => panic!("unexpected {:?}", other),
    }
}
