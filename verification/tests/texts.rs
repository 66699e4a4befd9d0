use chrono::{Datelike, Duration, NaiveDate};
use lppl_new::cmaes_mod::format_with_commas;
use lppl_new::dates::{
    ce_to_date, date_to_ce, epoch_day_text, has_date, ordinal_to_date, time_column, Date,
    EPOCH_DAY, FIRST_YEAR, LAST_YEAR,
};
use lppl_new::text::{
    at_least_two_digits_text, begins_with, chars_of, comes_before, decimal_text, escape_quotes,
    holds_text, join, remove_char, same_text, signed_decimal_text, split_text, unquote,
};

fn date(year: i32, month: u32, day: u32) -> Date {
    Date { year, month, day }
}

#[test]
fn day_numbers_count_from_the_first_year() {
    assert_eq!(date_to_ce(date(1, 1, 1)), 0);
    assert_eq!(date_to_ce(date(1970, 1, 1)), EPOCH_DAY);
    assert_eq!(date_to_ce(date(2000, 3, 10)), 730188);
    assert_eq!(ce_to_date(730188), date(2000, 3, 10));
    assert_eq!(ce_to_date(-1), date(0, 12, 31));
    assert_eq!(ce_to_date(0), date(1, 1, 1));
    assert_eq!(ordinal_to_date(0), date(1970, 1, 1));
    assert_eq!(ordinal_to_date(11016), date(2000, 2, 29));
    assert_eq!(ordinal_to_date(-1), date(1969, 12, 31));
}

#[test]
fn dates_and_day_numbers_give_each_other_back() {
    for n in (-200_000..900_000).step_by(997) {
        let found = ce_to_date(n);
        assert_eq!(date_to_ce(found), n);
        let expected = NaiveDate::from_ymd_opt(1, 1, 1).unwrap() + Duration::days(n);
        assert_eq!(found, date(expected.year(), expected.month(), expected.day()));
        assert!(date_to_ce(ce_to_date(n + 1)) > n);
    }
}

#[test]
fn the_days_that_have_a_date_are_known() {
    let first = date_to_ce(date(FIRST_YEAR, 1, 1));
    let last = date_to_ce(date(LAST_YEAR, 12, 31));
    assert_eq!(ce_to_date(first), date(FIRST_YEAR, 1, 1));
    assert_eq!(ce_to_date(last), date(LAST_YEAR, 12, 31));
    assert!(has_date(first) && has_date(last) && has_date(0));
    assert!(!has_date(first - 1) && !has_date(last + 1));
    assert!(!has_date(i64::MAX) && !has_date(i64::MIN));
}

#[test]
fn dates_print_as_the_calendar_does() {
    assert_eq!(epoch_day_text(0), "1970-01-01");
    assert_eq!(epoch_day_text(20089), "2025-01-01");
    assert_eq!(epoch_day_text(-719163), "0000-12-31");
    let far = NaiveDate::from_ymd_opt(12345, 6, 7).unwrap();
    let days = (far - NaiveDate::from_ymd_opt(1970, 1, 1).unwrap()).num_days() as i32;
    assert_eq!(epoch_day_text(days), far.to_string());
    let early = NaiveDate::from_ymd_opt(-12, 6, 7).unwrap();
    let days = (early - NaiveDate::from_ymd_opt(1970, 1, 1).unwrap()).num_days() as i32;
    assert_eq!(epoch_day_text(days), early.to_string());
}

#[test]
fn a_time_column_keeps_its_gaps() {
    assert_eq!(
        time_column(&vec![Some(0), None, Some(-719162)]),
        vec![Some(719162), None, Some(0)]
    );
}

#[test]
fn figures_are_grouped_by_thousands() {
    assert_eq!(format_with_commas(0, 0), "0.00");
    assert_eq!(format_with_commas(999, 5), "999.05");
    assert_eq!(format_with_commas(1234567, 89), "1,234,567.89");
    assert_eq!(format_with_commas(-1000, 100), "-1,000.100");
    assert_eq!(format_with_commas(i64::MIN, 1), "-9,223,372,036,854,775,808.01");
    assert_eq!(format_with_commas(i64::MAX, 1), "9,223,372,036,854,775,807.01");
}

#[test]
fn numbers_are_written_in_decimal() {
    for n in [0, 9, 10, 99, 100, 12345, u64::MAX] {
        assert_eq!(decimal_text(n), n.to_string());
        assert_eq!(at_least_two_digits_text(n), format!("{:02}", n));
    }
    for n in [0, -1, 7, i64::MIN, i64::MAX] {
        assert_eq!(signed_decimal_text(n), n.to_string());
    }
}

#[test]
fn texts_are_cut_and_put_together() {
    assert_eq!(unquote("\"\"AAPL\""), "AAPL".to_string());
    assert_eq!(unquote("a\"b"), "a\"b");
    assert_eq!(unquote("\"\""), "");
    assert_eq!(remove_char("2025-01-31", '-'), "20250131");
    assert_eq!(escape_quotes("O'Neil''s"), "O''Neil''''s");
    assert_eq!(split_text("fit_LC1_BRK_B", '_'), vec!["fit", "LC1", "BRK", "B"]);
    assert_eq!(split_text("", '_'), vec![""]);
    assert_eq!(split_text("a_", '_'), vec!["a", ""]);
    let parts = vec!["a".to_string(), "b".to_string(), "c".to_string()];
    assert_eq!(join(&parts, ", "), "a, b, c");
    assert_eq!(join(&vec![], ", "), "");
    assert_eq!(chars_of("aé\u{1F4C8}"), vec!['a', 'é', '\u{1F4C8}']);
}

#[test]
fn texts_are_compared_by_their_characters() {
    assert!(same_text("SC1", "SC1") && !same_text("SC1", "SC2"));
    assert!(begins_with("Micro3", "Micro") && !begins_with("MC1", "Micro"));
    assert!(begins_with("SC", "SC") && begins_with("SC", "") && !begins_with("", "S"));
    let list = vec!["LC1".to_string(), "LC2".to_string()];
    assert!(holds_text(&list, "LC2") && !holds_text(&list, "LC"));
    let words = ["", "A", "AA", "AB", "B", "a", "é", "\u{FFFD}", "\u{1F4C8}"];
    for a in words {
        for b in words {
            assert_eq!(comes_before(a, b), a < b, "{} {}", a, b);
        }
    }
}
