#![allow(deprecated)]

use chrono::{Datelike, NaiveDate};
use travel_planner::handle_inconsistent_dates::{
    flexible_date_parse, is_year, month_from_letters, month_from_name, month_of_field,
    parse_number, read_date_parts, split_fields,
};

#[test]
fn ymd_hyphen() {
    assert_eq!(
        flexible_date_parse("2010-12-11"),
        Some(NaiveDate::from_ymd(2010, 12, 11))
    )
}

#[test]
fn ymd_slash() {
    assert_eq!(
        flexible_date_parse("1999/Mar/02"),
        Some(NaiveDate::from_ymd(1999, 3, 2))
    )
}

#[test]
fn dmy_dot() {
    assert_eq!(
        flexible_date_parse("01.Mar.2021"),
        Some(NaiveDate::from_ymd(2021, 3, 1))
    )
}

#[test]
fn mdy_dot() {
    assert_eq!(
        flexible_date_parse("Apr.05.2021"),
        Some(NaiveDate::from_ymd(2021, 4, 5))
    )
}

#[test]
fn invalid() {
    assert_eq!(flexible_date_parse("not a date"), None)
}

#[test]
fn date_holds_the_parts_that_were_read() {
    let date = flexible_date_parse("  2024 feb 29 ").unwrap();
    assert_eq!((date.year(), date.month(), date.day()), (2024, 2, 29));
}

#[test]
fn days_that_the_calendar_lacks_are_no_dates() {
    assert_eq!(read_date_parts("2023-02-29"), Some((2023, 2, 29)));
    assert_eq!(flexible_date_parse("2023-02-29"), None);
    assert_eq!(flexible_date_parse("2024-02-29"), NaiveDate::from_ymd_opt(2024, 2, 29));
    assert_eq!(flexible_date_parse("1900-02-29"), None);
    assert_eq!(flexible_date_parse("2000-02-29"), NaiveDate::from_ymd_opt(2000, 2, 29));
    assert_eq!(flexible_date_parse("2021-04-31"), None);
    assert_eq!(flexible_date_parse("2021-04-30"), NaiveDate::from_ymd_opt(2021, 4, 30));
    assert_eq!(flexible_date_parse("2021-13-01"), None);
    assert_eq!(flexible_date_parse("2021-00-01"), None);
    assert_eq!(flexible_date_parse("2021-01-00"), None);
    assert_eq!(flexible_date_parse("2021-01-32"), None);
    assert_eq!(flexible_date_parse("0000-01-01"), NaiveDate::from_ymd_opt(0, 1, 1));
}

#[test]
fn parts_of_a_date() {
    assert_eq!(read_date_parts("2010-12-11"), Some((2010, 12, 11)));
    assert_eq!(read_date_parts("1999/Mar/02"), Some((1999, 3, 2)));
    assert_eq!(read_date_parts("Apr.05.2021"), Some((2021, 4, 5)));
    assert_eq!(read_date_parts("JULY 5 2001"), Some((2001, 7, 5)));
    assert_eq!(read_date_parts("12 11 2010"), Some((2010, 12, 11)));
    assert_eq!(read_date_parts("+7.2019.+08"), Some((2019, 7, 8)));
}

#[test]
fn a_date_without_a_day_means_the_first() {
    assert_eq!(read_date_parts("2021-03"), Some((2021, 3, 1)));
    assert_eq!(read_date_parts("September 1985"), Some((1985, 9, 1)));
    // A field that is no number, read after the month is known, forgets the day.
    assert_eq!(read_date_parts("01.Mar.2021"), Some((2021, 3, 1)));
    assert_eq!(read_date_parts("17.Mar.2021"), Some((2021, 3, 1)));
    assert_eq!(read_date_parts("5 JULY 2001"), Some((2001, 7, 1)));
    assert_eq!(read_date_parts("2021-03-17-"), Some((2021, 3, 1)));
}

#[test]
fn a_date_needs_a_year_and_a_month() {
    assert_eq!(read_date_parts(""), None);
    assert_eq!(read_date_parts("March"), None);
    assert_eq!(read_date_parts("March 12"), None);
    assert_eq!(read_date_parts("2021"), None);
    assert_eq!(read_date_parts("12-11"), None);
    assert_eq!(read_date_parts("2021-x"), None);
    assert_eq!(read_date_parts("20211-03-04"), None);
    // White space around the text is passed over by `flexible_date_parse` only.
    assert_eq!(read_date_parts("2021-03-04 "), Some((2021, 3, 1)));
    assert_eq!(flexible_date_parse("2021-03-04 "), NaiveDate::from_ymd_opt(2021, 3, 4));
}

#[test]
fn the_last_year_wins() {
    assert_eq!(read_date_parts("1999-2005-03-04"), Some((2005, 3, 4)));
}

#[test]
fn years_are_four_digits() {
    assert!(is_year("2021"));
    assert!(is_year("0000"));
    assert!(!is_year("202"));
    assert!(!is_year("20211"));
    assert!(!is_year("20a1"));
    assert!(!is_year("+202"));
    assert!(!is_year(""));
    assert!(!is_year("٢٠٢١"));
    assert!(!is_year("éé"));
}

#[test]
fn numbers_are_read_as_the_standard_library_reads_them() {
    let cases = [
        "", "0", "7", "007", "+7", "+", "++7", "-7", "-0", " 7", "7 ", "12a", "a12", "4294967295",
        "4294967296", "+4294967295", "99999999999999999999999", "0000000000000000000000012",
        "٣", "1_000", "1.5", "0x10",
    ];
    for case in cases {
        assert_eq!(parse_number(case), case.parse::<u32>().ok(), "{:?}", case);
    }
    assert_eq!(parse_number("4294967295"), Some(u32::MAX));
    assert_eq!(parse_number("4294967296"), None);
}

#[test]
fn fields_are_cut_as_the_standard_library_cuts_them() {
    let cases = ["", "a", "2010-12-11", "a/b.c d", "--", "a-", "-a", " . ", "1999/Mar/02", "é-ü"];
    for case in cases {
        let expected: Vec<String> =
            case.split(['/', '-', '.', ' ']).map(|field| field.to_string()).collect();
        assert_eq!(split_fields(case), expected, "{:?}", case);
    }
    assert_eq!(split_fields("a--b"), vec!["a".to_string(), "".to_string(), "b".to_string()]);
}

#[test]
fn months_by_name() {
    let names = ["jan", "feb", "mar", "apr", "may", "jun", "jul", "aug", "sep", "oct", "nov", "dec"];
    for (i, name) in names.iter().enumerate() {
        let letters: Vec<char> = name.chars().collect();
        assert_eq!(month_from_letters(letters[0], letters[1], letters[2]), Some(i as u32 + 1));
        assert_eq!(month_from_name(name), Some(i as u32 + 1));
    }
    assert_eq!(month_from_letters('j', 'a', 'm'), None);
    assert_eq!(month_from_letters('J', 'a', 'n'), None);
    assert_eq!(month_from_name("january"), Some(1));
    assert_eq!(month_from_name("ja"), None);
    assert_eq!(month_from_name(""), None);
    assert_eq!(month_from_name("xjan"), None);
}

#[test]
fn month_names_in_any_case() {
    assert_eq!(month_of_field("March"), Some(3));
    assert_eq!(month_of_field("MAR"), Some(3));
    assert_eq!(month_of_field("mArch"), Some(3));
    assert_eq!(month_of_field("Decembre"), Some(12));
    assert_eq!(month_of_field("Ma"), None);
    assert_eq!(month_of_field("12"), None);
    assert_eq!(month_of_field("Mond"), None);
    // Fields whose lower-case form is shorter than three letters name no month.
    assert_eq!(month_of_field("\u{212a}"), None);
    assert_eq!(month_of_field("ééa"), None);
}
