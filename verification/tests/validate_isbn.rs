use travel_planner::validate_isbn::{calculate_check_digit, InvalidIsbn, Isbn};

#[test]
fn can_correctly_calculate_check_digits() {
    let cases = [
        ([9_u8, 7, 8, 1, 8, 6, 1, 9, 7, 8, 7, 6], 9_u8),
        ([9_u8, 7, 8, 3, 1, 6, 1, 4, 8, 4, 1, 0], 0_u8),
    ];

    for (case, check) in cases.iter() {
        let actual = calculate_check_digit(case);
        println!("{:?} -> {}?  {}", &case, check, actual);
        assert_eq!(calculate_check_digit(case), *check)
    }
}

#[test]
fn rust_in_action() {
    let _: Isbn = "978-3-16-148410-0".parse().unwrap();
}

#[test]
fn check_digit_by_hand() {
    // 9 + 3*7 + 8 + 3*0 + 3 + 3*0 + 6 + 3*4 + 0 + 3*6 + 1 + 3*5 = 93
    assert_eq!(calculate_check_digit(&[9, 7, 8, 0, 3, 0, 6, 4, 0, 6, 1, 5]), 7);
    assert_eq!(calculate_check_digit(&[0; 12]), 0);
    assert_eq!(calculate_check_digit(&[1, 0, 0, 0, 0, 0, 0, 0, 0, 0, 0, 0]), 9);
    assert_eq!(calculate_check_digit(&[0, 1, 0, 0, 0, 0, 0, 0, 0, 0, 0, 0]), 7);
}

#[test]
fn isbn_keeps_its_text_and_digits() {
    let isbn = Isbn::from_str("978-3-16-148410-0").unwrap();
    assert_eq!(isbn.to_string(), "978-3-16-148410-0");
    assert_eq!(isbn.digits(), &vec![9, 7, 8, 3, 1, 6, 1, 4, 8, 4, 1, 0, 0]);
    let plain = Isbn::from_str("9781861978769").unwrap();
    assert_eq!(plain.to_string(), "9781861978769");
    let dashed = Isbn::from_str("--9781861978769--").unwrap();
    assert_eq!(dashed.digits(), plain.digits());
}

#[test]
fn isbn_with_a_wrong_check_digit() {
    assert!(matches!(Isbn::from_str("978-3-16-148410-1"), Err(InvalidIsbn::FailedChecksum)));
}

#[test]
fn isbn_with_too_few_digits() {
    assert!(matches!(Isbn::from_str("978-3-16-148410"), Err(InvalidIsbn::TooShort)));
    assert!(matches!(Isbn::from_str(""), Err(InvalidIsbn::TooShort)));
    assert!(matches!(Isbn::from_str("---"), Err(InvalidIsbn::TooShort)));
}

#[test]
fn isbn_with_too_many_digits() {
    assert!(matches!(Isbn::from_str("978-3-16-148410-00"), Err(InvalidIsbn::TooLong)));
}

#[test]
fn isbn_with_a_stray_character() {
    assert!(matches!(
        Isbn::from_str("978-3-16-14841x-0"),
        Err(InvalidIsbn::InvalidCharacter(14, 'x'))
    ));
    assert!(matches!(Isbn::from_str(" 9783161484100"), Err(InvalidIsbn::InvalidCharacter(0, ' '))));
    // The first stray character is reported, also where the digits would be too many.
    assert!(matches!(
        Isbn::from_str("97831614841000000?!"),
        Err(InvalidIsbn::InvalidCharacter(17, '?'))
    ));
    assert!(matches!(Isbn::from_str("978é"), Err(InvalidIsbn::InvalidCharacter(3, 'é'))));
}

#[test]
fn isbn_error_agrees_with_char_indices() {
    let text = "97-8x";
    let expected = text.char_indices().find(|(_, c)| *c == 'x').unwrap();
    match Isbn::from_str(text) {
        Err(InvalidIsbn::InvalidCharacter(at, c)) => assert_eq!((at, c), expected),
        _ => panic!("the stray character was not found"),
    }
}
