use migrate_move::decimal::{parse_number, push_decimal, NumberError};
use migrate_move::text::{find, has_suffix, matches_at, to_chars};

fn number(s: &str) -> Result<usize, NumberError> {
    parse_number(&to_chars(s))
}

fn std_number(s: &str) -> Result<usize, NumberError> {
    match s.parse::<usize>() {
        Ok(n) => Ok(n),
        Err(e) => match e.kind() {
            std::num::IntErrorKind::PosOverflow | std::num::IntErrorKind::NegOverflow => {
                Err(NumberError::TooLarge)
            }
            _ => Err(NumberError::Malformed),
        },
    }
}

#[test]
fn to_chars_copies_every_character() {
    assert_eq!(to_chars("a_é"), vec!['a', '_', 'é']);
    assert_eq!(to_chars(""), Vec::<char>::new());
}

#[test]
fn matches_at_compares_in_place() {
    let hay = to_chars("0001_a.up.sql");
    assert!(matches_at(&hay, 4, &to_chars("_a")));
    assert!(!matches_at(&hay, 3, &to_chars("_a")));
    assert!(matches_at(&hay, 13, &to_chars("")));
    assert!(!matches_at(&hay, 14, &to_chars("")));
    assert!(!matches_at(&hay, 10, &to_chars("sqlx")));
}

#[test]
fn find_returns_the_leftmost_position() {
    let hay = to_chars("a_b_c");
    assert_eq!(find(&hay, &to_chars("_")), Some(1));
    assert_eq!(find(&hay[2..], &to_chars("_")), Some(1));
    assert_eq!(find(&hay[4..], &to_chars("_")), None);
    assert_eq!(find(&hay, &to_chars("")), Some(0));
    assert_eq!(find(&hay[5..], &to_chars("")), Some(0));
    assert_eq!(find(&hay, &to_chars("a_b_c_")), None);
    assert_eq!(find(&hay, &to_chars("_c")), Some(3));
    assert_eq!(find(&hay, &to_chars("a_b_c")), Some(0));
    assert_eq!(find(&to_chars("aab"), &to_chars("ab")), Some(1));
}

#[test]
fn has_suffix_looks_at_the_end() {
    let hay = to_chars("x.sql");
    assert!(has_suffix(&hay, &to_chars(".sql")));
    assert!(has_suffix(&hay[1..], &to_chars(".sql")));
    assert!(!has_suffix(&hay[2..], &to_chars(".sql")));
    assert!(has_suffix(&hay, &to_chars("")));
    assert!(has_suffix(&hay[5..], &to_chars("")));
    assert!(!has_suffix(&hay, &to_chars(".sq")));
    assert!(has_suffix(&hay, &to_chars("x.sql")));
    assert!(!has_suffix(&hay, &to_chars("xx.sql")));
}

#[test]
fn parse_number_reads_digits() {
    assert_eq!(number("0"), Ok(0));
    assert_eq!(number("001"), Ok(1));
    assert_eq!(number("42"), Ok(42));
    assert_eq!(number("+7"), Ok(7));
    assert_eq!(
        number(&usize::MAX.to_string()),
        Ok(usize::MAX)
    );
}

#[test]
fn parse_number_rejects_what_is_no_number() {
    assert_eq!(number(""), Err(NumberError::Malformed));
    assert_eq!(number("+"), Err(NumberError::Malformed));
    assert_eq!(number("-"), Err(NumberError::Malformed));
    assert_eq!(number("-1"), Err(NumberError::Malformed));
    assert_eq!(number("++1"), Err(NumberError::Malformed));
    assert_eq!(number("1_000"), Err(NumberError::Malformed));
    assert_eq!(number(" 1"), Err(NumberError::Malformed));
    assert_eq!(number("12a"), Err(NumberError::Malformed));
    assert_eq!(number("١٢"), Err(NumberError::Malformed));
}

#[test]
fn parse_number_reports_overflow() {
    let beyond = format!("{}0", usize::MAX);
    assert_eq!(number(&beyond), Err(NumberError::TooLarge));
    assert_eq!(
        number("99999999999999999999999999999999999999999"),
        Err(NumberError::TooLarge)
    );
    assert_eq!(
        number("+99999999999999999999999999999999999999999"),
        Err(NumberError::TooLarge)
    );
}

#[test]
fn parse_number_reports_the_first_fault_from_the_left() {
    assert_eq!(
        number("99999999999999999999999999999999999999999x"),
        Err(NumberError::TooLarge)
    );
    assert_eq!(
        number("x99999999999999999999999999999999999999999"),
        Err(NumberError::Malformed)
    );
    let at_the_limit = format!("{}x", usize::MAX);
    assert_eq!(number(&at_the_limit), Err(NumberError::Malformed));
}

#[test]
fn parse_number_agrees_with_the_standard_parser() {
    let max = usize::MAX.to_string();
    let over = format!("{}1", usize::MAX);
    let over_then_letter = format!("{}1x", usize::MAX);
    let max_then_letter = format!("{}x", usize::MAX);
    let cases = vec![
        "", "+", "-", "0", "00", "+0", "-0", "1", "0001", "+12", "12+", "1 2", "abc", "9a",
        "18446744073709551615", "18446744073709551616", "4294967295", "4294967296",
        "000000000000000000000000000000000000001",
        "999999999999999999999999999", "999999999999999999999999999z",
        "z999999999999999999999999999", "+999999999999999999999999999",
        max.as_str(), over.as_str(), over_then_letter.as_str(), max_then_letter.as_str(),
    ];
    for case in cases {
        assert_eq!(number(case), std_number(case), "on {:?}", case);
    }
}

#[test]
fn push_decimal_appends_plain_digits() {
    let mut out = String::from("id=");
    push_decimal(&mut out, 0);
    assert_eq!(out, "id=0");
    push_decimal(&mut out, 1203);
    assert_eq!(out, "id=01203");
    let mut out = String::new();
    push_decimal(&mut out, usize::MAX);
    assert_eq!(out, usize::MAX.to_string());
}

#[test]
fn decimal_digits_read_back() {
    for n in [0usize, 1, 9, 10, 11, 99, 100, 12345, usize::MAX - 1, usize::MAX] {
        let mut out = String::new();
        push_decimal(&mut out, n);
        assert_eq!(out, n.to_string());
        assert_eq!(number(&out), Ok(n));
    }
}
