use migrate_move::pattern::{Order, ParseError, Pattern};

#[test]
fn parse_normal() {
    let pat = "%d_%s.up.sql";
    let pat = Pattern::parse(pat);

    assert_eq!(
        pat,
        Ok(Pattern {
            parts: vec!["", "_", ".up.sql"],
            order: Order::IndexFirst
        })
    )
}

#[test]
fn parse_identifier_only() {
    assert_eq!(
        Pattern::parse("%d.sql"),
        Ok(Pattern {
            parts: vec!["", ".sql"],
            order: Order::IndexOnly
        })
    );
}

#[test]
fn parse_name_first() {
    assert_eq!(
        Pattern::parse("m_%s-%d.down.sql"),
        Ok(Pattern {
            parts: vec!["m_", "-", ".down.sql"],
            order: Order::NameFirst
        })
    );
}

#[test]
fn parse_keeps_an_empty_last_fragment() {
    assert_eq!(
        Pattern::parse("%d"),
        Ok(Pattern {
            parts: vec!["", ""],
            order: Order::IndexOnly
        })
    );
    assert_eq!(
        Pattern::parse("%d_%s"),
        Ok(Pattern {
            parts: vec!["", "_", ""],
            order: Order::IndexFirst
        })
    );
    assert_eq!(
        Pattern::parse("%s%d"),
        Ok(Pattern {
            parts: vec!["", "", ""],
            order: Order::NameFirst
        })
    );
}

#[test]
fn parse_cuts_by_characters_not_bytes() {
    assert_eq!(
        Pattern::parse("é%dü%sß"),
        Ok(Pattern {
            parts: vec!["é", "ü", "ß"],
            order: Order::IndexFirst
        })
    );
}

#[test]
fn parse_rejects_a_second_identifier() {
    assert_eq!(Pattern::parse("%d%d"), Err(ParseError::TooManyPlaceholders));
    assert_eq!(
        Pattern::parse("%d_%s_%d.sql"),
        Err(ParseError::TooManyPlaceholders)
    );
}

#[test]
fn parse_rejects_a_second_name() {
    assert_eq!(Pattern::parse("%s%s"), Err(ParseError::TooManyPlaceholders));
    assert_eq!(
        Pattern::parse("%d_%s_%s"),
        Err(ParseError::TooManyPlaceholders)
    );
}

#[test]
fn parse_rejects_an_unknown_placeholder() {
    assert_eq!(Pattern::parse("%x"), Err(ParseError::InvalidPattern));
    assert_eq!(Pattern::parse("%d%%"), Err(ParseError::InvalidPattern));
    assert_eq!(Pattern::parse("%D"), Err(ParseError::InvalidPattern));
}

#[test]
fn parse_rejects_a_trailing_percent() {
    assert_eq!(Pattern::parse("%"), Err(ParseError::UnfinishedSubstitute));
    assert_eq!(
        Pattern::parse("%d_%s.sql%"),
        Err(ParseError::UnfinishedSubstitute)
    );
}

#[test]
fn parse_rejects_a_template_without_identifier() {
    assert_eq!(Pattern::parse(""), Err(ParseError::InvalidPattern));
    assert_eq!(Pattern::parse("plain.sql"), Err(ParseError::InvalidPattern));
    assert_eq!(Pattern::parse("%s.sql"), Err(ParseError::InvalidPattern));
}

#[test]
fn parse_reports_the_first_fault() {
    assert_eq!(Pattern::parse("%x%d%d"), Err(ParseError::InvalidPattern));
    assert_eq!(Pattern::parse("%d%d%x"), Err(ParseError::TooManyPlaceholders));
    assert_eq!(Pattern::parse("%s%s%"), Err(ParseError::TooManyPlaceholders));
    assert_eq!(Pattern::parse("%d%s%d"), Err(ParseError::TooManyPlaceholders));
}

#[test]
fn pattern_error_messages() {
    assert_eq!(ParseError::InvalidPattern.message(), "invalid pattern");
    assert_eq!(
        ParseError::UnfinishedSubstitute.message(),
        "unfinished substitute"
    );
    assert_eq!(
        ParseError::TooManyPlaceholders.message(),
        "too many placeholders"
    );
}

#[test]
fn default_templates_compile() {
    assert_eq!(
        Pattern::parse(migrate_move::pattern::DEFAULT_UP),
        Ok(Pattern {
            parts: vec!["", "_", ".up.sql"],
            order: Order::IndexFirst
        })
    );
    assert_eq!(
        Pattern::parse(migrate_move::pattern::DEFAULT_DOWN),
        Ok(Pattern {
            parts: vec!["", "_", ".down.sql"],
            order: Order::IndexFirst
        })
    );
}

#[test]
fn is_well_formed_counts_the_fragments() {
    assert!(Pattern::parse("%d").unwrap().is_well_formed());
    assert!(Pattern::parse("a%sb%dc").unwrap().is_well_formed());
    assert!(Pattern {
        parts: vec!["", ".sql"],
        order: Order::IndexOnly
    }
    .is_well_formed());
    assert!(!Pattern {
        parts: vec!["", ".sql"],
        order: Order::IndexFirst
    }
    .is_well_formed());
    assert!(!Pattern {
        parts: vec!["", "_", ".sql"],
        order: Order::IndexOnly
    }
    .is_well_formed());
    assert!(!Pattern {
        parts: vec![],
        order: Order::NameFirst
    }
    .is_well_formed());
}
