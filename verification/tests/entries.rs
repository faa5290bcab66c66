use migrate_move::entries::{select_pattern, Entries, ReadError};
use migrate_move::migration::ParseError;
use migrate_move::pattern::Pattern;

const UP: &str = "%d_%s.up.sql";
const DOWN: &str = "%d_%s.down.sql";

fn names(list: &[&str]) -> Vec<String> {
    list.iter().map(|s| s.to_string()).collect()
}

fn scan<'a>(list: &[&str], up: &'a str, down: &'a str) -> Result<Entries<'a>, ReadError> {
    Entries::from_dir(
        &names(list),
        Pattern::parse(up).unwrap(),
        Pattern::parse(down).unwrap(),
    )
}

fn listing(entries: &Entries<'_>) -> Vec<(usize, String, String, String)> {
    let mut out = Vec::new();
    for i in 0..entries.len() {
        let e = &entries[i];
        out.push((
            e.migration.id,
            e.migration.name.clone(),
            e.name_up.clone(),
            e.name_down.clone(),
        ));
    }
    out
}

fn row(id: usize, name: &str, up: &str, down: &str) -> (usize, String, String, String) {
    (id, name.to_string(), up.to_string(), down.to_string())
}

fn planned(entries: Entries<'_>) -> Vec<(String, String)> {
    entries
        .renames()
        .into_iter()
        .map(|r| (r.from, r.to))
        .collect()
}

fn pair(from: &str, to: &str) -> (String, String) {
    (from.to_string(), to.to_string())
}

#[test]
fn select_pattern_tries_up_then_down() {
    let up = Pattern::parse(UP).unwrap();
    let down = Pattern::parse(DOWN).unwrap();
    let (side, m) = select_pattern(&up, &down, "3_a.up.sql").unwrap();
    assert!(side);
    assert_eq!((m.id, m.name.as_str()), (3, "a"));
    let (side, m) = select_pattern(&up, &down, "4_b.down.sql").unwrap();
    assert!(!side);
    assert_eq!((m.id, m.name.as_str()), (4, "b"));
    assert!(matches!(
        select_pattern(&up, &down, "notes.txt"),
        Err(ParseError::NotMatching)
    ));
    assert!(matches!(
        select_pattern(&up, &down, "99999999999999999999999999_b.down.sql"),
        Err(ParseError::IdOverflowing)
    ));
}

#[test]
fn select_pattern_prefers_up_where_both_fit() {
    let up = Pattern::parse("%d_%s.sql").unwrap();
    let down = Pattern::parse("%d_%s.down.sql").unwrap();
    let (side, m) = select_pattern(&up, &down, "1_a.down.sql").unwrap();
    assert!(side);
    assert_eq!(m.name, "a.down");
}

#[test]
fn from_dir_pairs_and_sorts() {
    let entries = scan(
        &[
            "0010_c.down.sql",
            "2_b.up.sql",
            "0001_a.up.sql",
            "0010_c.up.sql",
            "2_b.down.sql",
            "0001_a.down.sql",
        ],
        UP,
        DOWN,
    )
    .unwrap();
    assert_eq!(entries.len(), 3);
    assert!(!entries.is_empty());
    assert_eq!(
        listing(&entries),
        vec![
            row(1, "a", "0001_a.up.sql", "0001_a.down.sql"),
            row(2, "b", "2_b.up.sql", "2_b.down.sql"),
            row(10, "c", "0010_c.up.sql", "0010_c.down.sql"),
        ]
    );
}

#[test]
fn from_dir_of_nothing_is_empty() {
    let entries = scan(&[], UP, DOWN).unwrap();
    assert_eq!(entries.len(), 0);
    assert!(entries.is_empty());
    assert!(planned(entries).is_empty());
}

#[test]
fn from_dir_leaves_other_files_aside() {
    let entries = scan(
        &["README.md", "1_a.up.sql", "schema.sql", "1_a.down.sql", "x_y.up.sql"],
        UP,
        DOWN,
    )
    .unwrap();
    assert_eq!(
        listing(&entries),
        vec![row(1, "a", "1_a.up.sql", "1_a.down.sql")]
    );
}

#[test]
fn from_dir_reports_a_missing_file() {
    let r = scan(&["0001_a.up.sql", "0001_a.down.sql", "0002_b.up.sql"], UP, DOWN);
    match r {
        Err(ReadError::FileMissing(file)) => assert_eq!(file, "0002_b.up.sql"),
        other => panic!("unexpected: {:?}", other),
    }
}

#[test]
fn from_dir_reports_a_missing_up_file() {
    let r = scan(&["3_c.down.sql", "1_a.up.sql", "1_a.down.sql"], UP, DOWN);
    match r {
        Err(ReadError::FileMissing(file)) => assert_eq!(file, "3_c.down.sql"),
        other => panic!("unexpected: {:?}", other),
    }
}

#[test]
fn from_dir_reports_the_least_unpaired_identifier() {
    let r = scan(
        &["9_z.up.sql", "4_d.down.sql", "7_x.up.sql", "1_a.up.sql", "1_a.down.sql"],
        UP,
        DOWN,
    );
    match r {
        Err(ReadError::FileMissing(file)) => assert_eq!(file, "4_d.down.sql"),
        other => panic!("unexpected: {:?}", other),
    }
}

#[test]
fn from_dir_reports_overflow_before_anything_else() {
    let r = scan(
        &["1_a.up.sql", "99999999999999999999999999_big.down.sql", "2_b.up.sql"],
        UP,
        DOWN,
    );
    match r {
        Err(ReadError::InvalidFormat(e)) => assert_eq!(e, ParseError::IdOverflowing),
        other => panic!("unexpected: {:?}", other),
    }
}

#[test]
fn from_dir_lets_the_last_file_win() {
    let entries = scan(
        &["1_first.up.sql", "001_second.up.sql", "1_x.down.sql", "01_y.down.sql"],
        UP,
        DOWN,
    )
    .unwrap();
    assert_eq!(
        listing(&entries),
        vec![row(1, "second", "001_second.up.sql", "01_y.down.sql")]
    );
}

#[test]
fn from_dir_takes_the_name_from_the_up_file() {
    let entries = scan(&["5_down_name.down.sql", "5_up_name.up.sql"], UP, DOWN).unwrap();
    assert_eq!(
        listing(&entries),
        vec![row(5, "up_name", "5_up_name.up.sql", "5_down_name.down.sql")]
    );
}

#[test]
fn move_up_exchanges_contents_and_keeps_identifiers() {
    let mut entries = scan(
        &["1_a.up.sql", "1_a.down.sql", "5_b.up.sql", "5_b.down.sql", "9_c.up.sql", "9_c.down.sql"],
        UP,
        DOWN,
    )
    .unwrap();
    assert_eq!(entries.move_up(2), Some(()));
    assert_eq!(
        listing(&entries),
        vec![
            row(1, "a", "1_a.up.sql", "1_a.down.sql"),
            row(5, "c", "9_c.up.sql", "9_c.down.sql"),
            row(9, "b", "5_b.up.sql", "5_b.down.sql"),
        ]
    );
    assert_eq!(entries.move_up(1), Some(()));
    assert_eq!(
        listing(&entries),
        vec![
            row(1, "c", "9_c.up.sql", "9_c.down.sql"),
            row(5, "a", "1_a.up.sql", "1_a.down.sql"),
            row(9, "b", "5_b.up.sql", "5_b.down.sql"),
        ]
    );
}

#[test]
fn move_down_exchanges_contents_and_keeps_identifiers() {
    let mut entries = scan(
        &["1_a.up.sql", "1_a.down.sql", "5_b.up.sql", "5_b.down.sql", "9_c.up.sql", "9_c.down.sql"],
        UP,
        DOWN,
    )
    .unwrap();
    assert_eq!(entries.move_down(0), Some(()));
    assert_eq!(
        listing(&entries),
        vec![
            row(1, "b", "5_b.up.sql", "5_b.down.sql"),
            row(5, "a", "1_a.up.sql", "1_a.down.sql"),
            row(9, "c", "9_c.up.sql", "9_c.down.sql"),
        ]
    );
}

#[test]
fn moves_out_of_range_change_nothing() {
    let mut entries = scan(
        &["1_a.up.sql", "1_a.down.sql", "5_b.up.sql", "5_b.down.sql"],
        UP,
        DOWN,
    )
    .unwrap();
    let before = listing(&entries);
    assert_eq!(entries.move_up(0), None);
    assert_eq!(entries.move_up(2), None);
    assert_eq!(entries.move_up(usize::MAX), None);
    assert_eq!(entries.move_down(1), None);
    assert_eq!(entries.move_down(2), None);
    assert_eq!(entries.move_down(usize::MAX), None);
    assert_eq!(listing(&entries), before);

    let mut none = scan(&[], UP, DOWN).unwrap();
    assert_eq!(none.move_up(0), None);
    assert_eq!(none.move_down(0), None);
    let mut one = scan(&["1_a.up.sql", "1_a.down.sql"], UP, DOWN).unwrap();
    assert_eq!(one.move_up(0), None);
    assert_eq!(one.move_down(0), None);
}

#[test]
fn moves_keep_the_identifiers_in_order() {
    let mut entries = scan(
        &[
            "2_a.up.sql", "2_a.down.sql", "3_b.up.sql", "3_b.down.sql", "50_c.up.sql",
            "50_c.down.sql", "70_d.up.sql", "70_d.down.sql",
        ],
        UP,
        DOWN,
    )
    .unwrap();
    let steps: Vec<(bool, usize)> = vec![
        (true, 3), (true, 2), (false, 0), (true, 0), (false, 3), (false, 2), (true, 1), (true, 9),
        (false, 1),
    ];
    for (up, i) in steps {
        if up {
            entries.move_up(i);
        } else {
            entries.move_down(i);
        }
        let ids: Vec<usize> = listing(&entries).iter().map(|r| r.0).collect();
        assert_eq!(ids, vec![2, 3, 50, 70]);
    }
    let mut names: Vec<String> = listing(&entries).into_iter().map(|r| r.1).collect();
    names.sort();
    assert_eq!(names, vec!["a", "b", "c", "d"]);
}

#[test]
fn move_down_undoes_move_up() {
    let mut entries = scan(
        &["1_a.up.sql", "1_a.down.sql", "5_b.up.sql", "5_b.down.sql", "9_c.up.sql", "9_c.down.sql"],
        UP,
        DOWN,
    )
    .unwrap();
    let before = listing(&entries);
    for i in 1..3 {
        assert_eq!(entries.move_up(i), Some(()));
        assert_ne!(listing(&entries), before);
        assert_eq!(entries.move_down(i - 1), Some(()));
        assert_eq!(listing(&entries), before);
    }
    for i in 0..2 {
        assert_eq!(entries.move_down(i), Some(()));
        assert_eq!(entries.move_up(i + 1), Some(()));
        assert_eq!(listing(&entries), before);
    }
}

#[test]
fn renames_of_an_untouched_directory() {
    let entries = scan(
        &["1_a.up.sql", "1_a.down.sql", "0002_b.up.sql", "0002_b.down.sql"],
        UP,
        DOWN,
    )
    .unwrap();
    assert_eq!(
        planned(entries),
        vec![
            pair("1_a.up.sql", "1_a.up.sql"),
            pair("1_a.down.sql", "1_a.down.sql"),
            pair("0002_b.up.sql", "2_b.up.sql"),
            pair("0002_b.down.sql", "2_b.down.sql"),
        ]
    );
}

#[test]
fn move_up_then_write_back() {
    let up = "000%d_%s.up.sql";
    let down = "000%d_%s.down.sql";
    let mut entries = scan(
        &[
            "0001_alpha.up.sql",
            "0001_alpha.down.sql",
            "0002_beta.up.sql",
            "0002_beta.down.sql",
        ],
        up,
        down,
    )
    .unwrap();
    assert_eq!(entries.move_up(1), Some(()));
    assert_eq!(
        listing(&entries),
        vec![
            row(1, "beta", "0002_beta.up.sql", "0002_beta.down.sql"),
            row(2, "alpha", "0001_alpha.up.sql", "0001_alpha.down.sql"),
        ]
    );
    assert_eq!(
        planned(entries),
        vec![
            pair("0002_beta.up.sql", "0001_beta.up.sql"),
            pair("0002_beta.down.sql", "0001_beta.down.sql"),
            pair("0001_alpha.up.sql", "0002_alpha.up.sql"),
            pair("0001_alpha.down.sql", "0002_alpha.down.sql"),
        ]
    );
}

#[test]
fn move_up_then_write_back_without_padding() {
    let mut entries = scan(
        &[
            "0001_alpha.up.sql",
            "0001_alpha.down.sql",
            "0002_beta.up.sql",
            "0002_beta.down.sql",
        ],
        UP,
        DOWN,
    )
    .unwrap();
    assert_eq!(entries.move_up(1), Some(()));
    assert_eq!(
        planned(entries),
        vec![
            pair("0002_beta.up.sql", "1_beta.up.sql"),
            pair("0002_beta.down.sql", "1_beta.down.sql"),
            pair("0001_alpha.up.sql", "2_alpha.up.sql"),
            pair("0001_alpha.down.sql", "2_alpha.down.sql"),
        ]
    );
}

#[test]
fn entries_hand_out_their_contents_in_order() {
    let entries = scan(
        &["5_b.up.sql", "5_b.down.sql", "1_a.up.sql", "1_a.down.sql"],
        UP,
        DOWN,
    )
    .unwrap();
    let ids: Vec<usize> = entries.into_iter().map(|e| e.migration.id).collect();
    assert_eq!(ids, vec![1, 5]);
}

#[test]
fn move_up_by_takes_single_steps() {
    let files = [
        "1_a.up.sql", "1_a.down.sql", "2_b.up.sql", "2_b.down.sql", "3_c.up.sql", "3_c.down.sql",
        "4_d.up.sql", "4_d.down.sql",
    ];
    let mut entries = scan(&files, UP, DOWN).unwrap();
    assert_eq!(entries.move_up_by(3, 2), Some(()));
    let names: Vec<String> = listing(&entries).into_iter().map(|r| r.1).collect();
    assert_eq!(names, vec!["a", "d", "b", "c"]);
    let ids: Vec<usize> = listing(&entries).iter().map(|r| r.0).collect();
    assert_eq!(ids, vec![1, 2, 3, 4]);

    let mut stepwise = scan(&files, UP, DOWN).unwrap();
    assert_eq!(stepwise.move_up(3), Some(()));
    assert_eq!(stepwise.move_up(2), Some(()));
    assert_eq!(listing(&stepwise), listing(&entries));
}

#[test]
fn move_up_by_stops_at_the_first_step_out_of_range() {
    let files = [
        "1_a.up.sql", "1_a.down.sql", "2_b.up.sql", "2_b.down.sql", "3_c.up.sql", "3_c.down.sql",
    ];
    let mut entries = scan(&files, UP, DOWN).unwrap();
    assert_eq!(entries.move_up_by(2, 3), None);
    let names: Vec<String> = listing(&entries).into_iter().map(|r| r.1).collect();
    assert_eq!(names, vec!["c", "a", "b"]);

    let mut entries = scan(&files, UP, DOWN).unwrap();
    let before = listing(&entries);
    assert_eq!(entries.move_up_by(3, 1), None);
    assert_eq!(entries.move_up_by(0, 1), None);
    assert_eq!(entries.move_up_by(usize::MAX, usize::MAX), None);
    assert_eq!(listing(&entries), before);
    assert_eq!(entries.move_up_by(7, 0), Some(()));
    assert_eq!(entries.move_up_by(2, 2), Some(()));
}

#[test]
fn move_down_by_takes_single_steps() {
    let files = [
        "1_a.up.sql", "1_a.down.sql", "2_b.up.sql", "2_b.down.sql", "3_c.up.sql", "3_c.down.sql",
        "4_d.up.sql", "4_d.down.sql",
    ];
    let mut entries = scan(&files, UP, DOWN).unwrap();
    assert_eq!(entries.move_down_by(0, 3), Some(()));
    let names: Vec<String> = listing(&entries).into_iter().map(|r| r.1).collect();
    assert_eq!(names, vec!["b", "c", "d", "a"]);
    let ids: Vec<usize> = listing(&entries).iter().map(|r| r.0).collect();
    assert_eq!(ids, vec![1, 2, 3, 4]);
}

#[test]
fn move_down_by_stops_at_the_first_step_out_of_range() {
    let files = [
        "1_a.up.sql", "1_a.down.sql", "2_b.up.sql", "2_b.down.sql", "3_c.up.sql", "3_c.down.sql",
    ];
    let mut entries = scan(&files, UP, DOWN).unwrap();
    assert_eq!(entries.move_down_by(1, 2), None);
    let names: Vec<String> = listing(&entries).into_iter().map(|r| r.1).collect();
    assert_eq!(names, vec!["a", "c", "b"]);

    let mut entries = scan(&files, UP, DOWN).unwrap();
    let before = listing(&entries);
    assert_eq!(entries.move_down_by(2, 1), None);
    assert_eq!(entries.move_down_by(3, 1), None);
    assert_eq!(entries.move_down_by(usize::MAX, 2), None);
    assert_eq!(listing(&entries), before);
    assert_eq!(entries.move_down_by(9, 0), Some(()));
    assert_eq!(entries.move_down_by(0, 2), Some(()));
}

#[test]
fn read_error_messages() {
    assert_eq!(
        ReadError::FileMissing("0002_b.up.sql".to_string()).message(),
        "the file 0002_b.up.sql is missing its corresponding migration"
    );
    assert_eq!(
        ReadError::InvalidFormat(ParseError::IdOverflowing).message(),
        "id is overflowing"
    );
    assert_eq!(
        ReadError::InvalidFormat(ParseError::NotMatching).message(),
        "filename doesn't match"
    );
}

#[test]
fn from_dir_with_the_default_templates() {
    let entries = scan(
        &["2_b.down.sql", "2_b.up.sql"],
        migrate_move::pattern::DEFAULT_UP,
        migrate_move::pattern::DEFAULT_DOWN,
    )
    .unwrap();
    assert_eq!(listing(&entries), vec![row(2, "b", "2_b.up.sql", "2_b.down.sql")]);
}

#[test]
fn from_dir_with_identifier_only_templates() {
    let mut entries = scan(
        &["3.down", "1.up", "3.up", "1.down", "2.txt"],
        "%d.up",
        "%d.down",
    )
    .unwrap();
    assert_eq!(
        listing(&entries),
        vec![row(1, "", "1.up", "1.down"), row(3, "", "3.up", "3.down")]
    );
    assert_eq!(entries.move_down(0), Some(()));
    assert_eq!(
        planned(entries),
        vec![
            pair("3.up", "1.up"),
            pair("3.down", "1.down"),
            pair("1.up", "3.up"),
            pair("1.down", "3.down"),
        ]
    );
}
