use rust_errors::diagnostic::{Error, ParseError};
use rust_errors::report::{collect_errors, display_plan, rule_line, Part, RULE_WIDTH};
use rust_errors::scanner::{is_header_line, scan_blocks};

fn lines(text: &[&str]) -> Vec<String> {
    text.iter().map(|s| s.to_string()).collect()
}

#[test]
fn round_trip_parse() {
    let block = "error[E0308]: mismatched types\n  --> src/main.rs:12:5\n    let x: i32 = \"a\";";
    let e = Error::parse_block(block).unwrap();
    assert_eq!(e.num, "0308");
    assert_eq!(e.message, "mismatched types");
    assert_eq!(e.file, "src/main.rs");
    assert_eq!(e.line, 12);
    assert_eq!(e.column, 5);
    assert_eq!(e.details, "    let x: i32 = \"a\";");
}

#[test]
fn new_keeps_fields() {
    let e = Error::new("0425", "cannot find value", "a.rs", 3, 9, "x");
    assert_eq!(e.num, "0425");
    assert_eq!(e.message, "cannot find value");
    assert_eq!(e.file, "a.rs");
    assert_eq!(e.line, 3);
    assert_eq!(e.column, 9);
    assert_eq!(e.details, "x");
}

#[test]
fn header_found_after_other_text() {
    let block = "\u{1b}[1merror[E0599]: no method\n --> lib.rs:1:2\n  |";
    let e = Error::parse_block(block).unwrap();
    assert_eq!(e.num, "0599");
    assert_eq!(e.message, "no method");
    assert_eq!(e.file, "lib.rs");
    assert_eq!(e.line, 1);
    assert_eq!(e.column, 2);
    assert_eq!(e.details, "  |");
}

#[test]
fn details_keep_every_line_after_locator() {
    let block = "error[E1]: m\n  --> f.rs:4:7\nfirst\nsecond";
    let e = Error::parse_block(block).unwrap();
    assert_eq!(e.details, "first\nsecond");
}

#[test]
fn locator_path_may_hold_spaces() {
    let block = "error[E1]: m\n    --> my dir/f.rs:40:17\nd";
    let e = Error::parse_block(block).unwrap();
    assert_eq!(e.file, "my dir/f.rs");
    assert_eq!(e.line, 40);
    assert_eq!(e.column, 17);
}

#[test]
fn too_few_lines_is_an_error() {
    assert_eq!(
        Error::parse_block("error[E1]: m\n  --> f.rs:1:1").unwrap_err(),
        ParseError::TooFewLines
    );
    assert_eq!(Error::parse_block("error[E1]: m").unwrap_err(), ParseError::TooFewLines);
}

#[test]
fn bad_header_is_an_error() {
    assert_eq!(
        Error::parse_block("warning: unused\n  --> f.rs:1:1\nd").unwrap_err(),
        ParseError::BadHeader
    );
    assert_eq!(
        Error::parse_block("error[E]: m\n  --> f.rs:1:1\nd").unwrap_err(),
        ParseError::BadHeader
    );
}

#[test]
fn missing_arrow_is_an_error() {
    assert_eq!(
        Error::parse_block("error[E1]: m\n  f.rs:1:1\nd").unwrap_err(),
        ParseError::BadLocator
    );
    assert_eq!(
        Error::parse_block("error[E1]: m\n--> f.rs:1:1\nd").unwrap_err(),
        ParseError::BadLocator
    );
    assert_eq!(
        Error::parse_block("error[E1]: m\n  --> f.rs:x:1\nd").unwrap_err(),
        ParseError::BadLocator
    );
}

#[test]
fn line_out_of_range_is_an_error() {
    assert_eq!(
        Error::parse_block("error[E1]: m\n  --> f.rs:4294967296:1\nd").unwrap_err(),
        ParseError::LineOutOfRange
    );
    let e = Error::parse_block("error[E1]: m\n  --> f.rs:4294967295:1\nd").unwrap();
    assert_eq!(e.line, 4294967295);
}

#[test]
fn column_out_of_range_is_an_error() {
    assert_eq!(
        Error::parse_block("error[E1]: m\n  --> f.rs:1:99999999999\nd").unwrap_err(),
        ParseError::ColumnOutOfRange
    );
}

#[test]
fn header_lines_are_recognised() {
    assert!(is_header_line("error[E0308]: mismatched types"));
    assert!(!is_header_line("error[E0308]:mismatched types"));
    assert!(!is_header_line("warning: unused variable"));
    assert!(!is_header_line(""));
}

#[test]
fn grouping_keeps_count_and_order() {
    let input = lines(&[
        "error[E1]: a", "  --> a.rs:1:1", "da", "",
        "error[E2]: b", "  --> b.rs:2:2", "db", "",
        "error[E3]: c", "  --> c.rs:3:3", "dc",
    ]);
    let blocks = scan_blocks(&input);
    assert_eq!(
        blocks,
        vec![
            "error[E1]: a\n  --> a.rs:1:1\nda".to_string(),
            "error[E2]: b\n  --> b.rs:2:2\ndb".to_string(),
            "error[E3]: c\n  --> c.rs:3:3\ndc".to_string(),
        ]
    );
}

#[test]
fn noise_is_discarded() {
    let input = lines(&[
        "Compiling demo v0.1.0", "",
        "error[E1]: a", "  --> a.rs:1:1", "da", "",
        "some note", "more noise",
        "error[E2]: b", "  --> b.rs:2:2", "db", "",
        "aborting",
    ]);
    let blocks = scan_blocks(&input);
    assert_eq!(
        blocks,
        vec![
            "error[E1]: a\n  --> a.rs:1:1\nda".to_string(),
            "error[E2]: b\n  --> b.rs:2:2\ndb".to_string(),
        ]
    );
}

#[test]
fn back_to_back_blocks() {
    let input = lines(&[
        "error[E1]: a", "  --> a.rs:1:1", "da",
        "error[E2]: b", "  --> b.rs:2:2", "db",
    ]);
    let errors = collect_errors(&input).unwrap();
    assert_eq!(errors.len(), 2);
    assert_eq!(errors[0].num, "1");
    assert_eq!(errors[0].details, "da");
    assert_eq!(errors[1].num, "2");
    assert_eq!(errors[1].details, "db");
}

#[test]
fn empty_input_has_no_blocks() {
    assert!(scan_blocks(&Vec::new()).is_empty());
    assert!(scan_blocks(&lines(&["noise", "", "more"])).is_empty());
}

#[test]
fn last_block_is_emitted_at_end_of_input() {
    let input = lines(&["error[E7]: z", "  --> z.rs:7:7", "dz"]);
    let errors = collect_errors(&input).unwrap();
    assert_eq!(errors.len(), 1);
    assert_eq!(errors[0].file, "z.rs");
}

#[test]
fn malformed_locator_fails_the_run() {
    let input = lines(&[
        "error[E1]: a", "  --> a.rs:1:1", "da", "",
        "error[E2]: b", "  b.rs:2:2", "db",
    ]);
    assert_eq!(collect_errors(&input).unwrap_err(), ParseError::BadLocator);
}

#[test]
fn truncated_block_fails_the_run() {
    let input = lines(&["error[E1]: a", "  --> a.rs:1:1"]);
    assert_eq!(collect_errors(&input).unwrap_err(), ParseError::TooFewLines);
}

#[test]
fn display_count_clamped() {
    let plan = display_plan(3, 10);
    assert_eq!(
        plan,
        vec![
            Part::Separator, Part::Entry(0),
            Part::Separator, Part::Entry(1),
            Part::Separator, Part::Entry(2),
            Part::BlankLine, Part::Closing,
        ]
    );
}

#[test]
fn display_count_limits() {
    let plan = display_plan(4, 2);
    assert_eq!(
        plan,
        vec![
            Part::Separator, Part::Entry(0),
            Part::Separator, Part::Entry(1),
            Part::BlankLine, Part::Closing,
        ]
    );
}

#[test]
fn zero_count_shows_only_boundaries() {
    assert_eq!(display_plan(3, 0), vec![Part::BlankLine, Part::Closing]);
    assert_eq!(display_plan(0, 5), vec![Part::BlankLine, Part::Closing]);
}

#[test]
fn rule_line_repeats_glyph() {
    let r = rule_line("\u{2504}");
    assert_eq!(r.chars().count(), RULE_WIDTH);
    assert!(r.chars().all(|c| c == '\u{2504}'));
    assert_eq!(rule_line("-"), "-".repeat(100));
}

#[test]
fn tab_before_arrow_is_accepted() {
    let e = Error::parse_block("error[E1]: m\n\t--> a.rs:1:2\nd").unwrap();
    assert_eq!(e.file, "a.rs");
    assert_eq!(e.line, 1);
    assert_eq!(e.column, 2);
    assert_eq!(e.details, "d");
}

#[test]
fn mixed_whitespace_before_arrow_is_accepted() {
    let e = Error::parse_block("error[E2]: m\n \t\u{a0} --> b.rs:30:4\nd").unwrap();
    assert_eq!(e.file, "b.rs");
    assert_eq!(e.line, 30);
    assert_eq!(e.column, 4);
}

#[test]
fn inserted_noise_changes_nothing() {
    let plain = lines(&[
        "error[E1]: a", "  --> a.rs:1:1", "da", "",
        "error[E2]: b", "  --> b.rs:2:2", "db",
    ]);
    let noisy = lines(&[
        "Compiling demo", "warning: unused",
        "error[E1]: a", "  --> a.rs:1:1", "da", "",
        "note: see above", "",
        "error[E2]: b", "  --> b.rs:2:2", "db",
    ]);
    assert_eq!(scan_blocks(&plain), scan_blocks(&noisy));
    let a = collect_errors(&plain).unwrap();
    let b = collect_errors(&noisy).unwrap();
    assert_eq!(a.len(), b.len());
    for (x, y) in a.iter().zip(b.iter()) {
        assert_eq!(x.num, y.num);
        assert_eq!(x.message, y.message);
        assert_eq!(x.file, y.file);
        assert_eq!(x.line, y.line);
        assert_eq!(x.column, y.column);
        assert_eq!(x.details, y.details);
    }
}

#[test]
fn back_to_back_details_end_at_next_header() {
    let input = lines(&[
        "error[E1]: a", "  --> a.rs:1:1", "d1", "d2",
        "error[E2]: b", "  --> b.rs:2:2", "db",
    ]);
    let errors = collect_errors(&input).unwrap();
    assert_eq!(errors.len(), 2);
    assert_eq!(errors[0].details, "d1\nd2");
    assert_eq!(errors[1].num, "2");
}
