use attrsplit::analyse;
use attrsplit::scanner::Scanner;
use attrsplit::SplitError;

fn split(text: &str) -> Vec<String> {
    analyse(text.chars().collect()).unwrap()
}

#[test]
fn normal() {
    let attributes = r##"text.parse::<u32>(),
            "Oh dear - '{}' could not be converted to an integer",
            text"##;
    let char_string = attributes.chars();
    let required = vec![
        "text.parse::<u32>()",
        "\"Oh dear - '{}' could not be converted to an integer\"",
        "text",
    ];

    let result = analyse(char_string.collect()).unwrap();
    println!("{result:#?}");
    assert_eq!(result, required);
}

#[test]
fn extended() {
    let attributes = r##" text.parse::<u32, char>(35 < 8), r#"Oh dear - '{}' could, not be converted to an integer"#, text   "##;
    let char_string = attributes.chars();
    let required = vec![
        "text.parse::<u32, char>(35 < 8)",
        "r#\"Oh dear - '{}' could, not be converted to an integer\"#",
        "text",
    ];

    let result = analyse(char_string.collect()).unwrap();
    println!("{result:#?}");
    assert_eq!(result, required);
}

#[test]
fn plain_comma_split() {
    assert_eq!(split("a, b,c"), vec!["a", "b", "c"]);
}

#[test]
fn comma_inside_brackets_does_not_split() {
    assert_eq!(split(r#"f(1, 2), "ok""#), vec!["f(1, 2)", "\"ok\""]);
}

#[test]
fn comma_inside_quotes_does_not_split() {
    assert_eq!(split(r#""a, b", c"#), vec!["\"a, b\"", "c"]);
    assert_eq!(split("'a, b', c"), vec!["'a, b'", "c"]);
}

#[test]
fn escaped_quote_does_not_terminate() {
    assert_eq!(split(r#""a\"b", c"#), vec!["\"a\\\"b\"", "c"]);
}

#[test]
fn less_than_inside_region_is_no_opener() {
    assert_eq!(split("f(x < 8), y"), vec!["f(x < 8)", "y"]);
}

#[test]
fn top_level_angle_bracket_opens_a_region() {
    // at top level `<` is a bracket-table key, so the region it opens
    // protects the comma and runs to the end of the input
    assert_eq!(split("x < 8, y"), vec!["x < 8, y"]);
    assert_eq!(split("a < b"), vec!["a < b"]);
}

#[test]
fn nested_mixed_brackets_balance() {
    assert_eq!(split("f([a, {b, c}]), d"), vec!["f([a, {b, c}])", "d"]);
}

#[test]
fn trailing_attribute_without_comma_is_captured() {
    assert_eq!(split("a, b"), vec!["a", "b"]);
}

#[test]
fn pipe_inside_brackets_is_valid() {
    assert_eq!(split("x, {|n| n + 3}"), vec!["x", "{|n| n + 3}"]);
}

#[test]
fn leading_pipe_is_rejected() {
    assert_eq!(
        analyse("|x| x + 1".chars().collect()),
        Err(SplitError::MisplacedPipe)
    );
    assert_eq!(
        analyse("a, |x| x".chars().collect()),
        Err(SplitError::MisplacedPipe)
    );
}

#[test]
fn split_is_idempotent_on_attributes() {
    for text in [r#"f(1, 2), "ok""#, "a, b", " x , {|n| n + 3} "] {
        for attribute in split(text) {
            assert_eq!(split(&attribute), vec![attribute.clone()]);
        }
    }
}

#[test]
fn empty_input_gives_one_empty_attribute() {
    assert_eq!(split(""), vec![""]);
    assert_eq!(split("   "), vec![""]);
}

#[test]
fn unterminated_regions_are_tolerated() {
    assert_eq!(split(r#""abc"#), vec!["\"abc"]);
    assert_eq!(split("(a, b"), vec!["(a, b"]);
}

#[test]
fn scanner_primitives() {
    let mut scanner = Scanner::new("ab, c".chars().collect());
    assert_eq!(scanner.get_current(), None);
    assert_eq!(scanner.next(), Some('a'));
    assert_eq!(scanner.get_current(), Some('a'));
    assert!(!scanner.is_escaped());
    assert_eq!(scanner.next(), Some('b'));
    assert!(scanner.is_pipe_valid());
    assert_eq!(scanner.next(), Some(','));
    scanner.save_attribute(1);
    assert_eq!(scanner.next(), Some(' '));
    assert_eq!(scanner.next(), Some('c'));
    assert_eq!(scanner.next(), None);
    scanner.save_attribute(0);
    assert_eq!(scanner.get_string_attributes(), vec!["ab", "c"]);
}

#[test]
fn escape_detection_sees_the_preceding_backslash() {
    let mut scanner = Scanner::new(r#"\""#.chars().collect());
    assert_eq!(scanner.next(), Some('\\'));
    assert!(!scanner.is_escaped());
    assert_eq!(scanner.next(), Some('"'));
    assert!(scanner.is_escaped());
}

#[test]
fn misplaced_pipe_message_names_the_closure_form() {
    let e = analyse("|x|".chars().collect()).unwrap_err();
    assert!(e.message().contains("{|n| n + 3}"));
}
