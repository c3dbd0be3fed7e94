use codespan_reporting::{ColorValue, ConfigError, Style, Stylesheet};

fn style(text: &str) -> Style {
    Style::parse(text).unwrap()
}

#[test]
fn test_basic_lookup() {
    let stylesheet = Stylesheet::new()
        .add_rule("message header error code", "fg: red; underline: false")
        .unwrap();

    let style_found = stylesheet.get(&["message", "header", "error", "code"]);

    assert_eq!(style_found, Some(style("fg: red; underline: false")))
}

#[test]
fn test_basic_with_typed_style() {
    let stylesheet = Stylesheet::new()
        .add("message header error code", Style::empty().bold().fg(ColorValue::Red))
        .unwrap();

    assert_eq!(
        stylesheet.get(&["message", "header", "error", "code"]),
        Some(style("weight: bold; fg: red"))
    )
}

#[test]
fn test_star() {
    let stylesheet = Stylesheet::new()
        .add_rule("message header * code", "fg: red; underline: false")
        .unwrap();

    let style_found = stylesheet.get(&["message", "header", "error", "code"]);

    assert_eq!(style_found, Some(style("fg: red; underline: false")))
}

#[test]
fn test_star_with_typed_style() {
    let stylesheet = Stylesheet::new()
        .add("message header * code", Style::empty().bold().fg(ColorValue::Red))
        .unwrap();

    assert_eq!(
        stylesheet.get(&["message", "header", "error", "code"]),
        Some(style("weight: bold; fg: red"))
    )
}

#[test]
fn test_glob() {
    let stylesheet = Stylesheet::new()
        .add_rule("message ** code", "fg: red; underline: false")
        .unwrap();

    let style_found = stylesheet.get(&["message", "header", "error", "code"]);

    assert_eq!(style_found, Some(style("fg: red; underline: false")))
}

#[test]
fn test_glob_with_typed_style() {
    let stylesheet = Stylesheet::new()
        .add("message ** code", Style::empty().remove_underline().fg(ColorValue::Red))
        .unwrap();

    let style_found = stylesheet.get(&["message", "header", "error", "code"]);

    assert_eq!(style_found, Some(style("fg: red; underline: false")))
}

#[test]
fn test_glob_matches_no_segments() {
    let stylesheet = Stylesheet::new()
        .add_rule("message ** header error code", "fg: red; underline: false")
        .unwrap();

    let style_found = stylesheet.get(&["message", "header", "error", "code"]);

    assert_eq!(style_found, Some(style("fg: red; underline: false")))
}

#[test]
fn test_glob_matches_no_segments_with_typed_style() {
    let stylesheet = Stylesheet::new()
        .add(
            "message ** header error code",
            Style::empty().remove_underline().fg(ColorValue::Red),
        )
        .unwrap();

    let style_found = stylesheet.get(&["message", "header", "error", "code"]);

    assert_eq!(style_found, Some(style("fg: red; underline: false")))
}

#[test]
fn test_trailing_glob_is_terminal() {
    let stylesheet = Stylesheet::new()
        .add("message header error **", Style::empty().remove_underline().fg(ColorValue::Red))
        .unwrap();

    let style_found = stylesheet.get(&["message", "header", "error", "code"]);

    assert_eq!(style_found, Some(style("fg: red; underline: false")))
}

#[test]
fn test_trailing_glob_is_terminal_with_typed_styles() {
    let stylesheet = Stylesheet::new()
        .add("message header error **", Style::empty().remove_underline().fg(ColorValue::Red))
        .unwrap();

    let style_found = stylesheet.get(&["message", "header", "error", "code"]);

    assert_eq!(style_found, Some(Style::empty().fg(ColorValue::Red).remove_underline()))
}

#[test]
fn test_trailing_glob_is_terminal_and_matches_nothing() {
    let stylesheet = Stylesheet::new()
        .add_rule("message header error code **", "fg: red; underline: false")
        .unwrap();

    let style_found = stylesheet.get(&["message", "header", "error", "code"]);

    assert_eq!(style_found, Some(Style::empty().fg(ColorValue::Red).remove_underline()))
}

#[test]
fn test_trailing_glob_is_terminal_and_matches_nothing_with_typed_style() {
    let stylesheet = Stylesheet::new()
        .add(
            "message header error code **",
            Style::empty().remove_underline().fg(ColorValue::Red),
        )
        .unwrap();

    let style_found = stylesheet.get(&["message", "header", "error", "code"]);

    assert_eq!(style_found, Some(Style::empty().fg(ColorValue::Red).remove_underline()))
}

#[test]
fn test_priority() {
    let stylesheet = Stylesheet::new()
        .add_rule("message ** code", "fg: blue; weight: bold")
        .unwrap()
        .add_rule("message header * code", "underline: true; bg: black")
        .unwrap()
        .add_rule("message header error code", "fg: red; underline: false")
        .unwrap();

    let style_found = stylesheet.get(&["message", "header", "error", "code"]);

    assert_eq!(
        style_found,
        Some(
            Style::empty()
                .fg(ColorValue::Red)
                .bg(ColorValue::Black)
                .remove_underline()
                .bold()
        )
    )
}

#[test]
fn test_priority_with_typed_style() {
    let stylesheet = Stylesheet::new()
        .add("message ** code", Style::empty().fg(ColorValue::Blue).bold())
        .unwrap()
        .add("message header * code", Style::empty().underline().bg(ColorValue::Black))
        .unwrap()
        .add("message header error code", Style::empty().fg(ColorValue::Red).remove_underline())
        .unwrap();

    let style_found = stylesheet.get(&["message", "header", "error", "code"]);

    assert_eq!(
        style_found,
        Some(
            Style::empty()
                .fg(ColorValue::Red)
                .bg(ColorValue::Black)
                .remove_underline()
                .bold()
        )
    )
}

#[test]
fn literal_rule_matches_exactly_its_path() {
    let s = style("fg: green");
    let sheet = Stylesheet::new().add("a b c", s).unwrap();
    assert_eq!(sheet.get(&["a", "b", "c"]), Some(s));
    assert_eq!(sheet.get(&["a", "b"]), None);
    assert_eq!(sheet.get(&["a", "b", "c", "d"]), None);
    assert_eq!(sheet.get(&["a", "x", "c"]), None);
}

#[test]
fn specificity_literal_over_star_over_glob() {
    let s1 = Style::empty().bold().fg(ColorValue::Blue);
    let s2 = Style::empty().bg(ColorValue::Green).fg(ColorValue::Yellow).underline();
    let s3 = Style::empty().fg(ColorValue::Red);
    let sheet = Stylesheet::new()
        .add("a ** c", s1)
        .unwrap()
        .add("a b * c", s2)
        .unwrap()
        .add("a b e c", s3)
        .unwrap();
    let found = sheet.get(&["a", "b", "e", "c"]).unwrap();
    assert_eq!(found.foreground, Some(ColorValue::Red));
    assert_eq!(found.background, Some(ColorValue::Green));
    assert_eq!(found.bold, Some(true));
    assert_eq!(found.underline, Some(true));
    assert_eq!(found.bright, None);
}

#[test]
fn trailing_glob_matches_every_descendant() {
    let s = style("bright: true");
    let sheet = Stylesheet::new().add("a b c **", s).unwrap();
    assert_eq!(sheet.get(&["a", "b", "c"]), Some(s));
    assert_eq!(sheet.get(&["a", "b", "c", "d"]), Some(s));
    assert_eq!(sheet.get(&["a", "b", "c", "d", "e", "f"]), Some(s));
    assert_eq!(sheet.get(&["a", "b"]), None);
}

#[test]
fn glob_matches_zero_or_more_segments() {
    let s = style("fg: cyan");
    let sheet = Stylesheet::new().add("a ** b", s).unwrap();
    assert_eq!(sheet.get(&["a", "b"]), Some(s));
    assert_eq!(sheet.get(&["a", "x", "y", "b"]), Some(s));
    assert_eq!(sheet.get(&["a", "b", "b"]), Some(s));
    assert_eq!(sheet.get(&["a", "x"]), None);
    assert_eq!(sheet.get(&["b"]), None);
}

#[test]
fn later_rule_for_same_pattern_wins() {
    let sheet = Stylesheet::new()
        .add_rule("a b", "fg: red")
        .unwrap()
        .add_rule("a b", "fg: blue")
        .unwrap();
    assert_eq!(sheet.get(&["a", "b"]), Some(style("fg: blue")));
}

#[test]
fn lookup_miss_is_none_and_empty_style_is_some() {
    let sheet = Stylesheet::new().add("a", Style::empty()).unwrap();
    assert_eq!(sheet.get(&["a"]), Some(Style::empty()));
    assert_eq!(sheet.get(&["z"]), None);
    assert_eq!(Stylesheet::new().get(&[]), None);
}

#[test]
fn malformed_selector_is_refused() {
    let r = Stylesheet::new().add("a  b", Style::empty());
    assert!(matches!(r, Err(ConfigError::MalformedSelector(ref p)) if p == "a  b"));
    let r = Stylesheet::new().add("", Style::empty());
    assert!(matches!(r, Err(ConfigError::MalformedSelector(_))));
    let r = Stylesheet::new().add_rule(" a", "fg: red");
    assert!(matches!(r, Err(ConfigError::MalformedSelector(_))));
}

#[test]
fn malformed_style_in_rule_is_refused() {
    let r = Stylesheet::new().add_rule("a", "fg: nocolor");
    assert!(matches!(r, Err(ConfigError::UnknownColor(ref v)) if v == "nocolor"));
}
