use codespan_reporting::{Attributes, ColorValue, ConfigError, Style};

#[test]
fn parse_reads_each_key() {
    let s = Style::parse("weight: bold; underline: true; bright: true; fg: red; bg: black").unwrap();
    assert_eq!(s.bold, Some(true));
    assert_eq!(s.underline, Some(true));
    assert_eq!(s.bright, Some(true));
    assert_eq!(s.foreground, Some(ColorValue::Red));
    assert_eq!(s.background, Some(ColorValue::Black));
    let s = Style::parse("weight: normal; intense: false; underline: false").unwrap();
    assert_eq!(s.bold, Some(false));
    assert_eq!(s.bright, Some(false));
    assert_eq!(s.underline, Some(false));
    assert_eq!(s.foreground, None);
}

#[test]
fn parse_of_empty_text_is_empty_style() {
    assert_eq!(Style::parse("").unwrap(), Style::empty());
    assert_eq!(Style::parse(" ; ;").unwrap(), Style::empty());
    assert!(Style::empty().is_empty());
    assert!(!Style::parse("fg: red;").unwrap().is_empty());
}

#[test]
fn later_declaration_wins_and_reset_clears() {
    let s = Style::parse("fg: red; fg: blue").unwrap();
    assert_eq!(s.foreground, Some(ColorValue::Blue));
    let s = Style::parse("fg: red; fg: reset").unwrap();
    assert_eq!(s.foreground, None);
}

#[test]
fn color_names_go_through_the_color_parser() {
    assert_eq!(Style::parse("fg: Red").unwrap().foreground, Some(ColorValue::Red));
    assert_eq!(Style::parse("fg: 4").unwrap().foreground, Some(ColorValue::Ansi256(4)));
    assert_eq!(Style::parse("bg: 0,128,255").unwrap().background, Some(ColorValue::Rgb(0, 128, 255)));
    assert_eq!(Style::parse("fg: magenta").unwrap().foreground, Some(ColorValue::Magenta));
}

#[test]
fn unknown_key_is_an_error() {
    let r = Style::parse("color: red");
    assert!(matches!(r, Err(ConfigError::UnknownKey(ref k)) if k == "color"));
}

#[test]
fn invalid_value_is_an_error() {
    let r = Style::parse("weight: heavy");
    assert!(matches!(r, Err(ConfigError::InvalidValue(ref k, ref v)) if k == "weight" && v == "heavy"));
    let r = Style::parse("underline: yes");
    assert!(matches!(r, Err(ConfigError::InvalidValue(_, _))));
}

#[test]
fn unknown_color_is_an_error() {
    let r = Style::parse("fg: nocolor");
    assert!(matches!(r, Err(ConfigError::UnknownColor(ref v)) if v == "nocolor"));
}

#[test]
fn declaration_without_one_colon_is_an_error() {
    let r = Style::parse("fg red");
    assert!(matches!(r, Err(ConfigError::MalformedDeclaration(ref d)) if d == "fg red"));
    let r = Style::parse("fg: red: blue");
    assert!(matches!(r, Err(ConfigError::MalformedDeclaration(_))));
}

#[test]
fn union_merges_slot_by_slot() {
    let base = Style::empty().bold().underline().fg(ColorValue::Blue);
    let top = Style::empty().remove_underline().bg(ColorValue::White);
    let m = base.union(&top);
    assert_eq!(m.bold, Some(true));
    assert_eq!(m.underline, Some(false));
    assert_eq!(m.foreground, Some(ColorValue::Blue));
    assert_eq!(m.background, Some(ColorValue::White));
    assert_eq!(m.bright, None);
}

#[test]
fn builders_set_and_clear_slots() {
    let s = Style::empty().add_attributes(Attributes::Bright).fg(ColorValue::Cyan).bg(ColorValue::Red);
    assert_eq!(s.bright, Some(true));
    let s = s.clear_fg().clear_bg().normal_brightness().unbold();
    assert_eq!(s.foreground, None);
    assert_eq!(s.background, None);
    assert_eq!(s.bright, Some(false));
    assert_eq!(s.bold, Some(false));
    assert_eq!(s.remove_attributes(Attributes::Underline).underline, Some(false));
    assert_eq!(Style::empty().bright().bright, Some(true));
}

#[test]
fn declare_uses_the_given_color() {
    let s = Style::empty().declare("fg", "anything", Some(ColorValue::Green)).unwrap();
    assert_eq!(s.foreground, Some(ColorValue::Green));
    let r = Style::empty().declare("bg", "anything", None);
    assert!(matches!(r, Err(ConfigError::UnknownColor(_))));
}
