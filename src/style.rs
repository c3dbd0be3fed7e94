//! Styles: three attributes that may each be unset, on or off, and two
//! optional colors. Styles merge slot by slot.

use vstd::prelude::*;
use crate::error::{ConfigError, ConfigFault};
use crate::text::{split, split_text, trim, trim_text, same_text};
use termcolor::Color as TermColor;

verus! {

/// A terminal color.
#[derive(Clone, Copy, Debug, PartialEq, Eq, Structural)]
pub enum ColorValue {
    Black,
    Blue,
    Green,
    Red,
    Cyan,
    Magenta,
    Yellow,
    White,
    Ansi256(u8),
    Rgb(u8, u8, u8),
}

/// One of the three boolean attributes of a style.
#[derive(Clone, Copy, Debug, PartialEq, Eq, Structural)]
pub enum Attributes {
    Bold,
    Underline,
    Bright,
}

/// A style. Every slot is either unset (`None`) or set; an attribute set to
/// `false` is distinct from an unset one and overrides a `true` in a merge.
#[derive(Clone, Copy, Debug, PartialEq, Eq, Structural)]
pub struct Style {
    pub bold: Option<bool>,
    pub underline: Option<bool>,
    pub bright: Option<bool>,
    pub foreground: Option<ColorValue>,
    pub background: Option<ColorValue>,
}

/// The slot value after a merge: the overriding side's value where it is set,
/// else the base's.
pub open spec fn over<T>(base: Option<T>, top: Option<T>) -> Option<T> {
    if top is Some {
        top
    } else {
        base
    }
}

/// The style with no slot set.
pub open spec fn empty_style() -> Style {
    Style { bold: None, underline: None, bright: None, foreground: None, background: None }
}

impl Style {
    /// `self` merged with `top`: each slot that `top` sets wins.
    pub open spec fn merged(self, top: Style) -> Style {
        Style {
            bold: over(self.bold, top.bold),
            underline: over(self.underline, top.underline),
            bright: over(self.bright, top.bright),
            foreground: over(self.foreground, top.foreground),
            background: over(self.background, top.background),
        }
    }

    /// `self` with attribute `a` set to `on`.
    pub open spec fn with_attribute(self, a: Attributes, on: bool) -> Style {
        match a {
            Attributes::Bold => Style { bold: Some(on), ..self },
            Attributes::Underline => Style { underline: Some(on), ..self },
            Attributes::Bright => Style { bright: Some(on), ..self },
        }
    }

    /// The style with nothing set.
    pub fn empty() -> (r: Style)
        ensures
            r == empty_style(),
    {
        Style { bold: None, underline: None, bright: None, foreground: None, background: None }
    }

    /// Whether no slot is set.
    pub fn is_empty(&self) -> (r: bool)
        ensures
            r == (*self == empty_style()),
    {
        self.bold.is_none() && self.underline.is_none() && self.bright.is_none()
            && self.foreground.is_none() && self.background.is_none()
    }

    /// Merges `top` over `self`, slot by slot.
    pub fn union(&self, top: &Style) -> (r: Style)
        ensures
            r == self.merged(*top),
    {
        Style {
            bold: if top.bold.is_some() { top.bold } else { self.bold },
            underline: if top.underline.is_some() { top.underline } else { self.underline },
            bright: if top.bright.is_some() { top.bright } else { self.bright },
            foreground: if top.foreground.is_some() { top.foreground } else { self.foreground },
            background: if top.background.is_some() { top.background } else { self.background },
        }
    }

    /// `self` with attribute `a` turned on.
    pub fn add_attributes(&self, a: Attributes) -> (r: Style)
        ensures
            r == self.with_attribute(a, true),
    {
        self.set_attribute(a, true)
    }

    /// `self` with attribute `a` turned off (set, unlike an unset one).
    pub fn remove_attributes(&self, a: Attributes) -> (r: Style)
        ensures
            r == self.with_attribute(a, false),
    {
        self.set_attribute(a, false)
    }

    fn set_attribute(&self, a: Attributes, on: bool) -> (r: Style)
        ensures
            r == self.with_attribute(a, on),
    {
        let mut st = *self;
        match a {
            Attributes::Bold => st.bold = Some(on),
            Attributes::Underline => st.underline = Some(on),
            Attributes::Bright => st.bright = Some(on),
        }
        st
    }

    /// `self` with foreground `color`.
    pub fn fg(&self, color: ColorValue) -> (r: Style)
        ensures
            r == (Style { foreground: Some(color), ..*self }),
    {
        Style { foreground: Some(color), ..*self }
    }

    /// `self` without a foreground.
    pub fn clear_fg(&self) -> (r: Style)
        ensures
            r == (Style { foreground: None, ..*self }),
    {
        Style { foreground: None, ..*self }
    }

    /// `self` with background `color`.
    pub fn bg(&self, color: ColorValue) -> (r: Style)
        ensures
            r == (Style { background: Some(color), ..*self }),
    {
        Style { background: Some(color), ..*self }
    }

    /// `self` without a background.
    pub fn clear_bg(&self) -> (r: Style)
        ensures
            r == (Style { background: None, ..*self }),
    {
        Style { background: None, ..*self }
    }

    /// `self`, bold.
    pub fn bold(&self) -> (r: Style)
        ensures
            r == self.with_attribute(Attributes::Bold, true),
    {
        self.add_attributes(Attributes::Bold)
    }

    /// `self`, explicitly not bold.
    pub fn unbold(&self) -> (r: Style)
        ensures
            r == self.with_attribute(Attributes::Bold, false),
    {
        self.remove_attributes(Attributes::Bold)
    }

    /// `self`, underlined.
    pub fn underline(&self) -> (r: Style)
        ensures
            r == self.with_attribute(Attributes::Underline, true),
    {
        self.add_attributes(Attributes::Underline)
    }

    /// `self`, explicitly not underlined.
    pub fn remove_underline(&self) -> (r: Style)
        ensures
            r == self.with_attribute(Attributes::Underline, false),
    {
        self.remove_attributes(Attributes::Underline)
    }

    /// `self`, bright.
    pub fn bright(&self) -> (r: Style)
        ensures
            r == self.with_attribute(Attributes::Bright, true),
    {
        self.add_attributes(Attributes::Bright)
    }

    /// `self`, explicitly at normal brightness.
    pub fn normal_brightness(&self) -> (r: Style)
        ensures
            r == self.with_attribute(Attributes::Bright, false),
    {
        self.remove_attributes(Attributes::Bright)
    }

    /// Applies the declaration `key: value`, where `color` is what `value`
    /// names as a color (read by the `fg` and `bg` keys only).
    pub fn declare(&self, key: &str, value: &str, color: Option<ColorValue>) -> (r: Result<
        Style,
        ConfigError,
    >)
        ensures
            match r {
                Ok(st) => declared(*self, key@, value@, color) == Ok::<Style, ConfigFault>(st),
                Err(e) => declared(*self, key@, value@, color) == Err::<Style, ConfigFault>(e@),
            },
    {
        let st = *self;
        if same_text(key, "weight") {
            if same_text(value, "bold") {
                Ok(Style { bold: Some(true), ..st })
            } else if same_text(value, "normal") {
                Ok(Style { bold: Some(false), ..st })
            } else {
                Err(ConfigError::InvalidValue(key.to_owned(), value.to_owned()))
            }
        } else if same_text(key, "underline") {
            match bool_value(value) {
                Some(b) => Ok(Style { underline: Some(b), ..st }),
                None => Err(ConfigError::InvalidValue(key.to_owned(), value.to_owned())),
            }
        } else if same_text(key, "bright") || same_text(key, "intense") {
            match bool_value(value) {
                Some(b) => Ok(Style { bright: Some(b), ..st }),
                None => Err(ConfigError::InvalidValue(key.to_owned(), value.to_owned())),
            }
        } else if same_text(key, "fg") {
            if same_text(value, "reset") {
                Ok(Style { foreground: None, ..st })
            } else {
                match color {
                    Some(c) => Ok(Style { foreground: Some(c), ..st }),
                    None => Err(ConfigError::UnknownColor(value.to_owned())),
                }
            }
        } else if same_text(key, "bg") {
            if same_text(value, "reset") {
                Ok(Style { background: None, ..st })
            } else {
                match color {
                    Some(c) => Ok(Style { background: Some(c), ..st }),
                    None => Err(ConfigError::UnknownColor(value.to_owned())),
                }
            }
        } else {
            Err(ConfigError::UnknownKey(key.to_owned()))
        }
    }

    /// Reads a style written as `key: value` declarations separated by
    /// semicolons, such as `weight: bold; fg: red; underline: false`.
    /// Later declarations win; empty declarations are skipped.
    pub fn parse(text: &str) -> (r: Result<Style, ConfigError>)
        ensures
            match r {
                Ok(st) => style_of(text@) == Ok::<Style, ConfigFault>(st),
                Err(e) => style_of(text@) == Err::<Style, ConfigFault>(e@),
            },
    {
        let decls = split_text(text, ';');
        let ghost ds = decls.deep_view();
        let mut st = Style::empty();
        let mut k: usize = 0;
        proof {
            assert(ds.skip(0) =~= ds);
        }
        while k < decls.len()
            invariant
                ds == decls.deep_view(),
                ds == split(text@, ';'),
                k <= decls.len(),
                style_of(text@) == declarations(st, ds.skip(k as int)),
            decreases decls.len() - k,
        {
            let ghost rest = ds.skip(k as int);
            proof {
                assert(rest[0] == ds[k as int]);
                assert(rest.drop_first() =~= ds.skip(k + 1));
            }
            let d = trim_text(decls[k].as_str());
            if d.unicode_len() != 0 {
                let parts = split_text(d, ':');
                if parts.len() != 2 {
                    return Err(ConfigError::MalformedDeclaration(d.to_owned()));
                }
                let key = trim_text(parts[0].as_str());
                let value = trim_text(parts[1].as_str());
                let color = parse_color(value);
                match st.declare(key, value, color) {
                    Ok(next) => st = next,
                    Err(e) => return Err(e),
                }
            }
            k = k + 1;
        }
        Ok(st)
    }
}

/// `true` or `false`, as written.
pub open spec fn bool_word(v: Seq<char>) -> Option<bool> {
    if v == "true"@ {
        Some(true)
    } else if v == "false"@ {
        Some(false)
    } else {
        None
    }
}

fn bool_value(v: &str) -> (r: Option<bool>)
    ensures
        r == bool_word(v@),
{
    if same_text(v, "true") {
        Some(true)
    } else if same_text(v, "false") {
        Some(false)
    } else {
        None
    }
}

/// What the declaration `key: value` makes of `st`, given the color that
/// `value` names.
pub open spec fn declared(st: Style, key: Seq<char>, value: Seq<char>, color: Option<ColorValue>) -> Result<
    Style,
    ConfigFault,
> {
    if key == "weight"@ {
        if value == "bold"@ {
            Ok(Style { bold: Some(true), ..st })
        } else if value == "normal"@ {
            Ok(Style { bold: Some(false), ..st })
        } else {
            Err(ConfigFault::InvalidValue(key, value))
        }
    } else if key == "underline"@ {
        match bool_word(value) {
            Some(b) => Ok(Style { underline: Some(b), ..st }),
            None => Err(ConfigFault::InvalidValue(key, value)),
        }
    } else if key == "bright"@ || key == "intense"@ {
        match bool_word(value) {
            Some(b) => Ok(Style { bright: Some(b), ..st }),
            None => Err(ConfigFault::InvalidValue(key, value)),
        }
    } else if key == "fg"@ {
        if value == "reset"@ {
            Ok(Style { foreground: None, ..st })
        } else {
            match color {
                Some(c) => Ok(Style { foreground: Some(c), ..st }),
                None => Err(ConfigFault::UnknownColor(value)),
            }
        }
    } else if key == "bg"@ {
        if value == "reset"@ {
            Ok(Style { background: None, ..st })
        } else {
            match color {
                Some(c) => Ok(Style { background: Some(c), ..st }),
                None => Err(ConfigFault::UnknownColor(value)),
            }
        }
    } else {
        Err(ConfigFault::UnknownKey(key))
    }
}

/// What one declaration (untrimmed) makes of `st`: nothing if it is blank,
/// else the `key: value` pair around its one colon.
pub open spec fn declaration(st: Style, d: Seq<char>) -> Result<Style, ConfigFault> {
    let d = trim(d);
    if d.len() == 0 {
        Ok(st)
    } else {
        let parts = split(d, ':');
        if parts.len() != 2 {
            Err(ConfigFault::MalformedDeclaration(d))
        } else {
            let value = trim(parts[1]);
            declared(st, trim(parts[0]), value, color_named(value))
        }
    }
}

/// The declarations `ds` applied to `st` in order; the first error stops.
pub open spec fn declarations(st: Style, ds: Seq<Seq<char>>) -> Result<Style, ConfigFault>
    decreases ds.len(),
{
    if ds.len() == 0 {
        Ok(st)
    } else {
        match declaration(st, ds[0]) {
            Ok(next) => declarations(next, ds.drop_first()),
            Err(e) => Err(e),
        }
    }
}

/// The style that a style text denotes.
pub open spec fn style_of(text: Seq<char>) -> Result<Style, ConfigFault> {
    declarations(empty_style(), split(text, ';'))
}

/// The color that a color text names, as termcolor reads it.
pub uninterp spec fn color_named(s: Seq<char>) -> Option<ColorValue>;

/// Relies on termcolor's `Color::from_str`: it depends on the text alone,
/// reads the eight basic color names as written in lower case, and also
/// takes other spellings and numeric colors.
#[verifier::external_body]
fn parse_color(s: &str) -> (r: Option<ColorValue>)
    ensures
        r == color_named(s@),
        s@ == "black"@ ==> r == Some(ColorValue::Black),
        s@ == "blue"@ ==> r == Some(ColorValue::Blue),
        s@ == "green"@ ==> r == Some(ColorValue::Green),
        s@ == "red"@ ==> r == Some(ColorValue::Red),
        s@ == "cyan"@ ==> r == Some(ColorValue::Cyan),
        s@ == "magenta"@ ==> r == Some(ColorValue::Magenta),
        s@ == "yellow"@ ==> r == Some(ColorValue::Yellow),
        s@ == "white"@ ==> r == Some(ColorValue::White),
{
    match s.parse::<TermColor>() {
        Ok(TermColor::Black) => Some(ColorValue::Black),
        Ok(TermColor::Blue) => Some(ColorValue::Blue),
        Ok(TermColor::Green) => Some(ColorValue::Green),
        Ok(TermColor::Red) => Some(ColorValue::Red),
        Ok(TermColor::Cyan) => Some(ColorValue::Cyan),
        Ok(TermColor::Magenta) => Some(ColorValue::Magenta),
        Ok(TermColor::Yellow) => Some(ColorValue::Yellow),
        Ok(TermColor::White) => Some(ColorValue::White),
        Ok(TermColor::Ansi256(n)) => Some(ColorValue::Ansi256(n)),
        Ok(TermColor::Rgb(r, g, b)) => Some(ColorValue::Rgb(r, g, b)),
        Ok(_) => None,
        Err(_) => None,
    }
}

} // verus!
