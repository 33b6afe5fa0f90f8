//! Color schemes for the diagrams.
//!
//! A theme is selected by name and threaded explicitly through layout and
//! rendering; the layout engine only ever reads it.

use vstd::prelude::*;

verus! {

/// Selector for a color scheme.
#[derive(Clone, Copy, Debug, PartialEq, Eq, Structural)]
pub enum ThemeName {
    Default,
    Colorful,
}

/// Colors for connector lines.
pub struct LineColor {
    pub primary: &'static str,
    pub second: &'static str,
}

/// Colors for boxes and the text inside them.
pub struct RectColor {
    pub fill: &'static str,
    pub frame: &'static str,
    pub text: &'static str,
}

/// A full color scheme.
pub struct ColorScheme {
    pub rect: RectColor,
    pub line: LineColor,
    pub text_primary: &'static str,
}

/// The colors a diagram is drawn with.
pub struct Theme {
    pub color: ColorScheme,
}

/// The colors the named scheme consists of.
pub open spec fn is_scheme(t: Theme, name: ThemeName) -> bool {
    &&& t.color.rect.fill@ == "#ffffff"@
    &&& t.color.rect.frame@ == "#000000"@
    &&& t.color.rect.text@ == "#000000"@
    &&& t.color.text_primary@ == "#000000"@
    &&& (name is Colorful ==> t.color.line.primary@ == "#e7afff"@ && t.color.line.second@
        == "#e74c3c"@)
    &&& (!(name is Colorful) ==> t.color.line.primary@ == "#000"@ && t.color.line.second@
        == "#000"@)
}

impl Theme {
    /// The color scheme a theme name stands for.
    pub fn new(name: ThemeName) -> (t: Theme)
        ensures
            is_scheme(t, name),
    {
        let line = match name {
            ThemeName::Colorful => LineColor { primary: "#e7afff", second: "#e74c3c" },
            _ => LineColor { primary: "#000", second: "#000" },
        };
        Theme {
            color: ColorScheme {
                rect: RectColor { fill: "#ffffff", frame: "#000000", text: "#000000" },
                line,
                text_primary: "#000000",
            },
        }
    }
}

} // verus!
