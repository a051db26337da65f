use vstd::prelude::*;

verus! {

/// An opaque RGBA color with 8-bit channels.
#[derive(Clone, Copy, Debug, PartialEq, Eq, Structural)]
pub struct Color {
    pub r: u8,
    pub g: u8,
    pub b: u8,
    pub a: u8,
}

impl Color {
    pub open spec fn spec_white() -> Color {
        Color { r: 255, g: 255, b: 255, a: 255 }
    }

    /// Opaque white, the color a widget gets when nothing else is chosen.
    pub fn white() -> (c: Color)
        ensures
            c == Color::spec_white(),
    {
        Color { r: 255, g: 255, b: 255, a: 255 }
    }

    pub fn rgba(r: u8, g: u8, b: u8, a: u8) -> (c: Color)
        ensures
            c == (Color { r, g, b, a }),
    {
        Color { r, g, b, a }
    }
}

impl Default for Color {
    fn default() -> (c: Color)
        ensures
            c == Color::spec_white(),
    {
        Color::white()
    }
}

/// The four colors a widget resolves when it is constructed.
#[derive(Clone, Copy, Debug, PartialEq, Eq, Structural)]
pub struct ThemeColors {
    /// Background of list content.
    pub primary: Color,
    /// A control at rest.
    pub button: Color,
    /// A control under the pointer.
    pub button_hovered: Color,
    /// A control held down.
    pub button_clicked: Color,
}

impl ThemeColors {
    pub open spec fn spec_default() -> ThemeColors {
        ThemeColors {
            primary: Color::spec_white(),
            button: Color::spec_white(),
            button_hovered: Color::spec_white(),
            button_clicked: Color::spec_white(),
        }
    }
}

impl Default for ThemeColors {
    fn default() -> (t: ThemeColors)
        ensures
            t == ThemeColors::spec_default(),
    {
        ThemeColors {
            primary: Color::white(),
            button: Color::white(),
            button_hovered: Color::white(),
            button_clicked: Color::white(),
        }
    }
}

/// A palette, passed explicitly to widget construction.
#[derive(Clone, Copy, Debug, PartialEq, Eq, Structural)]
pub struct Theme {
    pub colors: ThemeColors,
}

impl Theme {
    pub open spec fn spec_default() -> Theme {
        Theme { colors: ThemeColors::spec_default() }
    }

    /// The palette a widget uses: the override when one is given, else the
    /// default palette. The result is copied into the widget and never re-read.
    pub fn resolve(theme: Option<Theme>) -> (t: Theme)
        ensures
            t == (match theme {
                Some(o) => o,
                None => Theme::spec_default(),
            }),
    {
        match theme {
            Some(o) => o,
            None => Theme::default(),
        }
    }
}

impl Default for Theme {
    fn default() -> (t: Theme)
        ensures
            t == Theme::spec_default(),
    {
        Theme { colors: ThemeColors::default() }
    }
}

} // verus!
