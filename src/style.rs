use vstd::prelude::*;

verus! {

/// One of the sixteen colours of a base16 palette.
#[derive(Clone, Copy, Debug, PartialEq, Eq, Structural)]
pub enum Color {
    Base00,
    Base01,
    Base02,
    Base03,
    Base04,
    Base05,
    Base06,
    Base07,
    Base08,
    Base09,
    Base0A,
    Base0B,
    Base0C,
    Base0D,
    Base0E,
    Base0F,
}

/// Emphasis bits.
#[derive(Clone, Copy, Debug, PartialEq, Eq, Structural)]
pub struct Emph {
    pub bold: bool,
    pub underlined: bool,
}

/// A background shade: 0 is the plain background, larger is brighter.
#[derive(Clone, Copy, Debug, PartialEq, Eq, Structural)]
pub struct Shade(pub u8);

/// How a character is drawn. Styles do not combine: the innermost wins.
#[derive(Clone, Copy, Debug, PartialEq, Eq, Structural)]
pub struct Style {
    pub color: Color,
    pub emph: Emph,
    pub shade: Shade,
    pub reversed: bool,
}

impl Emph {
    pub fn plain() -> (r: Emph)
        ensures
            !r.bold && !r.underlined,
    {
        Emph { bold: false, underlined: false }
    }

    pub fn underlined() -> (r: Emph)
        ensures
            !r.bold && r.underlined,
    {
        Emph { bold: false, underlined: true }
    }
}

impl Shade {
    pub fn black() -> (r: Shade)
        ensures
            r.0 == 0,
    {
        Shade(0)
    }
}

impl Style {
    pub fn new(color: Color, emph: Emph, shade: Shade, reversed: bool) -> (r: Style)
        ensures
            r == (Style { color, emph, shade, reversed }),
    {
        Style { color, emph, shade, reversed }
    }

    /// The default foreground colour on the plain background.
    pub fn plain() -> (r: Style)
        ensures
            r == (Style { color: Color::Base05, emph: Emph { bold: false, underlined: false }, shade: Shade(0), reversed: false }),
    {
        Style { color: Color::Base05, emph: Emph::plain(), shade: Shade::black(), reversed: false }
    }

    /// The given foreground colour, otherwise plain.
    pub fn color(color: Color) -> (r: Style)
        ensures
            r == (Style { color, emph: Emph { bold: false, underlined: false }, shade: Shade(0), reversed: false }),
    {
        Style { color, emph: Emph::plain(), shade: Shade::black(), reversed: false }
    }
}

} // verus!
