//! Terminal colouring of report text.

use vstd::prelude::*;

verus! {

broadcast use vstd::string::group_string_axioms;

/// The foreground colours the report uses.
#[derive(PartialEq, Eq, Structural, Clone, Copy, Debug)]
pub enum Hue {
    Red,
    Blue,
    Purple,
    Cyan,
}

/// The ANSI foreground code of a colour.
pub open spec fn hue_code(h: Hue) -> Seq<char> {
    match h {
        Hue::Red => seq!['3', '1'],
        Hue::Blue => seq!['3', '4'],
        Hue::Purple => seq!['3', '5'],
        Hue::Cyan => seq!['3', '6'],
    }
}

/// `text` between the escape sequence that sets the colour (and bold) and the
/// one that resets all styles.
pub open spec fn painted(h: Hue, bold: bool, text: Seq<char>) -> Seq<char> {
    let codes = if bold { seq!['1', ';'] + hue_code(h) } else { hue_code(h) };
    seq!['\x1b', '['] + codes + seq!['m'] + text + seq!['\x1b', '[', '0', 'm']
}

/// Relies on ansi_term's `Colour::paint` and the `Display` of the painted
/// string: the foreground code, the text, then the reset code.
#[verifier::external_body]
fn paint(h: Hue, text: &str) -> (r: String)
    ensures
        r@ == painted(h, false, text@),
{
    let colour = match h {
        Hue::Red => ansi_term::Colour::Red,
        Hue::Blue => ansi_term::Colour::Blue,
        Hue::Purple => ansi_term::Colour::Purple,
        Hue::Cyan => ansi_term::Colour::Cyan,
    };
    colour.paint(text).to_string()
}

/// Relies on ansi_term's `Colour::bold`, `Style::paint` and the `Display` of
/// the painted string: the bold and foreground codes, the text, then the reset code.
#[verifier::external_body]
fn paint_bold(h: Hue, text: &str) -> (r: String)
    ensures
        r@ == painted(h, true, text@),
{
    let colour = match h {
        Hue::Red => ansi_term::Colour::Red,
        Hue::Blue => ansi_term::Colour::Blue,
        Hue::Purple => ansi_term::Colour::Purple,
        Hue::Cyan => ansi_term::Colour::Cyan,
    };
    colour.bold().paint(text).to_string()
}

/// Renders report text, in colour or plain.
pub struct Printer {
    colors: bool,
}

impl Printer {
    pub closed spec fn uses_colors(&self) -> bool {
        self.colors
    }

    pub fn new(colors: bool) -> (r: Printer)
        ensures
            r.uses_colors() == colors,
    {
        Printer { colors }
    }

    /// `text` in colour `h` (bold where asked) when colours are on, else as it is.
    pub fn opt_color(&self, text: &str, h: Hue, bold: bool) -> (r: String)
        ensures
            r@ == if self.uses_colors() {
                painted(h, bold, text@)
            } else {
                text@
            },
    {
        if self.colors {
            if bold {
                paint_bold(h, text)
            } else {
                paint(h, text)
            }
        } else {
            text.to_owned()
        }
    }
}

} // verus!
