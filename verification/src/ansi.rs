use vstd::prelude::*;

verus! {

/// Foreground colours used when printing for the operator.
pub enum PaintColour {
    Yellow,
    Blue,
}

/// The ANSI escape that switches the foreground to the given colour.
pub open spec fn ansi_prefix(c: PaintColour) -> Seq<char> {
    match c {
        PaintColour::Yellow => seq!['\u{1b}', '[', '3', '3', 'm'],
        PaintColour::Blue => seq!['\u{1b}', '[', '3', '4', 'm'],
    }
}

/// The ANSI escape that resets all styling.
pub open spec fn ansi_reset() -> Seq<char> {
    seq!['\u{1b}', '[', '0', 'm']
}

/// The text `s` wrapped in the colour's escape codes.
pub open spec fn painted(c: PaintColour, s: Seq<char>) -> Seq<char> {
    ansi_prefix(c) + s + ansi_reset()
}

/// Relies on ansi_term's `Colour::paint` and the `Display` of the
/// `ANSIString` it returns: for a plain foreground colour they write the
/// escape selecting the colour (`ESC[33m` for yellow, `ESC[34m` for blue),
/// then the text unchanged, then the reset escape `ESC[0m`.
#[verifier::external_body]
pub(crate) fn paint(c: PaintColour, s: &str) -> (r: String)
    ensures
        r@ == painted(c, s@),
{
    let colour = match c {
        PaintColour::Yellow => ansi_term::Colour::Yellow,
        PaintColour::Blue => ansi_term::Colour::Blue,
    };
    colour.paint(s).to_string()
}

} // verus!
