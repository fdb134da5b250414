//! Options that visual elements share.

use crate::strings::str_eq;
use vstd::prelude::*;

verus! {

/// How text reacts when it does not fit its box.
#[derive(Clone, Copy, Debug, PartialEq, Eq, Structural)]
pub enum TextFit {
    /// Normal behavior: text overflows if too long.
    NoFit,
    /// Reduces font size until text fits within the box or hits min size.
    Shrink,
}

/// The fit mode that a script names: `shrink`, or none for every other name.
pub open spec fn text_fit_of(name: Seq<char>) -> TextFit {
    if name == "shrink"@ {
        TextFit::Shrink
    } else {
        TextFit::NoFit
    }
}

/// Parses the `fit` property of a text node.
pub fn parse_text_fit(name: &str) -> (r: TextFit)
    ensures
        r == text_fit_of(name@),
{
    if str_eq(name, "shrink") {
        TextFit::Shrink
    } else {
        TextFit::NoFit
    }
}


/// `shrink` shrinks text to fit; `none` lets it overflow.
pub proof fn lemma_text_fit_names()
    ensures
        text_fit_of("shrink"@) == TextFit::Shrink,
        text_fit_of("none"@) == TextFit::NoFit,
{
    reveal_strlit("shrink");
    reveal_strlit("none");
    assert("shrink"@.len() == 6);
    assert("none"@.len() == 4);
}

} // verus!
