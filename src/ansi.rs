//! Removal of terminal colour sequences from captured text.
use vstd::prelude::*;

verus! {

/// The text `s` with its ANSI escape sequences removed.
pub uninterp spec fn stripped(s: Seq<char>) -> Seq<char>;

/// Relies on `strip_ansi_escapes::strip_str`: the text without its ANSI escape
/// sequences, which depends on the text alone.
#[verifier::external_body]
pub(crate) fn strip_color(s: &str) -> (r: String)
    ensures
        r@ == stripped(s@),
{
    strip_ansi_escapes::strip_str(s)
}

} // verus!
