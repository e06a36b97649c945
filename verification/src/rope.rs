//! The `ropey` text rope, as the span presentation stores its display text.
use ropey::Rope;
use vstd::prelude::*;

verus! {

/// ropey's `Rope`, opaque to the proofs: what it holds is known only through
/// [`rope_text`].
#[verifier::external_type_specification]
#[verifier::external_body]
pub struct ExRope(Rope);

/// The characters a rope holds, in order.
pub uninterp spec fn rope_text(r: Rope) -> Seq<char>;

/// `Rope::from_str`: ropey documents that it builds a rope holding exactly
/// `text`.
#[verifier::external_body]
pub(crate) fn rope_from_str(text: &str) -> (r: Rope)
    ensures
        rope_text(r) == text@,
{
    Rope::from_str(text)
}

/// `Rope`'s `Display` (through `to_string`): it writes the rope's chunks in
/// order, which together are the rope's text.
#[verifier::external_body]
pub(crate) fn rope_to_string(r: &Rope) -> (s: String)
    ensures
        s@ == rope_text(*r),
{
    r.to_string()
}

} // verus!
