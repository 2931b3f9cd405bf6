//! The token payloads that travel from a source text to an expansion function.

use vstd::prelude::*;

verus! {

/// `proc_macro2::TokenStream`: a sequence of lexical tokens. The library never
/// looks inside one; it only carries them from the scanned source to the
/// expansion functions.
#[verifier::external_type_specification]
#[verifier::external_body]
pub struct ExTokenStream(proc_macro2::TokenStream);

/// Calls `Clone::clone` of `proc_macro2::TokenStream`, which hands back an
/// independent stream holding the same tokens with the same spans. The
/// contract says just that: the copy is the value that was copied.
#[verifier::external_body]
pub(crate) fn snapshot(tokens: &proc_macro2::TokenStream) -> (copy: proc_macro2::TokenStream)
    ensures
        copy == *tokens,
{
    tokens.clone()
}

} // verus!
