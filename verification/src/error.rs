//! The one error type that every entry point returns.

use vstd::prelude::*;

verus! {

/// `std::io::Error`, carried unopened from whoever read the source.
#[verifier::external_type_specification]
#[verifier::external_body]
pub struct ExIoError(std::io::Error);

/// `syn::Error`, carried unopened from the grammar parser.
#[verifier::external_type_specification]
#[verifier::external_body]
pub struct ExSyntaxError(syn::Error);

/// Why an expansion run did not succeed.
#[derive(Debug)]
pub enum ExpansionError {
    /// The source could not be read.
    IoFailure(std::io::Error),
    /// The source text, or the path of a registered macro, is not valid syntax.
    SyntaxFailure(syn::Error),
    /// An expansion function gave up while it was being run.
    InvocationFailure,
}

impl ExpansionError {
    /// What `message` says of an expansion function that gave up.
    pub open spec fn invocation_failure_text() -> Seq<char> {
        "macro expansion panicked"@
    }

    /// A line of text for a human reader: what the error that is carried
    /// says of itself, and a fixed line where an expansion function gave up.
    pub fn message(&self) -> (text: String)
        ensures
            match self {
                ExpansionError::IoFailure(e) => vstd::string::to_string_from_display_ensures(
                    e,
                    text,
                ),
                ExpansionError::SyntaxFailure(e) => vstd::string::to_string_from_display_ensures(
                    e,
                    text,
                ),
                ExpansionError::InvocationFailure => text@ == Self::invocation_failure_text(),
            },
    {
        match self {
            ExpansionError::IoFailure(e) => e.to_string(),
            ExpansionError::SyntaxFailure(e) => e.to_string(),
            ExpansionError::InvocationFailure => String::from_str("macro expansion panicked"),
        }
    }
}

} // verus!
