//! Runs the expansion functions of procedural macros at run time.
//!
//! A procedural macro expands while the compiler runs, before any coverage
//! tool can watch it. This library replays that step in an ordinary process:
//! it scans a source text for the places that invoke a registered macro and
//! hands each one to the expansion function registered for it, in the order a
//! compiler would meet them. Nothing is rewritten and the expansions are thrown
//! away; what counts is that the expansion code ran, and whether it gave up.
//!
//! ```
//! use proc_macro2::TokenStream;
//! use runtime_macros::emulate_functionlike_macro_expansion;
//!
//! fn remove(_arguments: TokenStream) -> Option<TokenStream> {
//!     // This macro eats its input and expands to nothing.
//!     Some(TokenStream::new())
//! }
//!
//! let source = "fn f() { remove!(1 + 1); }";
//! assert!(emulate_functionlike_macro_expansion(source, &[("remove", remove)]).is_ok());
//! ```
//!
//! Matching is by the path as it is written. With `"remove"` registered, an
//! invocation spelled `helpers::remove!` is passed over.

pub mod dispatch;
pub mod error;
pub mod path;
pub mod plan;
pub mod scan;
pub mod site;
pub mod tokens;

pub use dispatch::{
    dispatch, dispatch_attributes, emulate_attributelike_macro_expansion,
    emulate_derive_macro_expansion, emulate_functionlike_macro_expansion,
    expand_attribute_macros, expand_derive_macros, expand_functionlike_macros, resolve_targets,
};
pub use error::ExpansionError;
pub use path::SymbolicPath;
pub use scan::{declarations_in, invocations_in};
pub use site::{
    find_attribute_sites, find_derive_sites, Annotation, Declaration, InvocationSite, ListEntry,
};
