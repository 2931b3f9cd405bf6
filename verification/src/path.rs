//! Symbolic paths: the qualified names by which macros are registered and
//! invoked, and the resolver that reads one from text.

use crate::error::ExpansionError;
use quote::ToTokens;
use vstd::prelude::*;

verus! {

/// What a path is, mathematically: whether it starts at the crate root with a
/// leading `::`, and its segments in order, each as its text.
pub struct PathView {
    pub leading_colon: bool,
    pub segments: Seq<Seq<char>>,
}

/// A qualified name such as `check` or `::my_crate::check`.
///
/// Two paths are the same when they agree on the leading `::` and, segment by
/// segment, on the text of every segment. Nothing is resolved or normalised:
/// `check` and `my_crate::check` are different paths even where both name the
/// same macro.
#[derive(Debug, PartialEq, Eq)]
pub struct SymbolicPath {
    pub leading_colon: bool,
    pub segments: Vec<String>,
}

impl View for SymbolicPath {
    type V = PathView;

    open spec fn view(&self) -> PathView {
        PathView { leading_colon: self.leading_colon, segments: self.segments.deep_view() }
    }
}

impl DeepView for SymbolicPath {
    type V = PathView;

    open spec fn deep_view(&self) -> PathView {
        self.view()
    }
}

impl Clone for SymbolicPath {
    fn clone(&self) -> (copy: Self)
        ensures
            copy@ == self@,
    {
        let mut segments: Vec<String> = Vec::new();
        let mut i: usize = 0;
        while i < self.segments.len()
            invariant
                i <= self.segments.len(),
                segments.len() == i,
                forall|k: int| 0 <= k < i ==> segments[k]@ == self.segments[k]@,
            decreases self.segments.len() - i,
        {
            segments.push(self.segments[i].clone());
            i += 1;
        }
        let copy = SymbolicPath { leading_colon: self.leading_colon, segments };
        assert(copy@.segments =~= self@.segments);
        copy
    }
}

/// The path that is the one name `name`, with no leading `::`.
pub open spec fn single_name(name: Seq<char>) -> PathView {
    PathView { leading_colon: false, segments: seq![name] }
}

/// The path that the grammar parser reads from `text`, or `None` where `text`
/// is not a path: what `syn::parse_str::<syn::Path>` gives for it. A segment
/// that carries generic arguments keeps them in its text.
pub uninterp spec fn parsed_path(text: Seq<char>) -> Option<PathView>;

/// Calls `syn::parse_str::<syn::Path>` and copies the path it returns field by
/// field: the leading `::` as a flag, and each segment as the text of its
/// tokens. The contract names that result `parsed_path(text)`, and adds what
/// the parser's source shows of every path it accepts: it reads one segment
/// before it looks for a separator, so a parsed path is never empty. The
/// call returns on every text: the lexer that this crate is built with hands
/// the parser no kind of literal that the parser does not know.
#[verifier::external_body]
fn parse_path(text: &str) -> (parsed: Result<SymbolicPath, syn::Error>)
    ensures
        parsed is Ok <==> parsed_path(text@) is Some,
        parsed matches Ok(path) ==> parsed_path(text@) == Some(path@) && path@.segments.len() > 0,
{
    let path = syn::parse_str::<syn::Path>(text)?;
    Ok(
        SymbolicPath {
            leading_colon: path.leading_colon.is_some(),
            segments: path.segments.iter().map(|s| s.to_token_stream().to_string()).collect(),
        },
    )
}

/// What stands between two segments, and before the first where the path
/// has a leading `::`.
pub open spec fn separator() -> Seq<char> {
    seq![':', ':']
}

/// The segments written one after the other with a separator between each
/// two.
pub open spec fn joined(segments: Seq<Seq<char>>) -> Seq<char>
    decreases segments.len(),
{
    if segments.len() == 0 {
        Seq::empty()
    } else if segments.len() == 1 {
        segments[0]
    } else {
        segments[0] + separator() + joined(segments.drop_first())
    }
}

/// The text by which a path is shown.
pub open spec fn display_text(path: PathView) -> Seq<char> {
    if path.leading_colon {
        separator() + joined(path.segments)
    } else {
        joined(path.segments)
    }
}

/// Whether a text begins with a separator.
pub open spec fn starts_with_separator(text: Seq<char>) -> bool {
    text.len() >= 2 && text[0] == ':' && text[1] == ':'
}

/// How many characters of `text` come before its first separator: the whole
/// length of a text that holds none.
pub open spec fn name_length(text: Seq<char>) -> int
    decreases text.len(),
{
    if text.len() == 0 || starts_with_separator(text) {
        0
    } else {
        1 + name_length(text.drop_first())
    }
}

/// The segments that a text denotes: the stretches of it between
/// separators. A text is split only where a separator stands; a single `:`
/// is part of a segment.
pub open spec fn denoted_segments(text: Seq<char>) -> Seq<Seq<char>>
    decreases text.len(),
{
    let length = name_length(text);
    if 0 <= length && length + 2 <= text.len() && starts_with_separator(text.skip(length)) {
        seq![text.take(length)] + denoted_segments(text.skip(length + 2))
    } else {
        seq![text]
    }
}

/// The path that a shown text denotes.
pub open spec fn denoted_path(text: Seq<char>) -> PathView {
    if starts_with_separator(text) {
        PathView { leading_colon: true, segments: denoted_segments(text.skip(2)) }
    } else {
        PathView { leading_colon: false, segments: denoted_segments(text) }
    }
}

/// A segment that is a plain name: not empty, and without a `:` in it.
pub open spec fn is_plain_name(segment: Seq<char>) -> bool {
    segment.len() > 0 && forall|i: int| 0 <= i < segment.len() ==> segment[i] != ':'
}

/// A path whose segments are all plain names, as the path of every macro
/// invocation is.
pub open spec fn is_plain_path(path: PathView) -> bool {
    path.segments.len() > 0 && forall|i: int|
        0 <= i < path.segments.len() ==> is_plain_name(#[trigger] path.segments[i])
}

/// A plain name ends where the text after it begins, if that text is empty
/// or begins with a separator.
proof fn lemma_name_length(name: Seq<char>, rest: Seq<char>)
    requires
        forall|i: int| 0 <= i < name.len() ==> name[i] != ':',
        rest.len() == 0 || starts_with_separator(rest),
    ensures
        name_length(name + rest) == name.len(),
    decreases name.len(),
{
    if name.len() > 0 {
        assert((name + rest)[0] == name[0]);
        assert((name + rest).drop_first() =~= name.drop_first() + rest);
        lemma_name_length(name.drop_first(), rest);
    } else {
        assert(name + rest =~= rest);
    }
}

/// Joined segments begin as their first segment does.
proof fn lemma_joined_begins(segments: Seq<Seq<char>>)
    requires
        segments.len() > 0,
        segments[0].len() > 0,
    ensures
        joined(segments).len() > 0,
        joined(segments)[0] == segments[0][0],
{
}

/// Joining plain names and reading the segments back gives the names.
proof fn lemma_joined_denotes(segments: Seq<Seq<char>>)
    requires
        segments.len() > 0,
        forall|i: int| 0 <= i < segments.len() ==> is_plain_name(#[trigger] segments[i]),
    ensures
        denoted_segments(joined(segments)) == segments,
    decreases segments.len(),
{
    let first = segments[0];
    if segments.len() == 1 {
        lemma_name_length(first, Seq::empty());
    } else {
        let rest = segments.drop_first();
        let text = joined(segments);
        assert forall|i: int| 0 <= i < rest.len() implies is_plain_name(#[trigger] rest[i]) by {
            assert(rest[i] == segments[i + 1]);
        }
        lemma_joined_denotes(rest);
        assert(text =~= first + (separator() + joined(rest)));
        lemma_name_length(first, separator() + joined(rest));
        assert(text.take(first.len() as int) =~= first);
        assert(text.skip(first.len() as int + 2) =~= joined(rest));
    }
}

/// Showing a path and reading the text back gives the path: the text that
/// `display` writes denotes the segments it was written from, and the
/// leading `::` where there is one. This holds of every path whose segments
/// are plain names.
pub proof fn lemma_display_round_trip(path: PathView)
    requires
        is_plain_path(path),
    ensures
        denoted_path(display_text(path)) == path,
{
    let segments = path.segments;
    lemma_joined_denotes(segments);
    lemma_joined_begins(segments);
    if path.leading_colon {
        assert((separator() + joined(segments)).skip(2) =~= joined(segments));
    }
}

/// Joining one more segment adds a separator and the segment.
proof fn lemma_joined_push(segments: Seq<Seq<char>>, last: Seq<char>)
    ensures
        joined(segments.push(last)) == if segments.len() == 0 {
            last
        } else {
            joined(segments) + separator() + last
        },
    decreases segments.len(),
{
    if segments.len() > 0 {
        assert(segments.push(last).drop_first() =~= segments.drop_first().push(last));
        lemma_joined_push(segments.drop_first(), last);
    }
}

impl SymbolicPath {
    /// A path has at least one segment.
    pub open spec fn well_formed(&self) -> bool {
        self@.segments.len() > 0
    }

    /// Reads a path from its text. Fails with `SyntaxFailure` exactly where the
    /// grammar parser does not accept `text` as a path.
    pub fn resolve(text: &str) -> (resolved: Result<SymbolicPath, ExpansionError>)
        ensures
            resolved is Ok <==> parsed_path(text@) is Some,
            resolved matches Ok(path) ==> parsed_path(text@) == Some(path@) && path.well_formed(),
            resolved matches Err(e) ==> e is SyntaxFailure,
    {
        match parse_path(text) {
            Ok(path) => Ok(path),
            Err(e) => Err(ExpansionError::SyntaxFailure(e)),
        }
    }

    /// Whether two paths are the same path.
    pub fn same_as(&self, other: &SymbolicPath) -> (same: bool)
        ensures
            same == (self@ == other@),
    {
        assert(self@.segments.len() == self.segments.len());
        assert(other@.segments.len() == other.segments.len());
        if self.leading_colon != other.leading_colon || self.segments.len()
            != other.segments.len() {
            return false;
        }
        let mut i: usize = 0;
        while i < self.segments.len()
            invariant
                i <= self.segments.len(),
                self.segments.len() == other.segments.len(),
                forall|k: int| 0 <= k < i ==> self@.segments[k] == other@.segments[k],
            decreases self.segments.len() - i,
        {
            if self.segments[i] != other.segments[i] {
                assert(self@.segments[i as int] != other@.segments[i as int]);
                return false;
            }
            i += 1;
        }
        assert(self@.segments =~= other@.segments);
        true
    }

    /// Whether the path is the single name `name`, with no leading `::`.
    pub fn is_name(&self, name: &str) -> (yes: bool)
        ensures
            yes == (self@ == single_name(name@)),
    {
        assert(seq![name@].len() == 1);
        if self.leading_colon || self.segments.len() != 1 {
            return false;
        }
        let same = self.segments[0] == String::from_str(name);
        assert(same ==> self@.segments =~= seq![name@]);
        assert(!same ==> self@.segments[0] != seq![name@][0]);
        same
    }

    /// The path as text: its segments with `::` between them, after a
    /// leading `::` where the path has one. Read back, the text of a path of
    /// plain names denotes that path.
    pub fn display(&self) -> (text: String)
        ensures
            text@ == display_text(self@),
            is_plain_path(self@) ==> denoted_path(text@) == self@,
    {
        proof {
            reveal_strlit("::");
            if is_plain_path(self@) {
                lemma_display_round_trip(self@);
            }
        }
        let ghost segments = self@.segments;
        let mut text = String::new();
        if self.leading_colon {
            text.append("::");
        }
        let ghost lead = text@;
        let mut i: usize = 0;
        while i < self.segments.len()
            invariant
                i <= self.segments.len(),
                segments == self@.segments,
                segments.len() == self.segments.len(),
                "::"@ == separator(),
                text@ == lead + joined(segments.take(i as int)),
            decreases self.segments.len() - i,
        {
            proof {
                lemma_joined_push(segments.take(i as int), segments[i as int]);
                assert(segments.take(i + 1) =~= segments.take(i as int).push(segments[i as int]));
            }
            if i > 0 {
                text.append("::");
            }
            text.append(self.segments[i].as_str());
            i += 1;
        }
        assert(segments.take(self.segments.len() as int) =~= segments);
        text
    }
}

} // verus!
