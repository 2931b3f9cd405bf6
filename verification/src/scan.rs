//! Scanning: from a source text to the sites it holds, by way of the grammar
//! parser's syntax tree.
//!
//! The tree is walked depth first, in document order. Every node is copied
//! into a plain value of this library as it is met, so that everything after
//! the scan works on values it can reason about.

use crate::error::ExpansionError;
use crate::path::{PathView, SymbolicPath};
use crate::site::{
    Annotation, AnnotationView, Declaration, DeclarationView, EntryView, InvocationSite,
    ListEntry, SiteView,
};
use proc_macro2::TokenStream;
use quote::ToTokens;
use vstd::prelude::*;

verus! {

/// `syn::Path`: a path as the grammar parser holds it.
#[verifier::external_type_specification]
#[verifier::external_body]
pub struct ExPath(syn::Path);

/// `syn::Macro`: a function-like macro invocation in the syntax tree.
#[verifier::external_type_specification]
#[verifier::external_body]
pub struct ExMacro(syn::Macro);

/// `syn::Item`: a declaration in the syntax tree.
#[verifier::external_type_specification]
#[verifier::external_body]
pub struct ExItem(syn::Item);

/// `syn::Attribute`: an attribute in the syntax tree.
#[verifier::external_type_specification]
#[verifier::external_body]
pub struct ExAttribute(syn::Attribute);

/// `syn::NestedMeta`: one entry of a list attribute in the syntax tree.
#[verifier::external_type_specification]
#[verifier::external_body]
pub struct ExNestedMeta(syn::NestedMeta);

/// What a `syn::Path` holds: whether it has a leading `::`, and the text of
/// each of its segments in order.
pub uninterp spec fn path_text(path: syn::Path) -> PathView;

/// Copies a `syn::Path` field by field: `leading_colon` as a flag, and each
/// of `segments` as the text of its tokens, by `ToTokens::to_token_stream`.
/// The contract names what is copied `path_text(path)`.
#[verifier::external_body]
fn path_of(path: &syn::Path) -> (copy: SymbolicPath)
    ensures
        copy@ == path_text(*path),
{
    SymbolicPath {
        leading_colon: path.leading_colon.is_some(),
        segments: path.segments.iter().map(|s| s.to_token_stream().to_string()).collect(),
    }
}

/// The path by which a `syn::Macro` names its macro: what its field `path`
/// holds.
pub uninterp spec fn macro_path_text(node: syn::Macro) -> PathView;

/// The field `path` of a `syn::Macro`.
#[verifier::external_body]
fn macro_path(node: &syn::Macro) -> (path: &syn::Path)
    ensures
        path_text(*path) == macro_path_text(*node),
{
    &node.path
}

/// The tokens between the delimiters of a `syn::Macro`: its field `tokens`.
pub uninterp spec fn macro_arguments(node: syn::Macro) -> TokenStream;

/// A copy of the field `tokens` of a `syn::Macro`: the tokens between the
/// delimiters of the invocation.
#[verifier::external_body]
fn macro_tokens(node: &syn::Macro) -> (tokens: TokenStream)
    ensures
        tokens == macro_arguments(*node),
{
    node.tokens.clone()
}

/// The path of a `syn::Attribute`: what its field `path` holds.
pub uninterp spec fn attribute_path_text(attribute: syn::Attribute) -> PathView;

/// The field `path` of a `syn::Attribute`.
#[verifier::external_body]
fn attribute_path(attribute: &syn::Attribute) -> (path: &syn::Path)
    ensures
        path_text(*path) == attribute_path_text(*attribute),
{
    &attribute.path
}

/// All that follows the path inside the brackets of a `syn::Attribute`,
/// delimiters included: its field `tokens`.
pub uninterp spec fn attribute_rest(attribute: syn::Attribute) -> TokenStream;

/// A copy of the field `tokens` of a `syn::Attribute`: all that follows the
/// path inside the brackets.
#[verifier::external_body]
fn attribute_tokens(attribute: &syn::Attribute) -> (tokens: TokenStream)
    ensures
        tokens == attribute_rest(*attribute),
{
    attribute.tokens.clone()
}

/// The tokens between the delimiters of a `syn::Attribute` whose path is
/// followed by one delimited group and nothing else, as in `#[a(x, y)]`;
/// `None` for every other attribute: what `syn::Attribute::parse_args` gives
/// when it is asked for a token stream.
pub uninterp spec fn attribute_inside(attribute: syn::Attribute) -> Option<TokenStream>;

/// Calls `syn::Attribute::parse_args::<TokenStream>`, which enters the one
/// delimited group after the path and hands back what stands inside it, and
/// fails where the path is followed by nothing, by `=`, or by anything
/// after the group. A failure is handed on as `None`.
#[verifier::external_body]
fn attribute_arguments_inside(attribute: &syn::Attribute) -> (inside: Option<TokenStream>)
    ensures
        inside == attribute_inside(*attribute),
{
    attribute.parse_args::<TokenStream>().ok()
}

/// The argument tokens of an attribute, as a compiler hands them to an
/// attribute macro: what stands between the delimiters, without the
/// delimiters. An attribute that has no delimited arguments (a bare path, or
/// a path followed by `= value`) hands over what follows its path as it is
/// written, which is nothing for a bare path.
pub open spec fn arguments_at(attribute: syn::Attribute) -> TokenStream {
    match attribute_inside(attribute) {
        Some(inside) => inside,
        None => attribute_rest(attribute),
    }
}

/// The bare path that a `syn::NestedMeta` is, or `None` where it is anything
/// else.
pub uninterp spec fn listed_path_text(entry: syn::NestedMeta) -> Option<PathView>;

/// The entry that a `syn::NestedMeta` stands for: the path it lists, where
/// it is a bare path.
pub open spec fn entry_at(entry: syn::NestedMeta) -> EntryView {
    match listed_path_text(entry) {
        Some(path) => EntryView::Path(path),
        None => EntryView::Other,
    }
}

/// The entries of a `syn::Attribute` that reads as a list, in order, or
/// `None` where it does not read as one: what `syn::Attribute::parse_meta`
/// gives for it.
pub uninterp spec fn attribute_list(attribute: syn::Attribute) -> Option<Seq<EntryView>>;

/// Calls `syn::Attribute::parse_meta`. Where the attribute reads as a list,
/// `path(entry, ...)`, the result is the entries of that list in order; in
/// every other case, a parse error included, it is `None`. The contract
/// names that outcome `attribute_list(attribute)`, entry by entry. The
/// tokens of an attribute come from the same lexer as every other token, so
/// the parser knows every literal among them.
#[verifier::external_body]
fn attribute_entries(attribute: &syn::Attribute) -> (entries: Option<Vec<syn::NestedMeta>>)
    ensures
        entries is Some <==> attribute_list(*attribute) is Some,
        entries matches Some(list) ==> attribute_list(*attribute) == Some(
            Seq::new(list@.len(), |k: int| entry_at(list@[k])),
        ),
{
    match attribute.parse_meta() {
        Ok(syn::Meta::List(list)) => Some(list.nested.into_iter().collect()),
        _ => None,
    }
}

/// The path inside a `syn::NestedMeta` that is a bare path, and `None` for
/// every other entry. The contract names what that path holds
/// `listed_path_text(entry)`.
#[verifier::external_body]
fn entry_path(entry: &syn::NestedMeta) -> (path: Option<&syn::Path>)
    ensures
        match path {
            Some(inner) => listed_path_text(*entry) == Some(path_text(*inner)),
            None => listed_path_text(*entry) is None,
        },
{
    match entry {
        syn::NestedMeta::Meta(syn::Meta::Path(path)) => Some(path),
        _ => None,
    }
}

/// What a `syn::Attribute` holds: its path, its argument tokens, and, where
/// lists are read, its entries where it reads as a list.
pub open spec fn annotation_at(attribute: syn::Attribute, lists: bool) -> AnnotationView {
    AnnotationView {
        path: attribute_path_text(attribute),
        tokens: arguments_at(attribute),
        list: if lists {
            attribute_list(attribute)
        } else {
            None
        },
    }
}

/// An annotation as it is copied where lists are not read.
pub open spec fn without_list(annotation: AnnotationView) -> AnnotationView {
    AnnotationView { path: annotation.path, tokens: annotation.tokens, list: None }
}

/// The attributes of a `syn::Item` of the variants `Const`, `ExternCrate`,
/// `Fn`, `ForeignMod`, `Macro`, `Macro2`, `Mod`, `Static` and `Use`, in the
/// order they are written, and `None` for every other variant.
pub uninterp spec fn value_item_annotations(item: syn::Item) -> Option<Seq<AnnotationView>>;

/// The field `attrs` of a `syn::Item` of the variants `Const`, `ExternCrate`,
/// `Fn`, `ForeignMod`, `Macro`, `Macro2`, `Mod`, `Static` and `Use`, and
/// `None` for every other variant. The contract names what those attributes
/// hold `value_item_annotations(item)`, attribute by attribute.
#[verifier::external_body]
fn value_item_attributes(item: &syn::Item) -> (attributes: Option<&Vec<syn::Attribute>>)
    ensures
        attributes is Some <==> value_item_annotations(*item) is Some,
        attributes matches Some(list) ==> value_item_annotations(*item) == Some(
            Seq::new(list@.len(), |k: int| annotation_at(list@[k], true)),
        ),
{
    match item {
        syn::Item::Const(i) => Some(&i.attrs),
        syn::Item::ExternCrate(i) => Some(&i.attrs),
        syn::Item::Fn(i) => Some(&i.attrs),
        syn::Item::ForeignMod(i) => Some(&i.attrs),
        syn::Item::Macro(i) => Some(&i.attrs),
        syn::Item::Macro2(i) => Some(&i.attrs),
        syn::Item::Mod(i) => Some(&i.attrs),
        syn::Item::Static(i) => Some(&i.attrs),
        syn::Item::Use(i) => Some(&i.attrs),
        _ => None,
    }
}

/// The attributes of a `syn::Item` of the variants `Enum`, `Impl`, `Struct`,
/// `Trait`, `TraitAlias`, `Type` and `Union`, in the order they are written,
/// and `None` for every other variant.
pub uninterp spec fn type_item_annotations(item: syn::Item) -> Option<Seq<AnnotationView>>;

/// The field `attrs` of a `syn::Item` of the variants `Enum`, `Impl`,
/// `Struct`, `Trait`, `TraitAlias`, `Type` and `Union`, and `None` for every
/// other variant. The contract names what those attributes hold
/// `type_item_annotations(item)`, attribute by attribute.
#[verifier::external_body]
fn type_item_attributes(item: &syn::Item) -> (attributes: Option<&Vec<syn::Attribute>>)
    ensures
        attributes is Some <==> type_item_annotations(*item) is Some,
        attributes matches Some(list) ==> type_item_annotations(*item) == Some(
            Seq::new(list@.len(), |k: int| annotation_at(list@[k], true)),
        ),
{
    match item {
        syn::Item::Enum(i) => Some(&i.attrs),
        syn::Item::Impl(i) => Some(&i.attrs),
        syn::Item::Struct(i) => Some(&i.attrs),
        syn::Item::Trait(i) => Some(&i.attrs),
        syn::Item::TraitAlias(i) => Some(&i.attrs),
        syn::Item::Type(i) => Some(&i.attrs),
        syn::Item::Union(i) => Some(&i.attrs),
        _ => None,
    }
}

/// A `syn::Item` written back as tokens, its attributes included: what
/// `ToTokens::to_token_stream` gives for it.
pub uninterp spec fn item_text(item: syn::Item) -> TokenStream;

/// Calls `ToTokens::to_token_stream` on a `syn::Item`: the whole declaration
/// written back as tokens, its attributes included.
#[verifier::external_body]
fn item_tokens(item: &syn::Item) -> (tokens: TokenStream)
    ensures
        tokens == item_text(*item),
{
    item.to_token_stream()
}

/// The attributes that a `syn::Item` carries itself, in the order they are
/// written, with their lists. An item of none of the sixteen kinds that
/// carry attributes (one that the grammar parser keeps as raw tokens) has
/// none.
pub open spec fn written_annotations(item: syn::Item) -> Seq<AnnotationView> {
    match value_item_annotations(item) {
        Some(annotations) => annotations,
        None => match type_item_annotations(item) {
            Some(annotations) => annotations,
            None => Seq::empty(),
        },
    }
}

/// The attributes that a `syn::Item` carries itself, as they are copied:
/// with their lists where lists are read, and without where they are not.
pub open spec fn own_annotations(item: syn::Item, lists: bool) -> Seq<AnnotationView> {
    if lists {
        written_annotations(item)
    } else {
        written_annotations(item).map_values(|annotation: AnnotationView| without_list(annotation))
    }
}

/// The declaration that a `syn::Item` is: its own attributes, and the whole
/// of it as tokens.
pub open spec fn declaration_at(item: syn::Item, lists: bool) -> DeclarationView {
    DeclarationView { annotations: own_annotations(item, lists), tokens: item_text(item) }
}

/// Copies one entry of a list attribute: a bare path as that path, anything
/// else as `Other`.
fn entry_of(entry: &syn::NestedMeta) -> (copy: ListEntry)
    ensures
        copy@ == entry_at(*entry),
{
    match entry_path(entry) {
        Some(path) => ListEntry::Path(path_of(path)),
        None => ListEntry::Other,
    }
}

/// Copies one attribute: its path, its argument tokens without their
/// delimiters, and, where `lists` asks for it and the attribute reads as a
/// list, its entries in order. Where `lists` does not ask for it the list is
/// not read at all.
fn annotation_of(attribute: &syn::Attribute, lists: bool) -> (copy: Annotation)
    ensures
        copy@ == annotation_at(*attribute, lists),
{
    let entries = if lists {
        attribute_entries(attribute)
    } else {
        None
    };
    let list = match entries {
        Some(entries) => {
            let mut list: Vec<ListEntry> = Vec::new();
            let mut i: usize = 0;
            while i < entries.len()
                invariant
                    i <= entries.len(),
                    list@.len() == i,
                    forall|k: int| 0 <= k < i ==> (#[trigger] list@[k])@ == entry_at(entries@[k]),
                decreases entries.len() - i,
            {
                list.push(entry_of(&entries[i]));
                i += 1;
            }
            assert(list.deep_view() =~= Seq::new(entries@.len(), |k: int| entry_at(entries@[k])));
            Some(list)
        },
        None => None,
    };
    let tokens = match attribute_arguments_inside(attribute) {
        Some(inside) => inside,
        None => attribute_tokens(attribute),
    };
    Annotation { path: path_of(attribute_path(attribute)), tokens, list }
}

/// Copies one declaration: its own attributes in the order they are written,
/// and the whole of it as tokens. An item that the grammar parser keeps as
/// raw tokens has no attributes of its own.
fn declaration_of(item: &syn::Item, lists: bool) -> (copy: Declaration)
    ensures
        copy@ == declaration_at(*item, lists),
{
    let mut annotations: Vec<Annotation> = Vec::new();
    let attributes = match value_item_attributes(item) {
        Some(attributes) => Some(attributes),
        None => type_item_attributes(item),
    };
    if let Some(attributes) = attributes {
        let mut i: usize = 0;
        while i < attributes.len()
            invariant
                i <= attributes.len(),
                annotations@.len() == i,
                forall|k: int|
                    0 <= k < i ==> (#[trigger] annotations@[k])@ == annotation_at(
                        attributes@[k],
                        lists,
                    ),
            decreases attributes.len() - i,
        {
            annotations.push(annotation_of(&attributes[i], lists));
            i += 1;
        }
        let ghost written = Seq::new(
            attributes@.len(),
            |k: int| annotation_at(attributes@[k], true),
        );
        assert(written == written_annotations(*item));
        assert(annotations.deep_view() =~= own_annotations(*item, lists));
    } else {
        assert(written_annotations(*item) =~= Seq::<AnnotationView>::empty());
        assert(annotations.deep_view() =~= own_annotations(*item, lists));
    }
    Declaration { annotations, tokens: item_tokens(item) }
}

/// The site that a function-like invocation makes: the path written there,
/// and the tokens between its delimiters as the payload.
pub open spec fn invocation_at(node: syn::Macro) -> SiteView<TokenStream> {
    SiteView { path: macro_path_text(node), payload: macro_arguments(node) }
}

/// Gathers the function-like invocations of a syntax tree as it is walked.
struct InvocationScanner {
    calls: Vec<InvocationSite<TokenStream>>,
}

impl InvocationScanner {
    /// The sites gathered so far, in the order they were met.
    pub closed spec fn found(&self) -> Seq<SiteView<TokenStream>> {
        self.calls.deep_view()
    }
}

impl<'ast> syn::visit::Visit<'ast> for InvocationScanner {
    fn visit_macro(&mut self, node: &'ast syn::Macro)
        ensures
            final(self).found() == old(self).found().push(invocation_at(*node)),
    {
        self.calls.push(
            InvocationSite { path: path_of(macro_path(node)), payload: macro_tokens(node) },
        );
    }
}

/// Gathers the declarations of a syntax tree as it is walked. A scanner that
/// serves derives reads the list of every attribute; one that serves
/// attributes reads none.
struct DeclarationScanner {
    declarations: Vec<Declaration>,
    lists: bool,
}

impl DeclarationScanner {
    /// The declarations gathered so far, in the order they were met.
    pub closed spec fn found(&self) -> Seq<DeclarationView> {
        self.declarations.deep_view()
    }

    /// Whether this scanner reads the lists of attributes.
    pub closed spec fn reads_lists(&self) -> bool {
        self.lists
    }
}

/// The declarations nested in a `syn::Item`, at any depth, in document
/// order: what a walk below the item brings a scanner that reads lists or
/// does not, as `lists` says.
pub uninterp spec fn nested_declarations(item: syn::Item, lists: bool) -> Seq<DeclarationView>;

/// Calls `syn::visit::visit_item`, which walks on into what `item` holds and
/// so brings the scanner the declarations nested in it. The walk hands the
/// scanner nothing but items, and the scanner only ever adds what it is
/// handed at its end; what is added depends on the item alone, and the
/// contract names it `nested_declarations(item)`.
#[verifier::external_body]
fn walk_item(scanner: &mut DeclarationScanner, item: &syn::Item)
    ensures
        final(scanner).reads_lists() == old(scanner).reads_lists(),
        final(scanner).found() == old(scanner).found() + nested_declarations(
            *item,
            old(scanner).reads_lists(),
        ),
{
    syn::visit::visit_item(scanner, item)
}

impl<'ast> syn::visit::Visit<'ast> for DeclarationScanner {
    fn visit_item(&mut self, item: &'ast syn::Item)
        ensures
            final(self).reads_lists() == old(self).reads_lists(),
            final(self).found() == old(self).found().push(
                declaration_at(*item, old(self).reads_lists()),
            ) + nested_declarations(*item, old(self).reads_lists()),
    {
        let ghost before = self.declarations.deep_view();
        self.declarations.push(declaration_of(item, self.lists));
        assert(self.declarations.deep_view() =~= before.push(declaration_at(*item, self.lists)));
        walk_item(self, item);
    }
}

/// The function-like invocations that a scan finds in `source`, in document
/// order, or `None` where `source` is not valid syntax.
pub uninterp spec fn scanned_invocations(source: Seq<char>) -> Option<Seq<SiteView<TokenStream>>>;

/// The declarations that a scan finds in `source`, in document order (a
/// declaration comes before those nested in it), or `None` where `source` is
/// not valid syntax. Where `lists` holds the annotations carry their lists;
/// where it does not, no list is read and none is carried.
pub uninterp spec fn scanned_declarations(source: Seq<char>, lists: bool) -> Option<
    Seq<DeclarationView>,
>;

/// Calls `syn::parse_file` and then `syn::visit::visit_file`, which walks the
/// tree and hands the scanner every `syn::Macro` in it. The contract only
/// gives the outcome a name: the same text always yields the same sites, and
/// an error exactly when the parser refuses the text. The call returns on
/// every text: the lexer that this crate is built with hands the parser no
/// kind of literal that the parser does not know.
#[verifier::external_body]
fn scan_invocations(source: &str) -> (scanned: Result<
    Vec<InvocationSite<TokenStream>>,
    syn::Error,
>)
    ensures
        scanned is Ok <==> scanned_invocations(source@) is Some,
        scanned matches Ok(calls) ==> scanned_invocations(source@) == Some(calls.deep_view()),
{
    let file = syn::parse_file(source)?;
    let mut scanner = InvocationScanner { calls: Vec::new() };
    syn::visit::visit_file(&mut scanner, &file);
    Ok(scanner.calls)
}

/// Calls `syn::parse_file` and then `syn::visit::visit_file`, which walks the
/// tree and hands the scanner every `syn::Item` in it. The contract only
/// gives the outcome a name: the same text and the same choice about lists
/// always yield the same declarations, and an error exactly when the parser
/// refuses the text. The call returns on every text, as the scan for
/// invocations does.
#[verifier::external_body]
fn scan_declarations(source: &str, lists: bool) -> (scanned: Result<Vec<Declaration>, syn::Error>)
    ensures
        scanned is Ok <==> scanned_declarations(source@, lists) is Some,
        scanned matches Ok(declarations) ==> scanned_declarations(source@, lists) == Some(
            declarations.deep_view(),
        ),
{
    let file = syn::parse_file(source)?;
    let mut scanner = DeclarationScanner { declarations: Vec::new(), lists };
    syn::visit::visit_file(&mut scanner, &file);
    Ok(scanner.declarations)
}

/// Scans `source` for function-like macro invocations. Fails with
/// `SyntaxFailure` exactly where the source is not valid syntax.
pub fn invocations_in(source: &str) -> (found: Result<
    Vec<InvocationSite<TokenStream>>,
    ExpansionError,
>)
    ensures
        found is Ok <==> scanned_invocations(source@) is Some,
        found matches Ok(calls) ==> scanned_invocations(source@) == Some(calls.deep_view()),
        found matches Err(e) ==> e is SyntaxFailure,
{
    match scan_invocations(source) {
        Ok(calls) => Ok(calls),
        Err(e) => Err(ExpansionError::SyntaxFailure(e)),
    }
}

/// Scans `source` for declarations. With `lists` the list of every attribute
/// that reads as one is read, as derives need it; without, no list is read
/// and every annotation comes without one. Fails with `SyntaxFailure`
/// exactly where the source is not valid syntax.
pub fn declarations_in(source: &str, lists: bool) -> (found: Result<
    Vec<Declaration>,
    ExpansionError,
>)
    ensures
        found is Ok <==> scanned_declarations(source@, lists) is Some,
        found matches Ok(declarations) ==> scanned_declarations(source@, lists) == Some(
            declarations.deep_view(),
        ),
        found matches Err(e) ==> e is SyntaxFailure,
{
    match scan_declarations(source, lists) {
        Ok(declarations) => Ok(declarations),
        Err(e) => Err(ExpansionError::SyntaxFailure(e)),
    }
}

} // verus!
