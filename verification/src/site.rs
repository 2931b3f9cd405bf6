//! What a scan of a source text finds: the places that may invoke a macro.

use crate::path::{single_name, PathView, SymbolicPath};
use crate::plan::{owed_before, plan, Invocation};
use crate::tokens::snapshot;
use proc_macro2::TokenStream;
use vstd::prelude::*;

verus! {

/// A site, mathematically: the path written there and what is handed over.
pub struct SiteView<P> {
    pub path: PathView,
    pub payload: P,
}

/// One place that invokes a macro: the path by which the macro is named
/// there, and the payload that its expansion function receives.
///
/// For a function-like invocation the payload is the argument tokens; for a
/// derive it is the whole declaration; for an attribute it is the pair of the
/// attribute's argument tokens and the whole declaration.
#[derive(Debug)]
pub struct InvocationSite<P> {
    pub path: SymbolicPath,
    pub payload: P,
}

impl<P> View for InvocationSite<P> {
    type V = SiteView<P>;

    open spec fn view(&self) -> SiteView<P> {
        SiteView { path: self.path@, payload: self.payload }
    }
}

impl<P> DeepView for InvocationSite<P> {
    type V = SiteView<P>;

    open spec fn deep_view(&self) -> SiteView<P> {
        self.view()
    }
}

/// The paths written at a sequence of sites, in the same order.
pub open spec fn site_paths<P>(sites: Seq<SiteView<P>>) -> Seq<PathView> {
    Seq::new(sites.len(), |i: int| sites[i].path)
}

/// An entry of a list attribute, mathematically.
pub enum EntryView {
    Path(PathView),
    Other,
}

/// One entry between the parentheses of a list attribute such as
/// `#[derive(Clone, Debug)]`: a bare path, or anything else (a literal, a
/// nested list, a `name = value` pair).
#[derive(Debug)]
pub enum ListEntry {
    Path(SymbolicPath),
    Other,
}

impl View for ListEntry {
    type V = EntryView;

    open spec fn view(&self) -> EntryView {
        match self {
            ListEntry::Path(path) => EntryView::Path(path@),
            ListEntry::Other => EntryView::Other,
        }
    }
}

impl DeepView for ListEntry {
    type V = EntryView;

    open spec fn deep_view(&self) -> EntryView {
        self.view()
    }
}

/// An annotation, mathematically.
pub struct AnnotationView {
    pub path: PathView,
    pub tokens: TokenStream,
    pub list: Option<Seq<EntryView>>,
}

/// An attribute written on a declaration: its own path, its argument tokens
/// without the delimiters around them, and, where the attribute has the form
/// `path(entry, ...)` and the scan was asked to read lists, the entries of
/// that list.
#[derive(Debug)]
pub struct Annotation {
    pub path: SymbolicPath,
    pub tokens: TokenStream,
    pub list: Option<Vec<ListEntry>>,
}

impl View for Annotation {
    type V = AnnotationView;

    open spec fn view(&self) -> AnnotationView {
        AnnotationView {
            path: self.path@,
            tokens: self.tokens,
            list: self.list.deep_view(),
        }
    }
}

impl DeepView for Annotation {
    type V = AnnotationView;

    open spec fn deep_view(&self) -> AnnotationView {
        self.view()
    }
}

/// A declaration, mathematically.
pub struct DeclarationView {
    pub annotations: Seq<AnnotationView>,
    pub tokens: TokenStream,
}

/// A declaration (a struct, a function, a module, ...): the attributes on
/// it, in the order they are written, and the whole declaration as tokens,
/// attributes included.
#[derive(Debug)]
pub struct Declaration {
    pub annotations: Vec<Annotation>,
    pub tokens: TokenStream,
}

impl View for Declaration {
    type V = DeclarationView;

    open spec fn view(&self) -> DeclarationView {
        DeclarationView { annotations: self.annotations.deep_view(), tokens: self.tokens }
    }
}

impl DeepView for Declaration {
    type V = DeclarationView;

    open spec fn deep_view(&self) -> DeclarationView {
        self.view()
    }
}

/// The path that marks an attribute as a list of derives.
pub open spec fn derive_path() -> PathView {
    single_name("derive"@)
}

/// The path that an entry lists, where the entry is a bare path.
pub open spec fn listed_path(entry: EntryView) -> Option<PathView> {
    match entry {
        EntryView::Path(path) => Some(path),
        EntryView::Other => None,
    }
}

/// The names that an annotation derives, in the order they are listed:
/// the bare paths between the parentheses of a `derive(...)`, and nothing
/// for any other annotation.
pub open spec fn derived_names(annotation: AnnotationView) -> Seq<PathView> {
    if annotation.path == derive_path() && annotation.list is Some {
        annotation.list->0.filter_map(|entry: EntryView| listed_path(entry))
    } else {
        Seq::empty()
    }
}

/// The derive site for one derived name on a declaration: it hands over the
/// whole declaration.
pub open spec fn derive_site(name: PathView, declaration: TokenStream) -> SiteView<TokenStream> {
    SiteView { path: name, payload: declaration }
}

/// The derive sites that one annotation makes on a declaration: one for each
/// derived name.
pub open spec fn derive_sites_at(annotation: AnnotationView, declaration: TokenStream) -> Seq<
    SiteView<TokenStream>,
> {
    derived_names(annotation).map_values(|name: PathView| derive_site(name, declaration))
}

/// The derive sites of one declaration, annotation by annotation.
pub open spec fn derive_sites_of(declaration: DeclarationView) -> Seq<SiteView<TokenStream>> {
    declaration.annotations.flat_map(
        |annotation: AnnotationView| derive_sites_at(annotation, declaration.tokens),
    )
}

/// The derive sites of a sequence of declarations, in document order.
pub open spec fn derive_sites(declarations: Seq<DeclarationView>) -> Seq<SiteView<TokenStream>> {
    declarations.flat_map(|declaration: DeclarationView| derive_sites_of(declaration))
}

/// The attribute site that one annotation makes on a declaration: under the
/// annotation's own path, it hands over the annotation's argument tokens and
/// the whole declaration.
pub open spec fn attribute_site(annotation: AnnotationView, declaration: TokenStream) -> SiteView<
    (TokenStream, TokenStream),
> {
    SiteView { path: annotation.path, payload: (annotation.tokens, declaration) }
}

/// The attribute sites of one declaration: one for each annotation on it.
pub open spec fn attribute_sites_of(declaration: DeclarationView) -> Seq<
    SiteView<(TokenStream, TokenStream)>,
> {
    declaration.annotations.map_values(
        |annotation: AnnotationView| attribute_site(annotation, declaration.tokens),
    )
}

/// The attribute sites of a sequence of declarations, in document order.
pub open spec fn attribute_sites(declarations: Seq<DeclarationView>) -> Seq<
    SiteView<(TokenStream, TokenStream)>,
> {
    declarations.flat_map(|declaration: DeclarationView| attribute_sites_of(declaration))
}

/// Adds to `sites` the derive sites that `annotation` makes on a declaration
/// whose tokens are `declaration`.
fn push_derive_sites_at(
    annotation: &Annotation,
    declaration: &TokenStream,
    sites: &mut Vec<InvocationSite<TokenStream>>,
)
    ensures
        final(sites).deep_view() == old(sites).deep_view() + derive_sites_at(
            annotation@,
            *declaration,
        ),
{
    if !annotation.path.is_name("derive") {
        return ;
    }
    if let Some(entries) = &annotation.list {
        let ghost views = entries.deep_view();
        let mut i: usize = 0;
        while i < entries.len()
            invariant
                i <= entries.len(),
                views == entries.deep_view(),
                sites.deep_view() == old(sites).deep_view() + views.take(i as int).filter_map(
                    |entry: EntryView| listed_path(entry),
                ).map_values(|name: PathView| derive_site(name, *declaration)),
            decreases entries.len() - i,
        {
            let ghost before = sites.deep_view();
            let ghost listed = |entry: EntryView| listed_path(entry);
            let ghost site = |name: PathView| derive_site(name, *declaration);
            proof {
                views.lemma_filter_map_take_succ(listed, i as int);
            }
            match &entries[i] {
                ListEntry::Path(path) => {
                    sites.push(
                        InvocationSite { path: path.clone(), payload: snapshot(declaration) },
                    );
                    assert(sites.deep_view() =~= before.push(site(path@)));
                },
                ListEntry::Other => {},
            }
            i += 1;
        }
        assert(views.take(entries.len() as int) =~= views);
    }
}

/// Adds to `sites` the derive sites of `declaration`.
fn push_derive_sites_of(declaration: &Declaration, sites: &mut Vec<InvocationSite<TokenStream>>)
    ensures
        final(sites).deep_view() == old(sites).deep_view() + derive_sites_of(declaration@),
{
    let ghost views = declaration.annotations.deep_view();
    let mut i: usize = 0;
    while i < declaration.annotations.len()
        invariant
            i <= declaration.annotations.len(),
            views == declaration.annotations.deep_view(),
            sites.deep_view() == old(sites).deep_view() + views.take(i as int).flat_map(
                |annotation: AnnotationView| derive_sites_at(annotation, declaration.tokens),
            ),
        decreases declaration.annotations.len() - i,
    {
        proof {
            let at = |annotation: AnnotationView| derive_sites_at(annotation, declaration.tokens);
            views.take(i as int).lemma_flat_map_push(at, views[i as int]);
            assert(views.take(i + 1) =~= views.take(i as int).push(views[i as int]));
        }
        push_derive_sites_at(&declaration.annotations[i], &declaration.tokens, sites);
        i += 1;
    }
    assert(views.take(declaration.annotations.len() as int) =~= views);
}

/// The places where a derive is invoked: for every declaration in order, for
/// every `derive(...)` on it in order, one site for every name the list
/// holds, each carrying the whole declaration.
pub fn find_derive_sites(declarations: &[Declaration]) -> (sites: Vec<InvocationSite<TokenStream>>)
    ensures
        sites.deep_view() == derive_sites(declarations.deep_view()),
{
    let ghost views = declarations.deep_view();
    let mut sites: Vec<InvocationSite<TokenStream>> = Vec::new();
    let mut i: usize = 0;
    while i < declarations.len()
        invariant
            i <= declarations.len(),
            views == declarations.deep_view(),
            sites.deep_view() == views.take(i as int).flat_map(
                |declaration: DeclarationView| derive_sites_of(declaration),
            ),
        decreases declarations.len() - i,
    {
        proof {
            let of = |declaration: DeclarationView| derive_sites_of(declaration);
            views.take(i as int).lemma_flat_map_push(of, views[i as int]);
            assert(views.take(i + 1) =~= views.take(i as int).push(views[i as int]));
        }
        push_derive_sites_of(&declarations[i], &mut sites);
        i += 1;
    }
    assert(views.take(declarations.len() as int) =~= views);
    sites
}

/// Adds to `sites` the attribute sites of `declaration`.
fn push_attribute_sites_of(
    declaration: &Declaration,
    sites: &mut Vec<InvocationSite<(TokenStream, TokenStream)>>,
)
    ensures
        final(sites).deep_view() == old(sites).deep_view() + attribute_sites_of(declaration@),
{
    let ghost views = declaration.annotations.deep_view();
    let mut i: usize = 0;
    while i < declaration.annotations.len()
        invariant
            i <= declaration.annotations.len(),
            views == declaration.annotations.deep_view(),
            sites.deep_view() == old(sites).deep_view() + views.take(i as int).map_values(
                |annotation: AnnotationView| attribute_site(annotation, declaration.tokens),
            ),
        decreases declaration.annotations.len() - i,
    {
        let ghost before = sites.deep_view();
        let ghost site = |annotation: AnnotationView|
            attribute_site(annotation, declaration.tokens);
        let annotation = &declaration.annotations[i];
        sites.push(
            InvocationSite {
                path: annotation.path.clone(),
                payload: (snapshot(&annotation.tokens), snapshot(&declaration.tokens)),
            },
        );
        assert(sites.deep_view() =~= before.push(site(views[i as int])));
        i += 1;
    }
}

/// The places where an attribute is invoked: for every declaration in order,
/// one site for every annotation on it in order, under the annotation's own
/// path, carrying the annotation's argument tokens and the whole declaration.
pub fn find_attribute_sites(declarations: &[Declaration]) -> (sites: Vec<
    InvocationSite<(TokenStream, TokenStream)>,
>)
    ensures
        sites.deep_view() == attribute_sites(declarations.deep_view()),
{
    let ghost views = declarations.deep_view();
    let mut sites: Vec<InvocationSite<(TokenStream, TokenStream)>> = Vec::new();
    let mut i: usize = 0;
    while i < declarations.len()
        invariant
            i <= declarations.len(),
            views == declarations.deep_view(),
            sites.deep_view() == views.take(i as int).flat_map(
                |declaration: DeclarationView| attribute_sites_of(declaration),
            ),
        decreases declarations.len() - i,
    {
        proof {
            let of = |declaration: DeclarationView| attribute_sites_of(declaration);
            views.take(i as int).lemma_flat_map_push(of, views[i as int]);
            assert(views.take(i + 1) =~= views.take(i as int).push(views[i as int]));
        }
        push_attribute_sites_of(&declarations[i], &mut sites);
        i += 1;
    }
    assert(views.take(declarations.len() as int) =~= views);
    sites
}

/// A declaration that derives two different names, with a target registered
/// under the second only: the plan holds exactly one call, for the site of
/// the second name, and that site hands over the whole declaration, the
/// derive of the first name included. The first name is owed nothing.
pub proof fn lemma_derive_answers_registered_name(
    declaration: DeclarationView,
    first: PathView,
    second: PathView,
)
    requires
        declaration.annotations.len() == 1,
        declaration.annotations[0].path == derive_path(),
        declaration.annotations[0].list == Some(
            seq![EntryView::Path(first), EntryView::Path(second)],
        ),
        first != second,
    ensures
        derive_sites(seq![declaration]) == seq![
            derive_site(first, declaration.tokens),
            derive_site(second, declaration.tokens),
        ],
        plan(site_paths(derive_sites(seq![declaration])), seq![second]) == seq![
            Invocation { site: 1, target: 0 },
        ],
{
    let annotation = declaration.annotations[0];
    let entries = seq![EntryView::Path(first), EntryView::Path(second)];
    let listed = |entry: EntryView| listed_path(entry);
    let expected = seq![
        derive_site(first, declaration.tokens),
        derive_site(second, declaration.tokens),
    ];
    assert(entries.filter_map(listed) =~= seq![first, second]) by {
        reveal_with_fuel(Seq::filter_map, 3);
    }
    assert(derive_sites_at(annotation, declaration.tokens) =~= expected);
    assert(derive_sites_of(declaration) =~= expected) by {
        let at = |annotation: AnnotationView| derive_sites_at(annotation, declaration.tokens);
        assert(declaration.annotations.map_values(at) =~= seq![expected]);
        seq![expected].lemma_flatten_singleton();
    }
    assert(derive_sites(seq![declaration]) =~= expected) by {
        let of = |declaration: DeclarationView| derive_sites_of(declaration);
        assert(seq![declaration].map_values(of) =~= seq![expected]);
        seq![expected].lemma_flatten_singleton();
    }
    let written = site_paths(expected);
    assert(plan(written, seq![second]) =~= seq![Invocation { site: 1, target: 0 }]) by {
        reveal_with_fuel(owed_before, 6);
    }
}

} // verus!
