//! Dispatch: running the expansion functions that a source text invokes.
//!
//! An expansion function receives an owned copy of its payload and answers
//! `Some` with its expansion, which is thrown away, or `None` where it gave
//! up. A run makes the calls of its plan one after the other and ends at the
//! first that gives up.
//!
//! The contracts speak of an expansion function through what a call of it
//! may answer. Of a function that is only known as a parameter, such an
//! answer can be learned in one way only: by making the call.

use crate::error::ExpansionError;
use crate::path::{parsed_path, PathView, SymbolicPath};
use crate::plan::{
    lemma_no_match_empty_plan, lemma_owed_call_is_planned, lemma_plan_sound, owed, owed_before,
    plan, Invocation,
};
use crate::scan::{declarations_in, invocations_in, scanned_declarations, scanned_invocations};
use crate::site::{
    attribute_sites, derive_sites, find_attribute_sites, find_derive_sites, site_paths,
    InvocationSite, SiteView,
};
use crate::tokens::snapshot;
use proc_macro2::TokenStream;
use vstd::prelude::*;

verus! {

/// The paths of a list of registered targets, in the order of registration.
pub open spec fn target_paths<F>(targets: Seq<(SymbolicPath, F)>) -> Seq<PathView> {
    Seq::new(targets.len(), |j: int| targets[j].0@)
}

/// Whether the expansion function of a call may be handed the payload of its
/// site.
pub open spec fn accepts<T, F: Fn(TokenStream) -> Option<TokenStream>>(
    sites: Seq<SiteView<TokenStream>>,
    targets: Seq<(T, F)>,
    call: Invocation,
) -> bool {
    call_requires(targets[call.target].1, (sites[call.site].payload,))
}

/// Whether the expansion function of a call, handed the payload of its site,
/// ran to the end: it answered with some expansion.
pub open spec fn completed<T, F: Fn(TokenStream) -> Option<TokenStream>>(
    sites: Seq<SiteView<TokenStream>>,
    targets: Seq<(T, F)>,
    call: Invocation,
) -> bool {
    exists|expansion: TokenStream|
        #[trigger] call_ensures(
            targets[call.target].1,
            (sites[call.site].payload,),
            Some(expansion),
        )
}

/// Whether the expansion function of a call, handed the payload of its site,
/// gave up.
pub open spec fn gave_up<T, F: Fn(TokenStream) -> Option<TokenStream>>(
    sites: Seq<SiteView<TokenStream>>,
    targets: Seq<(T, F)>,
    call: Invocation,
) -> bool {
    call_ensures(targets[call.target].1, (sites[call.site].payload,), None::<TokenStream>)
}

/// Whether call `k` of `calls` may be made when its turn comes: its target
/// accepts the payload of its site, once every call before it has run to
/// the end. Of a call whose turn never comes nothing is asked.
pub open spec fn in_turn<T, F: Fn(TokenStream) -> Option<TokenStream>>(
    sites: Seq<SiteView<TokenStream>>,
    targets: Seq<(T, F)>,
    calls: Seq<Invocation>,
    k: int,
) -> bool {
    (forall|h: int| 0 <= h < k ==> completed(sites, targets, #[trigger] calls[h])) ==> accepts(
        sites,
        targets,
        calls[k],
    )
}

/// Whether the run over `sites` may be made: every call of the plan may be
/// made when its turn comes.
pub open spec fn run_allowed<T, F: Fn(TokenStream) -> Option<TokenStream>>(
    sites: Seq<SiteView<TokenStream>>,
    paths: Seq<PathView>,
    targets: Seq<(T, F)>,
) -> bool {
    forall|k: int|
        0 <= k < plan(site_paths(sites), paths).len() ==> #[trigger] in_turn(
            sites,
            targets,
            plan(site_paths(sites), paths),
            k,
        )
}

/// What a run over `sites` returns, for targets registered under `paths`:
/// success when every call of the plan ran to the end, in particular when
/// the plan is empty; `InvocationFailure` when some call of the plan gave up
/// after all the calls before it had run to the end.
pub open spec fn run_outcome<T, F: Fn(TokenStream) -> Option<TokenStream>>(
    sites: Seq<SiteView<TokenStream>>,
    paths: Seq<PathView>,
    targets: Seq<(T, F)>,
    result: Result<(), ExpansionError>,
) -> bool {
    let calls = plan(site_paths(sites), paths);
    match result {
        Ok(_) => forall|k: int|
            0 <= k < calls.len() ==> completed(sites, targets, #[trigger] calls[k]),
        Err(e) => e is InvocationFailure && exists|k: int|
            0 <= k < calls.len() && gave_up(sites, targets, #[trigger] calls[k]) && forall|h: int|
                0 <= h < k ==> completed(sites, targets, #[trigger] calls[h]),
    }
}

/// Runs the expansion functions that `sites` invoke: for every site in
/// order, every target registered under the path written there, in the
/// order of registration. Each receives its own copy of the site's payload.
/// The run ends at the first expansion function that gives up.
///
/// A target need only accept the payload of a call of the plan, and only
/// once the calls before it have run to the end. So nothing is handed to a
/// target outside the plan, and nothing after a call that gave up.
pub fn dispatch<F>(
    sites: &[InvocationSite<TokenStream>],
    targets: &[(SymbolicPath, F)],
) -> (result: Result<(), ExpansionError>) where F: Fn(TokenStream) -> Option<TokenStream>
    requires
        run_allowed(sites.deep_view(), target_paths(targets@), targets@),
    ensures
        run_outcome(sites.deep_view(), target_paths(targets@), targets@, result),
        plan(site_paths(sites.deep_view()), target_paths(targets@)).len() == 0 ==> result is Ok,
{
    let ghost views = sites.deep_view();
    let ghost written = site_paths(views);
    let ghost paths = target_paths(targets@);
    let ghost calls = plan(written, paths);
    let mut i: usize = 0;
    while i < sites.len()
        invariant
            i <= sites.len(),
            views == sites.deep_view(),
            written == site_paths(views),
            paths == target_paths(targets@),
            calls == plan(written, paths),
            run_allowed(views, paths, targets@),
            owed_before(written, paths, i as int, 0).len() <= calls.len(),
            forall|k: int|
                0 <= k < owed_before(written, paths, i as int, 0).len() ==> completed(
                    views,
                    targets@,
                    #[trigger] calls[k],
                ),
        decreases sites.len() - i,
    {
        let mut j: usize = 0;
        while j < targets.len()
            invariant
                i < sites.len(),
                j <= targets.len(),
                views == sites.deep_view(),
                written == site_paths(views),
                paths == target_paths(targets@),
                calls == plan(written, paths),
                run_allowed(views, paths, targets@),
                owed_before(written, paths, i as int, j as int).len() <= calls.len(),
                forall|k: int|
                    0 <= k < owed_before(written, paths, i as int, j as int).len() ==> completed(
                        views,
                        targets@,
                        #[trigger] calls[k],
                    ),
            decreases targets.len() - j,
        {
            let ghost call = Invocation { site: i as int, target: j as int };
            let ghost done = owed_before(written, paths, i as int, j as int).len() as int;
            if sites[i].path.same_as(&targets[j].0) {
                proof {
                    assert(owed(written, paths, call));
                    lemma_owed_call_is_planned(written, paths, call);
                    assert(calls[done] == call);
                    assert(in_turn(views, targets@, calls, done));
                }
                let expand = &targets[j].1;
                let expansion = expand(snapshot(&sites[i].payload));
                if expansion.is_none() {
                    assert(gave_up(views, targets@, calls[done]));
                    return Err(ExpansionError::InvocationFailure);
                }
                assert(completed(views, targets@, calls[done])) by {
                    assert(call_ensures(
                        targets@[j as int].1,
                        (views[i as int].payload,),
                        Some(expansion->0),
                    ));
                }
            } else {
                assert(!owed(written, paths, call));
            }
            j += 1;
        }
        i += 1;
    }
    Ok(())
}

/// Whether the expansion function of a call may be handed the payload of its
/// site: the attribute's argument tokens and the annotated declaration.
pub open spec fn attribute_accepts<T, F: Fn(TokenStream, TokenStream) -> Option<TokenStream>>(
    sites: Seq<SiteView<(TokenStream, TokenStream)>>,
    targets: Seq<(T, F)>,
    call: Invocation,
) -> bool {
    call_requires(
        targets[call.target].1,
        (sites[call.site].payload.0, sites[call.site].payload.1),
    )
}

/// Whether the expansion function of a call, handed the payload of its site,
/// ran to the end: it answered with some expansion.
pub open spec fn attribute_completed<T, F: Fn(TokenStream, TokenStream) -> Option<TokenStream>>(
    sites: Seq<SiteView<(TokenStream, TokenStream)>>,
    targets: Seq<(T, F)>,
    call: Invocation,
) -> bool {
    exists|expansion: TokenStream|
        #[trigger] call_ensures(
            targets[call.target].1,
            (sites[call.site].payload.0, sites[call.site].payload.1),
            Some(expansion),
        )
}

/// Whether the expansion function of a call, handed the payload of its site,
/// gave up.
pub open spec fn attribute_gave_up<T, F: Fn(TokenStream, TokenStream) -> Option<TokenStream>>(
    sites: Seq<SiteView<(TokenStream, TokenStream)>>,
    targets: Seq<(T, F)>,
    call: Invocation,
) -> bool {
    call_ensures(
        targets[call.target].1,
        (sites[call.site].payload.0, sites[call.site].payload.1),
        None::<TokenStream>,
    )
}

/// Whether call `k` of `calls` may be made when its turn comes: its target
/// accepts the payload of its site, once every call before it has run to
/// the end. Of a call whose turn never comes nothing is asked.
pub open spec fn attribute_in_turn<T, F: Fn(TokenStream, TokenStream) -> Option<TokenStream>>(
    sites: Seq<SiteView<(TokenStream, TokenStream)>>,
    targets: Seq<(T, F)>,
    calls: Seq<Invocation>,
    k: int,
) -> bool {
    (forall|h: int| 0 <= h < k ==> attribute_completed(sites, targets, #[trigger] calls[h]))
        ==> attribute_accepts(sites, targets, calls[k])
}

/// Whether the run over attribute sites may be made: every call of the plan
/// may be made when its turn comes.
pub open spec fn attribute_run_allowed<
    T,
    F: Fn(TokenStream, TokenStream) -> Option<TokenStream>,
>(sites: Seq<SiteView<(TokenStream, TokenStream)>>, paths: Seq<PathView>, targets: Seq<(T, F)>) -> bool {
    forall|k: int|
        0 <= k < plan(site_paths(sites), paths).len() ==> #[trigger] attribute_in_turn(
            sites,
            targets,
            plan(site_paths(sites), paths),
            k,
        )
}

/// What a run over attribute sites returns, for targets registered under
/// `paths`: success when every call of the plan ran to the end, in
/// particular when the plan is empty; `InvocationFailure` when some call of
/// the plan gave up after all the calls before it had run to the end.
pub open spec fn attribute_run_outcome<
    T,
    F: Fn(TokenStream, TokenStream) -> Option<TokenStream>,
>(
    sites: Seq<SiteView<(TokenStream, TokenStream)>>,
    paths: Seq<PathView>,
    targets: Seq<(T, F)>,
    result: Result<(), ExpansionError>,
) -> bool {
    let calls = plan(site_paths(sites), paths);
    match result {
        Ok(_) => forall|k: int|
            0 <= k < calls.len() ==> attribute_completed(sites, targets, #[trigger] calls[k]),
        Err(e) => e is InvocationFailure && exists|k: int|
            0 <= k < calls.len() && attribute_gave_up(sites, targets, #[trigger] calls[k])
                && forall|h: int|
                0 <= h < k ==> attribute_completed(sites, targets, #[trigger] calls[h]),
    }
}

/// Runs the expansion functions that attribute sites invoke: for every site
/// in order, every target registered under the path written there, in the
/// order of registration. Each receives its own copies of the attribute's
/// argument tokens and of the annotated declaration. The run ends at the
/// first expansion function that gives up.
///
/// A target need only accept the payload of a call of the plan, and only
/// once the calls before it have run to the end. So nothing is handed to a
/// target outside the plan, and nothing after a call that gave up.
pub fn dispatch_attributes<F>(
    sites: &[InvocationSite<(TokenStream, TokenStream)>],
    targets: &[(SymbolicPath, F)],
) -> (result: Result<(), ExpansionError>) where
    F: Fn(TokenStream, TokenStream) -> Option<TokenStream>,

    requires
        attribute_run_allowed(sites.deep_view(), target_paths(targets@), targets@),
    ensures
        attribute_run_outcome(sites.deep_view(), target_paths(targets@), targets@, result),
        plan(site_paths(sites.deep_view()), target_paths(targets@)).len() == 0 ==> result is Ok,
{
    let ghost views = sites.deep_view();
    let ghost written = site_paths(views);
    let ghost paths = target_paths(targets@);
    let ghost calls = plan(written, paths);
    let mut i: usize = 0;
    while i < sites.len()
        invariant
            i <= sites.len(),
            views == sites.deep_view(),
            written == site_paths(views),
            paths == target_paths(targets@),
            calls == plan(written, paths),
            attribute_run_allowed(views, paths, targets@),
            owed_before(written, paths, i as int, 0).len() <= calls.len(),
            forall|k: int|
                0 <= k < owed_before(written, paths, i as int, 0).len() ==> attribute_completed(
                    views,
                    targets@,
                    #[trigger] calls[k],
                ),
        decreases sites.len() - i,
    {
        let mut j: usize = 0;
        while j < targets.len()
            invariant
                i < sites.len(),
                j <= targets.len(),
                views == sites.deep_view(),
                written == site_paths(views),
                paths == target_paths(targets@),
                calls == plan(written, paths),
                attribute_run_allowed(views, paths, targets@),
                owed_before(written, paths, i as int, j as int).len() <= calls.len(),
                forall|k: int|
                    0 <= k < owed_before(written, paths, i as int, j as int).len()
                        ==> attribute_completed(views, targets@, #[trigger] calls[k]),
            decreases targets.len() - j,
        {
            let ghost call = Invocation { site: i as int, target: j as int };
            let ghost done = owed_before(written, paths, i as int, j as int).len() as int;
            if sites[i].path.same_as(&targets[j].0) {
                proof {
                    assert(owed(written, paths, call));
                    lemma_owed_call_is_planned(written, paths, call);
                    assert(calls[done] == call);
                    assert(attribute_in_turn(views, targets@, calls, done));
                }
                let expand = &targets[j].1;
                let arguments = snapshot(&sites[i].payload.0);
                let declaration = snapshot(&sites[i].payload.1);
                let expansion = expand(arguments, declaration);
                if expansion.is_none() {
                    assert(attribute_gave_up(views, targets@, calls[done]));
                    return Err(ExpansionError::InvocationFailure);
                }
                assert(attribute_completed(views, targets@, calls[done])) by {
                    assert(call_ensures(
                        targets@[j as int].1,
                        (views[i as int].payload.0, views[i as int].payload.1),
                        Some(expansion->0),
                    ));
                }
            } else {
                assert(!owed(written, paths, call));
            }
            j += 1;
        }
        i += 1;
    }
    Ok(())
}

/// The texts under which a list of targets is registered, in the order of
/// registration.
pub open spec fn registered_texts<F>(targets: Seq<(&str, F)>) -> Seq<Seq<char>> {
    Seq::new(targets.len(), |j: int| targets[j].0@)
}

/// Whether every one of these texts is a path.
pub open spec fn all_resolve(texts: Seq<Seq<char>>) -> bool {
    forall|j: int| 0 <= j < texts.len() ==> parsed_path(#[trigger] texts[j]) is Some
}

/// The paths that these texts are read as, text by text.
pub open spec fn resolved_paths(texts: Seq<Seq<char>>) -> Seq<PathView> {
    Seq::new(texts.len(), |j: int| parsed_path(texts[j])->0)
}

/// Resolves the path of every registered target, in the order of
/// registration, and pairs each path with the expansion function that was
/// registered under it. Fails with `SyntaxFailure` exactly where one of the
/// texts is not a path.
pub fn resolve_targets<'a, 'b, F>(targets: &'a [(&'b str, F)]) -> (resolved: Result<
    Vec<(SymbolicPath, &'a F)>,
    ExpansionError,
>)
    ensures
        resolved is Ok <==> all_resolve(registered_texts(targets@)),
        resolved matches Ok(list) ==> {
            &&& list@.len() == targets@.len()
            &&& target_paths(list@) == resolved_paths(registered_texts(targets@))
            &&& forall|j: int| 0 <= j < list@.len() ==> *(#[trigger] list@[j]).1 == targets@[j].1
        },
        resolved matches Err(e) ==> e is SyntaxFailure,
{
    let ghost texts = registered_texts(targets@);
    let mut list: Vec<(SymbolicPath, &'a F)> = Vec::new();
    let mut j: usize = 0;
    while j < targets.len()
        invariant
            j <= targets.len(),
            texts == registered_texts(targets@),
            list@.len() == j,
            forall|h: int| 0 <= h < j ==> parsed_path(#[trigger] texts[h]) == Some(list@[h].0@),
            forall|h: int| 0 <= h < j ==> *(#[trigger] list@[h]).1 == targets@[h].1,
        decreases targets.len() - j,
    {
        match SymbolicPath::resolve(targets[j].0) {
            Ok(path) => {
                list.push((path, &targets[j].1));
            },
            Err(e) => {
                assert(parsed_path(texts[j as int]) is None);
                return Err(e);
            },
        }
        j += 1;
    }
    assert(target_paths(list@) =~= resolved_paths(texts));
    Ok(list)
}

/// What an expansion run returns, given what the scan of the source found
/// and the texts under which the targets are registered: `SyntaxFailure`
/// where the source or one of the texts is not valid syntax, and otherwise
/// the outcome of the run over the sites found.
pub open spec fn expansion_outcome<F: Fn(TokenStream) -> Option<TokenStream>>(
    found: Option<Seq<SiteView<TokenStream>>>,
    targets: Seq<(&str, F)>,
    result: Result<(), ExpansionError>,
) -> bool {
    if found is Some && all_resolve(registered_texts(targets)) {
        run_outcome(found->0, resolved_paths(registered_texts(targets)), targets, result)
    } else {
        result is Err && result->Err_0 is SyntaxFailure
    }
}

/// What an expansion run over attributes returns, given what the scan of the
/// source found and the texts under which the targets are registered:
/// `SyntaxFailure` where the source or one of the texts is not valid syntax,
/// and otherwise the outcome of the run over the sites found.
pub open spec fn attribute_expansion_outcome<
    F: Fn(TokenStream, TokenStream) -> Option<TokenStream>,
>(
    found: Option<Seq<SiteView<(TokenStream, TokenStream)>>>,
    targets: Seq<(&str, F)>,
    result: Result<(), ExpansionError>,
) -> bool {
    if found is Some && all_resolve(registered_texts(targets)) {
        attribute_run_outcome(
            found->0,
            resolved_paths(registered_texts(targets)),
            targets,
            result,
        )
    } else {
        result is Err && result->Err_0 is SyntaxFailure
    }
}

/// Whether an expansion run may be made, given what the scan of the source
/// found and the texts under which the targets are registered. Where the
/// source or one of the texts is not valid syntax no target is called, and
/// nothing is asked of the targets; otherwise the run over the sites found
/// must be allowed.
pub open spec fn expansion_allowed<F: Fn(TokenStream) -> Option<TokenStream>>(
    found: Option<Seq<SiteView<TokenStream>>>,
    targets: Seq<(&str, F)>,
) -> bool {
    found is Some && all_resolve(registered_texts(targets)) ==> run_allowed(
        found->0,
        resolved_paths(registered_texts(targets)),
        targets,
    )
}

/// The same for a run over attributes.
pub open spec fn attribute_expansion_allowed<
    F: Fn(TokenStream, TokenStream) -> Option<TokenStream>,
>(found: Option<Seq<SiteView<(TokenStream, TokenStream)>>>, targets: Seq<(&str, F)>) -> bool {
    found is Some && all_resolve(registered_texts(targets)) ==> attribute_run_allowed(
        found->0,
        resolved_paths(registered_texts(targets)),
        targets,
    )
}

/// Resolved targets are the registered targets: what holds of a call of the
/// plan holds of it under either.
proof fn lemma_resolved_targets_agree<F: Fn(TokenStream) -> Option<TokenStream>>(
    sites: Seq<SiteView<TokenStream>>,
    targets: Seq<(&str, F)>,
    resolved: Seq<(SymbolicPath, &F)>,
)
    requires
        resolved.len() == targets.len(),
        forall|j: int| 0 <= j < resolved.len() ==> *(#[trigger] resolved[j]).1 == targets[j].1,
    ensures
        forall|k: int|
            0 <= k < plan(site_paths(sites), target_paths(resolved)).len() ==> {
                let call = #[trigger] plan(site_paths(sites), target_paths(resolved))[k];
                &&& completed(sites, resolved, call) <==> completed(sites, targets, call)
                &&& gave_up(sites, resolved, call) <==> gave_up(sites, targets, call)
                &&& accepts(sites, resolved, call) <==> accepts(sites, targets, call)
            },
{
    let paths = target_paths(resolved);
    let calls = plan(site_paths(sites), paths);
    lemma_plan_sound(site_paths(sites), paths);
    assert forall|k: int| 0 <= k < calls.len() implies {
        let call = #[trigger] calls[k];
        &&& completed(sites, resolved, call) <==> completed(sites, targets, call)
        &&& gave_up(sites, resolved, call) <==> gave_up(sites, targets, call)
        &&& accepts(sites, resolved, call) <==> accepts(sites, targets, call)
    } by {
        assert(owed(site_paths(sites), paths, calls[k]));
        assert(*resolved[calls[k].target].1 == targets[calls[k].target].1);
    }
}

/// A run that is allowed under the registered targets is allowed under the
/// resolved ones.
proof fn lemma_allowance_carries_over<F: Fn(TokenStream) -> Option<TokenStream>>(
    sites: Seq<SiteView<TokenStream>>,
    targets: Seq<(&str, F)>,
    resolved: Seq<(SymbolicPath, &F)>,
)
    requires
        resolved.len() == targets.len(),
        forall|j: int| 0 <= j < resolved.len() ==> *(#[trigger] resolved[j]).1 == targets[j].1,
        run_allowed(sites, target_paths(resolved), targets),
    ensures
        run_allowed(sites, target_paths(resolved), resolved),
{
    let calls = plan(site_paths(sites), target_paths(resolved));
    lemma_resolved_targets_agree(sites, targets, resolved);
    assert forall|k: int| 0 <= k < calls.len() implies #[trigger] in_turn(
        sites,
        resolved,
        calls,
        k,
    ) by {
        assert(in_turn(sites, targets, calls, k));
    }
}

/// Carries the outcome of a run over resolved targets back to the targets
/// as they were registered.
proof fn lemma_outcome_carries_over<F: Fn(TokenStream) -> Option<TokenStream>>(
    sites: Seq<SiteView<TokenStream>>,
    targets: Seq<(&str, F)>,
    resolved: Seq<(SymbolicPath, &F)>,
    result: Result<(), ExpansionError>,
)
    requires
        resolved.len() == targets.len(),
        forall|j: int| 0 <= j < resolved.len() ==> *(#[trigger] resolved[j]).1 == targets[j].1,
        run_outcome(sites, target_paths(resolved), resolved, result),
    ensures
        run_outcome(sites, target_paths(resolved), targets, result),
{
    lemma_resolved_targets_agree(sites, targets, resolved);
}

/// Searches a source text for function-like macro invocations and runs the
/// expansion function registered for each.
///
/// The source is scanned first, then the path of every target is resolved;
/// either may fail with `SyntaxFailure`, and then no expansion function has
/// run. After that every invocation in the source, in document order, is
/// handed to every target registered under the exact path written there, in
/// the order of registration: the expansion function receives the tokens
/// between the delimiters of the invocation. The first expansion function
/// that gives up ends the run with `InvocationFailure`.
pub fn emulate_functionlike_macro_expansion<'a, F>(
    source: &str,
    targets: &[(&'a str, F)],
) -> (result: Result<(), ExpansionError>) where F: Fn(TokenStream) -> Option<TokenStream>
    requires
        expansion_allowed(scanned_invocations(source@), targets@),
    ensures
        expansion_outcome(scanned_invocations(source@), targets@, result),
{
    let sites = match invocations_in(source) {
        Ok(sites) => sites,
        Err(e) => {
            return Err(e);
        },
    };
    let resolved = match resolve_targets(targets) {
        Ok(resolved) => resolved,
        Err(e) => {
            return Err(e);
        },
    };
    proof {
        lemma_allowance_carries_over(sites.deep_view(), targets@, resolved@);
    }
    let result = dispatch(sites.as_slice(), resolved.as_slice());
    proof {
        lemma_outcome_carries_over(sites.deep_view(), targets@, resolved@, result);
    }
    result
}

/// The derive sites that a scan finds in `source`, or `None` where `source`
/// is not valid syntax.
pub open spec fn scanned_derive_sites(source: Seq<char>) -> Option<Seq<SiteView<TokenStream>>> {
    match scanned_declarations(source, true) {
        Some(declarations) => Some(derive_sites(declarations)),
        None => None,
    }
}

/// The attribute sites that a scan finds in `source`, or `None` where
/// `source` is not valid syntax.
pub open spec fn scanned_attribute_sites(source: Seq<char>) -> Option<
    Seq<SiteView<(TokenStream, TokenStream)>>,
> {
    match scanned_declarations(source, false) {
        Some(declarations) => Some(attribute_sites(declarations)),
        None => None,
    }
}

/// Searches a source text for derives and runs the expansion function
/// registered for each.
///
/// The source is scanned first, then the path of every target is resolved;
/// either may fail with `SyntaxFailure`, and then no expansion function has
/// run. After that every name listed in a `derive(...)` on a declaration, in
/// document order, is handed to every target registered under that exact
/// name, in the order of registration: the expansion function receives the
/// whole declaration, the other derives on it included. The first expansion
/// function that gives up ends the run with `InvocationFailure`.
pub fn emulate_derive_macro_expansion<'a, F>(
    source: &str,
    targets: &[(&'a str, F)],
) -> (result: Result<(), ExpansionError>) where F: Fn(TokenStream) -> Option<TokenStream>
    requires
        expansion_allowed(scanned_derive_sites(source@), targets@),
    ensures
        expansion_outcome(scanned_derive_sites(source@), targets@, result),
{
    let declarations = match declarations_in(source, true) {
        Ok(declarations) => declarations,
        Err(e) => {
            return Err(e);
        },
    };
    let resolved = match resolve_targets(targets) {
        Ok(resolved) => resolved,
        Err(e) => {
            return Err(e);
        },
    };
    let sites = find_derive_sites(declarations.as_slice());
    proof {
        lemma_allowance_carries_over(sites.deep_view(), targets@, resolved@);
    }
    let result = dispatch(sites.as_slice(), resolved.as_slice());
    proof {
        lemma_outcome_carries_over(sites.deep_view(), targets@, resolved@, result);
    }
    result
}

/// Resolved targets are the registered targets: what holds of a call of the
/// plan holds of it under either.
proof fn lemma_resolved_attribute_targets_agree<
    F: Fn(TokenStream, TokenStream) -> Option<TokenStream>,
>(
    sites: Seq<SiteView<(TokenStream, TokenStream)>>,
    targets: Seq<(&str, F)>,
    resolved: Seq<(SymbolicPath, &F)>,
)
    requires
        resolved.len() == targets.len(),
        forall|j: int| 0 <= j < resolved.len() ==> *(#[trigger] resolved[j]).1 == targets[j].1,
    ensures
        forall|k: int|
            0 <= k < plan(site_paths(sites), target_paths(resolved)).len() ==> {
                let call = #[trigger] plan(site_paths(sites), target_paths(resolved))[k];
                &&& attribute_completed(sites, resolved, call) <==> attribute_completed(
                    sites,
                    targets,
                    call,
                )
                &&& attribute_gave_up(sites, resolved, call) <==> attribute_gave_up(
                    sites,
                    targets,
                    call,
                )
                &&& attribute_accepts(sites, resolved, call) <==> attribute_accepts(
                    sites,
                    targets,
                    call,
                )
            },
{
    let paths = target_paths(resolved);
    let calls = plan(site_paths(sites), paths);
    lemma_plan_sound(site_paths(sites), paths);
    assert forall|k: int| 0 <= k < calls.len() implies {
        let call = #[trigger] calls[k];
        &&& attribute_completed(sites, resolved, call) <==> attribute_completed(
            sites,
            targets,
            call,
        )
        &&& attribute_gave_up(sites, resolved, call) <==> attribute_gave_up(sites, targets, call)
        &&& attribute_accepts(sites, resolved, call) <==> attribute_accepts(sites, targets, call)
    } by {
        assert(owed(site_paths(sites), paths, calls[k]));
        assert(*resolved[calls[k].target].1 == targets[calls[k].target].1);
    }
}

/// A run that is allowed under the registered targets is allowed under the
/// resolved ones.
proof fn lemma_attribute_allowance_carries_over<
    F: Fn(TokenStream, TokenStream) -> Option<TokenStream>,
>(
    sites: Seq<SiteView<(TokenStream, TokenStream)>>,
    targets: Seq<(&str, F)>,
    resolved: Seq<(SymbolicPath, &F)>,
)
    requires
        resolved.len() == targets.len(),
        forall|j: int| 0 <= j < resolved.len() ==> *(#[trigger] resolved[j]).1 == targets[j].1,
        attribute_run_allowed(sites, target_paths(resolved), targets),
    ensures
        attribute_run_allowed(sites, target_paths(resolved), resolved),
{
    let calls = plan(site_paths(sites), target_paths(resolved));
    lemma_resolved_attribute_targets_agree(sites, targets, resolved);
    assert forall|k: int| 0 <= k < calls.len() implies #[trigger] attribute_in_turn(
        sites,
        resolved,
        calls,
        k,
    ) by {
        assert(attribute_in_turn(sites, targets, calls, k));
    }
}

/// Carries the outcome of a run over resolved targets back to the targets
/// as they were registered.
proof fn lemma_attribute_outcome_carries_over<
    F: Fn(TokenStream, TokenStream) -> Option<TokenStream>,
>(
    sites: Seq<SiteView<(TokenStream, TokenStream)>>,
    targets: Seq<(&str, F)>,
    resolved: Seq<(SymbolicPath, &F)>,
    result: Result<(), ExpansionError>,
)
    requires
        resolved.len() == targets.len(),
        forall|j: int| 0 <= j < resolved.len() ==> *(#[trigger] resolved[j]).1 == targets[j].1,
        attribute_run_outcome(sites, target_paths(resolved), resolved, result),
    ensures
        attribute_run_outcome(sites, target_paths(resolved), targets, result),
{
    lemma_resolved_attribute_targets_agree(sites, targets, resolved);
}

/// Searches a source text for attributes and runs the expansion function
/// registered for each.
///
/// The source is scanned first, then the path of every target is resolved;
/// either may fail with `SyntaxFailure`, and then no expansion function has
/// run. After that every attribute on a declaration, in document order, is
/// handed to every target registered under the exact path of the attribute,
/// in the order of registration: the expansion function receives the
/// attribute's argument tokens, without the delimiters around them, and the
/// whole declaration. The list of an attribute is never read here. The
/// first expansion function that gives up ends the run with
/// `InvocationFailure`.
pub fn emulate_attributelike_macro_expansion<'a, F>(
    source: &str,
    targets: &[(&'a str, F)],
) -> (result: Result<(), ExpansionError>) where
    F: Fn(TokenStream, TokenStream) -> Option<TokenStream>,

    requires
        attribute_expansion_allowed(scanned_attribute_sites(source@), targets@),
    ensures
        attribute_expansion_outcome(scanned_attribute_sites(source@), targets@, result),
{
    let declarations = match declarations_in(source, false) {
        Ok(declarations) => declarations,
        Err(e) => {
            return Err(e);
        },
    };
    let resolved = match resolve_targets(targets) {
        Ok(resolved) => resolved,
        Err(e) => {
            return Err(e);
        },
    };
    let sites = find_attribute_sites(declarations.as_slice());
    proof {
        lemma_attribute_allowance_carries_over(sites.deep_view(), targets@, resolved@);
    }
    let result = dispatch_attributes(sites.as_slice(), resolved.as_slice());
    proof {
        lemma_attribute_outcome_carries_over(sites.deep_view(), targets@, resolved@, result);
    }
    result
}

/// Where no site carries, segment for segment, the path of a registered
/// target, the run owes no call and succeeds: no expansion function is run.
/// This holds whatever the paths mean: a macro invoked under an alias or
/// through a re-export is not the registered path.
pub proof fn lemma_uninvoked_targets_succeed<F: Fn(TokenStream) -> Option<TokenStream>>(
    sites: Seq<SiteView<TokenStream>>,
    targets: Seq<(&str, F)>,
    result: Result<(), ExpansionError>,
)
    requires
        all_resolve(registered_texts(targets)),
        forall|i: int, j: int|
            0 <= i < sites.len() && 0 <= j < targets.len() ==> Some(sites[i].path) != parsed_path(
                targets[j].0@,
            ),
        expansion_outcome(Some(sites), targets, result),
    ensures
        plan(site_paths(sites), resolved_paths(registered_texts(targets))) == Seq::<
            Invocation,
        >::empty(),
        result is Ok,
{
    let texts = registered_texts(targets);
    assert forall|i: int, j: int|
        0 <= i < site_paths(sites).len() && 0 <= j < resolved_paths(
            texts,
        ).len() implies site_paths(sites)[i] != resolved_paths(texts)[j] by {
        assert(parsed_path(texts[j]) is Some);
    }
    lemma_no_match_empty_plan(site_paths(sites), resolved_paths(texts));
}

/// The same for a run over attributes.
pub proof fn lemma_uninvoked_attribute_targets_succeed<
    F: Fn(TokenStream, TokenStream) -> Option<TokenStream>,
>(
    sites: Seq<SiteView<(TokenStream, TokenStream)>>,
    targets: Seq<(&str, F)>,
    result: Result<(), ExpansionError>,
)
    requires
        all_resolve(registered_texts(targets)),
        forall|i: int, j: int|
            0 <= i < sites.len() && 0 <= j < targets.len() ==> Some(sites[i].path) != parsed_path(
                targets[j].0@,
            ),
        attribute_expansion_outcome(Some(sites), targets, result),
    ensures
        plan(site_paths(sites), resolved_paths(registered_texts(targets))) == Seq::<
            Invocation,
        >::empty(),
        result is Ok,
{
    let texts = registered_texts(targets);
    assert forall|i: int, j: int|
        0 <= i < site_paths(sites).len() && 0 <= j < resolved_paths(
            texts,
        ).len() implies site_paths(sites)[i] != resolved_paths(texts)[j] by {
        assert(parsed_path(texts[j]) is Some);
    }
    lemma_no_match_empty_plan(site_paths(sites), resolved_paths(texts));
}

/// A call of the plan whose expansion function did not run to the end fails
/// the run: the result is `InvocationFailure`, and the run ended at that
/// call or before it, at the first call that gave up.
pub proof fn lemma_giving_up_fails_the_run<T, F: Fn(TokenStream) -> Option<TokenStream>>(
    sites: Seq<SiteView<TokenStream>>,
    paths: Seq<PathView>,
    targets: Seq<(T, F)>,
    result: Result<(), ExpansionError>,
    k: int,
)
    requires
        run_outcome(sites, paths, targets, result),
        0 <= k < plan(site_paths(sites), paths).len(),
        !completed(sites, targets, plan(site_paths(sites), paths)[k]),
    ensures
        result is Err,
        result->Err_0 is InvocationFailure,
        exists|stop: int|
            0 <= stop <= k && gave_up(sites, targets, #[trigger] plan(site_paths(sites), paths)[stop])
                && forall|h: int|
                0 <= h < stop ==> completed(
                    sites,
                    targets,
                    #[trigger] plan(site_paths(sites), paths)[h],
                ),
{
    let calls = plan(site_paths(sites), paths);
    let stop = choose|stop: int|
        0 <= stop < calls.len() && gave_up(sites, targets, #[trigger] calls[stop]) && forall|h: int|
            0 <= h < stop ==> completed(sites, targets, #[trigger] calls[h]);
    if stop > k {
        assert(completed(sites, targets, calls[k]));
    }
    assert(gave_up(sites, targets, calls[stop]));
}

/// The same for a run over attributes.
pub proof fn lemma_giving_up_fails_the_attribute_run<
    T,
    F: Fn(TokenStream, TokenStream) -> Option<TokenStream>,
>(
    sites: Seq<SiteView<(TokenStream, TokenStream)>>,
    paths: Seq<PathView>,
    targets: Seq<(T, F)>,
    result: Result<(), ExpansionError>,
    k: int,
)
    requires
        attribute_run_outcome(sites, paths, targets, result),
        0 <= k < plan(site_paths(sites), paths).len(),
        !attribute_completed(sites, targets, plan(site_paths(sites), paths)[k]),
    ensures
        result is Err,
        result->Err_0 is InvocationFailure,
        exists|stop: int|
            0 <= stop <= k && attribute_gave_up(
                sites,
                targets,
                #[trigger] plan(site_paths(sites), paths)[stop],
            ) && forall|h: int|
                0 <= h < stop ==> attribute_completed(
                    sites,
                    targets,
                    #[trigger] plan(site_paths(sites), paths)[h],
                ),
{
    let calls = plan(site_paths(sites), paths);
    let stop = choose|stop: int|
        0 <= stop < calls.len() && attribute_gave_up(sites, targets, #[trigger] calls[stop])
            && forall|h: int|
            0 <= h < stop ==> attribute_completed(sites, targets, #[trigger] calls[h]);
    if stop > k {
        assert(attribute_completed(sites, targets, calls[k]));
    }
    assert(attribute_gave_up(sites, targets, calls[stop]));
}

/// Function-like expansion for targets that accept every payload, as every
/// function or closure without a precondition does. It is
/// `emulate_functionlike_macro_expansion`, asked of targets of which nothing
/// needs to be known about the source.
pub fn expand_functionlike_macros<'a, F>(source: &str, targets: &[(&'a str, F)]) -> (result: Result<
    (),
    ExpansionError,
>) where F: Fn(TokenStream) -> Option<TokenStream>
    requires
        forall|j: int, tokens: TokenStream|
            0 <= j < targets@.len() ==> #[trigger] call_requires(targets@[j].1, (tokens,)),
    ensures
        expansion_outcome(scanned_invocations(source@), targets@, result),
{
    proof {
        lemma_total_targets_allow(scanned_invocations(source@), targets@);
    }
    emulate_functionlike_macro_expansion(source, targets)
}

/// Derive expansion for targets that accept every payload, as every function
/// or closure without a precondition does. It is
/// `emulate_derive_macro_expansion`, asked of targets of which nothing needs
/// to be known about the source.
pub fn expand_derive_macros<'a, F>(source: &str, targets: &[(&'a str, F)]) -> (result: Result<
    (),
    ExpansionError,
>) where F: Fn(TokenStream) -> Option<TokenStream>
    requires
        forall|j: int, tokens: TokenStream|
            0 <= j < targets@.len() ==> #[trigger] call_requires(targets@[j].1, (tokens,)),
    ensures
        expansion_outcome(scanned_derive_sites(source@), targets@, result),
{
    proof {
        lemma_total_targets_allow(scanned_derive_sites(source@), targets@);
    }
    emulate_derive_macro_expansion(source, targets)
}

/// Attribute expansion for targets that accept every payload, as every
/// function or closure without a precondition does. It is
/// `emulate_attributelike_macro_expansion`, asked of targets of which nothing
/// needs to be known about the source.
pub fn expand_attribute_macros<'a, F>(source: &str, targets: &[(&'a str, F)]) -> (result: Result<
    (),
    ExpansionError,
>) where F: Fn(TokenStream, TokenStream) -> Option<TokenStream>
    requires
        forall|j: int, arguments: TokenStream, declaration: TokenStream|
            0 <= j < targets@.len() ==> #[trigger] call_requires(
                targets@[j].1,
                (arguments, declaration),
            ),
    ensures
        attribute_expansion_outcome(scanned_attribute_sites(source@), targets@, result),
{
    proof {
        lemma_total_attribute_targets_allow(scanned_attribute_sites(source@), targets@);
    }
    emulate_attributelike_macro_expansion(source, targets)
}

/// Targets that accept every payload allow every run.
proof fn lemma_total_targets_allow<F: Fn(TokenStream) -> Option<TokenStream>>(
    found: Option<Seq<SiteView<TokenStream>>>,
    targets: Seq<(&str, F)>,
)
    requires
        forall|j: int, tokens: TokenStream|
            0 <= j < targets.len() ==> #[trigger] call_requires(targets[j].1, (tokens,)),
    ensures
        expansion_allowed(found, targets),
{
    if found is Some && all_resolve(registered_texts(targets)) {
        let sites = found->0;
        let paths = resolved_paths(registered_texts(targets));
        let calls = plan(site_paths(sites), paths);
        lemma_plan_sound(site_paths(sites), paths);
        assert forall|k: int| 0 <= k < calls.len() implies #[trigger] in_turn(
            sites,
            targets,
            calls,
            k,
        ) by {
            assert(owed(site_paths(sites), paths, calls[k]));
        }
    }
}

/// Attribute targets that accept every payload allow every run.
proof fn lemma_total_attribute_targets_allow<
    F: Fn(TokenStream, TokenStream) -> Option<TokenStream>,
>(found: Option<Seq<SiteView<(TokenStream, TokenStream)>>>, targets: Seq<(&str, F)>)
    requires
        forall|j: int, arguments: TokenStream, declaration: TokenStream|
            0 <= j < targets.len() ==> #[trigger] call_requires(
                targets[j].1,
                (arguments, declaration),
            ),
    ensures
        attribute_expansion_allowed(found, targets),
{
    if found is Some && all_resolve(registered_texts(targets)) {
        let sites = found->0;
        let paths = resolved_paths(registered_texts(targets));
        let calls = plan(site_paths(sites), paths);
        lemma_plan_sound(site_paths(sites), paths);
        assert forall|k: int| 0 <= k < calls.len() implies #[trigger] attribute_in_turn(
            sites,
            targets,
            calls,
            k,
        ) by {
            assert(owed(site_paths(sites), paths, calls[k]));
        }
    }
}

} // verus!
