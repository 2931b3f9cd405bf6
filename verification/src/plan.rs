//! Which expansion functions a run owes a call, and in what order.
//!
//! A site invokes a registered target when the path written at the site is
//! the path the target was registered under. Sites are taken in document
//! order; at one site, targets are taken in the order they were registered.
//! Every match is owed its own call: two targets under one path are both
//! called, and a path written twice is expanded twice.

use crate::path::PathView;
use vstd::prelude::*;

verus! {

/// One call that a run owes: the site, by its position among the sites, and
/// the target, by its position among the registrations.
pub struct Invocation {
    pub site: int,
    pub target: int,
}

/// Whether the run owes this call: both positions exist, and the path at the
/// site is the path of the target.
pub open spec fn owed(sites: Seq<PathView>, targets: Seq<PathView>, call: Invocation) -> bool {
    &&& 0 <= call.site < sites.len()
    &&& 0 <= call.target < targets.len()
    &&& sites[call.site] == targets[call.target]
}

/// The order of a run: by site first, and by target at the same site.
pub open spec fn precedes(earlier: Invocation, later: Invocation) -> bool {
    earlier.site < later.site || (earlier.site == later.site && earlier.target < later.target)
}

/// The calls owed before the run stands at target `target` of site `site`,
/// in the order they are made.
pub open spec fn owed_before(
    sites: Seq<PathView>,
    targets: Seq<PathView>,
    site: int,
    target: int,
) -> Seq<Invocation>
    decreases site, target,
{
    if site >= 0 && target > 0 {
        let earlier = owed_before(sites, targets, site, target - 1);
        let last = Invocation { site, target: target - 1 };
        if owed(sites, targets, last) {
            earlier.push(last)
        } else {
            earlier
        }
    } else if site > 0 {
        owed_before(sites, targets, site - 1, targets.len() as int)
    } else {
        Seq::empty()
    }
}

/// All the calls that a run over `sites` owes to `targets`, in the order
/// they are made.
pub open spec fn plan(sites: Seq<PathView>, targets: Seq<PathView>) -> Seq<Invocation> {
    owed_before(sites, targets, sites.len() as int, 0)
}

/// Every call listed before a position is owed, and comes before that
/// position in the order of the run.
pub proof fn lemma_owed_before_sound(
    sites: Seq<PathView>,
    targets: Seq<PathView>,
    site: int,
    target: int,
)
    ensures
        forall|k: int|
            0 <= k < owed_before(sites, targets, site, target).len() ==> owed(
                sites,
                targets,
                #[trigger] owed_before(sites, targets, site, target)[k],
            ) && precedes(
                owed_before(sites, targets, site, target)[k],
                Invocation { site, target },
            ),
    decreases site, target,
{
    let here = owed_before(sites, targets, site, target);
    if site >= 0 && target > 0 {
        let earlier = owed_before(sites, targets, site, target - 1);
        lemma_owed_before_sound(sites, targets, site, target - 1);
        assert forall|k: int| 0 <= k < here.len() implies owed(sites, targets, #[trigger] here[k])
            && precedes(here[k], Invocation { site, target }) by {
            if k < earlier.len() {
                assert(here[k] == earlier[k]);
            }
        }
    } else if site > 0 {
        let earlier = owed_before(sites, targets, site - 1, targets.len() as int);
        lemma_owed_before_sound(sites, targets, site - 1, targets.len() as int);
        assert forall|k: int| 0 <= k < here.len() implies owed(sites, targets, #[trigger] here[k])
            && precedes(here[k], Invocation { site, target }) by {
            assert(here[k] == earlier[k]);
        }
    }
}

/// The calls listed before a position are listed in the order of the run.
pub proof fn lemma_owed_before_ordered(
    sites: Seq<PathView>,
    targets: Seq<PathView>,
    site: int,
    target: int,
)
    ensures
        forall|h: int, k: int|
            0 <= h < k < owed_before(sites, targets, site, target).len() ==> precedes(
                #[trigger] owed_before(sites, targets, site, target)[h],
                #[trigger] owed_before(sites, targets, site, target)[k],
            ),
    decreases site, target,
{
    let here = owed_before(sites, targets, site, target);
    if site >= 0 && target > 0 {
        let earlier = owed_before(sites, targets, site, target - 1);
        lemma_owed_before_ordered(sites, targets, site, target - 1);
        lemma_owed_before_sound(sites, targets, site, target - 1);
        assert forall|h: int, k: int| 0 <= h < k < here.len() implies precedes(
            #[trigger] here[h],
            #[trigger] here[k],
        ) by {
            assert(here[h] == earlier[h]);
            if k < earlier.len() {
                assert(here[k] == earlier[k]);
            }
        }
    } else if site > 0 {
        let earlier = owed_before(sites, targets, site - 1, targets.len() as int);
        lemma_owed_before_ordered(sites, targets, site - 1, targets.len() as int);
        assert forall|h: int, k: int| 0 <= h < k < here.len() implies precedes(
            #[trigger] here[h],
            #[trigger] here[k],
        ) by {
            assert(here[h] == earlier[h]);
            assert(here[k] == earlier[k]);
        }
    }
}

/// Moving on in a run only adds calls at the end: what is owed before an
/// earlier position is the beginning of what is owed before a later one.
pub proof fn lemma_owed_before_grows(
    sites: Seq<PathView>,
    targets: Seq<PathView>,
    from: Invocation,
    to: Invocation,
)
    requires
        0 <= from.site,
        0 <= from.target <= targets.len(),
        0 <= to.target <= targets.len(),
        from == to || precedes(from, to),
    ensures
        owed_before(sites, targets, from.site, from.target).len() <= owed_before(
            sites,
            targets,
            to.site,
            to.target,
        ).len(),
        forall|k: int|
            0 <= k < owed_before(sites, targets, from.site, from.target).len() ==> owed_before(
                sites,
                targets,
                from.site,
                from.target,
            )[k] == #[trigger] owed_before(sites, targets, to.site, to.target)[k],
    decreases to.site, to.target,
{
    if from == to {
    } else if to.target > 0 {
        lemma_owed_before_grows(
            sites,
            targets,
            from,
            Invocation { site: to.site, target: to.target - 1 },
        );
    } else {
        lemma_owed_before_grows(
            sites,
            targets,
            from,
            Invocation { site: to.site - 1, target: targets.len() as int },
        );
    }
}

/// An owed call stands in the plan at the place that the calls owed before
/// it leave free.
pub proof fn lemma_owed_call_is_planned(
    sites: Seq<PathView>,
    targets: Seq<PathView>,
    call: Invocation,
)
    requires
        owed(sites, targets, call),
    ensures
        owed_before(sites, targets, call.site, call.target).len() < plan(sites, targets).len(),
        plan(sites, targets)[owed_before(sites, targets, call.site, call.target).len() as int]
            == call,
        forall|k: int|
            0 <= k < owed_before(sites, targets, call.site, call.target).len() ==> owed_before(
                sites,
                targets,
                call.site,
                call.target,
            )[k] == #[trigger] plan(sites, targets)[k],
{
    let next = Invocation { site: call.site, target: call.target + 1 };
    let end = Invocation { site: sites.len() as int, target: 0 };
    let before = owed_before(sites, targets, call.site, call.target);
    assert(owed_before(sites, targets, next.site, next.target) == before.push(call));
    lemma_owed_before_grows(sites, targets, next, end);
    assert(before.push(call)[before.len() as int] == call);
}

/// The plan holds owed calls only.
pub proof fn lemma_plan_sound(sites: Seq<PathView>, targets: Seq<PathView>)
    ensures
        forall|k: int|
            0 <= k < plan(sites, targets).len() ==> owed(
                sites,
                targets,
                #[trigger] plan(sites, targets)[k],
            ),
{
    lemma_owed_before_sound(sites, targets, sites.len() as int, 0);
}

/// The plan holds every owed call.
pub proof fn lemma_plan_complete(sites: Seq<PathView>, targets: Seq<PathView>, call: Invocation)
    requires
        owed(sites, targets, call),
    ensures
        exists|k: int| 0 <= k < plan(sites, targets).len() && plan(sites, targets)[k] == call,
{
    lemma_owed_call_is_planned(sites, targets, call);
    let k = owed_before(sites, targets, call.site, call.target).len() as int;
    assert(plan(sites, targets)[k] == call);
}

/// The plan is in the order of the run, so it holds no call twice.
pub proof fn lemma_plan_ordered(sites: Seq<PathView>, targets: Seq<PathView>)
    ensures
        forall|h: int, k: int|
            0 <= h < k < plan(sites, targets).len() ==> precedes(
                #[trigger] plan(sites, targets)[h],
                #[trigger] plan(sites, targets)[k],
            ),
{
    lemma_owed_before_ordered(sites, targets, sites.len() as int, 0);
}

/// Of two owed calls, the one that comes first in the order of the run
/// stands first in the plan. So where several targets are registered under
/// the path written at a site, each of them is called there, in the order of
/// registration.
pub proof fn lemma_plan_keeps_order(
    sites: Seq<PathView>,
    targets: Seq<PathView>,
    earlier: Invocation,
    later: Invocation,
)
    requires
        owed(sites, targets, earlier),
        owed(sites, targets, later),
        precedes(earlier, later),
    ensures
        exists|h: int, k: int|
            0 <= h < k < plan(sites, targets).len() && #[trigger] plan(sites, targets)[h]
                == earlier && #[trigger] plan(sites, targets)[k] == later,
{
    let h = owed_before(sites, targets, earlier.site, earlier.target).len() as int;
    let k = owed_before(sites, targets, later.site, later.target).len() as int;
    let next = Invocation { site: earlier.site, target: earlier.target + 1 };
    lemma_owed_call_is_planned(sites, targets, earlier);
    lemma_owed_call_is_planned(sites, targets, later);
    assert(owed_before(sites, targets, next.site, next.target).len() == h + 1);
    lemma_owed_before_grows(sites, targets, next, later);
    assert(plan(sites, targets)[h] == earlier && plan(sites, targets)[k] == later);
}

/// Matching is exact: where no site carries a path that is, segment for
/// segment, the path of a registered target, nothing is owed. A macro that
/// is invoked under another spelling than the registered one is passed over,
/// whatever the two spellings mean.
pub proof fn lemma_no_match_empty_plan(sites: Seq<PathView>, targets: Seq<PathView>)
    requires
        forall|i: int, j: int|
            0 <= i < sites.len() && 0 <= j < targets.len() ==> sites[i] != targets[j],
    ensures
        plan(sites, targets) == Seq::<Invocation>::empty(),
{
    lemma_plan_sound(sites, targets);
    if plan(sites, targets).len() > 0 {
        let call = plan(sites, targets)[0];
        assert(owed(sites, targets, call));
    }
    assert(plan(sites, targets) =~= Seq::<Invocation>::empty());
}

/// With one target registered, what is owed before a site is one call for
/// every earlier site that carries the target's path.
proof fn lemma_single_target_owed_before(sites: Seq<PathView>, target: PathView, site: int)
    requires
        0 <= site <= sites.len(),
    ensures
        owed_before(sites, seq![target], site, 0).len() == sites.take(site).filter(
            |written: PathView| written == target,
        ).len(),
    decreases site,
{
    let carries = |written: PathView| written == target;
    if site == 0 {
        assert(sites.take(0) =~= Seq::<PathView>::empty());
    } else {
        lemma_single_target_owed_before(sites, target, site - 1);
        let before = owed_before(sites, seq![target], site - 1, 0);
        assert(owed_before(sites, seq![target], site, 0) == owed_before(
            sites,
            seq![target],
            site - 1,
            1,
        ));
        assert(owed_before(sites, seq![target], site - 1, 1) == if sites[site - 1] == target {
            before.push(Invocation { site: site - 1, target: 0 })
        } else {
            before
        });
        assert(sites.take(site) =~= sites.take(site - 1).push(sites[site - 1]));
        sites.take(site - 1).lemma_filter_len_push(carries, sites[site - 1]);
    }
}

/// One target, `n` invocations of its path: the plan holds exactly `n`
/// calls, all of that target, one for each site that carries the path and by
/// ascending site, which is document order.
pub proof fn lemma_single_target_plan(sites: Seq<PathView>, target: PathView)
    ensures
        plan(sites, seq![target]).len() == sites.filter(
            |written: PathView| written == target,
        ).len(),
        forall|k: int|
            0 <= k < plan(sites, seq![target]).len() ==> {
                let call = #[trigger] plan(sites, seq![target])[k];
                call.target == 0 && 0 <= call.site < sites.len() && sites[call.site] == target
            },
        forall|h: int, k: int|
            0 <= h < k < plan(sites, seq![target]).len() ==> (#[trigger] plan(
                sites,
                seq![target],
            )[h]).site < (#[trigger] plan(sites, seq![target])[k]).site,
{
    let calls = plan(sites, seq![target]);
    lemma_single_target_owed_before(sites, target, sites.len() as int);
    assert(sites.take(sites.len() as int) =~= sites);
    lemma_plan_sound(sites, seq![target]);
    lemma_plan_ordered(sites, seq![target]);
    assert forall|k: int| 0 <= k < calls.len() implies {
        let call = #[trigger] calls[k];
        call.target == 0 && 0 <= call.site < sites.len() && sites[call.site] == target
    } by {
        assert(owed(sites, seq![target], calls[k]));
    }
    assert forall|h: int, k: int| 0 <= h < k < calls.len() implies (#[trigger] calls[h]).site < (
    #[trigger] calls[k]).site by {
        assert(owed(sites, seq![target], calls[h]));
        assert(owed(sites, seq![target], calls[k]));
        assert(precedes(calls[h], calls[k]));
    }
}

} // verus!
