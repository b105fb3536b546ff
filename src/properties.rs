//! Laws of the rewrite, proved over the plan model.
use vstd::prelude::*;
use crate::plan::{KindView, PlanView, renamed_ordering};
use crate::ordering::{SortKey, ordering_satisfied};
use crate::optimizer::{
    Policy,
    favor_variant,
    up_alternative,
    up_plan,
    alternative,
    child_alternatives,
    child_connections,
    chosen_child,
    optimized,
    optimized_children,
    provides_ordering,
    replaces_coalesce,
    replaces_repartition,
    some_alternative,
    sort_ordering,
};

verus! {

/// Without a connection no alternative is ever built.
pub proof fn lemma_no_alternative_without_connection(p: PlanView, pol: Policy)
    requires
        p.wf(),
    ensures
        alternative(p, false, pol) is None,
    decreases p,
{
    if !(p.kind is Sort) {
        let alts = child_alternatives(p, false, pol);
        assert forall|i: int| 0 <= i < alts.len() implies (#[trigger] alts[i]) is None by {
            lemma_no_alternative_without_connection(p.children[i], pol);
        }
        assert(!some_alternative(alts));
    }
}

/// The rewritten tree and every alternative read exactly the unbounded
/// streams of the tree it starts from.
pub proof fn lemma_unboundedness_kept(p: PlanView, connection: bool, pol: Policy)
    requires
        p.wf(),
    ensures
        p.with_children(optimized_children(p, pol)).is_unbounded() == p.is_unbounded(),
        optimized(p, pol).is_unbounded() == p.is_unbounded(),
        alternative(p, connection, pol) matches Some(a) ==> a.is_unbounded() == p.is_unbounded(),
    decreases p,
{
    let kids = optimized_children(p, pol);
    let conns = child_connections(p, connection);
    let alts = child_alternatives(p, connection, pol);
    let q = p.with_children(kids);
    assert forall|i: int| 0 <= i < p.children.len() implies (#[trigger] kids[i]).is_unbounded()
        == p.children[i].is_unbounded() && (alts[i] matches Some(a) ==> a.is_unbounded()
        == p.children[i].is_unbounded()) by {
        lemma_unboundedness_kept(p.children[i], conns[i], pol);
    }
    if p.is_unbounded() {
        if !p.infinite_source {
            let i = choose|i: int| 0 <= i < p.children.len() && (#[trigger] p.children[i]).is_unbounded();
            assert(q.children[i].is_unbounded());
        }
    }
    if q.is_unbounded() {
        if !q.infinite_source {
            let i = choose|i: int| 0 <= i < q.children.len() && (#[trigger] q.children[i]).is_unbounded();
            assert(p.children[i].is_unbounded());
        }
    }
    if p.kind is Sort && p.children.len() == 1 {
        lemma_unboundedness_kept(p.children[0], true, pol);
        if alternative(p.children[0], true, pol) is Some {
            assert(p.is_unbounded() == p.children[0].is_unbounded());
        }
    }
    if alternative(p, connection, pol) is Some && !(p.kind is Sort) {
        if replaces_repartition(q, connection, pol) || replaces_coalesce(q, connection, pol) {
            let x = chosen_child(q, alts, 0);
            assert(x.is_unbounded() == p.children[0].is_unbounded());
            let a = alternative(p, connection, pol)->0;
            assert(a.children[0] == x);
            if x.is_unbounded() {
                assert(a.is_unbounded());
            }
            if p.is_unbounded() {
                assert(p.children[0].is_unbounded());
            }
        } else {
            let a = alternative(p, connection, pol)->0;
            assert(a.children == Seq::new(q.children.len(), |i: int| chosen_child(q, alts, i)));
            assert forall|i: int| 0 <= i < a.children.len() implies (#[trigger] a.children[i]).is_unbounded()
                == p.children[i].is_unbounded() by {
                assert(a.children[i] == chosen_child(q, alts, i));
            }
            if a.is_unbounded() {
                let i = choose|i: int| 0 <= i < a.children.len() && (#[trigger] a.children[i]).is_unbounded();
                assert(p.children[i].is_unbounded());
            }
            if p.is_unbounded() {
                let i = choose|i: int| 0 <= i < p.children.len() && (#[trigger] p.children[i]).is_unbounded();
                assert(a.children[i].is_unbounded());
            }
        }
    }
}

/// Rewriting a rewritten tree changes nothing, and it offers its parent the
/// same alternative as the tree it came from.
pub proof fn lemma_optimized_stable(p: PlanView, connection: bool, pol: Policy)
    requires
        p.wf(),
    ensures
        optimized(optimized(p, pol), pol) == optimized(p, pol),
        alternative(optimized(p, pol), connection, pol) == alternative(p, connection, pol),
    decreases p, 1nat,
{
    let kids = optimized_children(p, pol);
    let conns = child_connections(p, connection);
    let q = p.with_children(kids);
    crate::optimizer::lemma_pass_wf(p, connection, pol);
    assert forall|i: int| 0 <= i < p.children.len() implies optimized(#[trigger] kids[i], pol)
        == kids[i] && alternative(kids[i], conns[i], pol) == alternative(
        p.children[i],
        conns[i],
        pol,
    ) by {
        lemma_optimized_stable(p.children[i], conns[i], pol);
    }
    assert(optimized_children(q, pol) =~= kids);
    assert(q.with_children(optimized_children(q, pol)) == q);
    assert(child_connections(q, connection) == conns);
    assert(child_alternatives(q, connection, pol) =~= child_alternatives(p, connection, pol));
    if p.kind is Sort && p.children.len() == 1 {
        let alt = alternative(p.children[0], true, pol);
        lemma_optimized_stable(p.children[0], true, pol);
        assert(alternative(q.children[0], true, pol) == alt);
        if let Some(a) = alt {
            lemma_alternative_inert(p.children[0], true, connection, pol);
        }
    }
}

/// An alternative is already rewritten, and offers no alternative of its own.
pub proof fn lemma_alternative_inert(p: PlanView, connection: bool, later: bool, pol: Policy)
    requires
        p.wf(),
        alternative(p, connection, pol) is Some,
    ensures
        optimized(alternative(p, connection, pol)->0, pol) == alternative(p, connection, pol)->0,
        alternative(alternative(p, connection, pol)->0, later, pol) is None,
    decreases p, 0nat,
{
    let kids = optimized_children(p, pol);
    let conns = child_connections(p, connection);
    let alts = child_alternatives(p, connection, pol);
    let q = p.with_children(kids);
    let a = alternative(p, connection, pol)->0;
    crate::optimizer::lemma_pass_wf(p, connection, pol);
    lemma_unboundedness_kept(p, connection, pol);
    if !connection {
        lemma_no_alternative_without_connection(p, pol);
    }
    assert(connection);
    // What every input of the alternative is: rewritten already, and without
    // an alternative under the connection it gets from `a`.
    assert forall|i: int| 0 <= i < p.children.len() implies {
        &&& optimized(#[trigger] chosen_child(q, alts, i), pol) == chosen_child(q, alts, i)
        &&& alternative(chosen_child(q, alts, i), later && conns[i], pol) is None
        &&& chosen_child(q, alts, i).is_unbounded() == p.children[i].is_unbounded()
        &&& q.children[i].is_unbounded() == p.children[i].is_unbounded()
        &&& chosen_child(q, alts, i).wf()
    } by {
        lemma_optimized_stable(p.children[i], conns[i], pol);
        lemma_unboundedness_kept(p.children[i], conns[i], pol);
        crate::optimizer::lemma_pass_wf(p.children[i], conns[i], pol);
        if alts[i] is Some {
            lemma_alternative_inert(p.children[i], conns[i], later && conns[i], pol);
        } else if !(later && conns[i]) {
            lemma_no_alternative_without_connection(kids[i], pol);
        }
    }
    let ac = a.with_children(optimized_children(a, pol));
    assert(optimized_children(a, pol) =~= a.children);
    assert(ac == a);
    if replaces_repartition(q, connection, pol) || replaces_coalesce(q, connection, pol) {
        assert(a.children =~= seq![chosen_child(q, alts, 0)]);
        let aalts = child_alternatives(a, later, pol);
        assert(child_connections(a, later)[0] == later);
        assert(aalts[0] is None);
        assert(!some_alternative(aalts));
    } else {
        assert(a.children =~= Seq::new(q.children.len(), |i: int| chosen_child(q, alts, i)));
        let aalts = child_alternatives(a, later, pol);
        assert forall|i: int| 0 <= i < aalts.len() implies (#[trigger] aalts[i]) is None by {
            assert(child_connections(a, later)[i] == (later && conns[i]));
            assert(a.children[i] == chosen_child(q, alts, i));
        }
        assert(!some_alternative(aalts));
        assert(a.is_unbounded() == q.is_unbounded()) by {
            if a.is_unbounded() {
                let i = choose|i: int| 0 <= i < a.children.len() && (#[trigger] a.children[i]).is_unbounded();
                assert(a.children[i] == chosen_child(q, alts, i));
                assert(q.children[i].is_unbounded());
            }
            if q.is_unbounded() {
                let i = choose|i: int| 0 <= i < q.children.len() && (#[trigger] q.children[i]).is_unbounded();
                assert(a.children[i] == chosen_child(q, alts, i));
                assert(a.children[i].is_unbounded());
            }
        }
    }
}

/// A connection, once lost, is handed to no input again; only a sort
/// starts a new one.
pub proof fn lemma_connection_not_revived(p: PlanView)
    requires
        p.wf(),
        !(p.kind is Sort),
    ensures
        forall|i: int| 0 <= i < p.children.len() ==> !(#[trigger] child_connections(p, false)[i]),
{
}

/// Running the pass on its own result gives that result again.
pub proof fn law_idempotent(p: PlanView, pol: Policy)
    requires
        p.wf(),
    ensures
        optimized(optimized(p, pol), pol) == optimized(p, pol),
{
    lemma_optimized_stable(p, false, pol);
}

/// A sort is only ever dropped for an input whose output already follows
/// the sort's ordering, equivalent expressions resolved.
pub proof fn law_dropped_sort_order_provided(p: PlanView, pol: Policy)
    requires
        p.wf(),
        p.kind is Sort,
        optimized(p, pol) != p.with_children(optimized_children(p, pol)),
    ensures
        provides_ordering(optimized(p, pol), sort_ordering(p)),
{
}

/// Where an alternative input does not follow the sort's ordering, the sort
/// stays over its rewritten input and the alternative goes no further.
pub proof fn law_sort_kept_when_alternative_falls_short(
    p: PlanView,
    connection: bool,
    pol: Policy,
)
    requires
        p.wf(),
        p.kind is Sort,
        alternative(p.children[0], true, pol) matches Some(a) && !provides_ordering(
            a,
            sort_ordering(p),
        ),
    ensures
        optimized(p, pol) == p.with_children(optimized_children(p, pol)),
        alternative(p, connection, pol) is None,
{
}

/// Every source of the tree reads an unbounded stream.
pub open spec fn every_source_unbounded(p: PlanView) -> bool
    decreases p,
{
    if p.children.len() == 0 {
        p.infinite_source
    } else {
        forall|i: int| 0 <= i < p.children.len() ==> every_source_unbounded(#[trigger] p.children[i])
    }
}

pub proof fn lemma_every_source_unbounded(p: PlanView)
    requires
        every_source_unbounded(p),
    ensures
        p.is_unbounded(),
    decreases p,
{
    if p.children.len() > 0 {
        lemma_every_source_unbounded(p.children[0]);
    }
}

proof fn lemma_unbounded_policy_free(p: PlanView, connection: bool, pol: Policy, other: Policy)
    requires
        p.wf(),
        every_source_unbounded(p),
    ensures
        optimized(p, pol) == optimized(p, other),
        alternative(p, connection, pol) == alternative(p, connection, other),
    decreases p,
{
    let conns = child_connections(p, connection);
    assert forall|i: int| 0 <= i < p.children.len() implies optimized(#[trigger] p.children[i], pol)
        == optimized(p.children[i], other) && alternative(p.children[i], conns[i], pol)
        == alternative(p.children[i], conns[i], other) by {
        lemma_unbounded_policy_free(p.children[i], conns[i], pol, other);
    }
    assert(optimized_children(p, pol) =~= optimized_children(p, other));
    assert(child_alternatives(p, connection, pol) =~= child_alternatives(p, connection, other));
    if p.kind is Sort && p.children.len() == 1 {
        lemma_unbounded_policy_free(p.children[0], true, pol, other);
    }
    lemma_every_source_unbounded(p);
    lemma_unboundedness_kept(p, connection, pol);
}

/// On a plan that only reads unbounded streams, the profitability switches
/// and the session preference change nothing: every order-losing operator
/// under a connection is swapped whenever that can keep the order.
pub proof fn law_unbounded_ignores_preferences(p: PlanView, pol: Policy, other: Policy)
    requires
        p.wf(),
        every_source_unbounded(p),
    ensures
        optimized(p, pol) == optimized(p, other),
{
    lemma_unbounded_policy_free(p, false, pol, other);
}

/// Over unbounded input, an order-losing repartition reached under a
/// connection always gets an order-keeping variant, whatever the switches.
pub proof fn law_unbounded_repartition_swapped(p: PlanView, pol: Policy)
    requires
        p.wf(),
        p.kind is Repartition,
        !p.maintains_input_order[0],
        p.is_unbounded(),
    ensures
        alternative(p, true, pol) matches Some(a) && a.kind == p.kind && a.maintains_input_order
            == seq![true],
{
    lemma_unboundedness_kept(p, true, pol);
}

/// The operators that carry the output ordering down to where it is
/// established (a sort, a sort-preserving merge or a source) keep row order:
/// none is a partition-coalescing merge or an order-losing repartition.
pub open spec fn order_carried_intact(p: PlanView) -> bool
    decreases p,
{
    match p.kind {
        KindView::Sort { .. } => true,
        KindView::SortPreservingMerge { .. } => true,
        KindView::CoalescePartitions => false,
        KindView::Repartition { .. } => p.children.len() == 1 && p.maintains_input_order.len() == 1
            && p.maintains_input_order[0] && order_carried_intact(p.children[0]),
        KindView::Other { ordering_input, .. } => match ordering_input {
            None => true,
            Some(i) => i < p.children.len() && i < p.maintains_input_order.len()
                && p.maintains_input_order[i as int] && order_carried_intact(p.children[i as int]),
        },
    }
}

pub proof fn lemma_ordering_carried_intact(p: PlanView)
    requires
        p.output_ordering() is Some,
    ensures
        order_carried_intact(p),
    decreases p,
{
    match p.kind {
        KindView::Repartition { .. } => {
            lemma_ordering_carried_intact(p.children[0]);
        },
        KindView::Other { ordering_input, .. } => {
            if let Some(i) = ordering_input {
                lemma_ordering_carried_intact(p.children[i as int]);
            }
        },
        _ => {},
    }
}

/// When a sort with a non-empty ordering is dropped, the path that carries
/// the order from where it is established up to where the sort stood holds
/// no operator that discards row order.
pub proof fn law_dropped_sort_leaves_no_order_loser(p: PlanView, pol: Policy)
    requires
        p.wf(),
        p.kind is Sort,
        sort_ordering(p).len() > 0,
        optimized(p, pol) != p.with_children(optimized_children(p, pol)),
    ensures
        order_carried_intact(optimized(p, pol)),
{
    let r = optimized(p, pol);
    if r.output_ordering() is None {
        assert(provides_ordering(r, sort_ordering(p)));
        crate::ordering::lemma_collapsed_empty(crate::ordering::normalized(r.equivalences, Seq::empty()));
        crate::ordering::lemma_collapsed_empty(
            crate::ordering::normalized(r.equivalences, sort_ordering(p)),
        );
        assert(false);
    }
    lemma_ordering_carried_intact(r);
}

proof fn lemma_conservative(p: PlanView, connection: bool, pol: Policy)
    requires
        p.wf(),
        !pol.is_spr_better,
        !pol.is_spm_better,
        !pol.prefer_existing_sort,
        !p.is_unbounded(),
    ensures
        optimized(p, pol) == p,
        alternative(p, connection, pol) is None,
    decreases p,
{
    let conns = child_connections(p, connection);
    let alts = child_alternatives(p, connection, pol);
    assert forall|i: int| 0 <= i < p.children.len() implies optimized(#[trigger] p.children[i], pol)
        == p.children[i] && alternative(p.children[i], conns[i], pol) is None by {
        if p.children[i].is_unbounded() {
            assert(p.is_unbounded());
        }
        lemma_conservative(p.children[i], conns[i], pol);
    }
    assert(optimized_children(p, pol) =~= p.children);
    assert(p.with_children(optimized_children(p, pol)) == p);
    assert forall|i: int| 0 <= i < alts.len() implies (#[trigger] alts[i]) is None by {}
    assert(!some_alternative(alts));
    if p.kind is Sort {
        lemma_conservative(p.children[0], true, pol);
    }
}

/// With both profitability switches and the session preference off, a plan
/// over bounded input comes back exactly as it went in.
pub proof fn law_conservative_when_bounded(p: PlanView, pol: Policy)
    requires
        p.wf(),
        !pol.is_spr_better,
        !pol.is_spm_better,
        !pol.prefer_existing_sort,
        !p.is_unbounded(),
    ensures
        optimized(p, pol) == p,
{
    lemma_conservative(p, false, pol);
}

/// The upward step drops a sort only for the alternative that its input
/// handed up, and only where that alternative provides the sort's ordering;
/// nothing then goes further up.
pub proof fn law_step_sort_dropped_only_when_provided(
    p: PlanView,
    connection: bool,
    alts: Seq<Option<PlanView>>,
    pol: Policy,
)
    requires
        p.wf(),
        p.kind is Sort,
        alts.len() == p.children.len(),
        up_plan(p, alts) != p,
    ensures
        alts[0] == Some(up_plan(p, alts)),
        provides_ordering(up_plan(p, alts), sort_ordering(p)),
        up_alternative(p, connection, alts, pol) is None,
{
}

/// A sort whose input handed up no alternative, or one that does not
/// provide the sort's ordering, stays exactly as it is, and the alternative
/// goes no further.
pub proof fn law_step_sort_kept(
    p: PlanView,
    connection: bool,
    alts: Seq<Option<PlanView>>,
    pol: Policy,
)
    requires
        p.wf(),
        p.kind is Sort,
        alts.len() == p.children.len(),
        alts[0] matches Some(a) ==> !provides_ordering(a, sort_ordering(p)),
    ensures
        up_plan(p, alts) == p,
        up_alternative(p, connection, alts, pol) is None,
{
}

/// With both profitability switches and the session preference off, over
/// bounded input and with no alternative from below, the upward step leaves
/// the node as it is and hands nothing up.
pub proof fn law_step_conservative(
    p: PlanView,
    connection: bool,
    alts: Seq<Option<PlanView>>,
    pol: Policy,
)
    requires
        p.wf(),
        !pol.is_spr_better,
        !pol.is_spm_better,
        !pol.prefer_existing_sort,
        !p.is_unbounded(),
        alts.len() == p.children.len(),
        forall|i: int| 0 <= i < alts.len() ==> (#[trigger] alts[i]) is None,
    ensures
        up_plan(p, alts) == p,
        up_alternative(p, connection, alts, pol) is None,
{
    assert(!some_alternative(alts));
}

/// From `p` down to an unbounded source, through inputs that carry the order
/// on: each operator is a repartition, a partition-coalescing merge, or one
/// that hands on the order of that input. No sort stands on the way.
pub open spec fn order_chain(p: PlanView) -> bool
    decreases p,
{
    match p.kind {
        KindView::Repartition { .. } => p.children.len() == 1 && order_chain(p.children[0]),
        KindView::CoalescePartitions => p.children.len() == 1 && order_chain(p.children[0]),
        KindView::Other { ordering, ordering_input, .. } => if p.children.len() == 0 {
            p.infinite_source && ordering is Some && ordering_input is None
        } else {
            match ordering_input {
                Some(i) => i < p.children.len() && i < p.maintains_input_order.len()
                    && p.maintains_input_order[i as int] && order_chain(p.children[i as int]),
                None => false,
            }
        },
        _ => false,
    }
}

/// The source's order as it reads at the top of the chain, were every
/// operator on it to keep order.
pub open spec fn chain_ordering(p: PlanView) -> Option<Seq<SortKey>>
    decreases p,
{
    match p.kind {
        KindView::Repartition { .. } => if p.children.len() == 1 {
            chain_ordering(p.children[0])
        } else {
            None
        },
        KindView::CoalescePartitions => if p.children.len() == 1 {
            chain_ordering(p.children[0])
        } else {
            None
        },
        KindView::Other { ordering, ordering_input, expr_map } => if p.children.len() == 0 {
            ordering
        } else {
            match ordering_input {
                Some(i) => if i < p.children.len() {
                    match chain_ordering(p.children[i as int]) {
                        Some(o) => renamed_ordering(o, expr_map),
                        None => None,
                    }
                } else {
                    None
                },
                None => None,
            }
        },
        _ => None,
    }
}

/// Some operator on the chain loses order as it stands.
pub open spec fn chain_loses_order(p: PlanView) -> bool
    decreases p,
{
    match p.kind {
        KindView::Repartition { .. } => p.children.len() == 1 && (!p.maintains_input_order[0]
            || chain_loses_order(p.children[0])),
        KindView::CoalescePartitions => true,
        KindView::Other { ordering_input, .. } => match ordering_input {
            Some(i) => i < p.children.len() && chain_loses_order(p.children[i as int]),
            None => false,
        },
        _ => false,
    }
}

/// What the subtree offers its parent: its alternative, or itself rewritten.
pub open spec fn offered(p: PlanView, connection: bool, pol: Policy) -> PlanView {
    match alternative(p, connection, pol) {
        Some(a) => a,
        None => optimized(p, pol),
    }
}

pub proof fn lemma_chain_unbounded(p: PlanView)
    requires
        order_chain(p),
    ensures
        p.is_unbounded(),
    decreases p,
{
    match p.kind {
        KindView::Other { ordering_input, .. } => {
            if p.children.len() > 0 {
                let i = ordering_input->0 as int;
                lemma_chain_unbounded(p.children[i]);
            }
        },
        _ => {
            lemma_chain_unbounded(p.children[0]);
        },
    }
}

/// An alternative describes the same rows as the node it stands for, so it
/// keeps that node's equivalences.
pub proof fn lemma_alternative_equivalences(p: PlanView, connection: bool, pol: Policy)
    requires
        alternative(p, connection, pol) is Some,
    ensures
        alternative(p, connection, pol)->0.equivalences == p.equivalences,
{
}

/// Along a chain under a connection, what is offered upward is ordered as
/// the source's order reads at the top of the chain, whatever the switches;
/// where an operator on the chain loses order and that order survives to
/// the top, an alternative is offered.
pub proof fn lemma_chain_offered(p: PlanView, pol: Policy)
    requires
        p.wf(),
        order_chain(p),
    ensures
        offered(p, true, pol).output_ordering() == chain_ordering(p),
        chain_loses_order(p) && chain_ordering(p) is Some ==> alternative(p, true, pol) is Some,
    decreases p,
{
    let kids = optimized_children(p, pol);
    let conns = child_connections(p, true);
    let alts = child_alternatives(p, true, pol);
    let q = p.with_children(kids);
    lemma_chain_unbounded(p);
    lemma_unboundedness_kept(p, true, pol);
    assert(favor_variant(q, pol));
    if p.children.len() > 0 {
        let i: int = match p.kind {
            KindView::Other { ordering_input, .. } => ordering_input->0 as int,
            _ => 0,
        };
        lemma_chain_offered(p.children[i], pol);
        assert(conns[i]);
        assert(chosen_child(q, alts, i) == offered(p.children[i], true, pol));
        if !(p.kind is Other) && !replaces_repartition(q, true, pol) && alts[i] is Some {
            assert(some_alternative(alts));
        }
        if p.kind is Other && alts[i] is Some {
            assert(some_alternative(alts));
        }
        let x = chosen_child(q, alts, i);
        if replaces_repartition(q, true, pol) || replaces_coalesce(q, true, pol) {
            let a = alternative(p, true, pol);
            if let Some(a) = a {
                assert(a.children == seq![x]);
                assert(a.output_ordering() == x.output_ordering());
                assert(chain_ordering(p) == chain_ordering(p.children[0]));
                assert(offered(p, true, pol).output_ordering() == chain_ordering(p));
            } else {
                assert(x.output_ordering() is None);
                assert(offered(p, true, pol).output_ordering() == chain_ordering(p));
            }
        } else if some_alternative(alts) {
            let a = alternative(p, true, pol)->0;
            assert(a.children[i] == x);
            assert(a.output_ordering() == q.with_children(a.children).output_ordering());
            assert(offered(p, true, pol).output_ordering() == chain_ordering(p));
        } else {
            assert(alts[i] is None);
            assert(x == kids[i]);
            assert(offered(p, true, pol) == q);
            assert(offered(p, true, pol).output_ordering() == chain_ordering(p));
        }
    } else {
        assert(kids =~= p.children);
        assert(offered(p, true, pol) == q);
    }
}

/// Over an unbounded source, a sort that the order carried up to it would
/// satisfy, once the operators that lose order on the way keep it, is
/// dropped whatever the switches, and the path that now carries the order
/// up to where the sort stood holds no operator that discards row order.
pub proof fn law_unbounded_chain_drops_sort(p: PlanView, pol: Policy)
    requires
        p.wf(),
        p.kind is Sort,
        order_chain(p.children[0]),
        chain_loses_order(p.children[0]),
        chain_ordering(p.children[0]) matches Some(o) && ordering_satisfied(
            p.children[0].equivalences,
            o,
            sort_ordering(p),
        ),
    ensures
        optimized(p, pol) == alternative(p.children[0], true, pol)->0,
        order_carried_intact(optimized(p, pol)),
{
    let c = p.children[0];
    lemma_chain_offered(c, pol);
    lemma_alternative_equivalences(c, true, pol);
    let a = alternative(c, true, pol)->0;
    assert(offered(c, true, pol) == a);
    assert(provides_ordering(a, sort_ordering(p)));
    lemma_ordering_carried_intact(a);
}

} // verus!
