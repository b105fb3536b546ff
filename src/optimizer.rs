//! The rewrite. Connections go down from every sort; order-preserving
//! alternatives come up until a sort takes them in its place or drops them.
use vstd::prelude::*;
use crate::ordering::{SortKey, ordering_satisfied, ordering_satisfy};
use crate::plan::{KindView, PlanKind, PlanNode, PlanView, copy_bools, copy_u64s, plan_option_view};

verus! {

/// The session options that the rule reads.
#[derive(Clone, Copy, Debug, PartialEq, Eq, Structural)]
pub struct OptimizerConfig {
    /// Prefer order-preserving variants over an explicit sort even on bounded input.
    pub prefer_existing_sort: bool,
}

/// The three switches that decide whether an order-losing operator may be swapped.
pub struct Policy {
    /// Swapping a repartition is welcome whenever it removes a sort.
    pub is_spr_better: bool,
    /// Swapping a partition-coalescing merge is welcome whenever it removes a sort.
    pub is_spm_better: bool,
    /// The session prefers order-preserving variants over sorts.
    pub prefer_existing_sort: bool,
}

pub open spec fn policy(is_spr_better: bool, is_spm_better: bool, config: OptimizerConfig) -> Policy {
    Policy { is_spr_better, is_spm_better, prefer_existing_sort: config.prefer_existing_sort }
}

/// Operators that have an order-preserving variant.
pub open spec fn is_replaceable(kind: KindView) -> bool {
    kind is Repartition || kind is CoalescePartitions
}

/// The connection handed to each input: a sort starts a fresh one; any other
/// node keeps the inherited one towards an input whose order it keeps, or
/// towards every input when it has an order-preserving variant.
pub open spec fn child_connections(p: PlanView, connection: bool) -> Seq<bool> {
    if p.kind is Sort {
        seq![true]
    } else {
        Seq::new(
            p.maintains_input_order.len(),
            |i: int| connection && (p.maintains_input_order[i] || is_replaceable(p.kind)),
        )
    }
}

/// Variants are wanted where the session prefers them or the input never ends.
pub open spec fn favor_variant(p: PlanView, pol: Policy) -> bool {
    pol.prefer_existing_sort || p.is_unbounded()
}

/// The ordering that a sort establishes.
pub open spec fn sort_ordering(p: PlanView) -> Seq<SortKey> {
    match p.kind {
        KindView::Sort { ordering } => ordering,
        _ => Seq::empty(),
    }
}

/// The output of `a` is ordered as `required` asks.
pub open spec fn provides_ordering(a: PlanView, required: Seq<SortKey>) -> bool {
    let provided = match a.output_ordering() {
        Some(o) => o,
        None => Seq::empty(),
    };
    ordering_satisfied(a.equivalences, provided, required)
}

/// A sort is dropped for an alternative input that already provides its order.
pub open spec fn sort_outcome(p: PlanView, alt: Option<PlanView>) -> PlanView {
    match alt {
        Some(a) => if provides_ordering(a, sort_ordering(p)) {
            a
        } else {
            p
        },
        None => p,
    }
}

/// The alternative of input `i` where there is one, else the input itself.
pub open spec fn chosen_child(p: PlanView, alts: Seq<Option<PlanView>>, i: int) -> PlanView {
    match alts[i] {
        Some(a) => a,
        None => p.children[i],
    }
}

/// The repartition `p`, made to keep the order of `input`.
pub open spec fn repartition_variant(p: PlanView, input: PlanView) -> PlanView {
    PlanView { children: seq![input], maintains_input_order: seq![true], ..p }
}

/// A sort-preserving merge of `input` by `ordering`, in place of `p`.
pub open spec fn merge_variant(p: PlanView, input: PlanView, ordering: Seq<SortKey>) -> PlanView {
    PlanView {
        kind: KindView::SortPreservingMerge { ordering },
        children: seq![input],
        maintains_input_order: seq![true],
        ..p
    }
}

pub open spec fn replaces_repartition(p: PlanView, connection: bool, pol: Policy) -> bool {
    &&& connection
    &&& p.kind is Repartition
    &&& !p.maintains_input_order[0]
    &&& pol.is_spr_better || favor_variant(p, pol)
}

pub open spec fn replaces_coalesce(p: PlanView, connection: bool, pol: Policy) -> bool {
    &&& connection
    &&& p.kind is CoalescePartitions
    &&& pol.is_spm_better || favor_variant(p, pol)
}

pub open spec fn some_alternative(alts: Seq<Option<PlanView>>) -> bool {
    exists|i: int| 0 <= i < alts.len() && (#[trigger] alts[i]) is Some
}

/// The alternative that the upward step hands to the parent of `p`, whose
/// inputs handed up `alts`.
pub open spec fn up_alternative(
    p: PlanView,
    connection: bool,
    alts: Seq<Option<PlanView>>,
    pol: Policy,
) -> Option<PlanView> {
    if p.kind is Sort {
        None
    } else if replaces_repartition(p, connection, pol) {
        Some(repartition_variant(p, chosen_child(p, alts, 0)))
    } else if replaces_coalesce(p, connection, pol) {
        let input = chosen_child(p, alts, 0);
        match input.output_ordering() {
            Some(o) => Some(merge_variant(p, input, o)),
            None => None,
        }
    } else if some_alternative(alts) {
        Some(p.with_children(Seq::new(p.children.len(), |i: int| chosen_child(p, alts, i))))
    } else {
        None
    }
}

/// The node that the upward step leaves in the tree in place of `p`.
pub open spec fn up_plan(p: PlanView, alts: Seq<Option<PlanView>>) -> PlanView {
    if p.kind is Sort {
        sort_outcome(p, alts[0])
    } else {
        p
    }
}

/// The rewritten tree.
pub open spec fn optimized(p: PlanView, pol: Policy) -> PlanView
    decreases p, 1nat,
{
    let q = p.with_children(optimized_children(p, pol));
    if p.kind is Sort && p.children.len() == 1 {
        sort_outcome(q, alternative(p.children[0], true, pol))
    } else {
        q
    }
}

pub open spec fn optimized_children(p: PlanView, pol: Policy) -> Seq<PlanView>
    decreases p, 0nat,
{
    Seq::new(
        p.children.len(),
        |i: int|
            if 0 <= i < p.children.len() {
                optimized(p.children[i], pol)
            } else {
                p
            },
    )
}

/// The order-preserving alternative of the subtree `p`, reached under `connection`.
pub open spec fn alternative(p: PlanView, connection: bool, pol: Policy) -> Option<PlanView>
    decreases p, 1nat,
{
    up_alternative(
        p.with_children(optimized_children(p, pol)),
        connection,
        child_alternatives(p, connection, pol),
        pol,
    )
}

pub open spec fn child_alternatives(p: PlanView, connection: bool, pol: Policy) -> Seq<
    Option<PlanView>,
>
    decreases p, 0nat,
{
    let conns = child_connections(p, connection);
    Seq::new(
        p.children.len(),
        |i: int|
            if 0 <= i < p.children.len() {
                alternative(p.children[i], conns[i], pol)
            } else {
                None
            },
    )
}

pub open spec fn alternatives_view(v: Seq<Option<PlanNode>>) -> Seq<Option<PlanView>> {
    Seq::new(v.len(), |i: int| plan_option_view(v[i]))
}

/// The pass keeps trees well formed, and so are the alternatives it builds.
pub proof fn lemma_pass_wf(p: PlanView, connection: bool, pol: Policy)
    requires
        p.wf(),
    ensures
        p.with_children(optimized_children(p, pol)).wf(),
        optimized(p, pol).wf(),
        alternative(p, connection, pol) matches Some(a) ==> a.wf(),
    decreases p,
{
    let kids = optimized_children(p, pol);
    let conns = child_connections(p, connection);
    let alts = child_alternatives(p, connection, pol);
    let q = p.with_children(kids);
    assert forall|i: int| 0 <= i < p.children.len() implies (#[trigger] kids[i]).wf() && (
    alts[i] matches Some(a) ==> a.wf()) by {
        lemma_pass_wf(p.children[i], conns[i], pol);
    }
    assert(q.wf());
    if p.kind is Sort && p.children.len() == 1 {
        lemma_pass_wf(p.children[0], true, pol);
    }
    if alternative(p, connection, pol) is Some && !(p.kind is Sort) {
        if replaces_repartition(q, connection, pol) || replaces_coalesce(q, connection, pol) {
            assert(chosen_child(q, alts, 0).wf());
        } else {
            let ch = Seq::new(q.children.len(), |i: int| chosen_child(q, alts, i));
            assert forall|i: int| 0 <= i < ch.len() implies (#[trigger] ch[i]).wf() by {
                assert(chosen_child(q, alts, i).wf());
            }
        }
    }
}

/// The connection of each input of `plan`, from the connection that reached it.
pub fn propagate_order_maintaining_connections_down(plan: &PlanNode, ordering_connection: bool) -> (r:
    Vec<bool>)
    ensures
        r@ == child_connections(plan@, ordering_connection),
{
    let mut r: Vec<bool> = Vec::new();
    if let PlanKind::Sort { .. } = plan.kind {
        r.push(true);
        assert(r@ =~= seq![true]);
        return r;
    }
    let possible_ordering_connection = match plan.kind {
        PlanKind::Repartition { .. } => true,
        PlanKind::CoalescePartitions => true,
        _ => false,
    };
    let mut i: usize = 0;
    while i < plan.maintains_input_order.len()
        invariant
            0 <= i <= plan.maintains_input_order.len(),
            possible_ordering_connection == is_replaceable(plan@.kind),
            !(plan@.kind is Sort),
            r@ =~= child_connections(plan@, ordering_connection).subrange(0, i as int),
        decreases plan.maintains_input_order.len() - i,
    {
        r.push(ordering_connection && (plan.maintains_input_order[i] || possible_ordering_connection));
        i = i + 1;
    }
    r
}

/// The upward step at `plan`, whose inputs are already rewritten and handed
/// up `order_preserving_children`: the node that stays in the tree in place
/// of `plan`, and the alternative handed to its parent.
pub fn replace_with_order_preserving_variants_up(
    plan: PlanNode,
    ordering_connection: bool,
    order_preserving_children: Vec<Option<PlanNode>>,
    is_spr_better: bool,
    is_spm_better: bool,
    config: &OptimizerConfig,
) -> (r: (PlanNode, Option<PlanNode>))
    requires
        plan@.wf(),
        order_preserving_children@.len() == plan.children@.len(),
    ensures
        r.0@ == up_plan(plan@, alternatives_view(order_preserving_children@)),
        plan_option_view(r.1) == up_alternative(
            plan@,
            ordering_connection,
            alternatives_view(order_preserving_children@),
            policy(is_spr_better, is_spm_better, *config),
        ),
{
    let ghost alts = alternatives_view(order_preserving_children@);
    let ghost pol = policy(is_spr_better, is_spm_better, *config);
    let ghost handed_up = order_preserving_children@;
    let mut rest = order_preserving_children;
    let use_order_preserving_variant = config.prefer_existing_sort || plan.is_unbounded();
    let (is_sort, is_repartition, is_coalesce) = match plan.kind {
        PlanKind::Sort { .. } => (true, false, false),
        PlanKind::Repartition { .. } => (false, true, false),
        PlanKind::CoalescePartitions => (false, false, true),
        _ => (false, false, false),
    };
    if is_sort {
        match rest.remove(0) {
            None => {
                return (plan, None);
            },
            Some(alt) => {
                let provided = match alt.output_ordering() {
                    Some(o) => o,
                    None => Vec::new(),
                };
                let satisfied = match &plan.kind {
                    PlanKind::Sort { ordering } => ordering_satisfy(
                        &alt.equivalences,
                        &provided,
                        ordering,
                    ),
                    _ => false,
                };
                if satisfied {
                    return (alt, None);
                } else {
                    return (plan, None);
                }
            },
        }
    }
    if ordering_connection && is_repartition && !plan.maintains_input_order[0] && (is_spr_better
        || use_order_preserving_variant) {
        let child = match rest.remove(0) {
            Some(a) => a,
            None => plan.children[0].deep_copy(),
        };
        let ghost input = child@;
        let mut children: Vec<PlanNode> = Vec::new();
        children.push(child);
        let mut keeps: Vec<bool> = Vec::new();
        keeps.push(true);
        let variant = PlanNode {
            id: plan.id,
            kind: plan.kind.copy(),
            children,
            maintains_input_order: keeps,
            equivalences: copy_u64s(&plan.equivalences),
            infinite_source: plan.infinite_source,
        };
        assert(variant@.children =~= seq![input]);
        assert(variant@.maintains_input_order =~= seq![true]);
        assert(variant@ == repartition_variant(plan@, input));
        return (plan, Some(variant));
    }
    if ordering_connection && is_coalesce && (is_spm_better || use_order_preserving_variant) {
        let child = match rest.remove(0) {
            Some(a) => a,
            None => plan.children[0].deep_copy(),
        };
        let ghost input = child@;
        match child.output_ordering() {
            Some(o) => {
                let mut children: Vec<PlanNode> = Vec::new();
                children.push(child);
                let mut keeps: Vec<bool> = Vec::new();
                keeps.push(true);
                let variant = PlanNode {
                    id: plan.id,
                    kind: PlanKind::SortPreservingMerge { ordering: o },
                    children,
                    maintains_input_order: keeps,
                    equivalences: copy_u64s(&plan.equivalences),
                    infinite_source: plan.infinite_source,
                };
                assert(variant@.children =~= seq![input]);
                assert(variant@.maintains_input_order =~= seq![true]);
                assert(variant@ == merge_variant(plan@, input, o@));
                return (plan, Some(variant));
            },
            None => {
                return (plan, None);
            },
        }
    }
    let n = plan.children.len();
    let mut any = false;
    let mut i: usize = 0;
    while i < n
        invariant
            n == plan.children@.len(),
            rest@ == handed_up,
            handed_up.len() == n,
            alts == alternatives_view(handed_up),
            0 <= i <= n,
            any == exists|j: int| 0 <= j < i && (#[trigger] alts[j]) is Some,
        decreases n - i,
    {
        if let Some(_) = rest[i] {
            assert(alts[i as int] is Some);
            any = true;
        }
        i = i + 1;
    }
    if !any {
        return (plan, None);
    }
    let ghost chosen = Seq::new(plan@.children.len(), |j: int| chosen_child(plan@, alts, j));
    let mut children: Vec<PlanNode> = Vec::new();
    i = 0;
    while i < n
        invariant
            n == plan.children@.len(),
            alts == alternatives_view(handed_up),
            handed_up.len() == n,
            chosen == Seq::new(plan@.children.len(), |j: int| chosen_child(plan@, alts, j)),
            0 <= i <= n,
            rest@ == handed_up.subrange(i as int, n as int),
            children@.len() == i,
            forall|j: int| 0 <= j < i ==> (#[trigger] children@[j])@ == chosen[j],
        decreases n - i,
    {
        let c = match rest.remove(0) {
            Some(a) => a,
            None => plan.children[i].deep_copy(),
        };
        assert(c@ == chosen[i as int]);
        children.push(c);
        i = i + 1;
    }
    let rebuilt = PlanNode {
        id: plan.id,
        kind: plan.kind.copy(),
        children,
        maintains_input_order: copy_bools(&plan.maintains_input_order),
        equivalences: copy_u64s(&plan.equivalences),
        infinite_source: plan.infinite_source,
    };
    assert(rebuilt@.children =~= chosen);
    assert(rebuilt@ == plan@.with_children(chosen));
    (plan, Some(rebuilt))
}

/// One walk over the subtree `plan`, reached under `ordering_connection`:
/// connections go down, rewritten subtrees and alternatives come up.
fn transform(
    plan: PlanNode,
    ordering_connection: bool,
    is_spr_better: bool,
    is_spm_better: bool,
    config: &OptimizerConfig,
) -> (r: (PlanNode, Option<PlanNode>))
    requires
        plan@.wf(),
    ensures
        r.0@ == optimized(plan@, policy(is_spr_better, is_spm_better, *config)),
        plan_option_view(r.1) == alternative(
            plan@,
            ordering_connection,
            policy(is_spr_better, is_spm_better, *config),
        ),
    decreases plan@,
{
    let ghost p = plan@;
    let ghost pol = policy(is_spr_better, is_spm_better, *config);
    let conns = propagate_order_maintaining_connections_down(&plan, ordering_connection);
    let PlanNode { id, kind, children, maintains_input_order, equivalences, infinite_source } =
        plan;
    let n = children.len();
    assert(conns@.len() == n);
    let mut rest = children;
    let mut kids: Vec<PlanNode> = Vec::new();
    let mut alts: Vec<Option<PlanNode>> = Vec::new();
    let mut i: usize = 0;
    #[verifier::loop_isolation(false)]
    while i < n
        invariant
            n == p.children.len(),
            p.wf(),
            conns@ == child_connections(p, ordering_connection),
            conns@.len() == n,
            0 <= i <= n,
            rest@.len() == n - i,
            forall|j: int| 0 <= j < n - i ==> (#[trigger] rest@[j])@ == p.children[i + j],
            kids@.len() == i,
            alts@.len() == i,
            forall|j: int| 0 <= j < i ==> (#[trigger] kids@[j])@ == optimized(p.children[j], pol),
            forall|j: int|
                0 <= j < i ==> plan_option_view(#[trigger] alts@[j]) == alternative(
                    p.children[j],
                    conns@[j],
                    pol,
                ),
        decreases n - i,
    {
        let child = rest.remove(0);
        assert(child@ == p.children[i as int]);
        let (k, a) = transform(child, conns[i], is_spr_better, is_spm_better, config);
        kids.push(k);
        alts.push(a);
        i = i + 1;
    }
    let node = PlanNode {
        id,
        kind,
        children: kids,
        maintains_input_order,
        equivalences,
        infinite_source,
    };
    proof {
        lemma_pass_wf(p, ordering_connection, pol);
        assert(node@.children =~= optimized_children(p, pol));
        assert(node@ == p.with_children(optimized_children(p, pol)));
        assert(alternatives_view(alts@) =~= child_alternatives(p, ordering_connection, pol));
    }
    replace_with_order_preserving_variants_up(
        node,
        ordering_connection,
        alts,
        is_spr_better,
        is_spm_better,
        config,
    )
}

/// Rewrites `plan`, swapping order-losing operators for their order-preserving
/// variants wherever that lets a sort above them go.
pub fn replace_with_order_preserving_variants(
    plan: PlanNode,
    is_spr_better: bool,
    is_spm_better: bool,
    config: &OptimizerConfig,
) -> (r: PlanNode)
    requires
        plan@.wf(),
    ensures
        r@ == optimized(plan@, policy(is_spr_better, is_spm_better, *config)),
{
    let (r, _) = transform(plan, false, is_spr_better, is_spm_better, config);
    r
}

} // verus!
