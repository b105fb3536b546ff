use order_preserving_variants::optimizer::{
    propagate_order_maintaining_connections_down, replace_with_order_preserving_variants,
    replace_with_order_preserving_variants_up, OptimizerConfig,
};
use order_preserving_variants::ordering::{canonical_expr, collapse_normalized, ordering_satisfy, SortKey};
use order_preserving_variants::plan::{rename_ordering, Partitioning, PlanKind, PlanNode};

const A: u64 = 0;
const C: u64 = 1;

fn asc(expr: u64) -> SortKey {
    SortKey { expr, descending: false, nulls_first: false }
}

fn hash(id: u64, input: PlanNode) -> PlanNode {
    PlanNode::repartition(id, Partitioning::Hash(vec![C], 8), false, input)
}

fn hash_keeping(id: u64, input: PlanNode) -> PlanNode {
    PlanNode::repartition(id, Partitioning::Hash(vec![C], 8), true, input)
}

fn round_robin(id: u64, input: PlanNode) -> PlanNode {
    PlanNode::repartition(id, Partitioning::RoundRobinBatch(8), true, input)
}

fn filter(id: u64, input: PlanNode) -> PlanNode {
    PlanNode::forwarding(id, 0, None, vec![true], vec![input])
}

/// Output column 0 is input column 1 and output column 1 is input column 0.
fn swap_projection(id: u64, input: PlanNode) -> PlanNode {
    PlanNode::forwarding(id, 0, Some(vec![Some(1), Some(0)]), vec![true], vec![input])
}

fn config(prefer_existing_sort: bool) -> OptimizerConfig {
    OptimizerConfig { prefer_existing_sort }
}

/// Sort(a) over the merge output of Sort(a) <- hash <- round robin <- source sorted by a.
fn sorted_scenario(unbounded: bool) -> PlanNode {
    let source = PlanNode::source(5, Some(vec![asc(A)]), unbounded);
    let sort = PlanNode::sort(2, vec![asc(A)], hash(3, round_robin(4, source)));
    PlanNode::sort_preserving_merge(1, vec![asc(A)], sort)
}

fn sorted_scenario_swapped(unbounded: bool) -> PlanNode {
    let source = PlanNode::source(5, Some(vec![asc(A)]), unbounded);
    PlanNode::sort_preserving_merge(1, vec![asc(A)], hash_keeping(3, round_robin(4, source)))
}

#[test]
fn sort_dropped_only_when_preferred_or_unbounded() {
    let run = |unbounded: bool, prefer: bool| {
        replace_with_order_preserving_variants(sorted_scenario(unbounded), false, false, &config(prefer))
    };
    assert_eq!(run(false, false), sorted_scenario(false));
    assert_eq!(run(false, true), sorted_scenario_swapped(false));
    assert_eq!(run(true, false), sorted_scenario_swapped(true));
    assert_eq!(run(true, true), sorted_scenario_swapped(true));
}

#[test]
fn coalesce_over_unordered_source_unchanged() {
    let plan = |unbounded: bool| {
        let source = PlanNode::source(3, None, unbounded);
        PlanNode::coalesce_partitions(1, hash(2, source))
    };
    for unbounded in [false, true] {
        for spr in [false, true] {
            for spm in [false, true] {
                for prefer in [false, true] {
                    let out = replace_with_order_preserving_variants(plan(unbounded), spr, spm, &config(prefer));
                    assert_eq!(out, plan(unbounded));
                }
            }
        }
    }
}

#[test]
fn second_run_changes_nothing() {
    for unbounded in [false, true] {
        for prefer in [false, true] {
            let once = replace_with_order_preserving_variants(sorted_scenario(unbounded), false, false, &config(prefer));
            let again = replace_with_order_preserving_variants(once.deep_copy(), false, false, &config(prefer));
            assert_eq!(again, once);
        }
    }
}

#[test]
fn dropped_sort_leaves_required_order() {
    let out = replace_with_order_preserving_variants(sorted_scenario(true), false, false, &config(false));
    let merge_input = &out.children[0];
    assert!(matches!(merge_input.kind, PlanKind::Repartition { .. }));
    let provided = merge_input.output_ordering().unwrap();
    assert!(ordering_satisfy(&merge_input.equivalences, &provided, &vec![asc(A)]));
    assert_eq!(merge_input.maintains_input_order, vec![true]);
}

#[test]
fn unbounded_plan_ignores_switches() {
    let baseline = replace_with_order_preserving_variants(sorted_scenario(true), true, true, &config(true));
    for spr in [false, true] {
        for spm in [false, true] {
            for prefer in [false, true] {
                let out = replace_with_order_preserving_variants(sorted_scenario(true), spr, spm, &config(prefer));
                assert_eq!(out, baseline);
            }
        }
    }
}

#[test]
fn bounded_plan_kept_with_switches_off() {
    let out = replace_with_order_preserving_variants(sorted_scenario(false), false, false, &config(false));
    assert_eq!(out, sorted_scenario(false));
}

#[test]
fn repartition_switch_alone_drops_sort_on_bounded_input() {
    let out = replace_with_order_preserving_variants(sorted_scenario(false), true, false, &config(false));
    assert_eq!(out, sorted_scenario_swapped(false));
}

#[test]
fn merge_switch_alone_cannot_recover_lost_order() {
    // Sort(a) <- coalesce <- hash <- source sorted by a: without swapping the
    // repartition the merge has no order to keep.
    let plan = || {
        let source = PlanNode::source(4, Some(vec![asc(A)]), false);
        PlanNode::sort(1, vec![asc(A)], PlanNode::coalesce_partitions(2, hash(3, source)))
    };
    let out = replace_with_order_preserving_variants(plan(), false, true, &config(false));
    assert_eq!(out, plan());
    let both = replace_with_order_preserving_variants(plan(), true, true, &config(false));
    let source = PlanNode::source(4, Some(vec![asc(A)]), false);
    let expected = PlanNode::sort_preserving_merge(2, vec![asc(A)], hash_keeping(3, source));
    assert_eq!(both, expected);
}

#[test]
fn sort_satisfied_through_equivalent_column() {
    // The source is sorted by c, and c equals a in its rows: a sort on a goes.
    let plan = || {
        let source = PlanNode::source(3, Some(vec![asc(C)]), false).with_equivalences(vec![0, 0]);
        let repartition = hash(2, source).with_equivalences(vec![0, 0]);
        PlanNode::sort(1, vec![asc(A)], repartition)
    };
    let out = replace_with_order_preserving_variants(plan(), false, false, &config(true));
    let source = PlanNode::source(3, Some(vec![asc(C)]), false).with_equivalences(vec![0, 0]);
    assert_eq!(out, hash_keeping(2, source).with_equivalences(vec![0, 0]));
    // Without the equivalence the sort stays.
    let plain = || PlanNode::sort(1, vec![asc(A)], hash(2, PlanNode::source(3, Some(vec![asc(C)]), false)));
    let kept = replace_with_order_preserving_variants(plain(), false, false, &config(true));
    assert_eq!(kept, plain());
}

#[test]
fn connections_going_down() {
    let source = || PlanNode::source(9, None, false);
    let sort = PlanNode::sort(1, vec![asc(A)], source());
    assert_eq!(propagate_order_maintaining_connections_down(&sort, false), vec![true]);
    let repartition = hash(1, source());
    assert_eq!(propagate_order_maintaining_connections_down(&repartition, true), vec![true]);
    assert_eq!(propagate_order_maintaining_connections_down(&repartition, false), vec![false]);
    let coalesce = PlanNode::coalesce_partitions(1, source());
    assert_eq!(propagate_order_maintaining_connections_down(&coalesce, true), vec![true]);
    let join = PlanNode::operator(1, None, vec![false, true], vec![source(), source()]);
    assert_eq!(propagate_order_maintaining_connections_down(&join, true), vec![false, true]);
    assert_eq!(propagate_order_maintaining_connections_down(&join, false), vec![false, false]);
    let scan = source();
    assert_eq!(propagate_order_maintaining_connections_down(&scan, true), Vec::<bool>::new());
}

#[test]
fn sort_keeps_itself_for_unsuitable_alternative() {
    let source = || PlanNode::source(3, Some(vec![asc(C)]), false);
    let sort = PlanNode::sort(1, vec![asc(A)], hash(2, source()));
    let alternative = hash_keeping(2, source());
    let (node, alt) = replace_with_order_preserving_variants_up(
        sort, true, vec![Some(alternative)], false, false, &config(true),
    );
    assert_eq!(node, PlanNode::sort(1, vec![asc(A)], hash(2, source())));
    assert_eq!(alt, None);
}

#[test]
fn sort_replaced_by_suitable_alternative() {
    let source = || PlanNode::source(3, Some(vec![asc(A)]), false);
    let sort = PlanNode::sort(1, vec![asc(A)], hash(2, source()));
    let (node, alt) = replace_with_order_preserving_variants_up(
        sort, false, vec![Some(hash_keeping(2, source()))], false, false, &config(false),
    );
    assert_eq!(node, hash_keeping(2, source()));
    assert_eq!(alt, None);
}

#[test]
fn repartition_variant_built_from_unchanged_input() {
    let source = || PlanNode::source(3, Some(vec![asc(A)]), false);
    let (node, alt) = replace_with_order_preserving_variants_up(
        hash(2, source()), true, vec![None], true, false, &config(false),
    );
    assert_eq!(node, hash(2, source()));
    assert_eq!(alt, Some(hash_keeping(2, source())));
    // Without a connection nothing is built.
    let (_, none) = replace_with_order_preserving_variants_up(
        hash(2, source()), false, vec![None], true, true, &config(true),
    );
    assert_eq!(none, None);
}

#[test]
fn merge_variant_needs_an_ordered_input() {
    let ordered = || PlanNode::source(3, Some(vec![asc(A)]), false);
    let (_, alt) = replace_with_order_preserving_variants_up(
        PlanNode::coalesce_partitions(2, ordered()), true, vec![None], false, true, &config(false),
    );
    assert_eq!(alt, Some(PlanNode::sort_preserving_merge(2, vec![asc(A)], ordered())));
    let unordered = || PlanNode::source(3, None, false);
    let (_, none) = replace_with_order_preserving_variants_up(
        PlanNode::coalesce_partitions(2, unordered()), true, vec![None], true, true, &config(true),
    );
    assert_eq!(none, None);
}

#[test]
fn other_operator_rebuilt_over_alternatives() {
    let source = || PlanNode::source(3, Some(vec![asc(A)]), false);
    let (node, alt) = replace_with_order_preserving_variants_up(
        filter(1, hash(2, source())), true, vec![Some(hash_keeping(2, source()))], false, false, &config(false),
    );
    assert_eq!(node, filter(1, hash(2, source())));
    assert_eq!(alt, Some(filter(1, hash_keeping(2, source()))));
    let (_, none) = replace_with_order_preserving_variants_up(
        filter(1, hash(2, source())), true, vec![None], true, true, &config(true),
    );
    assert_eq!(none, None);
}

#[test]
fn ordering_satisfaction() {
    let none: Vec<u64> = vec![];
    assert!(ordering_satisfy(&none, &vec![asc(A), asc(C)], &vec![asc(A)]));
    assert!(ordering_satisfy(&none, &vec![asc(A)], &vec![]));
    assert!(ordering_satisfy(&none, &vec![], &vec![]));
    assert!(!ordering_satisfy(&none, &vec![asc(A)], &vec![asc(A), asc(C)]));
    assert!(!ordering_satisfy(&none, &vec![asc(C)], &vec![asc(A)]));
    let desc = SortKey { expr: A, descending: true, nulls_first: false };
    assert!(!ordering_satisfy(&none, &vec![desc], &vec![asc(A)]));
    let nulls_first = SortKey { expr: A, descending: false, nulls_first: true };
    assert!(!ordering_satisfy(&none, &vec![nulls_first], &vec![asc(A)]));
    let same = vec![0, 0, 2];
    assert!(ordering_satisfy(&same, &vec![asc(C)], &vec![asc(A)]));
    assert_eq!(canonical_expr(&same, 1), 0);
    assert_eq!(canonical_expr(&same, 7), 7);
}

#[test]
fn repeated_keys_are_redundant() {
    let none: Vec<u64> = vec![];
    let same = vec![0, 0];
    assert!(ordering_satisfy(&same, &vec![asc(A)], &vec![asc(A), asc(C)]));
    assert!(!ordering_satisfy(&none, &vec![asc(A)], &vec![asc(A), asc(C)]));
    assert!(ordering_satisfy(&none, &vec![asc(A)], &vec![asc(A), asc(A)]));
    let desc_c = SortKey { expr: C, descending: true, nulls_first: false };
    assert!(ordering_satisfy(&same, &vec![asc(A), desc_c], &vec![asc(A)]));
    assert_eq!(collapse_normalized(&same, &vec![asc(C), asc(A), asc(2)]), vec![asc(A), asc(2)]);
    assert_eq!(collapse_normalized(&none, &vec![asc(C), asc(A), asc(C)]), vec![asc(C), asc(A)]);
}

#[test]
fn well_formedness() {
    let source = || PlanNode::source(3, None, false);
    assert!(PlanNode::sort(1, vec![asc(A)], source()).is_well_formed());
    let two = PlanNode {
        id: 1,
        kind: PlanKind::Sort { ordering: vec![asc(A)] },
        children: vec![source(), source()],
        maintains_input_order: vec![false, false],
        equivalences: vec![],
        infinite_source: false,
    };
    assert!(!two.is_well_formed());
    let flags = PlanNode::operator(1, None, vec![true], vec![source(), source()]);
    assert!(!flags.is_well_formed());
    let mut streaming = filter(1, source());
    streaming.infinite_source = true;
    assert!(!streaming.is_well_formed());
}

#[test]
fn orderings_and_boundedness() {
    let source = |u: bool| PlanNode::source(3, Some(vec![asc(A)]), u);
    assert_eq!(filter(1, source(false)).output_ordering(), Some(vec![asc(A)]));
    assert_eq!(hash(1, source(false)).output_ordering(), None);
    assert_eq!(hash_keeping(1, source(false)).output_ordering(), Some(vec![asc(A)]));
    assert_eq!(PlanNode::coalesce_partitions(1, source(false)).output_ordering(), None);
    assert_eq!(PlanNode::sort(1, vec![asc(C)], source(false)).output_ordering(), Some(vec![asc(C)]));
    let join = PlanNode::operator(1, Some(vec![asc(C)]), vec![false, true], vec![source(false), source(true)]);
    assert_eq!(join.output_ordering(), Some(vec![asc(C)]));
    assert!(join.is_unbounded());
    assert!(!filter(1, source(false)).is_unbounded());
    assert_eq!(join.deep_copy(), join);
}

#[test]
fn projection_renames_ordering() {
    // Sort(b@0) over a projection [b@1 as b, a@0 as a] of an input sorted by
    // a@0: the projected order is a@1, so the sort on b@0 must stay.
    let plan = |unbounded: bool| {
        let source = PlanNode::source(4, Some(vec![asc(0)]), unbounded);
        let projection = swap_projection(2, hash(3, round_robin(5, source)));
        PlanNode::sort(1, vec![asc(0)], projection)
    };
    for unbounded in [false, true] {
        for prefer in [false, true] {
            let out = replace_with_order_preserving_variants(plan(unbounded), true, true, &config(prefer));
            assert_eq!(out, plan(unbounded));
        }
    }
    // A sort on a@1 is what the projected order provides: it goes.
    let by_a = || {
        let source = PlanNode::source(4, Some(vec![asc(0)]), false);
        PlanNode::sort(1, vec![asc(1)], swap_projection(2, hash(3, round_robin(5, source))))
    };
    let out = replace_with_order_preserving_variants(by_a(), false, false, &config(true));
    let source = PlanNode::source(4, Some(vec![asc(0)]), false);
    assert_eq!(out, swap_projection(2, hash_keeping(3, round_robin(5, source))));
    assert_eq!(out.output_ordering(), Some(vec![asc(1)]));
}

#[test]
fn renaming_stops_at_first_dropped_expression() {
    let map = Some(vec![Some(1), None, Some(0)]);
    assert_eq!(rename_ordering(&vec![asc(0), asc(2), asc(1), asc(0)], &map), Some(vec![asc(1), asc(0)]));
    assert_eq!(rename_ordering(&vec![asc(1), asc(0)], &map), None);
    assert_eq!(rename_ordering(&vec![asc(7)], &map), None);
    assert_eq!(rename_ordering(&vec![], &map), None);
    assert_eq!(rename_ordering(&vec![asc(7)], &None), Some(vec![asc(7)]));
}

#[test]
fn join_hands_on_its_right_input_order() {
    // Sort(a@3) over an inner join whose right input (a@0, c@1, d@2, shifted
    // by the three left columns) is sorted by a once its repartition keeps order.
    let left = || PlanNode::source(5, None, false);
    let right_source = || PlanNode::source(7, Some(vec![asc(0)]), false);
    let shifted = || Some(vec![Some(3), Some(4), Some(5)]);
    let join = |right: PlanNode| PlanNode::forwarding(2, 1, shifted(), vec![false, true], vec![left(), right]);
    let plan = || PlanNode::sort(1, vec![asc(3)], join(hash(6, right_source())));
    let kept = replace_with_order_preserving_variants(plan(), false, false, &config(false));
    assert_eq!(kept, plan());
    let out = replace_with_order_preserving_variants(plan(), false, false, &config(true));
    assert_eq!(out, join(hash_keeping(6, right_source())));
}
