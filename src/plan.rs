//! Plan trees: the executable nodes, and the mathematical value that
//! contracts speak of.
use vstd::prelude::*;
use crate::ordering::SortKey;

verus! {

/// How a data-redistribution operator spreads rows over its output partitions.
#[derive(Debug, PartialEq, Eq)]
pub enum Partitioning {
    RoundRobinBatch(u64),
    /// Hash of the listed expressions, into the given number of partitions.
    Hash(Vec<u64>, u64),
    UnknownPartitioning(u64),
}

/// The operator of a plan node, as far as the rewrite tells operators apart.
#[derive(Debug, PartialEq, Eq)]
pub enum PlanKind {
    /// An explicit sort of its single input.
    Sort { ordering: Vec<SortKey> },
    /// A data-redistribution operator over a single input.
    Repartition { partitioning: Partitioning },
    /// Merges the partitions of its single input and discards their order.
    CoalescePartitions,
    /// Merges the sorted partitions of its single input into one sorted stream.
    SortPreservingMerge { ordering: Vec<SortKey> },
    /// Any other operator. Where `ordering_input` names an input whose order
    /// it keeps, it hands that input's order on, each key's expression
    /// renamed through `expr_map` (`expr_map[e]` is what input expression `e`
    /// becomes in the output; no map leaves expressions as they are), up to
    /// the first key whose expression does not reach the output. Without
    /// `ordering_input` its output is ordered by `ordering`.
    Other {
        ordering: Option<Vec<SortKey>>,
        ordering_input: Option<usize>,
        expr_map: Option<Vec<Option<u64>>>,
    },
}

/// A node of a physical plan together with its inputs.
#[derive(Debug, PartialEq, Eq)]
pub struct PlanNode {
    /// The caller's name for the operator; copied to every variant built from it.
    pub id: u64,
    pub kind: PlanKind,
    pub children: Vec<PlanNode>,
    /// For each input, whether the operator keeps that input's row order.
    pub maintains_input_order: Vec<bool>,
    /// The representative of each output expression's equivalence class.
    pub equivalences: Vec<u64>,
    /// The operator reads a stream without end.
    pub infinite_source: bool,
}

pub enum PartitioningView {
    RoundRobinBatch(u64),
    Hash(Seq<u64>, u64),
    UnknownPartitioning(u64),
}

pub enum KindView {
    Sort { ordering: Seq<SortKey> },
    Repartition { partitioning: PartitioningView },
    CoalescePartitions,
    SortPreservingMerge { ordering: Seq<SortKey> },
    Other {
        ordering: Option<Seq<SortKey>>,
        ordering_input: Option<usize>,
        expr_map: Option<Seq<Option<u64>>>,
    },
}

/// The mathematical value of a plan tree.
pub struct PlanView {
    pub id: u64,
    pub kind: KindView,
    pub children: Seq<PlanView>,
    pub maintains_input_order: Seq<bool>,
    pub equivalences: Seq<u64>,
    pub infinite_source: bool,
}

pub open spec fn ordering_view(o: Option<Vec<SortKey>>) -> Option<Seq<SortKey>> {
    match o {
        Some(v) => Some(v@),
        None => None,
    }
}

pub open spec fn plan_option_view(o: Option<PlanNode>) -> Option<PlanView> {
    match o {
        Some(p) => Some(p@),
        None => None,
    }
}

impl Partitioning {
    pub open spec fn view(&self) -> PartitioningView {
        match self {
            Partitioning::RoundRobinBatch(n) => PartitioningView::RoundRobinBatch(*n),
            Partitioning::Hash(exprs, n) => PartitioningView::Hash(exprs@, *n),
            Partitioning::UnknownPartitioning(n) => PartitioningView::UnknownPartitioning(*n),
        }
    }

    pub fn copy(&self) -> (r: Partitioning)
        ensures
            r@ == self@,
    {
        match self {
            Partitioning::RoundRobinBatch(n) => Partitioning::RoundRobinBatch(*n),
            Partitioning::Hash(exprs, n) => Partitioning::Hash(copy_u64s(exprs), *n),
            Partitioning::UnknownPartitioning(n) => Partitioning::UnknownPartitioning(*n),
        }
    }
}

impl PlanKind {
    pub open spec fn view(&self) -> KindView {
        match self {
            PlanKind::Sort { ordering } => KindView::Sort { ordering: ordering@ },
            PlanKind::Repartition { partitioning } => KindView::Repartition {
                partitioning: partitioning@,
            },
            PlanKind::CoalescePartitions => KindView::CoalescePartitions,
            PlanKind::SortPreservingMerge { ordering } => KindView::SortPreservingMerge {
                ordering: ordering@,
            },
            PlanKind::Other { ordering, ordering_input, expr_map } => KindView::Other {
                ordering: ordering_view(*ordering),
                ordering_input: *ordering_input,
                expr_map: expr_map_view(*expr_map),
            },
        }
    }

    pub fn copy(&self) -> (r: PlanKind)
        ensures
            r@ == self@,
    {
        match self {
            PlanKind::Sort { ordering } => PlanKind::Sort { ordering: copy_keys(ordering) },
            PlanKind::Repartition { partitioning } => PlanKind::Repartition {
                partitioning: partitioning.copy(),
            },
            PlanKind::CoalescePartitions => PlanKind::CoalescePartitions,
            PlanKind::SortPreservingMerge { ordering } => PlanKind::SortPreservingMerge {
                ordering: copy_keys(ordering),
            },
            PlanKind::Other { ordering, ordering_input, expr_map } => PlanKind::Other {
                ordering: match ordering {
                    Some(o) => Some(copy_keys(o)),
                    None => None,
                },
                ordering_input: *ordering_input,
                expr_map: match expr_map {
                    Some(m) => Some(copy_expr_map(m)),
                    None => None,
                },
            },
        }
    }
}

impl PlanNode {
    pub open spec fn view(&self) -> PlanView
        decreases self,
    {
        PlanView {
            id: self.id,
            kind: self.kind@,
            children: Seq::new(
                self.children@.len(),
                |i: int|
                    if 0 <= i < self.children@.len() {
                        self.children@[i].view()
                    } else {
                        self.view_placeholder()
                    },
            ),
            maintains_input_order: self.maintains_input_order@,
            equivalences: self.equivalences@,
            infinite_source: self.infinite_source,
        }
    }

    /// Whether the tree is well formed (see `PlanView::wf`).
    pub fn is_well_formed(&self) -> (r: bool)
        ensures
            r == self@.wf(),
        decreases self,
    {
        if self.maintains_input_order.len() != self.children.len() {
            return false;
        }
        let single_input = match self.kind {
            PlanKind::Other { .. } => false,
            _ => true,
        };
        if single_input && self.children.len() != 1 {
            return false;
        }
        if self.infinite_source && self.children.len() != 0 {
            return false;
        }
        let mut i: usize = 0;
        while i < self.children.len()
            invariant
                0 <= i <= self.children.len(),
                forall|j: int| 0 <= j < i ==> (#[trigger] self@.children[j]).wf(),
            decreases self.children.len() - i,
        {
            if !self.children[i].is_well_formed() {
                assert(!self@.children[i as int].wf());
                return false;
            }
            i = i + 1;
        }
        true
    }

    /// Whether some operator of the tree reads a stream without end.
    pub fn is_unbounded(&self) -> (r: bool)
        ensures
            r == self@.is_unbounded(),
        decreases self,
    {
        if self.infinite_source {
            return true;
        }
        let mut i: usize = 0;
        while i < self.children.len()
            invariant
                0 <= i <= self.children.len(),
                !self.infinite_source,
                forall|j: int| 0 <= j < i ==> !(#[trigger] self@.children[j]).is_unbounded(),
            decreases self.children.len() - i,
        {
            if self.children[i].is_unbounded() {
                assert(self@.children[i as int].is_unbounded());
                return true;
            }
            i = i + 1;
        }
        false
    }

    /// The ordering that the node's output rows are known to follow.
    pub fn output_ordering(&self) -> (r: Option<Vec<SortKey>>)
        ensures
            ordering_view(r) == self@.output_ordering(),
        decreases self,
    {
        let forwards = self.children.len() == 1 && self.maintains_input_order.len() == 1
            && self.maintains_input_order[0];
        match &self.kind {
            PlanKind::Sort { ordering } => Some(copy_keys(ordering)),
            PlanKind::SortPreservingMerge { ordering } => Some(copy_keys(ordering)),
            PlanKind::CoalescePartitions => None,
            PlanKind::Repartition { .. } => {
                if forwards {
                    self.children[0].output_ordering()
                } else {
                    None
                }
            },
            PlanKind::Other { ordering, ordering_input, expr_map } => match ordering_input {
                None => match ordering {
                    Some(o) => Some(copy_keys(o)),
                    None => None,
                },
                Some(i) => {
                    let i = *i;
                    if i < self.children.len() && i < self.maintains_input_order.len()
                        && self.maintains_input_order[i] {
                        match self.children[i].output_ordering() {
                            Some(o) => rename_ordering(&o, expr_map),
                            None => None,
                        }
                    } else {
                        None
                    }
                },
            },
        }
    }

    /// A copy of the whole tree.
    pub fn deep_copy(&self) -> (r: PlanNode)
        ensures
            r@ == self@,
        decreases self,
    {
        let mut children: Vec<PlanNode> = Vec::new();
        let mut i: usize = 0;
        while i < self.children.len()
            invariant
                0 <= i <= self.children.len(),
                children@.len() == i,
                forall|j: int| 0 <= j < i ==> (#[trigger] children@[j])@ == self.children@[j]@,
            decreases self.children.len() - i,
        {
            let c = self.children[i].deep_copy();
            children.push(c);
            i = i + 1;
        }
        let r = PlanNode {
            id: self.id,
            kind: self.kind.copy(),
            children,
            maintains_input_order: copy_bools(&self.maintains_input_order),
            equivalences: copy_u64s(&self.equivalences),
            infinite_source: self.infinite_source,
        };
        assert(r@.children =~= self@.children);
        r
    }

    /// A source of rows, ordered by `ordering` where one is given.
    pub fn source(id: u64, ordering: Option<Vec<SortKey>>, infinite_source: bool) -> (r: PlanNode)
        ensures
            r@ == (PlanView {
                id,
                kind: KindView::Other {
                    ordering: ordering_view(ordering),
                    ordering_input: None,
                    expr_map: None,
                },
                children: Seq::empty(),
                maintains_input_order: Seq::empty(),
                equivalences: Seq::empty(),
                infinite_source,
            }),
            r@.wf(),
    {
        let r = PlanNode {
            id,
            kind: PlanKind::Other { ordering, ordering_input: None, expr_map: None },
            children: Vec::new(),
            maintains_input_order: Vec::new(),
            equivalences: Vec::new(),
            infinite_source,
        };
        assert(r@.children =~= Seq::empty());
        r
    }

    /// An operator of kind `kind` over the single input `input`.
    fn over_one(id: u64, kind: PlanKind, maintains_input_order: bool, input: PlanNode) -> (r:
        PlanNode)
        ensures
            r@ == (PlanView {
                id,
                kind: kind@,
                children: seq![input@],
                maintains_input_order: seq![maintains_input_order],
                equivalences: Seq::empty(),
                infinite_source: false,
            }),
            input@.wf() ==> r@.wf(),
    {
        let ghost child = input@;
        let mut children: Vec<PlanNode> = Vec::new();
        children.push(input);
        let mut keeps: Vec<bool> = Vec::new();
        keeps.push(maintains_input_order);
        let r = PlanNode {
            id,
            kind,
            children,
            maintains_input_order: keeps,
            equivalences: Vec::new(),
            infinite_source: false,
        };
        assert(r@.children =~= seq![child]);
        r
    }

    /// An explicit sort of `input` by `ordering`.
    pub fn sort(id: u64, ordering: Vec<SortKey>, input: PlanNode) -> (r: PlanNode)
        ensures
            r@ == (PlanView {
                id,
                kind: KindView::Sort { ordering: ordering@ },
                children: seq![input@],
                maintains_input_order: seq![false],
                equivalences: Seq::empty(),
                infinite_source: false,
            }),
            input@.wf() ==> r@.wf(),
    {
        PlanNode::over_one(id, PlanKind::Sort { ordering }, false, input)
    }

    /// A repartition of `input`; `maintains_input_order` tells whether it
    /// keeps the input's order as it stands.
    pub fn repartition(
        id: u64,
        partitioning: Partitioning,
        maintains_input_order: bool,
        input: PlanNode,
    ) -> (r: PlanNode)
        ensures
            r@ == (PlanView {
                id,
                kind: KindView::Repartition { partitioning: partitioning@ },
                children: seq![input@],
                maintains_input_order: seq![maintains_input_order],
                equivalences: Seq::empty(),
                infinite_source: false,
            }),
            input@.wf() ==> r@.wf(),
    {
        PlanNode::over_one(id, PlanKind::Repartition { partitioning }, maintains_input_order, input)
    }

    /// A merge of the partitions of `input` that discards their order.
    pub fn coalesce_partitions(id: u64, input: PlanNode) -> (r: PlanNode)
        ensures
            r@ == (PlanView {
                id,
                kind: KindView::CoalescePartitions,
                children: seq![input@],
                maintains_input_order: seq![false],
                equivalences: Seq::empty(),
                infinite_source: false,
            }),
            input@.wf() ==> r@.wf(),
    {
        PlanNode::over_one(id, PlanKind::CoalescePartitions, false, input)
    }

    /// A merge of the partitions of `input`, each sorted by `ordering`.
    pub fn sort_preserving_merge(id: u64, ordering: Vec<SortKey>, input: PlanNode) -> (r: PlanNode)
        ensures
            r@ == (PlanView {
                id,
                kind: KindView::SortPreservingMerge { ordering: ordering@ },
                children: seq![input@],
                maintains_input_order: seq![true],
                equivalences: Seq::empty(),
                infinite_source: false,
            }),
            input@.wf() ==> r@.wf(),
    {
        PlanNode::over_one(id, PlanKind::SortPreservingMerge { ordering }, true, input)
    }

    /// Any other operator over `children`, with one order flag per input,
    /// whose output is ordered by `ordering`.
    pub fn operator(
        id: u64,
        ordering: Option<Vec<SortKey>>,
        maintains_input_order: Vec<bool>,
        children: Vec<PlanNode>,
    ) -> (r: PlanNode)
        ensures
            r@ == (PlanView {
                id,
                kind: KindView::Other {
                    ordering: ordering_view(ordering),
                    ordering_input: None,
                    expr_map: None,
                },
                children: Seq::new(children@.len(), |i: int| children@[i]@),
                maintains_input_order: maintains_input_order@,
                equivalences: Seq::empty(),
                infinite_source: false,
            }),
            maintains_input_order@.len() == children@.len() && (forall|i: int|
                0 <= i < children@.len() ==> (#[trigger] children@[i])@.wf()) ==> r@.wf(),
    {
        let ghost inputs = children@;
        let r = PlanNode {
            id,
            kind: PlanKind::Other { ordering, ordering_input: None, expr_map: None },
            children,
            maintains_input_order,
            equivalences: Vec::new(),
            infinite_source: false,
        };
        assert(r@.children =~= Seq::new(inputs.len(), |i: int| inputs[i]@));
        r
    }

    /// Any other operator over `children`, with one order flag per input,
    /// that hands on the order of input `ordering_input` with expressions
    /// renamed through `expr_map` (see `PlanKind::Other`).
    pub fn forwarding(
        id: u64,
        ordering_input: usize,
        expr_map: Option<Vec<Option<u64>>>,
        maintains_input_order: Vec<bool>,
        children: Vec<PlanNode>,
    ) -> (r: PlanNode)
        ensures
            r@ == (PlanView {
                id,
                kind: KindView::Other {
                    ordering: None,
                    ordering_input: Some(ordering_input),
                    expr_map: expr_map_view(expr_map),
                },
                children: Seq::new(children@.len(), |i: int| children@[i]@),
                maintains_input_order: maintains_input_order@,
                equivalences: Seq::empty(),
                infinite_source: false,
            }),
            maintains_input_order@.len() == children@.len() && (forall|i: int|
                0 <= i < children@.len() ==> (#[trigger] children@[i])@.wf()) ==> r@.wf(),
    {
        let ghost inputs = children@;
        let r = PlanNode {
            id,
            kind: PlanKind::Other { ordering: None, ordering_input: Some(ordering_input), expr_map },
            children,
            maintains_input_order,
            equivalences: Vec::new(),
            infinite_source: false,
        };
        assert(r@.children =~= Seq::new(inputs.len(), |i: int| inputs[i]@));
        r
    }

    /// The same node, with `equivalences` naming the representative of each
    /// output expression's equivalence class.
    pub fn with_equivalences(self, equivalences: Vec<u64>) -> (r: PlanNode)
        ensures
            r@ == (PlanView { equivalences: equivalences@, ..self@ }),
            self@.wf() ==> r@.wf(),
    {
        let ghost before = self@;
        let r = PlanNode { equivalences, ..self };
        assert(r@.children =~= before.children);
        r
    }

    /// Stands where no child is; never reached in a view.
    pub open spec fn view_placeholder(&self) -> PlanView {
        PlanView {
            id: self.id,
            kind: KindView::CoalescePartitions,
            children: Seq::empty(),
            maintains_input_order: Seq::empty(),
            equivalences: Seq::empty(),
            infinite_source: false,
        }
    }
}

impl PlanView {
    /// Operators that take exactly one input.
    pub open spec fn single_input(self) -> bool {
        ||| self.kind is Sort
        ||| self.kind is Repartition
        ||| self.kind is CoalescePartitions
        ||| self.kind is SortPreservingMerge
    }

    /// One order flag per input, one input where the operator takes one, an
    /// unbounded stream read by sources only, and the same below.
    pub open spec fn wf(self) -> bool
        decreases self,
    {
        &&& self.maintains_input_order.len() == self.children.len()
        &&& self.single_input() ==> self.children.len() == 1
        &&& self.infinite_source ==> self.children.len() == 0
        &&& forall|i: int| 0 <= i < self.children.len() ==> (#[trigger] self.children[i]).wf()
    }

    /// The node has one input and keeps its order.
    pub open spec fn forwards_input_ordering(self) -> bool {
        &&& self.children.len() == 1
        &&& self.maintains_input_order.len() == 1
        &&& self.maintains_input_order[0]
    }

    /// The ordering that the node's output rows are known to follow.
    pub open spec fn output_ordering(self) -> Option<Seq<SortKey>>
        decreases self,
    {
        match self.kind {
            KindView::Sort { ordering } => Some(ordering),
            KindView::SortPreservingMerge { ordering } => Some(ordering),
            KindView::CoalescePartitions => None,
            KindView::Repartition { .. } => if self.children.len() == 1
                && self.maintains_input_order.len() == 1 && self.maintains_input_order[0] {
                self.children[0].output_ordering()
            } else {
                None
            },
            KindView::Other { ordering, ordering_input, expr_map } => match ordering_input {
                None => ordering,
                Some(i) => if i < self.children.len() && i < self.maintains_input_order.len()
                    && self.maintains_input_order[i as int] {
                    match self.children[i as int].output_ordering() {
                        Some(o) => renamed_ordering(o, expr_map),
                        None => None,
                    }
                } else {
                    None
                },
            },
        }
    }

    /// Some operator of the subtree reads a stream without end.
    pub open spec fn is_unbounded(self) -> bool
        decreases self,
    {
        ||| self.infinite_source
        ||| exists|i: int| 0 <= i < self.children.len() && (#[trigger] self.children[i]).is_unbounded()
    }

    /// The same node over other inputs.
    pub open spec fn with_children(self, children: Seq<PlanView>) -> PlanView {
        PlanView { children, ..self }
    }
}

pub open spec fn expr_map_view(m: Option<Vec<Option<u64>>>) -> Option<Seq<Option<u64>>> {
    match m {
        Some(v) => Some(v@),
        None => None,
    }
}

/// Input expression `e` reaches the output under `map`.
pub open spec fn maps_expr(map: Seq<Option<u64>>, e: u64) -> bool {
    e < map.len() && map[e as int] is Some
}

/// The index of the first key from `i` on whose expression `map` drops.
pub open spec fn mapped_prefix_len(keys: Seq<SortKey>, map: Seq<Option<u64>>, i: int) -> int
    decreases keys.len() - i,
{
    if i < 0 || i >= keys.len() {
        keys.len() as int
    } else if !maps_expr(map, keys[i].expr) {
        i
    } else {
        mapped_prefix_len(keys, map, i + 1)
    }
}

pub open spec fn renamed_key(map: Seq<Option<u64>>, key: SortKey) -> SortKey {
    SortKey {
        expr: match map[key.expr as int] {
            Some(e) => e,
            None => key.expr,
        },
        descending: key.descending,
        nulls_first: key.nulls_first,
    }
}

/// An input ordering as it reads in an operator's output: the keys up to
/// the first one whose expression does not reach the output, renamed, and
/// no ordering where none is left. Without a map the ordering is unchanged.
pub open spec fn renamed_ordering(keys: Seq<SortKey>, map: Option<Seq<Option<u64>>>) -> Option<
    Seq<SortKey>,
> {
    match map {
        None => Some(keys),
        Some(m) => {
            let n = mapped_prefix_len(keys, m, 0);
            if n == 0 {
                None
            } else {
                Some(Seq::new(n as nat, |j: int| renamed_key(m, keys[j])))
            }
        },
    }
}

/// `keys` as they read after an operator that renames expressions by `map`.
pub fn rename_ordering(keys: &Vec<SortKey>, map: &Option<Vec<Option<u64>>>) -> (r: Option<
    Vec<SortKey>,
>)
    ensures
        ordering_view(r) == renamed_ordering(keys@, expr_map_view(*map)),
{
    match map {
        None => Some(copy_keys(keys)),
        Some(m) => {
            let mut r: Vec<SortKey> = Vec::new();
            let mut i: usize = 0;
            let mut stop = false;
            while !stop && i < keys.len()
                invariant
                    0 <= i <= keys.len(),
                    mapped_prefix_len(keys@, m@, 0) == mapped_prefix_len(keys@, m@, i as int),
                    stop ==> i < keys.len() && !maps_expr(m@, keys@[i as int].expr),
                    forall|j: int| 0 <= j < i ==> maps_expr(m@, (#[trigger] keys@[j]).expr),
                    r@ == Seq::new(i as nat, |j: int| renamed_key(m@, keys@[j])),
                decreases keys.len() - i, if stop { 0int } else { 1int },
            {
                let key = keys[i];
                if key.expr >= m.len() as u64 {
                    stop = true;
                } else {
                    match m[key.expr as usize] {
                        None => {
                            stop = true;
                        },
                        Some(e) => {
                            r.push(SortKey { expr: e, descending: key.descending, nulls_first: key.nulls_first });
                            assert(r@ =~= Seq::new((i + 1) as nat, |j: int| renamed_key(m@, keys@[j])));
                            i = i + 1;
                        },
                    }
                }
            }
            assert(mapped_prefix_len(keys@, m@, i as int) == i);
            if i == 0 {
                None
            } else {
                Some(r)
            }
        },
    }
}

pub fn copy_expr_map(v: &Vec<Option<u64>>) -> (r: Vec<Option<u64>>)
    ensures
        r@ == v@,
{
    let mut r: Vec<Option<u64>> = Vec::new();
    let mut i: usize = 0;
    while i < v.len()
        invariant
            0 <= i <= v.len(),
            r@ == v@.subrange(0, i as int),
        decreases v.len() - i,
    {
        r.push(v[i]);
        i = i + 1;
    }
    assert(r@ =~= v@);
    r
}

pub fn copy_u64s(v: &Vec<u64>) -> (r: Vec<u64>)
    ensures
        r@ == v@,
{
    let mut r: Vec<u64> = Vec::new();
    let mut i: usize = 0;
    while i < v.len()
        invariant
            0 <= i <= v.len(),
            r@ == v@.subrange(0, i as int),
        decreases v.len() - i,
    {
        r.push(v[i]);
        i = i + 1;
    }
    assert(r@ =~= v@);
    r
}

pub fn copy_bools(v: &Vec<bool>) -> (r: Vec<bool>)
    ensures
        r@ == v@,
{
    let mut r: Vec<bool> = Vec::new();
    let mut i: usize = 0;
    while i < v.len()
        invariant
            0 <= i <= v.len(),
            r@ == v@.subrange(0, i as int),
        decreases v.len() - i,
    {
        r.push(v[i]);
        i = i + 1;
    }
    assert(r@ =~= v@);
    r
}

pub fn copy_keys(v: &Vec<SortKey>) -> (r: Vec<SortKey>)
    ensures
        r@ == v@,
{
    let mut r: Vec<SortKey> = Vec::new();
    let mut i: usize = 0;
    while i < v.len()
        invariant
            0 <= i <= v.len(),
            r@ == v@.subrange(0, i as int),
        decreases v.len() - i,
    {
        r.push(v[i]);
        i = i + 1;
    }
    assert(r@ =~= v@);
    r
}

} // verus!
