//! Row orderings, and when rows in one order are also in another.
use vstd::prelude::*;

verus! {

/// One key of a lexicographic row ordering: an expression of the output
/// schema (named by its index), a direction and the place of nulls.
#[derive(Clone, Copy, Debug, PartialEq, Eq, Structural)]
pub struct SortKey {
    pub expr: u64,
    pub descending: bool,
    pub nulls_first: bool,
}

/// The representative of `expr` among the expressions known to be equal to
/// it. `equivalences[e]` names the representative of `e`; an expression past
/// the end of the map stands for itself.
pub open spec fn canonical(equivalences: Seq<u64>, expr: u64) -> u64 {
    if expr < equivalences.len() {
        equivalences[expr as int]
    } else {
        expr
    }
}

/// A sort key with its expression replaced by the representative of its class.
pub open spec fn normalized_key(equivalences: Seq<u64>, key: SortKey) -> SortKey {
    SortKey {
        expr: canonical(equivalences, key.expr),
        descending: key.descending,
        nulls_first: key.nulls_first,
    }
}

/// Every key with its expression resolved to its class representative.
pub open spec fn normalized(equivalences: Seq<u64>, keys: Seq<SortKey>) -> Seq<SortKey> {
    keys.map_values(|k: SortKey| normalized_key(equivalences, k))
}

pub open spec fn has_expr(keys: Seq<SortKey>, expr: u64) -> bool {
    exists|j: int| 0 <= j < keys.len() && (#[trigger] keys[j]).expr == expr
}

/// The keys without those whose expression an earlier key already sorts by:
/// rows tied on an expression are tied on it again further down.
pub open spec fn collapsed(keys: Seq<SortKey>) -> Seq<SortKey>
    decreases keys.len(),
{
    if keys.len() == 0 {
        keys
    } else {
        let front = collapsed(keys.drop_last());
        if has_expr(front, keys.last().expr) {
            front
        } else {
            front.push(keys.last())
        }
    }
}

/// Rows ordered by `provided` are also ordered by `required`: once every
/// expression is resolved to its class representative and repeated
/// expressions are dropped, `required` is a prefix of `provided`, key by
/// key, direction and null placement included.
pub open spec fn ordering_satisfied(
    equivalences: Seq<u64>,
    provided: Seq<SortKey>,
    required: Seq<SortKey>,
) -> bool {
    let have = collapsed(normalized(equivalences, provided));
    let want = collapsed(normalized(equivalences, required));
    &&& want.len() <= have.len()
    &&& forall|i: int| 0 <= i < want.len() ==> #[trigger] want[i] == have[i]
}

/// A collapsed ordering is empty only where the ordering is.
pub proof fn lemma_collapsed_empty(keys: Seq<SortKey>)
    ensures
        collapsed(keys).len() == 0 <==> keys.len() == 0,
{
    if keys.len() > 0 {
        let front = collapsed(keys.drop_last());
        if has_expr(front, keys.last().expr) {
            assert(front.len() > 0);
        } else {
            assert(front.push(keys.last()).len() > 0);
        }
    }
}

/// Resolves `expr` to the representative of its equivalence class.
pub fn canonical_expr(equivalences: &Vec<u64>, expr: u64) -> (r: u64)
    ensures
        r == canonical(equivalences@, expr),
{
    if expr < equivalences.len() as u64 {
        equivalences[expr as usize]
    } else {
        expr
    }
}

/// `keys` with expressions resolved and repeated expressions dropped.
pub fn collapse_normalized(equivalences: &Vec<u64>, keys: &Vec<SortKey>) -> (r: Vec<SortKey>)
    ensures
        r@ == collapsed(normalized(equivalences@, keys@)),
{
    let ghost all = normalized(equivalences@, keys@);
    let mut r: Vec<SortKey> = Vec::new();
    let mut i: usize = 0;
    while i < keys.len()
        invariant
            0 <= i <= keys.len(),
            all == normalized(equivalences@, keys@),
            r@ == collapsed(all.subrange(0, i as int)),
        decreases keys.len() - i,
    {
        let key = SortKey {
            expr: canonical_expr(equivalences, keys[i].expr),
            descending: keys[i].descending,
            nulls_first: keys[i].nulls_first,
        };
        let mut seen = false;
        let mut j: usize = 0;
        while j < r.len()
            invariant
                0 <= j <= r.len(),
                seen == exists|m: int| 0 <= m < j && (#[trigger] r@[m]).expr == key.expr,
            decreases r.len() - j,
        {
            if r[j].expr == key.expr {
                seen = true;
            }
            j = j + 1;
        }
        let ghost next = all.subrange(0, i + 1);
        assert(next.drop_last() =~= all.subrange(0, i as int));
        assert(next.last() == key);
        if !seen {
            r.push(key);
        }
        i = i + 1;
    }
    assert(all.subrange(0, keys.len() as int) =~= all);
    r
}

/// Decides whether rows ordered by `provided` are ordered by `required`,
/// treating equivalent expressions as interchangeable.
pub fn ordering_satisfy(
    equivalences: &Vec<u64>,
    provided: &Vec<SortKey>,
    required: &Vec<SortKey>,
) -> (r: bool)
    ensures
        r == ordering_satisfied(equivalences@, provided@, required@),
{
    let have = collapse_normalized(equivalences, provided);
    let want = collapse_normalized(equivalences, required);
    if want.len() > have.len() {
        return false;
    }
    let mut i: usize = 0;
    while i < want.len()
        invariant
            want@ == collapsed(normalized(equivalences@, required@)),
            have@ == collapsed(normalized(equivalences@, provided@)),
            want.len() <= have.len(),
            0 <= i <= want.len(),
            forall|j: int| 0 <= j < i ==> #[trigger] want@[j] == have@[j],
        decreases want.len() - i,
    {
        if want[i] != have[i] {
            assert(want@[i as int] != have@[i as int]);
            return false;
        }
        i = i + 1;
    }
    true
}

} // verus!
