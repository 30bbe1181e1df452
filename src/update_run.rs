use vstd::prelude::*;
use crate::update_plan::{FieldGroup, UpdatePlan};

verus! {

/// One statement group of an update.
#[derive(Debug, Clone, Copy, PartialEq, Eq, Structural)]
pub enum UpdateStep {
    /// Update the fields of join group `i` on every entity.
    UpdateJoin(usize),
    /// Delete every stored child row of merge path `m` for the whole batch.
    DeleteMerge(usize),
    /// Recompute the association keys of the in-memory children of merge path `m`.
    RefreshKeys(usize),
    /// Insert the in-memory children of merge path `m`.
    InsertMerge(usize),
}

/// The step at position `i` of the merge part of an update: for each merge
/// path its delete, key refresh and reinsert.
pub open spec fn merge_step(i: int) -> UpdateStep {
    if i % 3 == 0 {
        UpdateStep::DeleteMerge((i / 3) as usize)
    } else if i % 3 == 1 {
        UpdateStep::RefreshKeys((i / 3) as usize)
    } else {
        UpdateStep::InsertMerge((i / 3) as usize)
    }
}

/// The nesting depth of the join group that an update step updates.
pub open spec fn join_depth(joins: Seq<FieldGroup>, step: UpdateStep) -> nat {
    match step {
        UpdateStep::UpdateJoin(k) => joins[k as int].path@.len(),
        _ => 0,
    }
}

pub open spec fn has_join(steps: Seq<UpdateStep>, k: int) -> bool {
    steps.contains(UpdateStep::UpdateJoin(k as usize))
}

/// `steps` updates every join group once, shallower paths before deeper
/// ones, and then replaces each merge collection in plan order: delete,
/// refresh keys, reinsert.
pub open spec fn is_update_order(joins: Seq<FieldGroup>, merges: nat, steps: Seq<UpdateStep>) -> bool {
    let nj = joins.len();
    &&& steps.len() == nj + 3 * merges
    &&& forall|i: int| 0 <= i < nj ==> (#[trigger] steps[i] matches UpdateStep::UpdateJoin(k) && k < nj)
    &&& forall|k: int| 0 <= k < nj ==> #[trigger] has_join(steps, k)
    &&& forall|a: int, b: int| 0 <= a < nj && 0 <= b < nj && a != b ==> steps[a] != steps[b]
    &&& forall|a: int, b: int| 0 <= a < b < nj ==> join_depth(joins, #[trigger] steps[a]) <= join_depth(joins, #[trigger] steps[b])
    &&& forall|i: int| nj <= i < steps.len() ==> #[trigger] steps[i] == merge_step(i - nj)
}

/// The deepest path of the join groups; 0 where there is none.
fn max_depth(joins: &Vec<FieldGroup>) -> (r: usize)
    ensures
        forall|k: int| 0 <= k < joins@.len() ==> #[trigger] joins@[k].path@.len() <= r,
{
    let mut r: usize = 0;
    let mut k: usize = 0;
    while k < joins.len()
        invariant
            k <= joins@.len(),
            forall|i: int| 0 <= i < k ==> #[trigger] joins@[i].path@.len() <= r,
        decreases joins@.len() - k,
    {
        if joins[k].path.len() > r {
            r = joins[k].path.len();
        }
        k += 1;
    }
    r
}

/// The order of the statements of an update: join groups in place first,
/// by nesting depth, then each merge collection replaced wholesale.
pub fn update_order(plan: &UpdatePlan) -> (steps: Vec<UpdateStep>)
    requires
        plan.joins@.len() + 3 * plan.merges@.len() <= usize::MAX,
    ensures
        is_update_order(plan.joins@, plan.merges@.len(), steps@),
{
    let joins = &plan.joins;
    let nj = joins.len();
    let nm = plan.merges.len();
    let max = max_depth(joins);
    let mut steps: Vec<UpdateStep> = Vec::new();
    let mut d: usize = 0;
    loop
        invariant_except_break
            nj == joins@.len(),
            forall|k: int| 0 <= k < nj ==> #[trigger] joins@[k].path@.len() <= max,
            d <= max,
            forall|i: int| 0 <= i < steps@.len() ==> (#[trigger] steps@[i] matches UpdateStep::UpdateJoin(k) && k < nj && joins@[k as int].path@.len() < d),
            forall|k: int| 0 <= k < nj ==> (#[trigger] has_join(steps@, k) <==> joins@[k].path@.len() < d),
            steps@.no_duplicates(),
            forall|a: int, b: int| 0 <= a < b < steps@.len() ==> join_depth(joins@, #[trigger] steps@[a]) <= join_depth(joins@, #[trigger] steps@[b]),
        ensures
            forall|i: int| 0 <= i < steps@.len() ==> (#[trigger] steps@[i] matches UpdateStep::UpdateJoin(k) && k < nj),
            forall|k: int| 0 <= k < nj ==> #[trigger] has_join(steps@, k),
            steps@.no_duplicates(),
            forall|a: int, b: int| 0 <= a < b < steps@.len() ==> join_depth(joins@, #[trigger] steps@[a]) <= join_depth(joins@, #[trigger] steps@[b]),
        decreases max - d,
    {
        let mut k: usize = 0;
        while k < nj
            invariant
                nj == joins@.len(),
                k <= nj,
                forall|i: int| 0 <= i < steps@.len() ==> (#[trigger] steps@[i] matches UpdateStep::UpdateJoin(k2) && k2 < nj && (joins@[k2 as int].path@.len() < d || (joins@[k2 as int].path@.len() == d && k2 < k))),
                forall|k2: int| 0 <= k2 < nj ==> (#[trigger] has_join(steps@, k2) <==> (joins@[k2].path@.len() < d || (joins@[k2].path@.len() == d && k2 < k))),
                steps@.no_duplicates(),
                forall|a: int, b: int| 0 <= a < b < steps@.len() ==> join_depth(joins@, #[trigger] steps@[a]) <= join_depth(joins@, #[trigger] steps@[b]),
            decreases nj - k,
        {
            if joins[k].path.len() == d {
                let ghost before = steps@;
                assert(!has_join(before, k as int));
                steps.push(UpdateStep::UpdateJoin(k));
                assert forall|k2: int| 0 <= k2 < nj implies (#[trigger] has_join(steps@, k2) <==> (joins@[k2].path@.len() < d || (joins@[k2].path@.len() == d && k2 < k + 1))) by {
                    if k2 == k {
                        assert(steps@[before.len() as int] == UpdateStep::UpdateJoin(k));
                    } else if has_join(steps@, k2) {
                        let w = choose|w: int| 0 <= w < steps@.len() && steps@[w] == UpdateStep::UpdateJoin(k2 as usize);
                        assert(before[w] == UpdateStep::UpdateJoin(k2 as usize));
                        assert(has_join(before, k2));
                    } else if joins@[k2].path@.len() < d || (joins@[k2].path@.len() == d && k2 < k) {
                        assert(has_join(before, k2));
                        let w = choose|w: int| 0 <= w < before.len() && before[w] == UpdateStep::UpdateJoin(k2 as usize);
                        assert(steps@[w] == UpdateStep::UpdateJoin(k2 as usize));
                    }
                }
            }
            k += 1;
        }
        if d == max {
            break;
        }
        d = d + 1;
    }
    proof {
        let ids = steps@.map_values(|s: UpdateStep| match s {
            UpdateStep::UpdateJoin(k) => k as int,
            _ => -1,
        });
        assert forall|k: int| 0 <= k < nj implies ids.contains(k) by {
            assert(has_join(steps@, k));
            let w = choose|w: int| 0 <= w < steps@.len() && steps@[w] == UpdateStep::UpdateJoin(k as usize);
            assert(ids[w] == k);
        }
        assert forall|a: int, b: int| 0 <= a < ids.len() && 0 <= b < ids.len() && a != b implies ids[a] != ids[b] by {
            assert(steps@[a] != steps@[b]);
            assert(steps@[a] matches UpdateStep::UpdateJoin(_));
            assert(steps@[b] matches UpdateStep::UpdateJoin(_));
        }
        assert forall|a: int| 0 <= a < ids.len() implies 0 <= #[trigger] ids[a] < nj by {
            assert(steps@[a] matches UpdateStep::UpdateJoin(_));
        }
        crate::insert_plan::lemma_index_permutation_len(ids, nj as nat);
    }
    let ghost joined = steps@;
    let mut m: usize = 0;
    while m < nm
        invariant
            nj + 3 * nm <= usize::MAX,
            joined.len() == nj,
            m <= nm,
            steps@.len() == nj + 3 * m,
            steps@.take(nj as int) == joined,
            forall|i: int| nj <= i < steps@.len() ==> #[trigger] steps@[i] == merge_step(i - nj),
        decreases nm - m,
    {
        let ghost base = nj + 3 * m;
        assert((3 * m) % 3 == 0 && (3 * m) / 3 == m) by (nonlinear_arith);
        assert((3 * m + 1) % 3 == 1 && (3 * m + 1) / 3 == m) by (nonlinear_arith);
        assert((3 * m + 2) % 3 == 2 && (3 * m + 2) / 3 == m) by (nonlinear_arith);
        let ghost before = steps@;
        steps.push(UpdateStep::DeleteMerge(m));
        steps.push(UpdateStep::RefreshKeys(m));
        steps.push(UpdateStep::InsertMerge(m));
        assert(steps@.take(nj as int) =~= before.take(nj as int));
        m += 1;
    }
    assert forall|i: int| 0 <= i < nj implies steps@[i] == joined[i] by {
        assert(steps@.take(nj as int)[i] == steps@[i]);
    }
    assert forall|k: int| 0 <= k < nj implies #[trigger] has_join(steps@, k) by {
        assert(has_join(joined, k));
        let w = choose|w: int| 0 <= w < joined.len() && joined[w] == UpdateStep::UpdateJoin(k as usize);
        assert(steps@[w] == joined[w]);
    }
    assert forall|i: int| 0 <= i < nj implies (#[trigger] steps@[i] matches UpdateStep::UpdateJoin(k) && k < nj) by {
        assert(steps@[i] == joined[i]);
    }
    assert forall|a: int, b: int| 0 <= a < nj && 0 <= b < nj && a != b implies steps@[a] != steps@[b] by {
        assert(steps@[a] == joined[a]);
        assert(steps@[b] == joined[b]);
    }
    assert forall|a: int, b: int| 0 <= a < b < nj implies join_depth(joins@, #[trigger] steps@[a]) <= join_depth(joins@, #[trigger] steps@[b]) by {
        assert(steps@[a] == joined[a]);
        assert(steps@[b] == joined[b]);
    }
    steps
}

/// A stored child row: the identity of its parent and its own.
pub type ChildRow = (u64, u64);

pub open spec fn of_parent(p: u64) -> spec_fn(ChildRow) -> bool {
    |r: ChildRow| r.0 == p
}

pub open spec fn outside(batch: Set<u64>) -> spec_fn(ChildRow) -> bool {
    |r: ChildRow| !batch.contains(r.0)
}

/// The child rows that belong to parent `p`.
pub open spec fn rows_of(store: Seq<ChildRow>, p: u64) -> Seq<ChildRow> {
    store.filter(of_parent(p))
}

/// The store after the delete of a merge replace: no child row of a parent
/// in the batch is left.
pub open spec fn delete_children(store: Seq<ChildRow>, batch: Set<u64>) -> Seq<ChildRow> {
    store.filter(outside(batch))
}

/// The store after a merge replace: the batch's children deleted, then the
/// desired children inserted.
pub open spec fn replace_children(store: Seq<ChildRow>, batch: Set<u64>, desired: Seq<ChildRow>) -> Seq<
    ChildRow,
> {
    delete_children(store, batch) + desired
}

/// After a merge replace, a parent of the batch has exactly the desired
/// children, none of its earlier ones and none twice over; a parent outside
/// the batch keeps its rows.
pub proof fn lemma_replace_leaves_desired(store: Seq<ChildRow>, batch: Set<u64>, desired: Seq<ChildRow>, p: u64)
    ensures
        batch.contains(p) ==> rows_of(replace_children(store, batch, desired), p) == rows_of(desired, p),
        !batch.contains(p) ==> rows_of(replace_children(store, batch, desired), p) == rows_of(store, p) + rows_of(desired, p),
{
    let del = delete_children(store, batch);
    let pred = of_parent(p);
    Seq::filter_distributes_over_add(del, desired, pred);
    if batch.contains(p) {
        assert(del.all(|x: ChildRow| !pred(x))) by {
            assert forall|i: int| 0 <= i < del.len() implies !pred(#[trigger] del[i]) by {
                broadcast use vstd::seq_lib::group_filter_ensures;
            }
        }
        del.lemma_all_neg_filter_empty(pred);
        assert(del.filter(pred) =~= Seq::<ChildRow>::empty());
        assert(Seq::<ChildRow>::empty() + desired.filter(pred) =~= desired.filter(pred));
    } else {
        assert(del.filter(pred) =~= store.filter(pred)) by {
            lemma_filter_filter_absent(store, batch, p);
        }
    }
}

/// Dropping the rows of a batch that `p` is not in leaves `p`'s rows as they were.
proof fn lemma_filter_filter_absent(store: Seq<ChildRow>, batch: Set<u64>, p: u64)
    requires
        !batch.contains(p),
    ensures
        delete_children(store, batch).filter(of_parent(p)) == store.filter(of_parent(p)),
    decreases store.len(),
{
    reveal(Seq::filter);
    if store.len() > 0 {
        let rest = store.drop_last();
        let x = store.last();
        lemma_filter_filter_absent(rest, batch, p);
        let d = delete_children(rest, batch);
        if outside(batch)(x) {
            assert(delete_children(store, batch) == d.push(x));
            assert(d.push(x).drop_last() =~= d);
        } else {
            assert(delete_children(store, batch) == d);
        }
    }
}

} // verus!
