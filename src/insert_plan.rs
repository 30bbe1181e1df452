use vstd::prelude::*;
use crate::error::ToqlError;
use crate::mapping::{Registry, RelationKind, seg_view, has_named, named, lemma_first_named_unique, lemma_walk_fails_onward};

verus! {

/// Where a relation path is inserted: in the join group of its nesting
/// level, or with the merges, which go last.
#[derive(Debug, Clone, Copy, PartialEq, Eq, Structural)]
pub enum Slot {
    Join(usize),
    Merge,
}

/// One relation path to insert, with its slot.
pub struct PlannedPath {
    pub path: Vec<String>,
    pub slot: Slot,
}

pub open spec fn pview(e: PlannedPath) -> Seq<Seq<char>> {
    seg_view(e.path@)
}

/// The number of joins that directly precede the end of `kinds`, back to
/// the last merge or the root.
pub open spec fn trailing_joins(kinds: Seq<RelationKind>) -> nat
    decreases kinds.len(),
{
    if kinds.len() == 0 {
        0
    } else if kinds.last() == RelationKind::Merge {
        0
    } else {
        1 + trailing_joins(kinds.drop_last())
    }
}

pub proof fn lemma_trailing_joins_bounded(kinds: Seq<RelationKind>)
    ensures
        trailing_joins(kinds) <= kinds.len(),
    decreases kinds.len(),
{
    if kinds.len() > 0 {
        lemma_trailing_joins_bounded(kinds.drop_last());
    }
}

/// The slot of a path whose steps have the kinds `kinds`: a merge step makes
/// a merge; a join step sits at the level of the joins before it.
pub open spec fn slot_of(kinds: Seq<RelationKind>) -> Slot {
    if kinds.last() == RelationKind::Merge {
        Slot::Merge
    } else {
        Slot::Join(trailing_joins(kinds.drop_last()) as usize)
    }
}

/// The slot of a nonempty relation path of the root type, if the path walks.
pub open spec fn planned_slot(reg: &Registry, root: int, path: Seq<Seq<char>>) -> Option<Slot> {
    match reg.walk(root, path) {
        Some((_, kinds)) => if kinds.len() > 0 {
            Some(slot_of(kinds))
        } else {
            None
        },
        None => None,
    }
}

pub open spec fn in_plan(plan: Seq<PlannedPath>, path: Seq<Seq<char>>) -> bool {
    exists|i: int| 0 <= i < plan.len() && #[trigger] pview(plan[i]) == path
}

/// `path` is a nonempty prefix of one of the requested paths.
pub open spec fn is_requested_prefix(paths: Seq<Vec<String>>, path: Seq<Seq<char>>) -> bool {
    exists|q: int, n: int|
        0 <= q < paths.len() && 1 <= n <= paths[q]@.len() && path == #[trigger] seg_view(
            paths[q]@,
        ).take(n)
}

/// Every path of `paths` walks from `root`.
pub open spec fn all_walk(reg: &Registry, root: int, paths: Seq<Vec<String>>) -> bool {
    forall|q: int| 0 <= q < paths.len() ==> #[trigger] reg.walk(root, seg_view(paths[q]@)) is Some
}

/// `plan` holds each nonempty prefix of each requested path exactly once,
/// nothing else, and each with its slot.
pub open spec fn is_insert_plan(
    reg: &Registry,
    root: int,
    paths: Seq<Vec<String>>,
    plan: Seq<PlannedPath>,
) -> bool {
    &&& forall|i: int| 0 <= i < plan.len() ==> is_requested_prefix(paths, #[trigger] pview(plan[i]))
    &&& forall|i: int|
        0 <= i < plan.len() ==> planned_slot(reg, root, #[trigger] pview(plan[i])) == Some(
            plan[i].slot,
        )
    &&& forall|q: int, n: int|
        0 <= q < paths.len() && 1 <= n <= paths[q]@.len() ==> in_plan(
            plan,
            #[trigger] seg_view(paths[q]@).take(n),
        )
    &&& forall|i: int, j: int|
        0 <= i < plan.len() && 0 <= j < plan.len() && i != j ==> pview(plan[i]) != pview(plan[j])
}

/// Whether two paths hold the same field names.
pub fn same_path(a: &Vec<String>, b: &Vec<String>) -> (r: bool)
    ensures
        r == (seg_view(a@) == seg_view(b@)),
{
    if a.len() != b.len() {
        assert(seg_view(a@).len() != seg_view(b@).len());
        return false;
    }
    let mut i: usize = 0;
    while i < a.len()
        invariant
            a@.len() == b@.len(),
            i <= a@.len(),
            forall|j: int| 0 <= j < i ==> #[trigger] a@[j]@ == b@[j]@,
        decreases a@.len() - i,
    {
        if a[i] != b[i] {
            assert(seg_view(a@)[i as int] != seg_view(b@)[i as int]);
            return false;
        }
        i += 1;
    }
    assert(seg_view(a@) =~= seg_view(b@));
    true
}

/// The first `n` field names of `v`.
pub(crate) fn copy_prefix(v: &Vec<String>, n: usize) -> (r: Vec<String>)
    requires
        n <= v@.len(),
    ensures
        seg_view(r@) == seg_view(v@).take(n as int),
{
    let mut r: Vec<String> = Vec::new();
    let mut i: usize = 0;
    while i < n
        invariant
            i <= n <= v@.len(),
            r@.len() == i,
            forall|j: int| 0 <= j < i ==> #[trigger] r@[j]@ == v@[j]@,
        decreases n - i,
    {
        r.push(v[i].clone());
        i += 1;
    }
    assert(seg_view(r@) =~= seg_view(v@).take(n as int));
    r
}

/// The position of `path` in `plan`, if it is there.
fn find_planned(plan: &Vec<PlannedPath>, path: &Vec<String>) -> (r: Option<usize>)
    ensures
        r matches Some(i) ==> i < plan@.len() && pview(plan@[i as int]) == seg_view(path@),
        r is None ==> !in_plan(plan@, seg_view(path@)),
{
    let mut i: usize = 0;
    while i < plan.len()
        invariant
            i <= plan@.len(),
            forall|j: int| 0 <= j < i ==> #[trigger] pview(plan@[j]) != seg_view(path@),
        decreases plan@.len() - i,
    {
        if same_path(&plan[i].path, path) {
            return Some(i);
        }
        i += 1;
    }
    None
}

proof fn lemma_take_step(s: Seq<Seq<char>>, k: int)
    requires
        0 <= k < s.len(),
    ensures
        s.take(k + 1).drop_last() == s.take(k),
        s.take(k + 1).last() == s[k],
{
    assert(s.take(k + 1).drop_last() =~= s.take(k));
}

/// Sorts the requested relation paths of the root type into join groups by
/// nesting level and a merge group.
///
/// Every nonempty prefix of a requested path is planned once. A field that
/// names no relation of its type is a `MappingError`.
pub fn plan_insert_order(reg: &Registry, root: usize, paths: &Vec<Vec<String>>) -> (r: Result<
    Vec<PlannedPath>,
    ToqlError,
>)
    requires
        reg.wf(),
        root < reg.types@.len(),
    ensures
        r is Ok <==> all_walk(reg, root as int, paths@),
        r is Err ==> r == Err::<Vec<PlannedPath>, ToqlError>(ToqlError::MappingError),
        r matches Ok(plan) ==> is_insert_plan(reg, root as int, paths@, plan@),
{
    let mut plan: Vec<PlannedPath> = Vec::new();
    let mut p: usize = 0;
    while p < paths.len()
        invariant
            reg.wf(),
            root < reg.types@.len(),
            p <= paths@.len(),
            forall|q: int| 0 <= q < p ==> #[trigger] reg.walk(root as int, seg_view(paths@[q]@)) is Some,
            forall|i: int| 0 <= i < plan@.len() ==> is_requested_prefix(paths@, #[trigger] pview(plan@[i])),
            forall|i: int|
                0 <= i < plan@.len() ==> planned_slot(reg, root as int, #[trigger] pview(plan@[i]))
                    == Some(plan@[i].slot),
            forall|q: int, n: int|
                0 <= q < p && 1 <= n <= paths@[q]@.len() ==> in_plan(
                    plan@,
                    #[trigger] seg_view(paths@[q]@).take(n),
                ),
            forall|i: int, j: int|
                0 <= i < plan@.len() && 0 <= j < plan@.len() && i != j ==> pview(plan@[i]) != pview(
                    plan@[j],
                ),
        decreases paths@.len() - p,
    {
        let path = &paths[p];
        let ghost sv = seg_view(path@);
        let mut ty: usize = root;
        let mut level: usize = 0;
        let ghost mut kinds: Seq<RelationKind> = Seq::empty();
        let mut k: usize = 0;
        assert(sv.take(0) =~= Seq::<Seq<char>>::empty());
        while k < path.len()
            invariant
                reg.wf(),
                root < reg.types@.len(),
                p < paths@.len(),
                path == &paths@[p as int],
                sv == seg_view(path@),
                k <= path@.len(),
                ty < reg.types@.len(),
                reg.walk(root as int, sv.take(k as int)) == Some((ty as int, kinds)),
                kinds.len() == k,
                level == trailing_joins(kinds),
                level <= k,
                forall|q: int| 0 <= q < p ==> #[trigger] reg.walk(root as int, seg_view(paths@[q]@)) is Some,
                forall|i: int| 0 <= i < plan@.len() ==> is_requested_prefix(paths@, #[trigger] pview(plan@[i])),
                forall|i: int|
                    0 <= i < plan@.len() ==> planned_slot(reg, root as int, #[trigger] pview(plan@[i]))
                        == Some(plan@[i].slot),
                forall|q: int, n: int|
                    0 <= q < p && 1 <= n <= paths@[q]@.len() ==> in_plan(
                        plan@,
                        #[trigger] seg_view(paths@[q]@).take(n),
                    ),
                forall|n: int| 1 <= n <= k ==> in_plan(plan@, #[trigger] sv.take(n)),
                forall|i: int, j: int|
                    0 <= i < plan@.len() && 0 <= j < plan@.len() && i != j ==> pview(plan@[i])
                        != pview(plan@[j]),
            decreases path@.len() - k,
        {
            proof {
                lemma_take_step(sv, k as int);
            }
            let found = reg.lookup(ty, &path[k]);
            let j = match found {
                None => {
                    proof {
                        assert(reg.walk(root as int, sv.take(k + 1)) is None);
                        lemma_walk_fails_onward(reg, root as int, sv, k + 1);
                    }
                    return Err(ToqlError::MappingError);
                },
                Some(j) => j,
            };
            let rel = &reg.types[ty].relations[j];
            proof {
                lemma_first_named_unique(reg.types@[ty as int].relations@, sv[k as int], j as int);
            }
            let slot = match rel.kind {
                RelationKind::Merge => Slot::Merge,
                RelationKind::Join => Slot::Join(level),
            };
            let ghost new_kinds = kinds.push(rel.kind);
            assert(new_kinds.drop_last() =~= kinds);
            assert(reg.walk(root as int, sv.take(k + 1)) == Some((rel.target as int, new_kinds)));
            assert(planned_slot(reg, root as int, sv.take(k + 1)) == Some(slot));
            let prefix = copy_prefix(path, k + 1);
            assert(seg_view(path@).take(k + 1) == sv.take(k + 1));
            assert(is_requested_prefix(paths@, seg_view(prefix@))) by {
                assert(seg_view(paths@[p as int]@).take(k + 1) == seg_view(prefix@));
            }
            match find_planned(&plan, &prefix) {
                Some(i) => {
                    assert(pview(plan@[i as int]) == sv.take(k + 1));
                },
                None => {
                    let ghost before = plan@;
                    plan.push(PlannedPath { path: prefix, slot });
                    assert(pview(plan@[before.len() as int]) == sv.take(k + 1));
                    assert forall|q: int, n: int|
                        0 <= q < p && 1 <= n <= paths@[q]@.len() implies in_plan(
                            plan@,
                            #[trigger] seg_view(paths@[q]@).take(n),
                        ) by {
                        assert(in_plan(before, seg_view(paths@[q]@).take(n)));
                        let w = choose|w: int| 0 <= w < before.len() && #[trigger] pview(before[w])
                            == seg_view(paths@[q]@).take(n);
                        assert(pview(plan@[w]) == seg_view(paths@[q]@).take(n));
                    }
                    assert forall|n: int| 1 <= n <= k implies in_plan(plan@, #[trigger] sv.take(n)) by {
                        assert(in_plan(before, sv.take(n)));
                        let w = choose|w: int| 0 <= w < before.len() && #[trigger] pview(before[w])
                            == sv.take(n);
                        assert(pview(plan@[w]) == sv.take(n));
                    }
                },
            }
            ty = rel.target;
            proof {
                lemma_trailing_joins_bounded(new_kinds);
            }
            if rel.kind == RelationKind::Merge {
                level = 0;
            } else {
                level = level + 1;
            }
            proof {
                kinds = new_kinds;
            }
            k += 1;
        }
        assert(sv.take(path@.len() as int) =~= sv);
        assert forall|n: int| 1 <= n <= paths@[p as int]@.len() implies in_plan(
            plan@,
            #[trigger] seg_view(paths@[p as int]@).take(n),
        ) by {
            assert(sv.take(n) == seg_view(paths@[p as int]@).take(n));
        }
        p += 1;
    }
    Ok(plan)
}

} // verus!

verus! {

/// One statement of an insert: the root batch, or the planned path at an index.
#[derive(Debug, Clone, Copy, PartialEq, Eq, Structural)]
pub enum InsertStep {
    Root,
    Path(usize),
}

/// Step `a` must run before step `b`: the root runs first, deeper join
/// levels before shallower ones, and joins before merges.
pub open spec fn runs_before(plan: Seq<PlannedPath>, a: InsertStep, b: InsertStep) -> bool {
    match (a, b) {
        (InsertStep::Root, InsertStep::Path(_)) => true,
        (InsertStep::Path(i), InsertStep::Path(j)) => match (plan[i as int].slot, plan[j as int].slot) {
            (Slot::Join(l1), Slot::Join(l2)) => l1 > l2,
            (Slot::Join(_), Slot::Merge) => true,
            _ => false,
        },
        _ => false,
    }
}

/// Planned path `k` has a step in `steps`.
pub open spec fn has_step(steps: Seq<InsertStep>, k: int) -> bool {
    steps.contains(InsertStep::Path(k as usize))
}

/// `steps` runs the root and then every planned path once, in an order
/// that `runs_before` never contradicts.
pub open spec fn is_insert_order(plan: Seq<PlannedPath>, steps: Seq<InsertStep>) -> bool {
    &&& steps.len() == plan.len() + 1
    &&& steps[0] == InsertStep::Root
    &&& forall|i: int| 1 <= i < steps.len() ==> (#[trigger] steps[i] matches InsertStep::Path(k) && k < plan.len())
    &&& forall|k: int| 0 <= k < plan.len() ==> #[trigger] has_step(steps, k)
    &&& steps.no_duplicates()
    &&& forall|i: int, j: int| 0 <= i < j < steps.len() ==> !runs_before(plan, #[trigger] steps[j], #[trigger] steps[i])
}

/// Path `k` is among the steps already ordered while level `lv` is being
/// scanned up to index `idx`.
pub open spec fn scheduled(plan: Seq<PlannedPath>, k: int, lv: usize, idx: int) -> bool {
    0 <= k < plan.len() && match plan[k].slot {
        Slot::Join(l) => l > lv || (l == lv && k < idx),
        Slot::Merge => false,
    }
}

/// The deepest join level of the plan; 0 where there is none.
fn max_join_level(plan: &Vec<PlannedPath>) -> (r: usize)
    ensures
        forall|k: int| 0 <= k < plan@.len() ==> (#[trigger] plan@[k].slot matches Slot::Join(l) ==> l <= r),
{
    let mut r: usize = 0;
    let mut k: usize = 0;
    while k < plan.len()
        invariant
            k <= plan@.len(),
            forall|i: int| 0 <= i < k ==> (#[trigger] plan@[i].slot matches Slot::Join(l) ==> l <= r),
        decreases plan@.len() - k,
    {
        if let Slot::Join(l) = plan[k].slot {
            if l > r {
                r = l;
            }
        }
        k += 1;
    }
    r
}

/// The order in which the statements of an insert plan run: the root
/// batch, then the join groups from the deepest level to the shallowest,
/// then the merges.
pub fn insert_order(plan: &Vec<PlannedPath>) -> (steps: Vec<InsertStep>)
    ensures
        is_insert_order(plan@, steps@),
{
    let max = max_join_level(plan);
    let mut steps: Vec<InsertStep> = Vec::new();
    steps.push(InsertStep::Root);
    let mut lv: usize = max;
    loop
        invariant_except_break
            forall|k: int| 0 <= k < plan@.len() ==> (#[trigger] plan@[k].slot matches Slot::Join(l) ==> l <= max),
            lv <= max,
            steps@.len() >= 1,
            steps@[0] == InsertStep::Root,
            forall|i: int| 1 <= i < steps@.len() ==> (#[trigger] steps@[i] matches InsertStep::Path(k) && scheduled(plan@, k as int, lv, 0)),
            forall|k: int| 0 <= k < plan@.len() ==> (#[trigger] has_step(steps@, k) <==> scheduled(plan@, k, lv, 0)),
            steps@.no_duplicates(),
            forall|i: int, j: int| 0 <= i < j < steps@.len() ==> !runs_before(plan@, #[trigger] steps@[j], #[trigger] steps@[i]),
        ensures
            steps@.len() >= 1,
            steps@[0] == InsertStep::Root,
            forall|i: int| 1 <= i < steps@.len() ==> (#[trigger] steps@[i] matches InsertStep::Path(k) && k < plan@.len() && plan@[k as int].slot is Join),
            forall|k: int| 0 <= k < plan@.len() ==> (#[trigger] has_step(steps@, k) <==> plan@[k].slot is Join),
            steps@.no_duplicates(),
            forall|i: int, j: int| 0 <= i < j < steps@.len() ==> !runs_before(plan@, #[trigger] steps@[j], #[trigger] steps@[i]),
        decreases lv,
    {
        let mut k: usize = 0;
        while k < plan.len()
            invariant
                k <= plan@.len(),
                steps@.len() >= 1,
                steps@[0] == InsertStep::Root,
                forall|i: int| 1 <= i < steps@.len() ==> (#[trigger] steps@[i] matches InsertStep::Path(k2) && scheduled(plan@, k2 as int, lv, k as int)),
                forall|k2: int| 0 <= k2 < plan@.len() ==> (#[trigger] has_step(steps@, k2) <==> scheduled(plan@, k2, lv, k as int)),
                steps@.no_duplicates(),
                forall|i: int, j: int| 0 <= i < j < steps@.len() ==> !runs_before(plan@, #[trigger] steps@[j], #[trigger] steps@[i]),
            decreases plan@.len() - k,
        {
            if plan[k].slot == Slot::Join(lv) {
                let ghost before = steps@;
                assert(!before.contains(InsertStep::Path(k)));
                steps.push(InsertStep::Path(k));
                assert forall|k2: int| 0 <= k2 < plan@.len() implies (#[trigger] has_step(steps@, k2) <==> scheduled(plan@, k2, lv, k + 1)) by {
                    if k2 == k {
                        assert(steps@[before.len() as int] == InsertStep::Path(k));
                    } else if has_step(steps@, k2) {
                        let w = choose|w: int| 0 <= w < steps@.len() && steps@[w] == InsertStep::Path(k2 as usize);
                        assert(before[w] == InsertStep::Path(k2 as usize));
                    assert(has_step(before, k2));
                    } else if scheduled(plan@, k2, lv, k as int) {
                        assert(has_step(before, k2));
                        assert(has_step(before, k2));
                    let w = choose|w: int| 0 <= w < before.len() && before[w] == InsertStep::Path(k2 as usize);
                        assert(steps@[w] == InsertStep::Path(k2 as usize));
                    }
                }
            } else {
                assert forall|k2: int| 0 <= k2 < plan@.len() implies (#[trigger] has_step(steps@, k2) <==> scheduled(plan@, k2, lv, k + 1)) by {
                    if k2 == k {
                        assert(scheduled(plan@, k2, lv, k + 1) == scheduled(plan@, k2, lv, k as int));
                    }
                }
            }
            k += 1;
        }
        if lv == 0 {
            break;
        }
        lv = lv - 1;
    }
    let mut k: usize = 0;
    let ghost joined = steps@.len();
    while k < plan.len()
        invariant
            k <= plan@.len(),
            steps@.len() >= 1,
            steps@[0] == InsertStep::Root,
            forall|i: int| 1 <= i < steps@.len() ==> (#[trigger] steps@[i] matches InsertStep::Path(k2) && k2 < plan@.len()),
            forall|k2: int| 0 <= k2 < plan@.len() ==> (#[trigger] has_step(steps@, k2) <==> (plan@[k2].slot is Join || k2 < k)),
            steps@.no_duplicates(),
            forall|i: int, j: int| 0 <= i < j < steps@.len() ==> !runs_before(plan@, #[trigger] steps@[j], #[trigger] steps@[i]),
        decreases plan@.len() - k,
    {
        if plan[k].slot == Slot::Merge {
            let ghost before = steps@;
            assert(!has_step(before, k as int));
            steps.push(InsertStep::Path(k));
            assert forall|k2: int| 0 <= k2 < plan@.len() implies (#[trigger] has_step(steps@, k2) <==> (plan@[k2].slot is Join || k2 < k + 1)) by {
                if k2 == k {
                    assert(steps@[before.len() as int] == InsertStep::Path(k));
                } else if has_step(steps@, k2) {
                    let w = choose|w: int| 0 <= w < steps@.len() && steps@[w] == InsertStep::Path(k2 as usize);
                    assert(before[w] == InsertStep::Path(k2 as usize));
                    assert(has_step(before, k2));
                } else if plan@[k2].slot is Join || k2 < k {
                    assert(has_step(before, k2));
                    let w = choose|w: int| 0 <= w < before.len() && before[w] == InsertStep::Path(k2 as usize);
                    assert(steps@[w] == InsertStep::Path(k2 as usize));
                }
            }
        }
        k += 1;
    }
    proof {
        lemma_order_length(plan@, steps@);
    }
    steps
}

/// A duplicate-free step list that names each planned path, and only those,
/// holds one step per path besides the root.
proof fn lemma_order_length(plan: Seq<PlannedPath>, steps: Seq<InsertStep>)
    requires
        plan.len() <= usize::MAX,
        steps.len() >= 1,
        steps[0] == InsertStep::Root,
        forall|i: int| 1 <= i < steps.len() ==> (#[trigger] steps[i] matches InsertStep::Path(k) && k < plan.len()),
        forall|k: int| 0 <= k < plan.len() ==> #[trigger] has_step(steps, k),
        steps.no_duplicates(),
    ensures
        steps.len() == plan.len() + 1,
{
    let tail = steps.drop_first();
    let ids = tail.map_values(|s: InsertStep| match s {
        InsertStep::Path(k) => k as int,
        InsertStep::Root => -1,
    });
    assert forall|k: int| 0 <= k < plan.len() implies ids.contains(k) by {
        assert(has_step(steps, k));
        let w = choose|w: int| 0 <= w < steps.len() && steps[w] == InsertStep::Path(k as usize);
        assert(w != 0);
        assert(ids[w - 1] == k);
    }
    assert forall|a: int, b: int| 0 <= a < ids.len() && 0 <= b < ids.len() && a != b implies ids[a] != ids[b] by {
        assert(steps[a + 1] != steps[b + 1]);
        assert(steps[a + 1] matches InsertStep::Path(_));
        assert(steps[b + 1] matches InsertStep::Path(_));
    }
    assert forall|a: int| 0 <= a < ids.len() implies 0 <= #[trigger] ids[a] < plan.len() by {
        assert(steps[a + 1] matches InsertStep::Path(_));
    }
    lemma_index_permutation_len(ids, plan.len());
}

/// A duplicate-free sequence of indices below `n` that holds each of them
/// has length `n`.
pub proof fn lemma_index_permutation_len(ids: Seq<int>, n: nat)
    requires
        forall|a: int| 0 <= a < ids.len() ==> 0 <= #[trigger] ids[a] < n,
        forall|k: int| 0 <= k < n ==> ids.contains(k),
        forall|a: int, b: int| 0 <= a < ids.len() && 0 <= b < ids.len() && a != b ==> ids[a] != ids[b],
    ensures
        ids.len() == n,
{
    let full = Set::new(|k: int| 0 <= k < n);
    assert(ids.to_set() =~= full) by {
        assert forall|k: int| ids.to_set().contains(k) implies full.contains(k) by {
            let w = choose|w: int| 0 <= w < ids.len() && ids[w] == k;
        }
    }
    assert(ids.no_duplicates());
    ids.unique_seq_to_set();
    vstd::set_lib::lemma_int_range(0, n as int);
    assert(full =~= vstd::set_lib::set_int_range(0, n as int));
}

/// An insert runs the root batch first, and once a merge group has run,
/// only merge groups follow: no join waits for a merge.
pub proof fn lemma_root_then_joins_then_merges(plan: Seq<PlannedPath>, steps: Seq<InsertStep>)
    requires
        is_insert_order(plan, steps),
    ensures
        steps[0] == InsertStep::Root,
        forall|i: int| 1 <= i < steps.len() ==> steps[i] != InsertStep::Root,
        forall|i: int, j: int|
            0 <= i < j < steps.len() && (#[trigger] steps[i] matches InsertStep::Path(a) && plan[a as int].slot is Merge)
                ==> (#[trigger] steps[j] matches InsertStep::Path(b) && plan[b as int].slot is Merge),
{
    assert forall|i: int, j: int|
        0 <= i < j < steps.len() && (#[trigger] steps[i] matches InsertStep::Path(a) && plan[a as int].slot is Merge)
            implies (#[trigger] steps[j] matches InsertStep::Path(b) && plan[b as int].slot is Merge) by {
        assert(!runs_before(plan, steps[j], steps[i]));
        assert(steps[j] matches InsertStep::Path(_));
    }
}

} // verus!
