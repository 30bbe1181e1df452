use vstd::prelude::*;
use crate::error::ToqlError;
use crate::mapping::Registry;

verus! {

/// `rank` strictly decreases along every relation of `reg`.
pub open spec fn ranks_decrease(reg: &Registry, rank: spec_fn(int) -> int) -> bool {
    forall|t: int, j: int|
        0 <= t < reg.types@.len() && 0 <= j < reg.types@[t].relations@.len() ==> rank(t) > rank(
            #[trigger] reg.types@[t].relations@[j].target as int,
        )
}

/// No chain of relations leads from a type back to itself: the types can
/// be ranked so that every relation leads to a lower rank.
pub open spec fn acyclic(reg: &Registry) -> bool {
    exists|rank: spec_fn(int) -> int| #[trigger] ranks_decrease(reg, rank)
}

/// The number of entries of `done` that are false.
pub open spec fn count_undone(done: Seq<bool>) -> nat
    decreases done.len(),
{
    if done.len() == 0 {
        0
    } else {
        count_undone(done.drop_last()) + if done.last() {
            0nat
        } else {
            1nat
        }
    }
}

proof fn lemma_count_undone_mark(done: Seq<bool>, t: int)
    requires
        0 <= t < done.len(),
        !done[t],
    ensures
        count_undone(done.update(t, true)) + 1 == count_undone(done),
    decreases done.len(),
{
    let u = done.update(t, true);
    if t < done.len() - 1 {
        assert(u.drop_last() =~= done.drop_last().update(t, true));
        lemma_count_undone_mark(done.drop_last(), t);
    } else {
        assert(u.drop_last() =~= done.drop_last());
    }
}

proof fn lemma_count_undone_bound(done: Seq<bool>)
    ensures
        count_undone(done) <= done.len(),
        count_undone(done) == 0 ==> forall|t: int| 0 <= t < done.len() ==> done[t],
    decreases done.len(),
{
    if done.len() > 0 {
        lemma_count_undone_bound(done.drop_last());
        assert forall|t: int| 0 <= t < done.len() && count_undone(done) == 0 implies done[t] by {
            if t < done.len() - 1 {
                assert(done.drop_last()[t] == done[t]);
            }
        }
    }
}

proof fn lemma_count_undone_all(n: nat)
    ensures
        count_undone(Seq::new(n, |i: int| false)) == n,
    decreases n,
{
    if n > 0 {
        assert(Seq::new(n, |i: int| false).drop_last() =~= Seq::new((n - 1) as nat, |i: int| false));
        lemma_count_undone_all((n - 1) as nat);
    }
}

/// A finite nonempty set has an element of least rank.
proof fn lemma_least_rank(s: Set<int>, rank: spec_fn(int) -> int) -> (m: int)
    requires
        s.finite(),
        s.len() > 0,
    ensures
        s.contains(m),
        forall|u: int| s.contains(u) ==> rank(m) <= rank(u),
    decreases s.len(),
{
    let x = s.choose();
    let rest = s.remove(x);
    if rest.len() == 0 {
        assert forall|u: int| s.contains(u) implies rank(x) <= rank(u) by {
            if u != x {
                assert(rest.contains(u));
            }
        }
        x
    } else {
        let m = lemma_least_rank(rest, rank);
        if rank(x) < rank(m) {
            x
        } else {
            m
        }
    }
}

/// Where every remaining type has a relation to a remaining type, no
/// ranking decreases along every relation.
proof fn lemma_stuck_is_cyclic(reg: &Registry, done: Seq<bool>, t0: int)
    requires
        done.len() == reg.types@.len(),
        0 <= t0 < done.len(),
        !done[t0],
        forall|t: int|
            0 <= t < done.len() && !done[t] ==> exists|j: int|
                0 <= j < reg.types@[t].relations@.len() && #[trigger] reg.types@[t].relations@[j].target < done.len()
                    && !done[reg.types@[t].relations@[j].target as int],
    ensures
        !acyclic(reg),
{
    if acyclic(reg) {
        let rank = choose|rank: spec_fn(int) -> int| #[trigger] ranks_decrease(reg, rank);
        let s = Set::new(|t: int| 0 <= t < done.len() && !done[t]);
        assert(s.finite()) by {
            vstd::set_lib::lemma_int_range(0, done.len() as int);
            assert(s.subset_of(vstd::set_lib::set_int_range(0, done.len() as int)));
            vstd::set_lib::lemma_len_subset(s, vstd::set_lib::set_int_range(0, done.len() as int));
        }
        assert(s.contains(t0));
        let m = lemma_least_rank(s, rank);
        let j = choose|j: int|
            0 <= j < reg.types@[m].relations@.len() && #[trigger] reg.types@[m].relations@[j].target < done.len()
                && !done[reg.types@[m].relations@[j].target as int];
        let u = reg.types@[m].relations@[j].target as int;
        assert(s.contains(u));
        assert(rank(m) > rank(u));
    }
}

/// Checks at registration that the relations of `reg` form no cycle, on
/// which the termination of the merge loop rests. A cycle is a `MappingError`.
pub fn check_acyclic(reg: &Registry) -> (r: Result<(), ToqlError>)
    requires
        reg.wf(),
    ensures
        r is Ok <==> acyclic(reg),
        r is Err ==> r == Err::<(), ToqlError>(ToqlError::MappingError),
{
    let n = reg.types.len();
    let mut done: Vec<bool> = Vec::new();
    let mut ranks: Vec<usize> = Vec::new();
    let mut i: usize = 0;
    while i < n
        invariant
            i <= n,
            done@ == Seq::new(i as nat, |k: int| false),
            ranks@.len() == i,
        decreases n - i,
    {
        done.push(false);
        ranks.push(0);
        i += 1;
        assert(done@ =~= Seq::new(i as nat, |k: int| false));
    }
    proof {
        lemma_count_undone_all(n as nat);
    }
    let mut stamp: usize = 0;
    loop
        invariant
            reg.wf(),
            n == reg.types@.len(),
            done@.len() == n,
            ranks@.len() == n,
            stamp + count_undone(done@) == n,
            forall|t: int| 0 <= t < n && done@[t] ==> #[trigger] ranks@[t] < stamp,
            forall|t: int, j: int|
                0 <= t < n && done@[t] && 0 <= j < reg.types@[t].relations@.len() ==> done@[#[trigger] reg.types@[t].relations@[j].target as int]
                    && ranks@[reg.types@[t].relations@[j].target as int] < ranks@[t],
        decreases count_undone(done@),
    {
        let ghost start = count_undone(done@);
        let mut changed = false;
        let mut t: usize = 0;
        while t < n
            invariant
                reg.wf(),
                n == reg.types@.len(),
                t <= n,
                done@.len() == n,
                ranks@.len() == n,
                stamp + count_undone(done@) == n,
                changed ==> count_undone(done@) < start,
                !changed ==> count_undone(done@) == start,
                forall|u: int| 0 <= u < n && done@[u] ==> #[trigger] ranks@[u] < stamp,
                forall|u: int, j: int|
                    0 <= u < n && done@[u] && 0 <= j < reg.types@[u].relations@.len() ==> done@[#[trigger] reg.types@[u].relations@[j].target as int]
                        && ranks@[reg.types@[u].relations@[j].target as int] < ranks@[u],
                !changed ==> forall|u: int|
                    0 <= u < t && !done@[u] ==> exists|j: int|
                        0 <= j < reg.types@[u].relations@.len() && #[trigger] reg.types@[u].relations@[j].target < n
                            && !done@[reg.types@[u].relations@[j].target as int],
            decreases n - t,
        {
            if !done[t] {
                let rels = &reg.types[t].relations;
                let mut ready = true;
                let mut j: usize = 0;
                while j < rels.len()
                    invariant
                        reg.wf(),
                        n == reg.types@.len(),
                        t < n,
                        done@.len() == n,
                        rels == &reg.types@[t as int].relations,
                        j <= rels@.len(),
                        ready ==> forall|k: int| 0 <= k < j ==> done@[#[trigger] rels@[k].target as int],
                        !ready ==> exists|k: int| 0 <= k < rels@.len() && #[trigger] rels@[k].target < n && !done@[rels@[k].target as int],
                    decreases rels@.len() - j,
                {
                    assert(rels@[j as int].target < n);
                    if !done[rels[j].target] {
                        ready = false;
                    }
                    j += 1;
                }
                if ready {
                    proof {
                        lemma_count_undone_mark(done@, t as int);
                    }
                    done.set(t, true);
                    ranks.set(t, stamp);
                    stamp = stamp + 1;
                    changed = true;
                }
            }
            t += 1;
        }
        if !changed {
            proof {
                lemma_count_undone_bound(done@);
            }
            let mut k: usize = 0;
            while k < n
                invariant
                    k <= n,
                    n == reg.types@.len(),
                    done@.len() == n,
                    forall|u: int| 0 <= u < k ==> done@[u],
                    forall|u: int|
                        0 <= u < n && !done@[u] ==> exists|j: int|
                            0 <= j < reg.types@[u].relations@.len() && #[trigger] reg.types@[u].relations@[j].target < n
                                && !done@[reg.types@[u].relations@[j].target as int],
                decreases n - k,
            {
                if !done[k] {
                    proof {
                        lemma_stuck_is_cyclic(reg, done@, k as int);
                    }
                    return Err(ToqlError::MappingError);
                }
                k += 1;
            }
            proof {
                let rv = ranks@;
                let rank = |t: int| rv[t] as int;
                assert(ranks_decrease(reg, rank));
            }
            return Ok(());
        }
    }
}

} // verus!
