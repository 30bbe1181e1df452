use vstd::prelude::*;
use crate::mapping::seg_view;

verus! {

/// Some list of `lists` holds `s`.
pub open spec fn discovered_in(lists: Seq<Vec<String>>, s: Seq<char>) -> bool {
    exists|i: int, j: int|
        0 <= i < lists.len() && 0 <= j < lists[i]@.len() && #[trigger] lists[i]@[j]@ == s
}

/// The paths to merge next: every sub-path that some merge of this pass
/// left unresolved, each once.
pub open spec fn is_next_pending(lists: Seq<Vec<String>>, next: Seq<String>) -> bool {
    &&& forall|s: Seq<char>| #[trigger] seg_view(next).contains(s) <==> discovered_in(lists, s)
    &&& seg_view(next).no_duplicates()
}

/// Whether `names` holds `name`.
pub fn holds_name(names: &Vec<String>, name: &String) -> (r: bool)
    ensures
        r == seg_view(names@).contains(name@),
{
    let mut i: usize = 0;
    while i < names.len()
        invariant
            i <= names@.len(),
            forall|j: int| 0 <= j < i ==> #[trigger] names@[j]@ != name@,
        decreases names@.len() - i,
    {
        if names[i] == *name {
            assert(seg_view(names@)[i as int] == name@);
            return true;
        }
        i += 1;
    }
    assert forall|j: int| 0 <= j < seg_view(names@).len() implies seg_view(names@)[j] != name@ by {
        assert(names@[j]@ != name@);
    }
    false
}

/// The union of the sub-paths that the merges of one pass left unresolved.
pub fn next_pending(lists: &Vec<Vec<String>>) -> (next: Vec<String>)
    ensures
        is_next_pending(lists@, next@),
{
    let mut next: Vec<String> = Vec::new();
    let mut i: usize = 0;
    while i < lists.len()
        invariant
            i <= lists@.len(),
            forall|s: Seq<char>| #[trigger] seg_view(next@).contains(s) <==> discovered_in(lists@.take(i as int), s),
            seg_view(next@).no_duplicates(),
        decreases lists@.len() - i,
    {
        let list = &lists[i];
        let mut j: usize = 0;
        while j < list.len()
            invariant
                list == &lists@[i as int],
                i < lists@.len(),
                j <= list@.len(),
                forall|s: Seq<char>| #[trigger] seg_view(next@).contains(s) <==> (discovered_in(lists@.take(i as int), s)
                    || exists|k: int| 0 <= k < j && #[trigger] list@[k]@ == s),
                seg_view(next@).no_duplicates(),
            decreases list@.len() - j,
        {
            let ghost before = next@;
            if !holds_name(&next, &list[j]) {
                next.push(list[j].clone());
                assert(seg_view(next@) =~= seg_view(before).push(list@[j as int]@));
            }
            proof {
                assert forall|s: Seq<char>| #[trigger] seg_view(next@).contains(s) <==> (discovered_in(lists@.take(i as int), s)
                    || exists|k: int| 0 <= k < j + 1 && #[trigger] list@[k]@ == s) by {
                    if s == list@[j as int]@ {
                        if !seg_view(before).contains(s) {
                            assert(seg_view(next@)[before.len() as int] == s);
                        }
                    } else {
                        if seg_view(next@).contains(s) && !seg_view(before).contains(s) {
                            let w = choose|w: int| 0 <= w < seg_view(next@).len() && seg_view(next@)[w] == s;
                            assert(w < before.len() ==> seg_view(before)[w] == s);
                        }
                        if seg_view(before).contains(s) {
                            let w = choose|w: int| 0 <= w < seg_view(before).len() && seg_view(before)[w] == s;
                            assert(seg_view(next@)[w] == s);
                        }
                    }
                }
            }
            j += 1;
        }
        proof {
            let t = lists@.take(i + 1);
            assert forall|s: Seq<char>| discovered_in(t, s) <==> (discovered_in(lists@.take(i as int), s)
                || exists|k: int| 0 <= k < list@.len() && #[trigger] list@[k]@ == s) by {
                if discovered_in(t, s) {
                    let (a, b) = choose|a: int, b: int| 0 <= a < t.len() && 0 <= b < t[a]@.len() && #[trigger] t[a]@[b]@ == s;
                    if a < i {
                        assert(lists@.take(i as int)[a]@[b]@ == s);
                    } else {
                        assert(list@[b]@ == s);
                    }
                }
                if discovered_in(lists@.take(i as int), s) {
                    let (a, b) = choose|a: int, b: int| 0 <= a < lists@.take(i as int).len() && 0 <= b < lists@.take(i as int)[a]@.len() && #[trigger] lists@.take(i as int)[a]@[b]@ == s;
                    assert(t[a]@[b]@ == s);
                }
                if exists|k: int| 0 <= k < list@.len() && #[trigger] list@[k]@ == s {
                    let k = choose|k: int| 0 <= k < list@.len() && #[trigger] list@[k]@ == s;
                    assert(t[i as int]@[k]@ == s);
                }
            }
        }
        i += 1;
    }
    assert(lists@.take(lists@.len() as int) =~= lists@);
    next
}

/// The progress of a load: the relation paths still to merge and the number
/// of merge passes run.
pub struct MergeLoop {
    pending: Vec<String>,
    passes: u64,
}

impl MergeLoop {
    pub closed spec fn pending_view(&self) -> Seq<String> {
        self.pending@
    }

    pub closed spec fn passes(&self) -> u64 {
        self.passes
    }

    /// Starts the merge loop after the root load, with the paths that the
    /// root select left unresolved.
    pub fn new(unmerged: Vec<String>) -> (r: MergeLoop)
        ensures
            r.pending_view() == unmerged@,
            r.passes() == 0,
    {
        MergeLoop { pending: unmerged, passes: 0 }
    }

    /// The paths that this pass merges.
    pub fn pending(&self) -> (r: &Vec<String>)
        ensures
            r@ == self.pending_view(),
    {
        &self.pending
    }

    /// Ends a pass: `discovered` holds, for each path merged in it, the
    /// sub-paths that its select left unresolved. Returns whether another
    /// pass is needed, which is so exactly when some sub-path is pending.
    pub fn finish_pass(&mut self, discovered: &Vec<Vec<String>>) -> (more: bool)
        requires
            discovered@.len() == old(self).pending_view().len(),
            old(self).passes() < u64::MAX,
        ensures
            final(self).passes() == old(self).passes() + 1,
            is_next_pending(discovered@, final(self).pending_view()),
            more == (final(self).pending_view().len() > 0),
            old(self).pending_view().len() == 0 ==> !more,
    {
        let next = next_pending(discovered);
        proof {
            lemma_nothing_discovered(discovered@, next@);
        }
        self.pending = next;
        self.passes = self.passes + 1;
        self.pending.len() > 0
    }
}

/// Where a pass merged no path, nothing is left pending: a load whose root
/// select leaves no path unresolved ends after its first merge pass.
pub proof fn lemma_nothing_discovered(lists: Seq<Vec<String>>, next: Seq<String>)
    requires
        is_next_pending(lists, next),
    ensures
        lists.len() == 0 ==> next.len() == 0,
{
    if lists.len() == 0 && next.len() > 0 {
        assert(seg_view(next).contains(next[0]@)) by {
            assert(seg_view(next)[0] == next[0]@);
        }
    }
}

} // verus!
