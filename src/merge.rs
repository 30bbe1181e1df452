use std::collections::HashMap;
use vstd::prelude::*;

verus! {

broadcast use vstd::std_specs::hash::group_hash_axioms;

/// The positions, in increasing order, of the rows whose parent key is `k`.
pub open spec fn positions(keys: Seq<u64>, k: u64) -> Seq<usize>
    decreases keys.len(),
{
    if keys.len() == 0 {
        Seq::empty()
    } else {
        let rest = positions(keys.drop_last(), k);
        if keys.last() == k {
            rest.push((keys.len() - 1) as usize)
        } else {
            rest
        }
    }
}

/// Maps each parent key of a relation's rows to the positions of those rows.
///
/// The key of a row is the hash of its leading identity columns, which
/// identify the parent entity that the row belongs to.
pub struct MergeIndex {
    map: HashMap<u64, Vec<usize>>,
    keys: Ghost<Seq<u64>>,
}

impl MergeIndex {
    /// The parent keys of the indexed rows, in row order.
    pub closed spec fn row_keys(&self) -> Seq<u64> {
        self.keys@
    }

    pub closed spec fn wf(&self) -> bool {
        &&& forall|k: u64| #[trigger]
            self.map@.contains_key(k) <==> self.keys@.contains(k)
        &&& forall|k: u64| #[trigger]
            self.map@.contains_key(k) ==> self.map@[k]@ == positions(self.keys@, k)
    }

    /// Indexes the rows of one merge query by their parent key.
    pub fn build(row_keys: &Vec<u64>) -> (r: MergeIndex)
        ensures
            r.wf(),
            r.row_keys() == row_keys@,
    {
        let mut map: HashMap<u64, Vec<usize>> = HashMap::new();
        let mut i: usize = 0;
        while i < row_keys.len()
            invariant
                i <= row_keys@.len(),
                forall|k: u64| #[trigger]
                    map@.contains_key(k) <==> row_keys@.take(i as int).contains(k),
                forall|k: u64| #[trigger]
                    map@.contains_key(k) ==> map@[k]@ == positions(row_keys@.take(i as int), k),
            decreases row_keys@.len() - i,
        {
            let k = row_keys[i];
            let ghost before = row_keys@.take(i as int);
            let ghost after = row_keys@.take(i + 1);
            assert(after.drop_last() =~= before);
            assert(after.last() == k);
            let old_map = Ghost(map@);
            match map.remove(&k) {
                Some(v) => {
                    let mut v = v;
                    v.push(i);
                    map.insert(k, v);
                },
                None => {
                    let mut v: Vec<usize> = Vec::new();
                    v.push(i);
                    map.insert(k, v);
                    assert(positions(before, k) =~= Seq::<usize>::empty()) by {
                        lemma_positions_absent(before, k);
                    }
                },
            }
            assert forall|k2: u64| #[trigger]
                map@.contains_key(k2) <==> after.contains(k2) by {
                if after.contains(k2) && k2 != k {
                    let j = choose|j: int| 0 <= j < after.len() && after[j] == k2;
                    assert(before[j] == k2);
                }
                if before.contains(k2) {
                    let j = choose|j: int| 0 <= j < before.len() && before[j] == k2;
                    assert(after[j] == k2);
                }
                assert(after[i as int] == k);
            }
            i += 1;
        }
        assert(row_keys@.take(row_keys@.len() as int) =~= row_keys@);
        MergeIndex { map, keys: Ghost(row_keys@) }
    }

    /// The positions of the rows that belong to the parent with key `parent`.
    pub fn children(&self, parent: u64) -> (r: Vec<usize>)
        requires
            self.wf(),
        ensures
            r@ == positions(self.row_keys(), parent),
    {
        match self.map.get(&parent) {
            Some(v) => {
                let r = v.clone();
                assert(r@ =~= v@);
                r
            },
            None => {
                proof {
                    lemma_positions_absent(self.keys@, parent);
                }
                Vec::new()
            },
        }
    }

    /// For each parent, in order, the positions of the rows to merge into it.
    pub fn assign(&self, parents: &Vec<u64>) -> (r: Vec<Vec<usize>>)
        requires
            self.wf(),
        ensures
            r@.len() == parents@.len(),
            forall|p: int| 0 <= p < parents@.len() ==> #[trigger] r@[p]@ == positions(
                self.row_keys(),
                parents@[p],
            ),
    {
        let mut r: Vec<Vec<usize>> = Vec::new();
        let mut p: usize = 0;
        while p < parents.len()
            invariant
                self.wf(),
                p <= parents@.len(),
                r@.len() == p,
                forall|q: int| 0 <= q < p ==> #[trigger] r@[q]@ == positions(
                    self.row_keys(),
                    parents@[q],
                ),
            decreases parents@.len() - p,
        {
            let c = self.children(parents[p]);
            r.push(c);
            p += 1;
        }
        r
    }
}

/// A key that no row carries has no positions.
pub proof fn lemma_positions_absent(keys: Seq<u64>, k: u64)
    requires
        !keys.contains(k),
    ensures
        positions(keys, k) == Seq::<usize>::empty(),
    decreases keys.len(),
{
    if keys.len() > 0 {
        assert(!keys.drop_last().contains(k)) by {
            if keys.drop_last().contains(k) {
                let j = choose|j: int| 0 <= j < keys.drop_last().len() && keys.drop_last()[j] == k;
                assert(keys[j] == k);
            }
        }
        assert(keys[keys.len() - 1] != k);
        lemma_positions_absent(keys.drop_last(), k);
    }
}

} // verus!
