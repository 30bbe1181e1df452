use vstd::prelude::*;

verus! {

/// How a relation is resolved: in the parent's query, or by a query of its own.
#[derive(Debug, Clone, Copy, PartialEq, Eq, Structural)]
pub enum RelationKind {
    /// A one-to-one relation, joined into the parent's select.
    Join,
    /// A one-to-many relation, loaded by a correlated query and merged in memory.
    Merge,
}

/// A relation of a mapped type: its field name, the index of the type it
/// leads to, and its kind.
pub struct Relation {
    pub field: String,
    pub target: usize,
    pub kind: RelationKind,
}

/// The relations of one mapped type.
pub struct TypeMapping {
    pub name: String,
    pub relations: Vec<Relation>,
}

/// The mapped types; relations refer to types by their index.
pub struct Registry {
    pub types: Vec<TypeMapping>,
}

/// A field path as the sequence of its field names.
pub open spec fn seg_view(v: Seq<String>) -> Seq<Seq<char>> {
    v.map_values(|s: String| s@)
}

/// `j` is the first relation of `rels` named `field`.
pub open spec fn is_first_named(rels: Seq<Relation>, field: Seq<char>, j: int) -> bool {
    &&& 0 <= j < rels.len()
    &&& rels[j].field@ == field
    &&& forall|i: int| 0 <= i < j ==> #[trigger] rels[i].field@ != field
}

pub open spec fn has_named(rels: Seq<Relation>, field: Seq<char>) -> bool {
    exists|j: int| is_first_named(rels, field, j)
}

/// The relation of `rels` named `field`; the first one where several are.
pub open spec fn named(rels: Seq<Relation>, field: Seq<char>) -> Relation
    recommends
        has_named(rels, field),
{
    rels[choose|j: int| is_first_named(rels, field, j)]
}

impl Registry {
    /// Every relation leads to a registered type.
    pub open spec fn wf(&self) -> bool {
        forall|t: int, j: int|
            0 <= t < self.types@.len() && 0 <= j < self.types@[t].relations@.len()
                ==> #[trigger] self.types@[t].relations@[j].target < self.types@.len()
    }

    /// Walks `path` from type `root`: the type reached and the kind of each step,
    /// or `None` where a field names no relation.
    pub open spec fn walk(&self, root: int, path: Seq<Seq<char>>) -> Option<(int, Seq<RelationKind>)>
        decreases path.len(),
    {
        if path.len() == 0 {
            Some((root, Seq::empty()))
        } else {
            match self.walk(root, path.drop_last()) {
                None => None,
                Some((t, kinds)) => {
                    if 0 <= t < self.types@.len() && has_named(self.types@[t].relations@, path.last()) {
                        let rel = named(self.types@[t].relations@, path.last());
                        Some((rel.target as int, kinds.push(rel.kind)))
                    } else {
                        None
                    }
                },
            }
        }
    }

    /// Whether every relation leads to a registered type.
    pub fn check_wf(&self) -> (r: bool)
        ensures
            r == self.wf(),
    {
        let n = self.types.len();
        let mut t: usize = 0;
        while t < n
            invariant
                n == self.types@.len(),
                t <= n,
                forall|u: int, j: int|
                    0 <= u < t && 0 <= j < self.types@[u].relations@.len() ==> #[trigger] self.types@[u].relations@[j].target < n,
            decreases n - t,
        {
            let rels = &self.types[t].relations;
            let mut j: usize = 0;
            while j < rels.len()
                invariant
                    n == self.types@.len(),
                    t < n,
                    rels == &self.types@[t as int].relations,
                    j <= rels@.len(),
                    forall|u: int, k: int|
                        0 <= u < t && 0 <= k < self.types@[u].relations@.len() ==> #[trigger] self.types@[u].relations@[k].target < n,
                    forall|k: int| 0 <= k < j ==> #[trigger] rels@[k].target < n,
                decreases rels@.len() - j,
            {
                if rels[j].target >= n {
                    return false;
                }
                j += 1;
            }
            t += 1;
        }
        true
    }

    /// The relation named `field` of type `ty`.
    pub fn lookup(&self, ty: usize, field: &String) -> (r: Option<usize>)
        requires
            ty < self.types@.len(),
        ensures
            r.is_none() ==> !has_named(self.types@[ty as int].relations@, field@),
            r matches Some(j) ==> is_first_named(self.types@[ty as int].relations@, field@, j as int),
    {
        let rels = &self.types[ty].relations;
        let mut j: usize = 0;
        while j < rels.len()
            invariant
                rels == &self.types@[ty as int].relations,
                j <= rels@.len(),
                forall|i: int| 0 <= i < j ==> #[trigger] rels@[i].field@ != field@,
            decreases rels@.len() - j,
        {
            if rels[j].field == *field {
                return Some(j);
            }
            j += 1;
        }
        None
    }
}

/// The type that `path` leads to from `root`, if every field of it names a relation.
pub fn walk_path(reg: &Registry, root: usize, path: &Vec<String>) -> (r: Option<usize>)
    requires
        reg.wf(),
        root < reg.types@.len(),
    ensures
        r is None <==> reg.walk(root as int, seg_view(path@)) is None,
        r matches Some(t) ==> t < reg.types@.len() && (reg.walk(root as int, seg_view(path@)) matches Some(
            w,
        ) && w.0 == t),
{
    let ghost sv = seg_view(path@);
    let mut ty: usize = root;
    let mut k: usize = 0;
    assert(sv.take(0) =~= Seq::<Seq<char>>::empty());
    while k < path.len()
        invariant
            reg.wf(),
            sv == seg_view(path@),
            k <= path@.len(),
            ty < reg.types@.len(),
            reg.walk(root as int, sv.take(k as int)) matches Some(w) && w.0 == ty,
        decreases path@.len() - k,
    {
        assert(sv.take(k + 1).drop_last() =~= sv.take(k as int));
        assert(sv.take(k + 1).last() == sv[k as int]);
        match reg.lookup(ty, &path[k]) {
            None => {
                proof {
                    lemma_walk_fails_onward(reg, root as int, sv, k + 1);
                }
                return None;
            },
            Some(j) => {
                proof {
                    lemma_first_named_unique(reg.types@[ty as int].relations@, sv[k as int], j as int);
                }
                ty = reg.types[ty].relations[j].target;
            },
        }
        k += 1;
    }
    assert(sv.take(path@.len() as int) =~= sv);
    Some(ty)
}

/// The first relation of a name is unique.
pub proof fn lemma_first_named_unique(rels: Seq<Relation>, field: Seq<char>, j: int)
    requires
        is_first_named(rels, field, j),
    ensures
        has_named(rels, field),
        named(rels, field) == rels[j],
{
    let k = choose|k: int| is_first_named(rels, field, k);
    if k < j {
        assert(rels[k].field@ != field);
    } else if j < k {
        assert(rels[j].field@ != field);
    }
}

/// Once a prefix fails to walk, every extension of it fails too.
pub proof fn lemma_walk_fails_onward(reg: &Registry, root: int, path: Seq<Seq<char>>, n: int)
    requires
        0 <= n <= path.len(),
        reg.walk(root, path.take(n)) is None,
    ensures
        reg.walk(root, path) is None,
    decreases path.len() - n,
{
    if n < path.len() {
        assert(path.take(n + 1).drop_last() =~= path.take(n));
        lemma_walk_fails_onward(reg, root, path, n + 1);
    } else {
        assert(path.take(n) =~= path);
    }
}

} // verus!
