use vstd::prelude::*;
use crate::error::ToqlError;
use crate::insert_plan::{copy_prefix, same_path};
use crate::load_loop::holds_name;
use crate::mapping::{Registry, RelationKind, seg_view, has_named, named, walk_path, lemma_first_named_unique};

verus! {

/// The fields to update on the entities at one path, with one statement per entity.
pub struct FieldGroup {
    pub path: Vec<String>,
    pub fields: Vec<String>,
}

/// What an update does: the join field groups, updated in place, and the
/// merge paths, whose collections are replaced.
pub struct UpdatePlan {
    pub joins: Vec<FieldGroup>,
    pub merges: Vec<Vec<String>>,
}

/// The field path `fp` (a path and a field name) walks from `root`.
pub open spec fn field_walks(reg: &Registry, root: int, fp: Seq<Seq<char>>) -> bool {
    fp.len() > 0 && reg.walk(root, fp.drop_last()) is Some
}

/// The field that `fp` ends in is a merge relation of the type its path leads to.
pub open spec fn is_merge_field(reg: &Registry, root: int, fp: Seq<Seq<char>>) -> bool {
    &&& fp.len() > 0
    &&& reg.walk(root, fp.drop_last()) matches Some(w)
    &&& 0 <= w.0 < reg.types@.len()
    &&& has_named(reg.types@[w.0].relations@, fp.last())
    &&& named(reg.types@[w.0].relations@, fp.last()).kind == RelationKind::Merge
}

pub open spec fn fview(fields: Seq<Vec<String>>, q: int) -> Seq<Seq<char>> {
    seg_view(fields[q]@)
}

pub open spec fn in_groups(groups: Seq<FieldGroup>, path: Seq<Seq<char>>, field: Seq<char>) -> bool {
    exists|i: int|
        0 <= i < groups.len() && #[trigger] seg_view(groups[i].path@) == path && seg_view(
            groups[i].fields@,
        ).contains(field)
}

pub open spec fn in_merges(merges: Seq<Vec<String>>, path: Seq<Seq<char>>) -> bool {
    exists|i: int| 0 <= i < merges.len() && #[trigger] seg_view(merges[i]@) == path
}

pub open spec fn requested_join_field(
    reg: &Registry,
    root: int,
    fields: Seq<Vec<String>>,
    path: Seq<Seq<char>>,
    field: Seq<char>,
) -> bool {
    exists|q: int|
        0 <= q < fields.len() && !is_merge_field(reg, root, #[trigger] fview(fields, q)) && fview(
            fields,
            q,
        ).len() > 0 && fview(fields, q).drop_last() == path && fview(fields, q).last() == field
}

pub open spec fn requested_merge(
    reg: &Registry,
    root: int,
    fields: Seq<Vec<String>>,
    path: Seq<Seq<char>>,
) -> bool {
    exists|q: int|
        0 <= q < fields.len() && is_merge_field(reg, root, #[trigger] fview(fields, q)) && fview(
            fields,
            q,
        ) == path
}

/// Every requested field lands in exactly one place: a merge field among
/// the merges, any other under its path among the join groups; nothing
/// else is planned, and nothing twice.
pub open spec fn is_update_plan(
    reg: &Registry,
    root: int,
    fields: Seq<Vec<String>>,
    joins: Seq<FieldGroup>,
    merges: Seq<Vec<String>>,
) -> bool {
    &&& forall|q: int|
        0 <= q < fields.len() && is_merge_field(reg, root, #[trigger] fview(fields, q)) ==> in_merges(
            merges,
            fview(fields, q),
        )
    &&& forall|q: int|
        0 <= q < fields.len() && !is_merge_field(reg, root, #[trigger] fview(fields, q)) ==> in_groups(
            joins,
            fview(fields, q).drop_last(),
            fview(fields, q).last(),
        )
    &&& forall|i: int| 0 <= i < merges.len() ==> requested_merge(reg, root, fields, #[trigger] seg_view(merges[i]@))
    &&& forall|i: int, f: int|
        0 <= i < joins.len() && 0 <= f < joins[i].fields@.len() ==> requested_join_field(
            reg,
            root,
            fields,
            seg_view(joins[i].path@),
            #[trigger] joins[i].fields@[f]@,
        )
    &&& forall|i: int, j: int|
        0 <= i < merges.len() && 0 <= j < merges.len() && i != j ==> seg_view(merges[i]@) != seg_view(merges[j]@)
    &&& forall|i: int, j: int|
        0 <= i < joins.len() && 0 <= j < joins.len() && i != j ==> seg_view(joins[i].path@) != seg_view(joins[j].path@)
    &&& forall|i: int| 0 <= i < joins.len() ==> seg_view(#[trigger] joins[i].fields@).no_duplicates()
}

/// Sorts the requested field paths of the root type into join field groups
/// and merge paths.
///
/// A field path is a path and a field name. It is a merge where the field
/// names a merge relation of the type that the path leads to. An empty
/// field path, or one whose path does not walk, is a `MappingError`.
pub fn plan_update_order(reg: &Registry, root: usize, fields: &Vec<Vec<String>>) -> (r: Result<
    UpdatePlan,
    ToqlError,
>)
    requires
        reg.wf(),
        root < reg.types@.len(),
    ensures
        r is Ok <==> (forall|q: int| 0 <= q < fields@.len() ==> field_walks(reg, root as int, #[trigger] fview(fields@, q))),
        r is Err ==> r == Err::<UpdatePlan, ToqlError>(ToqlError::MappingError),
        r matches Ok(plan) ==> is_update_plan(reg, root as int, fields@, plan.joins@, plan.merges@),
{
    let mut joins: Vec<FieldGroup> = Vec::new();
    let mut merges: Vec<Vec<String>> = Vec::new();
    let mut q: usize = 0;
    while q < fields.len()
        invariant
            reg.wf(),
            root < reg.types@.len(),
            q <= fields@.len(),
            forall|p: int| 0 <= p < q ==> field_walks(reg, root as int, #[trigger] fview(fields@, p)),
            forall|p: int|
                0 <= p < q && is_merge_field(reg, root as int, #[trigger] fview(fields@, p)) ==> in_merges(
                    merges@,
                    fview(fields@, p),
                ),
            forall|p: int|
                0 <= p < q && !is_merge_field(reg, root as int, #[trigger] fview(fields@, p)) ==> in_groups(
                    joins@,
                    fview(fields@, p).drop_last(),
                    fview(fields@, p).last(),
                ),
            forall|i: int| 0 <= i < merges@.len() ==> requested_merge(reg, root as int, fields@, #[trigger] seg_view(merges@[i]@)),
            forall|i: int, f: int|
                0 <= i < joins@.len() && 0 <= f < joins@[i].fields@.len() ==> requested_join_field(
                    reg,
                    root as int,
                    fields@,
                    seg_view(joins@[i].path@),
                    #[trigger] joins@[i].fields@[f]@,
                ),
            forall|i: int, j: int|
                0 <= i < merges@.len() && 0 <= j < merges@.len() && i != j ==> seg_view(merges@[i]@) != seg_view(merges@[j]@),
            forall|i: int, j: int|
                0 <= i < joins@.len() && 0 <= j < joins@.len() && i != j ==> seg_view(joins@[i].path@) != seg_view(joins@[j].path@),
            forall|i: int| 0 <= i < joins@.len() ==> seg_view(#[trigger] joins@[i].fields@).no_duplicates(),
        decreases fields@.len() - q,
    {
        let fp = &fields[q];
        let ghost fv = fview(fields@, q as int);
        assert(fv == seg_view(fp@));
        if fp.len() == 0 {
            assert(!field_walks(reg, root as int, fview(fields@, q as int)));
            return Err(ToqlError::MappingError);
        }
        let last = fp.len() - 1;
        let path = copy_prefix(fp, last);
        assert(seg_view(fp@).take(last as int) =~= fv.drop_last());
        let name = &fp[last];
        assert(fv.last() == name@);
        let ty = match walk_path(reg, root, &path) {
            None => {
                assert(!field_walks(reg, root as int, fview(fields@, q as int)));
                return Err(ToqlError::MappingError);
            },
            Some(t) => t,
        };
        let is_merge = match reg.lookup(ty, name) {
            None => false,
            Some(j) => {
                proof {
                    lemma_first_named_unique(reg.types@[ty as int].relations@, name@, j as int);
                }
                reg.types[ty].relations[j].kind == RelationKind::Merge
            },
        };
        assert(is_merge == is_merge_field(reg, root as int, fv));
        if is_merge {
            let mut found = false;
            let mut i: usize = 0;
            while i < merges.len()
                invariant
                    fv == seg_view(fp@),
                    i <= merges@.len(),
                    !found ==> forall|j: int| 0 <= j < i ==> #[trigger] seg_view(merges@[j]@) != fv,
                    found ==> in_merges(merges@, fv),
                decreases merges@.len() - i,
            {
                if same_path(&merges[i], fp) {
                    found = true;
                }
                i += 1;
            }
            if !found {
                let ghost before = merges@;
                let copy = copy_prefix(fp, fp.len());
                assert(seg_view(fp@).take(fp@.len() as int) =~= fv);
                merges.push(copy);
                assert(seg_view(merges@[before.len() as int]@) == fv);
                assert(requested_merge(reg, root as int, fields@, fv));
                assert forall|p: int|
                    0 <= p < q && is_merge_field(reg, root as int, #[trigger] fview(fields@, p)) implies in_merges(
                        merges@,
                        fview(fields@, p),
                    ) by {
                    assert(in_merges(before, fview(fields@, p)));
                    let w = choose|w: int| 0 <= w < before.len() && #[trigger] seg_view(before[w]@) == fview(fields@, p);
                    assert(seg_view(merges@[w]@) == fview(fields@, p));
                }
            }
        } else {
            let mut gi: usize = 0;
            let mut found = false;
            while gi < joins.len() && !found
                invariant
                    fv.len() > 0,
                    seg_view(path@) == fv.drop_last(),
                    gi <= joins@.len(),
                    !found ==> forall|j: int| 0 <= j < gi ==> #[trigger] seg_view(joins@[j].path@) != fv.drop_last(),
                    found ==> gi >= 1 && seg_view(joins@[gi - 1].path@) == fv.drop_last(),
                decreases joins@.len() - gi,
            {
                if same_path(&joins[gi].path, &path) {
                    found = true;
                }
                gi += 1;
            }
            assert(requested_join_field(reg, root as int, fields@, fv.drop_last(), fv.last()));
            let ghost before = joins@;
            if found {
                let at = gi - 1;
                let present = holds_name(&joins[at].fields, name);
                if !present {
                    let mut g = joins.remove(at);
                    let ghost gb = g;
                    g.fields.push(name.clone());
                    assert(seg_view(g.fields@) =~= seg_view(gb.fields@).push(name@));
                    joins.insert(at, g);
                    assert(joins@ =~= before.update(at as int, g));
                    assert forall|p: int|
                        0 <= p < q && !is_merge_field(reg, root as int, #[trigger] fview(fields@, p)) implies in_groups(
                            joins@,
                            fview(fields@, p).drop_last(),
                            fview(fields@, p).last(),
                        ) by {
                        let w = choose|w: int|
                            0 <= w < before.len() && #[trigger] seg_view(before[w].path@) == fview(fields@, p).drop_last()
                                && seg_view(before[w].fields@).contains(fview(fields@, p).last());
                        if w == at {
                            let x = choose|x: int| 0 <= x < seg_view(gb.fields@).len() && seg_view(gb.fields@)[x] == fview(fields@, p).last();
                            assert(seg_view(g.fields@)[x] == fview(fields@, p).last());
                        }
                        assert(seg_view(joins@[w].path@) == fview(fields@, p).drop_last());
                    }
                    assert forall|i: int, f: int|
                        0 <= i < joins@.len() && 0 <= f < joins@[i].fields@.len() implies requested_join_field(
                            reg,
                            root as int,
                            fields@,
                            seg_view(joins@[i].path@),
                            #[trigger] joins@[i].fields@[f]@,
                        ) by {
                        if i == at && f == gb.fields@.len() {
                        } else {
                            assert(joins@[i].fields@[f] == before[i].fields@[f]);
                        }
                    }
                    assert(seg_view(joins@[at as int].path@) == fv.drop_last());
                    assert(seg_view(joins@[at as int].fields@)[gb.fields@.len() as int] == fv.last());
                    assert(in_groups(joins@, fv.drop_last(), fv.last()));
                } else {
                    assert(in_groups(joins@, fv.drop_last(), fv.last()));
                }
            } else {
                let mut names: Vec<String> = Vec::new();
                names.push(name.clone());
                assert(seg_view(names@) =~= seq![name@]);
                joins.push(FieldGroup { path, fields: names });
                assert(seg_view(joins@[before.len() as int].path@) == fv.drop_last());
                assert(seg_view(joins@[before.len() as int].fields@)[0] == fv.last());
                assert(in_groups(joins@, fv.drop_last(), fv.last()));
                assert forall|p: int|
                    0 <= p < q && !is_merge_field(reg, root as int, #[trigger] fview(fields@, p)) implies in_groups(
                        joins@,
                        fview(fields@, p).drop_last(),
                        fview(fields@, p).last(),
                    ) by {
                    let w = choose|w: int|
                        0 <= w < before.len() && #[trigger] seg_view(before[w].path@) == fview(fields@, p).drop_last()
                            && seg_view(before[w].fields@).contains(fview(fields@, p).last());
                    assert(joins@[w] == before[w]);
                }
                assert forall|i: int, f: int|
                    0 <= i < joins@.len() && 0 <= f < joins@[i].fields@.len() implies requested_join_field(
                        reg,
                        root as int,
                        fields@,
                        seg_view(joins@[i].path@),
                        #[trigger] joins@[i].fields@[f]@,
                    ) by {
                    if i < before.len() {
                        assert(joins@[i] == before[i]);
                    }
                }
            }
        }
        q += 1;
    }
    Ok(UpdatePlan { joins, merges })
}

} // verus!
