use vstd::prelude::*;
use crate::load_loop::holds_name;
use crate::acyclic::{acyclic, check_acyclic};
use crate::error::ToqlError;
use crate::mapping::{seg_view, Registry};

verus! {

/// The names of the root types whose mapping is registered.
///
/// A type is registered once; registering it again changes nothing.
pub struct RegisteredRoots {
    names: Vec<String>,
}

impl RegisteredRoots {
    /// The registered type names.
    pub closed spec fn view_names(&self) -> Seq<Seq<char>> {
        seg_view(self.names@)
    }

    pub closed spec fn wf(&self) -> bool {
        seg_view(self.names@).no_duplicates()
    }

    /// No type is registered yet.
    pub fn new() -> (r: RegisteredRoots)
        ensures
            r.wf(),
            r.view_names().len() == 0,
    {
        let names: Vec<String> = Vec::new();
        assert(seg_view(names@) =~= Seq::<Seq<char>>::empty());
        RegisteredRoots { names }
    }

    /// Whether the type `name` is registered.
    pub fn is_registered(&self, name: &String) -> (r: bool)
        ensures
            r == self.view_names().contains(name@),
    {
        holds_name(&self.names, name)
    }

    /// Records that the type `name` is registered. Returns whether it was new.
    pub fn mark_registered(&mut self, name: &String) -> (added: bool)
        requires
            old(self).wf(),
        ensures
            final(self).wf(),
            added == !old(self).view_names().contains(name@),
            final(self).view_names().to_set() == old(self).view_names().to_set().insert(name@),
            !added ==> final(self).view_names() == old(self).view_names(),
    {
        if holds_name(&self.names, name) {
            assert(self.view_names().to_set() =~= self.view_names().to_set().insert(name@));
            false
        } else {
            let ghost before = seg_view(self.names@);
            self.names.push(name.clone());
            assert(seg_view(self.names@) =~= before.push(name@));
            assert(before.push(name@).to_set() =~= before.to_set().insert(name@)) by {
                assert forall|s: Seq<char>| #[trigger] before.push(name@).contains(s) <==> before.to_set().insert(name@).contains(s) by {
                    if before.contains(s) {
                        let w = choose|w: int| 0 <= w < before.len() && before[w] == s;
                        assert(before.push(name@)[w] == s);
                    }
                    if before.push(name@).contains(s) && s != name@ {
                        let w = choose|w: int| 0 <= w < before.push(name@).len() && before.push(name@)[w] == s;
                        assert(before[w] == s);
                    }
                    if s == name@ {
                        assert(before.push(name@)[before.len() as int] == s);
                    }
                }
            }
            true
        }
    }
}

impl RegisteredRoots {
    /// Registers the root type `name` with the mapping `reg` on its first
    /// use. The mapping must lead only to registered types and hold no cycle,
    /// else it is a `MappingError` and nothing is recorded. Returns whether
    /// the type was new.
    pub fn register(&mut self, reg: &Registry, name: &String) -> (r: Result<bool, ToqlError>)
        requires
            old(self).wf(),
        ensures
            final(self).wf(),
            r is Ok <==> (old(self).view_names().contains(name@) || (reg.wf() && acyclic(reg))),
            r is Err ==> r == Err::<bool, ToqlError>(ToqlError::MappingError) && final(self).view_names() == old(self).view_names(),
            r matches Ok(added) ==> added == !old(self).view_names().contains(name@)
                && final(self).view_names().to_set() == old(self).view_names().to_set().insert(name@),
            r == Ok::<bool, ToqlError>(false) ==> final(self).view_names() == old(self).view_names(),
    {
        if self.is_registered(name) {
            let added = self.mark_registered(name);
            return Ok(added);
        }
        if !reg.check_wf() {
            return Err(ToqlError::MappingError);
        }
        match check_acyclic(reg) {
            Err(e) => Err(e),
            Ok(()) => Ok(self.mark_registered(name)),
        }
    }
}

/// What a delete does with the predicate that the query gave.
#[derive(Debug, Clone, Copy, PartialEq, Eq, Structural)]
pub enum DeleteAction {
    /// The query gives no predicate: nothing is deleted and no statement runs.
    Skip,
    /// The statement runs.
    Execute,
}

pub open spec fn delete_action_spec(predicate_is_empty: bool) -> DeleteAction {
    if predicate_is_empty {
        DeleteAction::Skip
    } else {
        DeleteAction::Execute
    }
}

pub open spec fn deleted_rows_spec(action: DeleteAction, affected_rows: u64) -> u64 {
    match action {
        DeleteAction::Skip => 0,
        DeleteAction::Execute => affected_rows,
    }
}

/// A delete runs only with a predicate: an empty one would delete every row.
pub fn delete_action(predicate_is_empty: bool) -> (r: DeleteAction)
    ensures
        r == delete_action_spec(predicate_is_empty),
{
    if predicate_is_empty {
        DeleteAction::Skip
    } else {
        DeleteAction::Execute
    }
}

/// The number of rows that a delete reports: 0 where it was skipped, else
/// the rows that its statement affected.
pub fn deleted_rows(action: DeleteAction, affected_rows: u64) -> (r: u64)
    ensures
        r == deleted_rows_spec(action, affected_rows),
{
    match action {
        DeleteAction::Skip => 0,
        DeleteAction::Execute => affected_rows,
    }
}

/// A delete whose query gives no predicate runs no statement and reports
/// no deleted row; one with a predicate reports what its statement affected.
pub proof fn lemma_no_predicate_deletes_nothing(affected_rows: u64)
    ensures
        delete_action_spec(true) == DeleteAction::Skip,
        deleted_rows_spec(delete_action_spec(true), affected_rows) == 0,
        deleted_rows_spec(delete_action_spec(false), affected_rows) == affected_rows,
{
}

} // verus!
