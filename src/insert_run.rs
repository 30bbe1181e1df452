use vstd::prelude::*;
use crate::insert_plan::{InsertStep, PlannedPath, Slot, insert_order, is_insert_order};

verus! {

/// What came of one statement of an insert.
#[derive(Debug, Clone, Copy, PartialEq, Eq, Structural)]
pub enum StepOutcome {
    /// The batch held nothing to insert, so no statement was built.
    Empty,
    /// The statement ran: the rows it affected and the first identity it generated.
    Executed { affected_rows: u64, last_insert_id: u64 },
}

/// The identities of the contiguous block that one multi-row insert
/// generated, in submission order, starting at the first one.
pub open spec fn id_block(first_id: u64, count: nat) -> Seq<u64> {
    Seq::new(count, |i: int| (first_id + i) as u64)
}

/// The identities of a block of `affected_rows` rows that starts at `first_id`.
///
/// `None` where the block would run past the largest identity.
pub fn generated_ids(first_id: u64, affected_rows: u64) -> (r: Option<Vec<u64>>)
    requires
        affected_rows <= usize::MAX,
    ensures
        r is None <==> first_id + affected_rows > u64::MAX + 1,
        r matches Some(v) ==> v@ == id_block(first_id, affected_rows as nat),
{
    if affected_rows > 0 && first_id > u64::MAX - (affected_rows - 1) {
        return None;
    }
    let n = affected_rows as usize;
    let mut v: Vec<u64> = Vec::new();
    let mut i: usize = 0;
    while i < n
        invariant
            n == affected_rows,
            i <= n,
            first_id + affected_rows <= u64::MAX + 1,
            v@ == id_block(first_id, i as nat),
        decreases n - i,
    {
        v.push(first_id + i as u64);
        i += 1;
        assert(v@ =~= id_block(first_id, i as nat));
    }
    Some(v)
}

/// Whether the statement of `step` generates identities to hand back to the
/// entities: the root batch and the joins do, merges do not.
pub open spec fn gives_identity(plan: Seq<PlannedPath>, step: InsertStep) -> bool {
    match step {
        InsertStep::Root => true,
        InsertStep::Path(k) => plan[k as int].slot is Join,
    }
}

/// The progress of an insert: the ordered steps, how many have run, and the
/// identity that the last executed statement generated.
pub struct InsertRun {
    steps: Vec<InsertStep>,
    identity: Vec<bool>,
    next: usize,
    last_id: u64,
    plan: Ghost<Seq<PlannedPath>>,
}

impl InsertRun {
    pub closed spec fn plan(&self) -> Seq<PlannedPath> {
        self.plan@
    }

    pub closed spec fn steps(&self) -> Seq<InsertStep> {
        self.steps@
    }

    /// How many steps have run.
    pub closed spec fn done(&self) -> nat {
        self.next as nat
    }

    pub closed spec fn last_id(&self) -> u64 {
        self.last_id
    }

    pub closed spec fn wf(&self) -> bool {
        &&& is_insert_order(self.plan@, self.steps@)
        &&& self.identity@.len() == self.steps@.len()
        &&& forall|i: int| 0 <= i < self.steps@.len() ==> #[trigger] self.identity@[i] == gives_identity(self.plan@, self.steps@[i])
        &&& self.next <= self.steps@.len()
    }

    /// Starts an insert of `plan`; nothing has run yet.
    pub fn new(plan: &Vec<PlannedPath>) -> (r: InsertRun)
        ensures
            r.wf(),
            r.plan() == plan@,
            is_insert_order(plan@, r.steps()),
            r.done() == 0,
            r.last_id() == 0,
    {
        let steps = insert_order(plan);
        let mut identity: Vec<bool> = Vec::new();
        let mut i: usize = 0;
        while i < steps.len()
            invariant
                is_insert_order(plan@, steps@),
                i <= steps@.len(),
                identity@.len() == i,
                forall|j: int| 0 <= j < i ==> #[trigger] identity@[j] == gives_identity(plan@, steps@[j]),
            decreases steps@.len() - i,
        {
            let g = match steps[i] {
                InsertStep::Root => true,
                InsertStep::Path(k) => match plan[k].slot {
                    Slot::Join(_) => true,
                    Slot::Merge => false,
                },
            };
            identity.push(g);
            i += 1;
        }
        InsertRun { steps, identity, next: 0, last_id: 0, plan: Ghost(plan@) }
    }

    /// The step to run next, or `None` once all have run.
    pub fn next_step(&self) -> (r: Option<InsertStep>)
        requires
            self.wf(),
        ensures
            self.done() < self.steps().len() ==> r == Some(self.steps()[self.done() as int]),
            self.done() == self.steps().len() ==> r.is_none(),
    {
        if self.next < self.steps.len() {
            Some(self.steps[self.next])
        } else {
            None
        }
    }

    /// Records what came of the step that `next_step` gave, and returns the
    /// identities to hand to the inserted entities in submission order.
    ///
    /// Identities come back only after a root or join statement that
    /// affected rows, as a block that starts at the identity it generated.
    /// An empty batch skips propagation and leaves the last identity as it was.
    pub fn record(&mut self, outcome: StepOutcome) -> (ids: Option<Vec<u64>>)
        requires
            old(self).wf(),
            old(self).done() < old(self).steps().len(),
        ensures
            final(self).wf(),
            final(self).plan() == old(self).plan(),
            final(self).steps() == old(self).steps(),
            final(self).done() == old(self).done() + 1,
            outcome is Empty ==> final(self).last_id() == old(self).last_id() && ids.is_none(),
            outcome matches StepOutcome::Executed { affected_rows, last_insert_id } ==> {
                &&& final(self).last_id() == last_insert_id
                &&& (ids is Some <==> (gives_identity(old(self).plan(), old(self).steps()[old(self).done() as int])
                    && affected_rows > 0 && affected_rows <= usize::MAX
                    && last_insert_id + affected_rows <= u64::MAX + 1))
                &&& ids matches Some(v) ==> v@ == id_block(last_insert_id, affected_rows as nat)
            },
    {
        let total = self.steps.len();
        assert(self.next < total);
        let give = self.identity[self.next];
        self.next = self.next + 1;
        match outcome {
            StepOutcome::Empty => None,
            StepOutcome::Executed { affected_rows, last_insert_id } => {
                self.last_id = last_insert_id;
                if give && affected_rows > 0 && affected_rows <= usize::MAX as u64 {
                    generated_ids(last_insert_id, affected_rows)
                } else {
                    None
                }
            },
        }
    }

    /// What the whole insert returns: the identity that the last executed
    /// statement generated, or 0 where none ran.
    pub fn result(&self) -> (r: u64)
        ensures
            r == self.last_id(),
    {
        self.last_id
    }
}

} // verus!
