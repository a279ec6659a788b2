//! The bookkeeping of a batch: which input goes to a worker next, how many
//! workers may run at once, and which inputs failed.
//!
//! The caller owns the workers. It asks [`BatchState::step`] what to do,
//! starts a worker when told to, hands each worker's outcome back as it
//! arrives, in whatever order, and reads the failures once told to finish.
//! One input's failure never stops another: all of them are reported.

use vstd::prelude::*;
use crate::error::ErrorKind;
use crate::naming::{file_name, lemma_file_names_differ, output_file_name};

verus! {

/// One input of a batch and where its result goes.
#[derive(Clone, Debug, PartialEq, Eq)]
pub struct BatchTask {
    pub index: usize,
    pub input_path: String,
    pub output_name: String,
}

/// What became of the input at position `index`: `None` if it was written,
/// else why it was not.
#[derive(Clone, Copy, Debug, PartialEq, Eq, Structural)]
pub struct BatchOutcome {
    pub index: usize,
    pub failure: Option<ErrorKind>,
}

/// An input that failed, and why.
#[derive(Clone, Copy, Debug, PartialEq, Eq, Structural)]
pub struct BatchFailure {
    pub index: usize,
    pub kind: ErrorKind,
}

/// What the caller does next.
#[derive(Clone, Copy, Debug, PartialEq, Eq, Structural)]
pub enum BatchAction {
    /// Start a worker on the input at this position.
    Dispatch(usize),
    /// Wait for the outcome of a running worker.
    Wait,
    /// Every outcome is in: read the failures.
    Finish,
}

/// The state of one input.
#[derive(Clone, Copy, Debug, PartialEq, Eq, Structural)]
pub enum Slot {
    /// No outcome yet.
    Pending,
    /// The result was written.
    Written,
    /// The input failed.
    Failed(ErrorKind),
}

/// The progress of a batch.
#[derive(Debug)]
pub struct BatchState {
    pub limit: usize,
    pub dispatched: usize,
    pub received: usize,
    pub slots: Vec<Slot>,
}

/// Trusted: `std::path::Path::file_stem` on a path given as text, the stem
/// handed back as text. What counts as the last component of a path depends
/// on the platform, so nothing is claimed of the result.
#[verifier::external_body]
fn file_stem_of(path: &str) -> (stem: Option<String>) {
    std::path::Path::new(path).file_stem()?.to_str().map(|s| s.to_owned())
}

/// The task for an input whose name has the given stem; an input without a
/// stem has no valid file name.
pub fn task_with_stem(index: usize, input_path: String, stem: Option<String>) -> (r: Result<
    BatchTask,
    ErrorKind,
>)
    ensures
        stem is None ==> r == Err::<BatchTask, ErrorKind>(ErrorKind::InvalidArgument),
        stem is Some ==> r.is_ok() && r.unwrap().index == index && r.unwrap().input_path
            == input_path && r.unwrap().output_name@ == file_name(stem.unwrap()@, index as nat),
{
    match stem {
        None => Err(ErrorKind::InvalidArgument),
        Some(s) => {
            let output_name: String = output_file_name(s.as_str(), index);
            Ok(BatchTask { index, input_path, output_name })
        },
    }
}

/// The task for the input at position `index`. Whether the path has a stem
/// is decided by the platform's rules for paths; if it has one, the task
/// carries the input unchanged and an output name made of some stem and the
/// position.
pub fn plan_task(index: usize, input_path: String) -> (r: Result<BatchTask, ErrorKind>)
    ensures
        r.is_err() ==> r == Err::<BatchTask, ErrorKind>(ErrorKind::InvalidArgument),
        r.is_ok() ==> r.unwrap().index == index && r.unwrap().input_path == input_path
            && exists|stem: Seq<char>| r.unwrap().output_name@ == file_name(stem, index as nat),
{
    let stem: Option<String> = file_stem_of(input_path.as_str());
    let r = task_with_stem(index, input_path, stem);
    proof {
        if stem is Some {
            assert(r.unwrap().output_name@ == file_name(stem.unwrap()@, index as nat));
        }
    }
    r
}

/// Whether `r` is what planning makes of the input `path` at position
/// `index`: a task that carries the position and the path and is named by
/// some stem and the position, or the refusal of a path without a file name.
pub open spec fn planned(r: Result<BatchTask, ErrorKind>, index: nat, path: Seq<char>) -> bool {
    match r {
        Ok(task) => task.index == index && task.input_path@ == path && exists|stem: Seq<char>|
            task.output_name@ == #[trigger] file_name(stem, index),
        Err(kind) => kind == ErrorKind::InvalidArgument,
    }
}

/// The tasks of a batch, one per input and in the order of the inputs. No
/// two tasks write to the same file name, whatever the inputs are called.
pub fn plan_batch(input_paths: &Vec<String>) -> (tasks: Vec<Result<BatchTask, ErrorKind>>)
    ensures
        tasks@.len() == input_paths@.len(),
        forall|i: int|
            0 <= i < tasks@.len() ==> planned(#[trigger] tasks@[i], i as nat, input_paths@[i]@),
        forall|i: int, j: int|
            0 <= i < tasks@.len() && 0 <= j < tasks@.len() && i != j && tasks@[i] is Ok
                && tasks@[j] is Ok ==> (#[trigger] tasks@[i]).unwrap().output_name@ != (
            #[trigger] tasks@[j]).unwrap().output_name@,
{
    let mut tasks: Vec<Result<BatchTask, ErrorKind>> = Vec::new();
    let mut i: usize = 0;
    while i < input_paths.len()
        invariant
            i <= input_paths@.len(),
            tasks@.len() == i,
            forall|k: int| 0 <= k < i ==> planned(#[trigger] tasks@[k], k as nat, input_paths@[k]@),
        decreases input_paths@.len() - i,
    {
        let path: String = input_paths[i].clone();
        let r = plan_task(i, path);
        assert(planned(r, i as nat, input_paths@[i as int]@));
        tasks.push(r);
        i = i + 1;
    }
    proof {
        assert forall|i: int, j: int|
            0 <= i < tasks@.len() && 0 <= j < tasks@.len() && i != j && tasks@[i] is Ok
                && tasks@[j] is Ok implies (#[trigger] tasks@[i]).unwrap().output_name@ != (
        #[trigger] tasks@[j]).unwrap().output_name@ by {
            assert(planned(tasks@[i], i as nat, input_paths@[i]@));
            assert(planned(tasks@[j], j as nat, input_paths@[j]@));
            let ni = i as nat;
            let nj = j as nat;
            let si = choose|stem: Seq<char>|
                tasks@[i].unwrap().output_name@ == #[trigger] file_name(stem, ni);
            let sj = choose|stem: Seq<char>|
                tasks@[j].unwrap().output_name@ == #[trigger] file_name(stem, nj);
            lemma_file_names_differ(si, ni, sj, nj);
        }
    }
    tasks
}

/// How many inputs have an outcome.
pub open spec fn settled(slots: Seq<Slot>) -> nat
    decreases slots.len(),
{
    if slots.len() == 0 {
        0
    } else {
        settled(slots.drop_last()) + if slots.last() == Slot::Pending {
            0nat
        } else {
            1nat
        }
    }
}

/// The inputs that failed, by position, each with its cause.
pub open spec fn failures(slots: Seq<Slot>) -> Seq<BatchFailure>
    decreases slots.len(),
{
    if slots.len() == 0 {
        Seq::empty()
    } else {
        let rest = failures(slots.drop_last());
        match slots.last() {
            Slot::Failed(kind) => rest.push(
                BatchFailure { index: (slots.len() - 1) as usize, kind },
            ),
            _ => rest,
        }
    }
}

/// The report's entry for the input at position `i`, if that input failed.
pub open spec fn failure_at(slots: Seq<Slot>, i: int) -> Option<BatchFailure> {
    match slots[i] {
        Slot::Failed(kind) => Some(BatchFailure { index: i as usize, kind }),
        _ => None,
    }
}

/// How many inputs were written.
pub open spec fn written(slots: Seq<Slot>) -> nat
    decreases slots.len(),
{
    if slots.len() == 0 {
        0
    } else {
        written(slots.drop_last()) + if slots.last() == Slot::Written {
            1nat
        } else {
            0nat
        }
    }
}

/// Settling a pending input raises the count of settled inputs by one.
pub proof fn lemma_settled_update(slots: Seq<Slot>, i: int, s: Slot)
    requires
        0 <= i < slots.len(),
        slots[i] == Slot::Pending,
        s != Slot::Pending,
    ensures
        settled(slots.update(i, s)) == settled(slots) + 1,
    decreases slots.len(),
{
    let next = slots.update(i, s);
    if i == slots.len() - 1 {
        assert(next.drop_last() =~= slots.drop_last());
    } else {
        assert(next.drop_last() =~= slots.drop_last().update(i, s));
        lemma_settled_update(slots.drop_last(), i, s);
    }
}

/// No more inputs are settled than there are, and if all are, none is
/// pending.
pub proof fn lemma_settled_bound(slots: Seq<Slot>)
    ensures
        settled(slots) <= slots.len(),
        settled(slots) == slots.len() ==> forall|i: int|
            0 <= i < slots.len() ==> (#[trigger] slots[i]) != Slot::Pending,
        (forall|i: int| 0 <= i < slots.len() ==> (#[trigger] slots[i]) == Slot::Pending)
            ==> settled(slots) == 0,
    decreases slots.len(),
{
    if slots.len() > 0 {
        let front = slots.drop_last();
        lemma_settled_bound(front);
        if settled(slots) == slots.len() {
            assert forall|i: int| 0 <= i < slots.len() implies (#[trigger] slots[i])
                != Slot::Pending by {
                if i < front.len() {
                    assert(slots[i] == front[i]);
                }
            }
        }
        if forall|i: int| 0 <= i < slots.len() ==> (#[trigger] slots[i]) == Slot::Pending {
            assert forall|i: int| 0 <= i < front.len() implies (#[trigger] front[i])
                == Slot::Pending by {
                assert(front[i] == slots[i]);
            }
        }
    }
}

/// Where every input from position `d` on is pending, at most `d` inputs are
/// settled.
pub proof fn lemma_settled_prefix(slots: Seq<Slot>, d: int)
    requires
        0 <= d <= slots.len(),
        forall|i: int| d <= i < slots.len() ==> (#[trigger] slots[i]) == Slot::Pending,
    ensures
        settled(slots) <= d,
    decreases slots.len(),
{
    if slots.len() > d {
        let front = slots.drop_last();
        assert(slots[slots.len() - 1] == Slot::Pending);
        assert forall|i: int| d <= i < front.len() implies (#[trigger] front[i])
            == Slot::Pending by {
            assert(front[i] == slots[i]);
        }
        lemma_settled_prefix(front, d);
    } else {
        lemma_settled_bound(slots);
    }
}

/// The report names exactly the inputs that failed: every entry is a failed
/// input with its own position and cause, every failed input has an entry,
/// and the positions ascend.
pub proof fn lemma_failures_exact(slots: Seq<Slot>)
    requires
        slots.len() <= usize::MAX,
    ensures
        forall|j: int|
            0 <= j < failures(slots).len() ==> {
                let f = #[trigger] failures(slots)[j];
                f.index < slots.len() && slots[f.index as int] == Slot::Failed(f.kind)
            },
        forall|i: int|
            0 <= i < slots.len() && (#[trigger] failure_at(slots, i)) is Some ==> failures(
                slots,
            ).contains(failure_at(slots, i).unwrap()),
        forall|j: int, k: int|
            0 <= j < k < failures(slots).len() ==> failures(slots)[j].index < failures(
                slots,
            )[k].index,
    decreases slots.len(),
{
    if slots.len() > 0 {
        let front = slots.drop_last();
        let rest = failures(front);
        let all = failures(slots);
        lemma_failures_exact(front);
        assert forall|j: int| 0 <= j < all.len() implies {
            let f = #[trigger] all[j];
            f.index < slots.len() && slots[f.index as int] == Slot::Failed(f.kind)
        } by {
            if j < rest.len() {
                assert(all[j] == rest[j]);
                assert(slots[rest[j].index as int] == front[rest[j].index as int]);
            }
        }
        assert forall|i: int|
            0 <= i < slots.len() && (#[trigger] failure_at(slots, i)) is Some implies all.contains(
            failure_at(slots, i).unwrap(),
        ) by {
            let want = failure_at(slots, i).unwrap();
            if i < front.len() {
                assert(failure_at(front, i) == failure_at(slots, i));
                assert(rest.contains(want));
                let j = choose|j: int| 0 <= j < rest.len() && rest[j] == want;
                assert(all[j] == want);
            } else {
                assert(all[all.len() - 1] == want);
            }
        }
        assert forall|j: int, k: int| 0 <= j < k < all.len() implies all[j].index
            < all[k].index by {
            if k < rest.len() {
                assert(all[j] == rest[j] && all[k] == rest[k]);
            } else {
                assert(all[j] == rest[j]);
                assert(rest[j].index < front.len());
            }
        }
    }
}

/// Every settled input was either written or has failed: the written ones
/// and the reported ones together are the settled ones.
pub proof fn lemma_written_and_failed(slots: Seq<Slot>)
    ensures
        written(slots) + failures(slots).len() == settled(slots),
    decreases slots.len(),
{
    if slots.len() > 0 {
        lemma_written_and_failed(slots.drop_last());
    }
}

/// What to do in a batch of `total` inputs with at most `limit` workers at
/// once, of which `dispatched` were started and `received` have reported.
pub open spec fn action_for(
    total: nat,
    limit: usize,
    dispatched: usize,
    received: usize,
) -> BatchAction {
    if dispatched < total && dispatched - received < limit {
        BatchAction::Dispatch(dispatched)
    } else if received == total {
        BatchAction::Finish
    } else {
        BatchAction::Wait
    }
}

impl BatchState {
    /// The number of inputs.
    pub open spec fn total(&self) -> nat {
        self.slots@.len()
    }

    /// The number of workers that were started and have not reported yet.
    pub open spec fn in_flight(&self) -> int {
        self.dispatched - self.received
    }

    /// The counters agree with the slots: no more workers run than the limit
    /// allows, only dispatched inputs have an outcome, and `received` counts
    /// them.
    pub open spec fn wf(&self) -> bool {
        &&& 1 <= self.limit
        &&& self.received <= self.dispatched <= self.slots@.len()
        &&& self.dispatched - self.received <= self.limit
        &&& self.received == settled(self.slots@)
        &&& forall|i: int|
            self.dispatched <= i < self.slots@.len() ==> (#[trigger] self.slots@[i])
                == Slot::Pending
    }

    /// What the caller is to do in this state: start the next input while
    /// one is left and a worker is free, finish once every outcome is in,
    /// and wait otherwise.
    pub open spec fn action(&self) -> BatchAction {
        action_for(self.slots@.len(), self.limit, self.dispatched, self.received)
    }

    /// Whether an outcome is one that this state can take: it is for an
    /// input that was dispatched and has not reported before.
    pub open spec fn accepts(&self, outcome: BatchOutcome) -> bool {
        outcome.index < self.dispatched && self.slots@[outcome.index as int] == Slot::Pending
    }

    /// The slot that an outcome settles its input with.
    pub open spec fn slot_of(outcome: BatchOutcome) -> Slot {
        match outcome.failure {
            None => Slot::Written,
            Some(kind) => Slot::Failed(kind),
        }
    }

    /// A batch of `total` inputs with at most `limit` workers at once. A
    /// limit of zero is refused: no input could ever start.
    pub fn new(total: usize, limit: usize) -> (r: Result<BatchState, ErrorKind>)
        ensures
            limit == 0 ==> r is Err && r.unwrap_err() == ErrorKind::InvalidArgument,
            limit > 0 ==> r is Ok && r.unwrap().wf() && r.unwrap().limit == limit
                && r.unwrap().dispatched == 0 && r.unwrap().received == 0
                && r.unwrap().slots@ == Seq::new(total as nat, |i: int| Slot::Pending),
    {
        if limit == 0 {
            return Err(ErrorKind::InvalidArgument);
        }
        let mut slots: Vec<Slot> = Vec::new();
        let mut i: usize = 0;
        while i < total
            invariant
                i <= total,
                slots@ == Seq::new(i as nat, |k: int| Slot::Pending),
            decreases total - i,
        {
            slots.push(Slot::Pending);
            assert(slots@ =~= Seq::new((i + 1) as nat, |k: int| Slot::Pending));
            i = i + 1;
        }
        proof {
            lemma_settled_bound(slots@);
        }
        Ok(BatchState { limit, dispatched: 0, received: 0, slots })
    }

    /// What to do next, without changing the state.
    pub fn next_action(&self) -> (a: BatchAction)
        requires
            self.wf(),
        ensures
            a == self.action(),
    {
        if self.dispatched < self.slots.len() && self.dispatched - self.received < self.limit {
            BatchAction::Dispatch(self.dispatched)
        } else if self.received == self.slots.len() {
            BatchAction::Finish
        } else {
            BatchAction::Wait
        }
    }

    /// Takes the outcome of a worker. An outcome for an input that was never
    /// dispatched, or that has reported before, is refused with
    /// `InvalidArgument` and changes nothing.
    pub fn record(&mut self, outcome: BatchOutcome) -> (r: Result<(), ErrorKind>)
        requires
            old(self).wf(),
        ensures
            final(self).wf(),
            final(self).limit == old(self).limit,
            final(self).dispatched == old(self).dispatched,
            old(self).accepts(outcome) ==> {
                &&& r is Ok
                &&& final(self).received == old(self).received + 1
                &&& final(self).slots@ == old(self).slots@.update(
                    outcome.index as int,
                    Self::slot_of(outcome),
                )
            },
            !old(self).accepts(outcome) ==> {
                &&& r == Err::<(), ErrorKind>(ErrorKind::InvalidArgument)
                &&& final(self).received == old(self).received
                &&& final(self).slots@ == old(self).slots@
            },
    {
        if outcome.index >= self.dispatched {
            return Err(ErrorKind::InvalidArgument);
        }
        match self.slots[outcome.index] {
            Slot::Pending => {},
            _ => {
                return Err(ErrorKind::InvalidArgument);
            },
        }
        let slot: Slot = match outcome.failure {
            None => Slot::Written,
            Some(kind) => Slot::Failed(kind),
        };
        let total: usize = self.slots.len();
        proof {
            lemma_settled_update(self.slots@, outcome.index as int, slot);
            lemma_settled_prefix(
                self.slots@.update(outcome.index as int, slot),
                self.dispatched as int,
            );
        }
        self.slots.set(outcome.index, slot);
        self.received = self.received + 1;
        Ok(())
    }

    /// One turn of the batch: takes the outcome that arrived, if any, and
    /// says what to do next. When the answer is to dispatch, the input
    /// counts as started. The answer is never to wait while no worker runs,
    /// and to finish only when every input has reported.
    pub fn step(&mut self, arrived: Option<BatchOutcome>) -> (r: Result<BatchAction, ErrorKind>)
        requires
            old(self).wf(),
        ensures
            final(self).wf(),
            final(self).limit == old(self).limit,
            final(self).slots@.len() == old(self).slots@.len(),
            arrived is Some && !old(self).accepts(arrived.unwrap()) ==> {
                &&& r == Err::<BatchAction, ErrorKind>(ErrorKind::InvalidArgument)
                &&& final(self).slots@ == old(self).slots@
                &&& final(self).dispatched == old(self).dispatched
                &&& final(self).received == old(self).received
            },
            arrived is None ==> {
                &&& r is Ok
                &&& final(self).slots@ == old(self).slots@
                &&& final(self).received == old(self).received
            },
            arrived is Some && old(self).accepts(arrived.unwrap()) ==> {
                &&& r is Ok
                &&& final(self).slots@ == old(self).slots@.update(
                    arrived.unwrap().index as int,
                    Self::slot_of(arrived.unwrap()),
                )
                &&& final(self).received == old(self).received + 1
            },
            r is Ok ==> r.unwrap() == action_for(
                old(self).slots@.len(),
                old(self).limit,
                old(self).dispatched,
                final(self).received,
            ),
            r is Ok ==> match r.unwrap() {
                BatchAction::Dispatch(i) => {
                    &&& i == old(self).dispatched
                    &&& final(self).dispatched == old(self).dispatched + 1
                },
                BatchAction::Wait => {
                    &&& final(self).dispatched == old(self).dispatched
                    &&& final(self).in_flight() > 0
                },
                BatchAction::Finish => {
                    &&& final(self).dispatched == old(self).dispatched
                    &&& final(self).received == final(self).slots@.len()
                },
            },
    {
        match arrived {
            Some(outcome) => {
                match self.record(outcome) {
                    Ok(()) => {},
                    Err(_) => {
                        return Err(ErrorKind::InvalidArgument);
                    },
                }
            },
            None => {},
        }
        let a: BatchAction = self.next_action();
        let total: usize = self.slots.len();
        match a {
            BatchAction::Dispatch(i) => {
                self.dispatched = self.dispatched + 1;
            },
            _ => {},
        }
        Ok(a)
    }

    /// The result of a batch whose every input has reported: success if
    /// none failed, else every failure, by position. The inputs that are
    /// not in the report were all written.
    pub fn finish(&self) -> (r: Result<(), Vec<BatchFailure>>)
        requires
            self.wf(),
            self.received == self.total(),
        ensures
            written(self.slots@) + failures(self.slots@).len() == self.total(),
            failures(self.slots@).len() == 0 ==> r is Ok,
            failures(self.slots@).len() > 0 ==> r is Err && r.unwrap_err()@ == failures(
                self.slots@,
            ),
    {
        let mut list: Vec<BatchFailure> = Vec::new();
        let mut i: usize = 0;
        while i < self.slots.len()
            invariant
                i <= self.slots@.len(),
                list@ == failures(self.slots@.take(i as int)),
            decreases self.slots@.len() - i,
        {
            assert(self.slots@.take(i + 1).drop_last() =~= self.slots@.take(i as int));
            match self.slots[i] {
                Slot::Failed(kind) => {
                    list.push(BatchFailure { index: i, kind });
                },
                _ => {},
            }
            i = i + 1;
        }
        assert(self.slots@.take(i as int) =~= self.slots@);
        proof {
            lemma_written_and_failed(self.slots@);
        }
        if list.len() == 0 {
            Ok(())
        } else {
            Err(list)
        }
    }
}

} // verus!
