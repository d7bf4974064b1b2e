use vstd::prelude::*;

use crate::Status;

verus! {

/// What the scheduler owes the directory being processed next: build a
/// fresh snapshot of its entries, invoke the task with the given index
/// against the current snapshot, or nothing — the task list is finished.
#[derive(Clone, Copy, Debug, PartialEq, Eq, Structural)]
pub enum TaskAction {
    BuildSnapshot,
    RunTask(usize),
    Finished,
}

/// Drives the task list of one directory.  Tasks are invoked in
/// registration order, each against a snapshot built after the last
/// mutation: the first invocation comes only after an initial snapshot,
/// a `FilesChanged` result marks the snapshot stale so that it is rebuilt
/// before the next invocation, and an `Error` result stops the list.
pub struct TaskCursor {
    pub total: usize,
    pub next: usize,
    pub fresh: bool,
    pub errored: bool,
}

impl TaskCursor {
    pub open spec fn wf(&self) -> bool {
        self.next <= self.total
    }

    /// The action owed in the current state.
    pub open spec fn action_spec(&self) -> TaskAction {
        if self.errored || self.next == self.total {
            TaskAction::Finished
        } else if !self.fresh {
            TaskAction::BuildSnapshot
        } else {
            TaskAction::RunTask(self.next)
        }
    }

    /// The state a cursor for `total` registered tasks starts in.
    pub open spec fn initial_spec(total: usize) -> TaskCursor {
        TaskCursor { total, next: 0, fresh: false, errored: false }
    }

    pub fn new(total: usize) -> (c: TaskCursor)
        ensures
            c == TaskCursor::initial_spec(total),
    {
        TaskCursor { total, next: 0, fresh: false, errored: false }
    }

    pub fn next_action(&self) -> (a: TaskAction)
        ensures
            a == self.action_spec(),
    {
        if self.errored || self.next == self.total {
            TaskAction::Finished
        } else if !self.fresh {
            TaskAction::BuildSnapshot
        } else {
            TaskAction::RunTask(self.next)
        }
    }

    /// Records that a fresh snapshot of the directory was just built.
    pub fn snapshot_built(&mut self)
        requires
            old(self).action_spec() == TaskAction::BuildSnapshot,
        ensures
            *final(self) == cursor_step(*old(self), CursorEvent::SnapshotBuilt),
    {
        self.fresh = true;
    }

    /// Records the result of the task just invoked: the list advances to
    /// the next task, a `FilesChanged` result marks the snapshot stale,
    /// and an `Error` result stops the list.
    pub fn task_done(&mut self, result: Status)
        requires
            old(self).wf(),
            old(self).action_spec() == TaskAction::RunTask(old(self).next),
        ensures
            *final(self) == cursor_step(*old(self), CursorEvent::TaskDone(result)),
            final(self).wf(),
    {
        self.next = self.next + 1;
        self.fresh = !(result == Status::FilesChanged);
        self.errored = result == Status::Error;
    }
}

/// One observable step of the cursor: a snapshot was built, or the task
/// at the head of the list finished with the given result.
pub enum CursorEvent {
    SnapshotBuilt,
    TaskDone(Status),
}

/// Whether the cursor owes the step `e` in state `c`.
pub open spec fn cursor_enabled(c: TaskCursor, e: CursorEvent) -> bool {
    match e {
        CursorEvent::SnapshotBuilt => c.action_spec() == TaskAction::BuildSnapshot,
        CursorEvent::TaskDone(_) => c.action_spec() == TaskAction::RunTask(c.next),
    }
}

/// The state after the step `e`.
pub open spec fn cursor_step(c: TaskCursor, e: CursorEvent) -> TaskCursor {
    match e {
        CursorEvent::SnapshotBuilt => TaskCursor { fresh: true, ..c },
        CursorEvent::TaskDone(result) => TaskCursor {
            next: (c.next + 1) as usize,
            fresh: !(result == Status::FilesChanged),
            errored: result == Status::Error,
            ..c
        },
    }
}

/// The state after running the whole event sequence from `c`.
pub open spec fn cursor_run(c: TaskCursor, events: Seq<CursorEvent>) -> TaskCursor
    decreases events.len(),
{
    if events.len() == 0 {
        c
    } else {
        cursor_run(cursor_step(c, events[0]), events.drop_first())
    }
}

/// Whether every step of the event sequence was owed in the state it was
/// taken in: the sequence is a possible run of the cursor from `c`.
pub open spec fn cursor_valid(c: TaskCursor, events: Seq<CursorEvent>) -> bool
    decreases events.len(),
{
    events.len() == 0 || (cursor_enabled(c, events[0]) && cursor_valid(
        cursor_step(c, events[0]),
        events.drop_first(),
    ))
}

/// How many task invocations the event sequence holds.
pub open spec fn count_done(events: Seq<CursorEvent>) -> int {
    events.filter(|e: CursorEvent| e is TaskDone).len() as int
}

/// Running one more event steps the final state once more.
pub proof fn lemma_run_push(c: TaskCursor, events: Seq<CursorEvent>, e: CursorEvent)
    ensures
        cursor_run(c, events.push(e)) == cursor_step(cursor_run(c, events), e),
    decreases events.len(),
{
    if events.len() == 0 {
        assert(events.push(e)[0] == e);
        assert(events.push(e).drop_first() =~= Seq::<CursorEvent>::empty());
        assert(cursor_run(c, events.push(e)) == cursor_run(
            cursor_step(c, e),
            events.push(e).drop_first(),
        ));
    } else {
        assert(events.push(e)[0] == events[0]);
        assert(events.push(e).drop_first() =~= events.drop_first().push(e));
        lemma_run_push(cursor_step(c, events[0]), events.drop_first(), e);
        assert(cursor_run(c, events.push(e)) == cursor_run(
            cursor_step(c, events[0]),
            events.drop_first().push(e),
        ));
    }
}

/// A valid run extended by an owed step is still a valid run.
pub proof fn lemma_valid_push(c: TaskCursor, events: Seq<CursorEvent>, e: CursorEvent)
    requires
        cursor_valid(c, events),
        cursor_enabled(cursor_run(c, events), e),
    ensures
        cursor_valid(c, events.push(e)),
    decreases events.len(),
{
    if events.len() == 0 {
        assert(events.push(e)[0] == e);
        assert(events.push(e).drop_first() =~= Seq::<CursorEvent>::empty());
        assert(cursor_run(c, events) == c);
        assert(cursor_enabled(c, e));
        assert(cursor_valid(cursor_step(c, e), events.push(e).drop_first()));
    } else {
        assert(events.push(e)[0] == events[0]);
        assert(events.push(e).drop_first() =~= events.drop_first().push(e));
        assert(cursor_enabled(cursor_run(cursor_step(c, events[0]), events.drop_first()), e));
        lemma_valid_push(cursor_step(c, events[0]), events.drop_first(), e);
        assert(cursor_valid(cursor_step(c, events[0]), events.push(e).drop_first()));
    }
}

/// In a valid run, every step is owed in the state reached before it.
pub proof fn lemma_valid_at(c: TaskCursor, events: Seq<CursorEvent>, j: int)
    requires
        cursor_valid(c, events),
        0 <= j < events.len(),
    ensures
        cursor_enabled(cursor_run(c, events.take(j)), events[j]),
    decreases j,
{
    if j == 0 {
        assert(events.take(0) =~= Seq::empty());
    } else {
        lemma_valid_at(cursor_step(c, events[0]), events.drop_first(), j - 1);
        assert(events.drop_first().take(j - 1) =~= events.take(j).drop_first());
        assert(events.drop_first()[j - 1] == events[j]);
    }
}

/// The position in the task list equals the number of invocations so far.
pub proof fn lemma_next_counts_done(c: TaskCursor, events: Seq<CursorEvent>)
    requires
        c.wf(),
        cursor_valid(c, events),
    ensures
        cursor_run(c, events).next == c.next + count_done(events),
        cursor_run(c, events).total == c.total,
        cursor_run(c, events).wf(),
    decreases events.len(),
{
    broadcast use vstd::seq_lib::group_filter_ensures;

    if events.len() == 0 {
    } else {
        let pred = |e: CursorEvent| e is TaskDone;
        assert(cursor_step(c, events[0]).wf()) by {
            if events[0] is TaskDone {
                assert(c.next != c.total);
            }
        }
        lemma_next_counts_done(cursor_step(c, events[0]), events.drop_first());
        assert(events =~= seq![events[0]] + events.drop_first());
        Seq::filter_distributes_over_add(seq![events[0]], events.drop_first(), pred);
        reveal_with_fuel(Seq::filter, 2);
        assert(seq![events[0]].drop_last() =~= Seq::<CursorEvent>::empty());
        if events[0] is TaskDone {
            assert(cursor_enabled(c, events[0]));
            assert(cursor_step(c, events[0]).next == c.next + 1);
        }
    }
}

/// Task invocation order equals registration order: in every valid run of
/// a freshly created cursor, the invocation that `k` earlier invocations
/// precede is an invocation of task `k`.
pub proof fn lemma_invocation_order(total: usize, events: Seq<CursorEvent>, j: int)
    requires
        cursor_valid(TaskCursor::initial_spec(total), events),
        0 <= j < events.len(),
        events[j] is TaskDone,
    ensures
        cursor_run(TaskCursor::initial_spec(total), events.take(j)).action_spec()
            == TaskAction::RunTask(count_done(events.take(j)) as usize),
        0 <= count_done(events.take(j)) < total,
{
    let c0 = TaskCursor::initial_spec(total);
    lemma_valid_at(c0, events, j);
    lemma_valid_prefix(c0, events, j);
    lemma_next_counts_done(c0, events.take(j));
    broadcast use vstd::seq_lib::group_filter_ensures;

    let cj = cursor_run(c0, events.take(j));
    assert(cursor_enabled(cj, events[j]));
    assert(cj.action_spec() == TaskAction::RunTask(cj.next));
}

/// A prefix of a valid run is itself a valid run.
pub proof fn lemma_valid_prefix(c: TaskCursor, events: Seq<CursorEvent>, j: int)
    requires
        cursor_valid(c, events),
        0 <= j <= events.len(),
    ensures
        cursor_valid(c, events.take(j)),
    decreases j,
{
    if j == 0 {
        assert(events.take(0) =~= Seq::empty());
    } else {
        lemma_valid_prefix(cursor_step(c, events[0]), events.drop_first(), j - 1);
        assert(events.drop_first().take(j - 1) =~= events.take(j).drop_first());
        assert(events.take(j)[0] == events[0]);
    }
}

/// An `Error` result ends the directory's run: in a valid run nothing
/// follows it, so no later task of that directory is invoked against it.
pub proof fn lemma_error_stops_run(c: TaskCursor, events: Seq<CursorEvent>, j: int)
    requires
        cursor_valid(c, events),
        0 <= j < events.len(),
        events[j] == CursorEvent::TaskDone(Status::Error),
    ensures
        j == events.len() - 1,
    decreases j,
{
    if j == 0 {
        let c1 = cursor_step(c, events[0]);
        assert(c1.errored);
        if events.len() > 1 {
            assert(cursor_valid(c1, events.drop_first()));
            assert(cursor_enabled(c1, events.drop_first()[0]));
            assert(c1.action_spec() == TaskAction::Finished);
            assert(false);
        }
    } else {
        lemma_error_stops_run(cursor_step(c, events[0]), events.drop_first(), j - 1);
        assert(events.drop_first()[j - 1] == events[j]);
    }
}

/// A task that mutated the directory never leaves its stale snapshot to
/// the next task: in a valid run, the very next step after a
/// `FilesChanged` result is a snapshot rebuild, so the next invocation
/// sees a snapshot built strictly after the mutation.
pub proof fn lemma_rebuild_after_mutation(c: TaskCursor, events: Seq<CursorEvent>, j: int)
    requires
        cursor_valid(c, events),
        0 <= j < events.len() - 1,
        events[j] == CursorEvent::TaskDone(Status::FilesChanged),
    ensures
        events[j + 1] == CursorEvent::SnapshotBuilt,
    decreases j,
{
    if j == 0 {
        let c1 = cursor_step(c, events[0]);
        assert(!c1.fresh);
        assert(cursor_valid(c1, events.drop_first()));
        assert(cursor_enabled(c1, events.drop_first()[0]));
        assert(events.drop_first()[0] == events[1]);
        match events[1] {
            CursorEvent::SnapshotBuilt => {
            },
            CursorEvent::TaskDone(_) => {
                assert(c1.action_spec() != TaskAction::RunTask(c1.next));
                assert(false);
            },
        }
    } else {
        lemma_rebuild_after_mutation(cursor_step(c, events[0]), events.drop_first(), j - 1);
        assert(events.drop_first()[j - 1] == events[j]);
        assert(events.drop_first()[j] == events[j + 1]);
    }
}

} // verus!
