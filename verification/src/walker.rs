use vstd::prelude::*;

use crate::Status;
use crate::cursor::{
    CursorEvent, TaskAction, TaskCursor, count_done, cursor_run, cursor_valid, lemma_run_push,
    lemma_valid_push,
};
use crate::ignore::{IgnoreConfig, is_ignored, is_ignored_spec};
use crate::paths::{DirPath, PathView, child_path, child_view, clone_path, path_eq};

verus! {

/// One directory node of a tree to walk: its own base name and its
/// immediate subdirectories, in listing order.
pub struct DirTree {
    pub name: String,
    pub children: Vec<DirTree>,
}

/// A task of the walk model.  Its result at a directory is a function of
/// the directory's path alone: `Error` on the paths of the first list,
/// otherwise `FilesChanged` on the paths of the second, otherwise
/// `Unchanged`.
pub struct ModelTask {
    pub error_on: Vec<DirPath>,
    pub change_on: Vec<DirPath>,
}

/// Whether some path of `list` is the path `p`.
pub open spec fn path_in_spec(list: Seq<DirPath>, p: PathView) -> bool {
    exists|i: int| 0 <= i < list.len() && list[i]@ == p
}

fn path_in(list: &Vec<DirPath>, p: &DirPath) -> (r: bool)
    ensures
        r == path_in_spec(list@, p@),
{
    let mut i: usize = 0;
    while i < list.len()
        invariant
            0 <= i <= list@.len(),
            forall|j: int| 0 <= j < i ==> list@[j]@ != p@,
        decreases list@.len() - i,
    {
        if path_eq(&list[i], p) {
            return true;
        }
        i = i + 1;
    }
    false
}

impl ModelTask {
    /// The result the task reports at the directory `p`.
    pub open spec fn result_spec(&self, p: PathView) -> Status {
        if path_in_spec(self.error_on@, p) {
            Status::Error
        } else if path_in_spec(self.change_on@, p) {
            Status::FilesChanged
        } else {
            Status::Unchanged
        }
    }

    pub fn run(&self, dir: &DirPath) -> (s: Status)
        ensures
            s == self.result_spec(dir@),
    {
        if path_in(&self.error_on, dir) {
            Status::Error
        } else if path_in(&self.change_on, dir) {
            Status::FilesChanged
        } else {
            Status::Unchanged
        }
    }
}

/// Whether some task of the list reports `Error` at the directory `p`.
pub open spec fn dir_errors(tasks: Seq<ModelTask>, p: PathView) -> bool {
    exists|j: int| 0 <= j < tasks.len() && tasks[j].result_spec(p) == Status::Error
}

/// Runs the whole task list against one directory of the model, driving
/// the cursor exactly as the walker does for a real directory: an initial
/// snapshot, the tasks in registration order, a rebuilt snapshot after
/// every mutation, and a stop at the first error.  Reports whether a task
/// failed there, together with the run's event trace: a valid run of the
/// cursor — so everything proved of valid cursor runs (invocation order,
/// rebuild after mutation, stop at the first error) holds of it — in
/// which every invocation carries the result the task really gave.
#[verifier::loop_isolation(false)]
pub fn run_dir_tasks(tasks: &Vec<ModelTask>, dir: &DirPath) -> (result: (bool, Ghost<
    Seq<CursorEvent>,
>))
    ensures
        result.0 == dir_errors(tasks@, dir@),
        cursor_valid(TaskCursor::initial_spec(tasks@.len() as usize), result.1@),
        forall|m: int|
            0 <= m < result.1@.len() && result.1@[m] is TaskDone ==> result.1@[m]->TaskDone_0
                == tasks@[count_done(result.1@.take(m))].result_spec(dir@),
{
    broadcast use vstd::seq_lib::group_filter_ensures;

    let mut cursor = TaskCursor::new(tasks.len());
    let ghost initial = cursor;
    let mut trace: Ghost<Seq<CursorEvent>> = Ghost(Seq::empty());
    proof {
        assert(cursor_run(initial, trace@) == cursor);
        assert(count_done(trace@) == 0) by {
            reveal_with_fuel(Seq::filter, 1);
        }
    }
    loop
        invariant
            cursor.wf(),
            cursor.total == tasks@.len(),
            cursor_valid(initial, trace@),
            cursor == cursor_run(initial, trace@),
            cursor.next == count_done(trace@),
            !cursor.errored ==> forall|j: int|
                0 <= j < cursor.next ==> tasks@[j].result_spec(dir@) != Status::Error,
            cursor.errored ==> dir_errors(tasks@, dir@),
            forall|m: int|
                0 <= m < trace@.len() && trace@[m] is TaskDone ==> trace@[m]->TaskDone_0
                    == tasks@[count_done(trace@.take(m))].result_spec(dir@),
        decreases 2 * (cursor.total - cursor.next) + (if cursor.fresh { 0int } else { 1int }),
    {
        let action = cursor.next_action();
        match action {
            TaskAction::Finished => {
                if cursor.errored {
                    return (true, trace);
                }
                proof {
                    assert(cursor.next == cursor.total);
                    assert(!dir_errors(tasks@, dir@));
                }
                return (false, trace);
            },
            TaskAction::BuildSnapshot => {
                proof {
                    lemma_valid_push(initial, trace@, CursorEvent::SnapshotBuilt);
                    lemma_run_push(initial, trace@, CursorEvent::SnapshotBuilt);
                    lemma_trace_extend(trace@, CursorEvent::SnapshotBuilt);
                }
                cursor.snapshot_built();
                proof {
                    trace@ = trace@.push(CursorEvent::SnapshotBuilt);
                }
            },
            TaskAction::RunTask(i) => {
                let result = tasks[i].run(dir);
                proof {
                    if result == Status::Error {
                        assert(tasks@[i as int].result_spec(dir@) == Status::Error);
                    }
                    lemma_valid_push(initial, trace@, CursorEvent::TaskDone(result));
                    lemma_run_push(initial, trace@, CursorEvent::TaskDone(result));
                    lemma_trace_extend(trace@, CursorEvent::TaskDone(result));
                }
                cursor.task_done(result);
                proof {
                    trace@ = trace@.push(CursorEvent::TaskDone(result));
                }
            },
        }
    }
}

/// How a pushed event changes the invocation count and the prefixes the
/// trace invariants speak of.
proof fn lemma_trace_extend(events: Seq<CursorEvent>, e: CursorEvent)
    ensures
        count_done(events.push(e)) == count_done(events) + (if e is TaskDone {
            1int
        } else {
            0int
        }),
        events.push(e).take(events.len() as int) == events,
        forall|m: int| 0 <= m < events.len() ==> events.push(e).take(m) == events.take(m),
{
    reveal_with_fuel(Seq::filter, 2);
    assert(events.push(e).drop_last() =~= events);
    assert(events.push(e).take(events.len() as int) =~= events);
    assert forall|m: int| 0 <= m < events.len() implies events.push(e).take(m) == events.take(
        m,
    ) by {
        assert(events.push(e).take(m) =~= events.take(m));
    }
}

/// The directories the walker visits, in visit order, starting at the
/// directory with path `p` and tree `t`: the directory itself first, then
/// the whole subtree of each of its children that no rule excludes, in
/// listing order.
pub open spec fn walk_spec(p: PathView, t: DirTree, cfg: IgnoreConfig) -> Seq<PathView>
    decreases t, 0int, 0int via walk_spec_decreases
{
    seq![p] + walk_children_spec(p, t.children@, 0, cfg)
}

#[via_fn]
proof fn walk_spec_decreases(p: PathView, t: DirTree, cfg: IgnoreConfig) {
    broadcast use vstd::std_specs::vec::axiom_vec_decreases_to_view;

    assert(decreases_to!(t => t.children));
    assert(decreases_to!(t.children => t.children@));
}

/// The part of the walk contributed by the children of the directory at
/// `p` from listing position `i` on.
pub open spec fn walk_children_spec(
    p: PathView,
    kids: Seq<DirTree>,
    i: int,
    cfg: IgnoreConfig,
) -> Seq<PathView>
    decreases kids, 1int, kids.len() - i via walk_children_spec_decreases
{
    if i < 0 || i >= kids.len() {
        Seq::empty()
    } else {
        let cp = child_view(p, kids[i].name@);
        (if !is_ignored_spec(cfg, cp, kids[i].name@) {
            walk_spec(cp, kids[i], cfg)
        } else {
            Seq::empty()
        }) + walk_children_spec(p, kids, i + 1, cfg)
    }
}

#[via_fn]
proof fn walk_children_spec_decreases(p: PathView, kids: Seq<DirTree>, i: int, cfg: IgnoreConfig) {
    broadcast use vstd::seq::axiom_seq_index_decreases;

    if 0 <= i < kids.len() {
        assert(decreases_to!(kids => kids[i]));
    }
}

/// The predicate "some task fails at this directory".
pub open spec fn error_pred(tasks: Vec<ModelTask>) -> spec_fn(PathView) -> bool {
    |q: PathView| dir_errors(tasks@, q)
}

/// What a walk reports back: every directory visited, in visit order, and
/// the directories at which a task failed, also in visit order.
pub struct WalkReport {
    pub visited: Vec<DirPath>,
    pub errors: Vec<DirPath>,
}

proof fn lemma_filter_single(q: PathView, pred: spec_fn(PathView) -> bool)
    ensures
        seq![q].filter(pred) == if pred(q) {
            seq![q]
        } else {
            Seq::<PathView>::empty()
        },
{
    reveal_with_fuel(Seq::filter, 2);
    assert(seq![q].drop_last() =~= Seq::<PathView>::empty());
    if pred(q) {
        assert(seq![q].filter(pred) =~= seq![q]);
    } else {
        assert(seq![q].filter(pred) =~= Seq::<PathView>::empty());
    }
}

/// Walks the directory at `path` with tree `tree`: visits the directory,
/// runs the task list on it, and recurses into every child that no rule
/// excludes, in listing order.  Appends to the report every directory
/// visited and every directory at which a task failed.
///
/// Which directories are visited does not depend on the tasks at all: a
/// task failure in one directory never keeps a sibling or any other
/// directory from being visited and having its own tasks run.
#[verifier::loop_isolation(false)]
pub fn walk_model(
    path: &DirPath,
    tree: &DirTree,
    tasks: &Vec<ModelTask>,
    cfg: &IgnoreConfig,
    report: &mut WalkReport,
)
    ensures
        final(report).visited.deep_view() == old(report).visited.deep_view() + walk_spec(
            path@,
            *tree,
            *cfg,
        ),
        final(report).errors.deep_view() == old(report).errors.deep_view() + walk_spec(
            path@,
            *tree,
            *cfg,
        ).filter(error_pred(*tasks)),
    decreases *tree,
{
    broadcast use vstd::seq_lib::group_filter_ensures;

    let ghost pre_visited = report.visited.deep_view();
    let ghost pre_errors = report.errors.deep_view();
    let ghost full = walk_spec(path@, *tree, *cfg);
    let ghost pred = error_pred(*tasks);
    report.visited.push(clone_path(path));
    let errored = run_dir_tasks(tasks, path).0;
    if errored {
        report.errors.push(clone_path(path));
    }
    proof {
        lemma_filter_single(path@, pred);
        assert(report.visited.deep_view() =~= pre_visited + seq![path@]);
        assert(report.errors.deep_view() =~= pre_errors + seq![path@].filter(pred));
    }
    let mut i: usize = 0;
    while i < tree.children.len()
        invariant
            0 <= i <= tree.children@.len(),
            report.visited.deep_view() + walk_children_spec(path@, tree.children@, i as int, *cfg)
                =~= pre_visited + full,
            report.errors.deep_view() + walk_children_spec(
                path@,
                tree.children@,
                i as int,
                *cfg,
            ).filter(pred) =~= pre_errors + full.filter(pred),
        decreases tree.children@.len() - i,
    {
        let ghost suffix = walk_children_spec(path@, tree.children@, i as int, *cfg);
        let ghost rest = walk_children_spec(path@, tree.children@, i + 1, *cfg);
        let child = &tree.children[i];
        let cp = child_path(path, &child.name);
        let ghost contribution = if !is_ignored_spec(*cfg, cp@, child.name@) {
            walk_spec(cp@, *child, *cfg)
        } else {
            Seq::<PathView>::empty()
        };
        proof {
            assert(suffix == contribution + rest);
            Seq::filter_distributes_over_add(contribution, rest, pred);
        }
        if !is_ignored(cfg, &cp, &child.name) {
            let ghost pre_step_visited = report.visited.deep_view();
            let ghost pre_step_errors = report.errors.deep_view();
            proof {
                broadcast use vstd::std_specs::vec::axiom_vec_decreases_to_view;
                broadcast use vstd::seq::axiom_seq_index_decreases;

                assert(decreases_to!(*tree => tree.children));
                assert(decreases_to!(tree.children => tree.children@));
                assert(decreases_to!(tree.children@ => tree.children@[i as int]));
            }
            walk_model(&cp, child, tasks, cfg, report);
            proof {
                assert(report.visited.deep_view() + rest =~= (pre_step_visited + contribution)
                    + rest);
                assert((pre_step_visited + contribution) + rest =~= pre_step_visited + (contribution
                    + rest));
                assert(report.errors.deep_view() + rest.filter(pred) =~= (pre_step_errors
                    + contribution.filter(pred)) + rest.filter(pred));
                assert((pre_step_errors + contribution.filter(pred)) + rest.filter(pred)
                    =~= pre_step_errors + (contribution.filter(pred) + rest.filter(pred)));
            }
        } else {
            proof {
                assert(contribution =~= Seq::<PathView>::empty());
                assert(contribution.filter(pred) =~= Seq::<PathView>::empty());
                assert(contribution + rest =~= rest);
                assert(contribution.filter(pred) + rest.filter(pred) =~= rest.filter(pred));
            }
        }
        i = i + 1;
    }
    proof {
        assert(walk_children_spec(path@, tree.children@, tree.children@.len() as int, *cfg)
            =~= Seq::<PathView>::empty());
        assert(report.visited.deep_view() =~= pre_visited + full);
        assert(report.errors.deep_view() =~= pre_errors + full.filter(pred));
    }
}

/// Whether `q` lies strictly below `p` in the namespace: same
/// absoluteness, more components, and `p`'s components are a prefix of
/// `q`'s.
pub open spec fn strictly_under(p: PathView, q: PathView) -> bool {
    &&& q.absolute == p.absolute
    &&& q.segments.len() > p.segments.len()
    &&& q.segments.take(p.segments.len() as int) == p.segments
}

/// Whether `q` is the path of a directory of the tree rooted at the
/// directory with path `p` and tree `t` — the root itself included.
pub open spec fn reaches(p: PathView, t: DirTree, q: PathView) -> bool
    decreases t, 0int, 0int via reaches_decreases
{
    q == p || reaches_kids(p, t.children@, 0, q)
}

#[via_fn]
proof fn reaches_decreases(p: PathView, t: DirTree, q: PathView) {
    broadcast use vstd::std_specs::vec::axiom_vec_decreases_to_view;

    assert(decreases_to!(t => t.children));
    assert(decreases_to!(t.children => t.children@));
}

/// Whether `q` is the path of a directory of the subtree of some child
/// from listing position `i` on.
pub open spec fn reaches_kids(p: PathView, kids: Seq<DirTree>, i: int, q: PathView) -> bool
    decreases kids, 1int, kids.len() - i via reaches_kids_decreases
{
    if i < 0 || i >= kids.len() {
        false
    } else {
        reaches(child_view(p, kids[i].name@), kids[i], q) || reaches_kids(p, kids, i + 1, q)
    }
}

#[via_fn]
proof fn reaches_kids_decreases(p: PathView, kids: Seq<DirTree>, i: int, q: PathView) {
    broadcast use vstd::seq::axiom_seq_index_decreases;

    if 0 <= i < kids.len() {
        assert(decreases_to!(kids => kids[i]));
    }
}

proof fn lemma_contains_concat<A>(a: Seq<A>, b: Seq<A>, q: A)
    ensures
        (a + b).contains(q) <==> (a.contains(q) || b.contains(q)),
{
    if (a + b).contains(q) {
        let idx = choose|idx: int| 0 <= idx < (a + b).len() && (a + b)[idx] == q;
        if idx < a.len() {
            assert(a[idx] == q);
        } else {
            assert(b[idx - a.len()] == q);
        }
    }
    if a.contains(q) {
        let idx = choose|idx: int| 0 <= idx < a.len() && a[idx] == q;
        assert((a + b)[idx] == q);
    }
    if b.contains(q) {
        let idx = choose|idx: int| 0 <= idx < b.len() && b[idx] == q;
        assert((a + b)[a.len() + idx] == q);
    }
}

/// Every directory of the children's part of the walk comes from the
/// subtree of some non-excluded child.
proof fn lemma_wcs_member(p: PathView, kids: Seq<DirTree>, i: int, cfg: IgnoreConfig, q: PathView)
    requires
        walk_children_spec(p, kids, i, cfg).contains(q),
    ensures
        exists|j: int|
            i <= j < kids.len() && !is_ignored_spec(
                cfg,
                child_view(p, kids[j].name@),
                kids[j].name@,
            ) && walk_spec(child_view(p, kids[j].name@), kids[j], cfg).contains(q),
    decreases kids.len() - i,
{
    if i < 0 || i >= kids.len() {
        assert(false);
    } else {
        let cp = child_view(p, kids[i].name@);
        let ignored = is_ignored_spec(cfg, cp, kids[i].name@);
        let contribution = if !ignored {
            walk_spec(cp, kids[i], cfg)
        } else {
            Seq::<PathView>::empty()
        };
        let rest = walk_children_spec(p, kids, i + 1, cfg);
        lemma_contains_concat(contribution, rest, q);
        if contribution.contains(q) {
            assert(!ignored && walk_spec(cp, kids[i], cfg).contains(q));
        } else {
            lemma_wcs_member(p, kids, i + 1, cfg, q);
            let j = choose|j: int|
                i + 1 <= j < kids.len() && !is_ignored_spec(
                    cfg,
                    child_view(p, kids[j].name@),
                    kids[j].name@,
                ) && walk_spec(child_view(p, kids[j].name@), kids[j], cfg).contains(q);
            assert(i <= j < kids.len() && !is_ignored_spec(
                cfg,
                child_view(p, kids[j].name@),
                kids[j].name@,
            ) && walk_spec(child_view(p, kids[j].name@), kids[j], cfg).contains(q));
        }
    }
}

/// Every directory the walk of the subtree at `p` visits is `p` itself or
/// lies strictly below it.
proof fn lemma_walk_under(p: PathView, t: DirTree, cfg: IgnoreConfig, q: PathView)
    requires
        walk_spec(p, t, cfg).contains(q),
    ensures
        q == p || strictly_under(p, q),
    decreases t, 1int,
{
    lemma_contains_concat(seq![p], walk_children_spec(p, t.children@, 0, cfg), q);
    if seq![p].contains(q) {
        assert(q == p);
    } else {
        lemma_wcs_member(p, t.children@, 0, cfg, q);
        let j = choose|j: int|
            0 <= j < t.children@.len() && !is_ignored_spec(
                cfg,
                child_view(p, t.children@[j].name@),
                t.children@[j].name@,
            ) && walk_spec(child_view(p, t.children@[j].name@), t.children@[j], cfg).contains(q);
        assert(decreases_to!(t => t.children));
        assert(decreases_to!(t.children => t.children@));
        assert(decreases_to!(t.children@ => t.children@[j]));
        lemma_walk_scope(p, t.children@[j].name@, t.children@[j], cfg, q);
    }
}

/// Every directory visited in the subtree of the child named `name` lies
/// strictly below the parent, with `name` as the first component past the
/// parent's own.
proof fn lemma_walk_scope(p: PathView, name: Seq<char>, child: DirTree, cfg: IgnoreConfig, q: PathView)
    requires
        walk_spec(child_view(p, name), child, cfg).contains(q),
    ensures
        strictly_under(p, q),
        q.segments[p.segments.len() as int] == name,
    decreases child, 2int,
{
    let cp = child_view(p, name);
    lemma_walk_under(cp, child, cfg, q);
    let plen = p.segments.len() as int;
    if q == cp {
        assert(q.segments.take(plen) =~= p.segments);
    } else {
        assert(strictly_under(cp, q));
        assert(q.segments.take(cp.segments.len() as int) == cp.segments);
        assert forall|m: int| 0 <= m < plen implies q.segments.take(plen)[m] == p.segments[m] by {
            assert(q.segments.take(cp.segments.len() as int)[m] == cp.segments[m]);
        }
        assert(q.segments.take(plen) =~= p.segments);
        assert(q.segments.take(cp.segments.len() as int)[plen] == cp.segments[plen]);
    }
}

/// The counterparts of the two lemmas above for plain reachability.
proof fn lemma_reaches_kids_member(p: PathView, kids: Seq<DirTree>, i: int, q: PathView)
    requires
        reaches_kids(p, kids, i, q),
    ensures
        exists|j: int|
            i <= j < kids.len() && reaches(child_view(p, kids[j].name@), kids[j], q),
    decreases kids.len() - i,
{
    if i < 0 || i >= kids.len() {
        assert(false);
    } else if reaches(child_view(p, kids[i].name@), kids[i], q) {
    } else {
        lemma_reaches_kids_member(p, kids, i + 1, q);
        let j = choose|j: int|
            i + 1 <= j < kids.len() && reaches(child_view(p, kids[j].name@), kids[j], q);
        assert(i <= j < kids.len() && reaches(child_view(p, kids[j].name@), kids[j], q));
    }
}

proof fn lemma_reaches_under(p: PathView, t: DirTree, q: PathView)
    requires
        reaches(p, t, q),
    ensures
        q == p || strictly_under(p, q),
    decreases t, 1int,
{
    if q != p {
        lemma_reaches_kids_member(p, t.children@, 0, q);
        let j = choose|j: int|
            0 <= j < t.children@.len() && reaches(child_view(p, t.children@[j].name@), t.children@[j], q);
        assert(decreases_to!(t => t.children));
        assert(decreases_to!(t.children => t.children@));
        assert(decreases_to!(t.children@ => t.children@[j]));
        lemma_reaches_scope(p, t.children@[j].name@, t.children@[j], q);
    }
}

proof fn lemma_reaches_scope(p: PathView, name: Seq<char>, child: DirTree, q: PathView)
    requires
        reaches(child_view(p, name), child, q),
    ensures
        strictly_under(p, q),
        q.segments[p.segments.len() as int] == name,
    decreases child, 2int,
{
    let cp = child_view(p, name);
    lemma_reaches_under(cp, child, q);
    let plen = p.segments.len() as int;
    if q == cp {
        assert(q.segments.take(plen) =~= p.segments);
    } else {
        assert(strictly_under(cp, q));
        assert(q.segments.take(cp.segments.len() as int) == cp.segments);
        assert forall|m: int| 0 <= m < plen implies q.segments.take(plen)[m] == p.segments[m] by {
            assert(q.segments.take(cp.segments.len() as int)[m] == cp.segments[m]);
        }
        assert(q.segments.take(plen) =~= p.segments);
        assert(q.segments.take(cp.segments.len() as int)[plen] == cp.segments[plen]);
    }
}

/// With no ignore rules configured, the walk visits exactly the
/// directories reachable from the root: the visited set equals the
/// reachable set.
pub proof fn lemma_no_rules_visits_all(p: PathView, t: DirTree, cfg: IgnoreConfig, q: PathView)
    requires
        cfg.rules@.len() == 0,
    ensures
        walk_spec(p, t, cfg).contains(q) <==> reaches(p, t, q),
    decreases t, 1int,
{
    lemma_contains_concat(seq![p], walk_children_spec(p, t.children@, 0, cfg), q);
    assert(seq![p].contains(q) <==> q == p) by {
        if q == p {
            assert(seq![p][0] == q);
        }
    }
    lemma_no_rules_kids(p, t.children@, 0, cfg, q);
}

proof fn lemma_no_rules_kids(p: PathView, kids: Seq<DirTree>, i: int, cfg: IgnoreConfig, q: PathView)
    requires
        cfg.rules@.len() == 0,
    ensures
        walk_children_spec(p, kids, i, cfg).contains(q) <==> reaches_kids(p, kids, i, q),
    decreases kids, 2int, kids.len() - i,
{
    if i < 0 || i >= kids.len() {
        assert(!walk_children_spec(p, kids, i, cfg).contains(q));
    } else {
        let cp = child_view(p, kids[i].name@);
        assert(!is_ignored_spec(cfg, cp, kids[i].name@));
        assert(decreases_to!(kids => kids[i]));
        lemma_no_rules_visits_all(cp, kids[i], cfg, q);
        lemma_no_rules_kids(p, kids, i + 1, cfg, q);
        lemma_contains_concat(
            walk_spec(cp, kids[i], cfg),
            walk_children_spec(p, kids, i + 1, cfg),
            q,
        );
    }
}

/// Whether the immediate children carry pairwise distinct names.
pub open spec fn distinct_names(kids: Seq<DirTree>) -> bool {
    forall|i: int, j: int| 0 <= i < j < kids.len() ==> kids[i].name@ != kids[j].name@
}

/// A well-formed directory tree: at every level the children carry
/// pairwise distinct names, as a real directory listing does.
pub open spec fn wf_tree(t: DirTree) -> bool
    decreases t, 0int, 0int via wf_tree_decreases
{
    distinct_names(t.children@) && wf_kids(t.children@, 0)
}

#[via_fn]
proof fn wf_tree_decreases(t: DirTree) {
    broadcast use vstd::std_specs::vec::axiom_vec_decreases_to_view;

    assert(decreases_to!(t => t.children));
    assert(decreases_to!(t.children => t.children@));
}

pub open spec fn wf_kids(kids: Seq<DirTree>, i: int) -> bool
    decreases kids, 1int, kids.len() - i via wf_kids_decreases
{
    if i < 0 || i >= kids.len() {
        true
    } else {
        wf_tree(kids[i]) && wf_kids(kids, i + 1)
    }
}

#[via_fn]
proof fn wf_kids_decreases(kids: Seq<DirTree>, i: int) {
    broadcast use vstd::seq::axiom_seq_index_decreases;

    if 0 <= i < kids.len() {
        assert(decreases_to!(kids => kids[i]));
    }
}

/// In a well-formed tree the walk visits no directory twice.  Together
/// with `lemma_no_rules_visits_all`: with no ignore rules, every
/// reachable directory is visited exactly once.
pub proof fn lemma_walk_no_duplicates(p: PathView, t: DirTree, cfg: IgnoreConfig)
    requires
        wf_tree(t),
    ensures
        walk_spec(p, t, cfg).no_duplicates(),
    decreases t, 1int,
{
    let wcs0 = walk_children_spec(p, t.children@, 0, cfg);
    lemma_wcs_no_duplicates(p, t.children@, 0, cfg);
    assert forall|a: int, b: int| 0 <= a < seq![p].len() && 0 <= b < wcs0.len() implies seq![p][a]
        != wcs0[b] by {
        assert(wcs0.contains(wcs0[b]));
        lemma_wcs_member(p, t.children@, 0, cfg, wcs0[b]);
        let j = choose|j: int|
            0 <= j < t.children@.len() && !is_ignored_spec(
                cfg,
                child_view(p, t.children@[j].name@),
                t.children@[j].name@,
            ) && walk_spec(child_view(p, t.children@[j].name@), t.children@[j], cfg).contains(
                wcs0[b],
            );
        lemma_walk_scope(p, t.children@[j].name@, t.children@[j], cfg, wcs0[b]);
    }
    vstd::seq_lib::lemma_no_dup_in_concat(seq![p], wcs0);
}

proof fn lemma_wcs_no_duplicates(p: PathView, kids: Seq<DirTree>, i: int, cfg: IgnoreConfig)
    requires
        distinct_names(kids),
        wf_kids(kids, i),
    ensures
        walk_children_spec(p, kids, i, cfg).no_duplicates(),
    decreases kids, 2int, kids.len() - i,
{
    if i < 0 || i >= kids.len() {
    } else {
        let cp = child_view(p, kids[i].name@);
        let ignored = is_ignored_spec(cfg, cp, kids[i].name@);
        let contribution = if !ignored {
            walk_spec(cp, kids[i], cfg)
        } else {
            Seq::<PathView>::empty()
        };
        let rest = walk_children_spec(p, kids, i + 1, cfg);
        if !ignored {
            assert(decreases_to!(kids => kids[i]));
            lemma_walk_no_duplicates(cp, kids[i], cfg);
        }
        lemma_wcs_no_duplicates(p, kids, i + 1, cfg);
        assert forall|a: int, b: int|
            0 <= a < contribution.len() && 0 <= b < rest.len() implies contribution[a]
            != rest[b] by {
            assert(contribution.contains(contribution[a]));
            assert(rest.contains(rest[b]));
            lemma_walk_scope(p, kids[i].name@, kids[i], cfg, contribution[a]);
            lemma_wcs_member(p, kids, i + 1, cfg, rest[b]);
            let j = choose|j: int|
                i + 1 <= j < kids.len() && !is_ignored_spec(
                    cfg,
                    child_view(p, kids[j].name@),
                    kids[j].name@,
                ) && walk_spec(child_view(p, kids[j].name@), kids[j], cfg).contains(rest[b]);
            lemma_walk_scope(p, kids[j].name@, kids[j], cfg, rest[b]);
        }
        vstd::seq_lib::lemma_no_dup_in_concat(contribution, rest);
    }
}

/// A directory matching a configured rule is excluded together with its
/// whole subtree: no directory reachable below it is ever visited,
/// however deep it lies.
pub proof fn lemma_ignored_subtree_unvisited(
    p: PathView,
    t: DirTree,
    cfg: IgnoreConfig,
    i: int,
    q: PathView,
)
    requires
        distinct_names(t.children@),
        0 <= i < t.children@.len(),
        is_ignored_spec(cfg, child_view(p, t.children@[i].name@), t.children@[i].name@),
        reaches(child_view(p, t.children@[i].name@), t.children@[i], q),
    ensures
        !walk_spec(p, t, cfg).contains(q),
{
    lemma_reaches_scope(p, t.children@[i].name@, t.children@[i], q);
    if walk_spec(p, t, cfg).contains(q) {
        lemma_contains_concat(seq![p], walk_children_spec(p, t.children@, 0, cfg), q);
        if seq![p].contains(q) {
            assert(q == p);
            assert(q.segments.len() > p.segments.len());
            assert(false);
        } else {
            lemma_wcs_member(p, t.children@, 0, cfg, q);
            let j = choose|j: int|
                0 <= j < t.children@.len() && !is_ignored_spec(
                    cfg,
                    child_view(p, t.children@[j].name@),
                    t.children@[j].name@,
                ) && walk_spec(child_view(p, t.children@[j].name@), t.children@[j], cfg).contains(
                    q,
                );
            lemma_walk_scope(p, t.children@[j].name@, t.children@[j], cfg, q);
            assert(t.children@[j].name@ == t.children@[i].name@);
            if j != i {
                assert(false);
            }
            assert(false);
        }
    }
}

/// One traversal root: the path the walk starts at and the tree below it.
pub struct RootDir {
    pub path: DirPath,
    pub tree: DirTree,
}

/// The directories a walk over all the roots visits, in order.  Roots are
/// independent work units and are themselves never filtered: exclusion is
/// evaluated only on candidate subdirectories.
pub open spec fn forest_spec(roots: Seq<RootDir>, i: int, cfg: IgnoreConfig) -> Seq<PathView>
    decreases roots.len() - i,
{
    if i < 0 || i >= roots.len() {
        Seq::empty()
    } else {
        walk_spec(roots[i].path@, roots[i].tree, cfg) + forest_spec(roots, i + 1, cfg)
    }
}

/// With no ignore rules configured, the whole walk visits exactly the
/// directories reachable from some root.
pub proof fn lemma_no_rules_forest(roots: Seq<RootDir>, i: int, cfg: IgnoreConfig, q: PathView)
    requires
        0 <= i,
        cfg.rules@.len() == 0,
    ensures
        forest_spec(roots, i, cfg).contains(q) <==> exists|j: int|
            i <= j < roots.len() && reaches(roots[j].path@, roots[j].tree, q),
    decreases roots.len() - i,
{
    if i < 0 || i >= roots.len() {
        assert(!forest_spec(roots, i, cfg).contains(q));
    } else {
        lemma_contains_concat(
            walk_spec(roots[i].path@, roots[i].tree, cfg),
            forest_spec(roots, i + 1, cfg),
            q,
        );
        lemma_no_rules_visits_all(roots[i].path@, roots[i].tree, cfg, q);
        lemma_no_rules_forest(roots, i + 1, cfg, q);
        if exists|j: int| i <= j < roots.len() && reaches(roots[j].path@, roots[j].tree, q) {
            let j = choose|j: int| i <= j < roots.len() && reaches(roots[j].path@, roots[j].tree, q);
            if j == i {
                assert(walk_spec(roots[i].path@, roots[i].tree, cfg).contains(q));
            } else {
                assert(exists|j2: int|
                    i + 1 <= j2 < roots.len() && reaches(roots[j2].path@, roots[j2].tree, q));
            }
        }
        if walk_spec(roots[i].path@, roots[i].tree, cfg).contains(q) {
            assert(reaches(roots[i].path@, roots[i].tree, q));
            assert(exists|j: int|
                i <= j < roots.len() && reaches(roots[j].path@, roots[j].tree, q)) by {
                assert(i <= i < roots.len() && reaches(roots[i].path@, roots[i].tree, q));
            }
        }
        if forest_spec(roots, i + 1, cfg).contains(q) {
            let j = choose|j: int|
                i + 1 <= j < roots.len() && reaches(roots[j].path@, roots[j].tree, q);
            assert(i <= j < roots.len() && reaches(roots[j].path@, roots[j].tree, q));
        }
    }
}

/// Walks every root in turn and reports every directory visited and every
/// directory at which a task failed, each in visit order.  The walk always
/// runs to completion: per-directory failures are recorded and reported,
/// never turned into an abort.
#[verifier::loop_isolation(false)]
pub fn walk_forest(roots: &Vec<RootDir>, tasks: &Vec<ModelTask>, cfg: &IgnoreConfig) -> (report:
    WalkReport)
    ensures
        report.visited.deep_view() == forest_spec(roots@, 0, *cfg),
        report.errors.deep_view() == forest_spec(roots@, 0, *cfg).filter(error_pred(*tasks)),
{
    broadcast use vstd::seq_lib::group_filter_ensures;

    let ghost full = forest_spec(roots@, 0, *cfg);
    let ghost pred = error_pred(*tasks);
    let mut report = WalkReport { visited: Vec::new(), errors: Vec::new() };
    proof {
        assert(report.visited.deep_view() =~= Seq::<PathView>::empty());
        assert(report.errors.deep_view() =~= Seq::<PathView>::empty());
    }
    let mut i: usize = 0;
    while i < roots.len()
        invariant
            0 <= i <= roots@.len(),
            report.visited.deep_view() + forest_spec(roots@, i as int, *cfg) =~= full,
            report.errors.deep_view() + forest_spec(roots@, i as int, *cfg).filter(pred)
                =~= full.filter(pred),
        decreases roots@.len() - i,
    {
        let ghost rest = forest_spec(roots@, i + 1, *cfg);
        let ghost contribution = walk_spec(roots@[i as int].path@, roots@[i as int].tree, *cfg);
        let ghost pre_visited = report.visited.deep_view();
        let ghost pre_errors = report.errors.deep_view();
        proof {
            Seq::filter_distributes_over_add(contribution, rest, pred);
        }
        let root = &roots[i];
        walk_model(&root.path, &root.tree, tasks, cfg, &mut report);
        proof {
            assert(report.visited.deep_view() + rest =~= (pre_visited + contribution) + rest);
            assert((pre_visited + contribution) + rest =~= pre_visited + (contribution + rest));
            assert(report.errors.deep_view() + rest.filter(pred) =~= (pre_errors
                + contribution.filter(pred)) + rest.filter(pred));
            assert((pre_errors + contribution.filter(pred)) + rest.filter(pred) =~= pre_errors + (
            contribution.filter(pred) + rest.filter(pred)));
        }
        i = i + 1;
    }
    proof {
        assert(forest_spec(roots@, roots@.len() as int, *cfg) =~= Seq::<PathView>::empty());
        assert(report.visited.deep_view() =~= full);
        assert(report.errors.deep_view() =~= full.filter(pred));
    }
    report
}

} // verus!
