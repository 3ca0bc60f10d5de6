//! The scheduling state as plain values, and its transitions.
//!
//! The executable scheduler is specified against this model: every
//! operation states that the state after it is the state before it taken
//! through one of the transitions below.

use vstd::prelude::*;
use crate::task::context::{ContextSlot, TaskContext};

verus! {

/// Where a task is in its life.
#[derive(Clone, Copy, Debug, PartialEq, Eq, Structural)]
pub enum TaskStatus {
    /// Waiting in the ready queue, or about to be put there.
    Ready,
    /// Bound to a hart.
    Running,
    /// Terminated; its exit code waits to be collected.
    Zombie,
}

/// What the scheduler knows of one task.
pub struct TaskView {
    pub status: TaskStatus,
    pub exit_code: i32,
    pub parent: Option<usize>,
    pub children: Seq<usize>,
    pub task_cx: TaskContext,
}

/// What the scheduler knows of one hart.
pub struct HartView {
    /// The task bound to the hart.
    pub current: Option<usize>,
    /// The saved context of the idle loop.
    pub idle_task_cx: TaskContext,
    /// The context the hart executes in.
    pub registers: TaskContext,
    /// Whether the hart executes a task, rather than its idle loop.
    pub in_task: bool,
}

/// The scheduling state of the machine.
pub struct SchedView {
    /// The tasks that exist, by pid.
    pub tasks: Map<usize, TaskView>,
    /// The ready queue, head first.
    pub ready: Seq<usize>,
    /// The harts, by hart id.
    pub harts: Seq<HartView>,
    /// The pid of the init process, once it exists.
    pub initproc: Option<usize>,
}

impl SchedView {
    /// A task with this pid exists.
    pub open spec fn live(self, pid: usize) -> bool {
        self.tasks.dom().contains(pid)
    }

    /// `hart` is the id of a hart.
    pub open spec fn is_hart(self, hart: int) -> bool {
        0 <= hart < self.harts.len()
    }

    /// The task bound to `hart`.
    pub open spec fn current(self, hart: int) -> Option<usize> {
        self.harts[hart].current
    }

    /// `pid` is bound to no hart.
    pub open spec fn unbound(self, pid: usize) -> bool {
        forall|h: int| 0 <= h < self.harts.len() ==> (#[trigger] self.harts[h]).current != Some(pid)
    }

    /// Entry `i` of the ready queue is a task that exists and is ready.
    pub open spec fn queued_ok(self, i: int) -> bool {
        &&& self.live(self.ready[i])
        &&& self.tasks[self.ready[i]].status is Ready
    }

    /// The task bound to hart `h`, if any, exists and is not queued, and it
    /// is running while the hart executes it.
    pub open spec fn hart_ok(self, h: int) -> bool {
        self.harts[h].current matches Some(pid) ==> {
            &&& self.live(pid)
            &&& !self.ready.contains(pid)
            &&& self.harts[h].in_task ==> self.tasks[pid].status is Running
        }
    }

    /// The links of task `pid` are in order: its parent is another task
    /// that exists and lists it as a child, each of its children exists and
    /// names it as parent, and no child is listed twice.
    pub open spec fn links_ok(self, pid: usize) -> bool {
        &&& self.tasks[pid].parent matches Some(parent) ==> self.live(parent) && parent != pid
            && self.tasks[parent].children.contains(pid)
        &&& forall|i: int|
            0 <= i < self.tasks[pid].children.len() ==> self.live(
                #[trigger] self.tasks[pid].children[i],
            ) && self.tasks[self.tasks[pid].children[i]].parent == Some(pid)
        &&& self.tasks[pid].children.no_duplicates()
    }

    /// The state is consistent.
    pub open spec fn wf(self) -> bool {
        &&& forall|i: int| 0 <= i < self.ready.len() ==> #[trigger] self.queued_ok(i)
        &&& self.ready.no_duplicates()
        &&& forall|h: int| 0 <= h < self.harts.len() ==> #[trigger] self.hart_ok(h)
        &&& forall|h1: int, h2: int|
            0 <= h1 < self.harts.len() && 0 <= h2 < self.harts.len() && h1 != h2 && (
            #[trigger] self.harts[h1]).current is Some ==> self.harts[h1].current != (
            #[trigger] self.harts[h2]).current
        &&& forall|pid: usize| self.live(pid) ==> #[trigger] self.links_ok(pid)
        &&& self.initproc matches Some(init) ==> self.live(init) && self.tasks[init].parent is None
    }

    /// The state with `task` as the task `pid`.
    pub open spec fn with_task(self, pid: usize, task: TaskView) -> SchedView {
        SchedView { tasks: self.tasks.insert(pid, task), ..self }
    }

    /// The state with `hart_view` as the hart `hart`.
    pub open spec fn with_hart(self, hart: int, hart_view: HartView) -> SchedView {
        SchedView { harts: self.harts.update(hart, hart_view), ..self }
    }

    /// The state with the task `pid` in status `status`.
    pub open spec fn with_status(self, pid: usize, status: TaskStatus) -> SchedView {
        self.with_task(pid, TaskView { status, ..self.tasks[pid] })
    }

    /// A task `pid` with the parent `parent` may be created: no task has
    /// this pid, and the parent exists.
    pub open spec fn can_create(self, pid: usize, parent: Option<usize>) -> bool {
        &&& !self.live(pid)
        &&& !self.ready.contains(pid)
        &&& self.unbound(pid)
        &&& parent matches Some(p) ==> self.live(p)
    }

    /// The state after the task `pid` was created as a child of `parent`
    /// and put at the tail of the ready queue: it is ready, has no
    /// children, and its saved context is `task_cx`.
    pub open spec fn create(self, pid: usize, parent: Option<usize>, task_cx: TaskContext) ->
        SchedView {
        let fresh = TaskView {
            status: TaskStatus::Ready,
            exit_code: 0,
            parent,
            children: Seq::empty(),
            task_cx,
        };
        let linked = match parent {
            Some(p) => self.tasks.insert(
                p,
                TaskView { children: self.tasks[p].children.push(pid), ..self.tasks[p] },
            ),
            None => self.tasks,
        };
        SchedView { tasks: linked.insert(pid, fresh), ready: self.ready.push(pid), ..self }
    }

    /// The zombies among the tasks `kids`, each with its exit code, in the
    /// order of `kids`.
    pub open spec fn zombies_among(self, kids: Seq<usize>) -> Seq<(usize, i32)>
        decreases kids.len(),
    {
        if kids.len() == 0 {
            Seq::empty()
        } else {
            let rest = self.zombies_among(kids.drop_last());
            let last = kids.last();
            if self.tasks[last].status is Zombie {
                rest.push((last, self.tasks[last].exit_code))
            } else {
                rest
            }
        }
    }

    /// `pid` may be put in the ready queue: it exists, is ready, and is
    /// neither queued nor bound to a hart.
    pub open spec fn can_add(self, pid: usize) -> bool {
        &&& self.live(pid)
        &&& self.tasks[pid].status is Ready
        &&& !self.ready.contains(pid)
        &&& self.unbound(pid)
    }

    /// The state after `pid` was put at the tail of the ready queue.
    pub open spec fn add_task(self, pid: usize) -> SchedView {
        SchedView { ready: self.ready.push(pid), ..self }
    }

    /// The task at the head of the ready queue, if the queue is not empty.
    pub open spec fn head(self) -> Option<usize> {
        if self.ready.len() > 0 {
            Some(self.ready[0])
        } else {
            None
        }
    }

    /// The state after the head of the ready queue was taken.
    pub open spec fn fetch_task(self) -> SchedView {
        if self.ready.len() > 0 {
            SchedView { ready: self.ready.drop_first(), ..self }
        } else {
            self
        }
    }

    /// The state after the task bound to `hart` was taken from it.
    pub open spec fn take_current(self, hart: int) -> SchedView {
        self.with_hart(hart, HartView { current: None, ..self.harts[hart] })
    }

    /// The state after `hart` switched from the running context, saved in
    /// `slot`, to its idle context.
    pub open spec fn schedule(self, hart: int, slot: ContextSlot) -> SchedView {
        let h = self.harts[hart];
        let saved = match slot {
            ContextSlot::Task(pid) => if self.live(pid) {
                self.with_task(pid, TaskView { task_cx: h.registers, ..self.tasks[pid] })
            } else {
                self
            },
            ContextSlot::Scratch => self,
        };
        saved.with_hart(hart, HartView { registers: h.idle_task_cx, in_task: false, ..h })
    }

    /// The state after the idle loop of `hart` let go of the task that
    /// switched back to it: the task leaves the hart and, if it is ready,
    /// goes to the tail of the ready queue.
    pub open spec fn release(self, hart: int) -> SchedView {
        match self.harts[hart].current {
            Some(pid) => {
                let taken = self.take_current(hart);
                if self.live(pid) && self.tasks[pid].status is Ready {
                    taken.add_task(pid)
                } else {
                    taken
                }
            },
            None => self,
        }
    }

    /// The state after the idle loop of `hart` took the head of the ready
    /// queue, bound it to the hart, marked it running and switched from the
    /// idle context to the saved context of the task. Nothing changes when
    /// the queue is empty.
    pub open spec fn dispatch(self, hart: int) -> SchedView {
        match self.head() {
            Some(pid) => {
                let h = self.harts[hart];
                self.fetch_task().with_status(pid, TaskStatus::Running).with_hart(
                    hart,
                    HartView {
                        current: Some(pid),
                        idle_task_cx: h.registers,
                        registers: self.tasks[pid].task_cx,
                        in_task: true,
                    },
                )
            },
            None => self,
        }
    }

    /// `hart` is in its idle loop.
    pub open spec fn can_run(self, hart: int) -> bool {
        &&& self.is_hart(hart)
        &&& !self.harts[hart].in_task
    }

    /// The state after one round of the idle loop of `hart`.
    pub open spec fn run_tasks(self, hart: int) -> SchedView {
        self.release(hart).dispatch(hart)
    }

    /// `hart` executes the task that is bound to it.
    pub open spec fn can_yield(self, hart: int) -> bool {
        &&& self.is_hart(hart)
        &&& self.harts[hart].in_task
        &&& self.harts[hart].current is Some
    }

    /// The state after the task on `hart` gave up the hart: it is ready, at
    /// the tail of the ready queue, its context is saved, and the hart is
    /// back in its idle loop.
    pub open spec fn suspend(self, hart: int) -> SchedView {
        let pid = self.harts[hart].current->0;
        self.take_current(hart).with_status(pid, TaskStatus::Ready).add_task(pid).schedule(
            hart,
            ContextSlot::Task(pid),
        )
    }

    /// The task on `hart` may exit: if it has children, there is an init
    /// process to take them, and it is not the task itself.
    pub open spec fn can_exit(self, hart: int) -> bool {
        &&& self.can_yield(hart)
        &&& self.tasks[self.harts[hart].current->0].children.len() > 0 ==> self.initproc is Some
            && self.initproc != self.harts[hart].current
    }

    /// The tasks after the task `pid` became a zombie with `exit_code` and
    /// the first `n` of its children were handed to `init`.
    pub open spec fn reparented(self, pid: usize, exit_code: i32, init: usize, n: int) -> Map<
        usize,
        TaskView,
    > {
        let kids = self.tasks[pid].children.subrange(0, n);
        Map::new(
            |q: usize| self.live(q),
            |q: usize|
                if q == pid {
                    TaskView { status: TaskStatus::Zombie, exit_code, ..self.tasks[q] }
                } else if kids.contains(q) {
                    TaskView { parent: Some(init), ..self.tasks[q] }
                } else if q == init {
                    TaskView { children: self.tasks[q].children + kids, ..self.tasks[q] }
                } else {
                    self.tasks[q]
                },
        )
    }

    /// The state after the task on `hart` ended with `exit_code`, before the
    /// hart leaves its context: the task is a zombie bound to no hart,
    /// every child of it is a child of the init process, behind the
    /// children the init process had, and it has no child left.
    pub open spec fn retire(self, hart: int, exit_code: i32) -> SchedView {
        let pid = self.harts[hart].current->0;
        let kids = self.tasks[pid].children;
        let init = if self.initproc is Some {
            self.initproc->0
        } else {
            pid
        };
        let moved = self.reparented(pid, exit_code, init, kids.len() as int);
        let tasks = moved.insert(pid, TaskView { children: Seq::empty(), ..moved[pid] });
        SchedView { tasks, ..self.take_current(hart) }
    }

    /// The state after the task on `hart` exited with `exit_code`: the task
    /// is retired, and the hart is back in its idle loop. The context the
    /// task ran in is saved nowhere.
    pub open spec fn exit(self, hart: int, exit_code: i32) -> SchedView {
        self.retire(hart, exit_code).schedule(hart, ContextSlot::Scratch)
    }
}

/// Putting a task that may be queued at the tail of the ready queue keeps
/// the state consistent.
pub proof fn law_add_task_keeps_wf(s: SchedView, pid: usize)
    requires
        s.wf(),
        s.can_add(pid),
    ensures
        s.add_task(pid).wf(),
{
    let t = s.add_task(pid);
    assert forall|i: int| 0 <= i < t.ready.len() implies #[trigger] t.queued_ok(i) by {
        if i < s.ready.len() {
            assert(s.queued_ok(i));
        }
    }
    assert forall|h: int| 0 <= h < t.harts.len() implies #[trigger] t.hart_ok(h) by {
        assert(s.hart_ok(h));
        if t.harts[h].current is Some {
            let q = t.harts[h].current->0;
            if t.ready.contains(q) {
                let i = choose|i: int| 0 <= i < t.ready.len() && t.ready[i] == q;
                if i < s.ready.len() {
                    assert(s.ready[i] == q);
                }
            }
        }
    }
    assert forall|q: usize| t.live(q) implies #[trigger] t.links_ok(q) by {
        assert(s.links_ok(q));
    }
    assert(t.ready.no_duplicates()) by {
        assert forall|i: int, j: int|
            0 <= i < t.ready.len() && 0 <= j < t.ready.len() && i != j implies t.ready[i]
            != t.ready[j] by {
            if i < s.ready.len() && j < s.ready.len() {
            } else if i < s.ready.len() {
                assert(s.ready.contains(s.ready[i]));
            } else {
                assert(s.ready.contains(s.ready[j]));
            }
        }
    }
}

/// Letting go of the task that switched back keeps the state consistent
/// and leaves the hart without a task.
pub proof fn law_release_keeps_wf(s: SchedView, hart: int)
    requires
        s.wf(),
        s.can_run(hart),
    ensures
        s.release(hart).wf(),
        s.release(hart).can_run(hart),
        s.release(hart).harts[hart].current is None,
{
    if s.harts[hart].current is Some {
        let pid = s.harts[hart].current->0;
        let t = s.take_current(hart);
        assert(s.hart_ok(hart));
        assert forall|h: int| 0 <= h < t.harts.len() implies #[trigger] t.hart_ok(h) by {
            assert(s.hart_ok(h));
        }
        assert forall|q: usize| t.live(q) implies #[trigger] t.links_ok(q) by {
            assert(s.links_ok(q));
        }
        assert forall|i: int| 0 <= i < t.ready.len() implies #[trigger] t.queued_ok(i) by {
            assert(s.queued_ok(i));
        }
        assert(t.wf());
        if s.tasks[pid].status is Ready {
            assert forall|h: int| 0 <= h < t.harts.len() implies (#[trigger] t.harts[h]).current
                != Some(pid) by {
                if h != hart {
                    assert(s.harts[hart].current != s.harts[h].current);
                }
            }
            law_add_task_keeps_wf(t, pid);
        }
    }
}

/// Taking the head of the ready queue onto a hart that has no task keeps
/// the state consistent.
pub proof fn law_dispatch_keeps_wf(s: SchedView, hart: int)
    requires
        s.wf(),
        s.can_run(hart),
        s.harts[hart].current is None,
    ensures
        s.dispatch(hart).wf(),
        s.head() matches Some(pid) ==> {
            &&& s.dispatch(hart).harts[hart].current == Some(pid)
            &&& s.dispatch(hart).harts[hart].registers == s.tasks[pid].task_cx
            &&& s.dispatch(hart).harts[hart].idle_task_cx == s.harts[hart].registers
            &&& s.dispatch(hart).tasks[pid].status is Running
            &&& s.dispatch(hart).can_yield(hart)
        },
        s.head() is None ==> s.dispatch(hart) == s,
{
    if s.ready.len() > 0 {
        let pid = s.ready[0];
        let t = s.dispatch(hart);
        assert(s.queued_ok(0));
        assert(s.ready.contains(pid));
        assert forall|i: int| 0 <= i < t.ready.len() implies #[trigger] t.queued_ok(i) by {
            assert(s.queued_ok(i + 1));
            assert(t.ready[i] == s.ready[i + 1]);
        }
        assert(t.ready.no_duplicates()) by {
            assert forall|i: int, j: int|
                0 <= i < t.ready.len() && 0 <= j < t.ready.len() && i != j implies t.ready[i]
                != t.ready[j] by {
                assert(t.ready[i] == s.ready[i + 1]);
                assert(t.ready[j] == s.ready[j + 1]);
            }
        }
        assert(!t.ready.contains(pid)) by {
            if t.ready.contains(pid) {
                let i = choose|i: int| 0 <= i < t.ready.len() && t.ready[i] == pid;
                assert(s.ready[i + 1] == pid);
            }
        }
        assert forall|h: int| 0 <= h < t.harts.len() implies #[trigger] t.hart_ok(h) by {
            assert(s.hart_ok(h));
            if h != hart && s.harts[h].current is Some {
                let q = s.harts[h].current->0;
                if t.ready.contains(q) {
                    let i = choose|i: int| 0 <= i < t.ready.len() && t.ready[i] == q;
                    assert(s.ready[i + 1] == q);
                    assert(s.ready.contains(q));
                }
            }
        }
        assert forall|h1: int, h2: int|
            0 <= h1 < t.harts.len() && 0 <= h2 < t.harts.len() && h1 != h2 && (
            #[trigger] t.harts[h1]).current is Some implies t.harts[h1].current != (
        #[trigger] t.harts[h2]).current by {
            assert(s.hart_ok(h1));
            assert(s.hart_ok(h2));
            if h1 != hart && h2 != hart {
                assert(s.harts[h1].current != s.harts[h2].current);
            }
        }
        assert forall|q: usize| t.live(q) implies #[trigger] t.links_ok(q) by {
            assert(s.links_ok(q));
        }
    }
}

/// One round of the idle loop keeps the state consistent. If a task was
/// queued, or the task that switched back is ready, the hart then executes
/// the task that was first in line.
pub proof fn law_run_tasks_keeps_wf(s: SchedView, hart: int)
    requires
        s.wf(),
        s.can_run(hart),
    ensures
        s.run_tasks(hart).wf(),
        s.release(hart).head() is Some ==> s.run_tasks(hart).can_yield(hart),
        s.release(hart).head() is None ==> s.run_tasks(hart).can_run(hart),
{
    law_release_keeps_wf(s, hart);
    law_dispatch_keeps_wf(s.release(hart), hart);
}

/// Switching to the idle context keeps the state consistent; the running
/// context is in the slot and the hart is in its idle loop.
pub proof fn law_schedule_keeps_wf(s: SchedView, hart: int, slot: ContextSlot)
    requires
        s.wf(),
        s.is_hart(hart),
    ensures
        s.schedule(hart, slot).wf(),
        s.schedule(hart, slot).can_run(hart),
        s.schedule(hart, slot).ready == s.ready,
        s.schedule(hart, slot).harts[hart].registers == s.harts[hart].idle_task_cx,
        slot matches ContextSlot::Task(pid) ==> s.live(pid) ==> s.schedule(
            hart,
            slot,
        ).tasks[pid].task_cx == s.harts[hart].registers,
{
    let t = s.schedule(hart, slot);
    assert forall|i: int| 0 <= i < t.ready.len() implies #[trigger] t.queued_ok(i) by {
        assert(s.queued_ok(i));
    }
    assert forall|h: int| 0 <= h < t.harts.len() implies #[trigger] t.hart_ok(h) by {
        assert(s.hart_ok(h));
    }
    assert forall|q: usize| t.live(q) implies #[trigger] t.links_ok(q) by {
        assert(s.links_ok(q));
        if s.tasks[q].parent is Some {
            assert(t.tasks[s.tasks[q].parent->0].children
                == s.tasks[s.tasks[q].parent->0].children);
        }
    }
}

/// Giving up the hart keeps the state consistent: the task is ready, last
/// in the queue, with the context it ran in saved, and the hart is in its
/// idle loop without a task.
pub proof fn law_suspend_keeps_wf(s: SchedView, hart: int)
    requires
        s.wf(),
        s.can_yield(hart),
    ensures
        s.suspend(hart).wf(),
        s.suspend(hart).can_run(hart),
        s.suspend(hart).harts[hart].current is None,
        s.suspend(hart).ready == s.ready.push(s.harts[hart].current->0),
        s.suspend(hart).tasks[s.harts[hart].current->0].status is Ready,
        s.suspend(hart).tasks[s.harts[hart].current->0].task_cx == s.harts[hart].registers,
{
    let pid = s.harts[hart].current->0;
    let a = s.take_current(hart);
    let b = a.with_status(pid, TaskStatus::Ready);
    assert(s.hart_ok(hart));
    assert forall|h: int| 0 <= h < b.harts.len() implies #[trigger] b.hart_ok(h) by {
        assert(s.hart_ok(h));
        if h != hart {
            assert(s.harts[hart].current != s.harts[h].current);
        }
    }
    assert forall|q: usize| b.live(q) implies #[trigger] b.links_ok(q) by {
        assert(s.links_ok(q));
        if s.tasks[q].parent is Some {
            assert(b.tasks[s.tasks[q].parent->0].children
                == s.tasks[s.tasks[q].parent->0].children);
        }
    }
    assert forall|i: int| 0 <= i < b.ready.len() implies #[trigger] b.queued_ok(i) by {
        assert(s.queued_ok(i));
        assert(s.ready.contains(s.ready[i]));
    }
    assert(b.wf());
    assert forall|h: int| 0 <= h < b.harts.len() implies (#[trigger] b.harts[h]).current != Some(
        pid,
    ) by {
        if h != hart {
            assert(s.harts[hart].current != s.harts[h].current);
        }
    }
    law_add_task_keeps_wf(b, pid);
    law_schedule_keeps_wf(b.add_task(pid), hart, ContextSlot::Task(pid));
}

/// An exit keeps the state consistent. Afterwards the task is a zombie
/// with its exit code, bound to no hart and without children; each of the
/// children it had has the init process as parent; the children of the
/// init process are those it had, followed by those of the task, none of
/// them twice; every other task is as it was; the ready queue is as it was
/// and the hart is in its idle loop.
pub proof fn law_exit_hands_children_to_init(s: SchedView, hart: int, exit_code: i32)
    requires
        s.wf(),
        s.can_exit(hart),
    ensures
        s.retire(hart, exit_code).wf(),
        s.exit(hart, exit_code).wf(),
        s.exit(hart, exit_code).can_run(hart),
        s.exit(hart, exit_code).harts[hart].current is None,
        s.exit(hart, exit_code).ready == s.ready,
        s.exit(hart, exit_code).tasks.dom() == s.tasks.dom(),
        ({
            let pid = s.harts[hart].current->0;
            let kids = s.tasks[pid].children;
            let t = s.exit(hart, exit_code);
            &&& t.tasks[pid].status is Zombie
            &&& t.tasks[pid].exit_code == exit_code
            &&& t.tasks[pid].children.len() == 0
            &&& t.tasks[pid].parent == s.tasks[pid].parent
            &&& forall|i: int| 0 <= i < kids.len()
                ==> (#[trigger] t.tasks[kids[i]]).parent == s.initproc
            &&& kids.len() > 0 ==> t.tasks[s.initproc->0].children
                == s.tasks[s.initproc->0].children
                + kids
            &&& kids.len() > 0 ==> t.tasks[s.initproc->0].children.no_duplicates()
            &&& forall|q: usize|
                s.live(q) && q != pid && !kids.contains(q) && Some(q) != s.initproc
                    ==> #[trigger] t.tasks[q]
                    == s.tasks[q]
        }),
{
    let pid = s.harts[hart].current->0;
    let kids = s.tasks[pid].children;
    let init = if s.initproc is Some {
        s.initproc->0
    } else {
        pid
    };
    let t = s.retire(hart, exit_code);
    assert(kids.subrange(0, kids.len() as int) =~= kids);
    assert(s.hart_ok(hart));
    assert(s.links_ok(pid));
    assert(t.tasks.dom() =~= s.tasks.dom());
    assert forall|i: int| 0 <= i < kids.len() implies kids.contains(kids[i]) && kids[i] != pid
        && kids[i] != init by {
        assert(s.tasks[kids[i]].parent == Some(pid));
        assert(s.links_ok(kids[i]));
    }
    assert forall|c: usize| kids.contains(c) implies s.live(c) && s.tasks[c].parent == Some(pid)
        && c != pid by {
        let i = choose|i: int| 0 <= i < kids.len() && kids[i] == c;
        assert(s.links_ok(c));
    }
    if kids.len() > 0 {
        assert(s.links_ok(init));
        let old_kids = s.tasks[init].children;
        let all = old_kids + kids;
        assert(t.tasks[init].children == all);
        assert(all.no_duplicates()) by {
            assert forall|i: int, j: int|
                0 <= i < all.len() && 0 <= j < all.len() && i != j implies all[i] != all[j] by {
                if i < old_kids.len() {
                    assert(s.tasks[old_kids[i]].parent == Some(init));
                } else {
                    assert(kids.contains(kids[i - old_kids.len()]));
                }
                if j < old_kids.len() {
                    assert(s.tasks[old_kids[j]].parent == Some(init));
                } else {
                    assert(kids.contains(kids[j - old_kids.len()]));
                }
            }
        }
    }
    assert forall|i: int| 0 <= i < t.ready.len() implies #[trigger] t.queued_ok(i) by {
        assert(s.queued_ok(i));
        assert(s.ready.contains(s.ready[i]));
    }
    assert forall|h: int| 0 <= h < t.harts.len() implies #[trigger] t.hart_ok(h) by {
        assert(s.hart_ok(h));
        if h != hart {
            assert(s.harts[hart].current != s.harts[h].current);
        }
    }
    assert forall|h1: int, h2: int|
        0 <= h1 < t.harts.len() && 0 <= h2 < t.harts.len() && h1 != h2 && (
        #[trigger] t.harts[h1]).current is Some implies t.harts[h1].current != (
    #[trigger] t.harts[h2]).current by {
        if h2 != hart {
            assert(s.harts[h1].current != s.harts[h2].current);
        }
    }
    assert forall|q: usize| t.live(q) implies #[trigger] t.links_ok(q) by {
        assert(s.links_ok(q));
        if t.tasks[q].parent is Some {
            let r = t.tasks[q].parent->0;
            if q != pid && kids.contains(q) {
                let i = choose|i: int| 0 <= i < kids.len() && kids[i] == q;
                assert(t.tasks[init].children[s.tasks[init].children.len() + i] == q);
            } else {
                assert(s.tasks[q].parent == Some(r));
                let i = choose|i: int|
                    0 <= i < s.tasks[r].children.len() && s.tasks[r].children[i] == q;
                if r == pid {
                    assert(kids.contains(q));
                } else if r == init && !kids.contains(r) {
                    assert(t.tasks[r].children[i] == q);
                } else {
                    assert(t.tasks[r].children == s.tasks[r].children);
                }
            }
        }
        assert forall|i: int| 0 <= i < t.tasks[q].children.len() implies t.live(
            #[trigger] t.tasks[q].children[i],
        ) && t.tasks[t.tasks[q].children[i]].parent == Some(q) by {
            let c = t.tasks[q].children[i];
            if q != pid && !kids.contains(q) && q == init {
                let old_kids = s.tasks[init].children;
                if i < old_kids.len() {
                    assert(s.live(old_kids[i]) && s.tasks[old_kids[i]].parent == Some(init));
                    if kids.contains(c) {
                    }
                } else {
                    assert(kids.contains(kids[i - old_kids.len()]));
                }
            } else {
                assert(s.live(s.tasks[q].children[i]) && s.tasks[s.tasks[q].children[i]].parent
                    == Some(q));
                if kids.contains(c) {
                }
            }
        }
    }
    law_schedule_keeps_wf(t, hart, ContextSlot::Scratch);
    assert(s.exit(hart, exit_code).tasks == t.tasks);
}

/// Handing one more child to the init process changes that child and the
/// init process, and no other task.
pub proof fn lemma_reparent_step(s: SchedView, pid: usize, exit_code: i32, init: usize, n: int)
    requires
        s.wf(),
        s.live(pid),
        s.live(init),
        init != pid,
        s.tasks[init].parent is None,
        0 <= n < s.tasks[pid].children.len(),
    ensures
        ({
            let before = s.reparented(pid, exit_code, init, n);
            let child = s.tasks[pid].children[n];
            &&& child != pid
            &&& child != init
            &&& s.live(child)
            &&& s.reparented(pid, exit_code, init, n + 1) == before.insert(
                child,
                TaskView { parent: Some(init), ..before[child] },
            ).insert(init, TaskView { children: before[init].children.push(child), ..before[init] })
        }),
{
    let kids = s.tasks[pid].children;
    let child = kids[n];
    let before = s.reparented(pid, exit_code, init, n);
    let after = s.reparented(pid, exit_code, init, n + 1);
    let a = kids.subrange(0, n);
    let b = kids.subrange(0, n + 1);
    assert(s.links_ok(pid));
    assert(s.tasks[child].parent == Some(pid));
    assert(s.links_ok(child));
    assert(b =~= a.push(child));
    assert(!a.contains(child)) by {
        if a.contains(child) {
            let i = choose|i: int| 0 <= i < a.len() && a[i] == child;
            assert(kids[i] == kids[n]);
        }
    }
    assert forall|q: usize| b.contains(q) == (a.contains(q) || q == child) by {
        if b.contains(q) {
            let i = choose|i: int| 0 <= i < b.len() && b[i] == q;
            if i < n {
                assert(a[i] == q);
            }
        }
        if a.contains(q) {
            let i = choose|i: int| 0 <= i < a.len() && a[i] == q;
            assert(b[i] == q);
        }
        assert(b[n] == child);
    }
    assert(!a.contains(init)) by {
        if a.contains(init) {
            let i = choose|i: int| 0 <= i < a.len() && a[i] == init;
            assert(s.tasks[kids[i]].parent == Some(pid));
        }
    }
    assert(s.tasks[init].children + b =~= (s.tasks[init].children + a).push(child));
    let stepped = before.insert(child, TaskView { parent: Some(init), ..before[child] }).insert(
        init,
        TaskView { children: before[init].children.push(child), ..before[init] },
    );
    assert(after =~= stepped);
}

/// Creating a task keeps the state consistent.
pub proof fn law_create_keeps_wf(
    s: SchedView, pid: usize, parent: Option<usize>, task_cx: TaskContext)
    requires
        s.wf(),
        s.can_create(pid, parent),
    ensures
        s.create(pid, parent, task_cx).wf(),
{
    let t = s.create(pid, parent, task_cx);
    assert forall|i: int| 0 <= i < t.ready.len() implies #[trigger] t.queued_ok(i) by {
        if i < s.ready.len() {
            assert(s.queued_ok(i));
        }
    }
    assert(t.ready.no_duplicates()) by {
        assert forall|i: int, j: int|
            0 <= i < t.ready.len() && 0 <= j < t.ready.len() && i != j implies t.ready[i]
            != t.ready[j] by {
            if i < s.ready.len() && j < s.ready.len() {
            } else if i < s.ready.len() {
                assert(s.ready.contains(s.ready[i]));
            } else {
                assert(s.ready.contains(s.ready[j]));
            }
        }
    }
    assert forall|h: int| 0 <= h < t.harts.len() implies #[trigger] t.hart_ok(h) by {
        assert(s.hart_ok(h));
        if t.harts[h].current is Some {
            let q = t.harts[h].current->0;
            if t.ready.contains(q) {
                let i = choose|i: int| 0 <= i < t.ready.len() && t.ready[i] == q;
                if i < s.ready.len() {
                    assert(s.ready[i] == q);
                }
            }
        }
    }
    assert forall|q: usize| t.live(q) implies #[trigger] t.links_ok(q) by {
        if q != pid {
            assert(s.links_ok(q));
            if s.tasks[q].parent is Some {
                let r = s.tasks[q].parent->0;
                let i = choose|i: int|
                    0 <= i < s.tasks[r].children.len() && s.tasks[r].children[i] == q;
                assert(t.tasks[r].children[i] == q);
            }
            if Some(q) == parent {
                let kids = s.tasks[q].children;
                let all = t.tasks[q].children;
                assert(all == kids.push(pid));
                assert forall|i: int, j: int|
                    0 <= i < all.len() && 0 <= j < all.len() && i != j implies all[i]
                    != all[j] by {
                    if i < kids.len() {
                        assert(s.live(kids[i]));
                    }
                    if j < kids.len() {
                        assert(s.live(kids[j]));
                    }
                }
                assert forall|i: int| 0 <= i < all.len() implies t.live(#[trigger] all[i])
                    && t.tasks[all[i]].parent == Some(q) by {
                    if i < kids.len() {
                        assert(s.live(kids[i]) && s.tasks[kids[i]].parent == Some(q));
                    }
                }
            } else {
                assert forall|i: int| 0 <= i < t.tasks[q].children.len() implies t.live(
                    #[trigger] t.tasks[q].children[i],
                ) && t.tasks[t.tasks[q].children[i]].parent == Some(q) by {
                    assert(s.live(s.tasks[q].children[i]));
                }
            }
        } else {
            if parent is Some {
                let p = parent->0;
                assert(t.tasks[p].children[s.tasks[p].children.len() as int] == pid);
            }
        }
    }
}

/// One operation of the scheduler.
pub enum SchedOp {
    /// One round of the idle loop of a hart.
    RunTasks { hart: int },
    /// The task on a hart gives up the hart.
    Suspend { hart: int },
    /// The task on a hart exits with a code.
    Exit { hart: int, exit_code: i32 },
    /// A hart switches to its idle loop, saving its context in the slot.
    Schedule { hart: int, slot: ContextSlot },
    /// A task is put at the tail of the ready queue.
    AddTask { pid: usize },
    /// The task bound to a hart is taken from it.
    TakeCurrent { hart: int },
    /// A task is created.
    Create { pid: usize, parent: Option<usize>, task_cx: TaskContext },
}

impl SchedView {
    /// The operation `op` may be performed in this state. A hart that
    /// switches to its idle loop saves its context in the task that is
    /// bound to it, or nowhere.
    pub open spec fn enabled(self, op: SchedOp) -> bool {
        match op {
            SchedOp::RunTasks { hart } => self.can_run(hart),
            SchedOp::Suspend { hart } => self.can_yield(hart),
            SchedOp::Exit { hart, exit_code } => self.can_exit(hart),
            SchedOp::Schedule { hart, slot } => self.is_hart(hart) && self.harts[hart].in_task
                && match slot {
                ContextSlot::Task(pid) => self.harts[hart].current == Some(pid),
                ContextSlot::Scratch => true,
            },
            SchedOp::AddTask { pid } => self.can_add(pid),
            SchedOp::TakeCurrent { hart } => self.is_hart(hart),
            SchedOp::Create { pid, parent, task_cx } => self.can_create(pid, parent),
        }
    }

    /// The state after the operation `op`.
    pub open spec fn apply(self, op: SchedOp) -> SchedView {
        match op {
            SchedOp::RunTasks { hart } => self.run_tasks(hart),
            SchedOp::Suspend { hart } => self.suspend(hart),
            SchedOp::Exit { hart, exit_code } => self.exit(hart, exit_code),
            SchedOp::Schedule { hart, slot } => self.schedule(hart, slot),
            SchedOp::AddTask { pid } => self.add_task(pid),
            SchedOp::TakeCurrent { hart } => self.take_current(hart),
            SchedOp::Create { pid, parent, task_cx } => self.create(pid, parent, task_cx),
        }
    }

    /// The state after the operations of `ops`, first to last.
    pub open spec fn run(self, ops: Seq<SchedOp>) -> SchedView
        decreases ops.len(),
    {
        if ops.len() == 0 {
            self
        } else {
            self.run(ops.drop_last()).apply(ops.last())
        }
    }

    /// Each operation of `ops` may be performed in the state that the
    /// operations before it lead to.
    pub open spec fn all_enabled(self, ops: Seq<SchedOp>) -> bool
        decreases ops.len(),
    {
        ops.len() > 0 ==> self.all_enabled(ops.drop_last()) && self.run(ops.drop_last()).enabled(
            ops.last(),
        )
    }

    /// The task `pid` exists and is ready in this state and after each
    /// operation of `ops`.
    pub open spec fn stays_ready(self, ops: Seq<SchedOp>, pid: usize) -> bool
        decreases ops.len(),
    {
        &&& self.run(ops).live(pid)
        &&& self.run(ops).tasks[pid].status is Ready
        &&& ops.len() > 0 ==> self.stays_ready(ops.drop_last(), pid)
    }
}

/// Taking the task from a hart keeps the state consistent.
pub proof fn law_take_current_keeps_wf(s: SchedView, hart: int)
    requires
        s.wf(),
        s.is_hart(hart),
    ensures
        s.take_current(hart).wf(),
{
    let t = s.take_current(hart);
    assert forall|h: int| 0 <= h < t.harts.len() implies #[trigger] t.hart_ok(h) by {
        assert(s.hart_ok(h));
    }
    assert forall|q: usize| t.live(q) implies #[trigger] t.links_ok(q) by {
        assert(s.links_ok(q));
    }
    assert forall|i: int| 0 <= i < t.ready.len() implies #[trigger] t.queued_ok(i) by {
        assert(s.queued_ok(i));
    }
}

/// Every operation that may be performed keeps the state consistent.
pub proof fn law_every_step_keeps_wf(s: SchedView, op: SchedOp)
    requires
        s.wf(),
        s.enabled(op),
    ensures
        s.apply(op).wf(),
{
    match op {
        SchedOp::RunTasks { hart } => law_run_tasks_keeps_wf(s, hart),
        SchedOp::Suspend { hart } => law_suspend_keeps_wf(s, hart),
        SchedOp::Exit { hart, exit_code } => law_exit_hands_children_to_init(s, hart, exit_code),
        SchedOp::Schedule { hart, slot } => law_schedule_keeps_wf(s, hart, slot),
        SchedOp::AddTask { pid } => law_add_task_keeps_wf(s, pid),
        SchedOp::TakeCurrent { hart } => law_take_current_keeps_wf(s, hart),
        SchedOp::Create { pid, parent, task_cx } => law_create_keeps_wf(s, pid, parent, task_cx),
    }
}

/// Every sequence of operations, each of which may be performed when its
/// turn comes, keeps the state consistent, on whichever harts and in
/// whichever order the operations happen.
pub proof fn law_every_run_keeps_wf(s: SchedView, ops: Seq<SchedOp>)
    requires
        s.wf(),
        s.all_enabled(ops),
    ensures
        s.run(ops).wf(),
    decreases ops.len(),
{
    if ops.len() > 0 {
        law_every_run_keeps_wf(s, ops.drop_last());
        law_every_step_keeps_wf(s.run(ops.drop_last()), ops.last());
    }
}

/// Whatever the harts did before, in whichever order: when a task exits,
/// each of its children gets the init process as parent, and the children
/// of the init process are those it had, followed by those of the task,
/// none of them twice.
pub proof fn law_exit_after_any_run(s: SchedView, ops: Seq<SchedOp>, hart: int, exit_code: i32)
    requires
        s.wf(),
        s.all_enabled(ops),
        s.run(ops).can_exit(hart),
    ensures
        s.run(ops).exit(hart, exit_code).wf(),
        ({
            let before = s.run(ops);
            let after = before.exit(hart, exit_code);
            let pid = before.harts[hart].current->0;
            let kids = before.tasks[pid].children;
            &&& after.tasks[pid].status is Zombie
            &&& after.tasks[pid].exit_code == exit_code
            &&& after.tasks[pid].children.len() == 0
            &&& forall|i: int|
                0 <= i < kids.len() ==> (#[trigger] after.tasks[kids[i]]).parent
                    == before.initproc
            &&& kids.len() > 0 ==> after.tasks[before.initproc->0].children
                == before.tasks[before.initproc->0].children + kids
            &&& kids.len() > 0 ==> after.tasks[before.initproc->0].children.no_duplicates()
        }),
{
    law_every_run_keeps_wf(s, ops);
    law_exit_hands_children_to_init(s.run(ops), hart, exit_code);
}

/// An operation leaves the saved context of a task as it is, if the task
/// is ready before the operation and after it.
pub proof fn law_step_keeps_saved_context(s: SchedView, op: SchedOp, pid: usize)
    requires
        s.wf(),
        s.enabled(op),
        s.live(pid),
        s.tasks[pid].status is Ready,
        s.apply(op).tasks[pid].status is Ready,
    ensures
        s.apply(op).live(pid),
        s.apply(op).tasks[pid].task_cx == s.tasks[pid].task_cx,
{
    match op {
        SchedOp::RunTasks { hart } => {
            law_release_keeps_wf(s, hart);
        },
        SchedOp::Suspend { hart } => {
            assert(s.hart_ok(hart));
        },
        SchedOp::Exit { hart, exit_code } => {
            assert(s.hart_ok(hart));
            law_exit_hands_children_to_init(s, hart, exit_code);
        },
        SchedOp::Schedule { hart, slot } => {
            assert(s.hart_ok(hart));
        },
        SchedOp::AddTask { pid } => {},
        SchedOp::TakeCurrent { hart } => {},
        SchedOp::Create { pid, parent, task_cx } => {},
    }
}

/// Whatever happens in between, a task that stays ready keeps its saved
/// context.
pub proof fn law_run_keeps_saved_context(s: SchedView, ops: Seq<SchedOp>, pid: usize)
    requires
        s.wf(),
        s.all_enabled(ops),
        s.stays_ready(ops, pid),
    ensures
        s.live(pid),
        s.run(ops).live(pid),
        s.run(ops).tasks[pid].task_cx == s.tasks[pid].task_cx,
    decreases ops.len(),
{
    if ops.len() > 0 {
        let before = s.run(ops.drop_last());
        law_run_keeps_saved_context(s, ops.drop_last(), pid);
        law_every_run_keeps_wf(s, ops.drop_last());
        law_step_keeps_saved_context(before, ops.last(), pid);
    }
}

/// The round trip of a context. A task gives up its hart, which saves the
/// context it ran in. Other operations follow, on any harts, during which
/// the task stays ready. When an idle loop then finds the task first in
/// line, the hart that takes it executes in exactly the context that was
/// saved, and the task is running on that hart.
pub proof fn law_context_round_trip(s: SchedView, hart: int, ops: Seq<SchedOp>, next: int)
    requires
        s.wf(),
        s.can_yield(hart),
        s.suspend(hart).all_enabled(ops),
        s.suspend(hart).stays_ready(ops, s.harts[hart].current->0),
        s.suspend(hart).run(ops).can_run(next),
        s.suspend(hart).run(ops).release(next).head() == s.harts[hart].current,
    ensures
        s.suspend(hart).run(ops).run_tasks(next).wf(),
        s.suspend(hart).run(ops).run_tasks(next).harts[next].registers == s.harts[hart].registers,
        s.suspend(hart).run(ops).run_tasks(next).harts[next].current == s.harts[hart].current,
        s.suspend(hart).run(ops).run_tasks(next).tasks[s.harts[hart].current->0].status is Running,
        s.suspend(hart).run(ops).run_tasks(next).harts[next].in_task,
{
    let pid = s.harts[hart].current->0;
    let suspended = s.suspend(hart);
    law_suspend_keeps_wf(s, hart);
    law_every_run_keeps_wf(suspended, ops);
    law_run_keeps_saved_context(suspended, ops, pid);
    let later = suspended.run(ops);
    law_release_keeps_wf(later, next);
    let released = later.release(next);
    assert(released.tasks == later.tasks);
    law_dispatch_keeps_wf(released, next);
}

/// The ready queue is first in, first out: an operation moves a queued
/// task one place towards the head when an idle loop takes the head, and
/// leaves it in its place otherwise. The task at the head leaves the queue
/// only onto a hart.
pub proof fn law_ready_queue_is_fifo(s: SchedView, op: SchedOp, place: int)
    requires
        s.wf(),
        s.enabled(op),
        0 <= place < s.ready.len(),
    ensures
        match op {
            SchedOp::RunTasks { hart } => if place == 0 {
                s.apply(op).harts[hart].current == Some(s.ready[0])
            } else {
                s.apply(op).ready[place - 1] == s.ready[place]
            },
            _ => place < s.apply(op).ready.len() && s.apply(op).ready[place] == s.ready[place],
        },
{
    match op {
        SchedOp::RunTasks { hart } => {
            law_release_keeps_wf(s, hart);
            let released = s.release(hart);
            assert(released.ready[place] == s.ready[place]);
            law_dispatch_keeps_wf(released, hart);
        },
        SchedOp::Exit { hart, exit_code } => {
            law_exit_hands_children_to_init(s, hart, exit_code);
        },
        _ => {},
    }
}

} // verus!
