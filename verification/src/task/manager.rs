//! The ready queue.

use vstd::prelude::*;
use std::collections::VecDeque;
use crate::kernel::{lemma_kept_resources, Kernel};
use crate::task::model::law_add_task_keeps_wf;

verus! {

/// The queue of the tasks that are ready to run, first in, first out.
#[derive(Debug)]
pub struct TaskManager {
    pub ready_queue: VecDeque<usize>,
}

impl TaskManager {
    /// An empty queue.
    pub fn new() -> (r: TaskManager)
        ensures
            r.ready_queue@ == Seq::<usize>::empty(),
    {
        TaskManager { ready_queue: VecDeque::new() }
    }

    /// Puts `pid` at the tail.
    pub fn add(&mut self, pid: usize)
        ensures
            final(self).ready_queue@ == old(self).ready_queue@.push(pid),
    {
        self.ready_queue.push_back(pid);
    }

    /// Takes the head, or `None` when the queue is empty.
    pub fn fetch(&mut self) -> (r: Option<usize>)
        ensures
            r == if old(self).ready_queue@.len() > 0 {
                Some(old(self).ready_queue@[0])
            } else {
                None
            },
            final(self).ready_queue@ == if old(self).ready_queue@.len() > 0 {
                old(self).ready_queue@.drop_first()
            } else {
                old(self).ready_queue@
            },
    {
        let r = self.ready_queue.pop_front();
        proof {
            if old(self).ready_queue@.len() > 0 {
                assert(self.ready_queue@ =~= old(self).ready_queue@.drop_first());
            }
        }
        r
    }
}

/// Puts the task `pid` at the tail of the ready queue.
pub fn add_task(kernel: &mut Kernel, pid: usize)
    requires
        old(kernel).wf(),
        old(kernel)@.can_add(pid),
    ensures
        final(kernel).wf(),
        final(kernel)@ == old(kernel)@.add_task(pid),
        final(kernel).same_resources(old(kernel)),
{
    kernel.manager.add(pid);
    proof {
        law_add_task_keeps_wf(old(kernel)@, pid);
        assert(kernel@ =~= old(kernel)@.add_task(pid));
        assert forall|q: usize| old(kernel)@.live(q) implies #[trigger] kernel.task_kept(
            old(kernel),
            q,
        ) by {}
        assert forall|q: usize| kernel@.live(q) == old(kernel)@.live(q) by {}
        lemma_kept_resources(*old(kernel), *kernel);
    }
}

/// Takes the task at the head of the ready queue. `None` means that no
/// task is ready on any hart.
pub fn fetch_task(kernel: &mut Kernel) -> (r: Option<usize>)
    requires
        old(kernel).wf(),
    ensures
        r == old(kernel)@.head(),
        final(kernel)@ == old(kernel)@.fetch_task(),
        final(kernel).same_resources(old(kernel)),
        final(kernel).resources_wf(),
{
    let r = kernel.manager.fetch();
    proof {
        assert(kernel@ =~= old(kernel)@.fetch_task());
        assert forall|q: usize| old(kernel)@.live(q) implies #[trigger] kernel.task_kept(
            old(kernel),
            q,
        ) by {}
        assert forall|q: usize| kernel@.live(q) == old(kernel)@.live(q) by {}
        lemma_kept_resources(*old(kernel), *kernel);
    }
    r
}

} // verus!
