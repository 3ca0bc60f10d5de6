//! The boot barrier.
//!
//! Every hart enters the kernel at the same place. One of them, the control
//! hart, sets up what all harts share; the others wait for it. Then each
//! hart sets itself up, and none goes on to the scheduler before all of
//! them have done so.

use vstd::prelude::*;

verus! {

/// What the harts share while they boot.
#[derive(Clone, Copy, Debug, PartialEq, Eq, Structural)]
pub struct BootBarrier {
    /// Set by the hart that claimed the role of control hart.
    pub claimed: bool,
    /// Set once the global initialisation is complete.
    pub global_init: bool,
    /// Number of harts that completed their own initialisation.
    pub booted: usize,
    /// Number of harts the machine boots with.
    pub harts: usize,
}

/// Where a hart is in its boot sequence.
#[derive(Clone, Copy, Debug, PartialEq, Eq, Structural)]
pub enum BootStage {
    /// The hart entered the kernel.
    Entered,
    /// The hart is the control hart and performs the global initialisation.
    GlobalInit,
    /// The hart waits for the global initialisation.
    AwaitGlobalInit,
    /// The hart performs its own initialisation.
    LocalInit,
    /// The hart waits for the other harts.
    AwaitAllBooted,
    /// The hart runs the scheduler.
    Scheduling,
}

/// What a hart does next.
#[derive(Clone, Copy, Debug, PartialEq, Eq, Structural)]
pub enum BootAction {
    /// Perform the global initialisation, then step again.
    InitGlobal,
    /// Perform the initialisation of this hart, then step again.
    InitLocal,
    /// Nothing to do yet: step again.
    Spin,
    /// Enter the idle loop of the scheduler.
    RunTasks,
}

impl BootBarrier {
    /// The barrier after the next step of a hart in `stage`.
    pub open spec fn step(self, stage: BootStage) -> BootBarrier {
        match stage {
            BootStage::Entered => BootBarrier { claimed: true, ..self },
            BootStage::GlobalInit => BootBarrier { global_init: true, ..self },
            BootStage::LocalInit => BootBarrier {
                booted: if self.booted == usize::MAX {
                    0
                } else {
                    (self.booted + 1) as usize
                },
                ..self
            },
            _ => self,
        }
    }

    /// The stage that follows `stage`.
    pub open spec fn next_stage(self, stage: BootStage) -> BootStage {
        match stage {
            BootStage::Entered => if self.claimed {
                BootStage::AwaitGlobalInit
            } else {
                BootStage::GlobalInit
            },
            BootStage::GlobalInit => BootStage::AwaitGlobalInit,
            BootStage::AwaitGlobalInit => if self.global_init {
                BootStage::LocalInit
            } else {
                BootStage::AwaitGlobalInit
            },
            BootStage::LocalInit => BootStage::AwaitAllBooted,
            BootStage::AwaitAllBooted => if self.booted == self.harts {
                BootStage::Scheduling
            } else {
                BootStage::AwaitAllBooted
            },
            BootStage::Scheduling => BootStage::Scheduling,
        }
    }

    /// What a hart that enters `stage` does before it steps again.
    pub open spec fn action(stage: BootStage) -> BootAction {
        match stage {
            BootStage::GlobalInit => BootAction::InitGlobal,
            BootStage::LocalInit => BootAction::InitLocal,
            BootStage::Scheduling => BootAction::RunTasks,
            _ => BootAction::Spin,
        }
    }

    /// The barrier of a machine with `harts` harts, none of which has
    /// entered the kernel.
    pub fn new(harts: usize) -> (r: BootBarrier)
        ensures
            r == (BootBarrier { claimed: false, global_init: false, booted: 0, harts }),
    {
        BootBarrier { claimed: false, global_init: false, booted: 0, harts }
    }

    /// Claims the role of control hart. Exactly the first claim succeeds.
    pub fn claim_control(&mut self) -> (won: bool)
        ensures
            won == !old(self).claimed,
            *final(self) == (BootBarrier { claimed: true, ..*old(self) }),
    {
        let won = !self.claimed;
        self.claimed = true;
        won
    }
}

/// Marks the global initialisation as complete.
pub fn finish_global_init(barrier: &mut BootBarrier)
    ensures
        *final(barrier) == (BootBarrier { global_init: true, ..*old(barrier) }),
{
    barrier.global_init = true;
}

/// Whether the wait for the global initialisation is over. A hart calls
/// this again and again until it is.
pub fn wait_global_init(barrier: &BootBarrier) -> (done: bool)
    ensures
        done == barrier.global_init,
{
    barrier.global_init
}

/// Counts one more hart as booted. The count wraps at the largest number.
pub fn boot_finish(barrier: &mut BootBarrier)
    ensures
        *final(barrier) == old(barrier).step(BootStage::LocalInit),
{
    barrier.booted = if barrier.booted == usize::MAX {
        0
    } else {
        barrier.booted + 1
    };
}

/// Whether the wait for the other harts is over: as many harts are booted
/// as the machine has. A hart calls this again and again until it is.
pub fn wait_all_booted(barrier: &BootBarrier) -> (done: bool)
    ensures
        done == (barrier.booted == barrier.harts),
{
    barrier.booted == barrier.harts
}

/// One step of the boot sequence of a hart that is in `stage`. Returns the
/// stage the hart is in now, and what it does before its next step.
///
/// The hart that claims the role of control hart performs the global
/// initialisation and marks it complete. Every hart waits for that, then
/// performs its own initialisation, counts itself as booted, waits until
/// all harts are booted, and runs the scheduler from then on.
pub fn rust_main(barrier: &mut BootBarrier, stage: BootStage) -> (r: (BootStage, BootAction))
    ensures
        r.0 == old(barrier).next_stage(stage),
        r.1 == BootBarrier::action(r.0),
        *final(barrier) == old(barrier).step(stage),
{
    let next = match stage {
        BootStage::Entered => {
            if barrier.claim_control() {
                BootStage::GlobalInit
            } else {
                BootStage::AwaitGlobalInit
            }
        },
        BootStage::GlobalInit => {
            finish_global_init(barrier);
            BootStage::AwaitGlobalInit
        },
        BootStage::AwaitGlobalInit => {
            if wait_global_init(barrier) {
                BootStage::LocalInit
            } else {
                BootStage::AwaitGlobalInit
            }
        },
        BootStage::LocalInit => {
            boot_finish(barrier);
            BootStage::AwaitAllBooted
        },
        BootStage::AwaitAllBooted => {
            if wait_all_booted(barrier) {
                BootStage::Scheduling
            } else {
                BootStage::AwaitAllBooted
            }
        },
        BootStage::Scheduling => BootStage::Scheduling,
    };
    let action = match next {
        BootStage::GlobalInit => BootAction::InitGlobal,
        BootStage::LocalInit => BootAction::InitLocal,
        BootStage::Scheduling => BootAction::RunTasks,
        _ => BootAction::Spin,
    };
    (next, action)
}

/// A machine while it boots: the barrier, and the stage of each hart.
pub struct BootState {
    pub barrier: BootBarrier,
    pub stages: Seq<BootStage>,
}

/// A hart in `stage` has completed its own initialisation.
pub open spec fn is_booted(stage: BootStage) -> bool {
    stage is AwaitAllBooted || stage is Scheduling
}

/// Number of harts of `stages` that have completed their own
/// initialisation.
pub open spec fn booted_count(stages: Seq<BootStage>) -> nat
    decreases stages.len(),
{
    if stages.len() == 0 {
        0
    } else {
        booted_count(stages.drop_last()) + if is_booted(stages.last()) {
            1nat
        } else {
            0nat
        }
    }
}

/// Number of harts of `stages` that perform the global initialisation.
pub open spec fn control_count(stages: Seq<BootStage>) -> nat
    decreases stages.len(),
{
    if stages.len() == 0 {
        0
    } else {
        control_count(stages.drop_last()) + if stages.last() is GlobalInit {
            1nat
        } else {
            0nat
        }
    }
}

impl BootState {
    /// The machine after the hart `hart` took its next step.
    pub open spec fn step(self, hart: int) -> BootState {
        BootState {
            barrier: self.barrier.step(self.stages[hart]),
            stages: self.stages.update(hart, self.barrier.next_stage(self.stages[hart])),
        }
    }

    /// The machine as it is when the harts enter the kernel.
    pub open spec fn initial(harts: usize) -> BootState {
        BootState {
            barrier: BootBarrier { claimed: false, global_init: false, booted: 0, harts },
            stages: Seq::new(harts as nat, |h: int| BootStage::Entered),
        }
    }

    /// What holds of a booting machine at all times: the barrier counts
    /// the harts that are booted; before the role of control hart is
    /// claimed every hart is where it entered; at most one hart performs
    /// the global initialisation, and none once it is complete; a hart is
    /// past the wait for the global initialisation only if that is
    /// complete; and a hart runs the scheduler only if the barrier counts
    /// all harts.
    pub open spec fn inv(self) -> bool {
        &&& self.stages.len() == self.barrier.harts
        &&& self.barrier.booted == booted_count(self.stages)
        &&& !self.barrier.claimed ==> forall|h: int|
            0 <= h < self.stages.len() ==> (#[trigger] self.stages[h]) is Entered
        &&& control_count(self.stages) <= 1
        &&& self.barrier.global_init ==> self.barrier.claimed && control_count(self.stages) == 0
        &&& forall|h: int|
            0 <= h < self.stages.len() ==> ((#[trigger] self.stages[h]) is LocalInit || is_booted(
                self.stages[h],
            )) ==> self.barrier.global_init
        &&& forall|h: int|
            0 <= h < self.stages.len() ==> (#[trigger] self.stages[h]) is Scheduling
                ==> self.barrier.booted == self.barrier.harts
    }
}

/// Changing the stage of one hart changes the counts by that hart alone.
pub proof fn lemma_counts_after_update(stages: Seq<BootStage>, hart: int, stage: BootStage)
    requires
        0 <= hart < stages.len(),
    ensures
        booted_count(stages.update(hart, stage)) + (if is_booted(stages[hart]) {
            1nat
        } else {
            0nat
        }) == booted_count(stages) + (if is_booted(stage) {
            1nat
        } else {
            0nat
        }),
        control_count(stages.update(hart, stage)) + (if stages[hart] is GlobalInit {
            1nat
        } else {
            0nat
        }) == control_count(stages) + (if stage is GlobalInit {
            1nat
        } else {
            0nat
        }),
        booted_count(stages) <= stages.len(),
        control_count(stages) <= stages.len(),
    decreases stages.len(),
{
    let updated = stages.update(hart, stage);
    if hart == stages.len() - 1 {
        assert(updated.drop_last() =~= stages.drop_last());
        lemma_counts_bounded(stages.drop_last());
    } else {
        assert(updated.drop_last() =~= stages.drop_last().update(hart, stage));
        lemma_counts_after_update(stages.drop_last(), hart, stage);
    }
}

/// No more harts are counted than there are; if all are counted as
/// booted, each of them is booted; if none performs the global
/// initialisation, no hart is in that stage.
pub proof fn lemma_counts_bounded(stages: Seq<BootStage>)
    ensures
        booted_count(stages) <= stages.len(),
        control_count(stages) <= stages.len(),
        booted_count(stages) == stages.len() ==> forall|h: int|
            0 <= h < stages.len() ==> is_booted(#[trigger] stages[h]),
        control_count(stages) == 0 ==> forall|h: int|
            0 <= h < stages.len() ==> !((#[trigger] stages[h]) is GlobalInit),
        (forall|h: int| 0 <= h < stages.len() ==> (#[trigger] stages[h]) is Entered)
            ==> booted_count(stages) == 0 && control_count(stages) == 0,
    decreases stages.len(),
{
    if stages.len() > 0 {
        lemma_counts_bounded(stages.drop_last());
        assert forall|h: int| 0 <= h < stages.len() - 1 implies stages.drop_last()[h]
            == stages[h] by {}
        if booted_count(stages) == stages.len() {
            assert forall|h: int| 0 <= h < stages.len() implies is_booted(#[trigger] stages[h]) by {
                if h < stages.len() - 1 {
                    assert(stages.drop_last()[h] == stages[h]);
                }
            }
        }
        if control_count(stages) == 0 {
            assert forall|h: int| 0 <= h < stages.len() implies !((
            #[trigger] stages[h]) is GlobalInit) by {
                if h < stages.len() - 1 {
                    assert(stages.drop_last()[h] == stages[h]);
                }
            }
        }
        if forall|h: int| 0 <= h < stages.len() ==> (#[trigger] stages[h]) is Entered {
            assert forall|h: int| 0 <= h < stages.len() - 1 implies (
            #[trigger] stages.drop_last()[h]) is Entered by {
                assert(stages[h] is Entered);
            }
        }
    }
}

/// The machine is in order when the harts enter the kernel.
pub proof fn law_boot_starts_in_order(harts: usize)
    ensures
        BootState::initial(harts).inv(),
{
    lemma_counts_bounded(BootState::initial(harts).stages);
}

/// Every step of every hart keeps the machine in order, in whichever order
/// the harts take their steps.
pub proof fn law_boot_step_keeps_order(state: BootState, hart: int)
    requires
        state.inv(),
        0 <= hart < state.stages.len(),
    ensures
        state.step(hart).inv(),
{
    let stage = state.stages[hart];
    let next = state.barrier.next_stage(stage);
    let after = state.step(hart);
    lemma_counts_after_update(state.stages, hart, next);
    lemma_counts_bounded(state.stages);
    assert(state.stages[hart] == stage);
    assert(after.stages[hart] == next);
    assert forall|h: int| 0 <= h < after.stages.len() && h != hart implies
        #[trigger] after.stages[h]
        == state.stages[h] by {}
    if stage is LocalInit {
        assert(!is_booted(stage));
        assert(booted_count(state.stages) < state.stages.len()) by {
            if booted_count(state.stages) == state.stages.len() {
                assert(is_booted(state.stages[hart]));
            }
        }
    }
    if stage is Entered && state.barrier.claimed {
        assert(next is AwaitGlobalInit);
    }
    if stage is Entered && !state.barrier.claimed {
        assert(control_count(state.stages) == 0);
        assert(!state.barrier.global_init);
    }
    assert(after.barrier.booted == booted_count(after.stages));
    assert(control_count(after.stages) <= 1);
    assert(after.barrier.global_init ==> control_count(after.stages) == 0) by {
        if after.barrier.global_init {
            if stage is GlobalInit {
                assert(control_count(state.stages) == 1);
            } else {
                if state.barrier.global_init {
                } else {
                    assert(false);
                }
            }
        }
    }
    assert forall|h: int|
        0 <= h < after.stages.len() && ((#[trigger] after.stages[h]) is LocalInit || is_booted(
            after.stages[h],
        )) implies after.barrier.global_init by {
        if h != hart {
            assert(after.stages[h] == state.stages[h]);
        } else {
            if stage is LocalInit || is_booted(stage) {
                assert(state.stages[hart] is LocalInit || is_booted(state.stages[hart]));
            }
        }
    }
    assert forall|h: int|
        0 <= h < after.stages.len() && (#[trigger] after.stages[h]) is Scheduling implies
            after.barrier.booted
        == after.barrier.harts by {
        if h != hart {
            assert(after.stages[h] == state.stages[h]);
            assert(state.barrier.booted == state.barrier.harts);
            if stage is LocalInit {
                assert(booted_count(state.stages) == state.stages.len());
            }
        } else {
            if stage is Scheduling {
                assert(state.stages[hart] is Scheduling);
            }
        }
    }
    if !after.barrier.claimed {
        assert forall|h: int| 0 <= h < after.stages.len() implies (
        #[trigger] after.stages[h]) is Entered by {
            assert(state.stages[h] is Entered);
        }
    }
}

/// The barrier holds: when a hart runs the scheduler, every hart has
/// completed its own initialisation, and the global initialisation is
/// complete. The global initialisation is performed by at most one hart at
/// a time, and by none once it is complete.
pub proof fn law_no_hart_schedules_early(state: BootState, hart: int)
    requires
        state.inv(),
        0 <= hart < state.stages.len(),
        state.stages[hart] is Scheduling,
    ensures
        state.barrier.global_init,
        control_count(state.stages) == 0,
        forall|h: int| 0 <= h < state.stages.len() ==> is_booted(#[trigger] state.stages[h]),
{
    lemma_counts_bounded(state.stages);
}

} // verus!
