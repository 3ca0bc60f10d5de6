//! The scheduling and address-space core of a small multi-hart kernel,
//! with its behaviour stated in contracts and proved.
//!
//! The core is a model that runs: all state that the harts share is held
//! in one value, [`kernel::Kernel`], and every operation takes it by
//! exclusive reference. An operation is therefore one indivisible step, and
//! what the harts do is a sequence of such steps in some order. Whoever
//! runs the core on a machine keeps the state behind a lock, performs the
//! context switches that the operations call for, and reaches the hardware.
//!
//! - [`boot`]: the barrier that brings the harts up in order.
//! - [`mm`]: physical frames, page tables and address spaces.
//! - [`task`]: tasks, the ready queue and the scheduler.
//! - [`trap`]: the trap context of a task.
//! - [`console`]: text for the firmware console.
//! - [`config`]: the constants of the machine and of the layout.

pub mod boot;
pub mod config;
pub mod console;
pub mod kernel;
pub mod mm;
pub mod task;
pub mod trap;
