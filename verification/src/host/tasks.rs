//! The host's timers and tasks: a timer re-arms whenever the fork generation
//! changed, so one created in the parent fires in the child, and the host
//! counts the tasks that a forked child would lose.

use vstd::prelude::*;

verus! {

/// Stack of the top-level coroutine that runs a guest thread's body: 8 MiB.
pub const TASK_STACK_SIZE: usize = 8388608;

/// Stack of the thread driving a coroutine: 1 MiB.
pub const DRIVER_STACK_SIZE: usize = 1048576;

/// The fork generation and the tasks in flight.
#[derive(Debug)]
pub struct HostTaskManager {
    /// One more in every forked child.
    pub generation: u64,
    /// Tasks started and not yet finished.
    pub tasks_in_flight: usize,
}

impl HostTaskManager {
    /// The first generation, with nothing in flight.
    pub fn new() -> (r: Self)
        ensures
            r.generation == 0,
            r.tasks_in_flight == 0,
    {
        HostTaskManager { generation: 0, tasks_in_flight: 0 }
    }

    /// In a forked child, on its fresh runtime: a new fork generation.
    pub fn replace_runtime(&mut self)
        requires
            old(self).generation < u64::MAX,
        ensures
            final(self).generation == old(self).generation + 1,
            final(self).tasks_in_flight == old(self).tasks_in_flight,
    {
        self.generation = self.generation + 1;
    }

    /// A task starts.
    pub fn task_started(&mut self)
        requires
            old(self).tasks_in_flight < usize::MAX,
        ensures
            final(self).tasks_in_flight == old(self).tasks_in_flight + 1,
            final(self).generation == old(self).generation,
    {
        self.tasks_in_flight = self.tasks_in_flight + 1;
    }

    /// A task has finished.
    pub fn task_finished(&mut self)
        requires
            old(self).tasks_in_flight > 0,
        ensures
            final(self).tasks_in_flight == old(self).tasks_in_flight - 1,
            final(self).generation == old(self).generation,
    {
        self.tasks_in_flight = self.tasks_in_flight - 1;
    }

    /// The fork generation.
    pub fn generation(&self) -> (r: u64)
        ensures
            r == self.generation,
    {
        self.generation
    }

    /// Tasks started and not yet finished.
    pub fn shared_tasks_in_flight(&self) -> (r: usize)
        ensures
            r == self.tasks_in_flight,
    {
        self.tasks_in_flight
    }
}

/// Whether a timer armed in one generation, if it is armed at all, has to be
/// armed again before it is polled in another.
pub open spec fn rearms(armed: Option<u64>, generation: u64) -> bool {
    armed != Some(generation)
}

/// A sleep: the generation its timer was armed in, once it is.
#[derive(Debug)]
pub struct ForkAwareSleep {
    pub armed: Option<u64>,
}

impl ForkAwareSleep {
    /// Whether the timer has to be armed before it is polled in a generation:
    /// the first time, and whenever the generation changed.
    pub fn poll(&mut self, generation: u64) -> (arm: bool)
        ensures
            arm == rearms(old(self).armed, generation),
            final(self).armed == Some(generation),
    {
        let arm: bool = match self.armed {
            Some(armed) => armed != generation,
            None => true,
        };
        self.armed = Some(generation);
        arm
    }
}

/// A timer is armed once in each process: polling it again in the same
/// generation leaves it as it is, and in a forked child, which is a later
/// generation, it is armed anew.
pub proof fn law_a_timer_is_armed_once_in_each_process(armed: u64, generation: u64)
    requires
        armed <= generation,
    ensures
        rearms(Some(armed), generation) <==> armed < generation,
        rearms(None, generation),
{
}

} // verus!
