use vstd::prelude::*;

verus! {

/// How far the step loop has come, and when it stops: after any step that takes the
/// simulation time past the time limit, or that brings the iteration count up to the
/// iteration limit.
pub struct RunState {
    pub is_running: bool,
    pub iterations: i64,
    pub max_iterations: Option<i64>,
}

/// Whether the loop goes on after a step that leaves `iterations` steps done.
pub open spec fn keeps_running(max_iterations: Option<i64>, iterations: int, past_max_time: bool) -> bool {
    &&& !past_max_time
    &&& match max_iterations {
        Some(m) => iterations < m,
        None => true,
    }
}

impl RunState {
    /// A loop that has made no step, with no iteration limit.
    pub fn new() -> (r: Self)
        ensures
            r.is_running,
            r.iterations == 0,
            r.max_iterations is None,
    {
        RunState { is_running: true, iterations: 0, max_iterations: None }
    }

    /// Stop once `max_iterations` steps have been made.
    pub fn set_max_iterations(&mut self, max_iterations: i64)
        ensures
            final(self).max_iterations == Some(max_iterations),
            final(self).iterations == old(self).iterations,
            final(self).is_running == old(self).is_running,
    {
        self.max_iterations = Some(max_iterations);
    }

    /// Counts a finished step and decides whether the loop goes on; `past_max_time` says
    /// whether a time limit is set and the simulation time has gone past it.
    pub fn finish_step(&mut self, past_max_time: bool)
        requires
            old(self).iterations < i64::MAX,
        ensures
            final(self).iterations == old(self).iterations + 1,
            final(self).max_iterations == old(self).max_iterations,
            final(self).is_running == (old(self).is_running && keeps_running(
                old(self).max_iterations,
                old(self).iterations + 1,
                past_max_time,
            )),
    {
        self.iterations = self.iterations + 1;
        if past_max_time {
            self.is_running = false;
        }
        match self.max_iterations {
            Some(m) => {
                if m <= self.iterations {
                    self.is_running = false;
                }
            },
            None => {},
        }
    }
}

} // verus!
