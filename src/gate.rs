use vstd::prelude::*;

verus! {

/// Where recompilation stands.
#[derive(Clone, Copy, Debug, PartialEq, Eq, Structural)]
pub enum GatePhase {
    /// No pass is running.
    Idle,
    /// One pass is running, and no change came in since it started.
    Running,
    /// One pass is running, and a change came in since it started: one more
    /// pass is owed when it ends.
    RunningStale,
}

/// Merges concurrent requests to recompile into one pass at a time, without
/// losing a change that comes in while a pass runs.
pub struct RecompileGate {
    phase: GatePhase,
}

impl RecompileGate {
    pub closed spec fn phase(&self) -> GatePhase {
        self.phase
    }

    /// A gate with no pass running.
    pub fn new() -> (r: Self)
        ensures
            r.phase() == GatePhase::Idle,
    {
        RecompileGate { phase: GatePhase::Idle }
    }

    /// Asks for a pass. Returns whether the caller is to run it now: only
    /// where none is running. Otherwise the running pass owes one more.
    pub fn request(&mut self) -> (run: bool)
        ensures
            run == (old(self).phase() == GatePhase::Idle),
            run ==> final(self).phase() == GatePhase::Running,
            !run ==> final(self).phase() == GatePhase::RunningStale,
    {
        match self.phase {
            GatePhase::Idle => {
                self.phase = GatePhase::Running;
                true
            },
            _ => {
                self.phase = GatePhase::RunningStale;
                false
            },
        }
    }

    /// Ends the running pass. Returns whether the caller is to run one more,
    /// for a change that came in meanwhile.
    pub fn finish(&mut self) -> (again: bool)
        requires
            old(self).phase() != GatePhase::Idle,
        ensures
            again == (old(self).phase() == GatePhase::RunningStale),
            again ==> final(self).phase() == GatePhase::Running,
            !again ==> final(self).phase() == GatePhase::Idle,
    {
        match self.phase {
            GatePhase::RunningStale => {
                self.phase = GatePhase::Running;
                true
            },
            _ => {
                self.phase = GatePhase::Idle;
                false
            },
        }
    }

    /// Whether a pass is running.
    pub fn is_running(&self) -> (r: bool)
        ensures
            r == (self.phase() != GatePhase::Idle),
    {
        match self.phase {
            GatePhase::Idle => false,
            _ => true,
        }
    }
}

} // verus!
