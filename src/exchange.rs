use vstd::prelude::*;

verus! {

/// Where a worker stands within the current step of the counter handshake.
#[derive(Debug, Clone, Copy, PartialEq, Eq, Structural)]
pub enum Phase {
    /// About to write its seam row into its slot and raise its ready counter.
    Publish,
    /// Its seam row is out; it waits for the neighbour's.
    AwaitReady,
    /// Its band is computed; it waits for the neighbour to finish reading its slot.
    AwaitDone,
}

/// What a worker does next.
#[derive(Debug, Clone, Copy, PartialEq, Eq, Structural)]
pub enum Action {
    /// Write the seam row into the own slot, then store `ready()` with release ordering.
    Publish,
    /// Read the neighbour's slot, update the band, then store `done()` with release ordering.
    Compute,
    /// Swap the band's buffers: the step is over on both sides.
    Swap,
    /// The neighbour is not there yet: back off and poll again.
    Wait,
    /// All steps are done.
    Finished,
}

/// One worker's position in the step-counter handshake of a run of `steps` steps. Steps
/// are counted from 1; `step == steps + 1` means the run is over.
#[derive(Debug, Clone, Copy, PartialEq, Eq, Structural)]
pub struct Handshake {
    pub step: u64,
    pub phase: Phase,
    pub steps: u64,
}

impl Handshake {
    /// The position is one the handshake can be in.
    pub open spec fn wf(&self) -> bool {
        &&& self.steps < u64::MAX
        &&& 1 <= self.step <= self.steps + 1
        &&& self.step == self.steps + 1 ==> self.phase == Phase::Publish
    }

    /// The last step whose seam row this worker has published.
    pub open spec fn ready_count(&self) -> int {
        if self.phase == Phase::Publish {
            self.step - 1
        } else {
            self.step as int
        }
    }

    /// The last step this worker has computed.
    pub open spec fn done_count(&self) -> int {
        if self.phase == Phase::AwaitDone {
            self.step as int
        } else {
            self.step - 1
        }
    }

    /// The action that `poll` takes, given what was read of the neighbour's counters.
    pub open spec fn action(&self, peer_ready: u64, peer_done: u64) -> Action {
        if self.step > self.steps {
            Action::Finished
        } else {
            match self.phase {
                Phase::Publish => Action::Publish,
                Phase::AwaitReady => if peer_ready >= self.step {
                    Action::Compute
                } else {
                    Action::Wait
                },
                Phase::AwaitDone => if peer_done >= self.step {
                    Action::Swap
                } else {
                    Action::Wait
                },
            }
        }
    }

    /// The position after `poll`.
    pub open spec fn after(&self, peer_ready: u64, peer_done: u64) -> Handshake {
        match self.action(peer_ready, peer_done) {
            Action::Publish => Handshake { phase: Phase::AwaitReady, ..*self },
            Action::Compute => Handshake { phase: Phase::AwaitDone, ..*self },
            Action::Swap => Handshake { step: (self.step + 1) as u64, phase: Phase::Publish, ..*self },
            _ => *self,
        }
    }

    /// A worker at the start of a run of `steps` steps.
    pub fn new(steps: u64) -> (r: Handshake)
        requires
            steps < u64::MAX,
        ensures
            r.wf(),
            r.step == 1,
            r.phase == Phase::Publish,
            r.steps == steps,
    {
        Handshake { step: 1, phase: Phase::Publish, steps }
    }

    /// The value of this worker's ready counter: the last step whose seam row it published.
    pub fn ready(&self) -> (r: u64)
        requires
            self.wf(),
        ensures
            r == self.ready_count(),
    {
        if self.phase == Phase::Publish {
            self.step - 1
        } else {
            self.step
        }
    }

    /// The value of this worker's done counter: the last step it computed.
    pub fn done(&self) -> (r: u64)
        requires
            self.wf(),
        ensures
            r == self.done_count(),
    {
        if self.phase == Phase::AwaitDone {
            self.step
        } else {
            self.step - 1
        }
    }

    /// Decides the next action from the neighbour's counters as last read, and moves on.
    pub fn poll(&mut self, peer_ready: u64, peer_done: u64) -> (r: Action)
        requires
            old(self).wf(),
        ensures
            r == old(self).action(peer_ready, peer_done),
            *final(self) == old(self).after(peer_ready, peer_done),
            final(self).wf(),
    {
        if self.step > self.steps {
            return Action::Finished;
        }
        match self.phase {
            Phase::Publish => {
                self.phase = Phase::AwaitReady;
                Action::Publish
            },
            Phase::AwaitReady => {
                if peer_ready >= self.step {
                    self.phase = Phase::AwaitDone;
                    Action::Compute
                } else {
                    Action::Wait
                }
            },
            Phase::AwaitDone => {
                if peer_done >= self.step {
                    self.step = self.step + 1;
                    self.phase = Phase::Publish;
                    Action::Swap
                } else {
                    Action::Wait
                }
            },
        }
    }
}

/// The invariant of two workers running the handshake together: neither is more than one
/// step ahead of what the other has computed.
pub open spec fn in_step(w: Handshake, p: Handshake) -> bool {
    &&& w.wf()
    &&& p.wf()
    &&& w.steps == p.steps
    &&& w.step <= p.done_count() + 1
    &&& p.step <= w.done_count() + 1
}

/// Two workers that start together are in step.
pub proof fn lemma_in_step_at_start(steps: u64)
    requires
        steps < u64::MAX,
    ensures
        in_step(
            Handshake { step: 1, phase: Phase::Publish, steps },
            Handshake { step: 1, phase: Phase::Publish, steps },
        ),
{
}

/// A poll keeps the two workers in step, whenever the counters it read are values that the
/// neighbour has already reached: counters only grow, so a stale read is a smaller one.
pub proof fn lemma_poll_keeps_in_step(w: Handshake, p: Handshake, peer_ready: u64, peer_done: u64)
    requires
        in_step(w, p),
        peer_ready <= p.ready_count(),
        peer_done <= p.done_count(),
    ensures
        in_step(w.after(peer_ready, peer_done), p),
        w.after(peer_ready, peer_done).ready_count() >= w.ready_count(),
        w.after(peer_ready, peer_done).done_count() >= w.done_count(),
{
}

/// Boundary-exchange freshness: when a worker computes step `s`, the neighbour's slot holds
/// the seam row of step `s` exactly. It has been written for step `s`, and the neighbour
/// cannot yet have overwritten it with the row of step `s + 1`.
pub proof fn lemma_compute_reads_fresh_row(
    w: Handshake,
    p: Handshake,
    peer_ready: u64,
    peer_done: u64,
)
    requires
        in_step(w, p),
        peer_ready <= p.ready_count(),
        peer_done <= p.done_count(),
        w.action(peer_ready, peer_done) == Action::Compute,
    ensures
        p.ready_count() == w.step,
{
}

/// A worker swaps its buffers for step `s` only once the neighbour has computed step `s`,
/// that is, once the neighbour has finished reading this worker's slot.
pub proof fn lemma_swap_after_peer_done(
    w: Handshake,
    p: Handshake,
    peer_ready: u64,
    peer_done: u64,
)
    requires
        in_step(w, p),
        peer_done <= p.done_count(),
        w.action(peer_ready, peer_done) == Action::Swap,
    ensures
        p.done_count() >= w.step,
{
}

} // verus!
