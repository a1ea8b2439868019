use vstd::prelude::*;

verus! {

/// The backoff cap: thirty interval durations, saturating.
pub open spec fn spec_backoff_cap(interval_duration: u64) -> u64 {
    if interval_duration > u64::MAX / 30 {
        u64::MAX
    } else {
        (interval_duration * 30) as u64
    }
}

/// The next retry delay: twice the current one, capped at thirty interval
/// durations.
pub open spec fn spec_next_backoff(current: u64, interval_duration: u64) -> u64 {
    let cap = spec_backoff_cap(interval_duration);
    if current > cap / 2 {
        cap
    } else {
        (current * 2) as u64
    }
}

/// The alignment state of one replica:
/// - `Fresh`: no digest has been compared yet;
/// - `Aligning`: a divergence was seen and events are being requested;
/// - `Aligned`: the last comparison found no divergence;
/// - `Divergent`: the peer runs another configuration; no alignment is
///   possible until one of the two is reconfigured.
#[derive(Clone, Copy, Debug, PartialEq, Eq, Structural)]
pub enum ReplicaState {
    Fresh,
    Aligning,
    Aligned,
    Divergent,
}

/// What the outside world reports to the aligner.
#[derive(Clone, Copy, Debug, PartialEq, Eq, Structural)]
pub enum AlignmentInput {
    DigestMatched,
    DigestDiverged,
    ConfigurationMismatched,
    RequestTimedOut,
    EventsApplied,
}

/// What the caller must do next: nothing, send the drill-down requests of
/// the last comparison, or retry after the given delay in milliseconds.
#[derive(Clone, Copy, Debug, PartialEq, Eq, Structural)]
pub enum AlignmentAction {
    Idle,
    SendRequests,
    RetryAfter(u64),
}

/// The per-replica alignment state machine. It decides; the caller performs
/// the network traffic and reports back what happened.
#[derive(Clone, Copy, Debug)]
pub struct Aligner {
    pub state: ReplicaState,
    pub interval_duration: u64,
    pub backoff: u64,
}

/// The state after one input.
pub open spec fn spec_step_state(state: ReplicaState, input: AlignmentInput) -> ReplicaState {
    match (state, input) {
        (ReplicaState::Divergent, _) => ReplicaState::Divergent,
        (_, AlignmentInput::ConfigurationMismatched) => ReplicaState::Divergent,
        (_, AlignmentInput::DigestDiverged) => ReplicaState::Aligning,
        (_, AlignmentInput::DigestMatched) => ReplicaState::Aligned,
        (ReplicaState::Aligning, AlignmentInput::EventsApplied) => ReplicaState::Aligned,
        (ReplicaState::Aligning, AlignmentInput::RequestTimedOut) => ReplicaState::Aligning,
        (s, _) => s,
    }
}

impl Aligner {
    /// A replica that has not compared digests yet, with the base retry
    /// delay of one interval duration.
    pub fn new(interval_duration: u64) -> (r: Aligner)
        ensures
            r.state == ReplicaState::Fresh,
            r.interval_duration == interval_duration,
            r.backoff == interval_duration,
    {
        Aligner { state: ReplicaState::Fresh, interval_duration, backoff: interval_duration }
    }

    /// Feeds one input to the state machine and says what to do next:
    /// divergence starts an alignment round and resets the backoff, a
    /// timeout retries with exponential backoff, a configuration mismatch is
    /// terminal.
    pub fn step(&mut self, input: AlignmentInput) -> (r: AlignmentAction)
        ensures
            final(self).state == spec_step_state(old(self).state, input),
            final(self).interval_duration == old(self).interval_duration,
            final(self).backoff == (if old(self).state != ReplicaState::Divergent && input
                == AlignmentInput::DigestDiverged {
                old(self).interval_duration
            } else if old(self).state == ReplicaState::Aligning && input
                == AlignmentInput::RequestTimedOut {
                spec_next_backoff(old(self).backoff, old(self).interval_duration)
            } else {
                old(self).backoff
            }),
            r == (if old(self).state == ReplicaState::Divergent {
                AlignmentAction::Idle
            } else if input == AlignmentInput::DigestDiverged {
                AlignmentAction::SendRequests
            } else if old(self).state == ReplicaState::Aligning && input
                == AlignmentInput::RequestTimedOut {
                AlignmentAction::RetryAfter(final(self).backoff)
            } else {
                AlignmentAction::Idle
            }),
    {
        if self.state == ReplicaState::Divergent {
            return AlignmentAction::Idle;
        }
        match input {
            AlignmentInput::ConfigurationMismatched => {
                self.state = ReplicaState::Divergent;
                AlignmentAction::Idle
            },
            AlignmentInput::DigestDiverged => {
                self.state = ReplicaState::Aligning;
                self.backoff = self.interval_duration;
                AlignmentAction::SendRequests
            },
            AlignmentInput::DigestMatched => {
                self.state = ReplicaState::Aligned;
                AlignmentAction::Idle
            },
            AlignmentInput::EventsApplied => {
                if self.state == ReplicaState::Aligning {
                    self.state = ReplicaState::Aligned;
                }
                AlignmentAction::Idle
            },
            AlignmentInput::RequestTimedOut => {
                if self.state == ReplicaState::Aligning {
                    let cap = if self.interval_duration > u64::MAX / 30 {
                        u64::MAX
                    } else {
                        self.interval_duration * 30
                    };
                    self.backoff = if self.backoff > cap / 2 {
                        cap
                    } else {
                        self.backoff * 2
                    };
                    AlignmentAction::RetryAfter(self.backoff)
                } else {
                    AlignmentAction::Idle
                }
            },
        }
    }
}

} // verus!
