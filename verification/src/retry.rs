//! How a client repeats a request until it is answered.

use vstd::prelude::*;

use crate::error::{Error, Result};
use crate::raft::message::Response;

verus! {

/// What became of one attempt.
pub enum Heard {
    /// The node answered.
    Answer(Result<Response>),
    /// No answer came in time.
    TimedOut,
    /// The request could not be handed over.
    Unreachable,
}

/// What to do next.
pub enum Step {
    /// Try the target at this position.
    Try(usize),
    /// Wait before the next round.
    Pause,
    /// Give up with this error.
    Stop(Error),
}

/// What an attempt leads to.
pub enum Verdict {
    /// Go on.
    Again,
    /// The request is settled.
    Settled(Result<Response>),
}

/// A request that is repeated in rounds over its targets, in their order.
///
/// An abort or a timeout is tried again. So is an I/O error, if it comes from the
/// way to the node rather than from the node itself. Any other answer settles the
/// request.
pub struct Retry {
    /// The number of targets.
    pub targets: usize,
    /// The number of rounds.
    pub rounds: u32,
    /// Whether an I/O error is tried again.
    pub retries_io: bool,
    /// The rounds that are done.
    pub round: u32,
    /// The next target of the round.
    pub at: usize,
    /// The error of the last attempt that failed.
    pub last: Error,
}

/// Whether an answer settles a request.
pub open spec fn settles(answer: Result<Response>, retries_io: bool) -> bool {
    match answer {
        Ok(_) => true,
        Err(Error::Abort) => false,
        Err(Error::IO(_)) => !retries_io,
        Err(_) => true,
    }
}

impl Retry {
    pub open spec fn wf(&self) -> bool {
        &&& self.at <= self.targets
        &&& self.round <= self.rounds
    }

    /// Whether the rounds are used up.
    pub open spec fn is_over(&self) -> bool {
        self.round >= self.rounds
    }

    pub fn new(targets: usize, rounds: u32, retries_io: bool) -> (r: Retry)
        ensures
            r == (Retry { targets, rounds, retries_io, round: 0, at: 0, last: Error::Abort }),
            r.wf(),
    {
        Retry { targets, rounds, retries_io, round: 0, at: 0, last: Error::Abort }
    }

    /// What to do next: the next target of the round, a pause after the round, or
    /// the last error once the rounds are used up.
    pub fn next(&self) -> (r: Step)
        requires
            self.wf(),
        ensures
            match r {
                Step::Stop(e) => self.is_over() && e == self.last,
                Step::Try(target) => !self.is_over() && target == self.at && target < self.targets,
                Step::Pause => !self.is_over() && self.at == self.targets,
            },
    {
        if self.round >= self.rounds {
            Step::Stop(self.last.duplicate())
        } else if self.at < self.targets {
            Step::Try(self.at)
        } else {
            Step::Pause
        }
    }

    /// Takes in what became of the attempt on the next target.
    pub fn hear(&mut self, heard: Heard) -> (r: Verdict)
        requires
            old(self).wf(),
            old(self).at < old(self).targets,
        ensures
            final(self).wf(),
            match r {
                Verdict::Settled(answer) => heard == Heard::Answer(answer) && settles(
                    answer,
                    old(self).retries_io,
                ) && *final(self) == *old(self),
                Verdict::Again => {
                    &&& *final(self) == (Retry {
                        at: (old(self).at + 1) as usize,
                        last: final(self).last,
                        ..*old(self)
                    })
                    &&& match heard {
                        Heard::Answer(answer) => !settles(answer, old(self).retries_io) && answer
                            == Err::<Response, Error>(final(self).last),
                        Heard::TimedOut => final(self).last matches Error::IO(text) && text@
                            == "request timed out"@,
                        Heard::Unreachable => final(self).last == old(self).last,
                    }
                },
            },
    {
        match heard {
            Heard::Answer(Ok(response)) => return Verdict::Settled(Ok(response)),
            Heard::Answer(Err(e)) => {
                let again = match &e {
                    Error::Abort => true,
                    Error::IO(_) => self.retries_io,
                    _ => false,
                };
                if !again {
                    return Verdict::Settled(Err(e));
                }
                self.last = e;
            },
            Heard::TimedOut => {
                self.last = Error::IO("request timed out".to_string());
            },
            Heard::Unreachable => {},
        }
        self.at = self.at + 1;
        Verdict::Again
    }

    /// Ends a round.
    pub fn pause(&mut self)
        requires
            old(self).wf(),
            !old(self).is_over(),
        ensures
            final(self).wf(),
            *final(self) == (Retry { round: (old(self).round + 1) as u32, at: 0, ..*old(self) }),
    {
        self.round = self.round + 1;
        self.at = 0;
    }
}

} // verus!
