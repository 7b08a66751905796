//! The state machine interface.

use vstd::prelude::*;

use super::entry::{Entry, EntryView, Index};
use crate::error::{ErrorView, Result};

verus! {

/// What an operation of a state machine gives back.
pub type Outcome = std::result::Result<Seq<u8>, ErrorView>;

/// The outcome that a result stands for.
pub open spec fn outcome(r: Result<Vec<u8>>) -> Outcome {
    match r {
        Ok(bytes) => Ok(bytes@),
        Err(e) => Err(e@),
    }
}

/// A state machine driven by the log.
///
/// Writes are applied on every node in the order of the log, so what they do
/// depends on nothing but the state and the entry. Reads run on the leader only.
pub trait State: Sized {
    /// What contracts say of a state.
    type Model;

    spec fn model(&self) -> Self::Model;

    /// The state machine's own invariant.
    spec fn wf(&self) -> bool;

    /// The index of the last applied entry.
    spec fn applied(model: Self::Model) -> Index;

    /// Whether the state machine takes a command as a write.
    spec fn takes_write(command: Seq<u8>) -> bool;

    /// Whether the state machine takes a command as a read.
    spec fn takes_read(command: Seq<u8>) -> bool;

    /// The state and the outcome of applying an entry.
    spec fn applying(model: Self::Model, entry: EntryView) -> (Self::Model, Outcome);

    /// The outcome of a read.
    spec fn reading(model: Self::Model, command: Seq<u8>) -> Outcome;

    /// The snapshot of a state.
    spec fn snapshotting(model: Self::Model) -> Outcome;

    /// The state restored from a snapshot at `index`.
    spec fn restoring(model: Self::Model, snapshot: Seq<u8>, index: Index) -> std::result::Result<
        Self::Model,
        ErrorView,
    >;

    /// Applying an entry never counts later entries as applied.
    proof fn applied_in_order(model: Self::Model, entry: EntryView)
        ensures
            Self::applied(Self::applying(model, entry).0) <= Self::applied(model)
                || Self::applied(Self::applying(model, entry).0) <= entry.index,
    ;

    /// Whether the state machine takes a command as a write.
    fn accepts_write(command: &[u8]) -> (r: bool)
        ensures
            r == Self::takes_write(command@),
    ;

    /// Whether the state machine takes a command as a read.
    fn accepts_read(command: &[u8]) -> (r: bool)
        ensures
            r == Self::takes_read(command@),
    ;

    /// The index of the last applied entry.
    fn get_applied_index(&self) -> (r: Index)
        requires
            self.wf(),
        ensures
            r == Self::applied(self.model()),
    ;

    /// Applies an entry and returns the client's result.
    fn apply(&mut self, entry: Entry) -> (r: Result<Vec<u8>>)
        requires
            old(self).wf(),
            entry@.command matches Some(command) ==> Self::takes_write(command),
        ensures
            final(self).wf(),
            (final(self).model(), outcome(r)) == Self::applying(old(self).model(), entry@),
    ;

    /// Runs a read command and returns the client's result.
    fn read(&self, command: Vec<u8>) -> (r: Result<Vec<u8>>)
        requires
            self.wf(),
            Self::takes_read(command@),
        ensures
            outcome(r) == Self::reading(self.model(), command@),
    ;

    /// The whole state as bytes.
    fn snapshot(&self) -> (r: Result<Vec<u8>>)
        requires
            self.wf(),
        ensures
            outcome(r) == Self::snapshotting(self.model()),
    ;

    /// Restores the state from a snapshot that covers the log up to `index`.
    /// A failure leaves the state as it was.
    fn restore(&mut self, snapshot: &[u8], index: Index) -> (r: Result<()>)
        requires
            old(self).wf(),
        ensures
            final(self).wf(),
            match r {
                Ok(()) => Self::restoring(old(self).model(), snapshot@, index) == Ok::<
                    Self::Model,
                    ErrorView,
                >(final(self).model()),
                Err(e) => Self::restoring(old(self).model(), snapshot@, index) == Err::<
                    Self::Model,
                    ErrorView,
                >(e@) && final(self).model() == old(self).model(),
            },
    ;
}

} // verus!
