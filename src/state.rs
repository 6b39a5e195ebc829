use vstd::prelude::*;

verus! {

#[derive(Debug, Clone, Copy, PartialEq, Eq, Structural)]
pub enum FinishedState {
    Won,
    Lost,
}

/// Life cycle of a game: `New` until the first reveal, then `Playing`,
/// then `Finished`, which no operation leaves.
#[derive(Debug, Clone, Copy, PartialEq, Eq, Structural)]
pub enum State {
    New,
    Playing,
    Finished(FinishedState),
}

} // verus!
