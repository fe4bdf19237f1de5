//! The tagged unions exchanged between the coordinator, the sessions and the
//! clients, and the mathematical view of the outbound snapshot message.

use vstd::prelude::*;

verus! {

/// A command drained by the coordinator from its single ordered queue.
///
/// `PlayerRegistered` announces a freshly connected player; the caller keeps
/// the player's outbound channel and forwards whatever the coordinator
/// returns for that player. `MoveBy` is a relative movement request already
/// decoded from the wire. `Tick` advances the simulation one period.
#[derive(PartialEq, Eq, Structural, Clone, Copy, Debug)]
pub enum GameStateMsg {
    PlayerRegistered { id: u64 },
    MoveBy { id: u64, mx: i64, my: i64 },
    Tick,
}

/// A message received from a client: a requested position delta.
#[derive(PartialEq, Eq, Structural, Clone, Copy, Debug)]
pub enum GameInputMessage {
    Move { mx: i64, my: i64 },
}

/// A message sent to a client: its assigned id, or the per-tick snapshot of
/// every player's position.
#[derive(Debug)]
pub enum GameOutputMessage {
    PlayerPositions { positions: Vec<(u64, (i64, i64))> },
    YouAre { id: u64 },
}

/// Mathematical value of a `GameOutputMessage`: the snapshot becomes a
/// sequence of `(id, (x, y))` entries.
pub enum OutputView {
    PlayerPositions { positions: Seq<(u64, (i64, i64))> },
    YouAre { id: u64 },
}

impl View for GameOutputMessage {
    type V = OutputView;

    open spec fn view(&self) -> OutputView {
        match self {
            GameOutputMessage::PlayerPositions { positions } => OutputView::PlayerPositions {
                positions: positions@,
            },
            GameOutputMessage::YouAre { id } => OutputView::YouAre { id: *id },
        }
    }
}

} // verus!
