//! The state of one square of the board.

use vstd::prelude::*;
use crate::counter::{counter_is_zero, counter_one, counter_zero, Counter};

verus! {

/// The direction in which a threat count moves.
#[derive(Clone, Copy, Debug, PartialEq, Eq, Structural)]
pub enum Change {
    Increase,
    Decrease,
}

/// A square either holds a queen or is seen by some number of queens.
#[derive(Clone, Copy, Debug, PartialEq, Eq, Structural)]
pub enum CellState {
    Queen,
    QueenSeen(Counter),
}

impl CellState {
    /// The number of queens that see this square; a queen's own square counts as unseen.
    pub open spec fn threats(self) -> nat {
        match self {
            CellState::Queen => 0,
            CellState::QueenSeen(k) => k as nat,
        }
    }

    /// Whether `change` can be applied without leaving the counter's range.
    pub open spec fn admits(self, change: Change) -> bool {
        match (self, change) {
            (CellState::Queen, _) => false,
            (CellState::QueenSeen(k), Change::Increase) => k < Counter::MAX,
            (CellState::QueenSeen(k), Change::Decrease) => k > 0,
        }
    }

    /// The square after one more, or one fewer, queen sees it.
    pub open spec fn shifted(self, change: Change) -> CellState {
        match (self, change) {
            (CellState::Queen, _) => CellState::Queen,
            (CellState::QueenSeen(k), Change::Increase) => CellState::QueenSeen((k + 1) as Counter),
            (CellState::QueenSeen(k), Change::Decrease) => CellState::QueenSeen((k - 1) as Counter),
        }
    }

    /// Whether a queen may be put on this square: it is empty and unseen.
    pub fn queen_candidate(&self) -> (ok: bool)
        ensures
            ok == (*self == CellState::QueenSeen(0)),
    {
        match self {
            CellState::QueenSeen(k) => counter_is_zero(k),
            CellState::Queen => false,
        }
    }

    /// Whether a queen stands on this square.
    pub fn is_queen(&self) -> (q: bool)
        ensures
            q == (*self == CellState::Queen),
    {
        match self {
            CellState::Queen => true,
            CellState::QueenSeen(_) => false,
        }
    }

    /// Records that one more queen sees this square.
    pub fn increment_threat(&mut self)
        requires
            old(self).admits(Change::Increase),
        ensures
            *final(self) == old(self).shifted(Change::Increase),
    {
        match *self {
            CellState::QueenSeen(k) => {
                *self = CellState::QueenSeen(k + counter_one());
            },
            CellState::Queen => {},
        }
    }

    /// Records that one queen fewer sees this square.
    pub fn decrement_threat(&mut self)
        requires
            old(self).admits(Change::Decrease),
        ensures
            *final(self) == old(self).shifted(Change::Decrease),
    {
        match *self {
            CellState::QueenSeen(k) => {
                *self = CellState::QueenSeen(k - counter_one());
            },
            CellState::Queen => {},
        }
    }

    /// Moves the threat count one step in the direction of `change`.
    pub fn apply(&mut self, change: Change)
        requires
            old(self).admits(change),
        ensures
            *final(self) == old(self).shifted(change),
    {
        match change {
            Change::Increase => self.increment_threat(),
            Change::Decrease => self.decrement_threat(),
        }
    }
}

impl Default for CellState {
    /// An empty square that no queen sees.
    fn default() -> (cell: CellState)
        ensures
            cell == CellState::QueenSeen(0),
    {
        CellState::QueenSeen(counter_zero())
    }
}

} // verus!
