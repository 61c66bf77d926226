//! What a search thread knows: the position, the histories of its search, and its counters.
use crate::bitboard::Bitboard;
use crate::board::{find, find_is_first, the_first_is_found, Board};
use crate::types::{Color, Move, Piece, PieceType};
use vstd::prelude::*;

verus! {

/// What has been learned of a capture.
#[derive(Clone, Copy, Debug)]
pub struct NoisyRecord {
    pub threats: Bitboard,
    pub piece: Piece,
    pub to: u8,
    pub captured: PieceType,
    pub value: i32,
}

/// What has been learned of captures; nothing counts as 0.
pub struct NoisyHistory {
    pub records: Vec<NoisyRecord>,
}

impl NoisyHistory {
    pub open spec fn value(self, threats: Bitboard, piece: Piece, to: int, captured: PieceType) -> int {
        match find(
            self.records@,
            |x: NoisyRecord|
                x.threats == threats && x.piece == piece && x.to == to && x.captured == captured,
            0,
        ) {
            Some(x) => x.value as int,
            None => 0,
        }
    }

    pub fn get(&self, threats: Bitboard, piece: Piece, to: u8, captured: PieceType) -> (r: i32)
        ensures
            r == self.value(threats, piece, to as int, captured),
    {
        let ghost wanted = |x: NoisyRecord|
            x.threats == threats && x.piece == piece && x.to == to as int && x.captured == captured;
        let mut i: usize = 0;
        while i < self.records.len()
            invariant
                i <= self.records@.len(),
                wanted == (|x: NoisyRecord|
                    x.threats == threats && x.piece == piece && x.to == to as int && x.captured
                        == captured),
                find(self.records@, wanted, 0) == find(self.records@, wanted, i as int),
            decreases self.records@.len() - i,
        {
            let x = self.records[i];
            if x.threats == threats && x.piece == piece && x.to == to && x.captured == captured {
                return x.value;
            }
            i = i + 1;
        }
        0
    }
}

/// What has been learned of a quiet move.
#[derive(Clone, Copy, Debug)]
pub struct QuietRecord {
    pub threats: Bitboard,
    pub side: Color,
    pub mv: Move,
    pub value: i32,
}

/// What has been learned of quiet moves; nothing counts as 0.
pub struct QuietHistory {
    pub records: Vec<QuietRecord>,
}

impl QuietHistory {
    pub open spec fn value(self, threats: Bitboard, side: Color, mv: Move) -> int {
        match find(
            self.records@,
            |x: QuietRecord| x.threats == threats && x.side == side && x.mv == mv,
            0,
        ) {
            Some(x) => x.value as int,
            None => 0,
        }
    }

    pub fn get(&self, threats: Bitboard, side: Color, mv: Move) -> (r: i32)
        ensures
            r == self.value(threats, side, mv),
    {
        let ghost wanted = |x: QuietRecord| x.threats == threats && x.side == side && x.mv == mv;
        let mut i: usize = 0;
        while i < self.records.len()
            invariant
                i <= self.records@.len(),
                wanted == (|x: QuietRecord|
                    x.threats == threats && x.side == side && x.mv == mv),
                find(self.records@, wanted, 0) == find(self.records@, wanted, i as int),
            decreases self.records@.len() - i,
        {
            let x = self.records[i];
            if x.threats == threats && x.side == side && x.mv == mv {
                return x.value;
            }
            i = i + 1;
        }
        0
    }
}

/// What has been learned of a move as the continuation of the one played `index` plies before.
#[derive(Clone, Copy, Debug)]
pub struct ContinuationRecord {
    pub ply: isize,
    pub index: isize,
    pub mv: Move,
    pub value: i32,
}

/// A move that has refuted the one before it.
#[derive(Clone, Copy, Debug)]
pub struct CounterRecord {
    pub ply: isize,
    pub mv: Move,
}

/// What the worth of pieces and the layout of the board are taken to be.
pub struct Params {
    /// The value of each type of piece, and of none.
    pub piece_values: [i32; 7],
    /// The rows in which each side's king is taken to be at home.
    pub home_rows: [Bitboard; 2],
}

pub struct ThreadData {
    pub board: Board,
    pub noisy_history: NoisyHistory,
    pub quiet_history: QuietHistory,
    pub continuations: Vec<ContinuationRecord>,
    pub counters: Vec<CounterRecord>,
    pub params: Params,
    /// The depth of the last complete iteration.
    pub completed_depth: i32,
    /// The nodes that this thread has searched.
    pub nodes: u64,
    /// The nodes that all threads have searched.
    pub shared_nodes: u64,
}

impl ThreadData {
    pub open spec fn continuation(self, ply: isize, index: isize, mv: Move) -> int {
        match find(
            self.continuations@,
            |x: ContinuationRecord| x.ply == ply && x.index == index && x.mv == mv,
            0,
        ) {
            Some(x) => x.value as int,
            None => 0,
        }
    }

    pub open spec fn counter(self, ply: isize, mv: Move) -> bool {
        exists|i: int|
            0 <= i < self.counters@.len() && (#[trigger] self.counters@[i]).ply == ply
                && self.counters@[i].mv == mv
    }

    /// What has been learned of a move as the continuation of the one played `index` plies
    /// before; nothing counts as 0.
    pub fn conthist(&self, ply: isize, index: isize, mv: Move) -> (r: i32)
        ensures
            r == self.continuation(ply, index, mv),
    {
        let ghost wanted = |x: ContinuationRecord| x.ply == ply && x.index == index && x.mv == mv;
        let mut i: usize = 0;
        while i < self.continuations.len()
            invariant
                i <= self.continuations@.len(),
                wanted == (|x: ContinuationRecord|
                    x.ply == ply && x.index == index && x.mv == mv),
                find(self.continuations@, wanted, 0) == find(
                    self.continuations@,
                    wanted,
                    i as int,
                ),
            decreases self.continuations@.len() - i,
        {
            let x = self.continuations[i];
            if x.ply == ply && x.index == index && x.mv == mv {
                return x.value;
            }
            i = i + 1;
        }
        0
    }

    /// Whether a move has refuted the one before it.
    pub fn is_counter_move(&self, ply: isize, mv: Move) -> (r: bool)
        ensures
            r == self.counter(ply, mv),
    {
        let mut i: usize = 0;
        while i < self.counters.len()
            invariant
                i <= self.counters@.len(),
                forall|j: int|
                    0 <= j < i ==> !((#[trigger] self.counters@[j]).ply == ply
                        && self.counters@[j].mv == mv),
            decreases self.counters@.len() - i,
        {
            if self.counters[i].ply == ply && self.counters[i].mv == mv {
                return true;
            }
            i = i + 1;
        }
        false
    }
}

/// What has been learned of a capture is what its first record says; without one it is nothing.
pub proof fn captures_are_known_by_their_record(
    h: NoisyHistory,
    threats: Bitboard,
    piece: Piece,
    to: int,
    captured: PieceType,
)
    ensures
        forall|i: int|
            0 <= i < h.records@.len() && (#[trigger] h.records@[i]).threats == threats
                && h.records@[i].piece == piece && h.records@[i].to == to && h.records@[i].captured
                == captured && (forall|j: int|
                0 <= j < i ==> !((#[trigger] h.records@[j]).threats == threats
                    && h.records@[j].piece == piece && h.records@[j].to == to
                    && h.records@[j].captured == captured)) ==> h.value(threats, piece, to, captured)
                == h.records@[i].value,
        (forall|j: int|
            0 <= j < h.records@.len() ==> !((#[trigger] h.records@[j]).threats == threats
                && h.records@[j].piece == piece && h.records@[j].to == to && h.records@[j].captured
                == captured)) ==> h.value(threats, piece, to, captured) == 0,
{
    let wanted = |x: NoisyRecord|
        x.threats == threats && x.piece == piece && x.to == to && x.captured == captured;
    assert forall|i: int|
        0 <= i < h.records@.len() && (#[trigger] h.records@[i]).threats == threats
            && h.records@[i].piece == piece && h.records@[i].to == to && h.records@[i].captured
            == captured && (forall|j: int|
            0 <= j < i ==> !((#[trigger] h.records@[j]).threats == threats && h.records@[j].piece
                == piece && h.records@[j].to == to && h.records@[j].captured == captured)) implies h.value(
        threats,
        piece,
        to,
        captured,
    ) == h.records@[i].value by {
        the_first_is_found(h.records@, wanted, i);
    }
    find_is_first(h.records@, wanted, 0);
}

/// What has been learned of a quiet move is what its first record says; without one it is
/// nothing.
pub proof fn quiet_moves_are_known_by_their_record(
    h: QuietHistory,
    threats: Bitboard,
    side: Color,
    mv: Move,
)
    ensures
        forall|i: int|
            0 <= i < h.records@.len() && (#[trigger] h.records@[i]).threats == threats
                && h.records@[i].side == side && h.records@[i].mv == mv && (forall|j: int|
                0 <= j < i ==> !((#[trigger] h.records@[j]).threats == threats
                    && h.records@[j].side == side && h.records@[j].mv == mv)) ==> h.value(
                threats,
                side,
                mv,
            ) == h.records@[i].value,
        (forall|j: int|
            0 <= j < h.records@.len() ==> !((#[trigger] h.records@[j]).threats == threats
                && h.records@[j].side == side && h.records@[j].mv == mv)) ==> h.value(
            threats,
            side,
            mv,
        ) == 0,
{
    let wanted = |x: QuietRecord| x.threats == threats && x.side == side && x.mv == mv;
    assert forall|i: int|
        0 <= i < h.records@.len() && (#[trigger] h.records@[i]).threats == threats
            && h.records@[i].side == side && h.records@[i].mv == mv && (forall|j: int|
            0 <= j < i ==> !((#[trigger] h.records@[j]).threats == threats && h.records@[j].side
                == side && h.records@[j].mv == mv)) implies h.value(threats, side, mv)
        == h.records@[i].value by {
        the_first_is_found(h.records@, wanted, i);
    }
    find_is_first(h.records@, wanted, 0);
}

/// What has been learned of a continuation is what its first record says; without one it is
/// nothing. A move counts as a refutation exactly where one is recorded for it at that ply.
pub proof fn continuations_are_known_by_their_record(
    td: ThreadData,
    ply: isize,
    index: isize,
    mv: Move,
)
    ensures
        forall|i: int|
            0 <= i < td.continuations@.len() && (#[trigger] td.continuations@[i]).ply == ply
                && td.continuations@[i].index == index && td.continuations@[i].mv == mv && (forall|
                j: int,
            |
                0 <= j < i ==> !((#[trigger] td.continuations@[j]).ply == ply
                    && td.continuations@[j].index == index && td.continuations@[j].mv == mv))
                ==> td.continuation(ply, index, mv) == td.continuations@[i].value,
        (forall|j: int|
            0 <= j < td.continuations@.len() ==> !((#[trigger] td.continuations@[j]).ply == ply
                && td.continuations@[j].index == index && td.continuations@[j].mv == mv))
            ==> td.continuation(ply, index, mv) == 0,
        forall|i: int|
            0 <= i < td.counters@.len() && (#[trigger] td.counters@[i]).ply == ply
                && td.counters@[i].mv == mv ==> td.counter(ply, mv),
        (forall|i: int|
            0 <= i < td.counters@.len() ==> !((#[trigger] td.counters@[i]).ply == ply
                && td.counters@[i].mv == mv)) ==> !td.counter(ply, mv),
{
    let wanted = |x: ContinuationRecord| x.ply == ply && x.index == index && x.mv == mv;
    assert forall|i: int|
        0 <= i < td.continuations@.len() && (#[trigger] td.continuations@[i]).ply == ply
            && td.continuations@[i].index == index && td.continuations@[i].mv == mv && (forall|
            j: int,
        |
            0 <= j < i ==> !((#[trigger] td.continuations@[j]).ply == ply
                && td.continuations@[j].index == index && td.continuations@[j].mv == mv)) implies td.continuation(
        ply,
        index,
        mv,
    ) == td.continuations@[i].value by {
        the_first_is_found(td.continuations@, wanted, i);
    }
    find_is_first(td.continuations@, wanted, 0);
}

} // verus!
