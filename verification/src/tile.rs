//! Grid cells and moves between them.

use vstd::prelude::*;
use crate::piece::Piece;
use crate::team::Team;

verus! {

/// Tag for a move-log entry: a King entry produced by castling is tagged
/// `Castle` so that undoing it also undoes the paired Rook entry.
#[derive(Clone, Copy, PartialEq, Eq, Structural, Debug)]
pub enum MoveType {
    Castle,
    NoCastle,
}

/// One fixed grid cell: a coordinate pair and at most one piece.
/// Identity is the coordinate only.
#[derive(Clone, Copy, Debug)]
pub struct Tile {
    pub row: isize,
    pub col: isize,
    pub present_piece: Option<Piece>,
}

/// An (origin, destination) pair of tile snapshots taken at generation
/// time. Equality throughout the engine is by the two coordinate pairs.
#[derive(Clone, Copy, Debug)]
pub struct Move {
    pub initial: Tile,
    pub end: Tile,
}

impl Move {
    pub fn new(initial: Tile, end: Tile) -> (r: Move)
        ensures
            r.initial == initial,
            r.end == end,
    {
        Move { initial, end }
    }

    pub fn copy(&self) -> (r: Move)
        ensures
            r == *self,
    {
        Move { initial: self.initial, end: self.end }
    }

    /// Positional equality: the same origin and destination coordinates.
    pub open spec fn spec_same(self, other: Move) -> bool {
        &&& self.initial.row == other.initial.row
        &&& self.initial.col == other.initial.col
        &&& self.end.row == other.end.row
        &&& self.end.col == other.end.col
    }

    pub fn same_as(&self, other: &Move) -> (r: bool)
        ensures
            r == self.spec_same(*other),
    {
        self.initial.row == other.initial.row && self.initial.col == other.initial.col
            && self.end.row == other.end.row && self.end.col == other.end.col
    }
}

impl Tile {
    pub fn new() -> (r: Tile)
        ensures
            r.row == 0,
            r.col == 0,
            r.present_piece is None,
    {
        Tile { row: 0, col: 0, present_piece: None }
    }

    pub fn init(&mut self, row: isize, col: isize, piece: Option<Piece>)
        ensures
            *final(self) == (Tile { row, col, present_piece: piece }),
    {
        self.row = row;
        self.col = col;
        self.present_piece = piece;
    }

    pub fn piece(&self) -> (r: &Piece)
        requires
            self.present_piece is Some,
        ensures
            *r == self.present_piece->0,
    {
        self.present_piece.as_ref().unwrap()
    }

    pub fn piece_mut(&mut self) -> (r: &mut Piece)
        requires
            old(self).present_piece is Some,
        ensures
            *r == old(self).present_piece->0,
            final(self).row == old(self).row,
            final(self).col == old(self).col,
            final(self).present_piece == Some(*final(r)),
    {
        match &mut self.present_piece {
            Some(p) => p,
            None => vstd::pervasive::unreached(),
        }
    }

    pub fn has_piece(&self) -> (r: bool)
        ensures
            r == (self.present_piece is Some),
    {
        match &self.present_piece {
            Some(_) => true,
            None => false,
        }
    }

    pub fn is_empty(&self) -> (r: bool)
        ensures
            r == (self.present_piece is None),
    {
        !self.has_piece()
    }

    /// Whether a piece of exactly this side sits here.
    pub open spec fn spec_has_team(self, color: Team) -> bool {
        self.present_piece is Some && self.present_piece->0.color == color
    }

    pub fn has_team(&self, color: Team) -> (r: bool)
        ensures
            r == self.spec_has_team(color),
    {
        self.has_piece() && self.piece().color == color
    }

    /// Whether a piece of any other side sits here.
    pub open spec fn spec_has_rival(self, color: Team) -> bool {
        self.present_piece is Some && self.present_piece->0.color != color
    }

    pub fn has_rival(&self, color: Team) -> (r: bool)
        ensures
            r == self.spec_has_rival(color),
    {
        self.has_piece() && self.piece().color != color
    }

    pub fn is_empty_or_rival(&self, color: Team) -> (r: bool)
        ensures
            r == (self.present_piece is None || self.spec_has_rival(color)),
    {
        self.is_empty() || self.has_rival(color)
    }

    pub fn copy(&self) -> (r: Tile)
        ensures
            r == *self,
    {
        Tile { row: self.row, col: self.col, present_piece: self.present_piece }
    }
}

} // verus!
