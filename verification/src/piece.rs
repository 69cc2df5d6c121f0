//! Piece kinds with their fixed material values, and the movable piece unit.

use vstd::prelude::*;
use crate::team::Team;

verus! {

/// A piece kind, with fixed midgame and endgame material values.
/// `Empty` is the sentinel for "no piece kind".
#[derive(Clone, Copy, PartialEq, Eq, Structural, Debug, Hash)]
pub enum PieceType {
    Pawn,
    Knight,
    Bishop,
    Rook,
    Queen,
    King,
    Empty,
}

impl PieceType {
    pub fn as_string(&self) -> (r: String)
        ensures
            *self == PieceType::Pawn ==> r@ == "pawn"@,
            *self == PieceType::Knight ==> r@ == "knight"@,
            *self == PieceType::Bishop ==> r@ == "bishop"@,
            *self == PieceType::Rook ==> r@ == "rook"@,
            *self == PieceType::Queen ==> r@ == "queen"@,
            *self == PieceType::King ==> r@ == "king"@,
            *self == PieceType::Empty ==> r@ == ""@,
    {
        match *self {
            PieceType::Pawn => "pawn".to_owned(),
            PieceType::Knight => "knight".to_owned(),
            PieceType::Bishop => "bishop".to_owned(),
            PieceType::Rook => "rook".to_owned(),
            PieceType::Queen => "queen".to_owned(),
            PieceType::King => "king".to_owned(),
            PieceType::Empty => "".to_owned(),
        }
    }

    /// Ordinal of the kind: 1 for Pawn through 6 for King, 0 for `Empty`.
    pub open spec fn spec_int(self) -> int {
        match self {
            PieceType::Pawn => 1,
            PieceType::Knight => 2,
            PieceType::Bishop => 3,
            PieceType::Rook => 4,
            PieceType::Queen => 5,
            PieceType::King => 6,
            PieceType::Empty => 0,
        }
    }

    pub fn as_int(&self) -> (r: i32)
        ensures
            r == self.spec_int(),
    {
        match *self {
            PieceType::Pawn => 1,
            PieceType::Knight => 2,
            PieceType::Bishop => 3,
            PieceType::Rook => 4,
            PieceType::Queen => 5,
            PieceType::King => 6,
            PieceType::Empty => 0,
        }
    }

    /// Midgame material value; the King and `Empty` count zero.
    pub open spec fn spec_value_mg(self) -> int {
        match self {
            PieceType::Pawn => 124,
            PieceType::Knight => 781,
            PieceType::Bishop => 825,
            PieceType::Rook => 1276,
            PieceType::Queen => 2538,
            PieceType::King => 0,
            PieceType::Empty => 0,
        }
    }

    pub fn value_mg(&self) -> (r: i32)
        ensures
            r == self.spec_value_mg(),
    {
        match *self {
            PieceType::Pawn => 124,
            PieceType::Knight => 781,
            PieceType::Bishop => 825,
            PieceType::Rook => 1276,
            PieceType::Queen => 2538,
            PieceType::King => 0,
            PieceType::Empty => 0,
        }
    }

    /// Endgame material value; the King and `Empty` count zero.
    pub open spec fn spec_value_eg(self) -> int {
        match self {
            PieceType::Pawn => 206,
            PieceType::Knight => 854,
            PieceType::Bishop => 915,
            PieceType::Rook => 1380,
            PieceType::Queen => 2682,
            PieceType::King => 0,
            PieceType::Empty => 0,
        }
    }

    pub fn value_eg(&self) -> (r: i32)
        ensures
            r == self.spec_value_eg(),
    {
        match *self {
            PieceType::Pawn => 206,
            PieceType::Knight => 854,
            PieceType::Bishop => 915,
            PieceType::Rook => 1380,
            PieceType::Queen => 2682,
            PieceType::King => 0,
            PieceType::Empty => 0,
        }
    }
}

/// Per-side forward movement direction: White pawns move toward row 0.
pub open spec fn spec_dir(color: Team) -> int {
    if color == Team::White {
        -1
    } else {
        1
    }
}

/// The piece that [`Piece::new`] constructs: fresh flags, cached values
/// derived from the kind and side.
pub open spec fn spec_new_piece(
    ptype: PieceType,
    color: Team,
    uid: isize,
    row: usize,
    col: usize,
) -> Piece {
    Piece {
        ptype,
        uid,
        color,
        value_mg: ptype.spec_value_mg() as i32,
        value_eg: ptype.spec_value_eg() as i32,
        has_moved: false,
        row,
        col,
        en_passant: false,
        dir: if color == Team::White {
            -1isize
        } else {
            1isize
        },
    }
}

/// A movable unit. Identity is the `uid`, assigned by a monotonically
/// increasing counter at creation and never reused within one game; two
/// pieces of the same kind and side are distinct entities.
#[derive(Clone, Copy, Eq, Debug, Hash)]
pub struct Piece {
    pub ptype: PieceType,
    pub uid: isize,
    pub color: Team,
    pub value_mg: i32,
    pub value_eg: i32,
    pub has_moved: bool,
    /// Cached current position, refreshed on every executed move.
    pub row: usize,
    pub col: usize,
    /// Set on a pawn for exactly the ply after its two-square advance.
    pub en_passant: bool,
    /// Forward direction of this piece's side: -1 for White, 1 otherwise.
    pub dir: isize,
}

/// Equality of pieces is identity: the `uid` alone. Two pieces of the
/// same kind and side are distinct entities, and a promoted Queen is
/// never equal to the pawn it replaced.
impl PartialEq for Piece {
    fn eq(&self, other: &Piece) -> (r: bool) {
        self.uid == other.uid
    }
}

impl vstd::std_specs::cmp::PartialEqSpecImpl for Piece {
    open spec fn obeys_eq_spec() -> bool {
        true
    }

    open spec fn eq_spec(&self, other: &Piece) -> bool {
        self.uid == other.uid
    }
}

impl Piece {
    /// A piece is well formed when it belongs to a real side, has a real
    /// kind, and its cached direction and material values agree with them.
    pub open spec fn wf(self) -> bool {
        &&& self.color != Team::Neutral
        &&& self.ptype != PieceType::Empty
        &&& self.dir == spec_dir(self.color)
        &&& self.value_mg == self.ptype.spec_value_mg()
        &&& self.value_eg == self.ptype.spec_value_eg()
    }

    pub fn new(ptype: PieceType, color: Team, uid: isize, row: usize, col: usize) -> (r: Piece)
        ensures
            r == spec_new_piece(ptype, color, uid, row, col),
            r.ptype == ptype,
            r.uid == uid,
            r.color == color,
            r.value_mg == ptype.spec_value_mg(),
            r.value_eg == ptype.spec_value_eg(),
            !r.has_moved,
            r.row == row,
            r.col == col,
            !r.en_passant,
            r.dir == spec_dir(color),
            color != Team::Neutral && ptype != PieceType::Empty ==> r.wf(),
    {
        Piece {
            ptype,
            uid,
            color,
            value_mg: ptype.value_mg(),
            value_eg: ptype.value_eg(),
            has_moved: false,
            row,
            col,
            en_passant: false,
            dir: if color == Team::White {
                -1
            } else {
                1
            },
        }
    }

    pub fn make_moved(&mut self)
        ensures
            *final(self) == (Piece { has_moved: true, ..*old(self) }),
    {
        self.has_moved = true;
    }

    pub fn copy(&self) -> (r: Piece)
        ensures
            r == *self,
    {
        Piece {
            ptype: self.ptype,
            uid: self.uid,
            color: self.color,
            value_mg: self.value_mg,
            value_eg: self.value_eg,
            has_moved: self.has_moved,
            en_passant: self.en_passant,
            row: self.row,
            col: self.col,
            dir: self.dir,
        }
    }
}

} // verus!
