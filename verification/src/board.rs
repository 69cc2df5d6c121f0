//! The game-state machine: an 8x8 grid of tiles, a move log for undo,
//! per-square legal-move tables, and all game-state mutation.

use vstd::prelude::*;
use vstd::pervasive::VecAdditionalExecFns;
use crate::piece::{spec_new_piece, Piece, PieceType};
use crate::team::Team;
use crate::tile::{Move, MoveType, Tile};
use crate::zobrist::{create_zobrist_keys, ZOBRIST_LEN};

verus! {

/// One record of the chronological move log: the move, a snapshot of the
/// mover taken before the move, the captured piece and its square if any,
/// the mover's prior `has_moved` flag, and the castle tag.
#[derive(Clone, Copy, Debug)]
pub struct LogEntry {
    pub action: Move,
    pub piece: Piece,
    pub removed_piece: Option<Piece>,
    pub removed_pos: Option<(isize, isize)>,
    pub was_moved: bool,
    pub movetype: MoveType,
}

/// Whether (r, c) is a coordinate pair on the board.
pub open spec fn in_b(r: int, c: int) -> bool {
    0 <= r < 8 && 0 <= c < 8
}

/// Row-major index of the square (r, c).
pub open spec fn sq(r: int, c: int) -> int {
    8 * r + c
}

/// The piece on square (r, c) of a grid, if any.
pub open spec fn at(g: Seq<Tile>, r: int, c: int) -> Option<Piece> {
    g[sq(r, c)].present_piece
}

/// Whether square (r, c) is occupied.
pub open spec fn occ(g: Seq<Tile>, r: int, c: int) -> bool {
    at(g, r, c) is Some
}

/// Whether square (r, c) holds a piece of exactly this side.
pub open spec fn team_at(g: Seq<Tile>, r: int, c: int, color: Team) -> bool {
    occ(g, r, c) && at(g, r, c)->0.color == color
}

/// Whether square (r, c) holds a piece of any other side.
pub open spec fn rival_at(g: Seq<Tile>, r: int, c: int, color: Team) -> bool {
    occ(g, r, c) && at(g, r, c)->0.color != color
}

/// The grid with the occupant of square (r, c) replaced, coordinates kept.
pub open spec fn put(g: Seq<Tile>, r: int, c: int, p: Option<Piece>) -> Seq<Tile> {
    g.update(sq(r, c), Tile { present_piece: p, ..g[sq(r, c)] })
}

/// A well-formed grid: 64 tiles whose stored coordinates match their
/// row-major position, every piece on it well formed.
pub open spec fn wf_grid(g: Seq<Tile>) -> bool {
    &&& g.len() == 64
    &&& forall|i: int|
        0 <= i < 64 ==> {
            &&& (#[trigger] g[i]).row == i / 8
            &&& g[i].col == i % 8
            &&& (g[i].present_piece is Some ==> g[i].present_piece->0.wf())
        }
}

/// A log entry the undo machinery can always revert: coordinates on the
/// board and well-formed pieces.
pub open spec fn wf_entry(e: LogEntry) -> bool {
    &&& in_b(e.action.initial.row as int, e.action.initial.col as int)
    &&& in_b(e.action.end.row as int, e.action.end.col as int)
    &&& e.piece.wf()
    &&& e.removed_pos is Some ==> in_b((e.removed_pos->0).0 as int, (e.removed_pos->0).1 as int)
    &&& e.removed_piece is Some ==> e.removed_piece->0.wf()
}

/// A 64-entry table of per-square move lists.
pub open spec fn wf_table(t: Seq<Vec<Move>>) -> bool {
    t.len() == 64
}

/// The board: tile grid, move log, per-square legal-move tables for each
/// side, and the position-key table used for hashing.
pub struct Board {
    pub tiles: Vec<Tile>,
    pub move_log: Vec<LogEntry>,
    pub white_moves: Vec<Vec<Move>>,
    pub black_moves: Vec<Vec<Move>>,
    pub zobrist_keys: Vec<u64>,
    pub cur_uid: isize,
}

/// Kind and side of the piece that starts on square (r, c), or `Empty`.
pub open spec fn start_kind(r: int, c: int) -> PieceType {
    if r == 1 || r == 6 {
        PieceType::Pawn
    } else if r == 0 || r == 7 {
        if c == 0 || c == 7 {
            PieceType::Rook
        } else if c == 1 || c == 6 {
            PieceType::Knight
        } else if c == 2 || c == 5 {
            PieceType::Bishop
        } else if c == 3 {
            PieceType::Queen
        } else {
            PieceType::King
        }
    } else {
        PieceType::Empty
    }
}

/// Side owning the starting piece on row r: Black on rows 0-1, White on 6-7.
pub open spec fn start_color(r: int) -> Team {
    if r == 0 || r == 1 {
        Team::Black
    } else {
        Team::White
    }
}

/// The standard starting placement: kinds and sides as above, every flag
/// cleared.
pub open spec fn is_start_grid(g: Seq<Tile>) -> bool {
    &&& wf_grid(g)
    &&& forall|r: int, c: int|
        in_b(r, c) ==> {
            if start_kind(r, c) == PieceType::Empty {
                !occ(g, r, c)
            } else {
                &&& #[trigger] occ(g, r, c)
                &&& at(g, r, c)->0.ptype == start_kind(r, c)
                &&& at(g, r, c)->0.color == start_color(r)
                &&& !at(g, r, c)->0.has_moved
                &&& !at(g, r, c)->0.en_passant
                &&& at(g, r, c)->0.row == r
                &&& at(g, r, c)->0.col == c
            }
        }
}

/// Sum of the midgame values of this side's pieces over the first n squares.
pub open spec fn material(g: Seq<Tile>, color: Team, n: int) -> int
    decreases n,
{
    if n <= 0 {
        0
    } else {
        material(g, color, n - 1) + if team_at(g, (n - 1) / 8, (n - 1) % 8, color) {
            at(g, (n - 1) / 8, (n - 1) % 8)->0.value_mg as int
        } else {
            0
        }
    }
}

/// Key-table index of a piece's (kind, side) class: 0..12.
pub open spec fn zkey_class(pc: Piece) -> int {
    pc.ptype.spec_int() + pc.color.spec_int() * 6 - 1
}

/// XOR of the keys of every occupied square among the first n squares.
pub open spec fn zob(g: Seq<Tile>, keys: Seq<u64>, n: int) -> u64
    decreases n,
{
    if n <= 0 {
        0u64
    } else if occ(g, (n - 1) / 8, (n - 1) % 8) {
        zob(g, keys, n - 1) ^ keys[(n - 1) * 12 + zkey_class(at(g, (n - 1) / 8, (n - 1) % 8)->0)]
    } else {
        zob(g, keys, n - 1)
    }
}

/// Build a copy of a vector of plainly copyable elements.
pub(crate) fn clone_vec<T: Copy>(v: &Vec<T>) -> (r: Vec<T>)
    ensures
        r@ == v@,
{
    let mut r: Vec<T> = Vec::new();
    let mut i: usize = 0;
    while i < v.len()
        invariant
            i <= v@.len(),
            r@ == v@.subrange(0, i as int),
        decreases v@.len() - i,
    {
        r.push(v[i]);
        i = i + 1;
    }
    proof {
        assert(r@ =~= v@);
    }
    r
}

/// A table of 64 empty move lists.
pub(crate) fn empty_table() -> (r: Vec<Vec<Move>>)
    ensures
        r@.len() == 64,
        forall|i: int| 0 <= i < 64 ==> (#[trigger] r@[i])@.len() == 0,
{
    let mut r: Vec<Vec<Move>> = Vec::new();
    let mut i: usize = 0;
    while i < 64
        invariant
            i <= 64,
            r@.len() == i,
            forall|j: int| 0 <= j < i ==> (#[trigger] r@[j])@.len() == 0,
        decreases 64 - i,
    {
        r.push(Vec::new());
        i = i + 1;
    }
    r
}

impl Board {
    /// Well-formed board state: the invariant every public operation
    /// preserves.
    pub open spec fn wf(self) -> bool {
        &&& wf_grid(self.tiles@)
        &&& wf_table(self.white_moves@)
        &&& wf_table(self.black_moves@)
        &&& self.spec_keys().len() == ZOBRIST_LEN
        &&& forall|i: int| 0 <= i < self.move_log@.len() ==> wf_entry(#[trigger] self.move_log@[i])
    }

    /// The position-key table.
    pub open spec fn spec_keys(self) -> Seq<u64> {
        self.zobrist_keys@
    }

    /// The next fresh piece identity.
    pub open spec fn spec_cur_uid(self) -> isize {
        self.cur_uid
    }

    /// The move table of one real side.
    pub open spec fn moves_of(self, color: Team) -> Seq<Vec<Move>> {
        if color == Team::White {
            self.white_moves@
        } else {
            self.black_moves@
        }
    }

    /// A fresh board with the standard starting arrangement and a freshly
    /// generated position-key table.
    pub fn new() -> (r: Board)
        ensures
            r.wf(),
            is_start_grid(r.tiles@),
            r.move_log@.len() == 0,
            forall|i: int| 0 <= i < 64 ==> (#[trigger] r.moves_of(Team::White)[i])@.len() == 0,
            forall|i: int| 0 <= i < 64 ==> (#[trigger] r.moves_of(Team::Black)[i])@.len() == 0,
            ids_fresh(r),
            ids_unique(r.tiles@),
            kings_exact(r.tiles@),
            pos_cached(r.tiles@),
            0 <= r.cur_uid <= 64,
    {
        Board::with_keys(create_zobrist_keys())
    }

    /// A fresh starting board that hashes with the given key table, so
    /// that repeated runs can reuse persisted keys.
    pub fn with_keys(keys: Vec<u64>) -> (r: Board)
        requires
            keys@.len() == ZOBRIST_LEN,
        ensures
            r.wf(),
            is_start_grid(r.tiles@),
            r.spec_keys() == keys@,
            r.move_log@.len() == 0,
            forall|i: int| 0 <= i < 64 ==> (#[trigger] r.moves_of(Team::White)[i])@.len() == 0,
            forall|i: int| 0 <= i < 64 ==> (#[trigger] r.moves_of(Team::Black)[i])@.len() == 0,
            ids_fresh(r),
            ids_unique(r.tiles@),
            kings_exact(r.tiles@),
            pos_cached(r.tiles@),
            0 <= r.cur_uid <= 64,
    {
        let mut tiles: Vec<Tile> = Vec::new();
        let mut uid: isize = 0;
        let mut i: usize = 0;
        while i < 64
            invariant
                i <= 64,
                tiles@.len() == i,
                0 <= uid <= i,
                forall|j: int|
                    0 <= j < i && (#[trigger] tiles@[j]).present_piece is Some
                        ==> tiles@[j].present_piece->0.uid < uid,
                forall|j1: int, j2: int|
                    0 <= j1 < j2 < i && (#[trigger] tiles@[j1]).present_piece is Some && (
                    #[trigger] tiles@[j2]).present_piece is Some ==> tiles@[j1].present_piece->0.uid
                        < tiles@[j2].present_piece->0.uid,
                king_count(tiles@, Team::White, i as int) == (if i > 60 {
                    1int
                } else {
                    0int
                }),
                king_count(tiles@, Team::Black, i as int) == (if i > 4 {
                    1int
                } else {
                    0int
                }),
                forall|j: int|
                    0 <= j < i ==> {
                        &&& (#[trigger] tiles@[j]).row == j / 8
                        &&& tiles@[j].col == j % 8
                        &&& (start_kind(j / 8, j % 8) == PieceType::Empty ==> tiles@[j].present_piece is None)
                        &&& (start_kind(j / 8, j % 8) != PieceType::Empty ==> {
                            &&& tiles@[j].present_piece is Some
                            &&& tiles@[j].present_piece->0.ptype == start_kind(j / 8, j % 8)
                            &&& tiles@[j].present_piece->0.color == start_color(j / 8)
                            &&& !tiles@[j].present_piece->0.has_moved
                            &&& !tiles@[j].present_piece->0.en_passant
                            &&& tiles@[j].present_piece->0.row == j / 8
                            &&& tiles@[j].present_piece->0.col == j % 8
                            &&& tiles@[j].present_piece->0.wf()
                        })
                    },
            decreases 64 - i,
        {
            let row = i / 8;
            let col = i % 8;
            let kind = start_piece_kind(row, col);
            let piece = if kind == PieceType::Empty {
                None
            } else {
                let color = if row <= 1 {
                    Team::Black
                } else {
                    Team::White
                };
                let p = Piece::new(kind, color, uid, row, col);
                uid = uid + 1;
                Some(p)
            };
            let mut t = Tile::new();
            t.init(row as isize, col as isize, piece);
            let ghost tiles0 = tiles@;
            tiles.push(t);
            proof {
                lemma_king_count_prefix(tiles@, tiles0, Team::White, i as int);
                lemma_king_count_prefix(tiles@, tiles0, Team::Black, i as int);
                assert(sq(i as int / 8, i as int % 8) == i as int);
                assert(at(tiles@, i as int / 8, i as int % 8) == piece);
                assert(king_count(tiles@, Team::White, i as int + 1) == king_count(
                    tiles@,
                    Team::White,
                    i as int,
                ) + kc_contrib(piece, Team::White));
                assert(king_count(tiles@, Team::Black, i as int + 1) == king_count(
                    tiles@,
                    Team::Black,
                    i as int,
                ) + kc_contrib(piece, Team::Black));
                assert(kc_contrib(piece, Team::White) == (if i == 60 {
                    1int
                } else {
                    0int
                }));
                assert(kc_contrib(piece, Team::Black) == (if i == 4 {
                    1int
                } else {
                    0int
                }));
            }
            i = i + 1;
        }
        proof {
            assert forall|i2: int, j2: int|
                0 <= i2 < 64 && 0 <= j2 < 64 && i2 != j2 && (#[trigger] tiles@[i2]).present_piece
                    is Some && (#[trigger] tiles@[j2]).present_piece is Some
                implies tiles@[i2].present_piece->0.uid != tiles@[j2].present_piece->0.uid by {
                if i2 < j2 {
                    assert(tiles@[i2].present_piece->0.uid < tiles@[j2].present_piece->0.uid);
                } else {
                    assert(tiles@[j2].present_piece->0.uid < tiles@[i2].present_piece->0.uid);
                }
            }
        }
        Board {
            tiles,
            move_log: Vec::new(),
            white_moves: empty_table(),
            black_moves: empty_table(),
            zobrist_keys: keys,
            cur_uid: uid,
        }
    }

    /// Static evaluation from one side's perspective: that side's own
    /// material sum, not a differential.
    pub fn evaluate(&self, perspective: Team) -> (r: i32)
        requires
            self.wf(),
        ensures
            r == material(self.tiles@, perspective, 64),
            0 <= r <= 64 * 2538,
    {
        let eval = self.accumulate_material(perspective);
        return eval;
    }

    /// Sum of the midgame values of this side's pieces on the grid.
    pub fn accumulate_material(&self, color: Team) -> (r: i32)
        requires
            self.wf(),
        ensures
            r == material(self.tiles@, color, 64),
            0 <= r <= 64 * 2538,
    {
        let mut v: i32 = 0;
        let mut i: usize = 0;
        while i < 64
            invariant
                self.wf(),
                i <= 64,
                v == material(self.tiles@, color, i as int),
                0 <= v <= 2538 * i,
            decreases 64 - i,
        {
            let t = &self.tiles[i];
            if t.has_team(color) {
                proof {
                    assert(at(self.tiles@, i as int / 8, i as int % 8) == self.tiles@[i as int].present_piece);
                }
                v = v + t.piece().value_mg;
            }
            i = i + 1;
        }
        v
    }

    /// XOR, over every occupied tile, of the key for that (square, kind,
    /// side); recomputed in full on each call.
    pub fn zobrist_hash(&self) -> (r: u64)
        requires
            self.wf(),
        ensures
            r == zob(self.tiles@, self.spec_keys(), 64),
    {
        let mut hash_val: u64 = 0;
        let mut i: usize = 0;
        while i < 64
            invariant
                self.wf(),
                i <= 64,
                hash_val == zob(self.tiles@, self.spec_keys(), i as int),
            decreases 64 - i,
        {
            let t = &self.tiles[i];
            if t.has_piece() {
                proof {
                    assert(at(self.tiles@, i as int / 8, i as int % 8) == self.tiles@[i as int].present_piece);
                }
                let piece_val = (t.piece().ptype.as_int() + t.piece().color.as_int() * 6 - 1) as usize;
                hash_val = hash_val ^ self.zobrist_keys[i * 12 + piece_val];
            }
            i = i + 1;
        }
        hash_val
    }

    /// Empty both sides' move tables.
    pub fn clear_moves(&mut self)
        ensures
            final(self).tiles@ == old(self).tiles@,
            final(self).move_log@ == old(self).move_log@,
            final(self).spec_keys() == old(self).spec_keys(),
            final(self).spec_cur_uid() == old(self).spec_cur_uid(),
            wf_table(final(self).white_moves@),
            wf_table(final(self).black_moves@),
            forall|i: int| 0 <= i < 64 ==> (#[trigger] final(self).white_moves@[i])@.len() == 0,
            forall|i: int| 0 <= i < 64 ==> (#[trigger] final(self).black_moves@[i])@.len() == 0,
            old(self).wf() ==> final(self).wf(),
    {
        self.white_moves = empty_table();
        self.black_moves = empty_table();
    }

    /// A deep copy sharing nothing with the original; its move tables
    /// start empty and must be recomputed.
    pub fn copy(&self) -> (r: Board)
        requires
            self.wf(),
        ensures
            r.wf(),
            r.tiles@ == self.tiles@,
            r.move_log@ == self.move_log@,
            r.spec_keys() == self.spec_keys(),
            r.spec_cur_uid() == self.spec_cur_uid(),
            forall|i: int| 0 <= i < 64 ==> (#[trigger] r.white_moves@[i])@.len() == 0,
            forall|i: int| 0 <= i < 64 ==> (#[trigger] r.black_moves@[i])@.len() == 0,
    {
        Board {
            tiles: clone_vec(&self.tiles),
            move_log: clone_vec(&self.move_log),
            white_moves: empty_table(),
            black_moves: empty_table(),
            zobrist_keys: clone_vec(&self.zobrist_keys),
            cur_uid: self.cur_uid,
        }
    }
}

/// Whether both endpoints of a move lie on the board.
pub open spec fn move_on_board(action: Move) -> bool {
    &&& in_b(action.initial.row as int, action.initial.col as int)
    &&& in_b(action.end.row as int, action.end.col as int)
}

/// The mover as it stands after relocation: `has_moved` set and the
/// cached position refreshed.
pub open spec fn moved_piece(pc: Piece, er: usize, ec: usize) -> Piece {
    Piece { has_moved: true, row: er, col: ec, ..pc }
}

/// Whether this step captures en passant: a pawn moving diagonally onto
/// an empty square beside an eligible enemy pawn on the origin row.
pub open spec fn ep_step(g: Seq<Tile>, pc: Piece, action: Move) -> bool {
    let ir = action.initial.row as int;
    let ic = action.initial.col as int;
    let er = action.end.row as int;
    let ec = action.end.col as int;
    &&& pc.ptype == PieceType::Pawn
    &&& ec != ic
    &&& !occ(g, er, ec)
    &&& occ(g, ir, ec)
    &&& at(g, ir, ec)->0.ptype == PieceType::Pawn
    &&& at(g, ir, ec)->0.en_passant
}

/// Whether this step promotes: a pawn reaching the far rank.
pub open spec fn promo_step(pc: Piece, action: Move) -> bool {
    pc.ptype == PieceType::Pawn && (action.end.row == 0 || action.end.row == 7)
}

/// The fresh-identity counter after a step.
pub open spec fn next_uid(uid: isize, promo: bool) -> isize {
    if promo && uid < isize::MAX {
        (uid + 1) as isize
    } else {
        uid
    }
}

/// The piece standing on the destination after a step: the relocated
/// mover, or the newly identified queen on promotion.
pub open spec fn step_piece(pc: Piece, action: Move, uid: isize) -> Piece {
    let er = action.end.row as usize;
    let ec = action.end.col as usize;
    if promo_step(pc, action) {
        moved_piece(spec_new_piece(PieceType::Queen, pc.color, uid, er, ec), er, ec)
    } else {
        moved_piece(pc, er, ec)
    }
}

/// The grid after one basic (non-compound) move step.
pub open spec fn step_grid(g: Seq<Tile>, pc: Piece, action: Move, uid: isize) -> Seq<Tile> {
    let ir = action.initial.row as int;
    let ic = action.initial.col as int;
    let er = action.end.row as int;
    let ec = action.end.col as int;
    let g2 = put(put(g, ir, ic, None), er, ec, Some(step_piece(pc, action, uid)));
    if ep_step(g, pc, action) {
        put(g2, ir, ec, None)
    } else {
        g2
    }
}

/// The piece a basic step removes from the grid, if any.
pub open spec fn step_removed(g: Seq<Tile>, pc: Piece, action: Move) -> Option<Piece> {
    if occ(g, action.end.row as int, action.end.col as int) {
        at(g, action.end.row as int, action.end.col as int)
    } else if ep_step(g, pc, action) {
        at(g, action.initial.row as int, action.end.col as int)
    } else {
        None
    }
}

/// The square that a basic step removes a piece from, if any. On an
/// en-passant capture it differs from the move's destination.
pub open spec fn step_removed_pos(g: Seq<Tile>, pc: Piece, action: Move) -> Option<(isize, isize)> {
    if occ(g, action.end.row as int, action.end.col as int) {
        Some((action.end.row, action.end.col))
    } else if ep_step(g, pc, action) {
        Some((action.initial.row, action.end.col))
    } else {
        None
    }
}

/// The log record a basic step appends.
pub open spec fn step_entry(g: Seq<Tile>, pc: Piece, action: Move, mt: MoveType) -> LogEntry {
    LogEntry {
        action,
        piece: pc,
        removed_piece: step_removed(g, pc, action),
        removed_pos: step_removed_pos(g, pc, action),
        was_moved: pc.has_moved,
        movetype: mt,
    }
}

/// Whether an executed move triggers the compound castling transaction:
/// a two-column King move, not simulated nor suppressed.
pub open spec fn castle_step(pc: Piece, action: Move, simulation: bool, ignore_castle: bool) -> bool {
    let ic = action.initial.col as int;
    let ec = action.end.col as int;
    &&& pc.ptype == PieceType::King
    &&& (ic - ec == 2 || ec - ic == 2)
    &&& !simulation
    &&& !ignore_castle
}

/// Corner column of the rook linked to a castling king move.
pub open spec fn castle_corner_col(action: Move) -> int {
    if action.end.col < action.initial.col {
        0
    } else {
        7
    }
}

/// Destination column of the rook linked to a castling king move.
pub open spec fn castle_rook_dest_col(action: Move) -> int {
    if action.end.col < action.initial.col {
        3
    } else {
        5
    }
}

/// The rook's half of a castling transaction, on the king's origin row.
pub open spec fn castle_rook_move(action: Move) -> Move {
    Move {
        initial: Tile {
            row: action.initial.row,
            col: castle_corner_col(action) as isize,
            present_piece: None,
        },
        end: Tile {
            row: action.initial.row,
            col: castle_rook_dest_col(action) as isize,
            present_piece: None,
        },
    }
}

/// The mover snapshot of a log entry with its prior `has_moved` restored.
pub open spec fn restored_piece(e: LogEntry) -> Piece {
    Piece { has_moved: e.was_moved, ..e.piece }
}

/// The grid after reverting one log entry: the mover back on its origin
/// with its prior flag, the destination cleared, any captured piece back
/// on its recorded square.
pub open spec fn revert_grid(g: Seq<Tile>, e: LogEntry) -> Seq<Tile> {
    let g2 = put(
        put(g, e.action.end.row as int, e.action.end.col as int, None),
        e.action.initial.row as int,
        e.action.initial.col as int,
        Some(restored_piece(e)),
    );
    if e.removed_pos is Some {
        put(g2, (e.removed_pos->0).0 as int, (e.removed_pos->0).1 as int, e.removed_piece)
    } else {
        g2
    }
}

/// Everything [`Board::execute_move`] promises about the board it leaves
/// behind, as a relation between the prior and the new state.
pub open spec fn execute_post(
    pre: Board,
    pc: Piece,
    action: Move,
    simulation: bool,
    ignore_castle: bool,
    post: Board,
) -> bool {
    let g = pre.tiles@;
    let ir = action.initial.row as int;
    let cc = castle_corner_col(action);
    &&& post.white_moves@ == pre.white_moves@
    &&& post.black_moves@ == pre.black_moves@
    &&& post.zobrist_keys@ == pre.zobrist_keys@
    &&& if castle_step(pc, action, simulation, ignore_castle) && occ(g, ir, cc) {
        let rook = at(g, ir, cc)->0;
        let rmv = castle_rook_move(action);
        let g1 = step_grid(g, rook, rmv, pre.cur_uid);
        let uid1 = next_uid(pre.cur_uid, promo_step(rook, rmv));
        &&& post.tiles@ == step_grid(g1, pc, action, uid1)
        &&& post.move_log@ == pre.move_log@.push(step_entry(g, rook, rmv, MoveType::NoCastle)).push(
            step_entry(g1, pc, action, MoveType::Castle),
        )
        &&& post.cur_uid == uid1
    } else {
        &&& post.tiles@ == step_grid(g, pc, action, pre.cur_uid)
        &&& post.move_log@ == pre.move_log@.push(step_entry(g, pc, action, MoveType::NoCastle))
        &&& post.cur_uid == next_uid(pre.cur_uid, promo_step(pc, action))
    }
}

/// Everything [`Board::undo_last_move`] promises: the latest log entry
/// reverted and popped, a Castle-tagged entry together with its paired
/// rook entry, and a report of whether anything was undone.
pub open spec fn undo_post(pre: Board, post: Board, r: bool) -> bool {
    let n = pre.move_log@.len() as int;
    &&& post.white_moves@ == pre.white_moves@
    &&& post.black_moves@ == pre.black_moves@
    &&& post.zobrist_keys@ == pre.zobrist_keys@
    &&& post.cur_uid == pre.cur_uid
    &&& r == (n > 0)
    &&& if n == 0 {
        post.tiles@ == pre.tiles@ && post.move_log@ == pre.move_log@
    } else {
        let e = pre.move_log@[n - 1];
        if e.movetype == MoveType::Castle && n >= 2 {
            &&& post.tiles@ == revert_grid(revert_grid(pre.tiles@, e), pre.move_log@[n - 2])
            &&& post.move_log@ == pre.move_log@.subrange(0, n - 2)
        } else {
            &&& post.tiles@ == revert_grid(pre.tiles@, e)
            &&& post.move_log@ == pre.move_log@.subrange(0, n - 1)
        }
    }
}

impl Board {
    /// Replace the occupant of square (r, c), keeping the tile's
    /// coordinates.
    fn set_tile(&mut self, r: usize, c: usize, p: Option<Piece>)
        requires
            old(self).tiles@.len() == 64,
            r < 8,
            c < 8,
        ensures
            final(self).tiles@ == put(old(self).tiles@, r as int, c as int, p),
            final(self).move_log@ == old(self).move_log@,
            final(self).white_moves@ == old(self).white_moves@,
            final(self).black_moves@ == old(self).black_moves@,
            final(self).zobrist_keys@ == old(self).zobrist_keys@,
            final(self).cur_uid == old(self).cur_uid,
    {
        let idx = r * 8 + c;
        let t = Tile { present_piece: p, ..self.tiles[idx] };
        self.tiles.set(idx, t);
    }

    /// One basic move step: record any capture (including the displaced
    /// pawn of an en-passant capture), relocate the mover, promote a pawn
    /// reaching the far rank, refresh the mover's flags, and append
    /// exactly one log entry.
    fn apply_basic(&mut self, piece: Piece, action: Move, movetype: MoveType)
        requires
            old(self).wf(),
            piece.wf(),
            move_on_board(action),
        ensures
            final(self).wf(),
            final(self).tiles@ == step_grid(old(self).tiles@, piece, action, old(self).cur_uid),
            final(self).move_log@ == old(self).move_log@.push(
                step_entry(old(self).tiles@, piece, action, movetype),
            ),
            final(self).white_moves@ == old(self).white_moves@,
            final(self).black_moves@ == old(self).black_moves@,
            final(self).zobrist_keys@ == old(self).zobrist_keys@,
            final(self).cur_uid == next_uid(old(self).cur_uid, promo_step(piece, action)),
    {
        let ir = action.initial.row as usize;
        let ic = action.initial.col as usize;
        let er = action.end.row as usize;
        let ec = action.end.col as usize;

        let pre_dest: Option<Piece> = self.tiles[er * 8 + ec].present_piece;
        let mut removed_piece: Option<Piece> = None;
        let mut removed_pos: Option<(isize, isize)> = None;
        if pre_dest.is_some() {
            removed_piece = pre_dest;
            removed_pos = Some((action.end.row, action.end.col));
        }

        let mut ep_capture = false;
        if piece.ptype == PieceType::Pawn && ec != ic && pre_dest.is_none() {
            let side = &self.tiles[ir * 8 + ec];
            if side.has_piece() && side.piece().ptype == PieceType::Pawn
                && side.piece().en_passant {
                ep_capture = true;
                removed_piece = side.present_piece;
                removed_pos = Some((action.initial.row, action.end.col));
            }
        }

        self.set_tile(ir, ic, None);

        let final_pc = if piece.ptype == PieceType::Pawn && (er == 0 || er == 7) {
            let uid = self.cur_uid;
            if self.cur_uid < isize::MAX {
                self.cur_uid = self.cur_uid + 1;
            }
            let mut q = Piece::new(PieceType::Queen, piece.color, uid, er, ec);
            q.has_moved = true;
            q
        } else {
            let mut p = piece;
            p.has_moved = true;
            p.row = er;
            p.col = ec;
            p
        };
        self.set_tile(er, ec, Some(final_pc));

        if ep_capture {
            self.set_tile(ir, ec, None);
        }

        self.move_log.push(
            LogEntry {
                action,
                piece,
                removed_piece,
                removed_pos,
                was_moved: piece.has_moved,
                movetype,
            },
        );
    }

    /// Relocate a piece with no capture record, no log entry and no flag
    /// update: the scratch mechanism of king-safety analysis.
    pub fn simulate_move(&mut self, piece: Piece, action: Move)
        requires
            old(self).wf(),
            piece.wf(),
            move_on_board(action),
        ensures
            final(self).wf(),
            final(self).tiles@ == put(
                put(old(self).tiles@, action.initial.row as int, action.initial.col as int, None),
                action.end.row as int,
                action.end.col as int,
                Some(piece),
            ),
            final(self).move_log@ == old(self).move_log@,
            final(self).white_moves@ == old(self).white_moves@,
            final(self).black_moves@ == old(self).black_moves@,
            final(self).zobrist_keys@ == old(self).zobrist_keys@,
            final(self).cur_uid == old(self).cur_uid,
    {
        self.set_tile(action.initial.row as usize, action.initial.col as usize, None);
        self.set_tile(action.end.row as usize, action.end.col as usize, Some(piece));
    }

    /// Inverse relocation of [`Board::simulate_move`].
    pub fn undo_simulate_move(&mut self, piece: Piece, action: Move)
        requires
            old(self).wf(),
            piece.wf(),
            move_on_board(action),
        ensures
            final(self).wf(),
            final(self).tiles@ == put(
                put(old(self).tiles@, action.end.row as int, action.end.col as int, None),
                action.initial.row as int,
                action.initial.col as int,
                Some(piece),
            ),
            final(self).move_log@ == old(self).move_log@,
            final(self).white_moves@ == old(self).white_moves@,
            final(self).black_moves@ == old(self).black_moves@,
            final(self).zobrist_keys@ == old(self).zobrist_keys@,
            final(self).cur_uid == old(self).cur_uid,
    {
        self.set_tile(action.end.row as usize, action.end.col as usize, None);
        self.set_tile(action.initial.row as usize, action.initial.col as usize, Some(piece));
    }

    /// Execute a move: capture, relocate, promote, and — for a two-column
    /// King move that is neither simulated nor suppressed, when a piece
    /// stands on the linked corner — first move that corner piece to its
    /// castling square as a paired log entry.
    pub fn execute_move(&mut self, piece: &mut Piece, action: Move, simulation: bool, ignore_castle: bool)
        requires
            old(self).wf(),
            old(piece).wf(),
            move_on_board(action),
        ensures
            *final(piece) == *old(piece),
            final(self).wf(),
            execute_post(*old(self), *old(piece), action, simulation, ignore_castle, *final(self)),
    {
        let pc = *piece;
        let mut compound = false;
        if pc.ptype == PieceType::King && !simulation && !ignore_castle {
            let dcol = action.end.col - action.initial.col;
            if dcol == 2 || dcol == -2 {
                let corner_col: usize = if dcol < 0 {
                    0
                } else {
                    7
                };
                let dest_col: usize = if dcol < 0 {
                    3
                } else {
                    5
                };
                let ir = action.initial.row as usize;
                if self.tiles[ir * 8 + corner_col].has_piece() {
                    let rook = *self.tiles[ir * 8 + corner_col].piece();
                    let mut rinit = Tile::new();
                    rinit.init(action.initial.row, corner_col as isize, None);
                    let mut rend = Tile::new();
                    rend.init(action.initial.row, dest_col as isize, None);
                    let rmv = Move::new(rinit, rend);
                    proof {
                        assert(rmv == castle_rook_move(action));
                    }
                    self.apply_basic(rook, rmv, MoveType::NoCastle);
                    self.apply_basic(pc, action, MoveType::Castle);
                    compound = true;
                }
            }
        }
        if !compound {
            self.apply_basic(pc, action, MoveType::NoCastle);
        }
    }

    /// Pop and revert the most recent log entry; a Castle-tagged entry
    /// also pops and reverts the paired rook entry beneath it. A no-op
    /// reporting `false` when the log is empty.
    pub fn undo_last_move(&mut self) -> (r: bool)
        requires
            old(self).wf(),
        ensures
            final(self).wf(),
            undo_post(*old(self), *final(self), r),
    {
        if self.move_log.len() == 0 {
            return false;
        }
        let e = match self.move_log.pop() {
            Some(entry) => entry,
            None => {
                return false;
            },
        };
        self.revert_entry(e);
        if e.movetype == MoveType::Castle && self.move_log.len() > 0 {
            let e2 = match self.move_log.pop() {
                Some(entry) => entry,
                None => {
                    return true;
                },
            };
            self.revert_entry(e2);
            proof {
                assert(final(self).move_log@ =~= old(self).move_log@.subrange(
                    0,
                    old(self).move_log@.len() - 2,
                ));
            }
        } else {
            proof {
                assert(final(self).move_log@ =~= old(self).move_log@.subrange(
                    0,
                    old(self).move_log@.len() - 1,
                ));
            }
        }
        return true;
    }

    /// Revert one log entry on the grid.
    fn revert_entry(&mut self, e: LogEntry)
        requires
            old(self).wf(),
            wf_entry(e),
        ensures
            final(self).wf(),
            final(self).tiles@ == revert_grid(old(self).tiles@, e),
            final(self).move_log@ == old(self).move_log@,
            final(self).white_moves@ == old(self).white_moves@,
            final(self).black_moves@ == old(self).black_moves@,
            final(self).zobrist_keys@ == old(self).zobrist_keys@,
            final(self).cur_uid == old(self).cur_uid,
    {
        let mut p = e.piece;
        p.has_moved = e.was_moved;
        self.set_tile(e.action.end.row as usize, e.action.end.col as usize, None);
        self.set_tile(e.action.initial.row as usize, e.action.initial.col as usize, Some(p));
        match e.removed_pos {
            Some(pos) => {
                self.set_tile(pos.0 as usize, pos.1 as usize, e.removed_piece);
            },
            None => {},
        }
    }

    /// Replace a pawn that reached the far rank by a newly identified
    /// queen; other promotion choices are out of scope.
    pub fn check_promotion(&mut self, piece: Piece, end: Tile)
        requires
            old(self).wf(),
            in_b(end.row as int, end.col as int),
            piece.color != Team::Neutral,
        ensures
            final(self).wf(),
            final(self).move_log@ == old(self).move_log@,
            final(self).white_moves@ == old(self).white_moves@,
            final(self).black_moves@ == old(self).black_moves@,
            final(self).zobrist_keys@ == old(self).zobrist_keys@,
            if end.row == 0 || end.row == 7 {
                &&& final(self).tiles@ == put(
                    old(self).tiles@,
                    end.row as int,
                    end.col as int,
                    Some(
                        spec_new_piece(
                            PieceType::Queen,
                            piece.color,
                            old(self).cur_uid,
                            piece.row,
                            piece.col,
                        ),
                    ),
                )
                &&& final(self).cur_uid == next_uid(old(self).cur_uid, true)
            } else {
                &&& final(self).tiles@ == old(self).tiles@
                &&& final(self).cur_uid == old(self).cur_uid
            },
    {
        if end.row == 0 || end.row == 7 {
            let q = Piece::new(PieceType::Queen, piece.color, self.cur_uid, piece.row, piece.col);
            self.set_tile(end.row as usize, end.col as usize, Some(q));
            if self.cur_uid < isize::MAX {
                self.cur_uid = self.cur_uid + 1;
            }
        }
    }

    /// Put a freshly identified piece of the given kind and side on a
    /// square, replacing any occupant: the construction step for
    /// arbitrary positions.
    pub fn place_piece(&mut self, ptype: PieceType, color: Team, row: usize, col: usize)
        requires
            old(self).wf(),
            ptype != PieceType::Empty,
            color != Team::Neutral,
            row < 8,
            col < 8,
        ensures
            final(self).wf(),
            final(self).tiles@ == put(
                old(self).tiles@,
                row as int,
                col as int,
                Some(spec_new_piece(ptype, color, old(self).cur_uid, row, col)),
            ),
            final(self).move_log@ == old(self).move_log@,
            final(self).white_moves@ == old(self).white_moves@,
            final(self).black_moves@ == old(self).black_moves@,
            final(self).zobrist_keys@ == old(self).zobrist_keys@,
            final(self).cur_uid == next_uid(old(self).cur_uid, true),
            pos_cached(old(self).tiles@) ==> pos_cached(final(self).tiles@),
    {
        let p = Piece::new(ptype, color, self.cur_uid, row, col);
        self.set_tile(row, col, Some(p));
        if self.cur_uid < isize::MAX {
            self.cur_uid = self.cur_uid + 1;
        }
    }

    /// Clear a square.
    pub fn remove_piece(&mut self, row: usize, col: usize)
        requires
            old(self).wf(),
            row < 8,
            col < 8,
        ensures
            final(self).wf(),
            final(self).tiles@ == put(old(self).tiles@, row as int, col as int, None),
            final(self).move_log@ == old(self).move_log@,
            final(self).white_moves@ == old(self).white_moves@,
            final(self).black_moves@ == old(self).black_moves@,
            final(self).zobrist_keys@ == old(self).zobrist_keys@,
            final(self).cur_uid == old(self).cur_uid,
            pos_cached(old(self).tiles@) ==> pos_cached(final(self).tiles@),
    {
        self.set_tile(row, col, None);
    }

    /// Whether a (king) move spans exactly two columns: the castling
    /// pattern.
    pub fn is_castling(&self, initial: Tile, end: Tile) -> (r: bool)
        requires
            0 <= initial.col < 8,
            0 <= end.col < 8,
        ensures
            r == (initial.col - end.col == 2 || end.col - initial.col == 2),
    {
        if initial.col >= end.col {
            initial.col - end.col == 2
        } else {
            end.col - initial.col == 2
        }
    }
}

/// A tile with any pawn's en-passant eligibility withdrawn.
pub open spec fn cleared_ep_tile(t: Tile) -> Tile {
    if t.present_piece is Some && t.present_piece->0.ptype == PieceType::Pawn {
        Tile { present_piece: Some(Piece { en_passant: false, ..t.present_piece->0 }), ..t }
    } else {
        t
    }
}

/// The grid with every pawn's en-passant eligibility withdrawn.
pub open spec fn clear_ep_grid(g: Seq<Tile>) -> Seq<Tile> {
    Seq::new(g.len(), |i: int| cleared_ep_tile(g[i]))
}

impl Board {
    /// Refresh en-passant eligibility after a finalized move: clear the
    /// flag on every pawn board-wide, then set it on the arriving pawn
    /// if it has just advanced two rows. Must run once per ply, before
    /// the opposing side's legal moves are computed.
    pub fn set_en_passant(&mut self, piece: &mut Piece, action: Move)
        requires
            old(self).wf(),
            move_on_board(action),
        ensures
            final(self).wf(),
            *final(piece) == *old(piece),
            final(self).move_log@ == old(self).move_log@,
            final(self).white_moves@ == old(self).white_moves@,
            final(self).black_moves@ == old(self).black_moves@,
            final(self).zobrist_keys@ == old(self).zobrist_keys@,
            final(self).cur_uid == old(self).cur_uid,
            pos_cached(old(self).tiles@) ==> pos_cached(final(self).tiles@),
            ({
                let gc = clear_ep_grid(old(self).tiles@);
                let ir = action.initial.row as int;
                let er = action.end.row as int;
                let ec = action.end.col as int;
                if old(piece).ptype == PieceType::Pawn && (ir - er == 2 || er - ir == 2) && occ(
                    gc,
                    er,
                    ec,
                ) {
                    final(self).tiles@ == put(
                        gc,
                        er,
                        ec,
                        Some(Piece { en_passant: true, ..at(gc, er, ec)->0 }),
                    )
                } else {
                    final(self).tiles@ == gc
                }
            }),
    {
        let ghost g0 = self.tiles@;
        let mut i: usize = 0;
        while i < 64
            invariant
                i <= 64,
                self.tiles@.len() == 64,
                wf_grid(g0),
                forall|j: int| 0 <= j < i ==> self.tiles@[j] == cleared_ep_tile(#[trigger] g0[j]),
                forall|j: int| i <= j < 64 ==> self.tiles@[j] == #[trigger] g0[j],
                self.move_log@ == old(self).move_log@,
                self.white_moves@ == old(self).white_moves@,
                self.black_moves@ == old(self).black_moves@,
                self.zobrist_keys@ == old(self).zobrist_keys@,
                self.cur_uid == old(self).cur_uid,
            decreases 64 - i,
        {
            let t = self.tiles[i];
            if t.has_piece() && t.piece().ptype == PieceType::Pawn {
                let mut p = *t.piece();
                p.en_passant = false;
                self.tiles.set(i, Tile { present_piece: Some(p), ..t });
            }
            i = i + 1;
        }
        proof {
            assert(self.tiles@ =~= clear_ep_grid(g0));
            assert(wf_grid(self.tiles@));
        }
        if piece.ptype == PieceType::Pawn {
            let rd = if action.initial.row >= action.end.row {
                action.initial.row - action.end.row
            } else {
                action.end.row - action.initial.row
            };
            if rd == 2 {
                let er = action.end.row as usize;
                let ec = action.end.col as usize;
                let t = self.tiles[er * 8 + ec];
                if t.has_piece() {
                    let mut p = *t.piece();
                    p.en_passant = true;
                    self.set_tile(er, ec, Some(p));
                }
            }
        }
        proof {
            if pos_cached(old(self).tiles@) {
                let gc = clear_ep_grid(old(self).tiles@);
                assert(pos_cached(gc)) by {
                    assert forall|i: int|
                        0 <= i < 64 && (#[trigger] gc[i]).present_piece is Some
                            implies gc[i].present_piece->0.row == i / 8 && gc[i].present_piece->0.col
                        == i % 8 by {
                        assert(gc[i] == cleared_ep_tile(old(self).tiles@[i]));
                    }
                }
                assert forall|i: int|
                    0 <= i < 64 && (#[trigger] self.tiles@[i]).present_piece is Some
                        implies self.tiles@[i].present_piece->0.row == i / 8
                    && self.tiles@[i].present_piece->0.col == i % 8 by {
                    if self.tiles@[i] != gc[i] {
                        assert(self.tiles@[i].present_piece->0.row == gc[i].present_piece->0.row
                            && self.tiles@[i].present_piece->0.col == gc[i].present_piece->0.col);
                    }
                }
            }
        }
    }
}

/// The grid a basic step leaves behind is well formed whenever the grid
/// it started from was.
pub proof fn lemma_step_wf(g: Seq<Tile>, pc: Piece, action: Move, uid: isize)
    requires
        wf_grid(g),
        pc.wf(),
        move_on_board(action),
    ensures
        wf_grid(step_grid(g, pc, action, uid)),
{
    assert(step_piece(pc, action, uid).wf());
}

/// One basic step followed by the revert of its own log entry restores
/// the grid exactly, including every piece's flags.
pub proof fn lemma_step_round_trip(g: Seq<Tile>, pc: Piece, action: Move, mt: MoveType, uid: isize)
    requires
        wf_grid(g),
        pc.wf(),
        move_on_board(action),
        at(g, action.initial.row as int, action.initial.col as int) == Some(pc),
    ensures
        revert_grid(step_grid(g, pc, action, uid), step_entry(g, pc, action, mt)) == g,
{
    let s = step_grid(g, pc, action, uid);
    let e = step_entry(g, pc, action, mt);
    assert(restored_piece(e) == pc);
    assert(revert_grid(s, e) =~= g);
}

/// Round trip: executing any move and then undoing it restores the
/// exact piece placement — and with it the position hash — together
/// with every piece's `has_moved` and `en_passant` flags, and leaves
/// the move log as it was. The castling pattern is covered for a king
/// standing on its home file, as it does in every reachable position.
pub proof fn lemma_execute_undo_round_trip(
    b0: Board,
    b1: Board,
    b2: Board,
    pc: Piece,
    action: Move,
    simulation: bool,
    ignore_castle: bool,
    undone: bool,
)
    requires
        b0.wf(),
        pc.wf(),
        move_on_board(action),
        at(b0.tiles@, action.initial.row as int, action.initial.col as int) == Some(pc),
        castle_step(pc, action, simulation, ignore_castle) && occ(
            b0.tiles@,
            action.initial.row as int,
            castle_corner_col(action),
        ) ==> action.initial.col == 4 && action.end.row == action.initial.row,
        execute_post(b0, pc, action, simulation, ignore_castle, b1),
        undo_post(b1, b2, undone),
    ensures
        undone,
        b2.tiles@ == b0.tiles@,
        b2.move_log@ == b0.move_log@,
{
    let g = b0.tiles@;
    let ir = action.initial.row as int;
    let cc = castle_corner_col(action);
    let n = b0.move_log@.len() as int;
    if castle_step(pc, action, simulation, ignore_castle) && occ(g, ir, cc) {
        let rook = at(g, ir, cc)->0;
        let rmv = castle_rook_move(action);
        let g1 = step_grid(g, rook, rmv, b0.cur_uid);
        let e1 = step_entry(g, rook, rmv, MoveType::NoCastle);
        let e2 = step_entry(g1, pc, action, MoveType::Castle);
        assert(move_on_board(rmv));
        assert(rook.wf());
        lemma_step_wf(g, rook, rmv, b0.cur_uid);
        assert(at(g1, ir, action.initial.col as int) == Some(pc));
        lemma_step_round_trip(g1, pc, action, MoveType::Castle, next_uid(
            b0.cur_uid,
            promo_step(rook, rmv),
        ));
        lemma_step_round_trip(g, rook, rmv, MoveType::NoCastle, b0.cur_uid);
        assert(b1.move_log@.len() == n + 2);
        assert(b1.move_log@[n + 1] == e2);
        assert(b1.move_log@[n] == e1);
        assert(b2.move_log@ =~= b0.move_log@);
    } else {
        lemma_step_round_trip(g, pc, action, MoveType::NoCastle, b0.cur_uid);
        assert(b1.move_log@.len() == n + 1);
        assert(b2.move_log@ =~= b0.move_log@);
    }
}

/// The King counter over the first n squares reads only those squares.
proof fn lemma_king_count_prefix(g1: Seq<Tile>, g2: Seq<Tile>, color: Team, n: int)
    requires
        n <= g1.len(),
        n <= g2.len(),
        forall|k: int| 0 <= k < n ==> g1[k] == g2[k],
    ensures
        king_count(g1, color, n) == king_count(g2, color, n),
    decreases n,
{
    if n > 0 {
        lemma_king_count_prefix(g1, g2, color, n - 1);
        assert(sq((n - 1) / 8, (n - 1) % 8) == n - 1);
        assert(g1[n - 1] == g2[n - 1]);
    }
}

/// Every piece's cached row and column equal its square: the coherence
/// executed moves maintain. Scratch relocations ([`Board::simulate_move`])
/// deliberately leave the cache stale, so this is not part of [`Board::wf`].
pub open spec fn pos_cached(g: Seq<Tile>) -> bool {
    forall|i: int|
        0 <= i < 64 && (#[trigger] g[i]).present_piece is Some ==> g[i].present_piece->0.row == i
            / 8 && g[i].present_piece->0.col == i % 8
}

/// One basic step refreshes the mover's cache and touches no other
/// piece, so cache coherence survives it.
proof fn lemma_step_pos_cached(g: Seq<Tile>, pc: Piece, action: Move, uid: isize)
    requires
        g.len() == 64,
        move_on_board(action),
        pos_cached(g),
    ensures
        pos_cached(step_grid(g, pc, action, uid)),
{
    let er = action.end.row as int;
    let ec = action.end.col as int;
    let s = step_grid(g, pc, action, uid);
    assert forall|i: int|
        0 <= i < 64 && (#[trigger] s[i]).present_piece is Some implies s[i].present_piece->0.row
        == i / 8 && s[i].present_piece->0.col == i % 8 by {
        if i == sq(er, ec) && s[i].present_piece is Some {
            assert(s[i].present_piece == Some(step_piece(pc, action, uid)));
            assert(step_piece(pc, action, uid).row == er && step_piece(pc, action, uid).col == ec);
        } else if s[i].present_piece is Some {
            assert(s[i].present_piece == g[i].present_piece);
        }
    }
}

/// An executed move leaves every piece's cached position equal to its
/// square whenever that held before.
pub proof fn lemma_execute_preserves_position_cache(
    b0: Board,
    b1: Board,
    pc: Piece,
    action: Move,
    simulation: bool,
    ignore_castle: bool,
)
    requires
        b0.wf(),
        move_on_board(action),
        execute_post(b0, pc, action, simulation, ignore_castle, b1),
        pos_cached(b0.tiles@),
    ensures
        pos_cached(b1.tiles@),
{
    let g = b0.tiles@;
    let ir = action.initial.row as int;
    let cc = castle_corner_col(action);
    if castle_step(pc, action, simulation, ignore_castle) && occ(g, ir, cc) {
        let rook = at(g, ir, cc)->0;
        let rmv = castle_rook_move(action);
        lemma_step_pos_cached(g, rook, rmv, b0.cur_uid);
        lemma_step_pos_cached(
            step_grid(g, rook, rmv, b0.cur_uid),
            pc,
            action,
            next_uid(b0.cur_uid, promo_step(rook, rmv)),
        );
    } else {
        lemma_step_pos_cached(g, pc, action, b0.cur_uid);
    }
}

/// Every piece on the grid carries an identity below the counter: the
/// counter is fresh.
pub open spec fn grid_ids_fresh(g: Seq<Tile>, uid: isize) -> bool {
    forall|i: int|
        0 <= i < 64 && (#[trigger] g[i]).present_piece is Some ==> g[i].present_piece->0.uid < uid
}

/// Every piece recorded in the log carries an identity below the counter.
pub open spec fn log_ids_fresh(log: Seq<LogEntry>, uid: isize) -> bool {
    forall|i: int|
        0 <= i < log.len() ==> (#[trigger] log[i]).piece.uid < uid && (log[i].removed_piece
            is Some ==> log[i].removed_piece->0.uid < uid)
}

/// The identity counter has never been handed out: no piece on the grid
/// or in the log carries it or anything above it.
pub open spec fn ids_fresh(b: Board) -> bool {
    &&& grid_ids_fresh(b.tiles@, b.cur_uid)
    &&& log_ids_fresh(b.move_log@, b.cur_uid)
}

/// No two pieces on the grid share an identity.
pub open spec fn ids_unique(g: Seq<Tile>) -> bool {
    forall|i: int, j: int|
        0 <= i < 64 && 0 <= j < 64 && i != j && (#[trigger] g[i]).present_piece is Some && (
        #[trigger] g[j]).present_piece is Some ==> g[i].present_piece->0.uid
            != g[j].present_piece->0.uid
}

/// One if this occupant is a King of the side, zero otherwise.
pub open spec fn kc_contrib(p: Option<Piece>, color: Team) -> int {
    if p is Some && p->0.color == color && p->0.ptype == PieceType::King {
        1
    } else {
        0
    }
}

/// Number of this side's Kings among the first n squares.
pub open spec fn king_count(g: Seq<Tile>, color: Team, n: int) -> int
    decreases n,
{
    if n <= 0 {
        0
    } else {
        king_count(g, color, n - 1) + kc_contrib(at(g, (n - 1) / 8, (n - 1) % 8), color)
    }
}

/// Exactly one King per side stands on the grid.
pub open spec fn kings_exact(g: Seq<Tile>) -> bool {
    king_count(g, Team::White, 64) == 1 && king_count(g, Team::Black, 64) == 1
}

/// Replacing one square's occupant changes a side's King count by the
/// difference of the occupants' contributions.
proof fn lemma_king_count_put(g: Seq<Tile>, r: int, c: int, p: Option<Piece>, color: Team, n: int)
    requires
        in_b(r, c),
        g.len() == 64,
        n <= 64,
    ensures
        king_count(put(g, r, c, p), color, n) == king_count(g, color, n) + (if sq(r, c) < n {
            kc_contrib(p, color) - kc_contrib(at(g, r, c), color)
        } else {
            0int
        }),
    decreases n,
{
    if n > 0 {
        lemma_king_count_put(g, r, c, p, color, n - 1);
        assert(sq((n - 1) / 8, (n - 1) % 8) == n - 1);
        if n - 1 == sq(r, c) {
            assert(at(put(g, r, c, p), (n - 1) / 8, (n - 1) % 8) == p);
        } else {
            assert(at(put(g, r, c, p), (n - 1) / 8, (n - 1) % 8) == at(
                g,
                (n - 1) / 8,
                (n - 1) % 8,
            ));
        }
    }
}

/// One basic step neither creates nor destroys a King when its captures
/// (the destination occupant and the displaced en-passant pawn) are not
/// Kings; promotion yields a Queen, never a King.
proof fn lemma_step_preserves_kings(g: Seq<Tile>, pc: Piece, action: Move, uid: isize, color: Team)
    requires
        g.len() == 64,
        pc.wf(),
        move_on_board(action),
        at(g, action.initial.row as int, action.initial.col as int) == Some(pc),
        occ(g, action.end.row as int, action.end.col as int) ==> at(
            g,
            action.end.row as int,
            action.end.col as int,
        )->0.ptype != PieceType::King,
    ensures
        king_count(step_grid(g, pc, action, uid), color, 64) == king_count(g, color, 64),
{
    let ir = action.initial.row as int;
    let ic = action.initial.col as int;
    let er = action.end.row as int;
    let ec = action.end.col as int;
    let g1 = put(g, ir, ic, None);
    let g2 = put(g1, er, ec, Some(step_piece(pc, action, uid)));
    lemma_king_count_put(g, ir, ic, None, color, 64);
    lemma_king_count_put(g1, er, ec, Some(step_piece(pc, action, uid)), color, 64);
    if ep_step(g, pc, action) {
        assert(at(g1, er, ec) == at(g, er, ec) || (ir == er && ic == ec));
        assert(at(g1, ir, ec) == at(g, ir, ec) || ic == ec);
        lemma_king_count_put(g2, ir, ec, None, color, 64);
        assert(at(g2, ir, ec) == at(g, ir, ec));
    } else {
        if ir == er && ic == ec {
            assert(kc_contrib(at(g1, er, ec), color) == 0);
        } else {
            assert(at(g1, er, ec) == at(g, er, ec));
        }
    }
}

/// One basic step keeps the counter fresh and the identities on the grid
/// pairwise distinct; a promotion's new identity is the counter itself,
/// unused anywhere on the grid.
proof fn lemma_step_preserves_ids(g: Seq<Tile>, pc: Piece, action: Move, uid: isize)
    requires
        g.len() == 64,
        move_on_board(action),
        at(g, action.initial.row as int, action.initial.col as int) == Some(pc),
        grid_ids_fresh(g, uid),
        ids_unique(g),
        uid < isize::MAX,
    ensures
        grid_ids_fresh(step_grid(g, pc, action, uid), next_uid(uid, promo_step(pc, action))),
        ids_unique(step_grid(g, pc, action, uid)),
{
    let ir = action.initial.row as int;
    let ic = action.initial.col as int;
    let er = action.end.row as int;
    let ec = action.end.col as int;
    let s = step_grid(g, pc, action, uid);
    let fp = step_piece(pc, action, uid);
    let u1 = next_uid(uid, promo_step(pc, action));
    assert(fp.uid < u1);
    assert forall|i: int|
        0 <= i < 64 && (#[trigger] s[i]).present_piece is Some implies s[i].present_piece->0.uid
        < u1 by {
        if i == sq(er, ec) && !(ep_step(g, pc, action) && sq(ir, ec) == sq(er, ec)) {
            assert(s[i].present_piece == Some(fp));
        } else if s[i].present_piece is Some {
            assert(s[i].present_piece == g[i].present_piece);
        }
    }
    assert forall|i: int, j: int|
        0 <= i < 64 && 0 <= j < 64 && i != j && (#[trigger] s[i]).present_piece is Some && (
        #[trigger] s[j]).present_piece is Some implies s[i].present_piece->0.uid
        != s[j].present_piece->0.uid by {
        let ei = sq(er, ec);
        if i == ei {
            assert(s[i].present_piece == Some(fp) || s[i].present_piece is None);
            assert(s[j].present_piece == g[j].present_piece);
            if promo_step(pc, action) {
                assert(g[j].present_piece->0.uid < uid);
            } else {
                assert(fp.uid == pc.uid && g[sq(ir, ic)].present_piece == Some(pc));
                assert(j != sq(ir, ic) ==> g[j].present_piece->0.uid != pc.uid);
                assert(j == sq(ir, ic) ==> s[j].present_piece is None);
            }
        } else if j == ei {
            assert(s[j].present_piece == Some(fp) || s[j].present_piece is None);
            assert(s[i].present_piece == g[i].present_piece);
            if promo_step(pc, action) {
                assert(g[i].present_piece->0.uid < uid);
            } else {
                assert(fp.uid == pc.uid && g[sq(ir, ic)].present_piece == Some(pc));
                assert(i != sq(ir, ic) ==> g[i].present_piece->0.uid != pc.uid);
                assert(i == sq(ir, ic) ==> s[i].present_piece is None);
            }
        } else {
            assert(s[i].present_piece == g[i].present_piece);
            assert(s[j].present_piece == g[j].present_piece);
        }
    }
}

/// Executing a move from a board with a fresh counter and distinct piece
/// identities leaves the counter fresh and the identities distinct; in
/// particular a promotion's new Queen carries an identity different from
/// every piece already on the board. The castling pattern is covered for
/// a king on its home file, as in every reachable position.
pub proof fn lemma_execute_preserves_identities(
    b0: Board,
    b1: Board,
    pc: Piece,
    action: Move,
    simulation: bool,
    ignore_castle: bool,
)
    requires
        b0.wf(),
        pc.wf(),
        move_on_board(action),
        at(b0.tiles@, action.initial.row as int, action.initial.col as int) == Some(pc),
        castle_step(pc, action, simulation, ignore_castle) && occ(
            b0.tiles@,
            action.initial.row as int,
            castle_corner_col(action),
        ) ==> action.initial.col == 4 && action.end.row == action.initial.row,
        execute_post(b0, pc, action, simulation, ignore_castle, b1),
        ids_fresh(b0),
        ids_unique(b0.tiles@),
        b0.cur_uid < isize::MAX,
    ensures
        ids_fresh(b1),
        ids_unique(b1.tiles@),
{
    let g = b0.tiles@;
    let ir = action.initial.row as int;
    let ic = action.initial.col as int;
    let cc = castle_corner_col(action);
    if castle_step(pc, action, simulation, ignore_castle) && occ(g, ir, cc) {
        let rook = at(g, ir, cc)->0;
        let rmv = castle_rook_move(action);
        let g1 = step_grid(g, rook, rmv, b0.cur_uid);
        let uid1 = next_uid(b0.cur_uid, promo_step(rook, rmv));
        lemma_step_preserves_ids(g, rook, rmv, b0.cur_uid);
        assert(at(g1, ir, ic) == Some(pc));
        assert(uid1 < isize::MAX || !promo_step(pc, action)) by {
            assert(pc.ptype == PieceType::King);
        }
        if uid1 < isize::MAX {
            lemma_step_preserves_ids(g1, pc, action, uid1);
        } else {
            assert(!promo_step(pc, action));
            assert(next_uid(uid1, false) == uid1);
            lemma_step_preserves_ids_capped(g1, pc, action, uid1);
        }
        assert(log_ids_fresh(b1.move_log@, b1.cur_uid)) by {
            assert forall|i: int|
                0 <= i < b1.move_log@.len() implies (#[trigger] b1.move_log@[i]).piece.uid
                < b1.cur_uid && (b1.move_log@[i].removed_piece is Some
                ==> b1.move_log@[i].removed_piece->0.uid < b1.cur_uid) by {
                if i < b0.move_log@.len() {
                    assert(b1.move_log@[i] == b0.move_log@[i]);
                } else if i == b0.move_log@.len() {
                    assert(b1.move_log@[i] == step_entry(g, rook, rmv, MoveType::NoCastle));
                } else {
                    assert(b1.move_log@[i] == step_entry(g1, pc, action, MoveType::Castle));
                    assert(grid_ids_fresh(g1, uid1));
                }
            }
        }
    } else {
        lemma_step_preserves_ids(g, pc, action, b0.cur_uid);
        assert(log_ids_fresh(b1.move_log@, b1.cur_uid)) by {
            assert forall|i: int|
                0 <= i < b1.move_log@.len() implies (#[trigger] b1.move_log@[i]).piece.uid
                < b1.cur_uid && (b1.move_log@[i].removed_piece is Some
                ==> b1.move_log@[i].removed_piece->0.uid < b1.cur_uid) by {
                if i < b0.move_log@.len() {
                    assert(b1.move_log@[i] == b0.move_log@[i]);
                } else {
                    assert(b1.move_log@[i] == step_entry(g, pc, action, MoveType::NoCastle));
                }
            }
        }
    }
}

/// The capped variant of the step identity lemma: with the counter at
/// its ceiling no promotion identity is claimed, only preservation of
/// what already holds below the ceiling.
proof fn lemma_step_preserves_ids_capped(g: Seq<Tile>, pc: Piece, action: Move, uid: isize)
    requires
        g.len() == 64,
        move_on_board(action),
        at(g, action.initial.row as int, action.initial.col as int) == Some(pc),
        grid_ids_fresh(g, uid),
        ids_unique(g),
        !promo_step(pc, action),
    ensures
        grid_ids_fresh(step_grid(g, pc, action, uid), uid),
        ids_unique(step_grid(g, pc, action, uid)),
{
    let ir = action.initial.row as int;
    let ic = action.initial.col as int;
    let er = action.end.row as int;
    let ec = action.end.col as int;
    let s = step_grid(g, pc, action, uid);
    let fp = step_piece(pc, action, uid);
    assert(fp.uid == pc.uid);
    assert forall|i: int|
        0 <= i < 64 && (#[trigger] s[i]).present_piece is Some implies s[i].present_piece->0.uid
        < uid by {
        if i == sq(er, ec) && !(ep_step(g, pc, action) && sq(ir, ec) == sq(er, ec)) {
            assert(s[i].present_piece == Some(fp));
        } else if s[i].present_piece is Some {
            assert(s[i].present_piece == g[i].present_piece);
        }
    }
    assert forall|i: int, j: int|
        0 <= i < 64 && 0 <= j < 64 && i != j && (#[trigger] s[i]).present_piece is Some && (
        #[trigger] s[j]).present_piece is Some implies s[i].present_piece->0.uid
        != s[j].present_piece->0.uid by {
        let ei = sq(er, ec);
        if i == ei {
            assert(s[i].present_piece == Some(fp) || s[i].present_piece is None);
            assert(s[j].present_piece == g[j].present_piece);
            assert(g[sq(ir, ic)].present_piece == Some(pc));
            assert(j != sq(ir, ic) ==> g[j].present_piece->0.uid != pc.uid);
            assert(j == sq(ir, ic) ==> s[j].present_piece is None);
        } else if j == ei {
            assert(s[j].present_piece == Some(fp) || s[j].present_piece is None);
            assert(s[i].present_piece == g[i].present_piece);
            assert(g[sq(ir, ic)].present_piece == Some(pc));
            assert(i != sq(ir, ic) ==> g[i].present_piece->0.uid != pc.uid);
            assert(i == sq(ir, ic) ==> s[i].present_piece is None);
        } else {
            assert(s[i].present_piece == g[i].present_piece);
            assert(s[j].present_piece == g[j].present_piece);
        }
    }
}

/// Executing a move that captures no King — the destination holds none,
/// and for a castling transaction the rook's landing square holds none —
/// keeps exactly one King per side on the board.
pub proof fn lemma_execute_preserves_kings(
    b0: Board,
    b1: Board,
    pc: Piece,
    action: Move,
    simulation: bool,
    ignore_castle: bool,
)
    requires
        b0.wf(),
        pc.wf(),
        move_on_board(action),
        at(b0.tiles@, action.initial.row as int, action.initial.col as int) == Some(pc),
        castle_step(pc, action, simulation, ignore_castle) && occ(
            b0.tiles@,
            action.initial.row as int,
            castle_corner_col(action),
        ) ==> action.initial.col == 4 && action.end.row == action.initial.row && (occ(
            b0.tiles@,
            action.initial.row as int,
            castle_rook_dest_col(action),
        ) ==> at(
            b0.tiles@,
            action.initial.row as int,
            castle_rook_dest_col(action),
        )->0.ptype != PieceType::King),
        occ(b0.tiles@, action.end.row as int, action.end.col as int) ==> at(
            b0.tiles@,
            action.end.row as int,
            action.end.col as int,
        )->0.ptype != PieceType::King,
        execute_post(b0, pc, action, simulation, ignore_castle, b1),
        kings_exact(b0.tiles@),
    ensures
        kings_exact(b1.tiles@),
{
    let g = b0.tiles@;
    let ir = action.initial.row as int;
    let ic = action.initial.col as int;
    let cc = castle_corner_col(action);
    let dc = castle_rook_dest_col(action);
    if castle_step(pc, action, simulation, ignore_castle) && occ(g, ir, cc) {
        let rook = at(g, ir, cc)->0;
        let rmv = castle_rook_move(action);
        let g1 = step_grid(g, rook, rmv, b0.cur_uid);
        assert(rook.wf());
        lemma_step_preserves_kings(g, rook, rmv, b0.cur_uid, Team::White);
        lemma_step_preserves_kings(g, rook, rmv, b0.cur_uid, Team::Black);
        assert(at(g1, ir, ic) == Some(pc));
        assert(at(g1, action.end.row as int, action.end.col as int) == at(
            g,
            action.end.row as int,
            action.end.col as int,
        ));
        let uid1 = next_uid(b0.cur_uid, promo_step(rook, rmv));
        lemma_step_preserves_kings(g1, pc, action, uid1, Team::White);
        lemma_step_preserves_kings(g1, pc, action, uid1, Team::Black);
    } else {
        lemma_step_preserves_kings(g, pc, action, b0.cur_uid, Team::White);
        lemma_step_preserves_kings(g, pc, action, b0.cur_uid, Team::Black);
    }
}

/// Exec mirror of [`start_kind`].
fn start_piece_kind(row: usize, col: usize) -> (r: PieceType)
    requires
        row < 8,
        col < 8,
    ensures
        r == start_kind(row as int, col as int),
{
    if row == 1 || row == 6 {
        PieceType::Pawn
    } else if row == 0 || row == 7 {
        if col == 0 || col == 7 {
            PieceType::Rook
        } else if col == 1 || col == 6 {
            PieceType::Knight
        } else if col == 2 || col == 5 {
            PieceType::Bishop
        } else if col == 3 {
            PieceType::Queen
        } else {
            PieceType::King
        }
    } else {
        PieceType::Empty
    }
}

} // verus!
