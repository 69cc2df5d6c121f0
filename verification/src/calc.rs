//! Per-piece legal-move generation against the pin information computed
//! by the ray analysis.

use vstd::prelude::*;
use crate::board::{at, clone_vec, in_b, occ, put, rival_at, sq, team_at, Board};
use crate::movegen::in_check_spec;
use crate::piece::{Piece, PieceType};
use crate::team::Team;
use crate::tile::{Move, Tile};
use crate::utils::inrange;

verus! {

/// The pin constraint a direction must satisfy: unpinned, or colinear
/// with the pin ray in either sense.
pub open spec fn dir_allowed(pd: Option<(int, int)>, dr: int, dc: int) -> bool {
    match pd {
        None => true,
        Some(p) => p == (dr, dc) || p == (-dr, -dc),
    }
}

/// A sliding destination along one direction: every square strictly
/// before it on the ray is empty, and it is empty or enemy-occupied.
pub open spec fn slide_dest_dir(
    g: Seq<Tile>,
    color: Team,
    r: int,
    c: int,
    dr: int,
    dc: int,
    r2: int,
    c2: int,
    fuel: nat,
) -> bool
    decreases fuel,
{
    &&& fuel > 0
    &&& in_b(r + dr, c + dc)
    &&& !team_at(g, r + dr, c + dc, color)
    &&& {
        ||| (r2 == r + dr && c2 == c + dc)
        ||| (!occ(g, r + dr, c + dc) && slide_dest_dir(
            g,
            color,
            r + dr,
            c + dc,
            dr,
            dc,
            r2,
            c2,
            (fuel - 1) as nat,
        ))
    }
}

/// Row offset of knight move n, in generation order.
pub open spec fn kmove_r(n: int) -> int {
    if n == 0 {
        -2
    } else if n == 1 {
        -1
    } else if n == 2 {
        1
    } else if n == 3 {
        2
    } else if n == 4 {
        2
    } else if n == 5 {
        1
    } else if n == 6 {
        -1
    } else {
        -2
    }
}

/// Column offset of knight move n, in generation order.
pub open spec fn kmove_c(n: int) -> int {
    if n == 0 {
        1
    } else if n == 1 {
        2
    } else if n == 2 {
        2
    } else if n == 3 {
        1
    } else if n == 4 {
        -1
    } else if n == 5 {
        -2
    } else if n == 6 {
        -2
    } else {
        -1
    }
}

/// A knight destination: one of the eight jumps, on the board, empty or
/// enemy-occupied; a pinned knight has none.
pub open spec fn knight_dest(
    g: Seq<Tile>,
    pc: Piece,
    r: int,
    c: int,
    pinned: bool,
    r2: int,
    c2: int,
) -> bool {
    &&& !pinned
    &&& in_b(r2, c2)
    &&& !team_at(g, r2, c2, pc.color)
    &&& exists|n: int| 0 <= n < 8 && r2 == r + #[trigger] kmove_r(n) && c2 == c + kmove_c(n)
}

/// A pawn's straight advance: one square forward onto an empty square,
/// or two from its start while both squares are empty; only along the
/// pin ray when pinned.
pub open spec fn pawn_fwd_dest(
    g: Seq<Tile>,
    pc: Piece,
    r: int,
    c: int,
    pd: Option<(int, int)>,
    r2: int,
    c2: int,
) -> bool {
    let d = pc.dir as int;
    &&& c2 == c
    &&& (pd is None || pd->0 == (d, 0int))
    &&& in_b(r2, c2)
    &&& {
        ||| (r2 == r + d && !occ(g, r2, c))
        ||| (r2 == r + 2 * d && !pc.has_moved && in_b(r + d, c) && !occ(g, r + d, c) && !occ(
            g,
            r2,
            c,
        ))
    }
}

/// A pawn's diagonal capture onto an enemy-occupied square.
pub open spec fn pawn_diag_dest(
    g: Seq<Tile>,
    pc: Piece,
    r: int,
    c: int,
    pd: Option<(int, int)>,
    r2: int,
    c2: int,
) -> bool {
    let d = pc.dir as int;
    &&& r2 == r + d
    &&& in_b(r2, c2)
    &&& rival_at(g, r2, c2, pc.color)
    &&& {
        ||| (c2 == c - 1 && (pd is None || pd->0 == (d, -1int)))
        ||| (c2 == c + 1 && (pd is None || pd->0 == (d, 1int)))
    }
}

/// The rank a pawn of this side captures en passant from.
pub open spec fn ep_rank(color: Team) -> int {
    if color == Team::White {
        3
    } else {
        4
    }
}

/// The rank a pawn of this side lands on after an en-passant capture.
pub open spec fn ep_dest_rank(color: Team) -> int {
    if color == Team::White {
        2
    } else {
        5
    }
}

/// Preconditions of an en-passant capture toward column offset s: the
/// pawn on its capture rank, an eligible enemy pawn beside it, and the
/// pin ray (if any) matching the capture direction.
pub open spec fn ep_cond(
    g: Seq<Tile>,
    pc: Piece,
    r: int,
    c: int,
    pd: Option<(int, int)>,
    s: int,
) -> bool {
    &&& r == ep_rank(pc.color)
    &&& 0 <= c + s < 8
    &&& rival_at(g, r, c + s, pc.color)
    &&& (pd is None || pd->0 == (pc.dir as int, s))
    &&& at(g, r, c + s)->0.ptype == PieceType::Pawn
    &&& at(g, r, c + s)->0.en_passant
}

/// An en-passant destination. The capture toward column +1 is examined
/// first and, once taken, the one toward -1 is not.
pub open spec fn pawn_ep_dest(
    g: Seq<Tile>,
    pc: Piece,
    r: int,
    c: int,
    pd: Option<(int, int)>,
    r2: int,
    c2: int,
) -> bool {
    &&& r2 == ep_dest_rank(pc.color)
    &&& {
        ||| (c2 == c + 1 && ep_cond(g, pc, r, c, pd, 1))
        ||| (c2 == c - 1 && ep_cond(g, pc, r, c, pd, -1) && !ep_cond(g, pc, r, c, pd, 1))
    }
}

/// Any pawn destination.
pub open spec fn pawn_dest(
    g: Seq<Tile>,
    pc: Piece,
    r: int,
    c: int,
    pd: Option<(int, int)>,
    r2: int,
    c2: int,
) -> bool {
    ||| pawn_fwd_dest(g, pc, r, c, pd, r2, c2)
    ||| pawn_diag_dest(g, pc, r, c, pd, r2, c2)
    ||| pawn_ep_dest(g, pc, r, c, pd, r2, c2)
}

/// The grid used to test a King relocation for safety.
pub open spec fn king_sim_grid(g: Seq<Tile>, pc: Piece, r: int, c: int, r2: int, c2: int) -> Seq<
    Tile,
> {
    put(put(g, r, c, None), r2, c2, Some(pc))
}

/// Row offset of king move n, in generation order.
pub open spec fn amove_r(n: int) -> int {
    if n == 0 {
        -1
    } else if n == 1 {
        -1
    } else if n == 2 {
        0
    } else if n == 3 {
        1
    } else if n == 4 {
        1
    } else if n == 5 {
        1
    } else if n == 6 {
        0
    } else {
        -1
    }
}

/// Column offset of king move n, in generation order.
pub open spec fn amove_c(n: int) -> int {
    if n == 0 {
        0
    } else if n == 1 {
        1
    } else if n == 2 {
        1
    } else if n == 3 {
        1
    } else if n == 4 {
        0
    } else if n == 5 {
        -1
    } else if n == 6 {
        -1
    } else {
        -1
    }
}

/// A plain King destination: an adjacent square, empty or enemy-held,
/// where a scratch-board relocation leaves the King out of check.
pub open spec fn king_adj_dest(g: Seq<Tile>, pc: Piece, r: int, c: int, r2: int, c2: int) -> bool {
    &&& in_b(r2, c2)
    &&& !team_at(g, r2, c2, pc.color)
    &&& (exists|n: int| 0 <= n < 8 && r2 == r + #[trigger] amove_r(n) && c2 == c + amove_c(n))
    &&& !in_check_spec(king_sim_grid(g, pc, r, c, r2, c2), pc.color)
}

/// Queenside castling rights: King and corner Rook unmoved, the three
/// squares between them empty, and the King safe on both its transit
/// square and its destination square.
pub open spec fn castle_q_ok(g: Seq<Tile>, pc: Piece, r: int, c: int) -> bool {
    &&& !pc.has_moved
    &&& occ(g, r, 0)
    &&& at(g, r, 0)->0.ptype == PieceType::Rook
    &&& !at(g, r, 0)->0.has_moved
    &&& !occ(g, r, 1)
    &&& !occ(g, r, 2)
    &&& !occ(g, r, 3)
    &&& !in_check_spec(king_sim_grid(g, pc, r, c, r, 2), pc.color)
    &&& !in_check_spec(king_sim_grid(g, pc, r, c, r, 3), pc.color)
}

/// Kingside castling rights, with the two squares between and the
/// transit/destination safety checks.
pub open spec fn castle_k_ok(g: Seq<Tile>, pc: Piece, r: int, c: int) -> bool {
    &&& !pc.has_moved
    &&& occ(g, r, 7)
    &&& at(g, r, 7)->0.ptype == PieceType::Rook
    &&& !at(g, r, 7)->0.has_moved
    &&& !occ(g, r, 5)
    &&& !occ(g, r, 6)
    &&& !in_check_spec(king_sim_grid(g, pc, r, c, r, 6), pc.color)
    &&& !in_check_spec(king_sim_grid(g, pc, r, c, r, 5), pc.color)
}

/// Any King destination: an adjacent safe square or a castling square.
pub open spec fn king_dest(g: Seq<Tile>, pc: Piece, r: int, c: int, r2: int, c2: int) -> bool {
    ||| king_adj_dest(g, pc, r, c, r2, c2)
    ||| (castle_q_ok(g, pc, r, c) && r2 == r && c2 == 2)
    ||| (castle_k_ok(g, pc, r, c) && r2 == r && c2 == 6)
}

/// Any destination of a sliding piece over a set of directions given as
/// (row step, column step) pairs, each filtered by the pin constraint.
pub open spec fn slide_dest(
    g: Seq<Tile>,
    color: Team,
    r: int,
    c: int,
    pd: Option<(int, int)>,
    incrs: Seq<(isize, isize)>,
    r2: int,
    c2: int,
) -> bool {
    exists|k: int|
        0 <= k < incrs.len() && dir_allowed(pd, (#[trigger] incrs[k]).0 as int, incrs[k].1 as int)
            && slide_dest_dir(g, color, r, c, incrs[k].0 as int, incrs[k].1 as int, r2, c2, 7)
}

/// The diagonal direction set of a Bishop.
pub open spec fn bishop_dirs() -> Seq<(isize, isize)> {
    seq![(-1isize, 1isize), (-1isize, -1isize), (1isize, 1isize), (1isize, -1isize)]
}

/// The orthogonal direction set of a Rook.
pub open spec fn rook_dirs() -> Seq<(isize, isize)> {
    seq![(-1isize, 0isize), (1isize, 0isize), (0isize, 1isize), (0isize, -1isize)]
}

/// The full direction set of a Queen.
pub open spec fn queen_dirs() -> Seq<(isize, isize)> {
    bishop_dirs() + rook_dirs()
}

/// Every legal destination of one piece standing on (r, c), under pin
/// state pd, before any check-response filtering.
pub open spec fn piece_dest(
    g: Seq<Tile>,
    pc: Piece,
    r: int,
    c: int,
    pd: Option<(int, int)>,
    r2: int,
    c2: int,
) -> bool {
    if pc.ptype == PieceType::Pawn {
        pawn_dest(g, pc, r, c, pd, r2, c2)
    } else if pc.ptype == PieceType::Knight {
        knight_dest(g, pc, r, c, pd is Some, r2, c2)
    } else if pc.ptype == PieceType::Bishop {
        slide_dest(g, pc.color, r, c, pd, bishop_dirs(), r2, c2)
    } else if pc.ptype == PieceType::Rook {
        slide_dest(g, pc.color, r, c, pd, rook_dirs(), r2, c2)
    } else if pc.ptype == PieceType::Queen {
        slide_dest(g, pc.color, r, c, pd, queen_dirs(), r2, c2)
    } else if pc.ptype == PieceType::King {
        king_dest(g, pc, r, c, r2, c2)
    } else {
        false
    }
}

/// Whether some move of the list ends on (r2, c2).
pub open spec fn has_dest(l: Seq<Move>, r2: int, c2: int) -> bool {
    exists|i: int| 0 <= i < l.len() && (#[trigger] l[i]).end.row == r2 && l[i].end.col == c2
}

/// What a generated move list claims: every entry leaves from (r, c)
/// toward a destination satisfying `dest`, and every such destination
/// appears. `dest` is instantiated with one of the predicates above.
pub open spec fn moves_match(
    l: Seq<Move>,
    r: int,
    c: int,
    dest: spec_fn(int, int) -> bool,
) -> bool {
    &&& forall|i: int|
        0 <= i < l.len() ==> {
            &&& (#[trigger] l[i]).initial.row == r
            &&& l[i].initial.col == c
            &&& in_b(l[i].end.row as int, l[i].end.col as int)
            &&& dest(l[i].end.row as int, l[i].end.col as int)
        }
    &&& forall|r2: int, c2: int| dest(r2, c2) && in_b(r2, c2) ==> #[trigger] has_dest(l, r2, c2)
}

/// A destination recorded in a list stays recorded in any extension of it.
pub proof fn lemma_has_dest_extend(l0: Seq<Move>, l1: Seq<Move>)
    requires
        l0.len() <= l1.len(),
        forall|i: int| 0 <= i < l0.len() ==> #[trigger] l1[i] == l0[i],
    ensures
        forall|r2: int, c2: int| #[trigger] has_dest(l0, r2, c2) ==> has_dest(l1, r2, c2),
{
    assert forall|r2: int, c2: int| #[trigger] has_dest(l0, r2, c2) implies has_dest(
        l1,
        r2,
        c2,
    ) by {
        let i0 = choose|i: int|
            0 <= i < l0.len() && (#[trigger] l0[i]).end.row == r2 && l0[i].end.col == c2;
        assert(l1[i0] == l0[i0]);
        assert(0 <= i0 < l1.len() && l1[i0].end.row == r2 && l1[i0].end.col == c2);
    }
}

/// One side's move table with one entry's list extended by a block of
/// generated moves, all other entries untouched.
pub open spec fn entry_extended(
    told: Seq<Vec<Move>>,
    tnew: Seq<Vec<Move>>,
    k: int,
    r: int,
    c: int,
    dest: spec_fn(int, int) -> bool,
) -> bool {
    &&& tnew.len() == told.len()
    &&& forall|i: int| 0 <= i < told.len() && i != k ==> #[trigger] tnew[i] == told[i]
    &&& 0 <= k < told.len()
    &&& told[k]@.len() <= tnew[k]@.len()
    &&& tnew[k]@.subrange(0, told[k]@.len() as int) == told[k]@
    &&& moves_match(tnew[k]@.skip(told[k]@.len() as int), r, c, dest)
}

/// What every per-piece generator promises: the grid, log, keys and
/// counters untouched; the mover's own table entry extended by exactly
/// the moves toward `dest`; everything else in both tables untouched.
pub open spec fn calc_post(
    pre: Board,
    post: Board,
    color: Team,
    k: int,
    r: int,
    c: int,
    dest: spec_fn(int, int) -> bool,
) -> bool {
    &&& post.tiles@ == pre.tiles@
    &&& post.move_log@ == pre.move_log@
    &&& post.zobrist_keys@ == pre.zobrist_keys@
    &&& post.cur_uid == pre.cur_uid
    &&& if color == Team::White {
        entry_extended(pre.white_moves@, post.white_moves@, k, r, c, dest) && post.black_moves@
            == pre.black_moves@
    } else {
        entry_extended(pre.black_moves@, post.black_moves@, k, r, c, dest) && post.white_moves@
            == pre.white_moves@
    }
}

impl Board {
    /// Append a block of generated moves to one side's entry for the
    /// square (row, col).
    fn extend_entry(&mut self, color: Team, row: usize, col: usize, mvs: &Vec<Move>)
        requires
            old(self).wf(),
            color != Team::Neutral,
            row < 8,
            col < 8,
        ensures
            final(self).wf(),
            final(self).tiles@ == old(self).tiles@,
            final(self).move_log@ == old(self).move_log@,
            final(self).zobrist_keys@ == old(self).zobrist_keys@,
            final(self).cur_uid == old(self).cur_uid,
            ({
                let k = sq(row as int, col as int);
                if color == Team::White {
                    &&& final(self).black_moves@ == old(self).black_moves@
                    &&& final(self).white_moves@.len() == 64
                    &&& forall|i: int|
                        0 <= i < 64 && i != k ==> #[trigger] final(self).white_moves@[i] == old(
                            self,
                        ).white_moves@[i]
                    &&& final(self).white_moves@[k]@ == old(self).white_moves@[k]@ + mvs@
                } else {
                    &&& final(self).white_moves@ == old(self).white_moves@
                    &&& final(self).black_moves@.len() == 64
                    &&& forall|i: int|
                        0 <= i < 64 && i != k ==> #[trigger] final(self).black_moves@[i] == old(
                            self,
                        ).black_moves@[i]
                    &&& final(self).black_moves@[k]@ == old(self).black_moves@[k]@ + mvs@
                }
            }),
    {
        let k = row * 8 + col;
        let mut more = clone_vec(mvs);
        if color == Team::White {
            let mut inner = clone_vec(&self.white_moves[k]);
            inner.append(&mut more);
            self.white_moves.set(k, inner);
        } else {
            let mut inner = clone_vec(&self.black_moves[k]);
            inner.append(&mut more);
            self.black_moves.set(k, inner);
        }
    }

    /// Append one generated move to the mover's table entry, keyed by
    /// the move's origin square.
    pub fn add_valid_move(&mut self, piece: Piece, action: Move)
        requires
            old(self).wf(),
            piece.color != Team::Neutral,
            in_b(action.initial.row as int, action.initial.col as int),
        ensures
            final(self).wf(),
            final(self).tiles@ == old(self).tiles@,
            final(self).move_log@ == old(self).move_log@,
            final(self).zobrist_keys@ == old(self).zobrist_keys@,
            final(self).cur_uid == old(self).cur_uid,
            ({
                let k = sq(action.initial.row as int, action.initial.col as int);
                if piece.color == Team::White {
                    &&& final(self).black_moves@ == old(self).black_moves@
                    &&& final(self).white_moves@.len() == 64
                    &&& forall|i: int|
                        0 <= i < 64 && i != k ==> #[trigger] final(self).white_moves@[i] == old(
                            self,
                        ).white_moves@[i]
                    &&& final(self).white_moves@[k]@ == old(self).white_moves@[k]@.push(action)
                } else {
                    &&& final(self).white_moves@ == old(self).white_moves@
                    &&& final(self).black_moves@.len() == 64
                    &&& forall|i: int|
                        0 <= i < 64 && i != k ==> #[trigger] final(self).black_moves@[i] == old(
                            self,
                        ).black_moves@[i]
                    &&& final(self).black_moves@[k]@ == old(self).black_moves@[k]@.push(action)
                }
            }),
    {
        let mut one: Vec<Move> = Vec::new();
        one.push(action);
        let row = action.initial.row as usize;
        let col = action.initial.col as usize;
        self.extend_entry(piece.color, row, col, &one);
        proof {
            let k = sq(row as int, col as int);
            if piece.color == Team::White {
                assert(self.white_moves@[k]@ =~= old(self).white_moves@[k]@.push(action));
            } else {
                assert(self.black_moves@[k]@ =~= old(self).black_moves@[k]@.push(action));
            }
        }
    }

    /// Whether this exact move is recorded as currently legal for the
    /// piece, by membership in the mover's table entry.
    pub fn is_valid(&self, piece: Piece, action: Move) -> (r: bool)
        requires
            self.wf(),
            piece.color != Team::Neutral,
            piece.row < 8,
            piece.col < 8,
        ensures
            r == exists|i: int|
                0 <= i < self.moves_of(piece.color)[sq(piece.row as int, piece.col as int)]@.len()
                    && (#[trigger] self.moves_of(piece.color)[sq(
                    piece.row as int,
                    piece.col as int,
                )]@[i]).spec_same(action),
    {
        let k = piece.row * 8 + piece.col;
        let entry = if piece.color == Team::White {
            &self.white_moves[k]
        } else {
            &self.black_moves[k]
        };
        let mut i: usize = 0;
        while i < entry.len()
            invariant
                entry@ == self.moves_of(piece.color)[sq(piece.row as int, piece.col as int)]@,
                i <= entry@.len(),
                forall|i2: int| 0 <= i2 < i ==> !(#[trigger] entry@[i2]).spec_same(action),
            decreases entry@.len() - i,
        {
            if entry[i].same_as(&action) {
                return true;
            }
            i = i + 1;
        }
        false
    }

    /// Generate the knight moves of the piece on (row, col): the eight
    /// jumps, filtered to on-board squares that are empty or enemy-held;
    /// none at all when the knight is pinned.
    pub fn calc_knight_moves(&mut self, piece: Piece, row: isize, col: isize, pinned: bool)
        requires
            old(self).wf(),
            piece.color != Team::Neutral,
            in_b(row as int, col as int),
        ensures
            final(self).wf(),
            calc_post(
                *old(self),
                *final(self),
                piece.color,
                sq(row as int, col as int),
                row as int,
                col as int,
                (|r2: int, c2: int|
                    knight_dest(old(self).tiles@, piece, row as int, col as int, pinned, r2, c2)),
            ),
    {
        let ghost g = self.tiles@;
        let ghost dest = (|r2: int, c2: int|
            knight_dest(g, piece, row as int, col as int, pinned, r2, c2));
        let mut mvs: Vec<Move> = Vec::new();
        let mut n: usize = 0;
        while n < 8
            invariant
                self.wf(),
                g == self.tiles@,
                in_b(row as int, col as int),
                n <= 8,
                dest == (|r2: int, c2: int|
                    knight_dest(g, piece, row as int, col as int, pinned, r2, c2)),
                forall|i: int|
                    0 <= i < mvs@.len() ==> {
                        &&& (#[trigger] mvs@[i]).initial.row == row
                        &&& mvs@[i].initial.col == col
                        &&& in_b(mvs@[i].end.row as int, mvs@[i].end.col as int)
                        &&& dest(mvs@[i].end.row as int, mvs@[i].end.col as int)
                    },
                forall|r2: int, c2: int, n2: int|
                    #![trigger dest(r2, c2), kmove_r(n2)]
                    0 <= n2 < n && r2 == row + kmove_r(n2) && c2 == col + kmove_c(n2)
                        && dest(r2, c2) ==> has_dest(mvs@, r2, c2),
            decreases 8 - n,
        {
            let (mr, mc) = kmove(n);
            let r2 = row + mr;
            let c2 = col + mc;
            let ghost mvs0 = mvs@;
            if inrange(r2) && inrange(c2) {
                let idx = (r2 as usize) * 8 + (c2 as usize);
                let t = self.tiles[idx];
                proof {
                    assert(at(g, r2 as int, c2 as int) == t.present_piece);
                }
                if t.is_empty_or_rival(piece.color) && !pinned {
                    mvs.push(mk_move(row, col, r2, c2, t.present_piece));
                    proof {
                        assert(mvs@[mvs@.len() - 1].end.row == r2);
                        assert(dest(r2 as int, c2 as int)) by {
                            assert(0 <= n < 8 && r2 as int == row + kmove_r(n as int) && c2 as int
                                == col + kmove_c(n as int));
                        }
                    }
                }
            }
            proof {
                lemma_has_dest_extend(mvs0, mvs@);
                assert forall|r2: int, c2: int, n2: int|
                    #![trigger dest(r2, c2), kmove_r(n2)]
                    0 <= n2 < n + 1 && r2 == row + kmove_r(n2) && c2 == col + kmove_c(n2)
                        && dest(r2, c2) implies has_dest(mvs@, r2, c2) by {
                    if n2 == n as int {
                        assert(knight_dest(g, piece, row as int, col as int, pinned, r2, c2));
                        assert(in_b(r2, c2) && !team_at(g, r2, c2, piece.color) && !pinned);
                        assert(mvs@[mvs@.len() - 1].end.row == r2 && mvs@[mvs@.len() - 1].end.col
                            == c2);
                    } else {
                        assert(has_dest(mvs0, r2, c2));
                    }
                }
            }
            n = n + 1;
        }
        proof {
            assert forall|r2: int, c2: int| #[trigger] dest(r2, c2) && in_b(r2, c2) implies has_dest(
                mvs@,
                r2,
                c2,
            ) by {
                assert(knight_dest(g, piece, row as int, col as int, pinned, r2, c2));
                let n2 = choose|n2: int|
                    0 <= n2 < 8 && r2 == row + #[trigger] kmove_r(n2) && c2 == col + kmove_c(n2);
                assert(0 <= n2 < 8 && r2 == row + kmove_r(n2) && c2 == col + kmove_c(n2) && dest(
                    r2,
                    c2,
                ));
            }
            assert(moves_match(mvs@, row as int, col as int, dest));
        }
        let ghost pre = *self;
        self.extend_entry(piece.color, row as usize, col as usize, &mvs);
        proof {
            lemma_calc_post_from_extend(pre, *self, piece.color, row as int, col as int, mvs@, dest);
        }
    }
}

impl Board {
    /// Walk one ray from (row, col): empty squares are destinations, the
    /// first enemy piece is a final capture destination, a friendly
    /// piece or the board edge ends the walk.
    fn slide_dir_moves(&self, color: Team, row: isize, col: isize, dr: isize, dc: isize) -> (mvs:
        Vec<Move>)
        requires
            self.wf(),
            in_b(row as int, col as int),
            -1 <= dr <= 1,
            -1 <= dc <= 1,
            !(dr == 0 && dc == 0),
        ensures
            forall|i: int|
                0 <= i < mvs@.len() ==> {
                    &&& (#[trigger] mvs@[i]).initial.row == row
                    &&& mvs@[i].initial.col == col
                    &&& in_b(mvs@[i].end.row as int, mvs@[i].end.col as int)
                    &&& slide_dest_dir(
                        self.tiles@,
                        color,
                        row as int,
                        col as int,
                        dr as int,
                        dc as int,
                        mvs@[i].end.row as int,
                        mvs@[i].end.col as int,
                        7,
                    )
                },
            forall|r2: int, c2: int|
                #[trigger] slide_dest_dir(
                    self.tiles@,
                    color,
                    row as int,
                    col as int,
                    dr as int,
                    dc as int,
                    r2,
                    c2,
                    7,
                ) ==> has_dest(mvs@, r2, c2),
    {
        let ghost g = self.tiles@;
        let mut mvs: Vec<Move> = Vec::new();
        let mut pr = row;
        let mut pcc = col;
        let mut st: usize = 0;
        let mut done = false;
        while st < 7 && !done
            invariant
                self.wf(),
                g == self.tiles@,
                in_b(row as int, col as int),
                in_b(pr as int, pcc as int),
                -1 <= dr <= 1,
                -1 <= dc <= 1,
                st <= 7,
                forall|i: int|
                    0 <= i < mvs@.len() ==> {
                        &&& (#[trigger] mvs@[i]).initial.row == row
                        &&& mvs@[i].initial.col == col
                        &&& in_b(mvs@[i].end.row as int, mvs@[i].end.col as int)
                        &&& slide_dest_dir(
                            g,
                            color,
                            row as int,
                            col as int,
                            dr as int,
                            dc as int,
                            mvs@[i].end.row as int,
                            mvs@[i].end.col as int,
                            7,
                        )
                    },
                !done ==> forall|r2: int, c2: int|
                    #[trigger] slide_dest_dir(
                        g,
                        color,
                        row as int,
                        col as int,
                        dr as int,
                        dc as int,
                        r2,
                        c2,
                        7,
                    ) ==> has_dest(mvs@, r2, c2) || slide_dest_dir(
                        g,
                        color,
                        pr as int,
                        pcc as int,
                        dr as int,
                        dc as int,
                        r2,
                        c2,
                        (7 - st) as nat,
                    ),
                done ==> forall|r2: int, c2: int|
                    #[trigger] slide_dest_dir(
                        g,
                        color,
                        row as int,
                        col as int,
                        dr as int,
                        dc as int,
                        r2,
                        c2,
                        7,
                    ) ==> has_dest(mvs@, r2, c2),
                !done ==> forall|r2: int, c2: int|
                    #[trigger] slide_dest_dir(
                        g,
                        color,
                        pr as int,
                        pcc as int,
                        dr as int,
                        dc as int,
                        r2,
                        c2,
                        (7 - st) as nat,
                    ) ==> slide_dest_dir(
                        g,
                        color,
                        row as int,
                        col as int,
                        dr as int,
                        dc as int,
                        r2,
                        c2,
                        7,
                    ),
            decreases 7 - st,
        {
            let nr = pr + dr;
            let nc = pcc + dc;
            let ghost mvs0 = mvs@;
            let ghost f = (7 - st) as nat;
            if !inrange(nr) || !inrange(nc) {
                done = true;
                proof {
                    assert(forall|r2: int, c2: int|
                        !slide_dest_dir(
                            g,
                            color,
                            pr as int,
                            pcc as int,
                            dr as int,
                            dc as int,
                            r2,
                            c2,
                            f,
                        ));
                }
            } else {
                let t = self.tiles[(nr as usize) * 8 + (nc as usize)];
                proof {
                    assert(at(g, nr as int, nc as int) == t.present_piece);
                }
                if t.has_team(color) {
                    done = true;
                    proof {
                        assert(forall|r2: int, c2: int|
                            !slide_dest_dir(
                                g,
                                color,
                                pr as int,
                                pcc as int,
                                dr as int,
                                dc as int,
                                r2,
                                c2,
                                f,
                            ));
                    }
                } else if t.has_rival(color) {
                    mvs.push(mk_move(row, col, nr, nc, t.present_piece));
                    done = true;
                    proof {
                        lemma_has_dest_extend(mvs0, mvs@);
                        assert(mvs@[mvs@.len() - 1].end.row == nr && mvs@[mvs@.len() - 1].end.col
                            == nc);
                        assert(slide_dest_dir(
                            g,
                            color,
                            pr as int,
                            pcc as int,
                            dr as int,
                            dc as int,
                            nr as int,
                            nc as int,
                            f,
                        ));
                        assert(forall|r2: int, c2: int|
                            #[trigger] slide_dest_dir(
                                g,
                                color,
                                pr as int,
                                pcc as int,
                                dr as int,
                                dc as int,
                                r2,
                                c2,
                                f,
                            ) ==> r2 == nr as int && c2 == nc as int);
                    }
                } else {
                    mvs.push(mk_move(row, col, nr, nc, t.present_piece));
                    proof {
                        lemma_has_dest_extend(mvs0, mvs@);
                        assert(mvs@[mvs@.len() - 1].end.row == nr && mvs@[mvs@.len() - 1].end.col
                            == nc);
                        assert(slide_dest_dir(
                            g,
                            color,
                            pr as int,
                            pcc as int,
                            dr as int,
                            dc as int,
                            nr as int,
                            nc as int,
                            f,
                        ));
                        assert(forall|r2: int, c2: int|
                            #[trigger] slide_dest_dir(
                                g,
                                color,
                                pr as int,
                                pcc as int,
                                dr as int,
                                dc as int,
                                r2,
                                c2,
                                f,
                            ) ==> (r2 == nr as int && c2 == nc as int) || slide_dest_dir(
                                g,
                                color,
                                nr as int,
                                nc as int,
                                dr as int,
                                dc as int,
                                r2,
                                c2,
                                (f - 1) as nat,
                            ));
                    }
                    proof {
                        assert forall|r2: int, c2: int|
                            #[trigger] slide_dest_dir(
                                g,
                                color,
                                nr as int,
                                nc as int,
                                dr as int,
                                dc as int,
                                r2,
                                c2,
                                (f - 1) as nat,
                            ) implies slide_dest_dir(
                            g,
                            color,
                            row as int,
                            col as int,
                            dr as int,
                            dc as int,
                            r2,
                            c2,
                            7,
                        ) by {
                            assert(slide_dest_dir(
                                g,
                                color,
                                pr as int,
                                pcc as int,
                                dr as int,
                                dc as int,
                                r2,
                                c2,
                                f,
                            ));
                        }
                    }
                    pr = nr;
                    pcc = nc;
                }
            }
            st = st + 1;
            proof {
                if !done {
                    assert((7 - st) as nat == (f - 1) as nat);
                }
            }
        }
        proof {
            if !done {
                assert(st == 7);
                assert(forall|r2: int, c2: int|
                    !slide_dest_dir(
                        g,
                        color,
                        pr as int,
                        pcc as int,
                        dr as int,
                        dc as int,
                        r2,
                        c2,
                        0nat,
                    ));
            }
        }
        mvs
    }

    /// Generate the sliding moves of the piece on (row, col) along the
    /// given direction set; when pinned, only the directions colinear
    /// with the pin ray are walked.
    pub fn calc_straightline_moves(
        &mut self,
        piece: Piece,
        row: isize,
        col: isize,
        pinned: bool,
        pin_direction: (isize, isize),
        incrs: Vec<(isize, isize)>,
    )
        requires
            old(self).wf(),
            piece.color != Team::Neutral,
            in_b(row as int, col as int),
            forall|k: int|
                0 <= k < incrs@.len() ==> {
                    &&& -1 <= (#[trigger] incrs@[k]).0 <= 1
                    &&& -1 <= incrs@[k].1 <= 1
                    &&& !(incrs@[k].0 == 0 && incrs@[k].1 == 0)
                },
        ensures
            final(self).wf(),
            calc_post(
                *old(self),
                *final(self),
                piece.color,
                sq(row as int, col as int),
                row as int,
                col as int,
                (|r2: int, c2: int|
                    slide_dest(
                        old(self).tiles@,
                        piece.color,
                        row as int,
                        col as int,
                        spec_pin(pinned, pin_direction),
                        incrs@,
                        r2,
                        c2,
                    )),
            ),
    {
        let ghost g = self.tiles@;
        let ghost pd = spec_pin(pinned, pin_direction);
        let ghost dest = (|r2: int, c2: int|
            slide_dest(g, piece.color, row as int, col as int, pd, incrs@, r2, c2));
        let mut mvs: Vec<Move> = Vec::new();
        let mut kk: usize = 0;
        while kk < incrs.len()
            invariant
                self.wf(),
                g == self.tiles@,
                in_b(row as int, col as int),
                kk <= incrs@.len(),
                pd == spec_pin(pinned, pin_direction),
                dest == (|r2: int, c2: int|
                    slide_dest(g, piece.color, row as int, col as int, pd, incrs@, r2, c2)),
                forall|k: int|
                    0 <= k < incrs@.len() ==> {
                        &&& -1 <= (#[trigger] incrs@[k]).0 <= 1
                        &&& -1 <= incrs@[k].1 <= 1
                        &&& !(incrs@[k].0 == 0 && incrs@[k].1 == 0)
                    },
                forall|i: int|
                    0 <= i < mvs@.len() ==> {
                        &&& (#[trigger] mvs@[i]).initial.row == row
                        &&& mvs@[i].initial.col == col
                        &&& in_b(mvs@[i].end.row as int, mvs@[i].end.col as int)
                        &&& dest(mvs@[i].end.row as int, mvs@[i].end.col as int)
                    },
                forall|k: int, r2: int, c2: int|
                    #![trigger dir_allowed(pd, (incrs@[k]).0 as int, (incrs@[k]).1 as int), slide_dest_dir(g, piece.color, row as int, col as int, (incrs@[k]).0 as int, (incrs@[k]).1 as int, r2, c2, 7nat)]
                    0 <= k < kk && dir_allowed(pd, (incrs@[k]).0 as int, (incrs@[k]).1 as int)
                        && slide_dest_dir(
                        g,
                        piece.color,
                        row as int,
                        col as int,
                        (incrs@[k]).0 as int,
                        (incrs@[k]).1 as int,
                        r2,
                        c2,
                        7,
                    ) ==> has_dest(mvs@, r2, c2),
            decreases incrs@.len() - kk,
        {
            let inc = incrs[kk];
            let allowed = !pinned || (pin_direction.0 == inc.0 && pin_direction.1 == inc.1) || (
            pin_direction.0 == -inc.0 && pin_direction.1 == -inc.1);
            proof {
                assert(allowed == dir_allowed(pd, inc.0 as int, inc.1 as int));
            }
            let ghost mvs0 = mvs@;
            if allowed {
                let mut dirmvs = self.slide_dir_moves(piece.color, row, col, inc.0, inc.1);
                let ghost block = dirmvs@;
                mvs.append(&mut dirmvs);
                proof {
                    assert(mvs@ == mvs0 + block);
                    lemma_has_dest_extend(mvs0, mvs@);
                    assert forall|i: int| 0 <= i < mvs@.len() implies {
                        &&& (#[trigger] mvs@[i]).initial.row == row
                        &&& mvs@[i].initial.col == col
                        &&& in_b(mvs@[i].end.row as int, mvs@[i].end.col as int)
                        &&& dest(mvs@[i].end.row as int, mvs@[i].end.col as int)
                    } by {
                        if i >= mvs0.len() {
                            assert(mvs@[i] == block[i - mvs0.len()]);
                            assert(slide_dest_dir(
                                g,
                                piece.color,
                                row as int,
                                col as int,
                                inc.0 as int,
                                inc.1 as int,
                                mvs@[i].end.row as int,
                                mvs@[i].end.col as int,
                                7,
                            ));
                            assert(dest(mvs@[i].end.row as int, mvs@[i].end.col as int)) by {
                                assert(0 <= kk < incrs@.len() && dir_allowed(
                                    pd,
                                    (incrs@[kk as int]).0 as int,
                                    (incrs@[kk as int]).1 as int,
                                ) && slide_dest_dir(
                                    g,
                                    piece.color,
                                    row as int,
                                    col as int,
                                    (incrs@[kk as int]).0 as int,
                                    (incrs@[kk as int]).1 as int,
                                    mvs@[i].end.row as int,
                                    mvs@[i].end.col as int,
                                    7,
                                ));
                            }
                        }
                    }
                    assert forall|r2: int, c2: int| #[trigger] has_dest(block, r2, c2) implies has_dest(
                        mvs@,
                        r2,
                        c2,
                    ) by {
                        let i0 = choose|i: int|
                            0 <= i < block.len() && (#[trigger] block[i]).end.row == r2
                                && block[i].end.col == c2;
                        assert(mvs@[mvs0.len() + i0] == block[i0]);
                        assert(0 <= mvs0.len() + i0 < mvs@.len() && mvs@[mvs0.len() + i0].end.row
                            == r2 && mvs@[mvs0.len() + i0].end.col == c2);
                    }
                }
            }
            kk = kk + 1;
        }
        proof {
            assert forall|r2: int, c2: int| #[trigger] dest(r2, c2) && in_b(r2, c2) implies has_dest(
                mvs@,
                r2,
                c2,
            ) by {
                assert(slide_dest(g, piece.color, row as int, col as int, pd, incrs@, r2, c2));
                let k0 = choose|k: int|
                    0 <= k < incrs@.len() && dir_allowed(
                        pd,
                        (#[trigger] incrs@[k]).0 as int,
                        incrs@[k].1 as int,
                    ) && slide_dest_dir(
                        g,
                        piece.color,
                        row as int,
                        col as int,
                        incrs@[k].0 as int,
                        incrs@[k].1 as int,
                        r2,
                        c2,
                        7,
                    );
                assert(0 <= k0 < incrs@.len() && dir_allowed(
                    pd,
                    (incrs@[k0]).0 as int,
                    (incrs@[k0]).1 as int,
                ) && slide_dest_dir(
                    g,
                    piece.color,
                    row as int,
                    col as int,
                    (incrs@[k0]).0 as int,
                    (incrs@[k0]).1 as int,
                    r2,
                    c2,
                    7,
                ));
            }
            assert(moves_match(mvs@, row as int, col as int, dest));
        }
        let ghost pre = *self;
        self.extend_entry(piece.color, row as usize, col as usize, &mvs);
        proof {
            lemma_calc_post_from_extend(pre, *self, piece.color, row as int, col as int, mvs@, dest);
        }
    }
}

impl Board {
    /// The straight advances of a pawn on (row, col).
    fn pawn_fwd_moves(
        &self,
        piece: Piece,
        row: isize,
        col: isize,
        pinned: bool,
        pin_direction: (isize, isize),
    ) -> (mvs: Vec<Move>)
        requires
            self.wf(),
            piece.wf(),
            in_b(row as int, col as int),
        ensures
            forall|i: int|
                0 <= i < mvs@.len() ==> {
                    &&& (#[trigger] mvs@[i]).initial.row == row
                    &&& mvs@[i].initial.col == col
                    &&& in_b(mvs@[i].end.row as int, mvs@[i].end.col as int)
                    &&& pawn_fwd_dest(
                        self.tiles@,
                        piece,
                        row as int,
                        col as int,
                        spec_pin(pinned, pin_direction),
                        mvs@[i].end.row as int,
                        mvs@[i].end.col as int,
                    )
                },
            forall|r2: int, c2: int|
                #[trigger] pawn_fwd_dest(
                    self.tiles@,
                    piece,
                    row as int,
                    col as int,
                    spec_pin(pinned, pin_direction),
                    r2,
                    c2,
                ) ==> has_dest(mvs@, r2, c2),
    {
        let ghost g = self.tiles@;
        let ghost pd = spec_pin(pinned, pin_direction);
        let mut mvs: Vec<Move> = Vec::new();
        let d = piece.dir;
        let fwd_ok = !pinned || (pin_direction.0 == d && pin_direction.1 == 0);
        let r1 = row + d;
        if inrange(r1) {
            let one_free = self.tiles[(r1 as usize) * 8 + (col as usize)].is_empty();
            proof {
                assert(at(g, r1 as int, col as int) == self.tiles@[sq(r1 as int, col as int)].present_piece);
            }
            if one_free {
                if fwd_ok {
                    let ghost mprev = mvs@;
                    mvs.push(mk_move(row, col, r1, col, None));
                    proof {
                        lemma_has_dest_extend(mprev, mvs@);
                        assert(mvs@[mvs@.len() - 1].end.row == r1 && mvs@[mvs@.len() - 1].end.col
                            == col);
                        assert(has_dest(mvs@, r1 as int, col as int));
                    }
                }
                if !piece.has_moved {
                    let r2s = row + 2 * d;
                    if inrange(r2s) {
                        let two_free = self.tiles[(r2s as usize) * 8 + (col as usize)].is_empty();
                        proof {
                            assert(at(g, r2s as int, col as int) == self.tiles@[sq(
                                r2s as int,
                                col as int,
                            )].present_piece);
                        }
                        if two_free && fwd_ok {
                            let ghost mprev = mvs@;
                            mvs.push(mk_move(row, col, r2s, col, None));
                            proof {
                                lemma_has_dest_extend(mprev, mvs@);
                                assert(mvs@[mvs@.len() - 1].end.row == r2s && mvs@[mvs@.len()
                                    - 1].end.col == col);
                                assert(has_dest(mvs@, r2s as int, col as int));
                            }
                        }
                    }
                }
            }
        }
        proof {
            assert(piece.dir == 1 || piece.dir == -1);
        }
        mvs
    }

    /// The diagonal captures of a pawn on (row, col).
    fn pawn_diag_moves(
        &self,
        piece: Piece,
        row: isize,
        col: isize,
        pinned: bool,
        pin_direction: (isize, isize),
    ) -> (mvs: Vec<Move>)
        requires
            self.wf(),
            piece.wf(),
            in_b(row as int, col as int),
        ensures
            forall|i: int|
                0 <= i < mvs@.len() ==> {
                    &&& (#[trigger] mvs@[i]).initial.row == row
                    &&& mvs@[i].initial.col == col
                    &&& in_b(mvs@[i].end.row as int, mvs@[i].end.col as int)
                    &&& pawn_diag_dest(
                        self.tiles@,
                        piece,
                        row as int,
                        col as int,
                        spec_pin(pinned, pin_direction),
                        mvs@[i].end.row as int,
                        mvs@[i].end.col as int,
                    )
                },
            forall|r2: int, c2: int|
                #[trigger] pawn_diag_dest(
                    self.tiles@,
                    piece,
                    row as int,
                    col as int,
                    spec_pin(pinned, pin_direction),
                    r2,
                    c2,
                ) ==> has_dest(mvs@, r2, c2),
    {
        let ghost g = self.tiles@;
        let ghost pd = spec_pin(pinned, pin_direction);
        let mut mvs: Vec<Move> = Vec::new();
        let d = piece.dir;
        let r1d = row + d;
        if inrange(r1d) {
            if inrange(col - 1) {
                let t = self.tiles[(r1d as usize) * 8 + ((col - 1) as usize)];
                proof {
                    assert(at(g, r1d as int, col as int - 1) == t.present_piece);
                }
                if t.has_rival(piece.color) && (!pinned || (pin_direction.0 == d
                    && pin_direction.1 == -1)) {
                    let ghost mprev = mvs@;
                    mvs.push(mk_move(row, col, r1d, col - 1, t.present_piece));
                    proof {
                        lemma_has_dest_extend(mprev, mvs@);
                        assert(mvs@[mvs@.len() - 1].end.row == r1d && mvs@[mvs@.len() - 1].end.col
                            == col - 1);
                        assert(has_dest(mvs@, r1d as int, col as int - 1));
                    }
                }
            }
            if inrange(col + 1) {
                let t = self.tiles[(r1d as usize) * 8 + ((col + 1) as usize)];
                proof {
                    assert(at(g, r1d as int, col as int + 1) == t.present_piece);
                }
                if t.has_rival(piece.color) && (!pinned || (pin_direction.0 == d
                    && pin_direction.1 == 1)) {
                    let ghost mprev = mvs@;
                    mvs.push(mk_move(row, col, r1d, col + 1, t.present_piece));
                    proof {
                        lemma_has_dest_extend(mprev, mvs@);
                        assert(mvs@[mvs@.len() - 1].end.row == r1d && mvs@[mvs@.len() - 1].end.col
                            == col + 1);
                        assert(has_dest(mvs@, r1d as int, col as int + 1));
                    }
                }
            }
        }
        proof {
            assert(piece.dir == 1 || piece.dir == -1);
        }
        mvs
    }

    /// The en-passant capture of a pawn on (row, col), if available.
    fn pawn_ep_moves(
        &self,
        piece: Piece,
        row: isize,
        col: isize,
        pinned: bool,
        pin_direction: (isize, isize),
    ) -> (mvs: Vec<Move>)
        requires
            self.wf(),
            piece.wf(),
            in_b(row as int, col as int),
        ensures
            forall|i: int|
                0 <= i < mvs@.len() ==> {
                    &&& (#[trigger] mvs@[i]).initial.row == row
                    &&& mvs@[i].initial.col == col
                    &&& in_b(mvs@[i].end.row as int, mvs@[i].end.col as int)
                    &&& pawn_ep_dest(
                        self.tiles@,
                        piece,
                        row as int,
                        col as int,
                        spec_pin(pinned, pin_direction),
                        mvs@[i].end.row as int,
                        mvs@[i].end.col as int,
                    )
                },
            forall|r2: int, c2: int|
                #[trigger] pawn_ep_dest(
                    self.tiles@,
                    piece,
                    row as int,
                    col as int,
                    spec_pin(pinned, pin_direction),
                    r2,
                    c2,
                ) ==> has_dest(mvs@, r2, c2),
    {
        let ghost g = self.tiles@;
        let ghost pd = spec_pin(pinned, pin_direction);
        let mut mvs: Vec<Move> = Vec::new();
        let d = piece.dir;
        let er = if piece.color == Team::White {
            3
        } else {
            4
        };
        let fr: isize = if piece.color == Team::White {
            2
        } else {
            5
        };
        let mut ep_done = false;
        if inrange(col + 1) && row == er {
            let t = self.tiles[(row as usize) * 8 + ((col + 1) as usize)];
            proof {
                assert(at(g, row as int, col as int + 1) == t.present_piece);
            }
            if t.has_rival(piece.color) && (!pinned || (pin_direction.0 == d && pin_direction.1
                == 1)) {
                let p = *t.piece();
                if p.ptype == PieceType::Pawn && p.en_passant {
                    let ghost mprev = mvs@;
                    mvs.push(mk_move(row, col, fr, col + 1, Some(p)));
                    ep_done = true;
                    proof {
                        lemma_has_dest_extend(mprev, mvs@);
                        assert(mvs@[mvs@.len() - 1].end.row == fr && mvs@[mvs@.len() - 1].end.col
                            == col + 1);
                        assert(has_dest(mvs@, fr as int, col as int + 1));
                        assert(ep_cond(g, piece, row as int, col as int, pd, 1));
                    }
                }
            }
        }
        proof {
            if !ep_done {
                assert(!ep_cond(g, piece, row as int, col as int, pd, 1));
            }
        }
        if !ep_done {
            if inrange(col - 1) && row == er {
                let t = self.tiles[(row as usize) * 8 + ((col - 1) as usize)];
                proof {
                    assert(at(g, row as int, col as int - 1) == t.present_piece);
                }
                if t.has_rival(piece.color) && (!pinned || (pin_direction.0 == d
                    && pin_direction.1 == -1)) {
                    let p = *t.piece();
                    if p.ptype == PieceType::Pawn && p.en_passant {
                        let ghost mprev = mvs@;
                        mvs.push(mk_move(row, col, fr, col - 1, Some(p)));
                        proof {
                            lemma_has_dest_extend(mprev, mvs@);
                            assert(mvs@[mvs@.len() - 1].end.row == fr && mvs@[mvs@.len()
                                - 1].end.col == col - 1);
                            assert(has_dest(mvs@, fr as int, col as int - 1));
                        }
                    }
                }
            }
        }
        proof {
            assert(piece.dir == 1 || piece.dir == -1);
        }
        mvs
    }

    /// Generate the pawn moves of the piece on (row, col): the straight
    /// advances, the diagonal captures, and the en-passant capture, each
    /// restricted to the pin ray when pinned.
    #[verifier::rlimit(100)]
    #[verifier::spinoff_prover]
    pub fn calc_pawn_moves(
        &mut self,
        piece: Piece,
        row: isize,
        col: isize,
        pinned: bool,
        pin_direction: (isize, isize),
    )
        requires
            old(self).wf(),
            piece.wf(),
            in_b(row as int, col as int),
        ensures
            final(self).wf(),
            calc_post(
                *old(self),
                *final(self),
                piece.color,
                sq(row as int, col as int),
                row as int,
                col as int,
                (|r2: int, c2: int|
                    pawn_dest(
                        old(self).tiles@,
                        piece,
                        row as int,
                        col as int,
                        spec_pin(pinned, pin_direction),
                        r2,
                        c2,
                    )),
            ),
    {
        let ghost g = self.tiles@;
        let ghost pd = spec_pin(pinned, pin_direction);
        let ghost dest = (|r2: int, c2: int|
            pawn_dest(g, piece, row as int, col as int, pd, r2, c2));
        let mut mvs = self.pawn_fwd_moves(piece, row, col, pinned, pin_direction);
        let ghost fwd = mvs@;
        let mut diag = self.pawn_diag_moves(piece, row, col, pinned, pin_direction);
        let ghost dg = diag@;
        mvs.append(&mut diag);
        let ghost fwd_dg = mvs@;
        let mut ep = self.pawn_ep_moves(piece, row, col, pinned, pin_direction);
        let ghost epb = ep@;
        mvs.append(&mut ep);
        proof {
            assert(fwd_dg == fwd + dg);
            assert(mvs@ == fwd_dg + epb);
            lemma_block_transfer(fwd, fwd_dg);
            lemma_concat_transfer(fwd, dg, fwd_dg);
            lemma_block_transfer(fwd_dg, mvs@);
            lemma_concat_transfer(fwd_dg, epb, mvs@);
            assert forall|i: int| 0 <= i < mvs@.len() implies {
                &&& (#[trigger] mvs@[i]).initial.row == row
                &&& mvs@[i].initial.col == col
                &&& in_b(mvs@[i].end.row as int, mvs@[i].end.col as int)
                &&& dest(mvs@[i].end.row as int, mvs@[i].end.col as int)
            } by {
                if i < fwd.len() {
                    assert(mvs@[i] == fwd[i]);
                } else if i < fwd.len() + dg.len() {
                    assert(fwd_dg[i] == dg[i - fwd.len()]);
                    assert(mvs@[i] == fwd_dg[i]);
                } else {
                    assert(mvs@[i] == epb[i - fwd_dg.len()]);
                }
            }
            assert forall|r2: int, c2: int| #[trigger] dest(r2, c2) && in_b(r2, c2) implies has_dest(
                mvs@,
                r2,
                c2,
            ) by {
                assert(pawn_dest(g, piece, row as int, col as int, pd, r2, c2));
                if pawn_fwd_dest(g, piece, row as int, col as int, pd, r2, c2) {
                    assert(has_dest(fwd, r2, c2));
                } else if pawn_diag_dest(g, piece, row as int, col as int, pd, r2, c2) {
                    assert(has_dest(dg, r2, c2));
                } else {
                    assert(has_dest(epb, r2, c2));
                }
            }
            assert(moves_match(mvs@, row as int, col as int, dest));
        }
        let ghost pre = *self;
        self.extend_entry(piece.color, row as usize, col as usize, &mvs);
        proof {
            lemma_calc_post_from_extend(pre, *self, piece.color, row as int, col as int, mvs@, dest);
        }
    }
}

impl Board {
    /// Relocate the King on a scratch copy and report whether a fresh
    /// analysis finds it in check there.
    fn king_move_checked(&self, piece: Piece, row: isize, col: isize, r2: isize, c2: isize) -> (r:
        bool)
        requires
            self.wf(),
            piece.wf(),
            piece.ptype == PieceType::King,
            in_b(row as int, col as int),
            in_b(r2 as int, c2 as int),
        ensures
            r == in_check_spec(
                king_sim_grid(self.tiles@, piece, row as int, col as int, r2 as int, c2 as int),
                piece.color,
            ),
    {
        let mut temp = self.copy();
        let action = mk_move(row, col, r2, c2, None);
        temp.simulate_move(piece, action);
        proof {
            assert(temp.tiles@ == king_sim_grid(
                self.tiles@,
                piece,
                row as int,
                col as int,
                r2 as int,
                c2 as int,
            ));
            assert(team_at(temp.tiles@, r2 as int, c2 as int, piece.color));
            crate::movegen::lemma_king_found(temp.tiles@, piece.color, 0, r2 as int, c2 as int);
        }
        let (chk, _pins, _checks) = temp.get_pins_and_checks(piece.color);
        chk
    }

    /// Generate the King moves of the piece on (row, col): each adjacent
    /// square accepted only if a scratch-copy relocation shows the King
    /// safe there, plus the castling moves where the rights of
    /// [`castle_q_ok`] and [`castle_k_ok`] hold.
    #[verifier::rlimit(100)]
    #[verifier::spinoff_prover]
    pub fn calc_king_moves(&mut self, piece: Piece, row: isize, col: isize)
        requires
            old(self).wf(),
            piece.wf(),
            piece.ptype == PieceType::King,
            in_b(row as int, col as int),
        ensures
            final(self).wf(),
            calc_post(
                *old(self),
                *final(self),
                piece.color,
                sq(row as int, col as int),
                row as int,
                col as int,
                (|r2: int, c2: int|
                    king_dest(old(self).tiles@, piece, row as int, col as int, r2, c2)),
            ),
    {
        let ghost g = self.tiles@;
        let ghost dest = (|r2: int, c2: int|
            king_dest(g, piece, row as int, col as int, r2, c2));
        let mut mvs: Vec<Move> = Vec::new();
        let mut n: usize = 0;
        while n < 8
            invariant
                self.wf(),
                g == self.tiles@,
                piece.wf(),
                piece.ptype == PieceType::King,
                in_b(row as int, col as int),
                n <= 8,
                forall|i: int|
                    0 <= i < mvs@.len() ==> {
                        &&& (#[trigger] mvs@[i]).initial.row == row
                        &&& mvs@[i].initial.col == col
                        &&& in_b(mvs@[i].end.row as int, mvs@[i].end.col as int)
                        &&& king_adj_dest(
                            g,
                            piece,
                            row as int,
                            col as int,
                            mvs@[i].end.row as int,
                            mvs@[i].end.col as int,
                        )
                    },
                forall|r2: int, c2: int, n2: int|
                    #![trigger king_adj_dest(g, piece, row as int, col as int, r2, c2), amove_r(n2)]
                    0 <= n2 < n && r2 == row + amove_r(n2) && c2 == col + amove_c(n2)
                        && king_adj_dest(g, piece, row as int, col as int, r2, c2) ==> has_dest(
                        mvs@,
                        r2,
                        c2,
                    ),
            decreases 8 - n,
        {
            let (mr, mc) = amove(n);
            let r2 = row + mr;
            let c2 = col + mc;
            let ghost mvs0 = mvs@;
            if inrange(r2) && inrange(c2) {
                let t = self.tiles[(r2 as usize) * 8 + (c2 as usize)];
                proof {
                    assert(at(g, r2 as int, c2 as int) == t.present_piece);
                }
                if t.is_empty_or_rival(piece.color) {
                    let chk = self.king_move_checked(piece, row, col, r2, c2);
                    if !chk {
                        mvs.push(mk_move(row, col, r2, c2, None));
                        proof {
                            assert(mvs@[mvs@.len() - 1].end.row == r2);
                            assert(king_adj_dest(g, piece, row as int, col as int, r2 as int, c2 as int))
                                by {
                                assert(0 <= n < 8 && r2 as int == row + amove_r(n as int) && c2 as int
                                    == col + amove_c(n as int));
                            }
                        }
                    }
                }
            }
            proof {
                lemma_has_dest_extend(mvs0, mvs@);
                assert forall|r2: int, c2: int, n2: int|
                    #![trigger king_adj_dest(g, piece, row as int, col as int, r2, c2), amove_r(n2)]
                    0 <= n2 < n + 1 && r2 == row + amove_r(n2) && c2 == col + amove_c(n2)
                        && king_adj_dest(g, piece, row as int, col as int, r2, c2) implies has_dest(
                    mvs@,
                    r2,
                    c2,
                ) by {
                    if n2 == n as int {
                        assert(in_b(r2, c2) && !team_at(g, r2, c2, piece.color));
                        assert(!in_check_spec(
                            king_sim_grid(g, piece, row as int, col as int, r2, c2),
                            piece.color,
                        ));
                        assert(mvs@[mvs@.len() - 1].end.row == r2 && mvs@[mvs@.len() - 1].end.col
                            == c2);
                    } else {
                        assert(has_dest(mvs0, r2, c2));
                    }
                }
            }
            n = n + 1;
        }
        let ghost after_adj = mvs@;

        let mut pushed_q = false;
        let mut pushed_k = false;
        if !piece.has_moved {
            // queenside
            let corner = self.tiles[(row as usize) * 8];
            proof {
                assert(at(g, row as int, 0) == corner.present_piece);
            }
            if corner.has_piece() && corner.piece().ptype == PieceType::Rook
                && !corner.piece().has_moved {
                let e1 = self.tiles[(row as usize) * 8 + 1].is_empty();
                let e2 = self.tiles[(row as usize) * 8 + 2].is_empty();
                let e3 = self.tiles[(row as usize) * 8 + 3].is_empty();
                proof {
                    assert(at(g, row as int, 1) == self.tiles@[sq(row as int, 1)].present_piece);
                    assert(at(g, row as int, 2) == self.tiles@[sq(row as int, 2)].present_piece);
                    assert(at(g, row as int, 3) == self.tiles@[sq(row as int, 3)].present_piece);
                }
                if e1 && e2 && e3 {
                    let c1 = self.king_move_checked(piece, row, col, row, 2);
                    let c2k = self.king_move_checked(piece, row, col, row, 3);
                    if !c1 && !c2k {
                        let ghost mprev = mvs@;
                        mvs.push(mk_move(row, col, row, 2, None));
                        pushed_q = true;
                        proof {
                            lemma_has_dest_extend(mprev, mvs@);
                            assert(mvs@[mvs@.len() - 1].end.row == row && mvs@[mvs@.len()
                                - 1].end.col == 2);
                            assert(has_dest(mvs@, row as int, 2));
                            assert(castle_q_ok(g, piece, row as int, col as int));
                        }
                    }
                }
            }
            proof {
                if !pushed_q {
                    assert(!castle_q_ok(g, piece, row as int, col as int));
                }
            }
            // kingside
            let corner2 = self.tiles[(row as usize) * 8 + 7];
            proof {
                assert(at(g, row as int, 7) == corner2.present_piece);
            }
            if corner2.has_piece() && corner2.piece().ptype == PieceType::Rook
                && !corner2.piece().has_moved {
                let e5 = self.tiles[(row as usize) * 8 + 5].is_empty();
                let e6 = self.tiles[(row as usize) * 8 + 6].is_empty();
                proof {
                    assert(at(g, row as int, 5) == self.tiles@[sq(row as int, 5)].present_piece);
                    assert(at(g, row as int, 6) == self.tiles@[sq(row as int, 6)].present_piece);
                }
                if e5 && e6 {
                    let c1 = self.king_move_checked(piece, row, col, row, 6);
                    let c2k = self.king_move_checked(piece, row, col, row, 5);
                    if !c1 && !c2k {
                        let ghost mprev = mvs@;
                        mvs.push(mk_move(row, col, row, 6, None));
                        pushed_k = true;
                        proof {
                            lemma_has_dest_extend(mprev, mvs@);
                            assert(mvs@[mvs@.len() - 1].end.row == row && mvs@[mvs@.len()
                                - 1].end.col == 6);
                            assert(has_dest(mvs@, row as int, 6));
                            assert(castle_k_ok(g, piece, row as int, col as int));
                        }
                    }
                }
            }
            proof {
                if !pushed_k {
                    assert(!castle_k_ok(g, piece, row as int, col as int));
                }
            }
        }

        proof {
            if !pushed_q {
                assert(!castle_q_ok(g, piece, row as int, col as int));
            }
            if !pushed_k {
                assert(!castle_k_ok(g, piece, row as int, col as int));
            }
            assert forall|i: int| 0 <= i < mvs@.len() implies {
                &&& (#[trigger] mvs@[i]).initial.row == row
                &&& mvs@[i].initial.col == col
                &&& in_b(mvs@[i].end.row as int, mvs@[i].end.col as int)
                &&& dest(mvs@[i].end.row as int, mvs@[i].end.col as int)
            } by {
                if i < after_adj.len() {
                    assert(mvs@[i] == after_adj[i]);
                }
            }
            assert forall|r2: int, c2: int| #[trigger] dest(r2, c2) && in_b(r2, c2) implies has_dest(
                mvs@,
                r2,
                c2,
            ) by {
                assert(king_dest(g, piece, row as int, col as int, r2, c2));
                if king_adj_dest(g, piece, row as int, col as int, r2, c2) {
                    let n2 = choose|n2: int|
                        0 <= n2 < 8 && r2 == row + #[trigger] amove_r(n2) && c2 == col + amove_c(
                            n2,
                        );
                    assert(0 <= n2 < 8 && r2 == row + amove_r(n2) && c2 == col + amove_c(n2)
                        && king_adj_dest(g, piece, row as int, col as int, r2, c2));
                    assert(has_dest(after_adj, r2, c2));
                    lemma_has_dest_extend(after_adj, mvs@);
                }
            }
            assert(moves_match(mvs@, row as int, col as int, dest));
        }
        let ghost pre = *self;
        self.extend_entry(piece.color, row as usize, col as usize, &mvs);
        proof {
            lemma_calc_post_from_extend(pre, *self, piece.color, row as int, col as int, mvs@, dest);
        }
    }
}

/// Exec mirror of the king-move offset table.
fn amove(n: usize) -> (r: (isize, isize))
    requires
        n < 8,
    ensures
        r.0 == amove_r(n as int),
        r.1 == amove_c(n as int),
{
    if n == 0 {
        (-1, 0)
    } else if n == 1 {
        (-1, 1)
    } else if n == 2 {
        (0, 1)
    } else if n == 3 {
        (1, 1)
    } else if n == 4 {
        (1, 0)
    } else if n == 5 {
        (1, -1)
    } else if n == 6 {
        (0, -1)
    } else {
        (-1, -1)
    }
}

/// A destination recorded in the appended block is recorded in the
/// concatenation.
pub proof fn lemma_concat_transfer(l0: Seq<Move>, b: Seq<Move>, l1: Seq<Move>)
    requires
        l1 == l0 + b,
    ensures
        forall|r2: int, c2: int| #[trigger] has_dest(b, r2, c2) ==> has_dest(l1, r2, c2),
{
    assert forall|r2: int, c2: int| #[trigger] has_dest(b, r2, c2) implies has_dest(
        l1,
        r2,
        c2,
    ) by {
        let i0 = choose|i: int|
            0 <= i < b.len() && (#[trigger] b[i]).end.row == r2 && b[i].end.col == c2;
        assert(l1[l0.len() + i0] == b[i0]);
        assert(0 <= l0.len() + i0 < l1.len() && l1[l0.len() + i0].end.row == r2 && l1[l0.len()
            + i0].end.col == c2);
    }
}

/// A destination recorded in the prefix is recorded in the concatenation.
pub proof fn lemma_block_transfer(l0: Seq<Move>, l1: Seq<Move>)
    requires
        l0.len() <= l1.len(),
        forall|i: int| 0 <= i < l0.len() ==> #[trigger] l1[i] == l0[i],
    ensures
        forall|r2: int, c2: int| #[trigger] has_dest(l0, r2, c2) ==> has_dest(l1, r2, c2),
{
    lemma_has_dest_extend(l0, l1);
}

/// The pin state the analysis list assigns to the piece on (row, col):
/// the direction of the last entry recorded for that square, if any.
pub open spec fn list_pin(pins: Seq<(Tile, (isize, isize))>, row: int, col: int) -> Option<
    (int, int),
>
    decreases pins.len(),
{
    if pins.len() == 0 {
        None
    } else if pins.last().0.row == row && pins.last().0.col == col {
        Some(((pins.last().1).0 as int, (pins.last().1).1 as int))
    } else {
        list_pin(pins.drop_last(), row, col)
    }
}

/// The analysis list with every entry for the square (row, col) removed:
/// a piece is pinned at most once meaningfully, so its pin is consumed
/// when its moves are generated.
pub open spec fn pins_removed(pins: Seq<(Tile, (isize, isize))>, row: int, col: int) -> Seq<
    (Tile, (isize, isize)),
>
    decreases pins.len(),
{
    if pins.len() == 0 {
        pins
    } else if pins.last().0.row == row && pins.last().0.col == col {
        pins_removed(pins.drop_last(), row, col)
    } else {
        pins_removed(pins.drop_last(), row, col).push(pins.last())
    }
}

/// A recorded pin state comes from some entry of the list.
pub proof fn lemma_list_pin_some(pins: Seq<(Tile, (isize, isize))>, row: int, col: int)
    requires
        list_pin(pins, row, col) is Some,
    ensures
        exists|i: int|
            0 <= i < pins.len() && (#[trigger] pins[i]).0.row == row && pins[i].0.col == col && Some(
                (((pins[i]).1).0 as int, ((pins[i]).1).1 as int),
            ) == list_pin(pins, row, col),
    decreases pins.len(),
{
    if pins.last().0.row == row && pins.last().0.col == col {
        assert(pins[pins.len() - 1] == pins.last());
    } else {
        lemma_list_pin_some(pins.drop_last(), row, col);
        let i0 = choose|i: int|
            0 <= i < pins.drop_last().len() && (#[trigger] pins.drop_last()[i]).0.row == row
                && pins.drop_last()[i].0.col == col && Some(
                (((pins.drop_last()[i]).1).0 as int, ((pins.drop_last()[i]).1).1 as int),
            ) == list_pin(pins.drop_last(), row, col);
        assert(pins[i0] == pins.drop_last()[i0]);
    }
}

/// An empty pin state means no entry of the list names the square.
pub proof fn lemma_list_pin_none(pins: Seq<(Tile, (isize, isize))>, row: int, col: int)
    requires
        list_pin(pins, row, col) is None,
    ensures
        forall|i: int|
            0 <= i < pins.len() ==> !((#[trigger] pins[i]).0.row == row && pins[i].0.col == col),
    decreases pins.len(),
{
    if pins.len() > 0 {
        lemma_list_pin_none(pins.drop_last(), row, col);
        assert(forall|i: int|
            0 <= i < pins.len() - 1 ==> #[trigger] pins[i] == pins.drop_last()[i]);
    }
}

/// Consuming the entries of one square leaves every other square's pin
/// state as it was.
pub proof fn lemma_list_pin_removed(
    pins: Seq<(Tile, (isize, isize))>,
    row: int,
    col: int,
    ro: int,
    co: int,
)
    requires
        !(row == ro && col == co),
    ensures
        list_pin(pins_removed(pins, ro, co), row, col) == list_pin(pins, row, col),
    decreases pins.len(),
{
    if pins.len() > 0 {
        lemma_list_pin_removed(pins.drop_last(), row, col, ro, co);
        if !(pins.last().0.row == ro && pins.last().0.col == co) {
            let s = pins_removed(pins.drop_last(), ro, co).push(pins.last());
            assert(s.last() == pins.last());
            assert(s.drop_last() =~= pins_removed(pins.drop_last(), ro, co));
        }
    }
}

impl Board {
    /// Reset one side's entry for a square to the empty list.
    fn reset_entry(&mut self, color: Team, row: usize, col: usize)
        requires
            old(self).wf(),
            color != Team::Neutral,
            row < 8,
            col < 8,
        ensures
            final(self).wf(),
            final(self).tiles@ == old(self).tiles@,
            final(self).move_log@ == old(self).move_log@,
            final(self).zobrist_keys@ == old(self).zobrist_keys@,
            final(self).cur_uid == old(self).cur_uid,
            ({
                let k = sq(row as int, col as int);
                if color == Team::White {
                    &&& final(self).black_moves@ == old(self).black_moves@
                    &&& final(self).white_moves@.len() == 64
                    &&& forall|i: int|
                        0 <= i < 64 && i != k ==> #[trigger] final(self).white_moves@[i] == old(
                            self,
                        ).white_moves@[i]
                    &&& final(self).white_moves@[k]@.len() == 0
                } else {
                    &&& final(self).white_moves@ == old(self).white_moves@
                    &&& final(self).black_moves@.len() == 64
                    &&& forall|i: int|
                        0 <= i < 64 && i != k ==> #[trigger] final(self).black_moves@[i] == old(
                            self,
                        ).black_moves@[i]
                    &&& final(self).black_moves@[k]@.len() == 0
                }
            }),
    {
        let k = row * 8 + col;
        if color == Team::White {
            self.white_moves.set(k, Vec::new());
        } else {
            self.black_moves.set(k, Vec::new());
        }
    }

    /// Compute the full legal-move entry of one piece: look up and
    /// consume its pin from the analysis list, then dispatch on its
    /// kind. Returns the consumed list, as the callers thread it on.
    #[verifier::rlimit(100)]
    #[verifier::spinoff_prover]
    pub fn calc_valid_moves(
        &mut self,
        piece: Piece,
        row: isize,
        col: isize,
        pins: &mut Vec<(Tile, (isize, isize))>,
    ) -> (r: Vec<(Tile, (isize, isize))>)
        requires
            old(self).wf(),
            piece.wf(),
            in_b(row as int, col as int),
        ensures
            final(self).wf(),
            final(pins)@ == pins_removed(old(pins)@, row as int, col as int),
            r@ == final(pins)@,
            final(self).tiles@ == old(self).tiles@,
            final(self).move_log@ == old(self).move_log@,
            final(self).zobrist_keys@ == old(self).zobrist_keys@,
            final(self).cur_uid == old(self).cur_uid,
            ({
                let k = sq(row as int, col as int);
                let pd = list_pin(old(pins)@, row as int, col as int);
                if piece.color == Team::White {
                    &&& final(self).black_moves@ == old(self).black_moves@
                    &&& final(self).white_moves@.len() == 64
                    &&& forall|i: int|
                        0 <= i < 64 && i != k ==> #[trigger] final(self).white_moves@[i] == old(
                            self,
                        ).white_moves@[i]
                    &&& moves_match(
                        final(self).white_moves@[k]@,
                        row as int,
                        col as int,
                        (|r2: int, c2: int|
                            piece_dest(old(self).tiles@, piece, row as int, col as int, pd, r2, c2)),
                    )
                } else {
                    &&& final(self).white_moves@ == old(self).white_moves@
                    &&& final(self).black_moves@.len() == 64
                    &&& forall|i: int|
                        0 <= i < 64 && i != k ==> #[trigger] final(self).black_moves@[i] == old(
                            self,
                        ).black_moves@[i]
                    &&& moves_match(
                        final(self).black_moves@[k]@,
                        row as int,
                        col as int,
                        (|r2: int, c2: int|
                            piece_dest(old(self).tiles@, piece, row as int, col as int, pd, r2, c2)),
                    )
                }
            }),
    {
        let ghost g = self.tiles@;
        let ghost pins_in = pins@;
        let ghost pd = list_pin(pins@, row as int, col as int);
        let ghost dest = (|r2: int, c2: int|
            piece_dest(g, piece, row as int, col as int, pd, r2, c2));

        // look up the pin state: the last matching entry wins
        let mut piece_pinned = false;
        let mut pin_direction: (isize, isize) = (0, 0);
        let mut i: usize = 0;
        while i < pins.len()
            invariant
                i <= pins@.len(),
                pins@ == pins_in,
                spec_pin(piece_pinned, pin_direction) == list_pin(
                    pins_in.subrange(0, i as int),
                    row as int,
                    col as int,
                ),
            decreases pins@.len() - i,
        {
            let e = pins[i];
            proof {
                let pre = pins_in.subrange(0, i as int);
                let cur = pins_in.subrange(0, i as int + 1);
                assert(cur =~= pre.push(pins_in[i as int]));
                assert(cur.last() == pins_in[i as int]);
                assert(cur.drop_last() =~= pre);
            }
            if e.0.row == row && e.0.col == col {
                piece_pinned = true;
                pin_direction = e.1;
            }
            i = i + 1;
        }
        proof {
            assert(pins_in.subrange(0, pins_in.len() as int) =~= pins_in);
            assert(spec_pin(piece_pinned, pin_direction) == pd);
        }

        // consume the pin entries of this square
        let mut kept: Vec<(Tile, (isize, isize))> = Vec::new();
        let mut i2: usize = 0;
        while i2 < pins.len()
            invariant
                i2 <= pins@.len(),
                pins@ == pins_in,
                kept@ == pins_removed(pins_in.subrange(0, i2 as int), row as int, col as int),
            decreases pins@.len() - i2,
        {
            let e = pins[i2];
            proof {
                let pre = pins_in.subrange(0, i2 as int);
                let cur = pins_in.subrange(0, i2 as int + 1);
                assert(cur =~= pre.push(pins_in[i2 as int]));
                assert(cur.last() == pins_in[i2 as int]);
                assert(cur.drop_last() =~= pre);
            }
            if !(e.0.row == row && e.0.col == col) {
                kept.push(e);
            }
            i2 = i2 + 1;
        }
        proof {
            assert(pins_in.subrange(0, pins_in.len() as int) =~= pins_in);
        }
        *pins = kept;

        self.reset_entry(piece.color, row as usize, col as usize);
        let ghost mid = *self;
        if piece.ptype == PieceType::Pawn {
            self.calc_pawn_moves(piece, row, col, piece_pinned, pin_direction);
        } else if piece.ptype == PieceType::Knight {
            self.calc_knight_moves(piece, row, col, piece_pinned);
        } else if piece.ptype == PieceType::Bishop {
            let mut incrs: Vec<(isize, isize)> = Vec::new();
            incrs.push((-1, 1));
            incrs.push((-1, -1));
            incrs.push((1, 1));
            incrs.push((1, -1));
            proof {
                assert(incrs@ =~= bishop_dirs());
            }
            self.calc_straightline_moves(piece, row, col, piece_pinned, pin_direction, incrs);
        } else if piece.ptype == PieceType::Rook {
            let mut incrs: Vec<(isize, isize)> = Vec::new();
            incrs.push((-1, 0));
            incrs.push((1, 0));
            incrs.push((0, 1));
            incrs.push((0, -1));
            proof {
                assert(incrs@ =~= rook_dirs());
            }
            self.calc_straightline_moves(piece, row, col, piece_pinned, pin_direction, incrs);
        } else if piece.ptype == PieceType::Queen {
            let mut incrs: Vec<(isize, isize)> = Vec::new();
            incrs.push((-1, 1));
            incrs.push((-1, -1));
            incrs.push((1, 1));
            incrs.push((1, -1));
            incrs.push((-1, 0));
            incrs.push((1, 0));
            incrs.push((0, 1));
            incrs.push((0, -1));
            proof {
                assert(incrs@ =~= queen_dirs());
            }
            self.calc_straightline_moves(piece, row, col, piece_pinned, pin_direction, incrs);
        } else if piece.ptype == PieceType::King {
            self.calc_king_moves(piece, row, col);
        }
        proof {
            let k = sq(row as int, col as int);
            let entry = if piece.color == Team::White {
                self.white_moves@[k]@
            } else {
                self.black_moves@[k]@
            };
            assert(entry.subrange(0, 0) =~= Seq::<Move>::empty());
            assert(entry.skip(0) =~= entry);
            assert forall|i3: int| 0 <= i3 < entry.len() implies {
                &&& (#[trigger] entry[i3]).initial.row == row
                &&& entry[i3].initial.col == col
                &&& in_b(entry[i3].end.row as int, entry[i3].end.col as int)
                &&& dest(entry[i3].end.row as int, entry[i3].end.col as int)
            } by {
                assert(piece.dir == 1 || piece.dir == -1);
            }
            assert forall|r2: int, c2: int| #[trigger] dest(r2, c2) && in_b(r2, c2) implies has_dest(
                entry,
                r2,
                c2,
            ) by {
                assert(piece_dest(g, piece, row as int, col as int, pd, r2, c2));
            }
            assert(moves_match(entry, row as int, col as int, dest));
        }
        clone_vec(pins)
    }
}

/// The pin constraint as an optional ray, from the flag and direction
/// pair the analysis hands around.
pub open spec fn spec_pin(pinned: bool, pin_direction: (isize, isize)) -> Option<(int, int)> {
    if pinned {
        Some((pin_direction.0 as int, pin_direction.1 as int))
    } else {
        None
    }
}

/// Exec mirror of the knight-move offset table.
fn kmove(n: usize) -> (r: (isize, isize))
    requires
        n < 8,
    ensures
        r.0 == kmove_r(n as int),
        r.1 == kmove_c(n as int),
{
    if n == 0 {
        (-2, 1)
    } else if n == 1 {
        (-1, 2)
    } else if n == 2 {
        (1, 2)
    } else if n == 3 {
        (2, 1)
    } else if n == 4 {
        (2, -1)
    } else if n == 5 {
        (1, -2)
    } else if n == 6 {
        (-1, -2)
    } else {
        (-2, -1)
    }
}

/// Extending one entry with a block whose moves match `dest` yields the
/// common generator postcondition.
proof fn lemma_calc_post_from_extend(
    pre: Board,
    post: Board,
    color: Team,
    r: int,
    c: int,
    block: Seq<Move>,
    dest: spec_fn(int, int) -> bool,
)
    requires
        pre.wf(),
        color != Team::Neutral,
        in_b(r, c),
        moves_match(block, r, c, dest),
        post.tiles@ == pre.tiles@,
        post.move_log@ == pre.move_log@,
        post.zobrist_keys@ == pre.zobrist_keys@,
        post.cur_uid == pre.cur_uid,
        ({
            let k = sq(r, c);
            if color == Team::White {
                &&& post.black_moves@ == pre.black_moves@
                &&& post.white_moves@.len() == 64
                &&& forall|i: int|
                    0 <= i < 64 && i != k ==> #[trigger] post.white_moves@[i]
                        == pre.white_moves@[i]
                &&& post.white_moves@[k]@ == pre.white_moves@[k]@ + block
            } else {
                &&& post.white_moves@ == pre.white_moves@
                &&& post.black_moves@.len() == 64
                &&& forall|i: int|
                    0 <= i < 64 && i != k ==> #[trigger] post.black_moves@[i]
                        == pre.black_moves@[i]
                &&& post.black_moves@[k]@ == pre.black_moves@[k]@ + block
            }
        }),
    ensures
        calc_post(pre, post, color, sq(r, c), r, c, dest),
{
    let k = sq(r, c);
    if color == Team::White {
        let told = pre.white_moves@;
        let tnew = post.white_moves@;
        assert(tnew[k]@.subrange(0, told[k]@.len() as int) =~= told[k]@);
        assert(tnew[k]@.skip(told[k]@.len() as int) =~= block);
    } else {
        let told = pre.black_moves@;
        let tnew = post.black_moves@;
        assert(tnew[k]@.subrange(0, told[k]@.len() as int) =~= told[k]@);
        assert(tnew[k]@.skip(told[k]@.len() as int) =~= block);
    }
}

/// Build the move from (r, c) to (r2, c2), the destination snapshot
/// taken from the grid when asked.
fn mk_move(r: isize, c: isize, r2: isize, c2: isize, snapshot: Option<Piece>) -> (mv: Move)
    ensures
        mv.initial.row == r,
        mv.initial.col == c,
        mv.initial.present_piece is None,
        mv.end.row == r2,
        mv.end.col == c2,
        mv.end.present_piece == snapshot,
{
    let mut initial = Tile::new();
    let mut end = Tile::new();
    initial.init(r, c, None);
    end.init(r2, c2, snapshot);
    Move::new(initial, end)
}

} // verus!
