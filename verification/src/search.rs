//! Adversarial tree search: negamax alpha-beta over heuristically
//! ordered moves, with the root-splitting pieces used by parallel
//! drivers.

use vstd::prelude::*;
use vstd::seq_lib::group_to_multiset_ensures;
use crate::board::{at, in_b, material, move_on_board, occ, pos_cached, sq, team_at, Board};
use crate::calc::has_dest;
use crate::movegen::has_king;
use crate::piece::{Piece, PieceType};
use crate::team::Team;
use crate::teammoves::{lemma_immobile_iff_stuck, stuck_side, team_immobile, team_moves_ok};
use crate::tile::Move;

verus! {

/// Sentinel bound for search scores: far beyond any material sum.
pub const SCORE_INF: i32 = 1000000;

/// What every (piece, move) pair handed out by move generation
/// satisfies: the piece stands on the move's origin square and belongs
/// to the moving side, and both endpoints are on the board.
pub open spec fn pair_ok(g: Seq<crate::tile::Tile>, color: Team, p: (Piece, Move)) -> bool {
    let ir = p.1.initial.row as int;
    let ic = p.1.initial.col as int;
    &&& in_b(ir, ic)
    &&& in_b(p.1.end.row as int, p.1.end.col as int)
    &&& team_at(g, ir, ic, color)
    &&& p.0 == at(g, ir, ic)->0
}

/// Whether a (piece, move) pair for this origin and destination is
/// recorded in the list.
pub open spec fn has_pair(l: Seq<(Piece, Move)>, ir: int, ic: int, er: int, ec: int) -> bool {
    exists|i: int|
        0 <= i < l.len() && ((#[trigger] l[i]).1).initial.row == ir && (l[i]).1.initial.col == ic
            && (l[i]).1.end.row == er && (l[i]).1.end.col == ec
}

/// One piece's table entry as (piece, move) pairs.
pub open spec fn pair_entry(pc: Piece, entry: Seq<Move>) -> Seq<(Piece, Move)> {
    entry.map(|k: int, m: Move| (pc, m))
}

/// The whole move table of a side flattened into (piece, move) pairs in
/// square order: the exact content of a generated root move list.
pub open spec fn flat_moves(g: Seq<crate::tile::Tile>, t: Seq<Vec<Move>>, color: Team, n: int) -> Seq<
    (Piece, Move),
>
    decreases n,
{
    if n <= 0 {
        Seq::empty()
    } else {
        flat_moves(g, t, color, n - 1) + (if team_at(g, (n - 1) / 8, (n - 1) % 8, color) {
            pair_entry(at(g, (n - 1) / 8, (n - 1) % 8)->0, t[n - 1]@)
        } else {
            Seq::empty()
        })
    }
}

/// The larger of two integers.
pub open spec fn imax(a: int, b: int) -> int {
    if a > b {
        a
    } else {
        b
    }
}

/// The first square, in row-major order from n, whose opposing piece
/// has a recorded move onto (er, ec); the penalty check stops at it.
pub open spec fn first_attacker(b: Board, color: Team, er: int, ec: int, n: int) -> Option<Piece>
    decreases 64 - n,
{
    if n < 0 || n >= 64 {
        None
    } else if crate::board::rival_at(b.tiles@, n / 8, n % 8, color) && has_dest(
        b.moves_of(color.spec_other())[n]@,
        er,
        ec,
    ) {
        Some(at(b.tiles@, n / 8, n % 8)->0)
    } else {
        first_attacker(b, color, er, ec, n + 1)
    }
}

/// The ordering heuristic of one legal move: reward captures by value
/// gained, reward promotion, and penalize moving onto a square some
/// opposing piece is recorded to reach.
pub open spec fn move_score(b: Board, color: Team, pc: Piece, mv: Move) -> int {
    let g = b.tiles@;
    let er = mv.end.row as int;
    let ec = mv.end.col as int;
    (if occ(g, er, ec) {
        10 * (at(g, er, ec)->0.value_mg as int) - pc.value_mg as int
    } else {
        0
    }) + (if pc.ptype == PieceType::Pawn && (mv.end.row == 0 || mv.end.row == 7) {
        2538int
    } else {
        0int
    }) + (match first_attacker(b, color, er, ec, 0) {
        Some(p) => -imax(100, pc.value_mg as int - p.value_mg as int),
        None => 0,
    })
}

/// Exec scan of one entry for a move onto (er, ec).
fn entry_has_dest(v: &Vec<Move>, er: isize, ec: isize) -> (r: bool)
    ensures
        r == has_dest(v@, er as int, ec as int),
{
    let mut i: usize = 0;
    while i < v.len()
        invariant
            i <= v@.len(),
            forall|i2: int|
                0 <= i2 < i ==> !((#[trigger] v@[i2]).end.row == er && v@[i2].end.col == ec),
        decreases v@.len() - i,
    {
        let m = &v[i];
        if m.end.row == er && m.end.col == ec {
            return true;
        }
        i = i + 1;
    }
    false
}

/// The search engine: the automated side, its opponent, and run
/// statistics. It holds no game state; boards are passed in.
pub struct Algorithms {
    pub perspective: Team,
    pub opponent: Team,
    pub evaluated_states: isize,
    pub pruned_states: isize,
    pub transpositions: isize,
    pub nth_move: isize,
}

impl Algorithms {
    /// The engine's two sides are real and opposed.
    pub open spec fn wf(self) -> bool {
        &&& self.perspective != Team::Neutral
        &&& self.opponent == self.perspective.spec_other()
    }

    pub fn new(color: Team) -> (r: Algorithms)
        ensures
            r.perspective == color,
            r.opponent == color.spec_other(),
            r.evaluated_states == 0,
            r.pruned_states == 0,
            r.transpositions == 0,
            r.nth_move == 0,
            color != Team::Neutral ==> r.wf(),
    {
        Algorithms {
            perspective: color,
            opponent: color.other(),
            evaluated_states: 0,
            pruned_states: 0,
            transpositions: 0,
            nth_move: 0,
        }
    }

    /// Recompute the side's legal-move table and flatten it into
    /// (piece, move) pairs: every recorded legal move appears, and
    /// nothing else.
    pub fn get_valid_moves(&self, state: &mut Board, color: Team) -> (r: Vec<(Piece, Move)>)
        requires
            old(state).wf(),
            color != Team::Neutral,
            has_king(old(state).tiles@, color),
        ensures
            final(state).wf(),
            final(state).tiles@ == old(state).tiles@,
            final(state).move_log@ == old(state).move_log@,
            final(state).zobrist_keys@ == old(state).zobrist_keys@,
            final(state).cur_uid == old(state).cur_uid,
            team_moves_ok(old(state).tiles@, color, final(state).moves_of(color)),
            forall|i: int|
                0 <= i < r@.len() ==> pair_ok(old(state).tiles@, color, #[trigger] r@[i]),
            forall|i: int|
                0 <= i < r@.len() ==> exists|k: int|
                    0 <= k < final(state).moves_of(color)[sq(
                        ((#[trigger] r@[i]).1).initial.row as int,
                        (r@[i]).1.initial.col as int,
                    )]@.len() && (r@[i]).1 == final(state).moves_of(color)[sq(
                        (r@[i]).1.initial.row as int,
                        (r@[i]).1.initial.col as int,
                    )]@[k],
            forall|rr: int, cc: int, k: int|
                #![trigger final(state).moves_of(color)[sq(rr, cc)]@[k]]
                in_b(rr, cc) && 0 <= k < final(state).moves_of(color)[sq(rr, cc)]@.len()
                    ==> has_pair(
                    r@,
                    final(state).moves_of(color)[sq(rr, cc)]@[k].initial.row as int,
                    final(state).moves_of(color)[sq(rr, cc)]@[k].initial.col as int,
                    final(state).moves_of(color)[sq(rr, cc)]@[k].end.row as int,
                    final(state).moves_of(color)[sq(rr, cc)]@[k].end.col as int,
                ),
            pos_cached(old(state).tiles@) ==> forall|i: int|
                0 <= i < r@.len() ==> ((#[trigger] r@[i]).0.row as int) == (r@[i]).1.initial.row as int
                    && ((r@[i]).0.col as int) == (r@[i]).1.initial.col as int,
            r@ == flat_moves(old(state).tiles@, final(state).moves_of(color), color, 64),
    {
        state.calc_team_valid_moves(color);
        let ghost g = state.tiles@;
        let ghost t = state.moves_of(color);
        let mut valid_moves: Vec<(Piece, Move)> = Vec::new();
        let mut i: usize = 0;
        while i < 64
            invariant
                state.wf(),
                g == state.tiles@,
                t == state.moves_of(color),
                color != Team::Neutral,
                team_moves_ok(g, color, t),
                i <= 64,
                valid_moves@ == flat_moves(g, t, color, i as int),
                forall|i2: int|
                    0 <= i2 < valid_moves@.len() ==> pair_ok(g, color, #[trigger] valid_moves@[i2]),
                forall|i2: int|
                    0 <= i2 < valid_moves@.len() ==> exists|k: int|
                        0 <= k < t[sq(
                            ((#[trigger] valid_moves@[i2]).1).initial.row as int,
                            (valid_moves@[i2]).1.initial.col as int,
                        )]@.len() && (valid_moves@[i2]).1 == t[sq(
                            (valid_moves@[i2]).1.initial.row as int,
                            (valid_moves@[i2]).1.initial.col as int,
                        )]@[k],
                forall|rr: int, cc: int, k: int|
                    #![trigger t[sq(rr, cc)]@[k]]
                    in_b(rr, cc) && sq(rr, cc) < i && 0 <= k < t[sq(rr, cc)]@.len()
                        ==> has_pair(
                        valid_moves@,
                        t[sq(rr, cc)]@[k].initial.row as int,
                        t[sq(rr, cc)]@[k].initial.col as int,
                        t[sq(rr, cc)]@[k].end.row as int,
                        t[sq(rr, cc)]@[k].end.col as int,
                    ),
            decreases 64 - i,
        {
            let r = i / 8;
            let c = i % 8;
            let tl = state.tiles[i];
            proof {
                assert(at(g, r as int, c as int) == tl.present_piece);
                assert(in_b(r as int, c as int) && sq(r as int, c as int) == i as int);
            }
            if tl.has_team(color) {
                let pc = *tl.piece();
                let entry = if color == Team::White {
                    crate::board::clone_vec(&state.white_moves[i])
                } else {
                    crate::board::clone_vec(&state.black_moves[i])
                };
                proof {
                    assert(entry@ == t[i as int]@);
                    crate::teammoves::lemma_team_entry_moves(g, color, t, r as int, c as int);
                    assert(entry@.subrange(0, 0) =~= Seq::<Move>::empty());
                    assert(pair_entry(pc, entry@.subrange(0, 0)) =~= Seq::<(Piece, Move)>::empty());
                    assert(valid_moves@ =~= flat_moves(g, t, color, i as int) + pair_entry(
                        pc,
                        entry@.subrange(0, 0),
                    ));
                }
                let mut k: usize = 0;
                while k < entry.len()
                    invariant
                        state.wf(),
                        g == state.tiles@,
                        t == state.moves_of(color),
                        color != Team::Neutral,
                        in_b(r as int, c as int),
                        sq(r as int, c as int) == i as int,
                        i < 64,
                        team_at(g, r as int, c as int, color),
                        pc == at(g, r as int, c as int)->0,
                        entry@ == t[i as int]@,
                        valid_moves@ == flat_moves(g, t, color, i as int) + pair_entry(
                            pc,
                            entry@.subrange(0, k as int),
                        ),
                        forall|k2: int|
                            0 <= k2 < entry@.len() ==> (#[trigger] entry@[k2]).initial.row
                                == r as int && entry@[k2].initial.col == c as int && in_b(
                                entry@[k2].end.row as int,
                                entry@[k2].end.col as int,
                            ),
                        k <= entry@.len(),
                        forall|i2: int|
                            0 <= i2 < valid_moves@.len() ==> pair_ok(
                                g,
                                color,
                                #[trigger] valid_moves@[i2],
                            ),
                        forall|i2: int|
                            0 <= i2 < valid_moves@.len() ==> exists|k2: int|
                                0 <= k2 < t[sq(
                                    ((#[trigger] valid_moves@[i2]).1).initial.row as int,
                                    (valid_moves@[i2]).1.initial.col as int,
                                )]@.len() && (valid_moves@[i2]).1 == t[sq(
                                    (valid_moves@[i2]).1.initial.row as int,
                                    (valid_moves@[i2]).1.initial.col as int,
                                )]@[k2],
                        forall|rr: int, cc: int, k2: int|
                            #![trigger t[sq(rr, cc)]@[k2]]
                            in_b(rr, cc) && sq(rr, cc) < i && 0 <= k2 < t[sq(rr, cc)]@.len()
                                ==> has_pair(
                                valid_moves@,
                                t[sq(rr, cc)]@[k2].initial.row as int,
                                t[sq(rr, cc)]@[k2].initial.col as int,
                                t[sq(rr, cc)]@[k2].end.row as int,
                                t[sq(rr, cc)]@[k2].end.col as int,
                            ),
                        forall|k2: int|
                            0 <= k2 < k ==> has_pair(
                                valid_moves@,
                                (#[trigger] entry@[k2]).initial.row as int,
                                entry@[k2].initial.col as int,
                                entry@[k2].end.row as int,
                                entry@[k2].end.col as int,
                            ),
                    decreases entry@.len() - k,
                {
                    let mv = entry[k].copy();
                    let ghost vm0 = valid_moves@;
                    valid_moves.push((pc, mv));
                    proof {
                        assert(valid_moves@[valid_moves@.len() - 1] == (pc, mv));
                        assert(pair_ok(g, color, (pc, mv)));
                        assert(entry@.subrange(0, k as int + 1) =~= entry@.subrange(
                            0,
                            k as int,
                        ).push(entry@[k as int]));
                        assert(pair_entry(pc, entry@.subrange(0, k as int + 1)) =~= pair_entry(
                            pc,
                            entry@.subrange(0, k as int),
                        ).push((pc, mv)));
                        assert(valid_moves@ =~= flat_moves(g, t, color, i as int) + pair_entry(
                            pc,
                            entry@.subrange(0, k as int + 1),
                        ));
                        assert forall|rr2: int, cc2: int, er2: int, ec2: int|
                            #[trigger] has_pair(vm0, rr2, cc2, er2, ec2) implies has_pair(
                            valid_moves@,
                            rr2,
                            cc2,
                            er2,
                            ec2,
                        ) by {
                            let i0 = choose|i3: int|
                                0 <= i3 < vm0.len() && ((#[trigger] vm0[i3]).1).initial.row == rr2
                                    && (vm0[i3]).1.initial.col == cc2 && (vm0[i3]).1.end.row == er2
                                    && (vm0[i3]).1.end.col == ec2;
                            assert(valid_moves@[i0] == vm0[i0]);
                            assert(0 <= i0 < valid_moves@.len() && ((valid_moves@[i0]).1).initial.row
                                == rr2 && (valid_moves@[i0]).1.initial.col == cc2
                                && (valid_moves@[i0]).1.end.row == er2 && (valid_moves@[i0]).1.end.col
                                == ec2);
                        }
                        assert(has_pair(
                            valid_moves@,
                            mv.initial.row as int,
                            mv.initial.col as int,
                            mv.end.row as int,
                            mv.end.col as int,
                        ));
                    }
                    k = k + 1;
                }
                proof {
                    assert(entry@.subrange(0, entry@.len() as int) =~= entry@);
                    assert(valid_moves@ =~= flat_moves(g, t, color, i as int + 1));
                    assert forall|rr: int, cc: int, k2: int|
                        #![trigger t[sq(rr, cc)]@[k2]]
                        in_b(rr, cc) && sq(rr, cc) < i + 1 && 0 <= k2 < t[sq(rr, cc)]@.len()
                            implies has_pair(
                        valid_moves@,
                        t[sq(rr, cc)]@[k2].initial.row as int,
                        t[sq(rr, cc)]@[k2].initial.col as int,
                        t[sq(rr, cc)]@[k2].end.row as int,
                        t[sq(rr, cc)]@[k2].end.col as int,
                    ) by {
                        if sq(rr, cc) == i as int {
                            assert(t[sq(rr, cc)]@[k2] == entry@[k2]);
                        }
                    }
                }
            } else {
                proof {
                    assert(team_moves_ok(g, color, t));
                    assert(t[i as int]@.len() == 0);
                    assert(valid_moves@ =~= flat_moves(g, t, color, i as int + 1));
                    assert forall|rr: int, cc: int, k2: int|
                        #![trigger t[sq(rr, cc)]@[k2]]
                        in_b(rr, cc) && sq(rr, cc) < i + 1 && 0 <= k2 < t[sq(rr, cc)]@.len()
                            implies has_pair(
                        valid_moves@,
                        t[sq(rr, cc)]@[k2].initial.row as int,
                        t[sq(rr, cc)]@[k2].initial.col as int,
                        t[sq(rr, cc)]@[k2].end.row as int,
                        t[sq(rr, cc)]@[k2].end.col as int,
                    ) by {
                        assert(sq(rr, cc) != i as int);
                    }
                }
            }
            i = i + 1;
        }
        proof {
            if pos_cached(g) {
                assert forall|i2: int|
                    0 <= i2 < valid_moves@.len() implies ((#[trigger] valid_moves@[i2]).0.row as int)
                    == (valid_moves@[i2]).1.initial.row as int && ((valid_moves@[i2]).0.col as int)
                    == (valid_moves@[i2]).1.initial.col as int by {
                    assert(pair_ok(g, color, valid_moves@[i2]));
                    let ir = (valid_moves@[i2]).1.initial.row as int;
                    let ic = (valid_moves@[i2]).1.initial.col as int;
                    assert(g[sq(ir, ic)].present_piece is Some);
                    assert(g[sq(ir, ic)].present_piece->0.row == sq(ir, ic) / 8);
                    assert(sq(ir, ic) / 8 == ir && sq(ir, ic) % 8 == ic);
                }
            }
        }
        valid_moves
    }

    /// Exec mirror of [`move_score`].
    fn score_of(&self, state: &Board, color: Team, pc: Piece, mv: Move) -> (r: i32)
        requires
            state.wf(),
            pc.wf(),
            color != Team::Neutral,
            in_b(mv.end.row as int, mv.end.col as int),
        ensures
            r == move_score(*state, color, pc, mv),
            -40000 <= r <= 40000,
    {
        let ghost b = *state;
        let er = mv.end.row;
        let ec = mv.end.col;
        let mut score: i32 = 0;
        let dest_t = state.tiles[(er as usize) * 8 + (ec as usize)];
        proof {
            assert(at(b.tiles@, er as int, ec as int) == dest_t.present_piece);
        }
        if dest_t.has_piece() {
            let cap = *dest_t.piece();
            proof {
                assert(cap.wf());
            }
            score = 10 * cap.value_mg - pc.value_mg;
        }
        if pc.ptype == PieceType::Pawn && (er == 0 || er == 7) {
            score = score + 2538;
        }
        let mut n: usize = 0;
        let mut attacker: Option<Piece> = None;
        while n < 64 && attacker.is_none()
            invariant
                state.wf(),
                b == *state,
                color != Team::Neutral,
                in_b(er as int, ec as int),
                n <= 64,
                attacker is None ==> first_attacker(b, color, er as int, ec as int, 0)
                    == first_attacker(b, color, er as int, ec as int, n as int),
                attacker is Some ==> first_attacker(b, color, er as int, ec as int, 0) == attacker,
                attacker is Some ==> attacker->0.wf(),
            decreases 64 - n,
        {
            let t = state.tiles[n];
            proof {
                assert(at(b.tiles@, n as int / 8, n as int % 8) == t.present_piece);
            }
            if t.has_rival(color) {
                let opp_entry = if color == Team::White {
                    &state.black_moves[n]
                } else {
                    &state.white_moves[n]
                };
                proof {
                    assert(opp_entry@ == b.moves_of(color.spec_other())[n as int]@);
                }
                if entry_has_dest(opp_entry, er, ec) {
                    attacker = Some(*t.piece());
                }
            }
            n = n + 1;
        }
        match attacker {
            Some(p) => {
                let diff = pc.value_mg - p.value_mg;
                let pen = if diff > 100 {
                    diff
                } else {
                    100
                };
                score = score - pen;
            },
            None => {},
        }
        score
    }

    /// Recompute the side's legal moves and order them ascending by the
    /// heuristic score, equal scores keeping their generation order.
    pub fn get_ordered_valid_moves(&self, state: &mut Board, color: Team) -> (r: Vec<
        (Piece, Move),
    >)
        requires
            old(state).wf(),
            color != Team::Neutral,
            has_king(old(state).tiles@, color),
        ensures
            final(state).wf(),
            final(state).tiles@ == old(state).tiles@,
            final(state).move_log@ == old(state).move_log@,
            final(state).zobrist_keys@ == old(state).zobrist_keys@,
            final(state).cur_uid == old(state).cur_uid,
            team_moves_ok(old(state).tiles@, color, final(state).moves_of(color)),
            forall|i: int|
                0 <= i < r@.len() ==> pair_ok(old(state).tiles@, color, #[trigger] r@[i]),
            forall|i: int|
                0 <= i < r@.len() ==> exists|k: int|
                    0 <= k < final(state).moves_of(color)[sq(
                        ((#[trigger] r@[i]).1).initial.row as int,
                        (r@[i]).1.initial.col as int,
                    )]@.len() && (r@[i]).1 == final(state).moves_of(color)[sq(
                        (r@[i]).1.initial.row as int,
                        (r@[i]).1.initial.col as int,
                    )]@[k],
            forall|i1: int, i2: int|
                0 <= i1 <= i2 < r@.len() ==> move_score(
                    *final(state),
                    color,
                    (#[trigger] r@[i1]).0,
                    (r@[i1]).1,
                ) <= move_score(*final(state), color, (#[trigger] r@[i2]).0, (r@[i2]).1),
            forall|rr: int, cc: int, k: int|
                #![trigger final(state).moves_of(color)[sq(rr, cc)]@[k]]
                in_b(rr, cc) && 0 <= k < final(state).moves_of(color)[sq(rr, cc)]@.len()
                    ==> has_pair(
                    r@,
                    final(state).moves_of(color)[sq(rr, cc)]@[k].initial.row as int,
                    final(state).moves_of(color)[sq(rr, cc)]@[k].initial.col as int,
                    final(state).moves_of(color)[sq(rr, cc)]@[k].end.row as int,
                    final(state).moves_of(color)[sq(rr, cc)]@[k].end.col as int,
                ),
            pos_cached(old(state).tiles@) ==> forall|i: int|
                0 <= i < r@.len() ==> ((#[trigger] r@[i]).0.row as int) == (r@[i]).1.initial.row as int
                    && ((r@[i]).0.col as int) == (r@[i]).1.initial.col as int,
            r@.to_multiset() == flat_moves(
                old(state).tiles@,
                final(state).moves_of(color),
                color,
                64,
            ).to_multiset(),
    {
        broadcast use group_to_multiset_ensures;

        let mut work = self.get_valid_moves(state, color);
        let ghost input = work@;
        let ghost b = *state;
        let mut res: Vec<(Piece, Move)> = Vec::new();
        while work.len() > 0
            invariant
                state.wf(),
                b == *state,
                color != Team::Neutral,
                res@.to_multiset().add(work@.to_multiset()) =~= input.to_multiset(),
                forall|i: int| 0 <= i < work@.len() ==> pair_ok(b.tiles@, color, #[trigger] work@[i]),
                forall|i: int| 0 <= i < res@.len() ==> pair_ok(b.tiles@, color, #[trigger] res@[i]),
                forall|i1: int, i2: int|
                    0 <= i1 <= i2 < res@.len() ==> move_score(
                        b,
                        color,
                        (#[trigger] res@[i1]).0,
                        (res@[i1]).1,
                    ) <= move_score(b, color, (#[trigger] res@[i2]).0, (res@[i2]).1),
                forall|i1: int, i2: int|
                    0 <= i1 < res@.len() && 0 <= i2 < work@.len() ==> move_score(
                        b,
                        color,
                        (#[trigger] res@[i1]).0,
                        (res@[i1]).1,
                    ) <= move_score(b, color, (#[trigger] work@[i2]).0, (work@[i2]).1),
            decreases work@.len(),
        {
            let mut m: usize = 0;
            let first = work[0];
            let mut best_score = self.score_of(state, color, first.0, first.1);
            let mut j: usize = 1;
            while j < work.len()
                invariant
                    state.wf(),
                    b == *state,
                    color != Team::Neutral,
                    work@.len() > 0,
                    m < j <= work@.len() || (m == 0 && j <= work@.len()),
                    m < work@.len(),
                    forall|i: int|
                        0 <= i < work@.len() ==> pair_ok(b.tiles@, color, #[trigger] work@[i]),
                    best_score == move_score(b, color, (work@[m as int]).0, (work@[m as int]).1),
                    forall|j2: int|
                        0 <= j2 < j ==> best_score <= move_score(
                            b,
                            color,
                            (#[trigger] work@[j2]).0,
                            (work@[j2]).1,
                        ),
                decreases work@.len() - j,
            {
                let cand = work[j];
                let s = self.score_of(state, color, cand.0, cand.1);
                if s < best_score {
                    m = j;
                    best_score = s;
                }
                j = j + 1;
            }
            let chosen = work[m];
            let ghost res0 = res@;
            let ghost work0 = work@;
            res.push(chosen);
            let _removed = work.remove(m);
            proof {
                work0.to_multiset_ensures();
                res0.to_multiset_ensures();
                assert(work@ == work0.remove(m as int));
                assert(work0.remove(m as int).to_multiset() =~= work0.to_multiset().remove(
                    work0[m as int],
                ));
                assert(res@ == res0.push(chosen));
                assert(res@.to_multiset() =~= res0.to_multiset().insert(chosen));
                assert(res@.to_multiset().add(work@.to_multiset()) =~= input.to_multiset());
                assert forall|i: int| 0 <= i < work@.len() implies pair_ok(
                    b.tiles@,
                    color,
                    #[trigger] work@[i],
                ) by {
                    if i < m as int {
                        assert(work@[i] == work0[i]);
                    } else {
                        assert(work@[i] == work0[i + 1]);
                    }
                }
                assert forall|i1: int, i2: int|
                    0 <= i1 < res@.len() && 0 <= i2 < work@.len() implies move_score(
                    b,
                    color,
                    (#[trigger] res@[i1]).0,
                    (res@[i1]).1,
                ) <= move_score(b, color, (#[trigger] work@[i2]).0, (work@[i2]).1) by {
                    let orig = if i2 < m as int {
                        i2
                    } else {
                        i2 + 1
                    };
                    assert(work@[i2] == work0[orig]);
                    if i1 < res0.len() {
                        assert(res@[i1] == res0[i1]);
                    } else {
                        assert(res@[i1] == chosen);
                    }
                }
            }
        }
        proof {
            assert(work@.to_multiset() =~= Seq::<(Piece, Move)>::empty().to_multiset());
            assert(res@.to_multiset() =~= input.to_multiset());
            assert(input == flat_moves(b.tiles@, state.moves_of(color), color, 64));
            assert forall|i: int|
                0 <= i < res@.len() implies exists|k: int|
                0 <= k < state.moves_of(color)[sq(
                    ((#[trigger] res@[i]).1).initial.row as int,
                    (res@[i]).1.initial.col as int,
                )]@.len() && (res@[i]).1 == state.moves_of(color)[sq(
                (res@[i]).1.initial.row as int,
                (res@[i]).1.initial.col as int,
            )]@[k] by {
                res@.to_multiset_ensures();
                input.to_multiset_ensures();
                assert(res@.contains(res@[i]));
                assert(res@.to_multiset().count(res@[i]) > 0);
                assert(input.to_multiset().count(res@[i]) > 0);
                assert(input.contains(res@[i]));
                let j0 = choose|j: int| 0 <= j < input.len() && #[trigger] input[j] == res@[i];
                assert(exists|k: int|
                    0 <= k < state.moves_of(color)[sq(
                        ((input[j0]).1).initial.row as int,
                        (input[j0]).1.initial.col as int,
                    )]@.len() && (input[j0]).1 == state.moves_of(color)[sq(
                    (input[j0]).1.initial.row as int,
                    (input[j0]).1.initial.col as int,
                )]@[k]);
            }
            assert forall|rr: int, cc: int, k: int|
                #![trigger final(state).moves_of(color)[sq(rr, cc)]@[k]]
                in_b(rr, cc) && 0 <= k < final(state).moves_of(color)[sq(rr, cc)]@.len()
                    implies has_pair(
                res@,
                final(state).moves_of(color)[sq(rr, cc)]@[k].initial.row as int,
                final(state).moves_of(color)[sq(rr, cc)]@[k].initial.col as int,
                final(state).moves_of(color)[sq(rr, cc)]@[k].end.row as int,
                final(state).moves_of(color)[sq(rr, cc)]@[k].end.col as int,
            ) by {
                let mv = final(state).moves_of(color)[sq(rr, cc)]@[k];
                assert(has_pair(
                    input,
                    mv.initial.row as int,
                    mv.initial.col as int,
                    mv.end.row as int,
                    mv.end.col as int,
                ));
                let i0 = choose|i: int|
                    0 <= i < input.len() && ((#[trigger] input[i]).1).initial.row
                        == mv.initial.row as int && (input[i]).1.initial.col
                        == mv.initial.col as int && (input[i]).1.end.row == mv.end.row as int && (
                    input[i]).1.end.col == mv.end.col as int;
                assert(input.to_multiset().count(input[i0]) > 0);
                assert(res@.to_multiset().count(input[i0]) > 0);
                assert(res@.contains(input[i0]));
                let i1 = choose|i: int| 0 <= i < res@.len() && res@[i] == input[i0];
                assert(0 <= i1 < res@.len() && ((res@[i1]).1).initial.row == mv.initial.row as int
                    && (res@[i1]).1.initial.col == mv.initial.col as int && (res@[i1]).1.end.row
                    == mv.end.row as int && (res@[i1]).1.end.col == mv.end.col as int);
            }
            if pos_cached(b.tiles@) {
                assert forall|i2: int|
                    0 <= i2 < res@.len() implies ((#[trigger] res@[i2]).0.row as int) == (
                res@[i2]).1.initial.row as int && ((res@[i2]).0.col as int) == (
                res@[i2]).1.initial.col as int by {
                    assert(pair_ok(b.tiles@, color, res@[i2]));
                    let ir = (res@[i2]).1.initial.row as int;
                    let ic = (res@[i2]).1.initial.col as int;
                    assert(b.tiles@[sq(ir, ic)].present_piece is Some);
                    assert(b.tiles@[sq(ir, ic)].present_piece->0.row == sq(ir, ic) / 8);
                    assert(sq(ir, ic) / 8 == ir && sq(ir, ic) % 8 == ic);
                }
            }
        }
        res
    }

    /// Depth-limited negamax alpha-beta over a board snapshot. At depth
    /// zero or a terminal position (a side without a legal move, or a
    /// position missing a King) it returns exactly the signed static
    /// evaluation of the engine's own side, and no move; otherwise the
    /// best (score, move) pair over the ordered legal moves — a legal
    /// move of the side the sign denotes — pruning once alpha reaches
    /// beta.
    pub fn alphabeta(&self, state: Board, depth: isize, perspective: i32, alpha: i32, beta: i32) -> (r: (
        i32,
        (Option<Piece>, Option<Move>),
    ))
        requires
            self.wf(),
            state.wf(),
            perspective == 1 || perspective == -1,
            depth >= 0,
            depth > 0 ==> -SCORE_INF <= alpha <= SCORE_INF && -SCORE_INF <= beta <= SCORE_INF,
        ensures
            -SCORE_INF <= r.0 <= SCORE_INF,
            -64 * 2538 <= r.0 <= 64 * 2538,
            r.1.0 is Some <==> r.1.1 is Some,
            r.1.1 is Some ==> move_on_board(r.1.1->0) && r.1.0->0.wf(),
            depth == 0 ==> r.0 == perspective * material(state.tiles@, self.perspective, 64)
                && r.1.0 is None && r.1.1 is None,
            !(has_king(state.tiles@, Team::White) && has_king(state.tiles@, Team::Black)) ==> r.0
                == perspective * material(state.tiles@, self.perspective, 64) && r.1.0 is None
                && r.1.1 is None,
            depth > 0 && has_king(state.tiles@, Team::White) && has_king(state.tiles@, Team::Black)
                && (stuck_side(state.tiles@, Team::White) || stuck_side(state.tiles@, Team::Black))
                ==> r.0 == perspective * material(state.tiles@, self.perspective, 64) && r.1.0 is None
                && r.1.1 is None,
            depth > 0 && has_king(state.tiles@, Team::White) && has_king(state.tiles@, Team::Black)
                && !stuck_side(state.tiles@, Team::White) && !stuck_side(state.tiles@, Team::Black)
                ==> {
                &&& r.1.0 is Some
                &&& r.1.1 is Some
                &&& -64 * 2538 <= r.0 <= 64 * 2538
                &&& pair_ok(
                    state.tiles@,
                    if perspective == 1 {
                        self.perspective
                    } else {
                        self.opponent
                    },
                    (r.1.0->0, r.1.1->0),
                )
            },
        decreases depth,
    {
        let wk0 = state.find_king(Team::White);
        let bk0 = state.find_king(Team::Black);
        if wk0.is_none() || bk0.is_none() {
            let eval = state.evaluate(self.perspective);
            return (perspective * eval, (None, None));
        }
        let mut st = state;
        let ghost g = st.tiles@;
        st.calc_team_valid_moves(Team::White);
        st.calc_team_valid_moves(Team::Black);
        proof {
            lemma_immobile_iff_stuck(g, Team::White, st.moves_of(Team::White));
            lemma_immobile_iff_stuck(g, Team::Black, st.moves_of(Team::Black));
        }
        if depth == 0 || st.is_terminal() {
            let eval = st.evaluate(self.perspective);
            return (perspective * eval, (None, None));
        }
        proof {
            assert(!team_immobile(st, Team::White) && !team_immobile(st, Team::Black));
            assert(!stuck_side(g, Team::White) && !stuck_side(g, Team::Black));
        }
        let color = if perspective == 1 {
            self.perspective
        } else {
            self.opponent
        };
        let ordered = self.get_ordered_valid_moves(&mut st, color);
        proof {
            lemma_immobile_iff_stuck(g, color, st.moves_of(color));
            assert(!stuck_side(g, color));
            let (rr, cc) = choose|rr: int, cc: int|
                in_b(rr, cc) && #[trigger] team_at(g, rr, cc, color) && (st.moves_of(color)[sq(
                    rr,
                    cc,
                )])@.len() != 0;
            let entry = st.moves_of(color)[sq(rr, cc)]@;
            assert(has_pair(
                ordered@,
                entry[0].initial.row as int,
                entry[0].initial.col as int,
                entry[0].end.row as int,
                entry[0].end.col as int,
            ));
            assert(ordered@.len() > 0);
        }
        let mut best_eval: i32 = -SCORE_INF;
        let mut best: (Option<Piece>, Option<Move>) = (None, None);
        let mut a = alpha;
        let mut i: usize = 0;
        let mut done = false;
        while i < ordered.len() && !done
            invariant
                self.wf(),
                st.wf(),
                st.tiles@ == g,
                g == state.tiles@,
                color == (if perspective == 1 {
                    self.perspective
                } else {
                    self.opponent
                }),
                color != Team::Neutral,
                depth >= 1,
                perspective == 1 || perspective == -1,
                has_king(g, Team::White),
                has_king(g, Team::Black),
                !stuck_side(g, Team::White),
                !stuck_side(g, Team::Black),
                i <= ordered@.len(),
                ordered@.len() > 0,
                -SCORE_INF <= best_eval <= SCORE_INF,
                -SCORE_INF <= a <= SCORE_INF,
                -SCORE_INF <= beta <= SCORE_INF,
                forall|i2: int|
                    0 <= i2 < ordered@.len() ==> pair_ok(g, color, #[trigger] ordered@[i2]),
                best.0 is Some <==> best.1 is Some,
                i > 0 ==> best.1 is Some,
                i == 0 ==> best_eval == -SCORE_INF && best.0 is None && !done,
                best.1 is Some ==> {
                    &&& -64 * 2538 <= best_eval <= 64 * 2538
                    &&& move_on_board(best.1->0)
                    &&& best.0->0.wf()
                    &&& pair_ok(g, color, (best.0->0, best.1->0))
                },
            decreases ordered@.len() - i,
        {
            let pair = ordered[i];
            let pc0 = pair.0;
            let mv = pair.1;
            let mut temp = st.copy();
            let mut pc = pc0;
            proof {
                assert(pair_ok(g, color, (pc0, mv)));
                assert(pc0.wf());
            }
            temp.execute_move(&mut pc, mv, false, false);
            let child = self.alphabeta(temp, depth - 1, -perspective, -beta, -a);
            let evaluation = -child.0;
            proof {
                assert(-64 * 2538 <= evaluation <= 64 * 2538);
            }
            if evaluation > best_eval {
                best_eval = evaluation;
                best = (Some(pc0), Some(mv));
            }
            proof {
                if i == 0 {
                    assert(best.1 is Some);
                }
            }
            if best_eval > a {
                a = best_eval;
            }
            if a >= beta {
                done = true;
            }
            i = i + 1;
        }
        proof {
            assert(i > 0);
            assert(best.1 is Some);
        }
        return (best_eval, best);
    }

    /// Sequential alpha-beta over one lane's share of the root moves,
    /// each applied to a private copy of the snapshot. With a non-empty
    /// share it returns one of the share's pairs; with an empty share,
    /// the sentinel score and no move.
    pub fn search_multi_worker(
        &self,
        children: &Vec<(Piece, Move)>,
        state: Board,
        depth: isize,
        perspective: i32,
        alpha: i32,
        beta: i32,
    ) -> (r: (i32, (Option<Piece>, Option<Move>)))
        requires
            self.wf(),
            state.wf(),
            perspective == 1 || perspective == -1,
            depth >= 1,
            -SCORE_INF <= alpha <= SCORE_INF,
            -SCORE_INF <= beta <= SCORE_INF,
            forall|i: int|
                0 <= i < children@.len() ==> {
                    &&& in_b(
                        ((#[trigger] children@[i]).1).initial.row as int,
                        (children@[i]).1.initial.col as int,
                    )
                    &&& in_b(
                        (children@[i]).1.end.row as int,
                        (children@[i]).1.end.col as int,
                    )
                    &&& (children@[i]).0.wf()
                },
        ensures
            -SCORE_INF <= r.0 <= SCORE_INF,
            r.1.0 is Some <==> r.1.1 is Some,
            r.1.1 is Some ==> move_on_board(r.1.1->0) && r.1.0->0.wf(),
            children@.len() == 0 ==> r.0 == -SCORE_INF && r.1.0 is None && r.1.1 is None,
            children@.len() > 0 ==> r.1.0 is Some && r.1.1 is Some && -64 * 2538 <= r.0 <= 64
                * 2538,
            r.1.1 is Some ==> exists|k: int|
                0 <= k < children@.len() && (#[trigger] children@[k]).0 == r.1.0->0 && (
                children@[k]).1 == r.1.1->0,
    {
        let mut best_eval: i32 = -SCORE_INF;
        let mut best: (Option<Piece>, Option<Move>) = (None, None);
        let mut a = alpha;
        let mut i: usize = 0;
        let mut done = false;
        while i < children.len() && !done
            invariant
                self.wf(),
                state.wf(),
                i <= children@.len(),
                -SCORE_INF <= best_eval <= SCORE_INF,
                -SCORE_INF <= a <= SCORE_INF,
                -SCORE_INF <= beta <= SCORE_INF,
                perspective == 1 || perspective == -1,
                depth >= 1,
                best.0 is Some <==> best.1 is Some,
                i > 0 ==> best.1 is Some,
                i == 0 ==> best_eval == -SCORE_INF && best.0 is None && !done,
                best.1 is Some ==> {
                    &&& -64 * 2538 <= best_eval <= 64 * 2538
                    &&& move_on_board(best.1->0)
                    &&& best.0->0.wf()
                    &&& exists|k: int|
                        0 <= k < children@.len() && (#[trigger] children@[k]).0 == best.0->0 && (
                        children@[k]).1 == best.1->0
                },
                forall|i2: int|
                    0 <= i2 < children@.len() ==> {
                        &&& in_b(
                            ((#[trigger] children@[i2]).1).initial.row as int,
                            (children@[i2]).1.initial.col as int,
                        )
                        &&& in_b(
                            (children@[i2]).1.end.row as int,
                            (children@[i2]).1.end.col as int,
                        )
                        &&& (children@[i2]).0.wf()
                    },
            decreases children@.len() - i,
        {
            let pair = children[i];
            let pc0 = pair.0;
            let mv = pair.1;
            let mut temp = state.copy();
            let mut pc = pc0;
            temp.execute_move(&mut pc, mv, false, false);
            let child = self.alphabeta(temp, depth - 1, -perspective, -beta, -a);
            let evaluation = -child.0;
            proof {
                assert(-64 * 2538 <= evaluation <= 64 * 2538);
            }
            if evaluation > best_eval {
                best_eval = evaluation;
                best = (Some(pc0), Some(mv));
                proof {
                    assert(children@[i as int].0 == pc0 && children@[i as int].1 == mv);
                }
            }
            proof {
                if i == 0 {
                    assert(best.1 is Some);
                }
            }
            if best_eval > a {
                a = best_eval;
            }
            if a >= beta {
                done = true;
            }
            i = i + 1;
        }
        proof {
            if children@.len() > 0 {
                assert(i > 0);
                assert(best.1 is Some);
            }
        }
        return (best_eval, best);
    }
}

/// The root-list index that position i of lane `lane` draws from under
/// an n-way round-robin split.
pub open spec fn stride_idx(lane: int, n: int, i: int) -> int {
    lane + i * n
}

/// Every entry of the lane's share is the stride-indexed root move.
pub open spec fn stride_section(
    r: Seq<(Piece, Move)>,
    moves: Seq<(Piece, Move)>,
    lane: int,
    n: int,
) -> bool {
    forall|i: int|
        0 <= i < r.len() ==> #[trigger] stride_idx(lane, n, i) < moves.len() && r[i]
            == moves[stride_idx(lane, n, i)]
}

/// Every stride index past the share's length falls off the root list.
pub open spec fn stride_covered(r_len: int, moves_len: int, lane: int, n: int) -> bool {
    forall|i: int| i >= r_len ==> #[trigger] stride_idx(lane, n, i) >= moves_len
}

/// Appending the stride-indexed next root move extends a lane section.
proof fn lemma_stride_section_push(
    r0: Seq<(Piece, Move)>,
    moves: Seq<(Piece, Move)>,
    lane: int,
    n: int,
    e: (Piece, Move),
)
    requires
        stride_section(r0, moves, lane, n),
        stride_idx(lane, n, r0.len() as int) < moves.len(),
        e == moves[stride_idx(lane, n, r0.len() as int)],
    ensures
        stride_section(r0.push(e), moves, lane, n),
{
    assert forall|i: int|
        0 <= i < r0.push(e).len() implies #[trigger] stride_idx(lane, n, i) < moves.len()
        && r0.push(e)[i] == moves[stride_idx(lane, n, i)] by {
        if i < r0.len() {
            assert(r0[i] == moves[stride_idx(lane, n, i)]);
            assert(r0.push(e)[i] == r0[i]);
        } else {
            assert(i == r0.len());
            assert(r0.push(e)[i] == e);
        }
    }
}

/// The round-robin share of the root moves assigned to one worker lane:
/// exactly every n-th entry starting at the lane's own index.
pub fn lane_moves(moves: &Vec<(Piece, Move)>, lane: usize, n: usize) -> (r: Vec<(Piece, Move)>)
    requires
        n >= 1,
        lane < n,
    ensures
        stride_section(r@, moves@, lane as int, n as int),
        forall|i: int|
            0 <= i && #[trigger] stride_idx(lane as int, n as int, i) < moves@.len() ==> i
                < r@.len(),
{
    let mut r: Vec<(Piece, Move)> = Vec::new();
    let mut idx = lane;
    let mut done = false;
    proof {
        assert(0int * (n as int) == 0) by (nonlinear_arith);
        assert(stride_idx(lane as int, n as int, 0) == lane as int);
    }
    while idx < moves.len() && !done
        invariant
            n >= 1,
            lane < n,
            !done ==> idx as int == stride_idx(lane as int, n as int, r@.len() as int),
            done ==> stride_covered(r@.len() as int, moves@.len() as int, lane as int, n as int),
            stride_section(r@, moves@, lane as int, n as int),
        decreases moves@.len() - idx + (if done {
            0int
        } else {
            1int
        }),
    {
        let ghost cnt = r@.len() as int;
        let ghost r0 = r@;
        let e = moves[idx];
        r.push(e);
        proof {
            assert(idx as int == stride_idx(lane as int, n as int, cnt));
            assert(r@ == r0.push(e));
            lemma_stride_section_push(r0, moves@, lane as int, n as int, e);
            assert(stride_section(r@, moves@, lane as int, n as int));
        }
        if moves.len() - idx <= n {
            done = true;
            proof {
                assert(stride_covered(
                    r@.len() as int,
                    moves@.len() as int,
                    lane as int,
                    n as int,
                )) by {
                    assert forall|i: int| i >= r@.len() implies #[trigger] stride_idx(
                        lane as int,
                        n as int,
                        i,
                    ) >= moves@.len() by {
                        let nn = n as int;
                        assert(i * nn >= (cnt + 1) * nn) by (nonlinear_arith)
                            requires
                                i >= cnt + 1,
                                nn >= 1,
                        ;
                        assert((cnt + 1) * nn == cnt * nn + nn) by (nonlinear_arith);
                    }
                }
            }
        } else {
            idx = idx + n;
            proof {
                let nn = n as int;
                assert((cnt + 1) * nn == cnt * nn + nn) by (nonlinear_arith);
                assert(idx as int == stride_idx(lane as int, n as int, cnt + 1));
            }
        }
    }
    proof {
        if !done {
            assert(stride_covered(r@.len() as int, moves@.len() as int, lane as int, n as int))
                by {
                assert forall|i: int| i >= r@.len() implies #[trigger] stride_idx(
                    lane as int,
                    n as int,
                    i,
                ) >= moves@.len() by {
                    let nn = n as int;
                    let cnt2 = r@.len() as int;
                    assert(i * nn >= cnt2 * nn) by (nonlinear_arith)
                        requires
                            i >= cnt2,
                            nn >= 1,
                    ;
                }
            }
        }
        assert forall|i: int|
            0 <= i && #[trigger] stride_idx(lane as int, n as int, i) < moves@.len() implies i
            < r@.len() by {
            if i >= r@.len() {
                assert(stride_idx(lane as int, n as int, i) >= moves@.len());
            }
        }
    }
    r
}

/// The final answer of a root-parallel search: the minimum-scoring
/// lane result, the selection rule the root split uses.
pub fn select_best_result(results: &Vec<(i32, (Option<Piece>, Option<Move>))>) -> (r: (
    i32,
    (Option<Piece>, Option<Move>),
))
    requires
        results@.len() >= 1,
    ensures
        exists|i: int| 0 <= i < results@.len() && r == results@[i],
        forall|i: int| 0 <= i < results@.len() ==> r.0 <= (#[trigger] results@[i]).0,
{
    let mut best = results[0];
    let mut i: usize = 1;
    while i < results.len()
        invariant
            1 <= i <= results@.len(),
            exists|j: int| 0 <= j < results@.len() && best == results@[j],
            forall|j: int| 0 <= j < i ==> best.0 <= (#[trigger] results@[j]).0,
        decreases results@.len() - i,
    {
        let cand = results[i];
        if cand.0 < best.0 {
            best = cand;
        }
        i = i + 1;
    }
    best
}

} // verus!
