//! Team-level legality: one pin/check analysis for the side, then every
//! piece's legal-move entry, filtered by the check-response rules.

use vstd::prelude::*;
use crate::board::{at, in_b, occ, sq, team_at, Board};
use crate::calc::{has_dest, list_pin, moves_match, piece_dest};
use crate::calc::{lemma_list_pin_none, lemma_list_pin_removed, lemma_list_pin_some};
use crate::movegen::{check_count, check_entry_ok, dir_c, dir_r, dir_scan, find_king_from, has_king, in_check_spec, knight_check, knight_off_c, knight_off_r, pin_entry_ok};
use crate::piece::{Piece, PieceType};
use crate::team::Team;
use crate::tile::{Move, Tile};
use crate::utils::inrange;

verus! {

/// Sign of an integer: -1, 0 or 1.
pub open spec fn sgn(x: int) -> int {
    if x > 0 {
        1
    } else if x < 0 {
        -1
    } else {
        0
    }
}

/// The linear shape of ray j as seen from the King on (kr, kc): every
/// square the ray visits satisfies it.
pub open spec fn ray_rel(j: int, kr: int, kc: int, x: int, y: int) -> bool {
    if j == 0 {
        x < kr && y == kc
    } else if j == 1 {
        x == kr && y < kc
    } else if j == 2 {
        x > kr && y == kc
    } else if j == 3 {
        x == kr && y > kc
    } else if j == 4 {
        x - kr == y - kc && x < kr
    } else if j == 5 {
        kr - x == y - kc && x < kr
    } else if j == 6 {
        x - kr == kc - y && x > kr
    } else {
        x - kr == y - kc && x > kr
    }
}

/// Every pinned square the scan reports lies on the scanned ray.
proof fn lemma_scan_pin_rel(
    g: Seq<Tile>,
    color: Team,
    j: int,
    r: int,
    c: int,
    step: int,
    cand: Option<(int, int)>,
    kr: int,
    kc: int,
)
    requires
        0 <= j < 8,
        (r == kr && c == kc) || ray_rel(j, kr, kc, r, c),
        cand is Some ==> ray_rel(j, kr, kc, (cand->0).0, (cand->0).1),
        crate::movegen::ray_scan(g, color, j, r, c, step, cand).1 is Some,
    ensures
        ({
            let p = crate::movegen::ray_scan(g, color, j, r, c, step, cand).1->0;
            ray_rel(j, kr, kc, p.0, p.1)
        }),
    decreases 8 - step,
{
    let nr = r + dir_r(j);
    let nc = c + dir_c(j);
    assert(ray_rel(j, kr, kc, nr, nc));
    if team_at(g, nr, nc, color) && at(g, nr, nc)->0.ptype != PieceType::King {
        if cand is None {
            lemma_scan_pin_rel(g, color, j, nr, nc, step + 1, Some((nr, nc)), kr, kc);
        }
    } else if team_at(g, nr, nc, color) {
    } else if crate::board::rival_at(g, nr, nc, color) {
    } else {
        lemma_scan_pin_rel(g, color, j, nr, nc, step + 1, cand, kr, kc);
    }
}

/// The direction of a pinning ray is determined by the pinned square:
/// it is the sign pair of the square's offset from the King.
pub proof fn lemma_pin_dir(g: Seq<Tile>, color: Team, kr: int, kc: int, j: int, pr: int, pc: int)
    requires
        0 <= j < 8,
        dir_scan(g, color, kr, kc, j).1 == Some((pr, pc)),
    ensures
        dir_r(j) == sgn(pr - kr),
        dir_c(j) == sgn(pc - kc),
{
    lemma_scan_pin_rel(g, color, j, kr, kc, 1, None, kr, kc);
}

/// The pin ray of the piece on (r, c), if the analysis pins it: its
/// direction is the sign pair of the square's offset from the King.
pub open spec fn pin_of(g: Seq<Tile>, color: Team, r: int, c: int) -> Option<(int, int)> {
    let k = find_king_from(g, color, 0)->0;
    if exists|j: int|
        0 <= j < 8 && (#[trigger] dir_scan(g, color, k / 8, k % 8, j)).1 == Some((r, c)) {
        Some((sgn(r - k / 8), sgn(c - k % 8)))
    } else {
        None
    }
}

/// One of the checks of a single-check position: the checking piece on
/// (tr, tc), reached from the King along (dr, dc) — a ray direction for
/// a sliding, pawn or king check, the jump offset for a knight check.
pub open spec fn the_check(g: Seq<Tile>, color: Team, tr: int, tc: int, dr: int, dc: int) -> bool {
    let k = find_king_from(g, color, 0)->0;
    ||| (exists|j: int|
        0 <= j < 8 && (#[trigger] dir_scan(g, color, k / 8, k % 8, j)).0 == Some((tr, tc)) && dr
            == dir_r(j) && dc == dir_c(j))
    ||| (exists|m: int|
        0 <= m < 8 && #[trigger] knight_check(g, color, k / 8, k % 8, m) && tr == k / 8
            + knight_off_r(m) && tc == k % 8 + knight_off_c(m) && dr == knight_off_r(m) && dc
            == knight_off_c(m))
}

/// A square on the segment from the King (exclusive) to the checker
/// (inclusive) along direction (dr, dc); the walk also collects the
/// squares beyond a checker that is never met exactly.
pub open spec fn on_seg(
    kr: int,
    kc: int,
    dr: int,
    dc: int,
    tr: int,
    tc: int,
    r2: int,
    c2: int,
    fuel: nat,
) -> bool
    decreases fuel,
{
    &&& fuel > 0
    &&& in_b(kr + dr, kc + dc)
    &&& {
        ||| (r2 == kr + dr && c2 == kc + dc)
        ||| (!(kr + dr == tr && kc + dc == tc) && on_seg(
            kr + dr,
            kc + dc,
            dr,
            dc,
            tr,
            tc,
            r2,
            c2,
            (fuel - 1) as nat,
        ))
    }
}

/// A destination that answers a single check: the checker's own square
/// for a knight check, a block-or-capture square on the checking ray
/// otherwise.
pub open spec fn blocking_dest(
    g: Seq<Tile>,
    color: Team,
    tr: int,
    tc: int,
    dr: int,
    dc: int,
    r2: int,
    c2: int,
) -> bool {
    let k = find_king_from(g, color, 0)->0;
    if occ(g, tr, tc) && at(g, tr, tc)->0.ptype == PieceType::Knight {
        r2 == tr && c2 == tc
    } else {
        on_seg(k / 8, k % 8, dr, dc, tr, tc, r2, c2, 7)
    }
}

/// The ray-check counter never counts below zero.
proof fn lemma_count_ray_nonneg(g: Seq<Tile>, color: Team, kr: int, kc: int, a: int)
    requires
        0 <= a,
    ensures
        crate::movegen::count_ray_checks(g, color, kr, kc, a) >= 0,
    decreases 8 - a,
{
    if a < 8 {
        lemma_count_ray_nonneg(g, color, kr, kc, a + 1);
    }
}

/// The knight-check counter never counts below zero.
proof fn lemma_count_knight_nonneg(g: Seq<Tile>, color: Team, kr: int, kc: int, a: int)
    requires
        0 <= a,
    ensures
        crate::movegen::count_knight_checks(g, color, kr, kc, a) >= 0,
    decreases 8 - a,
{
    if a < 8 {
        lemma_count_knight_nonneg(g, color, kr, kc, a + 1);
    }
}

/// One checking ray at or past a makes the counter from a at least one.
proof fn lemma_count_ray_one(g: Seq<Tile>, color: Team, kr: int, kc: int, a: int, j: int)
    requires
        0 <= a <= j < 8,
        dir_scan(g, color, kr, kc, j).0 is Some,
    ensures
        crate::movegen::count_ray_checks(g, color, kr, kc, a) >= 1,
    decreases 8 - a,
{
    lemma_count_ray_nonneg(g, color, kr, kc, a + 1);
    if a < j {
        lemma_count_ray_one(g, color, kr, kc, a + 1, j);
    }
}

/// Two distinct checking rays make the counter at least two.
proof fn lemma_count_ray_two(
    g: Seq<Tile>,
    color: Team,
    kr: int,
    kc: int,
    a: int,
    j1: int,
    j2: int,
)
    requires
        0 <= a <= j1 < j2 < 8,
        dir_scan(g, color, kr, kc, j1).0 is Some,
        dir_scan(g, color, kr, kc, j2).0 is Some,
    ensures
        crate::movegen::count_ray_checks(g, color, kr, kc, a) >= 2,
    decreases 8 - a,
{
    if a == j1 {
        lemma_count_ray_one(g, color, kr, kc, a + 1, j2);
    } else {
        lemma_count_ray_two(g, color, kr, kc, a + 1, j1, j2);
    }
}

/// One checking knight at or past a makes the counter from a at least one.
proof fn lemma_count_knight_one(g: Seq<Tile>, color: Team, kr: int, kc: int, a: int, m: int)
    requires
        0 <= a <= m < 8,
        knight_check(g, color, kr, kc, m),
    ensures
        crate::movegen::count_knight_checks(g, color, kr, kc, a) >= 1,
    decreases 8 - a,
{
    lemma_count_knight_nonneg(g, color, kr, kc, a + 1);
    if a < m {
        lemma_count_knight_one(g, color, kr, kc, a + 1, m);
    }
}

/// Two distinct checking knights make the counter at least two.
proof fn lemma_count_knight_two(
    g: Seq<Tile>,
    color: Team,
    kr: int,
    kc: int,
    a: int,
    m1: int,
    m2: int,
)
    requires
        0 <= a <= m1 < m2 < 8,
        knight_check(g, color, kr, kc, m1),
        knight_check(g, color, kr, kc, m2),
    ensures
        crate::movegen::count_knight_checks(g, color, kr, kc, a) >= 2,
    decreases 8 - a,
{
    if a == m1 {
        lemma_count_knight_one(g, color, kr, kc, a + 1, m2);
    } else {
        lemma_count_knight_two(g, color, kr, kc, a + 1, m1, m2);
    }
}

/// In a single-check position the check data is unique: any two
/// witnesses of [`the_check`] agree on the checker and the direction.
pub proof fn lemma_single_check_unique(
    g: Seq<Tile>,
    color: Team,
    tr: int,
    tc: int,
    dr: int,
    dc: int,
    tr2: int,
    tc2: int,
    dr2: int,
    dc2: int,
)
    requires
        check_count(g, color) == 1,
        the_check(g, color, tr, tc, dr, dc),
        the_check(g, color, tr2, tc2, dr2, dc2),
    ensures
        tr == tr2 && tc == tc2 && dr == dr2 && dc == dc2,
{
    assert(has_king(g, color));
    let k = find_king_from(g, color, 0)->0;
    let kr = k / 8;
    let kc = k % 8;
    lemma_count_ray_nonneg(g, color, kr, kc, 0);
    lemma_count_knight_nonneg(g, color, kr, kc, 0);
    if exists|j: int|
        0 <= j < 8 && (#[trigger] dir_scan(g, color, kr, kc, j)).0 == Some((tr, tc)) && dr
            == dir_r(j) && dc == dir_c(j) {
        let j1 = choose|j: int|
            0 <= j < 8 && (#[trigger] dir_scan(g, color, kr, kc, j)).0 == Some((tr, tc)) && dr
                == dir_r(j) && dc == dir_c(j);
        if exists|j: int|
            0 <= j < 8 && (#[trigger] dir_scan(g, color, kr, kc, j)).0 == Some((tr2, tc2)) && dr2
                == dir_r(j) && dc2 == dir_c(j) {
            let j2 = choose|j: int|
                0 <= j < 8 && (#[trigger] dir_scan(g, color, kr, kc, j)).0 == Some((tr2, tc2))
                    && dr2 == dir_r(j) && dc2 == dir_c(j);
            if j1 == j2 {
            } else if j1 < j2 {
                lemma_count_ray_two(g, color, kr, kc, 0, j1, j2);
            } else {
                lemma_count_ray_two(g, color, kr, kc, 0, j2, j1);
            }
        } else {
            let m2 = choose|m: int|
                0 <= m < 8 && #[trigger] knight_check(g, color, kr, kc, m) && tr2 == kr
                    + knight_off_r(m) && tc2 == kc + knight_off_c(m) && dr2 == knight_off_r(m)
                    && dc2 == knight_off_c(m);
            lemma_count_ray_one(g, color, kr, kc, 0, j1);
            lemma_count_knight_one(g, color, kr, kc, 0, m2);
        }
    } else {
        let m1 = choose|m: int|
            0 <= m < 8 && #[trigger] knight_check(g, color, kr, kc, m) && tr == kr
                + knight_off_r(m) && tc == kc + knight_off_c(m) && dr == knight_off_r(m) && dc
                == knight_off_c(m);
        if exists|j: int|
            0 <= j < 8 && (#[trigger] dir_scan(g, color, kr, kc, j)).0 == Some((tr2, tc2)) && dr2
                == dir_r(j) && dc2 == dir_c(j) {
            let j2 = choose|j: int|
                0 <= j < 8 && (#[trigger] dir_scan(g, color, kr, kc, j)).0 == Some((tr2, tc2))
                    && dr2 == dir_r(j) && dc2 == dir_c(j);
            lemma_count_ray_one(g, color, kr, kc, 0, j2);
            lemma_count_knight_one(g, color, kr, kc, 0, m1);
        } else {
            let m2 = choose|m: int|
                0 <= m < 8 && #[trigger] knight_check(g, color, kr, kc, m) && tr2 == kr
                    + knight_off_r(m) && tc2 == kc + knight_off_c(m) && dr2 == knight_off_r(m)
                    && dc2 == knight_off_c(m);
            if m1 == m2 {
            } else if m1 < m2 {
                lemma_count_knight_two(g, color, kr, kc, 0, m1, m2);
            } else {
                lemma_count_knight_two(g, color, kr, kc, 0, m2, m1);
            }
        }
    }
}

/// The piece on (r, c) has no destination open under the unfiltered
/// rules.
pub open spec fn square_stuck_open(g: Seq<Tile>, color: Team, r: int, c: int) -> bool {
    forall|r2: int, c2: int|
        in_b(r2, c2) ==> !#[trigger] piece_dest(
            g,
            at(g, r, c)->0,
            r,
            c,
            pin_of(g, color, r, c),
            r2,
            c2,
        )
}

/// The piece on (r, c) has no destination open under the single-check
/// rules for the given check.
pub open spec fn square_stuck_filtered(
    g: Seq<Tile>,
    color: Team,
    r: int,
    c: int,
    tr: int,
    tc: int,
    dr: int,
    dc: int,
) -> bool {
    forall|r2: int, c2: int|
        in_b(r2, c2) ==> !(#[trigger] piece_dest(
            g,
            at(g, r, c)->0,
            r,
            c,
            pin_of(g, color, r, c),
            r2,
            c2,
        ) && (at(g, r, c)->0.ptype == PieceType::King || blocking_dest(
            g,
            color,
            tr,
            tc,
            dr,
            dc,
            r2,
            c2,
        )))
}

/// The side to move has no legal move at all, stated over the grid
/// alone: the mated/stalemated condition a legality pass detects.
pub open spec fn stuck_side(g: Seq<Tile>, color: Team) -> bool {
    if check_count(g, color) == 0 {
        forall|r: int, c: int|
            in_b(r, c) && #[trigger] team_at(g, r, c, color) ==> square_stuck_open(g, color, r, c)
    } else if check_count(g, color) == 1 {
        forall|tr: int, tc: int, dr: int, dc: int|
            #[trigger] the_check(g, color, tr, tc, dr, dc) ==> forall|r: int, c: int|
                in_b(r, c) && #[trigger] team_at(g, r, c, color) ==> square_stuck_filtered(
                    g,
                    color,
                    r,
                    c,
                    tr,
                    tc,
                    dr,
                    dc,
                )
    } else {
        forall|r: int, c: int|
            in_b(r, c) && #[trigger] team_at(g, r, c, color) && at(g, r, c)->0.ptype
                == PieceType::King ==> square_stuck_open(g, color, r, c)
    }
}

/// Under a freshly computed table, every entry of the side being empty
/// is exactly the grid-level stuck condition.
pub proof fn lemma_immobile_iff_stuck(g: Seq<Tile>, color: Team, t: Seq<Vec<Move>>)
    requires
        team_moves_ok(g, color, t),
    ensures
        (forall|r: int, c: int|
            in_b(r, c) && #[trigger] team_at(g, r, c, color) ==> (t[sq(r, c)])@.len() == 0)
            <==> stuck_side(g, color),
{
    if check_count(g, color) == 0 {
        if forall|r: int, c: int|
            in_b(r, c) && #[trigger] team_at(g, r, c, color) ==> (t[sq(r, c)])@.len() == 0 {
            assert forall|r: int, c: int|
                in_b(r, c) && #[trigger] team_at(g, r, c, color) implies square_stuck_open(
                g,
                color,
                r,
                c,
            ) by {
                assert(square_open_ok(g, color, t, r, c));
                assert forall|r2: int, c2: int| in_b(r2, c2) implies !#[trigger] piece_dest(
                    g,
                    at(g, r, c)->0,
                    r,
                    c,
                    pin_of(g, color, r, c),
                    r2,
                    c2,
                ) by {
                    if piece_dest(g, at(g, r, c)->0, r, c, pin_of(g, color, r, c), r2, c2) {
                        assert(has_dest(t[sq(r, c)]@, r2, c2));
                    }
                }
            }
        }
        if stuck_side(g, color) {
            assert forall|r: int, c: int|
                in_b(r, c) && #[trigger] team_at(g, r, c, color) implies (t[sq(r, c)])@.len()
                == 0 by {
                assert(square_open_ok(g, color, t, r, c));
                assert(square_stuck_open(g, color, r, c));
                if t[sq(r, c)]@.len() > 0 {
                    assert(in_b(
                        t[sq(r, c)]@[0].end.row as int,
                        t[sq(r, c)]@[0].end.col as int,
                    ) && piece_dest(
                        g,
                        at(g, r, c)->0,
                        r,
                        c,
                        pin_of(g, color, r, c),
                        t[sq(r, c)]@[0].end.row as int,
                        t[sq(r, c)]@[0].end.col as int,
                    ));
                }
            }
        }
    } else if check_count(g, color) == 1 {
        let (tr0, tc0, dr0, dc0) = choose|tr: int, tc: int, dr: int, dc: int|
            #[trigger] the_check(g, color, tr, tc, dr, dc) && forall|r: int, c: int|
                in_b(r, c) && team_at(g, r, c, color) ==> square_filtered_ok(
                    g,
                    color,
                    t,
                    r,
                    c,
                    tr,
                    tc,
                    dr,
                    dc,
                );
        if forall|r: int, c: int|
            in_b(r, c) && #[trigger] team_at(g, r, c, color) ==> (t[sq(r, c)])@.len() == 0 {
            assert forall|tr: int, tc: int, dr: int, dc: int|
                #[trigger] the_check(g, color, tr, tc, dr, dc) implies forall|r: int, c: int|
                in_b(r, c) && #[trigger] team_at(g, r, c, color) ==> square_stuck_filtered(
                    g,
                    color,
                    r,
                    c,
                    tr,
                    tc,
                    dr,
                    dc,
                ) by {
                lemma_single_check_unique(g, color, tr, tc, dr, dc, tr0, tc0, dr0, dc0);
                assert forall|r: int, c: int|
                    in_b(r, c) && #[trigger] team_at(g, r, c, color) implies square_stuck_filtered(
                    g,
                    color,
                    r,
                    c,
                    tr,
                    tc,
                    dr,
                    dc,
                ) by {
                    assert(square_filtered_ok(g, color, t, r, c, tr0, tc0, dr0, dc0));
                    assert forall|r2: int, c2: int| in_b(r2, c2) implies !(#[trigger] piece_dest(
                        g,
                        at(g, r, c)->0,
                        r,
                        c,
                        pin_of(g, color, r, c),
                        r2,
                        c2,
                    ) && (at(g, r, c)->0.ptype == PieceType::King || blocking_dest(
                        g,
                        color,
                        tr,
                        tc,
                        dr,
                        dc,
                        r2,
                        c2,
                    ))) by {
                        if piece_dest(g, at(g, r, c)->0, r, c, pin_of(g, color, r, c), r2, c2)
                            && (at(g, r, c)->0.ptype == PieceType::King || blocking_dest(
                            g,
                            color,
                            tr,
                            tc,
                            dr,
                            dc,
                            r2,
                            c2,
                        )) {
                            assert(has_dest(t[sq(r, c)]@, r2, c2));
                        }
                    }
                }
            }
        }
        if stuck_side(g, color) {
            assert forall|r: int, c: int|
                in_b(r, c) && #[trigger] team_at(g, r, c, color) implies (t[sq(r, c)])@.len()
                == 0 by {
                assert(square_filtered_ok(g, color, t, r, c, tr0, tc0, dr0, dc0));
                assert(square_stuck_filtered(g, color, r, c, tr0, tc0, dr0, dc0));
                if t[sq(r, c)]@.len() > 0 {
                    let er = t[sq(r, c)]@[0].end.row as int;
                    let ec = t[sq(r, c)]@[0].end.col as int;
                    assert(in_b(er, ec) && piece_dest(
                        g,
                        at(g, r, c)->0,
                        r,
                        c,
                        pin_of(g, color, r, c),
                        er,
                        ec,
                    ) && (at(g, r, c)->0.ptype == PieceType::King || blocking_dest(
                        g,
                        color,
                        tr0,
                        tc0,
                        dr0,
                        dc0,
                        er,
                        ec,
                    )));
                }
            }
        }
    } else {
        if forall|r: int, c: int|
            in_b(r, c) && #[trigger] team_at(g, r, c, color) ==> (t[sq(r, c)])@.len() == 0 {
            assert forall|r: int, c: int|
                in_b(r, c) && #[trigger] team_at(g, r, c, color) && at(g, r, c)->0.ptype
                    == PieceType::King implies square_stuck_open(g, color, r, c) by {
                assert(square_open_ok(g, color, t, r, c));
                assert forall|r2: int, c2: int| in_b(r2, c2) implies !#[trigger] piece_dest(
                    g,
                    at(g, r, c)->0,
                    r,
                    c,
                    pin_of(g, color, r, c),
                    r2,
                    c2,
                ) by {
                    if piece_dest(g, at(g, r, c)->0, r, c, pin_of(g, color, r, c), r2, c2) {
                        assert(has_dest(t[sq(r, c)]@, r2, c2));
                    }
                }
            }
        }
        if stuck_side(g, color) {
            assert forall|r: int, c: int|
                in_b(r, c) && #[trigger] team_at(g, r, c, color) implies (t[sq(r, c)])@.len()
                == 0 by {
                if at(g, r, c)->0.ptype == PieceType::King {
                    assert(square_open_ok(g, color, t, r, c));
                    assert(square_stuck_open(g, color, r, c));
                    if t[sq(r, c)]@.len() > 0 {
                        assert(in_b(
                            t[sq(r, c)]@[0].end.row as int,
                            t[sq(r, c)]@[0].end.col as int,
                        ) && piece_dest(
                            g,
                            at(g, r, c)->0,
                            r,
                            c,
                            pin_of(g, color, r, c),
                            t[sq(r, c)]@[0].end.row as int,
                            t[sq(r, c)]@[0].end.col as int,
                        ));
                    }
                }
            }
        }
    }
}

/// In any position with the White King on its home square checked by a
/// Black Rook straight up the file over six empty squares — and by
/// nothing else — every legal move of a White piece other than the King
/// lands on that file, between the King and the Rook or on the Rook:
/// blocking or capturing are the only non-King answers.
pub proof fn lemma_file_check_blocks(g: Seq<Tile>, t: Seq<Vec<Move>>)
    requires
        team_moves_ok(g, Team::White, t),
        occ(g, 7, 4) && at(g, 7, 4)->0.ptype == PieceType::King && at(g, 7, 4)->0.color
            == Team::White,
        occ(g, 0, 4) && at(g, 0, 4)->0.ptype == PieceType::Rook && at(g, 0, 4)->0.color
            == Team::Black,
        forall|r: int| 1 <= r <= 6 ==> !occ(g, r, 4),
        find_king_from(g, Team::White, 0) == Some(60int),
        check_count(g, Team::White) == 1,
    ensures
        forall|r: int, c: int|
            in_b(r, c) && #[trigger] team_at(g, r, c, Team::White) && at(g, r, c)->0.ptype
                != PieceType::King ==> forall|k: int|
                0 <= k < t[sq(r, c)]@.len() ==> (#[trigger] t[sq(r, c)]@[k]).end.col == 4 && 0
                    <= t[sq(r, c)]@[k].end.row <= 6,
{
    let w = Team::White;
    assert(60int / 8 == 7 && 60int % 8 == 4);
    // the upward ray from the King meets the Rook across six empty squares
    assert(crate::movegen::ray_scan(g, w, 0, 1, 4, 7, None) == (
        Some((0int, 4int)),
        None::<(int, int)>,
    ));
    assert(crate::movegen::ray_scan(g, w, 0, 2, 4, 6, None) == (
        Some((0int, 4int)),
        None::<(int, int)>,
    ));
    assert(crate::movegen::ray_scan(g, w, 0, 3, 4, 5, None) == (
        Some((0int, 4int)),
        None::<(int, int)>,
    ));
    assert(crate::movegen::ray_scan(g, w, 0, 4, 4, 4, None) == (
        Some((0int, 4int)),
        None::<(int, int)>,
    ));
    assert(crate::movegen::ray_scan(g, w, 0, 5, 4, 3, None) == (
        Some((0int, 4int)),
        None::<(int, int)>,
    ));
    assert(crate::movegen::ray_scan(g, w, 0, 6, 4, 2, None) == (
        Some((0int, 4int)),
        None::<(int, int)>,
    ));
    assert(crate::movegen::ray_scan(g, w, 0, 7, 4, 1, None) == (
        Some((0int, 4int)),
        None::<(int, int)>,
    ));
    assert(dir_scan(g, w, 7, 4, 0).0 == Some((0int, 4int)));
    assert(the_check(g, w, 0, 4, -1, 0));
    // the block-or-capture squares are the file squares up to the Rook
    assert forall|r2: int, c2: int| #[trigger] blocking_dest(g, w, 0, 4, -1, 0, r2, c2)
        <==> (c2 == 4 && 0 <= r2 <= 6) by {
        assert(on_seg(1, 4, -1, 0, 0, 4, r2, c2, 1) <==> (r2 == 0 && c2 == 4));
        assert(on_seg(2, 4, -1, 0, 0, 4, r2, c2, 2) <==> ((r2 == 1 && c2 == 4) || (r2 == 0 && c2
            == 4)));
        assert(on_seg(3, 4, -1, 0, 0, 4, r2, c2, 3) <==> ((r2 == 2 && c2 == 4) || (r2 == 1 && c2
            == 4) || (r2 == 0 && c2 == 4)));
        assert(on_seg(4, 4, -1, 0, 0, 4, r2, c2, 4) <==> (c2 == 4 && 0 <= r2 <= 3));
        assert(on_seg(5, 4, -1, 0, 0, 4, r2, c2, 5) <==> (c2 == 4 && 0 <= r2 <= 4));
        assert(on_seg(6, 4, -1, 0, 0, 4, r2, c2, 6) <==> (c2 == 4 && 0 <= r2 <= 5));
        assert(on_seg(7, 4, -1, 0, 0, 4, r2, c2, 7) <==> (c2 == 4 && 0 <= r2 <= 6));
    }
    // with exactly one check, the table was filtered by this very check
    let (tr0, tc0, dr0, dc0) = choose|tr: int, tc: int, dr: int, dc: int|
        #[trigger] the_check(g, w, tr, tc, dr, dc) && forall|r: int, c: int|
            in_b(r, c) && team_at(g, r, c, w) ==> square_filtered_ok(
                g,
                w,
                t,
                r,
                c,
                tr,
                tc,
                dr,
                dc,
            );
    lemma_single_check_unique(g, w, tr0, tc0, dr0, dc0, 0, 4, -1, 0);
    assert forall|r: int, c: int|
        in_b(r, c) && #[trigger] team_at(g, r, c, w) && at(g, r, c)->0.ptype != PieceType::King
            implies forall|k: int|
        0 <= k < t[sq(r, c)]@.len() ==> (#[trigger] t[sq(r, c)]@[k]).end.col == 4 && 0 <= t[sq(
            r,
            c,
        )]@[k].end.row <= 6 by {
        assert(square_filtered_ok(g, w, t, r, c, 0, 4, -1, 0));
        assert forall|k: int|
            0 <= k < t[sq(r, c)]@.len() implies (#[trigger] t[sq(r, c)]@[k]).end.col == 4 && 0
            <= t[sq(r, c)]@[k].end.row <= 6 by {
            let er = t[sq(r, c)]@[k].end.row as int;
            let ec = t[sq(r, c)]@[k].end.col as int;
            assert(blocking_dest(g, w, 0, 4, -1, 0, er, ec));
        }
    }
}

/// Whether every piece of this side has an empty legal-move entry in the
/// board's current table.
pub open spec fn team_immobile(b: Board, color: Team) -> bool {
    forall|r: int, c: int|
        in_b(r, c) && team_at(b.tiles@, r, c, color) ==> (#[trigger] b.moves_of(color)[sq(
            r,
            c,
        )])@.len() == 0
}

/// Every move of the first list appears in the second.
pub open spec fn entries_from(e1: Seq<Move>, e0: Seq<Move>) -> bool {
    forall|i: int|
        0 <= i < e1.len() ==> exists|j: int| 0 <= j < e0.len() && (#[trigger] e1[i]) == #[trigger] e0[j]
}

/// Whether some pair of the list equals (r2, c2).
pub open spec fn has_coord(l: Seq<(isize, isize)>, r2: int, c2: int) -> bool {
    exists|i: int| 0 <= i < l.len() && (#[trigger] l[i]).0 == r2 && (l[i]).1 == c2
}

/// The move entry one square gets from an unfiltered legality pass.
pub open spec fn square_open_ok(
    g: Seq<Tile>,
    color: Team,
    t: Seq<Vec<Move>>,
    r: int,
    c: int,
) -> bool {
    moves_match(
        t[sq(r, c)]@,
        r,
        c,
        (|r2: int, c2: int| piece_dest(g, at(g, r, c)->0, r, c, pin_of(g, color, r, c), r2, c2)),
    )
}

/// The move entry one square gets under a single check: the piece's own
/// destinations, restricted — for every piece but the King — to the
/// block-or-capture squares of the check.
pub open spec fn square_filtered_ok(
    g: Seq<Tile>,
    color: Team,
    t: Seq<Vec<Move>>,
    r: int,
    c: int,
    tr: int,
    tc: int,
    dr: int,
    dc: int,
) -> bool {
    moves_match(
        t[sq(r, c)]@,
        r,
        c,
        (|r2: int, c2: int|
            piece_dest(g, at(g, r, c)->0, r, c, pin_of(g, color, r, c), r2, c2) && (at(
                g,
                r,
                c,
            )->0.ptype == PieceType::King || blocking_dest(g, color, tr, tc, dr, dc, r2, c2))),
    )
}

/// What a team legality pass leaves in that side's move table, split by
/// the number of simultaneous checks.
pub open spec fn team_moves_ok(g: Seq<Tile>, color: Team, t: Seq<Vec<Move>>) -> bool {
    &&& t.len() == 64
    &&& forall|r: int, c: int|
        in_b(r, c) && !team_at(g, r, c, color) ==> (#[trigger] t[sq(r, c)])@.len() == 0
    &&& if check_count(g, color) == 0 {
        forall|r: int, c: int|
            in_b(r, c) && team_at(g, r, c, color) ==> square_open_ok(g, color, t, r, c)
    } else if check_count(g, color) == 1 {
        exists|tr: int, tc: int, dr: int, dc: int|
            #[trigger] the_check(g, color, tr, tc, dr, dc) && forall|r: int, c: int|
                in_b(r, c) && team_at(g, r, c, color) ==> square_filtered_ok(
                    g,
                    color,
                    t,
                    r,
                    c,
                    tr,
                    tc,
                    dr,
                    dc,
                )
    } else {
        forall|r: int, c: int|
            in_b(r, c) && team_at(g, r, c, color) ==> {
                if at(g, r, c)->0.ptype == PieceType::King {
                    square_open_ok(g, color, t, r, c)
                } else {
                    (#[trigger] t[sq(r, c)])@.len() == 0
                }
            }
    }
}

/// Whatever the check situation, every move recorded for a side's piece
/// leaves from that piece's square toward an on-board destination.
pub proof fn lemma_team_entry_moves(g: Seq<Tile>, color: Team, t: Seq<Vec<Move>>, r: int, c: int)
    requires
        team_moves_ok(g, color, t),
        in_b(r, c),
        team_at(g, r, c, color),
    ensures
        forall|k: int|
            0 <= k < t[sq(r, c)]@.len() ==> {
                &&& (#[trigger] t[sq(r, c)]@[k]).initial.row == r
                &&& t[sq(r, c)]@[k].initial.col == c
                &&& in_b(t[sq(r, c)]@[k].end.row as int, t[sq(r, c)]@[k].end.col as int)
            },
{
    if check_count(g, color) == 0 {
        assert(square_open_ok(g, color, t, r, c));
    } else if check_count(g, color) == 1 {
        let (tr, tc, dr, dc) = choose|tr: int, tc: int, dr: int, dc: int|
            #[trigger] the_check(g, color, tr, tc, dr, dc) && forall|r3: int, c3: int|
                in_b(r3, c3) && team_at(g, r3, c3, color) ==> square_filtered_ok(
                    g,
                    color,
                    t,
                    r3,
                    c3,
                    tr,
                    tc,
                    dr,
                    dc,
                );
        assert(square_filtered_ok(g, color, t, r, c, tr, tc, dr, dc));
    } else {
        if at(g, r, c)->0.ptype == PieceType::King {
            assert(square_open_ok(g, color, t, r, c));
        } else {
            assert(t[sq(r, c)]@.len() == 0);
        }
    }
}

/// The pin state the analysis list assigns to a square equals the
/// grid-level pin of that square.
pub proof fn lemma_pd_is_pin_of(
    g: Seq<Tile>,
    color: Team,
    kr: int,
    kc: int,
    pins0: Seq<(Tile, (isize, isize))>,
    r: int,
    c: int,
)
    requires
        has_king(g, color),
        kr == find_king_from(g, color, 0)->0 / 8,
        kc == find_king_from(g, color, 0)->0 % 8,
        crate::movegen::pins_sound(g, color, kr, kc, pins0),
        crate::movegen::pins_complete_to(g, color, kr, kc, pins0, 8),
    ensures
        list_pin(pins0, r, c) == pin_of(g, color, r, c),
{
    if list_pin(pins0, r, c) is Some {
        lemma_list_pin_some(pins0, r, c);
        let i0 = choose|i: int|
            0 <= i < pins0.len() && (#[trigger] pins0[i]).0.row == r && pins0[i].0.col == c && Some(
                (((pins0[i]).1).0 as int, ((pins0[i]).1).1 as int),
            ) == list_pin(pins0, r, c);
        assert(pin_entry_ok(g, color, kr, kc, pins0[i0]));
        reveal(pin_entry_ok);
        let j0 = choose|j: int|
            0 <= j < 8 && (#[trigger] dir_scan(g, color, kr, kc, j)).1 == Some((r, c)) && ((
            pins0[i0]).1).0 == dir_r(j) && ((pins0[i0]).1).1 == dir_c(j);
        lemma_pin_dir(g, color, kr, kc, j0, r, c);
        assert(pin_of(g, color, r, c) == Some((sgn(r - kr), sgn(c - kc))));
    } else {
        lemma_list_pin_none(pins0, r, c);
        if exists|j: int|
            0 <= j < 8 && (#[trigger] dir_scan(g, color, kr, kc, j)).1 == Some((r, c)) {
            let j0 = choose|j: int|
                0 <= j < 8 && (#[trigger] dir_scan(g, color, kr, kc, j)).1 == Some((r, c));
            assert(exists|i: int|
                0 <= i < pins0.len() && Some(
                    ((#[trigger] pins0[i]).0.row as int, pins0[i].0.col as int),
                ) == dir_scan(g, color, kr, kc, j0).1);
            assert(false);
        }
    }
}

/// Exec membership test over a coordinate list.
fn contains_coord(l: &Vec<(isize, isize)>, r2: isize, c2: isize) -> (r: bool)
    ensures
        r == has_coord(l@, r2 as int, c2 as int),
{
    let mut i: usize = 0;
    while i < l.len()
        invariant
            i <= l@.len(),
            forall|i2: int| 0 <= i2 < i ==> !((#[trigger] l@[i2]).0 == r2 && (l@[i2]).1 == c2),
        decreases l@.len() - i,
    {
        let e = l[i];
        if e.0 == r2 && e.1 == c2 {
            return true;
        }
        i = i + 1;
    }
    false
}

impl Board {
    /// Walk from the King along the checking ray, collecting every
    /// square up to and including the checker's.
    fn block_squares(&self, kr: usize, kc: usize, dr: isize, dc: isize, tr: isize, tc: isize) -> (l:
        Vec<(isize, isize)>)
        requires
            kr < 8,
            kc < 8,
            -1 <= dr <= 1,
            -1 <= dc <= 1,
            !(dr == 0 && dc == 0),
        ensures
            forall|i: int|
                0 <= i < l@.len() ==> on_seg(
                    kr as int,
                    kc as int,
                    dr as int,
                    dc as int,
                    tr as int,
                    tc as int,
                    (#[trigger] l@[i]).0 as int,
                    (l@[i]).1 as int,
                    7,
                ),
            forall|r2: int, c2: int|
                on_seg(kr as int, kc as int, dr as int, dc as int, tr as int, tc as int, r2, c2, 7)
                    ==> #[trigger] has_coord(l@, r2, c2),
    {
        let mut l: Vec<(isize, isize)> = Vec::new();
        let mut pr = kr as isize;
        let mut pcc = kc as isize;
        let mut st: usize = 0;
        let mut done = false;
        while st < 7 && !done
            invariant
                in_b(pr as int, pcc as int),
                -1 <= dr <= 1,
                -1 <= dc <= 1,
                st <= 7,
                forall|i: int|
                    0 <= i < l@.len() ==> on_seg(
                        kr as int,
                        kc as int,
                        dr as int,
                        dc as int,
                        tr as int,
                        tc as int,
                        (#[trigger] l@[i]).0 as int,
                        (l@[i]).1 as int,
                        7,
                    ),
                !done ==> forall|r2: int, c2: int|
                    #[trigger] on_seg(
                        kr as int,
                        kc as int,
                        dr as int,
                        dc as int,
                        tr as int,
                        tc as int,
                        r2,
                        c2,
                        7,
                    ) ==> has_coord(l@, r2, c2) || on_seg(
                        pr as int,
                        pcc as int,
                        dr as int,
                        dc as int,
                        tr as int,
                        tc as int,
                        r2,
                        c2,
                        (7 - st) as nat,
                    ),
                !done ==> forall|r2: int, c2: int|
                    #[trigger] on_seg(
                        pr as int,
                        pcc as int,
                        dr as int,
                        dc as int,
                        tr as int,
                        tc as int,
                        r2,
                        c2,
                        (7 - st) as nat,
                    ) ==> on_seg(
                        kr as int,
                        kc as int,
                        dr as int,
                        dc as int,
                        tr as int,
                        tc as int,
                        r2,
                        c2,
                        7,
                    ),
                done ==> forall|r2: int, c2: int|
                    #[trigger] on_seg(
                        kr as int,
                        kc as int,
                        dr as int,
                        dc as int,
                        tr as int,
                        tc as int,
                        r2,
                        c2,
                        7,
                    ) ==> has_coord(l@, r2, c2),
            decreases 7 - st,
        {
            let nr = pr + dr;
            let nc = pcc + dc;
            let ghost l0 = l@;
            let ghost f = (7 - st) as nat;
            if !inrange(nr) || !inrange(nc) {
                done = true;
            } else {
                l.push((nr, nc));
                proof {
                    assert(l@[l@.len() - 1] == (nr, nc));
                    assert forall|r2: int, c2: int| #[trigger] has_coord(l0, r2, c2) implies has_coord(
                        l@,
                        r2,
                        c2,
                    ) by {
                        let i0 = choose|i: int|
                            0 <= i < l0.len() && (#[trigger] l0[i]).0 == r2 && (l0[i]).1 == c2;
                        assert(l@[i0] == l0[i0]);
                        assert(0 <= i0 < l@.len() && (l@[i0]).0 == r2 && (l@[i0]).1 == c2);
                    }
                    assert(has_coord(l@, nr as int, nc as int));
                    assert(on_seg(
                        pr as int,
                        pcc as int,
                        dr as int,
                        dc as int,
                        tr as int,
                        tc as int,
                        nr as int,
                        nc as int,
                        f,
                    ));
                }
                if nr == tr && nc == tc {
                    done = true;
                    proof {
                        assert(forall|r2: int, c2: int|
                            #[trigger] on_seg(
                                pr as int,
                                pcc as int,
                                dr as int,
                                dc as int,
                                tr as int,
                                tc as int,
                                r2,
                                c2,
                                f,
                            ) ==> r2 == nr as int && c2 == nc as int);
                    }
                } else {
                    proof {
                        assert(forall|r2: int, c2: int|
                            #[trigger] on_seg(
                                pr as int,
                                pcc as int,
                                dr as int,
                                dc as int,
                                tr as int,
                                tc as int,
                                r2,
                                c2,
                                f,
                            ) ==> (r2 == nr as int && c2 == nc as int) || on_seg(
                                nr as int,
                                nc as int,
                                dr as int,
                                dc as int,
                                tr as int,
                                tc as int,
                                r2,
                                c2,
                                (f - 1) as nat,
                            ));
                        assert forall|r2: int, c2: int|
                            #[trigger] on_seg(
                                nr as int,
                                nc as int,
                                dr as int,
                                dc as int,
                                tr as int,
                                tc as int,
                                r2,
                                c2,
                                (f - 1) as nat,
                            ) implies on_seg(
                            kr as int,
                            kc as int,
                            dr as int,
                            dc as int,
                            tr as int,
                            tc as int,
                            r2,
                            c2,
                            7,
                        ) by {
                            assert(on_seg(
                                pr as int,
                                pcc as int,
                                dr as int,
                                dc as int,
                                tr as int,
                                tc as int,
                                r2,
                                c2,
                                f,
                            ));
                        }
                    }
                    pr = nr;
                    pcc = nc;
                }
            }
            st = st + 1;
        }
        proof {
            if !done {
                assert(st == 7);
                assert(forall|r2: int, c2: int|
                    !on_seg(
                        pr as int,
                        pcc as int,
                        dr as int,
                        dc as int,
                        tr as int,
                        tc as int,
                        r2,
                        c2,
                        0nat,
                    ));
            }
        }
        l
    }

    /// Restrict one square's entry to the moves whose destinations are
    /// in the given block-or-capture list.
    fn filter_entry(&mut self, color: Team, row: usize, col: usize, block: &Vec<(isize, isize)>)
        requires
            old(self).wf(),
            color != Team::Neutral,
            row < 8,
            col < 8,
        ensures
            final(self).wf(),
            final(self).tiles@ == old(self).tiles@,
            final(self).move_log@ == old(self).move_log@,
            final(self).zobrist_keys@ == old(self).zobrist_keys@,
            final(self).cur_uid == old(self).cur_uid,
            ({
                let k = sq(row as int, col as int);
                let e0 = old(self).moves_of(color)[k]@;
                let e1 = final(self).moves_of(color)[k]@;
                &&& (if color == Team::White {
                    final(self).black_moves@ == old(self).black_moves@ && final(self).white_moves@.len() == 64 && forall|i: int|
                        0 <= i < 64 && i != k ==> #[trigger] final(self).white_moves@[i] == old(
                            self,
                        ).white_moves@[i]
                } else {
                    final(self).white_moves@ == old(self).white_moves@ && final(self).black_moves@.len() == 64 && forall|i: int|
                        0 <= i < 64 && i != k ==> #[trigger] final(self).black_moves@[i] == old(
                            self,
                        ).black_moves@[i]
                })
                &&& entries_from(e1, e0)
                &&& forall|i: int|
                    0 <= i < e1.len() ==> has_coord(
                        block@,
                        (#[trigger] e1[i]).end.row as int,
                        e1[i].end.col as int,
                    )
                &&& forall|r2: int, c2: int|
                    has_dest(e0, r2, c2) && has_coord(block@, r2, c2) ==> #[trigger] has_dest(
                        e1,
                        r2,
                        c2,
                    )
            }),
    {
        let k = row * 8 + col;
        let e0 = if color == Team::White {
            crate::board::clone_vec(&self.white_moves[k])
        } else {
            crate::board::clone_vec(&self.black_moves[k])
        };
        let mut kept: Vec<Move> = Vec::new();
        let mut i: usize = 0;
        while i < e0.len()
            invariant
                i <= e0@.len(),
                entries_from(kept@, e0@),
                forall|i2: int|
                    0 <= i2 < kept@.len() ==> has_coord(
                        block@,
                        (#[trigger] kept@[i2]).end.row as int,
                        kept@[i2].end.col as int,
                    ),
                forall|r2: int, c2: int|
                    has_dest(e0@.subrange(0, i as int), r2, c2) && has_coord(block@, r2, c2)
                        ==> #[trigger] has_dest(kept@, r2, c2),
            decreases e0@.len() - i,
        {
            let mv = e0[i];
            let ghost kept0 = kept@;
            let keep = contains_coord(block, mv.end.row, mv.end.col);
            if keep {
                kept.push(mv);
                proof {
                    assert(kept@[kept@.len() - 1] == e0@[i as int]);
                }
            }
            proof {
                assert forall|i2: int| 0 <= i2 < kept@.len() implies exists|j: int|
                    0 <= j < e0@.len() && (#[trigger] kept@[i2]) == #[trigger] e0@[j] by {
                    if i2 < kept0.len() {
                        assert(kept@[i2] == kept0[i2]);
                        let j0 = choose|j: int|
                            0 <= j < e0@.len() && (kept0[i2]) == #[trigger] e0@[j];
                        assert(0 <= j0 < e0@.len() && kept@[i2] == e0@[j0]);
                    } else {
                        assert(kept@[i2] == e0@[i as int]);
                    }
                }
                assert(entries_from(kept@, e0@));
                assert forall|r2: int, c2: int| #[trigger] has_dest(kept0, r2, c2) implies has_dest(
                    kept@,
                    r2,
                    c2,
                ) by {
                    let i0 = choose|i3: int|
                        0 <= i3 < kept0.len() && (#[trigger] kept0[i3]).end.row == r2
                            && kept0[i3].end.col == c2;
                    assert(kept@[i0] == kept0[i0]);
                    assert(0 <= i0 < kept@.len() && kept@[i0].end.row == r2 && kept@[i0].end.col
                        == c2);
                }
                assert forall|r2: int, c2: int|
                    has_dest(e0@.subrange(0, i as int + 1), r2, c2) && has_coord(block@, r2, c2)
                        implies #[trigger] has_dest(kept@, r2, c2) by {
                    let sub1 = e0@.subrange(0, i as int + 1);
                    let i0 = choose|i3: int|
                        0 <= i3 < sub1.len() && (#[trigger] sub1[i3]).end.row == r2
                            && sub1[i3].end.col == c2;
                    if i0 == i as int {
                        assert(sub1[i0] == e0@[i as int]);
                        assert(has_coord(block@, e0@[i as int].end.row as int, e0@[i as int].end.col as int));
                        assert(keep);
                        assert(kept@[kept@.len() - 1] == e0@[i as int]);
                        assert(0 <= kept@.len() - 1 < kept@.len() && kept@[kept@.len()
                            - 1].end.row == r2 && kept@[kept@.len() - 1].end.col == c2);
                    } else {
                        let sub0 = e0@.subrange(0, i as int);
                        assert(sub0[i0] == sub1[i0]);
                        assert(0 <= i0 < sub0.len() && sub0[i0].end.row == r2 && sub0[i0].end.col
                            == c2);
                        assert(has_dest(sub0, r2, c2));
                        assert(has_dest(kept0, r2, c2));
                        assert(has_dest(kept@, r2, c2));
                    }
                }
            }
            i = i + 1;
        }
        proof {
            assert(e0@.subrange(0, e0@.len() as int) =~= e0@);
        }
        if color == Team::White {
            self.white_moves.set(k, kept);
        } else {
            self.black_moves.set(k, kept);
        }
        proof {
            let kk = sq(row as int, col as int);
            let e1v = self.moves_of(color)[kk]@;
            assert(e1v == kept@);
            assert(e0@ == old(self).moves_of(color)[kk]@);
            assert(entries_from(e1v, e0@));
        }
    }

    /// One unfiltered legality pass: every piece of the side gets its
    /// full pin-aware move entry.
    #[verifier::rlimit(100)]
    #[verifier::spinoff_prover]
    fn team_pass_open(&mut self, color: Team, pins: &mut Vec<(Tile, (isize, isize))>)
        requires
            old(self).wf(),
            color != Team::Neutral,
            has_king(old(self).tiles@, color),
            crate::movegen::pins_sound(
                old(self).tiles@,
                color,
                find_king_from(old(self).tiles@, color, 0)->0 / 8,
                find_king_from(old(self).tiles@, color, 0)->0 % 8,
                old(pins)@,
            ),
            crate::movegen::pins_complete_to(
                old(self).tiles@,
                color,
                find_king_from(old(self).tiles@, color, 0)->0 / 8,
                find_king_from(old(self).tiles@, color, 0)->0 % 8,
                old(pins)@,
                8,
            ),
            old(self).moves_of(color).len() == 64,
            forall|i: int| 0 <= i < 64 ==> (#[trigger] old(self).moves_of(color)[i])@.len() == 0,
        ensures
            final(self).wf(),
            final(self).tiles@ == old(self).tiles@,
            final(self).move_log@ == old(self).move_log@,
            final(self).zobrist_keys@ == old(self).zobrist_keys@,
            final(self).cur_uid == old(self).cur_uid,
            color == Team::White ==> final(self).black_moves@ == old(self).black_moves@,
            color != Team::White ==> final(self).white_moves@ == old(self).white_moves@,
            final(self).moves_of(color).len() == 64,
            forall|r: int, c: int|
                in_b(r, c) && team_at(old(self).tiles@, r, c, color) ==> square_open_ok(
                    old(self).tiles@,
                    color,
                    final(self).moves_of(color),
                    r,
                    c,
                ),
            forall|r: int, c: int|
                in_b(r, c) && !team_at(old(self).tiles@, r, c, color) ==> (#[trigger] final(self).moves_of(color)[sq(r, c)])@.len() == 0,
    {
        let ghost g = self.tiles@;
        let ghost pins0 = old(pins)@;
        let ghost gkr = find_king_from(g, color, 0)->0 / 8;
        let ghost gkc = find_king_from(g, color, 0)->0 % 8;
        let mut i: usize = 0;
        while i < 64
            invariant
                self.wf(),
                g == self.tiles@,
                color != Team::Neutral,
                has_king(g, color),
                gkr == find_king_from(g, color, 0)->0 / 8,
                gkc == find_king_from(g, color, 0)->0 % 8,
                crate::movegen::pins_sound(g, color, gkr, gkc, pins0),
                crate::movegen::pins_complete_to(g, color, gkr, gkc, pins0, 8),
                i <= 64,
                self.move_log@ == old(self).move_log@,
                self.zobrist_keys@ == old(self).zobrist_keys@,
                self.cur_uid == old(self).cur_uid,
                color == Team::White ==> self.black_moves@ == old(self).black_moves@,
                color != Team::White ==> self.white_moves@ == old(self).white_moves@,
                self.moves_of(color).len() == 64,
                forall|r: int, c: int|
                    in_b(r, c) && sq(r, c) < i && team_at(g, r, c, color) ==> square_open_ok(
                        g,
                        color,
                        self.moves_of(color),
                        r,
                        c,
                    ),
                forall|r: int, c: int|
                    in_b(r, c) && sq(r, c) < i && !team_at(g, r, c, color) ==> (#[trigger] self.moves_of(
                        color,
                    )[sq(r, c)])@.len() == 0,
                forall|r: int, c: int|
                    in_b(r, c) && sq(r, c) >= i ==> (#[trigger] self.moves_of(color)[sq(r, c)])@.len()
                        == 0,
                forall|r: int, c: int|
                    in_b(r, c) && sq(r, c) >= i ==> list_pin(pins@, r, c) == list_pin(
                        pins0,
                        r,
                        c,
                    ),
            decreases 64 - i,
        {
            let ghost tpre = self.moves_of(color);
            let ghost pins_pre = pins@;
            let r = i / 8;
            let c = i % 8;
            let t = self.tiles[i];
            proof {
                assert(at(g, r as int, c as int) == t.present_piece);
                assert(in_b(r as int, c as int) && sq(r as int, c as int) == i as int);
                assert(list_pin(pins@, r as int, c as int) == list_pin(pins0, r as int, c as int));
            }
            if t.has_team(color) {
                let pc = *t.piece();
                let _consumed = self.calc_valid_moves(pc, r as isize, c as isize, pins);
                proof {
                    let kk = sq(r as int, c as int);
                    let pdv = list_pin(pins_pre, r as int, c as int);
                    assert(pdv == list_pin(pins0, r as int, c as int));
                    lemma_pd_is_pin_of(g, color, gkr, gkc, pins0, r as int, c as int);
                    assert(pdv == pin_of(g, color, r as int, c as int));
                    assert(square_open_ok(g, color, self.moves_of(color), r as int, c as int));
                    assert forall|r3: int, c3: int|
                        in_b(r3, c3) && sq(r3, c3) >= i + 1 implies list_pin(pins@, r3, c3)
                        == list_pin(pins0, r3, c3) by {
                        lemma_list_pin_removed(pins_pre, r3, c3, r as int, c as int);
                    }
                    assert forall|r3: int, c3: int|
                        in_b(r3, c3) && sq(r3, c3) < i + 1 && team_at(g, r3, c3, color)
                            implies square_open_ok(g, color, self.moves_of(color), r3, c3) by {
                        if sq(r3, c3) < i as int {
                            assert(self.moves_of(color)[sq(r3, c3)] == tpre[sq(r3, c3)]);
                            assert(square_open_ok(g, color, tpre, r3, c3));
                            assert(self.moves_of(color)[sq(r3, c3)]@ == tpre[sq(r3, c3)]@);
                        }
                    }
                }
            } else {
                proof {
                    assert forall|r3: int, c3: int|
                        in_b(r3, c3) && sq(r3, c3) < i + 1 && team_at(g, r3, c3, color)
                            implies square_open_ok(g, color, self.moves_of(color), r3, c3) by {
                        assert(sq(r3, c3) < i as int);
                    }
                }
            }
            i = i + 1;
        }
    }

    /// One filtered legality pass under a single check: every piece gets
    /// its pin-aware entry, then every non-King entry is restricted to
    /// the block-or-capture squares.
    #[verifier::rlimit(100)]
    #[verifier::spinoff_prover]
    fn team_pass_filtered(
        &mut self,
        color: Team,
        pins: &mut Vec<(Tile, (isize, isize))>,
        block: &Vec<(isize, isize)>,
        chk: Ghost<(int, int, int, int)>,
    )
        requires
            old(self).wf(),
            color != Team::Neutral,
            has_king(old(self).tiles@, color),
            crate::movegen::pins_sound(
                old(self).tiles@,
                color,
                find_king_from(old(self).tiles@, color, 0)->0 / 8,
                find_king_from(old(self).tiles@, color, 0)->0 % 8,
                old(pins)@,
            ),
            crate::movegen::pins_complete_to(
                old(self).tiles@,
                color,
                find_king_from(old(self).tiles@, color, 0)->0 / 8,
                find_king_from(old(self).tiles@, color, 0)->0 % 8,
                old(pins)@,
                8,
            ),
            old(self).moves_of(color).len() == 64,
            forall|i: int| 0 <= i < 64 ==> (#[trigger] old(self).moves_of(color)[i])@.len() == 0,
            forall|r2: int, c2: int|
                #[trigger] has_coord(block@, r2, c2) <==> blocking_dest(
                    old(self).tiles@,
                    color,
                    chk@.0,
                    chk@.1,
                    chk@.2,
                    chk@.3,
                    r2,
                    c2,
                ),
        ensures
            final(self).wf(),
            final(self).tiles@ == old(self).tiles@,
            final(self).move_log@ == old(self).move_log@,
            final(self).zobrist_keys@ == old(self).zobrist_keys@,
            final(self).cur_uid == old(self).cur_uid,
            color == Team::White ==> final(self).black_moves@ == old(self).black_moves@,
            color != Team::White ==> final(self).white_moves@ == old(self).white_moves@,
            final(self).moves_of(color).len() == 64,
            forall|r: int, c: int|
                in_b(r, c) && team_at(old(self).tiles@, r, c, color) ==> square_filtered_ok(
                    old(self).tiles@,
                    color,
                    final(self).moves_of(color),
                    r,
                    c,
                    chk@.0,
                    chk@.1,
                    chk@.2,
                    chk@.3,
                ),
            forall|r: int, c: int|
                in_b(r, c) && !team_at(old(self).tiles@, r, c, color) ==> (#[trigger] final(self).moves_of(color)[sq(r, c)])@.len() == 0,
    {
        let ghost g = self.tiles@;
        let ghost pins0 = old(pins)@;
        let ghost gkr = find_king_from(g, color, 0)->0 / 8;
        let ghost gkc = find_king_from(g, color, 0)->0 % 8;
        let ghost tr = chk@.0;
        let ghost tc = chk@.1;
        let ghost dr = chk@.2;
        let ghost dc = chk@.3;
        let mut i: usize = 0;
        while i < 64
            invariant
                self.wf(),
                g == self.tiles@,
                color != Team::Neutral,
                has_king(g, color),
                gkr == find_king_from(g, color, 0)->0 / 8,
                gkc == find_king_from(g, color, 0)->0 % 8,
                tr == chk@.0 && tc == chk@.1 && dr == chk@.2 && dc == chk@.3,
                crate::movegen::pins_sound(g, color, gkr, gkc, pins0),
                crate::movegen::pins_complete_to(g, color, gkr, gkc, pins0, 8),
                forall|r2: int, c2: int|
                    #[trigger] has_coord(block@, r2, c2) <==> blocking_dest(
                        g,
                        color,
                        tr,
                        tc,
                        dr,
                        dc,
                        r2,
                        c2,
                    ),
                i <= 64,
                self.move_log@ == old(self).move_log@,
                self.zobrist_keys@ == old(self).zobrist_keys@,
                self.cur_uid == old(self).cur_uid,
                color == Team::White ==> self.black_moves@ == old(self).black_moves@,
                color != Team::White ==> self.white_moves@ == old(self).white_moves@,
                self.moves_of(color).len() == 64,
                forall|r: int, c: int|
                    in_b(r, c) && sq(r, c) < i && team_at(g, r, c, color) ==> square_filtered_ok(
                        g,
                        color,
                        self.moves_of(color),
                        r,
                        c,
                        tr,
                        tc,
                        dr,
                        dc,
                    ),
                forall|r: int, c: int|
                    in_b(r, c) && sq(r, c) < i && !team_at(g, r, c, color) ==> (#[trigger] self.moves_of(
                        color,
                    )[sq(r, c)])@.len() == 0,
                forall|r: int, c: int|
                    in_b(r, c) && sq(r, c) >= i ==> (#[trigger] self.moves_of(color)[sq(r, c)])@.len()
                        == 0,
                forall|r: int, c: int|
                    in_b(r, c) && sq(r, c) >= i ==> list_pin(pins@, r, c) == list_pin(
                        pins0,
                        r,
                        c,
                    ),
            decreases 64 - i,
        {
            let ghost tpre = self.moves_of(color);
            let ghost pins_pre = pins@;
            let r = i / 8;
            let c = i % 8;
            let t = self.tiles[i];
            proof {
                assert(at(g, r as int, c as int) == t.present_piece);
                assert(in_b(r as int, c as int) && sq(r as int, c as int) == i as int);
                assert(list_pin(pins@, r as int, c as int) == list_pin(pins0, r as int, c as int));
            }
            if t.has_team(color) {
                let pc = *t.piece();
                let _consumed = self.calc_valid_moves(pc, r as isize, c as isize, pins);
                let ghost tmid = self.moves_of(color);
                if pc.ptype != PieceType::King {
                    self.filter_entry(color, r, c, block);
                }
                proof {
                    let kk = sq(r as int, c as int);
                    let pdv = list_pin(pins_pre, r as int, c as int);
                    assert(pdv == list_pin(pins0, r as int, c as int));
                    lemma_pd_is_pin_of(g, color, gkr, gkc, pins0, r as int, c as int);
                    assert(pdv == pin_of(g, color, r as int, c as int));
                    assert(square_filtered_ok(
                        g,
                        color,
                        self.moves_of(color),
                        r as int,
                        c as int,
                        tr,
                        tc,
                        dr,
                        dc,
                    ));
                    assert forall|r3: int, c3: int|
                        in_b(r3, c3) && sq(r3, c3) >= i + 1 implies list_pin(pins@, r3, c3)
                        == list_pin(pins0, r3, c3) by {
                        lemma_list_pin_removed(pins_pre, r3, c3, r as int, c as int);
                    }
                    assert forall|r3: int, c3: int|
                        in_b(r3, c3) && sq(r3, c3) < i + 1 && team_at(g, r3, c3, color)
                            implies square_filtered_ok(
                        g,
                        color,
                        self.moves_of(color),
                        r3,
                        c3,
                        tr,
                        tc,
                        dr,
                        dc,
                    ) by {
                        if sq(r3, c3) < i as int {
                            assert(square_filtered_ok(g, color, tpre, r3, c3, tr, tc, dr, dc));
                            assert(self.moves_of(color)[sq(r3, c3)]@ == tpre[sq(r3, c3)]@);
                        }
                    }
                }
            } else {
                proof {
                    assert forall|r3: int, c3: int|
                        in_b(r3, c3) && sq(r3, c3) < i + 1 && team_at(g, r3, c3, color)
                            implies square_filtered_ok(
                        g,
                        color,
                        self.moves_of(color),
                        r3,
                        c3,
                        tr,
                        tc,
                        dr,
                        dc,
                    ) by {
                        assert(sq(r3, c3) < i as int);
                    }
                }
            }
            i = i + 1;
        }
    }

    /// The double-check pass: only the King gets a move entry.
    #[verifier::rlimit(100)]
    #[verifier::spinoff_prover]
    fn team_pass_kings(&mut self, color: Team)
        requires
            old(self).wf(),
            color != Team::Neutral,
            old(self).moves_of(color).len() == 64,
            forall|i: int| 0 <= i < 64 ==> (#[trigger] old(self).moves_of(color)[i])@.len() == 0,
        ensures
            final(self).wf(),
            final(self).tiles@ == old(self).tiles@,
            final(self).move_log@ == old(self).move_log@,
            final(self).zobrist_keys@ == old(self).zobrist_keys@,
            final(self).cur_uid == old(self).cur_uid,
            color == Team::White ==> final(self).black_moves@ == old(self).black_moves@,
            color != Team::White ==> final(self).white_moves@ == old(self).white_moves@,
            final(self).moves_of(color).len() == 64,
            forall|r: int, c: int|
                in_b(r, c) && team_at(old(self).tiles@, r, c, color) && at(
                    old(self).tiles@,
                    r,
                    c,
                )->0.ptype == PieceType::King ==> square_open_ok(
                    old(self).tiles@,
                    color,
                    final(self).moves_of(color),
                    r,
                    c,
                ),
            forall|r: int, c: int|
                in_b(r, c) && !(team_at(old(self).tiles@, r, c, color) && at(
                    old(self).tiles@,
                    r,
                    c,
                )->0.ptype == PieceType::King) ==> (#[trigger] final(self).moves_of(color)[sq(
                    r,
                    c,
                )])@.len() == 0,
    {
        let ghost g = self.tiles@;
        let mut i: usize = 0;
        while i < 64
            invariant
                self.wf(),
                g == self.tiles@,
                color != Team::Neutral,
                i <= 64,
                self.move_log@ == old(self).move_log@,
                self.zobrist_keys@ == old(self).zobrist_keys@,
                self.cur_uid == old(self).cur_uid,
                color == Team::White ==> self.black_moves@ == old(self).black_moves@,
                color != Team::White ==> self.white_moves@ == old(self).white_moves@,
                self.moves_of(color).len() == 64,
                forall|r: int, c: int|
                    in_b(r, c) && sq(r, c) < i && team_at(g, r, c, color) && at(g, r, c)->0.ptype
                        == PieceType::King ==> square_open_ok(g, color, self.moves_of(color), r, c),
                forall|r: int, c: int|
                    in_b(r, c) && !(sq(r, c) < i && team_at(g, r, c, color) && at(g, r, c)->0.ptype
                        == PieceType::King) ==> (#[trigger] self.moves_of(color)[sq(r, c)])@.len()
                        == 0,
            decreases 64 - i,
        {
            let ghost tpre = self.moves_of(color);
            let r = i / 8;
            let c = i % 8;
            let t = self.tiles[i];
            proof {
                assert(at(g, r as int, c as int) == t.present_piece);
                assert(in_b(r as int, c as int) && sq(r as int, c as int) == i as int);
            }
            if t.has_team(color) && t.piece().ptype == PieceType::King {
                let pc = *t.piece();
                self.calc_king_moves(pc, r as isize, c as isize);
                proof {
                    let kk = sq(r as int, c as int);
                    let entry = self.moves_of(color)[kk]@;
                    assert(tpre[kk]@.len() == 0);
                    assert(entry.subrange(0, 0) =~= Seq::<Move>::empty());
                    assert(entry.skip(0) =~= entry);
                    let pdk = pin_of(g, color, r as int, c as int);
                    assert forall|i3: int| 0 <= i3 < entry.len() implies {
                        &&& (#[trigger] entry[i3]).initial.row == r as int
                        &&& entry[i3].initial.col == c as int
                        &&& in_b(entry[i3].end.row as int, entry[i3].end.col as int)
                        &&& piece_dest(
                            g,
                            pc,
                            r as int,
                            c as int,
                            pdk,
                            entry[i3].end.row as int,
                            entry[i3].end.col as int,
                        )
                    } by {
                        assert(crate::calc::king_dest(
                            g,
                            pc,
                            r as int,
                            c as int,
                            entry[i3].end.row as int,
                            entry[i3].end.col as int,
                        ));
                    }
                    assert forall|r2: int, c2: int|
                        piece_dest(g, pc, r as int, c as int, pdk, r2, c2) && in_b(r2, c2)
                            implies #[trigger] has_dest(entry, r2, c2) by {
                        assert(crate::calc::king_dest(g, pc, r as int, c as int, r2, c2));
                    }
                    assert(square_open_ok(g, color, self.moves_of(color), r as int, c as int));
                    assert forall|r3: int, c3: int|
                        in_b(r3, c3) && sq(r3, c3) < i + 1 && team_at(g, r3, c3, color) && at(
                            g,
                            r3,
                            c3,
                        )->0.ptype == PieceType::King implies square_open_ok(
                        g,
                        color,
                        self.moves_of(color),
                        r3,
                        c3,
                    ) by {
                        if sq(r3, c3) < i as int {
                            assert(square_open_ok(g, color, tpre, r3, c3));
                            assert(self.moves_of(color)[sq(r3, c3)]@ == tpre[sq(r3, c3)]@);
                        }
                    }
                }
            }
            i = i + 1;
        }
    }

    /// Run the pin/check analysis for one side and rebuild that side's
    /// whole legal-move table: unrestricted per-piece moves with no
    /// check; block-or-capture filtered moves under a single check; only
    /// King moves under a double check.
    #[verifier::rlimit(100)]
    #[verifier::spinoff_prover]
    pub fn calc_team_valid_moves(&mut self, color: Team)
        requires
            old(self).wf(),
            color != Team::Neutral,
            has_king(old(self).tiles@, color),
        ensures
            final(self).wf(),
            final(self).tiles@ == old(self).tiles@,
            final(self).move_log@ == old(self).move_log@,
            final(self).zobrist_keys@ == old(self).zobrist_keys@,
            final(self).cur_uid == old(self).cur_uid,
            color == Team::White ==> final(self).black_moves@ == old(self).black_moves@,
            color != Team::White ==> final(self).white_moves@ == old(self).white_moves@,
            team_moves_ok(old(self).tiles@, color, final(self).moves_of(color)),
    {
        let ghost g = self.tiles@;
        let (in_check, mut pins, checks) = self.get_pins_and_checks(color);
        let ghost pins0 = pins@;
        let k = match self.find_king(color) {
            Some(k) => k,
            None => {
                proof {
                    assert(false);
                }
                0
            },
        };
        let kr = k / 8;
        let kc = k % 8;
        self.reset_table(color);
        if in_check {
            if checks.len() == 1 {
                let e = checks[0];
                let tr = e.0.row;
                let tc = e.0.col;
                let (dr, dc) = e.1;
                proof {
                    assert(check_entry_ok(g, color, kr as int, kc as int, checks@[0]));
                    reveal(check_entry_ok);
                    assert(in_b(tr as int, tc as int));
                    assert(the_check(g, color, tr as int, tc as int, dr as int, dc as int));
                }
                let ct = self.tiles[(tr as usize) * 8 + (tc as usize)];
                proof {
                    assert(at(g, tr as int, tc as int) == ct.present_piece);
                }
                let is_knight = ct.has_piece() && ct.piece().ptype == PieceType::Knight;
                let block: Vec<(isize, isize)> = if is_knight {
                    let mut b: Vec<(isize, isize)> = Vec::new();
                    b.push((tr, tc));
                    proof {
                        assert(b@[0] == (tr, tc));
                        assert forall|r2: int, c2: int| #[trigger] has_coord(b@, r2, c2)
                            implies blocking_dest(
                            g,
                            color,
                            tr as int,
                            tc as int,
                            dr as int,
                            dc as int,
                            r2,
                            c2,
                        ) by {
                            let i0 = choose|i: int|
                                0 <= i < b@.len() && (#[trigger] b@[i]).0 == r2 && (b@[i]).1 == c2;
                            assert(b@[i0] == (tr, tc));
                        }
                        assert forall|r2: int, c2: int|
                            blocking_dest(
                                g,
                                color,
                                tr as int,
                                tc as int,
                                dr as int,
                                dc as int,
                                r2,
                                c2,
                            ) implies #[trigger] has_coord(b@, r2, c2) by {
                            assert(b@[0].0 == r2 && b@[0].1 == c2);
                        }
                    }
                    b
                } else {
                    proof {
                        reveal(check_entry_ok);
                        if exists|m: int|
                            0 <= m < 8 && #[trigger] knight_check(
                                g,
                                color,
                                kr as int,
                                kc as int,
                                m,
                            ) && tr as int == kr as int + knight_off_r(m) && tc as int == kc as int
                                + knight_off_c(m) && (checks@[0].1).0 == knight_off_r(m) && (
                            checks@[0].1).1 == knight_off_c(m) {
                            let m0 = choose|m: int|
                                0 <= m < 8 && #[trigger] knight_check(
                                    g,
                                    color,
                                    kr as int,
                                    kc as int,
                                    m,
                                ) && tr as int == kr as int + knight_off_r(m) && tc as int == kc as int
                                    + knight_off_c(m) && (checks@[0].1).0 == knight_off_r(m) && (
                                checks@[0].1).1 == knight_off_c(m);
                            assert(at(g, tr as int, tc as int)->0.ptype == PieceType::Knight);
                            assert(false);
                        }
                        let j0 = choose|j: int|
                            0 <= j < 8 && (#[trigger] dir_scan(g, color, kr as int, kc as int, j)).0
                                == Some((tr as int, tc as int)) && (checks@[0].1).0 == dir_r(j) && (
                            checks@[0].1).1 == dir_c(j);
                        assert(-1 <= dir_r(j0) <= 1 && -1 <= dir_c(j0) <= 1 && !(dir_r(j0) == 0
                            && dir_c(j0) == 0));
                    }
                    let b = self.block_squares(kr, kc, dr, dc, tr, tc);
                    proof {
                        assert forall|r2: int, c2: int| #[trigger] has_coord(b@, r2, c2)
                            implies blocking_dest(
                            g,
                            color,
                            tr as int,
                            tc as int,
                            dr as int,
                            dc as int,
                            r2,
                            c2,
                        ) by {
                            let i0 = choose|i: int|
                                0 <= i < b@.len() && (#[trigger] b@[i]).0 == r2 && (b@[i]).1 == c2;
                            assert(on_seg(
                                kr as int,
                                kc as int,
                                dr as int,
                                dc as int,
                                tr as int,
                                tc as int,
                                (b@[i0]).0 as int,
                                (b@[i0]).1 as int,
                                7,
                            ));
                        }
                    }
                    b
                };
                self.team_pass_filtered(
                    color,
                    &mut pins,
                    &block,
                    Ghost((tr as int, tc as int, dr as int, dc as int)),
                );
                proof {
                    assert(check_count(g, color) == 1);
                    assert(team_moves_ok(g, color, self.moves_of(color))) by {
                        assert(the_check(g, color, tr as int, tc as int, dr as int, dc as int)
                            && forall|r: int, c: int|
                            in_b(r, c) && team_at(g, r, c, color) ==> square_filtered_ok(
                                g,
                                color,
                                self.moves_of(color),
                                r,
                                c,
                                tr as int,
                                tc as int,
                                dr as int,
                                dc as int,
                            ));
                    }
                }
            } else {
                self.team_pass_kings(color);
                proof {
                    assert(check_count(g, color) >= 2);
                    assert(team_moves_ok(g, color, self.moves_of(color)));
                }
            }
        } else {
            self.team_pass_open(color, &mut pins);
            proof {
                assert(check_count(g, color) == 0);
                assert(team_moves_ok(g, color, self.moves_of(color)));
            }
        }
    }

    /// Whether every piece of this side has an empty (or absent)
    /// legal-move entry in the current table: mated or stalemated,
    /// depending on check status.
    pub fn in_checkmate(&self, color: Team) -> (r: bool)
        requires
            self.wf(),
            color != Team::Neutral,
        ensures
            r == team_immobile(*self, color),
    {
        let mut pinned_count: usize = 0;
        let mut count: usize = 0;
        let mut i: usize = 0;
        while i < 64
            invariant
                self.wf(),
                color != Team::Neutral,
                i <= 64,
                pinned_count <= count <= i,
                count == pinned_count ==> (forall|r: int, c: int|
                    in_b(r, c) && sq(r, c) < i && team_at(self.tiles@, r, c, color)
                        ==> (#[trigger] self.moves_of(color)[sq(r, c)])@.len() == 0),
                count != pinned_count ==> (exists|r: int, c: int|
                    in_b(r, c) && sq(r, c) < i && team_at(self.tiles@, r, c, color)
                        && (#[trigger] self.moves_of(color)[sq(r, c)])@.len() != 0),
            decreases 64 - i,
        {
            let ghost eq0 = count == pinned_count;
            let r = i / 8;
            let c = i % 8;
            let t = &self.tiles[i];
            proof {
                assert(at(self.tiles@, r as int, c as int) == self.tiles@[i as int].present_piece);
                assert(in_b(r as int, c as int) && sq(r as int, c as int) == i as int);
            }
            if t.has_team(color) {
                let entry_len = if color == Team::White {
                    self.white_moves[i].len()
                } else {
                    self.black_moves[i].len()
                };
                if entry_len == 0 {
                    pinned_count = pinned_count + 1;
                }
                count = count + 1;
                proof {
                    if count == pinned_count {
                        assert(eq0 && entry_len == 0);
                        assert forall|r3: int, c3: int|
                            in_b(r3, c3) && sq(r3, c3) < i + 1 && team_at(
                                self.tiles@,
                                r3,
                                c3,
                                color,
                            ) implies (#[trigger] self.moves_of(color)[sq(r3, c3)])@.len() == 0 by {
                        }
                    } else {
                        if eq0 {
                            assert(entry_len != 0);
                            assert(in_b(r as int, c as int) && sq(r as int, c as int) < i + 1
                                && team_at(self.tiles@, r as int, c as int, color)
                                && self.moves_of(color)[sq(r as int, c as int)]@.len() != 0);
                        }
                    }
                }
            }
            i = i + 1;
        }
        return count == pinned_count;
    }

    /// Recompute this side's full legal-move table, then decide
    /// checkmate: the side is in check and no piece of it has any legal
    /// move.
    pub fn is_checkmate(&mut self, color: Team) -> (r: bool)
        requires
            old(self).wf(),
            color != Team::Neutral,
            has_king(old(self).tiles@, color),
        ensures
            final(self).wf(),
            final(self).tiles@ == old(self).tiles@,
            final(self).move_log@ == old(self).move_log@,
            team_moves_ok(old(self).tiles@, color, final(self).moves_of(color)),
            r == (in_check_spec(old(self).tiles@, color) && team_immobile(*final(self), color)),
    {
        self.calc_team_valid_moves(color);
        let (in_check, _pins, _checks) = self.get_pins_and_checks(color);
        let immobile = self.in_checkmate(color);
        in_check && immobile
    }

    /// Recompute this side's full legal-move table, then decide
    /// stalemate: the side is not in check yet no piece of it has any
    /// legal move.
    pub fn is_stalemate(&mut self, color: Team) -> (r: bool)
        requires
            old(self).wf(),
            color != Team::Neutral,
            has_king(old(self).tiles@, color),
        ensures
            final(self).wf(),
            final(self).tiles@ == old(self).tiles@,
            final(self).move_log@ == old(self).move_log@,
            team_moves_ok(old(self).tiles@, color, final(self).moves_of(color)),
            r == (!in_check_spec(old(self).tiles@, color) && team_immobile(*final(self), color)),
    {
        self.calc_team_valid_moves(color);
        let (in_check, _pins, _checks) = self.get_pins_and_checks(color);
        let immobile = self.in_checkmate(color);
        !in_check && immobile
    }

    /// Whether either side's current table shows it without any legal
    /// move: the game-over test of the search.
    pub fn is_terminal(&self) -> (r: bool)
        requires
            self.wf(),
        ensures
            r == (team_immobile(*self, Team::Black) || team_immobile(*self, Team::White)),
    {
        self.in_checkmate(Team::Black) || self.in_checkmate(Team::White)
    }

    /// Reset one side's whole move table to 64 empty entries.
    fn reset_table(&mut self, color: Team)
        requires
            old(self).wf(),
            color != Team::Neutral,
        ensures
            final(self).wf(),
            final(self).tiles@ == old(self).tiles@,
            final(self).move_log@ == old(self).move_log@,
            final(self).zobrist_keys@ == old(self).zobrist_keys@,
            final(self).cur_uid == old(self).cur_uid,
            final(self).moves_of(color).len() == 64,
            forall|i: int| 0 <= i < 64 ==> (#[trigger] final(self).moves_of(color)[i])@.len() == 0,
            color == Team::White ==> final(self).black_moves@ == old(self).black_moves@,
            color != Team::White ==> final(self).white_moves@ == old(self).white_moves@,
    {
        if color == Team::White {
            self.white_moves = crate::board::empty_table();
        } else {
            self.black_moves = crate::board::empty_table();
        }
    }
}

} // verus!
