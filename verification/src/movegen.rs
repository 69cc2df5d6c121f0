//! Legality analysis: pin/check detection by ray casting from the King,
//! per-piece move generation, and team-level legal-move tables.

use vstd::prelude::*;
use crate::board::{at, in_b, rival_at, sq, team_at, Board};
use crate::piece::{Piece, PieceType};
use crate::team::Team;
use crate::tile::Tile;
use crate::utils::inrange;

verus! {

/// Row step of ray direction j: four orthogonal directions first, then
/// the four diagonals.
pub open spec fn dir_r(j: int) -> int {
    if j == 0 {
        -1
    } else if j == 1 {
        0
    } else if j == 2 {
        1
    } else if j == 3 {
        0
    } else if j == 4 {
        -1
    } else if j == 5 {
        -1
    } else if j == 6 {
        1
    } else {
        1
    }
}

/// Column step of ray direction j.
pub open spec fn dir_c(j: int) -> int {
    if j == 0 {
        0
    } else if j == 1 {
        -1
    } else if j == 2 {
        0
    } else if j == 3 {
        1
    } else if j == 4 {
        -1
    } else if j == 5 {
        1
    } else if j == 6 {
        -1
    } else {
        1
    }
}

/// Row offset of knight jump m.
pub open spec fn knight_off_r(m: int) -> int {
    if m == 0 || m == 1 {
        -2
    } else if m == 2 || m == 3 {
        -1
    } else if m == 4 || m == 5 {
        1
    } else {
        2
    }
}

/// Column offset of knight jump m.
pub open spec fn knight_off_c(m: int) -> int {
    if m == 0 {
        -1
    } else if m == 1 {
        1
    } else if m == 2 {
        -2
    } else if m == 3 {
        2
    } else if m == 4 {
        -2
    } else if m == 5 {
        2
    } else if m == 6 {
        -1
    } else {
        1
    }
}

/// Whether an enemy piece of this kind, met along ray j at distance one
/// or further, attacks the King of `color` along that ray.
pub open spec fn threatens(kind: PieceType, j: int, dist_one: bool, color: Team) -> bool {
    ||| (j <= 3 && kind == PieceType::Rook)
    ||| (4 <= j <= 7 && kind == PieceType::Bishop)
    ||| (dist_one && kind == PieceType::Pawn && ((color == Team::Black && 6 <= j <= 7) || (color
        == Team::White && 4 <= j <= 5)))
    ||| kind == PieceType::Queen
    ||| (dist_one && kind == PieceType::King)
}

/// Walk ray j outward from (r, c), the square examined at `step` being
/// one step further. The first friendly non-King piece becomes the pin
/// candidate; a second friendly piece discards it. The first enemy piece
/// that threatens along the ray is a check when no candidate shields the
/// King, and pins the candidate otherwise. Returns (checker, pinned).
pub open spec fn ray_scan(
    g: Seq<Tile>,
    color: Team,
    j: int,
    r: int,
    c: int,
    step: int,
    cand: Option<(int, int)>,
) -> (Option<(int, int)>, Option<(int, int)>)
    decreases 8 - step,
{
    if step >= 8 {
        (None, None)
    } else {
        let nr = r + dir_r(j);
        let nc = c + dir_c(j);
        if !in_b(nr, nc) {
            (None, None)
        } else if team_at(g, nr, nc, color) && at(g, nr, nc)->0.ptype != PieceType::King {
            if cand is None {
                ray_scan(g, color, j, nr, nc, step + 1, Some((nr, nc)))
            } else {
                (None, None)
            }
        } else if team_at(g, nr, nc, color) {
            (None, None)
        } else if rival_at(g, nr, nc, color) {
            if threatens(at(g, nr, nc)->0.ptype, j, step == 1, color) {
                if cand is None {
                    (Some((nr, nc)), None)
                } else {
                    (None, cand)
                }
            } else {
                (None, None)
            }
        } else {
            ray_scan(g, color, j, nr, nc, step + 1, cand)
        }
    }
}

/// The outcome of ray j as seen from the King of `color` on (kr, kc).
pub open spec fn dir_scan(g: Seq<Tile>, color: Team, kr: int, kc: int, j: int) -> (
    Option<(int, int)>,
    Option<(int, int)>,
) {
    ray_scan(g, color, j, kr, kc, 1, None)
}

/// Whether an enemy knight on knight-jump square m checks the King.
pub open spec fn knight_check(g: Seq<Tile>, color: Team, kr: int, kc: int, m: int) -> bool {
    let nr = kr + knight_off_r(m);
    let nc = kc + knight_off_c(m);
    in_b(nr, nc) && rival_at(g, nr, nc, color) && at(g, nr, nc)->0.ptype == PieceType::Knight
}

/// First square index at or after i holding this side's King, scanning
/// in row-major order.
pub open spec fn find_king_from(g: Seq<Tile>, color: Team, i: int) -> Option<int>
    decreases 64 - i,
{
    if i < 0 || i >= 64 {
        None
    } else if team_at(g, i / 8, i % 8, color) && at(g, i / 8, i % 8)->0.ptype == PieceType::King {
        Some(i)
    } else {
        find_king_from(g, color, i + 1)
    }
}

/// Whether this side has a King on the grid.
pub open spec fn has_king(g: Seq<Tile>, color: Team) -> bool {
    find_king_from(g, color, 0) is Some
}

/// Number of checking rays among directions j..8.
pub open spec fn count_ray_checks(g: Seq<Tile>, color: Team, kr: int, kc: int, j: int) -> int
    decreases 8 - j,
{
    if j < 0 || j >= 8 {
        0
    } else {
        (if dir_scan(g, color, kr, kc, j).0 is Some {
            1int
        } else {
            0int
        }) + count_ray_checks(g, color, kr, kc, j + 1)
    }
}

/// Number of checking knights among jumps m..8.
pub open spec fn count_knight_checks(g: Seq<Tile>, color: Team, kr: int, kc: int, m: int) -> int
    decreases 8 - m,
{
    if m < 0 || m >= 8 {
        0
    } else {
        (if knight_check(g, color, kr, kc, m) {
            1int
        } else {
            0int
        }) + count_knight_checks(g, color, kr, kc, m + 1)
    }
}

/// Total number of simultaneous checks on this side's King.
pub open spec fn check_count(g: Seq<Tile>, color: Team) -> int {
    if has_king(g, color) {
        let k = find_king_from(g, color, 0)->0;
        count_ray_checks(g, color, k / 8, k % 8, 0) + count_knight_checks(g, color, k / 8, k % 8, 0)
    } else {
        0
    }
}

/// Whether this side's King is attacked: some ray or knight jump checks.
pub open spec fn in_check_spec(g: Seq<Tile>, color: Team) -> bool {
    has_king(g, color) && {
        let k = find_king_from(g, color, 0)->0;
        ||| exists|j: int| 0 <= j < 8 && (#[trigger] dir_scan(g, color, k / 8, k % 8, j)).0 is Some
        ||| exists|m: int| 0 <= m < 8 && #[trigger] knight_check(g, color, k / 8, k % 8, m)
    }
}

/// What one recorded check entry claims: an enemy piece on the entry's
/// tile checks the King, along a ray or by a knight jump, and the entry
/// carries that ray or jump as its direction.
#[verifier::opaque]
pub open spec fn check_entry_ok(
    g: Seq<Tile>,
    color: Team,
    kr: int,
    kc: int,
    e: (Tile, (isize, isize)),
) -> bool {
    let rr = e.0.row as int;
    let cc = e.0.col as int;
    &&& in_b(rr, cc)
    &&& e.0 == g[sq(rr, cc)]
    &&& {
        ||| (exists|j: int|
            0 <= j < 8 && (#[trigger] dir_scan(g, color, kr, kc, j)).0 == Some((rr, cc)) && (
            e.1).0 == dir_r(j) && (e.1).1 == dir_c(j))
        ||| (exists|m: int|
            0 <= m < 8 && #[trigger] knight_check(g, color, kr, kc, m) && rr == kr + knight_off_r(m)
                && cc == kc + knight_off_c(m) && (e.1).0 == knight_off_r(m) && (e.1).1
                == knight_off_c(m))
    }
}

/// What one recorded pin entry claims: the piece on the entry's tile
/// shields the King along the entry's ray from an enemy piece behind it.
#[verifier::opaque]
pub open spec fn pin_entry_ok(
    g: Seq<Tile>,
    color: Team,
    kr: int,
    kc: int,
    e: (Tile, (isize, isize)),
) -> bool {
    let rr = e.0.row as int;
    let cc = e.0.col as int;
    &&& in_b(rr, cc)
    &&& e.0 == g[sq(rr, cc)]
    &&& exists|j: int|
        0 <= j < 8 && (#[trigger] dir_scan(g, color, kr, kc, j)).1 == Some((rr, cc)) && (e.1).0
            == dir_r(j) && (e.1).1 == dir_c(j)
}

/// Every recorded pin entry in the list is a real pin.
pub open spec fn pins_sound(
    g: Seq<Tile>,
    color: Team,
    kr: int,
    kc: int,
    s: Seq<(Tile, (isize, isize))>,
) -> bool {
    forall|i: int| 0 <= i < s.len() ==> pin_entry_ok(g, color, kr, kc, #[trigger] s[i])
}

/// Every recorded check entry in the list is a real check.
pub open spec fn checks_sound(
    g: Seq<Tile>,
    color: Team,
    kr: int,
    kc: int,
    s: Seq<(Tile, (isize, isize))>,
) -> bool {
    forall|i: int| 0 <= i < s.len() ==> check_entry_ok(g, color, kr, kc, #[trigger] s[i])
}

/// Every pinning ray with index below n has its pinned square recorded.
pub open spec fn pins_complete_to(
    g: Seq<Tile>,
    color: Team,
    kr: int,
    kc: int,
    s: Seq<(Tile, (isize, isize))>,
    n: int,
) -> bool {
    forall|j: int|
        0 <= j < n && (#[trigger] dir_scan(g, color, kr, kc, j)).1 is Some ==> exists|i: int|
            0 <= i < s.len() && Some(((#[trigger] s[i]).0.row as int, s[i].0.col as int))
                == dir_scan(g, color, kr, kc, j).1
}

/// Every checking ray with index below n has its checker recorded.
pub open spec fn ray_checks_complete_to(
    g: Seq<Tile>,
    color: Team,
    kr: int,
    kc: int,
    s: Seq<(Tile, (isize, isize))>,
    n: int,
) -> bool {
    forall|j: int|
        0 <= j < n && (#[trigger] dir_scan(g, color, kr, kc, j)).0 is Some ==> exists|i: int|
            0 <= i < s.len() && Some(((#[trigger] s[i]).0.row as int, s[i].0.col as int))
                == dir_scan(g, color, kr, kc, j).0
}

/// Every checking knight with jump index below n has its square recorded.
pub open spec fn knight_checks_complete_to(
    g: Seq<Tile>,
    color: Team,
    kr: int,
    kc: int,
    s: Seq<(Tile, (isize, isize))>,
    n: int,
) -> bool {
    forall|m: int|
        0 <= m < n && #[trigger] knight_check(g, color, kr, kc, m) ==> exists|i: int|
            0 <= i < s.len() && ((#[trigger] s[i]).0.row as int, s[i].0.col as int) == (
            kr + knight_off_r(m),
            kc + knight_off_c(m),
            )
}

/// Exec mirror of the direction table.
fn ray_dir(j: usize) -> (r: (isize, isize))
    requires
        j < 8,
    ensures
        r.0 == dir_r(j as int),
        r.1 == dir_c(j as int),
{
    if j == 0 {
        (-1, 0)
    } else if j == 1 {
        (0, -1)
    } else if j == 2 {
        (1, 0)
    } else if j == 3 {
        (0, 1)
    } else if j == 4 {
        (-1, -1)
    } else if j == 5 {
        (-1, 1)
    } else if j == 6 {
        (1, -1)
    } else {
        (1, 1)
    }
}

/// Exec mirror of the knight-jump table.
fn knight_off(m: usize) -> (r: (isize, isize))
    requires
        m < 8,
    ensures
        r.0 == knight_off_r(m as int),
        r.1 == knight_off_c(m as int),
{
    if m == 0 {
        (-2, -1)
    } else if m == 1 {
        (-2, 1)
    } else if m == 2 {
        (-1, -2)
    } else if m == 3 {
        (-1, 2)
    } else if m == 4 {
        (1, -2)
    } else if m == 5 {
        (1, 2)
    } else if m == 6 {
        (2, -1)
    } else {
        (2, 1)
    }
}

/// Exec mirror of [`threatens`].
fn threat_check(kind: PieceType, j: usize, dist_one: bool, color: Team) -> (r: bool)
    requires
        j < 8,
    ensures
        r == threatens(kind, j as int, dist_one, color),
{
    (j <= 3 && kind == PieceType::Rook) || (4 <= j && j <= 7 && kind == PieceType::Bishop) || (
    dist_one && kind == PieceType::Pawn && ((color == Team::Black && 6 <= j && j <= 7) || (color
        == Team::White && 4 <= j && j <= 5))) || kind == PieceType::Queen || (dist_one && kind
        == PieceType::King)
}

impl Board {
    /// Row-major position of this side's King, if it has one.
    pub fn find_king(&self, color: Team) -> (r: Option<usize>)
        requires
            self.wf(),
        ensures
            r is Some <==> find_king_from(self.tiles@, color, 0) is Some,
            r is Some ==> Some(r->0 as int) == find_king_from(self.tiles@, color, 0) && r->0 < 64,
    {
        let mut i: usize = 0;
        while i < 64
            invariant
                self.wf(),
                i <= 64,
                find_king_from(self.tiles@, color, 0) == find_king_from(self.tiles@, color, i as int),
            decreases 64 - i,
        {
            let t = &self.tiles[i];
            if t.has_piece() {
                let p = t.piece();
                if p.color == color && p.ptype == PieceType::King {
                    proof {
                        assert(at(self.tiles@, i as int / 8, i as int % 8)
                            == self.tiles@[i as int].present_piece);
                    }
                    return Some(i);
                }
            }
            proof {
                assert(at(self.tiles@, i as int / 8, i as int % 8)
                    == self.tiles@[i as int].present_piece);
            }
            i = i + 1;
        }
        None
    }

    /// Scan one ray from the King's square, reporting the checking tile
    /// and the pinned tile found on it, if any.
    fn scan_ray(&self, color: Team, kr: usize, kc: usize, j: usize) -> (r: (
        Option<Tile>,
        Option<Tile>,
    ))
        requires
            self.wf(),
            kr < 8,
            kc < 8,
            j < 8,
        ensures
            ({
                let s = dir_scan(self.tiles@, color, kr as int, kc as int, j as int);
                &&& (r.0 is Some <==> s.0 is Some)
                &&& (r.0 is Some ==> Some((r.0->0.row as int, r.0->0.col as int)) == s.0 && r.0->0
                    == self.tiles@[sq(r.0->0.row as int, r.0->0.col as int)] && in_b(
                    r.0->0.row as int,
                    r.0->0.col as int,
                ))
                &&& (r.1 is Some <==> s.1 is Some)
                &&& (r.1 is Some ==> Some((r.1->0.row as int, r.1->0.col as int)) == s.1 && r.1->0
                    == self.tiles@[sq(r.1->0.row as int, r.1->0.col as int)] && in_b(
                    r.1->0.row as int,
                    r.1->0.col as int,
                ))
            }),
    {
        let g = &self.tiles;
        let (dr, dc) = ray_dir(j);
        let mut cand: Option<Tile> = None;
        let mut pr: isize = kr as isize;
        let mut pcol: isize = kc as isize;
        let mut step: usize = 1;
        while step < 8
            invariant
                self.wf(),
                j < 8,
                dr == dir_r(j as int),
                dc == dir_c(j as int),
                1 <= step <= 8,
                -8 <= pr <= 8,
                -8 <= pcol <= 8,
                cand is Some ==> {
                    &&& in_b(cand->0.row as int, cand->0.col as int)
                    &&& cand->0 == self.tiles@[sq(cand->0.row as int, cand->0.col as int)]
                },
                ray_scan(self.tiles@, color, j as int, kr as int, kc as int, 1, None) == ray_scan(
                    self.tiles@,
                    color,
                    j as int,
                    pr as int,
                    pcol as int,
                    step as int,
                    match cand {
                        Some(t) => Some((t.row as int, t.col as int)),
                        None => None,
                    },
                ),
            decreases 8 - step,
        {
            let nr = pr + dr;
            let nc = pcol + dc;
            if !inrange(nr) || !inrange(nc) {
                return (None, None);
            }
            let idx = (nr as usize) * 8 + (nc as usize);
            let t = self.tiles[idx];
            proof {
                assert(at(self.tiles@, nr as int, nc as int) == t.present_piece);
            }
            if t.has_team(color) && t.piece().ptype != PieceType::King {
                if cand.is_none() {
                    cand = Some(t);
                } else {
                    return (None, None);
                }
            } else if t.has_team(color) {
                return (None, None);
            } else if t.has_rival(color) {
                if threat_check(t.piece().ptype, j, step == 1, color) {
                    if cand.is_none() {
                        return (Some(t), None);
                    } else {
                        return (None, cand);
                    }
                } else {
                    return (None, None);
                }
            }
            pr = nr;
            pcol = nc;
            step = step + 1;
        }
        (None, None)
    }

    /// Cast all eight rays from the King's square, collecting the pinned
    /// tiles and the checking tiles with their ray directions.
    #[verifier::rlimit(60)]
    fn scan_all_rays(&self, color: Team, kr: usize, kc: usize) -> (r: (
        Vec<(Tile, (isize, isize))>,
        Vec<(Tile, (isize, isize))>,
    ))
        requires
            self.wf(),
            kr < 8,
            kc < 8,
        ensures
            r.1@.len() == count_ray_checks(self.tiles@, color, kr as int, kc as int, 0),
            pins_sound(self.tiles@, color, kr as int, kc as int, r.0@),
            checks_sound(self.tiles@, color, kr as int, kc as int, r.1@),
            pins_complete_to(self.tiles@, color, kr as int, kc as int, r.0@, 8),
            ray_checks_complete_to(self.tiles@, color, kr as int, kc as int, r.1@, 8),
    {
        let mut pins: Vec<(Tile, (isize, isize))> = Vec::new();
        let mut checks: Vec<(Tile, (isize, isize))> = Vec::new();
        let ghost g = self.tiles@;
        let ghost gkr = kr as int;
        let ghost gkc = kc as int;
        let mut j: usize = 0;
        while j < 8
            invariant
                self.wf(),
                kr < 8,
                kc < 8,
                gkr == kr as int,
                gkc == kc as int,
                g == self.tiles@,
                j <= 8,
                checks@.len() == count_ray_checks(g, color, gkr, gkc, 0) - count_ray_checks(
                    g,
                    color,
                    gkr,
                    gkc,
                    j as int,
                ),
                pins_sound(g, color, gkr, gkc, pins@),
                checks_sound(g, color, gkr, gkc, checks@),
                pins_complete_to(g, color, gkr, gkc, pins@, j as int),
                ray_checks_complete_to(g, color, gkr, gkc, checks@, j as int),
            decreases 8 - j,
        {
            let (dr, dc) = ray_dir(j);
            let res = self.scan_ray(color, kr, kc, j);
            proof {
                lemma_count_ray_checks_step(g, color, gkr, gkc, j as int);
            }
            let ghost checks0 = checks@;
            let ghost pins0 = pins@;
            match res.0 {
                Some(t) => {
                    proof {
                        assert(check_entry_ok(g, color, gkr, gkc, (t, (dr, dc)))) by {
                            reveal(check_entry_ok);
                            assert((#[trigger] dir_scan(g, color, gkr, gkc, j as int)).0 == Some(
                                (t.row as int, t.col as int),
                            ));
                        }
                    }
                    checks.push((t, (dr, dc)));
                },
                None => {},
            }
            match res.1 {
                Some(t) => {
                    proof {
                        assert(pin_entry_ok(g, color, gkr, gkc, (t, (dr, dc)))) by {
                            reveal(pin_entry_ok);
                            assert((#[trigger] dir_scan(g, color, gkr, gkc, j as int)).1 == Some(
                                (t.row as int, t.col as int),
                            ));
                        }
                    }
                    pins.push((t, (dr, dc)));
                },
                None => {},
            }
            proof {
                assert(pins_complete_to(g, color, gkr, gkc, pins@, j as int + 1)) by {
                    assert forall|j2: int|
                        0 <= j2 < j + 1 && (#[trigger] dir_scan(g, color, gkr, gkc, j2)).1 is Some
                            implies exists|i: int|
                        0 <= i < pins@.len() && Some(
                            ((#[trigger] pins@[i]).0.row as int, pins@[i].0.col as int),
                        ) == dir_scan(g, color, gkr, gkc, j2).1 by {
                        if j2 == j as int {
                            let last = pins@.len() - 1;
                            assert(0 <= last < pins@.len() && Some(
                                ((pins@[last]).0.row as int, pins@[last].0.col as int),
                            ) == dir_scan(g, color, gkr, gkc, j2).1);
                        } else {
                            let i0 = choose|i: int|
                                0 <= i < pins0.len() && Some(
                                    ((#[trigger] pins0[i]).0.row as int, pins0[i].0.col as int),
                                ) == dir_scan(g, color, gkr, gkc, j2).1;
                            assert(pins@[i0] == pins0[i0]);
                            assert(0 <= i0 < pins@.len() && Some(
                                ((pins@[i0]).0.row as int, pins@[i0].0.col as int),
                            ) == dir_scan(g, color, gkr, gkc, j2).1);
                        }
                    }
                }
                assert(ray_checks_complete_to(g, color, gkr, gkc, checks@, j as int + 1)) by {
                    assert forall|j2: int|
                        0 <= j2 < j + 1 && (#[trigger] dir_scan(g, color, gkr, gkc, j2)).0 is Some
                            implies exists|i: int|
                        0 <= i < checks@.len() && Some(
                            ((#[trigger] checks@[i]).0.row as int, checks@[i].0.col as int),
                        ) == dir_scan(g, color, gkr, gkc, j2).0 by {
                        if j2 == j as int {
                            let last = checks@.len() - 1;
                            assert(0 <= last < checks@.len() && Some(
                                ((checks@[last]).0.row as int, checks@[last].0.col as int),
                            ) == dir_scan(g, color, gkr, gkc, j2).0);
                        } else {
                            let i0 = choose|i: int|
                                0 <= i < checks0.len() && Some(
                                    ((#[trigger] checks0[i]).0.row as int, checks0[i].0.col as int),
                                ) == dir_scan(g, color, gkr, gkc, j2).0;
                            assert(checks@[i0] == checks0[i0]);
                            assert(0 <= i0 < checks@.len() && Some(
                                ((checks@[i0]).0.row as int, checks@[i0].0.col as int),
                            ) == dir_scan(g, color, gkr, gkc, j2).0);
                        }
                    }
                }
            }
            j = j + 1;
        }
        proof {
            assert(count_ray_checks(g, color, gkr, gkc, 8) == 0);
        }
        (pins, checks)
    }

    /// Test the eight knight-jump squares around the King, collecting
    /// every checking enemy knight with its jump offset.
    #[verifier::rlimit(60)]
    fn scan_knight_checks(&self, color: Team, kr: usize, kc: usize) -> (r: Vec<
        (Tile, (isize, isize)),
    >)
        requires
            self.wf(),
            kr < 8,
            kc < 8,
        ensures
            r@.len() == count_knight_checks(self.tiles@, color, kr as int, kc as int, 0),
            checks_sound(self.tiles@, color, kr as int, kc as int, r@),
            knight_checks_complete_to(self.tiles@, color, kr as int, kc as int, r@, 8),
    {
        let mut checks: Vec<(Tile, (isize, isize))> = Vec::new();
        let ghost g = self.tiles@;
        let ghost gkr = kr as int;
        let ghost gkc = kc as int;
        let mut m: usize = 0;
        while m < 8
            invariant
                self.wf(),
                kr < 8,
                kc < 8,
                gkr == kr as int,
                gkc == kc as int,
                g == self.tiles@,
                m <= 8,
                checks@.len() == count_knight_checks(g, color, gkr, gkc, 0) - count_knight_checks(
                    g,
                    color,
                    gkr,
                    gkc,
                    m as int,
                ),
                checks_sound(g, color, gkr, gkc, checks@),
                knight_checks_complete_to(g, color, gkr, gkc, checks@, m as int),
            decreases 8 - m,
        {
            let (mr, mc) = knight_off(m);
            let nr = kr as isize + mr;
            let nc = kc as isize + mc;
            proof {
                lemma_count_knight_checks_step(g, color, gkr, gkc, m as int);
            }
            let ghost checks0 = checks@;
            let mut pushed = false;
            if inrange(nr) && inrange(nc) {
                let t = self.tiles[(nr as usize) * 8 + (nc as usize)];
                proof {
                    assert(at(g, nr as int, nc as int) == t.present_piece);
                }
                if t.has_rival(color) && t.piece().ptype == PieceType::Knight {
                    proof {
                        assert(t.row as int == nr as int && t.col as int == nc as int);
                        assert(check_entry_ok(g, color, gkr, gkc, (t, (mr, mc)))) by {
                            reveal(check_entry_ok);
                            assert(#[trigger] knight_check(g, color, gkr, gkc, m as int));
                        }
                    }
                    checks.push((t, (mr, mc)));
                    pushed = true;
                }
            }
            proof {
                if !pushed {
                    assert(checks@ == checks0);
                    assert(!knight_check(g, color, gkr, gkc, m as int));
                }
                assert(knight_checks_complete_to(g, color, gkr, gkc, checks@, m as int + 1)) by {
                    assert forall|m2: int|
                        0 <= m2 < m + 1 && #[trigger] knight_check(g, color, gkr, gkc, m2)
                            implies exists|i: int|
                        0 <= i < checks@.len() && ((#[trigger] checks@[i]).0.row as int, checks@[i].0.col
                            as int) == (gkr + knight_off_r(m2), gkc + knight_off_c(m2)) by {
                        if m2 == m as int {
                            let last = checks@.len() - 1;
                            assert(0 <= last < checks@.len() && ((checks@[last]).0.row as int,
                            checks@[last].0.col as int) == (gkr + knight_off_r(m2), gkc
                                + knight_off_c(m2)));
                        } else {
                            let i0 = choose|i: int|
                                0 <= i < checks0.len() && ((#[trigger] checks0[i]).0.row as int,
                                checks0[i].0.col as int) == (gkr + knight_off_r(m2), gkc
                                    + knight_off_c(m2));
                            assert(checks@[i0] == checks0[i0]);
                            assert(0 <= i0 < checks@.len() && ((checks@[i0]).0.row as int,
                            checks@[i0].0.col as int) == (gkr + knight_off_r(m2), gkc
                                + knight_off_c(m2)));
                        }
                    }
                }
            }
            m = m + 1;
        }
        proof {
            assert(count_knight_checks(g, color, gkr, gkc, 8) == 0);
        }
        checks
    }

    /// Locate this side's King and cast all eight rays plus the eight
    /// knight jumps from it. Returns (in-check, pins, checks): each pin
    /// as (pinned tile, ray direction), each check as (checking tile,
    /// ray direction or knight jump).
    #[verifier::rlimit(100)]
    #[verifier::spinoff_prover]
    pub fn get_pins_and_checks(&self, color: Team) -> (r: (
        bool,
        Vec<(Tile, (isize, isize))>,
        Vec<(Tile, (isize, isize))>,
    ))
        requires
            self.wf(),
            has_king(self.tiles@, color),
        ensures
            ({
                let g = self.tiles@;
                let k = find_king_from(g, color, 0)->0;
                let kr = k / 8;
                let kc = k % 8;
                &&& r.0 == in_check_spec(g, color)
                &&& r.0 == (r.2@.len() > 0)
                &&& r.2@.len() == check_count(g, color)
                &&& pins_sound(g, color, kr, kc, r.1@)
                &&& checks_sound(g, color, kr, kc, r.2@)
                &&& pins_complete_to(g, color, kr, kc, r.1@, 8)
                &&& ray_checks_complete_to(g, color, kr, kc, r.2@, 8)
                &&& knight_checks_complete_to(g, color, kr, kc, r.2@, 8)
            }),
    {
        let k = match self.find_king(color) {
            Some(k) => k,
            None => {
                proof {
                    assert(false);
                }
                0
            },
        };
        let kr = k / 8;
        let kc = k % 8;
        let ghost g = self.tiles@;
        let ghost gkr = k as int / 8;
        let ghost gkc = k as int % 8;

        let (pins, mut checks) = self.scan_all_rays(color, kr, kc);
        let ghost rays = checks@;
        let mut knights = self.scan_knight_checks(color, kr, kc);
        let ghost kn = knights@;
        checks.append(&mut knights);
        proof {
            assert(checks@ == rays + kn);
            assert(checks_sound(g, color, gkr, gkc, checks@)) by {
                assert forall|i: int|
                    0 <= i < checks@.len() implies check_entry_ok(
                    g,
                    color,
                    gkr,
                    gkc,
                    #[trigger] checks@[i],
                ) by {
                    if i < rays.len() {
                        assert(checks@[i] == rays[i]);
                        assert(check_entry_ok(g, color, gkr, gkc, rays[i]));
                    } else {
                        assert(checks@[i] == kn[i - rays.len()]);
                        assert(check_entry_ok(g, color, gkr, gkc, kn[i - rays.len()]));
                    }
                }
            }
            assert(ray_checks_complete_to(g, color, gkr, gkc, checks@, 8)) by {
                assert forall|j: int|
                    0 <= j < 8 && (#[trigger] dir_scan(g, color, gkr, gkc, j)).0 is Some
                        implies exists|i: int|
                    0 <= i < checks@.len() && Some(
                        ((#[trigger] checks@[i]).0.row as int, checks@[i].0.col as int),
                    ) == dir_scan(g, color, gkr, gkc, j).0 by {
                    let i0 = choose|i: int|
                        0 <= i < rays.len() && Some(
                            ((#[trigger] rays[i]).0.row as int, rays[i].0.col as int),
                        ) == dir_scan(g, color, gkr, gkc, j).0;
                    assert(checks@[i0] == rays[i0]);
                    assert(0 <= i0 < checks@.len() && Some(
                        ((checks@[i0]).0.row as int, checks@[i0].0.col as int),
                    ) == dir_scan(g, color, gkr, gkc, j).0);
                }
            }
            assert(knight_checks_complete_to(g, color, gkr, gkc, checks@, 8)) by {
                assert forall|m: int|
                    0 <= m < 8 && #[trigger] knight_check(g, color, gkr, gkc, m)
                        implies exists|i: int|
                    0 <= i < checks@.len() && ((#[trigger] checks@[i]).0.row as int, checks@[i].0.col
                        as int) == (gkr + knight_off_r(m), gkc + knight_off_c(m)) by {
                    let i0 = choose|i: int|
                        0 <= i < kn.len() && ((#[trigger] kn[i]).0.row as int, kn[i].0.col as int)
                            == (gkr + knight_off_r(m), gkc + knight_off_c(m));
                    assert(checks@[rays.len() + i0] == kn[i0]);
                    assert(0 <= rays.len() + i0 < checks@.len() && ((checks@[rays.len()
                        + i0]).0.row as int, checks@[rays.len() + i0].0.col as int) == (gkr
                        + knight_off_r(m), gkc + knight_off_c(m)));
                }
            }
        }
        let in_check = checks.len() > 0;
        proof {
            if checks@.len() > 0 {
                assert(check_entry_ok(g, color, gkr, gkc, checks@[0]));
                assert(in_check_spec(g, color)) by {
                    reveal(check_entry_ok);
                    assert(check_entry_ok(g, color, gkr, gkc, checks@[0]));
                }
            }
            if in_check_spec(g, color) {
                assert(checks@.len() > 0) by {
                    if exists|j: int|
                        0 <= j < 8 && (#[trigger] dir_scan(g, color, gkr, gkc, j)).0 is Some {
                        let j0 = choose|j: int|
                            0 <= j < 8 && (#[trigger] dir_scan(g, color, gkr, gkc, j)).0 is Some;
                        assert(exists|i: int|
                            0 <= i < checks@.len() && Some(
                                ((#[trigger] checks@[i]).0.row as int, checks@[i].0.col as int),
                            ) == dir_scan(g, color, gkr, gkc, j0).0);
                    } else {
                        let m0 = choose|m: int|
                            0 <= m < 8 && #[trigger] knight_check(g, color, gkr, gkc, m);
                        assert(exists|i: int|
                            0 <= i < checks@.len() && ((#[trigger] checks@[i]).0.row as int,
                            checks@[i].0.col as int) == (gkr + knight_off_r(m0), gkc
                                + knight_off_c(m0)));
                    }
                }
            }
        }
        return (in_check, pins, checks);
    }
}

/// A side whose King stands on (kr, kc) has a King: the row-major scan
/// from any index at or before that square finds one.
pub proof fn lemma_king_found(g: Seq<Tile>, color: Team, i: int, kr: int, kc: int)
    requires
        0 <= i <= sq(kr, kc),
        in_b(kr, kc),
        team_at(g, kr, kc, color),
        at(g, kr, kc)->0.ptype == PieceType::King,
    ensures
        find_king_from(g, color, i) is Some,
    decreases 64 - i,
{
    if !(team_at(g, i / 8, i % 8, color) && at(g, i / 8, i % 8)->0.ptype == PieceType::King) {
        assert(i != sq(kr, kc));
        lemma_king_found(g, color, i + 1, kr, kc);
    }
}

/// Unfold one direction of the ray-check counter.
proof fn lemma_count_ray_checks_step(g: Seq<Tile>, color: Team, kr: int, kc: int, j: int)
    requires
        0 <= j < 8,
    ensures
        count_ray_checks(g, color, kr, kc, j) == (if dir_scan(g, color, kr, kc, j).0 is Some {
            1int
        } else {
            0int
        }) + count_ray_checks(g, color, kr, kc, j + 1),
{
}

/// Unfold one jump of the knight-check counter.
proof fn lemma_count_knight_checks_step(g: Seq<Tile>, color: Team, kr: int, kc: int, m: int)
    requires
        0 <= m < 8,
    ensures
        count_knight_checks(g, color, kr, kc, m) == (if knight_check(g, color, kr, kc, m) {
            1int
        } else {
            0int
        }) + count_knight_checks(g, color, kr, kc, m + 1),
{
}

} // verus!
