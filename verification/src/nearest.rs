//! The nearest observed tile of a given kind or content.

use vstd::prelude::*;
use crate::coordinate::{euclid_squared, gap, Coordinate};
use crate::grid::{cols, grid_of, inside, lemma_grid_fits, rows, tile_at, tile_of, well_formed, Grid};
use crate::tile::{Content, Tile, TileType};

verus! {

/// What is looked for on the map.
#[derive(Clone, Copy, Debug, PartialEq, Eq, Structural)]
pub enum Target {
    Kind(TileType),
    Holding(Content),
}

/// The tile is of the kind, or holds the content, that is looked for.
pub open spec fn tile_matches(t: Tile, target: Target) -> bool {
    match target {
        Target::Kind(k) => t.tile_type == k,
        Target::Holding(c) => t.content == c,
    }
}

/// The cell at `p` is observed and matches.
pub open spec fn matches_at(g: Grid, p: (int, int), target: Target) -> bool {
    tile_at(g, p) matches Some(t) && tile_matches(t, target)
}

/// `p` comes no later than `q` when the grid is read row by row.
pub open spec fn precedes(p: (int, int), q: (int, int)) -> bool {
    p.0 < q.0 || (p.0 == q.0 && p.1 <= q.1)
}

/// As seen from `from`, `p` is preferred to `q`: it is nearer, or as near and
/// no later in the grid.
pub open spec fn preferred(from: (int, int), p: (int, int), q: (int, int)) -> bool {
    euclid_squared(from, p) < euclid_squared(from, q) || (euclid_squared(from, p)
        == euclid_squared(from, q) && precedes(p, q))
}

/// `p` is the matching cell nearest to `from` in Euclidean distance, the
/// first in the grid among those equally near.
pub open spec fn is_nearest(g: Grid, from: (int, int), target: Target, p: (int, int)) -> bool {
    &&& matches_at(g, p, target)
    &&& forall|q: (int, int)| #[trigger] matches_at(g, q, target) ==> preferred(from, p, q)
}

/// The matching cell nearest to `from`, if any cell matches.
pub open spec fn nearest(g: Grid, from: (int, int), target: Target) -> Option<(int, int)> {
    if exists|p: (int, int)| is_nearest(g, from, target, p) {
        Some(choose|p: (int, int)| is_nearest(g, from, target, p))
    } else {
        None
    }
}

/// There is at most one nearest matching cell.
pub proof fn lemma_nearest_unique(g: Grid, from: (int, int), target: Target, p: (int, int), q: (int, int))
    requires
        is_nearest(g, from, target, p),
        is_nearest(g, from, target, q),
    ensures
        p == q,
{
    assert(preferred(from, p, q));
    assert(preferred(from, q, p));
}

/// Among the matching cells read before (`r`, `c`), `b` is the preferred one.
pub open spec fn is_best_before(
    g: Grid,
    from: (int, int),
    target: Target,
    b: (int, int),
    r: int,
    c: int,
) -> bool {
    &&& matches_at(g, b, target)
    &&& scanned(b, r, c)
    &&& forall|q: (int, int)|
        #[trigger] matches_at(g, q, target) && scanned(q, r, c) ==> preferred(from, b, q)
}

/// If a matching cell is read before (`r`, `c`), one of those read is
/// preferred to all of them.
proof fn lemma_best_before_exists(g: Grid, from: (int, int), target: Target, r: nat, c: nat)
    requires
        well_formed(g),
        c <= cols(g),
    ensures
        (exists|q: (int, int)| #[trigger] matches_at(g, q, target) && scanned(q, r as int, c as int))
            ==> exists|b: (int, int)| #[trigger] is_best_before(g, from, target, b, r as int, c as int),
    decreases r, c,
{
    if exists|q: (int, int)| #[trigger] matches_at(g, q, target) && scanned(q, r as int, c as int) {
        if c == 0 {
            if r == 0 {
                let q = choose|q: (int, int)| #[trigger]
                    matches_at(g, q, target) && scanned(q, r as int, c as int);
                assert(false);
            } else {
                lemma_best_before_exists(g, from, target, (r - 1) as nat, cols(g));
                assert forall|q: (int, int)| #[trigger] matches_at(g, q, target) implies (scanned(
                    q,
                    r as int,
                    0,
                ) <==> scanned(q, r - 1, cols(g) as int)) by {}
                let q = choose|q: (int, int)| #[trigger]
                    matches_at(g, q, target) && scanned(q, r as int, c as int);
                assert(matches_at(g, q, target) && scanned(q, r - 1, cols(g) as int));
                let above: int = r - 1;
                let width: int = cols(g) as int;
                let b = choose|b: (int, int)| is_best_before(g, from, target, b, above, width);
                assert(is_best_before(g, from, target, b, r as int, 0));
            }
        } else {
            lemma_best_before_exists(g, from, target, r, (c - 1) as nat);
            let here = (r as int, c - 1);
            if exists|q: (int, int)| #[trigger]
                matches_at(g, q, target) && scanned(q, r as int, c - 1) {
                let row: int = r as int;
                let left: int = c - 1;
                let b = choose|b: (int, int)| is_best_before(g, from, target, b, row, left);
                if matches_at(g, here, target) && !preferred(from, b, here) {
                    assert forall|q: (int, int)|
                        #[trigger] matches_at(g, q, target) && scanned(
                            q,
                            r as int,
                            c as int,
                        ) implies preferred(from, here, q) by {
                        if q != here {
                            assert(scanned(q, r as int, c - 1));
                            assert(preferred(from, b, q));
                        }
                    }
                    assert(is_best_before(g, from, target, here, r as int, c as int));
                } else {
                    assert forall|q: (int, int)|
                        #[trigger] matches_at(g, q, target) && scanned(
                            q,
                            r as int,
                            c as int,
                        ) implies preferred(from, b, q) by {
                        if q != here {
                            assert(scanned(q, r as int, c - 1));
                        }
                    }
                    assert(is_best_before(g, from, target, b, r as int, c as int));
                }
            } else {
                let q = choose|q: (int, int)| #[trigger]
                    matches_at(g, q, target) && scanned(q, r as int, c as int);
                assert(q == here);
                assert forall|p: (int, int)|
                    #[trigger] matches_at(g, p, target) && scanned(
                        p,
                        r as int,
                        c as int,
                    ) implies preferred(from, here, p) by {
                    assert(p == here);
                }
                assert(is_best_before(g, from, target, here, r as int, c as int));
            }
        }
    }
}

/// On a well-formed grid a nearest matching cell exists as soon as any cell
/// matches: nothing is reported missing that the map holds.
pub proof fn lemma_nearest_exists(g: Grid, from: (int, int), target: Target)
    requires
        well_formed(g),
    ensures
        nearest(g, from, target) is None <==> forall|q: (int, int)| !matches_at(g, q, target),
        nearest(g, from, target) matches Some(p) ==> is_nearest(g, from, target, p),
{
    lemma_best_before_exists(g, from, target, rows(g), 0);
    if exists|q: (int, int)| matches_at(g, q, target) {
        let q = choose|q: (int, int)| matches_at(g, q, target);
        assert(matches_at(g, q, target) && scanned(q, rows(g) as int, 0));
        let height: int = rows(g) as int;
        let b = choose|b: (int, int)| is_best_before(g, from, target, b, height, 0);
        assert forall|p: (int, int)| #[trigger] matches_at(g, p, target) implies preferred(
            from,
            b,
            p,
        ) by {
            assert(scanned(p, rows(g) as int, 0));
        }
        assert(is_nearest(g, from, target, b));
    }
}

/// Between two cells of a well-formed grid the squared distance fits in 128 bits.
pub proof fn lemma_distance_fits(g: Grid, p: (int, int), q: (int, int))
    requires
        well_formed(g),
        inside(g, p),
        inside(g, q),
    ensures
        euclid_squared(p, q) <= u128::MAX,
{
    let r = rows(g) as int;
    let c = cols(g) as int;
    let dr = gap(p.0, q.0) as int;
    let dc = gap(p.1, q.1) as int;
    let m: int = 0xffff_ffff_ffff_ffff;
    assert(dr < r && dc < c);
    assert(r * c <= m);
    if dr == 0 || dc == 0 {
        assert(r <= m && c <= m) by (nonlinear_arith)
            requires
                r * c <= m,
                r >= 1,
                c >= 1,
        ;
        assert(dr * dr + dc * dc <= m * m) by (nonlinear_arith)
            requires
                0 <= dr < m,
                0 <= dc < m,
                dr == 0 || dc == 0,
        ;
    } else {
        assert(2 * r <= m && 2 * c <= m) by (nonlinear_arith)
            requires
                r * c <= m,
                r >= 2,
                c >= 2,
        ;
        assert(dr * dr + dc * dc <= m * m) by (nonlinear_arith)
            requires
                0 <= dr,
                0 <= dc,
                2 * dr <= m,
                2 * dc <= m,
        ;
    }
}

/// Says whether `tile` matches `target`.
pub fn matches_target(tile: &Tile, target: &Target) -> (b: bool)
    ensures
        b == tile_matches(*tile, *target),
{
    match target {
        Target::Kind(k) => tile.tile_type == *k,
        Target::Holding(c) => tile.content == *c,
    }
}

/// `p` was read before the cell (`r`, `c`) in a scan row by row.
pub open spec fn scanned(p: (int, int), r: int, c: int) -> bool {
    p.0 < r || (p.0 == r && p.1 < c)
}

/// The best match found so far in a scan that has come to (`r`, `c`).
pub open spec fn best_so_far(
    g: Grid,
    from: (int, int),
    target: Target,
    best: Option<Coordinate>,
    r: int,
    c: int,
) -> bool {
    match best {
        Some(b) => is_best_before(g, from, target, b.pos(), r, c),
        None => forall|q: (int, int)| #[trigger] matches_at(g, q, target) ==> !scanned(q, r, c),
    }
}

/// The observed cell nearest to `pos` that matches `target`.
pub fn get_closest(map: &Vec<Vec<Option<Tile>>>, target: &Target, pos: &Coordinate) -> (found:
    Option<Coordinate>)
    requires
        well_formed(grid_of(map)),
        inside(grid_of(map), pos.pos()),
    ensures
        match found {
            Some(c) => Some(c.pos()) == nearest(grid_of(map), pos.pos(), *target),
            None => nearest(grid_of(map), pos.pos(), *target) is None,
        },
{
    let ghost g = grid_of(map);
    let ghost from = pos.pos();
    let mut best: Option<Coordinate> = None;
    let mut best_distance: u128 = 0;
    let height: usize = map.len();
    let width: usize = map[0].len();
    proof {
        lemma_grid_fits(map);
    }
    let mut row: usize = 0;
    while row < height
        invariant
            row <= height,
            g == grid_of(map),
            from == pos.pos(),
            well_formed(g),
            inside(g, from),
            height == rows(g),
            width == cols(g),
            best_so_far(g, from, *target, best, row as int, 0),
            best matches Some(b) ==> best_distance == euclid_squared(from, b.pos()),
        decreases height - row,
    {
        let mut col: usize = 0;
        while col < width
            invariant
                row < height,
                col <= width,
                g == grid_of(map),
                from == pos.pos(),
                well_formed(g),
                inside(g, from),
                height == rows(g),
                width == cols(g),
                best_so_far(g, from, *target, best, row as int, col as int),
                best matches Some(b) ==> best_distance == euclid_squared(from, b.pos()),
            decreases width - col,
        {
            let here = Coordinate::new(row, col);
            let ghost before = best;
            if let Some(tile) = tile_of(map, &here) {
                if matches_target(&tile, target) {
                    proof {
                        lemma_distance_fits(g, from, here.pos());
                    }
                    let d = pos.distance_squared(&here);
                    let better = match best {
                        Some(_) => d < best_distance,
                        None => true,
                    };
                    if better {
                        best = Some(here);
                        best_distance = d;
                    }
                }
            }
            proof {
                assert forall|q: (int, int)|
                    #[trigger] matches_at(g, q, *target) && scanned(
                        q,
                        row as int,
                        col + 1,
                    ) implies (best matches Some(b) && preferred(from, b.pos(), q)) by {
                    if !scanned(q, row as int, col as int) {
                        assert(q == here.pos());
                    }
                }
            }
            col = col + 1;
        }
        proof {
            assert forall|q: (int, int)| #[trigger] matches_at(g, q, *target) implies (scanned(
                q,
                row as int,
                width as int,
            ) <==> scanned(q, row + 1, 0)) by {}
        }
        row = row + 1;
    }
    proof {
        assert forall|q: (int, int)| #[trigger] matches_at(g, q, *target) implies scanned(
            q,
            height as int,
            0,
        ) by {}
        match best {
            Some(b) => {
                assert(is_nearest(g, from, *target, b.pos()));
                let n = choose|p: (int, int)| is_nearest(g, from, *target, p);
                lemma_nearest_unique(g, from, *target, b.pos(), n);
            },
            None => {},
        }
    }
    best
}

/// Returns the coordinate of the closest observed tile with matching content.
pub fn get_closest_content(map: &Vec<Vec<Option<Tile>>>, content: &Content, pos: &Coordinate) -> (found:
    Option<Coordinate>)
    requires
        well_formed(grid_of(map)),
        inside(grid_of(map), pos.pos()),
    ensures
        match found {
            Some(c) => Some(c.pos()) == nearest(
                grid_of(map),
                pos.pos(),
                Target::Holding(*content),
            ),
            None => nearest(grid_of(map), pos.pos(), Target::Holding(*content)) is None,
        },
{
    get_closest(map, &Target::Holding(*content), pos)
}

/// Returns the coordinate of the closest observed tile of matching type.
pub fn get_closest_tiletype(map: &Vec<Vec<Option<Tile>>>, tiletype: &TileType, pos: &Coordinate) -> (found:
    Option<Coordinate>)
    requires
        well_formed(grid_of(map)),
        inside(grid_of(map), pos.pos()),
    ensures
        match found {
            Some(c) => Some(c.pos()) == nearest(grid_of(map), pos.pos(), Target::Kind(*tiletype)),
            None => nearest(grid_of(map), pos.pos(), Target::Kind(*tiletype)) is None,
        },
{
    get_closest(map, &Target::Kind(*tiletype), pos)
}

} // verus!
