use crate::errors::GenError;
use crate::grid::count_unresolved;
use crate::grid::lemma_coords_of_index;
use crate::grid::lemma_count_unresolved_same_ids;
use crate::grid::lemma_index_in_range;
use crate::grid::lemma_index_injective;
use crate::grid::offset_dx;
use crate::grid::offset_dy;
use crate::grid::Cell;
use crate::grid::Grid;
use crate::grid::Pos;
use crate::possibility::admissible;
use crate::possibility::get_possibilities;
use crate::possibility::lemma_count_adm_zero;
use crate::possibility::nb_id;
use crate::possibility::nb_ok;
use crate::possibility::poss_count;
use crate::propagate::assign_tile;
use crate::propagate::lemma_same_ids_pairwise;
use crate::propagate::ok_pair;
use crate::propagate::pairwise_ok;
use crate::propagate::propagate;
use crate::rng::random_below;
use crate::rng::rng_from_seed;
use crate::tiles::has_universal_tile;
use crate::tiles::spec_compat;
use crate::tiles::TileSet;
use vstd::prelude::*;

verus! {

/// Clears every transient `visited` mark, leaving the ids untouched.
pub fn reset_visited(g: &mut Grid)
    ensures
        final(g).width == old(g).width,
        final(g).height == old(g).height,
        final(g).cells@.len() == old(g).cells@.len(),
        forall|i: int|
            0 <= i < old(g).cells@.len() ==> (#[trigger] final(g).cells@[i]) == (Cell {
                id: old(g).cells@[i].id,
                visited: false,
            }),
{
    let m = g.cells.len();
    let mut i: usize = 0;
    while i < m
        invariant
            i <= m,
            m == g.cells@.len(),
            g.cells@.len() == old(g).cells@.len(),
            g.width == old(g).width,
            g.height == old(g).height,
            forall|j: int|
                0 <= j < i ==> (#[trigger] g.cells@[j]) == (Cell {
                    id: old(g).cells@[j].id,
                    visited: false,
                }),
            forall|j: int| i <= j < m ==> (#[trigger] g.cells@[j]) == old(g).cells@[j],
        decreases m - i,
    {
        let c = g.cells[i];
        g.cells.set(i, Cell { id: c.id, visited: false });
        i = i + 1;
    }
}

/// Scan state after visiting every cell strictly before column `x` of row
/// `y`, in row-major order.
spec fn scan_inv(g: Grid, ts: TileSet, best: Option<Pos>, bcount: usize, x: int, y: int) -> bool {
    match best {
        None => forall|qx: int, qy: int|
            #![trigger g.id_at(qx, qy)]
            g.spec_in_bounds(qx, qy) && (qy < y || (qy == y && qx < x)) ==> g.id_at(qx, qy) != 0,
        Some(p) => {
            &&& g.spec_in_bounds(p.x as int, p.y as int)
            &&& ((p.y as int) < y || ((p.y as int) == y && (p.x as int) < x))
            &&& g.id_at(p.x as int, p.y as int) == 0
            &&& bcount as nat == poss_count(g, ts, p.x as int, p.y as int)
            &&& forall|qx: int, qy: int|
                #![trigger poss_count(g, ts, qx, qy)]
                g.spec_in_bounds(qx, qy) && (qy < y || (qy == y && qx < x)) && g.id_at(qx, qy)
                    == 0 ==> poss_count(g, ts, qx, qy) >= bcount as nat
            &&& forall|qx: int, qy: int|
                #![trigger poss_count(g, ts, qx, qy)]
                g.spec_in_bounds(qx, qy) && (qy < p.y as int || (qy == p.y as int && qx
                    < p.x as int)) && g.id_at(qx, qy) == 0 ==> poss_count(g, ts, qx, qy)
                    > bcount as nat
        },
    }
}

/// Row-major rescan for the next seed: the first unresolved cell attaining
/// the minimum number of admissible tiles (strictly-less comparison, so
/// the earlier cell wins every tie), or `None` when each cell is resolved.
pub fn find_most_constrained(g: &Grid, ts: &TileSet) -> (r: Option<Pos>)
    requires
        g.wf(ts.spec_tile_count()),
        ts.wf(),
    ensures
        match r {
            None => forall|x: int, y: int|
                #![trigger g.id_at(x, y)]
                g.spec_in_bounds(x, y) ==> g.id_at(x, y) != 0,
            Some(p) => {
                &&& g.spec_in_bounds(p.x as int, p.y as int)
                &&& g.id_at(p.x as int, p.y as int) == 0
                &&& forall|x: int, y: int|
                    #![trigger poss_count(*g, *ts, x, y)]
                    g.spec_in_bounds(x, y) && g.id_at(x, y) == 0 ==> poss_count(*g, *ts, x, y)
                        >= poss_count(*g, *ts, p.x as int, p.y as int)
                &&& forall|x: int, y: int|
                    #![trigger poss_count(*g, *ts, x, y)]
                    g.spec_in_bounds(x, y) && (y < p.y as int || (y == p.y as int && x
                        < p.x as int)) && g.id_at(x, y) == 0 ==> poss_count(*g, *ts, x, y)
                        > poss_count(*g, *ts, p.x as int, p.y as int)
            },
        },
{
    let mut best: Option<Pos> = None;
    let mut bcount: usize = 0;
    let mut y: usize = 0;
    while y < g.height
        invariant
            y <= g.height,
            g.wf(ts.spec_tile_count()),
            ts.wf(),
            scan_inv(*g, *ts, best, bcount, 0, y as int),
        decreases g.height - y,
    {
        let mut x: usize = 0;
        while x < g.width
            invariant
                x <= g.width,
                y < g.height,
                g.wf(ts.spec_tile_count()),
                ts.wf(),
                scan_inv(*g, *ts, best, bcount, x as int, y as int),
            decreases g.width - x,
        {
            let pos = Pos { x: x as i32, y: y as i32 };
            let i = g.index_of(&pos);
            if g.cells[i].id == 0 {
                let poss = get_possibilities(g, ts, &pos);
                let cnt = poss.len();
                let better = match best {
                    None => true,
                    Some(_) => cnt < bcount,
                };
                if better {
                    best = Some(pos);
                    bcount = cnt;
                }
            }
            x = x + 1;
        }
        y = y + 1;
    }
    best
}

/// No tile is allowed beside the sentinel (the last tile), which the
/// generation loop always seeds first: any grid with at least two cells is
/// then unsatisfiable for the partial assignment the seed creates.
pub open spec fn sentinel_rejected(ts: TileSet) -> bool {
    forall|t: int|
        1 <= t <= ts.spec_tile_count() ==> !#[trigger] spec_compat(ts, t, ts.spec_tile_count())
}

/// `generate` with the draw sequence fixed by `seed`: every random choice
/// comes from a generator seeded with it, so rebuilding the same grid with
/// the same tile set and seed repeats the same draws.
pub fn generate_with_seed(g: &mut Grid, ts: &TileSet, seed: u64) -> (r: Result<(), GenError>)
    requires
        old(g).wf(ts.spec_tile_count()),
        ts.wf(),
        forall|i: int|
            0 <= i < old(g).cells@.len() ==> (#[trigger] old(g).cells@[i]) == (Cell {
                id: 0,
                visited: false,
            }),
    ensures
        final(g).wf(ts.spec_tile_count()),
        final(g).width == old(g).width,
        final(g).height == old(g).height,
        final(g).cells@.len() == old(g).cells@.len(),
        r is Err ==> r == Err::<(), GenError>(GenError::TileSetError),
        r is Ok ==> forall|i: int|
            0 <= i < final(g).cells@.len() ==> 1 <= (#[trigger] final(g).cells@[i]).id
                && final(g).cells@[i].id as int <= ts.spec_tile_count(),
        r is Ok ==> pairwise_ok(*final(g), *ts),
        r is Ok ==> forall|i: int|
            0 <= i < final(g).cells@.len() ==> !(#[trigger] final(g).cells@[i]).visited,
        (old(g).width == 1 && old(g).height == 1) ==> r is Ok && final(g).cells@[0].id as int
            == ts.spec_tile_count(),
        (old(g).cells@.len() >= 2 && sentinel_rejected(*ts)) ==> r is Err,
        has_universal_tile(*ts) ==> r is Ok,
{
    let mut rng = rng_from_seed(seed);
    generate(g, ts, &mut rng)
}

/// Fills the grid. A uniformly random cell is forced to the sentinel tile
/// (the last-configured one); then, until no unresolved cell remains, a
/// hard propagation runs from the current seed, the transient marks are
/// cleared, and the unresolved cell with the fewest admissible tiles
/// (row-major first on ties) becomes the next seed.
pub fn generate(g: &mut Grid, ts: &TileSet, rng: &mut rand::rngs::StdRng) -> (r: Result<
    (),
    GenError,
>)
    requires
        old(g).wf(ts.spec_tile_count()),
        ts.wf(),
        forall|i: int|
            0 <= i < old(g).cells@.len() ==> (#[trigger] old(g).cells@[i]) == (Cell {
                id: 0,
                visited: false,
            }),
    ensures
        final(g).wf(ts.spec_tile_count()),
        final(g).width == old(g).width,
        final(g).height == old(g).height,
        final(g).cells@.len() == old(g).cells@.len(),
        r is Err ==> r == Err::<(), GenError>(GenError::TileSetError),
        // completion: a successful run leaves every cell resolved
        r is Ok ==> forall|i: int|
            0 <= i < final(g).cells@.len() ==> 1 <= (#[trigger] final(g).cells@[i]).id
                && final(g).cells@[i].id as int <= ts.spec_tile_count(),
        // every resolved pair of neighbours is compatible at least one way
        r is Ok ==> pairwise_ok(*final(g), *ts),
        // the transient marks are all clear again on success
        r is Ok ==> forall|i: int|
            0 <= i < final(g).cells@.len() ==> !(#[trigger] final(g).cells@[i]).visited,
        // a single-cell grid is forced to the sentinel tile and succeeds
        (old(g).width == 1 && old(g).height == 1) ==> r is Ok && final(g).cells@[0].id as int
            == ts.spec_tile_count(),
        // a tile set rejecting its own sentinel is a detected contradiction
        (old(g).cells@.len() >= 2 && sentinel_rejected(*ts)) ==> r is Err,
        // one with a universally accepted tile always succeeds
        has_universal_tile(*ts) ==> r is Ok,
{
    let n = ts.tile_count();
    let sx = random_below(rng, g.width);
    let sy = random_below(rng, g.height);
    let mut prop_pos = Pos { x: sx as i32, y: sy as i32 };
    proof {
        // an all-unresolved grid is trivially pairwise compatible, and the
        // sentinel is admissible where nothing is resolved
        assert forall|x: int, y: int, d: int| 0 <= d < 4 implies #[trigger] ok_pair(
            *g,
            *ts,
            x,
            y,
            d,
        ) by {
            if g.spec_in_bounds(x, y) {
                lemma_index_in_range(*g, x, y);
            }
        }
        assert forall|d: int| 0 <= d < 4 implies #[trigger] nb_ok(
            *g,
            *ts,
            prop_pos.x as int,
            prop_pos.y as int,
            n as int,
            d,
        ) by {
            let nx = prop_pos.x as int + offset_dx(d);
            let ny = prop_pos.y as int + offset_dy(d);
            if g.spec_in_bounds(nx, ny) {
                lemma_index_in_range(*g, nx, ny);
            }
        }
        lemma_index_in_range(*g, prop_pos.x as int, prop_pos.y as int);
    }
    assign_tile(g, ts, &prop_pos, n);
    proof {
        // with a second cell present, the seeded sentinel has an in-bounds
        // unresolved neighbour
        if g.cells@.len() >= 2 {
            let px = prop_pos.x as int;
            let py = prop_pos.y as int;
            let w = g.width as int;
            let h = g.height as int;
            assert(w >= 2 || h >= 2) by (nonlinear_arith)
                requires
                    1 <= w,
                    1 <= h,
                    w * h >= 2,
            ;
            let d: int = if w >= 2 {
                if px + 1 < w {
                    1int
                } else {
                    3int
                }
            } else {
                if py + 1 < h {
                    2int
                } else {
                    0int
                }
            };
            let qx = px + offset_dx(d);
            let qy = py + offset_dy(d);
            assert(g.spec_in_bounds(qx, qy));
            lemma_index_in_range(*old(g), qx, qy);
            if old(g).spec_index_of(qx, qy) == old(g).spec_index_of(px, py) {
                lemma_index_injective(*old(g), qx, qy, px, py);
            }
            assert(old(g).cells@[old(g).spec_index_of(qx, qy)].id == 0);
            assert(g.id_at(qx, qy) == 0);
            assert(0 <= d < 4 && g.spec_in_bounds(px + offset_dx(d), py + offset_dy(d))
                && g.id_at(px + offset_dx(d), py + offset_dy(d)) == 0);
        }
    }
    loop
        invariant
            ts.wf(),
            n as int == ts.spec_tile_count(),
            g.wf(n as int),
            g.width == old(g).width,
            g.height == old(g).height,
            g.cells@.len() == old(g).cells@.len(),
            pairwise_ok(*g, *ts),
            g.spec_in_bounds(prop_pos.x as int, prop_pos.y as int),
            // the seed is resolved (first pass) or an unmarked unresolved cell
            g.cells@[g.spec_index_of(prop_pos.x as int, prop_pos.y as int)].id != 0 || !g.cells@[
                g.spec_index_of(prop_pos.x as int, prop_pos.y as int)
            ].visited,
            // a single-cell grid keeps its sentinel
            (old(g).width == 1 && old(g).height == 1) ==> g.cells@[0].id as int == n as int,
            // the contradiction invariant: the sentinel still has an
            // unresolved neighbour, or the seed already has no admissible tile
            (old(g).cells@.len() >= 2 && sentinel_rejected(*ts)) ==> ((g.id_at(
                prop_pos.x as int,
                prop_pos.y as int,
            ) == n as int && (exists|d: int|
                0 <= d < 4 && g.spec_in_bounds(
                    prop_pos.x as int + offset_dx(d),
                    prop_pos.y as int + offset_dy(d),
                ) && g.id_at(
                    prop_pos.x as int + offset_dx(d),
                    prop_pos.y as int + offset_dy(d),
                ) == 0)) || (g.id_at(prop_pos.x as int, prop_pos.y as int) == 0 && poss_count(
                *g,
                *ts,
                prop_pos.x as int,
                prop_pos.y as int,
            ) == 0)),
        decreases 2 * count_unresolved(g.cells@) + (if g.cells@[g.spec_index_of(
            prop_pos.x as int,
            prop_pos.y as int,
        )].id != 0 {
            1int
        } else {
            0int
        }),
    {
        let ghost gpre = *g;
        let res = propagate(g, ts, &prop_pos, true, rng);
        match res {
            Err(e) => {
                proof {
                    // a single-cell grid cannot fail: its seed is resolved,
                    // so propagation leaves it alone and succeeds
                    if old(g).width == 1 && old(g).height == 1 {
                        assert(prop_pos.x as int == 0 && prop_pos.y as int == 0);
                        assert(gpre.spec_index_of(0, 0) == 0);
                        assert(gpre.lookup_id(0, 0) != 0);
                        assert(false);
                    }
                }
                return Err(e);
            },
            Ok(u) => {
                proof {
                    assert(u == ());
                }
            },
        }
        let ghost gmid = *g;
        reset_visited(g);
        proof {
            lemma_count_unresolved_same_ids(gmid.cells@, g.cells@);
            assert forall|i: int|
                0 <= i < g.cells@.len() implies (#[trigger] g.cells@[i]).id as int
                <= n as int by {
                assert(g.cells@[i].id == gmid.cells@[i].id);
            }
            lemma_same_ids_pairwise(gmid, *g, *ts);
        }
        let next = find_most_constrained(&*g, ts);
        proof {
            // under the contradiction hypothesis the sentinel's unresolved
            // neighbour is still unresolved and admits nothing
            if old(g).cells@.len() >= 2 && sentinel_rejected(*ts) {
                let px = prop_pos.x as int;
                let py = prop_pos.y as int;
                if gpre.id_at(px, py) == 0 {
                    // propagation from a seed with no admissible tile fails
                    assert(res is Err);
                    assert(false);
                }
                // the seed was resolved, so propagation left the grid alone
                assert(gpre.lookup_id(px, py) != 0);
                assert(gmid.cells@ == gpre.cells@);
                let d = choose|d: int|
                    0 <= d < 4 && gpre.spec_in_bounds(px + offset_dx(d), py + offset_dy(d))
                        && gpre.id_at(px + offset_dx(d), py + offset_dy(d)) == 0;
                let qx = px + offset_dx(d);
                let qy = py + offset_dy(d);
                lemma_index_in_range(gpre, qx, qy);
                lemma_index_in_range(gpre, px, py);
                assert(g.id_at(qx, qy) == 0);
                assert(g.id_at(px, py) == n as int);
                // seen from the neighbour, the sentinel sits opposite
                let dop: int = if d == 0 {
                    2
                } else if d == 1 {
                    3
                } else if d == 2 {
                    0
                } else {
                    1
                };
                assert(offset_dx(dop) == -offset_dx(d) && offset_dy(dop) == -offset_dy(d));
                assert(nb_id(*g, qx, qy, dop) == n as int);
                assert forall|t: int| 1 <= t <= n as int implies !admissible(
                    *g,
                    *ts,
                    qx,
                    qy,
                    t,
                ) by {
                    if admissible(*g, *ts, qx, qy, t) {
                        assert(nb_ok(*g, *ts, qx, qy, t, dop));
                        assert(spec_compat(*ts, t, ts.spec_tile_count()));
                    }
                }
                lemma_count_adm_zero(*g, *ts, qx, qy, n as nat);
                assert(poss_count(*g, *ts, qx, qy) == 0);
            }
        }
        match next {
            None => {
                proof {
                    assert forall|i: int|
                        0 <= i < g.cells@.len() implies 1 <= (#[trigger] g.cells@[i]).id
                        && g.cells@[i].id as int <= n as int by {
                        lemma_coords_of_index(*g, i);
                        let w = g.width as int;
                        assert(g.id_at(i % w, i / w) != 0);
                    }
                    assert forall|i: int|
                        0 <= i < g.cells@.len() implies !(#[trigger] g.cells@[i]).visited by {
                        assert(g.cells@[i] == (Cell { id: gmid.cells@[i].id, visited: false }));
                    }
                    // the sentinel of a single-cell grid persists
                    if old(g).width == 1 && old(g).height == 1 {
                        assert(gpre.cells@.len() == 1int) by (nonlinear_arith)
                            requires
                                gpre.cells@.len() == gpre.width * gpre.height,
                                gpre.width == 1,
                                gpre.height == 1,
                        ;
                        assert(gpre.cells@[0].id as int == n as int);
                        assert(gmid.cells@[0].id == gpre.cells@[0].id);
                        assert(g.cells@[0] == (Cell { id: gmid.cells@[0].id, visited: false }));
                    }
                }
                return Ok(());
            },
            Some(p) => {
                proof {
                    lemma_index_in_range(*g, p.x as int, p.y as int);
                    // the sentinel of a single-cell grid persists
                    if old(g).width == 1 && old(g).height == 1 {
                        assert(gmid.cells@[0].id == gpre.cells@[0].id);
                    }
                    // for the termination measure: a resolved seed was left
                    // alone, an unresolved one got resolved
                    let sidx = gpre.spec_index_of(prop_pos.x as int, prop_pos.y as int);
                    lemma_index_in_range(gpre, prop_pos.x as int, prop_pos.y as int);
                    if gpre.cells@[sidx].id != 0 {
                        assert(gpre.lookup_id(prop_pos.x as int, prop_pos.y as int) != 0);
                        assert(gmid.cells@ == gpre.cells@);
                        lemma_count_unresolved_same_ids(gpre.cells@, g.cells@);
                    } else {
                        assert(count_unresolved(gmid.cells@) < count_unresolved(gpre.cells@));
                    }
                }
                prop_pos = p;
            },
        }
    }
}

} // verus!
