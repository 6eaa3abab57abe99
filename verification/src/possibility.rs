use crate::grid::add_pos;
use crate::grid::lemma_index_in_range;
use crate::grid::offset_at;
use crate::grid::offset_dx;
use crate::grid::offset_dy;
use crate::grid::Grid;
use crate::grid::Pos;
use crate::tiles::spec_compat;
use crate::tiles::universal_tile;
use crate::tiles::TileSet;
use vstd::prelude::*;

verus! {

/// Tile id seen from `(x, y)` in direction `d`: `0` when that neighbour is
/// out of bounds or unresolved, its tile id otherwise.
pub open spec fn nb_id(g: Grid, x: int, y: int, d: int) -> int {
    g.lookup_id(x + offset_dx(d), y + offset_dy(d))
}

/// The neighbour in direction `d` places no objection to tile `t` standing
/// at `(x, y)`: it is unconstrained, or `t`'s own rule row accepts it.
pub open spec fn nb_ok(g: Grid, ts: TileSet, x: int, y: int, t: int, d: int) -> bool {
    nb_id(g, x, y, d) == 0 || spec_compat(ts, t, nb_id(g, x, y, d))
}

/// Tile `t` is still admissible at `(x, y)`: no resolved orthogonal
/// neighbour objects. Only `t`'s own rule row is consulted — never the
/// neighbour's — so the relation is one-directional on purpose.
pub open spec fn admissible(g: Grid, ts: TileSet, x: int, y: int, t: int) -> bool {
    &&& 1 <= t <= ts.spec_tile_count()
    &&& forall|d: int| 0 <= d < 4 ==> #[trigger] nb_ok(g, ts, x, y, t, d)
}

/// Number of admissible tile identifiers in `1..=t` at `(x, y)`.
pub open spec fn count_adm(g: Grid, ts: TileSet, x: int, y: int, t: nat) -> nat
    decreases t,
{
    if t == 0 {
        0
    } else {
        count_adm(g, ts, x, y, (t - 1) as nat) + (if admissible(g, ts, x, y, t as int) {
            1nat
        } else {
            0nat
        })
    }
}

/// Number of admissible tiles at `(x, y)`.
pub open spec fn poss_count(g: Grid, ts: TileSet, x: int, y: int) -> nat {
    count_adm(g, ts, x, y, ts.spec_tile_count() as nat)
}

/// Admissibility reads only the grid's ids and dimensions, never the
/// `visited` marks: grids equal up to marks admit the same tiles.
pub proof fn lemma_same_ids_admissible(g1: Grid, g2: Grid, ts: TileSet)
    requires
        g1.dims_ok(),
        g2.width == g1.width,
        g2.height == g1.height,
        g2.cells@.len() == g1.cells@.len(),
        forall|i: int|
            0 <= i < g1.cells@.len() ==> (#[trigger] g2.cells@[i]).id == g1.cells@[i].id,
    ensures
        forall|x: int, y: int, t: int|
            #![trigger admissible(g1, ts, x, y, t)]
            #![trigger admissible(g2, ts, x, y, t)]
            admissible(g1, ts, x, y, t) <==> admissible(g2, ts, x, y, t),
{
    assert forall|x: int, y: int| g2.lookup_id(x, y) == g1.lookup_id(x, y) by {
        if g1.spec_in_bounds(x, y) {
            lemma_index_in_range(g1, x, y);
        }
    }
    assert forall|x: int, y: int, t: int, d: int|
        nb_ok(g1, ts, x, y, t, d) == nb_ok(g2, ts, x, y, t, d) by {
        assert(nb_id(g2, x, y, d) == nb_id(g1, x, y, d));
    }
}

/// `count_adm` agrees on grids whose ids agree.
pub proof fn lemma_same_ids_count(g1: Grid, g2: Grid, ts: TileSet, x: int, y: int, t: nat)
    requires
        g1.dims_ok(),
        g2.width == g1.width,
        g2.height == g1.height,
        g2.cells@.len() == g1.cells@.len(),
        forall|i: int|
            0 <= i < g1.cells@.len() ==> (#[trigger] g2.cells@[i]).id == g1.cells@[i].id,
    ensures
        count_adm(g1, ts, x, y, t) == count_adm(g2, ts, x, y, t),
    decreases t,
{
    lemma_same_ids_admissible(g1, g2, ts);
    if t > 0 {
        lemma_same_ids_count(g1, g2, ts, x, y, (t - 1) as nat);
    }
}

/// One admissible tile makes the running count positive.
pub proof fn lemma_count_adm_positive(g: Grid, ts: TileSet, x: int, y: int, t: nat, u: int)
    requires
        1 <= u <= t,
        admissible(g, ts, x, y, u),
    ensures
        count_adm(g, ts, x, y, t) >= 1,
    decreases t,
{
    if u < t {
        lemma_count_adm_positive(g, ts, x, y, (t - 1) as nat, u);
    }
}

/// A universal tile is admissible at every in-bounds position of a
/// well-formed grid.
pub proof fn lemma_universal_admissible(g: Grid, ts: TileSet, x: int, y: int, t: int)
    requires
        g.wf(ts.spec_tile_count()),
        universal_tile(ts, t),
    ensures
        admissible(g, ts, x, y, t),
{
    assert forall|d: int| 0 <= d < 4 implies #[trigger] nb_ok(g, ts, x, y, t, d) by {
        let nx = x + offset_dx(d);
        let ny = y + offset_dy(d);
        if g.spec_in_bounds(nx, ny) {
            lemma_index_in_range(g, nx, ny);
        }
    }
}

/// With no admissible tile among `1..=t`, the running count is zero.
pub proof fn lemma_count_adm_zero(g: Grid, ts: TileSet, x: int, y: int, t: nat)
    requires
        forall|u: int| 1 <= u <= t ==> !#[trigger] admissible(g, ts, x, y, u),
    ensures
        count_adm(g, ts, x, y, t) == 0,
    decreases t,
{
    if t > 0 {
        lemma_count_adm_zero(g, ts, x, y, (t - 1) as nat);
    }
}

/// All tile identifiers still admissible at `pos`, in ascending order.
/// Out-of-bounds or unresolved neighbours contribute no restriction; a
/// single objecting neighbour excludes a candidate.
pub fn get_possibilities(g: &Grid, ts: &TileSet, pos: &Pos) -> (r: Vec<usize>)
    requires
        g.wf(ts.spec_tile_count()),
        ts.wf(),
        g.spec_in_bounds(pos.x as int, pos.y as int),
    ensures
        r@.len() == poss_count(*g, *ts, pos.x as int, pos.y as int),
        forall|i: int|
            0 <= i < r@.len() ==> admissible(
                *g,
                *ts,
                pos.x as int,
                pos.y as int,
                #[trigger] r@[i] as int,
            ),
        forall|t: int|
            1 <= t <= ts.spec_tile_count() && #[trigger] admissible(
                *g,
                *ts,
                pos.x as int,
                pos.y as int,
                t,
            ) ==> r@.contains(t as usize),
        forall|i: int, j: int| 0 <= i < j < r@.len() ==> r@[i] < r@[j],
{
    let x = pos.x;
    let y = pos.y;
    let n = ts.tile_count();
    let mut r: Vec<usize> = Vec::new();
    let mut tile: usize = 0;
    while tile < n
        invariant
            tile <= n,
            n as int == ts.spec_tile_count(),
            g.wf(n as int),
            ts.wf(),
            g.spec_in_bounds(x as int, y as int),
            x == pos.x,
            y == pos.y,
            r@.len() == count_adm(*g, *ts, x as int, y as int, tile as nat),
            forall|i: int|
                0 <= i < r@.len() ==> 1 <= #[trigger] r@[i] && r@[i] <= tile && admissible(
                    *g,
                    *ts,
                    x as int,
                    y as int,
                    r@[i] as int,
                ),
            forall|t: int|
                1 <= t <= tile && #[trigger] admissible(*g, *ts, x as int, y as int, t)
                    ==> r@.contains(t as usize),
            forall|i: int, j: int| 0 <= i < j < r@.len() ==> r@[i] < r@[j],
        decreases n - tile,
    {
        let cand = tile + 1;
        let mut ok = true;
        let mut d: usize = 0;
        while d < 4
            invariant
                d <= 4,
                n as int == ts.spec_tile_count(),
                g.wf(n as int),
                ts.wf(),
                g.spec_in_bounds(x as int, y as int),
                x == pos.x,
                y == pos.y,
                1 <= cand && cand as int <= n as int,
                tile < n,
                cand == tile + 1,
                ok <==> forall|e: int|
                    0 <= e < d ==> #[trigger] nb_ok(*g, *ts, x as int, y as int, cand as int, e),
            decreases 4 - d,
        {
            if ok {
                let off = offset_at(d);
                let np = add_pos(pos, &off);
                let k = g.get_id(&np);
                if k != 0 {
                    proof {
                        lemma_index_in_range(
                            *g,
                            x as int + offset_dx(d as int),
                            y as int + offset_dy(d as int),
                        );
                    }
                    if !ts.rules[tile][k - 1] {
                        ok = false;
                        proof {
                            assert(!nb_ok(*g, *ts, x as int, y as int, cand as int, d as int));
                        }
                    }
                }
            }
            d = d + 1;
        }
        if ok {
            let ghost r0 = r@;
            r.push(cand);
            proof {
                assert(admissible(*g, *ts, x as int, y as int, cand as int));
                assert forall|t: int|
                    1 <= t <= cand && #[trigger] admissible(*g, *ts, x as int, y as int, t)
                    implies r@.contains(t as usize) by {
                    if t < cand as int {
                        assert(r0.contains(t as usize));
                        let i = choose|i: int| 0 <= i < r0.len() && r0[i] == t as usize;
                        assert(r@[i] == t as usize);
                    } else {
                        assert(r@[r@.len() - 1] == t as usize);
                    }
                }
            }
        }
        tile = tile + 1;
    }
    r
}

} // verus!
