use crate::errors::GenError;
use crate::grid::add_pos;
use crate::grid::check_bounds;
use crate::grid::count_unresolved;
use crate::grid::count_unvisited;
use crate::grid::lemma_counts_update;
use crate::grid::lemma_index_in_range;
use crate::grid::lemma_index_injective;
use crate::grid::offset_at;
use crate::grid::offset_dx;
use crate::grid::offset_dy;
use crate::grid::Cell;
use crate::grid::Grid;
use crate::grid::Pos;
use crate::possibility::admissible;
use crate::possibility::get_possibilities;
use crate::possibility::lemma_count_adm_positive;
use crate::possibility::lemma_same_ids_admissible;
use crate::possibility::lemma_same_ids_count;
use crate::possibility::lemma_universal_admissible;
use crate::possibility::nb_id;
use crate::possibility::nb_ok;
use crate::possibility::poss_count;
use crate::rng::pick_from;
use crate::tiles::has_universal_tile;
use crate::tiles::spec_compat;
use crate::tiles::symmetric;
use crate::tiles::universal_tile;
use crate::tiles::TileSet;
use vstd::prelude::*;

verus! {

/// One resolved pair of orthogonal neighbours is compatible in at least one
/// direction. This is the guarantee propagation maintains: whichever cell
/// of the pair was assigned later had the other as a resolved neighbour and
/// so accepted it from its own rule row.
pub open spec fn ok_pair(g: Grid, ts: TileSet, x: int, y: int, d: int) -> bool {
    (g.spec_in_bounds(x, y) && g.id_at(x, y) != 0 && nb_id(g, x, y, d) != 0) ==> (spec_compat(
        ts,
        g.id_at(x, y),
        nb_id(g, x, y, d),
    ) || spec_compat(ts, nb_id(g, x, y, d), g.id_at(x, y)))
}

/// Every resolved pair of orthogonal neighbours is compatible in at least
/// one direction.
pub open spec fn pairwise_ok(g: Grid, ts: TileSet) -> bool {
    forall|x: int, y: int, d: int| 0 <= d < 4 ==> #[trigger] ok_pair(g, ts, x, y, d)
}

/// The full directional adjacency statement for one cell and direction:
/// the cell's own rule row accepts its resolved in-bounds neighbour.
pub open spec fn cell_dir_ok(g: Grid, ts: TileSet, x: int, y: int, d: int) -> bool {
    (g.spec_in_bounds(x, y) && g.id_at(x, y) != 0 && nb_id(g, x, y, d) != 0) ==> spec_compat(
        ts,
        g.id_at(x, y),
        nb_id(g, x, y, d),
    )
}

/// Every resolved cell accepts each of its resolved in-bounds neighbours
/// from its own side.
pub open spec fn adjacency_ok(g: Grid, ts: TileSet) -> bool {
    forall|x: int, y: int, d: int| 0 <= d < 4 ==> #[trigger] cell_dir_ok(g, ts, x, y, d)
}

/// Law: over a symmetric tile set the one-sided acceptances that
/// propagation establishes amount to the full adjacency invariant — every
/// resolved cell accepts each of its resolved in-bounds neighbours from its
/// own rule row. (Over an asymmetric tile set only the one-sided form
/// holds: the cell of a pair that was assigned later accepted the earlier
/// one, and nothing checked the converse.)
pub proof fn lemma_adjacency_symmetric(g: Grid, ts: TileSet)
    requires
        symmetric(ts),
        pairwise_ok(g, ts),
    ensures
        adjacency_ok(g, ts),
{
    assert forall|x: int, y: int, d: int| 0 <= d < 4 implies #[trigger] cell_dir_ok(
        g,
        ts,
        x,
        y,
        d,
    ) by {
        assert(ok_pair(g, ts, x, y, d));
    }
}

/// Pairwise compatibility reads only ids: grids that agree on ids and
/// dimensions agree on it.
pub proof fn lemma_same_ids_pairwise(g1: Grid, g2: Grid, ts: TileSet)
    requires
        g1.dims_ok(),
        g2.width == g1.width,
        g2.height == g1.height,
        g2.cells@.len() == g1.cells@.len(),
        forall|i: int|
            0 <= i < g1.cells@.len() ==> (#[trigger] g2.cells@[i]).id == g1.cells@[i].id,
        pairwise_ok(g1, ts),
    ensures
        pairwise_ok(g2, ts),
{
    assert forall|x: int, y: int| g2.lookup_id(x, y) == g1.lookup_id(x, y) by {
        if g1.spec_in_bounds(x, y) {
            lemma_index_in_range(g1, x, y);
        }
    }
    assert forall|x: int, y: int, d: int| 0 <= d < 4 implies #[trigger] ok_pair(
        g2,
        ts,
        x,
        y,
        d,
    ) by {
        assert(ok_pair(g1, ts, x, y, d));
        assert(nb_id(g2, x, y, d) == nb_id(g1, x, y, d));
        if g2.spec_in_bounds(x, y) {
            assert(g2.id_at(x, y) == g2.lookup_id(x, y));
        }
    }
}

/// Writing an admissible tile into an unresolved cell keeps every resolved
/// pair compatible: the new pairs it creates are exactly the neighbour
/// checks `admissible` just made.
pub proof fn lemma_assign_preserves_pairwise(
    g1: Grid,
    g2: Grid,
    ts: TileSet,
    x: int,
    y: int,
    c: Cell,
)
    requires
        g1.dims_ok(),
        g1.spec_in_bounds(x, y),
        g1.id_at(x, y) == 0,
        admissible(g1, ts, x, y, c.id as int),
        pairwise_ok(g1, ts),
        g2.width == g1.width,
        g2.height == g1.height,
        g2.cells@ == g1.cells@.update(g1.spec_index_of(x, y), c),
    ensures
        pairwise_ok(g2, ts),
{
    let t = c.id as int;
    lemma_index_in_range(g1, x, y);
    assert forall|a: int, b: int| g2.lookup_id(a, b) == (if a == x && b == y {
        t
    } else {
        g1.lookup_id(a, b)
    }) by {
        if g1.spec_in_bounds(a, b) {
            lemma_index_in_range(g1, a, b);
            if !(a == x && b == y) {
                if g1.spec_index_of(a, b) == g1.spec_index_of(x, y) {
                    lemma_index_injective(g1, a, b, x, y);
                }
            }
        }
    }
    assert forall|a: int, b: int, d: int| 0 <= d < 4 implies #[trigger] ok_pair(
        g2,
        ts,
        a,
        b,
        d,
    ) by {
        let na = a + offset_dx(d);
        let nb = b + offset_dy(d);
        if g2.spec_in_bounds(a, b) && g2.id_at(a, b) != 0 && nb_id(g2, a, b, d) != 0 {
            assert(g2.id_at(a, b) == g2.lookup_id(a, b));
            assert(nb_id(g2, a, b, d) == g2.lookup_id(na, nb));
            if a == x && b == y {
                // the assigned cell: `admissible` checked this direction
                assert(!(na == x && nb == y));
                assert(nb_ok(g1, ts, x, y, t, d));
                assert(nb_id(g1, x, y, d) == g1.lookup_id(na, nb));
            } else if na == x && nb == y {
                // the assigned cell seen from a resolved neighbour: the
                // opposite direction of `admissible`'s check
                let dop: int = if d == 0 {
                    2
                } else if d == 1 {
                    3
                } else if d == 2 {
                    0
                } else {
                    1
                };
                assert(offset_dx(dop) == -offset_dx(d) && offset_dy(dop) == -offset_dy(d));
                assert(x + offset_dx(dop) == a && y + offset_dy(dop) == b);
                assert(nb_ok(g1, ts, x, y, t, dop));
                assert(nb_id(g1, x, y, dop) == g1.lookup_id(a, b));
                assert(g1.lookup_id(a, b) == g2.lookup_id(a, b));
                assert(spec_compat(ts, t, g2.id_at(a, b)));
            } else {
                // a pair not touching the assigned cell
                assert(ok_pair(g1, ts, a, b, d));
            }
        }
    }
}

/// Writes tile `t` into the unresolved cell at `pos`, keeping its mark.
pub(crate) fn assign_tile(g: &mut Grid, ts: &TileSet, pos: &Pos, t: usize)
    requires
        old(g).wf(ts.spec_tile_count()),
        ts.wf(),
        old(g).spec_in_bounds(pos.x as int, pos.y as int),
        old(g).id_at(pos.x as int, pos.y as int) == 0,
        admissible(*old(g), *ts, pos.x as int, pos.y as int, t as int),
    ensures
        final(g).wf(ts.spec_tile_count()),
        final(g).width == old(g).width,
        final(g).height == old(g).height,
        final(g).cells@ == old(g).cells@.update(
            old(g).spec_index_of(pos.x as int, pos.y as int),
            (Cell {
                id: t,
                visited: old(g).cells@[old(g).spec_index_of(pos.x as int, pos.y as int)].visited,
            }),
        ),
        pairwise_ok(*old(g), *ts) ==> pairwise_ok(*final(g), *ts),
        count_unresolved(final(g).cells@) as int == count_unresolved(old(g).cells@) as int - 1,
        count_unvisited(final(g).cells@) == count_unvisited(old(g).cells@),
{
    let i = g.index_of(pos);
    let c = g.cells[i];
    let newc = Cell { id: t, visited: c.visited };
    g.cells.set(i, newc);
    proof {
        lemma_counts_update(old(g).cells@, i as int, newc);
        assert forall|j: int| 0 <= j < g.cells@.len() implies (#[trigger] g.cells@[j]).id as int
            <= ts.spec_tile_count() by {
            if j != i as int {
                assert(g.cells@[j] == old(g).cells@[j]);
            }
        }
        if pairwise_ok(*old(g), *ts) {
            lemma_assign_preserves_pairwise(
                *old(g),
                *g,
                *ts,
                pos.x as int,
                pos.y as int,
                newc,
            );
        }
    }
}

/// Resolves cells outward from `pos` in a depth-first flood, using an
/// explicit worklist in place of unbounded recursion (same exploration
/// order: up, right, down, left from each processed position).
///
/// A resolved, out-of-bounds or already-visited position is left alone.
/// Otherwise the position is marked visited and its admissible tiles are
/// computed: none is a fatal `TileSetError`; exactly one is assigned
/// unconditionally; several are assigned a uniformly random pick only at
/// the seed of a `hard` call. Neighbours are then flooded in soft mode, so
/// one hard seed cascades forced single-possibility resolutions outward.
pub fn propagate(
    g: &mut Grid,
    ts: &TileSet,
    pos: &Pos,
    hard: bool,
    rng: &mut rand::rngs::StdRng,
) -> (r: Result<(), GenError>)
    requires
        old(g).wf(ts.spec_tile_count()),
        ts.wf(),
    ensures
        final(g).wf(ts.spec_tile_count()),
        final(g).width == old(g).width,
        final(g).height == old(g).height,
        final(g).cells@.len() == old(g).cells@.len(),
        forall|i: int|
            0 <= i < old(g).cells@.len() && (#[trigger] old(g).cells@[i]).id != 0
                ==> final(g).cells@[i].id == old(g).cells@[i].id,
        forall|i: int|
            0 <= i < old(g).cells@.len() && (#[trigger] old(g).cells@[i]).visited
                ==> final(g).cells@[i].visited,
        count_unresolved(final(g).cells@) <= count_unresolved(old(g).cells@),
        pairwise_ok(*old(g), *ts) ==> pairwise_ok(*final(g), *ts),
        r is Err ==> r == Err::<(), GenError>(GenError::TileSetError),
        // a tile set with a universally accepted tile never runs dry
        has_universal_tile(*ts) ==> r is Ok,
        // a hard call on an unvisited seed leaves that cell resolved, or fails
        (r is Ok && hard && old(g).spec_in_bounds(pos.x as int, pos.y as int)
            && !old(g).cells@[old(g).spec_index_of(pos.x as int, pos.y as int)].visited)
            ==> final(g).cells@[old(g).spec_index_of(pos.x as int, pos.y as int)].id != 0,
        // and if that seed was unresolved, strictly fewer cells stay unresolved
        (r is Ok && hard && old(g).spec_in_bounds(pos.x as int, pos.y as int)
            && old(g).id_at(pos.x as int, pos.y as int) == 0
            && !old(g).cells@[old(g).spec_index_of(pos.x as int, pos.y as int)].visited)
            ==> count_unresolved(final(g).cells@) < count_unresolved(old(g).cells@),
        // an unvisited unresolved seed with no admissible tile is a
        // contradiction, and that cell itself is never written
        (old(g).spec_in_bounds(pos.x as int, pos.y as int)
            && old(g).id_at(pos.x as int, pos.y as int) == 0
            && !old(g).cells@[old(g).spec_index_of(pos.x as int, pos.y as int)].visited
            && poss_count(*old(g), *ts, pos.x as int, pos.y as int) == 0)
            ==> r is Err && final(g).cells@[old(g).spec_index_of(
            pos.x as int,
            pos.y as int,
        )].id == 0,
        // a resolved or out-of-bounds seed leaves the grid untouched
        (!old(g).spec_in_bounds(pos.x as int, pos.y as int)
            || old(g).lookup_id(pos.x as int, pos.y as int) != 0)
            ==> r is Ok && final(g).cells@ == old(g).cells@,
        // so does an unresolved seed whose mark is already set
        (old(g).spec_in_bounds(pos.x as int, pos.y as int)
            && old(g).id_at(pos.x as int, pos.y as int) == 0
            && old(g).cells@[old(g).spec_index_of(pos.x as int, pos.y as int)].visited)
            ==> r is Ok && final(g).cells@ == old(g).cells@,
        // whatever resolves a fresh seed is one of its admissible tiles
        (r is Ok && old(g).spec_in_bounds(pos.x as int, pos.y as int)
            && old(g).id_at(pos.x as int, pos.y as int) == 0
            && !old(g).cells@[old(g).spec_index_of(pos.x as int, pos.y as int)].visited
            && final(g).cells@[old(g).spec_index_of(pos.x as int, pos.y as int)].id != 0)
            ==> admissible(
                *old(g),
                *ts,
                pos.x as int,
                pos.y as int,
                final(g).cells@[old(g).spec_index_of(pos.x as int, pos.y as int)].id as int,
            ),
        // a lone admissible tile is assigned whether or not the call is hard
        (r is Ok && old(g).spec_in_bounds(pos.x as int, pos.y as int)
            && old(g).id_at(pos.x as int, pos.y as int) == 0
            && !old(g).cells@[old(g).spec_index_of(pos.x as int, pos.y as int)].visited
            && poss_count(*old(g), *ts, pos.x as int, pos.y as int) == 1)
            ==> final(g).cells@[old(g).spec_index_of(pos.x as int, pos.y as int)].id != 0,
        // a soft call does not commit an ambiguous seed
        (r is Ok && !hard && old(g).spec_in_bounds(pos.x as int, pos.y as int)
            && old(g).id_at(pos.x as int, pos.y as int) == 0
            && !old(g).cells@[old(g).spec_index_of(pos.x as int, pos.y as int)].visited
            && poss_count(*old(g), *ts, pos.x as int, pos.y as int) >= 2)
            ==> final(g).cells@[old(g).spec_index_of(pos.x as int, pos.y as int)].id == 0,
{
    let n = ts.tile_count();
    if g.get_id(pos) != 0 {
        return Ok(());
    }
    if !check_bounds(pos, g.width, g.height) {
        return Ok(());
    }
    let si = g.index_of(pos);
    if g.cells[si].visited {
        return Ok(());
    }
    // mark the seed visited
    let c0 = g.cells[si];
    let m0 = Cell { id: c0.id, visited: true };
    g.cells.set(si, m0);
    proof {
        lemma_counts_update(old(g).cells@, si as int, m0);
        lemma_same_ids_count(*old(g), *g, *ts, pos.x as int, pos.y as int, n as nat);
        if pairwise_ok(*old(g), *ts) {
            lemma_same_ids_pairwise(*old(g), *g, *ts);
        }
    }
    let ghost gm = *g;
    let poss = get_possibilities(&*g, ts, pos);
    if poss.len() == 0 {
        proof {
            if has_universal_tile(*ts) {
                let tu = choose|t: int| universal_tile(*ts, t);
                lemma_universal_admissible(*g, *ts, pos.x as int, pos.y as int, tu);
                lemma_count_adm_positive(*g, *ts, pos.x as int, pos.y as int, n as nat, tu);
            }
        }
        return Err(GenError::TileSetError);
    }
    if poss.len() == 1 {
        let t = poss[0];
        assign_tile(g, ts, pos, t);
        proof {
            assert(admissible(gm, *ts, pos.x as int, pos.y as int, t as int));
        }
    } else if hard {
        let t = pick_from(rng, &poss);
        proof {
            let j = choose|j: int| 0 <= j < poss@.len() && poss@[j] == t;
            assert(admissible(gm, *ts, pos.x as int, pos.y as int, poss@[j] as int));
        }
        assign_tile(g, ts, pos, t);
    }
    let ghost sidx = old(g).spec_index_of(pos.x as int, pos.y as int);
    let ghost sc = g.cells@[sidx];
    proof {
        lemma_index_in_range(*old(g), pos.x as int, pos.y as int);
        lemma_same_ids_admissible(*old(g), gm, *ts);
        assert(sc.visited);
        if sc.id != 0 {
            assert(admissible(*old(g), *ts, pos.x as int, pos.y as int, sc.id as int));
        }
        if hard || poss@.len() == 1 {
            assert(sc.id != 0);
        }
        if !hard && poss@.len() >= 2 {
            assert(sc.id == 0);
        }
    }
    let mut stack: Vec<Pos> = Vec::new();
    stack.push(add_pos(pos, &offset_at(3)));
    stack.push(add_pos(pos, &offset_at(2)));
    stack.push(add_pos(pos, &offset_at(1)));
    stack.push(add_pos(pos, &offset_at(0)));
    while stack.len() != 0
        invariant
            ts.wf(),
            n as int == ts.spec_tile_count(),
            g.wf(n as int),
            g.width == old(g).width,
            g.height == old(g).height,
            g.cells@.len() == old(g).cells@.len(),
            forall|i: int|
                0 <= i < old(g).cells@.len() && (#[trigger] old(g).cells@[i]).id != 0
                    ==> g.cells@[i].id == old(g).cells@[i].id,
            forall|i: int|
                0 <= i < old(g).cells@.len() && (#[trigger] old(g).cells@[i]).visited
                    ==> g.cells@[i].visited,
            pairwise_ok(*old(g), *ts) ==> pairwise_ok(*g, *ts),
            count_unresolved(g.cells@) <= count_unresolved(old(g).cells@),
            old(g).spec_in_bounds(pos.x as int, pos.y as int),
            old(g).lookup_id(pos.x as int, pos.y as int) == 0,
            !old(g).cells@[old(g).spec_index_of(pos.x as int, pos.y as int)].visited,
            sidx == old(g).spec_index_of(pos.x as int, pos.y as int),
            0 <= sidx < g.cells@.len(),
            g.cells@[sidx] == sc,
            sc.visited,
            sc.id != 0 ==> admissible(*old(g), *ts, pos.x as int, pos.y as int, sc.id as int),
            (hard || poss@.len() == 1) ==> sc.id != 0,
            (!hard && poss@.len() >= 2) ==> sc.id == 0,
            poss@.len() == poss_count(*old(g), *ts, pos.x as int, pos.y as int),
            1 <= poss@.len(),
            hard ==> count_unresolved(g.cells@) < count_unresolved(old(g).cells@),
        decreases 4 * count_unvisited(g.cells@) + stack@.len(),
    {
        let popped = stack.pop();
        let p = popped.unwrap();
        if g.get_id(&p) != 0 {
            continue;
        }
        if !check_bounds(&p, g.width, g.height) {
            continue;
        }
        let i = g.index_of(&p);
        if g.cells[i].visited {
            continue;
        }
        let ghost gpre = *g;
        let c = g.cells[i];
        let m = Cell { id: c.id, visited: true };
        g.cells.set(i, m);
        proof {
            lemma_counts_update(gpre.cells@, i as int, m);
            if pairwise_ok(gpre, *ts) {
                lemma_same_ids_pairwise(gpre, *g, *ts);
            }
            // the popped cell was unmarked, so it is not the seed
            lemma_index_in_range(*g, pos.x as int, pos.y as int);
            assert(i as int != sidx);
        }
        let poss = get_possibilities(&*g, ts, &p);
        if poss.len() == 0 {
            proof {
                if has_universal_tile(*ts) {
                    let tu = choose|t: int| universal_tile(*ts, t);
                    lemma_universal_admissible(*g, *ts, p.x as int, p.y as int, tu);
                    lemma_count_adm_positive(*g, *ts, p.x as int, p.y as int, n as nat, tu);
                }
            }
            return Err(GenError::TileSetError);
        }
        if poss.len() == 1 {
            let t = poss[0];
            assign_tile(g, ts, &p, t);
        }
        stack.push(add_pos(&p, &offset_at(3)));
        stack.push(add_pos(&p, &offset_at(2)));
        stack.push(add_pos(&p, &offset_at(1)));
        stack.push(add_pos(&p, &offset_at(0)));
    }
    Ok(())
}

} // verus!
