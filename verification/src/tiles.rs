use vstd::prelude::*;

verus! {

/// A tile set. `rules[t]` is the adjacency row of the tile whose 1-based
/// identifier is `t + 1`; entry `k` of a row is true iff that tile may sit
/// next to the tile whose identifier is `k + 1`. The matrix need not be
/// symmetric: a row speaks only for its own tile's side, and the engine
/// consults only the candidate tile's row, never the neighbour's.
pub struct TileSet {
    pub rules: Vec<Vec<bool>>,
}

impl TileSet {
    /// Number of tiles; valid identifiers are `1..=spec_tile_count()`.
    pub open spec fn spec_tile_count(self) -> int {
        self.rules@.len() as int
    }

    /// At least one tile, and every row holds one entry per tile.
    pub open spec fn wf(self) -> bool {
        &&& 1 <= self.rules@.len()
        &&& forall|t: int|
            0 <= t < self.rules@.len() ==> (#[trigger] self.rules@[t])@.len() == self.rules@.len()
    }

    pub fn tile_count(&self) -> (n: usize)
        ensures
            n as int == self.spec_tile_count(),
    {
        self.rules.len()
    }
}

/// Tile `t` accepts tile `k` beside it (both 1-based identifiers).
pub open spec fn spec_compat(ts: TileSet, t: int, k: int) -> bool {
    &&& 1 <= t <= ts.spec_tile_count()
    &&& 1 <= k <= ts.spec_tile_count()
    &&& ts.rules@[t - 1]@[k - 1]
}

/// Every acceptance goes both ways.
pub open spec fn symmetric(ts: TileSet) -> bool {
    forall|t: int, k: int| #[trigger] spec_compat(ts, t, k) ==> spec_compat(ts, k, t)
}

/// Tile `t`'s row accepts every tile: `t` is admissible anywhere, whatever
/// stands around it.
pub open spec fn universal_tile(ts: TileSet, t: int) -> bool {
    &&& 1 <= t <= ts.spec_tile_count()
    &&& forall|k: int| 1 <= k <= ts.spec_tile_count() ==> #[trigger] spec_compat(ts, t, k)
}

/// Some tile is accepted beside everything; generation over such a tile
/// set can never run out of admissible tiles.
pub open spec fn has_universal_tile(ts: TileSet) -> bool {
    exists|t: int| #[trigger] universal_tile(ts, t)
}

/// Exec counterpart of `spec_compat`.
pub fn compat(ts: &TileSet, t: usize, k: usize) -> (r: bool)
    requires
        ts.wf(),
    ensures
        r <==> spec_compat(*ts, t as int, k as int),
{
    let n = ts.tile_count();
    if t < 1 || k < 1 || t > n || k > n {
        return false;
    }
    ts.rules[t - 1][k - 1]
}

/// The ready-made five-tile set: the last tile is the anchor that the
/// generation loop seeds first.
pub fn standard_tiles() -> (r: TileSet)
    ensures
        r.wf(),
        r.spec_tile_count() == 5,
        r.rules@[0]@ == seq![true, true, true, false, false],
        r.rules@[1]@ == seq![false, false, true, false, false],
        r.rules@[2]@ == seq![false, true, true, true, true],
        r.rules@[3]@ == seq![false, false, true, true, true],
        r.rules@[4]@ == seq![false, false, false, true, false],
{
    let rules: Vec<Vec<bool>> = vec![
        vec![true, true, true, false, false],
        vec![false, false, true, false, false],
        vec![false, true, true, true, true],
        vec![false, false, true, true, true],
        vec![false, false, false, true, false],
    ];
    let r = TileSet { rules };
    proof {
        assert(r.rules@[0]@ =~= seq![true, true, true, false, false]);
        assert(r.rules@[1]@ =~= seq![false, false, true, false, false]);
        assert(r.rules@[2]@ =~= seq![false, true, true, true, true]);
        assert(r.rules@[3]@ =~= seq![false, false, true, true, true]);
        assert(r.rules@[4]@ =~= seq![false, false, false, true, false]);
    }
    r
}

} // verus!
