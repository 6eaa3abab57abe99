use wfc_grid::errors::GenError;
use wfc_grid::generate::find_most_constrained;
use wfc_grid::generate::generate_with_seed;
use wfc_grid::generate::reset_visited;
use wfc_grid::grid::Grid;
use wfc_grid::grid::Pos;
use wfc_grid::possibility::get_possibilities;
use wfc_grid::propagate::propagate;
use wfc_grid::rng::rng_from_seed;
use wfc_grid::tiles::compat;
use wfc_grid::tiles::standard_tiles;
use wfc_grid::tiles::TileSet;

fn all_false_pair() -> TileSet {
    TileSet {
        rules: vec![vec![false, false], vec![false, false]],
    }
}

fn symmetric_trio() -> TileSet {
    TileSet {
        rules: vec![
            vec![true, true, false],
            vec![true, true, true],
            vec![false, true, true],
        ],
    }
}

#[test]
fn standard_tiles_rules() {
    let ts = standard_tiles();
    assert_eq!(ts.rules.len(), 5);
    assert_eq!(ts.rules[0], vec![true, true, true, false, false]);
    assert_eq!(ts.rules[1], vec![false, false, true, false, false]);
    assert_eq!(ts.rules[2], vec![false, true, true, true, true]);
    assert_eq!(ts.rules[3], vec![false, false, true, true, true]);
    assert_eq!(ts.rules[4], vec![false, false, false, true, false]);
}

#[test]
fn zero_dimensions_are_rejected() {
    assert!(matches!(Grid::new(0, 5), Err(GenError::ArgumentError)));
    assert!(matches!(Grid::new(5, 0), Err(GenError::ArgumentError)));
    assert!(matches!(Grid::new(0, 0), Err(GenError::ArgumentError)));
    assert!(Grid::new(4, 3).is_ok());
}

#[test]
fn new_grid_is_unresolved() {
    let g = Grid::new(3, 2).unwrap();
    assert_eq!(g.width, 3);
    assert_eq!(g.height, 2);
    assert_eq!(g.ids(), vec![0, 0, 0, 0, 0, 0]);
}

#[test]
fn minimal_grid_is_forced_to_sentinel() {
    let ts = standard_tiles();
    let mut g = Grid::new(1, 1).unwrap();
    let r = generate_with_seed(&mut g, &ts, 7);
    assert!(r.is_ok());
    assert_eq!(g.ids(), vec![5]);
}

#[test]
fn determinism_same_seed() {
    let ts = standard_tiles();
    let mut a = Grid::new(8, 6).unwrap();
    let mut b = Grid::new(8, 6).unwrap();
    assert!(generate_with_seed(&mut a, &ts, 42).is_ok());
    assert!(generate_with_seed(&mut b, &ts, 42).is_ok());
    assert_eq!(a.ids(), b.ids());
}

#[test]
fn completion_leaves_no_unresolved_cell() {
    let ts = standard_tiles();
    let mut g = Grid::new(12, 9).unwrap();
    assert!(generate_with_seed(&mut g, &ts, 3).is_ok());
    for id in g.ids() {
        assert!(1 <= id && id <= 5);
    }
}

#[test]
fn resolved_neighbours_are_compatible_one_way() {
    let ts = standard_tiles();
    let mut g = Grid::new(10, 7).unwrap();
    assert!(generate_with_seed(&mut g, &ts, 11).is_ok());
    let ids = g.ids();
    for y in 0..7usize {
        for x in 0..10usize {
            let a = ids[y * 10 + x];
            if x + 1 < 10 {
                let b = ids[y * 10 + x + 1];
                assert!(compat(&ts, a, b) || compat(&ts, b, a));
            }
            if y + 1 < 7 {
                let b = ids[(y + 1) * 10 + x];
                assert!(compat(&ts, a, b) || compat(&ts, b, a));
            }
        }
    }
}

#[test]
fn symmetric_rules_give_full_adjacency() {
    let ts = symmetric_trio();
    let mut g = Grid::new(9, 9).unwrap();
    assert!(generate_with_seed(&mut g, &ts, 5).is_ok());
    let ids = g.ids();
    for y in 0..9usize {
        for x in 0..9usize {
            let a = ids[y * 9 + x];
            if x + 1 < 9 {
                let b = ids[y * 9 + x + 1];
                assert!(compat(&ts, a, b) && compat(&ts, b, a));
            }
            if y + 1 < 9 {
                let b = ids[(y + 1) * 9 + x];
                assert!(compat(&ts, a, b) && compat(&ts, b, a));
            }
        }
    }
}

#[test]
fn contradiction_is_detected() {
    let ts = all_false_pair();
    let mut g = Grid::new(2, 2).unwrap();
    let r = generate_with_seed(&mut g, &ts, 1);
    assert!(matches!(r, Err(GenError::TileSetError)));
}

#[test]
fn tie_break_picks_leftmost() {
    // 1x3 grid, two tiles accepting everything: both unresolved cells have
    // two candidates, and the scan must pick the lower row-major index
    let ts = TileSet {
        rules: vec![vec![true, true], vec![true, true]],
    };
    let mut g = Grid::new(3, 1).unwrap();
    g.cells[0].id = 1;
    let found = find_most_constrained(&g, &ts);
    let p = found.unwrap();
    assert!(p.x == 1 && p.y == 0);
}

#[test]
fn most_constrained_cell_wins() {
    // the middle cell is constrained by its resolved neighbour to fewer
    // candidates than the far cell
    let ts = TileSet {
        rules: vec![vec![true, false], vec![false, true]],
    };
    let mut g = Grid::new(3, 1).unwrap();
    g.cells[0].id = 2;
    let p = find_most_constrained(&g, &ts).unwrap();
    assert!(p.x == 1 && p.y == 0);
    let poss = get_possibilities(&g, &ts, &Pos { x: 1, y: 0 });
    assert_eq!(poss, vec![2]);
}

#[test]
fn fully_resolved_grid_has_no_candidate_cell() {
    let ts = all_false_pair();
    let mut g = Grid::new(2, 1).unwrap();
    g.cells[0].id = 1;
    g.cells[1].id = 2;
    assert!(find_most_constrained(&g, &ts).is_none());
}

#[test]
fn possibilities_are_ascending_and_filtered() {
    let ts = standard_tiles();
    let mut g = Grid::new(3, 1).unwrap();
    g.cells[0].id = 2;
    let poss = get_possibilities(&g, &ts, &Pos { x: 1, y: 0 });
    assert_eq!(poss, vec![1, 3]);
}

#[test]
fn unconstrained_cell_admits_every_tile() {
    let ts = standard_tiles();
    let g = Grid::new(3, 3).unwrap();
    let poss = get_possibilities(&g, &ts, &Pos { x: 1, y: 1 });
    assert_eq!(poss, vec![1, 2, 3, 4, 5]);
}

#[test]
fn soft_propagation_cascades_forced_cells() {
    // tile 2 accepts nothing, so each cell next to a resolved tile-1 cell
    // is forced to tile 1 and the flood rolls across the row
    let ts = TileSet {
        rules: vec![vec![true, true], vec![false, false]],
    };
    let mut g = Grid::new(3, 1).unwrap();
    g.cells[0].id = 1;
    let mut rng = rng_from_seed(0);
    let r = propagate(&mut g, &ts, &Pos { x: 1, y: 0 }, false, &mut rng);
    assert!(r.is_ok());
    assert_eq!(g.ids(), vec![1, 1, 1]);
}

#[test]
fn soft_propagation_leaves_ambiguous_cells() {
    let ts = TileSet {
        rules: vec![vec![true, true], vec![true, true]],
    };
    let mut g = Grid::new(2, 1).unwrap();
    let mut rng = rng_from_seed(0);
    let r = propagate(&mut g, &ts, &Pos { x: 0, y: 0 }, false, &mut rng);
    assert!(r.is_ok());
    assert_eq!(g.ids(), vec![0, 0]);
}

#[test]
fn propagation_fails_on_empty_possibilities() {
    let ts = all_false_pair();
    let mut g = Grid::new(2, 1).unwrap();
    g.cells[0].id = 2;
    let mut rng = rng_from_seed(0);
    let r = propagate(&mut g, &ts, &Pos { x: 1, y: 0 }, true, &mut rng);
    assert!(matches!(r, Err(GenError::TileSetError)));
}

#[test]
fn propagation_skips_resolved_and_out_of_bounds_seeds() {
    let ts = standard_tiles();
    let mut g = Grid::new(2, 2).unwrap();
    g.cells[0].id = 3;
    let mut rng = rng_from_seed(0);
    assert!(propagate(&mut g, &ts, &Pos { x: 0, y: 0 }, true, &mut rng).is_ok());
    assert_eq!(g.ids(), vec![3, 0, 0, 0]);
    assert!(propagate(&mut g, &ts, &Pos { x: -1, y: 0 }, true, &mut rng).is_ok());
    assert_eq!(g.ids(), vec![3, 0, 0, 0]);
}

#[test]
fn reset_clears_marks_and_keeps_ids() {
    let ts = standard_tiles();
    let mut g = Grid::new(2, 1).unwrap();
    g.cells[0].id = 1;
    let mut rng = rng_from_seed(0);
    assert!(propagate(&mut g, &ts, &Pos { x: 1, y: 0 }, false, &mut rng).is_ok());
    assert!(g.cells.iter().any(|c| c.visited));
    let ids_before = g.ids();
    reset_visited(&mut g);
    assert!(g.cells.iter().all(|c| !c.visited));
    assert_eq!(g.ids(), ids_before);
}

#[test]
fn seeded_generator_draws_below_bound() {
    // a 1x1 grid forces the single in-bounds draw to hit index zero for
    // any seed; a draw out of range would be caught inside the library
    let ts = standard_tiles();
    for seed in 0..32u64 {
        let mut g = Grid::new(1, 1).unwrap();
        assert!(generate_with_seed(&mut g, &ts, seed).is_ok());
        assert_eq!(g.ids(), vec![5]);
    }
}

#[test]
fn universal_tile_always_succeeds() {
    // tile 2 of this set accepts everything, so no cell can ever run out
    // of admissible tiles, whatever the draws
    let ts = symmetric_trio();
    for seed in 0..8u64 {
        let mut g = Grid::new(5, 4).unwrap();
        assert!(generate_with_seed(&mut g, &ts, seed).is_ok());
    }
}

#[test]
fn generation_clears_marks() {
    let ts = standard_tiles();
    let mut g = Grid::new(6, 4).unwrap();
    assert!(generate_with_seed(&mut g, &ts, 9).is_ok());
    assert!(g.cells.iter().all(|c| !c.visited));
}

#[test]
fn visited_seed_is_left_alone() {
    let ts = TileSet {
        rules: vec![vec![true, true], vec![true, true]],
    };
    let mut g = Grid::new(2, 1).unwrap();
    let mut rng = rng_from_seed(0);
    // the soft pass marks both cells without committing them
    assert!(propagate(&mut g, &ts, &Pos { x: 0, y: 0 }, false, &mut rng).is_ok());
    let before: Vec<bool> = g.cells.iter().map(|c| c.visited).collect();
    // a hard call on the now-marked seed must change nothing
    assert!(propagate(&mut g, &ts, &Pos { x: 0, y: 0 }, true, &mut rng).is_ok());
    assert_eq!(g.ids(), vec![0, 0]);
    let after: Vec<bool> = g.cells.iter().map(|c| c.visited).collect();
    assert_eq!(before, after);
}

#[test]
fn failing_cell_stays_unresolved() {
    let ts = all_false_pair();
    let mut g = Grid::new(2, 1).unwrap();
    g.cells[0].id = 2;
    let mut rng = rng_from_seed(0);
    assert!(propagate(&mut g, &ts, &Pos { x: 1, y: 0 }, true, &mut rng).is_err());
    assert_eq!(g.ids(), vec![2, 0]);
}
