use rand::SeedableRng;
use rand_chacha::ChaCha20Rng;
use wfc_tiles::{build_catalog, collapse, grid_dimensions, init_grid, step, Grid, Raster, Rgba, Tile, TickOutcome};

fn catalog() -> Vec<Tile> {
    let mut pixels = Vec::new();
    for i in 0..9u8 {
        pixels.push(Rgba { r: i, g: 0, b: 0, a: 255 });
    }
    build_catalog(Raster { width: 3, height: 3, pixels }).unwrap()
}

fn ready_grid(width: usize, height: usize) -> Grid {
    let tiles = catalog();
    let mut g = Grid::new(width, height);
    init_grid(&mut g, &tiles);
    g
}

fn at(g: &Grid, x: usize, y: usize) -> usize {
    y * g.width + x
}

#[test]
fn dimensions_drop_the_margin() {
    assert_eq!(grid_dimensions(800, 600, 32, 32), (25, 18));
    assert_eq!(grid_dimensions(800, 600, 30, 7), (26, 85));
    assert_eq!(grid_dimensions(10, 10, 20, 20), (0, 0));
}

#[test]
fn init_gives_every_cell_the_whole_catalog() {
    let g = ready_grid(5, 3);
    assert_eq!(g.cells.len(), 15);
    assert_eq!(g.tile_count, 4);
    for c in g.cells.iter() {
        assert!(!c.resolved);
        assert_eq!(c.chosen, None);
        assert_eq!(c.available, vec![0, 1, 2, 3]);
    }
}

#[test]
fn one_tick_on_two_by_two() {
    let mut g = ready_grid(2, 2);
    let r = step(&mut g, 0, 0, 2);
    assert_eq!(r, TickOutcome::Resolved(2));
    let k = at(&g, 0, 0);
    assert!(g.cells[k].resolved);
    assert_eq!(g.cells[k].chosen, Some(2));
    assert_eq!(g.cells[at(&g, 1, 0)].available, vec![0, 1, 3]);
    assert_eq!(g.cells[at(&g, 0, 1)].available, vec![0, 1, 3]);
    assert_eq!(g.cells[at(&g, 1, 1)].available, vec![0, 1, 2, 3]);
    assert_eq!(g.cells.iter().filter(|c| c.resolved).count(), 1);
}

#[test]
fn resolved_neighbour_is_untouched() {
    let mut g = ready_grid(2, 2);
    assert_eq!(step(&mut g, 0, 0, 1), TickOutcome::Resolved(1));
    assert_eq!(step(&mut g, 1, 0, 0), TickOutcome::Resolved(0));
    let k = at(&g, 0, 0);
    assert_eq!(g.cells[k].chosen, Some(1));
    assert_eq!(g.cells[k].available, vec![0, 1, 2, 3]);
    assert_eq!(g.cells[at(&g, 1, 1)].available, vec![1, 2, 3]);
    assert_eq!(g.cells[at(&g, 0, 1)].available, vec![0, 2, 3]);
}

#[test]
fn resolved_cell_is_skipped() {
    let mut g = ready_grid(2, 2);
    step(&mut g, 1, 1, 3);
    let before = g.clone();
    assert_eq!(step(&mut g, 1, 1, 0), TickOutcome::Skipped);
    assert_eq!(g.cells[at(&g, 1, 1)].chosen, Some(3));
    for (a, b) in g.cells.iter().zip(before.cells.iter()) {
        assert_eq!((a.resolved, a.chosen, &a.available), (b.resolved, b.chosen, &b.available));
    }
}

#[test]
fn single_candidate_is_never_resolved() {
    let mut g = ready_grid(3, 1);
    g.cells[1].available = vec![2];
    assert_eq!(step(&mut g, 1, 0, 0), TickOutcome::Skipped);
    assert!(!g.cells[1].resolved);
    assert_eq!(g.cells[1].available, vec![2]);
    assert_eq!(g.cells[0].available, vec![0, 1, 2, 3]);
    let mut rng = ChaCha20Rng::seed_from_u64(11);
    for _ in 0..200 {
        collapse(&mut g, &mut rng);
    }
    assert!(!g.cells[1].resolved);
}

#[test]
fn empty_candidates_report_a_contradiction() {
    let mut g = ready_grid(2, 1);
    g.cells[0].available = vec![];
    assert_eq!(step(&mut g, 0, 0, 0), TickOutcome::Contradiction);
    assert!(!g.cells[0].resolved);
    assert_eq!(g.cells[1].available, vec![0, 1, 2, 3]);
}

fn pruned_count(g: &Grid) -> usize {
    g.cells.iter().filter(|c| !c.resolved && c.available.len() == 3).count()
}

#[test]
fn corner_edge_and_inner_cells_prune_two_three_four() {
    for (x, y, n) in [(0, 0, 2), (2, 2, 2), (0, 2, 2), (2, 0, 2), (1, 0, 3), (0, 1, 3), (2, 1, 3), (1, 2, 3), (1, 1, 4)] {
        let mut g = ready_grid(3, 3);
        assert_eq!(step(&mut g, x, y, 0), TickOutcome::Resolved(0));
        assert_eq!(pruned_count(&g), n, "cell ({}, {})", x, y);
    }
}

#[test]
fn ticks_keep_resolved_cells_and_shrink_candidates() {
    let mut g = ready_grid(6, 5);
    let mut rng = ChaCha20Rng::seed_from_u64(42);
    let mut resolved_before = 0;
    for _ in 0..500 {
        let before = g.clone();
        let r = collapse(&mut g, &mut rng);
        let resolved_now = g.cells.iter().filter(|c| c.resolved).count();
        match r {
            TickOutcome::Resolved(t) => {
                assert!(t < 4);
                assert_eq!(resolved_now, resolved_before + 1);
            }
            _ => assert_eq!(resolved_now, resolved_before),
        }
        for (a, b) in g.cells.iter().zip(before.cells.iter()) {
            if b.resolved {
                assert!(a.resolved);
                assert_eq!(a.chosen, b.chosen);
            }
            assert!(a.available.len() <= b.available.len());
            if let Some(t) = a.chosen {
                assert!(t < 4);
            }
        }
        resolved_before = resolved_now;
    }
    assert!(resolved_before > 0);
}

#[test]
fn one_cell_grid_is_resolved_by_a_tick() {
    let mut g = ready_grid(1, 1);
    let mut rng = ChaCha20Rng::seed_from_u64(7);
    match collapse(&mut g, &mut rng) {
        TickOutcome::Resolved(t) => {
            assert!(t < 4);
            assert_eq!(g.cells[0].chosen, Some(t));
        }
        other => panic!("unexpected {:?}", other),
    }
    assert_eq!(collapse(&mut g, &mut rng), TickOutcome::Skipped);
}
