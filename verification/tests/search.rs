use tetra_pack::algorithm::{
    Cell, CollectStats, ConfigError, Configuration, PlacementResult, RecursionState,
};
use tetra_pack::randomness::RandomTetras;
use tetra_pack::util::{Pos, PosInGrid, Size, SizeOf};

struct StatsDummy;

impl CollectStats for StatsDummy {
    fn recursions_inc(&mut self) {}

    fn results_inc(&mut self) {}
}

struct CountingStats {
    recursions: usize,
    results: usize,
}

impl CollectStats for CountingStats {
    fn recursions_inc(&mut self) {
        self.recursions += 1;
    }

    fn results_inc(&mut self) {
        self.results += 1;
    }
}

#[test]
fn results_count_for_empty_4x4() {
    let cfg = Configuration::new(Size::new(4, 4), Vec::new()).unwrap();

    let results = cfg.run(&mut StatsDummy);

    assert_eq!(results.len(), 267);
}

#[test]
fn results_count_for_non_empty_4x4() {
    // A 2x2 block at the origin, as in the larger blocked-grid scenario; on
    // a 4x4 grid the depth-first enumeration the contract pins has exactly
    // 24 entries, so the whole run stays within the test budget.
    let unavailable = vec![Pos::new(0, 0), Pos::new(0, 1), Pos::new(1, 0), Pos::new(1, 1)];
    let cfg = Configuration::new(Size::new(4, 4), unavailable).unwrap();

    let results = cfg.run(&mut StatsDummy);

    assert_eq!(results.len(), 24);
}

#[test]
fn blocked_6x6_sampled_results_are_valid() {
    // The 6x6 grid with the 2x2 block at the origin, under the capped
    // randomized policy: every sampled packing respects the blocked square
    // and the cap halts the search. (The exhaustive enumeration of this
    // configuration has hundreds of thousands of entries and is far too
    // large to run as a test.)
    let blocked = vec![Pos::new(0, 0), Pos::new(0, 1), Pos::new(1, 0), Pos::new(1, 1)];
    let cfg = Configuration::new(Size::new(6, 6), blocked.clone())
        .unwrap()
        .with_results_limit(3);

    let results = cfg.run(&mut StatsDummy);

    assert_eq!(results.len(), 3);
    for result in &results {
        // acceptance threshold for 32 usable cells is 5
        assert!(result.free < 5);
        check_result_covers_grid(result, 6, 6, &blocked);
    }
}

#[test]
fn results_count_for_empty_2x4() {
    let cfg = Configuration::new(Size::new(2, 4), Vec::new()).unwrap();

    let results = cfg.run(&mut StatsDummy);

    assert_eq!(results.len(), 4);
    for result in &results {
        assert_eq!(result.free, 0);
        assert_eq!(result.placement.len(), 2);
    }
}

#[test]
fn results_count_for_empty_4x5() {
    let cfg = Configuration::new(Size::new(4, 5), Vec::new()).unwrap();

    let results = cfg.run(&mut StatsDummy);

    assert_eq!(results.len(), 1375);
}

#[test]
fn all_positions_initially() {
    let cfg = Configuration::new(Size::new(8, 8), Vec::new()).unwrap();
    let rec = RecursionState::with_configuration(&cfg);

    assert_eq!(rec.positions_for_lookup().len(), 8 * 8);
}

#[test]
fn exhaustive_4x4_results_are_exact_tilings() {
    let cfg = Configuration::new(Size::new(4, 4), Vec::new()).unwrap();
    let results = cfg.run(&mut StatsDummy);

    for result in &results {
        assert_eq!(result.free, 0);
        check_result_covers_grid(result, 4, 4, &[]);
    }
}

#[test]
fn blocked_4x4_results_partition_the_grid() {
    let blocked = vec![Pos::new(0, 0), Pos::new(0, 1), Pos::new(1, 0), Pos::new(1, 1)];
    let cfg = Configuration::new(Size::new(4, 4), blocked.clone()).unwrap();
    let results = cfg.run(&mut StatsDummy);

    assert!(!results.is_empty());
    for result in &results {
        assert_eq!(result.free, 0);
        check_result_covers_grid(result, 4, 4, &blocked);
    }
}

/// The covered cells are pairwise disjoint, avoid the blocked cells, stay in
/// bounds, and together with the blocked cells leave exactly `free` cells.
fn check_result_covers_grid(result: &PlacementResult, rows: usize, cols: usize, blocked: &[Pos]) {
    let mut covered: Vec<Pos> = Vec::new();
    for placement in &result.placement {
        for cell in placement.iter_relative_to_place() {
            assert!(cell.row < rows && cell.col < cols);
            assert!(!covered.contains(&cell), "cells of one result overlap");
            assert!(!blocked.contains(&cell), "a result covers a blocked cell");
            covered.push(cell);
        }
    }
    assert_eq!(covered.len() + blocked.len() + result.free, rows * cols);
}

#[test]
fn min_remainder_is_kept_on_odd_grids() {
    // 3 x 3: nine cells, so one cell always stays free.
    let cfg = Configuration::new(Size::new(3, 3), Vec::new()).unwrap();
    let results = cfg.run(&mut StatsDummy);

    assert_eq!(results.len(), 26);
    for result in &results {
        assert_eq!(result.free, 1);
        assert_eq!(result.placement.len(), 2);
    }
}

#[test]
fn results_cap_halts_the_randomized_policy() {
    let cfg = Configuration::new(Size::new(4, 4), Vec::new()).unwrap().with_results_limit(2);
    let results = cfg.run(&mut StatsDummy);

    assert_eq!(results.len(), 2);
    for result in &results {
        // acceptance threshold for 16 free cells is 4
        assert!(result.free < 4);
        check_result_covers_grid(result, 4, 4, &[]);
    }
}

#[test]
fn config_rejects_zero_area() {
    assert_eq!(
        Configuration::new(Size::new(0, 5), Vec::new()).unwrap_err(),
        ConfigError::GridTooSmall
    );
    assert_eq!(
        Configuration::new(Size::new(5, 0), Vec::new()).unwrap_err(),
        ConfigError::GridTooSmall
    );
}

#[test]
fn config_rejects_blocked_outside_bounds() {
    assert_eq!(
        Configuration::new(Size::new(2, 2), vec![Pos::new(2, 0)]).unwrap_err(),
        ConfigError::BlockedOutOfBounds
    );
    assert_eq!(
        Configuration::new(Size::new(2, 2), vec![Pos::new(0, 2)]).unwrap_err(),
        ConfigError::BlockedOutOfBounds
    );
}

#[test]
fn grid_cells_reflect_blocked_setup() {
    let cfg = Configuration::new(Size::new(3, 2), vec![Pos::new(2, 1)]).unwrap();
    let rec = RecursionState::with_configuration(&cfg);

    assert!(matches!(rec.cell_at(Pos::new(0, 0)), Cell::Empty));
    assert!(matches!(rec.cell_at(Pos::new(2, 1)), Cell::Unavailable));
    assert!(matches!(rec.pos(&Pos::new(2, 1)), Cell::Unavailable));
    assert_eq!(rec.size_of(), Size::new(3, 2));
    assert_eq!(rec.how_many_free(), 5);
}

#[test]
fn cache_invariant_under_random_fill_unfill() {
    // Cache law: after any sequence of fills and unfills in valid push/pop
    // pairs, the candidate cache holds every currently empty position.
    let cfg = Configuration::new(Size::new(6, 6), vec![Pos::new(0, 3), Pos::new(4, 4)]).unwrap();
    let mut rec = RecursionState::with_configuration(&cfg);
    assert!(rec.cache_covers_empty());

    // a small deterministic linear congruential generator drives the walk
    let mut seed: u64 = 0x2545f491;
    let mut step = || {
        seed = seed.wrapping_mul(6364136223846793005).wrapping_add(1442695040888963407);
        (seed >> 33) as usize
    };

    for _ in 0..300 {
        let action = step() % 3;
        if action < 2 {
            let idx = step() % 19;
            rec.try_place(idx);
        } else {
            rec.undo_last();
        }
        assert!(rec.cache_covers_empty());
    }
    while rec.undo_last() {
        assert!(rec.cache_covers_empty());
    }
}

#[test]
fn stats_sink_sees_calls_and_results() {
    let cfg = Configuration::new(Size::new(2, 4), Vec::new()).unwrap();
    let mut stats = CountingStats { recursions: 0, results: 0 };
    let results = cfg.run(&mut stats);

    assert!(stats.recursions > 0);
    assert_eq!(stats.results, results.len());
    assert!(!results.is_empty());
}

#[test]
fn shuffler_yields_full_width_samples() {
    let mut shuffler = RandomTetras::new();
    let sample = shuffler.finite_iter();
    assert_eq!(sample.len(), 19);
    for idx in sample {
        assert!(idx < 19);
    }
}
