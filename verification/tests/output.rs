use tetra_pack::algorithm::{CollectStats, Configuration};
use tetra_pack::editor::State;
use tetra_pack::structured_output::{Output, Placement, TetraPos};
use tetra_pack::util::{Pos, Size};

struct StatsDummy;

impl CollectStats for StatsDummy {
    fn recursions_inc(&mut self) {}

    fn results_inc(&mut self) {}
}

fn tetra_pos_key(tp: &TetraPos) -> (usize, usize, usize) {
    (tp.tetra, tp.pos.row, tp.pos.col)
}

fn placement_key(p: &Placement) -> (Vec<(usize, usize, usize)>, usize) {
    (p.tetras.iter().map(tetra_pos_key).collect(), p.free)
}

#[test]
fn output_lists_the_whole_catalog() {
    let out = Output::new(&Vec::new());
    assert_eq!(out.tetras.len(), 19);
    assert_eq!(
        out.tetras[1].positions,
        vec![Pos::new(0, 0), Pos::new(0, 1), Pos::new(0, 2), Pos::new(0, 3)]
    );
    assert_eq!(
        out.tetras[0].positions,
        vec![Pos::new(0, 0), Pos::new(0, 1), Pos::new(1, 0), Pos::new(1, 1)]
    );
    assert!(out.placements.is_empty());
}

#[test]
fn output_placements_are_sorted_and_deduplicated() {
    let cfg = Configuration::new(Size::new(2, 4), Vec::new()).unwrap();
    let results = cfg.run(&mut StatsDummy);
    assert!(!results.is_empty());

    let out = Output::new(&results);
    assert!(!out.placements.is_empty());
    assert!(out.placements.len() <= results.len());

    for window in out.placements.windows(2) {
        assert!(placement_key(&window[0]) < placement_key(&window[1]));
    }
    for placement in &out.placements {
        for tp in &placement.tetras {
            assert!(tp.tetra < 19);
        }
        for pair in placement.tetras.windows(2) {
            assert!(tetra_pos_key(&pair[0]) <= tetra_pos_key(&pair[1]));
        }
    }
}

#[test]
fn output_keeps_each_packing_content() {
    let cfg = Configuration::new(Size::new(4, 4), Vec::new()).unwrap();
    let results = cfg.run(&mut StatsDummy);
    let out = Output::new(&results);

    // every input result appears: its sorted pair list is among the entries
    for result in &results {
        let mut pairs: Vec<(usize, usize, usize)> = Vec::new();
        for placed in &result.placement {
            let placed = placed.as_placed();
            let id = (0..19)
                .find(|i| {
                    tetra_pack::tetra::static_tetras_iter()[*i].same_shape(&placed.tetra)
                })
                .unwrap();
            pairs.push((id, placed.position.row, placed.position.col));
        }
        pairs.sort();
        let found = out.placements.iter().any(|pl| {
            pl.free == result.free
                && pl.tetras.iter().map(tetra_pos_key).collect::<Vec<_>>() == pairs
        });
        assert!(found);
    }
}

#[test]
fn editor_state_builds_a_configuration() {
    let mut state = State::new(4, 4);
    state.toggle_under_cursor();
    state.cursor_right();
    state.cursor_down();
    state.toggle_under_cursor();

    assert_eq!(state.unavailable(), &vec![Pos::new(0, 0), Pos::new(1, 1)]);

    let cfg = state.into_configuration().unwrap();
    assert_eq!(cfg.size(), Size::new(4, 4));
    assert_eq!(cfg.unavailable(), &vec![Pos::new(0, 0), Pos::new(1, 1)]);
    assert!(cfg.results_limit().is_none());
}

#[test]
fn editor_toggle_twice_clears_the_cell() {
    let mut state = State::new(3, 3);
    state.toggle_under_cursor();
    state.toggle_under_cursor();
    assert!(state.unavailable().is_empty());
}

#[test]
fn editor_resize_clamps_the_cursor() {
    let mut state = State::new(2, 2);
    state.cursor_down();
    state.cursor_right();
    assert_eq!(state.cursor_as_pos(), Pos::new(1, 1));

    state.rows_dec();
    state.align_cursor();
    assert_eq!(state.cursor_as_pos(), Pos::new(0, 1));
    assert_eq!(state.as_size(), Size::new(1, 2));

    state.rows_dec();
    assert_eq!(state.as_size(), Size::new(1, 2));
    state.cols_inc();
    assert_eq!(state.as_size(), Size::new(1, 3));
}

#[test]
fn editor_rejects_out_of_bounds_toggles_at_build_time() {
    let mut state = State::new(2, 2);
    state.cursor_down();
    state.toggle_under_cursor();
    state.rows_dec();
    assert!(state.into_configuration().is_err());
}
