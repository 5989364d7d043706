use color_sort::level::{smallest_factor, GameState};
use color_sort::menu::{MenuState, Settings};
use color_sort::tube::{ColorTube, ColorTubeContent};

const RED: u32 = 0;
const BLUE: u32 = 1;

fn seg(color: u32, amount: u32) -> ColorTubeContent {
    ColorTubeContent::new(color, amount)
}

fn tube(capacity: u32, segs: Vec<ColorTubeContent>) -> ColorTube {
    ColorTube::new(capacity, segs)
}

fn views(g: &GameState) -> Vec<Vec<(u32, u32)>> {
    g.tubes
        .iter()
        .map(|t| t.segments().iter().map(|c| (c.color, c.amount)).collect())
        .collect()
}

/// A two-color session with hand-laid tubes, for scripted scenarios.
fn session(tubes: Vec<ColorTube>) -> GameState {
    let factor = smallest_factor(tubes.len());
    GameState {
        tube_capacity: 4,
        palette: vec![RED, BLUE],
        tubes,
        tubes_factor: factor,
        selected_tube: None,
        level: 1,
    }
}

#[test]
fn first_activation_selects() {
    let mut g = session(vec![
        tube(4, vec![seg(RED, 2)]),
        tube(4, Vec::new()),
        tube(4, Vec::new()),
        tube(4, Vec::new()),
    ]);
    let before = views(&g);
    g.handle_tube_activation(0);
    assert_eq!(g.selected_tube, Some(0));
    assert_eq!(views(&g), before);
}

#[test]
fn reactivating_same_tube_deselects_without_changes() {
    let mut g = session(vec![
        tube(4, vec![seg(RED, 2), seg(BLUE, 1)]),
        tube(4, vec![seg(BLUE, 2)]),
        tube(4, Vec::new()),
        tube(4, Vec::new()),
    ]);
    let before = views(&g);
    g.handle_tube_activation(0);
    assert_eq!(g.selected_tube, Some(0));
    g.handle_tube_activation(0);
    assert_eq!(g.selected_tube, None);
    assert_eq!(views(&g), before);
}

#[test]
fn transfer_moves_only_the_top_run() {
    // Source [(red, 2), (blue, 1)] with one free slot, destination empty:
    // the drain request is the destination's free space (4), clamped to the
    // source total (3), but only the contiguous blue top run (1) moves.
    let mut g = session(vec![
        tube(4, vec![seg(RED, 2), seg(BLUE, 1)]),
        tube(4, Vec::new()),
        tube(4, Vec::new()),
        tube(4, Vec::new()),
    ]);
    g.handle_tube_activation(0);
    g.handle_tube_activation(1);
    assert_eq!(g.selected_tube, None);
    assert_eq!(views(&g)[0], vec![(RED, 2)]);
    assert_eq!(views(&g)[1], vec![(BLUE, 1)]);
}

#[test]
fn transfer_with_mismatched_top_color_changes_nothing() {
    let mut g = session(vec![
        tube(4, vec![seg(RED, 2)]),
        tube(4, vec![seg(BLUE, 2)]),
        tube(4, Vec::new()),
        tube(4, Vec::new()),
    ]);
    let before = views(&g);
    g.handle_tube_activation(0);
    g.handle_tube_activation(1);
    assert_eq!(g.selected_tube, None);
    assert_eq!(views(&g), before);
}

#[test]
fn transfer_into_full_tube_changes_nothing() {
    let mut g = session(vec![
        tube(4, vec![seg(RED, 2)]),
        tube(4, vec![seg(RED, 4)]),
        tube(4, Vec::new()),
        tube(4, Vec::new()),
    ]);
    let before = views(&g);
    g.handle_tube_activation(0);
    g.handle_tube_activation(1);
    assert_eq!(g.selected_tube, None);
    assert_eq!(views(&g), before);
}

#[test]
fn transfer_merges_into_matching_top() {
    let mut g = session(vec![
        tube(4, vec![seg(BLUE, 1), seg(RED, 2)]),
        tube(4, vec![seg(RED, 1)]),
        tube(4, Vec::new()),
        tube(4, Vec::new()),
    ]);
    g.handle_tube_activation(0);
    g.handle_tube_activation(1);
    assert_eq!(views(&g)[0], vec![(BLUE, 1)]);
    assert_eq!(views(&g)[1], vec![(RED, 3)]);
}

#[test]
fn transfer_clamped_by_destination_free_space() {
    // Three red units on top, but the destination has room for one.
    let mut g = session(vec![
        tube(4, vec![seg(RED, 3)]),
        tube(4, vec![seg(RED, 3)]),
        tube(4, Vec::new()),
        tube(4, Vec::new()),
    ]);
    g.handle_tube_activation(0);
    g.handle_tube_activation(1);
    assert_eq!(views(&g)[0], vec![(RED, 2)]);
    assert_eq!(views(&g)[1], vec![(RED, 4)]);
}

#[test]
fn transfer_works_from_higher_to_lower_index() {
    let mut g = session(vec![
        tube(4, vec![seg(BLUE, 1)]),
        tube(4, vec![seg(BLUE, 2)]),
        tube(4, Vec::new()),
        tube(4, Vec::new()),
    ]);
    g.handle_tube_activation(1);
    g.handle_tube_activation(0);
    assert_eq!(views(&g)[0], vec![(BLUE, 3)]);
    assert!(views(&g)[1].is_empty());
}

#[test]
fn out_of_range_activation_is_ignored() {
    let mut g = session(vec![
        tube(4, vec![seg(RED, 2)]),
        tube(4, Vec::new()),
        tube(4, Vec::new()),
        tube(4, Vec::new()),
    ]);
    let before = views(&g);
    g.handle_tube_activation(17);
    assert_eq!(g.selected_tube, None);
    assert_eq!(views(&g), before);
}

#[test]
fn completion_averages_nonempty_tubes() {
    // One mixed tube (main color holds 2 of 4) and one empty tube: the
    // empty tube is excluded, so the level is 2/4 complete.
    let g = session(vec![
        tube(4, vec![seg(RED, 2), seg(BLUE, 1)]),
        tube(4, Vec::new()),
        tube(4, Vec::new()),
        tube(4, Vec::new()),
    ]);
    let f = g.complete_pct();
    assert_eq!((f.num, f.den), (2, 4));
}

#[test]
fn completion_of_sorted_level_is_exactly_one() {
    let g = session(vec![
        tube(4, vec![seg(RED, 4)]),
        tube(4, vec![seg(BLUE, 4)]),
        tube(4, Vec::new()),
        tube(4, Vec::new()),
    ]);
    assert!(g.complete_pct().is_one());
}

#[test]
fn completion_of_unsorted_level_is_below_one() {
    let g = session(vec![
        tube(4, vec![seg(RED, 2), seg(BLUE, 2)]),
        tube(4, vec![seg(BLUE, 2), seg(RED, 2)]),
        tube(4, Vec::new()),
        tube(4, Vec::new()),
    ]);
    let f = g.complete_pct();
    assert!(!f.is_one());
    assert_eq!((f.num, f.den), (4, 8));
}

#[test]
fn completion_with_every_tube_empty_counts_as_complete() {
    let g = GameState {
        tube_capacity: 4,
        palette: Vec::new(),
        tubes: vec![tube(4, Vec::new()), tube(4, Vec::new())],
        tubes_factor: 2,
        selected_tube: None,
        level: 1,
    };
    assert!(g.complete_pct().is_one());
}

#[test]
fn new_session_starts_on_level_one() {
    let g = GameState::new(color_sort::level::default_palette(), 4);
    assert_eq!(g.level, 1);
    assert_eq!(g.tube_capacity, 4);
    assert_eq!(g.tubes.len(), 14);
    assert_eq!(g.tubes_factor, 2);
    assert_eq!(g.selected_tube, None);
}

#[test]
fn restart_rebuilds_the_same_level_and_drops_selection() {
    let mut g = GameState::new(color_sort::level::default_palette(), 4);
    let fresh = views(&g);
    g.handle_tube_activation(0);
    g.handle_tube_activation(1);
    g.handle_tube_activation(2);
    assert_eq!(g.selected_tube, Some(2));
    g.new_tubes();
    assert_eq!(g.selected_tube, None);
    assert_eq!(g.level, 1);
    assert_eq!(views(&g), fresh);
}

#[test]
fn skip_level_advances_the_seed() {
    let mut g = GameState::new(color_sort::level::default_palette(), 4);
    g.skip_level();
    assert_eq!(g.level, 2);
    assert_eq!(g.selected_tube, None);
    assert_eq!(g.tubes.len(), 14);
    // The layout for level two matches a fresh generation with seed two.
    let again = color_sort::level::generate_tubes(&g.palette, 4, 2);
    let expect: Vec<Vec<(u32, u32)>> = again
        .iter()
        .map(|t| t.segments().iter().map(|c| (c.color, c.amount)).collect())
        .collect();
    assert_eq!(views(&g), expect);
}

#[test]
fn conservation_survives_play() {
    let mut g = GameState::new(color_sort::level::default_palette(), 4);
    for step in 0..20u32 {
        g.handle_tube_activation((step as usize * 5 + 3) % g.tubes.len());
    }
    for color in 0..12u32 {
        let total: u64 = g
            .tubes
            .iter()
            .flat_map(|t| t.segments().iter())
            .filter(|c| c.color == color)
            .map(|c| c.amount as u64)
            .sum();
        assert_eq!(total, 4);
    }
}

#[test]
fn menu_state_starts_with_all_flags_clear() {
    let m = MenuState::new();
    assert!(!m.settings.full_screen);
    assert!(!m.show_settings);
    assert!(!m.full_screen_changed);
    assert!(!m.restart_level);
    assert!(!m.skip_level);
    assert!(!m.quit);
    let s = Settings::new();
    assert!(!s.full_screen);
}
