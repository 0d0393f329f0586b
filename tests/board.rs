use minefield::game::{step, GameEvent, GameState};
use minefield::minefield::{MineField, Placement, RevealOutcome, MAX_FLOOD_TILES, MINE_ROLL};
use minefield::tile::{danger_level, DangerLevel};

fn no_mines(field: &MineField) -> Vec<i32> {
    vec![0; field.tile_count()]
}

fn revealed_count(field: &MineField) -> usize {
    let mut n = 0;
    for i in 0..field.tile_count() {
        if field.tile(i).revealed {
            n += 1;
        }
    }
    n
}

#[test]
fn new_board_has_no_mines_and_nothing_to_clear() {
    let field = MineField::new(4, 3);
    assert_eq!(field.tile_count(), 12);
    assert_eq!(field.remaining_safe_tiles(), 0);
    assert!(!field.mines_placed());
    assert!(!field.is_cleared());
    for i in 0..field.tile_count() {
        let t = field.tile(i);
        assert!(!t.has_mine);
        assert!(!t.revealed);
        assert!(!t.flagged);
        assert_eq!(t.adjacent_mines, 0);
        assert_eq!(t.index, i);
        assert_eq!(t.coords, ((i % 4) as i32, (i / 4) as i32));
    }
}

#[test]
fn get_tile_resolves_positions_and_rejects_off_board() {
    let field = MineField::new(4, 3);
    let t = field.get_tile(3, 2).unwrap();
    assert_eq!(t.coords, (3, 2));
    assert_eq!(t.index, 11);
    assert!(field.get_tile(4, 0).is_none());
    assert!(field.get_tile(0, 3).is_none());
    assert!(field.get_tile(-1, 0).is_none());
    assert!(field.get_tile(0, -1).is_none());
}

#[test]
fn neighbors_are_three_five_or_eight_in_clockwise_order() {
    let field = MineField::new(3, 3);
    let corner = field.get_neighbors(0, 0);
    let coords: Vec<(i32, i32)> = corner.iter().map(|t| t.coords).collect();
    assert_eq!(coords, vec![(1, 0), (1, 1), (0, 1)]);
    assert_eq!(field.get_neighbors(1, 0).len(), 5);
    let inner = field.get_neighbors(1, 1);
    let coords: Vec<(i32, i32)> = inner.iter().map(|t| t.coords).collect();
    assert_eq!(
        coords,
        vec![(0, 0), (1, 0), (2, 0), (2, 1), (2, 2), (1, 2), (0, 2), (0, 1)]
    );
}

#[test]
fn placement_counts_mines_and_clear_target() {
    let mut field = MineField::new(3, 1);
    let placed = field.populate_mines(&vec![MINE_ROLL, 0, MINE_ROLL]);
    assert_eq!(placed, Placement { mined_count: 2, clear_target: 1 });
    assert_eq!(field.remaining_safe_tiles(), 1);
    assert!(field.tile(0).has_mine);
    assert!(!field.tile(1).has_mine);
    assert_eq!(field.tile(1).adjacent_mines, 2);
    assert_eq!(field.tile(0).adjacent_mines, 0);
}

#[test]
fn placement_skips_revealed_tiles_and_counts_them_as_clear() {
    let mut field = MineField::new(2, 1);
    let outcome = field.first_reveal(0, 0, &vec![MINE_ROLL, MINE_ROLL]);
    assert_eq!(outcome, RevealOutcome::Safe);
    assert!(!field.tile(0).has_mine);
    assert!(field.tile(1).has_mine);
    assert_eq!(field.tile(0).adjacent_mines, 1);
    assert_eq!(field.remaining_safe_tiles(), 0);
    assert!(field.is_cleared());
}

#[test]
fn recount_twice_changes_nothing() {
    let mut field = MineField::new(3, 3);
    field.populate_mines(&vec![MINE_ROLL, 0, 0, 0, 0, MINE_ROLL, 0, 0, 0]);
    let first: Vec<u8> = (0..9).map(|i| field.tile(i).adjacent_mines).collect();
    assert_eq!(first, vec![0, 2, 1, 1, 2, 0, 0, 1, 1]);
    field.update_neighbors();
    let second: Vec<u8> = (0..9).map(|i| field.tile(i).adjacent_mines).collect();
    assert_eq!(first, second);
}

#[test]
fn first_reveal_origin_is_never_mined() {
    let mut field = MineField::new(3, 3);
    let rolls = vec![MINE_ROLL; 9];
    assert_eq!(field.first_reveal(1, 1, &rolls), RevealOutcome::Safe);
    let origin = field.get_tile(1, 1).unwrap();
    assert!(origin.revealed);
    assert!(!origin.has_mine);
    assert_eq!(origin.adjacent_mines, 8);
    assert_eq!(field.remaining_safe_tiles(), 0);
}

#[test]
fn three_by_three_without_mines_clears_in_one_reveal() {
    let mut field = MineField::new(3, 3);
    let rolls = no_mines(&field);
    let state = step(GameState::PreGame, &mut field, GameEvent::Reveal(0, 0), &rolls);
    assert_eq!(state, GameState::Victory);
    assert_eq!(field.remaining_safe_tiles(), 0);
    assert_eq!(revealed_count(&field), 9);
    assert!(field.is_cleared());
}

#[test]
fn flood_from_origin_lists_the_eight_other_tiles() {
    let mut field = MineField::new(3, 3);
    field.first_reveal(1, 1, &vec![0; 9]);
    assert_eq!(revealed_count(&field), 9);
    let mut other = MineField::new(3, 3);
    other.populate_mines(&vec![0; 9]);
    assert_eq!(other.remaining_safe_tiles(), 9);
    let opened = other.flood_reveal_from_pos(1, 1);
    assert_eq!(opened.len(), 9);
    assert_eq!(opened[0], (0, 0));
    assert_eq!(other.remaining_safe_tiles(), 0);
    assert!(other.get_tile(1, 1).unwrap().revealed);
}

#[test]
fn one_by_one_board_is_won_by_the_first_reveal() {
    let mut field = MineField::new(1, 1);
    let state = step(GameState::PreGame, &mut field, GameEvent::Reveal(0, 0), &vec![MINE_ROLL]);
    assert_eq!(state, GameState::Victory);
    assert!(!field.tile(0).has_mine);
    assert!(field.tile(0).revealed);
    assert_eq!(field.remaining_safe_tiles(), 0);
}

#[test]
fn tile_with_two_mined_neighbours_reveals_alone() {
    let mut field = MineField::new(5, 1);
    let rolls = vec![0, MINE_ROLL, 0, MINE_ROLL, 0];
    let state = step(GameState::PreGame, &mut field, GameEvent::Reveal(0, 0), &rolls);
    assert_eq!(state, GameState::Playing);
    assert_eq!(field.remaining_safe_tiles(), 2);
    assert_eq!(field.get_tile(2, 0).unwrap().adjacent_mines, 2);
    assert_eq!(field.reveal_at(2, 0), RevealOutcome::Safe);
    assert_eq!(field.remaining_safe_tiles(), 1);
    assert!(field.get_tile(2, 0).unwrap().revealed);
    assert!(!field.get_tile(1, 0).unwrap().revealed);
    assert!(!field.get_tile(3, 0).unwrap().revealed);
    assert!(!field.get_tile(4, 0).unwrap().revealed);
}

#[test]
fn flood_stops_at_its_bound_on_an_empty_board() {
    let mut field = MineField::new(20, 20);
    let rolls = no_mines(&field);
    let state = step(GameState::PreGame, &mut field, GameEvent::Reveal(0, 0), &rolls);
    assert_eq!(state, GameState::Playing);
    assert_eq!(revealed_count(&field), 1 + MAX_FLOOD_TILES);
    assert_eq!(field.remaining_safe_tiles(), 399 - MAX_FLOOD_TILES);
    let mut other = MineField::new(20, 20);
    other.populate_mines(&vec![0; 400]);
    let opened = other.flood_reveal_from_pos(10, 10);
    assert_eq!(opened.len(), MAX_FLOOD_TILES);
    let mut seen = opened.clone();
    seen.sort();
    seen.dedup();
    assert_eq!(seen.len(), MAX_FLOOD_TILES);
}

#[test]
fn flood_never_reveals_mines() {
    let mut field = MineField::new(4, 4);
    let mut rolls = vec![0; 16];
    rolls[5] = MINE_ROLL;
    rolls[15] = MINE_ROLL;
    field.first_reveal(0, 3, &rolls);
    for i in 0..field.tile_count() {
        let t = field.tile(i);
        if t.has_mine {
            assert!(!t.revealed);
        }
    }
    assert!(field.get_tile(0, 3).unwrap().revealed);
    assert!(field.get_tile(2, 2).unwrap().revealed);
    assert!(field.get_tile(2, 3).unwrap().revealed);
    assert!(!field.get_tile(3, 0).unwrap().revealed);
    assert_eq!(revealed_count(&field), 6);
    assert_eq!(field.remaining_safe_tiles(), 8);
}

#[test]
fn toggling_a_flag_twice_restores_it() {
    let mut field = MineField::new(2, 2);
    field.populate_mines(&vec![0, 0, 0, MINE_ROLL]);
    assert_eq!(field.toggle_flag(1, 1), Some(true));
    assert!(field.get_tile(1, 1).unwrap().flagged);
    assert_eq!(field.toggle_flag(1, 1), Some(false));
    assert!(!field.get_tile(1, 1).unwrap().flagged);
    assert_eq!(field.toggle_flag(2, 0), None);
}

#[test]
fn flagging_a_revealed_tile_does_nothing() {
    let mut field = MineField::new(2, 1);
    field.populate_mines(&vec![0, MINE_ROLL]);
    assert_eq!(field.reveal_at(0, 0), RevealOutcome::Safe);
    assert_eq!(field.toggle_flag(0, 0), Some(false));
    assert!(!field.get_tile(0, 0).unwrap().flagged);
    assert!(field.get_tile(0, 0).unwrap().revealed);
}

#[test]
fn reveal_outcomes_for_each_kind_of_tile() {
    let mut field = MineField::new(3, 1);
    field.populate_mines(&vec![0, MINE_ROLL, 0]);
    assert_eq!(field.reveal_at(5, 0), RevealOutcome::OutOfBounds);
    assert_eq!(field.toggle_flag(2, 0), Some(true));
    assert_eq!(field.reveal_at(2, 0), RevealOutcome::Flagged);
    assert_eq!(field.remaining_safe_tiles(), 2);
    assert_eq!(field.reveal_at(0, 0), RevealOutcome::Safe);
    assert_eq!(field.remaining_safe_tiles(), 1);
    assert_eq!(field.reveal_at(0, 0), RevealOutcome::AlreadyRevealed);
    assert_eq!(field.remaining_safe_tiles(), 1);
    assert_eq!(field.reveal_at(1, 0), RevealOutcome::Mine);
    assert_eq!(field.remaining_safe_tiles(), 1);
    assert!(field.get_tile(1, 0).unwrap().has_mine);
}

#[test]
fn revealing_the_last_safe_tile_wins() {
    let mut field = MineField::new(3, 1);
    let rolls = vec![0, MINE_ROLL, 0];
    let state = step(GameState::PreGame, &mut field, GameEvent::Reveal(0, 0), &rolls);
    assert_eq!(state, GameState::Playing);
    assert!(!field.is_cleared());
    let state = step(state, &mut field, GameEvent::Reveal(2, 0), &rolls);
    assert_eq!(state, GameState::Victory);
    assert!(field.is_cleared());
}

#[test]
fn revealing_a_mine_loses_and_restart_brings_a_fresh_board() {
    let mut field = MineField::new(3, 1);
    let rolls = vec![0, MINE_ROLL, 0];
    let state = step(GameState::PreGame, &mut field, GameEvent::Reveal(0, 0), &rolls);
    let state = step(state, &mut field, GameEvent::Flag(2, 0), &rolls);
    assert_eq!(state, GameState::Playing);
    assert!(field.get_tile(2, 0).unwrap().flagged);
    let state = step(state, &mut field, GameEvent::Reveal(1, 0), &rolls);
    assert_eq!(state, GameState::GameOver);
    let state = step(state, &mut field, GameEvent::Reveal(2, 0), &rolls);
    assert_eq!(state, GameState::GameOver);
    let state = step(state, &mut field, GameEvent::Restart, &rolls);
    assert_eq!(state, GameState::PreGame);
    assert!(!field.mines_placed());
    assert_eq!(field.tile_count(), 3);
    assert_eq!(revealed_count(&field), 0);
}

#[test]
fn pre_game_ignores_flags_and_off_board_reveals() {
    let mut field = MineField::new(2, 2);
    let rolls = no_mines(&field);
    let state = step(GameState::PreGame, &mut field, GameEvent::Flag(0, 0), &rolls);
    assert_eq!(state, GameState::PreGame);
    assert!(!field.get_tile(0, 0).unwrap().flagged);
    let state = step(state, &mut field, GameEvent::Reveal(2, 2), &rolls);
    assert_eq!(state, GameState::PreGame);
    assert!(!field.mines_placed());
}

#[test]
fn danger_levels_follow_neighbour_counts() {
    assert_eq!(danger_level(0), DangerLevel::Low);
    assert_eq!(danger_level(1), DangerLevel::Low);
    assert_eq!(danger_level(2), DangerLevel::Medium);
    assert_eq!(danger_level(3), DangerLevel::High);
    assert_eq!(danger_level(8), DangerLevel::High);
    assert_eq!(danger_level(-1), DangerLevel::High);
}
