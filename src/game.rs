use vstd::prelude::*;

use crate::minefield::{flag_toggled, MineField, RevealOutcome};

verus! {

/// Phase of one game.
#[derive(Clone, Copy, Debug, PartialEq, Eq, Structural)]
pub enum GameState {
    PreGame,
    Playing,
    GameOver,
    Victory,
}

/// A player action, already mapped to tile coordinates.
#[derive(Clone, Copy, Debug, PartialEq, Eq, Structural)]
pub enum GameEvent {
    Reveal(i32, i32),
    Flag(i32, i32),
    Restart,
}

/// The phase agrees with the board: mines are placed once play has begun,
/// a game in play still has hidden mine-free tiles, and a won game has none.
pub open spec fn phase_matches(state: GameState, field: &MineField) -> bool {
    &&& field.wf()
    &&& (state == GameState::PreGame) == !field.placed()
    &&& state == GameState::Playing ==> field.remaining() > 0
    &&& state == GameState::Victory ==> field.remaining() == 0
}

/// Applies `event` to the game in phase `state` with board `field` and
/// returns the next phase. `rolls` (one per tile, drawn from
/// `0..=MINE_CHANCE`) places the mines on the first reveal.
///
/// Before play, a reveal on the board starts the game (won at once if no
/// mine-free tile is left hidden); flags are ignored. In play, revealing a
/// mine loses, revealing the last hidden mine-free tile wins, and flags
/// toggle. Once play has begun, a restart brings back a fresh board of the
/// same size; other events after the game ended change nothing.
pub fn step(state: GameState, field: &mut MineField, event: GameEvent, rolls: &Vec<i32>) -> (r: GameState)
    requires
        phase_matches(state, old(field)),
        state == GameState::PreGame ==> rolls@.len() == old(field).tiles().len(),
    ensures
        phase_matches(r, final(field)),
        final(field).width() == old(field).width(),
        final(field).height() == old(field).height(),
        match (state, event) {
            (GameState::PreGame, GameEvent::Reveal(x, y)) => {
                &&& old(field).first_reveal_effect(final(field), x as int, y as int, rolls@)
                &&& r == if old(field).first_reveal_outcome(x as int, y as int) != RevealOutcome::Safe {
                    GameState::PreGame
                } else if final(field).remaining() == 0 {
                    GameState::Victory
                } else {
                    GameState::Playing
                }
            },
            (GameState::Playing, GameEvent::Reveal(x, y)) => {
                &&& old(field).reveal_effect(final(field), x as int, y as int)
                &&& r == if old(field).reveal_outcome(x as int, y as int) == RevealOutcome::Mine {
                    GameState::GameOver
                } else if final(field).remaining() == 0 {
                    GameState::Victory
                } else {
                    GameState::Playing
                }
            },
            (GameState::Playing, GameEvent::Flag(x, y)) => {
                &&& r == GameState::Playing
                &&& final(field).tiles() == flag_toggled(
                    old(field).tiles(),
                    old(field).width(),
                    old(field).height(),
                    x as int,
                    y as int,
                )
                &&& final(field).remaining() == old(field).remaining()
            },
            (GameState::PreGame, _) => r == GameState::PreGame && final(field).unchanged_from(old(field)),
            (_, GameEvent::Restart) => r == GameState::PreGame && final(field).fresh(),
            _ => r == state && final(field).unchanged_from(old(field)),
        },
{
    match event {
        GameEvent::Restart => {
            if state == GameState::PreGame {
                state
            } else {
                let w = field.width_in_tiles();
                let h = field.height_in_tiles();
                let n = field.tile_count();
                proof {
                    assert(w * h == n);
                }
                *field = MineField::new(w, h);
                GameState::PreGame
            }
        },
        GameEvent::Reveal(x, y) => {
            if state == GameState::PreGame {
                let outcome = field.first_reveal(x, y, rolls);
                if outcome != RevealOutcome::Safe {
                    GameState::PreGame
                } else if field.is_cleared() {
                    GameState::Victory
                } else {
                    GameState::Playing
                }
            } else if state == GameState::Playing {
                let outcome = field.reveal_at(x, y);
                if outcome == RevealOutcome::Mine {
                    GameState::GameOver
                } else if field.is_cleared() {
                    GameState::Victory
                } else {
                    GameState::Playing
                }
            } else {
                state
            }
        },
        GameEvent::Flag(x, y) => {
            if state == GameState::Playing {
                let _ = field.toggle_flag(x, y);
                state
            } else {
                state
            }
        },
    }
}

} // verus!
