use raptor::config;
use raptor::qbert::{Enemy, QbertPhase, QbertSim};

fn sim() -> QbertSim {
    QbertSim::new(5, 200)
}

#[test]
fn the_same_seed_builds_the_same_pyramid() {
    assert_eq!(sim(), sim());
}

#[test]
fn hops_light_cubes_and_stay_on_the_pyramid() {
    let mut game = sim();
    game.hop(-1, 0); // down-left from the top
    assert_eq!((game.row, game.index), (1, 0));
    game.hop(1, 0); // down-right
    assert_eq!((game.row, game.index), (2, 1));
    game.hop(1, 0);
    game.hop(1, 0);
    game.hop(1, 0);
    let (row, index) = (game.row, game.index);
    game.hop(1, 0); // off the bottom edge, ignored
    assert_eq!((game.row, game.index), (row, index));
}

#[test]
fn hopping_up_right_from_the_left_edge_is_safe() {
    let mut game = sim();
    game.row = 1;
    game.index = 0;
    game.hop(0, -1); // no cube up-right of the left edge: must not panic
    assert_eq!((game.row, game.index), (1, 0));
}

#[test]
fn restarting_relays_the_pyramid() {
    let mut game = sim();
    game.lit.clear();
    game.restart();
    assert_eq!(game.lit, sim().lit);
    assert_eq!(game.phase, QbertPhase::Hopping);
}

#[test]
fn cubes_are_numbered_row_by_row() {
    assert_eq!(QbertSim::cube_index(0, 0), 0);
    assert_eq!(QbertSim::cube_index(1, 1), 2);
    assert_eq!(QbertSim::cube_index(3, 2), 8);
    let game = sim();
    assert_eq!(game.lit.len(), QbertSim::cube_index(config::QBERT_ROWS, 0));
    assert!(game.lit[0]);
    assert!(game.lit.iter().skip(1).all(|lit| !lit));
}

#[test]
fn hopping_lights_the_landing_cube() {
    let mut game = sim();
    game.hop(1, 0);
    assert!(game.lit[QbertSim::cube_index(1, 1)]);
    game.hop(0, 1); // up-left from the right edge has no cube
    assert_eq!((game.row, game.index), (1, 1));
    game.hop(0, -1); // up-right back to the top
    assert_eq!((game.row, game.index), (0, 0));
}

#[test]
fn enemies_move_on_their_clock() {
    let mut game = sim();
    let before = game.enemies.clone();
    game.settle(true, false);
    assert_ne!(game.enemies, before, "enemies should hop on the clock");
    for enemy in &game.enemies {
        assert!(enemy.row < config::QBERT_ROWS && enemy.index <= enemy.row);
    }
}

#[test]
fn lighting_every_cube_wins() {
    let mut game = sim();
    game.lit.fill(true);
    let events = game.settle(false, false);
    assert!(events.cleared);
    assert_eq!(game.phase, QbertPhase::Won);
}

#[test]
fn an_enemy_on_the_riders_cube_costs_a_life_only_when_vulnerable() {
    let mut game = sim();
    game.row = 2;
    game.index = 1;
    game.enemies[0] = Enemy { row: 2, index: 1 };
    let events = game.settle(false, false);
    assert!(!events.lost_life);
    assert_eq!(game.lives, config::QBERT_LIVES);
    let events = game.settle(false, true);
    assert!(events.lost_life);
    assert_eq!(game.lives, config::QBERT_LIVES - 1);
    assert_eq!((game.row, game.index), (0, 0));
}

#[test]
fn the_last_life_ends_the_run() {
    let mut game = sim();
    game.lives = 1;
    game.enemies[0] = Enemy { row: 0, index: 0 };
    let events = game.settle(false, true);
    assert!(events.lost_life);
    assert_eq!(game.phase, QbertPhase::Lost);
    // An ended run no longer moves.
    game.hop(1, 0);
    assert_eq!((game.row, game.index), (0, 0));
}

#[test]
fn qbert_phase_labels() {
    assert_eq!(QbertPhase::Hopping.label(), "HOPPING");
    assert_eq!(QbertPhase::Won.label(), "LIT");
    assert_eq!(QbertPhase::Lost.label(), "FELL");
}

#[test]
fn an_enemy_on_the_same_cube_costs_a_life() {
    let mut game = sim();
    // A rider past the grace period, with an enemy landing on its cube.
    game.enemies[0] = Enemy {
        row: game.row,
        index: game.index,
    };
    let events = game.settle(false, true);
    assert!(events.lost_life);
    assert_eq!(game.lives, config::QBERT_LIVES - 1);
}

#[test]
fn the_status_line_shows_lives_and_the_phase() {
    let mut game = sim();
    assert_eq!(
        game.status_text("build.zig", "Zig", "RIDE"),
        "QBERT LIVES 3 | RING: build.zig | Zig | RIDE | HOPPING"
    );
    game.lit.fill(true);
    game.settle(false, false);
    assert_eq!(
        game.status_text("build.zig", "Zig", "RIDE"),
        "QBERT LIVES 3 | RING: build.zig | Zig | RIDE | LIT"
    );
}
