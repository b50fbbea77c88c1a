use raptor::config;
use raptor::grid::chebyshev;
use raptor::lcg::{next_unit, scale_draw};
use raptor::snake::SnakeSim;

/// A 21x21 block of cells, plenty for a scatter.
fn cells() -> Vec<(i32, i32)> {
    (-10..=10)
        .flat_map(|x| (-10..=10).map(move |z| (x, z)))
        .collect()
}

#[test]
fn the_same_seed_scatters_the_same_food() {
    let first = SnakeSim::new(9, (0, 0), &cells(), 6);
    let second = SnakeSim::new(9, (0, 0), &cells(), 6);
    assert_eq!(first.food, second.food);
    assert_eq!(first.food.len(), 6);
}

#[test]
fn food_is_distinct_and_clear_of_the_spawn() {
    let sim = SnakeSim::new(4, (0, 0), &cells(), 6);
    assert_eq!(sim.food.len(), 6);
    for (index, food) in sim.food.iter().enumerate() {
        assert!(
            chebyshev(food.cell, (0, 0)) >= config::SNAKE_MIN_FOOD_DISTANCE,
            "food landed on top of the rider"
        );
        for other in &sim.food[index + 1..] {
            assert_ne!(food.cell, other.cell, "food cells must be distinct");
        }
    }
}

#[test]
fn a_tight_ring_still_gets_a_full_set() {
    // Four cells only, and all within the preferred spacing.
    let tight = [(1, 1), (1, 2), (2, 1), (2, 2)];
    let sim = SnakeSim::new(1, (0, 0), &tight, 4);
    assert_eq!(sim.food.len(), 4);
    assert_eq!(sim.remaining(), 4);
}

#[test]
fn eating_grows_the_tail_and_opens_the_exit_at_the_target() {
    let mut sim = SnakeSim::new(3, (0, 0), &cells(), 3);
    let start = sim.max_tail;

    let food: Vec<_> = sim.food.iter().map(|food| food.cell).collect();
    let first = sim.eat(food[0]);
    assert!(first.ate);
    assert!(!first.opened_exit);
    assert_eq!(sim.max_tail, start + config::SNAKE_TAIL_GROWTH);
    assert_eq!(sim.remaining(), 2);

    // Eating the same cell again does nothing.
    assert!(!sim.eat(food[0]).ate);
    assert_eq!(sim.remaining(), 2);

    sim.eat(food[1]);
    let last = sim.eat(food[2]);
    assert!(last.ate);
    assert!(last.opened_exit, "the exit opens on the last power-up");
    assert!(sim.exit_open);
    assert_eq!(sim.remaining(), 0);
}

#[test]
fn the_tail_is_trimmed_to_the_current_length() {
    let sim = SnakeSim::new(5, (0, 0), &cells(), 1);
    let body: Vec<(i32, i32)> = (0..12).map(|x| (x, 0)).collect();
    let mut trail = body.clone();
    let dropped = sim.trim_tail(&mut trail);
    assert_eq!(dropped, body.len() - config::SNAKE_TAIL_START);
    assert_eq!(trail.len(), config::SNAKE_TAIL_START);
    // The newest cells survive; the oldest fall off the back.
    assert!(trail.contains(&(11, 0)));
    assert!(!trail.contains(&(0, 0)));
}

#[test]
fn a_crash_is_reported_exactly_once() {
    let mut sim = SnakeSim::new(1, (0, 0), &cells(), 1);
    assert!(sim.note_crash());
    assert!(!sim.note_crash());
}

#[test]
fn a_short_trail_is_left_whole() {
    let sim = SnakeSim::new(5, (0, 0), &cells(), 1);
    let mut trail: Vec<(i32, i32)> = vec![(0, 0), (1, 0)];
    assert_eq!(sim.trim_tail(&mut trail), 0);
    assert_eq!(trail, vec![(0, 0), (1, 0)]);
}

#[test]
fn an_empty_ring_gets_no_food_and_an_open_exit() {
    let sim = SnakeSim::new(7, (0, 0), &[], 0);
    assert!(sim.food.is_empty());
    assert_eq!(sim.target, 0);
    assert_eq!(sim.remaining(), 0);
    assert!(sim.exit_open);
}

#[test]
fn no_power_up_lands_on_the_spawn_even_in_a_tight_ring() {
    let sim = SnakeSim::new(1, (0, 0), &[(0, 0), (1, 0)], 1);
    assert_eq!(sim.food.len(), 1);
    assert_eq!(sim.food[0].cell, (1, 0));
    // With the spawn the only cell, nothing is placed and the way out is open.
    let alone = SnakeSim::new(1, (0, 0), &[(0, 0)], 3);
    assert!(alone.food.is_empty());
    assert!(alone.exit_open);
}

#[test]
fn the_exit_opens_on_the_last_power_up_placed() {
    // Two asked for, room for only one: eating that one opens the exit.
    let mut sim = SnakeSim::new(1, (0, 0), &[(1, 1)], 2);
    assert_eq!(sim.food.len(), 1);
    assert_eq!(sim.target, 1);
    assert!(!sim.exit_open);
    let events = sim.eat((1, 1));
    assert!(events.ate && events.opened_exit);
    assert!(sim.exit_open);
    assert_eq!(sim.remaining(), 0);
}

#[test]
fn a_ring_with_fewer_cells_than_the_target_uses_every_cell_once() {
    let cells = [(5, 5), (6, 5), (5, 5)];
    let sim = SnakeSim::new(2, (0, 0), &cells, 6);
    let mut found: Vec<(i32, i32)> = sim.food.iter().map(|f| f.cell).collect();
    found.sort();
    assert_eq!(found, vec![(5, 5), (6, 5)]);
}

#[test]
fn eating_where_no_food_lies_changes_nothing() {
    let mut sim = SnakeSim::new(3, (0, 0), &cells(), 3);
    let before = sim.clone();
    let events = sim.eat((100, 100));
    assert!(!events.ate);
    assert!(!events.opened_exit);
    assert_eq!(sim, before);
}

#[test]
fn the_generator_draw_has_the_documented_value() {
    let mut rng: u64 = 9;
    let numerator = next_unit(&mut rng);
    assert_eq!(rng, 3379688834381445604);
    assert_eq!(numerator, 3073809);
    let mut rng: u64 = 1;
    assert_eq!(next_unit(&mut rng), 7100271);
    assert_eq!(rng, 7806831264735756412);
}

#[test]
fn scaling_a_draw_matches_single_precision() {
    let counts: [usize; 10] = [1, 2, 3, 4, 7, 10, 16, 441, 1_000_003, 123_456_789];
    let mut rng: u64 = 12345;
    for _ in 0..2000 {
        let numerator = next_unit(&mut rng);
        for &count in &counts {
            let unit = numerator as f32 / (1_u32 << 24) as f32;
            let expected = (unit * count as f32) as usize;
            assert_eq!(scale_draw(numerator, count), expected, "numerator {numerator} count {count}");
        }
    }
    // Values that need rounding: an odd numerator times a count past 2^24.
    for numerator in [0x00ff_ffffu64, 0x00ab_cdef, 1, 0x0080_0001] {
        for count in [(1usize << 25) + 3, usize::MAX, (1usize << 40) + 12345] {
            let unit = numerator as f32 / (1_u32 << 24) as f32;
            let expected = (unit * count as f32) as usize;
            assert_eq!(scale_draw(numerator, count), expected, "numerator {numerator} count {count}");
        }
    }
}

#[test]
fn the_status_line_counts_food_and_shows_the_exit() {
    let mut sim = SnakeSim::new(9, (0, 0), &cells(), 6);
    let ride = "MODE: LIGHTCYCLE | BUS TRACE: 12";
    assert_eq!(
        sim.status_text("main.py", "Python", ride),
        "SNAKE 0 | LEFT 6 | TAIL 8 | RING: main.py | Python | MODE: LIGHTCYCLE | BUS TRACE: 12 | EXIT: LOCKED"
    );
    let spots: Vec<(i32, i32)> = sim.food.iter().map(|f| f.cell).collect();
    for cell in &spots {
        sim.eat(*cell);
    }
    assert_eq!(
        sim.status_text("main.py", "Python", ride),
        "SNAKE 6 | LEFT 0 | TAIL 32 | RING: main.py | Python | MODE: LIGHTCYCLE | BUS TRACE: 12 | EXIT: OPEN"
    );
}
