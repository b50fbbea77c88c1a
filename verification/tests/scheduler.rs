use raptor::scheduler::{next_cell, start_cells, RaceSim, Racer};
use std::collections::BTreeSet;

fn road(cells: &[(i32, i32)]) -> BTreeSet<(i32, i32)> {
    cells.iter().copied().collect()
}

#[test]
fn a_racer_steps_toward_the_gate_and_never_reverses() {
    let roads = road(&[(0, 0), (1, 0), (2, 0), (3, 0)]);
    let mut racer = Racer {
        cell: (0, 0),
        prev: None,
        travelled: 0,
    };
    racer.prev = Some(racer.cell);
    racer.cell = next_cell(&racer, (3, 0), &roads).expect("a step");
    assert_eq!(racer.cell, (1, 0));
    // From here the only closing road is onward; the cell behind is skipped.
    assert_eq!(next_cell(&racer, (3, 0), &roads), Some((2, 0)));
}

#[test]
fn a_thread_in_a_dead_end_walks_back_out() {
    let roads = road(&[(0, 0), (1, 0)]);
    let racer = Racer {
        cell: (1, 0),
        prev: Some((0, 0)),
        travelled: 1,
    };
    assert_eq!(next_cell(&racer, (9, 9), &roads), Some((0, 0)));
}

#[test]
fn a_boxed_in_thread_has_nowhere_to_go() {
    let roads = road(&[(0, 0)]);
    let racer = Racer {
        cell: (0, 0),
        prev: None,
        travelled: 0,
    };
    assert_eq!(next_cell(&racer, (5, 5), &roads), None);
}

#[test]
fn threads_start_across_the_directory_not_on_the_gate() {
    let roads = road(&[(0, 0), (1, 0), (2, 0), (3, 0), (4, 0)]);
    let starts = start_cells(&roads, (0, 0), 2);
    assert_eq!(starts, vec![(4, 0), (3, 0)]);
    assert!(!starts.contains(&(0, 0)), "never on the goal itself");
}

#[test]
fn the_race_moves_one_cell_per_step_and_reports_the_arrival() {
    let roads = road(&[(0, 0), (1, 0), (2, 0)]);
    let mut race = RaceSim::new(vec![(0, 0)], (2, 0));
    assert!(race.can_step(&roads));
    // The first step lands beside the goal, which already counts.
    let events = race.step(&roads);
    assert!(events.rival_reached_gate, "adjacency is an arrival");
    assert_eq!(race.racers[0].cell, (1, 0));
    assert_eq!(race.racers[0].travelled, 1);
    assert_eq!(race.racers[0].prev, Some((0, 0)));
    // A thread at the goal stays put but keeps reporting.
    let events = race.step(&roads);
    assert!(events.rival_reached_gate);
    assert_eq!(race.racers[0].cell, (1, 0));
    assert_eq!(race.racers[0].travelled, 1);
}

#[test]
fn ties_break_on_the_neighbour_order() {
    // Both (1, 0) and (0, 1) close on (5, 5) equally; +X is tried first.
    let roads = road(&[(0, 0), (1, 0), (0, 1), (-1, 0), (0, -1)]);
    let racer = Racer { cell: (0, 0), prev: None, travelled: 0 };
    assert_eq!(next_cell(&racer, (5, 5), &roads), Some((1, 0)));
    // With +X behind it, +Z wins over the farther cells.
    let racer = Racer { cell: (0, 0), prev: Some((1, 0)), travelled: 3 };
    assert_eq!(next_cell(&racer, (5, 5), &roads), Some((0, 1)));
}

#[test]
fn start_cells_break_distance_ties_in_row_major_order_and_skip_the_gate_ring() {
    let roads = road(&[(0, 0), (1, 0), (0, 1), (2, 0), (0, 2), (-2, 0), (1, 1)]);
    let starts = start_cells(&roads, (0, 0), 10);
    assert_eq!(starts, vec![(-2, 0), (0, 2), (1, 1), (2, 0)]);
    assert!(start_cells(&roads, (0, 0), 0).is_empty());
}

#[test]
fn a_race_with_no_starts_never_reports() {
    let roads = road(&[(0, 0)]);
    let mut race = RaceSim::new(Vec::new(), (0, 0));
    assert!(!race.step(&roads).rival_reached_gate);
    assert!(race.racers.is_empty());
}

#[test]
fn finishing_counts_the_goal_and_its_four_neighbours() {
    let racer = Racer { cell: (3, 4), prev: None, travelled: 0 };
    assert!(racer.finished((3, 4)));
    assert!(racer.finished((3, 5)));
    assert!(racer.finished((2, 4)));
    assert!(!racer.finished((4, 5)));
    assert!(!racer.finished((3, 6)));
}

#[test]
fn a_step_that_would_overflow_is_refused_up_front() {
    let roads = road(&[(i32::MAX, 0)]);
    let race = RaceSim::new(vec![(i32::MAX, 0)], (0, 0));
    assert!(!race.can_step(&roads));
}
