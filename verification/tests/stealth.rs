use raptor::grid::Heading;
use raptor::stealth::{step_cell, Guard, Patrol, StealthEvents, StealthPhase, StealthSim};

fn sim(seed: u64) -> StealthSim {
    StealthSim::new(seed)
}

#[test]
fn the_same_seed_builds_the_same_room() {
    assert_eq!(sim(4).cover, sim(4).cover);
    assert_eq!(sim(4).guards, sim(4).guards);
    assert!(
        !sim(4).cover.is_empty(),
        "there should be cover to hide behind"
    );
}

#[test]
fn the_spawn_and_the_door_stay_clear() {
    let room = sim(2);
    assert!(!room.is_solid(room.character));
    assert!(!room.is_solid(room.exit));
    assert_ne!(room.character, room.exit);
}

#[test]
fn every_guard_lane_is_walkable_end_to_end() {
    let room = sim(9);
    for guard in &room.guards {
        for position in guard.patrol.min..=guard.patrol.max {
            let cell = guard.patrol.cell(position);
            assert!(
                !room.cover.contains(&cell),
                "cover blocks a lane at {cell:?}"
            );
            assert!(room.in_bounds(cell), "lane leaves the room at {cell:?}");
        }
    }
}

#[test]
fn ticking_into_the_wall_never_leaves_the_room() {
    let mut room = sim(1);
    room.heading = Heading::NegX;
    let mut events = StealthEvents::default();
    for _ in 0..200 {
        room.set_input(0, false);
        room.tick(&mut events);
    }
    assert!(room.in_bounds(room.character), "the character left the room at {:?}", room.character);
    assert_eq!(room.character.0, -9);
}

#[test]
fn waiting_holds_position() {
    let mut room = sim(1);
    room.guards.clear();
    let before = room.character;
    let mut events = StealthEvents::default();
    for _ in 0..30 {
        room.set_input(0, true);
        room.tick(&mut events);
    }
    assert_eq!(room.character, before, "holding should not move the character");
    assert!(!events.stepped);
}

#[test]
fn stepping_into_the_door_escapes() {
    let mut room = sim(1);
    room.guards.clear();
    let exit = room.exit;
    room.cover.clear();
    room.character = (exit.0 - 1, exit.1);
    room.heading = Heading::PosX;
    room.set_input(0, false);
    let mut events = StealthEvents::default();
    room.tick(&mut events);
    assert!(events.escaped && events.stepped);
    assert_eq!(room.phase, StealthPhase::Escaped);
    assert_eq!(room.steps, 1);
}

#[test]
fn steering_turns_left_and_right_as_mirror_images() {
    let mut room = sim(1);
    room.heading = Heading::PosX;
    room.set_input(1, true);
    room.steer();
    assert_eq!(room.heading, Heading::PosZ);
    room.set_input(-1, true);
    room.steer();
    assert_eq!(room.heading, Heading::PosX);
    room.set_input(-5, true);
    room.steer();
    assert_eq!(room.heading, Heading::NegZ);
}

#[test]
fn cover_blocks_a_step() {
    let mut room = sim(1);
    room.guards.clear();
    room.character = (0, 0);
    room.heading = Heading::PosZ;
    room.cover.insert((0, 1));
    room.set_input(0, false);
    let mut events = StealthEvents::default();
    room.tick(&mut events);
    assert_eq!(room.character, (0, 0));
    assert!(!events.stepped);
}

#[test]
fn guards_walk_their_lanes_and_turn_round_at_the_ends() {
    let mut room = sim(1);
    room.guards = vec![Guard {
        patrol: Patrol { horizontal: true, lane: 0, min: -2, max: 2, dir: 1 },
        position: 1,
    }];
    room.set_input(0, true);
    let mut events = StealthEvents::default();
    room.tick(&mut events);
    assert_eq!(room.guards[0].position, 2);
    assert_eq!(room.guards[0].patrol.dir, -1);
    assert_eq!(room.guards[0].patrol.heading(), Heading::NegX);
    room.tick(&mut events);
    assert_eq!(room.guards[0].position, 1);
    assert_eq!(room.guards[0].cell(), (1, 0));
}

#[test]
fn steps_follow_the_heading() {
    assert_eq!(step_cell((0, 0), Heading::PosX), (1, 0));
    assert_eq!(step_cell((0, 0), Heading::NegX), (-1, 0));
    assert_eq!(step_cell((0, 0), Heading::PosZ), (0, 1));
    assert_eq!(step_cell((0, 0), Heading::NegZ), (0, -1));
}

#[test]
fn restarting_rebuilds_the_same_room() {
    let mut room = sim(6);
    room.cover.clear();
    room.character = (0, 0);
    room.restart();
    assert_eq!(room, sim(6));
}

#[test]
fn stealth_phase_labels() {
    assert_eq!(StealthPhase::Sneaking.label(), "SNEAKING");
    assert_eq!(StealthPhase::Escaped.label(), "ESCAPED");
    assert_eq!(StealthPhase::Caught.label(), "SPOTTED");
}

/// One fixed step of the room as a frame drives it: the turn applies at once,
/// then everyone moves a cell while the run is still on.
fn step_once(room: &mut StealthSim) -> StealthEvents {
    let mut events = StealthEvents::default();
    room.steer();
    if room.phase == StealthPhase::Sneaking {
        assert!(room.can_tick());
        room.tick(&mut events);
    }
    events
}

#[test]
fn walking_out_of_the_room_is_impossible() {
    let mut room = sim(1);
    // March at the west wall for a long time; the walk must stop at the edge.
    room.heading = Heading::NegX;
    for _ in 0..200 {
        room.set_input(0, false);
        step_once(&mut room);
    }
    assert!(
        room.in_bounds(room.character),
        "the character left the room at {:?}",
        room.character
    );
    assert_eq!(room.character.0, -room.bounds.0 + 1);
}

#[test]
fn reaching_the_door_ends_the_run() {
    let mut room = sim(1);
    room.guards.clear();
    let exit = room.exit;
    room.character = (exit.0 - 1, exit.1);
    room.heading = Heading::PosX;
    let mut escaped = false;
    for _ in 0..60 {
        room.set_input(0, false);
        if step_once(&mut room).escaped {
            escaped = true;
            break;
        }
    }
    assert!(escaped, "walking into the door should leave the room");
    assert_eq!(room.phase, StealthPhase::Escaped);
}

#[test]
fn holding_position_waits_for_the_patrol_to_pass() {
    let mut room = sim(1);
    room.guards.clear();
    let before = room.character;
    for _ in 0..30 {
        room.set_input(0, true);
        step_once(&mut room);
    }
    assert_eq!(
        room.character, before,
        "holding should not move the character"
    );
}

#[test]
fn turning_left_and_right_are_mirror_images() {
    let mut room = sim(1);
    room.heading = Heading::PosX;
    room.set_input(1, true);
    step_once(&mut room);
    assert_eq!(room.heading, Heading::PosZ);
    room.set_input(-1, true);
    step_once(&mut room);
    assert_eq!(room.heading, Heading::PosX);
    room.set_input(-1, true);
    step_once(&mut room);
    assert_eq!(room.heading, Heading::NegZ);
}

#[test]
fn the_room_is_half_its_size_each_way() {
    let room = sim(3);
    assert_eq!(room.bounds, (10, 7));
    assert!(room.in_bounds((9, -6)));
    assert!(!room.in_bounds((10, 0)));
    assert!(!room.in_bounds((0, -7)));
}

#[test]
fn the_status_line_shows_the_phase_and_the_meter() {
    let room = sim(1);
    assert_eq!(
        room.status_text(42, "run.sh", "Shell", "RIDE"),
        "STEALTH SNEAKING | DETECT 42% | RING: run.sh | Shell | RIDE"
    );
    assert_eq!(
        room.status_text(100, "run.sh", "Shell", "RIDE"),
        "STEALTH SNEAKING | DETECT 100% | RING: run.sh | Shell | RIDE"
    );
}
