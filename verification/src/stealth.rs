//! Stealth run: sneak past the patrols and out the far door.
//!
//! The room is a cell grid on the `X`/`Z` plane. The character creeps one cell
//! per tick and is turned with left/right; holding the wait input stays put.
//! Guards walk back-and-forth lanes. Sight lines, the detection meter and the
//! clocks that decide when a tick is due belong to the caller.
use std::collections::BTreeSet;
use vstd::prelude::*;
use crate::config::{STEALTH_COVER, STEALTH_HEIGHT, STEALTH_WIDTH};
use crate::grid::{chebyshev, chebyshev_spec, Heading};
use crate::lcg::{lcg_next, next_unit, scale_draw, scaled_draw, unit_numerator};
use crate::status::{decimal, push_decimal};
use vstd::string::StringExecFns;

verus! {

broadcast use {vstd::std_specs::btree::group_btree_axioms, vstd::laws_cmp::group_laws_cmp};

/// A back-and-forth lane a guard walks. `horizontal` lanes run along `X`,
/// otherwise along `Z`.
#[derive(Debug, Clone, Copy, PartialEq, Eq, Structural)]
pub struct Patrol {
    pub horizontal: bool,
    /// Fixed `Z` for a horizontal lane, fixed `X` otherwise.
    pub lane: i32,
    pub min: i32,
    pub max: i32,
    /// `1` toward `max`, `-1` toward `min`.
    pub dir: i32,
}

/// One patrolling enemy: its lane and where along the lane it stands.
#[derive(Debug, Clone, Copy, PartialEq, Eq, Structural)]
pub struct Guard {
    pub patrol: Patrol,
    /// Position along the lane, in cells.
    pub position: i32,
}

#[derive(Debug, Clone, Copy, PartialEq, Eq, Structural)]
pub enum StealthPhase {
    Sneaking,
    /// Reached the door.
    Escaped,
    /// The detection meter filled.
    Caught,
}

/// What one fixed step produced, for sound and labels.
#[derive(Debug, Clone, Copy, Default, PartialEq, Eq, Structural)]
pub struct StealthEvents {
    pub stepped: bool,
    /// This is the tick a guard first laid eyes on the character.
    pub spotted: bool,
    pub escaped: bool,
    pub caught: bool,
}

/// One input frame: a tap to turn, and a hold to wait.
#[derive(Debug, Clone, Copy, Default, PartialEq, Eq, Structural)]
pub struct StealthInput {
    /// `-1` turns left, `1` turns right, `0` keeps the current heading.
    pub turn: i32,
    /// Hold to stay put instead of creeping forward.
    pub wait: bool,
}

/// The cell on a lane at `position` along it.
pub open spec fn lane_cell(p: Patrol, position: i32) -> (i32, i32) {
    if p.horizontal { (position, p.lane) } else { (p.lane, position) }
}

/// The heading a guard faces while walking its lane.
pub open spec fn patrol_heading(p: Patrol) -> Heading {
    if p.horizontal {
        if p.dir > 0 { Heading::PosX } else { Heading::NegX }
    } else {
        if p.dir > 0 { Heading::PosZ } else { Heading::NegZ }
    }
}

/// One step along a lane: move by `dir`, turning round at either end.
pub open spec fn patrol_advance(p: Patrol, position: i32) -> (Patrol, i32) {
    let moved = position + p.dir;
    if moved >= p.max {
        (Patrol { dir: -1i32, ..p }, p.max)
    } else if moved <= p.min {
        (Patrol { dir: 1i32, ..p }, p.min)
    } else {
        (p, moved as i32)
    }
}

/// A guard after one step of its patrol.
pub open spec fn guard_advance(g: Guard) -> Guard {
    Guard { patrol: patrol_advance(g.patrol, g.position).0, position: patrol_advance(g.patrol, g.position).1 }
}

/// The cell one step from `cell` along `heading`.
pub open spec fn step_cell_spec(cell: (i32, i32), heading: Heading) -> (i32, i32) {
    match heading {
        Heading::PosX => ((cell.0 + 1) as i32, cell.1),
        Heading::NegX => ((cell.0 - 1) as i32, cell.1),
        Heading::PosZ => (cell.0, (cell.1 + 1) as i32),
        Heading::NegZ => (cell.0, (cell.1 - 1) as i32),
    }
}

/// The coordinate that a step along `heading` moves stays inside `i32`.
pub open spec fn step_fits(cell: (i32, i32), heading: Heading) -> bool {
    match heading {
        Heading::PosX => cell.0 < i32::MAX,
        Heading::NegX => cell.0 > i32::MIN,
        Heading::PosZ => cell.1 < i32::MAX,
        Heading::NegZ => cell.1 > i32::MIN,
    }
}

/// A quarter turn in place: a positive turn goes from `+X` toward `+Z`.
pub open spec fn turn_heading_spec(heading: Heading, turn: i32) -> Heading {
    match heading {
        Heading::PosX => if turn > 0 { Heading::PosZ } else { Heading::NegZ },
        Heading::PosZ => if turn > 0 { Heading::NegX } else { Heading::PosX },
        Heading::NegX => if turn > 0 { Heading::NegZ } else { Heading::PosZ },
        Heading::NegZ => if turn > 0 { Heading::PosX } else { Heading::NegX },
    }
}

impl Patrol {
    /// The cell the guard occupies at `position` along the lane.
    pub fn cell(&self, position: i32) -> (c: (i32, i32))
        ensures
            c == lane_cell(*self, position),
    {
        if self.horizontal { (position, self.lane) } else { (self.lane, position) }
    }

    /// Heading the guard faces as it walks.
    pub fn heading(&self) -> (h: Heading)
        ensures
            h == patrol_heading(*self),
    {
        if self.horizontal {
            if self.dir > 0 { Heading::PosX } else { Heading::NegX }
        } else {
            if self.dir > 0 { Heading::PosZ } else { Heading::NegZ }
        }
    }

    /// Advances the lane, reversing at the ends.
    fn advance(&mut self, position: &mut i32)
        requires
            i32::MIN <= *old(position) + old(self).dir <= i32::MAX,
        ensures
            (*final(self), *final(position)) == patrol_advance(*old(self), *old(position)),
            *final(position) == if *old(position) + old(self).dir >= old(self).max {
                old(self).max as int
            } else if *old(position) + old(self).dir <= old(self).min {
                old(self).min as int
            } else {
                *old(position) + old(self).dir
            },
            old(self).min < old(self).max ==> final(self).dir == if *final(position) == old(self).max {
                -1
            } else if *final(position) == old(self).min {
                1
            } else {
                old(self).dir as int
            },
            final(self).horizontal == old(self).horizontal && final(self).lane == old(self).lane
                && final(self).min == old(self).min && final(self).max == old(self).max,
    {
        *position = *position + self.dir;
        if *position >= self.max {
            *position = self.max;
            self.dir = -1;
        } else if *position <= self.min {
            *position = self.min;
            self.dir = 1;
        }
    }
}

impl Guard {
    /// The cell the guard stands on.
    pub fn cell(&self) -> (c: (i32, i32))
        ensures
            c == lane_cell(self.patrol, self.position),
    {
        self.patrol.cell(self.position)
    }
}

impl StealthPhase {
    /// The status-line word for the phase.
    pub fn label(self) -> (text: &'static str)
        ensures
            self == StealthPhase::Sneaking ==> text@ == "SNEAKING"@,
            self == StealthPhase::Escaped ==> text@ == "ESCAPED"@,
            self == StealthPhase::Caught ==> text@ == "SPOTTED"@,
    {
        match self {
            StealthPhase::Sneaking => "SNEAKING",
            StealthPhase::Escaped => "ESCAPED",
            StealthPhase::Caught => "SPOTTED",
        }
    }
}

/// The cell one step from `cell` along `heading`.
pub fn step_cell(cell: (i32, i32), heading: Heading) -> (next: (i32, i32))
    requires
        step_fits(cell, heading),
    ensures
        next == step_cell_spec(cell, heading),
{
    match heading {
        Heading::PosX => (cell.0 + 1, cell.1),
        Heading::NegX => (cell.0 - 1, cell.1),
        Heading::PosZ => (cell.0, cell.1 + 1),
        Heading::NegZ => (cell.0, cell.1 - 1),
    }
}

/// A quarter turn in place: left is counter-clockwise on the `X`/`Z` plane.
fn turn_heading(heading: Heading, turn: i32) -> (h: Heading)
    ensures
        h == turn_heading_spec(heading, turn),
{
    match heading {
        Heading::PosX => if turn > 0 { Heading::PosZ } else { Heading::NegZ },
        Heading::PosZ => if turn > 0 { Heading::NegX } else { Heading::PosX },
        Heading::NegX => if turn > 0 { Heading::NegZ } else { Heading::PosZ },
        Heading::NegZ => if turn > 0 { Heading::PosX } else { Heading::NegX },
    }
}

} // verus!

verus! {

/// One stealth room and the character sneaking through it.
#[derive(Debug, PartialEq)]
pub struct StealthSim {
    pub character: (i32, i32),
    pub heading: Heading,
    pub guards: Vec<Guard>,
    /// Solid cover. The room's outer walls are implicit.
    pub cover: BTreeSet<(i32, i32)>,
    pub exit: (i32, i32),
    pub phase: StealthPhase,
    pub input: StealthInput,
    /// Cells walked, for the HUD.
    pub steps: usize,
    /// Half the room's extent each way; the walls lie at these magnitudes.
    pub bounds: (i32, i32),
    /// The seed the room was built from, for restarts.
    pub seed: u64,
}

/// The state of a stealth room as mathematics sees it.
#[verifier::ext_equal]
pub struct StealthModel {
    pub character: (i32, i32),
    pub heading: Heading,
    pub guards: Seq<Guard>,
    pub cover: Set<(i32, i32)>,
    pub exit: (i32, i32),
    pub phase: StealthPhase,
    pub input: StealthInput,
    pub steps: nat,
    pub bounds: (i32, i32),
    pub seed: u64,
}

impl View for StealthSim {
    type V = StealthModel;

    open spec fn view(&self) -> StealthModel {
        StealthModel {
            character: self.character,
            heading: self.heading,
            guards: self.guards@,
            cover: self.cover@,
            exit: self.exit,
            phase: self.phase,
            input: self.input,
            steps: self.steps as nat,
            bounds: self.bounds,
            seed: self.seed,
        }
    }
}

impl Clone for StealthSim {
    fn clone(&self) -> (copy: Self)
        ensures
            copy@ == self@,
    {
        StealthSim {
            character: self.character,
            heading: self.heading,
            guards: self.guards.clone(),
            cover: self.cover.clone(),
            exit: self.exit,
            phase: self.phase,
            input: self.input,
            steps: self.steps,
            bounds: self.bounds,
            seed: self.seed,
        }
    }
}

/// Half the room's width and depth: the room spans `-half < x, z < half`.
pub open spec fn room_half() -> (i32, i32) {
    ((STEALTH_WIDTH / 2) as i32, (STEALTH_HEIGHT / 2) as i32)
}

/// Where the character starts: one cell in from the room's low corner.
pub open spec fn room_start() -> (i32, i32) {
    ((-room_half().0 + 1) as i32, (-room_half().1 + 1) as i32)
}

/// The door: one cell in from the room's high corner.
pub open spec fn room_exit() -> (i32, i32) {
    ((room_half().0 - 1) as i32, (room_half().1 - 1) as i32)
}

/// A count truncated into `i32`, saturating at its maximum like a float cast.
pub open spec fn saturate_i32(v: usize) -> i32 {
    if v > i32::MAX { i32::MAX } else { v as i32 }
}

/// The cover the seeded draws place: each try draws an `X` and then a `Z`
/// inside the room's inner area, and keeps the cell unless it crowds the spawn
/// or the door.
pub open spec fn cover_draws(state: u64, tries_left: nat, cover: Set<(i32, i32)>) -> Set<(i32, i32)>
    decreases tries_left,
{
    if cover.len() >= STEALTH_COVER || tries_left == 0 {
        cover
    } else {
        let sx = lcg_next(state);
        let x = (-room_half().0 + 2) + saturate_i32(scaled_draw(unit_numerator(sx), (STEALTH_WIDTH - 4) as nat));
        let sz = lcg_next(sx);
        let z = (-room_half().1 + 2) + saturate_i32(scaled_draw(unit_numerator(sz), (STEALTH_HEIGHT - 4) as nat));
        let cell = (x as i32, z as i32);
        if chebyshev_spec(cell, room_start()) < 3 || chebyshev_spec(cell, room_exit()) < 3 {
            cover_draws(sz, (tries_left - 1) as nat, cover)
        } else {
            cover_draws(sz, (tries_left - 1) as nat, cover.insert(cell))
        }
    }
}

/// The lanes the guards walk: two across the room, one down its middle.
pub open spec fn room_lanes() -> Seq<Patrol> {
    let (half_w, half_h) = room_half();
    let across = half_w - 2;
    seq![
        Patrol { horizontal: true, lane: (-(half_h / 2)) as i32, min: (-across) as i32, max: across as i32, dir: 1 },
        Patrol { horizontal: true, lane: (half_h / 2) as i32, min: (-across) as i32, max: across as i32, dir: -1i32 },
        Patrol { horizontal: false, lane: 0, min: (-half_h + 2) as i32, max: (half_h - 2) as i32, dir: 1 },
    ]
}

/// `cell` lies on lane `p` between its ends.
pub open spec fn on_lane(p: Patrol, cell: (i32, i32)) -> bool {
    exists|pos: i32| p.min <= pos <= p.max && lane_cell(p, pos) == cell
}

/// `cell` lies on one of the room's lanes.
pub open spec fn on_any_lane(cell: (i32, i32)) -> bool {
    exists|k: int| 0 <= k < room_lanes().len() && on_lane(#[trigger] room_lanes()[k], cell)
}

/// The guards a room starts with: one per lane, alternately walking toward the
/// lane's far end from its near end and back from its far end.
pub open spec fn room_guards() -> Seq<Guard> {
    Seq::new(
        room_lanes().len(),
        |k: int| {
            let lane = room_lanes()[k];
            if k % 2 == 0 {
                Guard { patrol: Patrol { dir: 1i32, ..lane }, position: lane.min }
            } else {
                Guard { patrol: Patrol { dir: -1i32, ..lane }, position: lane.max }
            }
        },
    )
}

/// The room a seed builds: drawn cover with every lane kept walkable, the
/// character at the start facing `+X`, and the guards on their lanes.
pub open spec fn stealth_start(seed: u64) -> StealthModel {
    let drawn = cover_draws(seed | 1, (STEALTH_COVER * 40) as nat, Set::empty());
    StealthModel {
        character: room_start(),
        heading: Heading::PosX,
        guards: room_guards(),
        cover: Set::new(|c: (i32, i32)| drawn.contains(c) && !on_any_lane(c)),
        exit: room_exit(),
        phase: StealthPhase::Sneaking,
        input: StealthInput { turn: 0, wait: false },
        steps: 0,
        bounds: room_half(),
        seed,
    }
}

/// `cell` is inside the room's walls.
pub open spec fn inside(bounds: (i32, i32), cell: (i32, i32)) -> bool {
    crate::grid::abs_int(cell.0 as int) < bounds.0 && crate::grid::abs_int(cell.1 as int) < bounds.1
}

/// Nothing can walk into `cell`: it is a wall or cover.
pub open spec fn solid(m: StealthModel, cell: (i32, i32)) -> bool {
    !inside(m.bounds, cell) || m.cover.contains(cell)
}

/// Whether `cell` is inside can be decided in `i32` without overflow.
pub open spec fn inside_fits(bounds: (i32, i32), cell: (i32, i32)) -> bool {
    cell.0 != i32::MIN && (crate::grid::abs_int(cell.0 as int) < bounds.0 ==> cell.1 != i32::MIN)
}

/// Turning applies the latched turn input at once, before any step.
pub open spec fn stealth_steer(m: StealthModel) -> StealthModel {
    let turn: i32 = if m.input.turn > 1 { 1 } else if m.input.turn < -1 { -1i32 } else { m.input.turn };
    if m.phase != StealthPhase::Sneaking || turn == 0 {
        m
    } else {
        StealthModel { heading: turn_heading_spec(m.heading, turn), ..m }
    }
}

/// One quantised step of everyone on the floor: the character creeps a cell
/// ahead unless waiting or blocked, every guard walks its lane, and standing on
/// the door escapes. The events are merged into `events`.
pub open spec fn stealth_tick(m: StealthModel, events: StealthEvents) -> (StealthModel, StealthEvents) {
    let ahead = step_cell_spec(m.character, m.heading);
    let moves = !m.input.wait && !solid(m, ahead);
    let character = if moves { ahead } else { m.character };
    let steps = if moves { m.steps + 1 } else { m.steps };
    let guards = m.guards.map_values(|g: Guard| guard_advance(g));
    let escaped = character == m.exit;
    (
        StealthModel {
            character,
            steps,
            guards,
            phase: if escaped { StealthPhase::Escaped } else { m.phase },
            ..m
        },
        StealthEvents { stepped: events.stepped || moves, escaped: events.escaped || escaped, ..events },
    )
}

/// One tick can be computed without overflow.
pub open spec fn tick_fits(m: StealthModel) -> bool {
    &&& !m.input.wait ==> {
        &&& step_fits(m.character, m.heading)
        &&& inside_fits(m.bounds, step_cell_spec(m.character, m.heading))
        &&& m.steps < usize::MAX
    }
    &&& forall|k: int| 0 <= k < m.guards.len() ==> i32::MIN <= (#[trigger] m.guards[k]).position + m.guards[k].patrol.dir
        <= i32::MAX
}

} // verus!

verus! {

/// Some lane among the first `k` covers `cell`.
pub open spec fn on_lane_before(k: int, cell: (i32, i32)) -> bool {
    exists|j: int| 0 <= j < k && on_lane(#[trigger] room_lanes()[j], cell)
}

/// The lanes the guards walk: two across, one down, all inside the room.
fn guard_lanes(half_w: i32, half_h: i32) -> (lanes: Vec<Patrol>)
    requires
        half_w == room_half().0,
        half_h == room_half().1,
    ensures
        lanes@ == room_lanes(),
{
    let across = half_w - 2;
    let mut lanes: Vec<Patrol> = Vec::new();
    lanes.push(Patrol { horizontal: true, lane: -(half_h / 2), min: -across, max: across, dir: 1 });
    lanes.push(Patrol { horizontal: true, lane: half_h / 2, min: -across, max: across, dir: -1 });
    lanes.push(Patrol { horizontal: false, lane: 0, min: -half_h + 2, max: half_h - 2, dir: 1 });
    assert(lanes@ =~= room_lanes());
    lanes
}

fn saturate_i32_exec(v: usize) -> (r: i32)
    ensures
        r == saturate_i32(v),
{
    if v > i32::MAX as usize { i32::MAX } else { v as i32 }
}

impl StealthSim {
    /// Builds a room from `seed`: cover to hide behind, lanes to slip past.
    pub fn new(seed: u64) -> (sim: Self)
        ensures
            sim@ == stealth_start(seed),
            !solid(sim@, sim.character),
            !solid(sim@, sim.exit),
            sim.character != sim.exit,
            sim.phase == StealthPhase::Sneaking,
            sim.steps == 0,
            room_ok(sim@),
            forall|k: int, position: i32|
                0 <= k < sim.guards@.len() && sim.guards@[k].patrol.min <= position <= sim.guards@[k].patrol.max ==> {
                    let cell = #[trigger] lane_cell(sim.guards@[k].patrol, position);
                    inside(sim.bounds, cell) && !sim.cover@.contains(cell)
                },
    {
        let half_w = STEALTH_WIDTH / 2;
        let half_h = STEALTH_HEIGHT / 2;
        let mut rng = seed | 1;
        let start = (-half_w + 1, -half_h + 1);
        let exit = (half_w - 1, half_h - 1);
        let limit = STEALTH_COVER * 40;
        let mut cover: BTreeSet<(i32, i32)> = BTreeSet::new();
        let mut tries: usize = 0;
        while cover.len() < STEALTH_COVER && tries < limit
            invariant
                tries <= limit,
                limit == STEALTH_COVER * 40,
                half_w == room_half().0,
                half_h == room_half().1,
                start == room_start(),
                exit == room_exit(),
                cover_draws(rng, (limit - tries) as nat, cover@) == cover_draws(seed | 1, limit as nat, Set::empty()),
            decreases limit - tries,
        {
            tries = tries + 1;
            let nx = next_unit(&mut rng);
            let vx = scale_draw(nx, (STEALTH_WIDTH - 4) as usize);
            proof {
                crate::lcg::lemma_scaled_draw_at_most_count(nx as nat, (STEALTH_WIDTH - 4) as nat);
            }
            let x = (-half_w + 2) + saturate_i32_exec(vx);
            let nz = next_unit(&mut rng);
            let vz = scale_draw(nz, (STEALTH_HEIGHT - 4) as usize);
            proof {
                crate::lcg::lemma_scaled_draw_at_most_count(nz as nat, (STEALTH_HEIGHT - 4) as nat);
            }
            let z = (-half_h + 2) + saturate_i32_exec(vz);
            let cell = (x, z);
            if chebyshev(cell, start) < 3 || chebyshev(cell, exit) < 3 {
                continue;
            }
            cover.insert(cell);
        }
        let ghost drawn = cover@;
        assert(drawn == cover_draws(seed | 1, limit as nat, Set::empty()));
        let lanes = guard_lanes(half_w, half_h);
        let mut guards: Vec<Guard> = Vec::new();
        let mut k: usize = 0;
        while k < lanes.len()
            invariant
                k <= lanes@.len(),
                lanes@ == room_lanes(),
                guards@.len() == k,
                forall|j: int| 0 <= j < k ==> #[trigger] guards@[j] == room_guards()[j],
                forall|c: (i32, i32)| cover@.contains(c) <==> drawn.contains(c) && !on_lane_before(k as int, c),
            decreases lanes@.len() - k,
        {
            let lane = lanes[k];
            let mut position = lane.min;
            while position <= lane.max
                invariant
                    lane == room_lanes()[k as int],
                    lanes@ == room_lanes(),
                    k < lanes@.len(),
                    guards@.len() == k,
                    forall|j: int| 0 <= j < k ==> #[trigger] guards@[j] == room_guards()[j],
                    lane.min <= position <= lane.max + 1,
                    forall|c: (i32, i32)| cover@.contains(c) <==> drawn.contains(c) && !on_lane_before(k as int, c)
                        && !(exists|p: i32| lane.min <= p < position && #[trigger] lane_cell(lane, p) == c),
                decreases lane.max + 1 - position,
            {
                let cell = lane.cell(position);
                let ghost before = cover@;
                cover.remove(&cell);
                assert(cover@ == before.remove(cell));
                proof {
                    assert forall|c: (i32, i32)| cover@.contains(c) <==> drawn.contains(c) && !on_lane_before(
                        k as int,
                        c,
                    ) && !(exists|p: i32| lane.min <= p < position + 1 && #[trigger] lane_cell(lane, p) == c) by {
                        if exists|p: i32| lane.min <= p < position + 1 && #[trigger] lane_cell(lane, p) == c {
                            let p = choose|p: i32| lane.min <= p < position + 1 && #[trigger] lane_cell(lane, p) == c;
                            if p < position {
                                assert(lane.min <= p < position && lane_cell(lane, p) == c);
                                assert(exists|q: i32| lane.min <= q < position && #[trigger] lane_cell(lane, q) == c);
                                assert(before.contains(c) <==> drawn.contains(c) && !on_lane_before(k as int, c)
                                    && !(exists|q: i32| lane.min <= q < position && #[trigger] lane_cell(lane, q) == c));
                                assert(!before.contains(c));
                            } else {
                                assert(c == cell);
                            }
                        }
                        if c == cell {
                            assert(lane_cell(lane, position) == c);
                        }
                    }
                }
                position = position + 1;
            }
            proof {
                assert(position == lane.max + 1);
                assert forall|c: (i32, i32)| cover@.contains(c) <==> drawn.contains(c) && !on_lane_before(k as int + 1, c) by {
                    let here = exists|p: i32| lane.min <= p < position && #[trigger] lane_cell(lane, p) == c;
                    if on_lane(lane, c) {
                        let p = choose|p: i32| lane.min <= p <= lane.max && lane_cell(lane, p) == c;
                        assert(lane.min <= p < position && lane_cell(lane, p) == c);
                        assert(here);
                    }
                    if here {
                        let p = choose|p: i32| lane.min <= p < position && #[trigger] lane_cell(lane, p) == c;
                        assert(lane.min <= p <= lane.max && lane_cell(lane, p) == c);
                        assert(on_lane(lane, c));
                    }
                    assert(here == on_lane(lane, c));
                    if on_lane_before(k as int + 1, c) {
                        let j = choose|j: int| 0 <= j < k + 1 && on_lane(#[trigger] room_lanes()[j], c);
                        if j < k {
                            assert(on_lane_before(k as int, c));
                        } else {
                            assert(on_lane(lane, c));
                        }
                    }
                    if on_lane_before(k as int, c) {
                        let j = choose|j: int| 0 <= j < k && on_lane(#[trigger] room_lanes()[j], c);
                        assert(on_lane_before(k as int + 1, c));
                    }
                    if on_lane(lane, c) {
                        assert(on_lane(room_lanes()[k as int], c));
                        assert(on_lane_before(k as int + 1, c));
                    }
                }
            }
            let dir = if k % 2 == 0 { 1 } else { -1 };
            let position = if dir > 0 { lane.min } else { lane.max };
            let ghost cover_now = cover@;
            assert(forall|c: (i32, i32)| cover_now.contains(c) <==> drawn.contains(c) && !on_lane_before(k as int + 1, c));
            guards.push(Guard { patrol: Patrol { dir, ..lane }, position });
            k = k + 1;
            assert(cover@ == cover_now);
            assert(forall|c: (i32, i32)| cover@.contains(c) <==> drawn.contains(c) && !on_lane_before(k as int, c));
        }
        let sim = Self {
            character: start,
            heading: Heading::PosX,
            guards,
            cover,
            exit,
            phase: StealthPhase::Sneaking,
            input: StealthInput { turn: 0, wait: false },
            steps: 0,
            bounds: (half_w, half_h),
            seed,
        };
        proof {
            assert(sim@.guards =~= room_guards());
            assert forall|c: (i32, i32)| on_any_lane(c) == on_lane_before(3, c) by {}
            assert(sim@.cover =~= stealth_start(seed).cover);
            law_spawn_and_door_stay_clear(seed);
            law_fresh_room_is_in_order(seed);
            assert forall|k: int, position: i32|
                0 <= k < sim.guards@.len() && sim.guards@[k].patrol.min <= position <= sim.guards@[k].patrol.max implies {
                    let cell = #[trigger] lane_cell(sim.guards@[k].patrol, position);
                    inside(sim.bounds, cell) && !sim.cover@.contains(cell)
                } by {
                law_guard_lanes_are_walkable(seed, k, position);
            }
        }
        sim
    }
}

} // verus!

verus! {

impl StealthSim {
    /// Latches a frame's input.
    pub fn set_input(&mut self, turn: i32, wait: bool)
        ensures
            final(self)@ == (StealthModel { input: StealthInput { turn, wait }, ..old(self)@ }),
    {
        self.input = StealthInput { turn, wait };
    }

    /// True when the cell is inside the room.
    pub fn in_bounds(&self, cell: (i32, i32)) -> (inside_room: bool)
        requires
            inside_fits(self@.bounds, cell),
        ensures
            inside_room == inside(self@.bounds, cell),
    {
        let ax = if cell.0 < 0 { -cell.0 } else { cell.0 };
        if !(ax < self.bounds.0) {
            return false;
        }
        let az = if cell.1 < 0 { -cell.1 } else { cell.1 };
        az < self.bounds.1
    }

    /// True when nothing can walk into the cell.
    pub fn is_solid(&self, cell: (i32, i32)) -> (blocked: bool)
        requires
            inside_fits(self@.bounds, cell),
        ensures
            blocked == solid(self@, cell),
    {
        !self.in_bounds(cell) || self.cover.contains(&cell)
    }

    /// Applies the latched turn at once, so the character can duck around a
    /// corner without waiting for the next tick. Nothing turns once the run is over.
    pub fn steer(&mut self)
        ensures
            final(self)@ == stealth_steer(old(self)@),
    {
        if self.phase != StealthPhase::Sneaking {
            return;
        }
        let turn = if self.input.turn > 1 { 1 } else if self.input.turn < -1 { -1 } else { self.input.turn };
        if turn != 0 {
            self.heading = turn_heading(self.heading, turn);
        }
    }

    /// One quantised step of everyone on the floor.
    pub fn tick(&mut self, events: &mut StealthEvents)
        requires
            tick_fits(old(self)@),
        ensures
            (final(self)@, *final(events)) == stealth_tick(old(self)@, *old(events)),
    {
        let ghost start = self@;
        if !self.input.wait {
            let ahead = step_cell(self.character, self.heading);
            if !self.is_solid(ahead) {
                self.character = ahead;
                self.steps = self.steps + 1;
                events.stepped = true;
            }
        }
        let ghost moved = self@;
        let ghost events_now = *events;
        let mut index: usize = 0;
        while index < self.guards.len()
            invariant
                index <= self.guards.len(),
                self.guards@.len() == start.guards.len(),
                tick_fits(start),
                moved.guards == start.guards,
                forall|j: int| 0 <= j < index ==> #[trigger] self.guards@[j] == guard_advance(start.guards[j]),
                forall|j: int| index <= j < self.guards@.len() ==> #[trigger] self.guards@[j] == start.guards[j],
                self@ == (StealthModel { guards: self@.guards, ..moved }),
                *events == events_now,
            decreases self.guards.len() - index,
        {
            let mut guard = self.guards[index];
            assert(i32::MIN <= start.guards[index as int].position + start.guards[index as int].patrol.dir <= i32::MAX);
            guard.patrol.advance(&mut guard.position);
            self.guards.set(index, guard);
            index = index + 1;
        }
        assert(self.guards@ =~= start.guards.map_values(|g: Guard| guard_advance(g)));
        if self.character.0 == self.exit.0 && self.character.1 == self.exit.1 {
            self.phase = StealthPhase::Escaped;
            events.escaped = true;
        }
    }

    /// Whether the next tick can be computed without integer overflow, which
    /// [`StealthSim::tick`] needs.
    pub fn can_tick(&self) -> (ok: bool)
        ensures
            ok == tick_fits(self@),
    {
        if !self.input.wait {
            let (cx, cz) = self.character;
            let fits = match self.heading {
                Heading::PosX => cx < i32::MAX,
                Heading::NegX => cx > i32::MIN,
                Heading::PosZ => cz < i32::MAX,
                Heading::NegZ => cz > i32::MIN,
            };
            if !fits || self.steps == usize::MAX {
                return false;
            }
            let ahead = step_cell(self.character, self.heading);
            if ahead.0 == i32::MIN {
                return false;
            }
            let ax = if ahead.0 < 0 { -ahead.0 } else { ahead.0 };
            if ax < self.bounds.0 && ahead.1 == i32::MIN {
                return false;
            }
        }
        let mut index: usize = 0;
        while index < self.guards.len()
            invariant
                index <= self.guards.len(),
                forall|j: int| 0 <= j < index ==> i32::MIN <= (#[trigger] self.guards@[j]).position
                    + self.guards@[j].patrol.dir <= i32::MAX,
            decreases self.guards.len() - index,
        {
            let g = self.guards[index];
            let sum: i64 = g.position as i64 + g.patrol.dir as i64;
            if sum < i32::MIN as i64 || sum > i32::MAX as i64 {
                assert(!(i32::MIN <= self@.guards[index as int].position + self@.guards[index as int].patrol.dir <= i32::MAX));
                return false;
            }
            index = index + 1;
        }
        true
    }

    /// Restarts from the same seed.
    pub fn restart(&mut self)
        ensures
            final(self)@ == stealth_start(old(self)@.seed),
    {
        *self = Self::new(self.seed);
    }
}

} // verus!

verus! {

proof fn lemma_cover_keeps_clear(state: u64, tries_left: nat, cover: Set<(i32, i32)>)
    requires
        forall|c: (i32, i32)| #[trigger] cover.contains(c) ==> chebyshev_spec(c, room_start()) >= 3
            && chebyshev_spec(c, room_exit()) >= 3,
    ensures
        forall|c: (i32, i32)| #[trigger] cover_draws(state, tries_left, cover).contains(c) ==> chebyshev_spec(c, room_start())
            >= 3 && chebyshev_spec(c, room_exit()) >= 3,
    decreases tries_left,
{
    if !(cover.len() >= STEALTH_COVER || tries_left == 0) {
        let sx = lcg_next(state);
        let sz = lcg_next(sx);
        let x = (-room_half().0 + 2) + saturate_i32(scaled_draw(unit_numerator(sx), (STEALTH_WIDTH - 4) as nat));
        let z = (-room_half().1 + 2) + saturate_i32(scaled_draw(unit_numerator(sz), (STEALTH_HEIGHT - 4) as nat));
        let cell = (x as i32, z as i32);
        if chebyshev_spec(cell, room_start()) < 3 || chebyshev_spec(cell, room_exit()) < 3 {
            lemma_cover_keeps_clear(sz, (tries_left - 1) as nat, cover);
            assert(cover_draws(state, tries_left, cover) == cover_draws(sz, (tries_left - 1) as nat, cover));
        } else {
            let grown = cover.insert(cell);
            assert forall|c: (i32, i32)| #[trigger] grown.contains(c) implies chebyshev_spec(c, room_start()) >= 3
                && chebyshev_spec(c, room_exit()) >= 3 by {
                if c != cell {
                    assert(cover.contains(c));
                }
            }
            lemma_cover_keeps_clear(sz, (tries_left - 1) as nat, grown);
            assert(cover_draws(state, tries_left, cover) == cover_draws(sz, (tries_left - 1) as nat, grown));
        }
    }
}

/// A room's spawn and door are distinct, inside the walls and never covered,
/// so the character can always stand at the start and leave by the door.
pub proof fn law_spawn_and_door_stay_clear(seed: u64)
    ensures
        ({
            let m = stealth_start(seed);
            &&& !solid(m, m.character)
            &&& !solid(m, m.exit)
            &&& m.character != m.exit
            &&& m.phase == StealthPhase::Sneaking
            &&& m.steps == 0
        }),
{
    let drawn = cover_draws(seed | 1, (STEALTH_COVER * 40) as nat, Set::empty());
    lemma_cover_keeps_clear(seed | 1, (STEALTH_COVER * 40) as nat, Set::empty());
    assert(!drawn.contains(room_start())) by {
        if drawn.contains(room_start()) {
            assert(chebyshev_spec(room_start(), room_start()) >= 3);
        }
    }
    assert(!drawn.contains(room_exit())) by {
        if drawn.contains(room_exit()) {
            assert(chebyshev_spec(room_exit(), room_exit()) >= 3);
        }
    }
}

/// Every guard's lane is walkable from end to end: each of its cells is inside
/// the room and free of cover.
pub proof fn law_guard_lanes_are_walkable(seed: u64, k: int, position: i32)
    requires
        0 <= k < stealth_start(seed).guards.len(),
        stealth_start(seed).guards[k].patrol.min <= position <= stealth_start(seed).guards[k].patrol.max,
    ensures
        ({
            let m = stealth_start(seed);
            let cell = lane_cell(m.guards[k].patrol, position);
            inside(m.bounds, cell) && !m.cover.contains(cell)
        }),
{
    let m = stealth_start(seed);
    let lane = room_lanes()[k];
    assert(lane_cell(m.guards[k].patrol, position) == lane_cell(lane, position));
    assert(on_lane(room_lanes()[k], lane_cell(lane, position)));
    assert(on_any_lane(lane_cell(lane, position)));
}

/// Walking never leaves the room: the character only ever steps onto a cell
/// that is inside the walls and free of cover, and waiting does not move it.
pub proof fn law_tick_keeps_the_character_inside(m: StealthModel, events: StealthEvents)
    requires
        inside(m.bounds, m.character),
    ensures
        ({
            let (t, _) = stealth_tick(m, events);
            &&& inside(t.bounds, t.character)
            &&& t.character != m.character ==> !solid(m, t.character) && t.character == step_cell_spec(m.character, m.heading)
            &&& m.input.wait ==> t.character == m.character
            &&& t.cover == m.cover && t.bounds == m.bounds && t.exit == m.exit
        }),
{
}

/// Standing on the door after a tick ends the run as an escape, and reports it.
pub proof fn law_reaching_the_door_escapes(m: StealthModel, events: StealthEvents)
    ensures
        ({
            let (t, e) = stealth_tick(m, events);
            t.character == m.exit ==> t.phase == StealthPhase::Escaped && e.escaped
        }),
{
}

/// A tick ends the run only on the door: the phase changes only to an escape,
/// only with the character standing on the door, and an escape is reported
/// only then. The character moves at most one cell, along its heading, and
/// only onto a free cell inside the room.
pub proof fn law_tick_escapes_only_on_the_door(m: StealthModel, events: StealthEvents)
    ensures
        ({
            let (t, e) = stealth_tick(m, events);
            let (x, z) = (m.character.0 as int, m.character.1 as int);
            &&& t.phase != m.phase ==> t.phase == StealthPhase::Escaped && t.character.0 == m.exit.0
                && t.character.1 == m.exit.1
            &&& (e.escaped && !events.escaped) ==> t.character.0 == m.exit.0 && t.character.1 == m.exit.1
            &&& (t.character.0 == m.exit.0 && t.character.1 == m.exit.1) ==> t.phase == StealthPhase::Escaped
                && e.escaped
            &&& (step_fits(m.character, m.heading) && t.character != m.character) ==> !m.input.wait && !m.cover.contains(t.character)
                && inside(m.bounds, t.character) && t.steps == m.steps + 1 && match m.heading {
                Heading::PosX => t.character.0 == x + 1 && t.character.1 == z,
                Heading::NegX => t.character.0 == x - 1 && t.character.1 == z,
                Heading::PosZ => t.character.0 == x && t.character.1 == z + 1,
                Heading::NegZ => t.character.0 == x && t.character.1 == z - 1,
            }
            &&& t.character == m.character ==> t.steps == m.steps
        }),
{
}

/// Steering turns a quarter at once and nothing else: a positive turn input
/// goes clockwise from `+X` to `+Z` to `-X` to `-Z`, a negative one the other
/// way, whatever its size; no turn input, or a run that has ended, keeps the
/// heading.
pub proof fn law_steer_turns_a_quarter(m: StealthModel)
    ensures
        ({
            let t = stealth_steer(m);
            &&& t == (StealthModel { heading: t.heading, ..m })
            &&& (m.phase != StealthPhase::Sneaking || m.input.turn == 0) ==> t.heading == m.heading
            &&& (m.phase == StealthPhase::Sneaking && m.input.turn > 0) ==> t.heading == match m.heading {
                Heading::PosX => Heading::PosZ,
                Heading::PosZ => Heading::NegX,
                Heading::NegX => Heading::NegZ,
                Heading::NegZ => Heading::PosX,
            }
            &&& (m.phase == StealthPhase::Sneaking && m.input.turn < 0) ==> t.heading == match m.heading {
                Heading::PosX => Heading::NegZ,
                Heading::NegZ => Heading::NegX,
                Heading::NegX => Heading::PosZ,
                Heading::PosZ => Heading::PosX,
            }
        }),
{
}

/// Turning left and right are mirror images: one undoes the other, and four
/// turns the same way come back to the start.
pub proof fn law_turns_are_mirror_images(h: Heading)
    ensures
        turn_heading_spec(turn_heading_spec(h, 1), -1i32) == h,
        turn_heading_spec(turn_heading_spec(h, -1i32), 1) == h,
        turn_heading_spec(turn_heading_spec(turn_heading_spec(turn_heading_spec(h, 1), 1), 1), 1) == h,
{
}

/// A guard on its lane stays on its lane: from a position between the lane's
/// ends, walking one step moves it by its direction, clamped to the ends, and
/// turns it round on reaching either end.
pub proof fn law_patrols_stay_on_their_lanes(p: Patrol, position: i32)
    requires
        p.min < p.max,
        p.min <= position <= p.max,
        p.dir == 1 || p.dir == -1,
    ensures
        ({
            let (q, next) = patrol_advance(p, position);
            let moved = position + p.dir;
            &&& next == if moved >= p.max { p.max as int } else if moved <= p.min { p.min as int } else { moved }
            &&& q.dir == if next == p.max { -1 } else if next == p.min { 1 } else { p.dir as int }
            &&& q.min <= next <= q.max
            &&& q.dir == 1 || q.dir == -1
            &&& q.min == p.min && q.max == p.max && q.lane == p.lane && q.horizontal == p.horizontal
            &&& next == p.max ==> q.dir == -1
            &&& next == p.min ==> q.dir == 1
        }),
{
}

} // verus!

verus! {

/// The status-line word for a phase, as [`StealthPhase::label`] gives it.
pub open spec fn stealth_phase_word(phase: StealthPhase) -> Seq<char> {
    match phase {
        StealthPhase::Sneaking => "SNEAKING"@,
        StealthPhase::Escaped => "ESCAPED"@,
        StealthPhase::Caught => "SPOTTED"@,
    }
}

/// The room's part of the status line: the phase and the detection meter in
/// front of the ring and the ride's own status.
pub open spec fn stealth_status_text(
    m: StealthModel,
    detect_percent: nat,
    ring: Seq<char>,
    language: Seq<char>,
    ride: Seq<char>,
) -> Seq<char> {
    "STEALTH "@ + stealth_phase_word(m.phase) + " | DETECT "@ + decimal(detect_percent) + "% | RING: "@ + ring
        + " | "@ + language + " | "@ + ride
}

impl StealthSim {
    /// The status line of a room in the ring `ring`, written in `language`,
    /// in front of the ride's own status `ride`. The meter is read by the
    /// caller, as a whole percentage.
    pub fn status_text(&self, detect_percent: u32, ring: &str, language: &str, ride: &str) -> (text: String)
        ensures
            text@ == stealth_status_text(self@, detect_percent as nat, ring@, language@, ride@),
    {
        let mut text = String::from_str("STEALTH ");
        text.append(self.phase.label());
        text.append(" | DETECT ");
        push_decimal(&mut text, detect_percent as u64);
        text.append("% | RING: ");
        text.append(ring);
        text.append(" | ");
        text.append(language);
        text.append(" | ");
        text.append(ride);
        text
    }
}

} // verus!

verus! {

/// A guard walking a proper lane: the ends are apart and inside `i32` with a
/// cell to spare, it walks one cell at a time, and it stands between the ends.
pub open spec fn guard_ok(g: Guard) -> bool {
    &&& i32::MIN < g.patrol.min < g.patrol.max < i32::MAX
    &&& g.patrol.dir == 1 || g.patrol.dir == -1
    &&& g.patrol.min <= g.position <= g.patrol.max
}

/// A room in good order: the character stands inside the walls off the cover,
/// and every guard walks a proper lane.
pub open spec fn room_ok(m: StealthModel) -> bool {
    &&& inside(m.bounds, m.character)
    &&& !m.cover.contains(m.character)
    &&& forall|k: int| 0 <= k < m.guards.len() ==> guard_ok(#[trigger] m.guards[k])
}

/// Two lists of guards walk the same lanes, guard by guard.
pub open spec fn same_lanes(a: Seq<Guard>, b: Seq<Guard>) -> bool {
    &&& a.len() == b.len()
    &&& forall|k: int| 0 <= k < a.len() ==> {
        &&& (#[trigger] a[k]).patrol.horizontal == b[k].patrol.horizontal
        &&& a[k].patrol.lane == b[k].patrol.lane
        &&& a[k].patrol.min == b[k].patrol.min
        &&& a[k].patrol.max == b[k].patrol.max
    }
}

/// A call a frame makes on a room: latching input, applying the turn, or
/// one quantised step.
pub enum StealthCall {
    Input(i32, bool),
    Steer,
    Tick,
}

/// A room after one call.
pub open spec fn stealth_step(m: StealthModel, call: StealthCall) -> StealthModel {
    match call {
        StealthCall::Input(turn, wait) => StealthModel { input: StealthInput { turn, wait }, ..m },
        StealthCall::Steer => stealth_steer(m),
        StealthCall::Tick => stealth_tick(
            m,
            StealthEvents { stepped: false, spotted: false, escaped: false, caught: false },
        ).0,
    }
}

/// A room after a sequence of calls, in order.
pub open spec fn stealth_run(m: StealthModel, calls: Seq<StealthCall>) -> StealthModel
    decreases calls.len(),
{
    if calls.len() == 0 {
        m
    } else {
        stealth_run(stealth_step(m, calls[0]), calls.drop_first())
    }
}

/// A fresh room is in good order.
pub proof fn law_fresh_room_is_in_order(seed: u64)
    ensures
        room_ok(stealth_start(seed)),
{
    law_spawn_and_door_stay_clear(seed);
    let m = stealth_start(seed);
    assert forall|k: int| 0 <= k < m.guards.len() implies guard_ok(#[trigger] m.guards[k]) by {
        assert(m.guards[k].patrol.min == room_lanes()[k].min);
    }
}

/// In a room in good order one step can always be taken without overflow,
/// until the step counter itself is full.
pub proof fn law_a_room_in_order_can_tick(m: StealthModel)
    requires
        room_ok(m),
        m.steps < usize::MAX,
    ensures
        tick_fits(m),
{
    assert forall|k: int| 0 <= k < m.guards.len() implies i32::MIN <= (#[trigger] m.guards[k]).position
        + m.guards[k].patrol.dir <= i32::MAX by {
        assert(guard_ok(m.guards[k]));
    }
}

proof fn lemma_step_keeps_the_room(m: StealthModel, call: StealthCall)
    requires
        room_ok(m),
    ensures
        ({
            let t = stealth_step(m, call);
            &&& room_ok(t)
            &&& t.cover == m.cover && t.bounds == m.bounds && t.exit == m.exit
            &&& same_lanes(t.guards, m.guards)
            &&& t.steps >= m.steps
            &&& m.phase == StealthPhase::Escaped ==> t.phase == StealthPhase::Escaped
        }),
{
    let t = stealth_step(m, call);
    match call {
        StealthCall::Tick => {
            assert forall|k: int| 0 <= k < t.guards.len() implies guard_ok(#[trigger] t.guards[k]) by {
                assert(guard_ok(m.guards[k]));
                law_patrols_stay_on_their_lanes(m.guards[k].patrol, m.guards[k].position);
            }
            assert forall|k: int| 0 <= k < t.guards.len() implies {
                &&& (#[trigger] t.guards[k]).patrol.horizontal == m.guards[k].patrol.horizontal
                &&& t.guards[k].patrol.lane == m.guards[k].patrol.lane
                &&& t.guards[k].patrol.min == m.guards[k].patrol.min
                &&& t.guards[k].patrol.max == m.guards[k].patrol.max
            } by {
                assert(guard_ok(m.guards[k]));
                law_patrols_stay_on_their_lanes(m.guards[k].patrol, m.guards[k].position);
            }
        },
        _ => {},
    }
}

/// Over any sequence of frame calls a room stays in good order: the character
/// never leaves the room or stands on cover, the guards never leave their
/// lanes, the walls, cover and door never change, the step count never goes
/// down, and an escape is final.
pub proof fn law_run_keeps_the_room(m: StealthModel, calls: Seq<StealthCall>)
    requires
        room_ok(m),
    ensures
        ({
            let t = stealth_run(m, calls);
            &&& room_ok(t)
            &&& t.cover == m.cover && t.bounds == m.bounds && t.exit == m.exit
            &&& same_lanes(t.guards, m.guards)
            &&& t.steps >= m.steps
            &&& m.phase == StealthPhase::Escaped ==> t.phase == StealthPhase::Escaped
        }),
    decreases calls.len(),
{
    if calls.len() > 0 {
        let next = stealth_step(m, calls[0]);
        lemma_step_keeps_the_room(m, calls[0]);
        law_run_keeps_the_room(next, calls.drop_first());
        let t = stealth_run(m, calls);
        assert forall|k: int| 0 <= k < t.guards.len() implies {
            &&& (#[trigger] t.guards[k]).patrol.horizontal == m.guards[k].patrol.horizontal
            &&& t.guards[k].patrol.lane == m.guards[k].patrol.lane
            &&& t.guards[k].patrol.min == m.guards[k].patrol.min
            &&& t.guards[k].patrol.max == m.guards[k].patrol.max
        } by {
            assert(same_lanes(t.guards, next.guards));
            assert(same_lanes(next.guards, m.guards));
            assert(t.guards[k].patrol.horizontal == next.guards[k].patrol.horizontal);
            assert(next.guards[k].patrol.horizontal == m.guards[k].patrol.horizontal);
        }
    }
}

} // verus!
