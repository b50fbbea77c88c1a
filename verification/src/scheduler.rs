//! The process scheduler, played as a race: rival threads run the directory's
//! roads toward the same goal the rider is heading for.
//!
//! The race advances in fixed steps; the clock that decides when a step is due
//! belongs to the caller.
use std::collections::BTreeSet;
use vstd::prelude::*;
use crate::grid::{manhattan, manhattan_distance, manhattan_fits};
use vstd::std_specs::iter::IteratorSpec;

verus! {

broadcast use {vstd::std_specs::btree::group_btree_axioms, vstd::laws_cmp::group_laws_cmp};

/// One rival thread running the roads.
#[derive(Debug, Clone, Copy, PartialEq, Eq)]
pub struct Racer {
    pub cell: (i32, i32),
    /// The cell it came from, so it never doubles straight back.
    pub prev: Option<(i32, i32)>,
    /// Cells covered, for tie-breaks and for the HUD.
    pub travelled: u32,
}

/// What one step of the race produced.
#[derive(Debug, Clone, Copy, Default, PartialEq, Eq)]
pub struct RaceEvents {
    /// A rival thread reached the goal this step.
    pub rival_reached_gate: bool,
}

/// Every rival thread in one directory, running toward `target`.
#[derive(Debug)]
pub struct RaceSim {
    pub racers: Vec<Racer>,
    pub target: (i32, i32),
}

impl Clone for RaceSim {
    fn clone(&self) -> (copy: Self)
        ensures
            copy.racers@ == self.racers@,
            copy.target == self.target,
    {
        RaceSim { racers: self.racers.clone(), target: self.target }
    }
}

/// A thread has reached the goal when it stands on it or orthogonally next to it.
pub open spec fn racer_finished(r: Racer, target: (i32, i32)) -> bool {
    manhattan(target, r.cell) <= 1
}

/// The four orthogonal neighbours of `c`, in the order they are tried.
pub open spec fn neighbour(c: (i32, i32), k: int) -> (i32, i32) {
    if k == 0 {
        ((c.0 + 1) as i32, c.1)
    } else if k == 1 {
        ((c.0 - 1) as i32, c.1)
    } else if k == 2 {
        (c.0, (c.1 + 1) as i32)
    } else {
        (c.0, (c.1 - 1) as i32)
    }
}

/// A neighbour a thread may step onto: a road, and not the cell it just left.
pub open spec fn open_step(r: Racer, roads: Set<(i32, i32)>, cell: (i32, i32)) -> bool {
    roads.contains(cell) && r.prev != Some(cell)
}

/// Keeps the best candidate so far, replacing it only with a strictly closer open step.
pub open spec fn closer(
    best: Option<((i32, i32), int)>,
    r: Racer,
    target: (i32, i32),
    roads: Set<(i32, i32)>,
    cell: (i32, i32),
) -> Option<((i32, i32), int)> {
    if !open_step(r, roads, cell) {
        best
    } else {
        let d = manhattan(target, cell);
        match best {
            None => Some((cell, d)),
            Some(b) => if d < b.1 { Some((cell, d)) } else { best },
        }
    }
}

/// The closest open step, first in neighbour order among equals.
pub open spec fn best_step(r: Racer, target: (i32, i32), roads: Set<(i32, i32)>) -> Option<((i32, i32), int)> {
    let b0 = closer(None, r, target, roads, neighbour(r.cell, 0));
    let b1 = closer(b0, r, target, roads, neighbour(r.cell, 1));
    let b2 = closer(b1, r, target, roads, neighbour(r.cell, 2));
    closer(b2, r, target, roads, neighbour(r.cell, 3))
}

/// Where a thread steps next: the closest open step, or back where it came from
/// when that is the only road left.
pub open spec fn next_step(r: Racer, target: (i32, i32), roads: Set<(i32, i32)>) -> Option<(i32, i32)> {
    match best_step(r, target, roads) {
        Some(b) => Some(b.0),
        None => match r.prev {
            Some(p) => if roads.contains(p) { Some(p) } else { None },
            None => None,
        },
    }
}

/// The thread's neighbours can be formed, and every open one measured, without overflow.
pub open spec fn step_fits(r: Racer, target: (i32, i32), roads: Set<(i32, i32)>) -> bool {
    &&& i32::MIN < r.cell.0 < i32::MAX
    &&& i32::MIN < r.cell.1 < i32::MAX
    &&& forall|k: int| 0 <= k < 4 && #[trigger] open_step(r, roads, neighbour(r.cell, k))
        ==> manhattan_fits(target, neighbour(r.cell, k))
}

impl Racer {
    fn new(cell: (i32, i32)) -> (r: Self)
        ensures
            r == (Racer { cell, prev: None, travelled: 0 }),
    {
        Self { cell, prev: None, travelled: 0 }
    }

    /// True once this thread has reached the goal.
    ///
    /// The goal cell itself is not always part of the road set, so standing on
    /// a road cell orthogonally next to it counts as an arrival too.
    pub fn finished(&self, target: (i32, i32)) -> (done: bool)
        requires
            manhattan_fits(target, self.cell),
        ensures
            done == racer_finished(*self, target),
    {
        manhattan_distance(target, self.cell) <= 1
    }
}

fn consider(
    best: Option<((i32, i32), i32)>,
    racer: &Racer,
    target: (i32, i32),
    roads: &BTreeSet<(i32, i32)>,
    cell: (i32, i32),
) -> (next: Option<((i32, i32), i32)>)
    requires
        open_step(*racer, roads@, cell) ==> manhattan_fits(target, cell),
    ensures
        widen(next) == closer(widen(best), *racer, target, roads@, cell),
{
    if !roads.contains(&cell) {
        return best;
    }
    match racer.prev {
        Some(p) => {
            if p.0 == cell.0 && p.1 == cell.1 {
                return best;
            }
        },
        None => {},
    }
    let distance = manhattan_distance(target, cell);
    match best {
        None => Some((cell, distance)),
        Some(b) => if distance < b.1 { Some((cell, distance)) } else { best },
    }
}

/// A best-so-far candidate with its distance taken as an integer.
pub open spec fn widen(b: Option<((i32, i32), i32)>) -> Option<((i32, i32), int)> {
    match b {
        Some(x) => Some((x.0, x.1 as int)),
        None => None,
    }
}

/// Picks the neighbouring road cell that closes on the target.
///
/// Reversing is avoided unless it is the only road left, so a thread in a dead
/// end walks back out instead of stalling. Ties break on the fixed neighbour
/// order, which keeps a given arena reproducible.
pub fn next_cell(racer: &Racer, target: (i32, i32), roads: &BTreeSet<(i32, i32)>) -> (next: Option<(i32, i32)>)
    requires
        step_fits(*racer, target, roads@),
    ensures
        next == next_step(*racer, target, roads@),
{
    let (cx, cz) = racer.cell;
    let ghost r = *racer;
    assert(open_step(r, roads@, neighbour(r.cell, 0)) ==> manhattan_fits(target, neighbour(r.cell, 0)));
    assert(open_step(r, roads@, neighbour(r.cell, 1)) ==> manhattan_fits(target, neighbour(r.cell, 1)));
    assert(open_step(r, roads@, neighbour(r.cell, 2)) ==> manhattan_fits(target, neighbour(r.cell, 2)));
    assert(open_step(r, roads@, neighbour(r.cell, 3)) ==> manhattan_fits(target, neighbour(r.cell, 3)));
    let best = consider(None, racer, target, roads, (cx + 1, cz));
    let best = consider(best, racer, target, roads, (cx - 1, cz));
    let best = consider(best, racer, target, roads, (cx, cz + 1));
    let best = consider(best, racer, target, roads, (cx, cz - 1));
    match best {
        Some(b) => Some(b.0),
        None => match racer.prev {
            Some(p) => if roads.contains(&p) { Some(p) } else { None },
            None => None,
        },
    }
}

} // verus!

verus! {

/// A thread after one step of the race: a thread at the goal stays put, any
/// other moves to its next cell if it has one.
pub open spec fn racer_advance(r: Racer, target: (i32, i32), roads: Set<(i32, i32)>) -> Racer {
    if racer_finished(r, target) {
        r
    } else {
        match next_step(r, target, roads) {
            None => r,
            Some(n) => Racer { cell: n, prev: Some(r.cell), travelled: (r.travelled + 1) as u32 },
        }
    }
}

/// One step of a thread can be taken without overflow.
pub open spec fn racer_step_fits(r: Racer, target: (i32, i32), roads: Set<(i32, i32)>) -> bool {
    &&& manhattan_fits(target, r.cell)
    &&& step_fits(r, target, roads)
    &&& r.travelled < u32::MAX
    &&& match r.prev {
        Some(p) => roads.contains(p) ==> manhattan_fits(target, p),
        None => true,
    }
}

/// Every thread of the race can take one step without overflow.
pub open spec fn race_step_fits(racers: Seq<Racer>, target: (i32, i32), roads: Set<(i32, i32)>) -> bool {
    forall|i: int| 0 <= i < racers.len() ==> racer_step_fits(#[trigger] racers[i], target, roads)
}

impl RaceSim {
    /// Starts one thread per start cell. No start cells means no race.
    pub fn new(starts: Vec<(i32, i32)>, target: (i32, i32)) -> (sim: Self)
        ensures
            sim.target == target,
            sim.racers@.len() == starts@.len(),
            forall|i: int| 0 <= i < starts@.len() ==> #[trigger] sim.racers@[i] == (Racer {
                cell: starts@[i],
                prev: None,
                travelled: 0,
            }),
    {
        let mut racers: Vec<Racer> = Vec::new();
        let mut i: usize = 0;
        while i < starts.len()
            invariant
                i <= starts.len(),
                racers@.len() == i,
                forall|j: int| 0 <= j < i ==> #[trigger] racers@[j] == (Racer {
                    cell: starts@[j],
                    prev: None,
                    travelled: 0,
                }),
            decreases starts.len() - i,
        {
            racers.push(Racer::new(starts[i]));
            i = i + 1;
        }
        Self { racers, target }
    }

    /// Advances every thread one cell toward the goal. A thread that already
    /// stands at the goal stops moving; arriving or standing there reports it.
    pub fn step(&mut self, roads: &BTreeSet<(i32, i32)>) -> (events: RaceEvents)
        requires
            race_step_fits(old(self).racers@, old(self).target, roads@),
        ensures
            final(self).target == old(self).target,
            final(self).racers@ == old(self).racers@.map_values(
                |r: Racer| racer_advance(r, old(self).target, roads@),
            ),
            events.rival_reached_gate == exists|i: int|
                0 <= i < old(self).racers@.len() && racer_finished(
                    racer_advance(#[trigger] old(self).racers@[i], old(self).target, roads@),
                    old(self).target,
                ),
    {
        let mut events = RaceEvents { rival_reached_gate: false };
        let ghost before = self.racers@;
        let target = self.target;
        let mut i: usize = 0;
        while i < self.racers.len()
            invariant
                i <= self.racers.len(),
                self.racers@.len() == before.len(),
                self.target == target,
                target == old(self).target,
                before == old(self).racers@,
                race_step_fits(before, target, roads@),
                forall|j: int| 0 <= j < i ==> #[trigger] self.racers@[j] == racer_advance(before[j], target, roads@),
                forall|j: int| i <= j < before.len() ==> #[trigger] self.racers@[j] == before[j],
                events.rival_reached_gate == exists|j: int|
                    0 <= j < i && racer_finished(racer_advance(#[trigger] before[j], target, roads@), target),
            decreases self.racers.len() - i,
        {
            let racer = self.racers[i];
            assert(racer_step_fits(before[i as int], target, roads@));
            if racer.finished(target) {
                events.rival_reached_gate = true;
            } else {
                match next_cell(&racer, target, roads) {
                    None => {},
                    Some(next) => {
                        let moved = Racer { cell: next, prev: Some(racer.cell), travelled: racer.travelled + 1 };
                        proof {
                            if best_step(racer, target, roads@) is Some {
                                let k = choose|k: int| 0 <= k < 4 && best_step(racer, target, roads@)
                                    == Some((neighbour(racer.cell, k), manhattan(target, neighbour(racer.cell, k))));
                                assert(open_step(racer, roads@, neighbour(racer.cell, k)));
                            }
                        }
                        self.racers.set(i, moved);
                        if moved.finished(target) {
                            events.rival_reached_gate = true;
                        }
                    },
                }
            }
            i = i + 1;
        }
        assert(self.racers@ =~= before.map_values(|r: Racer| racer_advance(r, target, roads@)));
        events
    }
}

} // verus!

verus! {

/// Cell `a` comes before cell `b` in row-major order.
pub open spec fn cell_before(a: (i32, i32), b: (i32, i32)) -> bool {
    a.0 < b.0 || (a.0 == b.0 && a.1 < b.1)
}

/// Start cell `a` is preferred over `b`: farther from the goal, or as far and
/// earlier in row-major order.
pub open spec fn start_before(a: (i32, i32), b: (i32, i32), target: (i32, i32)) -> bool {
    manhattan(target, a) > manhattan(target, b) || (manhattan(target, a) == manhattan(target, b)
        && cell_before(a, b))
}

/// A road cell a thread may start on: more than one step from the goal.
pub open spec fn start_candidate(roads: Set<(i32, i32)>, target: (i32, i32), c: (i32, i32)) -> bool {
    roads.contains(c) && manhattan(target, c) > 1
}

/// Every road cell can be measured against the goal without overflow.
pub open spec fn roads_fit(roads: Set<(i32, i32)>, target: (i32, i32)) -> bool {
    forall|c: (i32, i32)| #[trigger] roads.contains(c) ==> manhattan_fits(target, c)
}

fn collect_roads(roads: &BTreeSet<(i32, i32)>) -> (cells: Vec<(i32, i32)>)
    ensures
        forall|c: (i32, i32)| cells@.contains(c) <==> roads@.contains(c),
{
    let mut cells: Vec<(i32, i32)> = Vec::new();
    let ghost keys = vstd::std_specs::btree::spec_btree_keys_iter(roads).remaining();
    proof {
        vstd::std_specs::btree::axiom_spec_btree_keys_iter(roads);
    }
    for cell in it: roads.iter()
        invariant
            it.seq() == keys,
            keys.unref().to_set() == roads@,
            cells@.len() == it.index(),
            forall|j: int| 0 <= j < it.index() ==> cells@[j] == *it.seq()[j],
    {
        cells.push(*cell);
    }
    proof {
        assert(cells@ =~= keys.map_values(|k: &(i32, i32)| *k));
        assert forall|c: (i32, i32)| cells@.contains(c) <==> roads@.contains(c) by {
            if cells@.contains(c) {
                let j = choose|j: int| 0 <= j < cells@.len() && cells@[j] == c;
                assert(keys.unref().to_set().contains(c)) by {
                    assert(keys.unref()[j] == c);
                }
            }
            if roads@.contains(c) {
                assert(keys.unref().to_set().contains(c));
                let j = choose|j: int| 0 <= j < keys.unref().len() && keys.unref()[j] == c;
                assert(cells@[j] == c);
            }
        }
    }
    cells
}

} // verus!

verus! {

fn contains_cell(cells: &Vec<(i32, i32)>, cell: (i32, i32)) -> (found: bool)
    ensures
        found == cells@.contains(cell),
{
    let mut i: usize = 0;
    while i < cells.len()
        invariant
            i <= cells.len(),
            forall|j: int| 0 <= j < i ==> cells@[j] != cell,
        decreases cells.len() - i,
    {
        if cells[i].0 == cell.0 && cells[i].1 == cell.1 {
            return true;
        }
        i = i + 1;
    }
    false
}

/// Start cells for a race: the road cells farthest from the goal, so the
/// threads come from across the directory rather than on top of the rider.
/// Cells more than one step from the goal are taken farthest first, ties in
/// row-major order, up to `count` of them.
pub fn start_cells(roads: &BTreeSet<(i32, i32)>, target: (i32, i32), count: usize) -> (starts: Vec<(i32, i32)>)
    requires
        roads_fit(roads@, target),
    ensures
        starts@.no_duplicates(),
        starts@.len() <= count,
        forall|k: int| 0 <= k < starts@.len() ==> start_candidate(roads@, target, #[trigger] starts@[k]),
        forall|a: int, b: int| 0 <= a < b < starts@.len() ==> start_before(
            #[trigger] starts@[a],
            #[trigger] starts@[b],
            target,
        ),
        forall|c: (i32, i32)| start_candidate(roads@, target, c) && !starts@.contains(c) ==> {
            &&& starts@.len() == count
            &&& forall|k: int| 0 <= k < starts@.len() ==> start_before(#[trigger] starts@[k], c, target)
        },
{
    let cells = collect_roads(roads);
    let mut cands: Vec<((i32, i32), i32)> = Vec::new();
    let mut i: usize = 0;
    while i < cells.len()
        invariant
            i <= cells.len(),
            roads_fit(roads@, target),
            forall|c: (i32, i32)| cells@.contains(c) <==> roads@.contains(c),
            forall|j: int| 0 <= j < cands@.len() ==> start_candidate(roads@, target, (#[trigger] cands@[j]).0)
                && cands@[j].1 == manhattan(target, cands@[j].0),
            forall|j: int| 0 <= j < i && start_candidate(roads@, target, #[trigger] cells@[j]) ==> exists|m: int|
                0 <= m < cands@.len() && cands@[m].0 == cells@[j],
        decreases cells.len() - i,
    {
        let cell = cells[i];
        assert(cells@.contains(cell));
        let distance = manhattan_distance(target, cell);
        let ghost old_cands = cands@;
        if distance > 1 {
            cands.push((cell, distance));
            assert(cands@[cands@.len() - 1].0 == cell);
        }
        proof {
            assert forall|j: int| 0 <= j < i + 1 && start_candidate(roads@, target, #[trigger] cells@[j]) implies exists|m: int|
                0 <= m < cands@.len() && cands@[m].0 == cells@[j] by {
                if j < i {
                    let m = choose|m: int| 0 <= m < old_cands.len() && old_cands[m].0 == cells@[j];
                    assert(cands@[m] == old_cands[m]);
                } else {
                    assert(cands@[cands@.len() - 1].0 == cell);
                }
            }
        }
        i = i + 1;
    }
    assert forall|c: (i32, i32)| start_candidate(roads@, target, c) implies exists|m: int|
        0 <= m < cands@.len() && cands@[m].0 == c by {
        assert(cells@.contains(c));
        let j = choose|j: int| 0 <= j < cells@.len() && cells@[j] == c;
        assert(start_candidate(roads@, target, cells@[j]));
    }
    let mut starts: Vec<(i32, i32)> = Vec::new();
    let mut done = false;
    while !done && starts.len() < count
        invariant
            starts@.len() <= count,
            starts@.no_duplicates(),
            forall|j: int| 0 <= j < cands@.len() ==> start_candidate(roads@, target, (#[trigger] cands@[j]).0)
                && cands@[j].1 == manhattan(target, cands@[j].0),
            forall|c: (i32, i32)| start_candidate(roads@, target, c) ==> exists|m: int|
                0 <= m < cands@.len() && cands@[m].0 == c,
            forall|k: int| 0 <= k < starts@.len() ==> start_candidate(roads@, target, #[trigger] starts@[k]),
            forall|a: int, b: int| 0 <= a < b < starts@.len() ==> start_before(
                #[trigger] starts@[a],
                #[trigger] starts@[b],
                target,
            ),
            forall|c: (i32, i32), k: int|
                start_candidate(roads@, target, c) && !starts@.contains(c) && 0 <= k < starts@.len()
                    ==> #[trigger] start_before(starts@[k], c, target),
            done ==> forall|c: (i32, i32)| start_candidate(roads@, target, c) ==> starts@.contains(c),
        decreases count - starts@.len(), if done { 0int } else { 1int },
    {
        let mut best: Option<usize> = None;
        let mut j: usize = 0;
        while j < cands.len()
            invariant
                j <= cands.len(),
                forall|m: int| 0 <= m < cands@.len() ==> start_candidate(roads@, target, (#[trigger] cands@[m]).0)
                    && cands@[m].1 == manhattan(target, cands@[m].0),
                match best {
                    Some(b) => b < j && !starts@.contains(cands@[b as int].0) && forall|m: int|
                        0 <= m < j && !starts@.contains(#[trigger] cands@[m].0) ==> cands@[m].0
                            == cands@[b as int].0 || start_before(cands@[b as int].0, cands@[m].0, target),
                    None => forall|m: int| 0 <= m < j ==> starts@.contains(#[trigger] cands@[m].0),
                },
            decreases cands.len() - j,
        {
            let (cell, distance) = cands[j];
            if !contains_cell(&starts, cell) {
                match best {
                    None => {
                        best = Some(j);
                    },
                    Some(b) => {
                        let (best_cell, best_distance) = cands[b];
                        if distance > best_distance || (distance == best_distance && (cell.0 < best_cell.0
                            || (cell.0 == best_cell.0 && cell.1 < best_cell.1))) {
                            best = Some(j);
                        }
                    },
                }
            }
            j = j + 1;
        }
        match best {
            None => {
                done = true;
                assert forall|c: (i32, i32)| start_candidate(roads@, target, c) implies starts@.contains(c) by {
                    let m = choose|m: int| 0 <= m < cands@.len() && cands@[m].0 == c;
                    assert(starts@.contains(cands@[m].0));
                }
            },
            Some(b) => {
                let pick = cands[b].0;
                let ghost old_starts = starts@;
                starts.push(pick);
                proof {
                    assert forall|c: (i32, i32), k: int|
                        start_candidate(roads@, target, c) && !starts@.contains(c) && 0 <= k < starts@.len()
                            implies #[trigger] start_before(starts@[k], c, target) by {
                        assert(!old_starts.contains(c)) by {
                            if old_starts.contains(c) {
                                let q = choose|q: int| 0 <= q < old_starts.len() && old_starts[q] == c;
                                assert(starts@[q] == c);
                            }
                        }
                        let m = choose|m: int| 0 <= m < cands@.len() && cands@[m].0 == c;
                        assert(!starts@.contains(cands@[m].0));
                        if k == starts@.len() - 1 {
                            assert(starts@[k] == pick);
                            assert(c != pick) by {
                                assert(starts@[starts@.len() - 1] == pick);
                            }
                        } else {
                            assert(starts@[k] == old_starts[k]);
                        }
                    }
                    assert forall|a: int, b2: int| 0 <= a < b2 < starts@.len() implies starts@[a] != starts@[b2] by {
                        if b2 == starts@.len() - 1 {
                            assert(old_starts.contains(old_starts[a]));
                            assert(start_before(old_starts[a], pick, target));
                        }
                    }
                    assert forall|a: int, b2: int| 0 <= a < b2 < starts@.len() implies start_before(
                        #[trigger] starts@[a],
                        #[trigger] starts@[b2],
                        target,
                    ) by {
                        if b2 == starts@.len() - 1 {
                            assert(starts@[a] == old_starts[a]);
                        }
                    }
                }
            },
        }
    }
    starts
}

} // verus!

verus! {

/// Whether the taxicab distance between two cells fits in `i32`, decided without overflow.
fn manhattan_fits_check(a: (i32, i32), b: (i32, i32)) -> (fits: bool)
    ensures
        fits == manhattan_fits(a, b),
{
    let dx: i64 = a.0 as i64 - b.0 as i64;
    let dz: i64 = a.1 as i64 - b.1 as i64;
    let ax: i64 = if dx < 0 { -dx } else { dx };
    let az: i64 = if dz < 0 { -dz } else { dz };
    ax + az <= i32::MAX as i64
}

fn open_step_fits_check(racer: &Racer, target: (i32, i32), roads: &BTreeSet<(i32, i32)>, cell: (i32, i32)) -> (fits: bool)
    ensures
        fits == (open_step(*racer, roads@, cell) ==> manhattan_fits(target, cell)),
{
    if !roads.contains(&cell) {
        return true;
    }
    match racer.prev {
        Some(p) => {
            if p.0 == cell.0 && p.1 == cell.1 {
                return true;
            }
        },
        None => {},
    }
    manhattan_fits_check(target, cell)
}

impl RaceSim {
    /// Whether every thread can take its next step without integer overflow,
    /// which [`RaceSim::step`] needs.
    pub fn can_step(&self, roads: &BTreeSet<(i32, i32)>) -> (ok: bool)
        ensures
            ok == race_step_fits(self.racers@, self.target, roads@),
    {
        let mut i: usize = 0;
        while i < self.racers.len()
            invariant
                i <= self.racers.len(),
                forall|j: int| 0 <= j < i ==> racer_step_fits(#[trigger] self.racers@[j], self.target, roads@),
            decreases self.racers.len() - i,
        {
            let r = self.racers[i];
            let (cx, cz) = r.cell;
            if !manhattan_fits_check(self.target, r.cell) || r.travelled == u32::MAX || cx == i32::MIN
                || cx == i32::MAX || cz == i32::MIN || cz == i32::MAX {
                return false;
            }
            let n0 = (cx + 1, cz);
            let n1 = (cx - 1, cz);
            let n2 = (cx, cz + 1);
            let n3 = (cx, cz - 1);
            assert(neighbour(r.cell, 0) == n0);
            assert(neighbour(r.cell, 1) == n1);
            assert(neighbour(r.cell, 2) == n2);
            assert(neighbour(r.cell, 3) == n3);
            if !open_step_fits_check(&r, self.target, roads, n0)
                || !open_step_fits_check(&r, self.target, roads, n1)
                || !open_step_fits_check(&r, self.target, roads, n2)
                || !open_step_fits_check(&r, self.target, roads, n3) {
                return false;
            }
            match r.prev {
                Some(p) => {
                    if roads.contains(&p) && !manhattan_fits_check(self.target, p) {
                        return false;
                    }
                },
                None => {},
            }
            proof {
                assert forall|k: int| 0 <= k < 4 && #[trigger] open_step(r, roads@, neighbour(r.cell, k))
                    implies manhattan_fits(self.target, neighbour(r.cell, k)) by {
                }
            }
            i = i + 1;
        }
        true
    }
}

proof fn lemma_closer_shape(
    best: Option<((i32, i32), int)>,
    r: Racer,
    target: (i32, i32),
    roads: Set<(i32, i32)>,
    cell: (i32, i32),
)
    ensures
        match closer(best, r, target, roads, cell) {
            Some(b) => (b == (cell, manhattan(target, cell)) && open_step(r, roads, cell)) || Some(b) == best,
            None => best is None && !open_step(r, roads, cell),
        },
        open_step(r, roads, cell) ==> closer(best, r, target, roads, cell) is Some
            && closer(best, r, target, roads, cell).unwrap().1 <= manhattan(target, cell),
        best is Some ==> closer(best, r, target, roads, cell) is Some
            && closer(best, r, target, roads, cell).unwrap().1 <= best.unwrap().1,
{
}

/// A thread's next cell is a road. While it has an open step (a neighbouring
/// road other than the one it just left) it takes the closest such step to the
/// goal and never doubles back; only in a dead end does it walk back out, and
/// with no road around at all it stays put.
pub proof fn law_next_cell_closes_on_the_gate(r: Racer, target: (i32, i32), roads: Set<(i32, i32)>)
    ensures
        next_step(r, target, roads) matches Some(c) ==> roads.contains(c),
        (exists|k: int| 0 <= k < 4 && #[trigger] open_step(r, roads, neighbour(r.cell, k))) ==> {
            &&& next_step(r, target, roads) matches Some(c) && r.prev != Some(c)
            &&& exists|k: int| 0 <= k < 4 && next_step(r, target, roads) == Some(#[trigger] neighbour(r.cell, k))
                && open_step(r, roads, neighbour(r.cell, k))
            &&& forall|k: int| 0 <= k < 4 && #[trigger] open_step(r, roads, neighbour(r.cell, k))
                ==> manhattan(target, next_step(r, target, roads).unwrap()) <= manhattan(target, neighbour(r.cell, k))
        },
        (forall|k: int| 0 <= k < 4 ==> !#[trigger] open_step(r, roads, neighbour(r.cell, k))) ==> next_step(r, target, roads)
            == (match r.prev {
                Some(p) => if roads.contains(p) { Some(p) } else { None },
                None => None,
            }),
{
    let n0 = neighbour(r.cell, 0);
    let n1 = neighbour(r.cell, 1);
    let n2 = neighbour(r.cell, 2);
    let n3 = neighbour(r.cell, 3);
    let b0 = closer(None, r, target, roads, n0);
    let b1 = closer(b0, r, target, roads, n1);
    let b2 = closer(b1, r, target, roads, n2);
    let b3 = closer(b2, r, target, roads, n3);
    lemma_closer_shape(None, r, target, roads, n0);
    lemma_closer_shape(b0, r, target, roads, n1);
    lemma_closer_shape(b1, r, target, roads, n2);
    lemma_closer_shape(b2, r, target, roads, n3);
    if exists|k: int| 0 <= k < 4 && #[trigger] open_step(r, roads, neighbour(r.cell, k)) {
        let k = choose|k: int| 0 <= k < 4 && #[trigger] open_step(r, roads, neighbour(r.cell, k));
        assert(b3 is Some);
    }
}

/// One step of the race moves every thread at most one cell: a thread at the
/// goal stays where it is, any other either stays or steps onto a road cell
/// next to it or back onto the road it came from.
pub proof fn law_race_step_moves_one_cell(r: Racer, target: (i32, i32), roads: Set<(i32, i32)>)
    requires
        r.travelled < u32::MAX,
    ensures
        racer_finished(r, target) ==> racer_advance(r, target, roads) == r,
        racer_advance(r, target, roads) == r || {
            &&& roads.contains(racer_advance(r, target, roads).cell)
            &&& racer_advance(r, target, roads).prev == Some(r.cell)
            &&& racer_advance(r, target, roads).travelled == r.travelled + 1
            &&& (exists|k: int| 0 <= k < 4 && racer_advance(r, target, roads).cell == #[trigger] neighbour(r.cell, k))
                || Some(racer_advance(r, target, roads).cell) == r.prev
        },
{
    law_next_cell_closes_on_the_gate(r, target, roads);
}

/// A thread away from the goal never stalls while it has a road to take. With
/// an open step (a neighbouring road other than the one it just left) it moves
/// onto the open step closest to the goal; in a dead end whose previous cell is
/// a road it walks back onto that cell; either way it records where it came
/// from and counts one more cell. Only with no road to take does it stay put.
pub proof fn law_race_step_never_stalls(r: Racer, target: (i32, i32), roads: Set<(i32, i32)>)
    requires
        r.travelled < u32::MAX,
        manhattan(target, r.cell) > 1,
    ensures
        ({
            let a = racer_advance(r, target, roads);
            &&& (exists|k: int| 0 <= k < 4 && #[trigger] open_step(r, roads, neighbour(r.cell, k))) ==> {
                &&& a.prev == Some(r.cell)
                &&& a.travelled == r.travelled + 1
                &&& roads.contains(a.cell)
                &&& r.prev != Some(a.cell)
                &&& exists|k: int| 0 <= k < 4 && a.cell == #[trigger] neighbour(r.cell, k)
                &&& forall|k: int| 0 <= k < 4 && #[trigger] open_step(r, roads, neighbour(r.cell, k))
                    ==> manhattan(target, a.cell) <= manhattan(target, neighbour(r.cell, k))
            }
            &&& (forall|k: int| 0 <= k < 4 ==> !#[trigger] open_step(r, roads, neighbour(r.cell, k))) ==> {
                &&& match r.prev {
                    Some(p) => if roads.contains(p) {
                        a.cell == p && a.prev == Some(r.cell) && a.travelled == r.travelled + 1
                    } else {
                        a == r
                    },
                    None => a == r,
                }
            }
        }),
{
    law_next_cell_closes_on_the_gate(r, target, roads);
}

} // verus!
