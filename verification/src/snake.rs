//! Snake over a ring: scattered power-ups, a tail that grows with each one eaten,
//! and an exit that unlocks once enough are eaten.
//!
//! Movement and collision belong to the ride itself; this module owns the
//! power-ups, the tail cap and the exit state.
use vstd::prelude::*;
use crate::config::{SNAKE_MIN_FOOD_DISTANCE, SNAKE_TAIL_GROWTH, SNAKE_TAIL_START};
use crate::grid::{chebyshev, chebyshev_fits, chebyshev_spec};
use crate::lcg::{lcg_next, next_unit, scale_draw, scaled_draw, unit_numerator};
use crate::status::{decimal, push_decimal};
use vstd::string::StringExecFns;

verus! {

/// One power-up waiting on the ring floor.
#[derive(Debug, Clone, Copy, PartialEq, Eq)]
pub struct Food {
    pub cell: (i32, i32),
    pub eaten: bool,
}

/// What changed over one [`SnakeSim::eat`].
#[derive(Debug, Clone, Copy, Default, PartialEq, Eq)]
pub struct SnakeEvents {
    pub ate: bool,
    pub opened_exit: bool,
}

/// One run of snake over a ring.
#[derive(Debug, Clone, PartialEq)]
pub struct SnakeSim {
    pub food: Vec<Food>,
    pub eaten: usize,
    /// Power-ups needed before the exit opens: every one that was placed.
    pub target: usize,
    /// Current maximum tail length, in cells. Grows with every power-up.
    pub max_tail: usize,
    /// Once enough power-ups are eaten the exit is passable.
    pub exit_open: bool,
    /// Set the first time the caller reports the run crashed.
    pub dead: bool,
}

/// The state of a snake run as mathematics sees it.
#[verifier::ext_equal]
pub struct SnakeModel {
    pub food: Seq<Food>,
    pub eaten: nat,
    pub target: nat,
    pub max_tail: nat,
    pub exit_open: bool,
    pub dead: bool,
}

impl View for SnakeSim {
    type V = SnakeModel;

    open spec fn view(&self) -> SnakeModel {
        SnakeModel {
            food: self.food@,
            eaten: self.eaten as nat,
            target: self.target as nat,
            max_tail: self.max_tail as nat,
            exit_open: self.exit_open,
            dead: self.dead,
        }
    }
}

/// The cells of a list of power-ups, in order.
pub open spec fn cells_of(food: Seq<Food>) -> Seq<(i32, i32)> {
    food.map_values(|f: Food| f.cell)
}

/// Power-ups laid out on `cells`, none of them eaten.
pub open spec fn fresh_food(cells: Seq<(i32, i32)>) -> Seq<Food> {
    cells.map_values(|c: (i32, i32)| Food { cell: c, eaten: false })
}

/// The random phase of the scatter: each try draws a candidate and keeps it when
/// it is far enough from the spawn and not already taken.
pub open spec fn scatter_draws(
    state: u64,
    tries_left: nat,
    placed: Seq<(i32, i32)>,
    spawn: (i32, i32),
    candidates: Seq<(i32, i32)>,
    target: nat,
) -> Seq<(i32, i32)>
    decreases tries_left,
{
    if placed.len() >= target || tries_left == 0 || candidates.len() == 0 {
        placed
    } else {
        let next = lcg_next(state);
        let index = scaled_draw(unit_numerator(next), candidates.len()) as nat % candidates.len();
        let cell = candidates[index as int];
        let kept = if chebyshev_spec(cell, spawn) < SNAKE_MIN_FOOD_DISTANCE || placed.contains(cell) {
            placed
        } else {
            placed.push(cell)
        };
        scatter_draws(next, (tries_left - 1) as nat, kept, spawn, candidates, target)
    }
}

/// The fallback phase of the scatter: candidates from index `i` on, in order,
/// fill the remaining slots with any cell that is neither taken nor the spawn.
pub open spec fn scatter_fill(
    placed: Seq<(i32, i32)>,
    spawn: (i32, i32),
    candidates: Seq<(i32, i32)>,
    i: nat,
    target: nat,
) -> Seq<(i32, i32)>
    decreases candidates.len() - i,
{
    if i >= candidates.len() || placed.len() >= target {
        placed
    } else {
        let cell = candidates[i as int];
        let kept = if placed.contains(cell) || cell == spawn { placed } else { placed.push(cell) };
        scatter_fill(kept, spawn, candidates, i + 1, target)
    }
}

/// The power-up cells a scatter from `seed` places.
pub open spec fn scatter_cells(
    seed: u64,
    spawn: (i32, i32),
    candidates: Seq<(i32, i32)>,
    target: nat,
) -> Seq<(i32, i32)> {
    if candidates.len() == 0 {
        Seq::empty()
    } else {
        scatter_fill(
            scatter_draws(seed | 1, target * 64, Seq::empty(), spawn, candidates, target),
            spawn,
            candidates,
            0,
            target,
        )
    }
}

/// Index of the first uneaten power-up on `cell` at or after `from`, if any.
pub open spec fn meal_from(food: Seq<Food>, cell: (i32, i32), from: nat) -> Option<nat>
    decreases food.len() - from,
{
    if from >= food.len() {
        None
    } else if !food[from as int].eaten && food[from as int].cell == cell {
        Some(from)
    } else {
        meal_from(food, cell, from + 1)
    }
}

/// Index of the first uneaten power-up on `cell`, if any.
pub open spec fn meal(food: Seq<Food>, cell: (i32, i32)) -> Option<nat> {
    meal_from(food, cell, 0)
}

/// What eating on `cell` does to a run, and what it reports.
pub open spec fn snake_eat(s: SnakeModel, cell: (i32, i32)) -> (SnakeModel, SnakeEvents) {
    match meal(s.food, cell) {
        None => (s, SnakeEvents { ate: false, opened_exit: false }),
        Some(i) => {
            let eaten = s.eaten + 1;
            let opens = eaten >= s.target && !s.exit_open;
            (
                SnakeModel {
                    food: s.food.update(i as int, Food { cell, eaten: true }),
                    eaten,
                    target: s.target,
                    max_tail: s.max_tail + SNAKE_TAIL_GROWTH as nat,
                    exit_open: s.exit_open || opens,
                    dead: s.dead,
                },
                SnakeEvents { ate: true, opened_exit: opens },
            )
        },
    }
}

spec fn final_view_matches(now: SnakeModel, before: SnakeModel, cell: (i32, i32), events: SnakeEvents) -> bool {
    let (m, e) = snake_eat(before, cell);
    now =~= m && events == e
}

/// Number of power-ups not yet eaten.
pub open spec fn uneaten_count(food: Seq<Food>) -> nat
    decreases food.len(),
{
    if food.len() == 0 {
        0
    } else {
        uneaten_count(food.drop_last()) + if food.last().eaten { 0nat } else { 1nat }
    }
}

proof fn lemma_meal_from_found(food: Seq<Food>, cell: (i32, i32), from: nat)
    ensures
        match meal_from(food, cell, from) {
            Some(i) => from <= i < food.len() && !food[i as int].eaten && food[i as int].cell == cell
                && forall|j: int| from <= j < i ==> !(!food[j].eaten && food[j].cell == cell),
            None => forall|j: int| from <= j < food.len() ==> !(!food[j].eaten && food[j].cell == cell),
        },
    decreases food.len() - from,
{
    if from < food.len() {
        lemma_meal_from_found(food, cell, from + 1);
    }
}

/// Picks `target` distinct candidate cells, `SNAKE_MIN_FOOD_DISTANCE` or more
/// from the spawn where the draws allow it, then fills any slots left with the
/// first candidates that are neither taken nor the spawn itself.
fn scatter(seed: u64, spawn: (i32, i32), candidates: &[(i32, i32)], target: usize) -> (food: Vec<Food>)
    requires
        target <= usize::MAX / 64,
        forall|i: int| 0 <= i < candidates@.len() ==> chebyshev_fits(#[trigger] candidates@[i], spawn),
    ensures
        food@ == fresh_food(scatter_cells(seed, spawn, candidates@, target as nat)),
{
    let ghost cands = candidates@;
    let mut food: Vec<Food> = Vec::new();
    let n = candidates.len();
    if n == 0 {
        assert(food@ =~= fresh_food(Seq::empty()));
        return food;
    }
    let mut rng = seed | 1;
    let mut tries: usize = 0;
    let limit = target * 64;
    let ghost mut placed: Seq<(i32, i32)> = Seq::empty();
    assert(food@ =~= fresh_food(placed));
    while food.len() < target && tries < limit
        invariant
            n == cands.len(),
            n > 0,
            cands == candidates@,
            limit == target * 64,
            tries <= limit,
            food@ == fresh_food(placed),
            forall|i: int| 0 <= i < cands.len() ==> chebyshev_fits(#[trigger] cands[i], spawn),
            scatter_draws(rng, (limit - tries) as nat, placed, spawn, cands, target as nat)
                == scatter_draws(seed | 1, target as nat * 64, Seq::empty(), spawn, cands, target as nat),
        decreases limit - tries,
    {
        tries = tries + 1;
        let numerator = next_unit(&mut rng);
        let index = scale_draw(numerator, n) % n;
        let cell = candidates[index];
        if chebyshev(cell, spawn) < SNAKE_MIN_FOOD_DISTANCE {
            continue;
        }
        let taken = contains_cell(&food, cell);
        proof {
            assert(cells_of(food@) =~= placed);
        }
        if taken {
            continue;
        }
        food.push(Food { cell, eaten: false });
        proof {
            placed = placed.push(cell);
            assert(food@ =~= fresh_food(placed));
        }
    }
    let ghost drawn = placed;
    assert(scatter_draws(rng, (limit - tries) as nat, placed, spawn, cands, target as nat) == placed);
    let mut i: usize = 0;
    while i < n && food.len() < target
        invariant
            n == cands.len(),
            i <= n,
            cands == candidates@,
            food@ == fresh_food(placed),
            scatter_fill(placed, spawn, cands, i as nat, target as nat) == scatter_fill(drawn, spawn, cands, 0, target as nat),
        decreases n - i,
    {
        let cell = candidates[i];
        let taken = contains_cell(&food, cell);
        proof {
            assert(cells_of(food@) =~= placed);
        }
        if !taken && !(cell.0 == spawn.0 && cell.1 == spawn.1) {
            food.push(Food { cell, eaten: false });
            proof {
                placed = placed.push(cell);
                assert(food@ =~= fresh_food(placed));
            }
        }
        i = i + 1;
    }
    food
}

/// True when some power-up in `food` sits on `cell`.
fn contains_cell(food: &Vec<Food>, cell: (i32, i32)) -> (found: bool)
    ensures
        found == cells_of(food@).contains(cell),
{
    let mut i: usize = 0;
    while i < food.len()
        invariant
            i <= food.len(),
            forall|j: int| 0 <= j < i ==> food@[j].cell != cell,
        decreases food.len() - i,
    {
        if food[i].cell.0 == cell.0 && food[i].cell.1 == cell.1 {
            assert(cells_of(food@)[i as int] == cell);
            return true;
        }
        i = i + 1;
    }
    proof {
        if cells_of(food@).contains(cell) {
            let k = choose|k: int| 0 <= k < cells_of(food@).len() && cells_of(food@)[k] == cell;
            assert(food@[k].cell == cell);
        }
    }
    false
}

impl SnakeSim {
    /// Scatters `target` power-ups over `candidates`, deterministically from
    /// `seed`, keeping them a few cells clear of the rider's spawn and never on
    /// it. The exit opens once every power-up placed is eaten, so a ring with
    /// no room for any starts with it open.
    pub fn new(seed: u64, spawn: (i32, i32), candidates: &[(i32, i32)], target: usize) -> (sim: Self)
        requires
            target <= usize::MAX / 64,
            forall|i: int| 0 <= i < candidates@.len() ==> chebyshev_fits(#[trigger] candidates@[i], spawn),
        ensures
            sim@.food == fresh_food(
                scatter_cells(seed, spawn, candidates@, if target >= 1 { target as nat } else { 1 }),
            ),
            forall|k: int| 0 <= k < sim@.food.len() ==> (#[trigger] sim@.food[k]).cell != spawn,
            sim@.eaten == 0,
            sim@.target == sim@.food.len(),
            sim@.max_tail == SNAKE_TAIL_START,
            sim@.exit_open == (sim@.food.len() == 0),
            !sim@.dead,
            snake_run_ok(sim@),
    {
        let goal = if target >= 1 { target } else { 1 };
        let food = scatter(seed, spawn, candidates, goal);
        proof {
            let cells = scatter_cells(seed, spawn, candidates@, goal as nat);
            law_scatter_shape(seed, spawn, candidates@, goal as nat);
            assert forall|k: int| 0 <= k < food@.len() implies (#[trigger] food@[k]).cell != spawn by {
                assert(food@[k].cell == cells[k]);
                assert(cells.contains(cells[k]));
            }
            law_fresh_run_counts_agree(cells);
        }
        let placed = food.len();
        Self {
            food,
            eaten: 0,
            target: placed,
            max_tail: SNAKE_TAIL_START,
            exit_open: placed == 0,
            dead: false,
        }
    }

    /// Power-ups still waiting.
    pub fn remaining(&self) -> (count: usize)
        ensures
            count == uneaten_count(self@.food),
    {
        let mut count: usize = 0;
        let mut i: usize = 0;
        while i < self.food.len()
            invariant
                i <= self.food.len(),
                count == uneaten_count(self.food@.subrange(0, i as int)),
                count <= i,
            decreases self.food.len() - i,
        {
            assert(self.food@.subrange(0, i as int + 1).drop_last() =~= self.food@.subrange(0, i as int));
            if !self.food[i].eaten {
                count = count + 1;
            }
            i = i + 1;
        }
        assert(self.food@.subrange(0, i as int) =~= self.food@);
        count
    }

    /// Collects the power-up on `cell`, if any is there and uneaten.
    pub fn eat(&mut self, cell: (i32, i32)) -> (events: SnakeEvents)
        requires
            old(self)@.eaten < usize::MAX,
            old(self)@.max_tail <= usize::MAX - SNAKE_TAIL_GROWTH,
        ensures
            (final(self)@, events) == snake_eat(old(self)@, cell),
            old(self)@.exit_open ==> final(self)@.exit_open,
            events.opened_exit <==> (!old(self)@.exit_open && final(self)@.exit_open),
            snake_run_ok(old(self)@) ==> snake_run_ok(final(self)@),
            snake_run_ok(old(self)@) ==> (events.opened_exit <==> (events.ate && uneaten_count(final(self)@.food) == 0)),
    {
        let mut events = SnakeEvents { ate: false, opened_exit: false };
        let mut i: usize = 0;
        while i < self.food.len()
            invariant
                i <= self.food.len(),
                self@ == old(self)@,
                events == (SnakeEvents { ate: false, opened_exit: false }),
                old(self)@.eaten < usize::MAX,
                old(self)@.max_tail <= usize::MAX - SNAKE_TAIL_GROWTH,
                meal_from(self.food@, cell, i as nat) == meal(self.food@, cell),
            decreases self.food.len() - i,
        {
            if !self.food[i].eaten && self.food[i].cell.0 == cell.0 && self.food[i].cell.1 == cell.1 {
                assert(self.food@[i as int].cell == cell);
                assert(meal_from(self.food@, cell, i as nat) == Some(i as nat));
                assert(meal(old(self)@.food, cell) == Some(i as nat));
                self.food.set(i, Food { cell, eaten: true });
                assert(self.food@ =~= old(self)@.food.update(i as int, Food { cell, eaten: true }));
                self.eaten = self.eaten + 1;
                self.max_tail = self.max_tail + SNAKE_TAIL_GROWTH;
                events.ate = true;
                if self.eaten >= self.target && !self.exit_open {
                    self.exit_open = true;
                    events.opened_exit = true;
                }
                assert(self@.food == old(self)@.food.update(i as int, Food { cell, eaten: true }));
                assert(final_view_matches(self@, old(self)@, cell, events));
                proof {
                    law_exit_opens_once(old(self)@, cell);
                }
                return events;
            }
            i = i + 1;
        }
        assert(meal_from(self.food@, cell, i as nat) == None::<nat>);
        proof {
            law_exit_opens_once(old(self)@, cell);
        }
        events
    }

    /// Caps a trail to the current tail length, dropping the oldest cells.
    /// Returns how many cells fell off the end.
    pub fn trim_tail(&self, trail: &mut Vec<(i32, i32)>) -> (dropped: usize)
        ensures
            dropped as nat == if old(trail)@.len() > self@.max_tail { (old(trail)@.len() - self@.max_tail) as nat } else { 0 },
            final(trail)@ == old(trail)@.subrange(dropped as int, old(trail)@.len() as int),
    {
        let len = trail.len();
        let excess = if len > self.max_tail { len - self.max_tail } else { 0 };
        if excess > 0 {
            let mut kept: Vec<(i32, i32)> = Vec::new();
            let mut i = excess;
            while i < len
                invariant
                    excess <= i <= len,
                    len == trail@.len(),
                    trail@ == old(trail)@,
                    kept@ == old(trail)@.subrange(excess as int, i as int),
                decreases len - i,
            {
                kept.push(trail[i]);
                i = i + 1;
            }
            *trail = kept;
        }
        excess
    }

    /// True exactly once, the first time the run is seen crashed, so the caller
    /// can play a death cue without tracking the phase itself.
    pub fn note_crash(&mut self) -> (first: bool)
        ensures
            (final(self)@, first) == snake_note_crash(old(self)@),
    {
        if self.dead {
            return false;
        }
        self.dead = true;
        true
    }
}

} // verus!

verus! {

/// What reporting a crash does to a run, and whether it was the first report.
pub open spec fn snake_note_crash(s: SnakeModel) -> (SnakeModel, bool) {
    (SnakeModel { dead: true, ..s }, !s.dead)
}

/// The power-up count adds up: every power-up is either eaten or still waiting.
pub open spec fn snake_counts_agree(s: SnakeModel) -> bool {
    s.eaten + uneaten_count(s.food) == s.food.len()
}

proof fn lemma_uneaten_update(food: Seq<Food>, i: int, f: Food)
    requires
        0 <= i < food.len(),
        !food[i].eaten,
        f.eaten,
    ensures
        uneaten_count(food.update(i, f)) + 1 == uneaten_count(food),
    decreases food.len(),
{
    let updated = food.update(i, f);
    if i == food.len() - 1 {
        assert(updated.drop_last() =~= food.drop_last());
    } else {
        lemma_uneaten_update(food.drop_last(), i, f);
        assert(updated.drop_last() =~= food.drop_last().update(i, f));
    }
}

proof fn lemma_uneaten_bound(food: Seq<Food>)
    ensures
        uneaten_count(food) <= food.len(),
    decreases food.len(),
{
    if food.len() > 0 {
        lemma_uneaten_bound(food.drop_last());
    }
}

proof fn lemma_fresh_uneaten(cells: Seq<(i32, i32)>)
    ensures
        uneaten_count(fresh_food(cells)) == cells.len(),
    decreases cells.len(),
{
    if cells.len() > 0 {
        lemma_fresh_uneaten(cells.drop_last());
        assert(fresh_food(cells).drop_last() =~= fresh_food(cells.drop_last()));
    }
}

/// A run is consistent: every power-up is either eaten or still waiting, the
/// target is every power-up placed, and the exit is open exactly when none is
/// left waiting.
pub open spec fn snake_run_ok(s: SnakeModel) -> bool {
    &&& snake_counts_agree(s)
    &&& s.target == s.food.len()
    &&& s.exit_open == (uneaten_count(s.food) == 0)
}

/// A fresh run is consistent: it has eaten nothing, every scattered power-up
/// is waiting, and the exit starts open only when nothing was scattered.
pub proof fn law_fresh_run_counts_agree(cells: Seq<(i32, i32)>)
    ensures
        snake_run_ok(
            SnakeModel {
                food: fresh_food(cells),
                eaten: 0,
                target: cells.len(),
                max_tail: SNAKE_TAIL_START as nat,
                exit_open: cells.len() == 0,
                dead: false,
            },
        ),
{
    lemma_fresh_uneaten(cells);
}

/// Eating either changes nothing, or eats exactly one waiting power-up: the
/// waiting count drops by one, the eaten count and the tail limit grow, and the
/// agreement between the two counts is kept.
pub proof fn law_eat_takes_one(s: SnakeModel, cell: (i32, i32))
    ensures
        ({
            let (t, e) = snake_eat(s, cell);
            &&& !e.ate ==> t == s
            &&& e.ate ==> uneaten_count(t.food) + 1 == uneaten_count(s.food)
            &&& e.ate ==> t.eaten == s.eaten + 1 && t.max_tail == s.max_tail + SNAKE_TAIL_GROWTH
            &&& e.ate <==> cells_of(s.food).contains(cell) && meal(s.food, cell) is Some
            &&& snake_counts_agree(s) ==> snake_counts_agree(t)
            &&& t.food.len() == s.food.len()
        }),
{
    lemma_meal_from_found(s.food, cell, 0);
    match meal(s.food, cell) {
        Some(i) => {
            lemma_uneaten_update(s.food, i as int, Food { cell, eaten: true });
            assert(cells_of(s.food)[i as int] == cell);
        },
        None => {},
    }
}

/// The waiting count is the number of power-ups not yet eaten.
pub proof fn law_uneaten_count_counts_the_waiting(food: Seq<Food>)
    ensures
        uneaten_count(food) == food.filter(|f: Food| !f.eaten).len(),
    decreases food.len(),
{
    reveal(Seq::filter);
    if food.len() > 0 {
        law_uneaten_count_counts_the_waiting(food.drop_last());
    }
}

/// Eating collects the first uneaten power-up lying on the cell, if there is
/// one: it and nothing else is marked eaten, the eaten count grows by one and
/// the tail limit by the growth step, and the report says it ate. With no
/// uneaten power-up on the cell the run is left exactly as it was.
pub proof fn law_eat_collects_the_first_power_up_on_the_cell(s: SnakeModel, cell: (i32, i32))
    ensures
        ({
            let (t, e) = snake_eat(s, cell);
            &&& e.ate <==> exists|i: int| 0 <= i < s.food.len() && !(#[trigger] s.food[i]).eaten && s.food[i].cell == cell
            &&& !e.ate ==> t == s && !e.opened_exit
            &&& e.ate ==> exists|i: int| {
                &&& 0 <= i < s.food.len() && !(#[trigger] s.food[i]).eaten && s.food[i].cell == cell
                &&& forall|j: int| 0 <= j < i ==> (#[trigger] s.food[j]).eaten || s.food[j].cell != cell
                &&& t.food == s.food.update(i, Food { cell, eaten: true })
            }
            &&& e.ate ==> t.eaten == s.eaten + 1 && t.max_tail == s.max_tail + SNAKE_TAIL_GROWTH && t.target == s.target
                && t.dead == s.dead
        }),
{
    lemma_meal_from_found(s.food, cell, 0);
    match meal(s.food, cell) {
        Some(i) => {
            let i = i as int;
            assert(0 <= i < s.food.len() && !s.food[i].eaten && s.food[i].cell == cell);
        },
        None => {},
    }
}

/// With power-ups on distinct cells, eating the same cell a second time does nothing.
pub proof fn law_eating_twice_does_nothing(s: SnakeModel, cell: (i32, i32))
    requires
        cells_of(s.food).no_duplicates(),
    ensures
        ({
            let first = snake_eat(s, cell).0;
            let (again, e) = snake_eat(first, cell);
            !e.ate && again == first
        }),
{
    lemma_meal_from_found(s.food, cell, 0);
    let first = snake_eat(s, cell).0;
    lemma_meal_from_found(first.food, cell, 0);
    match meal(s.food, cell) {
        Some(i) => {
            assert forall|j: int| 0 <= j < first.food.len() implies !(!first.food[j].eaten
                && first.food[j].cell == cell) by {
                if j != i {
                    assert(cells_of(s.food)[j] == s.food[j].cell);
                    assert(cells_of(s.food)[i as int] == s.food[i as int].cell);
                }
            }
        },
        None => {},
    }
}

/// The exit opens at most once and never closes. It is reported open on
/// exactly the meal that brings the eaten count up to the target, which in a
/// consistent run is the meal of the last waiting power-up; and eating keeps
/// the run consistent.
pub proof fn law_exit_opens_once(s: SnakeModel, cell: (i32, i32))
    ensures
        ({
            let (t, e) = snake_eat(s, cell);
            &&& s.exit_open ==> t.exit_open
            &&& e.opened_exit <==> (!s.exit_open && t.exit_open)
            &&& e.opened_exit <==> (e.ate && !s.exit_open && s.eaten + 1 >= s.target)
            &&& snake_run_ok(s) ==> snake_run_ok(t)
            &&& snake_run_ok(s) ==> (e.opened_exit <==> (e.ate && uneaten_count(t.food) == 0))
        }),
{
    law_eat_takes_one(s, cell);
    lemma_uneaten_bound(snake_eat(s, cell).0.food);
}

/// A crash is reported exactly once: the second report of the same run says no.
pub proof fn law_crash_reported_once(s: SnakeModel)
    ensures
        snake_note_crash(snake_note_crash(s).0).1 == false,
        !s.dead ==> snake_note_crash(s).1,
        snake_note_crash(s).0 == (SnakeModel { dead: true, ..s }),
        snake_run_ok(s) ==> snake_run_ok(snake_note_crash(s).0),
{
}

proof fn lemma_draws_shape(
    state: u64,
    tries_left: nat,
    placed: Seq<(i32, i32)>,
    spawn: (i32, i32),
    candidates: Seq<(i32, i32)>,
    target: nat,
)
    requires
        placed.no_duplicates(),
        forall|c| #[trigger] placed.contains(c) ==> candidates.contains(c),
        forall|k: int| 0 <= k < placed.len() ==> chebyshev_spec(#[trigger] placed[k], spawn) >= SNAKE_MIN_FOOD_DISTANCE,
        placed.len() <= target,
    ensures
        ({
            let r = scatter_draws(state, tries_left, placed, spawn, candidates, target);
            &&& r.no_duplicates()
            &&& forall|c| #[trigger] r.contains(c) ==> candidates.contains(c)
            &&& forall|k: int| 0 <= k < r.len() ==> chebyshev_spec(#[trigger] r[k], spawn) >= SNAKE_MIN_FOOD_DISTANCE
            &&& r.len() <= target
        }),
    decreases tries_left,
{
    if !(placed.len() >= target || tries_left == 0 || candidates.len() == 0) {
        let next = lcg_next(state);
        let index = scaled_draw(unit_numerator(next), candidates.len()) as nat % candidates.len();
        let cell = candidates[index as int];
        if !(chebyshev_spec(cell, spawn) < SNAKE_MIN_FOOD_DISTANCE || placed.contains(cell)) {
            let kept = placed.push(cell);
            assert forall|c| #[trigger] kept.contains(c) implies candidates.contains(c) by {
                if c != cell {
                    assert(placed.contains(c));
                }
            }
            assert forall|a: int, b: int| 0 <= a < b < kept.len() implies kept[a] != kept[b] by {
                if b == kept.len() - 1 {
                    assert(placed.contains(kept[a]));
                }
            }
            lemma_draws_shape(next, (tries_left - 1) as nat, kept, spawn, candidates, target);
        } else {
            lemma_draws_shape(next, (tries_left - 1) as nat, placed, spawn, candidates, target);
        }
    }
}

proof fn lemma_fill_shape(
    placed: Seq<(i32, i32)>,
    spawn: (i32, i32),
    candidates: Seq<(i32, i32)>,
    i: nat,
    target: nat,
)
    requires
        placed.no_duplicates(),
        forall|c| #[trigger] placed.contains(c) ==> candidates.contains(c),
        !placed.contains(spawn),
        placed.len() <= target,
        i <= candidates.len(),
    ensures
        ({
            let r = scatter_fill(placed, spawn, candidates, i, target);
            &&& r.no_duplicates()
            &&& forall|c| #[trigger] r.contains(c) ==> candidates.contains(c)
            &&& !r.contains(spawn)
            &&& r.len() <= target
            &&& placed.len() >= target ==> r == placed
            &&& r.len() < target ==> forall|j: int|
                i <= j < candidates.len() && candidates[j] != spawn ==> r.contains(#[trigger] candidates[j])
            &&& forall|c| #[trigger] placed.contains(c) ==> r.contains(c)
        }),
    decreases candidates.len() - i,
{
    if !(i >= candidates.len() || placed.len() >= target) {
        let cell = candidates[i as int];
        if placed.contains(cell) || cell == spawn {
            lemma_fill_shape(placed, spawn, candidates, i + 1, target);
            let r = scatter_fill(placed, spawn, candidates, i + 1, target);
            assert forall|j: int| i <= j < candidates.len() && candidates[j] != spawn && r.len() < target implies r.contains(
                #[trigger] candidates[j],
            ) by {
                if j == i {
                    assert(placed.contains(cell));
                }
            }
        } else {
            let kept = placed.push(cell);
            assert forall|c| #[trigger] kept.contains(c) implies candidates.contains(c) by {
                if c != cell {
                    assert(placed.contains(c));
                }
            }
            assert forall|a: int, b: int| 0 <= a < b < kept.len() implies kept[a] != kept[b] by {
                if b == kept.len() - 1 {
                    assert(placed.contains(kept[a]));
                }
            }
            assert forall|c| #[trigger] placed.contains(c) implies kept.contains(c) by {
                let k = choose|k: int| 0 <= k < placed.len() && placed[k] == c;
                assert(kept[k] == c);
            }
            assert(!kept.contains(spawn)) by {
                if kept.contains(spawn) {
                    let k = choose|k: int| 0 <= k < kept.len() && kept[k] == spawn;
                    if k < placed.len() {
                        assert(placed[k] == spawn);
                    }
                }
            }
            assert(kept[kept.len() - 1] == cell);
            assert(kept.contains(cell));
            lemma_fill_shape(kept, spawn, candidates, i + 1, target);
            let r = scatter_fill(kept, spawn, candidates, i + 1, target);
            assert(r.contains(cell));
            assert forall|j: int| i <= j < candidates.len() && candidates[j] != spawn && r.len() < target implies r.contains(
                #[trigger] candidates[j],
            ) by {
                if j == i {
                    assert(r.contains(cell));
                }
            }
        }
    }
}

/// The scatter places power-ups on distinct candidate cells, never on the
/// spawn and never more than asked for, and falls short of the target only when
/// every candidate cell other than the spawn is already used. When the seeded
/// draws alone fill the target, every power-up keeps its distance from the
/// spawn.
pub proof fn law_scatter_shape(seed: u64, spawn: (i32, i32), candidates: Seq<(i32, i32)>, target: nat)
    ensures
        ({
            let r = scatter_cells(seed, spawn, candidates, target);
            let drawn = scatter_draws(seed | 1, target * 64, Seq::empty(), spawn, candidates, target);
            &&& r.no_duplicates()
            &&& forall|c| #[trigger] r.contains(c) ==> candidates.contains(c)
            &&& !r.contains(spawn)
            &&& r.len() <= target
            &&& r.len() < target ==> forall|j: int|
                0 <= j < candidates.len() && candidates[j] != spawn ==> r.contains(#[trigger] candidates[j])
            &&& (candidates.len() > 0 && drawn.len() == target) ==> forall|k: int|
                0 <= k < r.len() ==> chebyshev_spec(#[trigger] r[k], spawn) >= SNAKE_MIN_FOOD_DISTANCE
        }),
{
    if candidates.len() > 0 {
        let drawn = scatter_draws(seed | 1, target * 64, Seq::empty(), spawn, candidates, target);
        lemma_draws_shape(seed | 1, target * 64, Seq::empty(), spawn, candidates, target);
        assert(!drawn.contains(spawn)) by {
            if drawn.contains(spawn) {
                let k = choose|k: int| 0 <= k < drawn.len() && drawn[k] == spawn;
                assert(chebyshev_spec(drawn[k], spawn) >= SNAKE_MIN_FOOD_DISTANCE);
            }
        }
        lemma_fill_shape(drawn, spawn, candidates, 0, target);
    }
}

} // verus!

verus! {

/// The snake's part of the status line: counts in front of the ring and the
/// ride's own status, and the exit's state at the end.
pub open spec fn snake_status_text(s: SnakeModel, ring: Seq<char>, language: Seq<char>, ride: Seq<char>) -> Seq<char> {
    "SNAKE "@ + decimal(s.eaten) + " | LEFT "@ + decimal(uneaten_count(s.food)) + " | TAIL "@ + decimal(s.max_tail)
        + " | RING: "@ + ring + " | "@ + language + " | "@ + ride + " | EXIT: "@ + if s.exit_open {
        "OPEN"@
    } else {
        "LOCKED"@
    }
}

impl SnakeSim {
    /// The status line of a snake run in the ring `ring`, written in
    /// `language`, in front of the ride's own status `ride`.
    pub fn status_text(&self, ring: &str, language: &str, ride: &str) -> (text: String)
        ensures
            text@ == snake_status_text(self@, ring@, language@, ride@),
    {
        let mut text = String::from_str("SNAKE ");
        push_decimal(&mut text, self.eaten as u64);
        text.append(" | LEFT ");
        push_decimal(&mut text, self.remaining() as u64);
        text.append(" | TAIL ");
        push_decimal(&mut text, self.max_tail as u64);
        text.append(" | RING: ");
        text.append(ring);
        text.append(" | ");
        text.append(language);
        text.append(" | ");
        text.append(ride);
        text.append(" | EXIT: ");
        text.append(if self.exit_open { "OPEN" } else { "LOCKED" });
        text
    }
}

} // verus!

verus! {

/// A call that changes a run: eating on a cell, or reporting a crash.
/// ([`SnakeSim::trim_tail`] and the queries leave the run as it is.)
pub enum SnakeCall {
    Eat((i32, i32)),
    Crash,
}

/// A run after one call.
pub open spec fn snake_step(s: SnakeModel, call: SnakeCall) -> SnakeModel {
    match call {
        SnakeCall::Eat(cell) => snake_eat(s, cell).0,
        SnakeCall::Crash => snake_note_crash(s).0,
    }
}

/// A run after a sequence of calls, in order.
pub open spec fn snake_run(s: SnakeModel, calls: Seq<SnakeCall>) -> SnakeModel
    decreases calls.len(),
{
    if calls.len() == 0 {
        s
    } else {
        snake_run(snake_step(s, calls[0]), calls.drop_first())
    }
}

/// How many calls of a sequence report the exit opening.
pub open spec fn exits_opened(s: SnakeModel, calls: Seq<SnakeCall>) -> nat
    decreases calls.len(),
{
    if calls.len() == 0 {
        0
    } else {
        let now: nat = match calls[0] {
            SnakeCall::Eat(cell) => if snake_eat(s, cell).1.opened_exit { 1 } else { 0 },
            SnakeCall::Crash => 0,
        };
        now + exits_opened(snake_step(s, calls[0]), calls.drop_first())
    }
}

/// How many calls of a sequence report a crash as the first one.
pub open spec fn crashes_reported(s: SnakeModel, calls: Seq<SnakeCall>) -> nat
    decreases calls.len(),
{
    if calls.len() == 0 {
        0
    } else {
        let now: nat = match calls[0] {
            SnakeCall::Eat(_) => 0,
            SnakeCall::Crash => if snake_note_crash(s).1 { 1 } else { 0 },
        };
        now + crashes_reported(snake_step(s, calls[0]), calls.drop_first())
    }
}

/// Over any sequence of calls a consistent run stays consistent: eaten and
/// waiting power-ups always add up to those placed, and the exit is open
/// exactly when none is left waiting.
pub proof fn law_run_stays_consistent(s: SnakeModel, calls: Seq<SnakeCall>)
    requires
        snake_run_ok(s),
    ensures
        snake_run_ok(snake_run(s, calls)),
        snake_run(s, calls).food.len() == s.food.len(),
    decreases calls.len(),
{
    if calls.len() > 0 {
        match calls[0] {
            SnakeCall::Eat(cell) => {
                law_exit_opens_once(s, cell);
                law_eat_takes_one(s, cell);
            },
            SnakeCall::Crash => {},
        }
        law_run_stays_consistent(snake_step(s, calls[0]), calls.drop_first());
    }
}

/// Over any sequence of calls the exit never closes once open, and at most one
/// call reports it opening: exactly one when it was shut before and open after.
pub proof fn law_run_opens_the_exit_once(s: SnakeModel, calls: Seq<SnakeCall>)
    ensures
        s.exit_open ==> snake_run(s, calls).exit_open,
        exits_opened(s, calls) <= 1,
        exits_opened(s, calls) == 1 <==> (!s.exit_open && snake_run(s, calls).exit_open),
    decreases calls.len(),
{
    if calls.len() > 0 {
        match calls[0] {
            SnakeCall::Eat(cell) => {
                law_exit_opens_once(s, cell);
            },
            SnakeCall::Crash => {},
        }
        law_run_opens_the_exit_once(snake_step(s, calls[0]), calls.drop_first());
    }
}

/// Over any sequence of calls a crash is reported at most once, and only when
/// none had been reported before: exactly once when the run was alive before
/// and crashed after. The crash flag never clears.
pub proof fn law_run_reports_a_crash_once(s: SnakeModel, calls: Seq<SnakeCall>)
    ensures
        s.dead ==> snake_run(s, calls).dead,
        crashes_reported(s, calls) <= 1,
        crashes_reported(s, calls) == 1 <==> (!s.dead && snake_run(s, calls).dead),
    decreases calls.len(),
{
    if calls.len() > 0 {
        law_run_reports_a_crash_once(snake_step(s, calls[0]), calls.drop_first());
    }
}

} // verus!
