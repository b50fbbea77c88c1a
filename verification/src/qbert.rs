//! Q*bert over a cube pyramid: diagonal hops light the cubes, two enemies hop
//! at random between them, and lighting every cube wins.
//!
//! The pyramid has `QBERT_ROWS` rows; row `r` holds `r + 1` cubes, numbered
//! row by row from the top. The clocks that decide when enemies hop and how
//! long the rider stays untouchable after a hit belong to the caller.
use vstd::prelude::*;
use crate::config::{QBERT_LIVES, QBERT_ROWS};
use crate::lcg::{lcg_next, next_unit, scale_draw, scaled_draw, unit_numerator};
use crate::status::{decimal, push_decimal};
use vstd::string::StringExecFns;

verus! {

#[derive(Debug, Clone, Copy, PartialEq, Eq, Structural)]
pub enum QbertPhase {
    Hopping,
    Won,
    Lost,
}

impl QbertPhase {
    /// The status-line word for the phase.
    pub fn label(self) -> (text: &'static str)
        ensures
            self == QbertPhase::Hopping ==> text@ == "HOPPING"@,
            self == QbertPhase::Won ==> text@ == "LIT"@,
            self == QbertPhase::Lost ==> text@ == "FELL"@,
    {
        match self {
            QbertPhase::Hopping => "HOPPING",
            QbertPhase::Won => "LIT",
            QbertPhase::Lost => "FELL",
        }
    }
}

/// What one frame produced, for sound and labels.
#[derive(Debug, Clone, Copy, Default, PartialEq, Eq)]
pub struct QbertEvents {
    pub hopped: bool,
    pub lit: u32,
    pub lost_life: bool,
    pub cleared: bool,
}

/// One enemy, hopping between cubes.
#[derive(Debug, Clone, Copy, PartialEq, Eq)]
pub struct Enemy {
    pub row: usize,
    pub index: usize,
}

/// One run over the pyramid.
#[derive(Debug, Clone, PartialEq)]
pub struct QbertSim {
    pub row: usize,
    pub index: usize,
    pub lit: Vec<bool>,
    pub enemies: Vec<Enemy>,
    pub lives: u8,
    pub phase: QbertPhase,
    /// State of the generator behind the enemies' hops.
    pub rng: u64,
    /// The seed the pyramid was built from, for restarts.
    pub seed: u64,
    /// Length of the file the pyramid belongs to.
    pub lines: usize,
}

/// The state of a pyramid run as mathematics sees it.
#[verifier::ext_equal]
pub struct QbertModel {
    pub row: nat,
    pub index: nat,
    pub lit: Seq<bool>,
    pub enemies: Seq<Enemy>,
    pub lives: nat,
    pub phase: QbertPhase,
    pub rng: u64,
    pub seed: u64,
    pub lines: nat,
}

impl View for QbertSim {
    type V = QbertModel;

    open spec fn view(&self) -> QbertModel {
        QbertModel {
            row: self.row as nat,
            index: self.index as nat,
            lit: self.lit@,
            enemies: self.enemies@,
            lives: self.lives as nat,
            phase: self.phase,
            rng: self.rng,
            seed: self.seed,
            lines: self.lines as nat,
        }
    }
}

/// Number of cubes in the first `rows` rows: `1 + 2 + ... + rows`.
pub open spec fn triangle(rows: nat) -> nat
    decreases rows,
{
    if rows == 0 {
        0
    } else {
        triangle((rows - 1) as nat) + rows
    }
}

/// Number of cubes in the pyramid.
pub open spec fn cube_count() -> nat {
    triangle(QBERT_ROWS as nat)
}

/// Position of cube `(row, index)` in the row-by-row numbering.
pub open spec fn cube_number(row: nat, index: nat) -> nat {
    triangle(row) + index
}

/// `(row, index)` is a cube of the pyramid.
pub open spec fn on_pyramid(row: nat, index: nat) -> bool {
    row < QBERT_ROWS && index <= row
}

/// Where a diagonal hop from `(row, index)` lands, before the edge check.
/// `(-1, 0)` is down-left, `(1, 0)` down-right, `(0, 1)` up-left and `(0, -1)` up-right.
pub open spec fn hop_landing(row: nat, index: nat, dx: i32, dz: i32) -> Option<(nat, nat)> {
    if dx == -1 && dz == 0 {
        Some((row + 1, index))
    } else if dx == 1 && dz == 0 {
        Some((row + 1, index + 1))
    } else if dx == 0 && dz == 1 {
        if row > 0 { Some(((row - 1) as nat, index)) } else { None }
    } else if dx == 0 && dz == -1 {
        if row > 0 && index > 0 { Some(((row - 1) as nat, (index - 1) as nat)) } else { None }
    } else {
        None
    }
}

/// The run after a hop: landing on a cube of the pyramid moves there and lights
/// it; hopping off the edge, or any hop after the run ended, changes nothing.
pub open spec fn qbert_hop(m: QbertModel, dx: i32, dz: i32) -> QbertModel {
    if m.phase != QbertPhase::Hopping {
        m
    } else {
        match hop_landing(m.row, m.index, dx, dz) {
            Some(p) => if on_pyramid(p.0, p.1) {
                QbertModel { row: p.0, index: p.1, lit: m.lit.update(cube_number(p.0, p.1) as int, true), ..m }
            } else {
                m
            },
            None => m,
        }
    }
}

/// A hop can be computed and recorded without overflow or an out-of-range cube.
pub open spec fn hop_fits(m: QbertModel, dx: i32, dz: i32) -> bool {
    &&& (dx == -1 && dz == 0) ==> m.row < usize::MAX
    &&& (dx == 1 && dz == 0) ==> m.row < usize::MAX && m.index < usize::MAX
    &&& m.phase == QbertPhase::Hopping ==> match hop_landing(m.row, m.index, dx, dz) {
        Some(p) => on_pyramid(p.0, p.1) ==> cube_number(p.0, p.1) < m.lit.len(),
        None => true,
    }
}

/// The cubes an enemy on `(row, index)` may hop to, in the order they are offered.
pub open spec fn neighbour_cubes(row: nat, index: nat) -> Seq<(nat, nat)> {
    let down: Seq<(nat, nat)> = if row + 1 < QBERT_ROWS { seq![(row + 1, index), (row + 1, index + 1)] } else { seq![] };
    let up_left: Seq<(nat, nat)> = if row > 0 && index < row { seq![((row - 1) as nat, index)] } else { seq![] };
    let up_right: Seq<(nat, nat)> = if row > 0 && index > 0 { seq![((row - 1) as nat, (index - 1) as nat)] } else { seq![] };
    down + up_left + up_right
}

/// Which offered cube a draw picks: the scaled draw, capped at the last option.
pub open spec fn offered_pick(numerator: nat, count: nat) -> nat {
    let pick = scaled_draw(numerator, count) as nat;
    let last: nat = if count > 0 { (count - 1) as nat } else { 0 };
    if pick < last { pick } else { last }
}

/// One enemy's hop: a draw picks one of its neighbouring cubes.
pub open spec fn enemy_hop(e: Enemy, state: u64) -> (Enemy, u64) {
    let next = lcg_next(state);
    let options = neighbour_cubes(e.row as nat, e.index as nat);
    let pick = offered_pick(unit_numerator(next), options.len());
    if pick < options.len() {
        (Enemy { row: options[pick as int].0 as usize, index: options[pick as int].1 as usize }, next)
    } else {
        (e, next)
    }
}

/// Every enemy from `i` on hops once, in order, drawing from one generator.
pub open spec fn enemies_hop(enemies: Seq<Enemy>, state: u64, i: nat) -> (Seq<Enemy>, u64)
    decreases enemies.len() - i,
{
    if i >= enemies.len() {
        (enemies, state)
    } else {
        let (moved, next) = enemy_hop(enemies[i as int], state);
        enemies_hop(enemies.update(i as int, moved), next, i + 1)
    }
}

/// An enemy's neighbours can be listed without overflow.
pub open spec fn enemy_fits(e: Enemy) -> bool {
    e.row < usize::MAX && (e.row + 1 < QBERT_ROWS ==> e.index < usize::MAX)
}

/// Some enemy stands on the rider's cube.
pub open spec fn enemy_on_rider(m: QbertModel) -> bool {
    exists|k: int| 0 <= k < m.enemies.len() && #[trigger] m.enemies[k].row == m.row && m.enemies[k].index == m.index
}

/// Every cube is lit.
pub open spec fn all_lit(lit: Seq<bool>) -> bool {
    forall|k: int| 0 <= k < lit.len() ==> #[trigger] lit[k]
}

/// The enemies' turn: every enemy hops once when their clock came due.
pub open spec fn qbert_enemies_turn(m: QbertModel, enemies_move: bool) -> QbertModel {
    if enemies_move {
        QbertModel { enemies: enemies_hop(m.enemies, m.rng, 0).0, rng: enemies_hop(m.enemies, m.rng, 0).1, ..m }
    } else {
        m
    }
}

/// Contact: an enemy on the rider's cube costs a life while the rider is
/// vulnerable, sending the rider back to the top, or ending the run on the last life.
pub open spec fn qbert_contact(m: QbertModel, vulnerable: bool) -> QbertModel {
    if vulnerable && enemy_on_rider(m) {
        let lives: nat = if m.lives > 0 { (m.lives - 1) as nat } else { 0 };
        if lives == 0 {
            QbertModel { lives, phase: QbertPhase::Lost, ..m }
        } else {
            QbertModel { lives, row: 0, index: 0, ..m }
        }
    } else {
        m
    }
}

/// A fully lit pyramid wins.
pub open spec fn qbert_check_clear(m: QbertModel) -> QbertModel {
    if all_lit(m.lit) {
        QbertModel { phase: QbertPhase::Won, ..m }
    } else {
        m
    }
}

/// One settling of the board after the clocks ran: the enemies' turn, then
/// contact, then the win check. Nothing happens once the run has ended.
pub open spec fn qbert_settle(m: QbertModel, enemies_move: bool, vulnerable: bool) -> (QbertModel, QbertEvents) {
    if m.phase != QbertPhase::Hopping {
        (m, QbertEvents { hopped: false, lit: 0, lost_life: false, cleared: false })
    } else {
        let moved = qbert_enemies_turn(m, enemies_move);
        let lost = vulnerable && enemy_on_rider(moved);
        let touched = qbert_contact(moved, vulnerable);
        if touched.phase == QbertPhase::Lost {
            (touched, QbertEvents { hopped: false, lit: 0, lost_life: lost, cleared: false })
        } else {
            (
                qbert_check_clear(touched),
                QbertEvents { hopped: false, lit: 0, lost_life: lost, cleared: all_lit(touched.lit) },
            )
        }
    }
}

/// A fresh run from `seed`: the rider on the lit top cube, the two enemies on the
/// bottom row's corners.
pub open spec fn qbert_start(seed: u64, lines: nat) -> QbertModel {
    QbertModel {
        row: 0,
        index: 0,
        lit: Seq::new(cube_count(), |k: int| k == 0),
        enemies: seq![
            Enemy { row: (QBERT_ROWS - 1) as usize, index: 0 },
            Enemy { row: (QBERT_ROWS - 1) as usize, index: (QBERT_ROWS - 1) as usize },
        ],
        lives: QBERT_LIVES as nat,
        phase: QbertPhase::Hopping,
        rng: seed | 1,
        seed,
        lines,
    }
}

/// Every enemy of the run can hop without overflow.
pub open spec fn enemies_fit(m: QbertModel) -> bool {
    forall|k: int| 0 <= k < m.enemies.len() ==> enemy_fits(#[trigger] m.enemies[k])
}

fn neighbours(row: usize, index: usize) -> (options: Vec<(usize, usize)>)
    requires
        enemy_fits(Enemy { row, index }),
    ensures
        options@.len() == neighbour_cubes(row as nat, index as nat).len(),
        forall|k: int| 0 <= k < options@.len() ==> (#[trigger] options@[k]).0 as nat == neighbour_cubes(
            row as nat,
            index as nat,
        )[k].0 && options@[k].1 as nat == neighbour_cubes(row as nat, index as nat)[k].1,
{
    let mut options: Vec<(usize, usize)> = Vec::new();
    if row + 1 < QBERT_ROWS {
        options.push((row + 1, index));
        options.push((row + 1, index + 1));
    }
    if row > 0 {
        if index < row {
            options.push((row - 1, index));
        }
        if index > 0 {
            options.push((row - 1, index - 1));
        }
    }
    options
}

impl QbertSim {
    /// Cube index for a row/index pair.
    pub fn cube_index(row: usize, index: usize) -> (n: usize)
        requires
            cube_number(row as nat, index as nat) <= usize::MAX,
        ensures
            n == cube_number(row as nat, index as nat),
    {
        let mut total: usize = 0;
        let mut r: usize = 0;
        while r < row
            invariant
                r <= row,
                total == triangle(r as nat),
                cube_number(row as nat, index as nat) <= usize::MAX,
            decreases row - r,
        {
            proof {
                lemma_triangle_grows(r as nat + 1, row as nat);
            }
            total = total + (r + 1);
            r = r + 1;
        }
        total + index
    }

    /// A fresh run laid out from `seed`; `lines` is kept for restarts.
    pub fn new(seed: u64, lines: usize) -> (sim: Self)
        ensures
            sim@ == qbert_start(seed, lines as nat),
    {
        proof {
            reveal_with_fuel(triangle, 7);
        }
        let cubes = Self::cube_index(QBERT_ROWS, 0);
        let mut lit: Vec<bool> = Vec::new();
        while lit.len() < cubes
            invariant
                lit.len() <= cubes,
                cubes == cube_count(),
                forall|k: int| 0 <= k < lit@.len() ==> lit@[k] == false,
            decreases cubes - lit.len(),
        {
            lit.push(false);
        }
        lit.set(0, true);
        let mut enemies: Vec<Enemy> = Vec::new();
        enemies.push(Enemy { row: QBERT_ROWS - 1, index: 0 });
        enemies.push(Enemy { row: QBERT_ROWS - 1, index: QBERT_ROWS - 1 });
        let sim = Self {
            row: 0,
            index: 0,
            lit,
            enemies,
            lives: QBERT_LIVES,
            phase: QbertPhase::Hopping,
            rng: seed | 1,
            seed,
            lines,
        };
        assert(sim@.lit =~= qbert_start(seed, lines as nat).lit);
        assert(sim@.enemies =~= qbert_start(seed, lines as nat).enemies);
        sim
    }

    /// Hops in one of the four diagonal directions, if a cube is there.
    pub fn hop(&mut self, dx: i32, dz: i32)
        requires
            hop_fits(old(self)@, dx, dz),
        ensures
            final(self)@ == qbert_hop(old(self)@, dx, dz),
    {
        if self.phase != QbertPhase::Hopping {
            return;
        }
        let next: Option<(usize, usize)> = if dx == -1 && dz == 0 {
            Some((self.row + 1, self.index))
        } else if dx == 1 && dz == 0 {
            Some((self.row + 1, self.index + 1))
        } else if dx == 0 && dz == 1 {
            if self.row > 0 { Some((self.row - 1, self.index)) } else { None }
        } else if dx == 0 && dz == -1 {
            if self.row > 0 && self.index > 0 { Some((self.row - 1, self.index - 1)) } else { None }
        } else {
            None
        };
        match next {
            None => {},
            Some(p) => {
                let (row, index) = p;
                if row < QBERT_ROWS && index <= row {
                    proof {
                        reveal_with_fuel(triangle, 7);
                    }
                    let cube = Self::cube_index(row, index);
                    self.row = row;
                    self.index = index;
                    self.lit.set(cube, true);
                }
            },
        }
    }

    /// Advances the generator and returns the numerator of its unit draw.
    fn unit(&mut self) -> (numerator: u64)
        ensures
            final(self)@ == (QbertModel { rng: lcg_next(old(self)@.rng), ..old(self)@ }),
            numerator == unit_numerator(lcg_next(old(self)@.rng)),
            numerator < crate::lcg::SIGNIFICAND_LIMIT,
    {
        next_unit(&mut self.rng)
    }

    fn hop_enemies(&mut self)
        requires
            enemies_fit(old(self)@),
        ensures
            final(self)@ == (QbertModel {
                enemies: enemies_hop(old(self)@.enemies, old(self)@.rng, 0).0,
                rng: enemies_hop(old(self)@.enemies, old(self)@.rng, 0).1,
                ..old(self)@
            }),
    {
        let mut i: usize = 0;
        while i < self.enemies.len()
            invariant
                i <= self.enemies.len(),
                self.enemies@.len() == old(self)@.enemies.len(),
                enemies_hop(self@.enemies, self@.rng, i as nat) == enemies_hop(old(self)@.enemies, old(self)@.rng, 0),
                self@ == (QbertModel { enemies: self@.enemies, rng: self@.rng, ..old(self)@ }),
                forall|k: int| i <= k < self.enemies@.len() ==> self.enemies@[k] == old(self)@.enemies[k],
                enemies_fit(old(self)@),
            decreases self.enemies.len() - i,
        {
            let e = self.enemies[i];
            assert(enemy_fits(old(self)@.enemies[i as int]));
            let options = neighbours(e.row, e.index);
            let numerator = self.unit();
            let len = options.len();
            let pick = scale_draw(numerator, len);
            let last = if len > 0 { len - 1 } else { 0 };
            let chosen = if pick < last { pick } else { last };
            if chosen < len {
                let (row, index) = options[chosen];
                self.enemies.set(i, Enemy { row, index });
            }
            i = i + 1;
        }
    }

    fn enemy_here(&self) -> (found: bool)
        ensures
            found == enemy_on_rider(self@),
    {
        let mut k: usize = 0;
        while k < self.enemies.len()
            invariant
                k <= self.enemies.len(),
                forall|j: int| 0 <= j < k ==> !(self.enemies@[j].row == self.row && self.enemies@[j].index == self.index),
            decreases self.enemies.len() - k,
        {
            if self.enemies[k].row == self.row && self.enemies[k].index == self.index {
                assert(self@.enemies[k as int].row == self@.row && self@.enemies[k as int].index == self@.index);
                return true;
            }
            k = k + 1;
        }
        false
    }

    fn all_lit(&self) -> (done: bool)
        ensures
            done == all_lit(self@.lit),
    {
        let mut k: usize = 0;
        while k < self.lit.len()
            invariant
                k <= self.lit.len(),
                forall|j: int| 0 <= j < k ==> self.lit@[j],
            decreases self.lit.len() - k,
        {
            if !self.lit[k] {
                return false;
            }
            k = k + 1;
        }
        true
    }

    fn take_contact(&mut self, vulnerable: bool) -> (lost: bool)
        ensures
            final(self)@ == qbert_contact(old(self)@, vulnerable),
            lost == (vulnerable && enemy_on_rider(old(self)@)),
    {
        if vulnerable && self.enemy_here() {
            self.lives = if self.lives > 0 { self.lives - 1 } else { 0 };
            if self.lives == 0 {
                self.phase = QbertPhase::Lost;
            } else {
                self.row = 0;
                self.index = 0;
            }
            true
        } else {
            false
        }
    }

    fn check_clear(&mut self) -> (cleared: bool)
        ensures
            final(self)@ == qbert_check_clear(old(self)@),
            cleared == all_lit(old(self)@.lit),
    {
        if self.all_lit() {
            self.phase = QbertPhase::Won;
            true
        } else {
            false
        }
    }

    /// Settles the board for one frame once the caller's clocks have run:
    /// `enemies_move` when the enemy clock came due, `vulnerable` once the
    /// rider's grace period after a hit is over.
    pub fn settle(&mut self, enemies_move: bool, vulnerable: bool) -> (events: QbertEvents)
        requires
            enemies_fit(old(self)@),
        ensures
            (final(self)@, events) == qbert_settle(old(self)@, enemies_move, vulnerable),
    {
        let mut events = QbertEvents { hopped: false, lit: 0, lost_life: false, cleared: false };
        if self.phase != QbertPhase::Hopping {
            return events;
        }
        if enemies_move {
            self.hop_enemies();
        }
        events.lost_life = self.take_contact(vulnerable);
        if self.phase == QbertPhase::Lost {
            return events;
        }
        events.cleared = self.check_clear();
        events
    }

    /// Starts the same pyramid over from its seed.
    pub fn restart(&mut self)
        ensures
            final(self)@ == qbert_start(old(self)@.seed, old(self)@.lines),
    {
        *self = Self::new(self.seed, self.lines);
    }
}

proof fn lemma_triangle_grows(a: nat, b: nat)
    requires
        a <= b,
    ensures
        triangle(a) <= triangle(b),
    decreases b,
{
    if a < b {
        lemma_triangle_grows(a, (b - 1) as nat);
    }
}

} // verus!

verus! {

/// Every enemy stands on a cube of the pyramid.
pub open spec fn enemies_on_pyramid(enemies: Seq<Enemy>) -> bool {
    forall|k: int| 0 <= k < enemies.len() ==> on_pyramid((#[trigger] enemies[k]).row as nat, enemies[k].index as nat)
}

/// A hop never leaves the pyramid: from a cube of the pyramid the rider either
/// lands on a neighbouring cube and lights it, or stays put. No cube goes dark.
pub proof fn law_hop_stays_on_the_pyramid(m: QbertModel, dx: i32, dz: i32)
    requires
        on_pyramid(m.row, m.index),
        m.lit.len() == cube_count(),
    ensures
        ({
            let h = qbert_hop(m, dx, dz);
            &&& on_pyramid(h.row, h.index)
            &&& h.lit.len() == m.lit.len()
            &&& forall|k: int| 0 <= k < m.lit.len() && #[trigger] m.lit[k] ==> h.lit[k]
            &&& (h.row != m.row || h.index != m.index) ==> h.lit[cube_number(h.row, h.index) as int]
            &&& h.lives == m.lives && h.phase == m.phase && h.enemies == m.enemies
        }),
{
    lemma_cube_number_in_range(m.row, m.index);
    match hop_landing(m.row, m.index, dx, dz) {
        Some(p) => {
            if on_pyramid(p.0, p.1) {
                lemma_cube_number_in_range(p.0, p.1);
            }
        },
        None => {},
    }
}

/// Cubes of the pyramid are numbered below the cube count.
pub proof fn lemma_cube_number_in_range(row: nat, index: nat)
    requires
        on_pyramid(row, index),
    ensures
        cube_number(row, index) < cube_count(),
{
    reveal_with_fuel(triangle, 7);
    lemma_triangle_grows(row + 1, QBERT_ROWS as nat);
}

proof fn lemma_neighbours_on_pyramid(row: nat, index: nat)
    requires
        on_pyramid(row, index),
    ensures
        forall|k: int| 0 <= k < neighbour_cubes(row, index).len() ==> on_pyramid(
            (#[trigger] neighbour_cubes(row, index)[k]).0,
            neighbour_cubes(row, index)[k].1,
        ),
        QBERT_ROWS > 1 ==> neighbour_cubes(row, index).len() > 0,
{
}

proof fn lemma_enemies_hop_on_pyramid(enemies: Seq<Enemy>, state: u64, i: nat)
    requires
        enemies_on_pyramid(enemies),
    ensures
        enemies_on_pyramid(enemies_hop(enemies, state, i).0),
        enemies_hop(enemies, state, i).0.len() == enemies.len(),
    decreases enemies.len() - i,
{
    if i < enemies.len() {
        let e = enemies[i as int];
        let (moved, next) = enemy_hop(e, state);
        lemma_neighbours_on_pyramid(e.row as nat, e.index as nat);
        let updated = enemies.update(i as int, moved);
        assert(enemies_on_pyramid(updated));
        lemma_enemies_hop_on_pyramid(updated, next, i + 1);
    }
}

/// Enemies only ever hop between cubes of the pyramid.
pub proof fn law_enemies_stay_on_the_pyramid(m: QbertModel, enemies_move: bool)
    requires
        enemies_on_pyramid(m.enemies),
    ensures
        enemies_on_pyramid(qbert_enemies_turn(m, enemies_move).enemies),
        qbert_enemies_turn(m, enemies_move).enemies.len() == m.enemies.len(),
{
    lemma_enemies_hop_on_pyramid(m.enemies, m.rng, 0);
}

/// Settling the board costs at most one life, and only when the rider is
/// vulnerable and an enemy shares the rider's cube: the rider then goes back to
/// the top cube, or the run is lost on the last life. The lights are never
/// touched, a win is reported exactly when the whole pyramid is lit, and a run
/// that has ended stays as it is.
pub proof fn law_settle_costs_at_most_one_life(m: QbertModel, enemies_move: bool, vulnerable: bool)
    ensures
        ({
            let (s, e) = qbert_settle(m, enemies_move, vulnerable);
            &&& m.phase != QbertPhase::Hopping ==> s == m && !e.lost_life && !e.cleared
            &&& s.lit == m.lit
            &&& e.lost_life ==> vulnerable && s.lives + 1 == m.lives || (m.lives == 0 && s.lives == 0)
            &&& !e.lost_life ==> s.lives == m.lives
            &&& e.lost_life && s.phase == QbertPhase::Hopping ==> s.row == 0 && s.index == 0
            &&& e.lost_life && s.lives == 0 ==> s.phase == QbertPhase::Lost
            &&& e.cleared <==> (m.phase == QbertPhase::Hopping && s.phase == QbertPhase::Won)
            &&& e.cleared ==> all_lit(m.lit)
            &&& !e.lost_life ==> s.row == m.row && s.index == m.index
        }),
{
}

/// A fresh run puts the rider on the lit top cube of a pyramid of
/// `1 + 2 + ... + QBERT_ROWS` cubes, with every other cube dark, all lives left,
/// and the two enemies on the two bottom corners, one on each.
pub proof fn law_fresh_pyramid(seed: u64, lines: nat)
    ensures
        ({
            let m = qbert_start(seed, lines);
            &&& m.row == 0 && m.index == 0
            &&& m.lit.len() * 2 == QBERT_ROWS * (QBERT_ROWS + 1)
            &&& m.lit[0]
            &&& forall|k: int| 0 < k < m.lit.len() ==> !#[trigger] m.lit[k]
            &&& m.enemies.len() == 2
            &&& m.enemies[0].row == QBERT_ROWS - 1 && m.enemies[0].index == 0
            &&& m.enemies[1].row == QBERT_ROWS - 1 && m.enemies[1].index == QBERT_ROWS - 1
            &&& m.enemies[0] != m.enemies[1]
            &&& enemies_on_pyramid(m.enemies)
            &&& m.lives == QBERT_LIVES
            &&& m.phase == QbertPhase::Hopping
        }),
{
    reveal_with_fuel(triangle, 7);
}

/// A life is lost only to contact: when the enemies stay put this settle, a
/// hopping, vulnerable rider loses a life exactly when some enemy stands on its
/// cube, and never otherwise. A hit with lives to spare sends the rider back to
/// the top cube; the last life ends the run.
pub proof fn law_contact_costs_a_life(m: QbertModel, vulnerable: bool)
    requires
        m.lives > 0,
    ensures
        ({
            let (s, e) = qbert_settle(m, false, vulnerable);
            let touching = exists|k: int|
                0 <= k < m.enemies.len() && #[trigger] m.enemies[k].row == m.row && m.enemies[k].index == m.index;
            &&& e.lost_life <==> (m.phase == QbertPhase::Hopping && vulnerable && touching)
            &&& e.lost_life ==> s.lives + 1 == m.lives
            &&& (e.lost_life && m.lives > 1) ==> s.row == 0 && s.index == 0 && s.phase != QbertPhase::Lost
            &&& (e.lost_life && m.lives == 1) ==> s.phase == QbertPhase::Lost
            &&& !e.lost_life ==> s.lives == m.lives && s.row == m.row && s.index == m.index
            &&& s.enemies == m.enemies
        }),
{
}

/// `to` is a cube diagonally next to `from`: a row down at the same or the next
/// index, or a row up at the same or the previous index.
pub open spec fn diagonal_neighbours(from: Enemy, to: Enemy) -> bool {
    ||| to.row == from.row + 1 && (to.index == from.index || to.index == from.index + 1)
    ||| to.row + 1 == from.row && (to.index == from.index || to.index + 1 == from.index)
}

proof fn lemma_enemies_hop_to_neighbours(enemies: Seq<Enemy>, state: u64, i: nat)
    requires
        enemies_on_pyramid(enemies),
        i <= enemies.len(),
    ensures
        ({
            let r = enemies_hop(enemies, state, i).0;
            &&& r.len() == enemies.len()
            &&& forall|k: int| 0 <= k < i ==> #[trigger] r[k] == enemies[k]
            &&& forall|k: int| i <= k < enemies.len() ==> diagonal_neighbours(enemies[k], #[trigger] r[k])
        }),
    decreases enemies.len() - i,
{
    if i < enemies.len() {
        let e = enemies[i as int];
        let (moved, next) = enemy_hop(e, state);
        let options = neighbour_cubes(e.row as nat, e.index as nat);
        lemma_neighbours_on_pyramid(e.row as nat, e.index as nat);
        let updated = enemies.update(i as int, moved);
        assert(diagonal_neighbours(e, moved));
        assert(enemies_on_pyramid(updated));
        lemma_enemies_hop_to_neighbours(updated, next, i + 1);
        let r = enemies_hop(enemies, state, i).0;
        assert(r == enemies_hop(updated, next, i + 1).0);
        assert forall|k: int| i <= k < enemies.len() implies diagonal_neighbours(enemies[k], #[trigger] r[k]) by {
            if k == i {
                assert(r[k] == updated[k]);
            } else {
                assert(updated[k] == enemies[k]);
            }
        }
    }
}

/// When the enemies' clock comes due every enemy hops to a cube diagonally next
/// to the one it stood on, staying on the pyramid; otherwise none moves.
pub proof fn law_enemies_hop_to_a_neighbouring_cube(m: QbertModel, enemies_move: bool)
    requires
        enemies_on_pyramid(m.enemies),
    ensures
        ({
            let t = qbert_enemies_turn(m, enemies_move);
            &&& t.enemies.len() == m.enemies.len()
            &&& enemies_move ==> forall|k: int|
                0 <= k < m.enemies.len() ==> diagonal_neighbours(m.enemies[k], #[trigger] t.enemies[k])
            &&& !enemies_move ==> t.enemies == m.enemies
            &&& enemies_on_pyramid(t.enemies)
        }),
{
    lemma_enemies_hop_to_neighbours(m.enemies, m.rng, 0);
    lemma_enemies_hop_on_pyramid(m.enemies, m.rng, 0);
}

/// The pyramid numbers its cubes row by row: cube `(row, index)` is number
/// `row * (row + 1) / 2 + index`.
pub proof fn lemma_cube_number_closed_form(row: nat, index: nat)
    ensures
        cube_number(row, index) * 2 == row * (row + 1) + index * 2,
    decreases row,
{
    if row == 0 {
        assert(row * (row + 1) == 0) by (nonlinear_arith)
            requires
                row == 0,
        ;
    } else {
        let below = (row - 1) as nat;
        lemma_cube_number_closed_form(below, index);
        assert(triangle(row) == triangle(below) + row);
        assert(below * (below + 1) + row * 2 == row * (row + 1)) by (nonlinear_arith)
            requires
                below + 1 == row,
        ;
    }
}

/// A hop moves the rider diagonally to a neighbouring cube of the pyramid,
/// lights that cube, and changes the light of no other cube. `(-1, 0)` goes
/// down-left, `(1, 0)` down-right, `(0, 1)` up-left and `(0, -1)` up-right;
/// a hop off the pyramid, any other input, or a hop after the run ended
/// changes nothing.
pub proof fn law_hop_lights_only_the_landing_cube(m: QbertModel, dx: i32, dz: i32)
    requires
        on_pyramid(m.row, m.index),
        m.lit.len() * 2 == QBERT_ROWS * (QBERT_ROWS + 1),
    ensures
        ({
            let h = qbert_hop(m, dx, dz);
            let hopping = m.phase == QbertPhase::Hopping;
            &&& h.lit.len() == m.lit.len()
            &&& forall|k: int|
                0 <= k < m.lit.len() && k * 2 != h.row * (h.row + 1) + h.index * 2 ==> #[trigger] h.lit[k] == m.lit[k]
            &&& forall|k: int| 0 <= k < m.lit.len() && k * 2 == h.row * (h.row + 1) + h.index * 2 ==> #[trigger] h.lit[k]
                || h == m
            &&& h.row < QBERT_ROWS && h.index <= h.row
            &&& (hopping && dx == -1 && dz == 0 && m.row + 1 < QBERT_ROWS) ==> h.row == m.row + 1 && h.index == m.index
            &&& (hopping && dx == 1 && dz == 0 && m.row + 1 < QBERT_ROWS) ==> h.row == m.row + 1 && h.index == m.index + 1
            &&& (hopping && dx == 0 && dz == 1 && m.row > 0 && m.index < m.row) ==> h.row + 1 == m.row && h.index == m.index
            &&& (hopping && dx == 0 && dz == -1 && m.row > 0 && m.index > 0) ==> h.row + 1 == m.row && h.index + 1
                == m.index
            &&& !(hopping && ((dx == -1 && dz == 0 && m.row + 1 < QBERT_ROWS) || (dx == 1 && dz == 0 && m.row + 1
                < QBERT_ROWS) || (dx == 0 && dz == 1 && m.row > 0 && m.index < m.row) || (dx == 0 && dz == -1 && m.row
                > 0 && m.index > 0))) ==> h == m
            &&& h.lives == m.lives && h.phase == m.phase && h.enemies == m.enemies && h.rng == m.rng
        }),
{
    reveal_with_fuel(triangle, 7);
    let h = qbert_hop(m, dx, dz);
    lemma_cube_number_closed_form(h.row, h.index);
    lemma_cube_number_in_range(h.row, h.index);
    if h != m {
        lemma_cube_number_in_range(h.row, h.index);
        assert(h.lit == m.lit.update(cube_number(h.row, h.index) as int, true));
    }
}

/// Settling wins exactly when every cube is lit: a win is reported only on a
/// pyramid with no dark cube, a hopping run with every cube lit that is not
/// lost on this settle is won, and one dark cube is enough to keep hopping.
pub proof fn law_settle_wins_exactly_when_every_cube_is_lit(m: QbertModel, enemies_move: bool, vulnerable: bool)
    ensures
        ({
            let (s, e) = qbert_settle(m, enemies_move, vulnerable);
            &&& e.cleared ==> forall|k: int| 0 <= k < m.lit.len() ==> #[trigger] m.lit[k]
            &&& (m.phase == QbertPhase::Hopping && s.phase == QbertPhase::Won) ==> forall|k: int|
                0 <= k < m.lit.len() ==> #[trigger] m.lit[k]
            &&& (m.phase == QbertPhase::Hopping && s.phase != QbertPhase::Lost && forall|k: int|
                0 <= k < m.lit.len() ==> #[trigger] m.lit[k]) ==> e.cleared && s.phase == QbertPhase::Won
            &&& (m.phase == QbertPhase::Hopping && exists|k: int| 0 <= k < m.lit.len() && !#[trigger] m.lit[k])
                ==> !e.cleared && s.phase != QbertPhase::Won
            &&& s.lit == m.lit
        }),
{
}

} // verus!

verus! {

/// The status-line word for a phase, as [`QbertPhase::label`] gives it.
pub open spec fn qbert_phase_word(phase: QbertPhase) -> Seq<char> {
    match phase {
        QbertPhase::Hopping => "HOPPING"@,
        QbertPhase::Won => "LIT"@,
        QbertPhase::Lost => "FELL"@,
    }
}

/// The pyramid's part of the status line: lives in front of the ring and the
/// ride's own status, and the phase at the end.
pub open spec fn qbert_status_text(m: QbertModel, ring: Seq<char>, language: Seq<char>, ride: Seq<char>) -> Seq<char> {
    "QBERT LIVES "@ + decimal(m.lives) + " | RING: "@ + ring + " | "@ + language + " | "@ + ride + " | "@
        + qbert_phase_word(m.phase)
}

impl QbertSim {
    /// The status line of a pyramid run in the ring `ring`, written in
    /// `language`, around the ride's own status `ride`.
    pub fn status_text(&self, ring: &str, language: &str, ride: &str) -> (text: String)
        ensures
            text@ == qbert_status_text(self@, ring@, language@, ride@),
    {
        let mut text = String::from_str("QBERT LIVES ");
        push_decimal(&mut text, self.lives as u64);
        text.append(" | RING: ");
        text.append(ring);
        text.append(" | ");
        text.append(language);
        text.append(" | ");
        text.append(ride);
        text.append(" | ");
        text.append(self.phase.label());
        text
    }
}

} // verus!
