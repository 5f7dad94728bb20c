//! The simulation engine.
//!
//! An automaton owns a live grid and a scratch grid of cell states.  Each
//! tick evaluates every cell's transitions against its eight toroidal Moore
//! neighbors, writes the results into the scratch grid, and commits it.
//! Construction seeds the grid from the rule set's distributions: the
//! default state everywhere, then box, proportional and fixed-quantity
//! placements, the later overriding the earlier.
//!
//! Random choices are drawn as integers below one billion, matching the
//! billionth-resolution probabilities of the rule set.  The contracts pin
//! each outcome as a function of the values drawn: a result holds for some
//! draw sequence, and everything that does not depend on a draw is exact.

use vstd::prelude::*;
use crate::compiler::parser::{ComparisonOperator, NeighborCell};
use crate::compiler::semantic::{Condition, Rules, State, StateDistribution};
use rayon::iter::{IntoParallelRefMutIterator, ParallelIterator};

verus! {

/// One cell of the grid: its state and its own position, kept so that
/// parallel workers know which cell they hold.
#[derive(Clone, Copy)]
pub struct Cell {
    state: usize,
    index_in_grid: usize,
}

impl Cell {
    /// The cell's state identifier.
    pub closed spec fn spec_state(self) -> int {
        self.state as int
    }

    /// The cell's position in the flat grid.
    pub closed spec fn spec_index(self) -> int {
        self.index_in_grid as int
    }
}

/// Uniform draw below a bound.
///
/// Relies on rand::random_range: a value uniformly distributed in the
/// given range, drawn from the thread-local generator; the range is not
/// empty, so the call does not panic.
#[verifier::external_body]
fn draw_below(bound: u64) -> (r: u64)
    requires
        bound >= 1,
    ensures
        r < bound,
{
    rand::random_range(0..bound)
}

// ---------------------------------------------------------------------------
// Toroidal addressing
// ---------------------------------------------------------------------------
/// Where the cell `(x, y)` lives in the flat grid of width `w` and height
/// `h`, wrapping both coordinates around.
pub open spec fn idx_of(x: int, y: int, w: int, h: int) -> int {
    (y % h) * w + (x % w)
}

/// Maps any coordinate onto the axis `[0, upper_bound)`, wrapping in both
/// directions, so that `-1` maps to `upper_bound - 1`.
pub fn tore_correction(value: isize, upper_bound: usize) -> (r: usize)
    requires
        1 <= upper_bound,
    ensures
        r == value as int % (upper_bound as int),
        r < upper_bound,
{
    let l = upper_bound;
    if value >= 0 {
        let v = value as usize;
        proof {
            vstd::arithmetic::div_mod::lemma_fundamental_div_mod(v as int, l as int);
        }
        v % l
    } else {
        let neg: u128 = (-(value as i128)) as u128;
        let m = (neg % (l as u128)) as usize;
        proof {
            let n = neg as int;
            let li = l as int;
            vstd::arithmetic::div_mod::lemma_fundamental_div_mod(n, li);
            let q = n / li;
            let mm = n % li;
            assert(value as int == -n);
            if mm == 0 {
                assert(value as int == (-q) * li + 0) by (nonlinear_arith)
                    requires
                        n == q * li + mm,
                        mm == 0,
                        value as int == -n,
                ;
                vstd::arithmetic::div_mod::lemma_fundamental_div_mod_converse(
                    value as int,
                    li,
                    -q,
                    0,
                );
            } else {
                assert(value as int == (-q - 1) * li + (li - mm)) by (nonlinear_arith)
                    requires
                        n == q * li + mm,
                        value as int == -n,
                ;
                vstd::arithmetic::div_mod::lemma_fundamental_div_mod_converse(
                    value as int,
                    li,
                    -q - 1,
                    li - mm,
                );
            }
        }
        if m == 0 {
            0
        } else {
            l - m
        }
    }
}

/// The toroidal correction is periodic: shifting a coordinate by the axis
/// length lands on the same cell, and the result always lies on the axis.
pub proof fn lemma_tore_periodic(v: int, l: int)
    requires
        l >= 1,
    ensures
        0 <= v % l < l,
        v % l == (v + l) % l,
{
    vstd::arithmetic::div_mod::lemma_mod_division_less_than_divisor(v, l);
    vstd::arithmetic::div_mod::lemma_mod_add_multiples_vanish(v, l);
}

/// The flat index of a (possibly out-of-range) coordinate pair.
fn get_index(pos: (isize, isize), size: (usize, usize)) -> (r: usize)
    requires
        1 <= size.0,
        1 <= size.1,
        size.0 * size.1 <= isize::MAX,
    ensures
        r == idx_of(pos.0 as int, pos.1 as int, size.0 as int, size.1 as int),
        r < size.0 * size.1,
{
    proof {
        assert(size.0 <= isize::MAX && size.1 <= isize::MAX) by (nonlinear_arith)
            requires
                size.0 * size.1 <= isize::MAX,
                size.0 >= 1,
                size.1 >= 1,
        ;
    }
    let ty = tore_correction(pos.1, size.1);
    let tx = tore_correction(pos.0, size.0);
    proof {
        assert(ty * size.0 + tx < size.1 * size.0) by (nonlinear_arith)
            requires
                ty < size.1,
                tx < size.0,
                size.0 >= 1,
                size.1 >= 1,
        ;
    }
    ty * size.0 + tx
}

/// The coordinates of a flat index.
fn get_position(index: usize, size: (usize, usize)) -> (r: (usize, usize))
    requires
        1 <= size.0,
        1 <= size.1,
        index < size.0 * size.1,
    ensures
        r.0 == index as int % size.0 as int,
        r.1 == index as int / size.0 as int,
        r.0 < size.0,
        r.1 < size.1,
        idx_of(r.0 as int, r.1 as int, size.0 as int, size.1 as int) == index,
{
    proof {
        vstd::arithmetic::div_mod::lemma_fundamental_div_mod(index as int, size.0 as int);
        let q = index as int / size.0 as int;
        let m = index as int % size.0 as int;
        assert(q < size.1) by (nonlinear_arith)
            requires
                index < size.0 * size.1,
                index as int == q * size.0 + m,
                0 <= m < size.0,
                size.0 >= 1,
                size.1 >= 1,
        ;
        vstd::arithmetic::div_mod::lemma_small_mod(m as nat, size.0 as nat);
        vstd::arithmetic::div_mod::lemma_small_mod(q as nat, size.1 as nat);
    }
    (index % size.0, index / size.0)
}

/// The offset of each Moore neighbor relative to the cell.
pub open spec fn neighbor_offset(neighbor: NeighborCell) -> (int, int) {
    match neighbor {
        NeighborCell::A => (-1, -1),
        NeighborCell::B => (0, -1),
        NeighborCell::C => (1, -1),
        NeighborCell::D => (-1, 0),
        NeighborCell::E => (1, 0),
        NeighborCell::F => (-1, 1),
        NeighborCell::G => (0, 1),
        NeighborCell::H => (1, 1),
    }
}

// ---------------------------------------------------------------------------
// Condition evaluation
// ---------------------------------------------------------------------------
/// Whether a cell state matches another state directly, or lies in the
/// other state's implicit range of synthetic delay states.
pub open spec fn is_state_spec(rules: Rules, state: int, other: int) -> bool {
    state == other || (0 <= other < rules.implicit_state_ranges@.len()
        && rules.implicit_state_ranges@[other] is Some && {
        let rg = rules.implicit_state_ranges@[other]->0;
        rg.start <= state < rg.start + rg.len
    })
}

/// 1 when the neighbor at the given offset matches the state, else 0.
pub open spec fn nb(rules: Rules, grid: Seq<Cell>, x: int, y: int, dx: int, dy: int, s: int) -> int {
    let w = rules.world_size.0 as int;
    let h = rules.world_size.1 as int;
    if is_state_spec(rules, grid[idx_of(x + dx, y + dy, w, h)].spec_state(), s) {
        1
    } else {
        0
    }
}

/// How many of the eight toroidal Moore neighbors of `(x, y)` match the
/// state; the cell itself is not counted.
pub open spec fn count_spec(rules: Rules, grid: Seq<Cell>, x: int, y: int, s: int) -> int {
    nb(rules, grid, x, y, -1, -1, s) + nb(rules, grid, x, y, 0, -1, s) + nb(
        rules,
        grid,
        x,
        y,
        1,
        -1,
        s,
    ) + nb(rules, grid, x, y, -1, 0, s) + nb(rules, grid, x, y, 1, 0, s) + nb(
        rules,
        grid,
        x,
        y,
        -1,
        1,
        s,
    ) + nb(rules, grid, x, y, 0, 1, s) + nb(rules, grid, x, y, 1, 1, s)
}

/// How a comparison operator reads on a neighbor count.
pub open spec fn eval_cmp(count: int, comp: ComparisonOperator, quantity: u8) -> bool {
    match comp {
        ComparisonOperator::Greater => count > quantity,
        ComparisonOperator::Lesser => count < quantity,
        ComparisonOperator::GreaterOrEqual => count >= quantity,
        ComparisonOperator::LesserOrEqual => count <= quantity,
        ComparisonOperator::Equal => count == quantity,
        ComparisonOperator::Different => count != quantity,
    }
}

/// The value of one condition at `(x, y)`, given the random value `draw`
/// (ignored by the deterministic conditions).
pub open spec fn eval_cond_spec(
    rules: Rules,
    grid: Seq<Cell>,
    x: int,
    y: int,
    c: Condition,
    draw: u32,
) -> bool {
    let w = rules.world_size.0 as int;
    let h = rules.world_size.1 as int;
    match c {
        Condition::QuantityCondition(s, comp, q) => eval_cmp(
            count_spec(rules, grid, x, y, s as int),
            comp,
            q,
        ),
        Condition::NeighborCondition(cell, s) => {
            let (dx, dy) = neighbor_offset(cell);
            is_state_spec(rules, grid[idx_of(x + dx, y + dy, w, h)].spec_state(), s as int)
        },
        Condition::RandomCondition(p) => draw < p,
        Condition::True => true,
    }
}

/// A conjunction holds when every condition holds, each reading its own
/// random value.
pub open spec fn eval_conj_spec(
    rules: Rules,
    grid: Seq<Cell>,
    x: int,
    y: int,
    conj: Seq<Condition>,
    draws: Seq<u32>,
) -> bool {
    forall|i: int| 0 <= i < conj.len() ==> eval_cond_spec(rules, grid, x, y, conj[i], draws[i])
}

/// A disjunction holds when some conjunction holds.
pub open spec fn eval_disj_spec(
    rules: Rules,
    grid: Seq<Cell>,
    x: int,
    y: int,
    disj: Seq<Seq<Condition>>,
    draws: Seq<Seq<u32>>,
) -> bool {
    exists|j: int|
        0 <= j < disj.len() && eval_conj_spec(rules, grid, x, y, disj[j], draws[j])
}

/// All draws are below one billion.
pub open spec fn draws_ok2(d: Seq<Seq<u32>>) -> bool {
    forall|j: int, k: int| 0 <= j < d.len() && 0 <= k < d[j].len() ==> d[j][k] < 1_000_000_000
}

/// The grid has one cell per world position, each knowing its index and
/// holding a valid state.
pub open spec fn grid_ok(rules: Rules, grid: Seq<Cell>) -> bool {
    &&& grid.len() == rules.world_size.0 * rules.world_size.1
    &&& forall|i: int|
        0 <= i < grid.len() ==> (#[trigger] grid[i]).spec_index() == i && grid[i].spec_state()
            < rules.states@.len()
}

impl Rules {
    fn is_state(&self, state: usize, other_state: usize) -> (r: bool)
        requires
            other_state < self.implicit_state_ranges@.len(),
        ensures
            r == is_state_spec(*self, state as int, other_state as int),
    {
        if state == other_state {
            return true;
        }
        match &self.implicit_state_ranges[other_state] {
            Some(range) => range.start <= state && state - range.start < range.len,
            None => false,
        }
    }

    fn evaluate_quantity_condition(count: u8, comp: ComparisonOperator, quantity: u8) -> (r: bool)
        ensures
            r == eval_cmp(count as int, comp, quantity),
    {
        match comp {
            ComparisonOperator::Greater => count > quantity,
            ComparisonOperator::Lesser => count < quantity,
            ComparisonOperator::GreaterOrEqual => count >= quantity,
            ComparisonOperator::LesserOrEqual => count <= quantity,
            ComparisonOperator::Equal => count == quantity,
            ComparisonOperator::Different => count != quantity,
        }
    }

    fn get_index_of_neighbor(pos: (isize, isize), neighbor: NeighborCell, size: (usize, usize)) -> (r:
        usize)
        requires
            1 <= size.0,
            1 <= size.1,
            size.0 * size.1 <= isize::MAX,
            0 <= pos.0 < size.0,
            0 <= pos.1 < size.1,
        ensures
            ({
                let (dx, dy) = neighbor_offset(neighbor);
                r == idx_of(pos.0 + dx, pos.1 + dy, size.0 as int, size.1 as int)
            }),
            r < size.0 * size.1,
    {
        proof {
            assert(size.0 <= isize::MAX && size.1 <= isize::MAX) by (nonlinear_arith)
                requires
                    size.0 * size.1 <= isize::MAX,
                    size.0 >= 1,
                    size.1 >= 1,
            ;
        }
        let (x, y) = pos;
        let neighbor_position: (isize, isize) = match neighbor {
            NeighborCell::A => (x - 1, y - 1),
            NeighborCell::B => (x, y - 1),
            NeighborCell::C => (x + 1, y - 1),
            NeighborCell::D => (x - 1, y),
            NeighborCell::E => (x + 1, y),
            NeighborCell::F => (x - 1, y + 1),
            NeighborCell::G => (x, y + 1),
            NeighborCell::H => (x + 1, y + 1),
        };
        get_index(neighbor_position, size)
    }

    fn count_state_in_neighborhood(
        &self,
        grid: &Vec<Cell>,
        pos: (usize, usize),
        state: usize,
    ) -> (count: u8)
        requires
            self.wf(),
            grid_ok(*self, grid@),
            pos.0 < self.world_size.0,
            pos.1 < self.world_size.1,
            state < self.implicit_state_ranges@.len(),
        ensures
            count == count_spec(*self, grid@, pos.0 as int, pos.1 as int, state as int),
    {
        proof {
            assert(self.world_size.0 <= isize::MAX && self.world_size.1 <= isize::MAX)
                by (nonlinear_arith)
                requires
                    self.world_size.0 * self.world_size.1 <= isize::MAX,
                    self.world_size.0 >= 1,
                    self.world_size.1 >= 1,
            ;
        }
        let x = pos.0 as isize;
        let y = pos.1 as isize;
        let size = self.world_size;
        let mut count: u8 = 0;
        let i1 = Self::get_index_of_neighbor((x, y), NeighborCell::A, size);
        if self.is_state(grid[i1].state, state) {
            count = count + 1;
        }
        let i2 = Self::get_index_of_neighbor((x, y), NeighborCell::B, size);
        if self.is_state(grid[i2].state, state) {
            count = count + 1;
        }
        let i3 = Self::get_index_of_neighbor((x, y), NeighborCell::C, size);
        if self.is_state(grid[i3].state, state) {
            count = count + 1;
        }
        let i4 = Self::get_index_of_neighbor((x, y), NeighborCell::D, size);
        if self.is_state(grid[i4].state, state) {
            count = count + 1;
        }
        let i5 = Self::get_index_of_neighbor((x, y), NeighborCell::E, size);
        if self.is_state(grid[i5].state, state) {
            count = count + 1;
        }
        let i6 = Self::get_index_of_neighbor((x, y), NeighborCell::F, size);
        if self.is_state(grid[i6].state, state) {
            count = count + 1;
        }
        let i7 = Self::get_index_of_neighbor((x, y), NeighborCell::G, size);
        if self.is_state(grid[i7].state, state) {
            count = count + 1;
        }
        let i8 = Self::get_index_of_neighbor((x, y), NeighborCell::H, size);
        if self.is_state(grid[i8].state, state) {
            count = count + 1;
        }
        count
    }

    fn evaluate_condition(&self, grid: &Vec<Cell>, pos: (usize, usize), condition: &Condition) -> (r:
        (bool, Ghost<u32>))
        requires
            self.wf(),
            grid_ok(*self, grid@),
            pos.0 < self.world_size.0,
            pos.1 < self.world_size.1,
            cond_ok_here(*condition, self.implicit_state_ranges@.len() as int),
        ensures
            r.1@ < 1_000_000_000,
            r.0 == eval_cond_spec(*self, grid@, pos.0 as int, pos.1 as int, *condition, r.1@),
    {
        match condition {
            Condition::QuantityCondition(state, comp, quantity) => {
                let count = self.count_state_in_neighborhood(grid, pos, *state);
                (Self::evaluate_quantity_condition(count, *comp, *quantity), Ghost(0))
            },
            Condition::NeighborCondition(neighbor, state) => {
                proof {
                    assert(self.world_size.0 <= isize::MAX && self.world_size.1 <= isize::MAX)
                        by (nonlinear_arith)
                        requires
                            self.world_size.0 * self.world_size.1 <= isize::MAX,
                            self.world_size.0 >= 1,
                            self.world_size.1 >= 1,
                    ;
                }
                let index = Self::get_index_of_neighbor(
                    (pos.0 as isize, pos.1 as isize),
                    *neighbor,
                    self.world_size,
                );
                (self.is_state(grid[index].state, *state), Ghost(0))
            },
            Condition::RandomCondition(probability) => {
                let d = draw_below(1_000_000_000) as u32;
                (d < *probability, Ghost(d))
            },
            Condition::True => (true, Ghost(0)),
        }
    }
}

/// The condition restriction evaluation relies on: named states have an
/// implicit-range slot.
pub open spec fn cond_ok_here(c: Condition, bound: int) -> bool {
    crate::compiler::semantic::cond_ok(c, bound)
}

/// The view of a disjunction of conjunction vectors.
pub open spec fn disj_view(v: Seq<Vec<Condition>>) -> Seq<Seq<Condition>> {
    crate::compiler::semantic::disj_view(v)
}

/// All draws in a per-transition draw table are below one billion.
pub open spec fn draws_ok3(d: Seq<Seq<Seq<u32>>>) -> bool {
    forall|t: int| 0 <= t < d.len() ==> draws_ok2(#[trigger] d[t])
}

/// Transition `t` fires for cell `i`: its origin is the cell's state and
/// its conditions hold under the given draws.
pub open spec fn firing(rules: Rules, grid: Seq<Cell>, i: int, t: int, draws: Seq<Seq<u32>>) -> bool {
    let w = rules.world_size.0 as int;
    let x = i % w;
    let y = i / w;
    &&& rules.transitions@[t].0 == grid[i].spec_state()
    &&& eval_disj_spec(rules, grid, x, y, disj_view(rules.transitions@[t].2@), draws)
}

/// The state cell `i` takes after one tick, scanning the transitions from
/// `t` on: the destination of the first firing transition, or the cell's
/// current state.
pub open spec fn cell_step_rec(rules: Rules, grid: Seq<Cell>, i: int, t: int, draws: Seq<Seq<Seq<u32>>>) -> int
    decreases rules.transitions@.len() - t,
{
    if t < 0 || t >= rules.transitions@.len() {
        grid[i].spec_state()
    } else if firing(rules, grid, i, t, draws[t]) {
        rules.transitions@[t].1 as int
    } else {
        cell_step_rec(rules, grid, i, t + 1, draws)
    }
}

/// Every scratch cell holds the outcome of its own transition scan
/// against the committed grid, for some draws.
pub open spec fn scratch_stepped(rules: Rules, g0: Seq<Cell>, gn: Seq<Cell>) -> bool {
    forall|i: int|
        0 <= i < gn.len() ==> (#[trigger] gn[i]).spec_index() == i && exists|d: Seq<Seq<Seq<u32>>>|
            draws_ok3(d) && gn[i].spec_state() == cell_step_rec(rules, g0, i, 0, d)
}

proof fn lemma_step_skip(rules: Rules, grid: Seq<Cell>, i: int, t: int, d: Seq<Seq<Seq<u32>>>)
    requires
        0 <= t <= rules.transitions@.len(),
        forall|u: int| 0 <= u < t ==> !firing(rules, grid, i, u, #[trigger] d[u]),
    ensures
        cell_step_rec(rules, grid, i, 0, d) == cell_step_rec(rules, grid, i, t, d),
    decreases t,
{
    if t > 0 {
        lemma_step_skip(rules, grid, i, t - 1, d);
        assert(!firing(rules, grid, i, t - 1, d[t - 1]));
    }
}

impl Rules {
    fn evaluate_conjunction(&self, grid: &Vec<Cell>, pos: (usize, usize), conjunction: &Vec<
        Condition,
    >) -> (r: (bool, Ghost<Seq<u32>>))
        requires
            self.wf(),
            grid_ok(*self, grid@),
            pos.0 < self.world_size.0,
            pos.1 < self.world_size.1,
            forall|ci: int|
                0 <= ci < conjunction@.len() ==> cond_ok_here(
                    #[trigger] conjunction@[ci],
                    self.implicit_state_ranges@.len() as int,
                ),
        ensures
            r.1@.len() == conjunction@.len(),
            forall|k: int| 0 <= k < r.1@.len() ==> r.1@[k] < 1_000_000_000,
            r.0 == eval_conj_spec(
                *self,
                grid@,
                pos.0 as int,
                pos.1 as int,
                conjunction@,
                r.1@,
            ),
    {
        let n = conjunction.len();
        let ghost x = pos.0 as int;
        let ghost y = pos.1 as int;
        let mut i: usize = 0;
        let ghost mut acc = Seq::<u32>::empty();
        while i < n
            invariant
                i <= n,
                n == conjunction@.len(),
                self.wf(),
                grid_ok(*self, grid@),
                pos.0 < self.world_size.0,
                pos.1 < self.world_size.1,
                x == pos.0 as int,
                y == pos.1 as int,
                forall|ci: int|
                    0 <= ci < conjunction@.len() ==> cond_ok_here(
                        #[trigger] conjunction@[ci],
                        self.implicit_state_ranges@.len() as int,
                    ),
                acc.len() == i,
                forall|k: int| 0 <= k < acc.len() ==> acc[k] < 1_000_000_000,
                forall|k: int|
                    0 <= k < i ==> eval_cond_spec(
                        *self,
                        grid@,
                        x,
                        y,
                        #[trigger] conjunction@[k],
                        acc[k],
                    ),
            decreases n - i,
        {
            let (res, g) = self.evaluate_condition(grid, pos, &conjunction[i]);
            proof {
                acc = acc.push(g@);
            }
            if !res {
                let ghost full = acc + Seq::new((n - i - 1) as nat, |_k: int| 0u32);
                proof {
                    assert(full.len() == n);
                    assert(!eval_cond_spec(*self, grid@, x, y, conjunction@[i as int], full[
                        i as int
                    ]));
                    assert(!eval_conj_spec(*self, grid@, x, y, conjunction@, full));
                }
                return (false, Ghost(full));
            }
            i = i + 1;
        }
        proof {
            assert(eval_conj_spec(*self, grid@, x, y, conjunction@, acc));
        }
        (true, Ghost(acc))
    }

    fn evaluate_conditions(&self, grid: &Vec<Cell>, pos: (usize, usize), conditions: &Vec<
        Vec<Condition>,
    >) -> (r: (bool, Ghost<Seq<Seq<u32>>>))
        requires
            self.wf(),
            grid_ok(*self, grid@),
            pos.0 < self.world_size.0,
            pos.1 < self.world_size.1,
            forall|cj: int, ci: int|
                0 <= cj < conditions@.len() && 0 <= ci < conditions@[cj]@.len() ==> cond_ok_here(
                    #[trigger] conditions@[cj]@[ci],
                    self.implicit_state_ranges@.len() as int,
                ),
        ensures
            r.1@.len() == conditions@.len(),
            draws_ok2(r.1@),
            r.0 == eval_disj_spec(
                *self,
                grid@,
                pos.0 as int,
                pos.1 as int,
                disj_view(conditions@),
                r.1@,
            ),
    {
        let n = conditions.len();
        let ghost x = pos.0 as int;
        let ghost y = pos.1 as int;
        let ghost dv = disj_view(conditions@);
        let mut j: usize = 0;
        let ghost mut acc = Seq::<Seq<u32>>::empty();
        while j < n
            invariant
                j <= n,
                n == conditions@.len(),
                self.wf(),
                grid_ok(*self, grid@),
                pos.0 < self.world_size.0,
                pos.1 < self.world_size.1,
                x == pos.0 as int,
                y == pos.1 as int,
                dv == disj_view(conditions@),
                forall|cj: int, ci: int|
                    0 <= cj < conditions@.len() && 0 <= ci < conditions@[cj]@.len()
                        ==> cond_ok_here(
                        #[trigger] conditions@[cj]@[ci],
                        self.implicit_state_ranges@.len() as int,
                    ),
                acc.len() == j,
                draws_ok2(acc),
                forall|k: int|
                    0 <= k < j ==> !eval_conj_spec(*self, grid@, x, y, #[trigger] dv[k], acc[k]),
            decreases n - j,
        {
            let (res, g) = self.evaluate_conjunction(grid, pos, &conditions[j]);
            proof {
                acc = acc.push(g@);
            }
            if res {
                let ghost full = acc + Seq::new(
                    (n - j - 1) as nat,
                    |_k: int| Seq::<u32>::empty(),
                );
                proof {
                    assert(full.len() == n);
                    assert(eval_conj_spec(*self, grid@, x, y, dv[j as int], full[j as int]));
                    assert(eval_disj_spec(*self, grid@, x, y, dv, full));
                }
                return (true, Ghost(full));
            }
            j = j + 1;
        }
        proof {
            assert(!eval_disj_spec(*self, grid@, x, y, dv, acc));
        }
        (false, Ghost(acc))
    }
}

/// The next state of the cell at `index`: the destination of its first
/// firing transition, or its current state.
fn next_cell_state(rules: &Rules, grid: &Vec<Cell>, index: usize) -> (r: (
    usize,
    Ghost<Seq<Seq<Seq<u32>>>>,
))
    requires
        rules.wf(),
        grid_ok(*rules, grid@),
        index < grid@.len(),
    ensures
        r.0 < rules.states@.len(),
        draws_ok3(r.1@),
        r.0 == cell_step_rec(*rules, grid@, index as int, 0, r.1@),
{
    let pos = get_position(index, rules.world_size);
    let n = rules.transitions.len();
    let current = grid[index].state;
    let mut t: usize = 0;
    let ghost mut acc = Seq::<Seq<Seq<u32>>>::empty();
    while t < n
        invariant
            t <= n,
            n == rules.transitions@.len(),
            rules.wf(),
            grid_ok(*rules, grid@),
            index < grid@.len(),
            current == grid@[index as int].spec_state(),
            pos.0 == index as int % rules.world_size.0 as int,
            pos.1 == index as int / rules.world_size.0 as int,
            pos.0 < rules.world_size.0,
            pos.1 < rules.world_size.1,
            acc.len() == t,
            draws_ok3(acc),
            forall|u: int|
                0 <= u < t ==> !firing(*rules, grid@, index as int, u, #[trigger] acc[u]),
        decreases n - t,
    {
        if rules.transitions[t].0 == current {
            let (res, g) = rules.evaluate_conditions(grid, pos, &rules.transitions[t].2);
            proof {
                acc = acc.push(g@);
            }
            if res {
                proof {
                    lemma_step_skip(*rules, grid@, index as int, t as int, acc);
                    assert(firing(*rules, grid@, index as int, t as int, acc[t as int]));
                }
                return (rules.transitions[t].1, Ghost(acc));
            }
        } else {
            proof {
                acc = acc.push(Seq::<Seq<u32>>::empty());
                assert(!firing(*rules, grid@, index as int, t as int, acc[t as int]));
            }
        }
        t = t + 1;
    }
    proof {
        lemma_step_skip(*rules, grid@, index as int, n as int, acc);
    }
    (current, Ghost(acc))
}

/// Applies `next_cell_state` to every cell of the scratch grid in
/// parallel, reading the committed grid.
///
/// Relies on rayon's par_iter_mut/for_each: the closure runs exactly once
/// on each element, and each element's final value is what the closure
/// left there.  Each cell's outcome therefore satisfies the contract of
/// `next_cell_state` at its own index.
#[verifier::external_body]
fn par_step(grid_next: &mut Vec<Cell>, grid: &Vec<Cell>, rules: &Rules)
    requires
        rules.wf(),
        grid_ok(*rules, grid@),
        old(grid_next)@.len() == grid@.len(),
        forall|i: int|
            0 <= i < old(grid_next)@.len() ==> (#[trigger] old(grid_next)@[i]).spec_index() == i,
    ensures
        final(grid_next)@.len() == old(grid_next)@.len(),
        scratch_stepped(*rules, grid@, final(grid_next)@),
{
    grid_next.par_iter_mut().for_each(|cell| {
        cell.state = next_cell_state(rules, grid, cell.index_in_grid).0;
    });
}

// ---------------------------------------------------------------------------
// Cell counting
// ---------------------------------------------------------------------------
/// How many cells of the grid hold the given state.
pub open spec fn count_cells(g: Seq<Cell>, s: int) -> int
    decreases g.len(),
{
    if g.len() == 0 {
        0
    } else {
        count_cells(g.drop_last(), s) + if g.last().spec_state() == s {
            1int
        } else {
            0int
        }
    }
}

proof fn lemma_count_update(g: Seq<Cell>, i: int, c: Cell, s: int)
    requires
        0 <= i < g.len(),
    ensures
        count_cells(g.update(i, c), s) == count_cells(g, s) - (if g[i].spec_state() == s {
            1int
        } else {
            0int
        }) + (if c.spec_state() == s {
            1int
        } else {
            0int
        }),
    decreases g.len(),
{
    if i == g.len() - 1 {
        assert(g.update(i, c).drop_last() =~= g.drop_last());
    } else {
        assert(g.update(i, c).drop_last() =~= g.drop_last().update(i, c));
        lemma_count_update(g.drop_last(), i, c, s);
    }
}

/// The index of the first state with the default distribution, or -1.
pub open spec fn first_default(sts: Seq<(Seq<char>, (u8, u8, u8), StateDistribution)>) -> int
    decreases sts.len(),
{
    if sts.len() == 0 {
        -1
    } else if sts[0].2 is Default {
        0
    } else {
        let r = first_default(sts.skip(1));
        if r < 0 {
            -1
        } else {
            r + 1
        }
    }
}

proof fn lemma_first_default(sts: Seq<(Seq<char>, (u8, u8, u8), StateDistribution)>)
    ensures
        first_default(sts) == -1 ==> forall|k: int| 0 <= k < sts.len() ==> !((#[trigger] sts[k]).2 is Default),
        first_default(sts) >= 0 ==> 0 <= first_default(sts) < sts.len() && sts[first_default(sts)].2 is Default
            && forall|k: int| 0 <= k < first_default(sts) ==> !((#[trigger] sts[k]).2 is Default),
    decreases sts.len(),
{
    if sts.len() > 0 && !(sts[0].2 is Default) {
        lemma_first_default(sts.skip(1));
        let r = first_default(sts.skip(1));
        if r == -1 {
            assert forall|k: int| 0 <= k < sts.len() implies !((#[trigger] sts[k]).2 is Default) by {
                if k > 0 {
                    assert(!(sts.skip(1)[k - 1].2 is Default));
                }
            }
        } else {
            assert(sts[r + 1].2 == sts.skip(1)[r].2);
            assert forall|k: int| 0 <= k < r + 1 implies !((#[trigger] sts[k]).2 is Default) by {
                if k > 0 {
                    assert(!(sts.skip(1)[k - 1].2 is Default));
                }
            }
        }
    }
}

/// The state the cell at `(x, y)` holds once the first `k` states' box
/// placements ran over a cell that held `prev`: the last declared box
/// covering the cell wins, and a cell no box covers keeps `prev`.
pub open spec fn box_outcome(
    sts: Seq<(Seq<char>, (u8, u8, u8), StateDistribution)>,
    prev: int,
    x: int,
    y: int,
    k: int,
) -> int
    decreases k,
{
    if k <= 0 {
        prev
    } else {
        match sts[k - 1].2 {
            StateDistribution::Box(bx, by, bw, bh) => if bx <= x < bx + bw && by <= y < by + bh {
                k - 1
            } else {
                box_outcome(sts, prev, x, y, k - 1)
            },
            _ => box_outcome(sts, prev, x, y, k - 1),
        }
    }
}

/// The state a cell holds after the proportional placement, scanning the
/// states from `k` on with the cumulative bound `lower`: the cell takes
/// the first proportion state whose bucket `[lower, lower + p)` holds the
/// draw `d`, and keeps `prev` when no bucket does.
pub open spec fn p_bucket(
    sts: Seq<(Seq<char>, (u8, u8, u8), StateDistribution)>,
    prev: int,
    d: u32,
    k: int,
    lower: nat,
) -> int
    decreases sts.len() - k,
{
    if k < 0 || k >= sts.len() {
        prev
    } else {
        match sts[k].2 {
            StateDistribution::Proportion(p) => if lower <= d < lower + p {
                k
            } else {
                p_bucket(sts, prev, d, k + 1, (lower + p) as nat)
            },
            _ => p_bucket(sts, prev, d, k + 1, lower),
        }
    }
}

/// The proportional placement's outcome for one cell and one draw.
pub open spec fn p_outcome(
    sts: Seq<(Seq<char>, (u8, u8, u8), StateDistribution)>,
    prev: int,
    d: u32,
) -> int {
    p_bucket(sts, prev, d, 0, 0)
}

/// The live and scratch grids and the resolved rule set.
pub struct Automaton {
    grid: Vec<Cell>,
    grid_next: Vec<Cell>,
    rules: Rules,
}

impl Automaton {
    /// The rule set the automaton runs.
    pub closed spec fn spec_rules(&self) -> Rules {
        self.rules
    }

    /// The committed grid.
    pub closed spec fn spec_grid(&self) -> Seq<Cell> {
        self.grid@
    }

    /// The scratch grid.
    pub closed spec fn spec_scratch(&self) -> Seq<Cell> {
        self.grid_next@
    }

    /// The rule set is well formed and both grids cover the world.
    pub open spec fn wf(&self) -> bool {
        &&& self.spec_rules().wf()
        &&& grid_ok(self.spec_rules(), self.spec_grid())
        &&& self.spec_scratch().len() == self.spec_grid().len()
        &&& forall|i: int|
            0 <= i < self.spec_scratch().len() ==> (#[trigger] self.spec_scratch()[i]).spec_index()
                == i
    }

    /// Builds the automaton: every cell starts in the default state, then
    /// the proportional, box and fixed-quantity placements run, the last
    /// overriding the others on the cells it picks.
    pub fn new(rules: Rules) -> (a: Automaton)
        requires
            rules.wf(),
        ensures
            a.wf(),
            a.spec_rules() == rules,
            a.spec_grid().len() == rules.world_size.0 * rules.world_size.1,
            forall|sid: int|
                0 <= sid < rules.states@.len() ==> ((#[trigger] rules.states@[sid]).distribution
                    matches StateDistribution::Quantity(q) ==> count_cells(a.spec_grid(), sid)
                    == q),
            exists|ds: Seq<u32>|
                #![auto]
                ds.len() == rules.world_size.0 * rules.world_size.1 && (forall|k: int|
                    0 <= k < ds.len() ==> ds[k] < 1_000_000_000) && forall|c: int|
                    0 <= c < a.spec_grid().len() ==> (rules.states@[(
                    #[trigger] a.spec_grid()[c]).spec_state()].distribution is Quantity)
                        || a.spec_grid()[c].spec_state() == p_outcome(
                        states_view_here(rules.states@),
                        box_outcome(
                            states_view_here(rules.states@),
                            first_default(states_view_here(rules.states@)),
                            c % (rules.world_size.0 as int),
                            c / (rules.world_size.0 as int),
                            rules.states@.len() as int,
                        ),
                        ds[c],
                    ),
    {
        let size = rules.world_size;
        let states = &rules.states;
        let n = states.len();
        // Find the default state.
        proof {
            crate::compiler::semantic::lemma_default_state_exists(states_view_here(states@));
        }
        let mut default_state: usize = 0;
        let mut i: usize = 0;
        let mut found = false;
        while i < n
            invariant
                i <= n,
                n == states@.len(),
                !found ==> forall|k: int|
                    0 <= k < i ==> !((#[trigger] states@[k]).distribution is Default),
                found ==> default_state < n && states@[default_state as int].distribution
                    is Default && forall|k: int|
                    0 <= k < default_state ==> !((#[trigger] states@[k]).distribution is Default),
            decreases n - i,
        {
            match states[i].distribution {
                StateDistribution::Default => {
                    if !found {
                        default_state = i;
                        found = true;
                    }
                },
                _ => {},
            }
            i = i + 1;
        }
        proof {
            if !found {
                let di = choose|di: int|
                    0 <= di < states_view_here(states@).len() && (#[trigger] states_view_here(
                        states@,
                    )[di]).2 is Default;
                assert(states@[di].distribution is Default);
            }
            lemma_first_default(states_view_here(states@));
            let fd = first_default(states_view_here(states@));
            assert(states_view_here(states@)[default_state as int].2 is Default);
            assert(fd == default_state as int) by {
                if fd < default_state {
                    assert(!(states@[fd].distribution is Default));
                    assert(states_view_here(states@)[fd].2 is Default);
                } else if fd > default_state {
                    assert(!(states_view_here(states@)[default_state as int].2 is Default));
                }
            }
        }
        // Fill the grid with the default state.
        proof {
            assert(size.0 * size.1 <= usize::MAX) by (nonlinear_arith)
                requires
                    size.0 * size.1 <= isize::MAX,
            ;
        }
        let area = size.0 * size.1;
        let mut grid: Vec<Cell> = Vec::new();
        let mut j: usize = 0;
        while j < area
            invariant
                j <= area,
                grid@.len() == j,
                default_state < states@.len(),
                states@[default_state as int].distribution is Default,
                n == states@.len(),
                forall|k: int|
                    0 <= k < j ==> (#[trigger] grid@[k]).spec_index() == k && grid@[k].spec_state()
                        == default_state,
            decreases area - j,
        {
            grid.push(Cell { state: default_state, index_in_grid: j });
            j = j + 1;
        }
        // Seed the boxes, the random proportions, then the fixed
        // quantities, the later placements overriding the earlier.
        let ghost g0 = grid@;
        Self::add_box_distribution_states(states, &mut grid, size);
        let ghost g1 = grid@;
        let pdraws = Self::add_p_distribution_states(states, &mut grid, size);
        let ghost g2 = grid@;
        let ghost sv = states_view_here(states@);
        let ghost w = size.0 as int;
        proof {
            assert forall|c: int| 0 <= c < g2.len() implies (#[trigger] g2[c]).spec_state()
                == p_outcome(
                sv,
                box_outcome(sv, first_default(sv), c % w, c / w, states@.len() as int),
                pdraws@[c],
            ) by {
                assert(g1[c].spec_state() == box_outcome(
                    sv,
                    g0[c].spec_state(),
                    c % w,
                    c / w,
                    states@.len() as int,
                ));
                assert(g0[c].spec_state() == first_default(sv));
                assert(g2[c].spec_state() == p_outcome(sv, g1[c].spec_state(), pdraws@[c]));
            }
        }
        proof {
            assert forall|k: int| 0 <= k < grid@.len() implies !(states@[(
            #[trigger] grid@[k]).spec_state()].distribution is Quantity) by {
                assert(grid@[k].spec_state() < states@.len());
            }
            assert forall|sid: int|
                0 <= sid < states@.len() && (#[trigger] states@[sid]).distribution
                    is Quantity implies count_cells(grid@, sid) == 0 by {
                assert(forall|k: int|
                    0 <= k < grid@.len() ==> (#[trigger] grid@[k]).spec_state() != sid);
                lemma_count_zero(grid@, sid);
            }
        }
        Self::add_q_distribution_states(states, &mut grid, size);
        proof {
            assert forall|c: int| 0 <= c < grid@.len() implies (states@[(
            #[trigger] grid@[c]).spec_state()].distribution is Quantity) || grid@[c].spec_state()
                == p_outcome(
                sv,
                box_outcome(sv, first_default(sv), c % w, c / w, states@.len() as int),
                pdraws@[c],
            ) by {
                if grid@[c].spec_state() == g2[c].spec_state() {
                } else {
                    assert(states@[grid@[c].spec_state()].distribution is Quantity);
                }
            }
        }
        // The scratch grid starts as a copy of the live grid.
        let mut grid_next: Vec<Cell> = Vec::new();
        let mut k: usize = 0;
        while k < grid.len()
            invariant
                k <= grid@.len(),
                grid_next@.len() == k,
                forall|t: int| 0 <= t < k ==> grid_next@[t] == grid@[t],
            decreases grid@.len() - k,
        {
            grid_next.push(grid[k]);
            k = k + 1;
        }
        Automaton { grid, grid_next, rules }
    }

    /// Seeds the states with a proportion distribution: each cell draws
    /// one value and takes the state whose cumulative bucket holds it.
    fn add_p_distribution_states(states: &Vec<State>, grid: &mut Vec<Cell>, size: (usize, usize)) -> (draws: Ghost<
        Seq<u32>,
    >)
        requires
            1 <= size.0,
            1 <= size.1,
            size.0 * size.1 <= isize::MAX,
            old(grid)@.len() == size.0 * size.1,
            forall|k: int|
                0 <= k < old(grid)@.len() ==> (#[trigger] old(grid)@[k]).spec_index() == k && old(
                    grid,
                )@[k].spec_state() < states@.len(),
            crate::compiler::semantic::prop_sum(states_view_here(states@)) < 1_000_000_000,
        ensures
            final(grid)@.len() == old(grid)@.len(),
            draws@.len() == old(grid)@.len(),
            forall|k: int| 0 <= k < draws@.len() ==> draws@[k] < 1_000_000_000,
            forall|k: int|
                0 <= k < final(grid)@.len() ==> (#[trigger] final(grid)@[k]).spec_index() == k
                    && final(grid)@[k].spec_state() < states@.len(),
            forall|k: int|
                0 <= k < final(grid)@.len() ==> (#[trigger] final(grid)@[k]).spec_state()
                    == p_outcome(states_view_here(states@), old(grid)@[k].spec_state(), draws@[k]),
            forall|k: int|
                0 <= k < final(grid)@.len() ==> (#[trigger] final(grid)@[k]).spec_state() == old(
                    grid,
                )@[k].spec_state() || states@[final(grid)@[k].spec_state()].distribution
                    is Proportion,
    {
        let ghost sv = states_view_here(states@);
        let n = states.len();
        let area = grid.len();
        let mut idx: usize = 0;
        let ghost mut ds = Seq::<u32>::empty();
        while idx < area
            invariant
                idx <= area,
                area == grid@.len(),
                grid@.len() == old(grid)@.len(),
                n == states@.len(),
                sv == states_view_here(states@),
                crate::compiler::semantic::prop_sum(sv) < 1_000_000_000,
                ds.len() == idx,
                forall|k: int| 0 <= k < ds.len() ==> ds[k] < 1_000_000_000,
                forall|k: int|
                    0 <= k < grid@.len() ==> (#[trigger] grid@[k]).spec_index() == k
                        && grid@[k].spec_state() < states@.len(),
                forall|k: int|
                    0 <= k < idx ==> (#[trigger] grid@[k]).spec_state() == p_outcome(
                        sv,
                        old(grid)@[k].spec_state(),
                        ds[k],
                    ),
                forall|k: int| idx <= k < grid@.len() ==> (#[trigger] grid@[k]) == old(grid)@[k],
                forall|k: int|
                    0 <= k < grid@.len() ==> (#[trigger] grid@[k]).spec_state() == old(
                        grid,
                    )@[k].spec_state() || states@[grid@[k].spec_state()].distribution
                        is Proportion,
            decreases area - idx,
        {
            let r_p = draw_below(1_000_000_000) as u32;
            let ghost prev = grid@[idx as int].spec_state();
            let ghost mut hit = false;
            let mut lower: u64 = 0;
            let mut upper: u64 = 0;
            let mut i: usize = 0;
            while i < n
                invariant
                    i <= n,
                    n == states@.len(),
                    idx < area,
                    area == grid@.len(),
                    grid@.len() == old(grid)@.len(),
                    r_p < 1_000_000_000,
                    lower == upper,
                    sv == states_view_here(states@),
                    crate::compiler::semantic::prop_sum(sv) < 1_000_000_000,
                    upper as nat == crate::compiler::semantic::prop_sum(sv.take(i as int)),
                    prev == old(grid)@[idx as int].spec_state(),
                    !hit ==> grid@[idx as int] == old(grid)@[idx as int] && p_bucket(
                        sv,
                        prev,
                        r_p,
                        0,
                        0,
                    ) == p_bucket(sv, prev, r_p, i as int, upper as nat),
                    hit ==> grid@[idx as int].spec_state() == p_bucket(sv, prev, r_p, 0, 0)
                        && grid@[idx as int].spec_index() == idx && (r_p as nat) < upper
                        && grid@[idx as int].spec_state() < states@.len() && states@[grid@[
                        idx as int
                    ].spec_state()].distribution is Proportion,
                    forall|k: int|
                        0 <= k < idx ==> (#[trigger] grid@[k]).spec_state() == p_outcome(
                            sv,
                            old(grid)@[k].spec_state(),
                            ds[k],
                        ),
                    ds.len() == idx,
                    forall|k: int| 0 <= k < ds.len() ==> ds[k] < 1_000_000_000,
                    forall|k: int|
                        idx < k < grid@.len() ==> (#[trigger] grid@[k]) == old(grid)@[k],
                    forall|k: int|
                        0 <= k < grid@.len() ==> (#[trigger] grid@[k]).spec_index() == k
                            && grid@[k].spec_state() < states@.len(),
                    forall|k: int|
                        0 <= k < grid@.len() ==> (#[trigger] grid@[k]).spec_state() == old(
                            grid,
                        )@[k].spec_state() || states@[grid@[k].spec_state()].distribution
                            is Proportion,
                decreases n - i,
            {
                proof {
                    assert(sv.take(i + 1).drop_last() =~= sv.take(i as int));
                    assert(sv.take(i + 1).last() == sv[i as int]);
                    crate::compiler::semantic::lemma_prop_sum_prefix(sv, i + 1);
                }
                match states[i].distribution {
                    StateDistribution::Proportion(p) => {
                        upper = upper + p as u64;
                        if r_p as u64 >= lower && (r_p as u64) < upper {
                            grid.set(idx, Cell { state: i, index_in_grid: idx });
                            proof {
                                hit = true;
                            }
                        }
                        lower = upper;
                    },
                    _ => {},
                }
                i = i + 1;
            }
            proof {
                assert(sv.take(n as int) =~= sv);
                ds = ds.push(r_p);
                if !hit {
                    assert(p_bucket(sv, prev, r_p, n as int, upper as nat) == prev);
                }
            }
            idx = idx + 1;
        }
        proof {
            assert(ds.len() == area);
        }
        Ghost(ds)
    }

    /// Seeds the states with a box distribution: each fills its rectangle.
    fn add_box_distribution_states(states: &Vec<State>, grid: &mut Vec<Cell>, size: (usize, usize))
        requires
            1 <= size.0,
            1 <= size.1,
            size.0 * size.1 <= isize::MAX,
            old(grid)@.len() == size.0 * size.1,
            forall|k: int|
                0 <= k < old(grid)@.len() ==> (#[trigger] old(grid)@[k]).spec_index() == k && old(
                    grid,
                )@[k].spec_state() < states@.len(),
            forall|si: int|
                0 <= si < states@.len() ==> ((#[trigger] states@[si]).distribution matches
                StateDistribution::Box(x, y, w, h) ==> x + w <= size.0 && y + h <= size.1),
        ensures
            final(grid)@.len() == old(grid)@.len(),
            forall|k: int|
                0 <= k < final(grid)@.len() ==> (#[trigger] final(grid)@[k]).spec_index() == k
                    && final(grid)@[k].spec_state() < states@.len(),
            forall|k: int|
                0 <= k < final(grid)@.len() ==> (#[trigger] final(grid)@[k]).spec_state()
                    == box_outcome(
                    states_view_here(states@),
                    old(grid)@[k].spec_state(),
                    k % (size.0 as int),
                    k / (size.0 as int),
                    states@.len() as int,
                ),
            forall|k: int|
                0 <= k < final(grid)@.len() ==> (#[trigger] final(grid)@[k]).spec_state() == old(
                    grid,
                )@[k].spec_state() || states@[final(grid)@[k].spec_state()].distribution is Box,
    {
        let ghost sv = states_view_here(states@);
        let ghost w = size.0 as int;
        let n = states.len();
        let mut i: usize = 0;
        while i < n
            invariant
                i <= n,
                n == states@.len(),
                1 <= size.0,
                1 <= size.1,
                size.0 * size.1 <= isize::MAX,
                sv == states_view_here(states@),
                w == size.0 as int,
                grid@.len() == old(grid)@.len(),
                old(grid)@.len() == size.0 * size.1,
                forall|si: int|
                    0 <= si < states@.len() ==> ((#[trigger] states@[si]).distribution matches
                    StateDistribution::Box(x, y, bw, bh) ==> x + bw <= size.0 && y + bh <= size.1),
                forall|k: int|
                    0 <= k < grid@.len() ==> (#[trigger] grid@[k]).spec_index() == k && grid@[
                    k
                ].spec_state() < states@.len(),
                forall|k: int|
                    0 <= k < grid@.len() ==> (#[trigger] grid@[k]).spec_state() == box_outcome(
                        sv,
                        old(grid)@[k].spec_state(),
                        k % w,
                        k / w,
                        i as int,
                    ),
                forall|k: int|
                    0 <= k < grid@.len() ==> (#[trigger] grid@[k]).spec_state() == old(
                        grid,
                    )@[k].spec_state() || states@[grid@[k].spec_state()].distribution is Box,
            decreases n - i,
        {
            let ghost gpre = grid@;
            match states[i].distribution {
                StateDistribution::Box(x_box, y_box, width, height) => {
                    let mut x = x_box;
                    while x < x_box + width
                        invariant
                            x_box <= x <= x_box + width,
                            x_box + width <= size.0,
                            y_box + height <= size.1,
                            1 <= size.0,
                            1 <= size.1,
                            size.0 * size.1 <= isize::MAX,
                            w == size.0 as int,
                            i < states@.len(),
                            states@[i as int].distribution == StateDistribution::Box(
                                x_box,
                                y_box,
                                width,
                                height,
                            ),
                            grid@.len() == gpre.len(),
                            gpre.len() == size.0 * size.1,
                            forall|k: int|
                                0 <= k < grid@.len() ==> (#[trigger] grid@[k]).spec_index() == k
                                    && grid@[k].spec_state() < states@.len(),
                            forall|k: int|
                                0 <= k < grid@.len() ==> #[trigger] grid@[k].spec_state() == (
                                if x_box <= k % w < x && y_box <= k / w < y_box + height {
                                    i as int
                                } else {
                                    gpre[k].spec_state()
                                }),
                        decreases x_box + width - x,
                    {
                        let mut y = y_box;
                        while y < y_box + height
                            invariant
                                y_box <= y <= y_box + height,
                                x_box <= x < x_box + width,
                                x_box + width <= size.0,
                                y_box + height <= size.1,
                                1 <= size.0,
                                1 <= size.1,
                                size.0 * size.1 <= isize::MAX,
                                w == size.0 as int,
                                i < states@.len(),
                                states@[i as int].distribution == StateDistribution::Box(
                                    x_box,
                                    y_box,
                                    width,
                                    height,
                                ),
                                grid@.len() == gpre.len(),
                                gpre.len() == size.0 * size.1,
                                forall|k: int|
                                    0 <= k < grid@.len() ==> (#[trigger] grid@[k]).spec_index()
                                        == k && grid@[k].spec_state() < states@.len(),
                                forall|k: int|
                                    0 <= k < grid@.len() ==> #[trigger] grid@[k].spec_state() == (
                                    if (x_box <= k % w < x && y_box <= k / w < y_box + height) || (
                                    k % w == x && y_box <= k / w < y) {
                                        i as int
                                    } else {
                                        gpre[k].spec_state()
                                    }),
                            decreases y_box + height - y,
                        {
                            proof {
                                assert(size.0 <= isize::MAX && size.1 <= isize::MAX)
                                    by (nonlinear_arith)
                                    requires
                                        size.0 * size.1 <= isize::MAX,
                                        size.0 >= 1,
                                        size.1 >= 1,
                                ;
                            }
                            let index = get_index((x as isize, y as isize), size);
                            proof {
                                vstd::arithmetic::div_mod::lemma_small_mod(
                                    x as nat,
                                    size.0 as nat,
                                );
                                vstd::arithmetic::div_mod::lemma_small_mod(
                                    y as nat,
                                    size.1 as nat,
                                );
                                assert(index as int == y * w + x);
                                vstd::arithmetic::div_mod::lemma_fundamental_div_mod_converse(
                                    index as int,
                                    w,
                                    y as int,
                                    x as int,
                                );
                                assert(index as int % w == x && index as int / w == y);
                            }
                            grid.set(index, Cell { state: i, index_in_grid: index });
                            proof {
                                assert forall|k: int|
                                    0 <= k < grid@.len() && k != index implies #[trigger] (k % w)
                                    != x || k / w != y by {
                                    if k % w == x && k / w == y {
                                        vstd::arithmetic::div_mod::lemma_fundamental_div_mod(
                                            k,
                                            w,
                                        );
                                        vstd::arithmetic::div_mod::lemma_fundamental_div_mod(
                                            index as int,
                                            w,
                                        );
                                    }
                                }
                            }
                            y = y + 1;
                        }
                        x = x + 1;
                    }
                    proof {
                        assert forall|k: int| 0 <= k < grid@.len() implies #[trigger] grid@[
                        k
                        ].spec_state() == box_outcome(
                            sv,
                            old(grid)@[k].spec_state(),
                            k % w,
                            k / w,
                            i + 1,
                        ) by {
                            assert(gpre[k].spec_state() == box_outcome(
                                sv,
                                old(grid)@[k].spec_state(),
                                k % w,
                                k / w,
                                i as int,
                            ));
                            assert(sv[i as int].2 == StateDistribution::Box(
                                x_box,
                                y_box,
                                width,
                                height,
                            ));
                        }
                    }
                },
                _ => {
                    proof {
                        assert forall|k: int| 0 <= k < grid@.len() implies #[trigger] grid@[
                        k
                        ].spec_state() == box_outcome(
                            sv,
                            old(grid)@[k].spec_state(),
                            k % w,
                            k / w,
                            i + 1,
                        ) by {
                            assert(!(sv[i as int].2 is Box));
                        }
                    }
                },
            }
            i = i + 1;
        }
        proof {
            assert(forall|k: int|
                0 <= k < grid@.len() ==> (#[trigger] grid@[k]).spec_state() == box_outcome(
                    sv,
                    old(grid)@[k].spec_state(),
                    k % w,
                    k / w,
                    n as int,
                ));
        }
    }

    /// Seeds the states with a fixed-quantity distribution: each draws the
    /// asked number of distinct free cells, so it ends with exactly that
    /// many cells.
    fn add_q_distribution_states(states: &Vec<State>, grid: &mut Vec<Cell>, size: (usize, usize))
        requires
            1 <= size.0,
            1 <= size.1,
            size.0 * size.1 <= isize::MAX,
            old(grid)@.len() == size.0 * size.1,
            forall|k: int|
                0 <= k < old(grid)@.len() ==> (#[trigger] old(grid)@[k]).spec_index() == k && old(
                    grid,
                )@[k].spec_state() < states@.len(),
            forall|k: int|
                0 <= k < old(grid)@.len() ==> !(states@[(
                #[trigger] old(grid)@[k]).spec_state()].distribution is Quantity),
            crate::compiler::semantic::qty_sum(states_view_here(states@)) <= size.0 * size.1,
        ensures
            final(grid)@.len() == old(grid)@.len(),
            forall|k: int|
                0 <= k < final(grid)@.len() ==> (#[trigger] final(grid)@[k]).spec_index() == k
                    && final(grid)@[k].spec_state() < states@.len(),
            forall|sid: int|
                0 <= sid < states@.len() ==> ((#[trigger] states@[sid]).distribution matches
                StateDistribution::Quantity(q) ==> count_cells(final(grid)@, sid) == q),
            forall|k: int|
                0 <= k < final(grid)@.len() ==> (#[trigger] final(grid)@[k]).spec_state() == old(
                    grid,
                )@[k].spec_state() || states@[final(grid)@[k].spec_state()].distribution
                    is Quantity,
    {
        let n = states.len();
        let area = grid.len();
        let ghost sv = states_view_here(states@);
        // Every position starts free.
        let mut free: Vec<usize> = Vec::new();
        let mut p: usize = 0;
        while p < area
            invariant
                p <= area,
                free@.len() == p,
                forall|a: int| 0 <= a < p ==> free@[a] == a,
            decreases area - p,
        {
            free.push(p);
            p = p + 1;
        }
        proof {
            assert forall|s: int|
                0 <= s < n && (#[trigger] states@[s]).distribution is Quantity implies count_cells(
                grid@,
                s,
            ) == 0 by {
                assert(forall|k: int|
                    0 <= k < grid@.len() ==> (#[trigger] grid@[k]).spec_state() != s);
                lemma_count_zero(grid@, s);
            }
            assert(sv.take(0) =~= Seq::<(Seq<char>, (u8, u8, u8), StateDistribution)>::empty());
        }
        let mut i: usize = 0;
        while i < n
            invariant
                i <= n,
                n == states@.len(),
                sv == states_view_here(states@),
                crate::compiler::semantic::qty_sum(sv) <= area,
                area == size.0 * size.1,
                grid@.len() == old(grid)@.len(),
                old(grid)@.len() == area,
                forall|k: int|
                    0 <= k < grid@.len() ==> (#[trigger] grid@[k]).spec_index() == k
                        && grid@[k].spec_state() < states@.len(),
                forall|k: int|
                    0 <= k < grid@.len() ==> (#[trigger] grid@[k]).spec_state() == old(
                        grid,
                    )@[k].spec_state() || states@[grid@[k].spec_state()].distribution
                        is Quantity,
                // free entries are distinct valid positions of non-quantity cells
                forall|a: int| 0 <= a < free@.len() ==> (#[trigger] free@[a]) < area,
                forall|a: int, b: int|
                    0 <= a < free@.len() && 0 <= b < free@.len() && a != b ==> (
                    #[trigger] free@[a]) != (#[trigger] free@[b]),
                forall|a: int|
                    0 <= a < free@.len() ==> !(states@[grid@[(
                    #[trigger] free@[a]) as int].spec_state()].distribution is Quantity),
                // counting
                free@.len() + crate::compiler::semantic::qty_sum(sv.take(i as int)) == area,
                forall|s: int|
                    0 <= s < i ==> ((#[trigger] states@[s]).distribution matches
                    StateDistribution::Quantity(q) ==> count_cells(grid@, s) == q),
                forall|s: int|
                    i <= s < n ==> ((#[trigger] states@[s]).distribution matches
                    StateDistribution::Quantity(q2) ==> count_cells(grid@, s) == 0),
            decreases n - i,
        {
            proof {
                assert(sv.take(i + 1).drop_last() =~= sv.take(i as int));
                crate::compiler::semantic::lemma_qty_sum_prefix(sv, i + 1);
            }
            let q: usize = match states[i].distribution {
                StateDistribution::Quantity(q) => q,
                _ => 0,
            };
            if match states[i].distribution {
                StateDistribution::Quantity(_) => true,
                _ => false,
            } {
                let mut c: usize = 0;
                while c < q
                    invariant
                        c <= q,
                        i < n,
                        n == states@.len(),
                        sv == states_view_here(states@),
                        states@[i as int].distribution == StateDistribution::Quantity(q),
                        area == size.0 * size.1,
                        grid@.len() == old(grid)@.len(),
                        old(grid)@.len() == area,
                        crate::compiler::semantic::qty_sum(sv.take(i + 1)) <= area,
                        forall|k: int|
                            0 <= k < grid@.len() ==> (
                            #[trigger] grid@[k]).spec_index() == k && (grid)@[k].spec_state() < states@.len(),
                        forall|k: int|
                            0 <= k < grid@.len() ==> (#[trigger] grid@[k]).spec_state() == old(
                                grid,
                            )@[k].spec_state() || states@[grid@[k].spec_state()].distribution
                                is Quantity,
                        forall|a: int| 0 <= a < free@.len() ==> (#[trigger] free@[a]) < area,
                        forall|a: int, b: int|
                            0 <= a < free@.len() && 0 <= b < free@.len() && a != b ==> (
                            #[trigger] free@[a]) != (#[trigger] free@[b]),
                        forall|a: int|
                            0 <= a < free@.len() ==> !(states@[grid@[(
                            #[trigger] free@[a]) as int].spec_state()].distribution is Quantity),
                        free@.len() + crate::compiler::semantic::qty_sum(sv.take(i as int)) + c
                            == area,
                        count_cells(grid@, i as int) == c,
                        forall|s: int|
                            0 <= s < i ==> ((#[trigger] states@[s]).distribution matches
                            StateDistribution::Quantity(q2) ==> count_cells(grid@, s)
                                == q2),
                        forall|s: int|
                            i < s < n ==> ((#[trigger] states@[s]).distribution matches
                            StateDistribution::Quantity(q2) ==> count_cells(grid@, s)
                                == 0),
                    decreases q - c,
                {
                    proof {
                        assert(crate::compiler::semantic::qty_sum(sv.take(i + 1))
                            == crate::compiler::semantic::qty_sum(sv.take(i as int)) + q) by {
                            assert(sv.take(i + 1).drop_last() =~= sv.take(i as int));
                            assert(sv.take(i + 1).last() == sv[i as int]);
                        }
                        assert(free@.len() >= 1);
                    }
                    let j = draw_below(free.len() as u64) as usize;
                    let pos = free[j];
                    // Remove the chosen position from the free list.
                    let last = free[free.len() - 1];
                    free.set(j, last);
                    free.pop();
                    let ghost gpre = grid@;
                    grid.set(pos, Cell { state: i, index_in_grid: pos });
                    c = c + 1;
                    proof {
                        lemma_count_update(
                            gpre,
                            pos as int,
                            Cell { state: i, index_in_grid: pos },
                            i as int,
                        );
                        assert forall|s: int|
                            0 <= s < n && s != i && (states@[s].distribution
                                is Quantity) implies count_cells(grid@, s) == count_cells(
                            gpre,
                            s,
                        ) by {
                            lemma_count_update(
                                gpre,
                                pos as int,
                                Cell { state: i, index_in_grid: pos },
                                s,
                            );
                        }
                    }
                }
            }
            i = i + 1;
            proof {
                assert(sv.take(i as int).drop_last() =~= sv.take(i - 1));
            }
        }
        proof {
            assert(sv.take(n as int) =~= sv);
        }
    }

    /// Advances the simulation by one generation: every cell's transitions
    /// run against the committed grid, and the results are committed
    /// together.
    #[verifier::rlimit(100)]
    #[verifier::spinoff_prover]
    pub fn tick(&mut self)
        requires
            old(self).wf(),
        ensures
            final(self).wf(),
            final(self).spec_rules() == old(self).spec_rules(),
            final(self).spec_grid().len() == old(self).spec_grid().len(),
            scratch_stepped(old(self).spec_rules(), old(self).spec_grid(), final(self).spec_grid()),
    {
        par_step(&mut self.grid_next, &self.grid, &self.rules);
        let ghost g0 = self.grid@;
        let n = self.grid.len();
        let mut index: usize = 0;
        while index < n
            invariant
                index <= n,
                n == self.grid@.len(),
                self.rules == old(self).rules,
                self.grid@.len() == old(self).grid@.len(),
                self.grid_next@.len() == self.grid@.len(),
                self.rules.wf(),
                forall|k: int|
                    0 <= k < self.grid@.len() ==> (#[trigger] self.grid@[k]).spec_index() == k,
                forall|k: int|
                    index <= k < self.grid@.len() ==> (#[trigger] self.grid@[k]) == g0[k],
                g0 == old(self).grid@,
                grid_ok(self.rules, g0),
                scratch_stepped(self.rules, g0, self.grid_next@),
                forall|k: int|
                    0 <= k < index ==> (#[trigger] self.grid@[k]) == self.grid_next@[k],
            decreases n - index,
        {
            let c = self.grid_next[index];
            self.grid.set(index, c);
            index = index + 1;
        }
        proof {
            assert forall|k: int| 0 <= k < self.grid@.len() implies (
            #[trigger] self.grid@[k]).spec_state() < self.rules.states@.len() by {
                assert(self.grid_next@[k].spec_index() == k);
                let d = choose|d: Seq<Seq<Seq<u32>>>|
                    draws_ok3(d) && self.grid_next@[k].spec_state() == cell_step_rec(
                        self.rules,
                        g0,
                        k,
                        0,
                        d,
                    );
                lemma_cell_step_bounds(self.rules, g0, k, 0, d);
                assert(self.grid@[k] == self.grid_next@[k]);
            }
            assert(self.grid@ =~= self.grid_next@);
            assert(scratch_stepped(old(self).spec_rules(), old(self).spec_grid(), self.grid@));
        }
    }

    /// The state of the cell at the (toroidally wrapped) coordinates.
    pub fn get_state(&self, x: isize, y: isize) -> (r: usize)
        requires
            self.wf(),
        ensures
            r == self.spec_grid()[idx_of(
                x as int,
                y as int,
                self.spec_rules().world_size.0 as int,
                self.spec_rules().world_size.1 as int,
            )].spec_state(),
            r < self.spec_rules().states@.len(),
    {
        self.grid[get_index((x, y), self.rules.world_size)].state
    }

    /// The color palette, indexed by state identifier.
    pub fn get_colors(&self) -> (r: Vec<(u8, u8, u8)>)
        ensures
            r@.len() == self.spec_rules().states@.len(),
            forall|i: int|
                0 <= i < r@.len() ==> r@[i] == (#[trigger] self.spec_rules().states@[i]).color,
    {
        let mut colors: Vec<(u8, u8, u8)> = Vec::new();
        let n = self.rules.states.len();
        let mut i: usize = 0;
        while i < n
            invariant
                i <= n,
                n == self.rules.states@.len(),
                self.rules == self.spec_rules(),
                colors@.len() == i,
                forall|k: int|
                    0 <= k < i ==> colors@[k] == (#[trigger] self.rules.states@[k]).color,
            decreases n - i,
        {
            colors.push(self.rules.states[i].color);
            i = i + 1;
        }
        colors
    }
}

/// The view of a state vector, shared with the semantic analysis.
pub open spec fn states_view_here(v: Seq<State>) -> Seq<
    (Seq<char>, (u8, u8, u8), StateDistribution),
> {
    crate::compiler::semantic::states_view(v)
}

proof fn lemma_cell_step_bounds(
    rules: Rules,
    grid: Seq<Cell>,
    i: int,
    t: int,
    d: Seq<Seq<Seq<u32>>>,
)
    requires
        rules.wf(),
        grid_ok(rules, grid),
        0 <= i < grid.len(),
    ensures
        0 <= cell_step_rec(rules, grid, i, t, d) < rules.states@.len(),
    decreases rules.transitions@.len() - t,
{
    if 0 <= t < rules.transitions@.len() {
        if !firing(rules, grid, i, t, d[t]) {
            lemma_cell_step_bounds(rules, grid, i, t + 1, d);
        }
    }
}

proof fn lemma_count_zero(g: Seq<Cell>, s: int)
    requires
        forall|i: int| 0 <= i < g.len() ==> (#[trigger] g[i]).spec_state() != s,
    ensures
        count_cells(g, s) == 0,
    decreases g.len(),
{
    if g.len() > 0 {
        lemma_count_zero(g.drop_last(), s);
    }
}

} // verus!
