//! The picture of a transition table: a square cell for each step, the darker the more probable.

use crate::keyed::{count_of, has_key, is_at, spot, Counts};
use crate::text::{law_trimmed_inside, texts, trim, trimmed, Edge};
use crate::transitions::{row_sum, Step, TransitionTable};
use vstd::prelude::*;

verus! {

/// The side of a cell, in pixels.
pub const CELL: i32 = 120;

/// The room around the cells, in pixels.
pub const MARGIN: i32 = 100;

// ---------------------------------------------------------------------------
// Specification
// ---------------------------------------------------------------------------

/// White darkened by `depth` times the probability of a step, rounded down.
pub open spec fn shade(count: nat, sum: nat, depth: nat) -> int {
    if sum == 0 {
        255
    } else {
        (255 * sum - depth * count) / (sum as int)
    }
}

/// The cell in row `i` and column `j`.
pub open spec fn cell_at(s: Seq<(Step, nat)>, states: Seq<Seq<char>>, i: int, j: int) -> CellText {
    let count = count_of(s, (states[i], states[j]));
    let sum = row_sum(s, states[i]);
    CellText {
        x0: MARGIN + j * CELL,
        y0: MARGIN + i * CELL,
        x1: MARGIN + (j + 1) * CELL,
        y1: MARGIN + (i + 1) * CELL,
        count,
        sum,
        red: shade(count, sum, 200),
        green: shade(count, sum, 150),
        light: 2 * count > sum,
    }
}

/// The name of a category without its brackets.
pub open spec fn bare_name(state: Seq<char>) -> Seq<char> {
    trimmed(state, Edge::Either('[', ']'))
}

/// All cells, row by row.
pub open spec fn cells_of(s: Seq<(Step, nat)>, states: Seq<Seq<char>>) -> Seq<CellText> {
    Seq::new(
        states.len() * states.len(),
        |k: int| cell_at(s, states, k / (states.len() as int), k % (states.len() as int)),
    )
}

// ---------------------------------------------------------------------------
// Picture
// ---------------------------------------------------------------------------

/// A cell of the picture.
#[derive(Clone, Copy, Debug, PartialEq, Eq, Structural)]
pub struct Cell {
    pub x0: i32,
    pub y0: i32,
    pub x1: i32,
    pub y1: i32,
    /// How often the step was taken.
    pub count: usize,
    /// How often its start was left.
    pub sum: u64,
    pub red: u8,
    pub green: u8,
    /// The step is more probable than not, so the text on the cell is light.
    pub light: bool,
}

/// What a cell says.
pub struct CellText {
    pub x0: int,
    pub y0: int,
    pub x1: int,
    pub y1: int,
    pub count: nat,
    pub sum: nat,
    pub red: int,
    pub green: int,
    pub light: bool,
}

impl View for Cell {
    type V = CellText;

    open spec fn view(&self) -> CellText {
        CellText {
            x0: self.x0 as int,
            y0: self.y0 as int,
            x1: self.x1 as int,
            y1: self.y1 as int,
            count: self.count as nat,
            sum: self.sum as nat,
            red: self.red as int,
            green: self.green as int,
            light: self.light,
        }
    }
}

/// What the cells of a list say.
pub open spec fn cell_views(s: Seq<Cell>) -> Seq<CellText> {
    s.map_values(|c: Cell| c@)
}

/// The picture of a transition table.
pub struct Heatmap {
    /// The side of the picture, in pixels.
    pub side: u32,
    /// The names of the rows and columns.
    pub names: Vec<String>,
    /// The cells, row by row.
    pub cells: Vec<Cell>,
}

/// White darkened by `depth` times the probability of a step, rounded down.
fn shade_of(count: usize, sum: u64, depth: u8) -> (r: u8)
    requires
        count <= sum,
        depth <= 255,
    ensures
        r == shade(count as nat, sum as nat, depth as nat),
{
    if sum == 0 {
        return 255;
    }
    proof {
        lemma_shade(count as nat, sum as nat, depth as nat);
        assert(depth * count <= 255 * sum) by (nonlinear_arith)
            requires
                depth <= 255,
                count <= sum,
        ;
    }
    ((255 * (sum as u128) - (depth as u128) * (count as u128)) / (sum as u128)) as u8
}

proof fn lemma_shade(count: nat, sum: nat, depth: nat)
    requires
        count <= sum,
        depth <= 255,
    ensures
        255 - depth <= shade(count, sum, depth) <= 255,
{
    if sum > 0 {
        let q = shade(count, sum, depth);
        assert(255 - depth <= q && q <= 255) by (nonlinear_arith)
            requires
                q == (255 * sum - depth * count) / (sum as int),
                count <= sum,
                sum > 0,
                depth <= 255,
        {
            assert(depth * count <= depth * sum);
            assert((255 - depth) * sum <= 255 * sum - depth * count);
            assert(255 * sum - depth * count <= 255 * sum);
        }
    }
}

/// A step is not taken more often than its start is left.
proof fn lemma_count_in_row(s: Seq<(Step, nat)>, step: Step)
    ensures
        count_of(s, step) <= row_sum(s, step.0),
{
    if has_key(s, step) {
        let i = spot(s, step);
        assert(is_at(s, step, i));
        lemma_entry_in_row(s, i);
    }
}

proof fn lemma_entry_in_row(s: Seq<(Step, nat)>, i: int)
    requires
        0 <= i < s.len(),
    ensures
        s[i].1 <= row_sum(s, s[i].0.0),
    decreases s.len(),
{
    if i < s.len() - 1 {
        lemma_entry_in_row(s.drop_last(), i);
    }
}

/// The cell in row `i` and column `j`.
fn cell(
    matrix: &TransitionTable,
    sums: &Counts,
    states: &Vec<String>,
    i: usize,
    j: usize,
) -> (r: Cell)
    requires
        matrix.wf(),
        sums.wf(),
        forall|from: Seq<char>| #[trigger]
            count_of(sums.tally(), from) == row_sum(matrix.entries(), from),
        i < states@.len(),
        j < states@.len(),
        states@.len() * CELL + 2 * MARGIN <= i32::MAX,
    ensures
        r@ == cell_at(matrix.entries(), texts(states@), i as int, j as int),
{
    let count = matrix.count(states[i].as_str(), states[j].as_str());
    let sum = sums.get(states[i].as_str());
    proof {
        lemma_count_in_row(matrix.entries(), (states@[i as int]@, states@[j as int]@));
    }
    let x0 = MARGIN + j as i32 * CELL;
    let y0 = MARGIN + i as i32 * CELL;
    Cell {
        x0,
        y0,
        x1: x0 + CELL,
        y1: y0 + CELL,
        count,
        sum,
        red: shade_of(count, sum, 200),
        green: shade_of(count, sum, 150),
        light: 2 * (count as u128) > sum as u128,
    }
}

/// The picture of a transition table over some categories; there is none over no categories. The
/// picture must be small enough for its coordinates.
pub fn transition_heatmap(matrix: &TransitionTable, states: &Vec<String>) -> (r: Option<Heatmap>)
    requires
        matrix.wf(),
        states@.len() * CELL + 2 * MARGIN <= i32::MAX,
    ensures
        match r {
            Some(h) => states@.len() > 0 && h.side == states@.len() * CELL + 2 * MARGIN && texts(
                h.names@,
            ) == texts(states@).map_values(|s: Seq<char>| bare_name(s)) && cell_views(h.cells@)
                == cells_of(matrix.entries(), texts(states@)),
            None => states@.len() == 0,
        },
{
    let n = states.len();
    if n == 0 {
        return None;
    }
    let ghost names_all = texts(states@).map_values(|s: Seq<char>| bare_name(s));
    let ghost all = cells_of(matrix.entries(), texts(states@));
    let sums = matrix.row_sums();
    let mut names: Vec<String> = Vec::new();
    let mut cells: Vec<Cell> = Vec::new();
    let mut i: usize = 0;
    while i < n
        invariant
            n == states@.len(),
            n > 0,
            n * CELL + 2 * MARGIN <= i32::MAX,
            matrix.wf(),
            sums.wf(),
            forall|from: Seq<char>| #[trigger]
                count_of(sums.tally(), from) == row_sum(matrix.entries(), from),
            names_all == texts(states@).map_values(|s: Seq<char>| bare_name(s)),
            all == cells_of(matrix.entries(), texts(states@)),
            i <= n,
            texts(names@) == names_all.take(i as int),
            cell_views(cells@) == all.take(i * n),
            all.len() == n * n,
            i * n <= n * n,
        decreases n - i,
    {
        let ghost names0 = names@;
        names.push(trim(states[i].as_str(), Edge::Either('[', ']')));
        proof {
            assert(texts(states@)[i as int] == states@[i as int]@);
            assert(texts(names@) == texts(names0).push(names@.last()@));
            assert(names_all.take(i + 1) == names_all.take(i as int).push(names_all[i as int]));
            assert((i + 1) * n == i * n + n && (i + 1) * n <= n * n) by (nonlinear_arith)
                requires
                    i < n,
            ;
        }
        let mut j: usize = 0;
        while j < n
            invariant
                n == states@.len(),
                n > 0,
                n * CELL + 2 * MARGIN <= i32::MAX,
                matrix.wf(),
                sums.wf(),
                forall|from: Seq<char>| #[trigger]
                    count_of(sums.tally(), from) == row_sum(matrix.entries(), from),
                all == cells_of(matrix.entries(), texts(states@)),
                all.len() == n * n,
                i < n,
                (i + 1) * n == i * n + n,
                (i + 1) * n <= n * n,
                j <= n,
                cell_views(cells@) == all.take(i * n + j),
            decreases n - j,
        {
            let ghost cells0 = cells@;
            let ghost k = i * n + j;
            let c = cell(matrix, &sums, states, i, j);
            cells.push(c);
            proof {
                assert(k / (n as int) == i && k % (n as int) == j) by (nonlinear_arith)
                    requires
                        k == i * n + j,
                        0 <= j < n,
                        n > 0,
                ;
                assert(all[k] == c@);
                assert(cell_views(cells@) == cell_views(cells0).push(c@));
                assert(all.take(k + 1) == all.take(k).push(all[k]));
            }
            j += 1;
        }
        i += 1;
    }
    proof {
        assert(names_all.take(n as int) == names_all);
        assert(all.take(n * n) == all);
    }
    let side = (n as i32 * CELL + 2 * MARGIN) as u32;
    Some(Heatmap { side, names, cells })
}

// ---------------------------------------------------------------------------
// Laws
// ---------------------------------------------------------------------------

/// The cells cover the square inside the margin without gaps: a cell ends where the next one in its
/// row or column begins, and the last ones end at the margin.
pub proof fn law_cells_tile(s: Seq<(Step, nat)>, states: Seq<Seq<char>>, i: int, j: int)
    ensures
        cell_at(s, states, i, j).x1 == cell_at(s, states, i, j + 1).x0,
        cell_at(s, states, i, j).y1 == cell_at(s, states, i + 1, j).y0,
        cell_at(s, states, i, 0).x0 == MARGIN,
        cell_at(s, states, 0, j).y0 == MARGIN,
        cell_at(s, states, i, states.len() - 1).x1 == states.len() * CELL + MARGIN,
        cell_at(s, states, states.len() - 1, j).y1 == states.len() * CELL + MARGIN,
{
}

/// A cell is white where its step was never taken, and at its darkest where it was always taken.
pub proof fn law_shade_ends(sum: nat, depth: nat)
    requires
        depth <= 255,
        sum > 0,
    ensures
        shade(0, sum, depth) == 255,
        shade(sum, sum, depth) == 255 - depth,
{
    assert(shade(0, sum, depth) == 255) by {
        assert((255 * sum - depth * 0) / (sum as int) == 255) by (nonlinear_arith)
            requires
                sum > 0,
        ;
    }
    assert((255 * sum - depth * sum) / (sum as int) == 255 - depth) by (nonlinear_arith)
        requires
            sum > 0,
    {
        assert(255 * sum - depth * sum == (255 - depth) * sum);
    }
}

/// A step that is taken more often has no lighter cell than another from the same start.
pub proof fn law_shade_falls(count: nat, more: nat, sum: nat, depth: nat)
    requires
        count <= more <= sum,
    ensures
        shade(more, sum, depth) <= shade(count, sum, depth),
{
    if sum > 0 {
        let (a, b) = (255 * sum - depth * more, 255 * sum - depth * count);
        assert(a <= b) by (nonlinear_arith)
            requires
                a == 255 * sum - depth * more,
                b == 255 * sum - depth * count,
                count <= more,
        ;
        assert(a / (sum as int) <= b / (sum as int)) by (nonlinear_arith)
            requires
                a <= b,
                sum > 0,
        ;
    }
}

/// A cell is darkened by its depth times the probability of its step, rounded to the darker shade.
pub proof fn law_shade_exact(count: nat, sum: nat, depth: nat)
    requires
        sum > 0,
    ensures
        sum * shade(count, sum, depth) <= 255 * sum - depth * count < sum * (shade(
            count,
            sum,
            depth,
        ) + 1),
        shade(count, 0, depth) == 255,
{
    let (a, d, q) = (255 * sum - depth * count, sum as int, shade(count, sum, depth));
    assert(d * q <= a < d * (q + 1)) by (nonlinear_arith)
        requires
            q == a / d,
            d > 0,
    ;
}

/// A cell of row `i` and column `j` is for the step from category `i` to category `j`: it has the
/// count of that step and the sum of its row, is darkened by up to 200 in its red and up to 150 in
/// its green, and has light text exactly when the step is taken more often than not.
pub proof fn law_cell_of_step(s: Seq<(Step, nat)>, states: Seq<Seq<char>>, i: int, j: int)
    ensures
        ({
            let c = cell_at(s, states, i, j);
            let (n, sum) = (
                count_of(s, (states[i], states[j])) as int,
                row_sum(s, states[i]) as int,
            );
            &&& c.count == n && c.sum == sum
            &&& c.x1 - c.x0 == 120 && c.y1 - c.y0 == 120
            &&& c.x0 == 100 + 120 * j && c.y0 == 100 + 120 * i
            &&& sum > 0 ==> sum * c.red <= 255 * sum - 200 * n < sum * (c.red + 1)
            &&& sum > 0 ==> sum * c.green <= 255 * sum - 150 * n < sum * (c.green + 1)
            &&& sum == 0 ==> c.red == 255 && c.green == 255
            &&& c.light <==> n > sum - n
        }),
{
    let (n, sum) = (count_of(s, (states[i], states[j])), row_sum(s, states[i]));
    if sum > 0 {
        law_shade_exact(n, sum, 200);
        law_shade_exact(n, sum, 150);
    }
}

/// There is a cell for every pair of categories, row by row.
pub proof fn law_every_step_has_a_cell(
    s: Seq<(Step, nat)>,
    states: Seq<Seq<char>>,
    i: int,
    j: int,
)
    requires
        0 <= i < states.len(),
        0 <= j < states.len(),
    ensures
        cells_of(s, states).len() == states.len() * states.len(),
        0 <= i * states.len() + j < cells_of(s, states).len(),
        cells_of(s, states)[i * states.len() + j] == cell_at(s, states, i, j),
{
    let n = states.len() as int;
    let k = i * n + j;
    assert(0 <= k < n * n && k / n == i && k % n == j) by (nonlinear_arith)
        requires
            k == i * n + j,
            0 <= i < n,
            0 <= j < n,
    ;
}

/// The name of a category is what stands in its brackets.
pub proof fn law_name_in_brackets(name: Seq<char>)
    requires
        name.len() > 0,
        name[0] != '[' && name[0] != ']',
        name.last() != '[' && name.last() != ']',
    ensures
        bare_name(seq!['['] + name + seq![']']) == name,
        bare_name(name) == name,
{
    let none = Seq::<char>::empty();
    law_trimmed_inside(seq!['['], name, seq![']'], Edge::Either('[', ']'));
    assert(none + name + none == name);
    law_trimmed_inside(none, name, none, Edge::Either('[', ']'));
}

} // verus!
