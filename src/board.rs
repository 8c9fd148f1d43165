//! The board, its cells, and the rules for placing a disc.

use crate::outside::{new_runs, push_run, run_items, runs_into_array, vec2_add};
use vstd::prelude::*;

verus! {

/// Width and height of the board.
pub const BOARD_WIDTH: usize = 8;

/// The state of one square.
#[derive(Clone, Copy, PartialEq, Eq, Structural, Debug)]
pub enum Cell {
    Empty,
    Dark,
    Light,
}

/// An 8x8 grid; the square at row `r`, column `c` is `cells[r * 8 + c]`.
pub struct Board {
    pub cells: [Cell; 64],
}

/// Whether `(r, c)` names a square of the board.
pub open spec fn on_board(r: int, c: int) -> bool {
    0 <= r < 8 && 0 <= c < 8
}

/// Whether `position` (row, column) names a square of the board.
pub fn in_available_range(position: [isize; 2]) -> (r: bool)
    ensures
        r == on_board(position[0] as int, position[1] as int),
{
    0 <= position[0] && position[0] < BOARD_WIDTH as isize && 0 <= position[1] && position[1]
        < BOARD_WIDTH as isize
}

/// Row step of the `i`-th of the eight directions.
pub open spec fn dir_row(i: int) -> int {
    if i <= 2 {
        -1
    } else if i <= 4 {
        0
    } else {
        1
    }
}

/// Column step of the `i`-th of the eight directions.
pub open spec fn dir_col(i: int) -> int {
    if i == 0 || i == 3 || i == 5 {
        -1
    } else if i == 1 || i == 6 {
        0
    } else {
        1
    }
}

/// The `i`-th of the eight unit steps (row, column), each one once.
pub fn direction(i: usize) -> (d: [isize; 2])
    requires
        i < 8,
    ensures
        d[0] == dir_row(i as int),
        d[1] == dir_col(i as int),
{
    if i == 0 {
        [-1, -1]
    } else if i == 1 {
        [-1, 0]
    } else if i == 2 {
        [-1, 1]
    } else if i == 3 {
        [0, -1]
    } else if i == 4 {
        [0, 1]
    } else if i == 5 {
        [1, -1]
    } else if i == 6 {
        [1, 0]
    } else {
        [1, 1]
    }
}

/// Whether `(dr, dc)` is one of the eight unit steps.
pub open spec fn is_step(dr: int, dc: int) -> bool {
    -1 <= dr <= 1 && -1 <= dc <= 1 && !(dr == 0 && dc == 0)
}

/// One coordinate of the square `i` steps from `p` by `dp`.
pub open spec fn ray(p: int, dp: int, i: int) -> int {
    p + i * dp
}

/// One more step along a ray adds the step once more.
proof fn lemma_next_step(r: int, dr: int, i: int)
    ensures
        r + (i + 1) * dr == (r + i * dr) + dr,
{
    assert((i + 1) * dr == i * dr + dr) by (nonlinear_arith);
}

/// A ray from a square of the board leaves the board within eight steps.
proof fn lemma_ray_leaves(r: int, c: int, dr: int, dc: int, i: int)
    requires
        on_board(r, c),
        is_step(dr, dc),
        on_board(r + i * dr, c + i * dc),
        i >= 0,
    ensures
        i < 8,
{
    if dr == 1 {
        assert(i * dr == i) by (nonlinear_arith)
            requires
                dr == 1,
        ;
    } else if dr == -1 {
        assert(i * dr == -i) by (nonlinear_arith)
            requires
                dr == -1,
        ;
    } else if dc == 1 {
        assert(i * dc == i) by (nonlinear_arith)
            requires
                dc == 1,
        ;
    } else {
        assert(i * dc == -i) by (nonlinear_arith)
            requires
                dc == -1,
        ;
    }
}

impl Board {
    /// What stands at `(r, c)`: `None` off the board.
    pub open spec fn cell(self, r: int, c: int) -> Option<Cell> {
        if on_board(r, c) {
            Some(self.cells@[r * 8 + c])
        } else {
            None
        }
    }

    /// The opening position: Light at (3,3) and (4,4), Dark at (3,4) and (4,3).
    pub open spec fn opening(r: int, c: int) -> Cell {
        if (r == 3 && c == 3) || (r == 4 && c == 4) {
            Cell::Light
        } else if (r == 3 && c == 4) || (r == 4 && c == 3) {
            Cell::Dark
        } else {
            Cell::Empty
        }
    }

    /// A board in the opening position.
    pub fn new() -> (b: Self)
        ensures
            forall|r: int, c: int| on_board(r, c) ==> b.cell(r, c) == Some(Self::opening(r, c)),
    {
        let mut cells = [Cell::Empty;64];
        cells[3 * BOARD_WIDTH + 3] = Cell::Light;
        cells[3 * BOARD_WIDTH + 4] = Cell::Dark;
        cells[4 * BOARD_WIDTH + 3] = Cell::Dark;
        cells[4 * BOARD_WIDTH + 4] = Cell::Light;
        let b = Board { cells };
        assert forall|r: int, c: int| on_board(r, c) implies b.cell(r, c) == Some(
            Self::opening(r, c),
        ) by {
            assert(0 <= r * 8 + c < 64);
        }
        b
    }

    /// The disc `i` steps from `(r, c)` along `(dr, dc)` belongs to the opponent of `color`.
    pub open spec fn opposes(self, r: int, c: int, dr: int, dc: int, color: Cell, i: int) -> bool {
        match self.cell(r + i * dr, c + i * dc) {
            Some(x) => x != Cell::Empty && x != color,
            None => false,
        }
    }

    /// A disc of `color` placed at `(r, c)` brackets a run of exactly `k` opposing discs
    /// along `(dr, dc)`: steps `1..=k` hold the opponent's discs and step `k + 1` holds `color`.
    pub open spec fn brackets(self, r: int, c: int, dr: int, dc: int, color: Cell, k: int) -> bool {
        &&& color != Cell::Empty
        &&& 1 <= k
        &&& forall|i: int| 1 <= i <= k ==> #[trigger] self.opposes(r, c, dr, dc, color, i)
        &&& self.cell(r + (k + 1) * dr, c + (k + 1) * dc) == Some(color)
    }

    /// `n` is the number of discs that `color` at `(r, c)` captures along `(dr, dc)`:
    /// zero where nothing is bracketed.
    pub open spec fn is_run_length(self, r: int, c: int, dr: int, dc: int, color: Cell, n: int) -> bool {
        if n == 0 {
            forall|k: int| !#[trigger] self.brackets(r, c, dr, dc, color, k)
        } else {
            self.brackets(r, c, dr, dc, color, n)
        }
    }

    /// Placing `color` at `(r, c)` is a legal move: the square is empty and at least
    /// one direction brackets a run of the opponent's discs.
    pub open spec fn legal(self, r: int, c: int, color: Cell) -> bool {
        &&& self.cell(r, c) == Some(Cell::Empty)
        &&& exists|d: int, k: int|
            0 <= d < 8 && #[trigger] self.brackets(r, c, dir_row(d), dir_col(d), color, k)
    }

    /// `(tr, tc)` lies within the first `m` steps from `(r, c)` along `(dr, dc)`.
    pub open spec fn on_ray(r: int, c: int, dr: int, dc: int, m: int, tr: int, tc: int) -> bool {
        exists|i: int| 1 <= i <= m && tr == #[trigger] ray(r, dr, i) && tc == ray(c, dc, i)
    }

    /// `(tr, tc)` holds a disc that `color` placed at `(r, c)` captures along one of the
    /// first `dmax` directions.
    pub open spec fn captured_within(
        self,
        r: int,
        c: int,
        color: Cell,
        tr: int,
        tc: int,
        dmax: int,
    ) -> bool {
        exists|d: int, k: int|
            0 <= d < dmax && #[trigger] self.brackets(r, c, dir_row(d), dir_col(d), color, k)
                && Self::on_ray(r, c, dir_row(d), dir_col(d), k, tr, tc)
    }

    /// `(tr, tc)` holds a disc that `color` placed at `(r, c)` captures, in any direction.
    pub open spec fn captured(self, r: int, c: int, color: Cell, tr: int, tc: int) -> bool {
        self.captured_within(r, c, color, tr, tc, 8)
    }

    /// The square `(tr, tc)` after `color` is placed at `(r, c)`: the placed disc, a
    /// flipped disc, or what stood there before.
    pub open spec fn put_result(self, r: int, c: int, color: Cell, tr: int, tc: int) -> Cell {
        if (tr == r && tc == c) || self.captured(r, c, color, tr, tc) {
            color
        } else {
            self.cells@[tr * 8 + tc]
        }
    }

    /// What stands at `position` (row, column): `None` off the board, never a panic.
    pub fn position_to_cell(&self, position: [isize; 2]) -> (r: Option<Cell>)
        ensures
            r == self.cell(position[0] as int, position[1] as int),
            !on_board(position[0] as int, position[1] as int) ==> r is None,
    {
        if !in_available_range(position) {
            return None;
        }
        Some(self.cells[position[0] as usize * BOARD_WIDTH + position[1] as usize])
    }

    /// Places `color` at `position` (row, column) and flips every run of the opponent's
    /// discs that it brackets, in all eight directions. Where the move is not legal only
    /// the placed square changes.
    pub fn put(&mut self, position: [usize; 2], color: &Cell)
        requires
            on_board(position[0] as int, position[1] as int),
        ensures
            forall|tr: int, tc: int|
                on_board(tr, tc) ==> #[trigger] final(self).cell(tr, tc) == Some(
                    old(self).put_result(position[0] as int, position[1] as int, *color, tr, tc),
                ),
    {
        let ghost before: Board = *self;
        let ghost (r, c) = (position[0] as int, position[1] as int);
        let runs = self.puttable_directions(position, color);
        self.cells[position[0] * BOARD_WIDTH + position[1]] = *color;
        let mut d: usize = 0;
        while d < 8
            invariant
                d <= 8,
                r == position[0],
                c == position[1],
                on_board(r, c),
                forall|j: int|
                    0 <= j < 8 ==> #[trigger] runs[j] < 8 && before.is_run_length(
                        r,
                        c,
                        dir_row(j),
                        dir_col(j),
                        *color,
                        runs[j] as int,
                    ),
                forall|tr: int, tc: int|
                    on_board(tr, tc) ==> #[trigger] self.cell(tr, tc) == Some(
                        if (tr == r && tc == c) || before.captured_within(r, c, *color, tr, tc, d as int) {
                            *color
                        } else {
                            before.cells@[tr * 8 + tc]
                        },
                    ),
            decreases 8 - d,
        {
            let step = direction(d);
            let ghost (dr, dc) = (dir_row(d as int), dir_col(d as int));
            let n = runs[d];
            let mut current = [position[0] as isize, position[1] as isize];
            let mut i: u32 = 0;
            assert(before.is_run_length(r, c, dr, dc, *color, n as int));
            while i < n
                invariant
                    i <= n,
                    n < 8,
                    r == position[0],
                    c == position[1],
                    on_board(r, c),
                    dr == step[0],
                    dc == step[1],
                    current[0] == r + i * dr,
                    current[1] == c + i * dc,
                    n > 0 ==> before.brackets(r, c, dr, dc, *color, n as int),
                    forall|tr: int, tc: int|
                        on_board(tr, tc) ==> #[trigger] self.cell(tr, tc) == Some(
                            if (tr == r && tc == c) || before.captured_within(r, c, *color, tr, tc, d as int)
                                || Self::on_ray(r, c, dr, dc, i as int, tr, tc) {
                                *color
                            } else {
                                before.cells@[tr * 8 + tc]
                            },
                        ),
                decreases n - i,
            {
                proof {
                    lemma_next_step(r, dr, i as int);
                    lemma_next_step(c, dc, i as int);
                    assert(before.opposes(r, c, dr, dc, *color, i + 1));
                }
                current = vec2_add(current, step);
                let ghost (pr, pc) = (current[0] as int, current[1] as int);
                let ghost prev = *self;
                self.cells[current[0] as usize * BOARD_WIDTH + current[1] as usize] = *color;
                proof {
                    assert forall|tr: int, tc: int| on_board(tr, tc) implies #[trigger] self.cell(tr, tc) == Some(
                        if (tr == r && tc == c) || before.captured_within(r, c, *color, tr, tc, d as int)
                            || Self::on_ray(r, c, dr, dc, i + 1, tr, tc) {
                            *color
                        } else {
                            before.cells@[tr * 8 + tc]
                        },
                    ) by {
                        if tr == pr && tc == pc {
                            assert(ray(r, dr, i + 1) == pr && ray(c, dc, i + 1) == pc);
                            assert(Self::on_ray(r, c, dr, dc, i + 1, tr, tc));
                        } else {
                            assert(tr * 8 + tc != pr * 8 + pc);
                            assert(self.cell(tr, tc) == prev.cell(tr, tc));
                            if Self::on_ray(r, c, dr, dc, i + 1, tr, tc) {
                                let w = choose|w: int| 1 <= w <= i + 1 && tr == #[trigger] ray(r, dr, w) && tc == ray(c, dc, w);
                                assert(w != i + 1);
                                assert(Self::on_ray(r, c, dr, dc, i as int, tr, tc));
                            }
                            if Self::on_ray(r, c, dr, dc, i as int, tr, tc) {
                                let w = choose|w: int| 1 <= w <= i && tr == #[trigger] ray(r, dr, w) && tc == ray(c, dc, w);
                                assert(Self::on_ray(r, c, dr, dc, i + 1, tr, tc));
                            }
                        }
                    }
                }
                i += 1;
            }
            proof {
                assert forall|tr: int, tc: int| on_board(tr, tc) implies
                    before.captured_within(r, c, *color, tr, tc, d + 1) == (
                        before.captured_within(r, c, *color, tr, tc, d as int)
                        || Self::on_ray(r, c, dr, dc, n as int, tr, tc)) by {
                    if Self::on_ray(r, c, dr, dc, n as int, tr, tc) {
                        assert(n > 0);
                        assert(before.brackets(r, c, dir_row(d as int), dir_col(d as int), *color, n as int));
                    }
                    if before.captured_within(r, c, *color, tr, tc, d + 1) {
                        let (dd, k) = choose|dd: int, k: int|
                            0 <= dd < d + 1 && #[trigger] before.brackets(r, c, dir_row(dd), dir_col(dd), *color, k)
                                && Self::on_ray(r, c, dir_row(dd), dir_col(dd), k, tr, tc);
                        if dd == d {
                            before.lemma_run_length_unique(r, c, dr, dc, *color, n as int, k);
                        }
                    }
                }
            }
            d += 1;
        }
    }

    /// A move that is not legal captures nothing: placing it changes no square but its own.
    pub proof fn lemma_illegal_move_flips_nothing(self, r: int, c: int, color: Cell)
        requires
            on_board(r, c),
            self.cell(r, c) == Some(Cell::Empty),
            !self.legal(r, c, color),
        ensures
            forall|tr: int, tc: int|
                on_board(tr, tc) && !(tr == r && tc == c) ==> #[trigger] self.put_result(r, c, color, tr, tc)
                    == self.cells@[tr * 8 + tc],
    {
        assert forall|tr: int, tc: int| on_board(tr, tc) && !(tr == r && tc == c) implies #[trigger] self.put_result(
            r,
            c,
            color,
            tr,
            tc,
        ) == self.cells@[tr * 8 + tc] by {
            if self.captured(r, c, color, tr, tc) {
                let (d, k) = choose|d: int, k: int|
                    0 <= d < 8 && #[trigger] self.brackets(r, c, dir_row(d), dir_col(d), color, k)
                        && Self::on_ray(r, c, dir_row(d), dir_col(d), k, tr, tc);
                assert(self.legal(r, c, color));
            }
        }
    }

    /// A run length is unique: no other length is bracketed along the same direction.
    proof fn lemma_run_length_unique(self, r: int, c: int, dr: int, dc: int, color: Cell, n: int, k: int)
        requires
            self.is_run_length(r, c, dr, dc, color, n),
            self.brackets(r, c, dr, dc, color, k),
        ensures
            n == k,
    {
        if n != 0 {
            if n < k {
                assert(self.opposes(r, c, dr, dc, color, n + 1));
            } else if k < n {
                assert(self.opposes(r, c, dr, dc, color, k + 1));
            }
        }
    }

    /// The number of discs that `color` placed at `origin` captures along `step`.
    fn count_run(&self, origin: [isize; 2], step: [isize; 2], color: &Cell) -> (n: u32)
        requires
            on_board(origin[0] as int, origin[1] as int),
            is_step(step[0] as int, step[1] as int),
        ensures
            n < 8,
            self.is_run_length(
                origin[0] as int,
                origin[1] as int,
                step[0] as int,
                step[1] as int,
                *color,
                n as int,
            ),
    {
        let ghost (r, c, dr, dc) = (origin[0] as int, origin[1] as int, step[0] as int, step[1] as int);
        let mut current = vec2_add(origin, step);
        match self.position_to_cell(current) {
            None => {
                assert forall|k: int| !#[trigger] self.brackets(r, c, dr, dc, *color, k) by {
                    if k >= 1 {
                        assert(!self.opposes(r, c, dr, dc, *color, 1));
                    }
                }
                return 0;
            },
            Some(cell) => {
                if cell == Cell::Empty || cell == *color {
                    assert forall|k: int| !#[trigger] self.brackets(r, c, dr, dc, *color, k) by {
                        if k >= 1 {
                            assert(!self.opposes(r, c, dr, dc, *color, 1));
                        }
                    }
                    return 0;
                }
            },
        }
        let mut count: u32 = 1;
        assert(self.opposes(r, c, dr, dc, *color, 1));
        loop
            invariant
                1 <= count < 8,
                current[0] == r + count * dr,
                current[1] == c + count * dc,
                on_board(current[0] as int, current[1] as int),
                on_board(r, c),
                is_step(dr, dc),
                r == origin[0],
                c == origin[1],
                dr == step[0],
                dc == step[1],
                forall|i: int| 1 <= i <= count ==> #[trigger] self.opposes(r, c, dr, dc, *color, i),
            decreases 8 - count,
        {
            proof {
                lemma_next_step(r, dr, count as int);
                lemma_next_step(c, dc, count as int);
            }
            current = vec2_add(current, step);
            match self.position_to_cell(current) {
                Some(cell) => {
                    if cell == Cell::Empty {
                        assert forall|k: int| !#[trigger] self.brackets(r, c, dr, dc, *color, k) by {
                            if 1 <= k < count {
                                assert(self.opposes(r, c, dr, dc, *color, k + 1));
                            } else if k > count {
                                assert(!self.opposes(r, c, dr, dc, *color, count + 1));
                            }
                        }
                        return 0;
                    } else if cell != *color {
                        assert(self.opposes(r, c, dr, dc, *color, count + 1));
                        proof {
                            lemma_ray_leaves(r, c, dr, dc, count + 1);
                        }
                        count = count + 1;
                    } else {
                        return count;
                    }
                },
                None => {
                    assert forall|k: int| !#[trigger] self.brackets(r, c, dr, dc, *color, k) by {
                        if 1 <= k < count {
                            assert(self.opposes(r, c, dr, dc, *color, k + 1));
                        } else if k > count {
                            assert(!self.opposes(r, c, dr, dc, *color, count + 1));
                        }
                    }
                    return 0;
                },
            }
        }
    }

    /// For each of the eight directions, in order, the number of discs that `color`
    /// placed at `position` (row, column) captures along it.
    fn puttable_directions(&self, position: [usize; 2], color: &Cell) -> (runs: [u32; 8])
        requires
            on_board(position[0] as int, position[1] as int),
        ensures
            forall|d: int|
                0 <= d < 8 ==> #[trigger] runs[d] < 8 && self.is_run_length(
                    position[0] as int,
                    position[1] as int,
                    dir_row(d),
                    dir_col(d),
                    *color,
                    runs[d] as int,
                ),
    {
        let origin = [position[0] as isize, position[1] as isize];
        let mut runs = new_runs();
        let mut d: usize = 0;
        while d < 8
            invariant
                d <= 8,
                origin[0] == position[0],
                origin[1] == position[1],
                on_board(position[0] as int, position[1] as int),
                run_items(runs).len() == d,
                forall|j: int|
                    0 <= j < d ==> #[trigger] run_items(runs)[j] < 8 && self.is_run_length(
                        position[0] as int,
                        position[1] as int,
                        dir_row(j),
                        dir_col(j),
                        *color,
                        run_items(runs)[j] as int,
                    ),
            decreases 8 - d,
        {
            let n = self.count_run(origin, direction(d), color);
            push_run(&mut runs, n);
            d += 1;
        }
        let ghost items = run_items(runs);
        let result = runs_into_array(runs).unwrap();
        assert(result@ == items);
        result
    }

    /// Whether `color` may be placed at `position` (row, column). False off the board
    /// and on an occupied square.
    pub fn puttable(&self, position: [usize; 2], color: &Cell) -> (r: bool)
        ensures
            r == self.legal(position[0] as int, position[1] as int, *color),
            !on_board(position[0] as int, position[1] as int) ==> !r,
            self.cell(position[0] as int, position[1] as int) != Some(Cell::Empty) ==> !r,
    {
        if position[0] >= BOARD_WIDTH || position[1] >= BOARD_WIDTH {
            return false;
        }
        match self.position_to_cell([position[0] as isize, position[1] as isize]) {
            Some(Cell::Empty) => {},
            _ => {
                return false;
            },
        }
        let runs = self.puttable_directions(position, color);
        let ghost (r, c) = (position[0] as int, position[1] as int);
        let mut d: usize = 0;
        while d < 8
            invariant
                d <= 8,
                r == position[0],
                c == position[1],
                self.cell(r, c) == Some(Cell::Empty),
                forall|j: int| 0 <= j < d ==> #[trigger] runs[j] == 0,
                forall|j: int|
                    0 <= j < 8 ==> #[trigger] self.is_run_length(
                        r,
                        c,
                        dir_row(j),
                        dir_col(j),
                        *color,
                        runs[j] as int,
                    ),
            decreases 8 - d,
        {
            if runs[d] > 0 {
                assert(self.is_run_length(r, c, dir_row(d as int), dir_col(d as int), *color, runs[d as int] as int));
                assert(self.brackets(r, c, dir_row(d as int), dir_col(d as int), *color, runs[d as int] as int));
                return true;
            }
            d += 1;
        }
        assert forall|dd: int, k: int| 0 <= dd < 8 implies !#[trigger] self.brackets(r, c, dir_row(dd), dir_col(dd), *color, k) by {
            assert(runs[dd] == 0);
            assert(self.is_run_length(r, c, dir_row(dd), dir_col(dd), *color, 0));
        }
        false
    }
}

} // verus!
