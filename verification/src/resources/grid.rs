//! The board of the game with its score, and the moves on it.
//!
//! Every operation is stated over the view of the board, a `GridView`, in
//! the terms of `board` and `line`. The steps of a move hand the board back
//! so that they can be chained: their contracts say what holds of the board
//! on return, and `*final(self) == *final(grid)` says that what is done
//! through the reference handed back is done to the board itself.
//!
//! Cells and score are 32 bits wide. A move whose result would not fit is
//! left out by the preconditions of `move_in_dir` and `update`; `move_fits`
//! tells beforehand whether a move fits, and `try_update` plays the move
//! only where it does.

use crate::board::{
    blank_board, compress_rows, gain_of_rows, is_power_of_two, is_square,
    law_changed_leaves_room, law_unchanged_scores_nothing, lemma_compress_keeps_cells,
    lemma_gain_grows, lemma_merge_keeps_valid, lemma_one_spawn, lemma_slide_representable,
    lemma_spawns_add, lemma_steps_keep_square, lemma_turns_keep_cells, lemma_turns_keep_square,
    lemma_vacant_grows, merge_rows, merge_rows_gain, orient, reduce_left, reduce_left_gain,
    representable, reverse_rows, slide, slide_gain, spawned, stuck, transpose, vacant,
    vacant_in_rows, valid_board, valid_cell, valid_row,
};
use crate::constants::{SPAWN_ATTEMPTS, SPAWN_ROLLS, SPAWN_TWO_ROLLS};
use crate::enums::{MoveDirection, DIRECTIONS};
use crate::line::{
    bounded, compress, gain_before, lemma_compress, lemma_front_step, lemma_front_vacancies,
    lemma_pairs_grow, lemma_tiles_of_blank, merged_cell, pair_starts, tiles, vacancies,
};
use crate::random::random_below;
use vstd::prelude::*;

verus! {

/// Why the board refused to do something.
#[derive(Debug, Clone, Copy, PartialEq, Eq, Structural)]
pub enum GridError {
    /// A board has at least two rows, and as many columns as rows.
    InvalidSize,
    /// There are fewer empty cells than tiles to put down.
    NoSpaceToSpawn,
    /// A cell holds nothing, or a power of two from 2 on.
    InvalidTile,
}

/// A board as the contracts see it.
pub struct GridView {
    /// The side of the board.
    pub size: nat,
    /// The rows from top to bottom, each from left to right; `0` is an empty cell.
    pub cells: Seq<Seq<nat>>,
    /// The points scored: the worth of every tile that a merge has made.
    pub score: nat,
    /// Whether the last move that changed the board left it stuck.
    pub deadlocked: bool,
}

/// The board that a game is played on, with the points scored so far and
/// the mark that says that no move is left.
#[derive(Debug)]
pub struct Grid {
    size: usize,
    state: Vec<Vec<u32>>,
    score: u32,
    deadlocked: bool,
}

/// The naturals held by a row of cells.
pub open spec fn row_values(row: Seq<u32>) -> Seq<nat> {
    Seq::new(row.len(), |j: int| row[j] as nat)
}

/// The naturals held by the rows of a matrix.
pub open spec fn matrix_values(matrix: Seq<Vec<u32>>) -> Seq<Seq<nat>> {
    Seq::new(matrix.len(), |i: int| row_values(matrix[i]@))
}

/// The matrix is `size` rows of `size` cells each.
pub open spec fn square_rows(matrix: Seq<Vec<u32>>, size: usize) -> bool {
    matrix.len() == size && forall|a: int| 0 <= a < size ==> (#[trigger] matrix[a]).len() == size
}

/// Whatever 32-bit cells hold fits in 32 bits.
pub proof fn lemma_values_representable(matrix: Seq<Vec<u32>>)
    ensures
        representable(matrix_values(matrix)),
{
    let values = matrix_values(matrix);
    assert forall|i: int| 0 <= i < values.len() implies bounded(
        #[trigger] values[i],
        u32::MAX as nat,
    ) by {
        assert forall|j: int| 0 <= j < values[i].len() implies #[trigger] values[i][j]
            <= u32::MAX by {}
    }
}

/// The tile that a roll puts down: a 2 for the low rolls, a 4 for the rest.
pub open spec fn spawn_value(roll: nat) -> nat {
    if roll < SPAWN_TWO_ROLLS {
        2
    } else {
        4
    }
}

/// The tile that a roll puts down.
pub fn tile_for_roll(roll: usize) -> (tile: u32)
    ensures
        tile == spawn_value(roll as nat),
{
    if roll < SPAWN_TWO_ROLLS {
        2
    } else {
        4
    }
}

/// Whether a cell may hold `value` as a tile: a power of two from 2 on.
pub fn is_tile(value: u32) -> (tile: bool)
    ensures
        tile == (value >= 2 && is_power_of_two(value as nat)),
{
    let mut rest: u32 = value;
    while rest > 1 && rest % 2 == 0
        invariant
            is_power_of_two(rest as nat) == is_power_of_two(value as nat),
        decreases rest,
    {
        rest = rest / 2;
    }
    rest == 1 && value >= 2
}

impl View for Grid {
    type V = GridView;

    closed spec fn view(&self) -> GridView {
        GridView {
            size: self.size as nat,
            cells: matrix_values(self.state@),
            score: self.score as nat,
            deadlocked: self.deadlocked,
        }
    }
}

impl Grid {
    /// What holds of every board: it is a square of side two or more, every
    /// cell holds nothing or a tile worth a power of two, and cells and score
    /// fit in 32 bits. `new` hands out no other board, and every operation
    /// keeps it so.
    pub open spec fn wf(&self) -> bool {
        &&& self@.size >= 2
        &&& is_square(self@.cells, self@.size)
        &&& valid_board(self@.cells)
        &&& representable(self@.cells)
        &&& self@.score <= u32::MAX
    }

    /// A board of the given side with no tile on it and no points scored.
    /// A side below two is refused.
    pub fn new(size: usize) -> (made: Result<Grid, GridError>)
        ensures
            size < 2 ==> made == Err::<Grid, GridError>(GridError::InvalidSize),
            size >= 2 ==> made is Ok,
            made matches Ok(grid) ==> {
                &&& grid.wf()
                &&& grid@.size == size
                &&& grid@.cells == blank_board(size as nat)
                &&& grid@.score == 0
                &&& !grid@.deadlocked
            },
    {
        if size < 2 {
            return Err(GridError::InvalidSize);
        }
        let grid = Grid { size, state: vec![vec![0u32; size]; size], score: 0, deadlocked: false };
        proof {
            lemma_values_representable(grid.state@);
            assert(grid@.cells =~~= blank_board(size as nat));
        }
        Ok(grid)
    }

    /// The side of the board.
    pub fn size(&self) -> (size: usize)
        ensures
            size == self@.size,
    {
        self.size
    }

    /// The points scored so far.
    pub fn score(&self) -> (score: u32)
        ensures
            score == self@.score,
    {
        self.score
    }

    /// The mark that the last move left: whether the game is over.
    pub fn deadlocked(&self) -> (deadlocked: bool)
        ensures
            deadlocked == self@.deadlocked,
    {
        self.deadlocked
    }

    /// The cells, row by row.
    pub fn state(&self) -> (state: &Vec<Vec<u32>>)
        ensures
            matrix_values(state@) == self@.cells,
    {
        &self.state
    }

    /// How the stored rows and the cells of the view go together.
    proof fn lemma_rows(&self)
        requires
            self.wf(),
        ensures
            self.size >= 2,
            square_rows(self.state@, self.size),
            forall|i: int, j: int|
                0 <= i < self.size && 0 <= j < self.size ==> #[trigger] self@.cells[i][j]
                    == self.state[i][j],
    {
        assert forall|i: int| 0 <= i < self.size implies (#[trigger] self.state[i]).len()
            == self.size by {
            assert(self@.cells[i].len() == self.size);
        }
    }

    /// A copy of the board to try a move on.
    fn scratch(&self) -> (copy: Grid)
        requires
            self.wf(),
        ensures
            copy.wf(),
            copy@ == self@,
    {
        proof {
            self.lemma_rows();
        }
        let copy = Grid {
            size: self.size,
            state: self.state.clone(),
            score: self.score,
            deadlocked: self.deadlocked,
        };
        proof {
            assert(copy@.cells =~~= self@.cells);
        }
        copy
    }

    /// Whether the board differs from `matrix` in any cell.
    pub fn compare(&self, matrix: &Vec<Vec<u32>>) -> (differs: bool)
        requires
            self.wf(),
            is_square(matrix_values(matrix@), self@.size),
        ensures
            differs == (self@.cells != matrix_values(matrix@)),
    {
        proof {
            self.lemma_rows();
            assert forall|i: int| 0 <= i < self.size implies (#[trigger] matrix[i]).len()
                == self.size by {
                assert(matrix_values(matrix@)[i].len() == self.size);
            }
        }
        for i in 0..self.size
            invariant
                square_rows(self.state@, self.size),
                square_rows(matrix@, self.size),
                forall|a: int, b: int|
                    0 <= a < i && 0 <= b < self.size ==> self.state[a][b] == matrix[a][b],
        {
            for j in 0..self.size
                invariant
                    i < self.size,
                    square_rows(self.state@, self.size),
                    square_rows(matrix@, self.size),
                    forall|b: int| 0 <= b < j ==> self.state[i as int][b] == matrix[i as int][b],
            {
                if self.state[i][j] != matrix[i][j] {
                    proof {
                        assert(self@.cells[i as int][j as int] != matrix_values(
                            matrix@,
                        )[i as int][j as int]);
                    }
                    return true;
                }
            }
        }
        proof {
            assert(self@.cells =~~= matrix_values(matrix@));
        }
        false
    }

    /// Turns rows into columns.
    pub fn transpose(&mut self) -> (grid: &mut Self)
        requires
            old(self).wf(),
        ensures
            *final(self) == *final(grid),
            grid.wf(),
            grid@ == (GridView { cells: transpose(old(self)@.cells), ..old(self)@ }),
    {
        proof {
            self.lemma_rows();
        }
        let size: usize = self.size;
        let mut new_matrix = vec![vec![0u32; size]; size];
        for i in 0..size
            invariant
                size == self.size,
                square_rows(self.state@, size),
                square_rows(new_matrix@, size),
                forall|a: int, b: int|
                    0 <= a < i && 0 <= b < size ==> new_matrix[b][a] == self.state[a][b],
        {
            for j in 0..size
                invariant
                    i < size,
                    size == self.size,
                    square_rows(self.state@, size),
                    square_rows(new_matrix@, size),
                    forall|a: int, b: int|
                        0 <= a < i && 0 <= b < size ==> new_matrix[b][a] == self.state[a][b],
                    forall|b: int| 0 <= b < j ==> new_matrix[b][i as int] == self.state[i as int][b],
            {
                new_matrix[j][i] = self.state[i][j];
            }
        }
        self.state = new_matrix;
        proof {
            let before = old(self)@.cells;
            assert(self@.cells =~~= transpose(before));
            lemma_turns_keep_square(before, size as nat, MoveDirection::Up);
            lemma_turns_keep_cells(before, size as nat, MoveDirection::Up);
            lemma_values_representable(self.state@);
        }
        self
    }

    /// Reads every row from its other end.
    pub fn reverse(&mut self) -> (grid: &mut Self)
        requires
            old(self).wf(),
        ensures
            *final(self) == *final(grid),
            grid.wf(),
            grid@ == (GridView { cells: reverse_rows(old(self)@.cells), ..old(self)@ }),
    {
        proof {
            self.lemma_rows();
        }
        let size: usize = self.size;
        let mut new_matrix = vec![vec![0u32; size]; size];
        for i in 0..size
            invariant
                size == self.size,
                square_rows(self.state@, size),
                square_rows(new_matrix@, size),
                forall|a: int, b: int|
                    0 <= a < i && 0 <= b < size ==> new_matrix[a][b] == self.state[a][size - 1 - b],
        {
            for j in 0..size
                invariant
                    i < size,
                    size == self.size,
                    square_rows(self.state@, size),
                    square_rows(new_matrix@, size),
                    forall|a: int, b: int|
                        0 <= a < i && 0 <= b < size ==> new_matrix[a][b] == self.state[a][size - 1
                            - b],
                    forall|b: int|
                        0 <= b < j ==> new_matrix[i as int][b] == self.state[i as int][size - 1 - b],
            {
                new_matrix[i][j] = self.state[i][size - 1 - j];
            }
        }
        self.state = new_matrix;
        proof {
            let before = old(self)@.cells;
            assert(self@.cells =~~= reverse_rows(before));
            lemma_turns_keep_square(before, size as nat, MoveDirection::Up);
            lemma_turns_keep_cells(before, size as nat, MoveDirection::Up);
            lemma_values_representable(self.state@);
        }
        self
    }

    /// Packs the tiles of every row to the left.
    pub fn compress(&mut self) -> (grid: &mut Self)
        requires
            old(self).wf(),
        ensures
            *final(self) == *final(grid),
            grid.wf(),
            grid@ == (GridView { cells: compress_rows(old(self)@.cells), ..old(self)@ }),
    {
        proof {
            self.lemma_rows();
        }
        let size: usize = self.size;
        let ghost before = self@.cells;
        let mut new_matrix = vec![vec![0u32; size]; size];
        for i in 0..size
            invariant
                size == self.size,
                square_rows(self.state@, size),
                square_rows(new_matrix@, size),
                before == self@.cells,
                is_square(before, size as nat),
                forall|a: int| 0 <= a < i ==> row_values(#[trigger] new_matrix[a]@) == compress(before[a]),
                forall|a: int, b: int| i <= a < size && 0 <= b < size ==> new_matrix[a][b] == 0,
        {
            let mut index: usize = 0;
            let ghost row = before[i as int];
            for j in 0..size
                invariant
                    i < size,
                    size == self.size,
                    square_rows(self.state@, size),
                    square_rows(new_matrix@, size),
                    before == self@.cells,
                    row == before[i as int],
                    row.len() == size,
                    forall|a: int|
                        0 <= a < i ==> row_values(#[trigger] new_matrix[a]@) == compress(before[a]),
                    forall|a: int, b: int| i < a < size && 0 <= b < size ==> new_matrix[a][b] == 0,
                    index <= j,
                    index == tiles(row.take(j as int)).len(),
                    forall|b: int|
                        0 <= b < index ==> new_matrix[i as int][b] == tiles(row.take(j as int))[b],
                    forall|b: int| index <= b < size ==> new_matrix[i as int][b] == 0,
            {
                proof {
                    lemma_front_step(row, j as int);
                    assert(row[j as int] == self.state[i as int][j as int]);
                }
                if self.state[i][j] != 0 {
                    let ghost rows = new_matrix@;
                    new_matrix[i][index] = self.state[i][j];
                    proof {
                        assert forall|a: int| 0 <= a < i implies row_values(
                            #[trigger] new_matrix[a]@,
                        ) == compress(before[a]) by {
                            assert(new_matrix[a] == rows[a]);
                        }
                    }
                    index += 1;
                }
            }
            proof {
                assert(row.take(size as int) =~= row);
                lemma_compress(row);
                assert(row_values(new_matrix[i as int]@) =~= compress(row));
            }
        }
        self.state = new_matrix;
        proof {
            assert(self@.cells =~~= compress_rows(before));
            lemma_steps_keep_square(before, size as nat);
            lemma_compress_keeps_cells(before);
        }
        self
    }

    /// Whether the merge step can be done within 32 bits: every doubled tile
    /// fits, and so does the score with the points of all pairs added.
    pub open spec fn merge_fits(&self) -> bool {
        &&& representable(merge_rows(self@.cells))
        &&& self@.score + merge_rows_gain(self@.cells) <= u32::MAX
    }

    /// Does the merge step where its result fits in 32 bits, and leaves the
    /// board as it is where it does not.
    fn try_merge(&mut self) -> (done: bool)
        requires
            old(self).wf(),
        ensures
            done == old(self).merge_fits(),
            !done ==> *final(self) == *old(self),
            done ==> final(self).wf(),
            done ==> final(self)@ == (GridView {
                cells: merge_rows(old(self)@.cells),
                score: old(self)@.score + merge_rows_gain(old(self)@.cells),
                ..old(self)@
            }),
    {
        proof {
            self.lemma_rows();
        }
        let size: usize = self.size;
        let ghost before = self@.cells;
        let ghost points = self@.score;
        let mut new_matrix = vec![vec![0u32; size]; size];
        let mut score: u32 = self.score;
        for i in 0..size
            invariant
                size == self.size,
                square_rows(self.state@, size),
                square_rows(new_matrix@, size),
                *self == *old(self),
                before == self@.cells,
                points == self@.score,
                is_square(before, size as nat),
                forall|a: int, b: int|
                    0 <= a < size && 0 <= b < size ==> #[trigger] before[a][b] == self.state[a][b],
                forall|a: int, b: int|
                    0 <= a < i && 0 <= b < size ==> #[trigger] new_matrix[a][b] == merged_cell(
                        before[a],
                        b,
                    ),
                forall|a: int, b: int| i <= a < size && 0 <= b < size ==> new_matrix[a][b] == 0,
                score == points + gain_of_rows(before, i as int),
        {
            let mut pair = false;
            let ghost row = before[i as int];
            for j in 0..size
                invariant
                    i < size,
                    size == self.size,
                    square_rows(self.state@, size),
                    square_rows(new_matrix@, size),
                    *self == *old(self),
                    before == self@.cells,
                    points == self@.score,
                    is_square(before, size as nat),
                    row == before[i as int],
                    row.len() == size,
                    forall|a: int, b: int|
                        0 <= a < size && 0 <= b < size ==> #[trigger] before[a][b]
                            == self.state[a][b],
                    forall|a: int, b: int|
                        0 <= a < i && 0 <= b < size ==> #[trigger] new_matrix[a][b] == merged_cell(
                            before[a],
                            b,
                        ),
                    forall|a: int, b: int| i < a < size && 0 <= b < size ==> new_matrix[a][b] == 0,
                    pair == pair_starts(row, j - 1),
                    forall|b: int|
                        0 <= b < j ==> #[trigger] new_matrix[i as int][b] == merged_cell(row, b),
                    forall|b: int| j <= b < size ==> new_matrix[i as int][b] == 0,
                    score == points + gain_of_rows(before, i as int) + gain_before(row, j as int),
            {
                let value: u32 = self.state[i][j];
                proof {
                    assert(row[j as int] == value);
                    if j + 1 < size {
                        assert(row[j + 1] == self.state[i as int][j + 1]);
                    }
                    lemma_pairs_grow(row, j + 1, size as int);
                    lemma_gain_grows(before, i + 1, size as int);
                }
                if pair {
                    if value > u32::MAX / 2 {
                        proof {
                            assert(merge_rows(before)[i as int][j as int] == 2 * value);
                            assert(!bounded(merge_rows(before)[i as int], u32::MAX as nat));
                        }
                        return false;
                    }
                    let doubled: u32 = value * 2;
                    if doubled > u32::MAX - score {
                        return false;
                    }
                    new_matrix[i][j] = doubled;
                    score += doubled;
                    pair = false;
                } else if j + 1 < size && value != 0 && value == self.state[i][j + 1] {
                    pair = true;
                } else {
                    new_matrix[i][j] = value;
                }
            }
        }
        proof {
            let merged = merge_rows(before);
            assert(matrix_values(new_matrix@) =~~= merged);
            lemma_values_representable(new_matrix@);
            lemma_steps_keep_square(before, size as nat);
            lemma_merge_keeps_valid(before);
        }
        self.state = new_matrix;
        self.score = score;
        true
    }

    /// Merges equal neighbours once, from the left: the first of a pair is
    /// emptied, the second doubled, and the doubled tile is added to the score.
    pub fn merge(&mut self) -> (grid: &mut Self)
        requires
            old(self).wf(),
            old(self).merge_fits(),
        ensures
            *final(self) == *final(grid),
            grid.wf(),
            grid@ == (GridView {
                cells: merge_rows(old(self)@.cells),
                score: old(self)@.score + merge_rows_gain(old(self)@.cells),
                ..old(self)@
            }),
    {
        let done = self.try_merge();
        assert(done);
        self
    }

    /// Whether a move in `direction` can be done within 32 bits: every cell of
    /// the board after the move fits, and so does the score after it.
    pub open spec fn fits(&self, direction: MoveDirection) -> bool {
        &&& representable(slide(self@.cells, direction))
        &&& self@.score + slide_gain(self@.cells, direction) <= u32::MAX
    }

    /// Slides every row to the left: pack, merge, pack.
    pub fn move_left(&mut self) -> (grid: &mut Self)
        requires
            old(self).wf(),
            old(self).fits(MoveDirection::Left),
        ensures
            *final(self) == *final(grid),
            grid.wf(),
            grid@ == (GridView {
                cells: reduce_left(old(self)@.cells),
                score: old(self)@.score + reduce_left_gain(old(self)@.cells),
                ..old(self)@
            }),
    {
        proof {
            lemma_steps_keep_square(self@.cells, self@.size);
            lemma_compress_keeps_cells(merge_rows(compress_rows(self@.cells)));
        }
        self.compress().merge().compress()
    }

    /// Makes the move: slides every line of the board towards `direction`
    /// and adds the points of the merged pairs to the score.
    pub fn move_in_dir(&mut self, direction: MoveDirection) -> (grid: &mut Self)
        requires
            old(self).wf(),
            old(self).fits(direction),
        ensures
            *final(self) == *final(grid),
            grid.wf(),
            grid@ == (GridView {
                cells: slide(old(self)@.cells, direction),
                score: old(self)@.score + slide_gain(old(self)@.cells, direction),
                ..old(self)@
            }),
    {
        proof {
            let turned = orient(self@.cells, direction);
            lemma_turns_keep_square(self@.cells, self@.size, direction);
            lemma_steps_keep_square(turned, self@.size);
            lemma_turns_keep_cells(reduce_left(turned), self@.size, direction);
        }
        match direction {
            MoveDirection::Left => {
                self.move_left();
            },
            MoveDirection::Right => {
                self.reverse().move_left().reverse();
            },
            MoveDirection::Up => {
                self.transpose().move_left().transpose();
            },
            MoveDirection::Down => {
                self.transpose().reverse().move_left().reverse().transpose();
            },
        }
        self
    }

    /// Whether a move in `direction` can be done within 32 bits, which is
    /// what `move_in_dir` and `update` ask for.
    pub fn move_fits(&self, direction: MoveDirection) -> (fits: bool)
        requires
            self.wf(),
        ensures
            fits == self.fits(direction),
    {
        let mut trial = self.scratch();
        match direction {
            MoveDirection::Left => {},
            MoveDirection::Right => {
                trial.reverse();
            },
            MoveDirection::Up => {
                trial.transpose();
            },
            MoveDirection::Down => {
                trial.transpose().reverse();
            },
        }
        trial.compress();
        proof {
            lemma_slide_representable(self@.cells, self@.size, direction);
        }
        trial.try_merge()
    }

    /// Whether a move in `direction` would change any cell. The board itself
    /// is not touched: the move is tried on a copy.
    pub fn would_change(&self, direction: MoveDirection) -> (changes: bool)
        requires
            self.wf(),
        ensures
            changes == (slide(self@.cells, direction) != self@.cells),
    {
        if !self.move_fits(direction) {
            proof {
                if slide(self@.cells, direction) == self@.cells {
                    law_unchanged_scores_nothing(self@.cells, self@.size, direction);
                }
            }
            return true;
        }
        let mut trial = self.scratch();
        trial.move_in_dir(direction);
        trial.compare(&self.state)
    }

    /// Whether the board is stuck: no move in any direction would change it.
    pub fn is_deadlocked(&self) -> (deadlocked: bool)
        requires
            self.wf(),
        ensures
            deadlocked == stuck(self@.cells),
    {
        let mut deadlocked = true;
        for k in 0..4usize
            invariant
                self.wf(),
                deadlocked == (forall|d: int|
                    0 <= d < k ==> slide(self@.cells, #[trigger] DIRECTIONS[d]) == self@.cells),
        {
            deadlocked = deadlocked && !self.would_change(DIRECTIONS[k]);
        }
        proof {
            assert(DIRECTIONS[0] == MoveDirection::Up);
            assert(DIRECTIONS[1] == MoveDirection::Left);
            assert(DIRECTIONS[2] == MoveDirection::Down);
            assert(DIRECTIONS[3] == MoveDirection::Right);
        }
        deadlocked
    }

    /// How many cells are empty, counted no further than `limit`.
    pub fn count_vacant(&self, limit: usize) -> (count: usize)
        requires
            self.wf(),
        ensures
            count == if vacant(self@.cells) < limit {
                vacant(self@.cells)
            } else {
                limit as nat
            },
    {
        proof {
            self.lemma_rows();
        }
        let size: usize = self.size;
        let ghost cells = self@.cells;
        let mut count: usize = 0;
        for i in 0..size
            invariant
                size == self.size,
                square_rows(self.state@, size),
                cells == self@.cells,
                is_square(cells, size as nat),
                forall|a: int, b: int|
                    0 <= a < size && 0 <= b < size ==> #[trigger] cells[a][b] == self.state[a][b],
                count <= limit,
                count < limit ==> count == vacant_in_rows(cells, i as int),
                count == limit ==> vacant(cells) >= limit,
        {
            let ghost row = cells[i as int];
            for j in 0..size
                invariant
                    i < size,
                    size == self.size,
                    square_rows(self.state@, size),
                    cells == self@.cells,
                    is_square(cells, size as nat),
                    row == cells[i as int],
                    forall|a: int, b: int|
                        0 <= a < size && 0 <= b < size ==> #[trigger] cells[a][b]
                            == self.state[a][b],
                    count <= limit,
                    count < limit ==> count == vacant_in_rows(cells, i as int) + vacancies(
                        row.take(j as int),
                    ),
                    count == limit ==> vacant(cells) >= limit,
            {
                proof {
                    lemma_front_step(row, j as int);
                    lemma_front_vacancies(row, j + 1);
                    lemma_vacant_grows(cells, i + 1, size as int);
                    assert(row[j as int] == self.state[i as int][j as int]);
                }
                if count < limit && self.state[i][j] == 0 {
                    count += 1;
                }
            }
            proof {
                assert(row.take(size as int) =~= row);
            }
        }
        count
    }

    /// The empty cell that has exactly `rank` empty cells before it, reading
    /// the rows from the top and each row from the left; none where the board
    /// has no more than `rank` empty cells.
    pub fn nth_vacant(&self, rank: usize) -> (cell: Option<(usize, usize)>)
        requires
            self.wf(),
        ensures
            cell is Some <==> rank < vacant(self@.cells),
            cell matches Some((row, column)) ==> {
                &&& row < self@.size
                &&& column < self@.size
                &&& self@.cells[row as int][column as int] == 0
                &&& vacant_in_rows(self@.cells, row as int) + vacancies(
                    self@.cells[row as int].take(column as int),
                ) == rank
            },
    {
        proof {
            self.lemma_rows();
        }
        let size: usize = self.size;
        let ghost cells = self@.cells;
        let mut seen: usize = 0;
        for i in 0..size
            invariant
                size == self.size,
                square_rows(self.state@, size),
                cells == self@.cells,
                is_square(cells, size as nat),
                forall|a: int, b: int|
                    0 <= a < size && 0 <= b < size ==> #[trigger] cells[a][b] == self.state[a][b],
                seen <= rank,
                seen == vacant_in_rows(cells, i as int),
        {
            let ghost row = cells[i as int];
            for j in 0..size
                invariant
                    i < size,
                    size == self.size,
                    square_rows(self.state@, size),
                    cells == self@.cells,
                    is_square(cells, size as nat),
                    row == cells[i as int],
                    forall|a: int, b: int|
                        0 <= a < size && 0 <= b < size ==> #[trigger] cells[a][b]
                            == self.state[a][b],
                    seen <= rank,
                    seen == vacant_in_rows(cells, i as int) + vacancies(row.take(j as int)),
            {
                proof {
                    lemma_front_step(row, j as int);
                    lemma_front_vacancies(row, j + 1);
                    lemma_vacant_grows(cells, i + 1, size as int);
                    assert(row[j as int] == self.state[i as int][j as int]);
                }
                if self.state[i][j] == 0 {
                    if seen == rank {
                        return Some((i, j));
                    }
                    seen += 1;
                }
            }
            proof {
                assert(row.take(size as int) =~= row);
            }
        }
        None
    }

    /// An empty cell, drawn so that each empty cell is as likely as any
    /// other. Cells are drawn blindly, row and column, until an empty one
    /// comes up; after `SPAWN_ATTEMPTS` misses the draw is made among the
    /// empty cells only, so the search always ends.
    fn find_vacant(&self) -> (cell: (usize, usize))
        requires
            self.wf(),
            vacant(self@.cells) > 0,
        ensures
            cell.0 < self@.size,
            cell.1 < self@.size,
            self@.cells[cell.0 as int][cell.1 as int] == 0,
    {
        proof {
            self.lemma_rows();
        }
        for _attempt in 0..SPAWN_ATTEMPTS
            invariant
                self.wf(),
                self.size >= 2,
                square_rows(self.state@, self.size),
                forall|a: int, b: int|
                    0 <= a < self.size && 0 <= b < self.size ==> #[trigger] self@.cells[a][b]
                        == self.state[a][b],
        {
            let row: usize = random_below(self.size);
            let column: usize = random_below(self.size);
            if self.state[row][column] == 0 {
                return (row, column);
            }
        }
        let vacant: usize = self.count_vacant(usize::MAX);
        let rank: usize = random_below(vacant);
        self.nth_vacant(rank).unwrap()
    }

    /// Puts the tile of `roll` into the cell at `row` and `column` if there
    /// is such a cell and it is empty, and says whether it did.
    pub fn spawn_at(&mut self, row: usize, column: usize, roll: usize) -> (placed: bool)
        requires
            old(self).wf(),
        ensures
            final(self).wf(),
            placed == (row < old(self)@.size && column < old(self)@.size && old(
                self,
            )@.cells[row as int][column as int] == 0),
            !placed ==> final(self)@ == old(self)@,
            placed ==> final(self)@ == (GridView {
                cells: old(self)@.cells.update(
                    row as int,
                    old(self)@.cells[row as int].update(column as int, spawn_value(roll as nat)),
                ),
                ..old(self)@
            }),
            placed ==> spawned(old(self)@.cells, final(self)@.cells, 1),
    {
        proof {
            self.lemma_rows();
        }
        if row >= self.size || column >= self.size || self.state[row][column] != 0 {
            return false;
        }
        let tile: u32 = tile_for_roll(roll);
        self.state[row][column] = tile;
        proof {
            let before = old(self)@.cells;
            let after = before.update(row as int, before[row as int].update(column as int, tile as nat));
            assert(self@.cells =~~= after);
            lemma_one_spawn(before, row as int, column as int, tile as nat);
            lemma_values_representable(self.state@);
            assert(is_power_of_two(1)) by {
                reveal_with_fuel(is_power_of_two, 2);
            }
            assert(is_power_of_two(2)) by {
                reveal_with_fuel(is_power_of_two, 3);
            }
            assert(is_power_of_two(4)) by {
                reveal_with_fuel(is_power_of_two, 4);
            }
            assert forall|i: int| 0 <= i < after.len() implies valid_row(#[trigger] after[i]) by {
                assert(valid_row(before[i]));
                assert forall|j: int| 0 <= j < after[i].len() implies valid_cell(
                    #[trigger] after[i][j],
                ) by {
                    if i != row || j != column {
                        assert(after[i][j] == before[i][j]);
                    }
                }
            }
        }
        true
    }

    /// Puts `quantity` new tiles on the board, each into an empty cell drawn
    /// at random, each a 2 nine times in ten and a 4 otherwise. Where the
    /// board has fewer empty cells than that, nothing is put down.
    pub fn add_boxes(&mut self, quantity: u8) -> (outcome: Result<(), GridError>)
        requires
            old(self).wf(),
        ensures
            final(self).wf(),
            final(self)@.size == old(self)@.size,
            final(self)@.score == old(self)@.score,
            final(self)@.deadlocked == old(self)@.deadlocked,
            quantity > vacant(old(self)@.cells) ==> outcome == Err::<(), GridError>(
                GridError::NoSpaceToSpawn,
            ) && final(self)@ == old(self)@,
            quantity <= vacant(old(self)@.cells) ==> outcome is Ok && spawned(
                old(self)@.cells,
                final(self)@.cells,
                quantity as nat,
            ),
    {
        if self.count_vacant(quantity as usize) < quantity as usize {
            return Err(GridError::NoSpaceToSpawn);
        }
        for placed in 0..quantity
            invariant
                self.wf(),
                self@.size == old(self)@.size,
                self@.score == old(self)@.score,
                self@.deadlocked == old(self)@.deadlocked,
                quantity <= vacant(old(self)@.cells),
                spawned(old(self)@.cells, self@.cells, placed as nat),
        {
            let ghost cells = self@.cells;
            let (row, column) = self.find_vacant();
            let roll: usize = random_below(SPAWN_ROLLS);
            let done = self.spawn_at(row, column, roll);
            assert(done);
            proof {
                lemma_spawns_add(old(self)@.cells, cells, self@.cells, placed as nat, 1);
            }
        }
        Ok(())
    }

    /// Starts over: clears the board, the score and the deadlock flag, and
    /// puts two new tiles down.
    pub fn reset(&mut self) -> (grid: &mut Self)
        requires
            old(self).wf(),
        ensures
            *final(self) == *final(grid),
            grid.wf(),
            grid@.size == old(self)@.size,
            grid@.score == 0,
            !grid@.deadlocked,
            spawned(blank_board(old(self)@.size), grid@.cells, 2),
    {
        proof {
            self.lemma_rows();
        }
        self.state = vec![vec![0u32; self.size]; self.size];
        self.score = 0;
        self.deadlocked = false;
        proof {
            let size = self@.size;
            assert(self@.cells =~~= blank_board(size));
            lemma_values_representable(self.state@);
            lemma_tiles_of_blank(size);
            lemma_vacant_grows(self@.cells, 1, size as int);
            assert(vacant_in_rows(self@.cells, 1) == vacant_in_rows(self@.cells, 0) + vacancies(
                self@.cells[0],
            ));
        }
        let outcome = self.add_boxes(2);
        assert(outcome is Ok);
        self
    }

    /// Replaces the cells of the board. The matrix must have the side of the
    /// board, and every cell must hold nothing or a power of two from 2 on;
    /// a matrix that does not is refused, and the board stays as it is.
    pub fn set_state(&mut self, state: Vec<Vec<u32>>) -> (outcome: Result<(), GridError>)
        requires
            old(self).wf(),
        ensures
            final(self).wf(),
            !is_square(matrix_values(state@), old(self)@.size) ==> outcome == Err::<(), GridError>(
                GridError::InvalidSize,
            ),
            is_square(matrix_values(state@), old(self)@.size) && !valid_board(
                matrix_values(state@),
            ) ==> outcome == Err::<(), GridError>(GridError::InvalidTile),
            is_square(matrix_values(state@), old(self)@.size) && valid_board(
                matrix_values(state@),
            ) ==> outcome is Ok,
            outcome is Err ==> final(self)@ == old(self)@,
            outcome is Ok ==> final(self)@ == (GridView {
                cells: matrix_values(state@),
                ..old(self)@
            }),
    {
        let size: usize = self.size;
        let ghost values = matrix_values(state@);
        if state.len() != size {
            return Err(GridError::InvalidSize);
        }
        for i in 0..size
            invariant
                *self == *old(self),
                self.wf(),
                size == self.size,
                state.len() == size,
                values == matrix_values(state@),
                forall|a: int| 0 <= a < i ==> (#[trigger] state[a]).len() == size,
        {
            if state[i].len() != size {
                proof {
                    assert(values[i as int].len() != size);
                }
                return Err(GridError::InvalidSize);
            }
        }
        proof {
            assert forall|a: int| 0 <= a < size implies (#[trigger] values[a]).len() == size by {
                assert(state[a].len() == size);
            }
        }
        for i in 0..size
            invariant
                *self == *old(self),
                self.wf(),
                size == self.size,
                square_rows(state@, size),
                values == matrix_values(state@),
                is_square(values, size as nat),
                forall|a: int| 0 <= a < i ==> valid_row(#[trigger] values[a]),
        {
            for j in 0..size
                invariant
                    *self == *old(self),
                    self.wf(),
                    size == self.size,
                    i < size,
                    square_rows(state@, size),
                    values == matrix_values(state@),
                    is_square(values, size as nat),
                    forall|a: int| 0 <= a < i ==> valid_row(#[trigger] values[a]),
                    forall|b: int| 0 <= b < j ==> valid_cell(#[trigger] values[i as int][b]),
            {
                let value: u32 = state[i][j];
                if value != 0 && !is_tile(value) {
                    proof {
                        assert(!valid_cell(values[i as int][j as int]));
                        assert(!valid_row(values[i as int]));
                    }
                    return Err(GridError::InvalidTile);
                }
            }
        }
        proof {
            lemma_values_representable(state@);
        }
        self.state = state;
        Ok(())
    }

    /// Plays one move. On a board that is marked deadlocked nothing happens.
    /// Otherwise the tiles slide towards `direction`; if that changes any
    /// cell, the points of the merged pairs are added to the score, one new
    /// tile is put down, and the board is marked deadlocked if no further
    /// move could change it. Says whether the move changed the board.
    pub fn update(&mut self, direction: MoveDirection) -> (changed: bool)
        requires
            old(self).wf(),
            old(self)@.deadlocked || old(self).fits(direction),
        ensures
            final(self).wf(),
            changed == (!old(self)@.deadlocked && slide(old(self)@.cells, direction) != old(
                self,
            )@.cells),
            !changed ==> final(self)@ == old(self)@,
            changed ==> {
                &&& final(self)@.size == old(self)@.size
                &&& final(self)@.score == old(self)@.score + slide_gain(
                    old(self)@.cells,
                    direction,
                )
                &&& spawned(slide(old(self)@.cells, direction), final(self)@.cells, 1)
                &&& final(self)@.deadlocked == stuck(final(self)@.cells)
            },
    {
        if self.deadlocked {
            return false;
        }
        proof {
            self.lemma_rows();
        }
        let old_state = self.state.clone();
        proof {
            assert(matrix_values(old_state@) =~~= self@.cells);
        }
        self.move_in_dir(direction);

        let has_changed = self.compare(&old_state);
        if has_changed {
            proof {
                law_changed_leaves_room(old(self)@.cells, old(self)@.size, direction);
            }
            let outcome = self.add_boxes(1);
            assert(outcome is Ok);
            let deadlocked = self.is_deadlocked();
            self.deadlocked = deadlocked;
        } else {
            proof {
                law_unchanged_scores_nothing(old(self)@.cells, old(self)@.size, direction);
            }
            self.state = old_state;
        }
        has_changed
    }

    /// Plays one move as `update` does where the move can be done within 32
    /// bits, and says whether it changed the board; where it cannot, leaves
    /// the board as it is and says nothing.
    pub fn try_update(&mut self, direction: MoveDirection) -> (played: Option<bool>)
        requires
            old(self).wf(),
        ensures
            final(self).wf(),
            played is None <==> !old(self)@.deadlocked && !old(self).fits(direction),
            played is None ==> final(self)@ == old(self)@,
            played matches Some(changed) ==> {
                &&& changed == (!old(self)@.deadlocked && slide(old(self)@.cells, direction)
                    != old(self)@.cells)
                &&& !changed ==> final(self)@ == old(self)@
                &&& changed ==> {
                    &&& final(self)@.size == old(self)@.size
                    &&& final(self)@.score == old(self)@.score + slide_gain(
                        old(self)@.cells,
                        direction,
                    )
                    &&& spawned(slide(old(self)@.cells, direction), final(self)@.cells, 1)
                    &&& final(self)@.deadlocked == stuck(final(self)@.cells)
                }
            },
    {
        if !self.deadlocked && !self.move_fits(direction) {
            return None;
        }
        Some(self.update(direction))
    }
}

} // verus!
