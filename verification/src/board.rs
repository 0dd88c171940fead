//! The board as a square of naturals, and what a move does to it.
//!
//! A move in any direction is the slide of every line towards its front, done
//! on the board turned so that the lines of that direction are its rows, and
//! turned back afterwards.

use crate::enums::MoveDirection;
use crate::line::{
    blank, bounded, compact, compress, has_pair, is_full, lemma_changed_has_vacancy,
    lemma_compact_both_ways, lemma_compress, lemma_compress_bounded, lemma_fill,
    lemma_fixed_scores_nothing, lemma_reduce, lemma_reduce_fixed, lemma_tiles_from_row,
    lemma_tiles_len, lemma_tiles_of_full, merge, merge_gain, mirror, reduce, reduce_gain, tiles, vacancies,
};
use vstd::prelude::*;

verus! {

/// `n` rows of `n` cells each.
pub open spec fn is_square(m: Seq<Seq<nat>>, n: nat) -> bool {
    m.len() == n && forall|i: int| 0 <= i < n ==> (#[trigger] m[i]).len() == n
}

/// The board of side `n` with no tile on it.
pub open spec fn blank_board(n: nat) -> Seq<Seq<nat>> {
    Seq::new(n, |i: int| blank(n))
}

/// Rows become columns: cell `(i, j)` of the result is cell `(j, i)` of `m`.
pub open spec fn transpose(m: Seq<Seq<nat>>) -> Seq<Seq<nat>> {
    Seq::new(m.len(), |i: int| Seq::new(m.len(), |j: int| m[j][i]))
}

/// Every row read from its other end.
pub open spec fn reverse_rows(m: Seq<Seq<nat>>) -> Seq<Seq<nat>> {
    Seq::new(m.len(), |i: int| mirror(m[i]))
}

/// Every row packed to its front.
pub open spec fn compress_rows(m: Seq<Seq<nat>>) -> Seq<Seq<nat>> {
    Seq::new(m.len(), |i: int| compress(m[i]))
}

/// Every row after the merge step.
pub open spec fn merge_rows(m: Seq<Seq<nat>>) -> Seq<Seq<nat>> {
    Seq::new(m.len(), |i: int| merge(m[i]))
}

/// The points that the merge step is worth on the first `n` rows.
pub open spec fn gain_of_rows(m: Seq<Seq<nat>>, n: int) -> nat
    decreases n,
{
    if n <= 0 {
        0
    } else {
        gain_of_rows(m, n - 1) + merge_gain(m[n - 1])
    }
}

/// The points that the merge step is worth on the whole board.
pub open spec fn merge_rows_gain(m: Seq<Seq<nat>>) -> nat {
    gain_of_rows(m, m.len() as int)
}

/// Every row slid to the left: pack, merge, pack.
pub open spec fn reduce_left(m: Seq<Seq<nat>>) -> Seq<Seq<nat>> {
    compress_rows(merge_rows(compress_rows(m)))
}

/// The points that a slide to the left is worth.
pub open spec fn reduce_left_gain(m: Seq<Seq<nat>>) -> nat {
    merge_rows_gain(compress_rows(m))
}

/// The board turned so that a move in `direction` is a slide to the left.
pub open spec fn orient(m: Seq<Seq<nat>>, direction: MoveDirection) -> Seq<Seq<nat>> {
    match direction {
        MoveDirection::Left => m,
        MoveDirection::Right => reverse_rows(m),
        MoveDirection::Up => transpose(m),
        MoveDirection::Down => reverse_rows(transpose(m)),
    }
}

/// The turn that undoes `orient`.
pub open spec fn restore(m: Seq<Seq<nat>>, direction: MoveDirection) -> Seq<Seq<nat>> {
    match direction {
        MoveDirection::Left => m,
        MoveDirection::Right => reverse_rows(m),
        MoveDirection::Up => transpose(m),
        MoveDirection::Down => transpose(reverse_rows(m)),
    }
}

/// The board after a move in `direction`.
pub open spec fn slide(m: Seq<Seq<nat>>, direction: MoveDirection) -> Seq<Seq<nat>> {
    restore(reduce_left(orient(m, direction)), direction)
}

/// The points that a move in `direction` is worth.
pub open spec fn slide_gain(m: Seq<Seq<nat>>, direction: MoveDirection) -> nat {
    reduce_left_gain(orient(m, direction))
}

/// No move in any direction changes the board.
pub open spec fn stuck(m: Seq<Seq<nat>>) -> bool {
    &&& slide(m, MoveDirection::Up) == m
    &&& slide(m, MoveDirection::Left) == m
    &&& slide(m, MoveDirection::Down) == m
    &&& slide(m, MoveDirection::Right) == m
}

/// How many cells of the first `n` rows are empty.
pub open spec fn vacant_in_rows(m: Seq<Seq<nat>>, n: int) -> nat
    decreases n,
{
    if n <= 0 {
        0
    } else {
        vacant_in_rows(m, n - 1) + vacancies(m[n - 1])
    }
}

/// How many cells of the board are empty.
pub open spec fn vacant(m: Seq<Seq<nat>>) -> nat {
    vacant_in_rows(m, m.len() as int)
}

/// Some cell of the board is empty.
pub open spec fn has_vacancy(m: Seq<Seq<nat>>) -> bool {
    exists|i: int, j: int| 0 <= i < m.len() && 0 <= j < m[i].len() && #[trigger] m[i][j] == 0
}

/// Some cell of the board holds a tile.
pub open spec fn has_tile(m: Seq<Seq<nat>>) -> bool {
    exists|i: int, j: int| 0 <= i < m.len() && 0 <= j < m[i].len() && #[trigger] m[i][j] != 0
}

/// No cell holds the same value as the cell to its right or the cell below it.
pub open spec fn no_equal_neighbours(m: Seq<Seq<nat>>) -> bool {
    forall|i: int, j: int|
        0 <= i < m.len() && 0 <= j < m.len() ==> {
            &&& j + 1 < m.len() ==> #[trigger] m[i][j] != m[i][j + 1]
            &&& i + 1 < m.len() ==> m[i][j] != m[i + 1][j]
        }
}

/// Every cell fits in 32 bits.
pub open spec fn representable(m: Seq<Seq<nat>>) -> bool {
    forall|i: int| 0 <= i < m.len() ==> bounded(#[trigger] m[i], u32::MAX as nat)
}

/// One, two, four, eight and so on.
pub open spec fn is_power_of_two(v: nat) -> bool
    decreases v,
{
    v == 1 || (v >= 2 && v % 2 == 0 && is_power_of_two(v / 2))
}

/// What a cell may hold: nothing, or a tile worth a power of two from 2 on.
pub open spec fn valid_cell(v: nat) -> bool {
    v == 0 || (v >= 2 && is_power_of_two(v))
}

/// Every cell of the line holds what a cell may hold.
pub open spec fn valid_row(row: Seq<nat>) -> bool {
    forall|j: int| 0 <= j < row.len() ==> valid_cell(#[trigger] row[j])
}

/// Every cell of the board holds what a cell may hold.
pub open spec fn valid_board(m: Seq<Seq<nat>>) -> bool {
    forall|i: int| 0 <= i < m.len() ==> valid_row(#[trigger] m[i])
}

/// `after` is `before` with `count` of its empty cells filled, each with a 2
/// or a 4, and nothing else touched.
pub open spec fn spawned(before: Seq<Seq<nat>>, after: Seq<Seq<nat>>, count: nat) -> bool {
    &&& after.len() == before.len()
    &&& forall|i: int| 0 <= i < before.len() ==> (#[trigger] after[i]).len() == before[i].len()
    &&& forall|i: int, j: int|
        0 <= i < before.len() && 0 <= j < before[i].len() ==> {
            ||| #[trigger] after[i][j] == before[i][j]
            ||| before[i][j] == 0 && (after[i][j] == 2 || after[i][j] == 4)
        }
    &&& vacant(after) + count == vacant(before)
}

/// Turning a square board leaves it square.
pub proof fn lemma_turns_keep_square(m: Seq<Seq<nat>>, n: nat, direction: MoveDirection)
    requires
        is_square(m, n),
    ensures
        is_square(transpose(m), n),
        is_square(reverse_rows(m), n),
        is_square(orient(m, direction), n),
        is_square(restore(m, direction), n),
{
    assert(is_square(transpose(m), n));
    assert(is_square(reverse_rows(m), n));
    assert(is_square(reverse_rows(transpose(m)), n));
    assert(is_square(transpose(reverse_rows(m)), n));
}

/// Packing, merging and sliding leave a square board square.
pub proof fn lemma_steps_keep_square(m: Seq<Seq<nat>>, n: nat)
    requires
        is_square(m, n),
    ensures
        is_square(compress_rows(m), n),
        is_square(merge_rows(m), n),
        is_square(reduce_left(m), n),
        forall|i: int| 0 <= i < n ==> #[trigger] reduce_left(m)[i] == reduce(m[i]),
{
    assert forall|i: int| 0 <= i < n implies (#[trigger] compress_rows(m)[i]).len() == n by {
        lemma_compress(m[i]);
    }
    assert forall|i: int| 0 <= i < n implies (#[trigger] reduce_left(m)[i]).len() == n by {
        lemma_reduce(m[i]);
    }
}

/// Transposing a square board twice gives the board back.
pub proof fn law_transpose_twice(m: Seq<Seq<nat>>, n: nat)
    requires
        is_square(m, n),
    ensures
        transpose(transpose(m)) == m,
{
    let back = transpose(transpose(m));
    assert forall|i: int| 0 <= i < n implies #[trigger] back[i] == m[i] by {
        assert(back[i] =~= m[i]);
    }
    assert(back =~= m);
}

/// Reversing the rows of a board twice gives the board back.
pub proof fn law_reverse_twice(m: Seq<Seq<nat>>)
    ensures
        reverse_rows(reverse_rows(m)) == m,
{
    let back = reverse_rows(reverse_rows(m));
    assert forall|i: int| 0 <= i < m.len() implies #[trigger] back[i] == m[i] by {
        assert(back[i] =~= m[i]);
    }
    assert(back =~= m);
}

/// Turning a square board for a direction and turning it back, in either
/// order, gives the board back.
pub proof fn law_turn_and_back(m: Seq<Seq<nat>>, n: nat, direction: MoveDirection)
    requires
        is_square(m, n),
    ensures
        restore(orient(m, direction), direction) == m,
        orient(restore(m, direction), direction) == m,
{
    lemma_turns_keep_square(m, n, direction);
    law_transpose_twice(m, n);
    law_reverse_twice(m);
    law_reverse_twice(transpose(m));
    lemma_turns_keep_square(reverse_rows(m), n, direction);
    law_transpose_twice(reverse_rows(m), n);
}

/// A move leaves the board as it is exactly when the slide leaves every line
/// of that direction as it is.
pub proof fn lemma_slide_fixed(m: Seq<Seq<nat>>, n: nat, direction: MoveDirection)
    requires
        is_square(m, n),
    ensures
        is_square(slide(m, direction), n),
        orient(slide(m, direction), direction) == reduce_left(orient(m, direction)),
        slide(m, direction) == m <==> reduce_left(orient(m, direction)) == orient(m, direction),
        slide(m, direction) == m <==> forall|i: int|
            0 <= i < n ==> reduce(#[trigger] orient(m, direction)[i]) == orient(m, direction)[i],
{
    let turned = orient(m, direction);
    lemma_turns_keep_square(m, n, direction);
    lemma_steps_keep_square(turned, n);
    let slid = reduce_left(turned);
    lemma_turns_keep_square(slid, n, direction);
    law_turn_and_back(slid, n, direction);
    law_turn_and_back(m, n, direction);
    if forall|i: int| 0 <= i < n ==> reduce(#[trigger] turned[i]) == turned[i] {
        assert(slid =~= turned);
    }
}

/// A second move in the same direction changes nothing, and scores nothing,
/// exactly when the first one left no two equal neighbouring tiles in any
/// line of that direction. Where it left such a pair, as in the row 2 2 4
/// moved left, the second move merges it.
pub proof fn law_second_slide(m: Seq<Seq<nat>>, n: nat, direction: MoveDirection)
    requires
        is_square(m, n),
    ensures
        slide(slide(m, direction), direction) == slide(m, direction) <==> forall|i: int|
            0 <= i < n ==> !has_pair(#[trigger] orient(slide(m, direction), direction)[i]),
        slide(slide(m, direction), direction) == slide(m, direction) ==> slide_gain(
            slide(m, direction),
            direction,
        ) == 0,
{
    let once = slide(m, direction);
    lemma_slide_fixed(m, n, direction);
    lemma_slide_fixed(once, n, direction);
    let turned = orient(m, direction);
    let lines = orient(once, direction);
    lemma_turns_keep_square(m, n, direction);
    lemma_steps_keep_square(turned, n);
    assert forall|i: int| 0 <= i < n implies (reduce(#[trigger] lines[i]) == lines[i] <==> !has_pair(
        lines[i],
    )) by {
        assert(lines[i] == reduce(turned[i]));
        lemma_reduce(turned[i]);
        lemma_reduce_fixed(lines[i]);
    }
    if slide(once, direction) == once {
        law_unchanged_scores_nothing(once, n, direction);
    }
}

/// A move that leaves the board as it is scores nothing.
pub proof fn law_unchanged_scores_nothing(m: Seq<Seq<nat>>, n: nat, direction: MoveDirection)
    requires
        is_square(m, n),
        slide(m, direction) == m,
    ensures
        slide_gain(m, direction) == 0,
{
    let turned = orient(m, direction);
    lemma_slide_fixed(m, n, direction);
    lemma_turns_keep_square(m, n, direction);
    assert forall|i: int| 0 <= i < n implies reduce_gain(#[trigger] turned[i]) == 0 by {
        lemma_fixed_scores_nothing(turned[i]);
    }
    lemma_no_gain(compress_rows(turned), n as int);
}

/// Rows that are worth nothing each are worth nothing together.
proof fn lemma_no_gain(m: Seq<Seq<nat>>, n: int)
    requires
        0 <= n <= m.len(),
        forall|i: int| 0 <= i < n ==> merge_gain(#[trigger] m[i]) == 0,
    ensures
        gain_of_rows(m, n) == 0,
    decreases n,
{
    if n > 0 {
        lemma_no_gain(m, n - 1);
    }
}

/// The points only grow from row to row.
pub proof fn lemma_gain_grows(m: Seq<Seq<nat>>, n: int, upto: int)
    requires
        n <= upto,
    ensures
        gain_of_rows(m, n) <= gain_of_rows(m, upto),
    decreases upto - n,
{
    if n < upto {
        lemma_gain_grows(m, n, upto - 1);
    }
}

/// The count of empty cells only grows from row to row.
pub proof fn lemma_vacant_grows(m: Seq<Seq<nat>>, n: int, upto: int)
    requires
        n <= upto,
    ensures
        vacant_in_rows(m, n) <= vacant_in_rows(m, upto),
    decreases upto - n,
{
    if n < upto {
        lemma_vacant_grows(m, n, upto - 1);
    }
}

/// A board has an empty cell exactly when its count of empty cells is not zero.
pub proof fn lemma_vacancy_counts(m: Seq<Seq<nat>>)
    ensures
        has_vacancy(m) <==> vacant(m) > 0,
{
    if has_vacancy(m) {
        let (i, j) = choose|i: int, j: int|
            0 <= i < m.len() && 0 <= j < m[i].len() && #[trigger] m[i][j] == 0;
        lemma_tiles_of_full(m[i]);
        lemma_tiles_len(m[i]);
        assert(!is_full(m[i]));
        lemma_vacant_grows(m, i + 1, m.len() as int);
    }
    if vacant(m) > 0 {
        lemma_some_row_has_room(m, m.len() as int);
        let i = choose|i: int| 0 <= i < m.len() && vacancies(#[trigger] m[i]) > 0;
        lemma_tiles_of_full(m[i]);
        let j = choose|j: int| 0 <= j < m[i].len() && !(#[trigger] m[i][j] != 0);
        assert(m[i][j] == 0);
    }
}

/// Where empty cells are counted, some row has one.
proof fn lemma_some_row_has_room(m: Seq<Seq<nat>>, n: int)
    requires
        0 <= n <= m.len(),
        vacant_in_rows(m, n) > 0,
    ensures
        exists|i: int| 0 <= i < n && vacancies(#[trigger] m[i]) > 0,
    decreases n,
{
    if vacancies(m[n - 1]) == 0 {
        lemma_some_row_has_room(m, n - 1);
        let i = choose|i: int| 0 <= i < n - 1 && vacancies(#[trigger] m[i]) > 0;
        assert(vacancies(m[i]) > 0);
    }
}

/// A move that changes the board leaves an empty cell on it.
pub proof fn law_changed_leaves_room(m: Seq<Seq<nat>>, n: nat, direction: MoveDirection)
    requires
        is_square(m, n),
        slide(m, direction) != m,
    ensures
        has_vacancy(slide(m, direction)),
        vacant(slide(m, direction)) > 0,
{
    let turned = orient(m, direction);
    let slid = reduce_left(turned);
    let moved = slide(m, direction);
    lemma_slide_fixed(m, n, direction);
    lemma_turns_keep_square(m, n, direction);
    lemma_steps_keep_square(turned, n);
    lemma_turns_keep_square(slid, n, direction);
    let i = choose|i: int| 0 <= i < n && reduce(#[trigger] turned[i]) != turned[i];
    lemma_changed_has_vacancy(turned[i]);
    lemma_reduce(turned[i]);
    let j = choose|j: int| 0 <= j < n && !(#[trigger] slid[i][j] != 0);
    assert(slid[i][j] == 0);
    match direction {
        MoveDirection::Left => {
            assert(moved[i][j] == 0);
        },
        MoveDirection::Right => {
            assert(moved[i][n - 1 - j] == 0);
        },
        MoveDirection::Up => {
            assert(moved[j][i] == 0);
        },
        MoveDirection::Down => {
            assert(moved[n - 1 - j][i] == 0);
        },
    }
    lemma_vacancy_counts(moved);
}

/// A full board on which no two neighbours are equal is stuck.
pub proof fn law_blocked_board_is_stuck(m: Seq<Seq<nat>>, n: nat)
    requires
        is_square(m, n),
        !has_vacancy(m),
        no_equal_neighbours(m),
    ensures
        stuck(m),
{
    lemma_blocked_direction(m, n, MoveDirection::Up);
    lemma_blocked_direction(m, n, MoveDirection::Left);
    lemma_blocked_direction(m, n, MoveDirection::Down);
    lemma_blocked_direction(m, n, MoveDirection::Right);
}

/// On a full board without equal neighbours no line moves, whichever way it
/// is read.
proof fn lemma_blocked_direction(m: Seq<Seq<nat>>, n: nat, direction: MoveDirection)
    requires
        is_square(m, n),
        !has_vacancy(m),
        no_equal_neighbours(m),
    ensures
        slide(m, direction) == m,
{
    let turned = orient(m, direction);
    lemma_slide_fixed(m, n, direction);
    lemma_turns_keep_square(m, n, direction);
    assert forall|i: int| 0 <= i < n implies reduce(#[trigger] turned[i]) == turned[i] by {
        let row = turned[i];
        assert forall|j: int| 0 <= j < n implies #[trigger] row[j] != 0 && (j + 1 < n ==> row[j]
            != row[j + 1]) by {
            match direction {
                MoveDirection::Left => {
                    assert(m[i][j] != 0);
                },
                MoveDirection::Right => {
                    assert(m[i][n - 1 - j] != 0);
                    if j + 1 < n {
                        assert(m[i][n - 2 - j] != m[i][n - 2 - j + 1]);
                    }
                },
                MoveDirection::Up => {
                    assert(m[j][i] != 0);
                },
                MoveDirection::Down => {
                    assert(m[n - 1 - j][i] != 0);
                    if j + 1 < n {
                        assert(m[n - 2 - j][i] != m[n - 2 - j + 1][i]);
                    }
                },
            }
        }
        assert(is_full(row));
        assert(compact(row));
        assert(!has_pair(row));
        lemma_reduce_fixed(row);
    }
}

/// A board with both a tile and an empty cell on it is not stuck.
pub proof fn law_room_means_move(m: Seq<Seq<nat>>, n: nat)
    requires
        is_square(m, n),
        has_vacancy(m),
        has_tile(m),
    ensures
        !stuck(m),
{
    let (vi, vj) = choose|i: int, j: int|
        0 <= i < m.len() && 0 <= j < m[i].len() && #[trigger] m[i][j] == 0;
    let (ti, tj) = choose|i: int, j: int|
        0 <= i < m.len() && 0 <= j < m[i].len() && #[trigger] m[i][j] != 0;
    if stuck(m) {
        lemma_slide_fixed(m, n, MoveDirection::Up);
        lemma_slide_fixed(m, n, MoveDirection::Left);
        lemma_slide_fixed(m, n, MoveDirection::Down);
        lemma_slide_fixed(m, n, MoveDirection::Right);
        lemma_turns_keep_square(m, n, MoveDirection::Up);
        if m[vi][tj] == 0 {
            let column = transpose(m)[tj];
            let upside = reverse_rows(transpose(m))[tj];
            assert(upside =~= mirror(column));
            lemma_reduce_fixed(column);
            lemma_reduce_fixed(upside);
            assert(column[vi] == 0);
            lemma_compact_both_ways(column, vi, ti);
            assert(column[ti] == m[ti][tj]);
        } else {
            let row = m[vi];
            let back = reverse_rows(m)[vi];
            lemma_reduce_fixed(row);
            lemma_reduce_fixed(back);
            lemma_compact_both_ways(row, vj, tj);
        }
    }
}

/// A board without a tile is stuck: there is nothing to move.
pub proof fn law_bare_board_is_stuck(m: Seq<Seq<nat>>, n: nat)
    requires
        is_square(m, n),
        !has_tile(m),
    ensures
        stuck(m),
{
    lemma_bare_direction(m, n, MoveDirection::Up);
    lemma_bare_direction(m, n, MoveDirection::Left);
    lemma_bare_direction(m, n, MoveDirection::Down);
    lemma_bare_direction(m, n, MoveDirection::Right);
}

/// On a board without a tile no line moves.
proof fn lemma_bare_direction(m: Seq<Seq<nat>>, n: nat, direction: MoveDirection)
    requires
        is_square(m, n),
        !has_tile(m),
    ensures
        slide(m, direction) == m,
{
    let turned = orient(m, direction);
    lemma_slide_fixed(m, n, direction);
    lemma_turns_keep_square(m, n, direction);
    assert forall|i: int| 0 <= i < n implies reduce(#[trigger] turned[i]) == turned[i] by {
        let row = turned[i];
        assert forall|j: int| 0 <= j < n implies #[trigger] row[j] == 0 by {
            match direction {
                MoveDirection::Left => {
                    assert(!(m[i][j] != 0));
                },
                MoveDirection::Right => {
                    assert(!(m[i][n - 1 - j] != 0));
                },
                MoveDirection::Up => {
                    assert(!(m[j][i] != 0));
                },
                MoveDirection::Down => {
                    assert(!(m[n - 1 - j][i] != 0));
                },
            }
        }
        assert(compact(row));
        assert(!has_pair(row));
        lemma_reduce_fixed(row);
    }
}

/// A board on which two neighbouring tiles are equal is not stuck.
pub proof fn law_equal_neighbours_mean_move(m: Seq<Seq<nat>>, n: nat)
    requires
        is_square(m, n),
        !has_vacancy(m),
        !no_equal_neighbours(m),
    ensures
        !stuck(m),
{
    let (i, j) = choose|i: int, j: int|
        0 <= i < m.len() && 0 <= j < m.len() && !({
            &&& j + 1 < m.len() ==> #[trigger] m[i][j] != m[i][j + 1]
            &&& i + 1 < m.len() ==> m[i][j] != m[i + 1][j]
        });
    assert(m[i][j] != 0);
    if j + 1 < n && m[i][j] == m[i][j + 1] {
        let row = m[i];
        assert(row[j] != 0 && row[j] == row[j + 1]);
        assert(has_pair(row));
        lemma_reduce_fixed(row);
        lemma_slide_fixed(m, n, MoveDirection::Left);
    } else {
        let column = transpose(m)[j];
        assert(column[i] != 0 && column[i] == column[i + 1]);
        assert(has_pair(column));
        lemma_reduce_fixed(column);
        lemma_slide_fixed(m, n, MoveDirection::Up);
    }
}

/// Which boards are stuck: those without a tile, and the full ones on which
/// no two neighbours are equal.
pub proof fn law_stuck_boards(m: Seq<Seq<nat>>, n: nat)
    requires
        is_square(m, n),
    ensures
        stuck(m) <==> !has_tile(m) || (!has_vacancy(m) && no_equal_neighbours(m)),
{
    if !has_tile(m) {
        law_bare_board_is_stuck(m, n);
    } else if has_vacancy(m) {
        law_room_means_move(m, n);
    } else if no_equal_neighbours(m) {
        law_blocked_board_is_stuck(m, n);
    } else {
        law_equal_neighbours_mean_move(m, n);
    }
}

/// Turning a board neither adds a value nor takes one away.
pub proof fn lemma_turns_keep_cells(m: Seq<Seq<nat>>, n: nat, direction: MoveDirection)
    requires
        is_square(m, n),
    ensures
        representable(orient(m, direction)) <==> representable(m),
        representable(restore(m, direction)) <==> representable(m),
        valid_board(m) ==> valid_board(transpose(m)) && valid_board(reverse_rows(m)),
        valid_board(m) ==> valid_board(orient(m, direction)) && valid_board(
            restore(m, direction),
        ),
{
    lemma_transpose_keeps_cells(m, n);
    lemma_reverse_keeps_cells(m, n);
    lemma_turns_keep_square(m, n, direction);
    lemma_reverse_keeps_cells(transpose(m), n);
    lemma_transpose_keeps_cells(reverse_rows(m), n);
}

/// Transposing moves the cells about and changes none.
proof fn lemma_transpose_keeps_cells(m: Seq<Seq<nat>>, n: nat)
    requires
        is_square(m, n),
    ensures
        representable(transpose(m)) <==> representable(m),
        valid_board(m) ==> valid_board(transpose(m)),
{
    let t = transpose(m);
    if representable(m) {
        assert forall|i: int| 0 <= i < n implies bounded(#[trigger] t[i], u32::MAX as nat) by {
            assert forall|j: int| 0 <= j < n implies #[trigger] t[i][j] <= u32::MAX by {
                assert(bounded(m[j], u32::MAX as nat));
                assert(m[j][i] <= u32::MAX);
            }
        }
    }
    if representable(t) {
        assert forall|i: int| 0 <= i < n implies bounded(#[trigger] m[i], u32::MAX as nat) by {
            assert forall|j: int| 0 <= j < n implies #[trigger] m[i][j] <= u32::MAX by {
                assert(bounded(t[j], u32::MAX as nat));
                assert(t[j][i] <= u32::MAX);
            }
        }
    }
    if valid_board(m) {
        assert forall|i: int| 0 <= i < n implies valid_row(#[trigger] t[i]) by {
            assert forall|j: int| 0 <= j < n implies valid_cell(#[trigger] t[i][j]) by {
                assert(valid_row(m[j]));
                assert(valid_cell(m[j][i]));
            }
        }
    }
}

/// Reversing the rows moves the cells about and changes none.
proof fn lemma_reverse_keeps_cells(m: Seq<Seq<nat>>, n: nat)
    requires
        is_square(m, n),
    ensures
        representable(reverse_rows(m)) <==> representable(m),
        valid_board(m) ==> valid_board(reverse_rows(m)),
{
    let r = reverse_rows(m);
    if representable(m) {
        assert forall|i: int| 0 <= i < n implies bounded(#[trigger] r[i], u32::MAX as nat) by {
            assert(bounded(m[i], u32::MAX as nat));
            assert forall|j: int| 0 <= j < n implies #[trigger] r[i][j] <= u32::MAX by {
                assert(m[i][n - 1 - j] <= u32::MAX);
            }
        }
    }
    if representable(r) {
        assert forall|i: int| 0 <= i < n implies bounded(#[trigger] m[i], u32::MAX as nat) by {
            assert(bounded(r[i], u32::MAX as nat));
            assert forall|j: int| 0 <= j < n implies #[trigger] m[i][j] <= u32::MAX by {
                assert(r[i][n - 1 - j] <= u32::MAX);
            }
        }
    }
    if valid_board(m) {
        assert forall|i: int| 0 <= i < n implies valid_row(#[trigger] r[i]) by {
            assert(valid_row(m[i]));
            assert forall|j: int| 0 <= j < n implies valid_cell(#[trigger] r[i][j]) by {
                assert(valid_cell(m[i][n - 1 - j]));
            }
        }
    }
}

/// Packing the rows neither adds a value nor takes a tile away.
pub proof fn lemma_compress_keeps_cells(m: Seq<Seq<nat>>)
    ensures
        representable(compress_rows(m)) <==> representable(m),
        valid_board(m) ==> valid_board(compress_rows(m)),
{
    let packed = compress_rows(m);
    assert forall|i: int| 0 <= i < m.len() implies (bounded(
        #[trigger] packed[i],
        u32::MAX as nat,
    ) <==> bounded(m[i], u32::MAX as nat)) by {
        lemma_compress_bounded(m[i], u32::MAX as nat);
    }
    if representable(packed) {
        assert forall|i: int| 0 <= i < m.len() implies bounded(#[trigger] m[i], u32::MAX as nat) by {
            assert(bounded(packed[i], u32::MAX as nat));
        }
    }
    if valid_board(m) {
        assert forall|i: int| 0 <= i < m.len() implies valid_row(#[trigger] packed[i]) by {
            lemma_compress_valid(m[i]);
        }
    }
}

/// Packing a line of valid cells leaves valid cells.
proof fn lemma_compress_valid(row: Seq<nat>)
    requires
        valid_row(row),
    ensures
        valid_row(compress(row)),
{
    lemma_compress(row);
    lemma_tiles_from_row(row);
    lemma_tiles_len(row);
    let packed = compress(row);
    assert forall|j: int| 0 <= j < packed.len() implies valid_cell(#[trigger] packed[j]) by {
        if j < tiles(row).len() {
            assert(row.contains(tiles(row)[j]));
            let k = choose|k: int| 0 <= k < row.len() && row[k] == tiles(row)[j];
            assert(valid_cell(row[k]));
        }
    }
}

/// The merge step leaves on a valid board only what a cell may hold.
pub proof fn lemma_merge_keeps_valid(m: Seq<Seq<nat>>)
    requires
        valid_board(m),
    ensures
        valid_board(merge_rows(m)),
{
    let merged = merge_rows(m);
    assert forall|i: int| 0 <= i < m.len() implies valid_row(#[trigger] merged[i]) by {
        assert(valid_row(m[i]));
        assert forall|j: int| 0 <= j < m[i].len() implies valid_cell(#[trigger] merged[i][j]) by {
            let v = m[i][j];
            assert(valid_cell(v));
            if v != 0 {
                assert((2 * v) / 2 == v);
                assert(is_power_of_two(2 * v));
            }
        }
    }
}

/// A move keeps a board what it is: a square whose cells hold nothing or a
/// power of two from 2 on.
pub proof fn law_slide_keeps_valid(m: Seq<Seq<nat>>, n: nat, direction: MoveDirection)
    requires
        is_square(m, n),
        valid_board(m),
    ensures
        is_square(slide(m, direction), n),
        valid_board(slide(m, direction)),
{
    let turned = orient(m, direction);
    lemma_turns_keep_square(m, n, direction);
    lemma_turns_keep_cells(m, n, direction);
    lemma_steps_keep_square(turned, n);
    let packed = compress_rows(turned);
    lemma_compress_keeps_cells(turned);
    lemma_merge_keeps_valid(packed);
    lemma_compress_keeps_cells(merge_rows(packed));
    lemma_turns_keep_square(reduce_left(turned), n, direction);
    lemma_turns_keep_cells(reduce_left(turned), n, direction);
}

/// The result of a move fits in 32 bits exactly when the result of its merge
/// step does.
pub proof fn lemma_slide_representable(m: Seq<Seq<nat>>, n: nat, direction: MoveDirection)
    requires
        is_square(m, n),
    ensures
        representable(slide(m, direction)) <==> representable(
            merge_rows(compress_rows(orient(m, direction))),
        ),
{
    let turned = orient(m, direction);
    lemma_turns_keep_square(m, n, direction);
    lemma_steps_keep_square(turned, n);
    let merged = merge_rows(compress_rows(turned));
    lemma_compress_keeps_cells(merged);
    lemma_turns_keep_cells(reduce_left(turned), n, direction);
}

/// Filling one empty cell of a board with a 2 or a 4 is a spawn of one tile.
pub proof fn lemma_one_spawn(m: Seq<Seq<nat>>, row: int, column: int, tile: nat)
    requires
        0 <= row < m.len(),
        0 <= column < m[row].len(),
        m[row][column] == 0,
        tile == 2 || tile == 4,
    ensures
        spawned(m, m.update(row, m[row].update(column, tile)), 1),
{
    let after = m.update(row, m[row].update(column, tile));
    lemma_fill(m[row], column, tile);
    lemma_filled_rows(m, row, column, tile, m.len() as int);
}

/// Filling a cell takes one vacancy from the rows counted, if its row is
/// among them.
proof fn lemma_filled_rows(m: Seq<Seq<nat>>, row: int, column: int, tile: nat, n: int)
    requires
        0 <= row < m.len(),
        0 <= column < m[row].len(),
        0 <= n <= m.len(),
        vacancies(m[row].update(column, tile)) + 1 == vacancies(m[row]),
    ensures
        vacant_in_rows(m.update(row, m[row].update(column, tile)), n) + (if row < n {
            1nat
        } else {
            0nat
        }) == vacant_in_rows(m, n),
    decreases n,
{
    if n > 0 {
        lemma_filled_rows(m, row, column, tile, n - 1);
    }
}

/// Spawns add up: `first` tiles and then `second` more are `first + second`.
pub proof fn lemma_spawns_add(
    a: Seq<Seq<nat>>,
    b: Seq<Seq<nat>>,
    c: Seq<Seq<nat>>,
    first: nat,
    second: nat,
)
    requires
        spawned(a, b, first),
        spawned(b, c, second),
    ensures
        spawned(a, c, first + second),
{
    assert forall|i: int| 0 <= i < a.len() implies (#[trigger] c[i]).len() == a[i].len() by {
        assert(b[i].len() == a[i].len());
    }
    assert forall|i: int, j: int| 0 <= i < a.len() && 0 <= j < a[i].len() implies {
        ||| #[trigger] c[i][j] == a[i][j]
        ||| a[i][j] == 0 && (c[i][j] == 2 || c[i][j] == 4)
    } by {
        assert(b[i].len() == a[i].len());
        assert(b[i][j] == a[i][j] || (a[i][j] == 0 && (b[i][j] == 2 || b[i][j] == 4)));
        assert(c[i][j] == b[i][j] || (b[i][j] == 0 && (c[i][j] == 2 || c[i][j] == 4)));
    }
}

} // verus!
