//! One line of the board, read from the side the tiles slide towards.
//!
//! A line is a sequence of naturals: `0` is an empty cell, anything else is a
//! tile. Sliding a line is three steps: pack the tiles to the front, merge
//! equal neighbours once from the front, pack again.

use vstd::prelude::*;

verus! {

/// A line of `n` empty cells.
pub open spec fn blank(n: nat) -> Seq<nat> {
    Seq::new(n, |i: int| 0nat)
}

/// The tiles of a line in their order, the empty cells left out.
pub open spec fn tiles(row: Seq<nat>) -> Seq<nat>
    decreases row.len(),
{
    if row.len() == 0 {
        Seq::empty()
    } else if row.last() == 0 {
        tiles(row.drop_last())
    } else {
        tiles(row.drop_last()).push(row.last())
    }
}

/// The line read from its other end.
pub open spec fn mirror(row: Seq<nat>) -> Seq<nat> {
    Seq::new(row.len(), |j: int| row[row.len() - 1 - j])
}

/// How many cells of a line are empty.
pub open spec fn vacancies(row: Seq<nat>) -> nat {
    (row.len() - tiles(row).len()) as nat
}

/// The line with its tiles packed to the front and the empty cells behind them.
pub open spec fn compress(row: Seq<nat>) -> Seq<nat> {
    tiles(row) + blank(vacancies(row))
}

/// Whether the cell at `j` is the first of a pair that merges: it holds a tile,
/// the next cell holds the same tile, and it is not itself the second of a pair.
pub open spec fn pair_starts(row: Seq<nat>, j: int) -> bool
    decreases j + 1,
{
    if j < 0 || j + 1 >= row.len() {
        false
    } else {
        row[j] != 0 && row[j] == row[j + 1] && !pair_starts(row, j - 1)
    }
}

/// What the merge step leaves in cell `j`: nothing where a pair starts, the
/// doubled tile where it ends, the old content elsewhere.
pub open spec fn merged_cell(row: Seq<nat>, j: int) -> nat {
    if pair_starts(row, j) {
        0
    } else if pair_starts(row, j - 1) {
        2 * row[j]
    } else {
        row[j]
    }
}

/// The line after the merge step.
pub open spec fn merge(row: Seq<nat>) -> Seq<nat> {
    Seq::new(row.len(), |j: int| merged_cell(row, j))
}

/// The points that the pairs ending before cell `n` are worth: each pair
/// counts for the doubled tile it leaves.
pub open spec fn gain_before(row: Seq<nat>, n: int) -> nat
    decreases n,
{
    if n <= 0 {
        0
    } else if pair_starts(row, n - 2) {
        gain_before(row, n - 1) + 2 * row[n - 1]
    } else {
        gain_before(row, n - 1)
    }
}

/// The points that merging the whole line is worth.
pub open spec fn merge_gain(row: Seq<nat>) -> nat {
    gain_before(row, row.len() as int)
}

/// How many pairs start before cell `n`.
pub open spec fn pairs_before(row: Seq<nat>, n: int) -> nat
    decreases n,
{
    if n <= 0 {
        0
    } else if pair_starts(row, n - 1) {
        pairs_before(row, n - 1) + 1
    } else {
        pairs_before(row, n - 1)
    }
}

/// The line after a slide towards its front: pack, merge, pack.
pub open spec fn reduce(row: Seq<nat>) -> Seq<nat> {
    compress(merge(compress(row)))
}

/// The points that a slide of the line is worth.
pub open spec fn reduce_gain(row: Seq<nat>) -> nat {
    merge_gain(compress(row))
}

/// A run of tiles with equal neighbours merged once, from the front: two
/// equal tiles at the front become one of twice their worth, and the search
/// goes on behind them.
pub open spec fn combine(run: Seq<nat>) -> Seq<nat>
    decreases run.len(),
{
    if run.len() < 2 {
        run
    } else if run[0] == run[1] {
        seq![2 * run[0]] + combine(run.skip(2))
    } else {
        seq![run[0]] + combine(run.skip(1))
    }
}

/// The points that `combine` is worth: the doubled tile of every pair.
pub open spec fn combine_gain(run: Seq<nat>) -> nat
    decreases run.len(),
{
    if run.len() < 2 {
        0
    } else if run[0] == run[1] {
        2 * run[0] + combine_gain(run.skip(2))
    } else {
        combine_gain(run.skip(1))
    }
}

/// No empty cell stands in front of a tile.
pub open spec fn compact(row: Seq<nat>) -> bool {
    forall|i: int, j: int| 0 <= i < j < row.len() && row[i] == 0 ==> row[j] == 0
}

/// Two neighbouring cells hold the same tile.
pub open spec fn has_pair(row: Seq<nat>) -> bool {
    exists|j: int| 0 <= j && j + 1 < row.len() && #[trigger] row[j] != 0 && row[j] == row[j + 1]
}

/// Every cell holds a tile.
pub open spec fn is_full(row: Seq<nat>) -> bool {
    forall|j: int| 0 <= j < row.len() ==> #[trigger] row[j] != 0
}

/// Every cell is at most `bound`.
pub open spec fn bounded(row: Seq<nat>, bound: nat) -> bool {
    forall|j: int| 0 <= j < row.len() ==> #[trigger] row[j] <= bound
}

/// A line has no more tiles than cells.
pub proof fn lemma_tiles_len(row: Seq<nat>)
    ensures
        tiles(row).len() <= row.len(),
    decreases row.len(),
{
    if row.len() > 0 {
        lemma_tiles_len(row.drop_last());
    }
}

/// Every tile of a line is one of its cells, and none is empty.
pub proof fn lemma_tiles_from_row(row: Seq<nat>)
    ensures
        forall|k: int| 0 <= k < tiles(row).len() ==> #[trigger] tiles(row)[k] != 0,
        forall|k: int| 0 <= k < tiles(row).len() ==> row.contains(#[trigger] tiles(row)[k]),
        forall|j: int| 0 <= j < row.len() && row[j] != 0 ==> tiles(row).contains(#[trigger] row[j]),
    decreases row.len(),
{
    if row.len() > 0 {
        let front = row.drop_last();
        lemma_tiles_from_row(front);
        assert forall|k: int| 0 <= k < tiles(row).len() implies row.contains(
            #[trigger] tiles(row)[k],
        ) by {
            if k < tiles(front).len() {
                let j = choose|j: int| 0 <= j < front.len() && front[j] == tiles(front)[k];
                assert(row[j] == tiles(row)[k]);
            } else {
                assert(row[row.len() - 1] == tiles(row)[k]);
            }
        }
        assert forall|j: int| 0 <= j < row.len() && row[j] != 0 implies tiles(row).contains(
            #[trigger] row[j],
        ) by {
            if j < front.len() {
                assert(front[j] == row[j]);
                let k = choose|k: int| 0 <= k < tiles(front).len() && tiles(front)[k] == front[j];
                assert(tiles(row)[k] == row[j]);
            } else {
                assert(tiles(row)[tiles(row).len() - 1] == row[j]);
            }
        }
    }
}

/// The tiles of two lines set end to end are the tiles of the first, then
/// those of the second.
pub proof fn lemma_tiles_concat(a: Seq<nat>, b: Seq<nat>)
    ensures
        tiles(a + b) == tiles(a) + tiles(b),
    decreases b.len(),
{
    if b.len() == 0 {
        assert(a + b =~= a);
        assert(tiles(a) + tiles(b) =~= tiles(a));
    } else {
        assert((a + b).drop_last() =~= a + b.drop_last());
        lemma_tiles_concat(a, b.drop_last());
        assert(tiles(a + b) =~= tiles(a) + tiles(b));
    }
}

/// A blank line has no tiles.
pub proof fn lemma_tiles_of_blank(n: nat)
    ensures
        tiles(blank(n)).len() == 0,
    decreases n,
{
    if n > 0 {
        assert(blank(n).drop_last() =~= blank((n - 1) as nat));
        lemma_tiles_of_blank((n - 1) as nat);
    }
}

/// A line keeps all its cells as tiles exactly when it is full.
pub proof fn lemma_tiles_of_full(row: Seq<nat>)
    ensures
        is_full(row) <==> tiles(row) == row,
        is_full(row) <==> tiles(row).len() == row.len(),
    decreases row.len(),
{
    if row.len() == 0 {
        assert(tiles(row) =~= row);
    } else {
        let front = row.drop_last();
        lemma_tiles_of_full(front);
        lemma_tiles_len(front);
        if is_full(row) {
            assert(is_full(front)) by {
                assert forall|j: int| 0 <= j < front.len() implies #[trigger] front[j] != 0 by {
                    assert(row[j] != 0);
                }
            }
            assert(row.last() != 0);
            assert(tiles(row) =~= row);
        }
        if tiles(row).len() == row.len() {
            assert(row.last() != 0);
            assert(tiles(front).len() == front.len());
            assert forall|j: int| 0 <= j < row.len() implies #[trigger] row[j] != 0 by {
                if j < front.len() {
                    assert(front[j] != 0);
                }
            }
        }
    }
}

/// Packing keeps the length and the tiles, leaves a compact line, and changes
/// nothing when done twice.
pub proof fn lemma_compress(row: Seq<nat>)
    ensures
        compress(row).len() == row.len(),
        tiles(compress(row)) == tiles(row),
        vacancies(compress(row)) == vacancies(row),
        compact(compress(row)),
        compress(compress(row)) == compress(row),
        forall|j: int| 0 <= j < tiles(row).len() ==> compress(row)[j] == tiles(row)[j],
        forall|j: int| tiles(row).len() <= j < row.len() ==> compress(row)[j] == 0,
{
    lemma_tiles_len(row);
    lemma_tiles_from_row(row);
    let t = tiles(row);
    let z = blank(vacancies(row));
    lemma_tiles_concat(t, z);
    lemma_tiles_of_blank(vacancies(row));
    lemma_tiles_of_full(t);
    assert(is_full(t));
    assert(tiles(t) + tiles(z) =~= t);
}

/// A line is compact exactly when packing leaves it as it is.
pub proof fn lemma_compact_is_fixed(row: Seq<nat>)
    ensures
        compact(row) <==> compress(row) == row,
    decreases row.len(),
{
    lemma_compress(row);
    lemma_tiles_len(row);
    if row.len() == 0 {
        assert(compress(row) =~= row);
    } else if compact(row) {
        let front = row.drop_last();
        lemma_compact_is_fixed(front);
        lemma_tiles_len(front);
        assert(compact(front)) by {
            assert forall|i: int, j: int| 0 <= i < j < front.len() && front[i] == 0 implies front[j]
                == 0 by {
                assert(row[i] == 0);
                assert(row[j] == 0);
            }
        }
        if row.last() == 0 {
            assert(compress(row) =~= compress(front).push(0));
            assert(compress(row) =~= row);
        } else {
            assert(is_full(row)) by {
                assert forall|j: int| 0 <= j < row.len() implies #[trigger] row[j] != 0 by {
                    if row[j] == 0 && j < row.len() - 1 {
                        assert(row[row.len() - 1] == 0);
                    }
                }
            }
            lemma_tiles_of_full(row);
            assert(compress(row) =~= row);
        }
    }
}

/// Where no pair starts, the merge step changes nothing and is worth nothing.
pub proof fn lemma_merge_without_pairs(row: Seq<nat>)
    requires
        !has_pair(row),
    ensures
        merge(row) == row,
        merge_gain(row) == 0,
        pairs_before(row, row.len() as int) == 0,
{
    assert forall|j: int| !pair_starts(row, j) by {
        if 0 <= j && j + 1 < row.len() && row[j] != 0 && row[j] == row[j + 1] {
            assert(has_pair(row));
        }
    }
    assert(merge(row) =~= row);
    lemma_no_starts(row, row.len() as int);
}

/// Where no pair starts, none is counted and none is paid.
proof fn lemma_no_starts(row: Seq<nat>, n: int)
    requires
        forall|j: int| !pair_starts(row, j),
    ensures
        gain_before(row, n) == 0,
        pairs_before(row, n) == 0,
    decreases n,
{
    if n > 0 {
        lemma_no_starts(row, n - 1);
    }
}

/// Two equal neighbouring tiles always make a pair start: at the first of the
/// two, or just before it.
pub proof fn lemma_pair_means_merge(row: Seq<nat>)
    requires
        has_pair(row),
    ensures
        pairs_before(row, row.len() as int) > 0,
{
    let j = choose|j: int| 0 <= j && j + 1 < row.len() && #[trigger] row[j] != 0 && row[j] == row[j + 1];
    if pair_starts(row, j) {
        lemma_pairs_grow(row, j + 1, row.len() as int);
    } else {
        assert(pair_starts(row, j - 1));
        lemma_pairs_grow(row, j, row.len() as int);
    }
}

/// Counts and points only grow along the line.
pub proof fn lemma_pairs_grow(row: Seq<nat>, n: int, m: int)
    requires
        n <= m,
    ensures
        pairs_before(row, n) <= pairs_before(row, m),
        gain_before(row, n) <= gain_before(row, m),
    decreases m - n,
{
    if n < m {
        lemma_pairs_grow(row, n, m - 1);
    }
}

/// Each pair costs the line one tile, and is worth more than nothing.
pub proof fn lemma_merge_counts(row: Seq<nat>, n: int)
    requires
        0 <= n <= row.len(),
    ensures
        tiles(merge(row).take(n)).len() + pairs_before(row, n) == tiles(row.take(n)).len(),
        pairs_before(row, n - 1) == 0 <==> gain_before(row, n) == 0,
    decreases n,
{
    if n == 0 {
        assert(merge(row).take(0) =~= Seq::<nat>::empty());
        assert(row.take(0) =~= Seq::<nat>::empty());
    } else {
        lemma_merge_counts(row, n - 1);
        assert(merge(row).take(n).drop_last() =~= merge(row).take(n - 1));
        assert(row.take(n).drop_last() =~= row.take(n - 1));
        assert(merge(row).take(n).last() == merged_cell(row, n - 1));
        assert(row.take(n).last() == row[n - 1]);
    }
}

/// What a slide does to a line: the length stays, the result is compact, and
/// it has one tile less for each pair that merged.
pub proof fn lemma_reduce(row: Seq<nat>)
    ensures
        reduce(row).len() == row.len(),
        compact(reduce(row)),
        compress(reduce(row)) == reduce(row),
        tiles(reduce(row)).len() + pairs_before(compress(row), row.len() as int) == tiles(
            row,
        ).len(),
        pairs_before(compress(row), row.len() as int) == 0 <==> reduce_gain(row) == 0,
{
    let c = compress(row);
    lemma_compress(row);
    lemma_compress(merge(c));
    lemma_merge_counts(c, c.len() as int);
    assert(merge(c).take(c.len() as int) =~= merge(c));
    assert(c.take(c.len() as int) =~= c);
    lemma_pairs_stop(c);
}

/// No pair starts at the last cell.
proof fn lemma_pairs_stop(row: Seq<nat>)
    ensures
        pairs_before(row, row.len() as int) == pairs_before(row, row.len() - 1),
{
}

/// A slide leaves a line as it is exactly when the line is compact and no two
/// neighbouring tiles are equal.
pub proof fn lemma_reduce_fixed(row: Seq<nat>)
    ensures
        reduce(row) == row <==> compact(row) && !has_pair(row),
{
    lemma_reduce(row);
    lemma_compact_is_fixed(row);
    if compact(row) && !has_pair(row) {
        lemma_merge_without_pairs(row);
    }
    if reduce(row) == row {
        if has_pair(row) {
            lemma_pair_means_merge(row);
        }
    }
}

/// A slide that leaves the line as it is scores nothing.
pub proof fn lemma_fixed_scores_nothing(row: Seq<nat>)
    requires
        reduce(row) == row,
    ensures
        reduce_gain(row) == 0,
{
    lemma_reduce(row);
}

/// A slide that changes the line leaves an empty cell in it.
pub proof fn lemma_changed_has_vacancy(row: Seq<nat>)
    requires
        reduce(row) != row,
    ensures
        !is_full(reduce(row)),
{
    lemma_reduce(row);
    lemma_tiles_len(row);
    lemma_tiles_of_full(reduce(row));
    lemma_tiles_of_full(row);
    if is_full(reduce(row)) {
        assert(is_full(row));
        assert(compact(row));
        lemma_compact_is_fixed(row);
        if has_pair(row) {
            lemma_pair_means_merge(row);
        }
        lemma_reduce_fixed(row);
    }
}

/// What one more cell adds to the tiles and to the vacancies of a line's front.
pub proof fn lemma_front_step(row: Seq<nat>, j: int)
    requires
        0 <= j < row.len(),
    ensures
        row[j] == 0 ==> tiles(row.take(j + 1)) == tiles(row.take(j)),
        row[j] != 0 ==> tiles(row.take(j + 1)) == tiles(row.take(j)).push(row[j]),
        row[j] == 0 ==> vacancies(row.take(j + 1)) == vacancies(row.take(j)) + 1,
        row[j] != 0 ==> vacancies(row.take(j + 1)) == vacancies(row.take(j)),
        tiles(row.take(j)).len() <= j,
{
    assert(row.take(j + 1).drop_last() =~= row.take(j));
    lemma_tiles_len(row.take(j));
    lemma_tiles_len(row.take(j + 1));
}

/// The front of a line has no more vacancies than the line.
pub proof fn lemma_front_vacancies(row: Seq<nat>, j: int)
    requires
        0 <= j <= row.len(),
    ensures
        vacancies(row.take(j)) <= vacancies(row),
    decreases row.len() - j,
{
    if j < row.len() {
        lemma_front_step(row, j);
        lemma_front_vacancies(row, j + 1);
    } else {
        assert(row.take(j) =~= row);
    }
}

/// Packing neither adds a value to a line nor takes a tile away, so a bound
/// holds of the packed line exactly when it holds of the line.
pub proof fn lemma_compress_bounded(row: Seq<nat>, bound: nat)
    ensures
        bounded(compress(row), bound) <==> bounded(row, bound),
{
    lemma_compress(row);
    lemma_tiles_from_row(row);
    lemma_tiles_len(row);
    let packed = compress(row);
    if bounded(row, bound) {
        assert forall|j: int| 0 <= j < packed.len() implies #[trigger] packed[j] <= bound by {
            if j < tiles(row).len() {
                assert(row.contains(tiles(row)[j]));
            }
        }
    }
    if bounded(packed, bound) {
        assert forall|j: int| 0 <= j < row.len() implies #[trigger] row[j] <= bound by {
            if row[j] != 0 {
                assert(tiles(row).contains(row[j]));
                let k = choose|k: int| 0 <= k < tiles(row).len() && tiles(row)[k] == row[j];
                assert(packed[k] == row[j]);
            }
        }
    }
}

/// A line that is compact from both ends is all tiles or all empty.
pub proof fn lemma_compact_both_ways(row: Seq<nat>, vacant: int, tile: int)
    requires
        compact(row),
        compact(mirror(row)),
        0 <= vacant < row.len(),
        0 <= tile < row.len(),
        row[vacant] == 0,
    ensures
        row[tile] == 0,
{
    if tile < vacant {
        let back = mirror(row);
        assert(back[row.len() - 1 - vacant] == 0);
        assert(back[row.len() - 1 - tile] == 0);
    }
}

/// Filling an empty cell with a tile takes one vacancy away.
pub proof fn lemma_fill(row: Seq<nat>, at: int, tile: nat)
    requires
        0 <= at < row.len(),
        row[at] == 0,
        tile != 0,
    ensures
        tiles(row.update(at, tile)).len() == tiles(row).len() + 1,
        vacancies(row.update(at, tile)) + 1 == vacancies(row),
    decreases row.len(),
{
    let filled = row.update(at, tile);
    let front = row.drop_last();
    lemma_tiles_len(row);
    lemma_tiles_len(filled);
    if at == row.len() - 1 {
        assert(filled.drop_last() =~= front);
        assert(filled.last() == tile);
        assert(row.last() == 0);
    } else {
        assert(filled.drop_last() =~= front.update(at, tile));
        assert(filled.last() == row.last());
        lemma_fill(front, at, tile);
    }
}

/// Behind a cell that starts no pair, the pairs are those of the rest of
/// the line taken alone.
proof fn lemma_pairs_restart(row: Seq<nat>, k: int, j: int)
    requires
        0 <= k <= row.len(),
        !pair_starts(row, k - 1),
        -1 <= j,
    ensures
        pair_starts(row.skip(k), j) == pair_starts(row, j + k),
    decreases j + 1,
{
    if j >= 0 {
        lemma_pairs_restart(row, k, j - 1);
    }
}

/// Behind a cell that starts no pair, the points are those of the rest of
/// the line taken alone.
proof fn lemma_gain_restarts(row: Seq<nat>, k: int, n: int)
    requires
        0 <= k <= row.len(),
        0 <= n <= row.len() - k,
        !pair_starts(row, k - 1),
    ensures
        gain_before(row, k + n) == gain_before(row, k) + gain_before(row.skip(k), n),
    decreases n,
{
    if n > 0 {
        lemma_gain_restarts(row, k, n - 1);
        lemma_pairs_restart(row, k, n - 2);
    }
}

/// The tiles of a line of one cell.
proof fn lemma_tiles_of_one(value: nat)
    ensures
        value == 0 ==> tiles(seq![value]).len() == 0,
        value != 0 ==> tiles(seq![value]) == seq![value],
{
    let one = seq![value];
    assert(one.drop_last() =~= Seq::<nat>::empty());
    assert(tiles(one.drop_last()).len() == 0);
    assert(one.last() == value);
    if value != 0 {
        assert(tiles(one) =~= one);
    }
}

/// On a run of tiles, the merge step leaves the tiles that `combine` gives,
/// and is worth the same.
proof fn lemma_merge_of_run(run: Seq<nat>)
    requires
        is_full(run),
    ensures
        tiles(merge(run)) == combine(run),
        merge_gain(run) == combine_gain(run),
    decreases run.len(),
{
    let n = run.len() as int;
    if n < 2 {
        assert(!has_pair(run));
        lemma_merge_without_pairs(run);
        lemma_tiles_of_full(run);
    } else {
        let k: int = if run[0] == run[1] {
            2
        } else {
            1
        };
        let rest = run.skip(k);
        assert(run[0] != 0);
        assert(!pair_starts(run, -1));
        assert(pair_starts(run, 0) == (run[0] == run[1]));
        assert(!pair_starts(run, k - 1));
        assert(is_full(rest)) by {
            assert forall|j: int| 0 <= j < rest.len() implies #[trigger] rest[j] != 0 by {
                assert(run[j + k] != 0);
            }
        }
        lemma_merge_of_run(rest);
        assert(merge(run).skip(k) =~= merge(rest)) by {
            assert forall|j: int| 0 <= j < rest.len() implies merge(run).skip(k)[j] == merge(
                rest,
            )[j] by {
                lemma_pairs_restart(run, k, j);
                lemma_pairs_restart(run, k, j - 1);
            }
        }
        let head = merge(run).take(k);
        assert(merge(run) =~= head + merge(rest));
        lemma_tiles_concat(head, merge(rest));
        lemma_gain_restarts(run, k, n - k);
        assert(gain_before(run, 0) == 0);
        assert(gain_before(run, 1) == 0);
        if k == 2 {
            assert(head =~= seq![0nat] + seq![2 * run[0]]);
            lemma_tiles_concat(seq![0nat], seq![2 * run[0]]);
            lemma_tiles_of_one(0);
            lemma_tiles_of_one(2 * run[0]);
            assert(tiles(head) =~= seq![2 * run[0]]);
        } else {
            assert(head =~= seq![run[0]]);
            lemma_tiles_of_one(run[0]);
        }
    }
}

/// A slide in one statement: the tiles of the line, with equal neighbours
/// merged once from the front, and the empty cells behind them. Packing,
/// merging and packing again comes to the same line and the same points.
pub proof fn law_reduce_is_combine(row: Seq<nat>)
    ensures
        combine(tiles(row)).len() <= row.len(),
        reduce(row) == combine(tiles(row)) + blank(
            (row.len() - combine(tiles(row)).len()) as nat,
        ),
        reduce_gain(row) == combine_gain(tiles(row)),
{
    let run = tiles(row);
    let packed = compress(row);
    let n = run.len() as int;
    lemma_compress(row);
    lemma_tiles_len(row);
    lemma_tiles_from_row(row);
    assert(is_full(run));
    lemma_merge_of_run(run);
    assert forall|j: int| pair_starts(packed, j) == pair_starts(run, j) by {
        lemma_pairs_of_front(row, j);
    }
    let tail = blank(vacancies(row));
    assert(merge(packed) =~= merge(run) + tail);
    lemma_tiles_concat(merge(run), tail);
    lemma_tiles_of_blank(vacancies(row));
    assert(tiles(merge(run)) + tiles(tail) =~= tiles(merge(run)));
    lemma_tiles_len(merge(packed));
    lemma_gain_of_front(row, row.len() as int);
}

/// A packed line has its pairs where the run of its tiles has them.
proof fn lemma_pairs_of_front(row: Seq<nat>, j: int)
    ensures
        pair_starts(compress(row), j) == pair_starts(tiles(row), j),
    decreases j + 1,
{
    lemma_compress(row);
    lemma_tiles_len(row);
    lemma_tiles_from_row(row);
    if j >= 0 {
        lemma_pairs_of_front(row, j - 1);
    }
}

/// A packed line is worth what the run of its tiles is worth.
proof fn lemma_gain_of_front(row: Seq<nat>, n: int)
    requires
        n <= row.len(),
    ensures
        gain_before(compress(row), n) == gain_before(
            tiles(row),
            if n <= tiles(row).len() {
                n
            } else {
                tiles(row).len() as int
            },
        ),
    decreases n,
{
    lemma_compress(row);
    lemma_tiles_len(row);
    if n > 0 {
        lemma_gain_of_front(row, n - 1);
        lemma_pairs_of_front(row, n - 2);
    }
}

} // verus!
