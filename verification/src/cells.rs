//! The mathematical model of the grid: sets of coloured cells, and what it
//! means for such sets to be well placed, to collide, to shift, to turn and to
//! have their full rows cleared.

use crate::blocks::{Color, Coords};
use vstd::prelude::*;

verus! {

/// Two cells sit on the same place, whatever their colours.
pub open spec fn same_place(a: Coords, b: Coords) -> bool {
    a.0 == b.0 && a.1 == b.1
}

/// No two cells of the list sit on the same place.
pub open spec fn one_per_place(cells: Seq<Coords>) -> bool {
    forall|i: int, j: int|
        0 <= i < j < cells.len() ==> !same_place(#[trigger] cells[i], #[trigger] cells[j])
}

/// No two cells of the set sit on the same place.
pub open spec fn distinct_places(cells: Set<Coords>) -> bool {
    forall|a: Coords, b: Coords|
        #![trigger cells.contains(a), cells.contains(b)]
        cells.contains(a) && cells.contains(b) && same_place(a, b) ==> a == b
}

/// Every cell of the set lies inside a grid of the given size.
pub open spec fn in_grid(cells: Set<Coords>, columns: nat, rows: nat) -> bool {
    forall|c: Coords| #[trigger] cells.contains(c) ==> c.0 < columns && c.1 < rows
}

/// All cells of the set carry one colour.
pub open spec fn one_color(cells: Set<Coords>) -> bool {
    forall|a: Coords, b: Coords|
        #![trigger cells.contains(a), cells.contains(b)]
        cells.contains(a) && cells.contains(b) ==> a.2 == b.2
}

/// The two sets share a place.
pub open spec fn overlaps(a: Set<Coords>, b: Set<Coords>) -> bool {
    exists|p: Coords, q: Coords|
        #![trigger a.contains(p), b.contains(q)]
        a.contains(p) && b.contains(q) && same_place(p, q)
}

/// Some cell of the set has a row index strictly greater than the number of
/// rows. A cell whose row index equals the number of rows is not counted.
pub open spec fn beyond_rows(cells: Set<Coords>, rows: nat) -> bool {
    exists|c: Coords| #[trigger] cells.contains(c) && c.1 > rows
}

/// The collision predicate of the engine: the piece shares a place with a
/// settled cell, or one of its cells lies beyond the rows.
pub open spec fn collides(settled: Set<Coords>, piece: Set<Coords>, rows: nat) -> bool {
    overlaps(settled, piece) || beyond_rows(piece, rows)
}

/// The places that the cells occupy, colours left out.
pub open spec fn places(cells: Set<Coords>) -> Set<(usize, usize)> {
    cells.map(|c: Coords| (c.0, c.1))
}

/// One cell, moved by `dx` columns and `dy` rows.
pub open spec fn moved_cell(c: Coords, dx: int, dy: int) -> Coords {
    ((c.0 + dx) as usize, (c.1 + dy) as usize, c.2)
}

/// The cells, each moved by `dx` columns and `dy` rows.
pub open spec fn moved(cells: Set<Coords>, dx: int, dy: int) -> Set<Coords> {
    cells.map(|c: Coords| moved_cell(c, dx, dy))
}

/// An upright rectangle of places, by its outermost columns and rows.
pub struct Frame {
    pub left: int,
    pub right: int,
    pub top: int,
    pub bottom: int,
}

/// The rectangle is the bounding box of the cells: it holds them all, and a
/// cell touches each of its four sides.
pub open spec fn frames(cells: Set<Coords>, f: Frame) -> bool {
    &&& forall|c: Coords| #[trigger]
        cells.contains(c) ==> f.left <= c.0 <= f.right && f.top <= c.1 <= f.bottom
    &&& exists|c: Coords| #[trigger] cells.contains(c) && c.0 == f.left
    &&& exists|c: Coords| #[trigger] cells.contains(c) && c.0 == f.right
    &&& exists|c: Coords| #[trigger] cells.contains(c) && c.1 == f.top
    &&& exists|c: Coords| #[trigger] cells.contains(c) && c.1 == f.bottom
}

/// The bounding box of the cells (of a set that is not empty).
pub open spec fn frame_of(cells: Set<Coords>) -> Frame {
    choose|f: Frame| frames(cells, f)
}

/// The side of the square in which a piece turns: the larger of the width and
/// the height of its bounding box.
pub open spec fn side(f: Frame) -> int {
    if f.right - f.left >= f.bottom - f.top {
        f.right - f.left + 1
    } else {
        f.bottom - f.top + 1
    }
}

/// Where a quarter turn takes a cell. The piece turns inside the square that
/// has the top-left corner of the bounding box and the side `side(f)`:
/// clockwise, the column of a cell becomes its row, and its row, counted from
/// the bottom of the square, becomes its column; counter-clockwise the other
/// way round. Seen as a matrix of filled and empty places, the square has its
/// rows reversed and is then transposed for a clockwise turn, and is
/// transposed and then has its rows reversed for a counter-clockwise one.
/// The result may lie outside any grid.
pub open spec fn turned_cell(c: Coords, f: Frame, clockwise: bool) -> (int, int, Color) {
    let x = c.0 - f.left;
    let y = c.1 - f.top;
    if clockwise {
        (f.left + side(f) - 1 - y, f.top + x, c.2)
    } else {
        (f.left + y, f.top + side(f) - 1 - x, c.2)
    }
}

/// The cell lies where the triple says.
pub open spec fn lies_at(q: Coords, p: (int, int, Color)) -> bool {
    q.0 == p.0 && q.1 == p.1 && q.2 == p.2
}

/// The piece after a quarter turn, without the cells that the turn takes out
/// of the grid.
pub open spec fn turned(cells: Set<Coords>, clockwise: bool, columns: nat, rows: nat) -> Set<
    Coords,
> {
    Set::new(
        |q: Coords|
            q.0 < columns && q.1 < rows && exists|c: Coords| #[trigger]
                cells.contains(c) && lies_at(q, turned_cell(c, frame_of(cells), clockwise)),
    )
}

/// A set has one bounding box at most.
pub proof fn lemma_one_frame(cells: Set<Coords>, f: Frame, g: Frame)
    requires
        frames(cells, f),
        frames(cells, g),
    ensures
        f == g,
{
}

/// The cells of the set that lie on the given row.
pub open spec fn row_of(cells: Set<Coords>, row: int) -> Set<Coords> {
    cells.filter(|c: Coords| c.1 == row)
}

/// How many cells of the set lie on the given row.
pub open spec fn row_count(cells: Set<Coords>, row: int) -> nat {
    row_of(cells, row).len()
}

/// The row outlives a clearing: it holds a cell, and it is not full.
pub open spec fn row_stays(cells: Set<Coords>, columns: nat, row: int) -> bool {
    row_count(cells, row) != 0 && row_count(cells, row) != columns
}

/// How many rows from `row` down to the bottom of the grid outlive a clearing.
pub open spec fn rows_staying_from(cells: Set<Coords>, columns: nat, rows: nat, row: int) -> nat
    decreases rows - row,
{
    if row >= rows {
        0
    } else {
        rows_staying_from(cells, columns, rows, row + 1) + if row_stays(cells, columns, row) {
            1nat
        } else {
            0nat
        }
    }
}

/// The row on which the cells of a row that stays come to lie: the rows that
/// stay are packed onto the bottom of the grid in their order, so a row lands
/// as many rows above the bottom as rows stay from it downwards.
pub open spec fn landing_row(cells: Set<Coords>, columns: nat, rows: nat, row: int) -> int {
    rows - rows_staying_from(cells, columns, rows, row)
}

/// A cell of a row that stays, after the clearing: the same column and
/// colour, on the row where its row lands.
pub open spec fn landed_cell(cells: Set<Coords>, columns: nat, rows: nat, c: Coords) -> Coords {
    (c.0, landing_row(cells, columns, rows, c.1 as int) as usize, c.2)
}

/// The settled cells after a clearing: the cells of full rows are gone, and
/// the others have landed.
pub open spec fn cleared(cells: Set<Coords>, columns: nat, rows: nat) -> Set<Coords> {
    cells.filter(|c: Coords| row_stays(cells, columns, c.1 as int)).map(
        |c: Coords| landed_cell(cells, columns, rows, c),
    )
}

/// How many cells of the list lie on the given row.
pub open spec fn tally(cells: Seq<Coords>, row: int) -> nat
    decreases cells.len(),
{
    if cells.len() == 0 {
        0
    } else {
        tally(cells.drop_last(), row) + if cells.last().1 == row {
            1nat
        } else {
            0nat
        }
    }
}

/// A list is at least as long as its tally on a row.
pub proof fn lemma_tally_bound(cells: Seq<Coords>, row: int)
    ensures
        tally(cells, row) <= cells.len(),
    decreases cells.len(),
{
    if cells.len() > 0 {
        lemma_tally_bound(cells.drop_last(), row);
    }
}

/// The tally of a list one cell longer.
pub proof fn lemma_tally_step(cells: Seq<Coords>, i: int, row: int)
    requires
        0 <= i < cells.len(),
    ensures
        tally(cells.take(i + 1), row) == tally(cells.take(i), row) + if cells[i].1 == row {
            1nat
        } else {
            0nat
        },
{
    assert(cells.take(i + 1).drop_last() =~= cells.take(i));
}

/// The tally of a list that holds no cell twice counts the cells of its set.
pub proof fn lemma_tally_counts_row(cells: Seq<Coords>, row: int)
    requires
        cells.no_duplicates(),
    ensures
        row_of(cells.to_set(), row).finite(),
        row_count(cells.to_set(), row) == tally(cells, row),
    decreases cells.len(),
{
    broadcast use vstd::set::group_set_axioms;

    if cells.len() == 0 {
        assert(row_of(cells.to_set(), row) =~= Set::empty());
    } else {
        let rest = cells.drop_last();
        let x = cells.last();
        lemma_tally_counts_row(rest, row);
        assert(!rest.to_set().contains(x)) by {
            if rest.to_set().contains(x) {
                let i = choose|i: int| 0 <= i < rest.len() && rest[i] == x;
                assert(cells[i] == cells[cells.len() - 1]);
            }
        }
        assert(cells.to_set() =~= rest.to_set().insert(x)) by {
            lemma_push_contains(rest, x);
            assert(cells =~= rest.push(x));
        }
        if x.1 == row {
            assert(row_of(cells.to_set(), row) =~= row_of(rest.to_set(), row).insert(x));
        } else {
            assert(row_of(cells.to_set(), row) =~= row_of(rest.to_set(), row));
        }
    }
}

/// No more rows stay from a row downwards than there are rows from it
/// downwards.
pub proof fn lemma_staying_bound(cells: Set<Coords>, columns: nat, rows: nat, row: int)
    requires
        0 <= row <= rows,
    ensures
        rows_staying_from(cells, columns, rows, row) <= rows - row,
    decreases rows - row,
{
    if row < rows {
        lemma_staying_bound(cells, columns, rows, row + 1);
    }
}

/// From a higher row downwards at least as many rows stay as from a lower one.
pub proof fn lemma_staying_grows(cells: Set<Coords>, columns: nat, rows: nat, high: int, low: int)
    requires
        high <= low,
    ensures
        rows_staying_from(cells, columns, rows, high) >= rows_staying_from(
            cells,
            columns,
            rows,
            low,
        ),
    decreases low - high,
{
    if high < low {
        lemma_staying_grows(cells, columns, rows, high + 1, low);
    }
}

/// Rows that stay keep their order and land inside the grid, none above
/// where it was.
pub proof fn lemma_landing_rows(cells: Set<Coords>, columns: nat, rows: nat, high: int, low: int)
    requires
        0 <= high <= low < rows,
        row_stays(cells, columns, high),
        row_stays(cells, columns, low),
    ensures
        high <= landing_row(cells, columns, rows, high) < rows,
        high < low ==> landing_row(cells, columns, rows, high) < landing_row(
            cells,
            columns,
            rows,
            low,
        ),
{
    lemma_staying_bound(cells, columns, rows, high);
    if high < low {
        lemma_staying_grows(cells, columns, rows, high + 1, low);
    }
}

/// What a list holds after one more cell is pushed.
pub proof fn lemma_push_contains(cells: Seq<Coords>, x: Coords)
    ensures
        forall|c: Coords| #[trigger] cells.push(x).contains(c) <==> (cells.contains(c) || c == x),
{
    assert forall|c: Coords| #[trigger] cells.push(x).contains(c) <==> (cells.contains(c) || c
        == x) by {
        if cells.push(x).contains(c) {
            let i = choose|i: int| 0 <= i < cells.push(x).len() && cells.push(x)[i] == c;
            if i < cells.len() {
                assert(cells[i] == c);
            }
        }
        if cells.contains(c) {
            let i = choose|i: int| 0 <= i < cells.len() && cells[i] == c;
            assert(cells.push(x)[i] == c);
        }
        if c == x {
            assert(cells.push(x)[cells.len() as int] == c);
        }
    }
}

/// A list that holds one cell per place, seen as a set, holds no place twice
/// and has as many members as the list is long.
pub proof fn lemma_list_as_set(cells: Seq<Coords>)
    requires
        one_per_place(cells),
    ensures
        cells.no_duplicates(),
        cells.to_set().finite(),
        cells.to_set().len() == cells.len(),
        distinct_places(cells.to_set()),
{
    assert(cells.no_duplicates());
    cells.unique_seq_to_set();
    vstd::seq_lib::seq_to_set_is_finite(cells);
    assert forall|a: Coords, b: Coords|
        cells.to_set().contains(a) && cells.to_set().contains(b) && same_place(a, b) implies a
        == b by {
        let i = choose|i: int| 0 <= i < cells.len() && cells[i] == a;
        let j = choose|j: int| 0 <= j < cells.len() && cells[j] == b;
        if i < j {
            assert(!same_place(cells[i], cells[j]));
        }
        if j < i {
            assert(!same_place(cells[j], cells[i]));
        }
    }
}

/// Two moves in a row are one move by the sum of the steps, where the first
/// move takes no cell out of the range of the machine's numbers.
pub proof fn lemma_moved_again(cells: Set<Coords>, dx: int, dy: int, ex: int, ey: int)
    requires
        forall|c: Coords| #[trigger]
            cells.contains(c) ==> 0 <= c.0 + dx <= usize::MAX && 0 <= c.1 + dy <= usize::MAX,
    ensures
        moved(moved(cells, dx, dy), ex, ey) == moved(cells, dx + ex, dy + ey),
{
    let once = moved(cells, dx, dy);
    assert(moved(once, ex, ey) =~= moved(cells, dx + ex, dy + ey)) by {
        assert forall|q: Coords| moved(once, ex, ey).contains(q) <==> moved(
            cells,
            dx + ex,
            dy + ey,
        ).contains(q) by {
            if moved(once, ex, ey).contains(q) {
                let m = choose|m: Coords| #[trigger] once.contains(m) && q == moved_cell(m, ex, ey);
                let c = choose|c: Coords| #[trigger] cells.contains(c) && m == moved_cell(c, dx, dy);
                assert(cells.contains(c) && q == moved_cell(c, dx + ex, dy + ey));
            }
            if moved(cells, dx + ex, dy + ey).contains(q) {
                let c = choose|c: Coords| #[trigger]
                    cells.contains(c) && q == moved_cell(c, dx + ex, dy + ey);
                let m = moved_cell(c, dx, dy);
                assert(cells.contains(c) && m == moved_cell(c, dx, dy));
                assert(once.contains(m) && q == moved_cell(m, ex, ey));
            }
        }
    }
}

/// A list whose cells are those of another, each moved by the same step,
/// holds the moved set.
pub proof fn lemma_moved_list(before: Seq<Coords>, after: Seq<Coords>, dx: int, dy: int)
    requires
        after.len() == before.len(),
        forall|i: int| 0 <= i < before.len() ==> after[i] == moved_cell(#[trigger] before[i], dx, dy),
    ensures
        after.to_set() == moved(before.to_set(), dx, dy),
{
    let f = |c: Coords| moved_cell(c, dx, dy);
    assert(after =~= before.map_values(f));
    before.lemma_to_set_map_commutes(f);
}

/// A piece that is moved cell by cell, no cell leaving the grid, is a piece
/// still: one cell per place, as many cells, all inside the grid, of one
/// colour.
pub proof fn lemma_moved_piece(
    before: Seq<Coords>,
    after: Seq<Coords>,
    dx: int,
    dy: int,
    columns: nat,
    rows: nat,
)
    requires
        one_per_place(before),
        one_color(before.to_set()),
        after.len() == before.len(),
        forall|i: int|
            0 <= i < before.len() ==> (#[trigger] after[i]).0 == before[i].0 + dx && after[i].1
                == before[i].1 + dy && after[i].2 == before[i].2 && after[i].0 < columns
                && after[i].1 < rows,
    ensures
        one_per_place(after),
        after.to_set().finite(),
        after.to_set().len() == before.to_set().len(),
        distinct_places(after.to_set()),
        in_grid(after.to_set(), columns, rows),
        one_color(after.to_set()),
{
    assert forall|a: int, b: int| 0 <= a < b < after.len() implies !same_place(
        #[trigger] after[a],
        #[trigger] after[b],
    ) by {
        assert(!same_place(before[a], before[b]));
    }
    lemma_list_as_set(before);
    lemma_list_as_set(after);
    let moved_set = after.to_set();
    assert forall|c: Coords| #[trigger] moved_set.contains(c) implies c.0 < columns && c.1
        < rows by {
        let k = choose|k: int| 0 <= k < after.len() && after[k] == c;
        assert(after[k].0 < columns);
    }
    assert forall|a: Coords, b: Coords|
        #![trigger moved_set.contains(a), moved_set.contains(b)]
        moved_set.contains(a) && moved_set.contains(b) implies a.2 == b.2 by {
        let k = choose|k: int| 0 <= k < after.len() && after[k] == a;
        let m = choose|m: int| 0 <= m < after.len() && after[m] == b;
        assert(before.to_set().contains(before[k]));
        assert(before.to_set().contains(before[m]));
        assert(after[k].2 == before[k].2 && after[m].2 == before[m].2);
    }
}

} // verus!
