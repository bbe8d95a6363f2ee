//! What holds of the engine whatever the board: laws that relate several of
//! its operations, each stated over the model and proved.

use crate::blocks::{Block, Coords};
use crate::board::{BoardView, Rotation};
use crate::cells::{
    beyond_rows, cleared, collides, frame_of, frames, in_grid, landed_cell, landing_row,
    lemma_landing_rows, lemma_one_frame, lemma_staying_bound, lemma_staying_grows, lies_at, moved,
    moved_cell, overlaps, places, row_count, row_of, row_stays, rows_staying_from, same_place,
    side, turned, turned_cell, Frame,
};
use vstd::prelude::*;
use vstd::relations::injective_on;
use vstd::set_lib::lemma_map_size;

verus! {

/// The collision predicate does not depend on the order of its two sets where
/// both occupy the same places: for two sets of cells whose places, colours
/// left out, are the same, the one collides with the other exactly when the
/// other collides with the one.
pub proof fn lemma_collides_symmetric(a: Set<Coords>, b: Set<Coords>, rows: nat)
    requires
        places(a) == places(b),
    ensures
        collides(a, b, rows) == collides(b, a, rows),
{
    if overlaps(a, b) {
        let (p, q) = choose|p: Coords, q: Coords|
            #![trigger a.contains(p), b.contains(q)]
            a.contains(p) && b.contains(q) && same_place(p, q);
        assert(b.contains(q) && a.contains(p) && same_place(q, p));
    }
    if overlaps(b, a) {
        let (p, q) = choose|p: Coords, q: Coords|
            #![trigger b.contains(p), a.contains(q)]
            b.contains(p) && a.contains(q) && same_place(p, q);
        assert(a.contains(q) && b.contains(p) && same_place(q, p));
    }
    if beyond_rows(b, rows) {
        let c = choose|c: Coords| #[trigger] b.contains(c) && c.1 > rows;
        assert(places(b).contains((c.0, c.1)));
        let d = choose|d: Coords| a.contains(d) && (c.0, c.1) == (d.0, d.1);
        assert(a.contains(d) && d.1 > rows);
    }
    if beyond_rows(a, rows) {
        let c = choose|c: Coords| #[trigger] a.contains(c) && c.1 > rows;
        assert(places(a).contains((c.0, c.1)));
        let d = choose|d: Coords| b.contains(d) && (c.0, c.1) == (d.0, d.1);
        assert(b.contains(d) && d.1 > rows);
    }
}

/// A quarter turn keeps the number of cells of a piece that is far enough
/// from the edges of the grid: where the square in which the piece turns,
/// placed on the top-left corner of its bounding box, lies inside the grid,
/// the turned piece has as many cells as the piece.
pub proof fn lemma_rotation_keeps_count(board: BoardView, rotation: Rotation, f: Frame)
    requires
        board.wf(),
        frames(board.falling, f),
        f.left + side(f) <= board.columns,
        f.top + side(f) <= board.rows,
    ensures
        board.turned(rotation).finite(),
        board.turned(rotation).len() == board.falling.len(),
{
    let piece = board.falling;
    let clockwise = rotation == Rotation::Clockwise;
    lemma_one_frame(piece, f, frame_of(piece));
    let turn = |c: Coords|
        {
            let t = turned_cell(c, f, clockwise);
            (t.0 as usize, t.1 as usize, t.2)
        };
    assert forall|c: Coords| #[trigger] piece.contains(c) implies lies_at(
        turn(c),
        turned_cell(c, f, clockwise),
    ) && turn(c).0 < board.columns && turn(c).1 < board.rows by {}
    assert(board.turned(rotation) =~= piece.map(turn)) by {
        assert forall|q: Coords| board.turned(rotation).contains(q) <==> piece.map(turn).contains(
            q,
        ) by {
            if board.turned(rotation).contains(q) {
                let c = choose|c: Coords| #[trigger]
                    piece.contains(c) && lies_at(q, turned_cell(c, frame_of(piece), clockwise));
                assert(q == turn(c));
            }
            if piece.map(turn).contains(q) {
                let c = choose|c: Coords| piece.contains(c) && q == turn(c);
                assert(piece.contains(c) && lies_at(q, turned_cell(c, f, clockwise)));
            }
        }
    }
    assert(injective_on(turn, piece)) by {
        assert forall|a: Coords, b: Coords|
            piece.contains(a) && piece.contains(b) && #[trigger] turn(a) == #[trigger] turn(
                b,
            ) implies a == b by {
            assert(lies_at(turn(a), turned_cell(a, f, clockwise)));
            assert(lies_at(turn(b), turned_cell(b, f, clockwise)));
        }
    }
    lemma_map_size(piece, piece.map(turn), turn);
}

/// A square piece turns onto itself: a falling piece that is the square, put
/// anywhere inside the grid, is the same set of cells after a quarter turn,
/// and so after four of them.
pub proof fn lemma_square_turns_onto_itself(board: BoardView, rotation: Rotation, dx: int, dy: int)
    requires
        board.wf(),
        0 <= dx && dx + 2 <= board.columns,
        0 <= dy && dy + 2 <= board.rows,
        board.falling == moved(Block::Square.cells(), dx, dy),
    ensures
        board.turned(rotation) == board.falling,
        (BoardView { falling: board.turned(rotation), ..board }).turned(rotation)
            == board.falling,
        ({
            let once = BoardView { falling: board.turned(rotation), ..board };
            let twice = BoardView { falling: once.turned(rotation), ..board };
            let thrice = BoardView { falling: twice.turned(rotation), ..board };
            thrice.turned(rotation) == board.falling
        }),
{
    let piece = board.falling;
    let clockwise = rotation == Rotation::Clockwise;
    let k = Block::Square.color();
    let pattern = Block::Square.cells();
    Block::Square.lemma_pattern();
    let a: Coords = (0, 0, k);
    let b: Coords = (1, 0, k);
    let c: Coords = (0, 1, k);
    let d: Coords = (1, 1, k);
    assert(pattern.contains(a) && pattern.contains(b) && pattern.contains(c) && pattern.contains(
        d,
    ));
    let ma = moved_cell(a, dx, dy);
    let mb = moved_cell(b, dx, dy);
    let mc = moved_cell(c, dx, dy);
    let md = moved_cell(d, dx, dy);
    assert(piece.contains(ma) && piece.contains(mb) && piece.contains(mc) && piece.contains(md));
    assert forall|q: Coords| piece.contains(q) implies q == ma || q == mb || q == mc || q
        == md by {
        let o = choose|o: Coords| pattern.contains(o) && q == moved_cell(o, dx, dy);
        assert(o == a || o == b || o == c || o == d);
    }
    let f = Frame { left: dx, right: dx + 1, top: dy, bottom: dy + 1 };
    assert(frames(piece, f));
    lemma_one_frame(piece, f, frame_of(piece));
    assert(board.turned(rotation) =~= piece) by {
        assert(lies_at(ma, turned_cell(if clockwise { mc } else { mb }, f, clockwise)));
        assert(lies_at(mb, turned_cell(if clockwise { ma } else { md }, f, clockwise)));
        assert(lies_at(mc, turned_cell(if clockwise { md } else { ma }, f, clockwise)));
        assert(lies_at(md, turned_cell(if clockwise { mb } else { mc }, f, clockwise)));
        assert forall|q: Coords| board.turned(rotation).contains(q) implies piece.contains(q) by {
            let o = choose|o: Coords| #[trigger]
                piece.contains(o) && lies_at(q, turned_cell(o, frame_of(piece), clockwise));
            assert(o == ma || o == mb || o == mc || o == md);
        }
    }
    assert((BoardView { falling: board.turned(rotation), ..board }) == board);
}

/// Among the rows from `row` downwards, the one from which exactly `nth`
/// rows stay.
proof fn lemma_staying_row_at(
    cells: Set<Coords>,
    columns: nat,
    rows: nat,
    row: int,
    nth: int,
) -> (found: int)
    requires
        0 <= row <= rows,
        1 <= nth <= rows_staying_from(cells, columns, rows, row),
    ensures
        row <= found < rows,
        row_stays(cells, columns, found),
        rows_staying_from(cells, columns, rows, found) == nth,
    decreases rows - row,
{
    if row_stays(cells, columns, row) && rows_staying_from(cells, columns, rows, row) == nth {
        row
    } else {
        lemma_staying_row_at(cells, columns, rows, row + 1, nth)
    }
}

/// A row that stays lands with all its cells and no others: the row on which
/// it lands holds, after the clearing, as many cells as the row held before.
pub proof fn lemma_landed_row_count(cells: Set<Coords>, columns: nat, rows: nat, row: int)
    requires
        cells.finite(),
        in_grid(cells, columns, rows),
        rows <= usize::MAX,
        0 <= row < rows,
        row_stays(cells, columns, row),
    ensures
        row_count(cleared(cells, columns, rows), landing_row(cells, columns, rows, row))
            == row_count(cells, row),
{
    let after = cleared(cells, columns, rows);
    let target = landing_row(cells, columns, rows, row);
    let land = |c: Coords| landed_cell(cells, columns, rows, c);
    let source = row_of(cells, row);
    lemma_landing_rows(cells, columns, rows, row, row);
    assert(source.map(land) =~= row_of(after, target)) by {
        assert forall|q: Coords| source.map(land).contains(q) <==> row_of(after, target).contains(
            q,
        ) by {
            if source.map(land).contains(q) {
                let c = choose|c: Coords| #[trigger] source.contains(c) && q == land(c);
                assert(cells.filter(|c: Coords| row_stays(cells, columns, c.1 as int)).contains(
                    c,
                ));
            }
            if row_of(after, target).contains(q) {
                let kept = cells.filter(|c: Coords| row_stays(cells, columns, c.1 as int));
                let c = choose|c: Coords| #[trigger] kept.contains(c) && q == land(c);
                let from = c.1 as int;
                lemma_landing_rows(cells, columns, rows, from, from);
                if from < row {
                    lemma_landing_rows(cells, columns, rows, from, row);
                }
                if row < from {
                    lemma_landing_rows(cells, columns, rows, row, from);
                }
                assert(source.contains(c));
            }
        }
    }
    assert(injective_on(land, source)) by {
        assert forall|a: Coords, b: Coords|
            source.contains(a) && source.contains(b) && #[trigger] land(a) == #[trigger] land(
                b,
            ) implies a == b by {}
    }
    cells.lemma_len_filter(|c: Coords| c.1 == row);
    lemma_map_size(source, row_of(after, target), land);
}

/// After a clearing the rows that hold a cell are the lowest of the grid, as
/// many as rows stayed, and none of them is full: a row stays in the cleared
/// set exactly if it is one of these lowest rows, and the rows above them are
/// empty.
pub proof fn lemma_cleared_rows(cells: Set<Coords>, columns: nat, rows: nat, row: int)
    requires
        cells.finite(),
        in_grid(cells, columns, rows),
        rows <= usize::MAX,
        0 <= row < rows,
    ensures
        row_stays(cleared(cells, columns, rows), columns, row) <==> row >= rows
            - rows_staying_from(cells, columns, rows, 0),
        row < rows - rows_staying_from(cells, columns, rows, 0) ==> row_count(
            cleared(cells, columns, rows),
            row,
        ) == 0,
{
    let after = cleared(cells, columns, rows);
    let staying = rows_staying_from(cells, columns, rows, 0);
    lemma_staying_bound(cells, columns, rows, 0);
    if row >= rows - staying {
        let from = lemma_staying_row_at(cells, columns, rows, 0, rows - row);
        lemma_landed_row_count(cells, columns, rows, from);
    } else {
        assert(row_of(after, row) =~= Set::empty()) by {
            assert forall|q: Coords| !row_of(after, row).contains(q) by {
                if row_of(after, row).contains(q) {
                    let c = choose|c: Coords|
                        cells.filter(|c: Coords| row_stays(cells, columns, c.1 as int)).contains(c)
                            && q == landed_cell(cells, columns, rows, c);
                    let from = c.1 as int;
                    lemma_landing_rows(cells, columns, rows, from, from);
                    lemma_staying_grows(cells, columns, rows, 0, from);
                }
            }
        }
    }
}

/// After a clearing every row from the highest occupied one downwards stays.
proof fn lemma_cleared_staying_from(cells: Set<Coords>, columns: nat, rows: nat, row: int)
    requires
        cells.finite(),
        in_grid(cells, columns, rows),
        rows <= usize::MAX,
        0 <= row <= rows,
        row >= rows - rows_staying_from(cells, columns, rows, 0),
    ensures
        rows_staying_from(cleared(cells, columns, rows), columns, rows, row) == rows - row,
    decreases rows - row,
{
    if row < rows {
        lemma_cleared_rows(cells, columns, rows, row);
        lemma_cleared_staying_from(cells, columns, rows, row + 1);
    }
}

/// Clearing is idempotent: to clear a second time changes nothing, whether
/// or not a row was full the first time. In particular, where no row is
/// full, two clearings of the same settled cells give what one gives.
pub proof fn lemma_clearing_twice(cells: Set<Coords>, columns: nat, rows: nat)
    requires
        cells.finite(),
        in_grid(cells, columns, rows),
        rows <= usize::MAX,
    ensures
        cleared(cleared(cells, columns, rows), columns, rows) == cleared(cells, columns, rows),
{
    let once = cleared(cells, columns, rows);
    let twice = cleared(once, columns, rows);
    assert forall|q: Coords| once.contains(q) implies row_stays(once, columns, q.1 as int)
        && landed_cell(once, columns, rows, q) == q by {
        let c = choose|c: Coords|
            cells.filter(|c: Coords| row_stays(cells, columns, c.1 as int)).contains(c) && q
                == landed_cell(cells, columns, rows, c);
        let from = c.1 as int;
        lemma_landing_rows(cells, columns, rows, from, from);
        lemma_staying_grows(cells, columns, rows, 0, from);
        lemma_cleared_rows(cells, columns, rows, q.1 as int);
        lemma_cleared_staying_from(cells, columns, rows, q.1 as int);
    }
    assert(twice =~= once) by {
        assert forall|q: Coords| twice.contains(q) <==> once.contains(q) by {
            if twice.contains(q) {
                let c = choose|c: Coords|
                    once.filter(|c: Coords| row_stays(once, columns, c.1 as int)).contains(c) && q
                        == landed_cell(once, columns, rows, c);
                assert(once.contains(c));
            }
            if once.contains(q) {
                assert(once.filter(|c: Coords| row_stays(once, columns, c.1 as int)).contains(q));
            }
        }
    }
}

/// A row that holds a cell of a finite set has a count that is not zero.
proof fn lemma_row_occupied(cells: Set<Coords>, c: Coords)
    requires
        cells.finite(),
        cells.contains(c),
    ensures
        row_count(cells, c.1 as int) != 0,
{
    let row = row_of(cells, c.1 as int);
    cells.lemma_len_filter(|o: Coords| o.1 == c.1 as int);
    assert(row.contains(c));
    if row.len() == 0 {
        row.lemma_len0_is_empty();
    }
}

/// Where every row from `row` downwards stays, as many rows stay from it as
/// there are rows from it downwards.
proof fn lemma_all_stay(cells: Set<Coords>, columns: nat, rows: nat, row: int)
    requires
        0 <= row <= rows,
        forall|below: int| row <= below < rows ==> row_stays(cells, columns, below),
    ensures
        rows_staying_from(cells, columns, rows, row) == rows - row,
    decreases rows - row,
{
    if row < rows {
        lemma_all_stay(cells, columns, rows, row + 1);
    }
}

/// Clearing changes nothing where there is nothing to clear: where no row
/// is full and no empty row lies below a row that holds a cell, the cleared
/// cells are the cells.
pub proof fn lemma_clearing_packed(cells: Set<Coords>, columns: nat, rows: nat)
    requires
        cells.finite(),
        in_grid(cells, columns, rows),
        rows <= usize::MAX,
        forall|row: int| 0 <= row < rows ==> row_count(cells, row) != columns,
        forall|high: int, low: int|
            0 <= high <= low < rows && row_count(cells, high) != 0 ==> row_count(cells, low) != 0,
    ensures
        cleared(cells, columns, rows) == cells,
{
    let after = cleared(cells, columns, rows);
    let kept = cells.filter(|c: Coords| row_stays(cells, columns, c.1 as int));
    assert forall|c: Coords| cells.contains(c) implies kept.contains(c) && landed_cell(
        cells,
        columns,
        rows,
        c,
    ) == c by {
        lemma_row_occupied(cells, c);
        lemma_all_stay(cells, columns, rows, c.1 as int);
    }
    assert(after =~= cells) by {
        assert forall|q: Coords| after.contains(q) <==> cells.contains(q) by {
            if after.contains(q) {
                let c = choose|c: Coords| #[trigger]
                    kept.contains(c) && q == landed_cell(cells, columns, rows, c);
                assert(cells.contains(c));
            }
            if cells.contains(q) {
                assert(kept.contains(q) && q == landed_cell(cells, columns, rows, q));
            }
        }
    }
}

/// The cells of rows that are not full outlive a clearing in their order:
/// each is found again in its column and colour, inside the grid and no
/// higher than it was; of two such cells the one that was higher is higher
/// still, and two of one row are again on one row.
pub proof fn lemma_cleared_keeps_order(
    cells: Set<Coords>,
    columns: nat,
    rows: nat,
    a: Coords,
    b: Coords,
)
    requires
        cells.finite(),
        in_grid(cells, columns, rows),
        rows <= usize::MAX,
        cells.contains(a),
        cells.contains(b),
        row_count(cells, a.1 as int) != columns,
        row_count(cells, b.1 as int) != columns,
    ensures
        ({
            let landed_a = landed_cell(cells, columns, rows, a);
            let landed_b = landed_cell(cells, columns, rows, b);
            &&& cleared(cells, columns, rows).contains(landed_a)
            &&& cleared(cells, columns, rows).contains(landed_b)
            &&& landed_a.0 == a.0 && landed_a.2 == a.2
            &&& landed_b.0 == b.0 && landed_b.2 == b.2
            &&& a.1 <= landed_a.1 < rows
            &&& b.1 <= landed_b.1 < rows
            &&& a.1 < b.1 ==> landed_a.1 < landed_b.1
            &&& a.1 == b.1 ==> landed_a.1 == landed_b.1
        }),
{
    let kept = cells.filter(|c: Coords| row_stays(cells, columns, c.1 as int));
    lemma_row_occupied(cells, a);
    lemma_row_occupied(cells, b);
    assert(kept.contains(a) && kept.contains(b));
    lemma_landing_rows(cells, columns, rows, a.1 as int, a.1 as int);
    lemma_landing_rows(cells, columns, rows, b.1 as int, b.1 as int);
    if a.1 < b.1 {
        lemma_landing_rows(cells, columns, rows, a.1 as int, b.1 as int);
    }
}

/// A clearing takes away the cells of the full rows and no others: the
/// cleared cells and the cells of full rows are together as many as the cells
/// were.
pub proof fn lemma_cleared_count(cells: Set<Coords>, columns: nat, rows: nat)
    requires
        cells.finite(),
        in_grid(cells, columns, rows),
        rows <= usize::MAX,
    ensures
        cleared(cells, columns, rows).finite(),
        cells.filter(|c: Coords| row_count(cells, c.1 as int) == columns).finite(),
        cleared(cells, columns, rows).len() + cells.filter(
            |c: Coords| row_count(cells, c.1 as int) == columns,
        ).len() == cells.len(),
{
    let stays = |c: Coords| row_stays(cells, columns, c.1 as int);
    let full = |c: Coords| row_count(cells, c.1 as int) == columns;
    let kept = cells.filter(stays);
    let gone = cells.filter(full);
    let land = |c: Coords| landed_cell(cells, columns, rows, c);
    cells.lemma_len_filter(stays);
    cells.lemma_len_filter(full);
    assert(kept.disjoint(gone));
    assert(kept + gone =~= cells) by {
        assert forall|c: Coords| cells.contains(c) implies kept.contains(c) || gone.contains(
            c,
        ) by {
            lemma_row_occupied(cells, c);
        }
    }
    vstd::set_lib::lemma_set_disjoint_lens(kept, gone);
    assert(injective_on(land, kept)) by {
        assert forall|a: Coords, b: Coords|
            kept.contains(a) && kept.contains(b) && #[trigger] land(a) == #[trigger] land(
                b,
            ) implies a == b by {
            lemma_landing_rows(cells, columns, rows, a.1 as int, a.1 as int);
            lemma_landing_rows(cells, columns, rows, b.1 as int, b.1 as int);
            if a.1 < b.1 {
                lemma_landing_rows(cells, columns, rows, a.1 as int, b.1 as int);
            }
            if b.1 < a.1 {
                lemma_landing_rows(cells, columns, rows, b.1 as int, a.1 as int);
            }
        }
    }
    assert(cleared(cells, columns, rows) == kept.map(land));
    lemma_map_size(kept, kept.map(land), land);
}

} // verus!
