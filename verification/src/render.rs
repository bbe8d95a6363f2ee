//! The display: what each place of the grid shows, and the text of a frame.

use crate::blocks::{Color, Coords};
use crate::board::{Board, BoardView};
use crate::cells::{lemma_list_as_set, one_per_place, same_place};
use crossterm::style;
use crossterm::style::Stylize;
use vstd::prelude::*;
use vstd::string::StringExecFns;

verus! {

/// What one place of the grid shows.
#[derive(Clone, Copy, Debug, PartialEq, Eq, Structural)]
pub enum Glyph {
    /// Nothing: a free place of the top row.
    Blank,
    /// The mark of a free place below the top row.
    Filler,
    /// A settled cell: a filled square of its colour.
    Settled(Color),
    /// A cell of the falling piece: the outline of a square of its colour.
    Falling(Color),
}

/// The text holds the part somewhere in it, as it is.
pub open spec fn holds(text: Seq<char>, part: Seq<char>) -> bool {
    exists|at: int|
        0 <= at && at + part.len() <= text.len() && #[trigger] text.subrange(
            at,
            at + part.len(),
        ) == part
}

/// A cell of the set sits on the place.
pub open spec fn occupied(cells: Set<Coords>, x: int, y: int) -> bool {
    exists|c: Coords| #[trigger] cells.contains(c) && c.0 == x && c.1 == y
}

/// The colour of the cell that sits on the place.
pub open spec fn color_at(cells: Set<Coords>, x: int, y: int) -> Color {
    (choose|c: Coords| #[trigger] cells.contains(c) && c.0 == x && c.1 == y).2
}

impl BoardView {
    /// What the place shows: the falling piece lies over the settled cells,
    /// and these over the empty grid.
    pub open spec fn glyph_at(self, x: int, y: int) -> Glyph {
        if occupied(self.falling, x, y) {
            Glyph::Falling(color_at(self.falling, x, y))
        } else if occupied(self.settled, x, y) {
            Glyph::Settled(color_at(self.settled, x, y))
        } else if y == 0 {
            Glyph::Blank
        } else {
            Glyph::Filler
        }
    }

    /// The texts of the places, row by row, are those of this board: as many
    /// rows and columns as the grid has, and each text that of the glyph of
    /// its place.
    pub open spec fn shown_by(self, texts: Seq<Seq<Seq<char>>>) -> bool {
        &&& texts.len() == self.rows
        &&& forall|y: int| 0 <= y < self.rows ==> (#[trigger] texts[y]).len() == self.columns
        &&& forall|x: int, y: int|
            0 <= y < self.rows && 0 <= x < self.columns ==> text_of(
                self.glyph_at(x, y),
                #[trigger] texts[y][x],
            )
    }
}

/// The mark that stands for the glyph: one blank for a free place of the top
/// row, one dot for a free place below it, a filled square for a settled cell
/// and the outline of a square for a cell of the falling piece.
pub open spec fn mark_of(glyph: Glyph) -> Seq<char> {
    match glyph {
        Glyph::Blank => seq![' '],
        Glyph::Filler => seq!['.'],
        Glyph::Settled(_) => seq!['■'],
        Glyph::Falling(_) => seq!['□'],
    }
}

/// The colour in which the mark of the glyph is painted: that of the cell,
/// and none for a free place.
pub open spec fn tint_of(glyph: Glyph) -> Option<Color> {
    match glyph {
        Glyph::Blank => None,
        Glyph::Filler => None,
        Glyph::Settled(color) => Some(color),
        Glyph::Falling(color) => Some(color),
    }
}

/// The text stands for a mark in the given colour: the mark itself where
/// there is no colour, and else a text that holds the mark. What surrounds
/// the mark sets its colour on the terminal and is left to the terminal
/// library.
pub open spec fn text_of_ink(mark: Seq<char>, tint: Option<Color>, text: Seq<char>) -> bool {
    match tint {
        None => text == mark,
        Some(_) => holds(text, mark),
    }
}

/// The text stands for the glyph: for its mark in its colour.
pub open spec fn text_of(glyph: Glyph, text: Seq<char>) -> bool {
    text_of_ink(mark_of(glyph), tint_of(glyph), text)
}

/// The letters of the title.
pub open spec fn title_letters() -> Seq<char> {
    seq!['T', 'E', 'T', 'R', 'U', 'S']
}

/// The colours of the letters of the title.
pub open spec fn title_colors() -> Seq<Color> {
    seq![
        Color::Red,
        Color::Rgb { r: 255, g: 127, b: 0 },
        Color::Yellow,
        Color::Green,
        Color::Cyan,
        Color::Magenta,
    ]
}

/// The parts, one after another.
pub open spec fn joined(parts: Seq<Seq<char>>) -> Seq<char>
    decreases parts.len(),
{
    if parts.len() == 0 {
        Seq::empty()
    } else {
        joined(parts.drop_last()) + parts.last()
    }
}

/// The text is a title of the game: six parts, one after another, of which
/// each holds its letter of the title. What surrounds a letter sets its colour
/// on the terminal and is left to the terminal library.
pub open spec fn is_title(title: Seq<char>) -> bool {
    exists|parts: Seq<Seq<char>>|
        parts.len() == title_letters().len() && title == #[trigger] joined(parts) && forall|
            i: int,
        |
            0 <= i < parts.len() ==> holds(#[trigger] parts[i], seq![title_letters()[i]])
}

/// A run of blanks.
pub open spec fn blanks(count: nat) -> Seq<char> {
    Seq::new(count, |i: int| ' ')
}

/// The text of one row: each place with a blank before it.
pub open spec fn line_text(texts: Seq<Seq<char>>) -> Seq<char>
    decreases texts.len(),
{
    if texts.len() == 0 {
        Seq::empty()
    } else {
        line_text(texts.drop_last()) + seq![' '] + texts.last()
    }
}

/// The text of the rows: each row indented, and a line break between two rows.
pub open spec fn lines_text(texts: Seq<Seq<Seq<char>>>, indent: nat) -> Seq<char>
    decreases texts.len(),
{
    if texts.len() == 0 {
        Seq::empty()
    } else if texts.len() == 1 {
        blanks(indent) + line_text(texts[0])
    } else {
        lines_text(texts.drop_last(), indent) + seq!['\n'] + blanks(indent) + line_text(
            texts.last(),
        )
    }
}

/// The text of a frame on a terminal of the given width: the title line,
/// indented to half the width less three, a line break, and the rows,
/// indented to half the width less the number of columns.
pub open spec fn frame_text(
    title: Seq<char>,
    texts: Seq<Seq<Seq<char>>>,
    term_width: nat,
    columns: nat,
) -> Seq<char> {
    blanks((term_width / 2 - 3) as nat) + title + seq!['\n'] + lines_text(
        texts,
        (term_width / 2 - columns) as nat,
    )
}

/// The glyph of a free place of the given row.
pub open spec fn free_glyph(y: int) -> Glyph {
    if y == 0 {
        Glyph::Blank
    } else {
        Glyph::Filler
    }
}

/// The grid shows the first `count` cells of the list, with the glyph that
/// `draw` gives each, over the glyphs of `under`.
spec fn overlaid(
    grid: Seq<Vec<Glyph>>,
    under: Seq<Vec<Glyph>>,
    cells: Seq<Coords>,
    count: int,
    falling: bool,
) -> bool {
    &&& grid.len() == under.len()
    &&& forall|y: int| 0 <= y < grid.len() ==> (#[trigger] grid[y])@.len() == under[y]@.len()
    &&& forall|x: int, y: int|
        0 <= y < grid.len() && 0 <= x < grid[y]@.len() ==> {
            &&& forall|k: int|
                0 <= k < count && (#[trigger] cells[k]).0 == x && cells[k].1 == y ==> grid[y]@[x]
                    == drawn(cells[k].2, falling)
            &&& (forall|k: int| 0 <= k < count ==> !((#[trigger] cells[k]).0 == x && cells[k].1 == y))
                ==> grid[y]@[x] == under[y]@[x]
        }
}

/// The glyph of a cell of the given colour.
spec fn drawn(color: Color, falling: bool) -> Glyph {
    if falling {
        Glyph::Falling(color)
    } else {
        Glyph::Settled(color)
    }
}

impl Board {
    /// Lays the cells of the list over the grid.
    fn overlay(grid: &mut Vec<Vec<Glyph>>, cells: &Vec<Coords>, falling: bool)
        requires
            one_per_place(cells@),
            forall|k: int|
                0 <= k < cells@.len() ==> (#[trigger] cells@[k]).1 < old(grid)@.len() && cells@[k].0
                    < old(grid)@[cells@[k].1 as int]@.len(),
        ensures
            overlaid(final(grid)@, old(grid)@, cells@, cells@.len() as int, falling),
    {
        let ghost under = grid@;
        let mut i: usize = 0;
        while i < cells.len()
            invariant
                i <= cells@.len(),
                one_per_place(cells@),
                forall|k: int|
                    0 <= k < cells@.len() ==> (#[trigger] cells@[k]).1 < under.len() && cells@[k].0
                        < under[cells@[k].1 as int]@.len(),
                overlaid(grid@, under, cells@, i as int, falling),
            decreases cells@.len() - i,
        {
            let (x, y, color) = cells[i];
            let ghost earlier = grid@;
            let glyph = if falling {
                Glyph::Falling(color)
            } else {
                Glyph::Settled(color)
            };
            grid[y][x] = glyph;
            proof {
                assert forall|a: int, b: int|
                    0 <= b < grid@.len() && 0 <= a < grid@[b]@.len() implies {
                    &&& forall|k: int|
                        0 <= k < i + 1 && (#[trigger] cells@[k]).0 == a && cells@[k].1 == b
                            ==> grid@[b]@[a] == drawn(cells@[k].2, falling)
                    &&& (forall|k: int|
                        0 <= k < i + 1 ==> !((#[trigger] cells@[k]).0 == a && cells@[k].1 == b))
                        ==> grid@[b]@[a] == under[b]@[a]
                } by {
                    assert(earlier[b]@.len() == under[b]@.len());
                    if a == x && b == y {
                        assert forall|k: int|
                            0 <= k < i + 1 && (#[trigger] cells@[k]).0 == a && cells@[k].1
                                == b implies grid@[b]@[a] == drawn(cells@[k].2, falling) by {
                            if k < i {
                                assert(!same_place(cells@[k], cells@[i as int]));
                            }
                        }
                        assert(cells@[i as int].0 == a && cells@[i as int].1 == b);
                    } else {
                        assert(grid@[b]@[a] == earlier[b]@[a]);
                    }
                }
            }
            i += 1;
        }
    }

    /// The glyph of each place of the grid, row by row from the top: the
    /// display of the board.
    pub fn project(&self) -> (grid: Vec<Vec<Glyph>>)
        requires
            self.wf(),
        ensures
            grid@.len() == self@.rows,
            forall|y: int| 0 <= y < self@.rows ==> (#[trigger] grid@[y])@.len() == self@.columns,
            forall|x: int, y: int|
                0 <= y < self@.rows && 0 <= x < self@.columns ==> #[trigger] grid@[y]@[x]
                    == self@.glyph_at(x, y),
    {
        let columns = self.columns_len();
        let rows = self.rows_len();
        let mut grid: Vec<Vec<Glyph>> = Vec::new();
        let mut y: usize = 0;
        while y < rows
            invariant
                y <= rows,
                grid@.len() == y,
                forall|b: int| 0 <= b < y ==> (#[trigger] grid@[b])@.len() == columns,
                forall|a: int, b: int|
                    0 <= b < y && 0 <= a < columns ==> #[trigger] grid@[b]@[a] == free_glyph(b),
            decreases rows - y,
        {
            let free = if y == 0 {
                Glyph::Blank
            } else {
                Glyph::Filler
            };
            let mut row: Vec<Glyph> = Vec::new();
            let mut x: usize = 0;
            while x < columns
                invariant
                    x <= columns,
                    row@.len() == x,
                    free == free_glyph(y as int),
                    forall|a: int| 0 <= a < x ==> #[trigger] row@[a] == free,
                decreases columns - x,
            {
                row.push(free);
                x += 1;
            }
            grid.push(row);
            y += 1;
        }
        let ghost empty = grid@;
        let settled = self.coordinates();
        let falling = self.block_coordinates();
        proof {
            assert forall|k: int| 0 <= k < settled@.len() implies (#[trigger] settled@[k]).1
                < rows && settled@[k].0 < columns by {
                assert(self@.settled.contains(settled@[k]));
            }
            assert forall|k: int| 0 <= k < falling@.len() implies (#[trigger] falling@[k]).1
                < rows && falling@[k].0 < columns by {
                assert(self@.falling.contains(falling@[k]));
            }
        }
        Self::overlay(&mut grid, settled, false);
        let ghost middle = grid@;
        Self::overlay(&mut grid, falling, true);
        proof {
            lemma_list_as_set(settled@);
            lemma_list_as_set(falling@);
            assert forall|x: int, y: int| 0 <= y < rows && 0 <= x < columns implies #[trigger] grid@[y]@[x]
                == self@.glyph_at(x, y) by {
                assert(middle[y]@.len() == empty[y]@.len());
                assert(grid@[y]@.len() == middle[y]@.len());
                if occupied(self@.falling, x, y) {
                    let c = choose|c: Coords| #[trigger]
                        self@.falling.contains(c) && c.0 == x && c.1 == y;
                    let k = choose|k: int| 0 <= k < falling@.len() && falling@[k] == c;
                    assert(falling@[k].0 == x && falling@[k].1 == y);
                } else {
                    assert forall|k: int| 0 <= k < falling@.len() implies !((#[trigger] falling@[k]).0
                        == x && falling@[k].1 == y) by {
                        if falling@[k].0 == x && falling@[k].1 == y {
                            assert(self@.falling.contains(falling@[k]));
                        }
                    }
                    if occupied(self@.settled, x, y) {
                        let c = choose|c: Coords| #[trigger]
                            self@.settled.contains(c) && c.0 == x && c.1 == y;
                        let k = choose|k: int| 0 <= k < settled@.len() && settled@[k] == c;
                        assert(settled@[k].0 == x && settled@[k].1 == y);
                    } else {
                        assert forall|k: int| 0 <= k < settled@.len() implies !((
                        #[trigger] settled@[k]).0 == x && settled@[k].1 == y) by {
                            if settled@[k].0 == x && settled@[k].1 == y {
                                assert(self@.settled.contains(settled@[k]));
                            }
                        }
                        assert(empty[y]@[x] == free_glyph(y));
                    }
                }
            }
        }
        grid
    }
}

/// Calls `Stylize::with` of crossterm on the text, with the colour of
/// crossterm that stands for the one given, and formats what comes back.
/// Where crossterm writes escape codes, it writes the text itself between the
/// codes that set and reset the colour; which codes it writes depends on the
/// terminal settings of the process. On a console that it drives through the
/// Windows API instead, it sets the colour there and writes nothing. So the
/// contract claims only that the result is empty or holds the text.
#[verifier::external_body]
fn paint(text: &str, color: Color) -> (painted: String)
    ensures
        painted@.len() == 0 || holds(painted@, text@),
{
    let tint = match color {
        Color::Yellow => style::Color::Yellow,
        Color::Magenta => style::Color::Magenta,
        Color::Cyan => style::Color::Cyan,
        Color::Blue => style::Color::Blue,
        Color::Red => style::Color::Red,
        Color::Green => style::Color::Green,
        Color::Rgb { r, g, b } => style::Color::Rgb { r, g, b },
    };
    text.with(tint).to_string()
}

/// The mark and the colour that stand for a glyph: what is handed on to be
/// painted.
pub fn glyph_ink(glyph: Glyph) -> (ink: (&'static str, Option<Color>))
    ensures
        ink.0@ == mark_of(glyph),
        ink.1 == tint_of(glyph),
{
    proof {
        reveal_strlit(" ");
        reveal_strlit(".");
        reveal_strlit("■");
        reveal_strlit("□");
        assert(" "@ =~= seq![' ']);
        assert("."@ =~= seq!['.']);
        assert("■"@ =~= seq!['■']);
        assert("□"@ =~= seq!['□']);
    }
    match glyph {
        Glyph::Blank => (" ", None),
        Glyph::Filler => (".", None),
        Glyph::Settled(color) => ("■", Some(color)),
        Glyph::Falling(color) => ("□", Some(color)),
    }
}

/// The letters of the title, each with its colour, in their order: what is
/// handed on to be painted.
pub fn title_ink() -> (ink: Vec<(&'static str, Color)>)
    ensures
        ink@.len() == title_letters().len(),
        forall|i: int|
            0 <= i < ink@.len() ==> (#[trigger] ink@[i]).0@ == seq![title_letters()[i]] && ink@[i].1
                == title_colors()[i],
{
    proof {
        reveal_strlit("T");
        reveal_strlit("E");
        reveal_strlit("R");
        reveal_strlit("U");
        reveal_strlit("S");
        assert("T"@ =~= seq!['T']);
        assert("E"@ =~= seq!['E']);
        assert("R"@ =~= seq!['R']);
        assert("U"@ =~= seq!['U']);
        assert("S"@ =~= seq!['S']);
    }
    let mut ink: Vec<(&'static str, Color)> = Vec::new();
    ink.push(("T", Color::Red));
    ink.push(("E", Color::Rgb { r: 255, g: 127, b: 0 }));
    ink.push(("T", Color::Yellow));
    ink.push(("R", Color::Green));
    ink.push(("U", Color::Cyan));
    ink.push(("S", Color::Magenta));
    ink
}

/// The text of a mark in the given colour. The colour is set by the
/// terminal library. Where that hands back an empty text, as it does on a
/// console that takes its colours through the Windows API, the bare mark
/// stands in its place, so that the mark is shown on every terminal.
pub fn ink_text(mark: &str, tint: Option<Color>) -> (text: String)
    ensures
        text_of_ink(mark@, tint, text@),
{
    match tint {
        None => String::from_str(mark),
        Some(color) => {
            let painted = paint(mark, color);
            if painted.as_str().is_empty() {
                let bare = String::from_str(mark);
                assert(bare@.subrange(0int, 0int + mark@.len()) =~= mark@);
                bare
            } else {
                painted
            }
        },
    }
}

/// The text that stands for a glyph.
fn glyph_text(glyph: Glyph) -> (text: String)
    ensures
        text_of(glyph, text@),
{
    let (mark, tint) = glyph_ink(glyph);
    ink_text(mark, tint)
}

/// The title of the game, each letter in a colour of its own.
fn title_text() -> (title: String)
    ensures
        is_title(title@),
{
    let ink = title_ink();
    let mut title = String::new();
    let ghost mut parts: Seq<Seq<char>> = Seq::empty();
    let mut i: usize = 0;
    while i < ink.len()
        invariant
            i <= ink@.len(),
            ink@.len() == title_letters().len(),
            forall|k: int|
                0 <= k < ink@.len() ==> (#[trigger] ink@[k]).0@ == seq![title_letters()[k]],
            parts.len() == i,
            title@ == joined(parts),
            forall|k: int| 0 <= k < i ==> holds(#[trigger] parts[k], seq![title_letters()[k]]),
        decreases ink@.len() - i,
    {
        let (letter, color) = ink[i];
        let part = ink_text(letter, Some(color));
        title.append(part.as_str());
        proof {
            let longer = parts.push(part@);
            assert(longer.drop_last() =~= parts);
            assert(longer.last() == part@);
            parts = longer;
        }
        i += 1;
    }
    title
}

/// A run of blanks.
fn padding(count: usize) -> (text: String)
    ensures
        text@ == blanks(count as nat),
{
    proof {
        reveal_strlit(" ");
    }
    let mut text = String::new();
    let mut i: usize = 0;
    while i < count
        invariant
            i <= count,
            text@ == blanks(i as nat),
            " "@ =~= seq![' '],
        decreases count - i,
    {
        text.append(" ");
        assert(text@ =~= blanks((i + 1) as nat));
        i += 1;
    }
    assert(text@ =~= blanks(count as nat));
    text
}

/// The text of a frame: the title line and the rows of texts, centred on a
/// terminal of the given width.
pub fn layout(title: &str, texts: &Vec<Vec<String>>, term_width: usize, columns_len: usize) -> (text:
    String)
    requires
        term_width / 2 >= 3,
        term_width / 2 >= columns_len,
    ensures
        text@ == frame_text(title@, texts.deep_view(), term_width as nat, columns_len as nat),
{
    proof {
        reveal_strlit(" ");
        reveal_strlit("\n");
    }
    let ghost all = texts.deep_view();
    let ghost indent_len = (term_width / 2 - columns_len) as nat;
    let mut text = padding(term_width / 2 - 3);
    text.append(title);
    text.append("\n");
    let ghost head = text@;
    assert(head =~= blanks((term_width / 2 - 3) as nat) + title@ + seq!['\n']);
    let indent = padding(term_width / 2 - columns_len);
    let mut y: usize = 0;
    while y < texts.len()
        invariant
            y <= texts@.len(),
            all == texts.deep_view(),
            indent@ == blanks(indent_len),
            " "@ =~= seq![' '],
            "\n"@ =~= seq!['\n'],
            text@ == head + lines_text(all.take(y as int), indent_len),
        decreases texts@.len() - y,
    {
        let ghost start = text@;
        if y > 0 {
            text.append("\n");
        }
        text.append(indent.as_str());
        let ghost lead = text@;
        let row = &texts[y];
        let ghost line = all[y as int];
        assert(line == row.deep_view());
        let mut x: usize = 0;
        while x < row.len()
            invariant
                x <= row@.len(),
                line == row.deep_view(),
                " "@ =~= seq![' '],
                text@ == lead + line_text(line.take(x as int)),
            decreases row@.len() - x,
        {
            text.append(" ");
            text.append(row[x].as_str());
            proof {
                assert(line.take(x + 1).drop_last() =~= line.take(x as int));
                assert(line.take(x + 1).last() == row@[x as int]@);
                assert(text@ =~= lead + line_text(line.take(x + 1)));
            }
            x += 1;
        }
        proof {
            assert(line.take(row@.len() as int) =~= line);
            assert(all.take(y + 1).drop_last() =~= all.take(y as int));
            assert(all.take(y + 1).last() == line);
            if y == 0 {
                assert(all.take(0) =~= Seq::empty());
                assert(all.take(1)[0] == line);
                assert(text@ =~= head + lines_text(all.take(y + 1), indent_len));
            } else {
                assert(text@ =~= head + lines_text(all.take(y + 1), indent_len));
            }
        }
        y += 1;
    }
    assert(all.take(texts@.len() as int) =~= all);
    text
}

impl Board {
    /// The text of a frame that shows the board: the title line and the
    /// rows of the grid, centred on a terminal of the given width. The board
    /// is not changed.
    pub fn get_formated_board(&self, term_width: usize) -> (text: String)
        requires
            self.wf(),
            term_width / 2 >= 3,
            term_width / 2 >= self@.columns,
        ensures
            exists|title: Seq<char>, texts: Seq<Seq<Seq<char>>>|
                is_title(title) && self@.shown_by(texts) && text@ == #[trigger] frame_text(
                    title,
                    texts,
                    term_width as nat,
                    self@.columns,
                ),
    {
        let grid = self.project();
        let mut texts: Vec<Vec<String>> = Vec::new();
        let mut y: usize = 0;
        while y < grid.len()
            invariant
                y <= grid@.len(),
                grid@.len() == self@.rows,
                forall|b: int| 0 <= b < self@.rows ==> (#[trigger] grid@[b])@.len() == self@.columns,
                forall|a: int, b: int|
                    0 <= b < self@.rows && 0 <= a < self@.columns ==> #[trigger] grid@[b]@[a]
                        == self@.glyph_at(a, b),
                texts@.len() == y,
                forall|b: int| 0 <= b < y ==> (#[trigger] texts@[b])@.len() == self@.columns,
                forall|a: int, b: int|
                    0 <= b < y && 0 <= a < self@.columns ==> text_of(
                        grid@[b]@[a],
                        (#[trigger] texts@[b]@[a])@,
                    ),
            decreases grid@.len() - y,
        {
            let mut row: Vec<String> = Vec::new();
            let mut x: usize = 0;
            while x < grid[y].len()
                invariant
                    y < grid@.len(),
                    x <= grid@[y as int]@.len(),
                    row@.len() == x,
                    forall|a: int|
                        0 <= a < x ==> text_of(grid@[y as int]@[a], (#[trigger] row@[a])@),
                decreases grid@[y as int]@.len() - x,
            {
                row.push(glyph_text(grid[y][x]));
                x += 1;
            }
            texts.push(row);
            y += 1;
        }
        let title = title_text();
        let text = layout(title.as_str(), &texts, term_width, self.columns_len());
        proof {
            let shown = texts.deep_view();
            assert forall|b: int| 0 <= b < self@.rows implies (#[trigger] shown[b]).len()
                == self@.columns by {
                assert(shown[b] == texts@[b].deep_view());
            }
            assert forall|a: int, b: int|
                0 <= b < self@.rows && 0 <= a < self@.columns implies text_of(
                self@.glyph_at(a, b),
                #[trigger] shown[b][a],
            ) by {
                assert(shown[b] == texts@[b].deep_view());
                assert(shown[b][a] == texts@[b]@[a]@);
                assert(grid@[b]@[a] == self@.glyph_at(a, b));
            }
            assert(self@.shown_by(shown));
        }
        text
    }
}

} // verus!
