use vstd::prelude::*;

use crate::text::{
    ascii_upper, char_is_alphabetic, chars_of, decimal, is_alphabetic, push_char, push_decimal,
    to_ascii_upper,
};

verus! {

/// One square of a crossword grid.
#[derive(Debug, Clone, Copy, PartialEq, Eq, Structural)]
pub enum Cell {
    Black,
    Empty,
    Filled(char),
}

/// The mathematical picture of a grid: its dimensions and its cells in
/// reading order (row by row, left to right).
pub struct GridModel {
    pub width: nat,
    pub height: nat,
    pub cells: Seq<Cell>,
}

impl GridModel {
    /// The cell sequence holds exactly one cell per square, and the sizes
    /// fit a `usize`.
    pub open spec fn wf(self) -> bool {
        &&& self.cells.len() == self.width * self.height
        &&& self.width * self.height <= usize::MAX
        &&& self.width <= usize::MAX
        &&& self.height <= usize::MAX
    }

    pub open spec fn in_bounds(self, r: int, c: int) -> bool {
        0 <= r < self.height && 0 <= c < self.width
    }

    /// Position of square `(r, c)` in the reading-order cell sequence.
    pub open spec fn index(self, r: int, c: int) -> int {
        r * self.width + c
    }

    pub open spec fn at(self, r: int, c: int) -> Cell {
        self.cells[self.index(r, c)]
    }

    pub open spec fn black(self, r: int, c: int) -> bool {
        self.at(r, c) is Black
    }

    /// The pattern of black squares is unchanged by a half turn of the
    /// grid: `(r, c)` is black exactly when `(height - 1 - r, width - 1 - c)`
    /// is.
    pub open spec fn symmetric(self) -> bool {
        forall|r: int, c: int|
            self.in_bounds(r, c) ==> #[trigger] self.black(r, c) == self.black(
                self.height - 1 - r,
                self.width - 1 - c,
            )
    }
}

/// Every square of a `w` by `h` grid has its own place in the cell sequence.
pub proof fn lemma_index_in_range(w: nat, h: nat, r: int, c: int)
    requires
        0 <= r < h,
        0 <= c < w,
    ensures
        0 <= r * w + c < w * h,
        r * w + c + 1 <= (r + 1) * w,
        (r + 1) * w <= w * h,
{
    assert(0 <= r * w + c < w * h) by (nonlinear_arith)
        requires
            0 <= r < h,
            0 <= c < w,
    ;
    assert(r * w + c + 1 <= (r + 1) * w) by (nonlinear_arith)
        requires
            0 <= c < w,
    ;
    assert((r + 1) * w <= w * h) by (nonlinear_arith)
        requires
            0 <= r < h,
    ;
}

/// Distinct squares have distinct places, and a place determines its square.
pub proof fn lemma_index_unique(w: nat, r1: int, c1: int, r2: int, c2: int)
    requires
        0 <= r1,
        0 <= r2,
        0 <= c1 < w,
        0 <= c2 < w,
        r1 * w + c1 == r2 * w + c2,
    ensures
        r1 == r2,
        c1 == c2,
{
    vstd::arithmetic::div_mod::lemma_fundamental_div_mod_converse(r1 * w + c1, w as int, r1, c1);
    vstd::arithmetic::div_mod::lemma_fundamental_div_mod_converse(r2 * w + c2, w as int, r2, c2);
}

/// A place in the cell sequence of a `w` by `h` grid belongs to the square
/// `(i / w, i % w)`.
pub proof fn lemma_index_split(w: nat, h: nat, i: int)
    requires
        0 <= i < w * h,
    ensures
        w > 0,
        0 <= i / (w as int) < h,
        0 <= i % (w as int) < w,
        i == (i / (w as int)) * w + i % (w as int),
{
    if w == 0 {
        assert(w * h == 0) by (nonlinear_arith)
            requires
                w == 0,
        ;
    }
    vstd::arithmetic::div_mod::lemma_fundamental_div_mod(i, w as int);
    vstd::arithmetic::mul::lemma_mul_is_commutative(w as int, i / (w as int));
    vstd::arithmetic::div_mod::lemma_mod_pos_bound(i, w as int);
    vstd::arithmetic::div_mod::lemma_div_pos_is_pos(i, w as int);
    let q = i / (w as int);
    assert(q < h) by (nonlinear_arith)
        requires
            i == q * w + i % (w as int),
            0 <= i % (w as int),
            i < w * h,
            w > 0,
    ;
}

/// Why a grid could not be parsed.
#[derive(Debug, Clone, PartialEq, Eq, Structural)]
pub enum GridError {
    Empty,
    RaggedRow { row: usize, expected: usize, found: usize },
    BadChar { row: usize, col: usize, ch: char },
}

/// The message that describes a parse error.
pub open spec fn grid_error_text(e: GridError) -> Seq<char> {
    match e {
        GridError::Empty => "grid has no rows"@,
        GridError::RaggedRow { row, expected, found } => "row "@ + decimal(row as nat) + " has "@
            + decimal(found as nat) + " columns, expected "@ + decimal(expected as nat),
        GridError::BadChar { row, col, ch } => "unrecognized character '"@ + seq![ch]
            + "' at row "@ + decimal(row as nat) + ", col "@ + decimal(col as nat),
    }
}

impl GridError {
    /// A human-readable description of the error.
    pub fn to_string(&self) -> (res: String)
        ensures
            res@ == grid_error_text(*self),
    {
        let mut out = String::new();
        match self {
            GridError::Empty => out.append("grid has no rows"),
            GridError::RaggedRow { row, expected, found } => {
                out.append("row ");
                push_decimal(&mut out, *row as u64);
                out.append(" has ");
                push_decimal(&mut out, *found as u64);
                out.append(" columns, expected ");
                push_decimal(&mut out, *expected as u64);
            },
            GridError::BadChar { row, col, ch } => {
                out.append("unrecognized character '");
                push_char(&mut out, *ch);
                out.append("' at row ");
                push_decimal(&mut out, *row as u64);
                out.append(", col ");
                push_decimal(&mut out, *col as u64);
            },
        }
        assert(out@ =~= grid_error_text(*self));
        out
    }
}

/// The square a character of the text form stands for: `#` a black square,
/// `.` an empty white square, an alphabetic character a filled square
/// (upper-cased if it is an ASCII letter); anything else stands for none.
pub open spec fn cell_of_char(ch: char) -> Option<Cell> {
    if ch == '#' {
        Some(Cell::Black)
    } else if ch == '.' {
        Some(Cell::Empty)
    } else if char_is_alphabetic(ch) {
        Some(Cell::Filled(ascii_upper(ch)))
    } else {
        None
    }
}

/// The square a character stands for, given whether it is alphabetic:
/// `#` a black square, `.` an empty one, an alphabetic character a filled
/// one (upper-cased if it is an ASCII letter), anything else none.
pub fn cell_for(ch: char, alphabetic: bool) -> (res: Option<Cell>)
    ensures
        res == (if ch == '#' {
            Some(Cell::Black)
        } else if ch == '.' {
            Some(Cell::Empty)
        } else if alphabetic {
            Some(Cell::Filled(ascii_upper(ch)))
        } else {
            None
        }),
{
    if ch == '#' {
        Some(Cell::Black)
    } else if ch == '.' {
        Some(Cell::Empty)
    } else if alphabetic {
        Some(Cell::Filled(to_ascii_upper(ch)))
    } else {
        None
    }
}

/// Row `r` is as wide as the first row and every character of it stands
/// for a square.
pub open spec fn row_ok(rows: Seq<Seq<char>>, r: int) -> bool {
    &&& rows[r].len() == rows[0].len()
    &&& forall|c: int| 0 <= c < rows[r].len() ==> (#[trigger] cell_of_char(rows[r][c])) is Some
}

/// The rows form a grid.
pub open spec fn rows_ok(rows: Seq<Seq<char>>) -> bool {
    rows.len() > 0 && forall|r: int| 0 <= r < rows.len() ==> #[trigger] row_ok(rows, r)
}

/// Row `r` is the first row (in order) that does not fit.
pub open spec fn first_bad_row(rows: Seq<Seq<char>>, r: int) -> bool {
    &&& 0 <= r < rows.len()
    &&& !row_ok(rows, r)
    &&& forall|r2: int| 0 <= r2 < r ==> #[trigger] row_ok(rows, r2)
}

/// The square at place `i` of the grid read from `rows`, `w` squares wide.
pub open spec fn cell_from_rows(rows: Seq<Seq<char>>, w: nat, i: int) -> Cell {
    match cell_of_char(rows[i / (w as int)][i % (w as int)]) {
        Some(cell) => cell,
        None => Cell::Empty,
    }
}

/// The grid that rows of text describe.
pub open spec fn grid_of_rows(rows: Seq<Seq<char>>) -> GridModel {
    GridModel {
        width: rows[0].len(),
        height: rows.len(),
        cells: Seq::new(rows[0].len() * rows.len(), |i: int| cell_from_rows(rows, rows[0].len(), i)),
    }
}

pub open spec fn rows_view(rows: Seq<&str>) -> Seq<Seq<char>> {
    rows.map_values(|s: &str| s@)
}

/// The character that stands for a square in the text form.
pub open spec fn char_of_cell(cell: Cell) -> char {
    match cell {
        Cell::Black => '#',
        Cell::Empty => '.',
        Cell::Filled(ch) => ch,
    }
}

impl GridModel {
    /// Row `r` in the text form.
    pub open spec fn row_text(self, r: int) -> Seq<char> {
        Seq::new(self.width, |c: int| char_of_cell(self.at(r, c)))
    }

    /// All rows in the text form.
    pub open spec fn text_rows(self) -> Seq<Seq<char>> {
        Seq::new(self.height, |r: int| self.row_text(r))
    }

    /// The text form of the first `r` rows: each row, followed by a line
    /// break unless it is the last row of the grid.
    pub open spec fn text_upto(self, r: nat) -> Seq<char>
        decreases r,
    {
        if r == 0 {
            seq![]
        } else {
            self.text_upto((r - 1) as nat) + self.row_text(r - 1) + if r < self.height {
                seq!['\n']
            } else {
                seq![]
            }
        }
    }

    /// The text form of the grid: its rows joined by line breaks.
    pub open spec fn text(self) -> Seq<char> {
        self.text_upto(self.height)
    }
}

/// A character that reads back as the same filled square.
pub open spec fn letter_round_trips(ch: char) -> bool {
    ch != '#' && ch != '.' && char_is_alphabetic(ch) && ascii_upper(ch) == ch
}

/// Reading a grid's own text form back gives the same grid, whenever the
/// grid has a row and each of its letters reads back as itself.
pub proof fn lemma_text_round_trip(g: GridModel)
    requires
        g.wf(),
        g.height > 0,
        forall|r: int, c: int|
            g.in_bounds(r, c) && #[trigger] g.at(r, c) is Filled ==> letter_round_trips(
                g.at(r, c)->Filled_0,
            ),
    ensures
        rows_ok(g.text_rows()),
        grid_of_rows(g.text_rows()) == g,
{
    let rows = g.text_rows();
    assert forall|r: int, c: int| g.in_bounds(r, c) implies cell_of_char(
        #[trigger] rows[r][c],
    ) == Some(g.at(r, c)) by {
        assert(rows[r][c] == char_of_cell(g.at(r, c)));
    }
    assert forall|r: int| 0 <= r < rows.len() implies #[trigger] row_ok(rows, r) by {
        assert forall|c: int| 0 <= c < rows[r].len() implies (#[trigger] cell_of_char(
            rows[r][c],
        )) is Some by {
            assert(g.in_bounds(r, c));
        }
    }
    let h = grid_of_rows(rows);
    assert(h.cells.len() == g.cells.len()) by {
        assert(g.width * g.height == rows[0].len() * rows.len());
    }
    assert forall|i: int| 0 <= i < g.cells.len() implies h.cells[i] == g.cells[i] by {
        lemma_index_split(g.width, g.height, i);
        let r = i / (g.width as int);
        let c = i % (g.width as int);
        assert(g.in_bounds(r, c));
        assert(cell_of_char(rows[r][c]) == Some(g.at(r, c)));
    }
    assert(h.cells =~= g.cells);
}

/// Reading a square back after writing it gives what was written, and every
/// other square keeps its value.
pub proof fn lemma_set_read_back(g: GridModel, r: int, c: int, cell: Cell, r2: int, c2: int)
    requires
        g.wf(),
        g.in_bounds(r, c),
        g.in_bounds(r2, c2),
    ensures
        (GridModel { cells: g.cells.update(g.index(r, c), cell), ..g }).at(r2, c2) == if r2 == r
            && c2 == c {
            cell
        } else {
            g.at(r2, c2)
        },
{
    lemma_index_in_range(g.width, g.height, r, c);
    lemma_index_in_range(g.width, g.height, r2, c2);
    if g.index(r, c) == g.index(r2, c2) {
        lemma_index_unique(g.width, r, c, r2, c2);
    }
}

/// How a character of accepted text comes back when the parsed grid is
/// printed: `#` and `.` unchanged, letters upper-cased.
pub open spec fn printed_char(ch: char) -> char {
    if ch == '#' || ch == '.' {
        ch
    } else {
        ascii_upper(ch)
    }
}

/// Printing a parsed grid gives back the text it was parsed from, with
/// ASCII letters upper-cased.
pub proof fn lemma_parse_then_print(rows: Seq<Seq<char>>)
    requires
        rows_ok(rows),
    ensures
        grid_of_rows(rows).text_rows() == rows.map_values(
            |row: Seq<char>| row.map_values(|ch: char| printed_char(ch)),
        ),
{
    let g = grid_of_rows(rows);
    let expect = rows.map_values(|row: Seq<char>| row.map_values(|ch: char| printed_char(ch)));
    let w = rows[0].len();
    let h = rows.len();
    assert forall|r: int| 0 <= r < h implies #[trigger] g.text_rows()[r] == expect[r] by {
        assert(row_ok(rows, r));
        assert forall|c: int| 0 <= c < w implies g.row_text(r)[c] == expect[r][c] by {
            assert(g.index(r, c) == r * w + c);
            assert(0 <= r * w + c < w * h) by (nonlinear_arith)
                requires
                    0 <= r < h,
                    0 <= c < w,
            ;
            vstd::arithmetic::div_mod::lemma_fundamental_div_mod_converse(
                r * w + c,
                w as int,
                r,
                c,
            );
            vstd::arithmetic::mul::lemma_mul_is_commutative(w as int, h as int);
            assert(cell_of_char(rows[r][c]) is Some);
        }
        assert(g.row_text(r) =~= expect[r]);
    }
    assert(g.text_rows() =~= expect);
}

/// What a character of the text form makes: `#` exactly a black square,
/// `.` exactly an empty one, a filled square only from an alphabetic
/// character (holding it upper-cased), and no square from any other
/// character.
pub proof fn lemma_char_meaning(ch: char)
    ensures
        (cell_of_char(ch) == Some(Cell::Black)) <==> ch == '#',
        (cell_of_char(ch) == Some(Cell::Empty)) <==> ch == '.',
        cell_of_char(ch) is None <==> (ch != '#' && ch != '.' && !char_is_alphabetic(ch)),
        forall|x: char|
            #[trigger] cell_of_char(ch) == Some(Cell::Filled(x)) ==> char_is_alphabetic(ch) && x
                == ascii_upper(ch),
{
}

/// The square of a parsed grid at `(r, c)` comes from the character at
/// `(r, c)` of the text: black exactly for `#`, empty exactly for `.`, and
/// otherwise filled with the upper-cased alphabetic character.
pub proof fn lemma_grid_of_rows_squares(rows: Seq<Seq<char>>, r: int, c: int)
    requires
        rows_ok(rows),
        0 <= r < rows.len(),
        0 <= c < rows[0].len(),
    ensures
        ({
            let g = grid_of_rows(rows);
            let ch = rows[r][c];
            &&& g.in_bounds(r, c)
            &&& (g.at(r, c) is Black <==> ch == '#')
            &&& (g.at(r, c) is Empty <==> ch == '.')
            &&& (g.at(r, c) is Filled ==> char_is_alphabetic(ch) && g.at(r, c) == Cell::Filled(
                ascii_upper(ch),
            ))
        }),
{
    let w = rows[0].len();
    let h = rows.len();
    assert(row_ok(rows, r));
    assert(0 <= r * w + c < w * h) by (nonlinear_arith)
        requires
            0 <= r < h,
            0 <= c < w,
    ;
    vstd::arithmetic::div_mod::lemma_fundamental_div_mod_converse(r * w + c, w as int, r, c);
    assert(cell_of_char(rows[r][c]) is Some);
    lemma_char_meaning(rows[r][c]);
}

/// A crossword grid of black, empty and filled squares.
#[derive(Debug, PartialEq, Eq)]
pub struct Grid {
    width: usize,
    height: usize,
    cells: Vec<Cell>,
}

impl View for Grid {
    type V = GridModel;

    closed spec fn view(&self) -> GridModel {
        GridModel { width: self.width as nat, height: self.height as nat, cells: self.cells@ }
    }
}

impl Grid {
    /// Every grid holds one cell per square, and its size fits a `usize`.
    #[verifier::type_invariant]
    pub open spec fn well_formed(self) -> bool {
        self@.wf()
    }
}

impl Clone for Grid {
    fn clone(&self) -> (res: Self)
        ensures
            res@ == self@,
    {
        proof {
            use_type_invariant(self);
        }
        let mut cells: Vec<Cell> = Vec::with_capacity(self.cells.len());
        for i in 0..self.cells.len()
            invariant
                cells@ == self.cells@.take(i as int),
        {
            cells.push(self.cells[i]);
            assert(cells@ =~= self.cells@.take(i + 1));
        }
        assert(cells@ =~= self.cells@);
        Grid { width: self.width, height: self.height, cells }
    }
}

impl Grid {
    /// A `width` by `height` grid of empty white squares.
    pub fn new(width: usize, height: usize) -> (res: Grid)
        requires
            width * height <= usize::MAX,
        ensures
            res@.wf(),
            res@.width == width,
            res@.height == height,
            res@.cells == Seq::new((width * height) as nat, |i: int| Cell::Empty),
    {
        let n = width * height;
        let mut cells: Vec<Cell> = Vec::with_capacity(n);
        for i in 0..n
            invariant
                cells@ == Seq::new(i as nat, |j: int| Cell::Empty),
        {
            cells.push(Cell::Empty);
            assert(cells@ =~= Seq::new((i + 1) as nat, |j: int| Cell::Empty));
        }
        Grid { width, height, cells }
    }

    /// Parse rows of text into a grid. `#` marks a black square, `.` an
    /// empty white square, and any alphabetic character a filled square
    /// (ASCII letters are stored upper-cased). The first row sets the width;
    /// the first row of another width, or else the first character that
    /// stands for no square, in reading order, is reported.
    pub fn from_rows(rows: &[&str]) -> (res: Result<Grid, GridError>)
        requires
            rows@.len() > 0 ==> rows@.len() * rows@[0]@.len() <= usize::MAX,
        ensures
            (res == Err::<Grid, GridError>(GridError::Empty)) <==> rows@.len() == 0,
            res is Ok <==> rows_ok(rows_view(rows@)),
            res matches Ok(g) ==> g@ == grid_of_rows(rows_view(rows@)) && g@.wf(),
            res matches Ok(g) ==> g@.height == rows@.len() && g@.width == rows@[0]@.len(),
            res matches Ok(g) ==> forall|r: int, c: int|
                0 <= r < rows@.len() && 0 <= c < rows@[0]@.len() ==> {
                    let ch = rows_view(rows@)[r][c];
                    &&& (#[trigger] g@.at(r, c) is Black <==> ch == '#')
                    &&& (g@.at(r, c) is Empty <==> ch == '.')
                    &&& (g@.at(r, c) is Filled ==> char_is_alphabetic(ch) && g@.at(r, c)
                        == Cell::Filled(ascii_upper(ch)))
                },
            res matches Err(GridError::RaggedRow { row, expected, found }) ==> {
                &&& first_bad_row(rows_view(rows@), row as int)
                &&& rows@[row as int]@.len() != rows@[0]@.len()
                &&& expected == rows@[0]@.len()
                &&& found == rows@[row as int]@.len()
            },
            res matches Err(GridError::BadChar { row, col, ch }) ==> {
                &&& first_bad_row(rows_view(rows@), row as int)
                &&& rows@[row as int]@.len() == rows@[0]@.len()
                &&& col < rows@[row as int]@.len()
                &&& ch == rows@[row as int]@[col as int]
                &&& cell_of_char(ch) is None
                &&& ch != '#' && ch != '.' && !char_is_alphabetic(ch)
                &&& forall|c: int|
                    0 <= c < col ==> (#[trigger] cell_of_char(rows@[row as int]@[c])) is Some
            },
    {
        let ghost rv = rows_view(rows@);
        let height = rows.len();
        if height == 0 {
            return Err(GridError::Empty);
        }
        let width = chars_of(rows[0]).len();
        assert(rv[0] == rows@[0]@);
        proof {
            vstd::arithmetic::mul::lemma_mul_is_commutative(width as int, height as int);
        }
        let mut cells: Vec<Cell> = Vec::with_capacity(width * height);
        assert(0 * width == 0);
        for row in 0..height
            invariant
                rv == rows_view(rows@),
                height == rows@.len(),
                width == rv[0].len(),
                width * height <= usize::MAX,
                cells@.len() == row * width,
                forall|i: int| 0 <= i < row * width ==> #[trigger] cells@[i] == cell_from_rows(rv, width as nat, i),
                forall|r: int| 0 <= r < row ==> #[trigger] row_ok(rv, r),
        {
            let chars = chars_of(rows[row]);
            assert(rv[row as int] == chars@);
            if chars.len() != width {
                assert(!row_ok(rv, row as int));
                return Err(GridError::RaggedRow { row, expected: width, found: chars.len() });
            }
            proof {
                assert(row * width + width <= width * height) by (nonlinear_arith)
                    requires
                        row < height,
                ;
            }
            for col in 0..chars.len()
                invariant
                    rv == rows_view(rows@),
                    height == rows@.len(),
                    width == rv[0].len(),
                    width * height <= usize::MAX,
                    row < height,
                    chars@ == rv[row as int],
                    chars@.len() == width,
                    row * width + width <= width * height,
                    cells@.len() == row * width + col,
                    forall|i: int|
                        0 <= i < row * width + col ==> #[trigger] cells@[i] == cell_from_rows(
                            rv,
                            width as nat,
                            i,
                        ),
                    forall|r: int| 0 <= r < row ==> #[trigger] row_ok(rv, r),
                    forall|c: int| 0 <= c < col ==> (#[trigger] cell_of_char(chars@[c])) is Some,
            {
                let ch = chars[col];
                let cell = match cell_for(ch, is_alphabetic(ch)) {
                    Some(cell) => cell,
                    None => {
                        assert(cell_of_char(rv[row as int][col as int]) is None);
                        assert(!row_ok(rv, row as int));
                        return Err(GridError::BadChar { row, col, ch });
                    },
                };
                proof {
                    vstd::arithmetic::div_mod::lemma_fundamental_div_mod_converse(
                        row * width + col,
                        width as int,
                        row as int,
                        col as int,
                    );
                }
                cells.push(cell);
            }
            assert(row_ok(rv, row as int));
            assert((row + 1) * width == row * width + width) by (nonlinear_arith);
        }
        let grid = Grid { width, height, cells };
        proof {
            vstd::arithmetic::mul::lemma_mul_is_commutative(width as int, height as int);
            assert(grid@.cells =~= grid_of_rows(rv).cells);
            assert forall|r: int, c: int| 0 <= r < rows@.len() && 0 <= c < rows@[0]@.len() implies {
                let ch = rv[r][c];
                &&& (#[trigger] grid@.at(r, c) is Black <==> ch == '#')
                &&& (grid@.at(r, c) is Empty <==> ch == '.')
                &&& (grid@.at(r, c) is Filled ==> char_is_alphabetic(ch) && grid@.at(r, c)
                    == Cell::Filled(ascii_upper(ch)))
            } by {
                lemma_grid_of_rows_squares(rv, r, c);
            }
        }
        Ok(grid)
    }

    /// The text form of the grid: `#` for a black square, `.` for an empty
    /// one, the letter of a filled one, rows separated by line breaks.
    pub fn to_string(&self) -> (res: String)
        ensures
            res@ == self@.text(),
    {
        proof {
            use_type_invariant(self);
        }
        let ghost g = self@;
        let mut out = String::new();
        for row in 0..self.height
            invariant
                g == self@,
                g.wf(),
                out@ == g.text_upto(row as nat),
        {
            for col in 0..self.width
                invariant
                    g == self@,
                    g.wf(),
                    row < g.height,
                    out@ == g.text_upto(row as nat) + g.row_text(row as int).take(col as int),
            {
                proof {
                    lemma_index_in_range(g.width, g.height, row as int, col as int);
                }
                let ch = match self.cell(row, col) {
                    Cell::Black => '#',
                    Cell::Empty => '.',
                    Cell::Filled(c) => c,
                };
                push_char(&mut out, ch);
                assert(g.row_text(row as int).take(col + 1) =~= g.row_text(row as int).take(
                    col as int,
                ).push(ch));
            }
            assert(g.row_text(row as int).take(g.width as int) =~= g.row_text(row as int));
            if row + 1 < self.height {
                push_char(&mut out, '\n');
            }
            assert(out@ =~= g.text_upto((row + 1) as nat));
        }
        out
    }

    pub fn width(&self) -> (res: usize)
        ensures
            res == self@.width,
    {
        self.width
    }

    pub fn height(&self) -> (res: usize)
        ensures
            res == self@.height,
    {
        self.height
    }

    fn index(&self, row: usize, col: usize) -> (res: usize)
        requires
            self@.wf(),
            row * self@.width + col < self@.cells.len(),
        ensures
            res == self@.index(row as int, col as int),
    {
        row * self.width + col
    }

    /// The square at `(row, col)`, read from place `row * width + col`.
    pub fn cell(&self, row: usize, col: usize) -> (res: Cell)
        requires
            row * self@.width + col < self@.cells.len(),
        ensures
            res == self@.at(row as int, col as int),
    {
        proof {
            use_type_invariant(self);
        }
        self.cells[self.index(row, col)]
    }

    /// Overwrite the square at `(row, col)`.
    pub fn set(&mut self, row: usize, col: usize, cell: Cell)
        requires
            row * old(self)@.width + col < old(self)@.cells.len(),
        ensures
            final(self)@.wf(),
            final(self)@ == (GridModel {
                cells: old(self)@.cells.update(old(self)@.index(row as int, col as int), cell),
                ..old(self)@
            }),
    {
        proof {
            use_type_invariant(&*self);
        }
        let idx = self.index(row, col);
        self.cells[idx] = cell;
    }

    /// Whether the square `(row, col)` is black.
    pub(crate) fn is_black(&self, row: usize, col: usize) -> (res: bool)
        requires
            self@.wf(),
            self@.in_bounds(row as int, col as int),
        ensures
            res == self@.black(row as int, col as int),
    {
        proof {
            lemma_index_in_range(self@.width, self@.height, row as int, col as int);
        }
        match self.cell(row, col) {
            Cell::Black => true,
            _ => false,
        }
    }

    /// Standard American crossword rule: the pattern of black squares reads
    /// the same after the grid is turned by 180 degrees.
    pub fn has_rotational_symmetry(&self) -> (res: bool)
        ensures
            res == self@.symmetric(),
    {
        proof {
            use_type_invariant(self);
        }
        let ghost g = self@;
        for row in 0..self.height
            invariant
                g == self@,
                g.wf(),
                forall|r: int, c: int|
                    0 <= r < row && 0 <= c < g.width ==> #[trigger] g.black(r, c) == g.black(
                        g.height - 1 - r,
                        g.width - 1 - c,
                    ),
        {
            for col in 0..self.width
                invariant
                    g == self@,
                    g.wf(),
                    row < g.height,
                    forall|r: int, c: int|
                        (0 <= r < row && 0 <= c < g.width) || (r == row && 0 <= c < col)
                            ==> #[trigger] g.black(r, c) == g.black(
                            g.height - 1 - r,
                            g.width - 1 - c,
                        ),
            {
                let mirror_row = self.height - 1 - row;
                let mirror_col = self.width - 1 - col;
                if self.is_black(row, col) != self.is_black(mirror_row, mirror_col) {
                    return false;
                }
            }
        }
        true
    }
}

} // verus!
