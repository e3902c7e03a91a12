use vstd::prelude::*;

use crate::grid::{lemma_index_in_range, Cell, Grid, GridModel};
use crate::slots::{lemma_slots_complete, lemma_slots_sound, Direction, Slot};
use crate::text::{decimal, push_char, push_decimal};

verus! {

/// How a square appears in the ipuz "puzzle" array: `"#"` for a black
/// square, its number if it starts an entry, `0` otherwise.
pub open spec fn puzzle_cell_text(g: GridModel, r: int, c: int) -> Seq<char> {
    if g.black(r, c) {
        "\"#\""@
    } else if g.numbered(r, c) {
        decimal(g.numbered_before(r as nat, c as nat) + 1)
    } else {
        seq!['0']
    }
}

/// A lower-case hexadecimal digit, for `d < 16`.
pub open spec fn hex_digit(d: nat) -> char {
    if d < 10 {
        ((d as int) + 48) as char
    } else {
        ((d as int) + 87) as char
    }
}

/// How a character is written inside a JSON string: a quote or a backslash
/// behind a backslash, a control character (below U+0020) as `\u00XX`,
/// anything else as itself.
pub open spec fn json_char(ch: char) -> Seq<char> {
    if ch == '"' {
        seq!['\\', '"']
    } else if ch == '\\' {
        seq!['\\', '\\']
    } else if (ch as int) < 0x20 {
        seq!['\\', 'u', '0', '0', hex_digit((ch as nat) / 16), hex_digit((ch as nat) % 16)]
    } else {
        seq![ch]
    }
}

/// How a square appears in the ipuz "solution" array: `"#"` for a black
/// square, its letter as a JSON string if filled, `null` if empty.
pub open spec fn solution_cell_text(g: GridModel, r: int, c: int) -> Seq<char> {
    match g.at(r, c) {
        Cell::Black => "\"#\""@,
        Cell::Filled(ch) => seq!['"'] + json_char(ch) + seq!['"'],
        Cell::Empty => "null"@,
    }
}

pub open spec fn cell_text(g: GridModel, solution: bool, r: int, c: int) -> Seq<char> {
    if solution {
        solution_cell_text(g, r, c)
    } else {
        puzzle_cell_text(g, r, c)
    }
}

/// The first `c` squares of row `r`, separated by ", ".
pub open spec fn cells_upto(g: GridModel, solution: bool, r: int, c: nat) -> Seq<char>
    decreases c,
{
    if c == 0 {
        seq![]
    } else {
        cells_upto(g, solution, r, (c - 1) as nat) + (if c - 1 > 0 {
            ", "@
        } else {
            seq![]
        }) + cell_text(g, solution, r, c - 1)
    }
}

/// One row of an ipuz array, indented, with a comma after every row but
/// the last.
pub open spec fn array_row(g: GridModel, solution: bool, r: int) -> Seq<char> {
    "    ["@ + cells_upto(g, solution, r, g.width) + seq![']'] + if r + 1 < g.height {
        ",\n"@
    } else {
        "\n"@
    }
}

/// The first `r` rows of an ipuz array.
pub open spec fn rows_upto(g: GridModel, solution: bool, r: nat) -> Seq<char>
    decreases r,
{
    if r == 0 {
        seq![]
    } else {
        rows_upto(g, solution, (r - 1) as nat) + array_row(g, solution, r - 1)
    }
}

/// The ipuz document (http://www.ipuz.org) for grid `g`.
pub open spec fn ipuz_text(g: GridModel) -> Seq<char> {
    "{\n"@ + "  \"version\": \"http://ipuz.org/v2\",\n"@
        + "  \"kind\": [\"http://ipuz.org/crossword#1\"],\n"@ + "  \"dimensions\": {\"width\": "@
        + decimal(g.width) + ", \"height\": "@ + decimal(g.height) + "},\n"@ + "  \"puzzle\": [\n"@
        + rows_upto(g, false, g.height) + "  ],\n"@ + "  \"solution\": [\n"@ + rows_upto(
        g,
        true,
        g.height,
    ) + "  ]\n"@ + seq!['}']
}

/// The document opens with its version and kind, then the dimensions line:
/// the grid's width, written in decimal, after `"width": `, and its height
/// after `"height": `.
pub proof fn lemma_ipuz_dimensions(g: GridModel)
    ensures
        exists|rest: Seq<char>|
            ipuz_text(g) == "{\n"@ + "  \"version\": \"http://ipuz.org/v2\",\n"@
                + "  \"kind\": [\"http://ipuz.org/crossword#1\"],\n"@
                + "  \"dimensions\": {\"width\": "@ + decimal(g.width) + ", \"height\": "@
                + decimal(g.height) + "},\n"@ + rest,
{
    let head = "{\n"@ + "  \"version\": \"http://ipuz.org/v2\",\n"@
        + "  \"kind\": [\"http://ipuz.org/crossword#1\"],\n"@ + "  \"dimensions\": {\"width\": "@
        + decimal(g.width) + ", \"height\": "@ + decimal(g.height) + "},\n"@;
    let rest = "  \"puzzle\": [\n"@ + rows_upto(g, false, g.height) + "  ],\n"@
        + "  \"solution\": [\n"@ + rows_upto(g, true, g.height) + "  ]\n"@ + seq!['}'];
    assert(ipuz_text(g) =~= head + rest);
}

/// In the "puzzle" array, the square where an entry starts shows that
/// entry's number, and in the "solution" array a filled square shows its
/// letter as a one-character JSON string (escaped where JSON needs it).
pub proof fn lemma_ipuz_cells_follow_entries(g: GridModel, i: int, r: int, c: int)
    requires
        g.wf(),
        g.numbered_count() <= u32::MAX,
        0 <= i < g.slots().len(),
    ensures
        ({
            let s = g.slots()[i];
            puzzle_cell_text(g, s.row as int, s.col as int) == decimal(s.number as nat)
        }),
        g.in_bounds(r, c) && g.at(r, c) is Filled && g.at(r, c)->Filled_0 != '"'
            && g.at(r, c)->Filled_0 != '\\' && (g.at(r, c)->Filled_0 as int) >= 0x20
            ==> solution_cell_text(g, r, c) == seq!['"', g.at(r, c)->Filled_0, '"'],
{
    lemma_slots_sound(g);
    let s = g.slots()[i];
    assert(g.slot_ok(s));
    if g.in_bounds(r, c) && g.at(r, c) is Filled {
        let ch = g.at(r, c)->Filled_0;
        if ch != '"' && ch != '\\' && (ch as int) >= 0x20 {
            assert(solution_cell_text(g, r, c) =~= seq!['"', ch, '"']);
        }
    }
}

fn hex_char(d: u8) -> (res: char)
    requires
        d < 16,
    ensures
        res == hex_digit(d as nat),
{
    if d < 10 {
        (d + 48) as char
    } else {
        (d + 87) as char
    }
}

/// Append `ch` as it is written inside a JSON string.
fn push_json_char(out: &mut String, ch: char)
    ensures
        final(out)@ == old(out)@ + json_char(ch),
{
    if ch == '"' {
        push_char(out, '\\');
        push_char(out, '"');
    } else if ch == '\\' {
        push_char(out, '\\');
        push_char(out, '\\');
    } else if (ch as u32) < 32 {
        let b = ch as u8;
        push_char(out, '\\');
        push_char(out, 'u');
        push_char(out, '0');
        push_char(out, '0');
        push_char(out, hex_char(b / 16));
        push_char(out, hex_char(b % 16));
    } else {
        push_char(out, ch);
    }
    assert(out@ =~= old(out)@ + json_char(ch));
}

/// Number of each square: its entry number if it starts an entry, else 0.
fn square_numbers(grid: &Grid, slots: &Vec<Slot>) -> (res: Vec<u32>)
    requires
        grid@.wf(),
        grid@.numbered_count() <= u32::MAX,
        slots@ == grid@.slots(),
    ensures
        numbers_ok(grid@, res@),
{
    let ghost g = grid@;
    let n = grid.width() * grid.height();
    let mut numbers: Vec<u32> = Vec::with_capacity(n);
    for i in 0..n
        invariant
            numbers@ == Seq::new(i as nat, |j: int| 0u32),
    {
        numbers.push(0);
        assert(numbers@ =~= Seq::new((i + 1) as nat, |j: int| 0u32));
    }
    proof {
        lemma_slots_sound(g);
        assert forall|r: int, c: int| g.in_bounds(r, c) implies #[trigger] numbers@[g.index(r, c)]
            == 0 by {
            lemma_index_in_range(g.width, g.height, r, c);
        }
    }
    for k in 0..slots.len()
        invariant
            g == grid@,
            g.wf(),
            g.numbered_count() <= u32::MAX,
            slots@ == g.slots(),
            numbers@.len() == g.cells.len(),
            forall|i: int|
                0 <= i < g.slots().len() ==> {
                    let s = #[trigger] g.slots()[i];
                    &&& g.slot_ok(s)
                    &&& g.in_bounds(s.row as int, s.col as int)
                    &&& s.len >= 2
                    &&& 1 <= s.number <= g.numbered_count()
                },
            forall|r: int, c: int|
                g.in_bounds(r, c) ==> #[trigger] numbers@[g.index(r, c)] == if exists|j: int|
                    0 <= j < k && (#[trigger] slots@[j]).row == r && slots@[j].col == c {
                    g.numbered_before(r as nat, c as nat) + 1
                } else {
                    0
                },
    {
        let slot = &slots[k];
        let ghost s = *slot;
        assert(g.slot_ok(s));
        proof {
            lemma_index_in_range(g.width, g.height, slot.row as int, slot.col as int);
        }
        let idx = slot.row * grid.width() + slot.col;
        let ghost before = numbers@;
        numbers.set(idx, slot.number);
        assert forall|r: int, c: int| g.in_bounds(r, c) implies #[trigger] numbers@[g.index(r, c)]
            == if exists|j: int| 0 <= j < k + 1 && (#[trigger] slots@[j]).row == r && slots@[j].col == c {
            g.numbered_before(r as nat, c as nat) + 1
        } else {
            0
        } by {
            lemma_index_in_range(g.width, g.height, r, c);
            if r == s.row && c == s.col {
                assert(slots@[k as int] == s);
            } else {
                crate::grid::lemma_index_in_range(g.width, g.height, s.row as int, s.col as int);
                if g.index(r, c) == g.index(s.row as int, s.col as int) {
                    crate::grid::lemma_index_unique(g.width, r, c, s.row as int, s.col as int);
                }
                assert(numbers@[g.index(r, c)] == before[g.index(r, c)]);
                if exists|j: int| 0 <= j < k + 1 && (#[trigger] slots@[j]).row == r && slots@[j].col == c {
                    let j = choose|j: int| 0 <= j < k + 1 && (#[trigger] slots@[j]).row == r && slots@[j].col == c;
                    assert(j < k);
                }
            }
        }
    }
    proof {
        assert forall|r: int, c: int| g.in_bounds(r, c) implies #[trigger] numbers@[g.index(r, c)]
            == if g.numbered(r, c) {
            g.numbered_before(r as nat, c as nat) + 1
        } else {
            0
        } by {
            lemma_slots_complete(g, r, c);
            if g.numbered(r, c) {
                let d = if g.starts_across(r, c) {
                    Direction::Across
                } else {
                    Direction::Down
                };
                let e = g.entry(r, c, d);
                let j = choose|j: int| 0 <= j < g.slots().len() && g.slots()[j] == e;
                assert(slots@[j].row == r && slots@[j].col == c);
            } else {
                if exists|j: int| 0 <= j < slots@.len() && (#[trigger] slots@[j]).row == r && slots@[j].col == c {
                    let j = choose|j: int| 0 <= j < slots@.len() && (#[trigger] slots@[j]).row == r && slots@[j].col == c;
                    assert(g.slot_ok(g.slots()[j]));
                }
            }
        }
    }
    numbers
}

/// The numbers of the squares, as `square_numbers` computes them.
pub open spec fn numbers_ok(g: GridModel, numbers: Seq<u32>) -> bool {
    &&& numbers.len() == g.cells.len()
    &&& forall|r: int, c: int|
        g.in_bounds(r, c) ==> #[trigger] numbers[g.index(r, c)] == if g.numbered(r, c) {
            g.numbered_before(r as nat, c as nat) + 1
        } else {
            0
        }
}

/// Append how square `(row, col)` appears in the chosen array.
fn append_cell(grid: &Grid, numbers: &Vec<u32>, solution: bool, row: usize, col: usize, out: &mut String)
    requires
        grid@.wf(),
        numbers_ok(grid@, numbers@),
        grid@.in_bounds(row as int, col as int),
    ensures
        final(out)@ == old(out)@ + cell_text(grid@, solution, row as int, col as int),
{
    let ghost g = grid@;
    proof {
        lemma_index_in_range(g.width, g.height, row as int, col as int);
    }
    let cell = grid.cell(row, col);
    if solution {
        match cell {
            Cell::Black => out.append("\"#\""),
            Cell::Filled(c) => {
                push_char(out, '"');
                push_json_char(out, c);
                push_char(out, '"');
            },
            Cell::Empty => out.append("null"),
        }
    } else {
        let number = numbers[row * grid.width() + col];
        if let Cell::Black = cell {
            out.append("\"#\"");
        } else if number != 0 {
            push_decimal(out, number as u64);
        } else {
            push_char(out, '0');
        }
    }
    assert(out@ =~= old(out)@ + cell_text(g, solution, row as int, col as int));
}

/// Append row `row` of the chosen array.
fn append_row(grid: &Grid, numbers: &Vec<u32>, solution: bool, row: usize, out: &mut String)
    requires
        grid@.wf(),
        numbers_ok(grid@, numbers@),
        row < grid@.height,
    ensures
        final(out)@ == old(out)@ + array_row(grid@, solution, row as int),
{
    let ghost g = grid@;
    let ghost before = out@;
    let width = grid.width();
    out.append("    [");
    for col in 0..width
        invariant
            g == grid@,
            g.wf(),
            width == g.width,
            row < g.height,
            numbers_ok(g, numbers@),
            out@ == before + "    ["@ + cells_upto(g, solution, row as int, col as nat),
    {
        let ghost prev = out@;
        if col > 0 {
            out.append(", ");
        }
        append_cell(grid, numbers, solution, row, col, out);
        assert(out@ =~= before + "    ["@ + cells_upto(g, solution, row as int, (col + 1) as nat));
    }
    push_char(out, ']');
    if row + 1 < grid.height() {
        out.append(",\n");
    } else {
        out.append("\n");
    }
    assert(out@ =~= before + array_row(g, solution, row as int));
}

/// Append the rows of the ipuz "puzzle" array (or, with `solution`, of the
/// "solution" array).
fn append_array(grid: &Grid, numbers: &Vec<u32>, solution: bool, out: &mut String)
    requires
        grid@.wf(),
        numbers_ok(grid@, numbers@),
    ensures
        final(out)@ == old(out)@ + rows_upto(grid@, solution, grid@.height),
{
    let ghost g = grid@;
    let ghost start = out@;
    let height = grid.height();
    for row in 0..height
        invariant
            g == grid@,
            g.wf(),
            height == g.height,
            numbers_ok(g, numbers@),
            out@ == start + rows_upto(g, solution, row as nat),
    {
        append_row(grid, numbers, solution, row, out);
        assert(out@ =~= start + rows_upto(g, solution, (row + 1) as nat));
    }
}

impl Grid {
    /// Render the grid as an ipuz document (see http://www.ipuz.org): its
    /// dimensions, a "puzzle" array marking black squares with `"#"` and
    /// numbered squares with their number (others `0`), and a "solution"
    /// array holding each filled square's letter (`null` for an empty one).
    pub fn to_ipuz(&self) -> (res: String)
        requires
            self@.numbered_count() <= u32::MAX,
        ensures
            res@ == ipuz_text(self@),
    {
        proof {
            use_type_invariant(self);
        }
        let slots = self.slots();
        let numbers = square_numbers(self, &slots);
        let mut out = String::new();
        out.append("{\n");
        out.append("  \"version\": \"http://ipuz.org/v2\",\n");
        out.append("  \"kind\": [\"http://ipuz.org/crossword#1\"],\n");
        out.append("  \"dimensions\": {\"width\": ");
        push_decimal(&mut out, self.width() as u64);
        out.append(", \"height\": ");
        push_decimal(&mut out, self.height() as u64);
        out.append("},\n");
        out.append("  \"puzzle\": [\n");
        append_array(self, &numbers, false, &mut out);
        out.append("  ],\n");
        out.append("  \"solution\": [\n");
        append_array(self, &numbers, true, &mut out);
        out.append("  ]\n");
        push_char(&mut out, '}');
        assert(out@ =~= ipuz_text(self@));
        out
    }
}

} // verus!
