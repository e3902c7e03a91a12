use vstd::prelude::*;

use crate::grid::{lemma_index_in_range, Cell, Grid, GridModel};
use crate::slots::lemma_numbered_count_at_most_squares;
use crate::text::{decimal, is_ascii_letter, is_ascii_letter_exec, push_char, push_decimal};

verus! {

/// Why a grid cannot be written as a .puz file.
#[derive(Debug, Clone, PartialEq, Eq, Structural)]
pub enum PuzError {
    /// .puz stores width and height as single bytes, so grids must be
    /// between 1 and 255 in each dimension.
    UnsupportedDimensions { width: usize, height: usize },
    IncompleteSolution { row: usize, col: usize },
    NonAsciiLetter { row: usize, col: usize, ch: char },
    /// .puz stores the clue count as a 16-bit field.
    TooManyClues { count: usize },
}

/// The message that describes a .puz export error.
pub open spec fn puz_error_text(e: PuzError) -> Seq<char> {
    match e {
        PuzError::UnsupportedDimensions { width, height } => "grid is "@ + decimal(width as nat)
            + seq!['x'] + decimal(height as nat)
            + ", but .puz requires both dimensions between 1 and 255"@,
        PuzError::IncompleteSolution { row, col } =>
            ".puz needs a solution letter for every white cell, but ("@ + decimal(row as nat) + ", "@
            + decimal(col as nat) + ") is empty"@,
        PuzError::NonAsciiLetter { row, col, ch } => ".puz only supports ASCII letters, but ("@
            + decimal(row as nat) + ", "@ + decimal(col as nat) + ") has '"@ + seq![ch] + "'"@,
        PuzError::TooManyClues { count } => "grid has "@ + decimal(count as nat)
            + " clued entries, but .puz can only store up to "@ + decimal(65535),
    }
}

impl PuzError {
    /// A human-readable description of the error.
    pub fn to_string(&self) -> (res: String)
        ensures
            res@ == puz_error_text(*self),
    {
        let mut out = String::new();
        match self {
            PuzError::UnsupportedDimensions { width, height } => {
                out.append("grid is ");
                push_decimal(&mut out, *width as u64);
                push_char(&mut out, 'x');
                push_decimal(&mut out, *height as u64);
                out.append(", but .puz requires both dimensions between 1 and 255");
            },
            PuzError::IncompleteSolution { row, col } => {
                out.append(".puz needs a solution letter for every white cell, but (");
                push_decimal(&mut out, *row as u64);
                out.append(", ");
                push_decimal(&mut out, *col as u64);
                out.append(") is empty");
            },
            PuzError::NonAsciiLetter { row, col, ch } => {
                out.append(".puz only supports ASCII letters, but (");
                push_decimal(&mut out, *row as u64);
                out.append(", ");
                push_decimal(&mut out, *col as u64);
                out.append(") has '");
                push_char(&mut out, *ch);
                out.append("'");
            },
            PuzError::TooManyClues { count } => {
                out.append("grid has ");
                push_decimal(&mut out, *count as u64);
                out.append(" clued entries, but .puz can only store up to ");
                push_decimal(&mut out, 65535);
            },
        }
        assert(out@ =~= puz_error_text(*self));
        out
    }
}

/// Rotate a 16-bit value right by one bit.
pub open spec fn rotate_right(sum: u16) -> u16 {
    if sum % 2 == 1 {
        (sum / 2 + 0x8000) as u16
    } else {
        (sum / 2) as u16
    }
}

/// One step of the .puz checksum: rotate right by one bit, then add the byte
/// modulo 2^16.
pub open spec fn checksum_step(sum: u16, b: u8) -> u16 {
    ((rotate_right(sum) + b) % 0x10000) as u16
}

/// The cyclic checksum used throughout the .puz format, over `data`,
/// starting from `seed`.
pub open spec fn checksum(data: Seq<u8>, seed: u16) -> u16
    decreases data.len(),
{
    if data.len() == 0 {
        seed
    } else {
        checksum_step(checksum(data.drop_last(), seed), data.last())
    }
}

/// Checksumming two pieces in turn, the second seeded with the checksum of
/// the first, is checksumming their concatenation.
pub proof fn lemma_checksum_concat(a: Seq<u8>, b: Seq<u8>, seed: u16)
    ensures
        checksum(a + b, seed) == checksum(b, checksum(a, seed)),
    decreases b.len(),
{
    if b.len() == 0 {
        assert(a + b =~= a);
    } else {
        lemma_checksum_concat(a, b.drop_last(), seed);
        assert((a + b).drop_last() =~= a + b.drop_last());
        assert((a + b).last() == b.last());
    }
}

/// The cyclic checksum used throughout the .puz format: rotate right one
/// bit, carrying the low bit into the top, then add the next byte.
pub fn puz_checksum(data: &[u8], seed: u16) -> (res: u16)
    ensures
        res == checksum(data@, seed),
{
    let mut sum = seed;
    for i in 0..data.len()
        invariant
            sum == checksum(data@.take(i as int), seed),
    {
        let b = data[i];
        assert(data@.take(i + 1).drop_last() =~= data@.take(i as int));
        let ghost before = sum;
        assert(sum & 1 == 1 <==> sum % 2 == 1) by (bit_vector);
        assert(sum >> 1 == sum / 2) by (bit_vector);
        assert(sum >> 1 <= 0x7fff) by (bit_vector);
        sum = if sum & 1 == 1 {
            (sum >> 1) + 0x8000
        } else {
            sum >> 1
        };
        assert(sum == rotate_right(before));
        sum = sum.wrapping_add(b as u16);
        assert(sum == checksum_step(before, b));
    }
    assert(data@.take(data.len() as int) =~= data@);
    sum
}

/// The low byte of a 16-bit value.
pub open spec fn lo(x: u16) -> u8 {
    (x % 256) as u8
}

/// The high byte of a 16-bit value.
pub open spec fn hi(x: u16) -> u8 {
    (x / 256) as u8
}

/// A 16-bit value in little-endian byte order.
pub open spec fn le16(x: u16) -> Seq<u8> {
    seq![lo(x), hi(x)]
}

/// A square a .puz file can hold: black, or filled with an ASCII letter.
pub open spec fn puz_cell_ok(cell: Cell) -> bool {
    match cell {
        Cell::Black => true,
        Cell::Empty => false,
        Cell::Filled(ch) => is_ascii_letter(ch),
    }
}

/// Both dimensions fit the single bytes of a .puz file.
pub open spec fn puz_dims_ok(g: GridModel) -> bool {
    1 <= g.width <= 255 && 1 <= g.height <= 255
}

/// Every square before `(r, c)` in reading order can go into a .puz file.
pub open spec fn puz_cells_ok_before(g: GridModel, r: int, c: int) -> bool {
    forall|r2: int, c2: int|
        g.in_bounds(r2, c2) && (r2 < r || (r2 == r && c2 < c)) ==> puz_cell_ok(
            #[trigger] g.at(r2, c2),
        )
}

/// Every square can go into a .puz file.
pub open spec fn puz_cells_ok(g: GridModel) -> bool {
    forall|r: int, c: int| g.in_bounds(r, c) ==> puz_cell_ok(#[trigger] g.at(r, c))
}

/// The answer-key byte of a square: `.` for black, the letter otherwise.
pub open spec fn solution_byte(cell: Cell) -> u8 {
    match cell {
        Cell::Black => 0x2e,
        Cell::Filled(ch) => ch as u8,
        Cell::Empty => 0,
    }
}

/// The player-grid byte of a square: `.` for black, `-` (blank) otherwise.
pub open spec fn fill_byte(cell: Cell) -> u8 {
    match cell {
        Cell::Black => 0x2e,
        _ => 0x2d,
    }
}

/// The answer key, in reading order.
pub open spec fn solution_board(g: GridModel) -> Seq<u8> {
    g.cells.map_values(|cell: Cell| solution_byte(cell))
}

/// The blank player grid, in reading order.
pub open spec fn fill_board(g: GridModel) -> Seq<u8> {
    g.cells.map_values(|cell: Cell| fill_byte(cell))
}

/// `n` zero bytes.
pub open spec fn zeros(n: nat) -> Seq<u8> {
    Seq::new(n, |i: int| 0u8)
}

/// The "CIB" block: dimensions, clue count, puzzle type 1, unscrambled.
pub open spec fn puz_cib(w: u8, h: u8, clues: u16) -> Seq<u8> {
    seq![w, h, lo(clues), hi(clues), 1u8, 0u8, 0u8, 0u8]
}

/// Checksum of the title, author, copyright and notes strings: all of them
/// are empty, and an empty string adds nothing to the checksum.
pub open spec fn puz_part_checksum() -> u16 {
    checksum(Seq::empty(), 0)
}

/// The masked checksums: the low and high bytes of the CIB, answer key,
/// player grid and strings checksums, XORed with "ICHEATED".
pub open spec fn puz_masks(c_cib: u16, c_sol: u16, c_grid: u16, c_part: u16) -> Seq<u8> {
    seq![
        0x49u8 ^ lo(c_cib),
        0x43u8 ^ lo(c_sol),
        0x48u8 ^ lo(c_grid),
        0x45u8 ^ lo(c_part),
        0x41u8 ^ hi(c_cib),
        0x54u8 ^ hi(c_sol),
        0x45u8 ^ hi(c_grid),
        0x44u8 ^ hi(c_part),
    ]
}

/// "ACROSS&DOWN" and a zero byte.
pub open spec fn puz_magic() -> Seq<u8> {
    seq![0x41u8, 0x43, 0x52, 0x4f, 0x53, 0x53, 0x26, 0x44, 0x4f, 0x57, 0x4e, 0x00]
}

/// "1.3" and a zero byte.
pub open spec fn puz_version() -> Seq<u8> {
    seq![0x31u8, 0x2e, 0x33, 0x00]
}

/// An Across Lite .puz file for a `w` by `h` grid with answer key `sol`,
/// player grid `fill`, and `clues` clues; every string in it is empty.
pub open spec fn puz_file_of(w: u8, h: u8, clues: u16, sol: Seq<u8>, fill: Seq<u8>) -> Seq<u8> {
    let c_cib = checksum(puz_cib(w, h, clues), 0);
    let c_full = checksum(fill, checksum(sol, c_cib));
    le16(c_full) + puz_magic() + le16(c_cib) + puz_masks(
        c_cib,
        checksum(sol, 0),
        checksum(fill, 0),
        puz_part_checksum(),
    ) + puz_version() + zeros(16) + seq![w, h] + le16(clues) + seq![1u8, 0u8, 0u8, 0u8] + sol
        + fill + zeros(3) + zeros(clues as nat) + zeros(1)
}

/// The Across Lite .puz file for grid `g` with `clues` (empty) clues.
pub open spec fn puz_file(g: GridModel, clues: u16) -> Seq<u8> {
    puz_file_of(g.width as u8, g.height as u8, clues, solution_board(g), fill_board(g))
}

/// A 16-bit value is its low byte plus 256 times its high byte.
proof fn lemma_lo_hi(x: u16)
    ensures
        lo(x) as int + 256 * (hi(x) as int) == x,
{
}

/// Where things sit in a .puz file: the width at byte 0x2C and the height
/// at 0x2D, the clue count (little-endian) at 0x2E; the answer key from 0x34,
/// square `(r, c)` at `0x34 + r * width + c`, holding `.` for a black square
/// and the letter of a filled one; the player grid right after it, `.` for a
/// black square and `-` for a white one; and at byte 0 (little-endian) the
/// file checksum, which chains the 8-byte block from 0x2C, the answer key
/// and the player grid. The file ends with one empty string for each of
/// title, author, copyright, every clue and the notes.
pub proof fn lemma_puz_layout(g: GridModel, clues: u16)
    requires
        g.wf(),
        puz_dims_ok(g),
    ensures
        ({
            let f = puz_file(g, clues);
            let n: int = (g.width * g.height) as int;
            &&& f.len() == 0x34 + 2 * n + 4 + clues
            &&& f[0x2C] == g.width
            &&& f[0x2D] == g.height
            &&& f[0x2E] as int + 256 * (f[0x2F] as int) == clues
            &&& forall|r: int, c: int|
                g.in_bounds(r, c) ==> {
                    &&& (#[trigger] g.at(r, c) is Black ==> f[0x34 + r * g.width + c] == 0x2e
                        && f[0x34 + n + r * g.width + c] == 0x2e)
                    &&& (g.at(r, c) matches Cell::Filled(ch) ==> f[0x34 + r * g.width + c] == ch as u8
                        && f[0x34 + n + r * g.width + c] == 0x2d)
                }
            &&& f[0] as int + 256 * (f[1] as int) == checksum(
                f.subrange(0x34 + n, 0x34 + 2 * n),
                checksum(f.subrange(0x34, 0x34 + n), checksum(f.subrange(0x2C, 0x34), 0)),
            )
            &&& forall|i: int| 0x34 + 2 * n <= i < f.len() ==> #[trigger] f[i] == 0
        }),
{
    let w = g.width as u8;
    let h = g.height as u8;
    let sol = solution_board(g);
    let fill = fill_board(g);
    let n: int = (g.width * g.height) as int;
    let c_cib = checksum(puz_cib(w, h, clues), 0);
    let c_full = checksum(fill, checksum(sol, c_cib));
    let c = le16(c_full) + puz_magic() + le16(c_cib) + puz_masks(
        c_cib,
        checksum(sol, 0),
        checksum(fill, 0),
        puz_part_checksum(),
    ) + puz_version() + zeros(16);
    assert(c.len() == 0x2C);
    let b = c + seq![w, h];
    let a = b + le16(clues) + seq![1u8, 0u8, 0u8, 0u8];
    assert(a.len() == 0x34);
    let f = puz_file(g, clues);
    let tail = zeros(3) + zeros(clues as nat) + zeros(1);
    assert(f =~= a + sol + fill + tail);
    assert(sol.len() == n);
    assert(fill.len() == n);
    assert(f[0x2C] == b[0x2C]);
    assert(f[0x2D] == b[0x2D]);
    assert(f[0x2E] == lo(clues));
    assert(f[0x2F] == hi(clues));
    lemma_lo_hi(clues);
    assert(f[0] == lo(c_full));
    assert(f[1] == hi(c_full));
    lemma_lo_hi(c_full);
    assert(f.subrange(0x2C, 0x34) =~= puz_cib(w, h, clues));
    assert(f.subrange(0x34, 0x34 + n) =~= sol);
    assert(f.subrange(0x34 + n, 0x34 + 2 * n) =~= fill);
    assert forall|r: int, c: int| g.in_bounds(r, c) implies {
        &&& (#[trigger] g.at(r, c) is Black ==> f[0x34 + r * g.width + c] == 0x2e && f[0x34 + n + r
            * g.width + c] == 0x2e)
        &&& (g.at(r, c) matches Cell::Filled(ch) ==> f[0x34 + r * g.width + c] == ch as u8 && f[0x34
            + n + r * g.width + c] == 0x2d)
    } by {
        lemma_index_in_range(g.width, g.height, r, c);
        let i = g.index(r, c);
        assert(sol[i] == solution_byte(g.at(r, c)));
        assert(fill[i] == fill_byte(g.at(r, c)));
        assert(f[0x34 + i] == sol[i]);
        assert(f[0x34 + n + i] == fill[i]);
    }
    assert forall|i: int| 0x34 + 2 * n <= i < f.len() implies #[trigger] f[i] == 0 by {
        assert(f[i] == tail[i - (0x34 + 2 * n)]);
    }
}

fn append_bytes(out: &mut Vec<u8>, bytes: &[u8])
    ensures
        final(out)@ == old(out)@ + bytes@,
{
    for i in 0..bytes.len()
        invariant
            out@ == old(out)@ + bytes@.take(i as int),
    {
        out.push(bytes[i]);
        assert(bytes@.take(i + 1) =~= bytes@.take(i as int).push(bytes[i as int]));
    }
    assert(bytes@.take(bytes.len() as int) =~= bytes@);
}

fn append_le16(out: &mut Vec<u8>, x: u16)
    ensures
        final(out)@ == old(out)@ + le16(x),
{
    assert(x & 0xff == x % 256) by (bit_vector);
    assert(x >> 8 == x / 256) by (bit_vector);
    assert((x >> 8) <= 0xff) by (bit_vector);
    out.push((x & 0xff) as u8);
    out.push((x >> 8) as u8);
    assert(out@ =~= old(out)@ + le16(x));
}

fn append_zeros(out: &mut Vec<u8>, n: usize)
    ensures
        final(out)@ == old(out)@ + zeros(n as nat),
{
    for i in 0..n
        invariant
            out@ == old(out)@ + zeros(i as nat),
    {
        out.push(0);
        assert(zeros((i + 1) as nat) =~= zeros(i as nat).push(0));
    }
}

/// The checksums of a .puz file: of the CIB block, the answer key, the
/// player grid, the empty strings, and the whole file.
fn puz_checksums(width: u8, height: u8, num_clues: u16, solution: &Vec<u8>, fill: &Vec<u8>) -> (res: (
    u16,
    u16,
    u16,
    u16,
    u16,
))
    ensures
        res.0 == checksum(puz_cib(width, height, num_clues), 0),
        res.1 == checksum(solution@, 0),
        res.2 == checksum(fill@, 0),
        res.3 == puz_part_checksum(),
        res.4 == checksum(fill@, checksum(solution@, res.0)),
{
    proof {
        assert(num_clues & 0xff == num_clues % 256) by (bit_vector);
        assert(num_clues >> 8 == num_clues / 256) by (bit_vector);
        assert((num_clues >> 8) <= 0xff) by (bit_vector);
    }
    let cib: [u8; 8] = [
        width,
        height,
        (num_clues & 0xff) as u8,
        (num_clues >> 8) as u8,
        1,
        0,
        0,
        0,
    ];
    assert(cib@ =~= puz_cib(width, height, num_clues));
    let c_cib = puz_checksum(cib.as_slice(), 0);
    let c_sol = puz_checksum(solution.as_slice(), 0);
    let c_grid = puz_checksum(fill.as_slice(), 0);

    // Title, author, copyright, notes and clues are all empty strings, and
    // an empty string adds nothing to either running checksum.
    let no_text: [u8; 0] = [];
    let c_part = puz_checksum(no_text.as_slice(), 0);
    let mut c_full = c_cib;
    c_full = puz_checksum(solution.as_slice(), c_full);
    c_full = puz_checksum(fill.as_slice(), c_full);
    (c_cib, c_sol, c_grid, c_part, c_full)
}

/// The masked checksum bytes, XORed against "ICHEATED", a fixed string every
/// .puz reader checks for as a sanity marker.
fn puz_mask_bytes(c_cib: u16, c_sol: u16, c_grid: u16, c_part: u16) -> (res: [u8; 8])
    ensures
        res@ == puz_masks(c_cib, c_sol, c_grid, c_part),
{
    proof {
        assert(c_cib & 0xff == c_cib % 256) by (bit_vector);
        assert(c_sol & 0xff == c_sol % 256) by (bit_vector);
        assert(c_grid & 0xff == c_grid % 256) by (bit_vector);
        assert(c_part & 0xff == c_part % 256) by (bit_vector);
        assert((c_cib >> 8) & 0xff == c_cib / 256) by (bit_vector);
        assert((c_sol >> 8) & 0xff == c_sol / 256) by (bit_vector);
        assert((c_grid >> 8) & 0xff == c_grid / 256) by (bit_vector);
        assert((c_part >> 8) & 0xff == c_part / 256) by (bit_vector);
    }
    let low_masks: [u8; 8] = [
        0x49 ^ (c_cib & 0xff) as u8,
        0x43 ^ (c_sol & 0xff) as u8,
        0x48 ^ (c_grid & 0xff) as u8,
        0x45 ^ (c_part & 0xff) as u8,
        0x41 ^ ((c_cib >> 8) & 0xff) as u8,
        0x54 ^ ((c_sol >> 8) & 0xff) as u8,
        0x45 ^ ((c_grid >> 8) & 0xff) as u8,
        0x44 ^ ((c_part >> 8) & 0xff) as u8,
    ];
    assert(low_masks@ =~= puz_masks(c_cib, c_sol, c_grid, c_part));
    low_masks
}

/// Lay out a .puz file from its dimensions, clue count and two boards.
fn assemble_puz(width: u8, height: u8, num_clues: u16, solution: &Vec<u8>, fill: &Vec<u8>) -> (res:
    Vec<u8>)
    ensures
        res@ == puz_file_of(width, height, num_clues, solution@, fill@),
{
    let (c_cib, c_sol, c_grid, c_part, c_full) = puz_checksums(
        width,
        height,
        num_clues,
        solution,
        fill,
    );
    let masks = puz_mask_bytes(c_cib, c_sol, c_grid, c_part);
    let magic: [u8; 12] = [0x41, 0x43, 0x52, 0x4f, 0x53, 0x53, 0x26, 0x44, 0x4f, 0x57, 0x4e, 0x00];
    let version: [u8; 4] = [0x31, 0x2e, 0x33, 0x00];
    assert(magic@ =~= puz_magic());
    assert(version@ =~= puz_version());
    let mut out: Vec<u8> = Vec::new();
    append_le16(&mut out, c_full);
    append_bytes(&mut out, magic.as_slice());
    append_le16(&mut out, c_cib);
    append_bytes(&mut out, masks.as_slice());
    append_bytes(&mut out, version.as_slice());
    let ghost a = out@;
    append_zeros(&mut out, 2);  // reserved
    append_zeros(&mut out, 2);  // scrambled checksum (0: unscrambled)
    append_zeros(&mut out, 12);  // reserved
    assert(out@ =~= a + zeros(16));
    let ghost b = out@;
    out.push(width);
    out.push(height);
    assert(out@ =~= b + seq![width, height]);
    append_le16(&mut out, num_clues);
    let ghost c = out@;
    append_le16(&mut out, 1);  // puzzle type: normal
    append_le16(&mut out, 0);  // scrambled tag: unscrambled
    assert(out@ =~= c + seq![1u8, 0u8, 0u8, 0u8]);
    append_bytes(&mut out, solution.as_slice());
    append_bytes(&mut out, fill.as_slice());
    append_zeros(&mut out, 3);  // title, author, copyright
    append_zeros(&mut out, num_clues as usize);  // one empty string per clue
    append_zeros(&mut out, 1);  // notes
    out
}

/// The answer key and blank player grid of a grid whose dimensions fit a
/// .puz file, or the first square (in reading order) that cannot go in one.
fn puz_boards(grid: &Grid) -> (res: Result<(Vec<u8>, Vec<u8>), PuzError>)
    requires
        grid@.wf(),
        puz_dims_ok(grid@),
    ensures
        res matches Err(PuzError::IncompleteSolution { row, col }) ==> {
            &&& grid@.in_bounds(row as int, col as int)
            &&& grid@.at(row as int, col as int) is Empty
            &&& puz_cells_ok_before(grid@, row as int, col as int)
        },
        res matches Err(PuzError::NonAsciiLetter { row, col, ch }) ==> {
            &&& grid@.in_bounds(row as int, col as int)
            &&& grid@.at(row as int, col as int) == Cell::Filled(ch)
            &&& !is_ascii_letter(ch)
            &&& puz_cells_ok_before(grid@, row as int, col as int)
        },
        res is Err ==> (res->Err_0 is IncompleteSolution || res->Err_0 is NonAsciiLetter),
        res is Ok <==> puz_cells_ok(grid@),
        res matches Ok((solution, fill)) ==> solution@ == solution_board(grid@) && fill@
            == fill_board(grid@),
{
    let ghost g = grid@;
    let width = grid.width();
    let height = grid.height();
    let mut solution: Vec<u8> = Vec::with_capacity(width * height);
    let mut fill: Vec<u8> = Vec::with_capacity(width * height);
    assert(0 * width == 0);
    for row in 0..height
        invariant
            g == grid@,
            g.wf(),
            puz_dims_ok(g),
            width == g.width,
            height == g.height,
            solution@.len() == row * width,
            fill@.len() == row * width,
            forall|i: int| 0 <= i < row * width ==> #[trigger] solution@[i] == solution_byte(g.cells[i]),
            forall|i: int| 0 <= i < row * width ==> #[trigger] fill@[i] == fill_byte(g.cells[i]),
            puz_cells_ok_before(g, row as int, 0),
    {
        for col in 0..width
            invariant
                g == grid@,
                g.wf(),
                puz_dims_ok(g),
                width == g.width,
                height == g.height,
                row < height,
                solution@.len() == row * width + col,
                fill@.len() == row * width + col,
                forall|i: int|
                    0 <= i < row * width + col ==> #[trigger] solution@[i] == solution_byte(
                        g.cells[i],
                    ),
                forall|i: int|
                    0 <= i < row * width + col ==> #[trigger] fill@[i] == fill_byte(g.cells[i]),
                puz_cells_ok_before(g, row as int, col as int),
        {
            proof {
                lemma_index_in_range(g.width, g.height, row as int, col as int);
            }
            match grid.cell(row, col) {
                Cell::Black => {
                    solution.push(0x2e);
                    fill.push(0x2e);
                },
                Cell::Empty => {
                    assert(!puz_cells_ok(g)) by {
                        assert(!puz_cell_ok(g.at(row as int, col as int)));
                    }
                    return Err(PuzError::IncompleteSolution { row, col });
                },
                Cell::Filled(ch) => {
                    if !is_ascii_letter_exec(ch) {
                        assert(!puz_cells_ok(g)) by {
                            assert(!puz_cell_ok(g.at(row as int, col as int)));
                        }
                        return Err(PuzError::NonAsciiLetter { row, col, ch });
                    }
                    solution.push(ch as u8);
                    fill.push(0x2d);
                },
            }
            assert(puz_cells_ok_before(g, row as int, col + 1)) by {
                assert forall|r2: int, c2: int|
                    g.in_bounds(r2, c2) && (r2 < row || (r2 == row && c2 < col + 1)) implies puz_cell_ok(
                    #[trigger] g.at(r2, c2),
                ) by {
                    if r2 == row && c2 == col {
                    } else {
                        assert(r2 < row || (r2 == row && c2 < col));
                    }
                }
            }
        }
        assert((row + 1) * width == row * width + width) by (nonlinear_arith);
        assert(puz_cells_ok_before(g, row + 1, 0));
    }
    proof {
        vstd::arithmetic::mul::lemma_mul_is_commutative(width as int, height as int);
        assert(solution@ =~= solution_board(g));
        assert(fill@ =~= fill_board(g));
        assert forall|r: int, c: int| g.in_bounds(r, c) implies puz_cell_ok(#[trigger] g.at(r, c)) by {
            assert(r < height as int);
        }
    }
    Ok((solution, fill))
}

impl Grid {
    /// Render the grid as an Across Lite .puz file, ready to be solved.
    ///
    /// Every white square must already hold its solution letter (an ASCII
    /// letter), which becomes the answer key; the player-facing grid written
    /// into the file is left blank. Title, author, copyright, notes and clue
    /// texts are all empty. Errors come in this order: dimensions outside
    /// 1..=255, then the first square in reading order that is empty or
    /// holds a non-ASCII letter, then more than 65535 entries.
    pub fn to_puz(&self) -> (res: Result<Vec<u8>, PuzError>)
        ensures
            (res is Err && res->Err_0 is UnsupportedDimensions) <==> !puz_dims_ok(self@),
            res matches Err(PuzError::UnsupportedDimensions { width, height }) ==> width
                == self@.width && height == self@.height,
            res matches Err(PuzError::IncompleteSolution { row, col }) ==> {
                &&& puz_dims_ok(self@)
                &&& self@.in_bounds(row as int, col as int)
                &&& self@.at(row as int, col as int) is Empty
                &&& puz_cells_ok_before(self@, row as int, col as int)
            },
            res matches Err(PuzError::NonAsciiLetter { row, col, ch }) ==> {
                &&& puz_dims_ok(self@)
                &&& self@.in_bounds(row as int, col as int)
                &&& self@.at(row as int, col as int) == Cell::Filled(ch)
                &&& !is_ascii_letter(ch)
                &&& puz_cells_ok_before(self@, row as int, col as int)
            },
            res matches Err(PuzError::TooManyClues { count }) ==> {
                &&& puz_dims_ok(self@)
                &&& puz_cells_ok(self@)
                &&& count == self@.slots().len()
                &&& count > u16::MAX
            },
            res is Ok <==> {
                &&& puz_dims_ok(self@)
                &&& puz_cells_ok(self@)
                &&& self@.slots().len() <= u16::MAX
            },
            res matches Ok(bytes) ==> bytes@ == puz_file(self@, self@.slots().len() as u16),
            res matches Ok(bytes) ==> {
                &&& bytes@[0x2C] == self@.width
                &&& bytes@[0x2D] == self@.height
                &&& bytes@[0x2E] as int + 256 * (bytes@[0x2F] as int) == self@.slots().len()
            },
    {
        proof {
            use_type_invariant(self);
        }
        let ghost g = self@;
        let width = self.width();
        let height = self.height();
        if width == 0 || height == 0 || width > 255 || height > 255 {
            return Err(PuzError::UnsupportedDimensions { width, height });
        }
        let (solution, fill) = match puz_boards(self) {
            Ok(boards) => boards,
            Err(e) => {
                return Err(e);
            },
        };
        proof {
            lemma_numbered_count_at_most_squares(g);
            assert(width * height <= 255 * 255) by (nonlinear_arith)
                requires
                    width <= 255,
                    height <= 255,
            ;
        }
        let slot_count = self.slots().len();
        if slot_count > 65535 {
            return Err(PuzError::TooManyClues { count: slot_count });
        }
        let num_clues = slot_count as u16;
        proof {
            lemma_puz_layout(g, num_clues);
        }
        Ok(assemble_puz(width as u8, height as u8, num_clues, &solution, &fill))
    }
}

} // verus!
