use vstd::prelude::*;

use crate::grid::{
    lemma_index_in_range, lemma_index_split, lemma_index_unique, Cell, Grid, GridModel,
};
use crate::slots::{lemma_across_run, lemma_down_run, lemma_slots_sound, Direction, Slot};
use crate::text::chars_of;
use crate::words::{strings_view, WordList};

verus! {

/// Row of the square under position `p` of entry `s`.
pub open spec fn square_row(s: Slot, p: int) -> int {
    match s.direction {
        Direction::Across => s.row as int,
        Direction::Down => s.row + p,
    }
}

/// Column of the square under position `p` of entry `s`.
pub open spec fn square_col(s: Slot, p: int) -> int {
    match s.direction {
        Direction::Across => s.col + p,
        Direction::Down => s.col as int,
    }
}

/// Which position of entry `s` lies on square `(r, c)`, if any.
pub open spec fn slot_offset(s: Slot, r: int, c: int) -> Option<int> {
    match s.direction {
        Direction::Across => if r == s.row && s.col <= c < s.col + s.len {
            Some(c - s.col)
        } else {
            None
        },
        Direction::Down => if c == s.col && s.row <= r < s.row + s.len {
            Some(r - s.row)
        } else {
            None
        },
    }
}

/// The entry lies inside the grid and every square under it is white.
pub open spec fn slot_fits(g: GridModel, s: Slot) -> bool {
    forall|p: int| 0 <= p < s.len ==> #[trigger] g.white(square_row(s, p), square_col(s, p))
}

/// `word` has the entry's length and agrees with every letter already in
/// the entry's squares.
pub open spec fn word_fits(g: GridModel, s: Slot, word: Seq<char>) -> bool {
    &&& word.len() == s.len
    &&& forall|p: int|
        0 <= p < s.len ==> match #[trigger] g.at(square_row(s, p), square_col(s, p)) {
            Cell::Filled(ch) => word[p] == ch,
            _ => true,
        }
}

/// Place `i` of `g` after writing the first `k` letters of `word` into the
/// empty squares of entry `s`.
pub open spec fn placed_cell(g: GridModel, s: Slot, word: Seq<char>, k: int, i: int) -> Cell {
    let o = slot_offset(s, i / (g.width as int), i % (g.width as int));
    if o is Some && o->0 < k && g.cells[i] is Empty {
        Cell::Filled(word[o->0])
    } else {
        g.cells[i]
    }
}

/// `g` after writing the first `k` letters of `word` into the empty squares
/// of entry `s` (squares that already hold a letter keep it).
pub open spec fn place_prefix(g: GridModel, s: Slot, word: Seq<char>, k: int) -> GridModel {
    GridModel {
        width: g.width,
        height: g.height,
        cells: Seq::new(g.cells.len(), |i: int| placed_cell(g, s, word, k, i)),
    }
}

/// `g` after writing `word` into the empty squares of entry `s`.
pub open spec fn place(g: GridModel, s: Slot, word: Seq<char>) -> GridModel {
    place_prefix(g, s, word, s.len as int)
}

/// `orig` after writing `words[j]` into entry `slots[j]`, for each `j < k`
/// in turn.
pub open spec fn apply_words(
    orig: GridModel,
    slots: Seq<Slot>,
    words: Seq<Seq<char>>,
    k: nat,
) -> GridModel
    decreases k,
{
    if k == 0 {
        orig
    } else {
        place(apply_words(orig, slots, words, (k - 1) as nat), slots[k - 1], words[k - 1])
    }
}

/// The words that `picks` selects: for entry `k`, the `picks[k]`-th word of
/// the entry's length.
pub open spec fn picked_words(wl: WordList, slots: Seq<Slot>, picks: Seq<int>) -> Seq<Seq<char>> {
    Seq::new(picks.len(), |k: int| wl.words(slots[k].len as nat)[picks[k]])
}

/// `picks` fills every entry of `slots`, starting from grid `g`: each entry
/// gets a word of its length from the list, no word is used twice or taken
/// from `used`, and each word agrees with the letters already in its squares,
/// given in `g` or written by an earlier entry.
pub open spec fn fills(
    g: GridModel,
    slots: Seq<Slot>,
    wl: WordList,
    used: Seq<Seq<char>>,
    picks: Seq<int>,
) -> bool {
    let words = picked_words(wl, slots, picks);
    &&& picks.len() == slots.len()
    &&& forall|k: int|
        0 <= k < slots.len() ==> 0 <= #[trigger] picks[k] < wl.words(slots[k].len as nat).len()
    &&& forall|k: int| 0 <= k < slots.len() ==> !used.contains(#[trigger] words[k])
    &&& forall|k: int, l: int|
        0 <= k < l < slots.len() ==> #[trigger] words[k] != #[trigger] words[l]
    &&& forall|k: int|
        0 <= k < slots.len() ==> word_fits(
            apply_words(g, slots, words, k as nat),
            slots[k],
            #[trigger] words[k],
        )
}

/// No way to fill every entry starts with the picks `prefix`.
pub open spec fn dead_end(
    g: GridModel,
    slots: Seq<Slot>,
    wl: WordList,
    used: Seq<Seq<char>>,
    prefix: Seq<int>,
) -> bool {
    forall|other: Seq<int>|
        other.len() == slots.len() && #[trigger] other.take(prefix.len() as int) == prefix ==> !fills(
            g,
            slots,
            wl,
            used,
            other,
        )
}

/// `picks` fills every entry, and each of its picks is the first word (in
/// list order) that still leads to a complete fill.
pub open spec fn is_first_fill(
    g: GridModel,
    slots: Seq<Slot>,
    wl: WordList,
    used: Seq<Seq<char>>,
    picks: Seq<int>,
) -> bool {
    &&& fills(g, slots, wl, used, picks)
    &&& forall|k: int, j: int|
        0 <= k < slots.len() && 0 <= j < picks[k] ==> #[trigger] dead_end(
            g,
            slots,
            wl,
            used,
            picks.take(k).push(j),
        )
}

/// The entries from `index` on (none when `index` is past the end).
pub open spec fn slots_from(slots: Seq<Slot>, index: int) -> Seq<Slot> {
    if index < slots.len() {
        slots.skip(index)
    } else {
        seq![]
    }
}

/// The square `(r, c)` in `place_prefix`.
pub proof fn lemma_place_prefix_at(g: GridModel, s: Slot, word: Seq<char>, k: int, r: int, c: int)
    requires
        g.wf(),
        g.in_bounds(r, c),
    ensures
        place_prefix(g, s, word, k).wf(),
        place_prefix(g, s, word, k).width == g.width,
        place_prefix(g, s, word, k).height == g.height,
        place_prefix(g, s, word, k).at(r, c) == {
            let o = slot_offset(s, r, c);
            if o is Some && o->0 < k && g.at(r, c) is Empty {
                Cell::Filled(word[o->0])
            } else {
                g.at(r, c)
            }
        },
{
    lemma_index_in_range(g.width, g.height, r, c);
    vstd::arithmetic::div_mod::lemma_fundamental_div_mod_converse(
        r * g.width + c,
        g.width as int,
        r,
        c,
    );
}

/// Writing letters keeps the shape of the grid: dimensions and black squares
/// stay, letters already present stay, and only empty squares change.
pub proof fn lemma_place_prefix_shape(g: GridModel, s: Slot, word: Seq<char>, k: int)
    requires
        g.wf(),
    ensures
        place_prefix(g, s, word, k).wf(),
        place_prefix(g, s, word, k).width == g.width,
        place_prefix(g, s, word, k).height == g.height,
        forall|r: int, c: int|
            g.in_bounds(r, c) ==> {
                let a = #[trigger] place_prefix(g, s, word, k).at(r, c);
                &&& (a is Black <==> g.at(r, c) is Black)
                &&& (g.at(r, c) is Filled ==> a == g.at(r, c))
                &&& (a is Empty ==> g.at(r, c) is Empty)
            },
{
    assert forall|r: int, c: int| g.in_bounds(r, c) implies {
        let a = #[trigger] place_prefix(g, s, word, k).at(r, c);
        &&& (a is Black <==> g.at(r, c) is Black)
        &&& (g.at(r, c) is Filled ==> a == g.at(r, c))
        &&& (a is Empty ==> g.at(r, c) is Empty)
    } by {
        lemma_place_prefix_at(g, s, word, k, r, c);
    }
}

/// The shape of the grid survives writing any number of words.
pub proof fn lemma_apply_shape(orig: GridModel, slots: Seq<Slot>, words: Seq<Seq<char>>, k: nat)
    requires
        orig.wf(),
    ensures
        apply_words(orig, slots, words, k).wf(),
        apply_words(orig, slots, words, k).width == orig.width,
        apply_words(orig, slots, words, k).height == orig.height,
        forall|r: int, c: int|
            orig.in_bounds(r, c) ==> {
                let a = #[trigger] apply_words(orig, slots, words, k).at(r, c);
                &&& (a is Black <==> orig.at(r, c) is Black)
                &&& (orig.at(r, c) is Filled ==> a == orig.at(r, c))
                &&& (a is Empty ==> orig.at(r, c) is Empty)
            },
    decreases k,
{
    if k > 0 {
        let prev = apply_words(orig, slots, words, (k - 1) as nat);
        lemma_apply_shape(orig, slots, words, (k - 1) as nat);
        lemma_place_prefix_shape(prev, slots[k - 1], words[k - 1], slots[k - 1].len as int);
        assert forall|r: int, c: int| orig.in_bounds(r, c) implies {
            let a = #[trigger] apply_words(orig, slots, words, k).at(r, c);
            &&& (a is Black <==> orig.at(r, c) is Black)
            &&& (orig.at(r, c) is Filled ==> a == orig.at(r, c))
            &&& (a is Empty ==> orig.at(r, c) is Empty)
        } by {
            assert(prev.in_bounds(r, c));
            let _ = prev.at(r, c);
        }
    }
}

/// The offsets of an entry and the squares under it match one to one.
pub proof fn lemma_slot_offset(s: Slot, p: int, r: int, c: int)
    requires
        0 <= p < s.len,
    ensures
        (slot_offset(s, r, c) == Some(p)) <==> (r == square_row(s, p) && c == square_col(s, p)),
{
}

/// Writing one more letter of a word changes at most the square under it,
/// and only if that square is empty.
pub proof fn lemma_place_step(g: GridModel, s: Slot, word: Seq<char>, p: int)
    requires
        g.wf(),
        0 <= p < s.len,
        g.in_bounds(square_row(s, p), square_col(s, p)),
    ensures
        place_prefix(g, s, word, p).at(square_row(s, p), square_col(s, p)) == g.at(
            square_row(s, p),
            square_col(s, p),
        ),
        place_prefix(g, s, word, p + 1).cells == (if g.at(
            square_row(s, p),
            square_col(s, p),
        ) is Empty {
            place_prefix(g, s, word, p).cells.update(
                g.index(square_row(s, p), square_col(s, p)),
                Cell::Filled(word[p]),
            )
        } else {
            place_prefix(g, s, word, p).cells
        }),
{
    let r0 = square_row(s, p);
    let c0 = square_col(s, p);
    lemma_place_prefix_at(g, s, word, p, r0, c0);
    lemma_index_in_range(g.width, g.height, r0, c0);
    let a = place_prefix(g, s, word, p + 1).cells;
    let pp = place_prefix(g, s, word, p).cells;
    let idx0 = g.index(r0, c0);
    assert(pp.len() == g.cells.len());
    assert(0 <= idx0 < pp.len());
    assert forall|i: int| 0 <= i < a.len() && i != idx0 implies a[i] == pp[i] by {
        lemma_index_split(g.width, g.height, i);
        let r = i / (g.width as int);
        let c = i % (g.width as int);
        lemma_slot_offset(s, p, r, c);
        if r == r0 && c == c0 {
        }
        assert(slot_offset(s, r, c) != Some(p));
        assert(a[i] == placed_cell(g, s, word, p + 1, i));
        assert(pp[i] == placed_cell(g, s, word, p, i));
    }
    assert(a[idx0] == placed_cell(g, s, word, p + 1, idx0));
    assert(pp[idx0] == placed_cell(g, s, word, p, idx0));
    lemma_index_split(g.width, g.height, idx0);
    lemma_index_unique(g.width, idx0 / (g.width as int), idx0 % (g.width as int), r0, c0);
    lemma_slot_offset(s, p, r0, c0);
    if g.at(r0, c0) is Empty {
        let upd = pp.update(idx0, Cell::Filled(word[p]));
        lemma_update_len(pp, idx0, Cell::Filled(word[p]));
        assert(a =~= upd);
    } else {
        assert(a =~= pp);
    }
}

proof fn lemma_update_len(cells: Seq<Cell>, i: int, x: Cell)
    requires
        0 <= i < cells.len(),
    ensures
        cells.update(i, x).len() == cells.len(),
        cells.update(i, x)[i] == x,
        forall|j: int| 0 <= j < cells.len() && j != i ==> #[trigger] cells.update(i, x)[j] == cells[j],
{
}

/// Every entry of the grid lies on white squares inside it.
pub proof fn lemma_slots_fit(g: GridModel)
    requires
        g.wf(),
        g.numbered_count() <= u32::MAX,
    ensures
        forall|k: int| 0 <= k < g.slots().len() ==> slot_fits(g, #[trigger] g.slots()[k]),
{
    lemma_slots_sound(g);
    assert forall|k: int| 0 <= k < g.slots().len() implies slot_fits(g, #[trigger] g.slots()[k]) by {
        let s = g.slots()[k];
        assert(g.slot_ok(s));
        match s.direction {
            Direction::Across => {
                lemma_across_run(g, s.row as int, s.col as int);
                assert forall|p: int| 0 <= p < s.len implies #[trigger] g.white(
                    square_row(s, p),
                    square_col(s, p),
                ) by {
                    assert(!g.black(s.row as int, s.col + p));
                }
            },
            Direction::Down => {
                lemma_down_run(g, s.row as int, s.col as int);
                assert forall|p: int| 0 <= p < s.len implies #[trigger] g.white(
                    square_row(s, p),
                    square_col(s, p),
                ) by {
                    assert(!g.black(s.row + p, s.col as int));
                }
            },
        }
    }
}

/// The squares under an entry, in order.
fn slot_cells(slot: &Slot) -> (res: Vec<(usize, usize)>)
    requires
        slot.direction == Direction::Across ==> slot.col + slot.len <= usize::MAX + 1,
        slot.direction == Direction::Down ==> slot.row + slot.len <= usize::MAX + 1,
    ensures
        res@.len() == slot.len,
        forall|p: int|
            0 <= p < slot.len ==> (#[trigger] res@[p]).0 == square_row(*slot, p) && res@[p].1
                == square_col(*slot, p),
{
    let mut cells: Vec<(usize, usize)> = Vec::new();
    for i in 0..slot.len
        invariant
            slot.direction == Direction::Across ==> slot.col + slot.len <= usize::MAX + 1,
            slot.direction == Direction::Down ==> slot.row + slot.len <= usize::MAX + 1,
            cells@.len() == i,
            forall|p: int|
                0 <= p < i ==> (#[trigger] cells@[p]).0 == square_row(*slot, p) && cells@[p].1
                    == square_col(*slot, p),
    {
        let square = match slot.direction {
            Direction::Across => (slot.row, slot.col + i),
            Direction::Down => (slot.row + i, slot.col),
        };
        cells.push(square);
    }
    cells
}

/// The letters already in the squares of entry `s` (`None` for an empty
/// square).
pub open spec fn pattern_of(g: GridModel, s: Slot, p: int) -> Option<char> {
    match g.at(square_row(s, p), square_col(s, p)) {
        Cell::Filled(ch) => Some(ch),
        _ => None,
    }
}

fn read_pattern(grid: &Grid, cells: &Vec<(usize, usize)>, Ghost(s): Ghost<Slot>) -> (res: Vec<
    Option<char>,
>)
    requires
        grid@.wf(),
        slot_fits(grid@, s),
        cells@.len() == s.len,
        forall|p: int|
            0 <= p < s.len ==> (#[trigger] cells@[p]).0 == square_row(s, p) && cells@[p].1
                == square_col(s, p),
    ensures
        res@.len() == s.len,
        forall|p: int| 0 <= p < s.len ==> #[trigger] res@[p] == pattern_of(grid@, s, p),
{
    let mut pattern: Vec<Option<char>> = Vec::new();
    for p in 0..cells.len()
        invariant
            grid@.wf(),
            slot_fits(grid@, s),
            cells@.len() == s.len,
            forall|q: int|
                0 <= q < s.len ==> (#[trigger] cells@[q]).0 == square_row(s, q) && cells@[q].1
                    == square_col(s, q),
            pattern@.len() == p,
            forall|q: int| 0 <= q < p ==> #[trigger] pattern@[q] == pattern_of(grid@, s, q),
    {
        let (row, col) = cells[p];
        assert(grid@.white(square_row(s, p as int), square_col(s, p as int)));
        proof {
            lemma_index_in_range(grid@.width, grid@.height, row as int, col as int);
        }
        let e = match grid.cell(row, col) {
            Cell::Filled(ch) => Some(ch),
            Cell::Empty => None,
            Cell::Black => {
                assert(false);
                None
            },
        };
        pattern.push(e);
    }
    pattern
}

/// Whether `letters` agrees with every letter of `pattern`.
fn agrees(pattern: &Vec<Option<char>>, letters: &Vec<char>) -> (res: bool)
    requires
        pattern@.len() == letters@.len(),
    ensures
        res == forall|p: int|
            0 <= p < pattern@.len() ==> match #[trigger] pattern@[p] {
                Some(e) => e == letters@[p],
                None => true,
            },
{
    for p in 0..pattern.len()
        invariant
            pattern@.len() == letters@.len(),
            forall|q: int|
                0 <= q < p ==> match #[trigger] pattern@[q] {
                    Some(e) => e == letters@[q],
                    None => true,
                },
    {
        match pattern[p] {
            Some(e) => {
                if e != letters[p] {
                    return false;
                }
            },
            None => {},
        }
    }
    true
}

/// Write `letters` into the empty squares of entry `s`; returns the squares
/// that were written.
fn place_word(
    grid: &mut Grid,
    cells: &Vec<(usize, usize)>,
    letters: &Vec<char>,
    Ghost(s): Ghost<Slot>,
) -> (placed: Vec<(usize, usize)>)
    requires
        old(grid)@.wf(),
        slot_fits(old(grid)@, s),
        cells@.len() == s.len,
        letters@.len() == s.len,
        forall|p: int|
            0 <= p < s.len ==> (#[trigger] cells@[p]).0 == square_row(s, p) && cells@[p].1
                == square_col(s, p),
    ensures
        final(grid)@ == place(old(grid)@, s, letters@),
        forall|q: int|
            0 <= q < placed@.len() ==> {
                &&& old(grid)@.in_bounds((#[trigger] placed@[q]).0 as int, placed@[q].1 as int)
                &&& old(grid)@.at(placed@[q].0 as int, placed@[q].1 as int) is Empty
            },
        forall|i: int|
            0 <= i < old(grid)@.cells.len() && #[trigger] final(grid)@.cells[i] != old(
                grid,
            )@.cells[i] ==> exists|q: int|
                0 <= q < placed@.len() && old(grid)@.index(
                    (#[trigger] placed@[q]).0 as int,
                    placed@[q].1 as int,
                ) == i,
{
    let ghost g = grid@;
    let mut placed: Vec<(usize, usize)> = Vec::new();
    proof {
        assert(place_prefix(g, s, letters@, 0).cells =~= g.cells) by {
            assert forall|i: int| 0 <= i < g.cells.len() implies place_prefix(
                g,
                s,
                letters@,
                0,
            ).cells[i] == g.cells[i] by {}
        }
    }
    for p in 0..cells.len()
        invariant
            g.wf(),
            slot_fits(g, s),
            cells@.len() == s.len,
            letters@.len() == s.len,
            forall|q: int|
                0 <= q < s.len ==> (#[trigger] cells@[q]).0 == square_row(s, q) && cells@[q].1
                    == square_col(s, q),
            grid@ == place_prefix(g, s, letters@, p as int),
            forall|q: int|
                0 <= q < placed@.len() ==> {
                    &&& g.in_bounds((#[trigger] placed@[q]).0 as int, placed@[q].1 as int)
                    &&& g.at(placed@[q].0 as int, placed@[q].1 as int) is Empty
                },
            forall|i: int|
                0 <= i < g.cells.len() && #[trigger] grid@.cells[i] != g.cells[i] ==> exists|q: int|
                    0 <= q < placed@.len() && g.index(
                        (#[trigger] placed@[q]).0 as int,
                        placed@[q].1 as int,
                    ) == i,
    {
        let (row, col) = cells[p];
        assert(g.white(square_row(s, p as int), square_col(s, p as int)));
        proof {
            lemma_index_in_range(g.width, g.height, row as int, col as int);
            lemma_place_step(g, s, letters@, p as int);
            lemma_place_prefix_shape(g, s, letters@, p as int);
        }
        let ghost before = grid@;
        let ghost placed_before = placed@;
        match grid.cell(row, col) {
            Cell::Empty => {
                grid.set(row, col, Cell::Filled(letters[p]));
                placed.push((row, col));
                assert forall|i: int|
                    0 <= i < g.cells.len() && #[trigger] grid@.cells[i] != g.cells[i] implies exists|q: int|
                    0 <= q < placed@.len() && g.index(
                        (#[trigger] placed@[q]).0 as int,
                        placed@[q].1 as int,
                    ) == i by {
                    if i == g.index(row as int, col as int) {
                        assert(placed@[placed@.len() - 1] == (row, col));
                    } else {
                        assert(before.cells[i] != g.cells[i]);
                        let q = choose|q: int|
                            0 <= q < placed_before.len() && g.index(
                                (#[trigger] placed_before[q]).0 as int,
                                placed_before[q].1 as int,
                            ) == i;
                        assert(placed@[q] == placed_before[q]);
                    }
                }
            },
            _ => {},
        }
        assert(grid@.cells =~= place_prefix(g, s, letters@, p + 1).cells);
    }
    placed
}

/// Put back the empty squares that `place_word` wrote.
fn unplace(grid: &mut Grid, placed: &Vec<(usize, usize)>, Ghost(g): Ghost<GridModel>)
    requires
        g.wf(),
        old(grid)@.wf(),
        old(grid)@.width == g.width,
        old(grid)@.height == g.height,
        forall|q: int|
            0 <= q < placed@.len() ==> {
                &&& g.in_bounds((#[trigger] placed@[q]).0 as int, placed@[q].1 as int)
                &&& g.at(placed@[q].0 as int, placed@[q].1 as int) is Empty
            },
        forall|i: int|
            0 <= i < g.cells.len() && #[trigger] old(grid)@.cells[i] != g.cells[i] ==> exists|q: int|
                0 <= q < placed@.len() && g.index((#[trigger] placed@[q]).0 as int, placed@[q].1 as int)
                    == i,
    ensures
        final(grid)@ == g,
{
    for q in 0..placed.len()
        invariant
            g.wf(),
            grid@.wf(),
            grid@.width == g.width,
            grid@.height == g.height,
            forall|q2: int|
                0 <= q2 < placed@.len() ==> {
                    &&& g.in_bounds((#[trigger] placed@[q2]).0 as int, placed@[q2].1 as int)
                    &&& g.at(placed@[q2].0 as int, placed@[q2].1 as int) is Empty
                },
            forall|i: int|
                0 <= i < g.cells.len() && #[trigger] grid@.cells[i] != g.cells[i] ==> exists|q2: int|
                    q <= q2 < placed@.len() && g.index(
                        (#[trigger] placed@[q2]).0 as int,
                        placed@[q2].1 as int,
                    ) == i,
    {
        let (row, col) = placed[q];
        let ghost before = grid@;
        proof {
            lemma_index_in_range(g.width, g.height, row as int, col as int);
        }
        grid.set(row, col, Cell::Empty);
        assert forall|i: int|
            0 <= i < g.cells.len() && #[trigger] grid@.cells[i] != g.cells[i] implies exists|q2: int|
            q + 1 <= q2 < placed@.len() && g.index(
                (#[trigger] placed@[q2]).0 as int,
                placed@[q2].1 as int,
            ) == i by {
            assert(before.cells[i] != g.cells[i]);
            let q2 = choose|q2: int|
                q <= q2 < placed@.len() && g.index(
                    (#[trigger] placed@[q2]).0 as int,
                    placed@[q2].1 as int,
                ) == i;
            if q2 == q {
            }
        }
    }
    assert(grid@.cells =~= g.cells);
}

/// Writing a first word and then the rest is writing the rest on the grid
/// that already holds the first.
proof fn lemma_apply_peel(g: GridModel, slots: Seq<Slot>, w: Seq<char>, ws: Seq<Seq<char>>, k: nat)
    requires
        k <= ws.len(),
        k + 1 <= slots.len(),
    ensures
        apply_words(g, slots, seq![w] + ws, k + 1) == apply_words(
            place(g, slots[0], w),
            slots.skip(1),
            ws,
            k,
        ),
    decreases k,
{
    let all = seq![w] + ws;
    let g2 = place(g, slots[0], w);
    assert(all[0] == w);
    assert(apply_words(g, slots, all, 1) == place(apply_words(g, slots, all, 0), slots[0], all[0]));
    if k > 0 {
        lemma_apply_peel(g, slots, w, ws, (k - 1) as nat);
        assert(all[k as int] == ws[k - 1]);
        assert(slots.skip(1)[k - 1] == slots[k as int]);
        assert(apply_words(g, slots, all, k + 1) == place(
            apply_words(g, slots, all, k),
            slots[k as int],
            all[k as int],
        ));
        assert(apply_words(g2, slots.skip(1), ws, k) == place(
            apply_words(g2, slots.skip(1), ws, (k - 1) as nat),
            slots.skip(1)[k - 1],
            ws[k - 1],
        ));
    }
}

/// The words a pick list selects, with its first pick taken off.
proof fn lemma_picked_peel(wl: WordList, slots: Seq<Slot>, j: int, rest: Seq<int>)
    requires
        rest.len() + 1 == slots.len(),
    ensures
        picked_words(wl, slots, seq![j] + rest) == seq![wl.words(slots[0].len as nat)[j]]
            + picked_words(wl, slots.skip(1), rest),
{
    assert(picked_words(wl, slots, seq![j] + rest) =~= seq![wl.words(slots[0].len as nat)[j]]
        + picked_words(wl, slots.skip(1), rest)) by {
        assert forall|k: int| 1 <= k < slots.len() implies slots[k] == slots.skip(1)[k - 1]
            && (seq![j] + rest)[k] == rest[k - 1] by {}
    }
}

/// A pick list fills the entries exactly when its first pick is in range,
/// new, and agrees with the grid, and the rest fills the other entries on
/// the grid that holds the first word, with that word used up.
proof fn lemma_fills_peel(
    g: GridModel,
    slots: Seq<Slot>,
    wl: WordList,
    used: Seq<Seq<char>>,
    j: int,
    rest: Seq<int>,
)
    requires
        rest.len() + 1 == slots.len(),
    ensures
        ({
            let w = wl.words(slots[0].len as nat)[j];
            fills(g, slots, wl, used, seq![j] + rest) == {
                &&& 0 <= j < wl.words(slots[0].len as nat).len()
                &&& !used.contains(w)
                &&& word_fits(g, slots[0], w)
                &&& fills(place(g, slots[0], w), slots.skip(1), wl, used.push(w), rest)
            }
        }),
{
    let w = wl.words(slots[0].len as nat)[j];
    let p = seq![j] + rest;
    let s2 = slots.skip(1);
    let g2 = place(g, slots[0], w);
    let u2 = used.push(w);
    let ws = picked_words(wl, slots, p);
    let ws2 = picked_words(wl, s2, rest);
    lemma_picked_peel(wl, slots, j, rest);
    assert(ws == seq![w] + ws2);
    assert forall|k: int| 1 <= k < slots.len() implies #[trigger] ws[k] == ws2[k - 1] && p[k]
        == rest[k - 1] && slots[k] == s2[k - 1] && apply_words(g, slots, ws, k as nat)
        == apply_words(g2, s2, ws2, (k - 1) as nat) by {
        lemma_apply_peel(g, slots, w, ws2, (k - 1) as nat);
    }
    assert(ws[0] == w);
    assert(apply_words(g, slots, ws, 0) == g);
    if fills(g, slots, wl, used, p) {
        assert(0 <= p[0] < wl.words(slots[0].len as nat).len());
        assert(!used.contains(ws[0]));
        assert(word_fits(apply_words(g, slots, ws, 0), slots[0], ws[0]));
        assert forall|k: int| 0 <= k < s2.len() implies 0 <= #[trigger] rest[k] < wl.words(
            s2[k].len as nat,
        ).len() by {
            assert(0 <= p[k + 1] < wl.words(slots[k + 1].len as nat).len());
        }
        assert forall|k: int| 0 <= k < s2.len() implies !u2.contains(#[trigger] ws2[k]) by {
            assert(!used.contains(ws[k + 1]));
            assert(ws[0] != ws[k + 1]);
            if u2.contains(ws2[k]) {
                let i = choose|i: int| 0 <= i < u2.len() && u2[i] == ws2[k];
                if i < used.len() {
                    assert(used[i] == ws2[k]);
                }
            }
        }
        assert forall|k: int, l: int| 0 <= k < l < s2.len() implies #[trigger] ws2[k]
            != #[trigger] ws2[l] by {
            assert(ws[k + 1] != ws[l + 1]);
        }
        assert forall|k: int| 0 <= k < s2.len() implies word_fits(
            apply_words(g2, s2, ws2, k as nat),
            s2[k],
            #[trigger] ws2[k],
        ) by {
            assert(word_fits(apply_words(g, slots, ws, (k + 1) as nat), slots[k + 1], ws[k + 1]));
        }
    }
    if 0 <= j < wl.words(slots[0].len as nat).len() && !used.contains(w) && word_fits(
        g,
        slots[0],
        w,
    ) && fills(g2, s2, wl, u2, rest) {
        assert forall|k: int| 0 <= k < slots.len() implies 0 <= #[trigger] p[k] < wl.words(
            slots[k].len as nat,
        ).len() by {
            if k > 0 {
                assert(0 <= rest[k - 1] < wl.words(s2[k - 1].len as nat).len());
            }
        }
        assert forall|k: int| 0 <= k < slots.len() implies !used.contains(#[trigger] ws[k]) by {
            if k > 0 {
                assert(!u2.contains(ws2[k - 1]));
                if used.contains(ws2[k - 1]) {
                    let i = choose|i: int| 0 <= i < used.len() && used[i] == ws2[k - 1];
                    assert(u2[i] == ws2[k - 1]);
                }
            }
        }
        assert forall|k: int, l: int| 0 <= k < l < slots.len() implies #[trigger] ws[k]
            != #[trigger] ws[l] by {
            if k > 0 {
                assert(ws2[k - 1] != ws2[l - 1]);
            } else {
                assert(!u2.contains(ws2[l - 1]));
                assert(u2[used.len() as int] == w);
            }
        }
        assert forall|k: int| 0 <= k < slots.len() implies word_fits(
            apply_words(g, slots, ws, k as nat),
            slots[k],
            #[trigger] ws[k],
        ) by {
            if k > 0 {
                assert(word_fits(apply_words(g2, s2, ws2, (k - 1) as nat), s2[k - 1], ws2[k - 1]));
            }
        }
    }
}

/// A complete fill whose rest is the first fill of the remaining entries,
/// and whose first pick comes after picks that all lead nowhere, is the
/// first fill.
proof fn lemma_first_fill_peel(
    g: GridModel,
    slots: Seq<Slot>,
    wl: WordList,
    used: Seq<Seq<char>>,
    j: int,
    rest: Seq<int>,
)
    requires
        rest.len() + 1 == slots.len(),
        fills(g, slots, wl, used, seq![j] + rest),
        is_first_fill(
            place(g, slots[0], wl.words(slots[0].len as nat)[j]),
            slots.skip(1),
            wl,
            used.push(wl.words(slots[0].len as nat)[j]),
            rest,
        ),
        forall|j2: int, r2: Seq<int>|
            0 <= j2 < j && r2.len() + 1 == slots.len() ==> !#[trigger] fills(
                g,
                slots,
                wl,
                used,
                seq![j2] + r2,
            ),
    ensures
        is_first_fill(g, slots, wl, used, seq![j] + rest),
{
    let w = wl.words(slots[0].len as nat)[j];
    let full = seq![j] + rest;
    let s2 = slots.skip(1);
    let g2 = place(g, slots[0], w);
    let u2 = used.push(w);
    assert forall|k: int, j2: int| 0 <= k < slots.len() && 0 <= j2 < full[k] implies #[trigger] dead_end(
        g,
        slots,
        wl,
        used,
        full.take(k).push(j2),
    ) by {
        let prefix = full.take(k).push(j2);
        assert forall|other: Seq<int>|
            other.len() == slots.len() && #[trigger] other.take(prefix.len() as int) == prefix implies !fills(
            g,
            slots,
            wl,
            used,
            other,
        ) by {
            let r2 = other.skip(1);
            assert(other =~= seq![other[0]] + r2);
            assert(other[0] == other.take(prefix.len() as int)[0]);
            if k == 0 {
                assert(other[0] == j2);
            } else {
                assert(other[0] == j);
                assert(full[k] == rest[k - 1]);
                assert(dead_end(g2, s2, wl, u2, rest.take(k - 1).push(j2)));
                assert(r2.take(k) =~= rest.take(k - 1).push(j2)) by {
                    assert forall|i: int| 0 <= i < k implies r2.take(k)[i] == rest.take(k - 1).push(
                        j2,
                    )[i] by {
                        assert(other[i + 1] == other.take(prefix.len() as int)[i + 1]);
                        if i + 1 < k {
                            assert(prefix[i + 1] == full[i + 1]);
                        } else {
                            assert(prefix[i + 1] == j2);
                        }
                    }
                }
                lemma_fills_peel(g, slots, wl, used, j, r2);
                assert(r2.take((rest.take(k - 1).push(j2)).len() as int) == rest.take(k - 1).push(
                    j2,
                ));
            }
        }
    }
}

/// A word fits an entry exactly when it agrees with the entry's pattern.
proof fn lemma_pattern_fits(g: GridModel, s: Slot, pattern: Seq<Option<char>>, w: Seq<char>)
    requires
        pattern.len() == s.len,
        w.len() == s.len,
        forall|p: int| 0 <= p < s.len ==> #[trigger] pattern[p] == pattern_of(g, s, p),
    ensures
        word_fits(g, s, w) == forall|p: int|
            0 <= p < pattern.len() ==> match #[trigger] pattern[p] {
                Some(e) => e == w[p],
                None => true,
            },
{
    if word_fits(g, s, w) {
        assert forall|p: int| 0 <= p < pattern.len() implies match #[trigger] pattern[p] {
            Some(e) => e == w[p],
            None => true,
        } by {
            let _ = g.at(square_row(s, p), square_col(s, p));
        }
    }
    if forall|p: int|
        0 <= p < pattern.len() ==> match #[trigger] pattern[p] {
            Some(e) => e == w[p],
            None => true,
        } {
        assert forall|p: int| 0 <= p < s.len implies match #[trigger] g.at(
            square_row(s, p),
            square_col(s, p),
        ) {
            Cell::Filled(ch) => w[p] == ch,
            _ => true,
        } by {
            assert(pattern[p] == pattern_of(g, s, p));
        }
    }
}

/// Whether `word` is one of the words in `used`.
fn contains_word(used: &Vec<String>, word: &String) -> (res: bool)
    ensures
        res == strings_view(used@).contains(word@),
{
    for i in 0..used.len()
        invariant
            forall|k: int| 0 <= k < i ==> (#[trigger] used@[k])@ != word@,
    {
        if used[i] == *word {
            assert(strings_view(used@)[i as int] == word@);
            return true;
        }
    }
    assert forall|k: int| 0 <= k < strings_view(used@).len() implies #[trigger] strings_view(
        used@,
    )[k] != word@ by {
        assert(used@[k]@ != word@);
    }
    false
}

/// Fill `slots[index..]` by backtracking: try each word of the entry's
/// length, in list order, that is not in `used` and agrees with the letters
/// already in the entry's squares (given by the caller or written by an
/// earlier, crossing entry); write it, go on with the next entry, and undo
/// the write when that fails. `used` gains the words placed on success and
/// is back as it was on failure.
fn backtrack_fill(
    grid: &mut Grid,
    slots: &Vec<Slot>,
    index: usize,
    word_list: &WordList,
    used: &mut Vec<String>,
) -> (res: bool)
    requires
        old(grid)@.wf(),
        word_list.wf(),
        forall|k: int| index <= k < slots@.len() ==> slot_fits(old(grid)@, #[trigger] slots@[k]),
    ensures
        ({
            let rest = slots_from(slots@, index as int);
            let g = old(grid)@;
            let u = strings_view(old(used)@);
            &&& res ==> exists|picks: Seq<int>|
                {
                    &&& #[trigger] is_first_fill(g, rest, *word_list, u, picks)
                    &&& final(grid)@ == apply_words(
                        g,
                        rest,
                        picked_words(*word_list, rest, picks),
                        rest.len(),
                    )
                    &&& strings_view(final(used)@) == u + picked_words(*word_list, rest, picks)
                }
            &&& !res ==> {
                &&& final(grid)@ == g
                &&& final(used)@ == old(used)@
                &&& forall|picks: Seq<int>| !#[trigger] fills(g, rest, *word_list, u, picks)
            }
        }),
    decreases slots@.len() - index,
{
    let ghost wl = *word_list;
    let ghost g0 = grid@;
    let ghost u0 = strings_view(used@);
    let ghost used0 = used@;
    let ghost rest = slots_from(slots@, index as int);
    if index >= slots.len() {
        proof {
            let picks = Seq::<int>::empty();
            assert(rest.len() == 0);
            assert(picked_words(wl, rest, picks) =~= Seq::<Seq<char>>::empty());
            assert(u0 + picked_words(wl, rest, picks) =~= u0);
            assert(is_first_fill(g0, rest, wl, u0, picks));
        }
        return true;
    }
    let slot = &slots[index];
    assert(rest[0] == *slot);
    proof {
        assert(slot_fits(g0, *slot));
        if slot.len > 0 {
            assert(g0.white(square_row(*slot, slot.len - 1), square_col(*slot, slot.len - 1)));
        }
    }
    let cells = slot_cells(slot);
    let pattern = read_pattern(grid, &cells, Ghost(*slot));
    let cands = word_list.candidates(slot.len);
    let ghost rest2 = slots_from(slots@, index + 1);
    assert(rest2 =~= rest.skip(1));
    let n = slots.len();
    for j in 0..cands.len()
        invariant
            n == slots@.len(),
            word_list.wf(),
            wl == *word_list,
            index < slots@.len(),
            *slot == slots@[index as int],
            rest == slots_from(slots@, index as int),
            rest2 == rest.skip(1),
            rest.len() == slots@.len() - index,
            rest[0] == *slot,
            forall|k: int| index <= k < slots@.len() ==> slot_fits(g0, #[trigger] slots@[k]),
            g0.wf(),
            g0 == old(grid)@,
            used0 == old(used)@,
            grid@ == g0,
            used@ == used0,
            u0 == strings_view(used0),
            cells@.len() == slot.len,
            forall|p: int|
                0 <= p < slot.len ==> (#[trigger] cells@[p]).0 == square_row(*slot, p)
                    && cells@[p].1 == square_col(*slot, p),
            pattern@.len() == slot.len,
            forall|p: int| 0 <= p < slot.len ==> #[trigger] pattern@[p] == pattern_of(g0, *slot, p),
            strings_view(cands@) == wl.words(slot.len as nat),
            forall|j2: int, r2: Seq<int>|
                0 <= j2 < j && r2.len() + 1 == rest.len() ==> !#[trigger] fills(
                    g0,
                    rest,
                    wl,
                    u0,
                    seq![j2] + r2,
                ),
    {
        let word = &cands[j];
        let ghost w = word@;
        assert(w == wl.words(slot.len as nat)[j as int]);
        let ghost g1 = place(g0, *slot, w);
        let ghost u1 = u0.push(w);
        if !contains_word(used, word) {
            let letters = chars_of(word.as_str());
            assert(letters@.len() == slot.len);
            proof {
                lemma_pattern_fits(g0, *slot, pattern@, w);
            }
            if agrees(&pattern, &letters) {
                let placed = place_word(grid, &cells, &letters, Ghost(*slot));
                used.push(word.clone());
                assert(strings_view(used@) =~= u1);
                proof {
                    lemma_place_prefix_shape(g0, *slot, w, slot.len as int);
                    assert forall|k: int| index + 1 <= k < slots@.len() implies slot_fits(
                        grid@,
                        #[trigger] slots@[k],
                    ) by {
                        assert(slot_fits(g0, slots@[k]));
                        assert forall|p: int| 0 <= p < slots@[k].len implies #[trigger] grid@.white(
                            square_row(slots@[k], p),
                            square_col(slots@[k], p),
                        ) by {
                            assert(g0.white(square_row(slots@[k], p), square_col(slots@[k], p)));
                        }
                    }
                }
                assert(grid@ == g1);
                assert(slots_from(slots@, index + 1) == rest2);
                if backtrack_fill(grid, slots, index + 1, word_list, used) {
                    proof {
                        let picks2 = choose|picks: Seq<int>|
                            {
                                &&& #[trigger] is_first_fill(g1, rest2, wl, u1, picks)
                                &&& grid@ == apply_words(
                                    g1,
                                    rest2,
                                    picked_words(wl, rest2, picks),
                                    rest2.len(),
                                )
                                &&& strings_view(used@) == u1 + picked_words(wl, rest2, picks)
                            };
                        let full = seq![j as int] + picks2;
                        lemma_fills_peel(g0, rest, wl, u0, j as int, picks2);
                        lemma_first_fill_peel(g0, rest, wl, u0, j as int, picks2);
                        lemma_picked_peel(wl, rest, j as int, picks2);
                        let ws2 = picked_words(wl, rest2, picks2);
                        lemma_apply_peel(g0, rest, w, ws2, ws2.len());
                        let ws = picked_words(wl, rest, full);
                        assert(ws == seq![w] + ws2);
                        assert(rest.len() == ws2.len() + 1);
                        assert(grid@ == apply_words(g0, rest, ws, rest.len()));
                        assert(u1 + ws2 =~= u0 + (seq![w] + ws2));
                        assert(strings_view(used@) == u0 + ws);
                        assert(is_first_fill(g0, rest, wl, u0, full));
                    }
                    return true;
                }
                used.pop();
                assert(used@ =~= used0);
                unplace(grid, &placed, Ghost(g0));
                proof {
                    assert forall|r2: Seq<int>| r2.len() + 1 == rest.len() implies !#[trigger] fills(
                        g0,
                        rest,
                        wl,
                        u0,
                        seq![j as int] + r2,
                    ) by {
                        lemma_fills_peel(g0, rest, wl, u0, j as int, r2);
                    }
                }
            } else {
                proof {
                    assert forall|r2: Seq<int>| r2.len() + 1 == rest.len() implies !#[trigger] fills(
                        g0,
                        rest,
                        wl,
                        u0,
                        seq![j as int] + r2,
                    ) by {
                        lemma_fills_peel(g0, rest, wl, u0, j as int, r2);
                    }
                }
            }
        } else {
            proof {
                assert forall|r2: Seq<int>| r2.len() + 1 == rest.len() implies !#[trigger] fills(
                    g0,
                    rest,
                    wl,
                    u0,
                    seq![j as int] + r2,
                ) by {
                    lemma_fills_peel(g0, rest, wl, u0, j as int, r2);
                }
            }
        }
    }
    proof {
        assert forall|picks: Seq<int>| !#[trigger] fills(g0, rest, wl, u0, picks) by {
            if fills(g0, rest, wl, u0, picks) {
                let r2 = picks.skip(1);
                assert(picks =~= seq![picks[0]] + r2);
                assert(0 <= picks[0] < wl.words(rest[0].len as nat).len());
            }
        }
    }
    false
}

/// A letter or black square, once in the grid, stays through every later
/// word written.
proof fn lemma_apply_keeps(orig: GridModel, slots: Seq<Slot>, words: Seq<Seq<char>>, j: nat, m: nat)
    requires
        orig.wf(),
        j <= m,
    ensures
        forall|r: int, c: int|
            orig.in_bounds(r, c) && !(apply_words(orig, slots, words, j).at(r, c) is Empty)
                ==> #[trigger] apply_words(orig, slots, words, m).at(r, c) == apply_words(
                orig,
                slots,
                words,
                j,
            ).at(r, c),
    decreases m - j,
{
    if j < m {
        lemma_apply_keeps(orig, slots, words, j, (m - 1) as nat);
        let prev = apply_words(orig, slots, words, (m - 1) as nat);
        lemma_apply_shape(orig, slots, words, (m - 1) as nat);
        lemma_place_prefix_shape(prev, slots[m - 1], words[m - 1], slots[m - 1].len as int);
        assert forall|r: int, c: int|
            orig.in_bounds(r, c) && !(apply_words(orig, slots, words, j).at(r, c) is Empty)
                implies #[trigger] apply_words(orig, slots, words, m).at(r, c) == apply_words(
            orig,
            slots,
            words,
            j,
        ).at(r, c) by {
            assert(prev.in_bounds(r, c));
            let _ = prev.at(r, c);
        }
    }
}

/// In a complete fill of entries that lie on white squares of the grid,
/// every entry spells its word, black squares stay black, letters given in
/// the grid stay, and a square is left empty only if it was empty and lies
/// in no entry.
pub proof fn lemma_fill_spells_words(
    orig: GridModel,
    slots: Seq<Slot>,
    wl: WordList,
    used: Seq<Seq<char>>,
    picks: Seq<int>,
)
    requires
        orig.wf(),
        forall|k: int| 0 <= k < slots.len() ==> slot_fits(orig, #[trigger] slots[k]),
        fills(orig, slots, wl, used, picks),
    ensures
        ({
            let words = picked_words(wl, slots, picks);
            let g = apply_words(orig, slots, words, slots.len());
            &&& g.wf()
            &&& g.width == orig.width
            &&& g.height == orig.height
            &&& forall|r: int, c: int|
                orig.in_bounds(r, c) ==> {
                    &&& (#[trigger] g.at(r, c) is Black <==> orig.at(r, c) is Black)
                    &&& (orig.at(r, c) is Filled ==> g.at(r, c) == orig.at(r, c))
                }
            &&& forall|k: int, p: int|
                0 <= k < slots.len() && 0 <= p < slots[k].len ==> #[trigger] g.at(
                    square_row(slots[k], p),
                    square_col(slots[k], p),
                ) == Cell::Filled(words[k][p])
            &&& forall|r: int, c: int, k: int, p: int|
                orig.in_bounds(r, c) && #[trigger] g.at(r, c) is Empty && 0 <= k < slots.len()
                    && 0 <= p < slots[k].len ==> !(#[trigger] square_row(slots[k], p) == r
                    && square_col(slots[k], p) == c)
        }),
{
    let words = picked_words(wl, slots, picks);
    let n = slots.len();
    let g = apply_words(orig, slots, words, n);
    lemma_apply_shape(orig, slots, words, n);
    assert forall|k: int, p: int| 0 <= k < slots.len() && 0 <= p < slots[k].len implies #[trigger] g.at(
        square_row(slots[k], p),
        square_col(slots[k], p),
    ) == Cell::Filled(words[k][p]) by {
        let s = slots[k];
        let r = square_row(s, p);
        let c = square_col(s, p);
        let gk = apply_words(orig, slots, words, k as nat);
        lemma_apply_shape(orig, slots, words, k as nat);
        assert(slot_fits(orig, s));
        assert(orig.white(r, c));
        assert(word_fits(gk, s, words[k]));
        let _ = gk.at(r, c);
        lemma_place_prefix_at(gk, s, words[k], s.len as int, r, c);
        lemma_slot_offset(s, p, r, c);
        assert(apply_words(orig, slots, words, (k + 1) as nat).at(r, c) == Cell::Filled(words[k][p]));
        lemma_apply_keeps(orig, slots, words, (k + 1) as nat, n);
    }
}

/// Why a grid could not be filled.
#[derive(Debug, Clone, Copy, PartialEq, Eq, Structural)]
pub enum FillError {
    /// No combination of words from the list satisfies every entry and every
    /// crossing.
    NoSolution,
}

impl FillError {
    /// A human-readable description of the error.
    pub fn to_string(&self) -> (res: String)
        ensures
            res@ == "no fill satisfies every slot and crossing"@,
    {
        let mut out = String::new();
        match self {
            FillError::NoSolution => out.append("no fill satisfies every slot and crossing"),
        }
        out
    }
}

/// Writing words never changes a square that no entry covers.
proof fn lemma_apply_uncovered(
    orig: GridModel,
    slots: Seq<Slot>,
    words: Seq<Seq<char>>,
    k: nat,
    r: int,
    c: int,
)
    requires
        orig.wf(),
        orig.in_bounds(r, c),
        k <= slots.len(),
        !covered(slots, r, c),
    ensures
        apply_words(orig, slots, words, k).at(r, c) == orig.at(r, c),
    decreases k,
{
    if k > 0 {
        lemma_apply_uncovered(orig, slots, words, (k - 1) as nat, r, c);
        let prev = apply_words(orig, slots, words, (k - 1) as nat);
        lemma_apply_shape(orig, slots, words, (k - 1) as nat);
        let s = slots[k - 1];
        lemma_place_prefix_at(prev, s, words[k - 1], s.len as int, r, c);
        if slot_offset(s, r, c) is Some {
            let p = slot_offset(s, r, c)->0;
            lemma_slot_offset(s, p, r, c);
            assert(square_row(slots[k - 1], p) == r && square_col(slots[k - 1], p) == c);
        }
    }
}

/// Some entry covers square `(r, c)`.
pub open spec fn covered(slots: Seq<Slot>, r: int, c: int) -> bool {
    exists|k: int, p: int|
        0 <= k < slots.len() && 0 <= p < slots[k].len && #[trigger] square_row(slots[k], p) == r
            && square_col(slots[k], p) == c
}

/// Some empty square of `g` lies in no entry, so no word can fill it.
pub open spec fn stray_empty(g: GridModel) -> bool {
    exists|r: int, c: int|
        g.in_bounds(r, c) && #[trigger] g.at(r, c) is Empty && !covered(g.slots(), r, c)
}

/// Whether some square of the grid is empty.
fn has_empty_square(grid: &Grid) -> (res: bool)
    requires
        grid@.wf(),
    ensures
        res == exists|r: int, c: int| grid@.in_bounds(r, c) && #[trigger] grid@.at(r, c) is Empty,
{
    let ghost g = grid@;
    let height = grid.height();
    let width = grid.width();
    for row in 0..height
        invariant
            g == grid@,
            g.wf(),
            height == g.height,
            width == g.width,
            forall|r: int, c: int|
                0 <= r < row && 0 <= c < g.width ==> !(#[trigger] g.at(r, c) is Empty),
    {
        for col in 0..width
            invariant
                g == grid@,
                g.wf(),
                height == g.height,
                width == g.width,
                row < g.height,
                forall|r: int, c: int|
                    (0 <= r < row && 0 <= c < g.width) || (r == row && 0 <= c < col) ==> !(
                    #[trigger] g.at(r, c) is Empty),
        {
            proof {
                lemma_index_in_range(g.width, g.height, row as int, col as int);
            }
            if let Cell::Empty = grid.cell(row, col) {
                return true;
            }
        }
    }
    false
}

impl Grid {
    /// Fill every empty white square with words from `word_list`, keeping
    /// every letter already placed and agreeing at every across/down
    /// crossing, no word used twice. The words are tried in list order, entry
    /// by entry in numbering order, and the first complete fill is returned
    /// as a new grid. It fails when no fill exists, or when an empty square
    /// lies in no entry (no word can reach it). The receiver is left
    /// untouched either way.
    pub fn fill(&self, word_list: &WordList) -> (res: Result<Grid, FillError>)
        requires
            self@.numbered_count() <= u32::MAX,
        ensures
            res is Ok <==> (exists|picks: Seq<int>|
                #[trigger] fills(self@, self@.slots(), *word_list, Seq::empty(), picks))
                && !stray_empty(self@),
            res matches Ok(g) ==> exists|picks: Seq<int>|
                {
                    &&& #[trigger] is_first_fill(
                        self@,
                        self@.slots(),
                        *word_list,
                        Seq::empty(),
                        picks,
                    )
                    &&& g@ == apply_words(
                        self@,
                        self@.slots(),
                        picked_words(*word_list, self@.slots(), picks),
                        self@.slots().len(),
                    )
                },
            res matches Ok(g) ==> forall|r: int, c: int|
                g@.in_bounds(r, c) ==> !(#[trigger] g@.at(r, c) is Empty),
            res matches Err(e) ==> e == FillError::NoSolution,
    {
        proof {
            use_type_invariant(self);
            use_type_invariant(word_list);
        }
        let mut grid = self.clone();
        let slots = grid.slots();
        let mut used: Vec<String> = Vec::new();
        let ghost g = self@;
        let ghost s = g.slots();
        let ghost wl = *word_list;
        let ghost u = Seq::<Seq<char>>::empty();
        assert(strings_view(used@) =~= u);
        proof {
            lemma_slots_fit(g);
        }
        assert(slots_from(s, 0) =~= s);
        if backtrack_fill(&mut grid, &slots, 0, word_list, &mut used) {
            let ghost picks = choose|picks: Seq<int>|
                {
                    &&& #[trigger] is_first_fill(g, s, wl, u, picks)
                    &&& grid@ == apply_words(g, s, picked_words(wl, s, picks), s.len())
                    &&& strings_view(used@) == u + picked_words(wl, s, picks)
                };
            proof {
                lemma_fill_spells_words(g, s, wl, u, picks);
            }
            if has_empty_square(&grid) {
                proof {
                    let (r, c) = choose|r: int, c: int|
                        grid@.in_bounds(r, c) && #[trigger] grid@.at(r, c) is Empty;
                    assert(g.at(r, c) is Empty);
                    if covered(s, r, c) {
                        let (k, p) = choose|k: int, p: int|
                            0 <= k < s.len() && 0 <= p < s[k].len && #[trigger] square_row(s[k], p)
                                == r && square_col(s[k], p) == c;
                        assert(grid@.at(square_row(s[k], p), square_col(s[k], p)) is Filled);
                    }
                    assert(stray_empty(g));
                }
                return Err(FillError::NoSolution);
            }
            proof {
                assert(!stray_empty(g)) by {
                    if stray_empty(g) {
                        let (r, c) = choose|r: int, c: int|
                            g.in_bounds(r, c) && #[trigger] g.at(r, c) is Empty && !covered(s, r, c);
                        lemma_apply_uncovered(g, s, picked_words(wl, s, picks), s.len(), r, c);
                        assert(grid@.in_bounds(r, c));
                        assert(grid@.at(r, c) is Empty);
                    }
                }
            }
            Ok(grid)
        } else {
            Err(FillError::NoSolution)
        }
    }
}

} // verus!
