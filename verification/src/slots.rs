use vstd::prelude::*;

use crate::grid::{Grid, GridModel};

verus! {

#[derive(Debug, Clone, Copy, PartialEq, Eq, Structural)]
pub enum Direction {
    Across,
    Down,
}

/// A numbered entry: where it starts, which way it runs and how long it is.
#[derive(Debug, Clone, PartialEq, Eq, Structural)]
pub struct Slot {
    pub number: u32,
    pub row: usize,
    pub col: usize,
    pub len: usize,
    pub direction: Direction,
}

impl GridModel {
    pub open spec fn white(self, r: int, c: int) -> bool {
        self.in_bounds(r, c) && !self.black(r, c)
    }

    /// How many white squares run rightwards from `(r, c)` before a black
    /// square or the edge.
    pub open spec fn across_run(self, r: int, c: int) -> nat
        decreases self.width - c,
    {
        if 0 <= c < self.width && !self.black(r, c) {
            1 + self.across_run(r, c + 1)
        } else {
            0
        }
    }

    /// How many white squares run downwards from `(r, c)` before a black
    /// square or the edge.
    pub open spec fn down_run(self, r: int, c: int) -> nat
        decreases self.height - r,
    {
        if 0 <= r < self.height && !self.black(r, c) {
            1 + self.down_run(r + 1, c)
        } else {
            0
        }
    }

    /// `(r, c)` is white, has a wall or the edge to its left, and at least
    /// one white square to its right.
    pub open spec fn starts_across(self, r: int, c: int) -> bool {
        &&& self.white(r, c)
        &&& (c == 0 || self.black(r, c - 1))
        &&& self.across_run(r, c) > 1
    }

    /// `(r, c)` is white, has a wall or the edge above it, and at least one
    /// white square below it.
    pub open spec fn starts_down(self, r: int, c: int) -> bool {
        &&& self.white(r, c)
        &&& (r == 0 || self.black(r - 1, c))
        &&& self.down_run(r, c) > 1
    }

    /// The square gets a number: it starts an across or a down entry.
    pub open spec fn numbered(self, r: int, c: int) -> bool {
        self.starts_across(r, c) || self.starts_down(r, c)
    }

    /// How many numbered squares come before `(r, c)` in reading order
    /// (`c` ranges over `0..=width`; `(r, width)` is where row `r` ends).
    pub open spec fn numbered_before(self, r: nat, c: nat) -> nat
        decreases r, c,
    {
        if c == 0 {
            if r == 0 {
                0
            } else {
                self.numbered_before((r - 1) as nat, self.width)
            }
        } else {
            self.numbered_before(r, (c - 1) as nat) + if self.numbered(r as int, c - 1) {
                1nat
            } else {
                0nat
            }
        }
    }

    /// How many squares of the grid get a number.
    pub open spec fn numbered_count(self) -> nat {
        self.numbered_before(self.height, 0)
    }

    /// The entries that start at `(r, c)`, given the number `n` of the
    /// square: the across entry first, then the down entry.
    pub open spec fn slots_at(self, r: int, c: int, n: nat) -> Seq<Slot> {
        let across = if self.starts_across(r, c) {
            seq![
                Slot {
                    number: n as u32,
                    row: r as usize,
                    col: c as usize,
                    len: self.across_run(r, c) as usize,
                    direction: Direction::Across,
                },
            ]
        } else {
            seq![]
        };
        let down = if self.starts_down(r, c) {
            seq![
                Slot {
                    number: n as u32,
                    row: r as usize,
                    col: c as usize,
                    len: self.down_run(r, c) as usize,
                    direction: Direction::Down,
                },
            ]
        } else {
            seq![]
        };
        across + down
    }

    /// The entries of all squares before `(r, c)` in reading order, each
    /// square numbered one past the count of numbered squares before it.
    pub open spec fn slots_before(self, r: nat, c: nat) -> Seq<Slot>
        decreases r, c,
    {
        if c == 0 {
            if r == 0 {
                seq![]
            } else {
                self.slots_before((r - 1) as nat, self.width)
            }
        } else {
            self.slots_before(r, (c - 1) as nat) + self.slots_at(
                r as int,
                c - 1,
                self.numbered_before(r, (c - 1) as nat) + 1,
            )
        }
    }

    /// Every entry of the grid, numbered in reading order.
    pub open spec fn slots(self) -> Seq<Slot> {
        self.slots_before(self.height, 0)
    }
}

impl GridModel {
    /// The entry in direction `d` that would start at `(r, c)`, numbered
    /// one past the numbered squares before it.
    pub open spec fn entry(self, r: int, c: int, d: Direction) -> Slot {
        Slot {
            number: (self.numbered_before(r as nat, c as nat) + 1) as u32,
            row: r as usize,
            col: c as usize,
            len: match d {
                Direction::Across => self.across_run(r, c),
                Direction::Down => self.down_run(r, c),
            } as usize,
            direction: d,
        }
    }

    /// `s` is an entry of this grid: it starts at a square that begins an
    /// entry in its direction, covers the whole run of white squares from
    /// there, and carries one past the count of numbered squares before it.
    pub open spec fn slot_ok(self, s: Slot) -> bool {
        &&& s.number == self.numbered_before(s.row as nat, s.col as nat) + 1
        &&& match s.direction {
            Direction::Across => {
                &&& self.starts_across(s.row as int, s.col as int)
                &&& s.len == self.across_run(s.row as int, s.col as int)
            },
            Direction::Down => {
                &&& self.starts_down(s.row as int, s.col as int)
                &&& s.len == self.down_run(s.row as int, s.col as int)
            },
        }
    }
}

/// Square `(r1, c1)` comes no later than `(r2, c2)` in reading order.
pub open spec fn reads_no_later(r1: int, c1: int, r2: int, c2: int) -> bool {
    r1 < r2 || (r1 == r2 && c1 <= c2)
}

/// What a run of white squares covers: it stays inside the grid, every
/// square in it is white, and it stops at a black square or the edge.
pub proof fn lemma_across_run(g: GridModel, r: int, c: int)
    requires
        0 <= c < g.width,
    ensures
        c + g.across_run(r, c) <= g.width,
        forall|k: int| 0 <= k < g.across_run(r, c) ==> !#[trigger] g.black(r, c + k),
        c + g.across_run(r, c) == g.width || g.black(r, c + g.across_run(r, c)),
    decreases g.width - c,
{
    if !g.black(r, c) && c + 1 >= g.width {
        assert(g.across_run(r, c + 1) == 0);
    }
    if !g.black(r, c) && c + 1 < g.width {
        lemma_across_run(g, r, c + 1);
        assert forall|k: int| 0 <= k < g.across_run(r, c) implies !#[trigger] g.black(r, c + k) by {
            if k > 0 {
                assert(!g.black(r, (c + 1) + (k - 1)));
            }
        }
    }
}

/// The down counterpart of [`lemma_across_run`].
pub proof fn lemma_down_run(g: GridModel, r: int, c: int)
    requires
        0 <= r < g.height,
    ensures
        r + g.down_run(r, c) <= g.height,
        forall|k: int| 0 <= k < g.down_run(r, c) ==> !#[trigger] g.black(r + k, c),
        r + g.down_run(r, c) == g.height || g.black(r + g.down_run(r, c), c),
    decreases g.height - r,
{
    if !g.black(r, c) && r + 1 >= g.height {
        assert(g.down_run(r + 1, c) == 0);
    }
    if !g.black(r, c) && r + 1 < g.height {
        lemma_down_run(g, r + 1, c);
        assert forall|k: int| 0 <= k < g.down_run(r, c) implies !#[trigger] g.black(r + k, c) by {
            if k > 0 {
                assert(!g.black((r + 1) + (k - 1), c));
            }
        }
    }
}

/// A run never reaches past the edge of the grid.
proof fn lemma_runs_fit(g: GridModel, r: int, c: int)
    requires
        g.wf(),
        g.in_bounds(r, c),
    ensures
        g.across_run(r, c) <= g.width,
        g.down_run(r, c) <= g.height,
{
    lemma_across_run(g, r, c);
    lemma_down_run(g, r, c);
}

/// The entries that `slots_at` lists for a square are exactly its entries.
proof fn lemma_slots_at(g: GridModel, r: int, c: int)
    requires
        g.wf(),
        g.in_bounds(r, c),
        g.numbered(r, c) ==> g.numbered_before(r as nat, c as nat) + 1 <= u32::MAX,
    ensures
        g.slots_at(r, c, g.numbered_before(r as nat, c as nat) + 1) == (if g.starts_across(r, c) {
            seq![g.entry(r, c, Direction::Across)]
        } else {
            seq![]
        }) + (if g.starts_down(r, c) {
            seq![g.entry(r, c, Direction::Down)]
        } else {
            seq![]
        }),
        g.starts_across(r, c) ==> g.slot_ok(g.entry(r, c, Direction::Across)),
        g.starts_down(r, c) ==> g.slot_ok(g.entry(r, c, Direction::Down)),
{
    lemma_runs_fit(g, r, c);
}

/// Everything listed before `(r, c)` is a genuine entry of a square that
/// comes earlier, the list keeps reading order, and every entry of every
/// earlier square is in it.
#[verifier::spinoff_prover]
proof fn lemma_slots_before(g: GridModel, r: nat, c: nat)
    requires
        g.wf(),
        g.numbered_count() <= u32::MAX,
        (r < g.height && c <= g.width) || (r == g.height && c == 0),
    ensures
        forall|i: int|
            0 <= i < g.slots_before(r, c).len() ==> {
                let s = #[trigger] g.slots_before(r, c)[i];
                &&& g.slot_ok(s)
                &&& g.in_bounds(s.row as int, s.col as int)
                &&& (s.row < r || (s.row == r && s.col < c))
            },
        forall|i: int, j: int|
            0 <= i < j < g.slots_before(r, c).len() ==> reads_no_later(
                #[trigger] g.slots_before(r, c)[i].row as int,
                g.slots_before(r, c)[i].col as int,
                #[trigger] g.slots_before(r, c)[j].row as int,
                g.slots_before(r, c)[j].col as int,
            ),
        forall|r2: int, c2: int|
            g.in_bounds(r2, c2) && (r2 < r || (r2 == r && c2 < c)) ==> {
                &&& #[trigger] g.starts_across(r2, c2) ==> g.slots_before(r, c).contains(
                    g.entry(r2, c2, Direction::Across),
                )
                &&& g.starts_down(r2, c2) ==> g.slots_before(r, c).contains(
                    g.entry(r2, c2, Direction::Down),
                )
            },
    decreases r, c,
{
    if c == 0 {
        if r > 0 {
            lemma_slots_before(g, (r - 1) as nat, g.width);
            assert(g.slots_before(r, c) == g.slots_before((r - 1) as nat, g.width));
            assert forall|r2: int, c2: int|
                g.in_bounds(r2, c2) && (r2 < r || (r2 == r && c2 < c)) implies {
                    &&& #[trigger] g.starts_across(r2, c2) ==> g.slots_before(r, c).contains(
                        g.entry(r2, c2, Direction::Across),
                    )
                    &&& g.starts_down(r2, c2) ==> g.slots_before(r, c).contains(
                        g.entry(r2, c2, Direction::Down),
                    )
                } by {
                assert(r2 < r - 1 || (r2 == r - 1 && c2 < g.width));
            }
        }
    } else {
        let pr = r;
        let pc = (c - 1) as nat;
        lemma_slots_before(g, pr, pc);
        lemma_numbered_before_bounded(g, pr, c);
        lemma_slots_at(g, pr as int, pc as int);
        let prev = g.slots_before(pr, pc);
        let here = g.slots_at(pr as int, pc as int, g.numbered_before(pr, pc) + 1);
        assert(g.slots_before(r, c) == prev + here);
        assert forall|r2: int, c2: int|
            g.in_bounds(r2, c2) && (r2 < r || (r2 == r && c2 < c)) implies {
                &&& #[trigger] g.starts_across(r2, c2) ==> g.slots_before(r, c).contains(
                    g.entry(r2, c2, Direction::Across),
                )
                &&& g.starts_down(r2, c2) ==> g.slots_before(r, c).contains(
                    g.entry(r2, c2, Direction::Down),
                )
            } by {
            if r2 == r && c2 == pc {
                if g.starts_across(r2, c2) {
                    assert(g.slots_before(r, c)[prev.len() as int] == g.entry(
                        r2,
                        c2,
                        Direction::Across,
                    ));
                }
                if g.starts_down(r2, c2) {
                    assert(g.slots_before(r, c)[g.slots_before(r, c).len() - 1] == g.entry(
                        r2,
                        c2,
                        Direction::Down,
                    ));
                }
            } else {
                if g.starts_across(r2, c2) {
                    let k = choose|k: int|
                        0 <= k < prev.len() && prev[k] == g.entry(r2, c2, Direction::Across);
                    assert(g.slots_before(r, c)[k] == g.entry(r2, c2, Direction::Across));
                }
                if g.starts_down(r2, c2) {
                    let k = choose|k: int|
                        0 <= k < prev.len() && prev[k] == g.entry(r2, c2, Direction::Down);
                    assert(g.slots_before(r, c)[k] == g.entry(r2, c2, Direction::Down));
                }
            }
        }
    }
}

/// Numbering before `(r, c)` has no gaps: it starts at 1, each entry's
/// number is its predecessor's or one more, and the last number is the count
/// of numbered squares so far.
#[verifier::spinoff_prover]
proof fn lemma_slots_before_numbers(g: GridModel, r: nat, c: nat)
    requires
        g.wf(),
        g.numbered_count() <= u32::MAX,
        (r < g.height && c <= g.width) || (r == g.height && c == 0),
    ensures
        (g.slots_before(r, c).len() == 0) <==> (g.numbered_before(r, c) == 0),
        g.slots_before(r, c).len() > 0 ==> g.slots_before(r, c)[0].number == 1
            && g.slots_before(r, c).last().number == g.numbered_before(r, c),
        forall|i: int|
            0 <= i < g.slots_before(r, c).len() - 1 ==> {
                let a = #[trigger] g.slots_before(r, c)[i].number;
                let b = g.slots_before(r, c)[i + 1].number;
                b == a || b == a + 1
            },
    decreases r, c,
{
    if c == 0 {
        if r > 0 {
            lemma_slots_before_numbers(g, (r - 1) as nat, g.width);
        }
    } else {
        let pc = (c - 1) as nat;
        lemma_slots_before_numbers(g, r, pc);
        lemma_numbered_before_bounded(g, r, c);
        lemma_slots_at(g, r as int, pc as int);
        let prev = g.slots_before(r, pc);
        let here = g.slots_at(r as int, pc as int, g.numbered_before(r, pc) + 1);
        let all = g.slots_before(r, c);
        assert(all == prev + here);
        if g.numbered(r as int, pc as int) {
            let n = g.numbered_before(r, c);
            assert(n == g.numbered_before(r, pc) + 1);
            assert(here.len() > 0);
            assert forall|k: int| 0 <= k < here.len() implies #[trigger] here[k].number == n by {}
            assert forall|i: int| 0 <= i < all.len() - 1 implies {
                let a = #[trigger] all[i].number;
                let b = all[i + 1].number;
                b == a || b == a + 1
            } by {
                if i + 1 < prev.len() {
                    assert(all[i] == prev[i]);
                    assert(all[i + 1] == prev[i + 1]);
                } else if i + 1 == prev.len() {
                    assert(all[i] == prev.last());
                    assert(all[i + 1] == here[0]);
                } else {
                    assert(all[i] == here[i - prev.len()]);
                    assert(all[i + 1] == here[i + 1 - prev.len()]);
                }
            }
            assert(all.last() == here.last());
            if prev.len() > 0 {
                assert(all[0] == prev[0]);
            } else {
                assert(all[0] == here[0]);
            }
        } else {
            assert(here.len() == 0);
            assert(all =~= prev);
        }
    }
}

/// The numbers run 1, 2, 3, ... in reading order without gaps: the first
/// entry has number 1, each entry has its predecessor's number or one more,
/// and the last number is the count of numbered squares.
pub proof fn lemma_slots_numbered_without_gaps(g: GridModel)
    requires
        g.wf(),
        g.numbered_count() <= u32::MAX,
    ensures
        g.slots().len() > 0 ==> g.slots()[0].number == 1 && g.slots().last().number
            == g.numbered_count(),
        g.slots().len() == 0 <==> g.numbered_count() == 0,
        forall|i: int|
            0 <= i < g.slots().len() - 1 ==> {
                let a = #[trigger] g.slots()[i].number;
                let b = g.slots()[i + 1].number;
                b == a || b == a + 1
            },
{
    lemma_slots_before_numbers(g, g.height, 0);
}

/// Soundness of the numbering: every listed entry is a genuine entry of the
/// grid (a white square with a wall or the edge before it, covering its
/// whole run of two or more white squares, numbered one past the numbered
/// squares before it).
pub proof fn lemma_slots_sound(g: GridModel)
    requires
        g.wf(),
        g.numbered_count() <= u32::MAX,
    ensures
        forall|i: int|
            0 <= i < g.slots().len() ==> {
                let s = #[trigger] g.slots()[i];
                &&& g.slot_ok(s)
                &&& g.in_bounds(s.row as int, s.col as int)
                &&& s.len >= 2
                &&& 1 <= s.number <= g.numbered_count()
            },
{
    lemma_slots_before(g, g.height, 0);
    assert forall|i: int| 0 <= i < g.slots().len() implies {
        let s = #[trigger] g.slots()[i];
        &&& g.slot_ok(s)
        &&& g.in_bounds(s.row as int, s.col as int)
        &&& s.len >= 2
        &&& 1 <= s.number <= g.numbered_count()
    } by {
        let s = g.slots()[i];
        lemma_numbered_before_bounded(g, s.row as nat, (s.col + 1) as nat);
    }
}

/// Completeness of the numbering: every square that starts an entry has
/// that entry in the list.
pub proof fn lemma_slots_complete(g: GridModel, r: int, c: int)
    requires
        g.wf(),
        g.numbered_count() <= u32::MAX,
        g.in_bounds(r, c),
    ensures
        g.starts_across(r, c) ==> g.slots().contains(g.entry(r, c, Direction::Across)),
        g.starts_down(r, c) ==> g.slots().contains(g.entry(r, c, Direction::Down)),
{
    lemma_slots_before(g, g.height, 0);
    assert(g.starts_across(r, c) ==> g.slots().contains(g.entry(r, c, Direction::Across)));
}

/// The entries are listed in reading order of their first squares, and
/// their numbers rise with it: two entries share a number exactly when
/// they start at the same square.
pub proof fn lemma_slots_ordered(g: GridModel, i: int, j: int)
    requires
        g.wf(),
        g.numbered_count() <= u32::MAX,
        0 <= i < j < g.slots().len(),
    ensures
        reads_no_later(
            g.slots()[i].row as int,
            g.slots()[i].col as int,
            g.slots()[j].row as int,
            g.slots()[j].col as int,
        ),
        g.slots()[i].number <= g.slots()[j].number,
        (g.slots()[i].number == g.slots()[j].number) <==> (g.slots()[i].row == g.slots()[j].row
            && g.slots()[i].col == g.slots()[j].col),
{
    lemma_slots_before(g, g.height, 0);
    let si = g.slots()[i];
    let sj = g.slots()[j];
    assert(g.slot_ok(si));
    assert(g.slot_ok(sj));
    if si.row == sj.row {
        if si.col < sj.col {
            lemma_numbered_before_mono_col(g, si.row as nat, (si.col + 1) as nat, sj.col as nat);
        }
    } else {
        lemma_numbered_before_mono_col(g, si.row as nat, (si.col + 1) as nat, g.width);
        lemma_numbered_before_mono_row(g, (si.row + 1) as nat, sj.row as nat);
        lemma_numbered_before_mono_col(g, sj.row as nat, 0, sj.col as nat);
    }
}

/// Counting numbered squares only grows along reading order, within a row.
proof fn lemma_numbered_before_mono_col(g: GridModel, r: nat, c1: nat, c2: nat)
    requires
        c1 <= c2,
    ensures
        g.numbered_before(r, c1) <= g.numbered_before(r, c2),
    decreases c2 - c1,
{
    if c1 < c2 {
        lemma_numbered_before_mono_col(g, r, c1, (c2 - 1) as nat);
    }
}

/// Counting numbered squares only grows along reading order, across rows.
proof fn lemma_numbered_before_mono_row(g: GridModel, r1: nat, r2: nat)
    requires
        r1 <= r2,
    ensures
        g.numbered_before(r1, 0) <= g.numbered_before(r2, 0),
    decreases r2 - r1,
{
    if r1 < r2 {
        lemma_numbered_before_mono_row(g, r1, (r2 - 1) as nat);
        lemma_numbered_before_mono_col(g, (r2 - 1) as nat, 0, g.width);
    }
}

/// The count of numbered squares before `(r, c)` never exceeds the count
/// for the whole grid.
pub proof fn lemma_numbered_before_bounded(g: GridModel, r: nat, c: nat)
    requires
        r < g.height,
        c <= g.width,
    ensures
        g.numbered_before(r, c) <= g.numbered_count(),
{
    lemma_numbered_before_mono_col(g, r, c, g.width);
    lemma_numbered_before_mono_row(g, r + 1, g.height);
}

/// At most one number per square.
pub proof fn lemma_numbered_before_at_most_squares(g: GridModel, r: nat, c: nat)
    requires
        c <= g.width,
    ensures
        g.numbered_before(r, c) <= r * g.width + c,
    decreases r, c,
{
    if c == 0 {
        if r > 0 {
            lemma_numbered_before_at_most_squares(g, (r - 1) as nat, g.width);
            assert(((r - 1) as nat) * g.width + g.width == r * g.width) by (nonlinear_arith)
                requires
                    r > 0,
            ;
        }
    } else {
        lemma_numbered_before_at_most_squares(g, r, (c - 1) as nat);
    }
}

/// A grid never has more numbered squares than squares.
pub proof fn lemma_numbered_count_at_most_squares(g: GridModel)
    ensures
        g.numbered_count() <= g.width * g.height,
{
    lemma_numbered_before_at_most_squares(g, g.height, 0);
    assert(g.height * g.width == g.width * g.height) by (nonlinear_arith);
}

/// Two grids of one size whose black squares stand in the same places.
pub open spec fn same_shape(g1: GridModel, g2: GridModel) -> bool {
    &&& g1.width == g2.width
    &&& g1.height == g2.height
    &&& forall|r: int, c: int| g1.in_bounds(r, c) ==> #[trigger] g1.black(r, c) == g2.black(r, c)
}

proof fn lemma_same_runs(g1: GridModel, g2: GridModel, r: int, c: int)
    requires
        same_shape(g1, g2),
        0 <= r < g1.height,
        0 <= c,
    ensures
        g1.across_run(r, c) == g2.across_run(r, c),
    decreases g1.width - c,
{
    if c < g1.width {
        assert(g1.black(r, c) == g2.black(r, c));
        lemma_same_runs(g1, g2, r, c + 1);
    }
}

proof fn lemma_same_down_runs(g1: GridModel, g2: GridModel, r: int, c: int)
    requires
        same_shape(g1, g2),
        0 <= r,
        0 <= c < g1.width,
    ensures
        g1.down_run(r, c) == g2.down_run(r, c),
    decreases g1.height - r,
{
    if r < g1.height {
        assert(g1.black(r, c) == g2.black(r, c));
        lemma_same_down_runs(g1, g2, r + 1, c);
    }
}

proof fn lemma_same_starts(g1: GridModel, g2: GridModel, r: int, c: int)
    requires
        same_shape(g1, g2),
    ensures
        g1.starts_across(r, c) == g2.starts_across(r, c),
        g1.starts_down(r, c) == g2.starts_down(r, c),
        g1.numbered(r, c) == g2.numbered(r, c),
        g1.in_bounds(r, c) ==> g1.across_run(r, c) == g2.across_run(r, c) && g1.down_run(r, c)
            == g2.down_run(r, c),
{
    if g1.in_bounds(r, c) {
        assert(g1.black(r, c) == g2.black(r, c));
        if c > 0 {
            assert(g1.black(r, c - 1) == g2.black(r, c - 1));
        }
        if r > 0 {
            assert(g1.black(r - 1, c) == g2.black(r - 1, c));
        }
        lemma_same_runs(g1, g2, r, c);
        lemma_same_down_runs(g1, g2, r, c);
    }
}

proof fn lemma_same_numbered_before(g1: GridModel, g2: GridModel, r: nat, c: nat)
    requires
        same_shape(g1, g2),
    ensures
        g1.numbered_before(r, c) == g2.numbered_before(r, c),
        g1.slots_before(r, c) == g2.slots_before(r, c),
    decreases r, c,
{
    if c == 0 {
        if r > 0 {
            lemma_same_numbered_before(g1, g2, (r - 1) as nat, g1.width);
        }
    } else {
        lemma_same_numbered_before(g1, g2, r, (c - 1) as nat);
        lemma_same_starts(g1, g2, r as int, c - 1);
        let n = g1.numbered_before(r, (c - 1) as nat) + 1;
        assert(g1.slots_at(r as int, c - 1, n) == g2.slots_at(r as int, c - 1, n));
    }
}

/// Letters and empty squares play no part in the symmetry rule: two grids
/// of one size with their black squares in the same places are both
/// symmetric or both not.
pub proof fn lemma_symmetry_same_shape(g1: GridModel, g2: GridModel)
    requires
        same_shape(g1, g2),
    ensures
        g1.symmetric() == g2.symmetric(),
{
    assert forall|r: int, c: int| g1.in_bounds(r, c) implies #[trigger] g1.black(r, c) == g2.black(r, c)
        && g1.black(g1.height - 1 - r, g1.width - 1 - c) == g2.black(
        g2.height - 1 - r,
        g2.width - 1 - c,
    ) by {
        assert(g1.in_bounds(g1.height - 1 - r, g1.width - 1 - c));
        assert(g1.black(g1.height - 1 - r, g1.width - 1 - c) == g2.black(
            g1.height - 1 - r,
            g1.width - 1 - c,
        ));
    }
    if g1.symmetric() {
        assert forall|r: int, c: int| g2.in_bounds(r, c) implies #[trigger] g2.black(r, c)
            == g2.black(g2.height - 1 - r, g2.width - 1 - c) by {
            assert(g1.in_bounds(r, c));
            assert(g1.black(r, c) == g1.black(g1.height - 1 - r, g1.width - 1 - c));
        }
    }
    if g2.symmetric() {
        assert forall|r: int, c: int| g1.in_bounds(r, c) implies #[trigger] g1.black(r, c)
            == g1.black(g1.height - 1 - r, g1.width - 1 - c) by {
            assert(g2.in_bounds(r, c));
            assert(g2.black(r, c) == g2.black(g2.height - 1 - r, g2.width - 1 - c));
        }
    }
}

/// A grid with no black square at all is symmetric, whatever letters it
/// holds.
pub proof fn lemma_no_black_is_symmetric(g: GridModel)
    requires
        forall|r: int, c: int| g.in_bounds(r, c) ==> !#[trigger] g.black(r, c),
    ensures
        g.symmetric(),
{
    assert forall|r: int, c: int| g.in_bounds(r, c) implies #[trigger] g.black(r, c) == g.black(
        g.height - 1 - r,
        g.width - 1 - c,
    ) by {
        assert(g.in_bounds(g.height - 1 - r, g.width - 1 - c));
    }
}

/// A grid with a single black square is symmetric exactly when that square
/// is the centre of the grid.
pub proof fn lemma_single_black_symmetric(g: GridModel, r: int, c: int)
    requires
        g.in_bounds(r, c),
        g.black(r, c),
        forall|r2: int, c2: int| g.in_bounds(r2, c2) && #[trigger] g.black(r2, c2) ==> r2 == r && c2
            == c,
    ensures
        g.symmetric() <==> (r == g.height - 1 - r && c == g.width - 1 - c),
{
    if g.symmetric() {
        assert(g.black(r, c) == g.black(g.height - 1 - r, g.width - 1 - c));
        assert(g.in_bounds(g.height - 1 - r, g.width - 1 - c));
    }
    if r == g.height - 1 - r && c == g.width - 1 - c {
        assert forall|r2: int, c2: int| g.in_bounds(r2, c2) implies #[trigger] g.black(r2, c2)
            == g.black(g.height - 1 - r2, g.width - 1 - c2) by {
            assert(g.in_bounds(g.height - 1 - r2, g.width - 1 - c2));
        }
    }
}

/// Letters and empty squares play no part in the numbering: two grids of
/// one size with their black squares in the same places have the same
/// entries, with the same numbers.
pub proof fn lemma_slots_same_shape(g1: GridModel, g2: GridModel)
    requires
        same_shape(g1, g2),
    ensures
        g1.slots() == g2.slots(),
        g1.numbered_count() == g2.numbered_count(),
{
    lemma_same_numbered_before(g1, g2, g1.height, 0);
}

impl Grid {
    fn across_len(&self, row: usize, col: usize) -> (res: usize)
        requires
            self@.wf(),
            row < self@.height,
        ensures
            res == self@.across_run(row as int, col as int),
    {
        let ghost g = self@;
        let mut len: usize = 0;
        let mut c: usize = col;
        let width = self.width();
        while c < width && !self.is_black(row, c)
            invariant
                g == self@,
                g.wf(),
                width == g.width,
                row < g.height,
                col <= c,
                c <= width || c == col,
                len == c - col,
                g.across_run(row as int, col as int) == len + g.across_run(row as int, c as int),
            decreases width - c,
        {
            len += 1;
            c += 1;
        }
        len
    }

    fn down_len(&self, row: usize, col: usize) -> (res: usize)
        requires
            self@.wf(),
            col < self@.width,
        ensures
            res == self@.down_run(row as int, col as int),
    {
        let ghost g = self@;
        let mut len: usize = 0;
        let mut r: usize = row;
        let height = self.height();
        while r < height && !self.is_black(r, col)
            invariant
                g == self@,
                g.wf(),
                height == g.height,
                col < g.width,
                row <= r,
                r <= height || r == row,
                len == r - row,
                g.down_run(row as int, col as int) == len + g.down_run(r as int, col as int),
            decreases height - r,
        {
            len += 1;
            r += 1;
        }
        len
    }

    /// Number every across and down entry the way a printed crossword does:
    /// scan left to right, top to bottom, and give the next number to every
    /// white square that starts an across and/or down entry of two or more
    /// squares.
    pub fn slots(&self) -> (res: Vec<Slot>)
        requires
            self@.numbered_count() <= u32::MAX,
        ensures
            res@ == self@.slots(),
    {
        proof {
            use_type_invariant(self);
        }
        let ghost g = self@;
        let mut slots: Vec<Slot> = Vec::new();
        let mut number: u32 = 0;
        let height = self.height();
        let width = self.width();
        for row in 0..height
            invariant
                g == self@,
                g.wf(),
                g.numbered_count() <= u32::MAX,
                height == g.height,
                width == g.width,
                slots@ == g.slots_before(row as nat, 0),
                number == g.numbered_before(row as nat, 0),
        {
            for col in 0..width
                invariant
                    g == self@,
                    g.wf(),
                    g.numbered_count() <= u32::MAX,
                    height == g.height,
                    width == g.width,
                    row < height,
                    slots@ == g.slots_before(row as nat, col as nat),
                    number == g.numbered_before(row as nat, col as nat),
            {
                let ghost before = slots@;
                if !self.is_black(row, col) {
                    let starts_across = (col == 0 || self.is_black(row, col - 1))
                        && self.across_len(row, col) > 1;
                    let starts_down = (row == 0 || self.is_black(row - 1, col))
                        && self.down_len(row, col) > 1;
                    if starts_across || starts_down {
                        proof {
                            lemma_numbered_before_bounded(g, row as nat, (col + 1) as nat);
                        }
                        number += 1;
                        if starts_across {
                            let len = self.across_len(row, col);
                            slots.push(
                                Slot { number, row, col, len, direction: Direction::Across },
                            );
                        }
                        if starts_down {
                            let len = self.down_len(row, col);
                            slots.push(Slot { number, row, col, len, direction: Direction::Down });
                        }
                    }
                }
                assert(slots@ =~= before + g.slots_at(
                    row as int,
                    col as int,
                    g.numbered_before(row as nat, col as nat) + 1,
                ));
            }
        }
        slots
    }
}

} // verus!
