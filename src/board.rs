//! The board: seed counts of both rows and the sowing rules.

use crate::grid::{
    cell, cells_of, copy, filled, is_shape, lemma_range_sum_bounds, lemma_range_sum_nonneg,
    lemma_range_sum_update, lemma_range_sum_zero, range_sum, set_cell,
};
use crate::side::Side;
use array2d::Array2D;
use vstd::arithmetic::div_mod::lemma_fundamental_div_mod;
use vstd::prelude::*;

verus! {

/// Largest number of pits per row: a whole lap must fit in a seed count.
pub const MAX_HOLES: usize = 127;

/// Error text of every accessor called with a pit outside `1..=holes`.
pub const INVALID_HOLE: &'static str = "Invalid hole number";

/// Total number of seeds on the board, stores included.
pub open spec fn total_seeds(g: Seq<Seq<u8>>, n: int) -> int {
    range_sum(g[0], 0, n + 1) + range_sum(g[1], 0, n + 1)
}

/// Seeds in the pits `1..=n` of row `r`.
pub open spec fn pit_total(g: Seq<Seq<u8>>, r: int, n: int) -> int {
    range_sum(g[r], 1, n + 1)
}

/// The pits `1..=n` of row `r` are all empty.
pub open spec fn pits_empty(g: Seq<Seq<u8>>, r: int, n: int) -> bool {
    forall|h: int| 1 <= h <= n ==> #[trigger] g[r][h] == 0
}

/// The pit across the board from pit `h`.
pub open spec fn mirror(n: int, h: int) -> int {
    n - h + 1
}

/// Number of places one lap passes: all pits and the sower's own store.
pub open spec fn lap(n: int) -> int {
    2 * n + 1
}

/// Whether cell `(r, c)` receives seeds when row `s` sows: never the opponent's store.
pub open spec fn receives(s: int, r: int, c: int) -> bool {
    c >= 1 || r == s
}

/// Place of cell `(r, c)` along the lap of row `s`: its own pits `1..=n`, its store
/// `n + 1`, then the opponent's pits `n + 2..=2n + 1`.
pub open spec fn offset(s: int, n: int, r: int, c: int) -> int {
    if r == s {
        if c == 0 {
            n + 1
        } else {
            c
        }
    } else {
        n + 1 + c
    }
}

/// How many steps after pit `p` the sowing of row `s` reaches cell `(r, c)`, in `1..=lap`.
pub open spec fn dist(s: int, n: int, p: int, r: int, c: int) -> int {
    let o = offset(s, n, r, c);
    if o > p {
        o - p
    } else {
        o - p + lap(n)
    }
}

/// Place along the lap where the last of `extra` single seeds sown from pit `p` lands;
/// the played pit itself when there are none.
pub open spec fn landing(n: int, p: int, extra: int) -> int {
    if extra == 0 {
        p
    } else if p + extra <= lap(n) {
        p + extra
    } else {
        p + extra - lap(n)
    }
}

/// Seeds in the played pit.
pub open spec fn sown_count(g: Seq<Seq<u8>>, s: int, p: int) -> int {
    g[s][p] as int
}

/// The board after the seeds of pit `p` of row `s` are sown: each full lap adds one
/// seed to every receiving cell, and the remaining seeds go one by one to the cells
/// that follow `p`.
pub open spec fn sown(g: Seq<Seq<u8>>, n: int, s: int, p: int) -> Seq<Seq<u8>> {
    let seeds = sown_count(g, s, p);
    let rounds = seeds / lap(n);
    let extra = seeds % lap(n);
    Seq::new(
        2,
        |r: int|
            Seq::new(
                (n + 1) as nat,
                |c: int|
                    ((if r == s && c == p {
                        0
                    } else {
                        g[r][c] as int
                    }) + (if receives(s, r, c) {
                        rounds + (if dist(s, n, p, r, c) <= extra {
                            1int
                        } else {
                            0
                        })
                    } else {
                        0
                    })) as u8,
            ),
    )
}

/// Place along the lap where the last seed sown from pit `p` lands.
pub open spec fn last_place(g: Seq<Seq<u8>>, n: int, s: int, p: int) -> int {
    landing(n, p, sown_count(g, s, p) % lap(n))
}

/// A capture happens when the last seed lands in an empty pit of the sower whose
/// mirror pit holds seeds.
pub open spec fn captures(g1: Seq<Seq<u8>>, n: int, s: int, l: int) -> bool {
    1 <= l <= n && g1[s][l] == 1 && g1[1 - s][mirror(n, l)] > 0
}

/// The board after the capture rule, the last seed having landed at place `l`.
pub open spec fn after_capture(g1: Seq<Seq<u8>>, n: int, s: int, l: int) -> Seq<Seq<u8>> {
    if captures(g1, n, s, l) {
        let won = g1[s][l] + g1[1 - s][mirror(n, l)];
        g1.update(s, g1[s].update(l, 0).update(0, (g1[s][0] + won) as u8)).update(
            1 - s,
            g1[1 - s].update(mirror(n, l), 0),
        )
    } else {
        g1
    }
}

/// Row `r` moves all the seeds of its pits into its store.
pub open spec fn collect_row(g: Seq<Seq<u8>>, n: int, r: int) -> Seq<Seq<u8>> {
    g.update(
        r,
        Seq::new(
            (n + 1) as nat,
            |c: int|
                if c == 0 {
                    (g[r][0] + pit_total(g, r, n)) as u8
                } else {
                    0u8
                },
        ),
    )
}

/// When the pits of either row are empty, the other row collects its pits.
pub open spec fn after_collect(g2: Seq<Seq<u8>>, n: int, s: int) -> Seq<Seq<u8>> {
    if pits_empty(g2, s, n) {
        collect_row(g2, n, 1 - s)
    } else if pits_empty(g2, 1 - s, n) {
        collect_row(g2, n, s)
    } else {
        g2
    }
}

/// The board before terminal collection, after side `s` played pit `p`.
pub open spec fn before_collect(g: Seq<Seq<u8>>, n: int, s: int, p: int) -> Seq<Seq<u8>> {
    after_capture(sown(g, n, s, p), n, s, last_place(g, n, s, p))
}

/// Row `b` ends with empty pits and its store holds its own seeds plus those of its pits.
pub open spec fn gathers(before: Seq<Seq<u8>>, after: Seq<Seq<u8>>, n: int, b: int) -> bool {
    pits_empty(after, b, n) && after[b][0] == before[b][0] + pit_total(before, b, n)
}

/// The board after side `s` played pit `p`.
pub open spec fn after_move(g: Seq<Seq<u8>>, n: int, s: int, p: int) -> Seq<Seq<u8>> {
    after_collect(before_collect(g, n, s, p), n, s)
}

/// The side that moves after `side` played pit `p`: the same side again exactly when
/// the last seed landed in its own store.
pub open spec fn next_mover(g: Seq<Seq<u8>>, n: int, side: Side, p: int) -> Side {
    if last_place(g, n, side.row() as int, p) == n + 1 {
        side
    } else {
        side.other()
    }
}

/// The mover keeps the turn exactly when the last seed sown lands in its own store,
/// which is place `n + 1` of its lap; otherwise the opponent moves.
pub proof fn lemma_free_turn(g: Seq<Seq<u8>>, n: int, side: Side, p: int)
    ensures
        (next_mover(g, n, side, p) == side) <==> last_place(g, n, side.row() as int, p) == n + 1,
        (next_mover(g, n, side, p) == side.other()) <==> last_place(g, n, side.row() as int, p)
            != n + 1,
{
}

pub proof fn lemma_total_update(g: Seq<Seq<u8>>, n: int, r: int, c: int, v: u8)
    requires
        is_shape(g, 2, (n + 1) as nat),
        0 <= n,
        0 <= r < 2,
        0 <= c <= n,
    ensures
        total_seeds(g.update(r, g[r].update(c, v)), n) == total_seeds(g, n) - g[r][c] + v,
        is_shape(g.update(r, g[r].update(c, v)), 2, (n + 1) as nat),
{
    lemma_range_sum_update(g[r], 0, n + 1, c, v);
    let g2 = g.update(r, g[r].update(c, v));
    assert(g2[1 - r] == g[1 - r]);
    assert(g2[r] == g[r].update(c, v));
}

pub proof fn lemma_cell_le_total(g: Seq<Seq<u8>>, n: int, r: int, c: int)
    requires
        is_shape(g, 2, (n + 1) as nat),
        0 <= n,
        0 <= r < 2,
        0 <= c <= n,
    ensures
        g[r][c] <= total_seeds(g, n),
{
    lemma_range_sum_bounds(g[r], 0, n + 1, c);
    lemma_range_sum_nonneg(g[1 - r], 0, n + 1);
}

/// A board of `holes` pits per side plus a store per side.
pub struct Board {
    holes: usize,
    state: Array2D<u8>,
}

/// A board with `seeds` in every pit and empty stores.
pub fn new_board(holes: usize, seeds: u8) -> (b: Board)
    requires
        holes <= MAX_HOLES,
    ensures
        b.wf(),
        b.size() == holes,
        forall|r: int, c: int|
            0 <= r < 2 && 1 <= c <= holes ==> #[trigger] b.cells()[r][c] == seeds,
        b.cells()[0][0] == 0,
        b.cells()[1][0] == 0,
{
    let mut b = Board { holes, state: filled(seeds, 2, holes + 1) };
    set_cell(&mut b.state, 0, 0, 0);
    set_cell(&mut b.state, 1, 0, 0);
    b
}

impl Board {
    /// Number of pits per side.
    pub closed spec fn size(&self) -> nat {
        self.holes as nat
    }

    /// Seed counts, one row per side, the store at index 0.
    pub closed spec fn cells(&self) -> Seq<Seq<u8>> {
        cells_of(self.state)
    }

    /// Two rows of `holes + 1` cells each.
    pub open spec fn wf(&self) -> bool {
        self.size() <= MAX_HOLES && is_shape(self.cells(), 2, self.size() + 1)
    }

    /// Total number of seeds on the board.
    pub open spec fn total(&self) -> int {
        total_seeds(self.cells(), self.size() as int)
    }

    /// `hole` names a pit of either row.
    pub open spec fn valid_hole(&self, hole: int) -> bool {
        1 <= hole <= self.size()
    }

    pub fn get_no_of_holes(&self) -> (n: usize)
        ensures
            n == self.size(),
    {
        self.holes
    }

    pub fn set_seeds(&mut self, side: Side, hole: usize, seeds: u8) -> (r: Result<(), &'static str>)
        requires
            old(self).wf(),
        ensures
            final(self).wf(),
            final(self).size() == old(self).size(),
            r is Ok <==> old(self).valid_hole(hole as int),
            r is Ok ==> final(self).cells() == old(self).cells().update(
                side.row() as int,
                old(self).cells()[side.row() as int].update(hole as int, seeds),
            ),
            r is Err ==> final(self).cells() == old(self).cells(),
    {
        if hole < 1 || hole > self.holes {
            return Err(INVALID_HOLE);
        }
        set_cell(&mut self.state, side.index(), hole, seeds);
        Ok(())
    }

    pub fn set_seeds_op(&mut self, side: Side, hole: usize, seeds: u8) -> (r: Result<(), &'static str>)
        requires
            old(self).wf(),
        ensures
            final(self).wf(),
            final(self).size() == old(self).size(),
            r is Ok <==> old(self).valid_hole(hole as int),
            r is Ok ==> final(self).cells() == old(self).cells().update(
                side.other().row() as int,
                old(self).cells()[side.other().row() as int].update(
                    mirror(old(self).size() as int, hole as int),
                    seeds,
                ),
            ),
            r is Err ==> final(self).cells() == old(self).cells(),
    {
        if hole < 1 || hole > self.holes {
            return Err(INVALID_HOLE);
        }
        set_cell(&mut self.state, side.opposite().index(), self.holes - hole + 1, seeds);
        Ok(())
    }

    pub fn get_seeds(&self, side: Side, hole: usize) -> (r: Result<u8, &'static str>)
        requires
            self.wf(),
        ensures
            r is Ok <==> self.valid_hole(hole as int),
            r is Ok ==> r == Ok::<u8, &'static str>(
                self.cells()[side.row() as int][hole as int],
            ),
    {
        if hole < 1 || hole > self.holes {
            return Err(INVALID_HOLE);
        }
        Ok(cell(&self.state, side.index(), hole))
    }

    pub fn get_seeds_op(&self, side: Side, hole: usize) -> (r: Result<u8, &'static str>)
        requires
            self.wf(),
        ensures
            r is Ok <==> self.valid_hole(hole as int),
            r is Ok ==> r == Ok::<u8, &'static str>(
                self.cells()[side.other().row() as int][mirror(
                    self.size() as int,
                    hole as int,
                )],
            ),
    {
        if hole < 1 || hole > self.holes {
            return Err(INVALID_HOLE);
        }
        Ok(cell(&self.state, side.opposite().index(), self.holes - hole + 1))
    }

    pub fn set_seeds_in_store(&mut self, side: Side, seeds: u8)
        requires
            old(self).wf(),
        ensures
            final(self).wf(),
            final(self).size() == old(self).size(),
            final(self).cells() == old(self).cells().update(
                side.row() as int,
                old(self).cells()[side.row() as int].update(0, seeds),
            ),
    {
        set_cell(&mut self.state, side.index(), 0, seeds);
    }

    pub fn get_seeds_in_store(&self, side: Side) -> (r: u8)
        requires
            self.wf(),
        ensures
            r == self.cells()[side.row() as int][0],
    {
        cell(&self.state, side.index(), 0)
    }

    pub fn game_over(&self) -> (r: bool)
        requires
            self.wf(),
        ensures
            r == (pits_empty(self.cells(), 0, self.size() as int) || pits_empty(
                self.cells(),
                1,
                self.size() as int,
            )),
    {
        self.holes_empty(Side::South) || self.holes_empty(Side::North)
    }

    fn holes_empty(&self, side: Side) -> (r: bool)
        requires
            self.wf(),
        ensures
            r == pits_empty(self.cells(), side.row() as int, self.size() as int),
    {
        let row = side.index();
        let mut i: usize = 1;
        while i <= self.holes
            invariant
                self.wf(),
                row == side.row(),
                1 <= i <= self.holes + 1,
                forall|h: int| 1 <= h < i ==> #[trigger] self.cells()[row as int][h] == 0,
            decreases self.holes + 1 - i,
        {
            if cell(&self.state, row, i) != 0 {
                return false;
            }
            i = i + 1;
        }
        true
    }

    pub fn is_legal(&self, side: Side, hole: usize) -> (r: bool)
        requires
            self.wf(),
        ensures
            r == (self.valid_hole(hole as int) && self.cells()[side.row() as int][hole as int]
                > 0),
    {
        if hole < 1 || hole > self.holes {
            return false;
        }
        if cell(&self.state, side.index(), hole) < 1 {
            return false;
        }
        true
    }

    /// Adds `d` seeds to cell `(r, c)`.
    fn add_seeds(&mut self, r: usize, c: usize, d: u8)
        requires
            old(self).wf(),
            r < 2,
            c <= old(self).size(),
            old(self).cells()[r as int][c as int] + d <= u8::MAX,
        ensures
            final(self).wf(),
            final(self).size() == old(self).size(),
            final(self).cells() == old(self).cells().update(
                r as int,
                old(self).cells()[r as int].update(
                    c as int,
                    (old(self).cells()[r as int][c as int] + d) as u8,
                ),
            ),
            final(self).total() == old(self).total() + d,
    {
        let v = cell(&self.state, r, c);
        set_cell(&mut self.state, r, c, v + d);
        proof {
            lemma_total_update(old(self).cells(), self.holes as int, r as int, c as int, (v + d) as u8);
        }
    }

    /// Empties cell `(r, c)`.
    fn clear_cell(&mut self, r: usize, c: usize)
        requires
            old(self).wf(),
            r < 2,
            c <= old(self).size(),
        ensures
            final(self).wf(),
            final(self).size() == old(self).size(),
            final(self).cells() == old(self).cells().update(
                r as int,
                old(self).cells()[r as int].update(c as int, 0),
            ),
            final(self).total() == old(self).total() - old(self).cells()[r as int][c as int],
    {
        set_cell(&mut self.state, r, c, 0);
        proof {
            lemma_total_update(old(self).cells(), self.holes as int, r as int, c as int, 0);
        }
    }

    /// Row `r` moves the seeds of all its pits into its store.
    fn collect(&mut self, r: usize)
        requires
            old(self).wf(),
            r < 2,
            old(self).total() <= u8::MAX,
        ensures
            final(self).wf(),
            final(self).size() == old(self).size(),
            final(self).cells() == collect_row(old(self).cells(), old(self).size() as int, r as int),
            final(self).total() == old(self).total(),
            gathers(old(self).cells(), final(self).cells(), old(self).size() as int, r as int),
            final(self).cells()[1 - r] == old(self).cells()[1 - r],
    {
        let ghost g = self.cells();
        let n = self.holes;
        let mut seeds: u8 = 0;
        let mut i: usize = 1;
        while i <= n
            invariant
                self.wf(),
                self.size() == n,
                r < 2,
                1 <= i <= n + 1,
                g == old(self).cells(),
                total_seeds(g, n as int) <= u8::MAX,
                seeds == range_sum(g[r as int], 1, i as int),
                self.total() + seeds == total_seeds(g, n as int),
                self.cells()[1 - r] == g[1 - r],
                forall|c: int|
                    0 <= c <= n ==> #[trigger] self.cells()[r as int][c] == if 1 <= c < i {
                        0
                    } else {
                        g[r as int][c]
                    },
            decreases n + 1 - i,
        {
            let v = cell(&self.state, r, i);
            proof {
                lemma_cell_le_total(self.cells(), n as int, r as int, i as int);
            }
            seeds = seeds + v;
            self.clear_cell(r, i);
            i = i + 1;
        }
        proof {
            lemma_cell_le_total(self.cells(), n as int, r as int, 0);
        }
        self.add_seeds(r, 0, seeds);
        proof {
            let want = collect_row(g, n as int, r as int);
            assert(self.cells()[r as int] =~= want[r as int]);
            assert(self.cells()[1 - r] =~= want[1 - r]);
            assert(self.cells() =~= want);
        }
    }

    /// Adds `rounds` seeds to every pit of both rows and to the store of row `s`.
    fn add_laps(&mut self, s: usize, rounds: u8)
        requires
            old(self).wf(),
            s < 2,
            forall|r: int, c: int|
                0 <= r < 2 && 0 <= c <= old(self).size() ==> #[trigger] old(self).cells()[r][c]
                    + rounds <= u8::MAX,
        ensures
            final(self).wf(),
            final(self).size() == old(self).size(),
            forall|r: int, c: int|
                0 <= r < 2 && 0 <= c <= old(self).size() ==> #[trigger] final(self).cells()[r][c]
                    == old(self).cells()[r][c] + (if receives(s as int, r, c) {
                    rounds as int
                } else {
                    0
                }),
            final(self).total() == old(self).total() + (2 * old(self).size() + 1) * rounds,
    {
        let ghost base = self.cells();
        let n = self.holes;
        let mut i: usize = 1;
        assert(2 * (i - 1) * rounds == 0) by (nonlinear_arith)
            requires
                i == 1,
        ;
        while i <= n
            invariant
                self.wf(),
                self.size() == n,
                base == old(self).cells(),
                1 <= i <= n + 1,
                forall|r: int, c: int|
                    0 <= r < 2 && 0 <= c <= n ==> #[trigger] base[r][c] + rounds <= u8::MAX,
                forall|r: int, c: int|
                    0 <= r < 2 && 0 <= c <= n ==> #[trigger] self.cells()[r][c] == base[r][c] + (
                    if 1 <= c < i {
                        rounds as int
                    } else {
                        0
                    }),
                self.total() == old(self).total() + 2 * (i - 1) * rounds,
            decreases n + 1 - i,
        {
            self.add_seeds(0, i, rounds);
            self.add_seeds(1, i, rounds);
            proof {
                assert(2 * (i - 1) * rounds + 2 * rounds == 2 * i * rounds) by (nonlinear_arith);
            }
            i = i + 1;
        }
        self.add_seeds(s, 0, rounds);
        proof {
            assert(2 * n * rounds + rounds == (2 * n + 1) * rounds) by (nonlinear_arith);
        }
    }

    /// Takes the seeds out of pit `hole` of row `s` and sows them; returns the place
    /// along the lap where the last one landed.
    fn sow(&mut self, s: usize, hole: usize) -> (pos: usize)
        requires
            old(self).wf(),
            old(self).total() <= u8::MAX,
            s < 2,
            old(self).valid_hole(hole as int),
        ensures
            final(self).wf(),
            final(self).size() == old(self).size(),
            final(self).total() == old(self).total(),
            final(self).cells() == sown(
                old(self).cells(),
                old(self).size() as int,
                s as int,
                hole as int,
            ),
            pos == last_place(old(self).cells(), old(self).size() as int, s as int, hole as int),
            1 <= pos <= 2 * old(self).size() + 1,
    {
        let ghost g0 = self.cells();
        let n = self.holes;
        let o = 1 - s;
        let seeds_to_sow = cell(&self.state, s, hole);
        self.clear_cell(s, hole);
        let ghost base = self.cells();
        let receiving_pits: u8 = (2 * n + 1) as u8;
        let rounds: u8 = seeds_to_sow / receiving_pits;
        let extra: u8 = seeds_to_sow % receiving_pits;
        proof {
            lemma_fundamental_div_mod(seeds_to_sow as int, receiving_pits as int);
            assert(receiving_pits * rounds >= rounds) by (nonlinear_arith)
                requires
                    receiving_pits >= 1,
            ;
            assert(extra > 0 ==> rounds + 1 <= seeds_to_sow);
            assert forall|r: int, c: int| 0 <= r < 2 && 0 <= c <= n implies #[trigger] base[r][c]
                + seeds_to_sow <= u8::MAX by {
                lemma_cell_le_total(base, n as int, r, c);
            }
        }
        if rounds > 0 {
            self.add_laps(s, rounds);
        } else {
            assert(receiving_pits * rounds == 0) by (nonlinear_arith)
                requires
                    rounds == 0,
            ;
        }
        let mut pos: usize = hole;
        let mut k: u8 = 0;
        while k < extra
            invariant
                self.wf(),
                self.size() == n,
                n <= MAX_HOLES,
                s < 2,
                o == 1 - s,
                1 <= hole <= n,
                is_shape(base, 2, (n + 1) as nat),
                receiving_pits == 2 * n + 1,
                extra < receiving_pits,
                k <= extra,
                extra > 0 ==> rounds + 1 <= seeds_to_sow,
                rounds <= seeds_to_sow,
                pos == landing(n as int, hole as int, k as int),
                forall|r: int, c: int|
                    0 <= r < 2 && 0 <= c <= n ==> #[trigger] base[r][c] + seeds_to_sow
                        <= u8::MAX,
                forall|r: int, c: int|
                    0 <= r < 2 && 0 <= c <= n ==> #[trigger] self.cells()[r][c] == base[r][c]
                        + (if receives(s as int, r, c) {
                        rounds + (if dist(s as int, n as int, hole as int, r, c) <= k {
                            1int
                        } else {
                            0
                        })
                    } else {
                        0
                    }),
                self.total() == total_seeds(base, n as int) + receiving_pits * rounds + k,
            decreases extra - k,
        {
            pos = if pos == 2 * n + 1 {
                1
            } else {
                pos + 1
            };
            if pos <= n {
                self.add_seeds(s, pos, 1);
            } else if pos == n + 1 {
                self.add_seeds(s, 0, 1);
            } else {
                self.add_seeds(o, pos - n - 1, 1);
            }
            k = k + 1;
        }
        proof {
            let want = sown(g0, n as int, s as int, hole as int);
            assert forall|r: int| 0 <= r < 2 implies #[trigger] self.cells()[r] =~= want[r] by {}
            assert(self.cells() =~= want);
        }
        pos
    }

    /// Applies the capture rule after the last seed sown by row `s` landed at `pos`.
    fn capture(&mut self, s: usize, pos: usize)
        requires
            old(self).wf(),
            old(self).total() <= u8::MAX,
            s < 2,
            1 <= pos,
        ensures
            final(self).wf(),
            final(self).size() == old(self).size(),
            final(self).total() == old(self).total(),
            final(self).cells() == after_capture(
                old(self).cells(),
                old(self).size() as int,
                s as int,
                pos as int,
            ),
    {
        let ghost g1 = self.cells();
        let n = self.holes;
        let o = 1 - s;
        if pos <= n {
            let here = cell(&self.state, s, pos);
            let op = cell(&self.state, o, n - pos + 1);
            if here == 1 && op > 0 {
                self.clear_cell(s, pos);
                self.clear_cell(o, n - pos + 1);
                proof {
                    lemma_cell_le_total(self.cells(), n as int, s as int, 0);
                }
                self.add_seeds(s, 0, 1 + op);
                proof {
                    let want = after_capture(g1, n as int, s as int, pos as int);
                    assert(self.cells()[s as int] =~= want[s as int]);
                    assert(self.cells()[o as int] =~= want[o as int]);
                    assert(self.cells() =~= want);
                }
            }
        }
    }

    /// Sows the seeds of pit `hole` of `side`, applies the capture and end-of-game
    /// rules, and returns the side that moves next.
    pub fn make_move(&mut self, side: Side, hole: usize) -> (r: Result<Side, &'static str>)
        requires
            old(self).wf(),
            old(self).total() <= u8::MAX,
        ensures
            final(self).wf(),
            final(self).size() == old(self).size(),
            final(self).total() == old(self).total(),
            r is Err <==> !old(self).valid_hole(hole as int),
            r is Err ==> final(self).cells() == old(self).cells(),
            r is Ok ==> final(self).cells() == after_move(
                old(self).cells(),
                old(self).size() as int,
                side.row() as int,
                hole as int,
            ),
            r is Ok ==> r == Ok::<Side, &'static str>(
                next_mover(old(self).cells(), old(self).size() as int, side, hole as int),
            ),
            r is Ok ==> forall|a: int|
                0 <= a < 2 && #[trigger] pits_empty(
                    before_collect(
                        old(self).cells(),
                        old(self).size() as int,
                        side.row() as int,
                        hole as int,
                    ),
                    a,
                    old(self).size() as int,
                ) ==> gathers(
                    before_collect(
                        old(self).cells(),
                        old(self).size() as int,
                        side.row() as int,
                        hole as int,
                    ),
                    final(self).cells(),
                    old(self).size() as int,
                    1 - a,
                ),
    {
        if hole < 1 || hole > self.holes {
            return Err(INVALID_HOLE);
        }
        let s = side.index();
        let pos = self.sow(s, hole);
        self.capture(s, pos);
        let ghost g2 = self.cells();
        let ghost n = self.size() as int;
        proof {
            if pits_empty(g2, s as int, n) {
                lemma_range_sum_zero(g2[s as int], 1, n + 1);
            }
        }
        if self.holes_empty(side) {
            self.collect(side.opposite().index());
        } else if self.holes_empty(side.opposite()) {
            self.collect(s);
        }
        if pos == self.holes + 1 {
            return Ok(side);
        }
        Ok(side.opposite())
    }

    pub fn clone(&self) -> (b: Board)
        requires
            self.wf(),
        ensures
            b.wf(),
            b.size() == self.size(),
            b.cells() == self.cells(),
    {
        Board { holes: self.holes, state: copy(&self.state) }
    }
}

} // verus!
