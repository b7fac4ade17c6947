//! Depth-bounded alpha-beta search for the move of one side.

use crate::board::{
    after_move, lap, mirror, next_mover, pits_empty, total_seeds, Board, MAX_HOLES,
};
use crate::grid::{
    lemma_range_sum_nonneg, lemma_range_sum_split, lemma_range_sum_upper, range_sum,
};
use crate::side::Side;
use vstd::prelude::*;
use vstd::seq_lib::to_multiset_insert;

verus! {

/// Number of plies searched below each move of the root.
pub const MAX_DEPTH: i8 = 13;

/// Bound on the absolute value of every static evaluation.
pub const SCORE_BOUND: i64 = 5000;

/// Capture that pit `h` of row `mv` threatens with its next sowing: the seeds of the
/// mirror pit plus one, when the sowing ends in an empty pit of the same row (or comes
/// round to `h` after exactly one lap) and the mirror pit holds seeds. The lap is
/// taken from the board size.
pub open spec fn threat(g: Seq<Seq<u8>>, n: int, mv: int, h: int) -> int {
    let seeds = g[mv][h] as int;
    let land = (h + seeds) % lap(n);
    if 0 < land <= n && 0 < seeds <= lap(n) && (g[mv][land] == 0 || (seeds == lap(n) && land
        == h)) && g[1 - mv][mirror(n, land)] > 0 {
        1 + g[1 - mv][mirror(n, land)]
    } else {
        0
    }
}

/// Largest threat among the pits `1..=k` of row `mv`.
pub open spec fn max_steal(g: Seq<Seq<u8>>, n: int, mv: int, k: int) -> int
    decreases k,
{
    if k <= 0 {
        0
    } else {
        let a = max_steal(g, n, mv, k - 1);
        let t = threat(g, n, mv, k);
        if t > a {
            t
        } else {
            a
        }
    }
}

/// Static evaluation of a position for row `me` when row `mover` is to move: the
/// difference of the stores, an eighth of `me`'s seeds in pits 5 and up, a hundred
/// points for a store above half of all seeds on the board, and the largest capture
/// threat of `mover`, counted for `me` or against.
pub open spec fn board_score(g: Seq<Seq<u8>>, n: int, me: int, mover: int) -> int {
    let opp = 1 - me;
    let half = total_seeds(g, n) / 2;
    let base = g[me][0] - g[opp][0] + range_sum(g[me], 5, n + 1) / 8;
    let bonus = if g[me][0] > half {
        100int
    } else if g[opp][0] > half {
        -100int
    } else {
        0
    };
    let steal = max_steal(g, n, mover, n);
    base + bonus + if mover == me {
        steal
    } else {
        -steal
    }
}

/// One-ply score of pit `hole` for `mover`, seen by `me`: ten points for keeping or
/// winning the turn, minus ten otherwise, plus the evaluation of the result.
pub open spec fn move_score(g: Seq<Seq<u8>>, n: int, me: Side, mover: Side, hole: int) -> int {
    let after = after_move(g, n, mover.row() as int, hole);
    let next = next_mover(g, n, mover, hole);
    (if next == me {
        10int
    } else {
        -10int
    }) + board_score(after, n, me.row() as int, next.row() as int)
}

/// Pit `hole` of row `r` may be played.
pub open spec fn legal(g: Seq<Seq<u8>>, n: int, r: int, hole: int) -> bool {
    1 <= hole <= n && g[r][hole] > 0
}

/// Value of a position under full minimax without pruning, seen by `me`, with `mover`
/// to move; `maxing` says whether the node takes the largest or the smallest value of
/// its children. Leaves are evaluated statically.
pub open spec fn minimax_value(
    g: Seq<Seq<u8>>,
    n: int,
    me: Side,
    mover: Side,
    maxing: bool,
    depth: int,
) -> int
    decreases depth, 1int, 0int,
{
    if depth <= 0 || pits_empty(g, 0, n) || pits_empty(g, 1, n) {
        board_score(g, n, me.row() as int, mover.row() as int)
    } else {
        best_child(g, n, me, mover, maxing, depth, n)
    }
}

/// Value of the position after `mover` plays pit `h`, searched `depth - 1` plies deep.
pub open spec fn child_value(g: Seq<Seq<u8>>, n: int, me: Side, mover: Side, depth: int, h: int) -> int
    decreases depth, 0int, 0int,
{
    if depth <= 0 {
        0
    } else {
        let next = next_mover(g, n, mover, h);
        minimax_value(after_move(g, n, mover.row() as int, h), n, me, next, next == me, depth - 1)
    }
}

/// Best child value over the legal pits `1..=k`; the extreme `i64` value when none is
/// legal.
pub open spec fn best_child(
    g: Seq<Seq<u8>>,
    n: int,
    me: Side,
    mover: Side,
    maxing: bool,
    depth: int,
    k: int,
) -> int
    decreases depth, 0int, k,
{
    if k <= 0 || depth <= 0 {
        if maxing {
            i64::MIN as int
        } else {
            i64::MAX as int
        }
    } else {
        let b = best_child(g, n, me, mover, maxing, depth, k - 1);
        if legal(g, n, mover.row() as int, k) {
            let c = child_value(g, n, me, mover, depth, k);
            if maxing {
                if c > b {
                    c
                } else {
                    b
                }
            } else {
                if c < b {
                    c
                } else {
                    b
                }
            }
        } else {
            b
        }
    }
}

/// Every legal child is within the best child value.
pub proof fn lemma_best_child_bounds(
    g: Seq<Seq<u8>>,
    n: int,
    me: Side,
    mover: Side,
    maxing: bool,
    depth: int,
    k: int,
    h: int,
)
    requires
        depth > 0,
        1 <= h <= k,
        legal(g, n, mover.row() as int, h),
    ensures
        maxing ==> child_value(g, n, me, mover, depth, h) <= best_child(g, n, me, mover, maxing, depth, k),
        !maxing ==> child_value(g, n, me, mover, depth, h) >= best_child(g, n, me, mover, maxing, depth, k),
    decreases k,
{
    if h < k {
        lemma_best_child_bounds(g, n, me, mover, maxing, depth, k - 1, h);
    }
}

/// The best child value is the extreme `i64` value or the value of a legal child.
pub proof fn lemma_best_child_attained(
    g: Seq<Seq<u8>>,
    n: int,
    me: Side,
    mover: Side,
    maxing: bool,
    depth: int,
    k: int,
)
    requires
        depth > 0,
    ensures
        best_child(g, n, me, mover, maxing, depth, k) == (if maxing {
            i64::MIN as int
        } else {
            i64::MAX as int
        }) || exists|h: int|
            1 <= h <= k && legal(g, n, mover.row() as int, h) && #[trigger] child_value(
                g,
                n,
                me,
                mover,
                depth,
                h,
            ) == best_child(g, n, me, mover, maxing, depth, k),
    decreases k,
{
    if k > 0 {
        lemma_best_child_attained(g, n, me, mover, maxing, depth, k - 1);
        let b = best_child(g, n, me, mover, maxing, depth, k - 1);
        if legal(g, n, mover.row() as int, k) {
            let c = child_value(g, n, me, mover, depth, k);
            if (maxing && c > b) || (!maxing && c < b) {
                assert(child_value(g, n, me, mover, depth, k) == best_child(
                    g,
                    n,
                    me,
                    mover,
                    maxing,
                    depth,
                    k,
                ));
            }
        }
    }
}

/// A candidate move and its one-ply score.
#[derive(Debug, Clone, Copy, PartialEq, Eq, Structural)]
struct HeuristicValue {
    hole: usize,
    heuristic: i64,
}

/// `a` may stand before `b`: best first when `descending`, worst first otherwise.
spec fn in_order(a: HeuristicValue, b: HeuristicValue, descending: bool) -> bool {
    if descending {
        a.heuristic >= b.heuristic
    } else {
        a.heuristic <= b.heuristic
    }
}

spec fn sorted_by(s: Seq<HeuristicValue>, descending: bool) -> bool {
    forall|i: int, j: int| 0 <= i < j < s.len() ==> in_order(#[trigger] s[i], #[trigger] s[j], descending)
}

fn goes_before(a: HeuristicValue, b: HeuristicValue, descending: bool) -> (r: bool)
    ensures
        r == in_order(a, b, descending),
{
    if descending {
        a.heuristic >= b.heuristic
    } else {
        a.heuristic <= b.heuristic
    }
}

/// Stable insertion sort by score.
fn sort_moves(v: &Vec<HeuristicValue>, descending: bool) -> (out: Vec<HeuristicValue>)
    ensures
        sorted_by(out@, descending),
        out@.to_multiset() == v@.to_multiset(),
        out@.len() == v@.len(),
{
    broadcast use vstd::seq_lib::group_to_multiset_ensures;

    let mut out: Vec<HeuristicValue> = Vec::new();
    let mut i: usize = 0;
    while i < v.len()
        invariant
            i <= v.len(),
            sorted_by(out@, descending),
            out@.to_multiset() == v@.subrange(0, i as int).to_multiset(),
            out@.len() == i,
        decreases v.len() - i,
    {
        let x = v[i];
        let mut j: usize = 0;
        while j < out.len() && goes_before(out[j], x, descending)
            invariant
                j <= out.len(),
                forall|k: int| 0 <= k < j ==> in_order(#[trigger] out@[k], x, descending),
            decreases out.len() - j,
        {
            j = j + 1;
        }
        proof {
            to_multiset_insert(out@, j as int, x);
            assert(v@.subrange(0, i + 1) =~= v@.subrange(0, i as int).push(x));
            assert forall|k: int| j <= k < out@.len() implies !in_order(#[trigger] out@[k], x, descending) by {
                if j < out@.len() {
                    assert(in_order(out@[j as int], out@[k], descending));
                }
            }
        }
        let ghost before = out@;
        out.insert(j, x);
        proof {
            assert(out@ == before.insert(j as int, x));
            v@.subrange(0, i as int).to_multiset_ensures();
            assert(v@.subrange(0, i as int).push(x).to_multiset() == v@.subrange(
                0,
                i as int,
            ).to_multiset().insert(x));
            assert forall|a: int, b: int| 0 <= a < b < out@.len() implies in_order(
                #[trigger] out@[a],
                #[trigger] out@[b],
                descending,
            ) by {
                if a < j && b == j {
                } else if a < j && b > j {
                    assert(out@[b] == before[b - 1]);
                } else if a == j && b > j {
                    assert(out@[b] == before[b - 1]);
                    assert(!in_order(before[b - 1], x, descending));
                } else if a > j {
                    assert(out@[a] == before[a - 1]);
                    assert(out@[b] == before[b - 1]);
                } else {
                }
            }
        }
        i = i + 1;
    }
    proof {
        assert(v@.subrange(0, v@.len() as int) =~= v@);
    }
    out
}

/// Seeds of a row's pits, store excluded.
fn seeds_at(board: &Board, side: Side, hole: usize) -> (r: u8)
    requires
        board.wf(),
        board.valid_hole(hole as int),
    ensures
        r == board.cells()[side.row() as int][hole as int],
{
    match board.get_seeds(side, hole) {
        Ok(v) => v,
        Err(_) => 0,
    }
}

/// Sum of the pits `lo..=holes` of `side`.
fn pit_sum(board: &Board, side: Side, lo: usize) -> (r: i64)
    requires
        board.wf(),
        1 <= lo,
    ensures
        r == range_sum(board.cells()[side.row() as int], lo as int, board.size() + 1int),
        0 <= r <= 255 * 128,
{
    let n = board.get_no_of_holes();
    let ghost row = board.cells()[side.row() as int];
    let mut acc: i64 = 0;
    let mut i: usize = lo;
    if lo > n {
        return 0;
    }
    while i <= n
        invariant
            board.wf(),
            n == board.size(),
            n <= MAX_HOLES,
            row == board.cells()[side.row() as int],
            1 <= lo <= i <= n + 1,
            acc == range_sum(row, lo as int, i as int),
            acc <= 255 * (i - lo),
        decreases n + 1 - i,
    {
        acc = acc + seeds_at(board, side, i) as i64;
        i = i + 1;
    }
    proof {
        lemma_range_sum_nonneg(row, lo as int, i as int);
    }
    acc
}

/// The largest capture threat of `side`'s pits.
fn steal_threat(board: &Board, side: Side) -> (r: i64)
    requires
        board.wf(),
    ensures
        r == max_steal(board.cells(), board.size() as int, side.row() as int, board.size() as int),
        0 <= r <= 256,
{
    let n = board.get_no_of_holes();
    let ghost g = board.cells();
    let ghost mv = side.row() as int;
    let receiving_pits: usize = 2 * n + 1;
    let mut max_steal_seen: i64 = 0;
    let mut i: usize = 1;
    while i <= n
        invariant
            board.wf(),
            g == board.cells(),
            mv == side.row(),
            n == board.size(),
            n <= MAX_HOLES,
            receiving_pits == lap(n as int),
            1 <= i <= n + 1,
            max_steal_seen == max_steal(g, n as int, mv, i - 1),
            0 <= max_steal_seen <= 256,
        decreases n + 1 - i,
    {
        let seeds = seeds_at(board, side, i);
        let land = (i + seeds as usize) % receiving_pits;
        if land > 0 && land <= n {
            let land_seeds = seeds_at(board, side, land);
            if seeds > 0 && seeds as usize <= receiving_pits && (land_seeds == 0 || (seeds as usize
                == receiving_pits && land == i)) {
                let seeds_op = match board.get_seeds_op(side, land) {
                    Ok(v) => v,
                    Err(_) => 0,
                };
                if seeds_op > 0 && max_steal_seen < seeds_op as i64 + 1 {
                    max_steal_seen = seeds_op as i64 + 1;
                }
            }
        }
        i = i + 1;
    }
    max_steal_seen
}

/// The search engine, playing for one side.
#[derive(Debug)]
pub struct Minimax {
    side: Side,
}

/// A search engine that plays for `side`.
pub fn new_minimax(side: Side) -> (m: Minimax)
    ensures
        m.own_side() == side,
{
    Minimax { side }
}

impl Minimax {
    /// The side whose interest the evaluation serves.
    pub closed spec fn own_side(&self) -> Side {
        self.side
    }

    pub fn update_side(&mut self, side: Side)
        ensures
            final(self).own_side() == side,
    {
        self.side = side;
    }

    fn board_heuristic(&self, board: &Board, side: Side) -> (r: i64)
        requires
            board.wf(),
        ensures
            r == board_score(
                board.cells(),
                board.size() as int,
                self.own_side().row() as int,
                side.row() as int,
            ),
            -SCORE_BOUND <= r <= SCORE_BOUND,
    {
        let ghost g = board.cells();
        let ghost n = board.size() as int;
        let me = self.side;
        let opp = me.opposite();
        let mine = board.get_seeds_in_store(me) as i64;
        let theirs = board.get_seeds_in_store(opp) as i64;
        let mut score: i64 = mine - theirs;
        let seeds_on_side = pit_sum(board, me, 5);
        score = score + seeds_on_side / 8;
        let total = mine + theirs + pit_sum(board, me, 1) + pit_sum(board, opp, 1);
        proof {
            lemma_range_sum_split(g[0], 0, 1, n + 1);
            lemma_range_sum_split(g[1], 0, 1, n + 1);
            assert(range_sum(g[0], 0, 0) == 0);
            assert(range_sum(g[1], 0, 0) == 0);
            assert(range_sum(g[0], 0, 1) == g[0][0]);
            assert(range_sum(g[1], 0, 1) == g[1][0]);
            assert(total == total_seeds(g, n));
            if n + 1 > 5 {
                lemma_range_sum_upper(g[me.row() as int], 5, n + 1);
            }
        }
        let half = total / 2;
        if mine > half {
            score = score + 100;
        } else if theirs > half {
            score = score - 100;
        }
        let steal = steal_threat(board, side);
        if side == self.side {
            score = score + steal;
        } else {
            score = score - steal;
        }
        score
    }

    fn move_heuristic(&self, board: &Board, side: Side, hole: usize) -> (r: HeuristicValue)
        requires
            board.wf(),
            board.total() <= u8::MAX,
            board.valid_hole(hole as int),
        ensures
            r.hole == hole,
            r.heuristic == move_score(
                board.cells(),
                board.size() as int,
                self.own_side(),
                side,
                hole as int,
            ),
            -SCORE_BOUND - 10 <= r.heuristic <= SCORE_BOUND + 10,
    {
        let mut score: i64 = 0;
        let mut clone = board.clone();
        let next_side = match clone.make_move(side, hole) {
            Ok(s) => s,
            Err(_) => side,
        };
        if next_side == self.side {
            score = score + 10;
        } else {
            score = score - 10;
        }
        score = score + self.board_heuristic(&clone, next_side);
        HeuristicValue { hole, heuristic: score }
    }

    /// Every legal move of `side` in increasing pit order, with its one-ply score.
    fn get_possible_moves(&self, board: &Board, side: Side) -> (h: Vec<HeuristicValue>)
        requires
            board.wf(),
            board.total() <= u8::MAX,
        ensures
            forall|i: int|
                0 <= i < h@.len() ==> legal(
                    board.cells(),
                    board.size() as int,
                    side.row() as int,
                    #[trigger] h@[i].hole as int,
                ) && h@[i].heuristic == move_score(
                    board.cells(),
                    board.size() as int,
                    self.own_side(),
                    side,
                    h@[i].hole as int,
                ),
            forall|i: int, j: int| 0 <= i < j < h@.len() ==> #[trigger] h@[i].hole < #[trigger] h@[j].hole,
            forall|p: int|
                #![trigger legal(board.cells(), board.size() as int, side.row() as int, p)]
                legal(board.cells(), board.size() as int, side.row() as int, p) ==> exists|i: int|
                    0 <= i < h@.len() && #[trigger] h@[i].hole == p,
    {
        let ghost g = board.cells();
        let ghost n = board.size() as int;
        let mut h: Vec<HeuristicValue> = Vec::new();
        let holes = board.get_no_of_holes();
        let mut i: usize = 1;
        while i <= holes
            invariant
                board.wf(),
                board.total() <= u8::MAX,
                g == board.cells(),
                n == holes,
                holes == board.size(),
                holes <= MAX_HOLES,
                1 <= i <= holes + 1,
                forall|k: int|
                    0 <= k < h@.len() ==> legal(g, n, side.row() as int, #[trigger] h@[k].hole as int)
                        && h@[k].heuristic == move_score(g, n, self.own_side(), side, h@[k].hole as int)
                        && h@[k].hole < i,
                forall|a: int, b: int| 0 <= a < b < h@.len() ==> #[trigger] h@[a].hole < #[trigger] h@[b].hole,
                forall|p: int|
                    #![trigger legal(g, n, side.row() as int, p)]
                    legal(g, n, side.row() as int, p) && p < i ==> exists|k: int|
                        0 <= k < h@.len() && #[trigger] h@[k].hole == p,
            decreases holes + 1 - i,
        {
            if board.is_legal(side, i) {
                let value = self.move_heuristic(board, side, i);
                let ghost before = h@;
                h.push(value);
                proof {
                    assert(h@[h@.len() - 1].hole == i);
                    assert forall|k: int| 0 <= k < before.len() implies #[trigger] h@[k] == before[k] by {}
                    assert forall|p: int|
                        #![trigger legal(g, n, side.row() as int, p)]
                        legal(g, n, side.row() as int, p) && p < i + 1 implies exists|k: int|
                            0 <= k < h@.len() && #[trigger] h@[k].hole == p by {
                        if p < i {
                            let k = choose|k: int| 0 <= k < before.len() && #[trigger] before[k].hole == p;
                            assert(h@[k].hole == p);
                        } else {
                            assert(h@[h@.len() - 1].hole == p);
                        }
                    }
                }
            }
            i = i + 1;
        }
        h
    }

    /// Every legal pit of `side` stands in `hv`, and only those.
    proof fn lemma_ordered_moves(
        &self,
        board: &Board,
        side: Side,
        moves: Seq<HeuristicValue>,
        hv: Seq<HeuristicValue>,
    )
        requires
            hv.to_multiset() == moves.to_multiset(),
            forall|i: int|
                0 <= i < moves.len() ==> legal(
                    board.cells(),
                    board.size() as int,
                    side.row() as int,
                    #[trigger] moves[i].hole as int,
                ),
            forall|p: int|
                #![trigger legal(board.cells(), board.size() as int, side.row() as int, p)]
                legal(board.cells(), board.size() as int, side.row() as int, p) ==> exists|i: int|
                    0 <= i < moves.len() && #[trigger] moves[i].hole == p,
        ensures
            forall|k: int|
                0 <= k < hv.len() ==> legal(
                    board.cells(),
                    board.size() as int,
                    side.row() as int,
                    #[trigger] hv[k].hole as int,
                ),
            forall|p: int|
                #![trigger legal(board.cells(), board.size() as int, side.row() as int, p)]
                legal(board.cells(), board.size() as int, side.row() as int, p) ==> exists|k: int|
                    0 <= k < hv.len() && #[trigger] hv[k].hole == p,
    {
        moves.to_multiset_ensures();
        hv.to_multiset_ensures();
        assert forall|k: int| 0 <= k < hv.len() implies legal(
            board.cells(),
            board.size() as int,
            side.row() as int,
            #[trigger] hv[k].hole as int,
        ) by {
            let x = hv[k];
            assert(hv.contains(x));
            assert(hv.to_multiset().count(x) > 0);
            assert(moves.to_multiset().count(x) > 0);
            assert(moves.contains(x));
        }
        assert forall|p: int|
            #![trigger legal(board.cells(), board.size() as int, side.row() as int, p)]
            legal(board.cells(), board.size() as int, side.row() as int, p) implies exists|k: int|
                0 <= k < hv.len() && #[trigger] hv[k].hole == p by {
            let i = choose|i: int| 0 <= i < moves.len() && #[trigger] moves[i].hole == p;
            let x = moves[i];
            assert(moves.contains(x));
            assert(moves.to_multiset().count(x) > 0);
            assert(hv.to_multiset().count(x) > 0);
            assert(hv.contains(x));
            let k = choose|k: int| 0 <= k < hv.len() && hv[k] == x;
            assert(hv[k].hole == p);
        }
    }

    /// Alpha-beta search below a node. Inside the window `(alpha, beta)` the result is
    /// the full minimax value; at or below `alpha` it bounds that value from above, at
    /// or above `beta` from below.
    fn do_minimax(
        &self,
        board: &Board,
        side: Side,
        max: bool,
        depth: i8,
        alpha: i64,
        beta: i64,
    ) -> (r: i64)
        requires
            board.wf(),
            board.total() <= u8::MAX,
            depth >= 0,
            alpha < beta,
        ensures
            (depth == 0 || pits_empty(board.cells(), 0, board.size() as int) || pits_empty(
                board.cells(),
                1,
                board.size() as int,
            )) ==> r == board_score(
                board.cells(),
                board.size() as int,
                self.own_side().row() as int,
                side.row() as int,
            ),
            alpha < r < beta ==> r == minimax_value(
                board.cells(),
                board.size() as int,
                self.own_side(),
                side,
                max,
                depth as int,
            ),
            r <= alpha ==> minimax_value(
                board.cells(),
                board.size() as int,
                self.own_side(),
                side,
                max,
                depth as int,
            ) <= r,
            r >= beta ==> minimax_value(
                board.cells(),
                board.size() as int,
                self.own_side(),
                side,
                max,
                depth as int,
            ) >= r,
            -SCORE_BOUND <= r <= SCORE_BOUND,
        decreases depth,
    {
        let ghost g = board.cells();
        let ghost n = board.size() as int;
        let ghost me = self.own_side();
        let ghost alpha0 = alpha;
        let ghost beta0 = beta;
        let mut cur_alpha = alpha;
        let mut cur_beta = beta;
        if depth == 0 || board.game_over() {
            return self.board_heuristic(board, side);
        }
        let ghost d = depth as int;
        let ghost value = minimax_value(g, n, me, side, max, d);
        assert(value == best_child(g, n, me, side, max, d, n));
        let mut max_score = i64::MIN;
        let mut min_score = i64::MAX;
        let moves = self.get_possible_moves(board, side);
        let heuristic_values = sort_moves(&moves, max);
        proof {
            self.lemma_ordered_moves(board, side, moves@, heuristic_values@);
            lemma_best_child_attained(g, n, me, side, max, d, n);
            let p = choose|p: int| 1 <= p <= n && g[side.row() as int][p] != 0;
            assert(legal(g, n, side.row() as int, p));
        }
        let mut i: usize = 0;
        while i < heuristic_values.len()
            invariant
                board.wf(),
                board.total() <= u8::MAX,
                g == board.cells(),
                n == board.size(),
                me == self.own_side(),
                d == depth,
                depth >= 1,
                !pits_empty(g, 0, n),
                !pits_empty(g, 1, n),
                value == best_child(g, n, me, side, max, d, n),
                value == minimax_value(g, n, me, side, max, d),
                alpha0 == alpha,
                beta0 == beta,
                value == (if max {
                    i64::MIN as int
                } else {
                    i64::MAX as int
                }) || exists|h: int|
                    1 <= h <= n && legal(g, n, side.row() as int, h) && #[trigger] child_value(
                        g,
                        n,
                        me,
                        side,
                        d,
                        h,
                    ) == value,
                heuristic_values@.len() > 0,
                i <= heuristic_values@.len(),
                forall|k: int|
                    0 <= k < heuristic_values@.len() ==> legal(
                        g,
                        n,
                        side.row() as int,
                        #[trigger] heuristic_values@[k].hole as int,
                    ),
                forall|p: int|
                    #![trigger legal(g, n, side.row() as int, p)]
                    legal(g, n, side.row() as int, p) ==> exists|k: int|
                        0 <= k < heuristic_values@.len() && #[trigger] heuristic_values@[k].hole
                            == p,
                alpha0 < beta0,
                cur_alpha < cur_beta,
                i == 0 ==> max_score == i64::MIN && min_score == i64::MAX,
                max ==> cur_beta == beta0 && cur_alpha == (if i > 0 && max_score > alpha0 {
                    max_score
                } else {
                    alpha0
                }),
                !max ==> cur_alpha == alpha0 && cur_beta == (if i > 0 && min_score < beta0 {
                    min_score
                } else {
                    beta0
                }),
                i > 0 && max ==> -SCORE_BOUND <= max_score <= SCORE_BOUND,
                i > 0 && !max ==> -SCORE_BOUND <= min_score <= SCORE_BOUND,
                i > 0 && max ==> forall|j: int|
                    0 <= j < i ==> child_value(
                        g,
                        n,
                        me,
                        side,
                        d,
                        #[trigger] heuristic_values@[j].hole as int,
                    ) <= max_score,
                i > 0 && max && max_score > alpha0 ==> exists|j: int|
                    0 <= j < i && child_value(
                        g,
                        n,
                        me,
                        side,
                        d,
                        #[trigger] heuristic_values@[j].hole as int,
                    ) == max_score,
                i > 0 && !max ==> forall|j: int|
                    0 <= j < i ==> child_value(
                        g,
                        n,
                        me,
                        side,
                        d,
                        #[trigger] heuristic_values@[j].hole as int,
                    ) >= min_score,
                i > 0 && !max && min_score < beta0 ==> exists|j: int|
                    0 <= j < i && child_value(
                        g,
                        n,
                        me,
                        side,
                        d,
                        #[trigger] heuristic_values@[j].hole as int,
                    ) == min_score,
            decreases heuristic_values@.len() - i,
        {
            let node = heuristic_values[i];
            let mut clone = board.clone();
            let next_side = match clone.make_move(side, node.hole) {
                Ok(s) => s,
                Err(_) => side,
            };
            let ghost a_call = cur_alpha;
            let ghost b_call = cur_beta;
            let ghost prev_max = max_score;
            let ghost prev_min = min_score;
            let score = self.do_minimax(
                &clone,
                next_side,
                next_side == self.side,
                depth - 1,
                cur_alpha,
                cur_beta,
            );
            let ghost v = child_value(g, n, me, side, d, node.hole as int);
            proof {
                assert(v == minimax_value(clone.cells(), n, me, next_side, next_side == me, d - 1));
                lemma_best_child_bounds(g, n, me, side, max, d, n, node.hole as int);
            }
            if max && score > max_score {
                max_score = score;
                if max_score > cur_alpha {
                    cur_alpha = max_score;
                }
            } else if !max && score < min_score {
                min_score = score;
                if min_score < cur_beta {
                    cur_beta = min_score;
                }
            }
            proof {
                assert(heuristic_values@[i as int].hole == node.hole);
                if cur_alpha < cur_beta {
                    if max {
                        assert(v <= max_score);
                    } else {
                        assert(v >= min_score);
                    }
                }
            }
            i = i + 1;
            if cur_beta <= cur_alpha {
                proof {
                    if max {
                        assert(max_score == score);
                        assert(score >= b_call);
                        assert(v >= score);
                    } else {
                        assert(min_score == score);
                        assert(score <= a_call);
                        assert(v <= score);
                    }
                }
                if max {
                    return max_score;
                }
                return min_score;
            }
        }
        proof {
            if max {
                assert forall|h: int|
                    1 <= h <= n && legal(g, n, side.row() as int, h) implies #[trigger] child_value(
                    g,
                    n,
                    me,
                    side,
                    d,
                    h,
                ) <= max_score by {
                    let k = choose|k: int|
                        0 <= k < heuristic_values@.len() && #[trigger] heuristic_values@[k].hole
                            == h;
                    assert(child_value(g, n, me, side, d, heuristic_values@[k].hole as int)
                        <= max_score);
                }
                if max_score > alpha0 {
                    let j = choose|j: int|
                        0 <= j < i && child_value(
                            g,
                            n,
                            me,
                            side,
                            d,
                            #[trigger] heuristic_values@[j].hole as int,
                        ) == max_score;
                    lemma_best_child_bounds(
                        g,
                        n,
                        me,
                        side,
                        max,
                        d,
                        n,
                        heuristic_values@[j].hole as int,
                    );
                }
            } else {
                assert forall|h: int|
                    1 <= h <= n && legal(g, n, side.row() as int, h) implies #[trigger] child_value(
                    g,
                    n,
                    me,
                    side,
                    d,
                    h,
                ) >= min_score by {
                    let k = choose|k: int|
                        0 <= k < heuristic_values@.len() && #[trigger] heuristic_values@[k].hole
                            == h;
                    assert(child_value(g, n, me, side, d, heuristic_values@[k].hole as int)
                        >= min_score);
                }
                if min_score < beta0 {
                    let j = choose|j: int|
                        0 <= j < i && child_value(
                            g,
                            n,
                            me,
                            side,
                            d,
                            #[trigger] heuristic_values@[j].hole as int,
                        ) == min_score;
                    lemma_best_child_bounds(
                        g,
                        n,
                        me,
                        side,
                        max,
                        d,
                        n,
                        heuristic_values@[j].hole as int,
                    );
                }
            }
        }
        if max {
            return max_score;
        }
        min_score
    }

    /// The pit that the search picks for the own side; `0` when it has no legal move.
    /// The pit picked reaches the full minimax value of the position searched
    /// `MAX_DEPTH` plies below each move: pruning changes nothing at the root.
    pub fn get_best_move(&self, board: &Board) -> (r: Result<usize, &'static str>)
        requires
            board.wf(),
            board.total() <= u8::MAX,
        ensures
            r is Ok,
            r is Ok ==> (r->Ok_0 == 0 <==> forall|p: int|
                !legal(board.cells(), board.size() as int, self.own_side().row() as int, p)),
            r is Ok && r->Ok_0 != 0 ==> legal(
                board.cells(),
                board.size() as int,
                self.own_side().row() as int,
                r->Ok_0 as int,
            ),
            r is Ok && r->Ok_0 != 0 ==> child_value(
                board.cells(),
                board.size() as int,
                self.own_side(),
                self.own_side(),
                MAX_DEPTH + 1,
                r->Ok_0 as int,
            ) == best_child(
                board.cells(),
                board.size() as int,
                self.own_side(),
                self.own_side(),
                true,
                MAX_DEPTH + 1,
                board.size() as int,
            ),
    {
        let ghost g = board.cells();
        let ghost n = board.size() as int;
        let ghost me = self.own_side();
        let ghost row = self.side.row() as int;
        let ghost d = MAX_DEPTH + 1;
        let mut max = i64::MIN;
        let mut max_hole: usize = 0;
        let moves = self.get_possible_moves(board, self.side);
        let heuristic_values = sort_moves(&moves, true);
        proof {
            self.lemma_ordered_moves(board, self.side, moves@, heuristic_values@);
            lemma_best_child_attained(g, n, me, me, true, d, n);
        }
        let mut alpha = i64::MIN;
        let beta = i64::MAX;
        let mut i: usize = 0;
        while i < heuristic_values.len()
            invariant
                board.wf(),
                board.total() <= u8::MAX,
                g == board.cells(),
                n == board.size(),
                me == self.own_side(),
                row == me.row(),
                d == MAX_DEPTH + 1,
                i <= heuristic_values@.len(),
                forall|k: int|
                    0 <= k < heuristic_values@.len() ==> legal(
                        g,
                        n,
                        row,
                        #[trigger] heuristic_values@[k].hole as int,
                    ),
                forall|p: int|
                    #![trigger legal(g, n, row, p)]
                    legal(g, n, row, p) ==> exists|k: int|
                        0 <= k < heuristic_values@.len() && #[trigger] heuristic_values@[k].hole
                            == p,
                i == 0 ==> max_hole == 0 && max == i64::MIN && alpha == i64::MIN,
                i > 0 ==> legal(g, n, row, max_hole as int) && -SCORE_BOUND <= max <= SCORE_BOUND
                    && alpha == max,
                i > 0 ==> child_value(g, n, me, me, d, max_hole as int) == max,
                i > 0 ==> forall|j: int|
                    0 <= j < i ==> child_value(
                        g,
                        n,
                        me,
                        me,
                        d,
                        #[trigger] heuristic_values@[j].hole as int,
                    ) <= max,
                beta == i64::MAX,
            decreases heuristic_values@.len() - i,
        {
            let node = heuristic_values[i];
            let mut clone = board.clone();
            let next_side = match clone.make_move(self.side, node.hole) {
                Ok(s) => s,
                Err(_) => self.side,
            };
            let score = self.do_minimax(
                &clone,
                next_side,
                next_side == self.side,
                MAX_DEPTH,
                alpha,
                beta,
            );
            proof {
                assert(child_value(g, n, me, me, d, node.hole as int) == minimax_value(
                    clone.cells(),
                    n,
                    me,
                    next_side,
                    next_side == me,
                    MAX_DEPTH as int,
                ));
                assert(heuristic_values@[i as int].hole == node.hole);
            }
            if score > max {
                max = score;
                max_hole = node.hole;
                if max > alpha {
                    alpha = max;
                }
            }
            i = i + 1;
        }
        proof {
            if max_hole == 0 {
                assert forall|p: int| !legal(g, n, row, p) by {
                    if legal(g, n, row, p) {
                        let k = choose|k: int|
                            0 <= k < heuristic_values@.len() && #[trigger] heuristic_values@[k].hole
                                == p;
                    }
                }
            } else {
                assert forall|h: int| 1 <= h <= n && legal(g, n, row, h) implies #[trigger] child_value(
                    g,
                    n,
                    me,
                    me,
                    d,
                    h,
                ) <= max by {
                    let k = choose|k: int|
                        0 <= k < heuristic_values@.len() && #[trigger] heuristic_values@[k].hole
                            == h;
                    assert(child_value(g, n, me, me, d, heuristic_values@[k].hole as int) <= max);
                }
                lemma_best_child_bounds(g, n, me, me, true, d, n, max_hole as int);
            }
        }
        Ok(max_hole)
    }
}

} // verus!
