//! The capture rule: a pair of one opponent's stones flanked by two stones of
//! the mover is taken off the board.

use crate::board::{
    empty_count, empty_delta, legal, lemma_put_empty_count, refusal, Board, MoveError, Piece,
};
use crate::cells::{on_board, put, square};
use vstd::prelude::*;

verus! {

/// The coordinate `k` steps away from `x` along an axis on which the
/// direction has component `d` (negative, zero or positive).
pub open spec fn along(x: int, d: int, k: int) -> int {
    if d > 0 {
        x + k
    } else if d < 0 {
        x - k
    } else {
        x
    }
}

/// The eight directions in which captures are looked for, as pairs of a row
/// and a column component.
pub open spec fn direction(i: int) -> (int, int) {
    if i == 0 {
        (0, 1)
    } else if i == 1 {
        (0, -1)
    } else if i == 2 {
        (1, 0)
    } else if i == 3 {
        (-1, 0)
    } else if i == 4 {
        (1, 1)
    } else if i == 5 {
        (-1, -1)
    } else if i == 6 {
        (1, -1)
    } else {
        (-1, 1)
    }
}

/// The cell `k` steps away from `(r, c)` in direction `d`.
pub open spec fn ray(r: int, c: int, d: (int, int), k: int) -> (int, int) {
    (along(r, d.0, k), along(c, d.1, k))
}

/// Seen from `(r, c)` in direction `d`, the next two cells hold stones of one
/// and the same opponent of `side`, and the cell behind them holds a stone of
/// `side`. All three cells must lie on the board.
pub open spec fn flanked(cells: Seq<Seq<Piece>>, r: int, c: int, d: (int, int), side: Piece) -> bool {
    let a = ray(r, c, d, 1);
    let b = ray(r, c, d, 2);
    let t = ray(r, c, d, 3);
    &&& on_board(cells, a.0, a.1)
    &&& on_board(cells, b.0, b.1)
    &&& on_board(cells, t.0, t.1)
    &&& cells[t.0][t.1] == side
    &&& cells[a.0][a.1] != Piece::Empty
    &&& cells[a.0][a.1] != side
    &&& cells[b.0][b.1] == cells[a.0][a.1]
}

/// The cell `(i, j)` is one of the two flanked cells in direction number `k`.
pub open spec fn hit(cells: Seq<Seq<Piece>>, r: int, c: int, side: Piece, k: int, i: int, j: int) -> bool {
    &&& flanked(cells, r, c, direction(k), side)
    &&& (i, j) == ray(r, c, direction(k), 1) || (i, j) == ray(r, c, direction(k), 2)
}

/// The stone at `(i, j)` is taken when `side` has just played at `(r, c)`,
/// looking only at the first `upto` directions.
pub open spec fn captured_within(
    cells: Seq<Seq<Piece>>,
    r: int,
    c: int,
    side: Piece,
    upto: int,
    i: int,
    j: int,
) -> bool {
    exists|k: int| 0 <= k < upto && #[trigger] hit(cells, r, c, side, k, i, j)
}

/// The stone at `(i, j)` is taken when `side` has just played at `(r, c)`.
pub open spec fn captured(cells: Seq<Seq<Piece>>, r: int, c: int, side: Piece, i: int, j: int) -> bool {
    captured_within(cells, r, c, side, 8, i, j)
}

/// In how many of the first `upto` directions a pair is flanked.
pub open spec fn flank_count(cells: Seq<Seq<Piece>>, r: int, c: int, side: Piece, upto: int) -> nat
    decreases upto,
{
    if upto <= 0 {
        0
    } else {
        flank_count(cells, r, c, side, upto - 1) + if flanked(
            cells,
            r,
            c,
            direction(upto - 1),
            side,
        ) {
            1nat
        } else {
            0nat
        }
    }
}

/// How many pairs `side` takes by having just played at `(r, c)`.
pub open spec fn capture_count(cells: Seq<Seq<Piece>>, r: int, c: int, side: Piece) -> nat {
    flank_count(cells, r, c, side, 8)
}

/// The board once the pairs that `side` takes by having just played at
/// `(r, c)` are removed: taken cells are empty, every other cell is as it was.
pub open spec fn after_captures(cells: Seq<Seq<Piece>>, r: int, c: int, side: Piece) -> Seq<
    Seq<Piece>,
> {
    Seq::new(
        cells.len(),
        |i: int|
            Seq::new(
                cells[i].len(),
                |j: int|
                    if captured(cells, r, c, side, i, j) {
                        Piece::Empty
                    } else {
                        cells[i][j]
                    },
            ),
    )
}

/// The board after `side` plays at `(r, c)` and the captures are made.
pub open spec fn after_move(cells: Seq<Seq<Piece>>, r: int, c: int, side: Piece) -> Seq<Seq<Piece>> {
    after_captures(put(cells, r, c, side), r, c, side)
}

/// How many pairs `side` takes by playing at `(r, c)`.
pub open spec fn pairs_taken(cells: Seq<Seq<Piece>>, r: int, c: int, side: Piece) -> nat {
    capture_count(put(cells, r, c, side), r, c, side)
}

/// Cells reached from one origin in two different directions are different cells.
pub proof fn lemma_rays_apart(r: int, c: int, a: int, b: int, s: int, t: int)
    requires
        0 <= a < 8,
        0 <= b < 8,
        a != b,
        1 <= s,
        1 <= t,
    ensures
        ray(r, c, direction(a), s) != ray(r, c, direction(b), t),
        ray(r, c, direction(a), s) != (r, c),
{
}

/// Cells at different distances in one direction are different cells.
pub proof fn lemma_ray_steps_apart(r: int, c: int, a: int, s: int, t: int)
    requires
        0 <= a < 8,
        s != t,
    ensures
        ray(r, c, direction(a), s) != ray(r, c, direction(a), t),
{
}

/// The number of flanked pairs is at most the number of directions looked at.
pub proof fn lemma_flank_count_bound(cells: Seq<Seq<Piece>>, r: int, c: int, side: Piece, upto: int)
    requires
        0 <= upto,
    ensures
        flank_count(cells, r, c, side, upto) <= upto,
    decreases upto,
{
    if upto > 0 {
        lemma_flank_count_bound(cells, r, c, side, upto - 1);
    }
}

/// The cell that is played is not looked at: whether a pair is flanked in a
/// direction does not depend on what the cell at `(r, c)` holds.
pub proof fn lemma_flanked_ignores_played_cell(
    cells: Seq<Seq<Piece>>,
    r: int,
    c: int,
    k: int,
    side: Piece,
    p: Piece,
)
    requires
        square(cells),
        on_board(cells, r, c),
        0 <= k < 8,
    ensures
        flanked(put(cells, r, c, p), r, c, direction(k), side) == flanked(
            cells,
            r,
            c,
            direction(k),
            side,
        ),
{
}

/// A capture only ever empties cells: every cell of the board after the
/// captures holds what it held before, or nothing.
pub proof fn lemma_captures_only_remove(cells: Seq<Seq<Piece>>, r: int, c: int, side: Piece)
    ensures
        after_captures(cells, r, c, side).len() == cells.len(),
        square(cells) ==> square(after_captures(cells, r, c, side)),
        forall|i: int, j: int|
            0 <= i < cells.len() && 0 <= j < cells[i].len() ==> {
                let now = #[trigger] after_captures(cells, r, c, side)[i][j];
                now == cells[i][j] || now == Piece::Empty
            },
{
}

/// No self-capture: a stone of the side that plays is never taken by that
/// side's own placement.
pub proof fn lemma_no_self_capture(cells: Seq<Seq<Piece>>, r: int, c: int, side: Piece)
    requires
        square(cells),
    ensures
        forall|i: int, j: int|
            on_board(cells, i, j) && cells[i][j] == side ==> !captured(cells, r, c, side, i, j)
                && (#[trigger] after_captures(cells, r, c, side)[i][j]) == side,
{
    assert forall|i: int, j: int| on_board(cells, i, j) && cells[i][j] == side implies !captured(
        cells,
        r,
        c,
        side,
        i,
        j,
    ) && (#[trigger] after_captures(cells, r, c, side)[i][j]) == side by {
        if captured(cells, r, c, side, i, j) {
            let k = choose|k: int| 0 <= k < 8 && #[trigger] hit(cells, r, c, side, k, i, j);
            assert(hit(cells, r, c, side, k, i, j));
        }
    }
}

/// The stone that was just placed stays where it was placed.
pub proof fn lemma_placed_stone_stays(cells: Seq<Seq<Piece>>, r: int, c: int, side: Piece)
    requires
        square(cells),
        on_board(cells, r, c),
    ensures
        after_move(cells, r, c, side)[r][c] == side,
{
    let placed = put(cells, r, c, side);
    lemma_put_empty_count(cells, r, c, side);
    lemma_no_self_capture(placed, r, c, side);
    assert(on_board(placed, r, c));
    assert(placed[r][c] == side);
}

/// A flanked pair is taken: where the two cells next to `(r, c)` in direction
/// number `k` hold stones of one opponent and the third holds a stone of
/// `side`, both stones of the pair are removed and at least one pair is counted.
pub proof fn lemma_flanked_pair_taken(cells: Seq<Seq<Piece>>, r: int, c: int, side: Piece, k: int)
    requires
        square(cells),
        0 <= k < 8,
        flanked(cells, r, c, direction(k), side),
    ensures
        ({
            let a = ray(r, c, direction(k), 1);
            let b = ray(r, c, direction(k), 2);
            let t = ray(r, c, direction(k), 3);
            &&& after_captures(cells, r, c, side)[a.0][a.1] == Piece::Empty
            &&& after_captures(cells, r, c, side)[b.0][b.1] == Piece::Empty
            &&& after_captures(cells, r, c, side)[t.0][t.1] == side
        }),
        capture_count(cells, r, c, side) >= 1,
{
    let a = ray(r, c, direction(k), 1);
    let b = ray(r, c, direction(k), 2);
    let t = ray(r, c, direction(k), 3);
    assert(hit(cells, r, c, side, k, a.0, a.1));
    assert(hit(cells, r, c, side, k, b.0, b.1));
    lemma_no_self_capture(cells, r, c, side);
    lemma_flank_count_from(cells, r, c, side, k, 8);
}

/// A direction that is flanked is counted once it is among those looked at.
pub proof fn lemma_flank_count_from(
    cells: Seq<Seq<Piece>>,
    r: int,
    c: int,
    side: Piece,
    k: int,
    upto: int,
)
    requires
        0 <= k < upto,
        flanked(cells, r, c, direction(k), side),
    ensures
        flank_count(cells, r, c, side, upto) >= 1,
    decreases upto,
{
    if k < upto - 1 {
        lemma_flank_count_from(cells, r, c, side, k, upto - 1);
    }
}

/// Where only direction number `k` can be flanked among the first `upto`,
/// the count is one or zero according to that direction alone.
pub proof fn lemma_flank_count_single(
    cells: Seq<Seq<Piece>>,
    r: int,
    c: int,
    side: Piece,
    k: int,
    upto: int,
)
    requires
        0 <= upto <= 8,
        forall|o: int| 0 <= o < 8 && o != k ==> !flanked(cells, r, c, #[trigger] direction(o), side),
    ensures
        flank_count(cells, r, c, side, upto) == (if 0 <= k < upto && flanked(
            cells,
            r,
            c,
            direction(k),
            side,
        ) {
            1nat
        } else {
            0nat
        }),
    decreases upto,
{
    if upto > 0 {
        lemma_flank_count_single(cells, r, c, side, k, upto - 1);
        if upto - 1 != k {
            assert(!flanked(cells, r, c, direction(upto - 1), side));
        }
    }
}

/// Capture of exactly one pair: when `side` has played at `(r, c)` and the
/// pattern "two stones of one opponent, then a stone of `side`" is found in
/// direction number `k` and in no other, precisely the two flanked stones
/// leave the board and precisely one pair is counted.
pub proof fn lemma_single_pair_capture(cells: Seq<Seq<Piece>>, r: int, c: int, side: Piece, k: int)
    requires
        square(cells),
        0 <= k < 8,
        flanked(cells, r, c, direction(k), side),
        forall|o: int| 0 <= o < 8 && o != k ==> !flanked(cells, r, c, #[trigger] direction(o), side),
    ensures
        capture_count(cells, r, c, side) == 1,
        ({
            let a = ray(r, c, direction(k), 1);
            let b = ray(r, c, direction(k), 2);
            after_captures(cells, r, c, side) == put(
                put(cells, a.0, a.1, Piece::Empty),
                b.0,
                b.1,
                Piece::Empty,
            )
        }),
{
    lemma_flank_count_single(cells, r, c, side, k, 8);
    let a = ray(r, c, direction(k), 1);
    let b = ray(r, c, direction(k), 2);
    let got = after_captures(cells, r, c, side);
    let want = put(put(cells, a.0, a.1, Piece::Empty), b.0, b.1, Piece::Empty);
    assert(hit(cells, r, c, side, k, a.0, a.1));
    assert(hit(cells, r, c, side, k, b.0, b.1));
    assert(got.len() == want.len());
    assert forall|i: int| 0 <= i < got.len() implies #[trigger] got[i] == want[i] by {
        assert(got[i].len() == want[i].len());
        assert forall|j: int| 0 <= j < got[i].len() implies got[i][j] == want[i][j] by {
            if captured(cells, r, c, side, i, j) {
                let kk = choose|kk: int| 0 <= kk < 8 && #[trigger] hit(cells, r, c, side, kk, i, j);
                assert(hit(cells, r, c, side, kk, i, j));
                if kk != k {
                    assert(!flanked(cells, r, c, direction(kk), side));
                }
            }
        }
        assert(got[i] =~= want[i]);
    }
    assert(got =~= want);
}

/// A run of three is not a pair: where the three cells next to `(r, c)` in a
/// direction all hold stones that are not of `side`, nothing is flanked in
/// that direction, whatever lies behind them.
pub proof fn lemma_three_in_a_row_not_flanked(
    cells: Seq<Seq<Piece>>,
    r: int,
    c: int,
    side: Piece,
    k: int,
)
    requires
        0 <= k < 8,
        ({
            let t = ray(r, c, direction(k), 3);
            on_board(cells, t.0, t.1) ==> cells[t.0][t.1] != side
        }),
    ensures
        !flanked(cells, r, c, direction(k), side),
        forall|s: int|
            1 <= s <= 2 ==> !hit(
                cells,
                r,
                c,
                side,
                k,
                (#[trigger] ray(r, c, direction(k), s)).0,
                ray(r, c, direction(k), s).1,
            ),
{
}

/// Where no direction is flanked, the placement takes nothing and the board
/// stays as it is.
pub proof fn lemma_nothing_flanked(cells: Seq<Seq<Piece>>, r: int, c: int, side: Piece)
    requires
        forall|o: int| 0 <= o < 8 ==> !flanked(cells, r, c, #[trigger] direction(o), side),
    ensures
        capture_count(cells, r, c, side) == 0,
        after_captures(cells, r, c, side) == cells,
{
    lemma_flank_count_single(cells, r, c, side, -1, 8);
    let got = after_captures(cells, r, c, side);
    assert(got.len() == cells.len());
    assert forall|i: int| 0 <= i < got.len() implies #[trigger] got[i] == cells[i] by {
        assert forall|j: int| 0 <= j < got[i].len() implies got[i][j] == cells[i][j] by {
            if captured(cells, r, c, side, i, j) {
                let kk = choose|kk: int| 0 <= kk < 8 && #[trigger] hit(cells, r, c, side, kk, i, j);
                assert(!flanked(cells, r, c, direction(kk), side));
            }
        }
        assert(got[i] =~= cells[i]);
    }
    assert(got =~= cells);
}

/// The components of direction number `i`.
pub fn direction_at(i: usize) -> (d: (i8, i8))
    requires
        i < 8,
    ensures
        (d.0 as int, d.1 as int) == direction(i as int),
{
    if i == 0 {
        (0, 1)
    } else if i == 1 {
        (0, -1)
    } else if i == 2 {
        (1, 0)
    } else if i == 3 {
        (-1, 0)
    } else if i == 4 {
        (1, 1)
    } else if i == 5 {
        (-1, -1)
    } else if i == 6 {
        (1, -1)
    } else {
        (-1, 1)
    }
}

/// The coordinate `k` steps from `x` on an axis with direction component `d`,
/// if it is below `n`.
fn step_along(x: usize, d: i8, k: usize, n: usize) -> (t: Option<usize>)
    ensures
        match t {
            Some(v) => v == along(x as int, d as int, k as int) && v < n,
            None => !(0 <= along(x as int, d as int, k as int) < n),
        },
{
    if d > 0 {
        if x < n && k < n - x {
            Some(x + k)
        } else {
            None
        }
    } else if d < 0 {
        if x >= k && x - k < n {
            Some(x - k)
        } else {
            None
        }
    } else {
        if x < n {
            Some(x)
        } else {
            None
        }
    }
}

/// The cell `k` steps from `(r, c)` in direction `d`, if it lies on a board
/// of `n` by `n` cells.
pub fn cell_along(r: usize, c: usize, d: (i8, i8), k: usize, n: usize) -> (p: Option<(usize, usize)>)
    ensures
        match p {
            Some(q) => (q.0 as int, q.1 as int) == ray(
                r as int,
                c as int,
                (d.0 as int, d.1 as int),
                k as int,
            ) && q.0 < n && q.1 < n,
            None => {
                let q = ray(r as int, c as int, (d.0 as int, d.1 as int), k as int);
                !(0 <= q.0 < n && 0 <= q.1 < n)
            },
        },
{
    match (step_along(r, d.0, k, n), step_along(c, d.1, k, n)) {
        (Some(i), Some(j)) => Some((i, j)),
        _ => None,
    }
}

impl Board {
    /// The cell `k` steps from `(r, c)` in direction `d`, if it is on the board.
    pub fn ray_cell(&self, r: usize, c: usize, d: (i8, i8), k: usize) -> (p: Option<(usize, usize)>)
        requires
            self.wf(),
        ensures
            match p {
                Some(q) => (q.0 as int, q.1 as int) == ray(
                    r as int,
                    c as int,
                    (d.0 as int, d.1 as int),
                    k as int,
                ) && on_board(self@, q.0 as int, q.1 as int),
                None => {
                    let q = ray(r as int, c as int, (d.0 as int, d.1 as int), k as int);
                    !on_board(self@, q.0, q.1)
                },
            },
    {
        cell_along(r, c, d, k, self.size)
    }

    /// Plays a stone of `side` at `(r, c)`: places it, removes the pairs it
    /// takes and returns their number. An illegal placement is refused and
    /// leaves the board as it was.
    pub fn play(&mut self, r: usize, c: usize, side: Piece) -> (res: Result<usize, MoveError>)
        requires
            old(self).wf(),
        ensures
            final(self).wf(),
            final(self).size == old(self).size,
            match res {
                Ok(n) => {
                    &&& legal(old(self)@, r as int, c as int)
                    &&& final(self)@ == after_move(old(self)@, r as int, c as int, side)
                    &&& n == pairs_taken(old(self)@, r as int, c as int, side)
                    &&& n <= 8
                    &&& empty_count(final(self)@) == empty_count(old(self)@) + empty_delta(
                        Piece::Empty,
                        side,
                    ) + 2 * n
                },
                Err(e) => refusal(old(self)@, r as int, c as int) == Some(e) && *final(self)
                    == *old(self),
            },
    {
        match self.place(r, c, side) {
            Ok(_) => {
                proof {
                    lemma_put_empty_count(old(self)@, r as int, c as int, side);
                }
                let n = self.apply_captures(r, c, side);
                Ok(n)
            },
            Err(e) => Err(e),
        }
    }

    /// Removes every pair that `side` takes by having just played at
    /// `(r, c)`, and returns their number.
    ///
    /// All eight directions are looked at, each on its own: a direction in
    /// which the next two cells hold two stones of one opponent and the third
    /// holds a stone of `side` loses those two stones. The cell `(r, c)`
    /// itself is not read.
    pub fn apply_captures(&mut self, r: usize, c: usize, side: Piece) -> (n: usize)
        requires
            old(self).wf(),
        ensures
            final(self).wf(),
            final(self).size == old(self).size,
            final(self)@ == after_captures(old(self)@, r as int, c as int, side),
            n == capture_count(old(self)@, r as int, c as int, side),
            n <= 8,
            empty_count(final(self)@) == empty_count(old(self)@) + 2 * n,
    {
        let ghost start = self@;
        let ghost (ri, ci) = (r as int, c as int);
        let mut count: usize = 0;
        let mut k: usize = 0;
        while k < 8
            invariant
                k <= 8,
                count <= k,
                self.wf(),
                self.size == old(self).size,
                start == old(self)@,
                start.len() == self.size,
                square(start),
                ri == r,
                ci == c,
                count == flank_count(start, ri, ci, side, k as int),
                empty_count(self@) == empty_count(start) + 2 * count,
                forall|i: int, j: int|
                    on_board(start, i, j) ==> (#[trigger] self@[i][j]) == (if captured_within(
                        start,
                        ri,
                        ci,
                        side,
                        k as int,
                        i,
                        j,
                    ) {
                        Piece::Empty
                    } else {
                        start[i][j]
                    }),
            decreases 8 - k,
        {
            let d = direction_at(k);
            let ghost before = self@;
            let ghost dk = direction(k as int);
            proof {
                assert forall|s: int, i: int, j: int|
                    1 <= s <= 3 && (i, j) == ray(ri, ci, dk, s) implies !captured_within(
                    start,
                    ri,
                    ci,
                    side,
                    k as int,
                    i,
                    j,
                ) by {
                    assert forall|kk: int| 0 <= kk < k implies !#[trigger] hit(
                        start,
                        ri,
                        ci,
                        side,
                        kk,
                        i,
                        j,
                    ) by {
                        lemma_rays_apart(ri, ci, kk, k as int, 1, s);
                        lemma_rays_apart(ri, ci, kk, k as int, 2, s);
                    }
                }
            }
            let ghost mut took = false;
            match (self.ray_cell(r, c, d, 1), self.ray_cell(r, c, d, 2), self.ray_cell(r, c, d, 3)) {
                (Some(a), Some(b), Some(t)) => {
                    let first = self.get(a.0, a.1);
                    let second = self.get(b.0, b.1);
                    let third = self.get(t.0, t.1);
                    if third == side && first != Piece::Empty && first != side && second == first {
                        proof {
                            lemma_ray_steps_apart(ri, ci, k as int, 1, 2);
                            lemma_put_empty_count(before, a.0 as int, a.1 as int, Piece::Empty);
                            let mid = put(before, a.0 as int, a.1 as int, Piece::Empty);
                            assert(mid[b.0 as int][b.1 as int] == second);
                            lemma_put_empty_count(mid, b.0 as int, b.1 as int, Piece::Empty);
                        }
                        self.set(a.0, a.1, Piece::Empty);
                        self.set(b.0, b.1, Piece::Empty);
                        count += 1;
                        proof {
                            took = true;
                        }
                    }
                },
                _ => {},
            }
            proof {
                assert(took == flanked(start, ri, ci, dk, side));
                assert forall|i: int, j: int| on_board(start, i, j) implies (
                #[trigger] self@[i][j]) == (if captured_within(
                    start,
                    ri,
                    ci,
                    side,
                    k as int + 1,
                    i,
                    j,
                ) {
                    Piece::Empty
                } else {
                    start[i][j]
                }) by {
                    if captured_within(start, ri, ci, side, k as int, i, j) {
                        let kk = choose|kk: int|
                            0 <= kk < k && #[trigger] hit(start, ri, ci, side, kk, i, j);
                        assert(hit(start, ri, ci, side, kk, i, j));
                    }
                    if hit(start, ri, ci, side, k as int, i, j) {
                        assert(self@[i][j] == Piece::Empty);
                    } else {
                        assert(self@[i][j] == before[i][j]);
                    }
                }
            }
            k += 1;
        }
        proof {
            lemma_flank_count_bound(start, ri, ci, side, 8);
            let want = after_captures(start, ri, ci, side);
            assert(self@.len() == want.len());
            assert forall|i: int| 0 <= i < self@.len() implies #[trigger] self@[i] == want[i] by {
                assert(self@[i].len() == want[i].len());
                assert forall|j: int| 0 <= j < self@[i].len() implies self@[i][j] == want[i][j] by {
                    assert(on_board(start, i, j));
                }
                assert(self@[i] =~= want[i]);
            }
            assert(self@ =~= want);
        }
        count
    }
}

} // verus!
