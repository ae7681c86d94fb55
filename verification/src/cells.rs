//! The model of a board: a square table of cells, whatever a cell holds.

use vstd::prelude::*;

verus! {

/// `cells` has as many columns in every row as it has rows.
pub open spec fn square<T>(cells: Seq<Seq<T>>) -> bool {
    forall|r: int| 0 <= r < cells.len() ==> (#[trigger] cells[r]).len() == cells.len()
}

/// `(r, c)` names a cell of `cells`.
pub open spec fn on_board<T>(cells: Seq<Seq<T>>, r: int, c: int) -> bool {
    0 <= r < cells.len() && 0 <= c < cells.len()
}

/// `cells` with the cell at `(r, c)` replaced by `v`.
#[verifier::inline]
pub open spec fn put<T>(cells: Seq<Seq<T>>, r: int, c: int, v: T) -> Seq<Seq<T>> {
    cells.update(r, cells[r].update(c, v))
}

/// The cell at `(r, c)` exists and holds `empty`.
pub open spec fn vacant<T>(cells: Seq<Seq<T>>, r: int, c: int, empty: T) -> bool {
    on_board(cells, r, c) && cells[r][c] == empty
}

/// The cells that hold `empty` among the first `upto` cells of `row`, which
/// is row `r` of a board, from left to right.
pub open spec fn row_vacancies<T>(row: Seq<T>, r: int, upto: int, empty: T) -> Seq<(usize, usize)>
    decreases upto,
{
    if upto <= 0 {
        Seq::empty()
    } else if row[upto - 1] == empty {
        row_vacancies(row, r, upto - 1, empty).push((r as usize, (upto - 1) as usize))
    } else {
        row_vacancies(row, r, upto - 1, empty)
    }
}

/// The cells that hold `empty` in the first `upto` rows of `cells`, row by row.
pub open spec fn vacancies_upto<T>(cells: Seq<Seq<T>>, upto: int, empty: T) -> Seq<(usize, usize)>
    decreases upto,
{
    if upto <= 0 {
        Seq::empty()
    } else {
        vacancies_upto(cells, upto - 1, empty) + row_vacancies(
            cells[upto - 1],
            upto - 1,
            cells[upto - 1].len() as int,
            empty,
        )
    }
}

/// All cells that hold `empty`, in row-major order.
pub open spec fn vacancies<T>(cells: Seq<Seq<T>>, empty: T) -> Seq<(usize, usize)> {
    vacancies_upto(cells, cells.len() as int, empty)
}

/// What replacing `was` by `now` in one cell adds to the number of cells
/// that hold `empty`.
pub open spec fn vacancy_delta<T>(was: T, now: T, empty: T) -> int {
    (if now == empty { 1int } else { 0int }) - (if was == empty { 1int } else { 0int })
}

/// Every entry of `row_vacancies` names a cell of the row that holds `empty`,
/// left of `upto`.
pub proof fn lemma_row_vacancies_sound<T>(row: Seq<T>, r: int, upto: int, empty: T)
    requires
        0 <= r <= usize::MAX,
        0 <= upto <= row.len() <= usize::MAX,
    ensures
        forall|i: int|
            0 <= i < row_vacancies(row, r, upto, empty).len() ==> {
                let m = #[trigger] row_vacancies(row, r, upto, empty)[i];
                m.0 == r && m.1 < upto && row[m.1 as int] == empty
            },
    decreases upto,
{
    if upto > 0 {
        lemma_row_vacancies_sound(row, r, upto - 1, empty);
        let prev = row_vacancies(row, r, upto - 1, empty);
        assert forall|i: int| 0 <= i < row_vacancies(row, r, upto, empty).len() implies {
            let m = #[trigger] row_vacancies(row, r, upto, empty)[i];
            m.0 == r && m.1 < upto && row[m.1 as int] == empty
        } by {
            if i < prev.len() {
                assert(row_vacancies(row, r, upto, empty)[i] == prev[i]);
            }
        }
    }
}

/// Every cell of the row left of `upto` that holds `empty` is an entry of
/// `row_vacancies`.
pub proof fn lemma_row_vacancies_complete<T>(row: Seq<T>, r: int, upto: int, c: int, empty: T)
    requires
        0 <= r <= usize::MAX,
        0 <= c < upto <= row.len() <= usize::MAX,
        row[c] == empty,
    ensures
        row_vacancies(row, r, upto, empty).contains((r as usize, c as usize)),
    decreases upto,
{
    let prev = row_vacancies(row, r, upto - 1, empty);
    if c == upto - 1 {
        assert(row_vacancies(row, r, upto, empty)[prev.len() as int] == (r as usize, c as usize));
    } else {
        lemma_row_vacancies_complete(row, r, upto - 1, c, empty);
        let i = choose|i: int| 0 <= i < prev.len() && prev[i] == (r as usize, c as usize);
        assert(row_vacancies(row, r, upto, empty)[i] == (r as usize, c as usize));
    }
}

/// Every entry of `vacancies_upto` names a cell that holds `empty` in one of
/// the first `upto` rows.
pub proof fn lemma_vacancies_sound<T>(cells: Seq<Seq<T>>, upto: int, empty: T)
    requires
        square(cells),
        0 <= upto <= cells.len() <= usize::MAX,
    ensures
        forall|i: int|
            0 <= i < vacancies_upto(cells, upto, empty).len() ==> {
                let m = #[trigger] vacancies_upto(cells, upto, empty)[i];
                m.0 < upto && vacant(cells, m.0 as int, m.1 as int, empty)
            },
    decreases upto,
{
    if upto > 0 {
        lemma_vacancies_sound(cells, upto - 1, empty);
        lemma_row_vacancies_sound(cells[upto - 1], upto - 1, cells.len() as int, empty);
        let prev = vacancies_upto(cells, upto - 1, empty);
        let last = row_vacancies(cells[upto - 1], upto - 1, cells.len() as int, empty);
        assert forall|i: int| 0 <= i < vacancies_upto(cells, upto, empty).len() implies {
            let m = #[trigger] vacancies_upto(cells, upto, empty)[i];
            m.0 < upto && vacant(cells, m.0 as int, m.1 as int, empty)
        } by {
            if i < prev.len() {
                assert(vacancies_upto(cells, upto, empty)[i] == prev[i]);
            } else {
                assert(vacancies_upto(cells, upto, empty)[i] == last[i - prev.len()]);
            }
        }
    }
}

/// Every cell in the first `upto` rows that holds `empty` is an entry of
/// `vacancies_upto`.
pub proof fn lemma_vacancies_complete<T>(cells: Seq<Seq<T>>, upto: int, r: int, c: int, empty: T)
    requires
        square(cells),
        0 <= r < upto <= cells.len() <= usize::MAX,
        vacant(cells, r, c, empty),
    ensures
        vacancies_upto(cells, upto, empty).contains((r as usize, c as usize)),
    decreases upto,
{
    let prev = vacancies_upto(cells, upto - 1, empty);
    let last = row_vacancies(cells[upto - 1], upto - 1, cells.len() as int, empty);
    if r == upto - 1 {
        lemma_row_vacancies_complete(cells[r], r, cells.len() as int, c, empty);
        let i = choose|i: int| 0 <= i < last.len() && last[i] == (r as usize, c as usize);
        assert(vacancies_upto(cells, upto, empty)[prev.len() + i] == (r as usize, c as usize));
    } else {
        lemma_vacancies_complete(cells, upto - 1, r, c, empty);
        let i = choose|i: int| 0 <= i < prev.len() && prev[i] == (r as usize, c as usize);
        assert(vacancies_upto(cells, upto, empty)[i] == (r as usize, c as usize));
    }
}

/// `vacancies` lists exactly the cells that hold `empty`: every entry is such
/// a cell, and every such cell is an entry.
pub proof fn lemma_vacancies<T>(cells: Seq<Seq<T>>, empty: T)
    requires
        square(cells),
        cells.len() <= usize::MAX,
    ensures
        forall|i: int|
            0 <= i < vacancies(cells, empty).len() ==> vacant(
                cells,
                (#[trigger] vacancies(cells, empty)[i]).0 as int,
                vacancies(cells, empty)[i].1 as int,
                empty,
            ),
        forall|r: int, c: int|
            vacant(cells, r, c, empty) ==> vacancies(cells, empty).contains(
                (r as usize, c as usize),
            ),
{
    lemma_vacancies_sound(cells, cells.len() as int, empty);
    assert forall|r: int, c: int| vacant(cells, r, c, empty) implies vacancies(
        cells,
        empty,
    ).contains((r as usize, c as usize)) by {
        lemma_vacancies_complete(cells, cells.len() as int, r, c, empty);
    }
}

/// Replacing one cell of a row changes the number of its cells that hold
/// `empty` by `vacancy_delta`, as far as the cell lies left of `upto`.
pub proof fn lemma_row_vacancies_update<T>(row: Seq<T>, r: int, upto: int, c: int, v: T, empty: T)
    requires
        0 <= c < row.len(),
        0 <= upto <= row.len(),
    ensures
        row_vacancies(row.update(c, v), r, upto, empty).len() == row_vacancies(
            row,
            r,
            upto,
            empty,
        ).len() + (if c < upto {
            vacancy_delta(row[c], v, empty)
        } else {
            0
        }),
    decreases upto,
{
    if upto > 0 {
        lemma_row_vacancies_update(row, r, upto - 1, c, v, empty);
    }
}

/// Replacing one cell changes the number of cells that hold `empty` in the
/// first `upto` rows by `vacancy_delta`, as far as the cell lies in them.
pub proof fn lemma_vacancies_update<T>(
    cells: Seq<Seq<T>>,
    upto: int,
    r: int,
    c: int,
    v: T,
    empty: T,
)
    requires
        square(cells),
        on_board(cells, r, c),
        0 <= upto <= cells.len(),
    ensures
        vacancies_upto(put(cells, r, c, v), upto, empty).len() == vacancies_upto(
            cells,
            upto,
            empty,
        ).len() + (if r < upto {
            vacancy_delta(cells[r][c], v, empty)
        } else {
            0
        }),
    decreases upto,
{
    if upto > 0 {
        lemma_vacancies_update(cells, upto - 1, r, c, v, empty);
        if r == upto - 1 {
            lemma_row_vacancies_update(cells[r], r, cells.len() as int, c, v, empty);
        }
    }
}

/// Replacing what one cell holds keeps the grid square and changes the
/// number of cells that hold `empty` by `vacancy_delta`.
pub proof fn lemma_put_vacancies<T>(cells: Seq<Seq<T>>, r: int, c: int, v: T, empty: T)
    requires
        square(cells),
        on_board(cells, r, c),
    ensures
        square(put(cells, r, c, v)),
        put(cells, r, c, v).len() == cells.len(),
        vacancies(put(cells, r, c, v), empty).len() == vacancies(cells, empty).len()
            + vacancy_delta(cells[r][c], v, empty),
{
    lemma_vacancies_update(cells, cells.len() as int, r, c, v, empty);
}

} // verus!
