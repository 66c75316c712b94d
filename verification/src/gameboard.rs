//! Game logic: the board, its conflict checker, the backtracking solver, and
//! the randomized puzzle generator.
//!
//! The board is a fixed 9x9 grid of cells addressed by a two-component index
//! `[column, row]`. A cell holds a value in `0..=9` (`0` means empty) and an
//! editability flag; a cell with `editable == false` is a "given" that `set`
//! never overwrites.

use vstd::prelude::*;
use vstd::array::*;
use rand::RngExt;

verus! {

/// How many whole seed-and-solve rounds the generator tries before it gives
/// up; in practice a solvable seed is found after a handful of rounds.
pub const RETRY_CAP: usize = 10000;

/// Draws a uniformly random number below `bound`.
///
/// Relies on rand's `RngExt::random_range` on the thread-local generator
/// `rand::rng()`: it returns a value of the given non-empty range. Nothing
/// beyond the bound is assumed of the result.
#[verifier::external_body]
fn random_below(bound: usize) -> (r: usize)
    requires
        1 <= bound,
    ensures
        r < bound,
{
    rand::rng().random_range(0..bound)
}

/// Number of rows and of columns of the board.
pub const SIZE: usize = 9;

/// Stores one cell's information: its value (`0` is an empty cell) and
/// whether the player may overwrite it.
#[derive(Clone, Copy)]
#[verifier::ext_equal]
pub struct Cell {
    /// The value of that cell, in `0..=9`; `0` means empty.
    pub value: u8,
    /// Whether the cell is editable.
    pub editable: bool,
}

impl Cell {
    /// Creates a new cell: empty and editable.
    fn new() -> (c: Cell)
        ensures
            c.value == 0,
            c.editable,
    {
        Cell { value: 0, editable: true }
    }

    /// The value held by the cell.
    pub fn value(&self) -> (v: u8)
        ensures
            v == self.value,
    {
        self.value
    }
}

/// Stores game board information.
pub struct Gameboard {
    /// The 81 cells in row-major order: the cell at index `[col, row]` is
    /// `cells[row * 9 + col]`.
    pub cells: Vec<Cell>,
}

impl View for Gameboard {
    type V = Seq<Cell>;

    open spec fn view(&self) -> Seq<Cell> {
        self.cells@
    }
}

/// The column component of a `[column, row]` index.
pub open spec fn pcol(p: [usize; 2]) -> int {
    p[0] as int
}

/// The row component of a `[column, row]` index.
pub open spec fn prow(p: [usize; 2]) -> int {
    p[1] as int
}

/// Both components of a `[column, row]` index are on the board.
pub open spec fn valid_pos(col: int, row: int) -> bool {
    0 <= col < 9 && 0 <= row < 9
}

/// The flat position of board coordinates in the row-major cell sequence.
pub open spec fn pos_index(p: [usize; 2]) -> int {
    prow(p) * 9 + pcol(p)
}

/// The value held at board coordinates `(col, row)`.
pub open spec fn cell_at(s: Seq<Cell>, col: int, row: int) -> u8 {
    s[row * 9 + col].value
}

/// Whether the cell at board coordinates `(col, row)` is editable.
pub open spec fn editable_at(s: Seq<Cell>, col: int, row: int) -> bool {
    s[row * 9 + col].editable
}

/// Well-formedness of a board: exactly 81 cells, every value in `0..=9`.
pub open spec fn grid_ok(s: Seq<Cell>) -> bool {
    s.len() == 81
        && forall|col: int, row: int|
            valid_pos(col, row) ==> (#[trigger] cell_at(s, col, row)) <= 9
}

/// The two boards mark exactly the same cells editable.
pub open spec fn same_flags(s1: Seq<Cell>, s2: Seq<Cell>) -> bool {
    forall|col: int, row: int|
        valid_pos(col, row)
            ==> (#[trigger] editable_at(s1, col, row)) == editable_at(s2, col, row)
}

/// Two positions share a row, a column, or a 3x3 box.
pub open spec fn same_unit(c1: int, r1: int, c2: int, r2: int) -> bool {
    r1 == r2 || c1 == c2 || (c1 / 3 == c2 / 3 && r1 / 3 == r2 / 3)
}

/// Value `v` already appears at some cell other than `(col, row)` in that
/// position's row, column, or 3x3 box.
pub open spec fn value_conflicts(s: Seq<Cell>, col: int, row: int, v: u8) -> bool {
    exists|c: int, r: int|
        valid_pos(c, r) && !(c == col && r == row) && same_unit(col, row, c, r)
            && (#[trigger] cell_at(s, c, r)) == v
}

/// The cell at `(col, row)` holds a value in `1..=9` that appears nowhere
/// else in its row, column, or 3x3 box.
pub open spec fn cell_ok(s: Seq<Cell>, col: int, row: int) -> bool {
    1 <= cell_at(s, col, row) <= 9 && !value_conflicts(s, col, row, cell_at(s, col, row))
}

/// Full validity: every cell holds a value in `1..=9` and no row, column, or
/// 3x3 box repeats a value, so each unit's nine values are a permutation of
/// `1..=9`.
pub open spec fn board_solved(s: Seq<Cell>) -> bool {
    forall|col: int, row: int| valid_pos(col, row) ==> #[trigger] cell_ok(s, col, row)
}

/// Every editable cell holds a value in `1..=9` that clashes with no other
/// cell of its row, column, or 3x3 box.
pub open spec fn editables_ok(s: Seq<Cell>) -> bool {
    forall|col: int, row: int|
        valid_pos(col, row) && editable_at(s, col, row) ==> #[trigger] cell_ok(s, col, row)
}

/// The given (non-editable) cells are consistent among themselves: each holds
/// a value in `1..=9`, and no two distinct givens of one row, column, or box
/// hold the same value.
pub open spec fn givens_ok(s: Seq<Cell>) -> bool {
    (forall|col: int, row: int|
        valid_pos(col, row) && !editable_at(s, col, row)
            ==> 1 <= (#[trigger] cell_at(s, col, row)) <= 9)
    && (forall|c1: int, r1: int, c2: int, r2: int|
        valid_pos(c1, r1) && valid_pos(c2, r2) && !(c1 == c2 && r1 == r2)
            && !editable_at(s, c1, r1) && !editable_at(s, c2, r2) && same_unit(c1, r1, c2, r2)
            ==> (#[trigger] cell_at(s, c1, r1)) != (#[trigger] cell_at(s, c2, r2)))
}

/// `s2` is the same board as `s1` except that editable cells may hold other
/// values: the flags agree everywhere and the givens keep their values.
pub open spec fn completes(s1: Seq<Cell>, s2: Seq<Cell>) -> bool {
    s1.len() == 81 && s2.len() == 81 && same_flags(s1, s2)
        && (forall|col: int, row: int|
            valid_pos(col, row) && !editable_at(s1, col, row)
                ==> (#[trigger] cell_at(s2, col, row)) == cell_at(s1, col, row))
}

/// Some assignment of values to the editable cells makes every editable cell
/// clash-free; this is exactly the condition under which `solve` succeeds.
pub open spec fn fillable(s: Seq<Cell>) -> bool {
    exists|s2: Seq<Cell>| (#[trigger] completes(s, s2)) && grid_ok(s2) && editables_ok(s2)
}

/// At least one cell is a given.
pub open spec fn has_given(s: Seq<Cell>) -> bool {
    exists|col: int, row: int| valid_pos(col, row) && !(#[trigger] editable_at(s, col, row))
}

/// Every editable cell is empty.
pub open spec fn editables_blank(s: Seq<Cell>) -> bool {
    forall|col: int, row: int|
        valid_pos(col, row) && editable_at(s, col, row) ==> (#[trigger] cell_at(s, col, row)) == 0
}

/// One of the listed positions at or after `ind` lies at board coordinates
/// `(col, row)`.
pub open spec fn in_tail(list: Seq<[usize; 2]>, ind: int, col: int, row: int) -> bool {
    exists|p: int|
        ind <= p < list.len() && pcol(#[trigger] list[p]) == col && prow(list[p]) == row
}

/// The collected cell list is usable for the search: every entry is a valid
/// board position of an editable cell, and no position repeats.
pub open spec fn list_ok(s: Seq<Cell>, list: Seq<[usize; 2]>) -> bool {
    (forall|p: int|
        0 <= p < list.len()
            ==> valid_pos(pcol(#[trigger] list[p]), prow(list[p]))
                && editable_at(s, pcol(list[p]), prow(list[p])))
    && (forall|p: int, q: int|
        0 <= p < q < list.len()
            ==> !(pcol(#[trigger] list[p]) == pcol(#[trigger] list[q])
                && prow(list[p]) == prow(list[q])))
}

/// Every listed cell at or after `ind` is empty.
pub open spec fn tail_blank(s: Seq<Cell>, list: Seq<[usize; 2]>, ind: int) -> bool {
    forall|p: int|
        ind <= p < list.len() ==> cell_at(s, pcol(#[trigger] list[p]), prow(list[p])) == 0
}

/// Every listed cell at or after `ind` holds a clash-free value in `1..=9`.
pub open spec fn tail_ok(s: Seq<Cell>, list: Seq<[usize; 2]>, ind: int) -> bool {
    forall|p: int|
        ind <= p < list.len() ==> cell_ok(s, pcol(#[trigger] list[p]), prow(list[p]))
}

/// `s2` differs from `s1` at most in the values of the listed cells at or
/// after `ind`; the editable flags agree everywhere.
pub open spec fn agrees_outside_tail(
    s1: Seq<Cell>,
    s2: Seq<Cell>,
    list: Seq<[usize; 2]>,
    ind: int,
) -> bool {
    s1.len() == 81 && s2.len() == 81 && same_flags(s1, s2)
        && (forall|col: int, row: int|
            valid_pos(col, row) && !in_tail(list, ind, col, row)
                ==> (#[trigger] cell_at(s2, col, row)) == cell_at(s1, col, row))
}

/// Some assignment of values to the listed cells at or after `ind` makes
/// every one of them clash-free.
pub open spec fn tail_completable(s: Seq<Cell>, list: Seq<[usize; 2]>, ind: int) -> bool {
    exists|s2: Seq<Cell>|
        (#[trigger] agrees_outside_tail(s, s2, list, ind)) && grid_ok(s2)
            && tail_ok(s2, list, ind)
}

/// The printable digit character for a value, or `None` for an empty cell.
pub open spec fn digit_char(v: u8) -> Option<char> {
    if v == 1 { Some('1') }
    else if v == 2 { Some('2') }
    else if v == 3 { Some('3') }
    else if v == 4 { Some('4') }
    else if v == 5 { Some('5') }
    else if v == 6 { Some('6') }
    else if v == 7 { Some('7') }
    else if v == 8 { Some('8') }
    else if v == 9 { Some('9') }
    else { None }
}

/// Replacing one cell by a cell with an in-range value keeps a board
/// well formed.
proof fn lemma_update_grid_ok(s: Seq<Cell>, i: int, c: Cell)
    requires
        grid_ok(s),
        0 <= i < 81,
        c.value <= 9,
    ensures
        grid_ok(s.update(i, c)),
{
    assert forall|col: int, row: int|
        valid_pos(col, row) implies (#[trigger] cell_at(s.update(i, c), col, row)) <= 9 by {
        if row * 9 + col != i {
            assert(cell_at(s.update(i, c), col, row) == cell_at(s, col, row));
        }
    }
}

/// Boards of equal length, equal flags, and equal values at every valid
/// position are equal.
proof fn lemma_boards_eq(s1: Seq<Cell>, s2: Seq<Cell>)
    requires
        s1.len() == 81,
        s2.len() == 81,
        same_flags(s1, s2),
        forall|col: int, row: int|
            valid_pos(col, row) ==> (#[trigger] cell_at(s1, col, row)) == cell_at(s2, col, row),
    ensures
        s1 == s2,
{
    assert forall|i: int| 0 <= i < 81 implies s1[i] == s2[i] by {
        let col = i % 9;
        let row = i / 9;
        assert(valid_pos(col, row));
        assert(i == row * 9 + col);
        assert(cell_at(s1, col, row) == cell_at(s2, col, row));
        assert(editable_at(s1, col, row) == editable_at(s2, col, row));
        assert(s1[i] =~= s2[i]);
    }
    assert(s1 =~= s2);
}

/// Replacing the cell at a valid position changes no other position's value
/// or flag.
pub proof fn lemma_update_at(s: Seq<Cell>, p: [usize; 2], c: Cell)
    requires
        s.len() == 81,
        valid_pos(pcol(p), prow(p)),
    ensures
        cell_at(s.update(pos_index(p), c), pcol(p), prow(p)) == c.value,
        editable_at(s.update(pos_index(p), c), pcol(p), prow(p)) == c.editable,
        forall|col: int, row: int|
            valid_pos(col, row) && !(col == pcol(p) && row == prow(p))
                ==> (#[trigger] cell_at(s.update(pos_index(p), c), col, row))
                    == cell_at(s, col, row),
        forall|col: int, row: int|
            valid_pos(col, row) && !(col == pcol(p) && row == prow(p))
                ==> (#[trigger] editable_at(s.update(pos_index(p), c), col, row))
                    == editable_at(s, col, row),
{
    assert forall|col: int, row: int|
        valid_pos(col, row) && !(col == pcol(p) && row == prow(p))
            implies row * 9 + col != pos_index(p) by {
    }
}

/// The head of the list does not reappear among the later entries.
proof fn lemma_head_not_in_tail(s: Seq<Cell>, list: Seq<[usize; 2]>, ind: int)
    requires
        list_ok(s, list),
        0 <= ind < list.len(),
    ensures
        !in_tail(list, ind + 1, pcol(list[ind]), prow(list[ind])),
{
    if in_tail(list, ind + 1, pcol(list[ind]), prow(list[ind])) {
        let p = choose|p: int|
            ind + 1 <= p < list.len() && pcol(#[trigger] list[p]) == pcol(list[ind])
                && prow(list[p]) == prow(list[ind]);
        assert(!(pcol(list[ind]) == pcol(list[p]) && prow(list[ind]) == prow(list[p])));
    }
}

/// A position of the tail other than the head's position is still in the
/// tail one entry later.
proof fn lemma_in_tail_step(list: Seq<[usize; 2]>, ind: int, col: int, row: int)
    requires
        0 <= ind < list.len(),
        in_tail(list, ind, col, row),
        !(col == pcol(list[ind]) && row == prow(list[ind])),
    ensures
        in_tail(list, ind + 1, col, row),
{
    let p = choose|p: int|
        ind <= p < list.len() && pcol(#[trigger] list[p]) == col && prow(list[p]) == row;
    assert(p != ind);
    assert(ind + 1 <= p < list.len() && pcol(list[p]) == col && prow(list[p]) == row);
}

/// A board with the same flags and the same given values as a board whose
/// givens are mutually consistent has mutually consistent givens itself.
proof fn lemma_givens_ok_transfer(s1: Seq<Cell>, s2: Seq<Cell>)
    requires
        s1.len() == 81,
        s2.len() == 81,
        same_flags(s1, s2),
        forall|col: int, row: int|
            valid_pos(col, row) && !editable_at(s1, col, row)
                ==> (#[trigger] cell_at(s2, col, row)) == cell_at(s1, col, row),
        givens_ok(s1),
    ensures
        givens_ok(s2),
{
    assert forall|col: int, row: int|
        valid_pos(col, row) && !editable_at(s2, col, row)
            implies 1 <= (#[trigger] cell_at(s2, col, row)) <= 9 by {
        assert(!editable_at(s1, col, row));
        assert(cell_at(s1, col, row) == cell_at(s2, col, row));
    }
    assert forall|c1: int, r1: int, c2: int, r2: int|
        valid_pos(c1, r1) && valid_pos(c2, r2) && !(c1 == c2 && r1 == r2)
            && !editable_at(s2, c1, r1) && !editable_at(s2, c2, r2) && same_unit(c1, r1, c2, r2)
            implies (#[trigger] cell_at(s2, c1, r1)) != (#[trigger] cell_at(s2, c2, r2)) by {
        assert(!editable_at(s1, c1, r1) && !editable_at(s1, c2, r2));
        assert(cell_at(s1, c1, r1) != cell_at(s1, c2, r2));
        assert(cell_at(s2, c1, r1) == cell_at(s1, c1, r1));
        assert(cell_at(s2, c2, r2) == cell_at(s1, c2, r2));
    }
}

/// A board whose givens are mutually consistent and whose editable cells are
/// all clash-free is fully solved: every row, column, and 3x3 box then holds
/// nine distinct values of `1..=9`, a permutation of `1..=9`.
pub proof fn lemma_parts_solved(s: Seq<Cell>)
    requires
        s.len() == 81,
        givens_ok(s),
        editables_ok(s),
    ensures
        board_solved(s),
{
    assert forall|col: int, row: int|
        valid_pos(col, row) implies #[trigger] cell_ok(s, col, row) by {
        if !editable_at(s, col, row) {
            assert(1 <= cell_at(s, col, row) <= 9);
            assert(!value_conflicts(s, col, row, cell_at(s, col, row))) by {
                if value_conflicts(s, col, row, cell_at(s, col, row)) {
                    let (c2, r2) = choose|c2: int, r2: int|
                        valid_pos(c2, r2) && !(c2 == col && r2 == row)
                            && same_unit(col, row, c2, r2)
                            && (#[trigger] cell_at(s, c2, r2)) == cell_at(s, col, row);
                    if editable_at(s, c2, r2) {
                        assert(cell_ok(s, c2, r2));
                        assert(same_unit(c2, r2, col, row));
                        assert(value_conflicts(s, c2, r2, cell_at(s, c2, r2)));
                        assert(false);
                    } else {
                        assert(cell_at(s, col, row) != cell_at(s, c2, r2));
                        assert(false);
                    }
                }
            }
        }
    }
}

/// Nine pairwise distinct values of `1..=9` include every value of `1..=9`.
proof fn lemma_nine_distinct_values_complete(vals: Seq<u8>, v: u8)
    requires
        vals.len() == 9,
        forall|i: int| 0 <= i < 9 ==> 1 <= (#[trigger] vals[i]) <= 9,
        forall|i: int, j: int| 0 <= i < 9 && 0 <= j < 9 && i != j ==> vals[i] != vals[j],
        1 <= v <= 9,
    ensures
        exists|i: int| 0 <= i < 9 && vals[i] == v,
{
    broadcast use vstd::seq_lib::seq_to_set_is_finite;

    let digits = Seq::new(9, |k: int| (k + 1) as u8);
    assert(vals.no_duplicates());
    assert(digits.no_duplicates());
    vals.unique_seq_to_set();
    digits.unique_seq_to_set();
    assert(vals.to_set().subset_of(digits.to_set())) by {
        assert forall|x: u8| vals.to_set().contains(x) implies digits.to_set().contains(x) by {
            assert(1 <= x <= 9);
            assert(digits[x as int - 1] == x);
        }
    }
    vstd::set_lib::lemma_subset_equality(vals.to_set(), digits.to_set());
    assert(digits[v as int - 1] == v);
    assert(digits.to_set().contains(v));
    assert(vals.to_set().contains(v));
    assert(vals.contains(v));
}

/// In a solved board every row contains every value of `1..=9`: together
/// with the absence of duplicates, each row's nine values are a permutation
/// of `1..=9`.
pub proof fn lemma_solved_row_complete(s: Seq<Cell>, row: int, v: u8)
    requires
        s.len() == 81,
        board_solved(s),
        0 <= row < 9,
        1 <= v <= 9,
    ensures
        exists|col: int| 0 <= col < 9 && (#[trigger] cell_at(s, col, row)) == v,
{
    let vals = Seq::new(9, |c: int| cell_at(s, c, row));
    assert forall|i: int, j: int|
        0 <= i < 9 && 0 <= j < 9 && i != j implies vals[i] != vals[j] by {
        assert(cell_ok(s, i, row));
        if cell_at(s, i, row) == cell_at(s, j, row) {
            assert(value_conflicts(s, i, row, cell_at(s, i, row)));
            assert(false);
        }
    }
    assert forall|i: int| 0 <= i < 9 implies 1 <= (#[trigger] vals[i]) <= 9 by {
        assert(cell_ok(s, i, row));
    }
    lemma_nine_distinct_values_complete(vals, v);
    let i = choose|i: int| 0 <= i < 9 && vals[i] == v;
    assert(cell_at(s, i, row) == v);
}

/// In a solved board every column contains every value of `1..=9`.
pub proof fn lemma_solved_column_complete(s: Seq<Cell>, col: int, v: u8)
    requires
        s.len() == 81,
        board_solved(s),
        0 <= col < 9,
        1 <= v <= 9,
    ensures
        exists|row: int| 0 <= row < 9 && (#[trigger] cell_at(s, col, row)) == v,
{
    let vals = Seq::new(9, |r: int| cell_at(s, col, r));
    assert forall|i: int, j: int|
        0 <= i < 9 && 0 <= j < 9 && i != j implies vals[i] != vals[j] by {
        assert(cell_ok(s, col, i));
        if cell_at(s, col, i) == cell_at(s, col, j) {
            assert(value_conflicts(s, col, i, cell_at(s, col, i)));
            assert(false);
        }
    }
    assert forall|i: int| 0 <= i < 9 implies 1 <= (#[trigger] vals[i]) <= 9 by {
        assert(cell_ok(s, col, i));
    }
    lemma_nine_distinct_values_complete(vals, v);
    let i = choose|i: int| 0 <= i < 9 && vals[i] == v;
    assert(cell_at(s, col, i) == v);
}

/// In a solved board every 3x3 box contains every value of `1..=9`. The box
/// in box-coordinates `(bx, by)` covers columns `3*bx..3*bx+3` and rows
/// `3*by..3*by+3`.
pub proof fn lemma_solved_box_complete(s: Seq<Cell>, bx: int, by: int, v: u8)
    requires
        s.len() == 81,
        board_solved(s),
        0 <= bx < 3,
        0 <= by < 3,
        1 <= v <= 9,
    ensures
        exists|col: int, row: int|
            3 * bx <= col < 3 * bx + 3 && 3 * by <= row < 3 * by + 3
                && (#[trigger] cell_at(s, col, row)) == v,
{
    let vals = Seq::new(9, |k: int| cell_at(s, 3 * bx + k % 3, 3 * by + k / 3));
    assert forall|i: int, j: int|
        0 <= i < 9 && 0 <= j < 9 && i != j implies vals[i] != vals[j] by {
        let c1 = 3 * bx + i % 3;
        let r1 = 3 * by + i / 3;
        let c2 = 3 * bx + j % 3;
        let r2 = 3 * by + j / 3;
        assert(valid_pos(c1, r1) && valid_pos(c2, r2));
        assert(!(c1 == c2 && r1 == r2));
        assert(same_unit(c1, r1, c2, r2));
        assert(cell_ok(s, c1, r1));
        if cell_at(s, c1, r1) == cell_at(s, c2, r2) {
            assert(value_conflicts(s, c1, r1, cell_at(s, c1, r1)));
            assert(false);
        }
    }
    assert forall|i: int| 0 <= i < 9 implies 1 <= (#[trigger] vals[i]) <= 9 by {
        assert(cell_ok(s, 3 * bx + i % 3, 3 * by + i / 3));
    }
    lemma_nine_distinct_values_complete(vals, v);
    let i = choose|i: int| 0 <= i < 9 && vals[i] == v;
    assert(cell_at(s, 3 * bx + i % 3, 3 * by + i / 3) == v);
}

impl Gameboard {
    /// Creates a new gameboard: all 81 cells empty and editable.
    pub fn new() -> (board: Gameboard)
        ensures
            grid_ok(board@),
            forall|col: int, row: int|
                valid_pos(col, row) ==> (#[trigger] cell_at(board@, col, row)) == 0,
            forall|col: int, row: int|
                valid_pos(col, row) ==> (#[trigger] editable_at(board@, col, row)),
    {
        let mut cells: Vec<Cell> = Vec::new();
        let mut i: usize = 0;
        while i < SIZE * SIZE
            invariant
                i <= 81,
                cells@.len() == i as int,
                forall|j: int| 0 <= j < i as int ==> cells@[j] == (Cell { value: 0, editable: true }),
            decreases 81 - i,
        {
            cells.push(Cell::new());
            i += 1;
        }
        Gameboard { cells }
    }

    /// Gets the character at cell location, `None` for an empty cell.
    pub fn char(&self, ind: [usize; 2]) -> (r: Option<char>)
        requires
            grid_ok(self@),
            valid_pos(pcol(ind), prow(ind)),
        ensures
            r == digit_char(cell_at(self@, pcol(ind), prow(ind))),
    {
        match self.cells[ind[1] * 9 + ind[0]].value {
            1 => Some('1'),
            2 => Some('2'),
            3 => Some('3'),
            4 => Some('4'),
            5 => Some('5'),
            6 => Some('6'),
            7 => Some('7'),
            8 => Some('8'),
            9 => Some('9'),
            _ => None,
        }
    }

    /// Sets the cell's value, but only if the cell is editable; a write to a
    /// given is silently ignored.
    pub fn set(&mut self, ind: [usize; 2], val: u8)
        requires
            grid_ok(old(self)@),
            valid_pos(pcol(ind), prow(ind)),
            val <= 9,
        ensures
            grid_ok(final(self)@),
            editable_at(old(self)@, pcol(ind), prow(ind)) ==> final(self)@
                == old(self)@.update(pos_index(ind), (Cell { value: val, editable: true })),
            !editable_at(old(self)@, pcol(ind), prow(ind)) ==> final(self)@ == old(self)@,
    {
        let i = ind[1] * 9 + ind[0];
        if self.cells[i].editable {
            self.cells[i].value = val;
            proof {
                assert(final(self)@ =~= old(self)@.update(
                    pos_index(ind), (Cell { value: val, editable: true })));
                lemma_update_grid_ok(old(self)@, pos_index(ind),
                    (Cell { value: val, editable: true }));
            }
        }
    }

    /// Checks whether placing `value` at `ind` would duplicate `value` at
    /// some other cell of the same row, column, or 3x3 box. The cell at
    /// `ind` itself is excluded from the scan, so a cell never conflicts
    /// with its own current content.
    #[verifier::loop_isolation(false)]
    pub fn conflict(&self, ind: &[usize; 2], value: u8) -> (r: bool)
        requires
            grid_ok(self@),
            valid_pos(pcol(*ind), prow(*ind)),
            1 <= value <= 9,
        ensures
            r == value_conflicts(self@, pcol(*ind), prow(*ind), value),
    {
        let col = ind[0];
        let row = ind[1];

        // Scan the row and the column.
        let mut i: usize = 0;
        while i < SIZE
            invariant
                i <= 9,
                forall|c: int|
                    0 <= c < i as int && c != pcol(*ind)
                        ==> (#[trigger] cell_at(self@, c, prow(*ind))) != value,
                forall|r: int|
                    0 <= r < i as int && r != prow(*ind)
                        ==> (#[trigger] cell_at(self@, pcol(*ind), r)) != value,
            decreases 9 - i,
        {
            if i != col && self.cells[row * 9 + i].value == value {
                proof {
                    assert(cell_at(self@, i as int, prow(*ind)) == value);
                }
                return true;
            }
            if i != row && self.cells[i * 9 + col].value == value {
                proof {
                    assert(cell_at(self@, pcol(*ind), i as int) == value);
                }
                return true;
            }
            i += 1;
        }

        // Scan the 3x3 box.
        let base_col = (col / 3) * 3;
        let base_row = (row / 3) * 3;
        let mut dr: usize = 0;
        while dr < 3
            invariant
                dr <= 3,
                forall|c: int, r: int|
                    base_col as int <= c < base_col as int + 3
                        && base_row as int <= r < base_row as int + dr as int
                        && !(c == pcol(*ind) && r == prow(*ind))
                        ==> (#[trigger] cell_at(self@, c, r)) != value,
            decreases 3 - dr,
        {
            let mut dc: usize = 0;
            while dc < 3
                invariant
                    dc <= 3,
                    forall|c: int, r: int|
                        base_col as int <= c < base_col as int + 3
                            && base_row as int <= r < base_row as int + dr as int
                            && !(c == pcol(*ind) && r == prow(*ind))
                            ==> (#[trigger] cell_at(self@, c, r)) != value,
                    forall|c: int|
                        base_col as int <= c < base_col as int + dc as int
                            && !(c == pcol(*ind) && base_row as int + dr as int == prow(*ind))
                            ==> (#[trigger] cell_at(self@, c, base_row as int + dr as int)) != value,
                decreases 3 - dc,
            {
                let c = base_col + dc;
                let r = base_row + dr;
                if !(c == col && r == row) && self.cells[r * 9 + c].value == value {
                    proof {
                        assert(cell_at(self@, c as int, r as int) == value);
                        assert(same_unit(pcol(*ind), prow(*ind), c as int, r as int));
                    }
                    return true;
                }
                dc += 1;
            }
            dr += 1;
        }

        proof {
            assert forall|c: int, r: int|
                valid_pos(c, r) && !(c == pcol(*ind) && r == prow(*ind))
                    && same_unit(pcol(*ind), prow(*ind), c, r)
                    implies (#[trigger] cell_at(self@, c, r)) != value by {
                if r == prow(*ind) {
                    assert(cell_at(self@, c, prow(*ind)) != value);
                } else if c == pcol(*ind) {
                    assert(cell_at(self@, pcol(*ind), r) != value);
                } else {
                    assert(base_col as int <= c < base_col as int + 3);
                    assert(base_row as int <= r < base_row as int + 3);
                }
            }
        }
        false
    }

    /// Puts every cell back to empty and editable.
    fn reset(&mut self)
        ensures
            grid_ok(final(self)@),
            forall|col: int, row: int|
                valid_pos(col, row) ==> (#[trigger] cell_at(final(self)@, col, row)) == 0,
            forall|col: int, row: int|
                valid_pos(col, row) ==> (#[trigger] editable_at(final(self)@, col, row)),
    {
        let fresh = Gameboard::new();
        self.cells = fresh.cells;
    }

    /// Empties every editable cell, leaving the givens untouched.
    #[verifier::loop_isolation(false)]
    fn clear_editable_cells(&mut self)
        requires
            grid_ok(old(self)@),
        ensures
            grid_ok(final(self)@),
            same_flags(old(self)@, final(self)@),
            forall|col: int, row: int|
                valid_pos(col, row) && !editable_at(old(self)@, col, row)
                    ==> (#[trigger] cell_at(final(self)@, col, row))
                        == cell_at(old(self)@, col, row),
            editables_blank(final(self)@),
    {
        let mut row: usize = 0;
        while row < SIZE
            invariant
                row <= 9,
                grid_ok(self@),
                same_flags(old(self)@, self@),
                forall|c: int, r: int|
                    valid_pos(c, r) && !editable_at(old(self)@, c, r)
                        ==> (#[trigger] cell_at(self@, c, r)) == cell_at(old(self)@, c, r),
                forall|c: int, r: int|
                    valid_pos(c, r) && r < row as int && editable_at(self@, c, r)
                        ==> (#[trigger] cell_at(self@, c, r)) == 0,
            decreases 9 - row,
        {
            let mut col: usize = 0;
            while col < SIZE
                invariant
                    col <= 9,
                    grid_ok(self@),
                    same_flags(old(self)@, self@),
                    forall|c: int, r: int|
                        valid_pos(c, r) && !editable_at(old(self)@, c, r)
                            ==> (#[trigger] cell_at(self@, c, r)) == cell_at(old(self)@, c, r),
                    forall|c: int, r: int|
                        valid_pos(c, r) && (r < row as int || (r == row as int && c < col as int))
                            && editable_at(self@, c, r)
                            ==> (#[trigger] cell_at(self@, c, r)) == 0,
                decreases 9 - col,
            {
                let pos = [col, row];
                let ghost s_pre = self@;
                self.set(pos, 0);
                proof {
                    if editable_at(s_pre, col as int, row as int) {
                        lemma_update_at(s_pre, pos, (Cell { value: 0, editable: true }));
                    }
                    assert forall|c: int, r: int| valid_pos(c, r)
                        implies (#[trigger] editable_at(old(self)@, c, r))
                            == editable_at(self@, c, r) by {
                        if !(c == col as int && r == row as int) {
                            assert(editable_at(self@, c, r) == editable_at(s_pre, c, r));
                        } else {
                            if editable_at(s_pre, c, r) {
                                assert(editable_at(self@, c, r));
                            }
                        }
                    }
                    assert forall|c: int, r: int|
                        valid_pos(c, r) && !editable_at(old(self)@, c, r)
                        implies (#[trigger] cell_at(self@, c, r))
                            == cell_at(old(self)@, c, r) by {
                        assert(!editable_at(s_pre, c, r));
                        if !(c == col as int && r == row as int) {
                            assert(cell_at(self@, c, r) == cell_at(s_pre, c, r));
                        }
                    }
                    assert forall|c: int, r: int|
                        valid_pos(c, r)
                            && (r < row as int || (r == row as int && c < col as int + 1))
                            && editable_at(self@, c, r)
                        implies (#[trigger] cell_at(self@, c, r)) == 0 by {
                        if c == col as int && r == row as int {
                            assert(editable_at(s_pre, c, r));
                            assert(cell_at(self@, c, r) == 0);
                        } else {
                            assert(editable_at(s_pre, c, r));
                            assert(cell_at(self@, c, r) == cell_at(s_pre, c, r));
                        }
                    }
                }
                col += 1;
            }
            row += 1;
        }
    }

    /// Initialises the gameboard to a freshly generated, solvable puzzle.
    ///
    /// Each round starts from a clean board and makes exactly 80 randomized
    /// placement attempts: a random column, row, and value, committed as a
    /// non-editable given whenever it does not clash with the board seeded
    /// so far. If the seeded board can be completed, the editable cells are
    /// blanked again and generation is done; otherwise the whole round is
    /// retried with fresh randomness. Returns true on success; after
    /// `RETRY_CAP` fruitless rounds (which chance makes all but impossible)
    /// it gives up, leaving a fresh empty board, and returns false.
    #[verifier::loop_isolation(false)]
    #[verifier::rlimit(60)]
    pub fn init(&mut self) -> (r: bool)
        ensures
            grid_ok(final(self)@),
            r ==> givens_ok(final(self)@),
            r ==> has_given(final(self)@),
            r ==> editables_blank(final(self)@),
            r ==> fillable(final(self)@),
            !r ==> forall|col: int, row: int|
                valid_pos(col, row) ==> (#[trigger] cell_at(final(self)@, col, row)) == 0
                    && editable_at(final(self)@, col, row),
    {
        let mut tries: usize = 0;
        while tries < RETRY_CAP
            decreases RETRY_CAP - tries,
        {
            self.reset();
            let mut attempt: usize = 0;
            while attempt < 80
                invariant
                    attempt <= 80,
                    grid_ok(self@),
                    givens_ok(self@),
                    editables_blank(self@),
                    attempt == 0 ==> forall|c: int, r: int|
                        valid_pos(c, r) ==> (#[trigger] editable_at(self@, c, r)),
                    attempt >= 1 ==> has_given(self@),
                decreases 80 - attempt,
            {
                let c = random_below(SIZE);
                let r = random_below(SIZE);
                let val = (random_below(SIZE) + 1) as u8;
                let pos = [c, r];
                let ghost pc = pcol(pos);
                let ghost pr = prow(pos);
                if !self.conflict(&pos, val) {
                    let ghost s_pre = self@;
                    self.set(pos, val);
                    let ghost s_mid = self@;
                    self.set_editable(pos, false);
                    proof {
                        if editable_at(s_pre, pc, pr) {
                            lemma_update_at(s_pre, pos, (Cell { value: val, editable: true }));
                        }
                        lemma_update_at(s_mid, pos, (Cell {
                            value: cell_at(s_mid, pc, pr),
                            editable: false,
                        }));
                        assert(!editable_at(self@, pc, pr));
                        assert(has_given(self@));
                        assert forall|cc: int, rr: int|
                            valid_pos(cc, rr) && !(cc == pc && rr == pr)
                            implies (#[trigger] cell_at(self@, cc, rr)) == cell_at(s_pre, cc, rr)
                                && (#[trigger] editable_at(self@, cc, rr))
                                    == editable_at(s_pre, cc, rr) by {
                            assert(cell_at(s_mid, cc, rr) == cell_at(s_pre, cc, rr));
                            assert(editable_at(s_mid, cc, rr) == editable_at(s_pre, cc, rr));
                        }
                        assert forall|cc: int, rr: int|
                            valid_pos(cc, rr) && editable_at(self@, cc, rr)
                            implies (#[trigger] cell_at(self@, cc, rr)) == 0 by {
                            assert(!(cc == pc && rr == pr));
                            assert(editable_at(s_pre, cc, rr));
                        }
                        // The fresh given clashes with no other given.
                        assert(1 <= cell_at(self@, pc, pr) <= 9) by {
                            if !editable_at(s_pre, pc, pr) {
                                assert(1 <= cell_at(s_pre, pc, pr) <= 9);
                            }
                        }
                        assert forall|c1: int, r1: int, c2: int, r2: int|
                            valid_pos(c1, r1) && valid_pos(c2, r2) && !(c1 == c2 && r1 == r2)
                                && !editable_at(self@, c1, r1) && !editable_at(self@, c2, r2)
                                && same_unit(c1, r1, c2, r2)
                            implies (#[trigger] cell_at(self@, c1, r1))
                                != (#[trigger] cell_at(self@, c2, r2)) by {
                            if c1 == pc && r1 == pr {
                                assert(!editable_at(s_pre, c2, r2));
                                assert(cell_at(self@, c2, r2) == cell_at(s_pre, c2, r2));
                                if editable_at(s_pre, pc, pr) {
                                    assert(cell_at(self@, pc, pr) == val);
                                    if cell_at(s_pre, c2, r2) == val {
                                        assert(value_conflicts(s_pre, pc, pr, val));
                                        assert(false);
                                    }
                                } else {
                                    assert(cell_at(self@, pc, pr) == cell_at(s_pre, pc, pr));
                                    assert(cell_at(s_pre, pc, pr) != cell_at(s_pre, c2, r2));
                                }
                            } else if c2 == pc && r2 == pr {
                                assert(!editable_at(s_pre, c1, r1));
                                assert(cell_at(self@, c1, r1) == cell_at(s_pre, c1, r1));
                                if editable_at(s_pre, pc, pr) {
                                    assert(cell_at(self@, pc, pr) == val);
                                    if cell_at(s_pre, c1, r1) == val {
                                        assert(same_unit(pc, pr, c1, r1));
                                        assert(value_conflicts(s_pre, pc, pr, val));
                                        assert(false);
                                    }
                                } else {
                                    assert(cell_at(self@, pc, pr) == cell_at(s_pre, pc, pr));
                                    assert(cell_at(s_pre, c1, r1) != cell_at(s_pre, pc, pr));
                                }
                            } else {
                                assert(!editable_at(s_pre, c1, r1));
                                assert(!editable_at(s_pre, c2, r2));
                                assert(cell_at(s_pre, c1, r1) != cell_at(s_pre, c2, r2));
                            }
                        }
                    }
                } else {
                    proof {
                        // On the very first attempt the board is entirely
                        // empty, so nothing can clash: a given is committed.
                        if attempt == 0 {
                            let (cc, rr) = choose|cc: int, rr: int|
                                valid_pos(cc, rr) && !(cc == pc && rr == pr)
                                    && same_unit(pc, pr, cc, rr)
                                    && (#[trigger] cell_at(self@, cc, rr)) == val;
                            assert(editable_at(self@, cc, rr));
                            assert(cell_at(self@, cc, rr) == 0);
                            assert(false);
                        }
                    }
                }
                attempt += 1;
            }
            let ghost s_seed = self@;
            if self.solve() {
                let ghost s_solved = self@;
                self.clear_editable_cells();
                proof {
                    let sf = self@;
                    assert forall|cc: int, rr: int| valid_pos(cc, rr)
                        implies (#[trigger] editable_at(s_seed, cc, rr))
                            == editable_at(sf, cc, rr) by {
                        assert(editable_at(s_seed, cc, rr) == editable_at(s_solved, cc, rr));
                    }
                    assert forall|cc: int, rr: int|
                        valid_pos(cc, rr) && !editable_at(s_seed, cc, rr)
                        implies (#[trigger] cell_at(sf, cc, rr)) == cell_at(s_seed, cc, rr) by {
                        assert(!editable_at(s_solved, cc, rr));
                        assert(cell_at(s_solved, cc, rr) == cell_at(s_seed, cc, rr));
                        assert(cell_at(sf, cc, rr) == cell_at(s_solved, cc, rr));
                    }
                    lemma_givens_ok_transfer(s_seed, sf);
                    assert(has_given(sf)) by {
                        let (cc, rr) = choose|cc: int, rr: int|
                            valid_pos(cc, rr) && !(#[trigger] editable_at(s_seed, cc, rr));
                        assert(!editable_at(sf, cc, rr));
                    }
                    // The generated board stays solvable: solvability only
                    // depends on the flags and the given values.
                    assert(fillable(sf)) by {
                        let s2 = choose|s2: Seq<Cell>|
                            (#[trigger] completes(s_seed, s2)) && grid_ok(s2)
                                && editables_ok(s2);
                        assert forall|cc: int, rr: int|
                            valid_pos(cc, rr) && !editable_at(sf, cc, rr)
                            implies (#[trigger] cell_at(s2, cc, rr))
                                == cell_at(sf, cc, rr) by {
                            assert(!editable_at(s_seed, cc, rr));
                            assert(cell_at(s2, cc, rr) == cell_at(s_seed, cc, rr));
                        }
                        assert forall|cc: int, rr: int| valid_pos(cc, rr)
                            implies (#[trigger] editable_at(sf, cc, rr))
                                == editable_at(s2, cc, rr) by {
                            assert(editable_at(s_seed, cc, rr) == editable_at(s2, cc, rr));
                            assert(editable_at(s_seed, cc, rr) == editable_at(sf, cc, rr));
                        }
                        assert(sf.len() == 81);
                        assert(completes(sf, s2));
                    }
                }
                return true;
            }
            tries += 1;
        }
        self.reset();
        false
    }

    /// Searches for a solution by brute-force backtracking over the editable
    /// cells, collected in row-major order and first cleared to empty.
    /// Returns true if and only if some assignment of values to the editable
    /// cells satisfies every row, column, and 3x3 box constraint; on success
    /// the editable cells hold such an assignment, on failure every editable
    /// cell is left empty. The givens are never touched.
    #[verifier::loop_isolation(false)]
    #[verifier::rlimit(60)]
    pub fn solve(&mut self) -> (r: bool)
        requires
            grid_ok(old(self)@),
        ensures
            grid_ok(final(self)@),
            same_flags(old(self)@, final(self)@),
            forall|col: int, row: int|
                valid_pos(col, row) && !editable_at(old(self)@, col, row)
                    ==> (#[trigger] cell_at(final(self)@, col, row))
                        == cell_at(old(self)@, col, row),
            r == fillable(old(self)@),
            r ==> editables_ok(final(self)@),
            r && givens_ok(old(self)@) ==> board_solved(final(self)@),
            !r ==> editables_blank(final(self)@),
    {
        // Create a list of all editable cells, in row-major order.
        let mut empty_cells: Vec<[usize; 2]> = Vec::new();
        let mut row: usize = 0;
        while row < SIZE
            invariant
                row <= 9,
                self@ == old(self)@,
                list_ok(self@, empty_cells@),
                forall|p: int, q: int|
                    0 <= p < q < empty_cells@.len()
                        ==> pos_index(#[trigger] empty_cells@[p])
                            < pos_index(#[trigger] empty_cells@[q]),
                forall|p: int|
                    0 <= p < empty_cells@.len()
                        ==> pos_index(#[trigger] empty_cells@[p]) < row as int * 9,
                forall|c: int, r: int|
                    valid_pos(c, r) && r < row as int && editable_at(self@, c, r)
                        ==> in_tail(empty_cells@, 0, c, r),
            decreases 9 - row,
        {
            let mut col: usize = 0;
            while col < SIZE
                invariant
                    col <= 9,
                    self@ == old(self)@,
                    list_ok(self@, empty_cells@),
                    forall|p: int, q: int|
                        0 <= p < q < empty_cells@.len()
                            ==> pos_index(#[trigger] empty_cells@[p])
                                < pos_index(#[trigger] empty_cells@[q]),
                    forall|p: int|
                        0 <= p < empty_cells@.len()
                            ==> pos_index(#[trigger] empty_cells@[p])
                                < row as int * 9 + col as int,
                    forall|c: int, r: int|
                        valid_pos(c, r)
                            && (r < row as int || (r == row as int && c < col as int))
                            && editable_at(self@, c, r)
                            ==> in_tail(empty_cells@, 0, c, r),
                decreases 9 - col,
            {
                if self.is_editable([col, row]) {
                    let ghost before = empty_cells@;
                    empty_cells.push([col, row]);
                    proof {
                        let entry = empty_cells@[before.len() as int];
                        assert(pcol(entry) == col as int && prow(entry) == row as int);
                        assert forall|c: int, r: int|
                            valid_pos(c, r)
                                && (r < row as int || (r == row as int && c < col as int + 1))
                                && editable_at(self@, c, r)
                            implies in_tail(empty_cells@, 0, c, r) by {
                            if c == col as int && r == row as int {
                                assert(pcol(empty_cells@[before.len() as int]) == c
                                    && prow(empty_cells@[before.len() as int]) == r);
                            } else {
                                let p = choose|p: int|
                                    0 <= p < before.len()
                                        && pcol(#[trigger] before[p]) == c
                                        && prow(before[p]) == r;
                                assert(empty_cells@[p] == before[p]);
                            }
                        }
                    }
                }
                col += 1;
            }
            row += 1;
        }

        // Clear every editable cell before searching, so that stale values
        // never block a valid completion.
        let ghost list = empty_cells@;
        let mut k: usize = 0;
        while k < empty_cells.len()
            invariant
                k <= list.len(),
                empty_cells@ == list,
                grid_ok(self@),
                same_flags(old(self)@, self@),
                forall|col: int, row: int|
                    valid_pos(col, row) && !in_tail(list, 0, col, row)
                        ==> (#[trigger] cell_at(self@, col, row))
                            == cell_at(old(self)@, col, row),
                forall|p: int|
                    0 <= p < k as int
                        ==> cell_at(self@, pcol(#[trigger] list[p]), prow(list[p])) == 0,
            decreases list.len() - k,
        {
            let pos = empty_cells[k];
            let ghost s_pre = self@;
            proof {
                assert(pos == list[k as int]);
                assert(valid_pos(pcol(pos), prow(pos)));
                assert(editable_at(old(self)@, pcol(pos), prow(pos)));
                assert(editable_at(s_pre, pcol(pos), prow(pos)));
            }
            self.set(pos, 0);
            proof {
                lemma_update_at(s_pre, pos, (Cell { value: 0, editable: true }));
                assert forall|col: int, row: int| valid_pos(col, row)
                    implies (#[trigger] editable_at(old(self)@, col, row))
                        == editable_at(self@, col, row) by {
                    if !(col == pcol(pos) && row == prow(pos)) {
                        assert(editable_at(self@, col, row) == editable_at(s_pre, col, row));
                    }
                }
                assert forall|col: int, row: int|
                    valid_pos(col, row) && !in_tail(list, 0, col, row)
                    implies (#[trigger] cell_at(self@, col, row))
                        == cell_at(old(self)@, col, row) by {
                    assert(!(col == pcol(pos) && row == prow(pos)));
                    assert(cell_at(self@, col, row) == cell_at(s_pre, col, row));
                }
                assert forall|p: int| 0 <= p < k as int + 1
                    implies cell_at(self@, pcol(#[trigger] list[p]), prow(list[p])) == 0 by {
                    if p < k as int {
                        assert(!(pcol(list[p]) == pcol(pos) && prow(list[p]) == prow(pos)));
                        assert(cell_at(self@, pcol(list[p]), prow(list[p]))
                            == cell_at(s_pre, pcol(list[p]), prow(list[p])));
                    } else {
                        assert(cell_at(self@, pcol(pos), prow(pos)) == 0);
                    }
                }
            }
            k += 1;
        }

        let ghost s_zero = self@;
        proof {
            assert(tail_blank(s_zero, list, 0));
            assert(list_ok(s_zero, list)) by {
                assert forall|p: int| 0 <= p < list.len()
                    implies valid_pos(pcol(#[trigger] list[p]), prow(list[p]))
                        && editable_at(s_zero, pcol(list[p]), prow(list[p])) by {
                    assert(editable_at(old(self)@, pcol(list[p]), prow(list[p])));
                }
            }
        }

        let ok = self.backtrack(0, &empty_cells);

        proof {
            let sf = self@;
            // The two notions of solvability coincide: a completion of the
            // original board is exactly a clash-free filling of the list.
            if ok {
                let s2 = choose|s2: Seq<Cell>|
                    (#[trigger] agrees_outside_tail(s_zero, s2, list, 0)) && grid_ok(s2)
                        && tail_ok(s2, list, 0);
                assert forall|col: int, row: int|
                    valid_pos(col, row) && !editable_at(old(self)@, col, row)
                    implies (#[trigger] cell_at(s2, col, row))
                        == cell_at(old(self)@, col, row) by {
                    assert(!in_tail(list, 0, col, row)) by {
                        if in_tail(list, 0, col, row) {
                            let p = choose|p: int|
                                0 <= p < list.len() && pcol(#[trigger] list[p]) == col
                                    && prow(list[p]) == row;
                            assert(editable_at(old(self)@, col, row));
                            assert(false);
                        }
                    }
                    assert(cell_at(s2, col, row) == cell_at(s_zero, col, row));
                }
                assert(completes(old(self)@, s2));
                assert(editables_ok(s2)) by {
                    assert forall|col: int, row: int|
                        valid_pos(col, row) && editable_at(s2, col, row)
                        implies #[trigger] cell_ok(s2, col, row) by {
                        assert(editable_at(old(self)@, col, row));
                        assert(in_tail(list, 0, col, row));
                        let p = choose|p: int|
                            0 <= p < list.len() && pcol(#[trigger] list[p]) == col
                                && prow(list[p]) == row;
                        assert(cell_ok(s2, pcol(list[p]), prow(list[p])));
                    }
                }
                assert(fillable(old(self)@));
            } else {
                assert(!fillable(old(self)@)) by {
                    if fillable(old(self)@) {
                        let s2 = choose|s2: Seq<Cell>|
                            (#[trigger] completes(old(self)@, s2)) && grid_ok(s2)
                                && editables_ok(s2);
                        assert forall|col: int, row: int|
                            valid_pos(col, row) && !in_tail(list, 0, col, row)
                            implies (#[trigger] cell_at(s2, col, row))
                                == cell_at(s_zero, col, row) by {
                            assert(!editable_at(old(self)@, col, row));
                            assert(cell_at(s2, col, row) == cell_at(old(self)@, col, row));
                        }
                        assert(agrees_outside_tail(s_zero, s2, list, 0));
                        assert(tail_ok(s2, list, 0)) by {
                            assert forall|p: int| 0 <= p < list.len()
                                implies cell_ok(s2, pcol(#[trigger] list[p]),
                                    prow(list[p])) by {
                                assert(editable_at(old(self)@, pcol(list[p]), prow(list[p])));
                                assert(editable_at(s2, pcol(list[p]), prow(list[p])));
                            }
                        }
                        assert(tail_completable(s_zero, list, 0));
                        assert(false);
                    }
                }
            }
            // The givens kept their values.
            assert forall|col: int, row: int|
                valid_pos(col, row) && !editable_at(old(self)@, col, row)
                implies (#[trigger] cell_at(sf, col, row)) == cell_at(old(self)@, col, row) by {
                assert(!in_tail(list, 0, col, row)) by {
                    if in_tail(list, 0, col, row) {
                        let p = choose|p: int|
                            0 <= p < list.len() && pcol(#[trigger] list[p]) == col
                                && prow(list[p]) == row;
                        assert(editable_at(old(self)@, col, row));
                        assert(false);
                    }
                }
                assert(cell_at(sf, col, row) == cell_at(s_zero, col, row));
            }
            if ok {
                // Every editable cell of the final board is clash-free.
                assert forall|col: int, row: int|
                    valid_pos(col, row) && editable_at(sf, col, row)
                    implies #[trigger] cell_ok(sf, col, row) by {
                    assert(editable_at(old(self)@, col, row));
                    assert(in_tail(list, 0, col, row));
                    let p = choose|p: int|
                        0 <= p < list.len() && pcol(#[trigger] list[p]) == col
                            && prow(list[p]) == row;
                    assert(cell_ok(sf, pcol(list[p]), prow(list[p])));
                }
                if givens_ok(old(self)@) {
                    lemma_givens_ok_transfer(old(self)@, sf);
                    lemma_parts_solved(sf);
                }
            } else {
                assert forall|col: int, row: int|
                    valid_pos(col, row) && editable_at(sf, col, row)
                    implies (#[trigger] cell_at(sf, col, row)) == 0 by {
                    assert(editable_at(old(self)@, col, row));
                    assert(in_tail(list, 0, col, row));
                    let p = choose|p: int|
                        0 <= p < list.len() && pcol(#[trigger] list[p]) == col
                            && prow(list[p]) == row;
                    assert(cell_at(sf, pcol(list[p]), prow(list[p])) == 0);
                }
            }
        }
        ok
    }

    /// Recursive depth-first search over the listed editable cells, from
    /// position `ind` on. Candidate values are tried in ascending order
    /// `1..=9`; the first non-conflicting value is placed and the search
    /// recurses; a placement that cannot be completed is undone. Returns
    /// true if and only if some assignment of the remaining listed cells is
    /// clash-free; on failure the board is left exactly as it was.
    #[verifier::loop_isolation(false)]
    #[verifier::rlimit(60)]
    fn backtrack(&mut self, ind: usize, empty_cells: &Vec<[usize; 2]>) -> (r: bool)
        requires
            grid_ok(old(self)@),
            ind <= empty_cells@.len(),
            list_ok(old(self)@, empty_cells@),
            tail_blank(old(self)@, empty_cells@, ind as int),
        ensures
            grid_ok(final(self)@),
            same_flags(old(self)@, final(self)@),
            forall|col: int, row: int|
                valid_pos(col, row) && !in_tail(empty_cells@, ind as int, col, row)
                    ==> (#[trigger] cell_at(final(self)@, col, row))
                        == cell_at(old(self)@, col, row),
            r == tail_completable(old(self)@, empty_cells@, ind as int),
            r ==> tail_ok(final(self)@, empty_cells@, ind as int),
            !r ==> final(self)@ == old(self)@,
        decreases empty_cells@.len() - ind,
    {
        if ind >= empty_cells.len() {
            proof {
                assert(agrees_outside_tail(self@, self@, empty_cells@, ind as int));
                assert(tail_completable(self@, empty_cells@, ind as int));
            }
            return true;
        }
        let pos = empty_cells[ind];
        let ghost pc = pcol(pos);
        let ghost pr = prow(pos);
        proof {
            assert(pos == empty_cells@[ind as int]);
            assert(valid_pos(pc, pr));
            assert(editable_at(old(self)@, pc, pr));
        }
        let mut v: u8 = 1;
        while v <= 9
            invariant
                1 <= v <= 10,
                grid_ok(self@),
                same_flags(old(self)@, self@),
                forall|col: int, row: int|
                    valid_pos(col, row) && !in_tail(empty_cells@, ind as int, col, row)
                        ==> (#[trigger] cell_at(self@, col, row))
                            == cell_at(old(self)@, col, row),
                tail_blank(self@, empty_cells@, ind as int + 1),
                forall|s2: Seq<Cell>|
                    (#[trigger] agrees_outside_tail(old(self)@, s2, empty_cells@, ind as int))
                        && grid_ok(s2) && tail_ok(s2, empty_cells@, ind as int)
                        ==> cell_at(s2, pc, pr) >= v,
            decreases 10 - v,
        {
            if !self.conflict(&pos, v) {
                let ghost s_before = self@;
                self.set(pos, v);
                let ghost s_set = self@;
                proof {
                    assert(editable_at(s_before, pc, pr));
                    assert(s_set == s_before.update(pos_index(pos),
                        (Cell { value: v, editable: true })));
                    lemma_update_at(s_before, pos, (Cell { value: v, editable: true }));
                    // The recursion's requirements.
                    assert forall|col: int, row: int| valid_pos(col, row)
                        implies (#[trigger] editable_at(s_set, col, row))
                            == editable_at(old(self)@, col, row) by {
                        if !(col == pc && row == pr) {
                            assert(editable_at(s_set, col, row) == editable_at(s_before, col, row));
                        }
                    }
                    assert(list_ok(s_set, empty_cells@)) by {
                        assert forall|p: int| 0 <= p < empty_cells@.len()
                            implies valid_pos(pcol(#[trigger] empty_cells@[p]),
                                prow(empty_cells@[p]))
                                && editable_at(s_set, pcol(empty_cells@[p]),
                                    prow(empty_cells@[p])) by {
                            assert(editable_at(old(self)@, pcol(empty_cells@[p]),
                                prow(empty_cells@[p])));
                        }
                    }
                    assert(tail_blank(s_set, empty_cells@, ind as int + 1)) by {
                        assert forall|p: int| ind as int + 1 <= p < empty_cells@.len()
                            implies cell_at(s_set, pcol(#[trigger] empty_cells@[p]),
                                prow(empty_cells@[p])) == 0 by {
                            assert(!(pcol(empty_cells@[p]) == pc && prow(empty_cells@[p]) == pr));
                            assert(cell_at(s_set, pcol(empty_cells@[p]), prow(empty_cells@[p]))
                                == cell_at(s_before, pcol(empty_cells@[p]),
                                    prow(empty_cells@[p])));
                        }
                    }
                }
                if self.backtrack(ind + 1, empty_cells) {
                    proof {
                        let sf = self@;
                        lemma_head_not_in_tail(s_set, empty_cells@, ind as int);
                        assert(cell_at(sf, pc, pr) == v);
                        // Every remaining listed cell is clash-free in the final board.
                        assert forall|p: int| ind as int <= p < empty_cells@.len()
                            implies cell_ok(sf, pcol(#[trigger] empty_cells@[p]),
                                prow(empty_cells@[p])) by {
                            if p > ind as int {
                                assert(cell_ok(sf, pcol(empty_cells@[p]), prow(empty_cells@[p])));
                            } else {
                                assert(!value_conflicts(sf, pc, pr, v)) by {
                                    if value_conflicts(sf, pc, pr, v) {
                                        let (c, r) = choose|c: int, r: int|
                                            valid_pos(c, r) && !(c == pc && r == pr)
                                                && same_unit(pc, pr, c, r)
                                                && (#[trigger] cell_at(sf, c, r)) == v;
                                        if in_tail(empty_cells@, ind as int + 1, c, r) {
                                            let q = choose|q: int|
                                                ind as int + 1 <= q < empty_cells@.len()
                                                    && pcol(#[trigger] empty_cells@[q]) == c
                                                    && prow(empty_cells@[q]) == r;
                                            assert(cell_ok(sf, c, r));
                                            assert(same_unit(c, r, pc, pr));
                                            assert(value_conflicts(sf, c, r, cell_at(sf, c, r)));
                                            assert(false);
                                        } else {
                                            assert(cell_at(sf, c, r) == cell_at(s_set, c, r));
                                            assert(cell_at(s_set, c, r) == cell_at(s_before, c, r));
                                            assert(value_conflicts(s_before, pc, pr, v));
                                            assert(false);
                                        }
                                    }
                                }
                                assert(cell_ok(sf, pc, pr));
                            }
                        }
                        assert(tail_ok(sf, empty_cells@, ind as int));
                        // The final board itself witnesses completability.
                        assert forall|col: int, row: int|
                            valid_pos(col, row) && !in_tail(empty_cells@, ind as int, col, row)
                            implies (#[trigger] cell_at(sf, col, row))
                                == cell_at(old(self)@, col, row) by {
                            assert(!(col == pc && row == pr));
                            assert(!in_tail(empty_cells@, ind as int + 1, col, row)) by {
                                if in_tail(empty_cells@, ind as int + 1, col, row) {
                                    let q = choose|q: int|
                                        ind as int + 1 <= q < empty_cells@.len()
                                            && pcol(#[trigger] empty_cells@[q]) == col
                                            && prow(empty_cells@[q]) == row;
                                    assert(ind as int <= q < empty_cells@.len());
                                    assert(false);
                                }
                            }
                            assert(cell_at(sf, col, row) == cell_at(s_set, col, row));
                            assert(cell_at(s_set, col, row) == cell_at(s_before, col, row));
                        }
                        assert(sf.len() == 81);
                        assert forall|col: int, row: int| valid_pos(col, row)
                            implies (#[trigger] editable_at(old(self)@, col, row))
                                == editable_at(sf, col, row) by {
                            assert(editable_at(s_set, col, row)
                                == editable_at(old(self)@, col, row));
                            assert(editable_at(s_set, col, row) == editable_at(sf, col, row));
                        }
                        assert(agrees_outside_tail(old(self)@, sf, empty_cells@, ind as int));
                        assert(tail_completable(old(self)@, empty_cells@, ind as int));
                    }
                    return true;
                }
                proof {
                    // The recursion failed and restored the board: no
                    // completion assigns `v` here.
                    assert(self@ == s_set);
                    assert forall|s2: Seq<Cell>|
                        (#[trigger] agrees_outside_tail(old(self)@, s2, empty_cells@,
                            ind as int))
                            && grid_ok(s2) && tail_ok(s2, empty_cells@, ind as int)
                        implies cell_at(s2, pc, pr) >= v + 1 by {
                        assert(cell_at(s2, pc, pr) >= v);
                        if cell_at(s2, pc, pr) == v {
                            assert forall|col: int, row: int|
                                valid_pos(col, row)
                                    && !in_tail(empty_cells@, ind as int + 1, col, row)
                                implies (#[trigger] cell_at(s2, col, row))
                                    == cell_at(s_set, col, row) by {
                                if col == pc && row == pr {
                                    assert(cell_at(s_set, pc, pr) == v);
                                } else if in_tail(empty_cells@, ind as int, col, row) {
                                    lemma_in_tail_step(empty_cells@, ind as int, col, row);
                                    assert(false);
                                } else {
                                    assert(cell_at(s2, col, row)
                                        == cell_at(old(self)@, col, row));
                                    assert(cell_at(s_set, col, row)
                                        == cell_at(s_before, col, row));
                                }
                            }
                            assert(agrees_outside_tail(s_set, s2, empty_cells@,
                                ind as int + 1));
                            assert(tail_ok(s2, empty_cells@, ind as int + 1));
                            assert(tail_completable(s_set, empty_cells@, ind as int + 1));
                            assert(false);
                        }
                    }
                }
            } else {
                proof {
                    // A conflicting value is assigned by no completion.
                    assert forall|s2: Seq<Cell>|
                        (#[trigger] agrees_outside_tail(old(self)@, s2, empty_cells@,
                            ind as int))
                            && grid_ok(s2) && tail_ok(s2, empty_cells@, ind as int)
                        implies cell_at(s2, pc, pr) >= v + 1 by {
                        assert(cell_at(s2, pc, pr) >= v);
                        if cell_at(s2, pc, pr) == v {
                            let (c, r) = choose|c: int, r: int|
                                valid_pos(c, r) && !(c == pc && r == pr)
                                    && same_unit(pc, pr, c, r)
                                    && (#[trigger] cell_at(self@, c, r)) == v;
                            if in_tail(empty_cells@, ind as int, c, r) {
                                lemma_in_tail_step(empty_cells@, ind as int, c, r);
                                let q = choose|q: int|
                                    ind as int + 1 <= q < empty_cells@.len()
                                        && pcol(#[trigger] empty_cells@[q]) == c
                                        && prow(empty_cells@[q]) == r;
                                assert(cell_at(self@, c, r) == 0);
                                assert(false);
                            } else {
                                assert(cell_at(self@, c, r) == cell_at(old(self)@, c, r));
                                assert(cell_at(s2, c, r) == cell_at(old(self)@, c, r));
                                assert(cell_ok(s2, pc, pr));
                                assert(value_conflicts(s2, pc, pr, cell_at(s2, pc, pr)));
                                assert(false);
                            }
                        }
                    }
                }
            }
            v = v + 1;
        }
        let ghost s_exit = self@;
        self.set(pos, 0);
        proof {
            // No candidate worked: no completion exists at all, and the
            // board is back in its starting state.
            assert(!tail_completable(old(self)@, empty_cells@, ind as int)) by {
                if tail_completable(old(self)@, empty_cells@, ind as int) {
                    let s2 = choose|s2: Seq<Cell>|
                        (#[trigger] agrees_outside_tail(old(self)@, s2, empty_cells@,
                            ind as int))
                            && grid_ok(s2) && tail_ok(s2, empty_cells@, ind as int);
                    assert(cell_ok(s2, pcol(empty_cells@[ind as int]),
                        prow(empty_cells@[ind as int])));
                    assert(cell_at(s2, pc, pr) >= 10);
                    assert(false);
                }
            }
            assert(editable_at(s_exit, pc, pr));
            assert(self@ == s_exit.update(pos_index(pos), (Cell { value: 0, editable: true })));
            lemma_update_at(s_exit, pos, (Cell { value: 0, editable: true }));
            assert forall|col: int, row: int| valid_pos(col, row)
                implies (#[trigger] cell_at(self@, col, row))
                    == cell_at(old(self)@, col, row) by {
                if col == pc && row == pr {
                    assert(cell_at(old(self)@, pc, pr) == 0);
                } else if in_tail(empty_cells@, ind as int, col, row) {
                    lemma_in_tail_step(empty_cells@, ind as int, col, row);
                    let q = choose|q: int|
                        ind as int + 1 <= q < empty_cells@.len()
                            && pcol(#[trigger] empty_cells@[q]) == col
                            && prow(empty_cells@[q]) == row;
                    assert(cell_at(s_exit, col, row) == 0);
                    assert(cell_at(old(self)@, col, row) == 0);
                    assert(cell_at(self@, col, row) == cell_at(s_exit, col, row));
                } else {
                    assert(cell_at(self@, col, row) == cell_at(s_exit, col, row));
                }
            }
            assert forall|col: int, row: int| valid_pos(col, row)
                implies (#[trigger] editable_at(old(self)@, col, row))
                    == editable_at(self@, col, row) by {
                if !(col == pc && row == pr) {
                    assert(editable_at(self@, col, row) == editable_at(s_exit, col, row));
                }
            }
            lemma_boards_eq(self@, old(self)@);
        }
        false
    }

    /// Retrieves editable information from the cell.
    pub fn is_editable(&self, ind: [usize; 2]) -> (r: bool)
        requires
            grid_ok(self@),
            valid_pos(pcol(ind), prow(ind)),
        ensures
            r == editable_at(self@, pcol(ind), prow(ind)),
    {
        self.cells[ind[1] * 9 + ind[0]].editable
    }

    /// Sets whether a cell is editable; the cell's value is untouched.
    pub fn set_editable(&mut self, ind: [usize; 2], editable: bool)
        requires
            grid_ok(old(self)@),
            valid_pos(pcol(ind), prow(ind)),
        ensures
            grid_ok(final(self)@),
            final(self)@ == old(self)@.update(pos_index(ind), (Cell {
                value: cell_at(old(self)@, pcol(ind), prow(ind)),
                editable: editable,
            })),
    {
        let i = ind[1] * 9 + ind[0];
        self.cells[i].editable = editable;
        proof {
            assert(final(self)@ =~= old(self)@.update(pos_index(ind), (Cell {
                value: cell_at(old(self)@, pcol(ind), prow(ind)),
                editable: editable,
            })));
            lemma_update_grid_ok(old(self)@, pos_index(ind), (Cell {
                value: cell_at(old(self)@, pcol(ind), prow(ind)),
                editable: editable,
            }));
        }
    }
}

} // verus!

