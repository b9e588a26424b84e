//! Minting keys for new states.

use crate::automaton::contains_key;
use crate::coordinate::Coordinate;
use crate::masks::lemma_pigeonhole;
use vstd::prelude::*;

verus! {

/// The number of cells of the grid on which new states are laid out: four
/// columns, and as many rows as fit.
pub const GRID_CELLS: u64 = 42_949_668;

/// The number of values of one component of a key.
pub const SPAN: u64 = 4_294_967_296;

/// The cell of the grid with number `t`: the columns are 300, 500, 700 and
/// 900, the rows start at 300 and lie 200 apart.
pub open spec fn grid_cell(t: int) -> Coordinate {
    Coordinate { x: (300 + 200 * (t % 4)) as i32, y: (300 + 200 * (t / 4)) as i32 }
}

/// The key with number `t` when all keys are counted row by row.
pub open spec fn any_cell(t: int) -> Coordinate {
    Coordinate { x: (t % 4_294_967_296 - 2_147_483_648) as i32, y: (t / 4_294_967_296 - 2_147_483_648) as i32 }
}

/// Whether `t` is the number of the first grid cell that is free.
pub open spec fn is_first_free_grid_cell(taken: Seq<Coordinate>, t: int) -> bool {
    &&& 0 <= t < GRID_CELLS
    &&& !taken.contains(grid_cell(t))
    &&& forall|u: int| 0 <= u < t ==> taken.contains(#[trigger] grid_cell(u))
}

/// Whether `t` is the number of the first key that is free.
pub open spec fn is_first_free_cell(taken: Seq<Coordinate>, t: int) -> bool {
    &&& 0 <= t
    &&& !taken.contains(any_cell(t))
    &&& forall|u: int| 0 <= u < t ==> taken.contains(#[trigger] any_cell(u))
}

/// Whether `c` is the key that is minted when the keys in `taken` are in
/// use: the first free cell of the grid, or, with the grid full, the first
/// free key.
pub open spec fn is_minted_key(taken: Seq<Coordinate>, c: Coordinate) -> bool {
    ||| exists|t: int| #[trigger] is_first_free_grid_cell(taken, t) && c == grid_cell(t)
    ||| (forall|t: int| 0 <= t < GRID_CELLS ==> taken.contains(#[trigger] grid_cell(t))) && exists|t: int| #[trigger]
        is_first_free_cell(taken, t) && c == any_cell(t)
}

/// The first keys, counted row by row, are all different.
proof fn lemma_cells_distinct(t: int)
    requires
        0 <= t <= 0x1_0000_0000_0000_0000,
    ensures
        Seq::new(t as nat, |u: int| any_cell(u)).no_duplicates(),
{
    let cells = Seq::new(t as nat, |u: int| any_cell(u));
    assert forall|i: int, j: int| 0 <= i < cells.len() && 0 <= j < cells.len() && i != j implies cells[i]
        != cells[j] by {
        let a = any_cell(i);
        let b = any_cell(j);
        assert(0 <= i % 4_294_967_296 < 4_294_967_296);
        assert(0 <= j % 4_294_967_296 < 4_294_967_296);
        assert(0 <= i / 4_294_967_296 < 4_294_967_296);
        assert(0 <= j / 4_294_967_296 < 4_294_967_296);
        assert(i == 4_294_967_296 * (i / 4_294_967_296) + i % 4_294_967_296);
        assert(j == 4_294_967_296 * (j / 4_294_967_296) + j % 4_294_967_296);
        if a == b {
            assert(i % 4_294_967_296 - 2_147_483_648 == j % 4_294_967_296 - 2_147_483_648);
            assert(i / 4_294_967_296 - 2_147_483_648 == j / 4_294_967_296 - 2_147_483_648);
        }
    }
}

/// The grid cell with number `t`.
fn grid_cell_at(t: u64) -> (c: Coordinate)
    requires
        t < GRID_CELLS,
    ensures
        c == grid_cell(t as int),
{
    let column: i32 = (t % 4) as i32;
    let row: i32 = (t / 4) as i32;
    Coordinate { x: 300 + 200 * column, y: 300 + 200 * row }
}

/// The key with number `t`, counted row by row.
fn any_cell_at(t: usize) -> (c: Coordinate)
    ensures
        c == any_cell(t as int),
{
    let number: u64 = t as u64;
    let low: i64 = (number % SPAN) as i64;
    let high: i64 = (number / SPAN) as i64;
    Coordinate { x: (low - 2_147_483_648) as i32, y: (high - 2_147_483_648) as i32 }
}

/// Mints a key that is not in use. New states are laid out on a grid, so
/// the key is the first free cell of the grid; only with every cell of the
/// grid in use it is the first free key altogether.
pub fn create_unique_state_coordinates(state_positions: &Vec<Coordinate>) -> (c: Coordinate)
    ensures
        !state_positions@.contains(c),
        is_minted_key(state_positions@, c),
{
    let ghost taken = state_positions@;
    let mut t: u64 = 0;
    while t < GRID_CELLS
        invariant
            taken == state_positions@,
            t <= GRID_CELLS,
            forall|u: int| 0 <= u < t ==> taken.contains(#[trigger] grid_cell(u)),
        decreases GRID_CELLS - t,
    {
        let cell = grid_cell_at(t);
        if !contains_key(state_positions, cell) {
            assert(is_first_free_grid_cell(taken, t as int));
            return cell;
        }
        t += 1;
    }
    let in_use = state_positions.len();
    let mut s: usize = 0;
    loop
        invariant
            taken == state_positions@,
            in_use == taken.len(),
            s <= taken.len(),
            forall|u: int| 0 <= u < GRID_CELLS ==> taken.contains(#[trigger] grid_cell(u)),
            forall|u: int| 0 <= u < s ==> taken.contains(#[trigger] any_cell(u)),
        decreases taken.len() - s,
    {
        let cell = any_cell_at(s);
        if !contains_key(state_positions, cell) {
            assert(is_first_free_cell(taken, s as int));
            return cell;
        }
        proof {
            let cells = Seq::new((s + 1) as nat, |u: int| any_cell(u));
            lemma_cells_distinct(s + 1);
            assert forall|i: int| 0 <= i < cells.len() implies taken.contains(#[trigger] cells[i]) by {
                assert(taken.contains(any_cell(i)));
            }
            lemma_pigeonhole(cells, taken);
        }
        s += 1;
    }
}

} // verus!
