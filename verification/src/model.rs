//! Mathematical model of a Sudoku grid.
//!
//! A grid of side `size` is a row-major sequence of `size * size` cells,
//! where `0` marks an empty cell and `1..=size` a placed digit.  The spec
//! functions here define the row/column/box occupancy checks, what it means
//! for a complete grid to be a solution of a partial grid, and the
//! conflict-freedom invariant that the search preserves.

use vstd::prelude::*;

verus! {

/// The integer part of the square root: the box side of a grid of side `n`.
pub open spec fn sqrt_floor(n: nat) -> nat
    decreases n,
{
    if n == 0 {
        0
    } else {
        let r = sqrt_floor((n - 1) as nat);
        if (r + 1) * (r + 1) <= n {
            (r + 1) as nat
        } else {
            r
        }
    }
}

/// `sqrt_floor(n)` is the greatest `b` with `b * b <= n`.
pub proof fn lemma_sqrt_floor(n: nat)
    ensures
        sqrt_floor(n) * sqrt_floor(n) <= n,
        n < (sqrt_floor(n) + 1) * (sqrt_floor(n) + 1),
    decreases n,
{
    let s = sqrt_floor(n);
    if n == 0 {
        assert(s * s <= n && n < (s + 1) * (s + 1)) by (nonlinear_arith)
            requires s == 0, n == 0,
        ;
    } else {
        lemma_sqrt_floor((n - 1) as nat);
        let r = sqrt_floor((n - 1) as nat);
        if (r + 1) * (r + 1) <= n {
            assert(s == r + 1);
            assert(s * s <= n && n < (s + 1) * (s + 1)) by (nonlinear_arith)
                requires
                    s == r + 1,
                    (r + 1) * (r + 1) <= n,
                    (n - 1) < (r + 1) * (r + 1),
            ;
        } else {
            assert(s == r);
            assert(s * s <= n && n < (s + 1) * (s + 1)) by (nonlinear_arith)
                requires
                    s == r,
                    r * r <= n - 1,
                    n < (r + 1) * (r + 1),
                    n >= 1,
            ;
        }
    }
}

/// Two values with the floor-square-root property of `n` are equal.
pub proof fn lemma_sqrt_floor_unique(n: nat, b: nat)
    requires
        b * b <= n,
        n < (b + 1) * (b + 1),
    ensures
        b == sqrt_floor(n),
{
    lemma_sqrt_floor(n);
    let s = sqrt_floor(n);
    if b < s {
        assert((b + 1) * (b + 1) <= s * s) by (nonlinear_arith)
            requires b + 1 <= s,
        ;
    }
    if s < b {
        assert((s + 1) * (s + 1) <= b * b) by (nonlinear_arith)
            requires s + 1 <= b,
        ;
    }
}

/// Cells `i` and `j` lie in the same row.
pub open spec fn same_row(size: nat, i: int, j: int) -> bool {
    i / size as int == j / size as int
}

/// Cells `i` and `j` lie in the same column.
pub open spec fn same_col(size: nat, i: int, j: int) -> bool {
    i % size as int == j % size as int
}

/// Cells `i` and `j` lie in the same box.  The box side is the integer
/// square root of `size`; for a perfect-square `size` the boxes partition
/// the grid, otherwise they cover only part of it.
pub open spec fn same_box(size: nat, i: int, j: int) -> bool {
    let b = sqrt_floor(size) as int;
    &&& (i / size as int) / b == (j / size as int) / b
    &&& (i % size as int) / b == (j % size as int) / b
}

/// Cells `i` and `j` share a row, a column or a box.
pub open spec fn same_unit(size: nat, i: int, j: int) -> bool {
    same_row(size, i, j) || same_col(size, i, j) || same_box(size, i, j)
}

/// `v` occurs somewhere in the row of cell `idx`.
pub open spec fn in_row(s: Seq<usize>, size: nat, idx: int, v: usize) -> bool {
    exists|j: int| 0 <= j < s.len() && #[trigger] same_row(size, idx, j) && s[j] == v
}

/// `v` occurs somewhere in the column of cell `idx`.
pub open spec fn in_col(s: Seq<usize>, size: nat, idx: int, v: usize) -> bool {
    exists|j: int| 0 <= j < s.len() && #[trigger] same_col(size, idx, j) && s[j] == v
}

/// `v` occurs somewhere in the box of cell `idx`.
pub open spec fn in_box(s: Seq<usize>, size: nat, idx: int, v: usize) -> bool {
    exists|j: int| 0 <= j < s.len() && #[trigger] same_box(size, idx, j) && s[j] == v
}

/// Placing `v` at the empty cell `idx` breaks no row, column or box rule.
pub open spec fn placeable(s: Seq<usize>, size: nat, idx: int, v: usize) -> bool {
    &&& !in_row(s, size, idx, v)
    &&& !in_col(s, size, idx, v)
    &&& !in_box(s, size, idx, v)
}

/// For a cell index inside the grid, its row and column are inside the side.
pub proof fn lemma_cell_pos(size: int, idx: int)
    requires
        1 <= size,
        0 <= idx < size * size,
    ensures
        0 <= idx / size < size,
        0 <= idx % size < size,
{
    vstd::arithmetic::div_mod::lemma_fundamental_div_mod(idx, size);
    vstd::arithmetic::div_mod::lemma_mod_bound(idx, size);
    assert(0 <= idx / size < size) by (nonlinear_arith)
        requires
            idx == size * (idx / size) + idx % size,
            0 <= idx % size < size,
            0 <= idx < size * size,
            1 <= size,
    ;
}

/// The cell at offset `x` of the row of `idx` lies in the grid and shares
/// the row of `idx`; its column is `x`.
pub proof fn lemma_coord_to_row(size: int, idx: int, x: int)
    requires
        1 <= size,
        0 <= idx < size * size,
        0 <= x < size,
    ensures
        ({
            let j = (idx / size) * size + x;
            &&& 0 <= j < size * size
            &&& same_row(size as nat, idx, j)
            &&& j % size == x
        }),
{
    let q = idx / size;
    lemma_cell_pos(size, idx);
    let j = q * size + x;
    vstd::arithmetic::div_mod::lemma_fundamental_div_mod_converse(j, size, q, x);
    assert(0 <= j < size * size) by (nonlinear_arith)
        requires
            j == q * size + x,
            0 <= q < size,
            0 <= x < size,
    ;
}

/// A cell in the row of `idx` is the cell at offset `j % size` of that row.
pub proof fn lemma_row_member(size: int, idx: int, j: int)
    requires
        1 <= size,
        0 <= idx < size * size,
        0 <= j < size * size,
        same_row(size as nat, idx, j),
    ensures
        j == (idx / size) * size + (j % size),
        0 <= j % size < size,
{
    lemma_cell_pos(size, j);
    vstd::arithmetic::div_mod::lemma_fundamental_div_mod(j, size);
    vstd::arithmetic::mul::lemma_mul_is_commutative(size, j / size);
}

/// The cell at row `y` of the column of `idx` lies in the grid and shares
/// the column of `idx`; its row is `y`.
pub proof fn lemma_coord_to_col(size: int, idx: int, y: int)
    requires
        1 <= size,
        0 <= idx < size * size,
        0 <= y < size,
    ensures
        ({
            let j = y * size + (idx % size);
            &&& 0 <= j < size * size
            &&& same_col(size as nat, idx, j)
            &&& j / size == y
        }),
{
    lemma_cell_pos(size, idx);
    let c = idx % size;
    let j = y * size + c;
    vstd::arithmetic::div_mod::lemma_fundamental_div_mod_converse(j, size, y, c);
    assert(0 <= j < size * size) by (nonlinear_arith)
        requires
            j == y * size + c,
            0 <= y < size,
            0 <= c < size,
    ;
}

/// A cell in the column of `idx` is the cell at row `j / size` of it.
pub proof fn lemma_col_member(size: int, idx: int, j: int)
    requires
        1 <= size,
        0 <= idx < size * size,
        0 <= j < size * size,
        same_col(size as nat, idx, j),
    ensures
        j == (j / size) * size + (idx % size),
        0 <= j / size < size,
{
    lemma_cell_pos(size, j);
    vstd::arithmetic::div_mod::lemma_fundamental_div_mod(j, size);
    vstd::arithmetic::mul::lemma_mul_is_commutative(size, j / size);
}

/// The cell at offset (`x`, `y`) of the box of `idx` lies in the grid and
/// shares the box of `idx`; its in-box offsets are `x` and `y`.
pub proof fn lemma_coord_to_box(size: int, idx: int, x: int, y: int)
    requires
        1 <= size,
        box_scan_in_range(size as nat),
        0 <= idx < size * size,
        0 <= x < sqrt_floor(size as nat),
        0 <= y < sqrt_floor(size as nat),
    ensures
        ({
            let b = sqrt_floor(size as nat) as int;
            let cx = (idx % size) / b * b + x;
            let cy = (idx / size) / b * b + y;
            let j = cy * size + cx;
            &&& 0 <= j < size * size
            &&& same_box(size as nat, idx, j)
            &&& (j / size) % b == y
            &&& (j % size) % b == x
        }),
{
    let b = sqrt_floor(size as nat) as int;
    lemma_cell_pos(size, idx);
    lemma_box_scan_bounds(size, idx, x, y);
    let cx = (idx % size) / b * b + x;
    let cy = (idx / size) / b * b + y;
    let j = cy * size + cx;
    vstd::arithmetic::div_mod::lemma_fundamental_div_mod_converse(j, size, cy, cx);
    vstd::arithmetic::div_mod::lemma_fundamental_div_mod_converse(cy, b, (idx / size) / b, y);
    vstd::arithmetic::div_mod::lemma_fundamental_div_mod_converse(cx, b, (idx % size) / b, x);
    assert(0 <= j < size * size) by (nonlinear_arith)
        requires
            j == cy * size + cx,
            0 <= cy < size,
            0 <= cx < size,
    ;
}

/// A cell in the box of `idx` is the cell at in-box offsets
/// (`(j % size) % b`, `(j / size) % b`) of that box.
pub proof fn lemma_box_member(size: int, idx: int, j: int)
    requires
        1 <= size,
        box_scan_in_range(size as nat),
        0 <= idx < size * size,
        0 <= j < size * size,
        same_box(size as nat, idx, j),
    ensures
        ({
            let b = sqrt_floor(size as nat) as int;
            let xx = (j % size) % b;
            let yy = (j / size) % b;
            &&& 0 <= xx < b
            &&& 0 <= yy < b
            &&& j == ((idx / size) / b * b + yy) * size + ((idx % size) / b * b + xx)
        }),
{
    let b = sqrt_floor(size as nat) as int;
    lemma_cell_pos(size, j);
    vstd::arithmetic::div_mod::lemma_fundamental_div_mod(j, size);
    vstd::arithmetic::mul::lemma_mul_is_commutative(size, j / size);
    vstd::arithmetic::div_mod::lemma_fundamental_div_mod(j / size, b);
    vstd::arithmetic::mul::lemma_mul_is_commutative(b, (j / size) / b);
    vstd::arithmetic::div_mod::lemma_fundamental_div_mod(j % size, b);
    vstd::arithmetic::mul::lemma_mul_is_commutative(b, (j % size) / b);
    vstd::arithmetic::div_mod::lemma_mod_bound(j / size, b);
    vstd::arithmetic::div_mod::lemma_mod_bound(j % size, b);
}

/// The coordinates visited by the box scan stay inside the grid side.
pub proof fn lemma_box_scan_bounds(size: int, idx: int, x: int, y: int)
    requires
        1 <= size,
        box_scan_in_range(size as nat),
        0 <= idx < size * size,
        0 <= x < sqrt_floor(size as nat),
        0 <= y < sqrt_floor(size as nat),
    ensures
        0 <= (idx % size) / (sqrt_floor(size as nat) as int) * (sqrt_floor(size as nat) as int) + x < size,
        0 <= (idx / size) / (sqrt_floor(size as nat) as int) * (sqrt_floor(size as nat) as int) + y < size,
{
    let b = sqrt_floor(size as nat) as int;
    lemma_cell_pos(size, idx);
    lemma_box_coord_bound(size, idx % size, b, x);
    lemma_box_coord_bound(size, idx / size, b, y);
}

/// One direction of the box-scan bound: a coordinate `c` inside the side
/// gives box offset `(c / b) * b + t < size` for every `t < b`.
proof fn lemma_box_coord_bound(size: int, c: int, b: int, t: int)
    requires
        1 <= size,
        b == sqrt_floor(size as nat) as int,
        box_scan_in_range(size as nat),
        0 <= c < size,
        0 <= t < b,
    ensures
        0 <= (c / b) * b + t < size,
{
    vstd::arithmetic::div_mod::lemma_div_is_ordered(c, size - 1, b);
    vstd::arithmetic::mul::lemma_mul_inequality(c / b, (size - 1) / b, b);
    vstd::arithmetic::div_mod::lemma_div_pos_is_pos(c, b);
    vstd::arithmetic::mul::lemma_mul_nonnegative(c / b, b);
}

/// The all-empty grid of side `size`.
pub open spec fn empty_grid(size: nat) -> Seq<usize> {
    Seq::new(size * size, |i: int| 0usize)
}

/// Every cell holds a digit.
pub open spec fn complete(s: Seq<usize>) -> bool {
    forall|i: int| 0 <= i < s.len() ==> s[i] != 0
}

/// `k` is the lowest-index empty cell of `s`.
pub open spec fn first_empty(s: Seq<usize>, k: int) -> bool {
    &&& 0 <= k < s.len()
    &&& s[k] == 0
    &&& forall|i: int| 0 <= i < k ==> s[i] != 0
}

/// The grid `g` with every cell below `k` replaced by the cell of `sol`.
pub open spec fn prefix_merge(g: Seq<usize>, sol: Seq<usize>, k: int) -> Seq<usize> {
    Seq::new(g.len(), |i: int| if i < k { sol[i] } else { g[i] })
}

/// `sol` is a grid that the backtracking search can reach from `g`: it is
/// complete, it keeps every filled cell of `g`, and it fills each empty
/// cell of `g` (taken in ascending index order) with a digit in `1..=size`
/// that passes the row/column/box check against the grid as it stands at
/// that step of the search.
pub open spec fn is_solution(g: Seq<usize>, sol: Seq<usize>, size: nat) -> bool {
    &&& sol.len() == g.len()
    &&& complete(sol)
    &&& forall|i: int| 0 <= i < g.len() && g[i] != 0 ==> sol[i] == g[i]
    &&& forall|i: int|
        0 <= i < g.len() && g[i] == 0 ==> 1 <= #[trigger] sol[i] <= size && placeable(
            prefix_merge(g, sol, i),
            size,
            i,
            sol[i],
        )
}

/// The grids differ first at position `i`, where `a` holds the smaller cell.
pub open spec fn lex_lt_at(a: Seq<usize>, b: Seq<usize>, i: int) -> bool {
    &&& 0 <= i < a.len()
    &&& i < b.len()
    &&& a[i] < b[i]
    &&& forall|j: int| 0 <= j < i ==> a[j] == b[j]
}

/// Lexicographic order on grids: the order in which the exhaustive search
/// emits its solutions.
pub open spec fn lex_lt(a: Seq<usize>, b: Seq<usize>) -> bool {
    exists|i: int| #[trigger] lex_lt_at(a, b, i)
}

/// No two distinct cells of a shared row, column or box hold the same
/// digit: the invariant the search preserves and generation must seed.
pub open spec fn valid_grid(s: Seq<usize>, size: nat) -> bool {
    forall|i: int, j: int|
        0 <= i < s.len() && 0 <= j < s.len() && i != j && #[trigger] same_unit(size, i, j) && s[i]
            != 0 ==> s[i] != s[j]
}

/// Placing an accepted digit on an empty cell keeps the grid conflict-free.
pub proof fn lemma_place_preserves_valid(s: Seq<usize>, size: nat, k: int, v: usize)
    requires
        valid_grid(s, size),
        0 <= k < s.len(),
        s[k] == 0,
        placeable(s, size, k, v),
        v != 0,
    ensures
        valid_grid(s.update(k, v), size),
{
    let t = s.update(k, v);
    assert forall|i: int, j: int|
        0 <= i < t.len() && 0 <= j < t.len() && i != j && #[trigger] same_unit(size, i, j) && t[i]
            != 0 implies t[i] != t[j] by {
        if i == k {
            if s[j] == v {
                if same_row(size, k, j) {
                    assert(in_row(s, size, k, v));
                } else if same_col(size, k, j) {
                    assert(in_col(s, size, k, v));
                } else {
                    assert(same_box(size, k, j));
                    assert(in_box(s, size, k, v));
                }
                assert(false);
            }
        } else if j == k {
            if s[i] == v {
                if same_row(size, i, k) {
                    assert(same_row(size, k, i));
                    assert(in_row(s, size, k, v));
                } else if same_col(size, i, k) {
                    assert(same_col(size, k, i));
                    assert(in_col(s, size, k, v));
                } else {
                    assert(same_box(size, i, k));
                    assert(same_box(size, k, i));
                    assert(in_box(s, size, k, v));
                }
                assert(false);
            }
        }
    }
}

/// `sol` occurs among the entries of `sols` at or after position `lo`.
pub open spec fn found_in(sols: Seq<Vec<usize>>, lo: int, sol: Seq<usize>) -> bool {
    exists|i: int| lo <= i < sols.len() && #[trigger] sols[i]@ == sol
}

/// An entry found in a list is still found after the list grows at the end.
pub proof fn lemma_found_in_extend(
    prev: Seq<Vec<usize>>,
    now: Seq<Vec<usize>>,
    lo: int,
    sol: Seq<usize>,
)
    requires
        prev.len() <= now.len(),
        forall|i: int| 0 <= i < prev.len() ==> now[i] == prev[i],
        found_in(prev, lo, sol),
        0 <= lo,
    ensures
        found_in(now, lo, sol),
{
    let wi = choose|i: int| lo <= i < prev.len() && #[trigger] prev[i]@ == sol;
    assert(now[wi]@ == sol);
}

/// The number of empty cells: the measure that backtracking decreases.
pub open spec fn num_zeros(s: Seq<usize>) -> nat
    decreases s.len(),
{
    if s.len() == 0 {
        0
    } else {
        num_zeros(s.drop_last()) + (if s.last() == 0 {
            1nat
        } else {
            0nat
        })
    }
}

/// Filling an empty cell lowers the number of empty cells by one.
pub proof fn lemma_num_zeros_update(s: Seq<usize>, k: int, v: usize)
    requires
        0 <= k < s.len(),
        s[k] == 0,
        v != 0,
    ensures
        num_zeros(s.update(k, v)) + 1 == num_zeros(s),
    decreases s.len(),
{
    let t = s.update(k, v);
    assert(t.len() == s.len());
    if k == s.len() - 1 {
        assert(t.drop_last() =~= s.drop_last());
        assert(t.last() == v);
    } else {
        assert(t.drop_last() =~= s.drop_last().update(k, v));
        assert(t.last() == s.last());
        lemma_num_zeros_update(s.drop_last(), k, v);
    }
}

/// A grid of empty cells has as many empty cells as cells.
pub proof fn lemma_num_zeros_all_empty(s: Seq<usize>)
    requires
        forall|i: int| 0 <= i < s.len() ==> s[i] == 0,
    ensures
        num_zeros(s) == s.len(),
    decreases s.len(),
{
    if s.len() > 0 {
        lemma_num_zeros_all_empty(s.drop_last());
    }
}

/// A complete grid is the only grid the search reaches from itself.
pub proof fn lemma_solution_complete(g: Seq<usize>, sol: Seq<usize>, size: nat)
    requires
        complete(g),
    ensures
        is_solution(g, sol, size) <==> sol == g,
{
    if is_solution(g, sol, size) {
        assert(sol =~= g);
    }
    if sol == g {
        assert(is_solution(g, sol, size));
    }
}

/// Filling the first empty cell of `g` with an accepted digit `v` refines
/// the search: the solutions of `g` whose cell `k` holds `v` are exactly
/// the solutions of `g` with `v` placed at `k`; and no solution of `g`
/// holds a rejected digit at `k`.
pub proof fn lemma_solution_step(g: Seq<usize>, sol: Seq<usize>, size: nat, k: int, v: usize)
    requires
        first_empty(g, k),
        1 <= v <= size,
    ensures
        (is_solution(g, sol, size) && sol[k] == v) <==> (placeable(g, size, k, v) && is_solution(
            g.update(k, v),
            sol,
            size,
        )),
{
    let g2 = g.update(k, v);
    if is_solution(g, sol, size) && sol[k] == v {
        assert(prefix_merge(g, sol, k) =~= g);
        assert(placeable(g, size, k, v));
        assert forall|i: int| 0 <= i < g2.len() && g2[i] != 0 implies sol[i] == g2[i] by {}
        assert forall|i: int| 0 <= i < g2.len() && g2[i] == 0 implies 1 <= #[trigger] sol[i] <= size
            && placeable(prefix_merge(g2, sol, i), size, i, sol[i]) by {
            assert(g[i] == 0 && i != k);
            assert(i > k);
            assert(prefix_merge(g2, sol, i) =~= prefix_merge(g, sol, i));
        }
        assert(is_solution(g2, sol, size));
    }
    if placeable(g, size, k, v) && is_solution(g2, sol, size) {
        assert(sol[k] == v);
        assert forall|i: int| 0 <= i < g.len() && g[i] != 0 implies sol[i] == g[i] by {
            assert(g2[i] == g[i]);
        }
        assert forall|i: int| 0 <= i < g.len() && g[i] == 0 implies 1 <= #[trigger] sol[i] <= size
            && placeable(prefix_merge(g, sol, i), size, i, sol[i]) by {
            if i == k {
                assert(prefix_merge(g, sol, k) =~= g);
            } else {
                assert(i > k);
                assert(g2[i] == 0);
                assert(prefix_merge(g2, sol, i) =~= prefix_merge(g, sol, i));
            }
        }
        assert(is_solution(g, sol, size));
    }
}

/// A grid with its first empty cell freshly filled and then cleared again
/// is the grid it was.
pub proof fn lemma_update_restore(g: Seq<usize>, k: int, v: usize)
    requires
        0 <= k < g.len(),
        g[k] == 0,
    ensures
        g.update(k, v).update(k, 0) == g,
{
    assert(g.update(k, v).update(k, 0) =~= g);
}

/// An ASCII digit byte.
pub open spec fn is_digit_byte(b: u8) -> bool {
    48 <= b <= 57
}

/// The cell values read from raw text: every ASCII digit in order, each
/// other byte skipped.
pub open spec fn parse_digits(s: Seq<u8>) -> Seq<usize>
    decreases s.len(),
{
    if s.len() == 0 {
        Seq::empty()
    } else {
        let rest = parse_digits(s.drop_last());
        if is_digit_byte(s.last()) {
            rest.push((s.last() - 48) as usize)
        } else {
            rest
        }
    }
}

/// The (index, value) clue records of a cell sequence: one entry per
/// nonzero cell, in cell order.
pub open spec fn clue_pairs(cells: Seq<usize>) -> Seq<(usize, usize)>
    decreases cells.len(),
{
    if cells.len() == 0 {
        Seq::empty()
    } else {
        let rest = clue_pairs(cells.drop_last());
        if cells.last() != 0 {
            rest.push(((cells.len() - 1) as usize, cells.last()))
        } else {
            rest
        }
    }
}

/// The box scan of the constraint checker visits cells of box row
/// `(idx / size) / b` and box column `(idx % size) / b`, `b` cells each way.
/// This condition says that such a scan stays inside the grid; it holds in
/// particular for every perfect-square `size`.
pub open spec fn box_scan_in_range(size: nat) -> bool {
    let b = sqrt_floor(size) as int;
    &&& b >= 1
    &&& ((size - 1) / b) * b + b <= size
}

} // verus!
