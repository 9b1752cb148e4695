//! The global laws of the engine: what the search guarantees about every
//! grid it returns, and why splitting the search at the first empty cell
//! (as the parallel enumeration does) loses and invents no solution.

use vstd::prelude::*;

use crate::model::{
    box_scan_in_range, complete, first_empty, in_box, in_col, in_row, is_solution, lemma_cell_pos,
    lemma_coord_to_box, lemma_coord_to_col, lemma_coord_to_row, lemma_place_preserves_valid,
    lemma_solution_step, placeable, prefix_merge, same_box, same_col, same_row, same_unit,
    sqrt_floor, valid_grid,
};

verus! {

/// A sequence of `m` pairwise distinct values drawn from `1..=m` covers
/// `1..=m`.
proof fn lemma_distinct_range_covers(vals: Seq<int>, m: int, v: int)
    requires
        vals.len() == m,
        forall|i: int| 0 <= i < m ==> 1 <= #[trigger] vals[i] <= m,
        forall|i: int, j: int| 0 <= i < m && 0 <= j < m && i != j ==> vals[i] != vals[j],
        1 <= v <= m,
    ensures
        exists|i: int| 0 <= i < m && #[trigger] vals[i] == v,
{
    broadcast use vstd::set::group_set_axioms;

    assert(vals.no_duplicates());
    vals.unique_seq_to_set();
    vstd::set_lib::lemma_int_range(1, m + 1);
    let range = vstd::set_lib::set_int_range(1, m + 1);
    if !vals.contains(v) {
        let smaller = range.remove(v);
        assert forall|e: int| vals.to_set().contains(e) implies smaller.contains(e) by {
            let wi = choose|i: int| 0 <= i < vals.len() && vals[i] == e;
            assert(1 <= e <= m);
            assert(e != v);
        }
        vstd::set_lib::lemma_len_subset(vals.to_set(), smaller);
        assert(false);
    }
    let wi = choose|i: int| 0 <= i < vals.len() && vals[i] == v;
    assert(vals[wi] == v);
}

/// The partial grids the search walks through from a conflict-free grid
/// stay conflict-free, step by step up to cell `k`.
proof fn lemma_prefix_valid(g: Seq<usize>, sol: Seq<usize>, size: nat, k: int)
    requires
        valid_grid(g, size),
        is_solution(g, sol, size),
        0 <= k <= g.len(),
    ensures
        valid_grid(prefix_merge(g, sol, k), size),
    decreases k,
{
    if k == 0 {
        assert(prefix_merge(g, sol, 0) =~= g);
    } else {
        lemma_prefix_valid(g, sol, size, k - 1);
        let p0 = prefix_merge(g, sol, k - 1);
        let p1 = prefix_merge(g, sol, k);
        if g[k - 1] == 0 {
            assert(1 <= sol[k - 1]);
            assert(p1 =~= p0.update(k - 1, sol[k - 1]));
            lemma_place_preserves_valid(p0, size, k - 1, sol[k - 1]);
        } else {
            assert(sol[k - 1] == g[k - 1]);
            assert(p1 =~= p0);
        }
    }
}

/// Validity of search results: every grid the search reaches from a
/// conflict-free grid with in-range clues is complete, conflict-free, and
/// holds only digits `1..=size`.  This covers each grid that the solver
/// leaves behind on success and each entry of the exhaustive enumeration.
pub proof fn lemma_solution_valid(g: Seq<usize>, sol: Seq<usize>, size: nat)
    requires
        valid_grid(g, size),
        forall|i: int| 0 <= i < g.len() && g[i] != 0 ==> 1 <= #[trigger] g[i] <= size,
        is_solution(g, sol, size),
    ensures
        complete(sol),
        valid_grid(sol, size),
        forall|i: int| 0 <= i < sol.len() ==> 1 <= #[trigger] sol[i] <= size,
{
    lemma_prefix_valid(g, sol, size, g.len() as int);
    assert(prefix_merge(g, sol, g.len() as int) =~= sol);
    assert forall|i: int| 0 <= i < sol.len() implies 1 <= #[trigger] sol[i] <= size by {
        if g[i] != 0 {
            assert(sol[i] == g[i]);
        }
    }
}

/// In a conflict-free complete grid with digits `1..=size`, each unit
/// holds each digit exactly once: conflict-freedom is the at-most-once
/// half, and this lemma gives the at-least-once half — every digit occurs
/// in the row and the column of every cell, and, when `size` is a perfect
/// square, in its box.
pub proof fn lemma_units_cover(s: Seq<usize>, size: nat, idx: int)
    requires
        size >= 1,
        s.len() == size * size,
        valid_grid(s, size),
        forall|i: int| 0 <= i < s.len() ==> 1 <= #[trigger] s[i] <= size,
        0 <= idx < size * size,
    ensures
        forall|v: usize| 1 <= v <= size ==> in_row(s, size, idx, v),
        forall|v: usize| 1 <= v <= size ==> in_col(s, size, idx, v),
        sqrt_floor(size) * sqrt_floor(size) == size ==> forall|v: usize|
            1 <= v <= size ==> in_box(s, size, idx, v),
{
    let n = size as int;
    let row_vals = Seq::new(size, |x: int| s[(idx / n) * n + x] as int);
    assert forall|x: int| 0 <= x < n implies 1 <= #[trigger] row_vals[x] <= n by {
        lemma_coord_to_row(n, idx, x);
    }
    assert forall|x1: int, x2: int|
        0 <= x1 < n && 0 <= x2 < n && x1 != x2 implies row_vals[x1] != row_vals[x2] by {
        lemma_coord_to_row(n, idx, x1);
        lemma_coord_to_row(n, idx, x2);
        let j1 = (idx / n) * n + x1;
        let j2 = (idx / n) * n + x2;
        assert(j1 != j2);
        assert(same_row(size, j1, j2));
        assert(same_unit(size, j1, j2));
    }
    assert forall|v: usize| 1 <= v <= size implies in_row(s, size, idx, v) by {
        lemma_distinct_range_covers(row_vals, n, v as int);
        let wx = choose|x: int| 0 <= x < n && #[trigger] row_vals[x] == v as int;
        lemma_coord_to_row(n, idx, wx);
        let j = (idx / n) * n + wx;
        assert(same_row(size, idx, j) && s[j] == v);
    }
    let col_vals = Seq::new(size, |y: int| s[y * n + idx % n] as int);
    assert forall|y: int| 0 <= y < n implies 1 <= #[trigger] col_vals[y] <= n by {
        lemma_coord_to_col(n, idx, y);
    }
    assert forall|y1: int, y2: int|
        0 <= y1 < n && 0 <= y2 < n && y1 != y2 implies col_vals[y1] != col_vals[y2] by {
        lemma_coord_to_col(n, idx, y1);
        lemma_coord_to_col(n, idx, y2);
        let j1 = y1 * n + idx % n;
        let j2 = y2 * n + idx % n;
        assert(j1 != j2);
        assert(same_col(size, j1, j2));
        assert(same_unit(size, j1, j2));
    }
    assert forall|v: usize| 1 <= v <= size implies in_col(s, size, idx, v) by {
        lemma_distinct_range_covers(col_vals, n, v as int);
        let wy = choose|y: int| 0 <= y < n && #[trigger] col_vals[y] == v as int;
        lemma_coord_to_col(n, idx, wy);
        let j = wy * n + idx % n;
        assert(same_col(size, idx, j) && s[j] == v);
    }
    if sqrt_floor(size) * sqrt_floor(size) == size {
        let b = sqrt_floor(size) as int;
        assert(b >= 1) by (nonlinear_arith)
            requires
                b * b == n,
                n >= 1,
                b >= 0,
        ;
        assert(box_scan_in_range(size)) by {
            vstd::arithmetic::div_mod::lemma_fundamental_div_mod(n - 1, b);
            vstd::arithmetic::mul::lemma_mul_is_commutative(b, (n - 1) / b);
            vstd::arithmetic::div_mod::lemma_mod_bound(n - 1, b);
            assert(((n - 1) / b) * b + b <= n) by (nonlinear_arith)
                requires
                    b >= 1,
                    b * b == n,
                    ((n - 1) / b) * b + (n - 1) % b == n - 1,
                    0 <= (n - 1) % b < b,
            ;
        }
        let box_vals = Seq::new(
            size,
            |t: int| s[((idx / n) / b * b + t / b) * n + ((idx % n) / b * b + t % b)] as int,
        );
        assert forall|t: int| 0 <= t < n implies 1 <= #[trigger] box_vals[t] <= n by {
            lemma_cell_pos(b, t);
            lemma_coord_to_box(n, idx, t % b, t / b);
        }
        assert forall|t1: int, t2: int|
            0 <= t1 < n && 0 <= t2 < n && t1 != t2 implies box_vals[t1] != box_vals[t2] by {
            lemma_cell_pos(b, t1);
            lemma_cell_pos(b, t2);
            lemma_coord_to_box(n, idx, t1 % b, t1 / b);
            lemma_coord_to_box(n, idx, t2 % b, t2 / b);
            let j1 = ((idx / n) / b * b + t1 / b) * n + ((idx % n) / b * b + t1 % b);
            let j2 = ((idx / n) / b * b + t2 / b) * n + ((idx % n) / b * b + t2 % b);
            vstd::arithmetic::div_mod::lemma_fundamental_div_mod(t1, b);
            vstd::arithmetic::div_mod::lemma_fundamental_div_mod(t2, b);
            assert(j1 != j2);
            assert(same_box(size, j1, j2));
            assert(same_unit(size, j1, j2));
        }
        assert forall|v: usize| 1 <= v <= size implies in_box(s, size, idx, v) by {
            lemma_distinct_range_covers(box_vals, n, v as int);
            let wt = choose|t: int| 0 <= t < n && #[trigger] box_vals[t] == v as int;
            lemma_cell_pos(b, wt);
            lemma_coord_to_box(n, idx, wt % b, wt / b);
            let j = ((idx / n) / b * b + wt / b) * n + ((idx % n) / b * b + wt % b);
            assert(same_box(size, idx, j) && s[j] == v);
        }
    }
}

/// Enumeration equivalence: a solution of a grid with first empty cell
/// `k` is exactly a solution of one of the grid's refinements — the grid
/// with one accepted digit placed at `k`.  The refinements are what
/// `candidate_boards` builds and what the parallel enumeration hands to
/// its workers, and they claim disjoint solution sets (each pins cell
/// `k`), so enumerating them in any order or in parallel yields exactly
/// the solutions of the original grid.
pub proof fn lemma_split_preserves_solutions(g: Seq<usize>, sol: Seq<usize>, size: nat, k: int)
    requires
        first_empty(g, k),
    ensures
        is_solution(g, sol, size) <==> exists|v: usize|
            1 <= v <= size && placeable(g, size, k, v) && sol[k] == v && #[trigger] is_solution(
                g.update(k, v),
                sol,
                size,
            ),
{
    if is_solution(g, sol, size) {
        let v = sol[k];
        assert(1 <= v <= size);
        lemma_solution_step(g, sol, size, k, v);
        assert(is_solution(g.update(k, v), sol, size));
    }
    if exists|v: usize|
        1 <= v <= size && placeable(g, size, k, v) && sol[k] == v && #[trigger] is_solution(
            g.update(k, v),
            sol,
            size,
        ) {
        let v = choose|v: usize|
            1 <= v <= size && placeable(g, size, k, v) && sol[k] == v && #[trigger] is_solution(
                g.update(k, v),
                sol,
                size,
            );
        lemma_solution_step(g, sol, size, k, v);
    }
}

} // verus!
