//! The Sudoku board and the verified engine that works on it.

use vstd::prelude::*;

use crate::model::{
    box_scan_in_range, complete, first_empty, in_box, in_col, in_row, is_solution,
    lemma_box_member, lemma_box_scan_bounds, lemma_cell_pos, lemma_col_member, lemma_coord_to_box,
    lemma_coord_to_col, lemma_coord_to_row, lemma_num_zeros_update, lemma_row_member,
    lemma_solution_complete, lemma_solution_step, lemma_sqrt_floor_unique, lemma_update_restore,
    clue_pairs, empty_grid, found_in, lemma_found_in_extend, lemma_num_zeros_all_empty,
    lemma_place_preserves_valid, lex_lt, lex_lt_at, num_zeros, parse_digits, placeable, same_box,
    same_col, same_row, sqrt_floor, valid_grid,
};

verus! {

/// A Sudoku board: a row-major grid of `size * size` cells, `0` for empty,
/// plus the record of the cells that were seeded as clues.
pub struct Board {
    pub size: usize,
    pub cells: Vec<usize>,
    /// Clue cells as (index, value) pairs, in the order they were seeded.
    pub fixed_cells: Vec<(usize, usize)>,
}

impl Board {
    /// Shape invariant: the cell vector matches the declared side length,
    /// and the box scan of the constraint checker stays inside the grid.
    pub open spec fn wf(self) -> bool {
        &&& self.size >= 1
        &&& self.cells@.len() == self.size * self.size
        &&& box_scan_in_range(self.size as nat)
    }

    /// Executable form of the shape invariant, for callers that receive a
    /// board from outside and must establish `wf` before using the engine.
    pub fn is_well_formed(&self) -> (r: bool)
        ensures
            r == self.wf(),
    {
        if self.size == 0 {
            return false;
        }
        let len = self.cells.len();
        if !(len / self.size == self.size && len % self.size == 0) {
            proof {
                vstd::std_specs::vec::axiom_spec_len(&self.cells);
                if self.cells@.len() == self.size * self.size {
                    vstd::arithmetic::div_mod::lemma_fundamental_div_mod_converse(
                        len as int,
                        self.size as int,
                        self.size as int,
                        0,
                    );
                }
            }
            return false;
        }
        proof {
            vstd::std_specs::vec::axiom_spec_len(&self.cells);
            vstd::arithmetic::div_mod::lemma_fundamental_div_mod(len as int, self.size as int);
            vstd::arithmetic::mul::lemma_mul_is_commutative(self.size as int, (len / self.size) as int);
            assert(self.cells@.len() == self.size * self.size);
        }
        box_scan_fits(self.size)
    }

    /// Converts (column, row) coordinates to the linear cell index.
    pub fn index(&self, x: usize, y: usize) -> (idx: usize)
        requires
            self.wf(),
            x < self.size,
            y < self.size,
        ensures
            idx == y * self.size + x,
            idx < self.size * self.size,
    {
        proof {
            vstd::std_specs::vec::axiom_spec_len(&self.cells);
            assert(y * self.size + x < self.size * self.size) by (nonlinear_arith)
                requires x < self.size, y < self.size,
            ;
        }
        y * self.size + x
    }

    /// Does `value` already occur in the row of cell `idx`?
    pub fn exists_in_row(&self, idx: usize, value: usize) -> (r: bool)
        requires
            self.wf(),
            idx < self.size * self.size,
        ensures
            r == in_row(self.cells@, self.size as nat, idx as int, value),
    {
        let ghost n = self.size as int;
        let ghost s = self.cells@;
        proof {
            lemma_cell_pos(n, idx as int);
        }
        let row = idx / self.size;
        let mut x: usize = 0;
        while x < self.size
            invariant
                self.wf(),
                idx < self.size * self.size,
                n == self.size as int,
                s == self.cells@,
                row == idx as int / n,
                row < self.size,
                x <= self.size,
                forall|j: int|
                    0 <= j < s.len() && #[trigger] same_row(self.size as nat, idx as int, j) && j
                        % n < x ==> s[j] != value,
            decreases self.size - x,
        {
            let current_idx = self.index(x, row);
            proof {
                lemma_coord_to_row(n, idx as int, x as int);
            }
            if self.cells[current_idx] == value {
                return true;
            }
            proof {
                assert forall|j: int|
                    0 <= j < s.len() && #[trigger] same_row(self.size as nat, idx as int, j) && j
                        % n < x + 1 implies s[j] != value by {
                    if j % n == x {
                        lemma_row_member(n, idx as int, j);
                    }
                }
            }
            x = x + 1;
        }
        proof {
            assert forall|j: int|
                0 <= j < s.len() && #[trigger] same_row(self.size as nat, idx as int, j) implies s[j]
                != value by {
                vstd::arithmetic::div_mod::lemma_mod_bound(j, n);
            }
        }
        false
    }

    /// Does `value` already occur in the column of cell `idx`?
    pub fn exists_in_column(&self, idx: usize, value: usize) -> (r: bool)
        requires
            self.wf(),
            idx < self.size * self.size,
        ensures
            r == in_col(self.cells@, self.size as nat, idx as int, value),
    {
        let ghost n = self.size as int;
        let ghost s = self.cells@;
        proof {
            lemma_cell_pos(n, idx as int);
        }
        let column = idx % self.size;
        let mut y: usize = 0;
        while y < self.size
            invariant
                self.wf(),
                idx < self.size * self.size,
                n == self.size as int,
                s == self.cells@,
                column == idx as int % n,
                column < self.size,
                y <= self.size,
                forall|j: int|
                    0 <= j < s.len() && #[trigger] same_col(self.size as nat, idx as int, j) && j
                        / n < y ==> s[j] != value,
            decreases self.size - y,
        {
            let current_idx = self.index(column, y);
            proof {
                lemma_coord_to_col(n, idx as int, y as int);
            }
            if self.cells[current_idx] == value {
                return true;
            }
            proof {
                assert forall|j: int|
                    0 <= j < s.len() && #[trigger] same_col(self.size as nat, idx as int, j) && j
                        / n < y + 1 implies s[j] != value by {
                    if j / n == y {
                        lemma_col_member(n, idx as int, j);
                    }
                }
            }
            y = y + 1;
        }
        proof {
            assert forall|j: int|
                0 <= j < s.len() && #[trigger] same_col(self.size as nat, idx as int, j) implies s[j]
                != value by {
                lemma_cell_pos(n, j);
            }
        }
        false
    }

    /// Does `value` already occur in the box of cell `idx`?
    pub fn exists_in_box(&self, idx: usize, value: usize) -> (r: bool)
        requires
            self.wf(),
            idx < self.size * self.size,
        ensures
            r == in_box(self.cells@, self.size as nat, idx as int, value),
    {
        let ghost n = self.size as int;
        let ghost s = self.cells@;
        let box_size = int_sqrt(self.size);
        let ghost b = box_size as int;
        proof {
            lemma_cell_pos(n, idx as int);
        }
        let box_row = (idx / self.size) / box_size;
        let box_col = (idx % self.size) / box_size;
        let mut y: usize = 0;
        while y < box_size
            invariant
                self.wf(),
                idx < self.size * self.size,
                n == self.size as int,
                s == self.cells@,
                box_size == sqrt_floor(self.size as nat),
                b == box_size as int,
                box_row == (idx as int / n) / b,
                box_col == (idx as int % n) / b,
                y <= box_size,
                forall|j: int|
                    0 <= j < s.len() && #[trigger] same_box(self.size as nat, idx as int, j) && (j
                        / n) % b < y ==> s[j] != value,
            decreases box_size - y,
        {
            let mut x: usize = 0;
            while x < box_size
                invariant
                    self.wf(),
                    idx < self.size * self.size,
                    n == self.size as int,
                    s == self.cells@,
                    box_size == sqrt_floor(self.size as nat),
                    b == box_size as int,
                    box_row == (idx as int / n) / b,
                    box_col == (idx as int % n) / b,
                    y < box_size,
                    x <= box_size,
                    forall|j: int|
                        0 <= j < s.len() && #[trigger] same_box(self.size as nat, idx as int, j)
                            && (j / n) % b < y ==> s[j] != value,
                    forall|j: int|
                        0 <= j < s.len() && #[trigger] same_box(self.size as nat, idx as int, j)
                            && (j / n) % b == y && (j % n) % b < x ==> s[j] != value,
                decreases box_size - x,
            {
                proof {
                    lemma_box_scan_bounds(n, idx as int, x as int, y as int);
                }
                let current_x = box_col * box_size + x;
                let current_y = box_row * box_size + y;
                let current_idx = self.index(current_x, current_y);
                proof {
                    lemma_coord_to_box(n, idx as int, x as int, y as int);
                }
                if self.cells[current_idx] == value {
                    return true;
                }
                proof {
                    assert forall|j: int|
                        0 <= j < s.len() && #[trigger] same_box(self.size as nat, idx as int, j)
                            && (j / n) % b == y && (j % n) % b < x + 1 implies s[j] != value by {
                        if (j % n) % b == x {
                            lemma_box_member(n, idx as int, j);
                        }
                    }
                }
                x = x + 1;
            }
            proof {
                assert forall|j: int|
                    0 <= j < s.len() && #[trigger] same_box(self.size as nat, idx as int, j) && (j
                        / n) % b < y + 1 implies s[j] != value by {
                    if (j / n) % b == y {
                        vstd::arithmetic::div_mod::lemma_mod_bound(j % n, b);
                    }
                }
            }
            y = y + 1;
        }
        proof {
            assert forall|j: int|
                0 <= j < s.len() && #[trigger] same_box(self.size as nat, idx as int, j) implies s[j]
                != value by {
                vstd::arithmetic::div_mod::lemma_mod_bound(j / n, b);
            }
        }
        false
    }

    /// Is placing `value` at cell `idx` allowed by the row, column and box
    /// rules?  Read-only: the cell itself is not inspected, so this is
    /// meaningful only for an empty cell.
    pub fn check_if_valid(&self, idx: usize, value: usize) -> (r: bool)
        requires
            self.wf(),
            idx < self.size * self.size,
        ensures
            r == placeable(self.cells@, self.size as nat, idx as int, value),
    {
        !self.exists_in_row(idx, value) && !self.exists_in_column(idx, value) && !self.exists_in_box(
            idx,
            value,
        )
    }

    /// Solves the board in place by depth-first backtracking: the lowest
    /// empty cell is tried with digits in ascending order, each accepted
    /// digit is recursed into, and a failed branch is undone.  On success
    /// the board holds the lexicographically least reachable solution —
    /// the first one in search order, so the result is deterministic; on
    /// failure the board is exactly as it was passed in, and no solution
    /// exists at all.
    pub fn solve_brute_force(&mut self) -> (r: bool)
        requires
            old(self).wf(),
        ensures
            final(self).wf(),
            final(self).size == old(self).size,
            final(self).fixed_cells@ == old(self).fixed_cells@,
            r ==> is_solution(old(self).cells@, final(self).cells@, old(self).size as nat),
            r ==> forall|sol: Seq<usize>|
                #[trigger] is_solution(old(self).cells@, sol, old(self).size as nat)
                    ==> (final(self).cells@ == sol || lex_lt(final(self).cells@, sol)),
            !r ==> final(self).cells@ == old(self).cells@,
            !r ==> forall|sol: Seq<usize>|
                !is_solution(old(self).cells@, sol, old(self).size as nat),
            complete(old(self).cells@) ==> r && final(self).cells@ == old(self).cells@,
        decreases num_zeros(old(self).cells@),
    {
        let ghost g = self.cells@;
        let ghost size_n = self.size as nat;
        let ghost fixed0 = self.fixed_cells@;
        proof {
            vstd::std_specs::vec::axiom_spec_len(&self.cells);
            assert(self.size < usize::MAX) by (nonlinear_arith)
                requires
                    self.size >= 1,
                    self.size * self.size <= usize::MAX,
                    usize::MAX >= 3,
            ;
        }
        let n = self.cells.len();
        let mut idx: usize = 0;
        while idx < n
            invariant
                self.wf(),
                n == self.cells@.len(),
                g == self.cells@,
                g == old(self).cells@,
                size_n == self.size as nat,
                self.size == old(self).size,
                fixed0 == self.fixed_cells@,
                fixed0 == old(self).fixed_cells@,
                self.size < usize::MAX,
                idx <= n,
                forall|i: int| 0 <= i < idx ==> g[i] != 0,
            decreases n - idx,
        {
            if self.cells[idx] == 0 {
                proof {
                    assert(first_empty(g, idx as int));
                }
                let mut value: usize = 1;
                while value <= self.size
                    invariant
                        self.wf(),
                        g == self.cells@,
                        g == old(self).cells@,
                        size_n == self.size as nat,
                        self.size == old(self).size,
                        fixed0 == self.fixed_cells@,
                        fixed0 == old(self).fixed_cells@,
                        self.size < usize::MAX,
                        first_empty(g, idx as int),
                        idx < self.size * self.size,
                        1 <= value <= self.size + 1,
                        forall|sol: Seq<usize>|
                            #[trigger] is_solution(g, sol, size_n) ==> !(sol[idx as int] < value),
                    decreases self.size + 1 - value,
                {
                    if self.check_if_valid(idx, value) {
                        self.cells.set(idx, value);
                        proof {
                            lemma_num_zeros_update(g, idx as int, value);
                        }
                        if self.solve_brute_force() {
                            proof {
                                let res = self.cells@;
                                lemma_solution_step(g, res, size_n, idx as int, value);
                                assert(res[idx as int] == value);
                                assert forall|sol: Seq<usize>| #[trigger]
                                    is_solution(g, sol, size_n) implies (res == sol || lex_lt(
                                    res,
                                    sol,
                                )) by {
                                    if sol[idx as int] == value {
                                        lemma_solution_step(g, sol, size_n, idx as int, value);
                                    } else {
                                        assert(sol[idx as int] > value);
                                        assert forall|m: int| 0 <= m < idx implies res[m]
                                            == sol[m] by {
                                            assert(g[m] != 0);
                                        }
                                        assert(lex_lt_at(res, sol, idx as int));
                                    }
                                }
                            }
                            return true;
                        }
                        self.cells.set(idx, 0);
                        proof {
                            lemma_update_restore(g, idx as int, value);
                            assert forall|sol: Seq<usize>| #[trigger]
                                is_solution(g, sol, size_n) implies sol[idx as int] != value by {
                                lemma_solution_step(g, sol, size_n, idx as int, value);
                            }
                        }
                    } else {
                        proof {
                            assert forall|sol: Seq<usize>| #[trigger]
                                is_solution(g, sol, size_n) implies sol[idx as int] != value by {
                                lemma_solution_step(g, sol, size_n, idx as int, value);
                            }
                        }
                    }
                    value = value + 1;
                }
                proof {
                    assert forall|sol: Seq<usize>| !is_solution(g, sol, size_n) by {
                        if is_solution(g, sol, size_n) {
                            assert(1 <= sol[idx as int] <= size_n);
                        }
                    }
                }
                return false;
            }
            idx = idx + 1;
        }
        proof {
            assert(complete(g));
            lemma_solution_complete(g, g, size_n);
            assert forall|sol: Seq<usize>| #[trigger]
                is_solution(g, sol, size_n) implies self.cells@ == sol by {
                lemma_solution_complete(g, sol, size_n);
            }
        }
        true
    }

    /// Recursive helper of the exhaustive search: appends to `solutions`,
    /// in ascending lexicographic order, every solution reachable from the
    /// current board, and leaves the board as it found it.
    fn solve_all_recursive(&mut self, solutions: &mut Vec<Vec<usize>>)
        requires
            old(self).wf(),
        ensures
            final(self).wf(),
            final(self).size == old(self).size,
            final(self).cells@ == old(self).cells@,
            final(self).fixed_cells@ == old(self).fixed_cells@,
            final(solutions)@.len() >= old(solutions)@.len(),
            forall|i: int|
                0 <= i < old(solutions)@.len() ==> #[trigger] final(solutions)@[i] == old(
                    solutions,
                )@[i],
            forall|i: int|
                old(solutions)@.len() <= i < final(solutions)@.len() ==> is_solution(
                    old(self).cells@,
                    #[trigger] final(solutions)@[i]@,
                    old(self).size as nat,
                ),
            forall|sol: Seq<usize>|
                #[trigger] is_solution(old(self).cells@, sol, old(self).size as nat) ==> found_in(
                    final(solutions)@,
                    old(solutions)@.len() as int,
                    sol,
                ),
            forall|i: int, j: int|
                old(solutions)@.len() <= i < j < final(solutions)@.len() ==> #[trigger] lex_lt(
                    final(solutions)@[i]@,
                    final(solutions)@[j]@,
                ),
        decreases num_zeros(old(self).cells@),
    {
        let ghost g = self.cells@;
        let ghost size_n = self.size as nat;
        let ghost fixed0 = self.fixed_cells@;
        let ghost base = solutions@;
        proof {
            vstd::std_specs::vec::axiom_spec_len(&self.cells);
            assert(self.size < usize::MAX) by (nonlinear_arith)
                requires
                    self.size >= 1,
                    self.size * self.size <= usize::MAX,
                    usize::MAX >= 3,
            ;
        }
        let n = self.cells.len();
        let mut idx: usize = 0;
        while idx < n
            invariant
                self.wf(),
                n == self.cells@.len(),
                g == self.cells@,
                g == old(self).cells@,
                size_n == self.size as nat,
                self.size == old(self).size,
                fixed0 == self.fixed_cells@,
                fixed0 == old(self).fixed_cells@,
                base == solutions@,
                base == old(solutions)@,
                self.size < usize::MAX,
                idx <= n,
                forall|i: int| 0 <= i < idx ==> g[i] != 0,
            decreases n - idx,
        {
            if self.cells[idx] == 0 {
                proof {
                    assert(first_empty(g, idx as int));
                }
                let mut value: usize = 1;
                while value <= self.size
                    invariant
                        self.wf(),
                        g == self.cells@,
                        g == old(self).cells@,
                        size_n == self.size as nat,
                        self.size == old(self).size,
                        fixed0 == self.fixed_cells@,
                        fixed0 == old(self).fixed_cells@,
                        base == old(solutions)@,
                        self.size < usize::MAX,
                        first_empty(g, idx as int),
                        idx < self.size * self.size,
                        1 <= value <= self.size + 1,
                        solutions@.len() >= base.len(),
                        forall|i: int|
                            0 <= i < base.len() ==> #[trigger] solutions@[i] == base[i],
                        forall|i: int|
                            base.len() <= i < solutions@.len() ==> is_solution(
                                g,
                                #[trigger] solutions@[i]@,
                                size_n,
                            ) && solutions@[i]@[idx as int] < value,
                        forall|sol: Seq<usize>|
                            #[trigger] is_solution(g, sol, size_n) && sol[idx as int] < value
                                ==> found_in(solutions@, base.len() as int, sol),
                        forall|i: int, j: int|
                            base.len() <= i < j < solutions@.len() ==> #[trigger] lex_lt(
                                solutions@[i]@,
                                solutions@[j]@,
                            ),
                    decreases self.size + 1 - value,
                {
                    let ghost prev = solutions@;
                    if self.check_if_valid(idx, value) {
                        self.cells.set(idx, value);
                        proof {
                            lemma_num_zeros_update(g, idx as int, value);
                        }
                        self.solve_all_recursive(solutions);
                        self.cells.set(idx, 0);
                        proof {
                            lemma_update_restore(g, idx as int, value);
                            let now = solutions@;
                            let gv = g.update(idx as int, value);
                            assert forall|i: int| base.len() <= i < now.len() implies is_solution(
                                g,
                                #[trigger] now[i]@,
                                size_n,
                            ) && now[i]@[idx as int] < value + 1 by {
                                if i < prev.len() {
                                    assert(now[i] == prev[i]);
                                } else {
                                    lemma_solution_step(g, now[i]@, size_n, idx as int, value);
                                }
                            }
                            assert forall|sol: Seq<usize>|
                                #[trigger] is_solution(g, sol, size_n) && sol[idx as int] < value
                                    + 1 implies found_in(now, base.len() as int, sol) by {
                                if sol[idx as int] < value {
                                    lemma_found_in_extend(prev, now, base.len() as int, sol);
                                } else {
                                    lemma_solution_step(g, sol, size_n, idx as int, value);
                                    assert(is_solution(gv, sol, size_n));
                                    assert(found_in(now, prev.len() as int, sol));
                                    let wi = choose|i: int|
                                        prev.len() <= i < now.len() && #[trigger] now[i]@ == sol;
                                    assert(base.len() <= wi < now.len() && now[wi]@ == sol);
                                }
                            }
                            assert forall|i: int, j: int|
                                base.len() <= i < j < now.len() implies #[trigger] lex_lt(
                                now[i]@,
                                now[j]@,
                            ) by {
                                if j < prev.len() {
                                    assert(now[i] == prev[i] && now[j] == prev[j]);
                                } else if i >= prev.len() {
                                } else {
                                    assert(now[i] == prev[i]);
                                    let a = now[i]@;
                                    let b = now[j]@;
                                    lemma_solution_step(g, b, size_n, idx as int, value);
                                    assert(is_solution(g, a, size_n) && a[idx as int] < value);
                                    assert(is_solution(g, b, size_n) && b[idx as int] == value);
                                    assert forall|m: int| 0 <= m < idx implies a[m] == b[m] by {
                                        assert(g[m] != 0);
                                    }
                                    assert(lex_lt_at(a, b, idx as int));
                                }
                            }
                        }
                    } else {
                        proof {
                            assert forall|sol: Seq<usize>|
                                #[trigger] is_solution(g, sol, size_n) && sol[idx as int] < value
                                    + 1 implies found_in(solutions@, base.len() as int, sol) by {
                                lemma_solution_step(g, sol, size_n, idx as int, value);
                            }
                        }
                    }
                    value = value + 1;
                }
                proof {
                    assert forall|sol: Seq<usize>| #[trigger]
                        is_solution(g, sol, size_n) implies found_in(
                        solutions@,
                        base.len() as int,
                        sol,
                    ) by {
                        assert(1 <= sol[idx as int] <= size_n);
                    }
                }
                return ;
            }
            idx = idx + 1;
        }
        let snapshot = copy_vec(&self.cells);
        solutions.push(snapshot);
        proof {
            assert(complete(g));
            let now = solutions@;
            assert(now[base.len() as int]@ == g);
            assert forall|sol: Seq<usize>| #[trigger] is_solution(g, sol, size_n) implies found_in(
                now,
                base.len() as int,
                sol,
            ) by {
                lemma_solution_complete(g, sol, size_n);
                assert(now[base.len() as int]@ == sol);
            }
            assert forall|i: int| base.len() <= i < now.len() implies is_solution(
                g,
                #[trigger] now[i]@,
                size_n,
            ) by {
                lemma_solution_complete(g, now[i]@, size_n);
            }
        }
    }

    /// The lowest-index empty cell, if any: the branch point of the
    /// search, and the cell on which the parallel enumeration splits.
    pub fn find_first_empty(&self) -> (r: Option<usize>)
        requires
            self.wf(),
        ensures
            r is Some ==> first_empty(self.cells@, r->Some_0 as int) && r->Some_0 < self.size
                * self.size,
            r is None ==> complete(self.cells@),
    {
        let mut idx: usize = 0;
        while idx < self.cells.len()
            invariant
                self.wf(),
                idx <= self.cells@.len(),
                forall|i: int| 0 <= i < idx ==> self.cells@[i] != 0,
            decreases self.cells@.len() - idx,
        {
            if self.cells[idx] == 0 {
                return Some(idx);
            }
            idx = idx + 1;
        }
        None
    }

    /// One child board per digit accepted at the first empty cell `idx`,
    /// in ascending digit order: the independent clones whose subtrees the
    /// parallel enumeration hands to its workers.  Together with
    /// `lemma_split_preserves_solutions`, their solution sets partition
    /// the solutions of this board.
    pub fn candidate_boards(&self, idx: usize) -> (tasks: Vec<Board>)
        requires
            self.wf(),
            first_empty(self.cells@, idx as int),
        ensures
            forall|t: int|
                0 <= t < tasks@.len() ==> {
                    let bd = #[trigger] tasks@[t];
                    &&& bd.wf()
                    &&& bd.size == self.size
                    &&& bd.fixed_cells@ == self.fixed_cells@
                    &&& 1 <= bd.cells@[idx as int] <= self.size
                    &&& placeable(self.cells@, self.size as nat, idx as int, bd.cells@[idx as int])
                    &&& bd.cells@ == self.cells@.update(idx as int, bd.cells@[idx as int])
                },
            forall|v: usize|
                1 <= v <= self.size && placeable(self.cells@, self.size as nat, idx as int, v)
                    ==> exists|t: int|
                    0 <= t < tasks@.len() && (#[trigger] tasks@[t]).cells@ == self.cells@.update(
                        idx as int,
                        v,
                    ),
            forall|t1: int, t2: int|
                0 <= t1 < t2 < tasks@.len() ==> (#[trigger] tasks@[t1]).cells@[idx as int] < (
                #[trigger] tasks@[t2]).cells@[idx as int],
    {
        let ghost g = self.cells@;
        proof {
            vstd::std_specs::vec::axiom_spec_len(&self.cells);
            assert(self.size < usize::MAX) by (nonlinear_arith)
                requires
                    self.size >= 1,
                    self.size * self.size <= usize::MAX,
                    usize::MAX >= 3,
            ;
        }
        let mut tasks: Vec<Board> = Vec::new();
        let mut value: usize = 1;
        while value <= self.size
            invariant
                self.wf(),
                g == self.cells@,
                first_empty(g, idx as int),
                idx < self.size * self.size,
                self.size < usize::MAX,
                1 <= value <= self.size + 1,
                forall|t: int|
                    0 <= t < tasks@.len() ==> {
                        let bd = #[trigger] tasks@[t];
                        &&& bd.wf()
                        &&& bd.size == self.size
                        &&& bd.fixed_cells@ == self.fixed_cells@
                        &&& 1 <= bd.cells@[idx as int] < value
                        &&& placeable(g, self.size as nat, idx as int, bd.cells@[idx as int])
                        &&& bd.cells@ == g.update(idx as int, bd.cells@[idx as int])
                    },
                forall|v: usize|
                    1 <= v < value && placeable(g, self.size as nat, idx as int, v) ==> exists|
                        t: int,
                    |
                        0 <= t < tasks@.len() && (#[trigger] tasks@[t]).cells@ == g.update(
                            idx as int,
                            v,
                        ),
                forall|t1: int, t2: int|
                    0 <= t1 < t2 < tasks@.len() ==> (#[trigger] tasks@[t1]).cells@[idx as int] < (
                    #[trigger] tasks@[t2]).cells@[idx as int],
            decreases self.size + 1 - value,
        {
            if self.check_if_valid(idx, value) {
                let ghost prev = tasks@;
                let mut new_board = self.duplicate();
                new_board.cells.set(idx, value);
                tasks.push(new_board);
                proof {
                    let now = tasks@;
                    assert(now[now.len() - 1].cells@ == g.update(idx as int, value));
                    assert forall|v: usize|
                        1 <= v < value + 1 && placeable(g, self.size as nat, idx as int, v)
                            implies exists|t: int|
                        0 <= t < now.len() && (#[trigger] now[t]).cells@ == g.update(
                            idx as int,
                            v,
                        ) by {
                        if v < value {
                            let wt = choose|t: int|
                                0 <= t < prev.len() && (#[trigger] prev[t]).cells@ == g.update(
                                    idx as int,
                                    v,
                                );
                            assert((now[wt]).cells@ == g.update(idx as int, v));
                        } else {
                            assert((now[now.len() - 1]).cells@ == g.update(idx as int, value));
                        }
                    }
                }
            }
            value = value + 1;
        }
        tasks
    }

    /// An independent copy of the board.
    pub fn duplicate(&self) -> (b: Board)
        ensures
            b.size == self.size,
            b.cells@ == self.cells@,
            b.fixed_cells@ == self.fixed_cells@,
    {
        Board {
            size: self.size,
            cells: copy_vec(&self.cells),
            fixed_cells: copy_vec(&self.fixed_cells),
        }
    }

    /// Is the board solvable?  Decided by running the backtracking solver
    /// on a working copy; the board itself is untouched.
    pub fn check_if_possible(&self) -> (r: bool)
        requires
            self.wf(),
        ensures
            r <==> exists|sol: Seq<usize>|
                is_solution(self.cells@, sol, self.size as nat),
    {
        let mut board_to_check = self.duplicate();
        let solved = board_to_check.solve_brute_force();
        proof {
            if solved {
                assert(is_solution(self.cells@, board_to_check.cells@, self.size as nat));
            }
        }
        solved
    }

    /// Returns every solution of the current board, each as a full cell
    /// vector, in ascending lexicographic order and without duplicates;
    /// the board itself is left unchanged.
    pub fn get_all_solutions(&mut self) -> (solutions: Vec<Vec<usize>>)
        requires
            old(self).wf(),
        ensures
            final(self).wf(),
            final(self).size == old(self).size,
            final(self).cells@ == old(self).cells@,
            final(self).fixed_cells@ == old(self).fixed_cells@,
            forall|i: int|
                0 <= i < solutions@.len() ==> is_solution(
                    old(self).cells@,
                    #[trigger] solutions@[i]@,
                    old(self).size as nat,
                ),
            forall|sol: Seq<usize>|
                #[trigger] is_solution(old(self).cells@, sol, old(self).size as nat) ==> found_in(
                    solutions@,
                    0,
                    sol,
                ),
            forall|i: int, j: int|
                0 <= i < j < solutions@.len() ==> #[trigger] lex_lt(
                    solutions@[i]@,
                    solutions@[j]@,
                ),
    {
        let mut solutions: Vec<Vec<usize>> = Vec::new();
        self.solve_all_recursive(&mut solutions);
        solutions
    }
}

/// Attempt budget for seeding one board: draws that neither hit an empty
/// cell nor pass the digit check still consume budget.
const MAX_PLACEMENT_ATTEMPTS: usize = 100000;

/// Attempt budget for whole generated boards that the solvability check
/// rejects.
const MAX_RESTARTS: usize = 50;

impl Board {
    /// Generates a board of side `size` carrying exactly `number_of_clues`
    /// randomly seeded, mutually compatible clues, validated to have at
    /// least one solution.  Each draw picks a uniformly random cell and
    /// digit and keeps it only if the cell is empty and the digit passes
    /// the row/column/box check; a fully seeded board that the solver then
    /// rejects is discarded whole and generation restarts from an empty
    /// grid.  Both phases run under an explicit attempt budget, and `None`
    /// reports that the budget was spent; an unbounded retry would loop
    /// forever on infeasible inputs.  Randomness decides the outcome only
    /// where clues are actually drawn: with no clues asked for, success is
    /// exactly the solvability of the empty grid, and with more clues than
    /// cells the call always reports failure.
    /// Executable form of the generation precondition: a positive side
    /// whose square fits the machine and whose box scan stays inside the
    /// grid.
    pub fn is_valid_size(size: usize) -> (r: bool)
        ensures
            r == (size >= 1 && size * size <= usize::MAX && box_scan_in_range(size as nat)),
    {
        if size == 0 {
            return false;
        }
        if size.checked_mul(size).is_none() {
            return false;
        }
        box_scan_fits(size)
    }

    pub fn generate_new_sudoku(size: usize, number_of_clues: usize) -> (r: Option<Board>)
        requires
            size >= 1,
            size * size <= usize::MAX,
            box_scan_in_range(size as nat),
        ensures
            number_of_clues == 0 ==> (r is Some <==> exists|sol: Seq<usize>|
                #[trigger] is_solution(empty_grid(size as nat), sol, size as nat)),
            number_of_clues > size * size ==> r is None,
            r is Some ==> ({
                let b = r->Some_0;
                &&& b.wf()
                &&& b.size == size
                &&& b.fixed_cells@.len() == number_of_clues
                &&& forall|k: int|
                    0 <= k < b.fixed_cells@.len() ==> 0 <= (#[trigger] b.fixed_cells@[k]).0 < size
                        * size && 1 <= b.fixed_cells@[k].1 <= size && b.cells@[b.fixed_cells@[k].0 as int]
                        == b.fixed_cells@[k].1
                &&& forall|k1: int, k2: int|
                    0 <= k1 < k2 < b.fixed_cells@.len() ==> (#[trigger] b.fixed_cells@[k1]).0 != (
                    #[trigger] b.fixed_cells@[k2]).0
                &&& forall|i: int|
                    0 <= i < b.cells@.len() && #[trigger] b.cells@[i] != 0 ==> exists|k: int|
                        0 <= k < b.fixed_cells@.len() && (#[trigger] b.fixed_cells@[k]).0 == i
                &&& valid_grid(b.cells@, size as nat)
                &&& exists|sol: Seq<usize>| is_solution(b.cells@, sol, size as nat)
            }),
    {
        proof {
            assert(size < usize::MAX) by (nonlinear_arith)
                requires
                    size >= 1,
                    size * size <= usize::MAX,
                    usize::MAX >= 3,
            ;
        }
        let mut restarts: usize = 0;
        while restarts < MAX_RESTARTS
            invariant
                size >= 1,
                size < usize::MAX,
                size * size <= usize::MAX,
                box_scan_in_range(size as nat),
                number_of_clues == 0 && restarts > 0 ==> !exists|sol: Seq<usize>|
                    #[trigger] is_solution(empty_grid(size as nat), sol, size as nat),
            decreases MAX_RESTARTS - restarts,
        {
            let mut board = Board { size, cells: empty_cells(size), fixed_cells: Vec::new() };
            proof {
                assert(board.cells@ =~= empty_grid(size as nat));
                lemma_num_zeros_all_empty(board.cells@);
            }
            let mut clues_added: usize = 0;
            let mut attempts: usize = 0;
            while clues_added < number_of_clues && attempts < MAX_PLACEMENT_ATTEMPTS
                invariant
                    size >= 1,
                    size < usize::MAX,
                    size * size <= usize::MAX,
                    box_scan_in_range(size as nat),
                    board.wf(),
                    board.size == size,
                    clues_added == board.fixed_cells@.len(),
                    forall|k: int|
                        0 <= k < board.fixed_cells@.len() ==> 0 <= (
                        #[trigger] board.fixed_cells@[k]).0 < size * size && 1
                            <= board.fixed_cells@[k].1 <= size && board.cells@[board.fixed_cells@[k].0 as int]
                            == board.fixed_cells@[k].1,
                    forall|k1: int, k2: int|
                        0 <= k1 < k2 < board.fixed_cells@.len() ==> (
                        #[trigger] board.fixed_cells@[k1]).0 != (
                        #[trigger] board.fixed_cells@[k2]).0,
                    forall|i: int|
                        0 <= i < board.cells@.len() && #[trigger] board.cells@[i] != 0 ==> exists|
                            k: int,
                        |
                            0 <= k < board.fixed_cells@.len() && (
                            #[trigger] board.fixed_cells@[k]).0 == i,
                    valid_grid(board.cells@, size as nat),
                    number_of_clues == 0 ==> board.cells@ == empty_grid(size as nat),
                    clues_added + num_zeros(board.cells@) == size * size,
                decreases MAX_PLACEMENT_ATTEMPTS - attempts,
            {
                attempts = attempts + 1;
                let row = random_below(0, size);
                let col = random_below(0, size);
                let num = random_below(1, size + 1);
                let idx = board.index(col, row);
                if board.cells[idx] == 0 && board.check_if_valid(idx, num) {
                    let ghost s0 = board.cells@;
                    let ghost f0 = board.fixed_cells@;
                    board.cells.set(idx, num);
                    board.fixed_cells.push((idx, num));
                    clues_added = clues_added + 1;
                    proof {
                        lemma_place_preserves_valid(s0, size as nat, idx as int, num);
                        lemma_num_zeros_update(s0, idx as int, num);
                        assert forall|i: int|
                            0 <= i < board.cells@.len() && #[trigger] board.cells@[i] != 0
                                implies exists|k: int|
                            0 <= k < board.fixed_cells@.len() && (
                            #[trigger] board.fixed_cells@[k]).0 == i by {
                            if i == idx {
                                assert((board.fixed_cells@[f0.len() as int]).0 == i);
                            } else {
                                assert(s0[i] != 0);
                                let k0 = choose|k: int|
                                    0 <= k < f0.len() && (#[trigger] f0[k]).0 == i;
                                assert((board.fixed_cells@[k0]).0 == i);
                            }
                        }
                    }
                }
            }
            if clues_added == number_of_clues {
                if board.check_if_possible() {
                    return Some(board);
                }
                proof {
                    if number_of_clues == 0 {
                        assert(!exists|sol: Seq<usize>|
                            #[trigger] is_solution(empty_grid(size as nat), sol, size as nat));
                    }
                }
            }
            restarts = restarts + 1;
        }
        None
    }

    /// Builds a board from raw text: every ASCII digit becomes a cell in
    /// reading order with `0` empty, every other byte is skipped, each
    /// nonzero digit is recorded as a clue, and the side is the integer
    /// square root of the digit count.  The result is well-formed only
    /// where that count is the square of a positive side; checking the
    /// shape is the caller's task, as it is for every imported grid.
    pub fn import_from_text(contents: &Vec<u8>) -> (board: Board)
        ensures
            board.cells@ == parse_digits(contents@),
            board.fixed_cells@ == clue_pairs(board.cells@),
            board.size == sqrt_floor(board.cells@.len()),
    {
        let mut board = Board { size: 0, cells: Vec::new(), fixed_cells: Vec::new() };
        let mut i: usize = 0;
        while i < contents.len()
            invariant
                i <= contents@.len(),
                board.cells@ == parse_digits(contents@.take(i as int)),
                board.fixed_cells@ == clue_pairs(board.cells@),
            decreases contents@.len() - i,
        {
            let ghost c0 = board.cells@;
            let ch = contents[i];
            if ch >= 48 && ch <= 57 {
                let digit = (ch - 48) as usize;
                if digit != 0 {
                    board.fixed_cells.push((board.cells.len(), digit));
                }
                board.cells.push(digit);
                proof {
                    assert(board.cells@.drop_last() =~= c0);
                }
            }
            proof {
                assert(contents@.take(i + 1 as int).drop_last() =~= contents@.take(i as int));
            }
            i = i + 1;
        }
        proof {
            assert(contents@.take(contents@.len() as int) =~= contents@);
        }
        board.size = int_sqrt(board.cells.len());
        proof {
            vstd::std_specs::vec::axiom_spec_len(&board.cells);
        }
        board
    }
}

/// A row-major vector of `size * size` empty cells.
fn empty_cells(size: usize) -> (out: Vec<usize>)
    requires
        size * size <= usize::MAX,
    ensures
        out@.len() == size * size,
        forall|i: int| 0 <= i < out@.len() ==> out@[i] == 0,
{
    let ghost total = (size * size) as int;
    let mut out: Vec<usize> = Vec::new();
    let mut i: usize = 0;
    while i < size * size
        invariant
            size * size <= usize::MAX,
            i <= size * size,
            out@.len() == i,
            forall|j: int| 0 <= j < i ==> out@[j] == 0,
        decreases size * size - i,
    {
        out.push(0);
        i = i + 1;
    }
    out
}

/// Does the truncated box scan stay inside a grid of side `size`?
fn box_scan_fits(size: usize) -> (r: bool)
    requires
        size >= 1,
        size * size <= usize::MAX,
    ensures
        r == box_scan_in_range(size as nat),
{
    let b = int_sqrt(size);
    proof {
        crate::model::lemma_sqrt_floor(size as nat);
        assert(b >= 1) by (nonlinear_arith)
            requires
                size >= 1,
                b >= 0,
                size < (b + 1) * (b + 1),
        ;
    }
    let q = (size - 1) / b;
    proof {
        vstd::arithmetic::div_mod::lemma_fundamental_div_mod(size as int - 1, b as int);
        vstd::arithmetic::mul::lemma_mul_is_commutative(b as int, q as int);
        vstd::arithmetic::div_mod::lemma_mod_bound(size as int - 1, b as int);
        assert(q * b <= size - 1);
        assert(size - 1 + size <= usize::MAX) by (nonlinear_arith)
            requires
                size >= 1,
                size * size <= usize::MAX,
        ;
        assert(b <= size) by (nonlinear_arith)
            requires
                b >= 1,
                b * b <= size,
        ;
    }
    q * b + b <= size
}

/// Relies on rand::Rng::random_range over the thread-local generator of
/// rand::rng: the result lies in the given half-open range; the call
/// panics only on an empty range, which the precondition rules out.
#[verifier::external_body]
fn random_below(lo: usize, hi: usize) -> (r: usize)
    requires
        lo < hi,
    ensures
        lo <= r < hi,
{
    rand::Rng::random_range(&mut rand::rng(), lo..hi)
}

/// Copies a vector of plain values, element by element.
fn copy_vec<T: Copy>(v: &Vec<T>) -> (out: Vec<T>)
    ensures
        out@ == v@,
{
    let mut out: Vec<T> = Vec::new();
    let mut i: usize = 0;
    while i < v.len()
        invariant
            i <= v@.len(),
            out@.len() == i,
            forall|j: int| 0 <= j < i ==> out@[j] == v@[j],
        decreases v@.len() - i,
    {
        out.push(v[i]);
        i = i + 1;
    }
    proof {
        assert(out@ =~= v@);
    }
    out
}

/// The greatest `r` with `r * r <= n`, computed without overflow.
pub fn int_sqrt(n: usize) -> (r: usize)
    ensures
        r == sqrt_floor(n as nat),
{
    let mut r: usize = 0;
    while r + 1 <= n / (r + 1)
        invariant
            r * r <= n,
            r <= n / 2 + 1,
        decreases n - r,
    {
        proof {
            let ri = r as int;
            let ni = n as int;
            let q = ni / (ri + 1);
            let m = ni % (ri + 1);
            vstd::arithmetic::div_mod::lemma_fundamental_div_mod(ni, ri + 1);
            assert((ri + 1) * (ri + 1) <= ni) by (nonlinear_arith)
                requires
                    ri + 1 <= q,
                    ni == (ri + 1) * q + m,
                    m >= 0,
                    ri + 1 > 0,
            ;
            if r >= 1 {
                vstd::arithmetic::div_mod::lemma_div_is_ordered_by_denominator(ni, 2, ri + 1);
            }
        }
        r = r + 1;
    }
    proof {
        let ri = r as int;
        let ni = n as int;
        let q = ni / (ri + 1);
        let m = ni % (ri + 1);
        vstd::arithmetic::div_mod::lemma_fundamental_div_mod(ni, ri + 1);
        assert(ni < (ri + 1) * (ri + 1)) by (nonlinear_arith)
            requires
                q <= ri,
                ni == (ri + 1) * q + m,
                m < ri + 1,
                m >= 0,
                ri + 1 > 0,
        ;
        lemma_sqrt_floor_unique(n as nat, r as nat);
    }
    r
}

} // verus!
