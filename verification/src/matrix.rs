#![verifier::loop_isolation(false)]
use vstd::prelude::*;

use crate::gf2::{
    bit_row, bmul, count_pivot_rows, in_kernel, is_bit, is_rref, is_zero_row_spec,
    lemma_apply_ops_snoc, lemma_count_pivot_rows, lemma_dot_support2, lemma_dot_zero_row,
    lemma_apply_ops_kernel, lemma_pivot_is, lemma_pivot_none, lemma_pivot_prefix,
    lemma_pivot_props, lemma_rank_from_bounds, lemma_row_add_wf, lemma_swap_three_adds, mat_wf,
    ops_valid, pivot_of,
    pivot_spec, rank_from, rank_spec, row_dot, row_sum, spec_apply_ops, spec_row_add,
    is_add_unit, is_swap_unit, log_units_valid,
};

verus! {

/// A rectangular matrix over GF(2). Entries are `u8` values 0 or 1; all rows
/// share one column count.
#[derive(Debug)]
pub struct Matrix {
    pub elements: Vec<Vec<u8>>,
}

/// What a matrix construction failure reports.
#[derive(Clone, Copy, PartialEq, Eq, Structural, Debug)]
pub enum MatrixError {
    UnequalRowLengths,
    NonBitEntry,
}

/// The mathematical view of a vector of rows.
pub open spec fn rows_view(v: Seq<Vec<u8>>) -> Seq<Seq<u8>> {
    v.map_values(|r: Vec<u8>| r@)
}

impl View for Matrix {
    type V = Seq<Seq<u8>>;

    open spec fn view(&self) -> Seq<Seq<u8>> {
        rows_view(self.elements@)
    }
}

pub(crate) fn copy_row(r: &Vec<u8>) -> (res: Vec<u8>)
    ensures
        res@ == r@,
{
    let mut res: Vec<u8> = Vec::new();
    let mut j: usize = 0;
    while j < r.len()
        invariant
            j <= r.len(),
            res@ =~= r@.take(j as int),
        decreases r.len() - j,
    {
        res.push(r[j]);
        j += 1;
    }
    assert(res@ =~= r@);
    res
}

impl Matrix {
    /// Column count of the model: the length of the first row, or 0 for a
    /// matrix without rows.
    pub open spec fn ncols_spec(&self) -> int {
        if self@.len() > 0 {
            self@[0].len() as int
        } else {
            0
        }
    }

    /// Well-formed: every row has the common column count and holds bits.
    pub open spec fn wf(&self) -> bool {
        mat_wf(self@, self.ncols_spec())
    }

    /// Wraps rows already known to be rectangular and over GF(2).
    pub fn new(elements: Vec<Vec<u8>>) -> (m: Self)
        requires
            mat_wf(
                rows_view(elements@),
                if elements@.len() > 0 {
                    elements@[0]@.len() as int
                } else {
                    0
                },
            ),
        ensures
            m@ == rows_view(elements@),
            m.wf(),
    {
        Matrix { elements }
    }

    /// Checked construction: rejects rows of unequal length and entries
    /// outside GF(2), as a wrong matrix would silently falsify every later
    /// result.
    pub fn try_new(elements: Vec<Vec<u8>>) -> (res: Result<Self, MatrixError>)
        ensures
            ({
                let v = rows_view(elements@);
                let c = if v.len() > 0 {
                    v[0].len() as int
                } else {
                    0
                };
                match res {
                    Ok(m) => m@ == v && m.wf() && mat_wf(v, c),
                    Err(e) => !mat_wf(v, c) && (e == MatrixError::UnequalRowLengths <==> exists|i: int|
                        0 <= i < v.len() && #[trigger] v[i].len() != v[0].len()),
                }
            }),
    {
        let ghost v = rows_view(elements@);
        let nrows = elements.len();
        let cols = if nrows > 0 {
            elements[0].len()
        } else {
            0
        };
        let mut i: usize = 0;
        while i < nrows
            invariant
                i <= nrows,
                forall|r: int| 0 <= r < i ==> #[trigger] v[r].len() == cols,
            decreases nrows - i,
        {
            if elements[i].len() != cols {
                assert(v[i as int].len() != v[0].len());
                assert(!mat_wf(v, cols as int));
                return Err(MatrixError::UnequalRowLengths);
            }
            i += 1;
        }
        let mut r: usize = 0;
        while r < nrows
            invariant
                r <= nrows,
                forall|a: int| 0 <= a < v.len() ==> #[trigger] v[a].len() == cols,
                forall|a: int| 0 <= a < r ==> bit_row(#[trigger] v[a]),
            decreases nrows - r,
        {
            let mut j: usize = 0;
            assert(v[r as int].len() == cols);
            while j < cols
                invariant
                    j <= cols,
                    r < nrows,
                    forall|a: int| 0 <= a < v.len() ==> #[trigger] v[a].len() == cols,
                    forall|b: int| 0 <= b < j ==> is_bit(#[trigger] v[r as int][b]),
                decreases cols - j,
            {
                let x = elements[r][j];
                if x > 1 {
                    assert(!is_bit(v[r as int][j as int]));
                    assert(!mat_wf(v, cols as int));
                    return Err(MatrixError::NonBitEntry);
                }
                j += 1;
            }
            assert(bit_row(v[r as int]));
            r += 1;
        }
        Ok(Matrix { elements })
    }

    /// Number of rows.
    pub fn nrows(&self) -> (r: usize)
        ensures
            r == self@.len(),
    {
        self.elements.len()
    }

    /// Number of columns.
    pub fn ncols(&self) -> (r: usize)
        ensures
            r as int == self.ncols_spec(),
    {
        if self.elements.len() > 0 {
            self.elements[0].len()
        } else {
            0
        }
    }

    /// One entry.
    pub fn get(&self, row: usize, col: usize) -> (r: u8)
        requires
            row < self@.len(),
            col < self@[row as int].len(),
        ensures
            r == self@[row as int][col as int],
    {
        self.elements[row][col]
    }

    /// An independent copy of the matrix.
    pub fn copy(&self) -> (res: Self)
        ensures
            res@ == self@,
    {
        let mut rows: Vec<Vec<u8>> = Vec::new();
        let mut i: usize = 0;
        while i < self.elements.len()
            invariant
                i <= self.elements.len(),
                rows_view(rows@) =~= self@.take(i as int),
            decreases self.elements.len() - i,
        {
            rows.push(copy_row(&self.elements[i]));
            i += 1;
        }
        let res = Matrix { elements: rows };
        assert(res@ =~= self@);
        res
    }

    /// The rows `start..end`, as a new matrix.
    pub fn get_sub_matrix(&self, start: usize, end: usize) -> (res: Self)
        requires
            start <= end <= self@.len(),
        ensures
            res@ == self@.subrange(start as int, end as int),
    {
        let mut rows: Vec<Vec<u8>> = Vec::new();
        let mut i: usize = start;
        while i < end
            invariant
                start <= i <= end,
                rows_view(rows@) =~= self@.subrange(start as int, i as int),
            decreases end - i,
        {
            rows.push(copy_row(&self.elements[i]));
            i += 1;
        }
        let res = Matrix { elements: rows };
        assert(res@ =~= self@.subrange(start as int, end as int));
        res
    }

    /// XORs row `source` into row `target`, in place.
    pub fn add_rows(&mut self, target: usize, source: usize)
        requires
            old(self).wf(),
            target < old(self)@.len(),
            source < old(self)@.len(),
        ensures
            final(self)@ == spec_row_add(old(self)@, target as int, source as int),
            final(self).wf(),
            final(self)@.len() == old(self)@.len(),
            final(self).ncols_spec() == old(self).ncols_spec(),
    {
        let cols = self.ncols();
        let ghost goal = row_sum(old(self)@[target as int], old(self)@[source as int]);
        let mut new_row: Vec<u8> = Vec::new();
        let mut j: usize = 0;
        while j < cols
            invariant
                j <= cols,
                new_row@ =~= goal.take(j as int),
            decreases cols - j,
        {
            let a = self.elements[target][j];
            let b = self.elements[source][j];
            new_row.push(
                if a == b {
                    0
                } else {
                    1
                },
            );
            j += 1;
        }
        assert(new_row@ =~= goal);
        self.elements.set(target, new_row);
        assert(final(self)@ =~= spec_row_add(old(self)@, target as int, source as int));
        proof {
            lemma_row_add_wf(old(self)@, old(self).ncols_spec(), target as int, source as int);
        }
    }

    /// Exchanges rows `row1` and `row2`.
    pub fn swap_rows(&mut self, row1: usize, row2: usize)
        requires
            row1 < old(self)@.len(),
            row2 < old(self)@.len(),
        ensures
            final(self)@ == old(self)@.update(row1 as int, old(self)@[row2 as int]).update(
                row2 as int,
                old(self)@[row1 as int],
            ),
            final(self)@.len() == old(self)@.len(),
    {
        let a = copy_row(&self.elements[row1]);
        let b = copy_row(&self.elements[row2]);
        self.elements.set(row1, b);
        self.elements.set(row2, a);
        assert(final(self)@ =~= old(self)@.update(row1 as int, old(self)@[row2 as int]).update(
            row2 as int,
            old(self)@[row1 as int],
        ));
    }

    /// True iff every entry of the row is 0.
    pub fn is_zero_row(&self, row: usize) -> (r: bool)
        requires
            row < self@.len(),
        ensures
            r <==> is_zero_row_spec(self@[row as int]),
    {
        let n = self.elements[row].len();
        let mut j: usize = 0;
        while j < n
            invariant
                j <= n,
                n == self@[row as int].len(),
                forall|c: int| 0 <= c < j ==> #[trigger] self@[row as int][c] == 0,
            decreases n - j,
        {
            if self.elements[row][j] != 0 {
                return false;
            }
            j += 1;
        }
        true
    }

    /// The pivot of a row: the index of its first 1 entry, if any.
    pub fn get_pivot(row: &Vec<u8>) -> (res: Option<usize>)
        ensures
            match res {
                Some(p) => pivot_spec(row@) == Some(p as int),
                None => pivot_spec(row@) is None,
            },
    {
        let n = row.len();
        let mut j: usize = 0;
        while j < n
            invariant
                j <= n,
                n == row@.len(),
                forall|c: int| 0 <= c < j ==> #[trigger] row@[c] != 1,
            decreases n - j,
        {
            if row[j] == 1 {
                proof {
                    lemma_pivot_is(row@, j as int);
                }
                return Some(j);
            }
            j += 1;
        }
        proof {
            lemma_pivot_none(row@);
        }
        None
    }

    /// Appends a row. The first row fixes the column count.
    pub fn append_row(&mut self, v: Vec<u8>)
        requires
            old(self).wf(),
            bit_row(v@),
            old(self)@.len() == 0 || v@.len() == old(self).ncols_spec(),
        ensures
            final(self)@ == old(self)@.push(v@),
            final(self).wf(),
            final(self).ncols_spec() == v@.len(),
    {
        self.elements.push(v);
        assert(final(self)@ =~= old(self)@.push(v@));
    }

    /// Appends a column: entry `i` of `v` goes to the end of row `i`.
    pub fn append_column(&mut self, v: Vec<u8>)
        requires
            old(self).wf(),
            v@.len() == old(self)@.len(),
            bit_row(v@),
        ensures
            final(self)@.len() == old(self)@.len(),
            forall|i: int|
                0 <= i < old(self)@.len() ==> #[trigger] final(self)@[i] == old(self)@[i].push(
                    v@[i],
                ),
            final(self).wf(),
            old(self)@.len() > 0 ==> final(self).ncols_spec() == old(self).ncols_spec() + 1,
    {
        let n = self.elements.len();
        let mut i: usize = 0;
        while i < n
            invariant
                i <= n,
                n == self@.len(),
                self@.len() == old(self)@.len(),
                v@.len() == old(self)@.len(),
                forall|r: int| 0 <= r < i ==> #[trigger] self@[r] == old(self)@[r].push(v@[r]),
                forall|r: int| i <= r < n ==> #[trigger] self@[r] == old(self)@[r],
            decreases n - i,
        {
            let ghost pre = self@;
            let mut row = copy_row(&self.elements[i]);
            row.push(v[i]);
            self.elements.set(i, row);
            assert(self@ =~= pre.update(i as int, pre[i as int].push(v@[i as int])));
            i += 1;
        }
    }

    /// Full Gaussian elimination over GF(2) to reduced row-echelon form.
    ///
    /// Returns the reduced matrix together with the operation log that,
    /// replayed with the row-addition primitive alone (a swap as three
    /// consecutive adds), turns the input into the result. Reducing a matrix
    /// already in reduced form returns it unchanged, with an empty log.
    pub fn row_echelon_full_matrix(&self) -> (res: (Matrix, Vec<(usize, usize)>))
        requires
            self.wf(),
        ensures
            res.0.wf(),
            res.0@.len() == self@.len(),
            res.0.ncols_spec() == self.ncols_spec(),
            ops_valid(res.1@, self@.len() as int),
            res.0@ == spec_apply_ops(self@, res.1@),
            is_rref(res.0@),
            is_rref(self@) ==> res.0@ == self@ && res.1@.len() == 0,
            is_rref(self@) ==> rank_spec(res.0@) == rank_spec(self@),
            exists|units: Seq<Seq<(usize, usize)>>|
                log_units_valid(units, self@.len() as int) && (#[trigger] units.flatten())
                    == res.1@,
    {
        let mut m = self.copy();
        let rows = self.nrows();
        let cols = self.ncols();
        let mut operations: Vec<(usize, usize)> = Vec::new();
        let ghost mut units: Seq<Seq<(usize, usize)>> = Seq::empty();
        proof {
            assert(units.flatten() =~= operations@);
        }
        let mut row: usize = 0;
        let mut lead: usize = 0;
        while row < rows && lead < cols
            invariant
                row <= rows,
                lead <= cols,
                row <= lead,
                rows == self@.len(),
                cols as int == self.ncols_spec(),
                mat_wf(m@, cols as int),
                m@.len() == rows,
                ops_valid(operations@, rows as int),
                m@ == spec_apply_ops(self@, operations@),
                units.flatten() == operations@,
                log_units_valid(units, rows as int),
                forall|i1: int|
                    0 <= i1 < row ==> pivot_spec(#[trigger] m@[i1]) is Some && pivot_of(m@, i1)
                        < lead,
                forall|i1: int, i2: int|
                    #![trigger pivot_of(m@, i1), pivot_of(m@, i2)]
                    0 <= i1 < i2 < row ==> pivot_of(m@, i1) < pivot_of(m@, i2),
                forall|i1: int, i2: int|
                    #![trigger m@[i2], pivot_of(m@, i1)]
                    0 <= i1 < row && 0 <= i2 < rows && i2 != i1 ==> m@[i2][pivot_of(m@, i1)] == 0,
                forall|i2: int, c: int|
                    #![trigger m@[i2][c]]
                    row <= i2 < rows && 0 <= c < lead ==> m@[i2][c] == 0,
                is_rref(self@) ==> m@ == self@ && operations@.len() == 0,
            decreases cols - lead,
        {
            let ghost m_pre = m@;
            let ghost ops_pre = operations@;
            // Find the first row at or below `row` with a 1 in column `lead`.
            let mut i: usize = row;
            while i < rows && m.get(i, lead) != 1
                invariant
                    row <= i <= rows,
                    forall|r2: int| row <= r2 < i ==> #[trigger] m@[r2][lead as int] != 1,
                decreases rows - i,
            {
                i += 1;
            }
            if i == rows {
                // No pivot in this column: advance the lead column.
                proof {
                    if is_rref(self@) {
                        assert(m@ == self@);
                    }
                }
                lead += 1;
            } else {
                assert(m@[i as int][lead as int] == 1);
                let ghost was_rref = is_rref(self@) && m@ == self@ && operations@.len() == 0;
                proof {
                    if was_rref {
                        // On a reduced matrix the pivot found is row `row`
                        // itself.
                        if pivot_spec(m@[row as int]) is Some {
                            let p = pivot_of(m@, row as int);
                            lemma_pivot_props(m@[row as int]);
                            if i != row {
                                assert(m@[row as int][lead as int] != 1);
                                assert(lead < p);
                                assert(pivot_spec(m@[i as int]) == Some(lead as int)) by {
                                    lemma_pivot_is(m@[i as int], lead as int);
                                }
                                assert(pivot_of(m@, row as int) < pivot_of(m@, i as int));
                                assert(pivot_of(m@, i as int) == lead);
                                assert(false);
                            }
                        } else {
                            lemma_pivot_props(m@[row as int]);
                            assert(pivot_spec(m@[i as int]) == Some(lead as int)) by {
                                lemma_pivot_is(m@[i as int], lead as int);
                            }
                            if i == row {
                                assert(false);
                            } else {
                                assert(pivot_spec(m@[row as int]) is Some);
                                assert(false);
                            }
                        }
                    }
                }
                if i != row {
                    m.swap_rows(row, i);
                    operations.push((row, i));
                    operations.push((i, row));
                    operations.push((row, i));
                    proof {
                        let o1 = (row, i);
                        let o2 = (i, row);
                        lemma_apply_ops_snoc(self@, ops_pre, o1);
                        lemma_apply_ops_snoc(self@, ops_pre.push(o1), o2);
                        lemma_apply_ops_snoc(self@, ops_pre.push(o1).push(o2), o1);
                        lemma_swap_three_adds(m_pre, cols as int, row as int, i as int);
                        assert(operations@ == ops_pre.push(o1).push(o2).push(o1));
                        assert(m@ == spec_apply_ops(self@, operations@));
                        let blk = seq![o1, o2, o1];
                        let units_pre = units;
                        units = units.push(blk);
                        units_pre.lemma_flatten_push(blk);
                        assert(operations@ =~= ops_pre + blk);
                        assert(units.flatten() == operations@);
                        assert(is_swap_unit(blk, rows as int));
                        assert forall|u: int| 0 <= u < units.len() implies is_add_unit(
                            #[trigger] units[u],
                            rows as int,
                        ) || is_swap_unit(units[u], rows as int) by {
                            if u < units_pre.len() {
                                assert(units[u] == units_pre[u]);
                            } else {
                                assert(units[u] == blk);
                            }
                        }
                        // Rows above `row` are untouched; rows at or below
                        // keep their zero prefix.
                        assert forall|i1: int| 0 <= i1 < row implies pivot_spec(
                            #[trigger] m@[i1],
                        ) is Some && pivot_of(m@, i1) < lead by {
                            assert(m@[i1] == m_pre[i1]);
                        }
                    }
                }
                let ghost m_mid = m@;
                proof {
                    if i != row {
                        assert(m_mid == m_pre.update(row as int, m_pre[i as int]).update(
                            i as int,
                            m_pre[row as int],
                        ));
                    } else {
                        assert(m_mid == m_pre);
                    }
                    assert(forall|i1: int| 0 <= i1 < row ==> #[trigger] m_mid[i1] == m_pre[i1]);
                    assert forall|i2: int, c: int|
                        #![trigger m_mid[i2][c]]
                        row <= i2 < rows && 0 <= c < lead implies m_mid[i2][c] == 0 by {
                        if i != row {
                            if i2 == row {
                                assert(m_mid[i2] == m_pre[i as int]);
                            } else if i2 == i {
                                assert(m_mid[i2] == m_pre[row as int]);
                            } else {
                                assert(m_mid[i2] == m_pre[i2]);
                            }
                        }
                    }
                    assert forall|i1: int, i2: int|
                        #![trigger m_mid[i2], pivot_of(m_mid, i1)]
                        0 <= i1 < row && 0 <= i2 < rows && i2 != i1 implies m_mid[i2][pivot_of(
                        m_mid,
                        i1,
                    )] == 0 by {
                        let p = pivot_of(m_pre, i1);
                        assert(m_mid[i1] == m_pre[i1]);
                        assert(pivot_of(m_mid, i1) == p);
                        if i != row {
                            if i2 == row {
                                assert(m_mid[i2] == m_pre[i as int]);
                                assert(m_pre[i as int][p] == 0);
                            } else if i2 == i {
                                assert(m_mid[i2] == m_pre[row as int]);
                                assert(m_pre[row as int][p] == 0);
                            } else {
                                assert(m_mid[i2] == m_pre[i2]);
                            }
                        }
                    }
                }
                assert(m_mid[row as int] == m_pre[i as int]);
                assert(forall|c: int| 0 <= c < lead ==> #[trigger] m_mid[row as int][c] == 0);
                assert(m_mid[row as int][lead as int] == 1);
                // Clear column `lead` in every other row.
                let mut j2: usize = 0;
                while j2 < rows
                    invariant
                        j2 <= rows,
                        rows == self@.len(),
                        mat_wf(m@, cols as int),
                        m@.len() == rows,
                        row < rows,
                        lead < cols,
                        ops_valid(operations@, rows as int),
                        m@ == spec_apply_ops(self@, operations@),
                        units.flatten() == operations@,
                        log_units_valid(units, rows as int),
                        m@[row as int] == m_mid[row as int],
                        forall|j: int|
                            #![trigger m@[j]]
                            0 <= j < rows && j >= j2 && j != row ==> m@[j] == m_mid[j],
                        forall|j: int|
                            #![trigger m@[j]]
                            0 <= j < j2 && j != row ==> m@[j][lead as int] == 0,
                        forall|j: int, c: int|
                            #![trigger m@[j][c]]
                            0 <= j < rows && 0 <= c < cols && m_mid[row as int][c] == 0 ==> m@[j][c]
                                == m_mid[j][c],
                        was_rref ==> m@ == self@ && operations@.len() == 0,
                    decreases rows - j2,
                {
                    let ghost m_it = m@;
                    let ghost ops_it = operations@;
                    if j2 != row && m.get(j2, lead) == 1 {
                        proof {
                            if was_rref {
                                // A reduced matrix has no other 1 in a pivot
                                // column.
                                assert(m_mid[row as int] == self@[row as int]);
                                assert(pivot_spec(self@[row as int]) == Some(lead as int)) by {
                                    lemma_pivot_is(self@[row as int], lead as int);
                                }
                                assert(self@[j2 as int][lead as int] == 0);
                                assert(false);
                            }
                        }
                        m.add_rows(j2, row);
                        operations.push((j2, row));
                        proof {
                            lemma_apply_ops_snoc(self@, ops_it, (j2, row));
                            assert(m@ == spec_apply_ops(self@, operations@));
                            let blk = seq![(j2, row)];
                            let units_pre = units;
                            units = units.push(blk);
                            units_pre.lemma_flatten_push(blk);
                            assert(operations@ =~= ops_it + blk);
                            assert(units.flatten() == operations@);
                            assert(is_add_unit(blk, rows as int));
                            assert forall|u: int| 0 <= u < units.len() implies is_add_unit(
                                #[trigger] units[u],
                                rows as int,
                            ) || is_swap_unit(units[u], rows as int) by {
                                if u < units_pre.len() {
                                    assert(units[u] == units_pre[u]);
                                } else {
                                    assert(units[u] == blk);
                                }
                            }
                        }
                    }
                    j2 += 1;
                }
                proof {
                    // Re-establish the outer invariants for row+1, lead+1.
                    let mn = m@;
                    assert(pivot_spec(mn[row as int]) == Some(lead as int)) by {
                        lemma_pivot_is(mn[row as int], lead as int);
                    }
                    assert forall|i1: int| 0 <= i1 < row implies pivot_spec(
                        #[trigger] mn[i1],
                    ) is Some && pivot_of(mn, i1) == pivot_of(m_mid, i1) by {
                        assert(m_mid[i1] == m_pre[i1]);
                        assert(pivot_spec(m_mid[i1]) is Some && pivot_of(m_mid, i1) < lead);
                        lemma_pivot_props(m_mid[i1]);
                        assert(pivot_spec(m_mid[i1]) == Some(pivot_of(m_mid, i1)));
                        assert forall|c: int| 0 <= c < lead implies #[trigger] mn[i1][c]
                            == m_mid[i1][c] by {
                            assert(m_mid[row as int][c] == 0);
                        }
                        lemma_pivot_prefix(m_mid[i1], mn[i1], lead as int, pivot_of(m_mid, i1));
                    }
                    assert forall|i1: int, i2: int|
                        #![trigger pivot_of(mn, i1), pivot_of(mn, i2)]
                        0 <= i1 < i2 < row + 1 implies pivot_of(mn, i1) < pivot_of(mn, i2) by {
                        if i2 == row {
                            assert(pivot_of(mn, i2) == lead);
                            assert(pivot_of(mn, i1) == pivot_of(m_mid, i1));
                        } else {
                            assert(pivot_of(mn, i1) == pivot_of(m_mid, i1));
                            assert(pivot_of(mn, i2) == pivot_of(m_mid, i2));
                            assert(m_mid[i1] == m_pre[i1] && m_mid[i2] == m_pre[i2]);
                        }
                    }
                    assert forall|i1: int, i2: int|
                        #![trigger mn[i2], pivot_of(mn, i1)]
                        0 <= i1 < row + 1 && 0 <= i2 < rows && i2 != i1 implies mn[i2][pivot_of(
                        mn,
                        i1,
                    )] == 0 by {
                        if i1 == row {
                            assert(pivot_of(mn, i1) == lead);
                        } else {
                            let p = pivot_of(mn, i1);
                            assert(p == pivot_of(m_mid, i1));
                            assert(p < lead);
                            assert(0 <= p) by {
                                lemma_pivot_props(m_mid[i1]);
                            }
                            assert(m_mid[i2][p] == 0);
                            assert(m_mid[row as int][p] == 0);
                            assert(mn[i2][p] == 0);
                        }
                    }
                    assert forall|i2: int, c: int|
                        #![trigger mn[i2][c]]
                        row + 1 <= i2 < rows && 0 <= c < lead + 1 implies mn[i2][c] == 0 by {
                        if c < lead {
                            assert(m_mid[i2][c] == 0);
                        }
                    }
                }
                row += 1;
                lead += 1;
            }
        }
        proof {
            let mn = m@;
            if row < rows {
                assert(lead == cols);
                assert forall|i2: int| row <= i2 < rows implies pivot_spec(
                    #[trigger] mn[i2],
                ) is None by {
                    assert(forall|c: int| 0 <= c < mn[i2].len() ==> #[trigger] mn[i2][c] == 0);
                    lemma_pivot_none(mn[i2]);
                }
            }
            assert(is_rref(mn)) by {
                assert forall|i1: int, i2: int|
                    0 <= i1 < i2 < mn.len() && pivot_spec(#[trigger] mn[i2]) is Some implies
                    pivot_spec(#[trigger] mn[i1]) is Some && pivot_spec(mn[i1]).unwrap()
                    < pivot_spec(mn[i2]).unwrap() by {
                    assert(i2 < row);
                }
                assert forall|i1: int, i2: int|
                    0 <= i1 < mn.len() && 0 <= i2 < mn.len() && i2 != i1 && pivot_spec(
                        #[trigger] mn[i1],
                    ) is Some implies (#[trigger] mn[i2])[pivot_spec(mn[i1]).unwrap()] == 0 by {
                    assert(i1 < row);
                }
            }
            if rows > 0 {
                assert(mn[0].len() == cols);
            }
        }
        (m, operations)
    }

    /// Column `c` is claimed as pivot by no row of `m`.
    pub open spec fn is_free_col(m: Seq<Seq<u8>>, c: int) -> bool {
        forall|r: int| 0 <= r < m.len() && pivot_spec(#[trigger] m[r]) is Some ==> pivot_of(m, r) != c
    }

    /// The free columns of `m` below column `j`, in ascending order.
    pub open spec fn free_cols_upto(m: Seq<Seq<u8>>, j: int) -> Seq<int>
        decreases j,
    {
        if j <= 0 {
            Seq::empty()
        } else {
            let prev = Self::free_cols_upto(m, j - 1);
            if Self::is_free_col(m, j - 1) {
                prev.push(j - 1)
            } else {
                prev
            }
        }
    }

    /// The free-column list is strictly increasing and lies below `j`.
    pub proof fn lemma_free_cols_increasing(m: Seq<Seq<u8>>, j: int)
        ensures
            forall|t: int|
                0 <= t < Self::free_cols_upto(m, j).len() ==> 0 <= #[trigger] Self::free_cols_upto(
                    m,
                    j,
                )[t] < j,
            forall|t1: int, t2: int|
                0 <= t1 < t2 < Self::free_cols_upto(m, j).len() ==> Self::free_cols_upto(m, j)[t1]
                    < Self::free_cols_upto(m, j)[t2],
        decreases j,
    {
        if j > 0 {
            Self::lemma_free_cols_increasing(m, j - 1);
            let prev = Self::free_cols_upto(m, j - 1);
            let cur = Self::free_cols_upto(m, j);
            if Self::is_free_col(m, j - 1) {
                assert(cur == prev.push(j - 1));
                assert forall|t: int| 0 <= t < cur.len() implies 0 <= #[trigger] cur[t] < j by {
                    if t < prev.len() {
                        assert(cur[t] == prev[t]);
                    } else {
                        assert(cur[t] == j - 1);
                    }
                }
                assert forall|t1: int, t2: int| 0 <= t1 < t2 < cur.len() implies cur[t1]
                    < cur[t2] by {
                    assert(cur[t1] == prev[t1]);
                    if t2 < prev.len() {
                        assert(cur[t2] == prev[t2]);
                    } else {
                        assert(cur[t2] == j - 1);
                        assert(prev[t1] < j - 1);
                    }
                }
            } else {
                assert(cur == prev);
            }
        }
    }

    /// Kernel basis of a matrix in reduced row-echelon form: one vector per
    /// free (non-pivot) column, carrying a 1 at that free column. Every
    /// returned vector is nonzero and the matrix-vector product with it over
    /// GF(2) is the zero vector.
    ///
    /// The construction pairs the pivot found in column scan order with the
    /// row at the matching cursor position; the reduced-form precondition is
    /// what makes that pairing exact, and the contract is proved under it.
    pub fn kernel(&self) -> (res: Vec<Vec<u8>>)
        requires
            self.wf(),
            is_rref(self@),
        ensures
            res@.len() == self.ncols_spec() - count_pivot_rows(self@),
            res@.len() == Self::free_cols_upto(self@, self.ncols_spec()).len(),
            forall|t: int|
                0 <= t < res@.len() ==> {
                    &&& (#[trigger] res@[t])@.len() == self.ncols_spec()
                    &&& bit_row(res@[t]@)
                    &&& in_kernel(self@, res@[t]@)
                    &&& !is_zero_row_spec(res@[t]@)
                },
            forall|t: int|
                0 <= t < res@.len() ==> (#[trigger] res@[t])@[Self::free_cols_upto(
                    self@,
                    self.ncols_spec(),
                )[t]] == 1,
            forall|t: int, u: int|
                #![trigger res@[t], Self::free_cols_upto(self@, self.ncols_spec())[u]]
                0 <= t < res@.len() && 0 <= u < res@.len() && u != t ==> res@[t]@[
                    Self::free_cols_upto(self@, self.ncols_spec())[u]] == 0,
    {
        let rows = self.nrows();
        let cols = self.ncols();
        let mut pivots: Vec<usize> = Vec::new();
        let mut free_columns: Vec<usize> = Vec::new();
        let mut row_index: usize = 0;
        let mut j: usize = 0;
        proof {
            if rows > 0 {
                lemma_pivot_props(self@[0]);
            }
        }
        while j < cols
            invariant
                j <= cols,
                row_index <= rows,
                row_index <= j,
                pivots@.len() == row_index,
                pivots@.len() + free_columns@.len() == j,
                forall|r: int|
                    0 <= r < row_index ==> pivot_spec(#[trigger] self@[r]) == Some(
                        pivots@[r] as int,
                    ) && pivots@[r] < j,
                forall|r1: int, r2: int|
                    #![trigger pivots@[r1], pivots@[r2]]
                    0 <= r1 < r2 < row_index ==> pivots@[r1] < pivots@[r2],
                row_index < rows && pivot_spec(self@[row_index as int]) is Some ==> pivot_of(
                    self@,
                    row_index as int,
                ) >= j,
                forall|t: int|
                    0 <= t < free_columns@.len() ==> #[trigger] free_columns@[t] < j
                        && Self::is_free_col(self@, free_columns@[t] as int),
                Self::free_cols_upto(self@, j as int) =~= free_columns@.map_values(
                    |c: usize| c as int,
                ),
            decreases cols - j,
        {
            if row_index < rows && self.get(row_index, j) == 1 {
                proof {
                    lemma_pivot_props(self@[row_index as int]);
                    assert(pivot_spec(self@[row_index as int]) == Some(j as int));
                    if Self::is_free_col(self@, j as int) {
                        assert(pivot_of(self@, row_index as int) != j);
                        assert(false);
                    }
                    assert(Self::free_cols_upto(self@, j + 1) =~= Self::free_cols_upto(
                        self@,
                        j as int,
                    ));
                }
                pivots.push(j);
                row_index += 1;
                proof {
                    if row_index < rows && pivot_spec(self@[row_index as int]) is Some {
                        assert(pivot_of(self@, row_index - 1) < pivot_of(self@, row_index as int));
                        lemma_pivot_props(self@[row_index as int]);
                    }
                    assert forall|r1: int, r2: int|
                        #![trigger pivots@[r1], pivots@[r2]]
                        0 <= r1 < r2 < row_index implies pivots@[r1] < pivots@[r2] by {
                        assert(pivot_spec(self@[r1]) == Some(pivots@[r1] as int));
                        assert(pivot_spec(self@[r2]) == Some(pivots@[r2] as int));
                        if r2 == row_index - 1 {
                            assert(pivots@[r1] < j);
                            assert(pivots@[r2] == j);
                        }
                    }
                }
            } else {
                proof {
                    // Column j is no row's pivot: earlier pivots sit left of
                    // it, the cursor row's pivot sits right of it, and later
                    // rows' pivots sit farther right still.
                    assert forall|r: int|
                        0 <= r < rows && pivot_spec(#[trigger] self@[r]) is Some implies pivot_of(
                        self@,
                        r,
                    ) != j by {
                        if r < row_index {
                            assert(pivot_spec(self@[r]) == Some(pivots@[r] as int));
                        } else {
                            lemma_pivot_props(self@[r]);
                            if r == row_index {
                                assert(row_index < rows);
                                assert(self@[r][j as int] != 1);
                            } else {
                                assert(row_index < rows);
                                assert(pivot_spec(self@[row_index as int]) is Some);
                                assert(pivot_of(self@, row_index as int) < pivot_of(self@, r));
                                assert(self@[row_index as int][j as int] != 1);
                                lemma_pivot_props(self@[row_index as int]);
                            }
                        }
                    }
                    assert(Self::is_free_col(self@, j as int));
                }
                let ghost fc_pre = free_columns@;
                free_columns.push(j);
                proof {
                    assert(free_columns@.map_values(|c: usize| c as int) =~= fc_pre.map_values(
                        |c: usize| c as int,
                    ).push(j as int));
                    assert(Self::free_cols_upto(self@, j + 1) =~= free_columns@.map_values(
                        |c: usize| c as int,
                    ));
                }
            }
            j += 1;
        }
        proof {
            // Every pivot row was consumed by the scan.
            assert forall|r: int| row_index <= r < rows implies pivot_spec(
                #[trigger] self@[r],
            ) is None by {
                lemma_pivot_props(self@[r]);
                if pivot_spec(self@[r]) is Some {
                    if r == row_index {
                        assert(pivot_of(self@, r) >= cols);
                    } else {
                        assert(pivot_spec(self@[row_index as int]) is Some);
                        assert(pivot_of(self@, row_index as int) >= cols);
                        lemma_pivot_props(self@[row_index as int]);
                    }
                }
            }
            lemma_count_pivot_rows(self@, row_index as int);
        }
        let np = pivots.len();
        let nf = free_columns.len();
        let ghost fcs = Self::free_cols_upto(self@, cols as int);
        proof {
            assert(fcs.len() == nf);
            assert(forall|t: int| 0 <= t < nf ==> #[trigger] fcs[t] == free_columns@[t] as int);
            Self::lemma_free_cols_increasing(self@, cols as int);
        }
        let mut kernel_base: Vec<Vec<u8>> = Vec::new();
        let mut idx: usize = 0;
        while idx < nf
            invariant
                idx <= nf,
                kernel_base@.len() == idx,
                forall|t: int|
                    0 <= t < idx ==> {
                        &&& (#[trigger] kernel_base@[t])@.len() == cols
                        &&& bit_row(kernel_base@[t]@)
                        &&& in_kernel(self@, kernel_base@[t]@)
                        &&& !is_zero_row_spec(kernel_base@[t]@)
                    },
                forall|t: int| 0 <= t < idx ==> (#[trigger] kernel_base@[t])@[fcs[t]] == 1,
                forall|t: int, u: int|
                    #![trigger kernel_base@[t], fcs[u]]
                    0 <= t < idx && 0 <= u < nf && u != t ==> kernel_base@[t]@[fcs[u]] == 0,
            decreases nf - idx,
        {
            let free_col = free_columns[idx];
            assert(Self::is_free_col(self@, free_col as int));
            let mut kv: Vec<u8> = Vec::new();
            let mut z: usize = 0;
            while z < cols
                invariant
                    z <= cols,
                    kv@.len() == z,
                    forall|c: int| 0 <= c < z ==> #[trigger] kv@[c] == 0,
                decreases cols - z,
            {
                kv.push(0);
                z += 1;
            }
            kv.set(free_col, 1);
            let mut r: usize = 0;
            while r < np
                invariant
                    r <= np,
                    kv@.len() == cols,
                    kv@[free_col as int] == 1,
                    bit_row(kv@),
                    forall|rr: int|
                        0 <= rr < r ==> #[trigger] kv@[pivots@[rr] as int] == self@[rr][free_col as int],
                    forall|c: int|
                        0 <= c < cols && c != free_col && !(exists|rr: int|
                            0 <= rr < r && #[trigger] pivots@[rr] == c) ==> #[trigger] kv@[c] == 0,
                decreases np - r,
            {
                let p_index = pivots[r];
                assert(pivot_spec(self@[r as int]) == Some(p_index as int));
                assert(p_index != free_col);
                let mut sum: u8 = 0;
                let mut col: usize = 0;
                while col < cols
                    invariant
                        col <= cols,
                        r < np,
                        p_index == pivots@[r as int],
                        is_bit(sum),
                        sum == (if free_col < col && free_col != p_index {
                            self@[r as int][free_col as int]
                        } else {
                            0
                        }),
                    decreases cols - col,
                {
                    proof {
                        if col != p_index && col as int != free_col {
                            if exists|rr: int|
                                0 <= rr < pivots@.len() && #[trigger] pivots@[rr] == col {
                                let rr = choose|rr: int|
                                    0 <= rr < pivots@.len() && #[trigger] pivots@[rr] == col;
                                assert(pivot_spec(self@[rr]) == Some(col as int));
                                if rr != r {
                                    assert(self@[r as int][col as int] == 0);
                                } else {
                                    assert(col == p_index);
                                }
                            } else {
                                assert(kv@[col as int] == 0);
                            }
                        }
                    }
                    if col != p_index {
                        if self.get(r, col) == 1 && kv[col] == 1 {
                            sum = if sum == 1 {
                                0
                            } else {
                                1
                            };
                        }
                    }
                    col += 1;
                }
                assert(sum == self@[r as int][free_col as int]);
                let ghost kv_pre = kv@;
                kv.set(p_index, sum);
                proof {
                    assert forall|c: int|
                        0 <= c < cols && c != free_col && !(exists|rr: int|
                            0 <= rr < r + 1 && #[trigger] pivots@[rr] == c) implies #[trigger] kv@[c]
                        == 0 by {
                        if c != p_index {
                            assert(kv@[c] == kv_pre[c]);
                        }
                    }
                }
                r += 1;
            }
            // kv now solves the system: each pivot row's dot product pairs
            // the entry at its pivot column with the one at the free column.
            proof {
                assert forall|i: int| 0 <= i < rows implies row_dot(#[trigger] self@[i], kv@)
                    == 0 by {
                    if i < np {
                        let p = pivots@[i] as int;
                        let fc = free_col as int;
                        assert(pivot_spec(self@[i]) == Some(p));
                        assert(p != fc);
                        assert(kv@[p] == self@[i][fc]);
                        assert forall|c: int|
                            0 <= c < cols && c != p && c != fc implies bmul(
                            self@[i][c],
                            kv@[c],
                        ) == 0 by {
                            if exists|rr: int|
                                0 <= rr < pivots@.len() && #[trigger] pivots@[rr] == c {
                                let rr = choose|rr: int|
                                    0 <= rr < pivots@.len() && #[trigger] pivots@[rr] == c;
                                assert(pivot_spec(self@[rr]) == Some(c));
                                assert(rr != i);
                                assert(self@[i][c] == 0);
                            } else {
                                assert(kv@[c] == 0);
                            }
                        }
                        assert(self@[i][p] == 1) by {
                            lemma_pivot_props(self@[i]);
                        }
                        let x = self@[i][fc];
                        assert(bmul(self@[i][p], kv@[p]) == x);
                        assert(bmul(self@[i][fc], kv@[fc]) == x);
                        if p < fc {
                            lemma_dot_support2(self@[i], kv@, p, fc, 0);
                        } else {
                            lemma_dot_support2(self@[i], kv@, fc, p, 0);
                        }
                    } else {
                        assert(is_zero_row_spec(self@[i])) by {
                            lemma_pivot_props(self@[i]);
                        }
                        lemma_dot_zero_row(self@[i], kv@, 0);
                    }
                }
            }
            // kv carries a 1 at its own free column and 0 at every other
            // free column: the basis vectors are linearly independent.
            proof {
                assert(fcs[idx as int] == free_col as int);
                assert forall|u: int| 0 <= u < nf && u != idx implies kv@[fcs[u]] == 0 by {
                    let c = fcs[u];
                    assert(c == free_columns@[u] as int);
                    assert(free_columns@[u] < cols && Self::is_free_col(self@, c));
                    assert(c != free_col as int);
                    if exists|rr: int| 0 <= rr < pivots@.len() && #[trigger] pivots@[rr] as int
                        == c {
                        let rr = choose|rr: int|
                            0 <= rr < pivots@.len() && #[trigger] pivots@[rr] as int == c;
                        assert(pivot_spec(self@[rr]) == Some(c));
                        assert(pivot_of(self@, rr) != c);
                        assert(false);
                    }
                    assert(kv@[c] == 0);
                }
            }
            kernel_base.push(kv);
            idx += 1;
        }
        proof {
            assert(Self::free_cols_upto(self@, self.ncols_spec()) == fcs);
        }
        kernel_base
    }

    /// Re-reduction after a row was appended to an already-reduced matrix:
    /// restores reduced row-echelon form.
    ///
    /// Every step is a logged row operation (a swap as three consecutive
    /// adds), so the result is exactly the replay of the returned log
    /// against the input: the two matrices are row-equivalent and share
    /// their kernel. The freshly extended matrix is re-reduced with the same
    /// canonical elimination as `row_echelon_full_matrix`, so the result is
    /// in reduced row-echelon form; when the appended row left the matrix
    /// reduced already, it comes back unchanged with an empty log.
    pub fn echelon_form_last_row(&self) -> (res: (Matrix, Vec<(usize, usize)>))
        requires
            self.wf(),
            self@.len() >= 1,
        ensures
            res.0.wf(),
            res.0@.len() == self@.len(),
            res.0.ncols_spec() == self.ncols_spec(),
            ops_valid(res.1@, self@.len() as int),
            res.0@ == spec_apply_ops(self@, res.1@),
            is_rref(res.0@),
            is_rref(self@) ==> res.0@ == self@ && res.1@.len() == 0,
            exists|units: Seq<Seq<(usize, usize)>>|
                log_units_valid(units, self@.len() as int) && (#[trigger] units.flatten())
                    == res.1@,
    {
        self.row_echelon_full_matrix()
    }

    /// Reduces the matrix and extracts a kernel basis of the reduced form.
    ///
    /// Row additions preserve the solution set exactly, so every returned
    /// vector is annihilated by the *original* matrix as well: for each
    /// vector `k`, the product of this matrix with `k` over GF(2) is the
    /// zero vector.
    pub fn reduced_kernel(&self) -> (res: Vec<Vec<u8>>)
        requires
            self.wf(),
        ensures
            forall|t: int|
                0 <= t < res@.len() ==> {
                    &&& (#[trigger] res@[t])@.len() == self.ncols_spec()
                    &&& bit_row(res@[t]@)
                    &&& in_kernel(self@, res@[t]@)
                    &&& !is_zero_row_spec(res@[t]@)
                },
            exists|ops: Seq<(usize, usize)>|
                {
                    &&& ops_valid(ops, self@.len() as int)
                    &&& is_rref(#[trigger] spec_apply_ops(self@, ops))
                    &&& res@.len() == self.ncols_spec() - count_pivot_rows(
                        spec_apply_ops(self@, ops),
                    )
                },
    {
        let (reduced, operations) = self.row_echelon_full_matrix();
        let base = reduced.kernel();
        proof {
            assert forall|t: int| 0 <= t < base@.len() implies in_kernel(
                self@,
                (#[trigger] base@[t])@,
            ) by {
                lemma_apply_ops_kernel(self@, self.ncols_spec(), operations@, base@[t]@);
            }
            assert(is_rref(spec_apply_ops(self@, operations@)));
        }
        base
    }

    /// The rank: scans rows in order, counting each row whose pivot column
    /// no earlier row has claimed.
    pub fn rank(&self) -> (r: usize)
        requires
            self.wf(),
        ensures
            r as int == rank_spec(self@),
    {
        let rows = self.nrows();
        let cols = self.ncols();
        let mut flags: Vec<bool> = Vec::new();
        let mut j: usize = 0;
        while j < cols
            invariant
                j <= cols,
                flags@.len() == j,
                forall|c: int| 0 <= c < j ==> !(#[trigger] flags@[c]),
            decreases cols - j,
        {
            flags.push(false);
            j += 1;
        }
        let ghost claimed0 = Set::<int>::new(|c: int| 0 <= c < flags@.len() && flags@[c]);
        proof {
            assert(claimed0 =~= Set::<int>::empty());
        }
        let mut count: usize = 0;
        let mut i: usize = 0;
        while i < rows
            invariant
                i <= rows,
                count <= i,
                flags@.len() == cols,
                rank_spec(self@) == count + rank_from(
                    self@,
                    i as int,
                    Set::<int>::new(|c: int| 0 <= c < flags@.len() && flags@[c]),
                ),
            decreases rows - i,
        {
            let ghost claimed = Set::<int>::new(|c: int| 0 <= c < flags@.len() && flags@[c]);
            proof {
                lemma_rank_from_bounds(self@, i as int + 1, claimed);
            }
            match Self::get_pivot(&self.elements[i]) {
                None => {},
                Some(p) => {
                    assert(p < cols) by {
                        lemma_pivot_props(self@[i as int]);
                    }
                    if !flags[p] {
                        flags.set(p, true);
                        count += 1;
                        proof {
                            let claimed2 = Set::<int>::new(
                                |c: int| 0 <= c < flags@.len() && flags@[c],
                            );
                            assert(claimed2 =~= claimed.insert(p as int));
                        }
                    }
                },
            }
            i += 1;
        }
        count
    }
}

} // verus!
