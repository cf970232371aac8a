use algebraic_immunity::matrix::{Matrix, MatrixError};

fn mat(rows: Vec<Vec<u8>>) -> Matrix {
    Matrix::new(rows)
}

#[test]
fn try_new_accepts_rectangular_bit_rows() {
    let m = Matrix::try_new(vec![vec![1, 0], vec![0, 1]]).unwrap();
    assert_eq!(m.elements, vec![vec![1, 0], vec![0, 1]]);
}

#[test]
fn try_new_rejects_unequal_row_lengths() {
    let r = Matrix::try_new(vec![vec![1, 0], vec![1]]);
    assert_eq!(r.unwrap_err(), MatrixError::UnequalRowLengths);
}

#[test]
fn try_new_rejects_entries_outside_gf2() {
    let r = Matrix::try_new(vec![vec![2, 0], vec![0, 1]]);
    assert_eq!(r.unwrap_err(), MatrixError::NonBitEntry);
}

#[test]
fn add_rows_xors_source_into_target() {
    let mut m = mat(vec![vec![1, 1, 0], vec![0, 1, 1]]);
    m.add_rows(0, 1);
    assert_eq!(m.elements, vec![vec![1, 0, 1], vec![0, 1, 1]]);
}

#[test]
fn swap_rows_exchanges_rows() {
    let mut m = mat(vec![vec![1, 0], vec![0, 1]]);
    m.swap_rows(0, 1);
    assert_eq!(m.elements, vec![vec![0, 1], vec![1, 0]]);
}

#[test]
fn swap_via_three_adds_exchanges_rows() {
    // The swap-via-three-adds law on concrete rows: add(a,b); add(b,a);
    // add(a,b) is exactly a swap of rows a and b.
    let mut m = mat(vec![vec![1, 0, 1], vec![0, 1, 1]]);
    m.add_rows(0, 1);
    m.add_rows(1, 0);
    m.add_rows(0, 1);
    assert_eq!(m.elements, vec![vec![0, 1, 1], vec![1, 0, 1]]);
}

#[test]
fn is_zero_row_detects_zero_rows() {
    let m = mat(vec![vec![0, 0], vec![0, 1]]);
    assert!(m.is_zero_row(0));
    assert!(!m.is_zero_row(1));
}

#[test]
fn get_sub_matrix_takes_a_row_range() {
    let m = mat(vec![vec![1, 0], vec![0, 1], vec![1, 1]]);
    let s = m.get_sub_matrix(1, 3);
    assert_eq!(s.elements, vec![vec![0, 1], vec![1, 1]]);
}

#[test]
fn rank_counts_distinct_pivot_columns() {
    // Both rows lead in column 0, so the scan counts a single pivot.
    let m = mat(vec![vec![1, 1], vec![1, 0]]);
    assert_eq!(m.rank(), 1);
    let full = mat(vec![vec![1, 0], vec![0, 1]]);
    assert_eq!(full.rank(), 2);
    let zero = mat(vec![vec![0, 0], vec![0, 0]]);
    assert_eq!(zero.rank(), 0);
}

#[test]
fn row_echelon_reduces_to_reduced_form() {
    let m = mat(vec![vec![1, 1, 0], vec![0, 1, 1]]);
    let (r, ops) = m.row_echelon_full_matrix();
    assert_eq!(r.elements, vec![vec![1, 0, 1], vec![0, 1, 1]]);
    assert_eq!(r.rank(), 2);
    assert!(!ops.is_empty());
}

#[test]
fn row_echelon_preserves_rank_here() {
    // Rank before and after reduction on a matrix whose rows already lead
    // in distinct columns.
    let m = mat(vec![vec![1, 1, 0], vec![0, 1, 1]]);
    let before = m.rank();
    let (r, _) = m.row_echelon_full_matrix();
    assert_eq!(r.rank(), before);
}

#[test]
fn row_echelon_is_idempotent() {
    let m = mat(vec![vec![0, 1, 1], vec![1, 1, 0], vec![1, 0, 1]]);
    let (once, _) = m.row_echelon_full_matrix();
    let (twice, ops) = once.row_echelon_full_matrix();
    assert_eq!(twice.elements, once.elements);
    assert!(ops.is_empty());
}

#[test]
fn kernel_of_reduced_matrix_solves_the_system() {
    // Spec scenario: M = [[1,1,0],[0,1,1]] reduces with pivots 0 and 1 and
    // has exactly one kernel basis vector, annihilated by M itself.
    let m = mat(vec![vec![1, 1, 0], vec![0, 1, 1]]);
    let (r, _) = m.row_echelon_full_matrix();
    let basis = r.kernel();
    assert_eq!(basis, vec![vec![1, 1, 1]]);
    for k in &basis {
        for row in &m.elements {
            let dot: u8 = row.iter().zip(k.iter()).map(|(a, b)| a & b).fold(0, |x, y| x ^ y);
            assert_eq!(dot, 0);
        }
    }
}

#[test]
fn kernel_vectors_mark_their_own_free_column() {
    // One pivot (column 0), two free columns (1 and 2): each basis vector
    // carries a 1 at its own free column and 0 at the other, so the basis
    // is linearly independent.
    let m = mat(vec![vec![1, 1, 1]]);
    let (r, _) = m.row_echelon_full_matrix();
    let basis = r.kernel();
    assert_eq!(basis, vec![vec![1, 1, 0], vec![1, 0, 1]]);
}

#[test]
fn kernel_of_full_rank_matrix_is_empty() {
    let m = mat(vec![vec![1, 0], vec![0, 1]]);
    let (r, _) = m.row_echelon_full_matrix();
    assert!(r.kernel().is_empty());
}

#[test]
fn reduced_kernel_annihilates_the_original_matrix() {
    let m = mat(vec![vec![1, 1, 0, 1], vec![0, 1, 1, 0], vec![1, 0, 1, 1]]);
    let basis = m.reduced_kernel();
    assert!(!basis.is_empty());
    for k in &basis {
        assert!(k.iter().any(|&b| b == 1));
        for row in &m.elements {
            let dot: u8 = row.iter().zip(k.iter()).map(|(a, b)| a & b).fold(0, |x, y| x ^ y);
            assert_eq!(dot, 0);
        }
    }
}

#[test]
fn append_row_and_column_extend_the_matrix() {
    let mut m = mat(vec![vec![1, 0], vec![0, 1]]);
    m.append_row(vec![1, 1]);
    assert_eq!(m.elements, vec![vec![1, 0], vec![0, 1], vec![1, 1]]);
    m.append_column(vec![0, 1, 0]);
    assert_eq!(m.elements, vec![vec![1, 0, 0], vec![0, 1, 1], vec![1, 1, 0]]);
}

#[test]
fn echelon_form_last_row_restores_the_appended_row() {
    // A reduced 2x3 matrix with one row appended: the incremental fix-up
    // cancels the new row against the pivots above it.
    let m = mat(vec![vec![1, 0, 1], vec![0, 1, 1], vec![1, 1, 0]]);
    let (r, ops) = m.echelon_form_last_row();
    assert_eq!(r.elements, vec![vec![1, 0, 1], vec![0, 1, 1], vec![0, 0, 0]]);
    assert_eq!(ops, vec![(2, 0), (2, 1)]);
}

#[test]
fn echelon_form_last_row_log_replays_to_the_result() {
    // The returned log, replayed with the add primitive alone, reproduces
    // the returned matrix from the input.
    let m = mat(vec![vec![0, 1, 1], vec![1, 1, 0], vec![1, 0, 1]]);
    let (r, ops) = m.echelon_form_last_row();
    let mut replay = m.copy();
    for (t, s) in ops {
        replay.add_rows(t, s);
    }
    assert_eq!(replay.elements, r.elements);
}

#[test]
fn copy_is_independent_of_the_original() {
    let m = mat(vec![vec![1, 0], vec![0, 1]]);
    let mut c = m.copy();
    c.add_rows(0, 1);
    assert_eq!(m.elements, vec![vec![1, 0], vec![0, 1]]);
    assert_eq!(c.elements, vec![vec![1, 1], vec![0, 1]]);
}
