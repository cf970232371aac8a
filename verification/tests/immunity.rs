use algebraic_immunity::monomials::{evaluate, generate_monomials, index_to_point, weight};
use algebraic_immunity::search::{combine_results, ImmunityError, RestrictedAI};

#[test]
fn index_to_point_uses_binary_notation() {
    assert_eq!(index_to_point(0, 2), vec![0, 0]);
    assert_eq!(index_to_point(1, 2), vec![0, 1]);
    assert_eq!(index_to_point(2, 2), vec![1, 0]);
    assert_eq!(index_to_point(3, 2), vec![1, 1]);
    assert_eq!(index_to_point(5, 3), vec![1, 0, 1]);
}

#[test]
fn monomials_come_degree_by_degree() {
    let e = generate_monomials(2, 2);
    assert_eq!(e, vec![vec![0, 0], vec![0, 1], vec![1, 0], vec![1, 1]]);
}

#[test]
fn monomial_count_matches_the_binomial_sums() {
    let e = generate_monomials(3, 3);
    assert_eq!(e.len(), 8);
    let partial = generate_monomials(3, 1);
    assert_eq!(partial.len(), 4);
}

#[test]
fn evaluate_is_an_and_reduction_over_marked_positions() {
    assert_eq!(evaluate(&vec![0, 0], &vec![0, 0]), 1);
    assert_eq!(evaluate(&vec![0, 1], &vec![1, 1]), 1);
    assert_eq!(evaluate(&vec![0, 1], &vec![1, 0]), 0);
    assert_eq!(evaluate(&vec![1, 1], &vec![1, 1]), 1);
    assert_eq!(evaluate(&vec![1, 1], &vec![0, 1]), 0);
}

#[test]
fn weight_counts_marked_positions() {
    assert_eq!(weight(&vec![0, 0, 0]), 0);
    assert_eq!(weight(&vec![1, 0, 1]), 2);
    assert_eq!(weight(&vec![1, 1, 1]), 3);
}

#[test]
fn compute_z_partitions_by_truth_value() {
    let ai = RestrictedAI::new(vec![0, 1, 1, 0]);
    let (z, z_c, s) = ai.compute_z(vec![1, 3], 2);
    assert_eq!(z, vec![vec![0, 1]]);
    assert_eq!(z_c, vec![vec![1, 1]]);
    assert_eq!(s, vec![vec![0, 1], vec![1, 1]]);
}

#[test]
fn compute_z_ignores_duplicate_subset_indices() {
    let ai = RestrictedAI::new(vec![0, 1, 1, 0]);
    let (z, z_c, s) = ai.compute_z(vec![1, 1, 2], 2);
    assert_eq!(z, vec![vec![0, 1], vec![1, 0]]);
    assert!(z_c.is_empty());
    assert_eq!(s.len(), 2);
}

#[test]
fn combine_results_takes_the_minimum() {
    assert_eq!(combine_results(None, None), 0);
    assert_eq!(combine_results(Some(3), None), 3);
    assert_eq!(combine_results(None, Some(2)), 2);
    assert_eq!(combine_results(Some(3), Some(2)), 2);
    assert_eq!(combine_results(Some(1), Some(4)), 1);
}

#[test]
fn xor_on_the_full_square_has_immunity_one() {
    let r = RestrictedAI::algebraic_immunity(vec![0, 1, 1, 0], vec![0, 1, 2, 3], 2);
    assert_eq!(r, 1);
}

#[test]
fn immunity_equals_the_fold_of_the_two_roles() {
    // The two role-swapped searches, run by hand, fold to the reported
    // immunity.
    let ai = RestrictedAI::new(vec![0, 1, 1, 0]);
    let (z, z_c, s) = ai.compute_z(vec![0, 1, 2, 3], 2);
    let e = generate_monomials(2, 2);
    let r1 = RestrictedAI::find_min_annihilator(z.clone(), z_c.clone(), e.clone(), s.clone());
    let r2 = RestrictedAI::find_min_annihilator(z_c, z, e, s);
    let whole = RestrictedAI::algebraic_immunity(vec![0, 1, 1, 0], vec![0, 1, 2, 3], 2);
    assert_eq!(whole, combine_results(r1, r2));
}

#[test]
fn constant_zero_table_has_immunity_zero() {
    for n in 1..4usize {
        let table = vec![0u8; 1 << n];
        let subset: Vec<usize> = (0..(1 << n)).collect();
        assert_eq!(RestrictedAI::algebraic_immunity(table, subset, n), 0);
    }
}

#[test]
fn constant_one_table_has_immunity_zero() {
    for n in 1..4usize {
        let table = vec![1u8; 1 << n];
        let subset: Vec<usize> = (0..(1 << n)).collect();
        assert_eq!(RestrictedAI::algebraic_immunity(table, subset, n), 0);
    }
}

#[test]
fn single_valued_subset_has_immunity_zero() {
    // The subset picks only value-0 points of the XOR table: one class is
    // empty, so no constraint is expressible.
    let r = RestrictedAI::algebraic_immunity(vec![0, 1, 1, 0], vec![0, 3], 2);
    assert_eq!(r, 0);
    let r1 = RestrictedAI::algebraic_immunity(vec![0, 1, 1, 0], vec![1, 2], 2);
    assert_eq!(r1, 0);
}

#[test]
fn immunity_stays_within_the_variable_count() {
    let maj = vec![0, 0, 0, 1, 0, 1, 1, 1];
    let subset: Vec<usize> = (0..8).collect();
    let r = RestrictedAI::algebraic_immunity(maj, subset, 3);
    assert!(r <= 3);
    assert_eq!(r, 2);
}

#[test]
fn conjunction_has_immunity_one() {
    // f = x1 AND x2: a linear annihilator exists on either class.
    let r = RestrictedAI::algebraic_immunity(vec![0, 0, 0, 1], vec![0, 1, 2, 3], 2);
    assert_eq!(r, 1);
}

#[test]
fn single_variable_function_has_immunity_one() {
    // f reads one input bit; the table alternates with the low bit.
    let r = RestrictedAI::algebraic_immunity(vec![0, 1, 0, 1, 0, 1, 0, 1], (0..8).collect(), 3);
    assert_eq!(r, 1);
}

#[test]
fn restricting_xor_to_a_proper_subset_keeps_immunity_one() {
    // XOR on the three points {00, 01, 10}: both classes stay nonempty and
    // a degree-1 annihilator still exists.
    let r = RestrictedAI::algebraic_immunity(vec![0, 1, 1, 0], vec![0, 1, 2], 2);
    assert_eq!(r, 1);
}

#[test]
fn subset_order_does_not_matter() {
    let a = RestrictedAI::algebraic_immunity(vec![0, 1, 1, 0], vec![3, 0, 2, 1], 2);
    let b = RestrictedAI::algebraic_immunity(vec![0, 1, 1, 0], vec![0, 1, 2, 3], 2);
    assert_eq!(a, b);
}

#[test]
fn checked_call_accepts_valid_inputs() {
    let r = RestrictedAI::algebraic_immunity_checked(vec![0, 1, 1, 0], vec![0, 1, 2, 3], 2);
    assert_eq!(r, Ok(1));
}

#[test]
fn checked_call_rejects_a_wrong_table_length() {
    let r = RestrictedAI::algebraic_immunity_checked(vec![0, 1, 1], vec![0, 1], 2);
    assert_eq!(r, Err(ImmunityError::TableSizeMismatch));
}

#[test]
fn checked_call_rejects_an_out_of_range_subset_index() {
    let r = RestrictedAI::algebraic_immunity_checked(vec![0, 1, 1, 0], vec![0, 4], 2);
    assert_eq!(r, Err(ImmunityError::SubsetIndexOutOfRange));
}
