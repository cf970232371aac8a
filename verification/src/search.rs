#![verifier::loop_isolation(false)]
use vstd::prelude::*;

use crate::gf2::{
    bit_row, bxor, dot_from, is_bit, lemma_apply_ops_vec_snoc, lemma_apply_ops_vec_wf,
    lemma_dot_from_bit, mat_wf, ops_valid, row_dot, spec_apply_ops_vec, vec_op,
};
use crate::matrix::{rows_view, Matrix};
use vstd::arithmetic::power2::pow2;
use crate::monomials::{eval_monomial, weight_spec};

verus! {

/// Every row of `v` has width `n` and holds GF(2) values.
pub open spec fn uniform_rows(v: Seq<Seq<u8>>, n: int) -> bool {
    forall|i: int| 0 <= i < v.len() ==> (#[trigger] v[i]).len() == n && bit_row(v[i])
}

/// The evaluation row of one point: entry `c` is monomial `c` evaluated at
/// the point.
pub open spec fn eval_row_spec(monos: Seq<Seq<u8>>, p: Seq<u8>) -> Seq<u8> {
    Seq::new(monos.len(), |c: int| eval_monomial(monos[c], p))
}

/// The Vandermonde-style evaluation matrix: entry (r, c) is monomial `c`
/// evaluated at point `r`.
pub open spec fn eval_matrix_spec(points: Seq<Seq<u8>>, monos: Seq<Seq<u8>>) -> Seq<Seq<u8>> {
    Seq::new(points.len(), |r: int| eval_row_spec(monos, points[r]))
}

/// The evaluation column of one monomial: entry `r` is the monomial
/// evaluated at point `r`.
pub open spec fn eval_col_spec(points: Seq<Seq<u8>>, mono: Seq<u8>) -> Seq<u8> {
    Seq::new(points.len(), |r: int| eval_monomial(mono, points[r]))
}

/// The rows `start..end` of a point list, as an owned list.
pub fn sub_list(v: &Vec<Vec<u8>>, start: usize, end: usize) -> (res: Vec<Vec<u8>>)
    requires
        start <= end <= v@.len(),
    ensures
        rows_view(res@) == rows_view(v@).subrange(start as int, end as int),
        res@.len() == end - start,
{
    let mut res: Vec<Vec<u8>> = Vec::new();
    let mut i: usize = start;
    while i < end
        invariant
            start <= i <= end,
            rows_view(res@) =~= rows_view(v@).subrange(start as int, i as int),
        decreases end - i,
    {
        let mut row: Vec<u8> = Vec::new();
        let mut j: usize = 0;
        while j < v[i].len()
            invariant
                j <= v@[i as int]@.len(),
                i < end,
                row@ =~= v@[i as int]@.take(j as int),
            decreases v@[i as int]@.len() - j,
        {
            row.push(v[i][j]);
            j += 1;
        }
        assert(row@ =~= v@[i as int]@);
        res.push(row);
        assert(rows_view(res@) =~= rows_view(v@).subrange(start as int, i + 1));
        i += 1;
    }
    assert(rows_view(res@) =~= rows_view(v@).subrange(start as int, end as int));
    res
}

/// The evaluation row of `p` over the monomial list.
fn eval_row(monos: &Vec<Vec<u8>>, p: &Vec<u8>) -> (res: Vec<u8>)
    requires
        forall|c: int| 0 <= c < monos@.len() ==> (#[trigger] monos@[c])@.len() == p@.len(),
    ensures
        res@ == eval_row_spec(rows_view(monos@), p@),
        res@.len() == monos@.len(),
        bit_row(res@),
{
    let mut res: Vec<u8> = Vec::new();
    let mut c: usize = 0;
    while c < monos.len()
        invariant
            c <= monos@.len(),
            res@.len() == c,
            forall|t: int|
                0 <= t < c ==> #[trigger] res@[t] == eval_monomial(monos@[t]@, p@),
        decreases monos@.len() - c,
    {
        res.push(crate::monomials::evaluate(&monos[c], p));
        c += 1;
    }
    assert(res@ =~= eval_row_spec(rows_view(monos@), p@));
    res
}

/// The evaluation column of `mono` over the first `count` points.
fn eval_col(points: &Vec<Vec<u8>>, count: usize, mono: &Vec<u8>) -> (res: Vec<u8>)
    requires
        count <= points@.len(),
        forall|r: int| 0 <= r < points@.len() ==> (#[trigger] points@[r])@.len() == mono@.len(),
    ensures
        res@ == eval_col_spec(rows_view(points@).subrange(0, count as int), mono@),
        res@.len() == count,
        bit_row(res@),
{
    let mut res: Vec<u8> = Vec::new();
    let mut r: usize = 0;
    while r < count
        invariant
            r <= count,
            res@.len() == r,
            forall|t: int|
                0 <= t < r ==> #[trigger] res@[t] == eval_monomial(mono@, points@[t]@),
        decreases count - r,
    {
        res.push(crate::monomials::evaluate(mono, &points[r]));
        r += 1;
    }
    assert(res@ =~= eval_col_spec(rows_view(points@).subrange(0, count as int), mono@));
    res
}

/// Replays an operation log against a freshly built column, so that it can
/// be appended to a matrix whose rows the same log has already transformed.
fn apply_ops_to_col(col: Vec<u8>, ops: &Vec<(usize, usize)>) -> (res: Vec<u8>)
    requires
        bit_row(col@),
        ops_valid(ops@, col@.len() as int),
    ensures
        res@ == spec_apply_ops_vec(col@, ops@),
        res@.len() == col@.len(),
        bit_row(res@),
{
    proof {
        lemma_apply_ops_vec_wf(col@, ops@);
    }
    let ghost col0 = col@;
    let mut res = col;
    let mut t: usize = 0;
    while t < ops.len()
        invariant
            t <= ops@.len(),
            res@ == spec_apply_ops_vec(col0, ops@.take(t as int)),
            res@.len() == col0.len(),
            bit_row(res@),
        decreases ops@.len() - t,
    {
        let (tt, ss) = ops[t];
        let a = res[tt];
        let b = res[ss];
        let ghost pre = res@;
        res.set(
            tt,
            if a == b {
                0
            } else {
                1
            },
        );
        proof {
            assert(res@ =~= vec_op(pre, tt as int, ss as int));
            lemma_apply_ops_vec_snoc(col0, ops@.take(t as int), (tt, ss));
            assert(ops@.take(t as int).push((tt, ss)) =~= ops@.take(t + 1));
        }
        t += 1;
    }
    assert(ops@.take(ops@.len() as int) =~= ops@);
    res
}

/// The evaluation matrix of the given points over the given monomials.
pub fn compute_vandermonde(points: &Vec<Vec<u8>>, monos: &Vec<Vec<u8>>, n: usize) -> (res: Matrix)
    requires
        uniform_rows(rows_view(points@), n as int),
        uniform_rows(rows_view(monos@), n as int),
    ensures
        res@ == eval_matrix_spec(rows_view(points@), rows_view(monos@)),
        res@.len() == points@.len(),
        res.wf(),
        points@.len() > 0 ==> res.ncols_spec() == monos@.len(),
    {
    let mut rows: Vec<Vec<u8>> = Vec::new();
    let mut r: usize = 0;
    while r < points.len()
        invariant
            r <= points@.len(),
            rows_view(rows@) =~= eval_matrix_spec(rows_view(points@), rows_view(monos@)).subrange(
                0,
                r as int,
            ),
            rows@.len() == r,
        decreases points@.len() - r,
    {
        proof {
            assert(rows_view(points@)[r as int].len() == n);
            assert forall|c: int| 0 <= c < monos@.len() implies (#[trigger] monos@[c])@.len()
                == points@[r as int]@.len() by {
                assert(rows_view(monos@)[c].len() == n);
            }
        }
        let row = eval_row(monos, &points[r]);
        rows.push(row);
        assert(rows_view(rows@) =~= eval_matrix_spec(
            rows_view(points@),
            rows_view(monos@),
        ).subrange(0, r + 1));
        r += 1;
    }
    let res = Matrix { elements: rows };
    assert(res@ =~= eval_matrix_spec(rows_view(points@), rows_view(monos@)));
    res
}

impl Matrix {
    /// Appends to the matrix one evaluation row per given point.
    pub fn fill_rows(self, points: &Vec<Vec<u8>>, monos: &Vec<Vec<u8>>, n: usize) -> (res: Matrix)
        requires
            self.wf(),
            uniform_rows(rows_view(points@), n as int),
            uniform_rows(rows_view(monos@), n as int),
            self@.len() == 0 || self.ncols_spec() == monos@.len(),
        ensures
            res@ == self@ + eval_matrix_spec(rows_view(points@), rows_view(monos@)),
            res.wf(),
            res@.len() == self@.len() + points@.len(),
    {
        let mut m = self;
        let mut r: usize = 0;
        while r < points.len()
            invariant
                r <= points@.len(),
                m.wf(),
                m@ =~= self@ + eval_matrix_spec(rows_view(points@), rows_view(monos@)).subrange(
                    0,
                    r as int,
                ),
                m@.len() == self@.len() + r,
                m@.len() == 0 || m.ncols_spec() == monos@.len(),
            decreases points@.len() - r,
        {
            proof {
                assert(rows_view(points@)[r as int].len() == n);
                assert forall|c: int| 0 <= c < monos@.len() implies (#[trigger] monos@[c])@.len()
                    == points@[r as int]@.len() by {
                    assert(rows_view(monos@)[c].len() == n);
                }
            }
            let row = eval_row(monos, &points[r]);
            m.append_row(row);
            assert(m@ =~= self@ + eval_matrix_spec(
                rows_view(points@),
                rows_view(monos@),
            ).subrange(0, r + 1));
            r += 1;
        }
        assert(m@ =~= self@ + eval_matrix_spec(rows_view(points@), rows_view(monos@)));
        m
    }

    /// One incremental step of the evaluation matrix: appends the column of
    /// monomial `e[i]` over the first `i` points (with the operation log
    /// replayed on it, so it matches the reduced rows), then the full
    /// evaluation row of point `z[i]`.
    pub fn compute_next(
        self,
        e: &Vec<Vec<u8>>,
        z: &Vec<Vec<u8>>,
        i: usize,
        ops: &Vec<(usize, usize)>,
        n: usize,
    ) -> (res: Matrix)
        requires
            self.wf(),
            self@.len() == i,
            i > 0 ==> self.ncols_spec() == i,
            e@.len() == i + 1,
            z@.len() == i + 1,
            uniform_rows(rows_view(e@), n as int),
            uniform_rows(rows_view(z@), n as int),
            ops_valid(ops@, i as int),
        ensures
            res@.len() == i + 1,
            res.wf(),
            res.ncols_spec() == i + 1,
            ({
                let col = spec_apply_ops_vec(
                    eval_col_spec(rows_view(z@).subrange(0, i as int), e@[i as int]@),
                    ops@,
                );
                &&& forall|r: int| 0 <= r < i ==> #[trigger] res@[r] == self@[r].push(col[r])
                &&& res@[i as int] == eval_row_spec(rows_view(e@), z@[i as int]@)
            }),
    {
        proof {
            assert forall|r: int| 0 <= r < z@.len() implies (#[trigger] z@[r])@.len()
                == e@[i as int]@.len() by {
                assert(rows_view(z@)[r].len() == n);
                assert(rows_view(e@)[i as int].len() == n);
            }
        }
        let col = eval_col(z, i, &e[i]);
        let col = apply_ops_to_col(col, ops);
        let mut m = self;
        m.append_column(col);
        proof {
            assert forall|c: int| 0 <= c < e@.len() implies (#[trigger] e@[c])@.len()
                == z@[i as int]@.len() by {
                assert(rows_view(e@)[c].len() == n);
                assert(rows_view(z@)[i as int].len() == n);
            }
        }
        let row = eval_row(e, &z[i]);
        m.append_row(row);
        m
    }

    /// Builds the evaluation column of `mono` over the points, replays the
    /// operation log on it, and appends it as a new column.
    pub fn construct_and_add_column(
        self,
        points: &Vec<Vec<u8>>,
        mono: &Vec<u8>,
        ops: &Vec<(usize, usize)>,
        n: usize,
    ) -> (res: Matrix)
        requires
            self.wf(),
            points@.len() >= self@.len(),
            uniform_rows(rows_view(points@), n as int),
            mono@.len() == n,
            bit_row(mono@),
            ops_valid(ops@, self@.len() as int),
        ensures
            ({
                let col = spec_apply_ops_vec(
                    eval_col_spec(rows_view(points@).subrange(0, self@.len() as int), mono@),
                    ops@,
                );
                &&& res@.len() == self@.len()
                &&& forall|i: int| 0 <= i < self@.len() ==> #[trigger] res@[i] == self@[i].push(col[i])
            }),
            res.wf(),
            self@.len() > 0 ==> res.ncols_spec() == self.ncols_spec() + 1,
    {
        let nr = self.nrows();
        proof {
            assert forall|r: int| 0 <= r < points@.len() implies (#[trigger] points@[r])@.len()
                == mono@.len() by {
                assert(rows_view(points@)[r].len() == n);
            }
        }
        let col = eval_col(points, nr, mono);
        let col = apply_ops_to_col(col, ops);
        let mut m = self;
        m.append_column(col);
        m
    }
}

/// A candidate with coefficient vector `k` over the monomial prefix
/// vanishes at point `p` when the GF(2) dot product of `p`'s evaluation row
/// with `k` is zero.
pub open spec fn vanishes_at(k: Seq<u8>, monos: Seq<Seq<u8>>, p: Seq<u8>) -> bool {
    row_dot(eval_row_spec(monos, p), k) == 0
}

/// The GF(2) dot product of a point's evaluation row with a coefficient
/// vector.
fn combo_dot(k: &Vec<u8>, monos: &Vec<Vec<u8>>, p: &Vec<u8>, n: usize) -> (res: u8)
    requires
        k@.len() == monos@.len(),
        p@.len() == n,
        uniform_rows(rows_view(monos@), n as int),
    ensures
        res == row_dot(eval_row_spec(rows_view(monos@), p@), k@),
{
    proof {
        assert forall|c: int| 0 <= c < monos@.len() implies (#[trigger] monos@[c])@.len()
            == p@.len() by {
            assert(rows_view(monos@)[c].len() == n);
        }
    }
    let row = eval_row(monos, p);
    let ghost r = row@;
    let m = row.len();
    let mut sum: u8 = 0;
    let mut c: usize = 0;
    proof {
        lemma_dot_from_bit(r, k@, 0);
    }
    while c < m
        invariant
            c <= m,
            m == r.len(),
            is_bit(sum),
            bxor(sum, dot_from(r, k@, c as int)) == row_dot(r, k@),
        decreases m - c,
    {
        proof {
            lemma_dot_from_bit(r, k@, c as int + 1);
        }
        if row[c] == 1 && k[c] == 1 {
            sum = if sum == 1 {
                0
            } else {
                1
            };
        }
        c += 1;
    }
    sum
}

/// Tests a candidate against every point from `start` on: whether it
/// vanishes on all of them, and if not, the first point where it does not.
fn verify_candidate(
    points: &Vec<Vec<u8>>,
    start: usize,
    k: &Vec<u8>,
    monos: &Vec<Vec<u8>>,
    n: usize,
) -> (res: (bool, Option<usize>))
    requires
        start <= points@.len(),
        k@.len() == monos@.len(),
        uniform_rows(rows_view(points@), n as int),
        uniform_rows(rows_view(monos@), n as int),
    ensures
        res.0 <==> (forall|p: int|
            start <= p < points@.len() ==> vanishes_at(k@, rows_view(monos@), (#[trigger] points@[p])@)),
        match res.1 {
            Some(idx) => !res.0 && start <= idx < points@.len() && !vanishes_at(
                k@,
                rows_view(monos@),
                points@[idx as int]@,
            ) && (forall|p: int|
                start <= p < idx ==> vanishes_at(k@, rows_view(monos@), (#[trigger] points@[p])@)),
            None => res.0,
        },
{
    let mut p: usize = start;
    while p < points.len()
        invariant
            start <= p <= points@.len(),
            forall|q: int|
                start <= q < p ==> vanishes_at(k@, rows_view(monos@), (#[trigger] points@[q])@),
        decreases points@.len() - p,
    {
        proof {
            assert(rows_view(points@)[p as int].len() == n);
        }
        let d = combo_dot(k, monos, &points[p], n);
        if d != 0 {
            return (false, Some(p));
        }
        p += 1;
    }
    (true, None)
}

/// The row occurs in the list.
pub open spec fn row_in(b: Seq<Seq<u8>>, row: Seq<u8>) -> bool {
    exists|r0: int| 0 <= r0 < b.len() && #[trigger] b[r0] == row
}

/// Every row of `a` occurs among the rows of `b`.
pub open spec fn sub_rows(a: Seq<Seq<u8>>, b: Seq<Seq<u8>>) -> bool {
    forall|r: int| 0 <= r < a.len() ==> #[trigger] row_in(b, a[r])
}

proof fn lemma_sub_rows_remove(x: Seq<Seq<u8>>, b: Seq<Seq<u8>>, i: int)
    requires
        sub_rows(x, b),
        0 <= i < x.len(),
    ensures
        sub_rows(x.remove(i), b),
{
    let y = x.remove(i);
    assert forall|r: int| 0 <= r < y.len() implies #[trigger] row_in(b, y[r]) by {
        if r < i {
            assert(y[r] == x[r]);
            assert(row_in(b, x[r]));
        } else {
            assert(y[r] == x[r + 1]);
            assert(row_in(b, x[r + 1]));
        }
    }
}

/// All four point/monomial lists of a search share the width `n`.
pub open spec fn search_inputs_wf(
    z: Seq<Seq<u8>>,
    z_c: Seq<Seq<u8>>,
    e: Seq<Seq<u8>>,
    s: Seq<Seq<u8>>,
    n: int,
) -> bool {
    &&& uniform_rows(z, n)
    &&& uniform_rows(z_c, n)
    &&& uniform_rows(e, n)
    &&& uniform_rows(s, n)
}

/// Exchanges two points of a list.
fn swap_points(v: &mut Vec<Vec<u8>>, a: usize, b: usize)
    requires
        a < old(v)@.len(),
        b < old(v)@.len(),
    ensures
        rows_view(final(v)@) == rows_view(old(v)@).update(
            a as int,
            rows_view(old(v)@)[b as int],
        ).update(b as int, rows_view(old(v)@)[a as int]),
        final(v)@.len() == old(v)@.len(),
{
    let ghost pre = rows_view(v@);
    let ra = crate::matrix::copy_row(&v[a]);
    let rb = crate::matrix::copy_row(&v[b]);
    v.set(a, rb);
    v.set(b, ra);
    assert(rows_view(v@) =~= pre.update(a as int, pre[b as int]).update(b as int, pre[a as int]));
}

/// Index `i` is named by the subset (duplicates and order play no role).
pub open spec fn in_subset(subset: Seq<usize>, i: int) -> bool {
    exists|t: int| 0 <= t < subset.len() && #[trigger] subset[t] == i
}

/// The ordered list of encoded points with index below `upto` that the
/// subset names and whose truth-table entry is 1 (for `want_one`) or not 1
/// (otherwise).
pub open spec fn class_points(
    table: Seq<u8>,
    subset: Seq<usize>,
    n: nat,
    want_one: bool,
    upto: int,
) -> Seq<Seq<u8>>
    decreases upto,
{
    if upto <= 0 {
        Seq::empty()
    } else {
        let prev = class_points(table, subset, n, want_one, upto - 1);
        if in_subset(subset, upto - 1) && ((table[upto - 1] == 1) == want_one) {
            prev.push(crate::monomials::point_bits((upto - 1) as nat, n))
        } else {
            prev
        }
    }
}

/// The ordered list of all encoded points with index below `upto` that the
/// subset names.
pub open spec fn sel_points(subset: Seq<usize>, n: nat, upto: int) -> Seq<Seq<u8>>
    decreases upto,
{
    if upto <= 0 {
        Seq::empty()
    } else {
        let prev = sel_points(subset, n, upto - 1);
        if in_subset(subset, upto - 1) {
            prev.push(crate::monomials::point_bits((upto - 1) as nat, n))
        } else {
            prev
        }
    }
}

proof fn lemma_class_points_wf(
    table: Seq<u8>,
    subset: Seq<usize>,
    n: nat,
    want_one: bool,
    upto: int,
)
    ensures
        uniform_rows(class_points(table, subset, n, want_one, upto), n as int),
    decreases upto,
{
    if upto > 0 {
        lemma_class_points_wf(table, subset, n, want_one, upto - 1);
    }
}

proof fn lemma_sel_points_wf(subset: Seq<usize>, n: nat, upto: int)
    ensures
        uniform_rows(sel_points(subset, n, upto), n as int),
    decreases upto,
{
    if upto > 0 {
        lemma_sel_points_wf(subset, n, upto - 1);
    }
}

fn contains_index(subset: &Vec<usize>, i: usize) -> (res: bool)
    ensures
        res <==> in_subset(subset@, i as int),
{
    let mut t: usize = 0;
    while t < subset.len()
        invariant
            t <= subset@.len(),
            forall|u: int| 0 <= u < t ==> #[trigger] subset@[u] != i,
        decreases subset@.len() - t,
    {
        if subset[t] == i {
            return true;
        }
        t += 1;
    }
    false
}

/// Folds two optional annihilator degrees into the reported immunity: the
/// minimum of the two, an absent branch counting as unbounded, and 0 when
/// both branches came back empty.
pub fn combine_results(a: Option<usize>, b: Option<usize>) -> (res: usize)
    ensures
        a is None && b is None ==> res == 0,
        a is Some && b is None ==> res == a.unwrap(),
        a is None && b is Some ==> res == b.unwrap(),
        a is Some && b is Some ==> res == (if a.unwrap() <= b.unwrap() {
            a.unwrap()
        } else {
            b.unwrap()
        }),
{
    match (a, b) {
        (None, None) => 0,
        (Some(x), None) => x,
        (None, Some(y)) => y,
        (Some(x), Some(y)) => if x <= y {
            x
        } else {
            y
        },
    }
}

/// Computes the algebraic immunity of a Boolean function restricted to a
/// subset of its inputs.
pub struct RestrictedAI {
    pub truth_table: Vec<u8>,
}

/// What a rejected immunity query reports.
#[derive(Clone, Copy, PartialEq, Eq, Structural, Debug)]
pub enum ImmunityError {
    TableSizeMismatch,
    SubsetIndexOutOfRange,
}

impl RestrictedAI {
    /// Wraps a truth table.
    pub fn new(truth_table: Vec<u8>) -> (res: Self)
        ensures
            res.truth_table@ == truth_table@,
    {
        RestrictedAI { truth_table }
    }

    /// Partitions the subset's points by the function's truth value: the
    /// value-1 points, the value-0 points, and all subset points, each in
    /// index order and encoded as fixed-width bit strings.
    pub fn compute_z(&self, subset: Vec<usize>, n: usize) -> (res: (
        Vec<Vec<u8>>,
        Vec<Vec<u8>>,
        Vec<Vec<u8>>,
    ))
        ensures
            rows_view(res.0@) == class_points(
                self.truth_table@,
                subset@,
                n as nat,
                true,
                self.truth_table@.len() as int,
            ),
            rows_view(res.1@) == class_points(
                self.truth_table@,
                subset@,
                n as nat,
                false,
                self.truth_table@.len() as int,
            ),
            rows_view(res.2@) == sel_points(subset@, n as nat, self.truth_table@.len() as int),
            res.2@.len() == res.0@.len() + res.1@.len(),
            uniform_rows(rows_view(res.0@), n as int),
            uniform_rows(rows_view(res.1@), n as int),
            uniform_rows(rows_view(res.2@), n as int),
    {
        let ghost table = self.truth_table@;
        let ghost sub = subset@;
        let mut true_idxs: Vec<Vec<u8>> = Vec::new();
        let mut false_idxs: Vec<Vec<u8>> = Vec::new();
        let mut s_bin: Vec<Vec<u8>> = Vec::new();
        let len = self.truth_table.len();
        let mut i: usize = 0;
        while i < len
            invariant
                i <= len,
                len == table.len(),
                rows_view(true_idxs@) =~= class_points(table, sub, n as nat, true, i as int),
                rows_view(false_idxs@) =~= class_points(table, sub, n as nat, false, i as int),
                rows_view(s_bin@) =~= sel_points(sub, n as nat, i as int),
                s_bin@.len() == true_idxs@.len() + false_idxs@.len(),
            decreases len - i,
        {
            if contains_index(&subset, i) {
                let p = crate::monomials::index_to_point(i, n);
                let p2 = crate::matrix::copy_row(&p);
                if self.truth_table[i] == 1 {
                    true_idxs.push(p);
                } else {
                    false_idxs.push(p);
                }
                s_bin.push(p2);
            }
            i += 1;
        }
        proof {
            lemma_class_points_wf(table, sub, n as nat, true, len as int);
            lemma_class_points_wf(table, sub, n as nat, false, len as int);
            lemma_sel_points_wf(sub, n as nat, len as int);
        }
        (true_idxs, false_idxs, s_bin)
    }

    /// The externally consumed operation: the algebraic immunity of the
    /// function the truth table describes, restricted to the subset of
    /// point indices, for `n` variables.
    ///
    /// The result lies in `[0, n]`. When either induced class of points is
    /// empty (no constraint is expressible), the result is 0. The search is
    /// run once for each role assignment of the two classes, and the
    /// reported immunity is the fold of the two outcomes that
    /// `combine_results` states: the minimum of the two, an absent search
    /// result counting as unbounded, and 0 when both are absent.
    pub fn algebraic_immunity(truth_table: Vec<u8>, subset: Vec<usize>, n: usize) -> (res: usize)
        requires
            truth_table@.len() == pow2(n as nat),
            forall|t: int| 0 <= t < subset@.len() ==> (#[trigger] subset@[t]) < truth_table@.len(),
        ensures
            res <= n,
            class_points(
                truth_table@,
                subset@,
                n as nat,
                true,
                truth_table@.len() as int,
            ).len() == 0 ==> res == 0,
            class_points(
                truth_table@,
                subset@,
                n as nat,
                false,
                truth_table@.len() as int,
            ).len() == 0 ==> res == 0,
    {
        let len = truth_table.len();
        proof {
            crate::monomials::lemma_pow2_gt(n as nat);
        }
        let restricted_ai = Self::new(truth_table);
        let parts = restricted_ai.compute_z(subset, n);
        let z = parts.0;
        let z_c = parts.1;
        let s_bin = parts.2;

        if z.len() == 0 || z_c.len() == 0 {
            return 0;
        }
        let e = crate::monomials::generate_monomials(n, n);
        proof {
            assert forall|r: int| 0 <= r < rows_view(e@).len() implies (#[trigger] rows_view(
                e@,
            )[r]).len() == n as int && bit_row(rows_view(e@)[r]) by {
                assert(e@[r]@.len() == n && bit_row(e@[r]@));
            }
        }
        let z2 = sub_list(&z, 0, z.len());
        let zc2 = sub_list(&z_c, 0, z_c.len());
        let e2 = sub_list(&e, 0, e.len());
        let s2 = sub_list(&s_bin, 0, s_bin.len());
        proof {
            assert(rows_view(z2@) =~= rows_view(z@));
            assert(rows_view(zc2@) =~= rows_view(z_c@));
            assert(rows_view(e2@) =~= rows_view(e@));
            assert(rows_view(s2@) =~= rows_view(s_bin@));
            assert(rows_view(z@)[0].len() == n as int);
            assert(rows_view(z_c@)[0].len() == n as int);
        }
        let r1 = Self::find_min_annihilator(z, z_c, e, s_bin);
        let r2 = Self::find_min_annihilator(zc2, z2, e2, s2);
        combine_results(r1, r2)
    }

    /// The boundary-checked entry point: rejects a table whose length is
    /// not 2^n, and any subset index outside the table, rather than compute
    /// a silently wrong immunity.
    pub fn algebraic_immunity_checked(truth_table: Vec<u8>, subset: Vec<usize>, n: usize) -> (res:
        Result<usize, ImmunityError>)
        ensures
            match res {
                Ok(v) => {
                    &&& truth_table@.len() == pow2(n as nat)
                    &&& forall|t: int|
                        0 <= t < subset@.len() ==> (#[trigger] subset@[t]) < truth_table@.len()
                    &&& v <= n
                    &&& class_points(
                        truth_table@,
                        subset@,
                        n as nat,
                        true,
                        truth_table@.len() as int,
                    ).len() == 0 ==> v == 0
                },
                Err(ImmunityError::TableSizeMismatch) => truth_table@.len() != pow2(n as nat),
                Err(ImmunityError::SubsetIndexOutOfRange) => truth_table@.len() == pow2(n as nat)
                    && exists|t: int|
                    0 <= t < subset@.len() && (#[trigger] subset@[t]) >= truth_table@.len(),
            },
    {
        let len = truth_table.len();
        let mut p: usize = 1;
        let mut t: usize = 0;
        proof {
            vstd::arithmetic::power2::lemma2_to64();
        }
        while t < n
            invariant
                t <= n,
                p as nat == pow2(t as nat),
            decreases n - t,
        {
            if p > usize::MAX / 2 {
                proof {
                    vstd::arithmetic::power2::lemma_pow2_unfold((t + 1) as nat);
                    if t + 1 < n {
                        vstd::arithmetic::power2::lemma_pow2_strictly_increases(
                            (t + 1) as nat,
                            n as nat,
                        );
                    }
                    assert(pow2(n as nat) > usize::MAX);
                }
                return Err(ImmunityError::TableSizeMismatch);
            }
            p = p * 2;
            proof {
                vstd::arithmetic::power2::lemma_pow2_unfold(t as nat + 1);
            }
            t += 1;
        }
        if p != len {
            return Err(ImmunityError::TableSizeMismatch);
        }
        let mut u: usize = 0;
        while u < subset.len()
            invariant
                u <= subset@.len(),
                forall|v: int| 0 <= v < u ==> (#[trigger] subset@[v]) < len,
            decreases subset@.len() - u,
        {
            if subset[u] >= len {
                return Err(ImmunityError::SubsetIndexOutOfRange);
            }
            u += 1;
        }
        Ok(Self::algebraic_immunity(truth_table, subset, n))
    }

    /// Phase 1 and 2 of the annihilator search. Phase 1 extends the
    /// evaluation matrix over `z` point by point, extracts a kernel
    /// candidate at each rank deficiency, and checks it against the
    /// remaining points of `z` and against `z_c` at run time. Phase 2
    /// confirms over the full subset `s` by comparing ranks as both
    /// matrices grow, keeping the inherited stopping rule: it stops
    /// extending once the confirmation matrix's rank exceeds half the
    /// subset size.
    ///
    /// `z` is the class under test, `z_c` its complement, `e` the monomial
    /// enumeration in ascending degree order, and `s` the full point subset.
    /// A returned degree is the degree of one of the supplied monomials and
    /// never exceeds the number of variables; `None` means the enumeration
    /// was exhausted (possibly after discarding whole-domain annihilators)
    /// without a decision.
    pub fn find_min_annihilator(
        z: Vec<Vec<u8>>,
        z_c: Vec<Vec<u8>>,
        e: Vec<Vec<u8>>,
        s: Vec<Vec<u8>>,
    ) -> (res: Option<usize>)
        requires
            z@.len() >= 1,
            e@.len() >= 1,
            s@.len() >= z@.len(),
            search_inputs_wf(
                rows_view(z@),
                rows_view(z_c@),
                rows_view(e@),
                rows_view(s@),
                z@[0]@.len() as int,
            ),
        ensures
            res matches Some(d) ==> d <= z@[0]@.len(),
            res matches Some(d) ==> exists|t: int|
                0 <= t < e@.len() && d as int == weight_spec(#[trigger] rows_view(e@)[t]),
    {
        let ghost n_spec = z@[0]@.len() as int;
        let n = z[0].len();
        let mut z = z;
        let mut e = e;
        let ghost e0 = rows_view(e@);
        proof {
            assert forall|r: int| 0 <= r < e0.len() implies #[trigger] row_in(e0, e0[r]) by {
                assert(e0[r] == e0[r]);
            }
            assert(sub_rows(e0, e0));
        }

        // The 1x1 seed: the first monomial evaluated at the first point.
        proof {
            assert(rows_view(e@)[0].len() == n_spec);
            assert(rows_view(z@)[0].len() == n_spec);
        }
        let seed = crate::monomials::evaluate(&e[0], &z[0]);
        let mut seed_row: Vec<u8> = Vec::new();
        seed_row.push(seed);
        let mut seed_rows: Vec<Vec<u8>> = Vec::new();
        seed_rows.push(seed_row);
        let mut vander_monde = Matrix { elements: seed_rows };
        assert(vander_monde.wf());

        let mut i: usize = 1;
        let mut operations: Vec<(usize, usize)> = Vec::new();
        let n_iters = z.len();

        while i < n_iters
            invariant
                1 <= i <= n_iters,
                n_iters == z@.len(),
                n as int == n_spec,
                uniform_rows(rows_view(z@), n_spec),
                uniform_rows(rows_view(z_c@), n_spec),
                uniform_rows(rows_view(e@), n_spec),
                vander_monde.wf(),
                vander_monde@.len() == i,
                vander_monde.ncols_spec() == i,
                ops_valid(operations@, i as int),
                sub_rows(rows_view(e@), e0),
            decreases n_iters - i, e@.len(),
        {
            if e.len() <= i {
                // The enumeration was exhausted by discarded trivial
                // annihilators.
                return None;
            }
            let vander_monde_old = vander_monde.copy();
            let e_pref = sub_list(&e, 0, i + 1);
            let z_pref = sub_list(&z, 0, i + 1);
            proof {
                assert forall|r: int| 0 <= r < rows_view(e_pref@).len() implies (#[trigger] rows_view(
                    e_pref@,
                )[r]).len() == n_spec && bit_row(rows_view(e_pref@)[r]) by {
                    assert(rows_view(e_pref@)[r] == rows_view(e@)[r]);
                }
                assert forall|r: int| 0 <= r < rows_view(z_pref@).len() implies (#[trigger] rows_view(
                    z_pref@,
                )[r]).len() == n_spec && bit_row(rows_view(z_pref@)[r]) by {
                    assert(rows_view(z_pref@)[r] == rows_view(z@)[r]);
                }
            }
            vander_monde = vander_monde.compute_next(&e_pref, &z_pref, i, &operations, n);
            let reduced_ops = vander_monde.row_echelon_full_matrix();
            vander_monde = reduced_ops.0;
            let operations_i = reduced_ops.1;

            let rk = vander_monde.rank();
            if rk < i + 1 {
                proof {
                    crate::gf2::lemma_rank_rref(vander_monde@);
                }
                let kernel = vander_monde.kernel();
                assert(kernel@.len() >= 1);
                let k = crate::matrix::copy_row(&kernel[0]);
                let check_z = verify_candidate(&z, i + 1, &k, &e_pref, n);
                if check_z.0 {
                    let check_s = verify_candidate(&z_c, 0, &k, &e_pref, n);
                    if !check_s.0 {
                        // A genuine annihilator of `z`: its degree is the
                        // weight of the newest monomial.
                        assert(rows_view(e@)[i as int].len() == n_spec);
                        let d = crate::monomials::weight(&e[i]);
                        proof {
                            let cur = rows_view(e@);
                            assert(row_in(e0, cur[i as int]));
                            let r0 = choose|r0: int|
                                0 <= r0 < e0.len() && e0[r0] == cur[i as int];
                            assert(d as int == weight_spec(e0[r0]));
                        }
                        return Some(d);
                    } else {
                        // A whole-domain annihilator: discard the monomial,
                        // restore the matrix, retry the same step.
                        vander_monde = vander_monde_old;
                        let ghost e_pre = rows_view(e@);
                        e.remove(i);
                        proof {
                            assert(rows_view(e@) =~= e_pre.remove(i as int));
                            lemma_sub_rows_remove(e_pre, e0, i as int);
                            assert forall|r: int| 0 <= r < rows_view(e@).len() implies (#[trigger]
                            rows_view(e@)[r]).len() == n_spec && bit_row(rows_view(e@)[r]) by {
                                if r < i {
                                    assert(rows_view(e@)[r] == e_pre[r]);
                                } else {
                                    assert(rows_view(e@)[r] == e_pre[r + 1]);
                                }
                            }
                        }
                        continue;
                    }
                } else {
                    match check_z.1 {
                        Some(vanish_index) => {
                            // Move the point that refuted the candidate next
                            // in line, so later candidates meet it first.
                            let ghost z_pre = rows_view(z@);
                            swap_points(&mut z, i + 1, vanish_index);
                            proof {
                                assert forall|r: int| 0 <= r < rows_view(z@).len() implies (#[trigger]
                                rows_view(z@)[r]).len() == n_spec && bit_row(rows_view(z@)[r]) by {
                                    assert(rows_view(z@)[r] == z_pre[r] || rows_view(z@)[r]
                                        == z_pre[i + 1] || rows_view(z@)[r] == z_pre[
                                        vanish_index as int]);
                                }
                            }
                        },
                        None => {},
                    }
                }
            }

            i += 1;
            let ghost ops_pre = operations@;
            let mut t: usize = 0;
            while t < operations_i.len()
                invariant
                    t <= operations_i@.len(),
                    ops_valid(operations_i@, i as int),
                    ops_valid(operations@, i as int),
                decreases operations_i@.len() - t,
            {
                operations.push(operations_i[t]);
                t += 1;
            }
        }

        // Phase 2: global confirmation over the full subset.
        let idx = n_iters - 1;
        if e.len() <= idx {
            return None;
        }
        let e_pref = sub_list(&e, 0, idx + 1);
        let s_pref = sub_list(&s, 0, idx + 1);
        let s_rest = sub_list(&s, idx + 1, s.len());
        proof {
            assert forall|r: int| 0 <= r < rows_view(e_pref@).len() implies (#[trigger] rows_view(
                e_pref@,
            )[r]).len() == n_spec && bit_row(rows_view(e_pref@)[r]) by {
                assert(rows_view(e_pref@)[r] == rows_view(e@)[r]);
            }
            assert forall|r: int| 0 <= r < rows_view(s_pref@).len() implies (#[trigger] rows_view(
                s_pref@,
            )[r]).len() == n_spec && bit_row(rows_view(s_pref@)[r]) by {
                assert(rows_view(s_pref@)[r] == rows_view(s@)[r]);
            }
            assert forall|r: int| 0 <= r < rows_view(s_rest@).len() implies (#[trigger] rows_view(
                s_rest@,
            )[r]).len() == n_spec && bit_row(rows_view(s_rest@)[r]) by {
                assert(rows_view(s_rest@)[r] == rows_view(s@)[r + idx + 1]);
            }
        }
        let mut vander_monde_s = compute_vandermonde(&s_pref, &e_pref, n);
        vander_monde_s = vander_monde_s.fill_rows(&s_rest, &e_pref, n);

        let reduced_s = vander_monde_s.row_echelon_full_matrix();
        let vander_monde_s_reduced = reduced_s.0;
        let mut operations_s = reduced_s.1;
        let mut r_s = vander_monde_s_reduced.rank();

        if vander_monde.rank() < r_s {
            assert(rows_view(e@)[idx as int].len() == n_spec);
            let d = crate::monomials::weight(&e[idx]);
            proof {
                let cur = rows_view(e@);
                assert(row_in(e0, cur[idx as int]));
                let r0 = choose|r0: int| 0 <= r0 < e0.len() && e0[r0] == cur[idx as int];
                assert(d as int == weight_spec(e0[r0]));
            }
            return Some(d);
        }

        let mut i2: usize = idx + 1;
        let s_len = s.len();
        let half = s_len / 2 + s_len % 2;
        let mut vander_monde_s = vander_monde_s_reduced;

        while i2 < e.len() && r_s <= half
            invariant
                idx + 1 <= i2,
                n as int == n_spec,
                n_iters == z@.len(),
                uniform_rows(rows_view(z@), n_spec),
                uniform_rows(rows_view(e@), n_spec),
                uniform_rows(rows_view(s@), n_spec),
                vander_monde.wf(),
                vander_monde@.len() == n_iters,
                vander_monde_s.wf(),
                vander_monde_s@.len() == s@.len(),
                ops_valid(operations@, n_iters as int),
                ops_valid(operations_s@, s@.len() as int),
            decreases e@.len() - i2,
        {
            assert(rows_view(e@)[i2 as int].len() == n_spec && bit_row(rows_view(e@)[i2 as int]));
            vander_monde = vander_monde.construct_and_add_column(&z, &e[i2], &operations, n);
            vander_monde_s = vander_monde_s.construct_and_add_column(&s, &e[i2], &operations_s, n);

            let reduced_next = vander_monde_s.row_echelon_full_matrix();
            vander_monde_s = reduced_next.0;
            let ops_s = reduced_next.1;
            r_s = vander_monde_s.rank();

            if vander_monde.rank() < r_s {
                let d = crate::monomials::weight(&e[i2]);
                proof {
                    let cur = rows_view(e@);
                    assert(row_in(e0, cur[i2 as int]));
                    let r0 = choose|r0: int| 0 <= r0 < e0.len() && e0[r0] == cur[i2 as int];
                    assert(d as int == weight_spec(e0[r0]));
                }
                return Some(d);
            }

            i2 += 1;
            let mut t: usize = 0;
            while t < ops_s.len()
                invariant
                    t <= ops_s@.len(),
                    ops_valid(ops_s@, s@.len() as int),
                    ops_valid(operations_s@, s@.len() as int),
                decreases ops_s@.len() - t,
            {
                operations_s.push(ops_s[t]);
                t += 1;
            }
        }

        None
    }
}

} // verus!
