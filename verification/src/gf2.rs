use vstd::prelude::*;

verus! {

/// A value of GF(2): 0 or 1, carried in a `u8`.
pub open spec fn is_bit(x: u8) -> bool {
    x == 0 || x == 1
}

/// Every entry of the row is a GF(2) value.
pub open spec fn bit_row(r: Seq<u8>) -> bool {
    forall|j: int| 0 <= j < r.len() ==> is_bit(#[trigger] r[j])
}

/// GF(2) addition (XOR) on bits.
pub open spec fn bxor(a: u8, b: u8) -> u8 {
    if a == b {
        0
    } else {
        1
    }
}

/// GF(2) multiplication (AND) on bits.
pub open spec fn bmul(a: u8, b: u8) -> u8 {
    if a == 1 && b == 1 {
        1
    } else {
        0
    }
}

/// The entrywise GF(2) sum of two rows of equal length.
pub open spec fn row_sum(t: Seq<u8>, s: Seq<u8>) -> Seq<u8> {
    Seq::new(t.len(), |j: int| bxor(t[j], s[j]))
}

/// One recorded row operation applied to a matrix:
/// row `t` becomes `row t + row s` over GF(2).
pub open spec fn spec_row_add(m: Seq<Seq<u8>>, t: int, s: int) -> Seq<Seq<u8>> {
    m.update(t, row_sum(m[t], m[s]))
}

/// Replay of an operation log against a matrix, earliest record first.
pub open spec fn spec_apply_ops(m: Seq<Seq<u8>>, ops: Seq<(usize, usize)>) -> Seq<Seq<u8>>
    decreases ops.len(),
{
    if ops.len() == 0 {
        m
    } else {
        spec_apply_ops(spec_row_add(m, ops[0].0 as int, ops[0].1 as int), ops.drop_first())
    }
}

/// Every record of the log targets rows inside a matrix of `nrows` rows
/// and never adds a row to itself.
pub open spec fn ops_valid(ops: Seq<(usize, usize)>, nrows: int) -> bool {
    forall|i: int|
        0 <= i < ops.len() ==> {
            &&& (#[trigger] ops[i]).0 < nrows
            &&& ops[i].1 < nrows
            &&& ops[i].0 != ops[i].1
        }
}

/// One grammar unit of an operation log: a single elimination record over
/// two distinct rows.
pub open spec fn is_add_unit(b: Seq<(usize, usize)>, nrows: int) -> bool {
    &&& b.len() == 1
    &&& b[0].0 < nrows
    &&& b[0].1 < nrows
    &&& b[0].0 != b[0].1
}

/// One grammar unit of an operation log: a logical swap of two distinct
/// rows, written as exactly the three consecutive records
/// (a,b), (b,a), (a,b).
pub open spec fn is_swap_unit(b: Seq<(usize, usize)>, nrows: int) -> bool {
    &&& b.len() == 3
    &&& b[0].0 < nrows
    &&& b[0].1 < nrows
    &&& b[0].0 != b[0].1
    &&& b[1] == ((b[0].1, b[0].0))
    &&& b[2] == b[0]
}

/// The grammar of an operation log: a concatenation of units, each either a
/// single elimination or a swap triple.
pub open spec fn log_units_valid(units: Seq<Seq<(usize, usize)>>, nrows: int) -> bool {
    forall|i: int|
        0 <= i < units.len() ==> is_add_unit(#[trigger] units[i], nrows) || is_swap_unit(
            units[i],
            nrows,
        )
}

/// The row is entirely zero.
pub open spec fn is_zero_row_spec(r: Seq<u8>) -> bool {
    forall|j: int| 0 <= j < r.len() ==> #[trigger] r[j] == 0
}

/// Index of the first 1 entry of the row at or after position `j`, if any.
pub open spec fn pivot_from(r: Seq<u8>, j: int) -> Option<int>
    decreases r.len() - j,
{
    if j < 0 || j >= r.len() {
        None
    } else if r[j] == 1 {
        Some(j)
    } else {
        pivot_from(r, j + 1)
    }
}

/// The pivot of a row: the index of its first 1 entry, or `None` for a row
/// without any.
pub open spec fn pivot_spec(r: Seq<u8>) -> Option<int> {
    pivot_from(r, 0)
}

pub proof fn lemma_pivot_from(r: Seq<u8>, j: int)
    requires
        0 <= j <= r.len(),
    ensures
        match pivot_from(r, j) {
            Some(p) => j <= p < r.len() && r[p] == 1 && (forall|c: int| j <= c < p ==> r[c] != 1),
            None => forall|c: int| j <= c < r.len() ==> r[c] != 1,
        },
    decreases r.len() - j,
{
    if j < r.len() && r[j] != 1 {
        lemma_pivot_from(r, j + 1);
    }
}

pub proof fn lemma_pivot_props(r: Seq<u8>)
    ensures
        match pivot_spec(r) {
            Some(p) => 0 <= p < r.len() && r[p] == 1 && (forall|c: int| 0 <= c < p ==> r[c] != 1),
            None => forall|c: int| 0 <= c < r.len() ==> r[c] != 1,
        },
{
    lemma_pivot_from(r, 0);
}

proof fn lemma_pivot_from_is(r: Seq<u8>, j: int, p: int)
    requires
        0 <= j <= p < r.len(),
        r[p] == 1,
        forall|c: int| j <= c < p ==> r[c] != 1,
    ensures
        pivot_from(r, j) == Some(p),
    decreases r.len() - j,
{
    if j < p {
        lemma_pivot_from_is(r, j + 1, p);
    }
}

/// A row whose first 1 stands at `p` has pivot `p`.
pub proof fn lemma_pivot_is(r: Seq<u8>, p: int)
    requires
        0 <= p < r.len(),
        r[p] == 1,
        forall|c: int| 0 <= c < p ==> r[c] != 1,
    ensures
        pivot_spec(r) == Some(p),
{
    lemma_pivot_from_is(r, 0, p);
}

/// A row with no 1 entry has no pivot.
pub proof fn lemma_pivot_none(r: Seq<u8>)
    requires
        forall|c: int| 0 <= c < r.len() ==> r[c] != 1,
    ensures
        pivot_spec(r) is None,
{
    lemma_pivot_props(r);
    if pivot_spec(r) is Some {
        assert(r[pivot_spec(r).unwrap()] == 1);
    }
}

/// Two rows that agree up to and including a pivot position share that pivot.
pub proof fn lemma_pivot_prefix(r1: Seq<u8>, r2: Seq<u8>, c: int, p: int)
    requires
        0 <= p < c,
        c <= r1.len(),
        c <= r2.len(),
        forall|j: int| 0 <= j < c ==> r1[j] == r2[j],
        pivot_spec(r1) == Some(p),
    ensures
        pivot_spec(r2) == Some(p),
{
    lemma_pivot_props(r1);
    lemma_pivot_is(r2, p);
}

/// All rows of the matrix share column count `cols` and hold GF(2) values.
pub open spec fn mat_wf(m: Seq<Seq<u8>>, cols: int) -> bool {
    forall|i: int|
        0 <= i < m.len() ==> (#[trigger] m[i]).len() == cols && bit_row(m[i])
}

pub proof fn lemma_row_sum_wf(t: Seq<u8>, s: Seq<u8>)
    requires
        bit_row(t),
        bit_row(s),
        t.len() == s.len(),
    ensures
        row_sum(t, s).len() == t.len(),
        bit_row(row_sum(t, s)),
{
}

pub proof fn lemma_row_add_wf(m: Seq<Seq<u8>>, cols: int, t: int, s: int)
    requires
        mat_wf(m, cols),
        0 <= t < m.len(),
        0 <= s < m.len(),
    ensures
        mat_wf(spec_row_add(m, t, s), cols),
        spec_row_add(m, t, s).len() == m.len(),
{
    lemma_row_sum_wf(m[t], m[s]);
}


/// Appending one record to the log replays as one more row addition.
pub proof fn lemma_apply_ops_snoc(m: Seq<Seq<u8>>, ops: Seq<(usize, usize)>, op: (usize, usize))
    ensures
        spec_apply_ops(m, ops.push(op)) == spec_row_add(
            spec_apply_ops(m, ops),
            op.0 as int,
            op.1 as int,
        ),
    decreases ops.len(),
{
    let s = ops.push(op);
    if ops.len() == 0 {
        assert(s[0] == op);
        assert(s.drop_first() =~= Seq::<(usize, usize)>::empty());
        assert(spec_apply_ops(m, s) == spec_apply_ops(
            spec_row_add(m, op.0 as int, op.1 as int),
            s.drop_first(),
        ));
        assert(spec_apply_ops(m, ops) == m);
    } else {
        let m1 = spec_row_add(m, ops[0].0 as int, ops[0].1 as int);
        assert(s[0] == ops[0]);
        assert(s.drop_first() =~= ops.drop_first().push(op));
        lemma_apply_ops_snoc(m1, ops.drop_first(), op);
        assert(spec_apply_ops(m, s) == spec_apply_ops(m1, s.drop_first()));
        assert(spec_apply_ops(m, ops) == spec_apply_ops(m1, ops.drop_first()));
    }
}

/// The swap-via-three-adds law: the records add(a,b), add(b,a), add(a,b),
/// replayed in order with the GF(2) row addition alone, exactly exchange
/// rows `a` and `b` and leave every other row unchanged.
pub proof fn lemma_swap_three_adds(m: Seq<Seq<u8>>, cols: int, a: int, b: int)
    requires
        mat_wf(m, cols),
        0 <= a < m.len(),
        0 <= b < m.len(),
        a != b,
    ensures
        spec_row_add(spec_row_add(spec_row_add(m, a, b), b, a), a, b) == m.update(
            a,
            m[b],
        ).update(b, m[a]),
{
    let m1 = spec_row_add(m, a, b);
    let m2 = spec_row_add(m1, b, a);
    let m3 = spec_row_add(m2, a, b);
    let sw = m.update(a, m[b]).update(b, m[a]);
    assert(m1[a] =~= row_sum(m[a], m[b]));
    assert(m2[b] =~= m[a]) by {
        assert forall|j: int| 0 <= j < cols implies row_sum(m1[b], m1[a])[j] == m[a][j] by {
            assert(is_bit(m[a][j]) && is_bit(m[b][j]));
        }
        assert(row_sum(m1[b], m1[a]) =~= m[a]);
    }
    assert(m3[a] =~= m[b]) by {
        assert forall|j: int| 0 <= j < cols implies row_sum(m2[a], m2[b])[j] == m[b][j] by {
            assert(m2[a] == m1[a]);
            assert(is_bit(m[a][j]) && is_bit(m[b][j]));
        }
        assert(row_sum(m2[a], m2[b]) =~= m[b]);
    }
    assert(m3 =~= sw);
}

/// Partial GF(2) dot product of a row with a coefficient vector, taken over
/// the positions at or after `j`.
pub open spec fn dot_from(r: Seq<u8>, k: Seq<u8>, j: int) -> u8
    decreases r.len() - j,
{
    if j < 0 || j >= r.len() {
        0
    } else {
        bxor(bmul(r[j], k[j]), dot_from(r, k, j + 1))
    }
}

/// GF(2) dot product of a matrix row with a coefficient vector.
pub open spec fn row_dot(r: Seq<u8>, k: Seq<u8>) -> u8 {
    dot_from(r, k, 0)
}

/// A partial dot product is itself a GF(2) value.
pub proof fn lemma_dot_from_bit(r: Seq<u8>, k: Seq<u8>, j: int)
    ensures
        is_bit(dot_from(r, k, j)),
{
}

/// The vector `k` lies in the kernel of `m`: the matrix-vector product over
/// GF(2) is the zero vector.
pub open spec fn in_kernel(m: Seq<Seq<u8>>, k: Seq<u8>) -> bool {
    forall|i: int| 0 <= i < m.len() ==> row_dot(#[trigger] m[i], k) == 0
}

/// The dot product distributes over the GF(2) row sum.
pub proof fn lemma_dot_row_sum(t: Seq<u8>, s: Seq<u8>, k: Seq<u8>, j: int)
    requires
        bit_row(t),
        bit_row(s),
        t.len() == s.len(),
        0 <= j,
    ensures
        dot_from(row_sum(t, s), k, j) == bxor(dot_from(t, k, j), dot_from(s, k, j)),
    decreases t.len() - j,
{
    if j < t.len() {
        lemma_dot_row_sum(t, s, k, j + 1);
        assert(is_bit(t[j]) && is_bit(s[j]));
    }
}

/// Adding one row into another preserves membership in the kernel, in both
/// directions.
pub proof fn lemma_row_add_kernel(m: Seq<Seq<u8>>, cols: int, t: int, s: int, k: Seq<u8>)
    requires
        mat_wf(m, cols),
        0 <= t < m.len(),
        0 <= s < m.len(),
        t != s,
    ensures
        in_kernel(m, k) <==> in_kernel(spec_row_add(m, t, s), k),
{
    let m2 = spec_row_add(m, t, s);
    lemma_dot_row_sum(m[t], m[s], k, 0);
    if in_kernel(m, k) {
        assert forall|i: int| 0 <= i < m2.len() implies row_dot(m2[i], k) == 0 by {
            if i != t {
                assert(m2[i] == m[i]);
            }
        }
    }
    if in_kernel(m2, k) {
        assert forall|i: int| 0 <= i < m.len() implies row_dot(m[i], k) == 0 by {
            if i == t {
                assert(row_dot(m2[t], k) == 0);
                assert(row_dot(m2[s], k) == 0);
                assert(m2[s] == m[s]);
                assert(bxor(row_dot(m[t], k), row_dot(m[s], k)) == 0);
            } else {
                assert(m2[i] == m[i]);
            }
        }
    }
}

/// Replaying a whole operation log preserves the kernel exactly.
pub proof fn lemma_apply_ops_kernel(m: Seq<Seq<u8>>, cols: int, ops: Seq<(usize, usize)>, k: Seq<u8>)
    requires
        mat_wf(m, cols),
        ops_valid(ops, m.len() as int),
    ensures
        in_kernel(m, k) <==> in_kernel(spec_apply_ops(m, ops), k),
    decreases ops.len(),
{
    if ops.len() > 0 {
        let m1 = spec_row_add(m, ops[0].0 as int, ops[0].1 as int);
        lemma_row_add_kernel(m, cols, ops[0].0 as int, ops[0].1 as int, k);
        lemma_row_add_wf(m, cols, ops[0].0 as int, ops[0].1 as int);
        lemma_apply_ops_kernel(m1, cols, ops.drop_first(), k);
    }
}

/// A dot product whose terms all vanish outside two positions reduces to the
/// XOR of the terms at those two positions.
pub proof fn lemma_dot_support2(r: Seq<u8>, k: Seq<u8>, c1: int, c2: int, j: int)
    requires
        0 <= c1 < c2 < r.len(),
        0 <= j,
        forall|c: int| j <= c < r.len() && c != c1 && c != c2 ==> bmul(r[c], k[c]) == 0,
    ensures
        dot_from(r, k, j) == bxor(
            if j <= c1 {
                bmul(r[c1], k[c1])
            } else {
                0
            },
            if j <= c2 {
                bmul(r[c2], k[c2])
            } else {
                0
            },
        ),
    decreases r.len() - j,
{
    if j < r.len() {
        lemma_dot_support2(r, k, c1, c2, j + 1);
    }
}

/// The rank scan beginning at row `i`, with `claimed` the set of columns
/// already taken as pivots by earlier rows: a row whose pivot column is
/// unclaimed adds one and claims it; rows without a pivot, or whose pivot
/// column is already claimed, add nothing.
pub open spec fn rank_from(m: Seq<Seq<u8>>, i: int, claimed: Set<int>) -> int
    decreases m.len() - i,
{
    if i < 0 || i >= m.len() {
        0
    } else {
        match pivot_spec(m[i]) {
            Option::None => rank_from(m, i + 1, claimed),
            Option::Some(p) => if claimed.contains(p) {
                rank_from(m, i + 1, claimed)
            } else {
                1 + rank_from(m, i + 1, claimed.insert(p))
            },
        }
    }
}

/// The rank of a matrix: the number of rows whose pivot column is distinct
/// from every earlier row's pivot column. Robust to matrices not in reduced
/// form.
pub open spec fn rank_spec(m: Seq<Seq<u8>>) -> int {
    rank_from(m, 0, Set::<int>::empty())
}

pub proof fn lemma_rank_from_bounds(m: Seq<Seq<u8>>, i: int, claimed: Set<int>)
    requires
        0 <= i <= m.len(),
    ensures
        0 <= rank_from(m, i, claimed) <= m.len() - i,
    decreases m.len() - i,
{
    if i < m.len() {
        lemma_rank_from_bounds(m, i + 1, claimed);
        if pivot_spec(m[i]) is Some && !claimed.contains(pivot_spec(m[i]).unwrap()) {
            lemma_rank_from_bounds(m, i + 1, claimed.insert(pivot_spec(m[i]).unwrap()));
        }
    }
}

/// The number of rows of `m` at or after row `i` that have a pivot.
pub open spec fn count_pivot_rows_from(m: Seq<Seq<u8>>, i: int) -> int
    decreases m.len() - i,
{
    if i < 0 || i >= m.len() {
        0
    } else {
        (if pivot_spec(m[i]) is Some {
            1int
        } else {
            0int
        }) + count_pivot_rows_from(m, i + 1)
    }
}

/// The number of rows of `m` that have a pivot (the nonzero rows, for a
/// matrix of GF(2) values).
pub open spec fn count_pivot_rows(m: Seq<Seq<u8>>) -> int {
    count_pivot_rows_from(m, 0)
}

/// The pivot column of row `i` of `m`, for a row known to have one.
pub open spec fn pivot_of(m: Seq<Seq<u8>>, i: int) -> int {
    pivot_spec(m[i]).unwrap()
}

/// Reduced row-echelon form: pivots of successive nonzero rows move strictly
/// right, zero rows stand below every nonzero row, and each pivot column is
/// zero in every other row.
pub open spec fn is_rref(m: Seq<Seq<u8>>) -> bool {
    &&& forall|i1: int, i2: int|
        0 <= i1 < i2 < m.len() && pivot_spec(#[trigger] m[i2]) is Some ==> pivot_spec(
            #[trigger] m[i1],
        ) is Some && pivot_spec(m[i1]).unwrap() < pivot_spec(m[i2]).unwrap()
    &&& forall|i1: int, i2: int|
        0 <= i1 < m.len() && 0 <= i2 < m.len() && i2 != i1 && pivot_spec(#[trigger] m[i1]) is Some
            ==> (#[trigger] m[i2])[pivot_spec(m[i1]).unwrap()] == 0
}

proof fn lemma_count_pivot_rows_from_split(m: Seq<Seq<u8>>, i: int, k: int)
    requires
        0 <= i <= m.len(),
        0 <= k <= m.len(),
        forall|r: int| i <= r < k ==> pivot_spec(#[trigger] m[r]) is Some,
        forall|r: int| k <= r < m.len() ==> pivot_spec(#[trigger] m[r]) is None,
    ensures
        count_pivot_rows_from(m, i) == if i <= k {
            k - i
        } else {
            0
        },
    decreases m.len() - i,
{
    if i < m.len() {
        lemma_count_pivot_rows_from_split(m, i + 1, k);
    }
}

/// In a matrix whose first `k` rows have pivots and whose remaining rows do
/// not, the pivot-row count is `k`.
pub proof fn lemma_count_pivot_rows(m: Seq<Seq<u8>>, k: int)
    requires
        0 <= k <= m.len(),
        forall|r: int| 0 <= r < k ==> pivot_spec(#[trigger] m[r]) is Some,
        forall|r: int| k <= r < m.len() ==> pivot_spec(#[trigger] m[r]) is None,
    ensures
        count_pivot_rows(m) == k,
{
    lemma_count_pivot_rows_from_split(m, 0, k);
}

proof fn lemma_rank_from_rref(m: Seq<Seq<u8>>, i: int, claimed: Set<int>)
    requires
        is_rref(m),
        0 <= i <= m.len(),
        forall|r: int|
            i <= r < m.len() && pivot_spec(#[trigger] m[r]) is Some ==> !claimed.contains(
                pivot_spec(m[r]).unwrap(),
            ),
    ensures
        rank_from(m, i, claimed) == count_pivot_rows_from(m, i),
    decreases m.len() - i,
{
    if i < m.len() {
        match pivot_spec(m[i]) {
            Option::None => {
                lemma_rank_from_rref(m, i + 1, claimed);
            },
            Option::Some(p) => {
                let claimed2 = claimed.insert(p);
                assert forall|r: int|
                    i + 1 <= r < m.len() && pivot_spec(#[trigger] m[r]) is Some implies !claimed2
                    .contains(pivot_spec(m[r]).unwrap()) by {
                    assert(pivot_spec(m[i]).unwrap() < pivot_spec(m[r]).unwrap());
                }
                lemma_rank_from_rref(m, i + 1, claimed2);
            },
        }
    }
}

/// For a matrix in reduced row-echelon form, the rank scan counts exactly
/// the pivot rows.
pub proof fn lemma_rank_rref(m: Seq<Seq<u8>>)
    requires
        is_rref(m),
    ensures
        rank_spec(m) == count_pivot_rows(m),
{
    lemma_rank_from_rref(m, 0, Set::<int>::empty());
}

/// One row-operation record applied to a single column vector: entry `t`
/// becomes `entry t + entry s` over GF(2).
pub open spec fn vec_op(col: Seq<u8>, t: int, s: int) -> Seq<u8> {
    col.update(t, bxor(col[t], col[s]))
}

/// Replay of an operation log against a column vector, earliest record
/// first. This is how a freshly built column is synchronized with a matrix
/// whose rows the same log has already transformed.
pub open spec fn spec_apply_ops_vec(col: Seq<u8>, ops: Seq<(usize, usize)>) -> Seq<u8>
    decreases ops.len(),
{
    if ops.len() == 0 {
        col
    } else {
        spec_apply_ops_vec(vec_op(col, ops[0].0 as int, ops[0].1 as int), ops.drop_first())
    }
}

pub proof fn lemma_apply_ops_vec_snoc(col: Seq<u8>, ops: Seq<(usize, usize)>, op: (usize, usize))
    ensures
        spec_apply_ops_vec(col, ops.push(op)) == vec_op(
            spec_apply_ops_vec(col, ops),
            op.0 as int,
            op.1 as int,
        ),
    decreases ops.len(),
{
    let s = ops.push(op);
    if ops.len() == 0 {
        assert(s[0] == op);
        assert(s.drop_first() =~= Seq::<(usize, usize)>::empty());
        assert(spec_apply_ops_vec(col, s) == spec_apply_ops_vec(
            vec_op(col, op.0 as int, op.1 as int),
            s.drop_first(),
        ));
    } else {
        let c1 = vec_op(col, ops[0].0 as int, ops[0].1 as int);
        assert(s[0] == ops[0]);
        assert(s.drop_first() =~= ops.drop_first().push(op));
        lemma_apply_ops_vec_snoc(c1, ops.drop_first(), op);
        assert(spec_apply_ops_vec(col, s) == spec_apply_ops_vec(c1, s.drop_first()));
        assert(spec_apply_ops_vec(col, ops) == spec_apply_ops_vec(c1, ops.drop_first()));
    }
}

pub proof fn lemma_apply_ops_vec_wf(col: Seq<u8>, ops: Seq<(usize, usize)>)
    requires
        bit_row(col),
        ops_valid(ops, col.len() as int),
    ensures
        spec_apply_ops_vec(col, ops).len() == col.len(),
        bit_row(spec_apply_ops_vec(col, ops)),
    decreases ops.len(),
{
    if ops.len() > 0 {
        let c1 = vec_op(col, ops[0].0 as int, ops[0].1 as int);
        assert(bit_row(c1));
        lemma_apply_ops_vec_wf(c1, ops.drop_first());
    }
}

/// The dot product of an all-zero row with any vector vanishes.
pub proof fn lemma_dot_zero_row(r: Seq<u8>, k: Seq<u8>, j: int)
    requires
        is_zero_row_spec(r),
        0 <= j,
    ensures
        dot_from(r, k, j) == 0,
    decreases r.len() - j,
{
    if j < r.len() {
        lemma_dot_zero_row(r, k, j + 1);
    }
}

} // verus!
