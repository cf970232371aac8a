#![verifier::loop_isolation(false)]
use vstd::prelude::*;

use itertools::Itertools;
use vstd::arithmetic::div_mod::lemma_div_denominator;
use vstd::arithmetic::power2::{lemma2_to64, lemma_pow2_pos, lemma_pow2_unfold, pow2};

use crate::gf2::{bit_row, is_bit};

verus! {

/// Bit `t` of the integer `i`: the coefficient of 2^t in its binary notation.
pub open spec fn nth_bit(i: nat, t: nat) -> u8 {
    if (i / pow2(t)) % 2 == 1 {
        1
    } else {
        0
    }
}

/// The fixed-width encoding of a point: position `j` of the string carries
/// bit `n-1-j` of the integer, as in ordinary binary notation.
pub open spec fn point_bits(i: nat, n: nat) -> Seq<u8> {
    Seq::new(n, |j: int| nth_bit(i, (n - 1 - j) as nat))
}

/// The all-zero row of width `n`: the degree-0 monomial.
pub open spec fn zero_row(n: nat) -> Seq<u8> {
    Seq::new(n, |j: int| 0u8)
}

/// Converts a point index to its fixed-width bit string.
pub fn index_to_point(i: usize, n: usize) -> (res: Vec<u8>)
    ensures
        res@ == point_bits(i as nat, n as nat),
        res@.len() == n,
        bit_row(res@),
{
    let mut lsb: Vec<u8> = Vec::new();
    let mut rem: usize = i;
    let mut t: usize = 0;
    proof {
        lemma_pow2_pos(0);
        lemma2_to64();
    }
    while t < n
        invariant
            t <= n,
            lsb@.len() == t,
            rem as int == i as int / pow2(t as nat) as int,
            forall|u: int| 0 <= u < t ==> #[trigger] lsb@[u] == nth_bit(i as nat, u as nat),
        decreases n - t,
    {
        proof {
            lemma_pow2_pos(t as nat);
            lemma_pow2_unfold((t + 1) as nat);
            lemma_div_denominator(i as int, pow2(t as nat) as int, 2);
        }
        lsb.push(
            if rem % 2 == 1 {
                1
            } else {
                0
            },
        );
        rem = rem / 2;
        t += 1;
    }
    let mut res: Vec<u8> = Vec::new();
    let mut j: usize = 0;
    while j < n
        invariant
            j <= n,
            res@.len() == j,
            forall|u: int| 0 <= u < j ==> #[trigger] res@[u] == nth_bit(i as nat, (n - 1 - u) as nat),
        decreases n - j,
    {
        res.push(lsb[n - 1 - j]);
        j += 1;
    }
    assert(res@ =~= point_bits(i as nat, n as nat));
    res
}

/// A power of two strictly dominates its exponent.
pub proof fn lemma_pow2_gt(e: nat)
    ensures
        pow2(e) > e,
    decreases e,
{
    if e > 0 {
        lemma_pow2_gt((e - 1) as nat);
        lemma_pow2_unfold(e);
    } else {
        lemma2_to64();
    }
}

/// A strictly increasing selection of `k` variable positions below `n`.
pub open spec fn is_combo(s: Seq<usize>, n: int, k: int) -> bool {
    &&& s.len() == k
    &&& forall|t: int| 0 <= t < s.len() ==> (#[trigger] s[t]) < n
    &&& forall|t1: int, t2: int| 0 <= t1 < t2 < s.len() ==> s[t1] < s[t2]
}

/// Strict lexicographic order on position selections.
pub open spec fn lex_less(a: Seq<usize>, b: Seq<usize>) -> bool
    decreases a.len(),
{
    if a.len() == 0 {
        b.len() > 0
    } else if b.len() == 0 {
        false
    } else if a[0] < b[0] {
        true
    } else if a[0] > b[0] {
        false
    } else {
        lex_less(a.drop_first(), b.drop_first())
    }
}

/// Relies on itertools' `combinations` over the range `0..n`: it yields
/// every `k`-element selection of distinct positions exactly once, each in
/// increasing order, and the selections follow one another in lexicographic
/// order.
#[verifier::external_body]
fn combinations_of(n: usize, k: usize) -> (res: Vec<Vec<usize>>)
    ensures
        forall|i: int| 0 <= i < res@.len() ==> is_combo((#[trigger] res@[i])@, n as int, k as int),
        forall|i: int, j: int| 0 <= i < j < res@.len() ==> lex_less(res@[i]@, res@[j]@),
        forall|s: Seq<usize>|
            is_combo(s, n as int, k as int) ==> exists|i: int|
                0 <= i < res@.len() && (#[trigger] res@[i])@ == s,
{
    (0..n).combinations(k).collect()
}

/// The monomial marking the selected variables: position `p` of the
/// selection sets string index `n-1-p`, mirroring the point encoding.
pub open spec fn mono_of_combo(c: Seq<usize>, n: nat) -> Seq<u8> {
    Seq::new(
        n,
        |j: int|
            if exists|t: int| 0 <= t < c.len() && #[trigger] c[t] == (n - 1 - j) as usize {
                1u8
            } else {
                0u8
            },
    )
}

fn combo_to_monomial(combo: &Vec<usize>, n: usize) -> (res: Vec<u8>)
    requires
        forall|t: int| 0 <= t < combo@.len() ==> (#[trigger] combo@[t]) < n,
        forall|t1: int, t2: int| 0 <= t1 < t2 < combo@.len() ==> combo@[t1] < combo@[t2],
    ensures
        res@ == mono_of_combo(combo@, n as nat),
        res@.len() == n,
        bit_row(res@),
        weight_spec(res@) == combo@.len(),
{
    proof {
        lemma_combo_weight(combo@, n as nat);
    }
    let mut res: Vec<u8> = Vec::new();
    let mut z: usize = 0;
    while z < n
        invariant
            z <= n,
            res@.len() == z,
            forall|c: int| 0 <= c < z ==> #[trigger] res@[c] == 0,
        decreases n - z,
    {
        res.push(0);
        z += 1;
    }
    let mut t: usize = 0;
    while t < combo.len()
        invariant
            t <= combo@.len(),
            res@.len() == n,
            forall|j: int|
                0 <= j < n ==> #[trigger] res@[j] == (if exists|u: int|
                    0 <= u < t && #[trigger] combo@[u] == (n - 1 - j) as usize {
                    1u8
                } else {
                    0u8
                }),
        decreases combo@.len() - t,
    {
        let pos = combo[t];
        let ghost pre = res@;
        res.set(n - 1 - pos, 1);
        proof {
            let jset = n - 1 - pos as int;
            assert forall|j: int| 0 <= j < n implies #[trigger] res@[j] == (if exists|u: int|
                0 <= u < t + 1 && #[trigger] combo@[u] == (n - 1 - j) as usize {
                1u8
            } else {
                0u8
            }) by {
                if j == jset {
                    assert(combo@[t as int] == (n - 1 - j) as usize);
                } else {
                    assert(res@[j] == pre[j]);
                    if exists|u: int| 0 <= u < t + 1 && #[trigger] combo@[u] == (n - 1 - j) as usize {
                        let u = choose|u: int|
                            0 <= u < t + 1 && #[trigger] combo@[u] == (n - 1 - j) as usize;
                        assert(u < t);
                    }
                }
            }
        }
        t += 1;
    }
    assert(res@ =~= mono_of_combo(combo@, n as nat));
    res
}

proof fn lemma_weight_from_zero(m: Seq<u8>, s: int)
    requires
        0 <= s <= m.len(),
        forall|c: int| s <= c < m.len() ==> m[c] != 1,
    ensures
        weight_from(m, s) == 0,
    decreases m.len() - s,
{
    if s < m.len() {
        lemma_weight_from_zero(m, s + 1);
    }
}

proof fn lemma_weight_from_update(m: Seq<u8>, j: int, s: int)
    requires
        0 <= s <= m.len(),
        0 <= j < m.len(),
        m[j] == 0,
    ensures
        weight_from(m.update(j, 1), s) == weight_from(m, s) + if s <= j {
            1int
        } else {
            0
        },
    decreases m.len() - s,
{
    if s < m.len() {
        lemma_weight_from_update(m, j, s + 1);
    }
}

proof fn lemma_mono_of_combo_push(c: Seq<usize>, n: nat, p: usize)
    requires
        n <= usize::MAX,
        p < n,
        forall|t: int| 0 <= t < c.len() ==> (#[trigger] c[t]) != p,
    ensures
        mono_of_combo(c.push(p), n) == mono_of_combo(c, n).update(n - 1 - p as int, 1u8),
{
    let a = mono_of_combo(c.push(p), n);
    let b = mono_of_combo(c, n).update(n - 1 - p as int, 1u8);
    assert forall|j: int| 0 <= j < n implies a[j] == b[j] by {
        if j == n - 1 - p as int {
            assert(c.push(p)[c.len() as int] == p);
            assert(p == (n - 1 - j) as usize);
            assert(a[j] == 1);
        } else {
            if exists|t: int| 0 <= t < c.push(p).len() && #[trigger] c.push(p)[t] == (n - 1
                - j) as usize {
                let t = choose|t: int|
                    0 <= t < c.push(p).len() && #[trigger] c.push(p)[t] == (n - 1 - j) as usize;
                if t == c.len() {
                    assert(c.push(p)[t] == p);
                    assert(p as int == n - 1 - j);
                    assert(false);
                }
                assert(t < c.len());
                assert(c[t] == (n - 1 - j) as usize);
            }
            if exists|t: int| 0 <= t < c.len() && #[trigger] c[t] == (n - 1 - j) as usize {
                let t = choose|t: int| 0 <= t < c.len() && #[trigger] c[t] == (n - 1 - j) as usize;
                assert(c.push(p)[t] == (n - 1 - j) as usize);
            }
        }
    }
    assert(a =~= b);
}

/// The degree of the monomial a selection generates is the selection's size.
proof fn lemma_combo_weight(c: Seq<usize>, n: nat)
    requires
        n <= usize::MAX,
        forall|t: int| 0 <= t < c.len() ==> (#[trigger] c[t]) < n,
        forall|t1: int, t2: int| 0 <= t1 < t2 < c.len() ==> c[t1] < c[t2],
    ensures
        weight_spec(mono_of_combo(c, n)) == c.len(),
    decreases c.len(),
{
    if c.len() == 0 {
        assert forall|j: int| 0 <= j < n implies mono_of_combo(c, n)[j] != 1 by {
            if exists|t: int| 0 <= t < c.len() && #[trigger] c[t] == (n - 1 - j) as usize {
                let t = choose|t: int| 0 <= t < c.len() && #[trigger] c[t] == (n - 1 - j) as usize;
            }
        }
        lemma_weight_from_zero(mono_of_combo(c, n), 0);
    } else {
        let c0 = c.drop_last();
        let p = c.last();
        assert(c =~= c0.push(p));
        assert forall|t: int| 0 <= t < c0.len() implies (#[trigger] c0[t]) != p by {
            assert(c[t] < c[c.len() - 1]);
        }
        lemma_combo_weight(c0, n);
        lemma_mono_of_combo_push(c0, n, p);
        let m0 = mono_of_combo(c0, n);
        assert(m0[n - 1 - p as int] == 0) by {
            if exists|t: int| 0 <= t < c0.len() && #[trigger] c0[t] == (n - 1 - (n - 1
                - p as int)) as usize {
                let t = choose|t: int|
                    0 <= t < c0.len() && #[trigger] c0[t] == (n - 1 - (n - 1 - p as int)) as usize;
                assert(c0[t] == p);
            }
        }
        lemma_weight_from_update(m0, n - 1 - p as int, 0);
    }
}

/// The selection a monomial came from: the variable positions `q < p` whose
/// string index `n-1-q` carries a 1, in ascending order.
pub open spec fn combo_of_mono(m: Seq<u8>, n: nat, p: int) -> Seq<usize>
    decreases p,
{
    if p <= 0 {
        Seq::empty()
    } else {
        let prev = combo_of_mono(m, n, p - 1);
        if m[n - p] == 1 {
            prev.push((p - 1) as usize)
        } else {
            prev
        }
    }
}

proof fn lemma_combo_of_mono_props(m: Seq<u8>, n: nat, p: int)
    requires
        n <= usize::MAX,
        m.len() == n,
        0 <= p <= n,
    ensures
        forall|t: int|
            0 <= t < combo_of_mono(m, n, p).len() ==> (#[trigger] combo_of_mono(m, n, p)[t]) < p,
        forall|t1: int, t2: int|
            0 <= t1 < t2 < combo_of_mono(m, n, p).len() ==> combo_of_mono(m, n, p)[t1]
                < combo_of_mono(m, n, p)[t2],
        forall|q: usize|
            q < p ==> (#[trigger] combo_of_mono(m, n, p).contains(q) <==> m[n - 1 - q as int]
                == 1),
    decreases p,
{
    if p > 0 {
        lemma_combo_of_mono_props(m, n, p - 1);
        let prev = combo_of_mono(m, n, p - 1);
        let cur = combo_of_mono(m, n, p);
        assert forall|q: usize| q < p implies (#[trigger] cur.contains(q) <==> m[n - 1
            - q as int] == 1) by {
            if m[n - p] == 1 {
                assert(cur == prev.push((p - 1) as usize));
                if q == p - 1 {
                    assert(cur[cur.len() - 1] == q);
                    assert(cur.contains(q));
                } else {
                    if cur.contains(q) {
                        let t = choose|t: int| 0 <= t < cur.len() && cur[t] == q;
                        assert(t < prev.len());
                        assert(prev[t] == q);
                        assert(prev.contains(q));
                    }
                    if m[n - 1 - q as int] == 1 {
                        assert(prev.contains(q));
                        let t = choose|t: int| 0 <= t < prev.len() && prev[t] == q;
                        assert(cur[t] == q);
                        assert(cur.contains(q));
                    }
                }
            } else {
                assert(cur == prev);
                if q == p - 1 {
                    if cur.contains(q) {
                        let t = choose|t: int| 0 <= t < cur.len() && cur[t] == q;
                        assert(cur[t] < p - 1);
                        assert(false);
                    }
                } else {
                    if m[n - 1 - q as int] == 1 {
                        assert(prev.contains(q));
                    }
                }
            }
        }
    }
}

/// Rebuilding the monomial from the recovered selection gives the monomial
/// back.
proof fn lemma_mono_combo_inverse(m: Seq<u8>, n: nat)
    requires
        n <= usize::MAX,
        m.len() == n,
        bit_row(m),
    ensures
        mono_of_combo(combo_of_mono(m, n, n as int), n) == m,
{
    lemma_combo_of_mono_props(m, n, n as int);
    let c = combo_of_mono(m, n, n as int);
    let m2 = mono_of_combo(c, n);
    assert forall|j: int| 0 <= j < n implies m2[j] == m[j] by {
        let q = (n - 1 - j) as usize;
        assert(c.contains(q) <==> m[n - 1 - q as int] == 1);
        assert(is_bit(m[j]));
        if exists|t: int| 0 <= t < c.len() && #[trigger] c[t] == q {
            let t = choose|t: int| 0 <= t < c.len() && #[trigger] c[t] == q;
            assert(c.contains(q));
        }
        if c.contains(q) {
            let t = choose|t: int| 0 <= t < c.len() && c[t] == q;
            assert(c[t] == q);
        }
    }
    assert(m2 =~= m);
}

/// Recovering the selection from the monomial it generates gives the
/// selection back.
proof fn lemma_combo_mono_inverse(c: Seq<usize>, n: nat)
    requires
        n <= usize::MAX,
        forall|t: int| 0 <= t < c.len() ==> (#[trigger] c[t]) < n,
        forall|t1: int, t2: int| 0 <= t1 < t2 < c.len() ==> c[t1] < c[t2],
    ensures
        combo_of_mono(mono_of_combo(c, n), n, n as int) == c,
{
    let m = mono_of_combo(c, n);
    lemma_combo_of_mono_props(m, n, n as int);
    let c2 = combo_of_mono(m, n, n as int);
    assert forall|q: usize| #![trigger c2.contains(q)] #![trigger c.contains(q)]
        c2.contains(q) <==> c.contains(q) by {
        if q < n {
            assert(c2.contains(q) <==> m[n - 1 - q as int] == 1);
            if c.contains(q) {
                let t = choose|t: int| 0 <= t < c.len() && c[t] == q;
                assert(c[t] == (n - 1 - (n - 1 - q as int)) as usize);
                assert(m[n - 1 - q as int] == 1);
            }
            if m[n - 1 - q as int] == 1 {
                let t = choose|t: int|
                    0 <= t < c.len() && #[trigger] c[t] == (n - 1 - (n - 1 - q as int)) as usize;
                assert(c[t] == q);
                assert(c.contains(q));
            }
        } else {
            if c2.contains(q) {
                let t = choose|t: int| 0 <= t < c2.len() && c2[t] == q;
                assert(c2[t] < n);
                assert(false);
            }
            if c.contains(q) {
                let t = choose|t: int| 0 <= t < c.len() && c[t] == q;
                assert(c[t] < n);
                assert(false);
            }
        }
    }
    lemma_sorted_same_members(c2, c);
}

/// Two strictly increasing position lists with the same members are equal.
proof fn lemma_sorted_same_members(a: Seq<usize>, b: Seq<usize>)
    requires
        forall|t1: int, t2: int| 0 <= t1 < t2 < a.len() ==> a[t1] < a[t2],
        forall|t1: int, t2: int| 0 <= t1 < t2 < b.len() ==> b[t1] < b[t2],
        forall|q: usize| #![trigger a.contains(q)] #![trigger b.contains(q)]
            a.contains(q) <==> b.contains(q),
    ensures
        a == b,
    decreases a.len(),
{
    if a.len() == 0 {
        if b.len() > 0 {
            assert(b.contains(b[0]));
            let t = choose|t: int| 0 <= t < a.len() && a[t] == b[0];
            assert(false);
        }
        assert(a =~= b);
    } else if b.len() == 0 {
        assert(a.contains(a[0]));
        let t = choose|t: int| 0 <= t < b.len() && b[t] == a[0];
        assert(false);
    } else {
        // The largest member of each list stands last, so the lasts agree.
        let la = a[a.len() - 1];
        let lb = b[b.len() - 1];
        assert(a.contains(la));
        assert(b.contains(lb));
        let ta = choose|t: int| 0 <= t < a.len() && a[t] == lb;
        let tb = choose|t: int| 0 <= t < b.len() && b[t] == la;
        assert(a[ta] <= la);
        assert(b[tb] <= lb);
        assert(la == lb);
        let a0 = a.drop_last();
        let b0 = b.drop_last();
        assert forall|q: usize| #![trigger a0.contains(q)] #![trigger b0.contains(q)]
            a0.contains(q) <==> b0.contains(q) by {
            if a0.contains(q) {
                let t = choose|t: int| 0 <= t < a0.len() && a0[t] == q;
                assert(a[t] == q && q < la);
                assert(a.contains(q));
                let t2 = choose|t2: int| 0 <= t2 < b.len() && b[t2] == q;
                assert(t2 < b.len() - 1);
                assert(b0[t2] == q);
                assert(b0.contains(q));
            }
            if b0.contains(q) {
                let t = choose|t: int| 0 <= t < b0.len() && b0[t] == q;
                assert(b[t] == q && q < lb);
                assert(b.contains(q));
                let t2 = choose|t2: int| 0 <= t2 < a.len() && a[t2] == q;
                assert(t2 < a.len() - 1);
                assert(a0[t2] == q);
                assert(a0.contains(q));
            }
        }
        lemma_sorted_same_members(a0, b0);
        assert(a =~= a0.push(la));
        assert(b =~= b0.push(lb));
        assert(a == b);
    }
}

/// The number of variables a monomial mentions: its degree.
pub open spec fn weight_from(m: Seq<u8>, j: int) -> int
    decreases m.len() - j,
{
    if j < 0 || j >= m.len() {
        0
    } else {
        (if m[j] == 1 {
            1int
        } else {
            0int
        }) + weight_from(m, j + 1)
    }
}

pub open spec fn weight_spec(m: Seq<u8>) -> int {
    weight_from(m, 0)
}

pub proof fn lemma_weight_from_bounds(m: Seq<u8>, j: int)
    requires
        0 <= j <= m.len(),
    ensures
        0 <= weight_from(m, j) <= m.len() - j,
    decreases m.len() - j,
{
    if j < m.len() {
        lemma_weight_from_bounds(m, j + 1);
    }
}

/// Counts the 1 entries of a monomial: its degree, at most its width.
pub fn weight(m: &Vec<u8>) -> (res: usize)
    ensures
        res as int == weight_spec(m@),
        res <= m@.len(),
{
    proof {
        lemma_weight_from_bounds(m@, 0);
    }
    let n = m.len();
    let mut count: usize = 0;
    let mut j: usize = 0;
    while j < n
        invariant
            j <= n,
            count <= j,
            count as int + weight_from(m@, j as int) == weight_spec(m@),
        decreases n - j,
    {
        proof {
            lemma_weight_from_bounds(m@, j as int + 1);
        }
        if m[j] == 1 {
            count += 1;
        }
        j += 1;
    }
    count
}

/// Evaluation of a monomial at a point: 1 iff every variable the monomial
/// marks is 1 in the point.
pub open spec fn eval_monomial(m: Seq<u8>, p: Seq<u8>) -> u8 {
    if forall|j: int| 0 <= j < m.len() && #[trigger] m[j] == 1 ==> p[j] == 1 {
        1u8
    } else {
        0u8
    }
}

pub fn evaluate(m: &Vec<u8>, p: &Vec<u8>) -> (res: u8)
    requires
        m@.len() == p@.len(),
    ensures
        res == eval_monomial(m@, p@),
{
    let n = m.len();
    let mut j: usize = 0;
    while j < n
        invariant
            j <= n,
            forall|c: int| 0 <= c < j && #[trigger] m@[c] == 1 ==> p@[c] == 1,
        decreases n - j,
    {
        if m[j] == 1 && p[j] != 1 {
            return 0;
        }
        j += 1;
    }
    1
}

/// Every monomial of width `n` and degree at most `max_degree`, degree
/// class by degree class in ascending order. The degree-0 monomial (the
/// all-zero string) comes first.
proof fn lemma_lex_less_irrefl(a: Seq<usize>)
    ensures
        !lex_less(a, a),
    decreases a.len(),
{
    if a.len() > 0 {
        lemma_lex_less_irrefl(a.drop_first());
    }
}

/// Every monomial of width `n` and degree at most `max_degree`, exactly
/// once, degree class by degree class in ascending order and in ascending
/// lexicographic order of the selected variables within a class. The
/// degree-0 monomial (the all-zero string) comes first.
pub fn generate_monomials(n: usize, max_degree: usize) -> (res: Vec<Vec<u8>>)
    requires
        max_degree <= n,
        n < usize::MAX,
    ensures
        res@.len() >= 1,
        forall|t: int|
            0 <= t < res@.len() ==> (#[trigger] res@[t])@.len() == n && bit_row(res@[t]@),
        res@[0]@ == zero_row(n as nat),
        forall|t: int|
            0 <= t < res@.len() ==> weight_spec((#[trigger] res@[t])@) <= max_degree as int,
        forall|t1: int, t2: int|
            #![trigger weight_spec(res@[t1]@), weight_spec(res@[t2]@)]
            0 <= t1 < t2 < res@.len() ==> weight_spec(res@[t1]@) <= weight_spec(res@[t2]@),
        forall|t1: int, t2: int|
            #![trigger res@[t1], res@[t2]]
            0 <= t1 < t2 < res@.len() ==> res@[t1]@ != res@[t2]@,
        forall|m: Seq<u8>|
            #![trigger bit_row(m), weight_spec(m)]
            m.len() == n && bit_row(m) && weight_spec(m) <= max_degree as int ==> exists|t: int|
                0 <= t < res@.len() && (#[trigger] res@[t])@ == m,
        forall|t1: int, t2: int|
            #![trigger weight_spec(res@[t1]@), weight_spec(res@[t2]@)]
            0 <= t1 < t2 < res@.len() && weight_spec(res@[t1]@) == weight_spec(res@[t2]@)
                ==> lex_less(
                combo_of_mono(res@[t1]@, n as nat, n as int),
                combo_of_mono(res@[t2]@, n as nat, n as int),
            ),
{
    let mut all: Vec<Vec<u8>> = Vec::new();
    let mut k: usize = 0;
    while k <= max_degree
        invariant
            k <= max_degree + 1,
            forall|t: int|
                0 <= t < all@.len() ==> (#[trigger] all@[t])@.len() == n && bit_row(all@[t]@),
            k == 0 ==> all@.len() == 0,
            k >= 1 ==> all@.len() >= 1 && all@[0]@ == zero_row(n as nat),
            forall|t: int|
                0 <= t < all@.len() ==> weight_spec((#[trigger] all@[t])@) < k as int,
            forall|t1: int, t2: int|
                #![trigger weight_spec(all@[t1]@), weight_spec(all@[t2]@)]
                0 <= t1 < t2 < all@.len() ==> weight_spec(all@[t1]@) <= weight_spec(all@[t2]@),
            forall|t1: int, t2: int|
                #![trigger all@[t1], all@[t2]]
                0 <= t1 < t2 < all@.len() ==> all@[t1]@ != all@[t2]@,
            forall|m: Seq<u8>|
                #![trigger bit_row(m), weight_spec(m)]
                m.len() == n && bit_row(m) && 0 <= weight_spec(m) < k as int ==> exists|t: int|
                    0 <= t < all@.len() && (#[trigger] all@[t])@ == m,
            forall|t1: int, t2: int|
                #![trigger weight_spec(all@[t1]@), weight_spec(all@[t2]@)]
                0 <= t1 < t2 < all@.len() && weight_spec(all@[t1]@) == weight_spec(all@[t2]@)
                    ==> lex_less(
                    combo_of_mono(all@[t1]@, n as nat, n as int),
                    combo_of_mono(all@[t2]@, n as nat, n as int),
                ),
        decreases max_degree + 1 - k,
    {
        let combos = combinations_of(n, k);
        proof {
            if k == 0 {
                assert(is_combo(Seq::<usize>::empty(), n as int, 0));
                assert(combos@.len() >= 1) by {
                    let i = choose|i: int|
                        0 <= i < combos@.len() && (#[trigger] combos@[i])@ == Seq::<usize>::empty();
                }
            }
        }
        let ghost base = all@.len() as int;
        let mut c: usize = 0;
        while c < combos.len()
            invariant
                c <= combos@.len(),
                all@.len() == base + c,
                forall|t: int|
                    0 <= t < all@.len() ==> (#[trigger] all@[t])@.len() == n && bit_row(all@[t]@),
                k == 0 ==> base == 0,
                k == 0 && c >= 1 ==> all@.len() >= 1 && all@[0]@ == zero_row(n as nat),
                k >= 1 ==> all@.len() >= 1 && all@[0]@ == zero_row(n as nat),
                forall|t: int|
                    0 <= t < base ==> weight_spec((#[trigger] all@[t])@) < k as int,
                forall|t: int|
                    base <= t < all@.len() ==> weight_spec((#[trigger] all@[t])@) == k as int,
                forall|i: int|
                    0 <= i < c ==> (#[trigger] all@[base + i])@ == mono_of_combo(
                        combos@[i]@,
                        n as nat,
                    ),
                forall|t1: int, t2: int|
                    #![trigger weight_spec(all@[t1]@), weight_spec(all@[t2]@)]
                    0 <= t1 < t2 < all@.len() ==> weight_spec(all@[t1]@) <= weight_spec(all@[t2]@),
                forall|t1: int, t2: int|
                    #![trigger all@[t1], all@[t2]]
                    0 <= t1 < t2 < all@.len() ==> all@[t1]@ != all@[t2]@,
                forall|m: Seq<u8>|
                    #![trigger bit_row(m), weight_spec(m)]
                    m.len() == n && bit_row(m) && 0 <= weight_spec(m) < k as int ==> exists|t: int|
                        0 <= t < all@.len() && (#[trigger] all@[t])@ == m,
                forall|t1: int, t2: int|
                    #![trigger weight_spec(all@[t1]@), weight_spec(all@[t2]@)]
                    0 <= t1 < t2 < all@.len() && weight_spec(all@[t1]@) == weight_spec(all@[t2]@)
                        ==> lex_less(
                        combo_of_mono(all@[t1]@, n as nat, n as int),
                        combo_of_mono(all@[t2]@, n as nat, n as int),
                    ),
            decreases combos@.len() - c,
        {
            let mono = combo_to_monomial(&combos[c], n);
            proof {
                if k == 0 {
                    assert(combos@[c as int]@.len() == 0);
                    assert(mono@ =~= zero_row(n as nat));
                }
                lemma_combo_mono_inverse(combos@[c as int]@, n as nat);
            }
            let ghost pre = all@;
            all.push(mono);
            proof {
                let new_t = base + c;
                assert(all@[new_t] == mono);
                // The fresh monomial differs from every earlier one and
                // extends the within-class lexicographic order.
                assert forall|t1: int, t2: int|
                    #![trigger all@[t1], all@[t2]]
                    0 <= t1 < t2 < all@.len() implies all@[t1]@ != all@[t2]@ by {
                    if t2 == new_t {
                        assert(all@[t1] == pre[t1]);
                        if t1 < base {
                            assert(weight_spec(pre[t1]@) < k as int);
                            assert(weight_spec(mono@) == k as int);
                        } else {
                            let i1 = t1 - base;
                            assert(pre[base + i1]@ == mono_of_combo(combos@[i1]@, n as nat));
                            assert(all@[t1]@ == mono_of_combo(combos@[i1]@, n as nat));
                            assert(lex_less(combos@[i1]@, combos@[c as int]@));
                            if all@[t1]@ == mono@ {
                                lemma_combo_mono_inverse(combos@[i1]@, n as nat);
                                assert(combos@[i1]@ == combos@[c as int]@);
                                lemma_lex_less_irrefl(combos@[c as int]@);
                                assert(false);
                            }
                        }
                    } else {
                        assert(all@[t1] == pre[t1] && all@[t2] == pre[t2]);
                    }
                }
                assert forall|t1: int, t2: int|
                    #![trigger weight_spec(all@[t1]@), weight_spec(all@[t2]@)]
                    0 <= t1 < t2 < all@.len() && weight_spec(all@[t1]@) == weight_spec(all@[t2]@)
                        implies lex_less(
                    combo_of_mono(all@[t1]@, n as nat, n as int),
                    combo_of_mono(all@[t2]@, n as nat, n as int),
                ) by {
                    if t2 == new_t {
                        assert(all@[t1] == pre[t1]);
                        assert(weight_spec(mono@) == k as int);
                        if t1 < base {
                            assert(weight_spec(pre[t1]@) < k as int);
                        }
                        assert(t1 >= base);
                        let i1 = t1 - base;
                        assert(pre[base + i1]@ == mono_of_combo(combos@[i1]@, n as nat));
                        assert(all@[t1]@ == mono_of_combo(combos@[i1]@, n as nat));
                        lemma_combo_mono_inverse(combos@[i1]@, n as nat);
                        assert(combo_of_mono(all@[t1]@, n as nat, n as int) == combos@[i1]@);
                        assert(combo_of_mono(all@[t2]@, n as nat, n as int) == combos@[c as int]@);
                        assert(lex_less(combos@[i1]@, combos@[c as int]@));
                    } else {
                        assert(all@[t1] == pre[t1] && all@[t2] == pre[t2]);
                    }
                }
                assert forall|m: Seq<u8>|
                    #![trigger bit_row(m), weight_spec(m)]
                    m.len() == n && bit_row(m) && 0 <= weight_spec(m) < k as int implies exists|t: int|
                    0 <= t < all@.len() && (#[trigger] all@[t])@ == m by {
                    assert(exists|t: int| 0 <= t < pre.len() && (#[trigger] pre[t])@ == m);
                    let t = choose|t: int| 0 <= t < pre.len() && (#[trigger] pre[t])@ == m;
                    assert(all@[t]@ == m);
                }
            }
            c += 1;
        }
        proof {
            // Every monomial of degree exactly k now stands in the list.
            assert forall|m: Seq<u8>|
                #![trigger bit_row(m), weight_spec(m)]
                m.len() == n && bit_row(m) && 0 <= weight_spec(m) < k + 1 implies exists|t: int|
                0 <= t < all@.len() && (#[trigger] all@[t])@ == m by {
                if weight_spec(m) == k as int {
                    lemma_combo_of_mono_props(m, n as nat, n as int);
                    lemma_mono_combo_inverse(m, n as nat);
                    let cm = combo_of_mono(m, n as nat, n as int);
                    lemma_combo_weight(cm, n as nat);
                    assert(cm.len() == k);
                    assert(is_combo(cm, n as int, k as int));
                    let i = choose|i: int|
                        0 <= i < combos@.len() && (#[trigger] combos@[i])@ == cm;
                    assert(all@[base + i]@ == mono_of_combo(cm, n as nat));
                    assert(all@[base + i]@ == m);
                }
            }
        }
        k += 1;
    }
    proof {
        assert forall|m: Seq<u8>|
            #![trigger bit_row(m), weight_spec(m)]
            m.len() == n && bit_row(m) && weight_spec(m) <= max_degree as int implies exists|t: int|
            0 <= t < all@.len() && (#[trigger] all@[t])@ == m by {
            lemma_weight_from_bounds(m, 0);
        }
    }
    all
}

} // verus!
