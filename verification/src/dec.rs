//! Decimal pi via the Chudnovsky series, evaluated by binary splitting.
//!
//! A range `(a, b)` of series indices is summarised by a `(P, Q, R)` triple
//! of exact integers.  `split_p`, `split_q` and `split_r` define those
//! triples mathematically; `lemma_split_combine` shows that recombining at
//! any interior point yields the same triple, which is what licenses
//! divide-and-conquer evaluation and memoisation of subranges.

use vstd::prelude::*;

use crate::arith::{
    BigFloat, BigInt, div_trunc, int_from, int_from_i128, int_add, int_clone, int_div, int_mul,
    int_pow, int_shl, int_sqrt,
};

verus! {

use vstd::arithmetic::power::pow;
use vstd::arithmetic::power2::pow2;
use vstd::arithmetic::div_mod::lemma_fundamental_div_mod_converse;

broadcast use vstd::std_specs::hash::group_hash_axioms;

/// A range of Chudnovsky series indices, `a` inclusive to `b` exclusive.
pub type Split = (u32, u32);

/// The binary-splitting state triple for a range.
pub type PQR = (BigInt, BigInt, BigInt);

/// The mathematical values of a state triple.
pub open spec fn pqr_view(t: PQR) -> (int, int, int) {
    (t.0@, t.1@, t.2@)
}

/// The product factor contributed by series index `k`.
pub open spec fn term_p(k: int) -> int {
    -((6 * k - 5) * (2 * k - 1) * (6 * k - 1))
}

/// The denominator factor contributed by series index `k`.
pub open spec fn term_q(k: int) -> int {
    10939058860032000 * (k * k * k)
}

/// The remainder-numerator contribution of series index `k`.
pub open spec fn term_r(k: int) -> int {
    term_p(k) * (545140134 * k + 13591409)
}

/// Partial product `P` over the range `[a, b)`.
pub open spec fn split_p(a: int, b: int) -> int
    decreases b - a,
{
    if b <= a + 1 {
        term_p(a)
    } else {
        term_p(a) * split_p(a + 1, b)
    }
}

/// Partial denominator `Q` over the range `[a, b)`.
pub open spec fn split_q(a: int, b: int) -> int
    decreases b - a,
{
    if b <= a + 1 {
        term_q(a)
    } else {
        term_q(a) * split_q(a + 1, b)
    }
}

/// Partial remainder-numerator `R` over the range `[a, b)`.
pub open spec fn split_r(a: int, b: int) -> int
    decreases b - a,
{
    if b <= a + 1 {
        term_r(a)
    } else {
        split_q(a + 1, b) * term_r(a) + term_p(a) * split_r(a + 1, b)
    }
}

/// Split-point independence: recombining the triples of `(a, m)` and
/// `(m, b)` by the fixed formula yields the triple of `(a, b)`, for every
/// interior split point `m`.  The `R` combination is not symmetric in its
/// two halves, so the left/right roles matter.
pub proof fn lemma_split_combine(a: int, m: int, b: int)
    requires
        a < m < b,
    ensures
        split_p(a, b) == split_p(a, m) * split_p(m, b),
        split_q(a, b) == split_q(a, m) * split_q(m, b),
        split_r(a, b) == split_q(m, b) * split_r(a, m) + split_p(a, m) * split_r(m, b),
    decreases m - a,
{
    let pa = term_p(a);
    let qa = term_q(a);
    let ra = term_r(a);
    if m == a + 1 {
        assert(split_p(a, m) == pa);
        assert(split_q(a, m) == qa);
        assert(split_r(a, m) == ra);
    } else {
        lemma_split_combine(a + 1, m, b);
        let pam1 = split_p(a + 1, m);
        let qam1 = split_q(a + 1, m);
        let ram1 = split_r(a + 1, m);
        let pmb = split_p(m, b);
        let qmb = split_q(m, b);
        let rmb = split_r(m, b);
        assert(pa * (pam1 * pmb) == (pa * pam1) * pmb) by (nonlinear_arith);
        assert(qa * (qam1 * qmb) == (qa * qam1) * qmb) by (nonlinear_arith);
        assert((qam1 * qmb) * ra == qmb * (qam1 * ra)) by (nonlinear_arith);
        assert(pa * (qmb * ram1 + pam1 * rmb) == qmb * (pa * ram1) + (pa * pam1) * rmb)
            by (nonlinear_arith);
        assert(qmb * (qam1 * ra) + qmb * (pa * ram1) == qmb * (qam1 * ra + pa * ram1))
            by (nonlinear_arith);
    }
}

/// The split point used by every divide-and-conquer walk of a range; it
/// equals the midpoint rounded down.
pub open spec fn mid_of(a: int, b: int) -> int {
    a + (b - a) / 2
}

/// The exact midpoint computation of the evaluator.
pub fn mid_point(a: u32, b: u32) -> (m: u32)
    requires
        a < b,
    ensures
        m == mid_of(a as int, b as int),
        a < m < b || b == a + 1 && m == a,
{
    a + (b - a) / 2
}

/// The base-case triple for the one-element range `[a, a + 1)`.
fn split_base(a: u32) -> (r: PQR)
    requires
        1 <= a,
    ensures
        r.0@ == term_p(a as int),
        r.1@ == term_q(a as int),
        r.2@ == term_r(a as int),
{
    {
        let ai: i128 = a as i128;
        let t1: i128 = 6 * ai - 5;
        let t2: i128 = 2 * ai - 1;
        let t3: i128 = 6 * ai - 1;
        assert(0 <= t1 * t2 < 0x1000000000000000000) by (nonlinear_arith)
            requires
                1 <= t1 < 0x600000000,
                1 <= t2 < 0x200000000,
        ;
        let t12: i128 = t1 * t2;
        assert(0 <= t12 * t3 < 0x1000000000000000000000000000000) by (nonlinear_arith)
            requires
                0 <= t12 < 0x1000000000000000000,
                1 <= t3 < 0x600000000,
        ;
        let pab = int_from_i128(-(t12 * t3));
        assert(0 <= ai * ai < 0x10000000000000000) by (nonlinear_arith)
            requires
                1 <= ai < 0x100000000,
        ;
        let a2: i128 = ai * ai;
        assert(0 <= a2 * ai < 0x1000000000000000000000000) by (nonlinear_arith)
            requires
                0 <= a2 < 0x10000000000000000,
                1 <= ai < 0x100000000,
        ;
        let a3: i128 = a2 * ai;
        let qab = int_mul(&int_from(10_939_058_860_032_000i64), &int_from_i128(a3));
        let rab = int_mul(&pab, &int_from_i128(545140134 * ai + 13591409));
        (pab, qab, rab)
    }
}

/// Combines the triples of two adjacent ranges into the triple of their
/// union; the `R` rule `Qr*Rl + Pl*Rr` is order-sensitive.
fn combine_pqr(left: &PQR, right: &PQR) -> (r: PQR)
    ensures
        r.0@ == left.0@ * right.0@,
        r.1@ == left.1@ * right.1@,
        r.2@ == right.1@ * left.2@ + left.0@ * right.2@,
{
    let pab = int_mul(&left.0, &right.0);
    let qab = int_mul(&left.1, &right.1);
    let rab = int_add(&int_mul(&right.1, &left.2), &int_mul(&left.0, &right.2));
    (pab, qab, rab)
}

/// Pure binary splitting: the `(P, Q, R)` triple for `[a, b)`, computed
/// recursively with the fixed midpoint rule.
pub fn binary_split(a: u32, b: u32) -> (r: PQR)
    requires
        1 <= a < b,
    ensures
        r.0@ == split_p(a as int, b as int),
        r.1@ == split_q(a as int, b as int),
        r.2@ == split_r(a as int, b as int),
    decreases b - a,
{
    if b == a + 1 {
        split_base(a)
    } else {
        let m = mid_point(a, b);
        let left = binary_split(a, m);
        let right = binary_split(m, b);
        proof {
            lemma_split_combine(a as int, m as int, b as int);
        }
        combine_pqr(&left, &right)
    }
}

/// The sequence of ranges that the fixed halving rule visits for `(a, b)`,
/// parent first, left subtree before right subtree.
pub open spec fn tree_ranges(a: u32, b: u32) -> Seq<(u32, u32)>
    decreases b - a,
{
    if b <= a + 1 {
        seq![(a, b)]
    } else {
        let m = mid_of(a as int, b as int) as u32;
        seq![(a, b)] + tree_ranges(a, m) + tree_ranges(m, b)
    }
}

/// The halving rule visits each range at most once within one walk: every
/// visited range lies inside `(a, b)`, and no range repeats.  This is why
/// the total work of a cached evaluation is bounded by the number of
/// distinct ranges ever requested.
pub proof fn lemma_tree_ranges_distinct(a: u32, b: u32)
    requires
        a < b,
    ensures
        tree_ranges(a, b).no_duplicates(),
        forall|t: int|
            0 <= t < tree_ranges(a, b).len() ==> a <= (#[trigger] tree_ranges(a, b)[t]).0
                && tree_ranges(a, b)[t].0 < tree_ranges(a, b)[t].1 && tree_ranges(a, b)[t].1 <= b,
    decreases b - a,
{
    let s = tree_ranges(a, b);
    if b <= a + 1 {
        assert(s.len() == 1);
        assert(s[0] == (a, b));
    } else {
        let m = mid_of(a as int, b as int) as u32;
        assert(a < m < b);
        lemma_tree_ranges_distinct(a, m);
        lemma_tree_ranges_distinct(m, b);
        let left = tree_ranges(a, m);
        let right = tree_ranges(m, b);
        assert(s == seq![(a, b)] + left + right);
        assert(s.len() == 1 + left.len() + right.len());
        assert forall|t: int| 0 <= t < s.len() implies a <= (#[trigger] s[t]).0 && s[t].0 < s[t].1
            && s[t].1 <= b by {
            if t == 0 {
                assert(s[t] == (a, b));
            } else if t < 1 + left.len() {
                assert(s[t] == left[t - 1]);
            } else {
                assert(s[t] == right[t - 1 - left.len()]);
            }
        }
        assert forall|i: int, j: int| 0 <= i < j < s.len() implies s[i] != s[j] by {
            // the left subtree stays at or below the midpoint, the right
            // one at or above it, and only the root reaches both ends
            if i == 0 {
                if j < 1 + left.len() {
                    assert(s[j] == left[j - 1]);
                    assert(s[j].1 <= m < b);
                } else {
                    assert(s[j] == right[j - 1 - left.len()]);
                    assert(s[j].0 >= m > a);
                }
            } else if i < 1 + left.len() {
                assert(s[i] == left[i - 1]);
                if j < 1 + left.len() {
                    assert(s[j] == left[j - 1]);
                } else {
                    assert(s[j] == right[j - 1 - left.len()]);
                    assert(s[i].1 <= m && s[j].1 > m);
                }
            } else {
                assert(s[i] == right[i - 1 - left.len()]);
                assert(s[j] == right[j - 1 - left.len()]);
            }
        }
    }
}

fn split_empty_inner(a: u32, b: u32, splits: &mut Vec<(u32, u32)>)
    requires
        a < b,
    ensures
        final(splits)@ == old(splits)@ + tree_ranges(a, b),
    decreases b - a,
{
    splits.push((a, b));
    if b != a + 1 {
        let m = mid_point(a, b);
        split_empty_inner(a, m, splits);
        split_empty_inner(m, b, splits);
        proof {
            assert(splits@ =~= old(splits)@ + tree_ranges(a, b));
        }
    } else {
        proof {
            assert(splits@ =~= old(splits)@ + tree_ranges(a, b));
        }
    }
}

/// The set of ranges the halving rule goes through for `(a, b)`, in the
/// order the recursive evaluator first meets them.
pub fn split_empty(a: u32, b: u32) -> (r: Vec<(u32, u32)>)
    requires
        a < b,
    ensures
        r@ == tree_ranges(a, b),
{
    let mut splits: Vec<(u32, u32)> = Vec::new();
    split_empty_inner(a, b, &mut splits);
    proof {
        assert(splits@ =~= tree_ranges(a, b));
    }
    splits
}

#[verifier::external_type_specification]
#[verifier::external_body]
#[verifier::reject_recursive_types(K)]
#[verifier::reject_recursive_types(V)]
#[verifier::reject_recursive_types(S)]
pub struct ExDashMap<K, V, S>(dashmap::DashMap<K, V, S>);

#[verifier::external_type_specification]
#[verifier::external_body]
pub struct ExAhashRandomState(ahash::RandomState);

/// Key of the split cache.
pub type ContextKey = (u32, u32);

/// Value of the split cache.
pub type ContextValue = (BigInt, BigInt, BigInt);

/// The shared split cache: a concurrent map from ranges to their triples.
pub type Context = dashmap::DashMap<ContextKey, ContextValue, ahash::RandomState>;

/// The entries a split cache holds, as a map from ranges to triple values.
pub uninterp spec fn context_model(c: Context) -> Map<(u32, u32), (int, int, int)>;

/// The model of a cache with no entries.
pub open spec fn context_model_empty() -> Map<(u32, u32), (int, int, int)> {
    Map::empty()
}

/// Relies on `dashmap::DashMap::with_hasher`: a freshly created map holds
/// no entries.
#[verifier::external_body]
pub fn context_new() -> (c: Context)
    ensures
        context_model(c) == context_model_empty(),
{
    dashmap::DashMap::with_hasher(ahash::RandomState::new())
}

/// Relies on `dashmap::DashMap::contains_key`: whether the key has an entry.
#[verifier::external_body]
fn context_contains(c: &Context, a: u32, b: u32) -> (r: bool)
    ensures
        r == context_model(*c).contains_key((a, b)),
{
    c.contains_key(&(a, b))
}

/// Relies on `dashmap::DashMap::get`: the value stored under the key, if
/// any; a reader sees a fully formed triple or nothing.
#[verifier::external_body]
fn context_get(c: &Context, a: u32, b: u32) -> (r: Option<ContextValue>)
    ensures
        match r {
            Some(t) => context_model(*c).contains_key((a, b)) && pqr_view(t) == context_model(
                *c,
            )[(a, b)],
            None => !context_model(*c).contains_key((a, b)),
        },
{
    match c.get(&(a, b)) {
        Some(e) => Some(clone_pqr(e.value())),
        None => None,
    }
}

/// Relies on `dashmap::DashMap::insert`: publishes the value under the key,
/// replacing any previous entry.
#[verifier::external_body]
fn context_insert(c: &mut Context, a: u32, b: u32, v: ContextValue)
    ensures
        context_model(*final(c)) == context_model(*old(c)).insert((a, b), pqr_view(v)),
{
    c.insert((a, b), v);
}

/// An exact copy of a state triple.
pub fn clone_pqr(t: &PQR) -> (r: PQR)
    ensures
        pqr_view(r) == pqr_view(*t),
{
    (int_clone(&t.0), int_clone(&t.1), int_clone(&t.2))
}

/// Whether two state triples hold the same three values.
pub fn pqr_eq(x: &PQR, y: &PQR) -> (r: bool)
    ensures
        r == (pqr_view(*x) == pqr_view(*y)),
{
    let e0 = crate::arith::int_eq(&x.0, &y.0);
    let e1 = crate::arith::int_eq(&x.1, &y.1);
    let e2 = crate::arith::int_eq(&x.2, &y.2);
    e0 && e1 && e2
}

/// Every entry of a well-formed split cache is the exact triple of its
/// range, so concurrent duplicate computation can only republish equal
/// values.
pub open spec fn context_inv(m: Map<(u32, u32), (int, int, int)>) -> bool {
    forall|k: (u32, u32)| #[trigger]
        m.contains_key(k) ==> 1 <= k.0 < k.1 && m[k] == (
            split_p(k.0 as int, k.1 as int),
            split_q(k.0 as int, k.1 as int),
            split_r(k.0 as int, k.1 as int),
        )
}

/// Cache transparency: whatever a well-formed cache holds for a range is
/// exactly what the pure evaluator computes for that range, so a cached
/// evaluation returns the same triple as an uncached one.
pub proof fn lemma_cache_transparent(m: Map<(u32, u32), (int, int, int)>, a: u32, b: u32)
    requires
        context_inv(m),
        m.contains_key((a, b)),
    ensures
        m[(a, b)] == (split_p(a as int, b as int), split_q(a as int, b as int), split_r(
            a as int,
            b as int,
        )),
{
}

/// Cache idempotence: publishing an equal value twice for the same range
/// leaves the cache exactly as a single publication leaves it, so racing
/// duplicate writers are harmless.
pub proof fn lemma_insert_idempotent(
    m: Map<(u32, u32), (int, int, int)>,
    k: (u32, u32),
    v: (int, int, int),
)
    ensures
        m.insert(k, v).insert(k, v) == m.insert(k, v),
{
    assert(m.insert(k, v).insert(k, v) =~= m.insert(k, v));
}

/// The cache state after a memoised walk of `[a, b)`: a cached range is
/// reused as it stands; otherwise both halves are walked in order and the
/// combined triple is published before returning.  In particular a walk
/// of an already-cached range leaves the cache exactly as it was.
pub open spec fn cached_walk(m: Map<(u32, u32), (int, int, int)>, a: u32, b: u32) -> Map<
    (u32, u32),
    (int, int, int),
>
    decreases b - a,
{
    if m.contains_key((a, b)) {
        m
    } else {
        let triple = (split_p(a as int, b as int), split_q(a as int, b as int), split_r(
            a as int,
            b as int,
        ));
        if b <= a + 1 {
            m.insert((a, b), triple)
        } else {
            let mm = mid_of(a as int, b as int) as u32;
            cached_walk(cached_walk(m, a, mm), mm, b).insert((a, b), triple)
        }
    }
}

/// A memoised walk never loses an entry.
pub proof fn lemma_cached_walk_monotone(m: Map<(u32, u32), (int, int, int)>, a: u32, b: u32)
    ensures
        forall|k: (u32, u32)|
            m.contains_key(k) ==> #[trigger] cached_walk(m, a, b).contains_key(k),
    decreases b - a,
{
    if !m.contains_key((a, b)) && b > a + 1 {
        let mm = mid_of(a as int, b as int) as u32;
        lemma_cached_walk_monotone(m, a, mm);
        lemma_cached_walk_monotone(cached_walk(m, a, mm), mm, b);
        let m1 = cached_walk(m, a, mm);
        let m2 = cached_walk(m1, mm, b);
        assert forall|k: (u32, u32)| m.contains_key(k) implies #[trigger] cached_walk(
            m,
            a,
            b,
        ).contains_key(k) by {
            assert(m1.contains_key(k));
            assert(m2.contains_key(k));
        }
    }
}

/// A memoised walk adds entries only for ranges of its own halving tree.
pub proof fn lemma_cached_walk_adds_tree(m: Map<(u32, u32), (int, int, int)>, a: u32, b: u32)
    ensures
        forall|k: (u32, u32)|
            #[trigger] cached_walk(m, a, b).contains_key(k) ==> m.contains_key(k) || tree_ranges(
                a,
                b,
            ).contains(k),
    decreases b - a,
{
    let s = tree_ranges(a, b);
    assert(s[0] == (a, b));
    assert(s.contains((a, b)));
    if !m.contains_key((a, b)) && b > a + 1 {
        let mm = mid_of(a as int, b as int) as u32;
        let left = tree_ranges(a, mm);
        let right = tree_ranges(mm, b);
        lemma_cached_walk_adds_tree(m, a, mm);
        lemma_cached_walk_adds_tree(cached_walk(m, a, mm), mm, b);
        assert forall|k: (u32, u32)| left.contains(k) || right.contains(k) implies s.contains(
            k,
        ) by {
            if left.contains(k) {
                let t = choose|t: int| 0 <= t < left.len() && left[t] == k;
                assert(s[1 + t] == k);
            } else {
                let t = choose|t: int| 0 <= t < right.len() && right[t] == k;
                assert(s[1 + left.len() + t] == k);
            }
        }
        let m1 = cached_walk(m, a, mm);
        let m2 = cached_walk(m1, mm, b);
        assert forall|k: (u32, u32)| #[trigger] cached_walk(m, a, b).contains_key(k) implies
            m.contains_key(k) || s.contains(k) by {
            if k != (a, b) {
                assert(m2.contains_key(k));
                if m1.contains_key(k) {
                    assert(m.contains_key(k) || left.contains(k));
                } else {
                    assert(right.contains(k));
                }
            }
        }
    }
}

/// Publication of every subrange: a memoised walk over a cache that holds
/// none of the walk's own ranges publishes the triple of every range of
/// the halving tree, so later overlapping walks reuse them all.
pub proof fn lemma_cached_walk_covers(m: Map<(u32, u32), (int, int, int)>, a: u32, b: u32)
    requires
        a < b,
        forall|t: int|
            0 <= t < tree_ranges(a, b).len() ==> !m.contains_key(#[trigger] tree_ranges(a, b)[t]),
    ensures
        forall|t: int|
            0 <= t < tree_ranges(a, b).len() ==> cached_walk(m, a, b).contains_key(
                #[trigger] tree_ranges(a, b)[t],
            ),
    decreases b - a,
{
    let s = tree_ranges(a, b);
    assert(s[0] == (a, b));
    assert(!m.contains_key((a, b)));
    if b <= a + 1 {
        assert(s.len() == 1);
    } else {
        let mm = mid_of(a as int, b as int) as u32;
        let left = tree_ranges(a, mm);
        let right = tree_ranges(mm, b);
        let m1 = cached_walk(m, a, mm);
        let m2 = cached_walk(m1, mm, b);
        lemma_tree_ranges_distinct(a, mm);
        lemma_tree_ranges_distinct(mm, b);
        assert forall|t: int| 0 <= t < left.len() implies !m.contains_key(
            #[trigger] left[t],
        ) by {
            assert(s[1 + t] == left[t]);
        }
        lemma_cached_walk_covers(m, a, mm);
        lemma_cached_walk_adds_tree(m, a, mm);
        assert forall|t: int| 0 <= t < right.len() implies !m1.contains_key(
            #[trigger] right[t],
        ) by {
            assert(s[1 + left.len() + t] == right[t]);
            assert(!m.contains_key(right[t]));
            if left.contains(right[t]) {
                let u = choose|u: int| 0 <= u < left.len() && left[u] == right[t];
                assert(left[u].1 <= mm);
                assert(right[t].0 >= mm);
                assert(right[t].0 < right[t].1);
                assert(false);
            }
        }
        lemma_cached_walk_covers(m1, mm, b);
        lemma_cached_walk_monotone(m1, mm, b);
        assert forall|t: int| 0 <= t < s.len() implies cached_walk(m, a, b).contains_key(
            #[trigger] s[t],
        ) by {
            if t == 0 {
            } else if t < 1 + left.len() {
                assert(s[t] == left[t - 1]);
                assert(m1.contains_key(left[t - 1]));
                assert(m2.contains_key(left[t - 1]));
            } else {
                assert(s[t] == right[t - 1 - left.len()]);
                assert(m2.contains_key(right[t - 1 - left.len()]));
            }
        }
    }
}

/// Binary splitting through the shared cache: returns the triple of
/// `[a, b)`, reusing cached subranges and publishing every newly computed
/// range before returning.  The final cache state is exactly the memoised
/// walk of the starting state, so a walk of a cached range changes
/// nothing.
pub fn split_context(a: u32, b: u32, context: &mut Context) -> (r: PQR)
    requires
        1 <= a < b,
        context_inv(context_model(*old(context))),
    ensures
        r.0@ == split_p(a as int, b as int),
        r.1@ == split_q(a as int, b as int),
        r.2@ == split_r(a as int, b as int),
        context_inv(context_model(*final(context))),
        context_model(*final(context)) == cached_walk(context_model(*old(context)), a, b),
        context_model(*old(context)).contains_key((a, b)) ==> context_model(*final(context))
            == context_model(*old(context)),
        context_model(*final(context)).contains_key((a, b)),
        forall|k: (u32, u32)|
            context_model(*old(context)).contains_key(k) ==> #[trigger] context_model(
                *final(context),
            ).contains_key(k),
    decreases b - a,
{
    if let Some(hit) = context_get(context, a, b) {
        return hit;
    }
    let result = if b == a + 1 {
        split_base(a)
    } else {
        let m = mid_point(a, b);
        let left = split_context(a, m, context);
        let right = split_context(m, b, context);
        proof {
            lemma_split_combine(a as int, m as int, b as int);
        }
        combine_pqr(&left, &right)
    };
    context_insert(context, a, b, clone_pqr(&result));
    result
}

/// Binary splitting that fills the shared cache in place: after the call
/// the cache state is exactly the memoised walk of the starting state, so
/// it holds the triple of `[a, b)` and of every subrange the walk had to
/// compute, and a call on a cached range changes nothing.
pub fn split_indexed(a: u32, b: u32, context: &mut Context)
    requires
        1 <= a < b,
        context_inv(context_model(*old(context))),
    ensures
        context_inv(context_model(*final(context))),
        context_model(*final(context)) == cached_walk(context_model(*old(context)), a, b),
        context_model(*old(context)).contains_key((a, b)) ==> context_model(*final(context))
            == context_model(*old(context)),
        context_model(*final(context)).contains_key((a, b)),
        forall|k: (u32, u32)|
            context_model(*old(context)).contains_key(k) ==> #[trigger] context_model(
                *final(context),
            ).contains_key(k),
    decreases b - a,
{
    if context_contains(context, a, b) {
        return ;
    }
    if b == a + 1 {
        let t = split_base(a);
        context_insert(context, a, b, t);
    } else {
        let m = mid_point(a, b);
        split_indexed(a, m, context);
        split_indexed(m, b, context);
        let left = match context_get(context, a, m) {
            Some(t) => t,
            None => vstd::pervasive::unreached(),
        };
        let right = match context_get(context, m, b) {
            Some(t) => t,
            None => vstd::pervasive::unreached(),
        };
        proof {
            lemma_split_combine(a as int, m as int, b as int);
        }
        let t = combine_pqr(&left, &right);
        context_insert(context, a, b, t);
    }
}

/// A census of split ranges: how often each range is visited.
pub type SplitCounts = dashmap::DashMap<Split, u32>;

/// The entries a split census holds.
pub uninterp spec fn counts_model(m: SplitCounts) -> Map<(u32, u32), u32>;

/// The model of a census with no entries.
pub open spec fn counts_model_empty() -> Map<(u32, u32), u32> {
    Map::empty()
}

/// Relies on `dashmap::DashMap::new`: a freshly created map holds no
/// entries.
#[verifier::external_body]
pub fn counts_new() -> (m: SplitCounts)
    ensures
        counts_model(m) == counts_model_empty(),
{
    dashmap::DashMap::new()
}

/// Relies on `dashmap::DashMap::get`: the count stored under the key, if
/// any.
#[verifier::external_body]
pub fn counts_get(m: &SplitCounts, a: u32, b: u32) -> (r: Option<u32>)
    ensures
        match r {
            Some(c) => counts_model(*m).contains_key((a, b)) && c == counts_model(*m)[(a, b)],
            None => !counts_model(*m).contains_key((a, b)),
        },
{
    match m.get(&(a, b)) {
        Some(e) => Some(*e.value()),
        None => None,
    }
}

/// Relies on `dashmap::DashMap::insert`: stores the count under the key.
#[verifier::external_body]
fn counts_insert(m: &mut SplitCounts, a: u32, b: u32, c: u32)
    ensures
        counts_model(*final(m)) == counts_model(*old(m)).insert((a, b), c),
{
    m.insert((a, b), c);
}

/// Relies on `dashmap::DashMap::remove`: removes the entry of the key, if
/// any.
#[verifier::external_body]
fn counts_remove(m: &mut SplitCounts, a: u32, b: u32)
    ensures
        counts_model(*final(m)) == counts_model(*old(m)).remove((a, b)),
{
    m.remove(&(a, b));
}

/// One visit of a range: its count rises by one, saturating at the width
/// of the counter.
pub open spec fn bump_count(m: Map<(u32, u32), u32>, k: (u32, u32)) -> Map<(u32, u32), u32> {
    let c = if m.contains_key(k) {
        m[k]
    } else {
        0u32
    };
    let c2 = if c < 0xffffffffu32 {
        (c + 1) as u32
    } else {
        c
    };
    m.insert(k, c2)
}

/// The census after a recursive walk of the halving tree of `(a, b)`,
/// parent first, left subtree before right subtree.
pub open spec fn add_tree(m: Map<(u32, u32), u32>, a: u32, b: u32) -> Map<(u32, u32), u32>
    decreases b - a,
{
    let m1 = bump_count(m, (a, b));
    if b <= a + 1 {
        m1
    } else {
        let mm = mid_of(a as int, b as int) as u32;
        add_tree(add_tree(m1, a, mm), mm, b)
    }
}

/// The census after a stack-driven walk of the halving tree of `(a, b)`,
/// parent first, right subtree before left subtree.
pub open spec fn add_tree_stack(m: Map<(u32, u32), u32>, a: u32, b: u32) -> Map<(u32, u32), u32>
    decreases b - a,
{
    let m1 = bump_count(m, (a, b));
    if b <= a + 1 {
        m1
    } else {
        let mm = mid_of(a as int, b as int) as u32;
        add_tree_stack(add_tree_stack(m1, mm, b), a, mm)
    }
}

/// The census after the stack-driven walk removes every range of the
/// halving tree of `(a, b)`, right subtree before left subtree.
pub open spec fn del_tree_stack(m: Map<(u32, u32), u32>, a: u32, b: u32) -> Map<(u32, u32), u32>
    decreases b - a,
{
    let m1 = m.remove((a, b));
    if b <= a + 1 {
        m1
    } else {
        let mm = mid_of(a as int, b as int) as u32;
        del_tree_stack(del_tree_stack(m1, mm, b), a, mm)
    }
}

/// The number of ranges in the halving tree of a range.
pub open spec fn tsize(k: (u32, u32)) -> int {
    if k.0 < k.1 {
        2 * (k.1 - k.0) - 1
    } else {
        1
    }
}

/// The total number of tree ranges still to be walked for a stack of
/// pending ranges.
pub open spec fn stack_measure(st: Seq<(u32, u32)>) -> int
    decreases st.len(),
{
    if st.len() == 0 {
        0
    } else {
        stack_measure(st.drop_last()) + tsize(st.last())
    }
}

proof fn lemma_stack_measure_push(st: Seq<(u32, u32)>, x: (u32, u32))
    ensures
        stack_measure(st.push(x)) == stack_measure(st) + tsize(x),
{
    assert(st.push(x).drop_last() =~= st);
    assert(st.push(x).last() == x);
}

proof fn lemma_stack_measure_nonneg(st: Seq<(u32, u32)>)
    ensures
        stack_measure(st) >= 0,
    decreases st.len(),
{
    if st.len() > 0 {
        lemma_stack_measure_nonneg(st.drop_last());
    }
}

/// The census a stack of pending ranges still produces, popped from the
/// top of the stack.
pub open spec fn drain_stack(m: Map<(u32, u32), u32>, st: Seq<(u32, u32)>) -> Map<(u32, u32), u32>
    decreases st.len(),
{
    if st.len() == 0 {
        m
    } else {
        drain_stack(add_tree_stack(m, st.last().0, st.last().1), st.drop_last())
    }
}

/// Popping a just-pushed range walks its whole subtree before the rest of
/// the stack.
proof fn lemma_drain_push(m: Map<(u32, u32), u32>, st: Seq<(u32, u32)>, x: (u32, u32))
    ensures
        drain_stack(m, st.push(x)) == drain_stack(add_tree_stack(m, x.0, x.1), st),
{
    assert(st.push(x).drop_last() =~= st);
    assert(st.push(x).last() == x);
    assert(st.push(x).len() == st.len() + 1);
}

/// The stack-driven census walk: every range of the halving tree of
/// `(a, b)` has its visit count raised by one, in the fixed pop order.
pub fn gen_splits_v1(a: u32, b: u32, splits: &mut SplitCounts)
    requires
        1 <= a < b,
    ensures
        counts_model(*final(splits)) == add_tree_stack(counts_model(*old(splits)), a, b),
{
    let ghost target: Map<(u32, u32), u32> = add_tree_stack(counts_model(*splits), a, b);
    let mut stack: Vec<(u32, u32)> = Vec::new();
    stack.push((a, b));
    proof {
        lemma_drain_push(counts_model(*splits), Seq::empty(), (a, b));
        assert(stack@ =~= Seq::empty().push((a, b)));
        assert(drain_stack(counts_model(*splits), stack@) == target);
    }
    while stack.len() > 0
        invariant
            drain_stack(counts_model(*splits), stack@) == target,
            forall|t: int| 0 <= t < stack@.len() ==> 1 <= (#[trigger] stack@[t]).0 < stack@[t].1,
        decreases stack_measure(stack@),
    {
        let ghost s_pre = stack@;
        let ghost m_pre = counts_model(*splits);
        let k = match stack.pop() {
            Some(x) => x,
            None => vstd::pervasive::unreached(),
        };
        proof {
            assert(stack@ =~= s_pre.drop_last());
            assert(k == s_pre.last());
            lemma_stack_measure_push(stack@, k);
            assert(s_pre =~= stack@.push(k));
            lemma_drain_push(m_pre, stack@, k);
            assert(drain_stack(add_tree_stack(m_pre, k.0, k.1), stack@) == target);
            assert(s_pre[s_pre.len() - 1] == k);
            assert(1 <= k.0 < k.1);
            assert(stack_measure(stack@) == stack_measure(s_pre) - tsize(k));
            assert(tsize(k) == 2 * (k.1 - k.0) - 1);
            lemma_stack_measure_nonneg(stack@);
        }
        let (ka, kb) = k;
        let c = counts_get(splits, ka, kb);
        let c2: u32 = match c {
            Some(x) => if x < 0xffffffffu32 {
                x + 1
            } else {
                x
            },
            None => 1,
        };
        counts_insert(splits, ka, kb, c2);
        proof {
            assert(counts_model(*splits) == bump_count(m_pre, (ka, kb)));
        }
        if kb != ka + 1 {
            let ghost s_mid = stack@;
            let ghost m_bumped = counts_model(*splits);
            let mm = mid_point(ka, kb);
            stack.push((ka, mm));
            stack.push((mm, kb));
            proof {
                lemma_stack_measure_push(s_mid, (ka, mm));
                lemma_stack_measure_push(s_mid.push((ka, mm)), (mm, kb));
                assert(stack@ =~= s_mid.push((ka, mm)).push((mm, kb)));
                // popping the two pushed ranges first walks the right
                // subtree, then the left: exactly add_tree_stack
                lemma_drain_push(m_bumped, s_mid.push((ka, mm)), (mm, kb));
                lemma_drain_push(add_tree_stack(m_bumped, mm, kb), s_mid, (ka, mm));
                assert(add_tree_stack(m_pre, ka, kb) == add_tree_stack(
                    add_tree_stack(m_bumped, mm, kb),
                    ka,
                    mm,
                ));
                assert(tsize((ka, mm)) == 2 * (mm - ka) - 1);
                assert(tsize((mm, kb)) == 2 * (kb - mm) - 1);
                assert(stack_measure(stack@) == stack_measure(s_mid) + tsize((ka, mm)) + tsize(
                    (mm, kb),
                ));
                assert(stack_measure(stack@) == stack_measure(s_pre) - 1);
                lemma_stack_measure_nonneg(stack@);
            }
        } else {
            proof {
                assert(add_tree_stack(m_pre, ka, kb) == counts_model(*splits));
            }
        }
    }
    proof {
        assert(drain_stack(counts_model(*splits), stack@) == counts_model(*splits));
    }
}

proof fn lemma_bump_commutes(m: Map<(u32, u32), u32>, k1: (u32, u32), k2: (u32, u32))
    ensures
        bump_count(bump_count(m, k1), k2) == bump_count(bump_count(m, k2), k1),
{
    if k1 != k2 {
        assert(bump_count(bump_count(m, k1), k2) =~= bump_count(bump_count(m, k2), k1));
    }
}

proof fn lemma_add_tree_bump(m: Map<(u32, u32), u32>, a: u32, b: u32, k: (u32, u32))
    ensures
        add_tree(bump_count(m, k), a, b) == bump_count(add_tree(m, a, b), k),
    decreases b - a,
{
    lemma_bump_commutes(m, (a, b), k);
    if b <= a + 1 {
    } else {
        let mm = mid_of(a as int, b as int) as u32;
        lemma_add_tree_bump(bump_count(m, (a, b)), a, mm, k);
        lemma_add_tree_bump(add_tree(bump_count(m, (a, b)), a, mm), mm, b, k);
    }
}

proof fn lemma_add_tree_commutes(m: Map<(u32, u32), u32>, a1: u32, b1: u32, a2: u32, b2: u32)
    ensures
        add_tree(add_tree(m, a1, b1), a2, b2) == add_tree(add_tree(m, a2, b2), a1, b1),
    decreases b1 - a1,
{
    if b1 <= a1 + 1 {
        assert(add_tree(m, a1, b1) == bump_count(m, (a1, b1)));
        lemma_add_tree_bump(m, a2, b2, (a1, b1));
    } else {
        let mm = mid_of(a1 as int, b1 as int) as u32;
        let m1 = bump_count(m, (a1, b1));
        // walk the pieces of the left-hand tree past the second tree one
        // at a time
        lemma_add_tree_commutes(add_tree(m1, a1, mm), mm, b1, a2, b2);
        lemma_add_tree_commutes(m1, a1, mm, a2, b2);
        lemma_add_tree_bump(m, a2, b2, (a1, b1));
    }
}

/// Census order irrelevance: the stack-driven walk and the recursive walk
/// visit the tree's ranges in different orders, but visit each range
/// equally often, so they produce the same census.
pub proof fn lemma_census_order_irrelevant(m: Map<(u32, u32), u32>, a: u32, b: u32)
    ensures
        add_tree_stack(m, a, b) == add_tree(m, a, b),
    decreases b - a,
{
    if b <= a + 1 {
    } else {
        let mm = mid_of(a as int, b as int) as u32;
        let m1 = bump_count(m, (a, b));
        lemma_census_order_irrelevant(m1, mm, b);
        lemma_census_order_irrelevant(add_tree_stack(m1, mm, b), a, mm);
        // swap the two subtree walks
        lemma_add_tree_commutes(m1, a, mm, mm, b);
    }
}

/// The census a stack of pending ranges still removes, popped from the
/// top of the stack.
pub open spec fn drain_del_stack(
    m: Map<(u32, u32), u32>,
    st: Seq<(u32, u32)>,
) -> Map<(u32, u32), u32>
    decreases st.len(),
{
    if st.len() == 0 {
        m
    } else {
        drain_del_stack(del_tree_stack(m, st.last().0, st.last().1), st.drop_last())
    }
}

proof fn lemma_drain_del_push(m: Map<(u32, u32), u32>, st: Seq<(u32, u32)>, x: (u32, u32))
    ensures
        drain_del_stack(m, st.push(x)) == drain_del_stack(del_tree_stack(m, x.0, x.1), st),
{
    assert(st.push(x).drop_last() =~= st);
    assert(st.push(x).last() == x);
    assert(st.push(x).len() == st.len() + 1);
}

/// The stack-driven purge walk: every range of the halving tree of
/// `(a, b)` has its census entry removed, in the fixed pop order.
pub fn gen_splits_v1_purge(a: u32, b: u32, splits: &mut SplitCounts)
    requires
        1 <= a < b,
    ensures
        counts_model(*final(splits)) == del_tree_stack(counts_model(*old(splits)), a, b),
{
    let ghost target: Map<(u32, u32), u32> = del_tree_stack(counts_model(*splits), a, b);
    let mut stack: Vec<(u32, u32)> = Vec::new();
    stack.push((a, b));
    proof {
        lemma_drain_del_push(counts_model(*splits), Seq::empty(), (a, b));
        assert(stack@ =~= Seq::empty().push((a, b)));
        assert(drain_del_stack(counts_model(*splits), stack@) == target);
    }
    while stack.len() > 0
        invariant
            drain_del_stack(counts_model(*splits), stack@) == target,
            forall|t: int| 0 <= t < stack@.len() ==> 1 <= (#[trigger] stack@[t]).0 < stack@[t].1,
        decreases stack_measure(stack@),
    {
        let ghost s_pre = stack@;
        let ghost m_pre = counts_model(*splits);
        let k = match stack.pop() {
            Some(x) => x,
            None => vstd::pervasive::unreached(),
        };
        proof {
            assert(stack@ =~= s_pre.drop_last());
            assert(k == s_pre.last());
            lemma_stack_measure_push(stack@, k);
            assert(s_pre =~= stack@.push(k));
            lemma_drain_del_push(m_pre, stack@, k);
            assert(s_pre[s_pre.len() - 1] == k);
            assert(1 <= k.0 < k.1);
            assert(stack_measure(stack@) == stack_measure(s_pre) - tsize(k));
            lemma_stack_measure_nonneg(stack@);
        }
        let (ka, kb) = k;
        counts_remove(splits, ka, kb);
        proof {
            assert(counts_model(*splits) == m_pre.remove((ka, kb)));
        }
        if kb != ka + 1 {
            let ghost s_mid = stack@;
            let ghost m_deleted = counts_model(*splits);
            let mm = mid_point(ka, kb);
            stack.push((ka, mm));
            stack.push((mm, kb));
            proof {
                lemma_stack_measure_push(s_mid, (ka, mm));
                lemma_stack_measure_push(s_mid.push((ka, mm)), (mm, kb));
                assert(stack@ =~= s_mid.push((ka, mm)).push((mm, kb)));
                lemma_drain_del_push(m_deleted, s_mid.push((ka, mm)), (mm, kb));
                lemma_drain_del_push(del_tree_stack(m_deleted, mm, kb), s_mid, (ka, mm));
                assert(del_tree_stack(m_pre, ka, kb) == del_tree_stack(
                    del_tree_stack(m_deleted, mm, kb),
                    ka,
                    mm,
                ));
                assert(stack_measure(stack@) == stack_measure(s_pre) - 1);
                lemma_stack_measure_nonneg(stack@);
            }
        } else {
            proof {
                assert(del_tree_stack(m_pre, ka, kb) == counts_model(*splits));
            }
        }
    }
    proof {
        assert(drain_del_stack(counts_model(*splits), stack@) == counts_model(*splits));
    }
}

/// The recursive census walk: every range of the halving tree of `(a, b)`
/// has its visit count raised by one, parent first, left subtree before
/// right subtree.
pub fn gen_splits_v2(a: u32, b: u32, splits: &mut SplitCounts)
    requires
        1 <= a < b,
    ensures
        counts_model(*final(splits)) == add_tree(counts_model(*old(splits)), a, b),
    decreases b - a,
{
    let c = counts_get(splits, a, b);
    let c2: u32 = match c {
        Some(x) => if x < 0xffffffffu32 {
            x + 1
        } else {
            x
        },
        None => 1,
    };
    counts_insert(splits, a, b, c2);
    if b != a + 1 {
        let mm = mid_point(a, b);
        gen_splits_v2(a, mm, splits);
        gen_splits_v2(mm, b, splits);
    }
}

/// The census after removing the root range and then re-walking both
/// subtrees, as the recursive purge does.
pub open spec fn v2_purge_spec(m: Map<(u32, u32), u32>, a: u32, b: u32) -> Map<(u32, u32), u32> {
    let m1 = m.remove((a, b));
    if b <= a + 1 {
        m1
    } else {
        let mm = mid_of(a as int, b as int) as u32;
        add_tree(add_tree(m1, a, mm), mm, b)
    }
}

/// Removes the root range's census entry, then walks both subtrees again.
pub fn gen_splits_v2_purge(a: u32, b: u32, splits: &mut SplitCounts)
    requires
        1 <= a < b,
    ensures
        counts_model(*final(splits)) == v2_purge_spec(counts_model(*old(splits)), a, b),
{
    counts_remove(splits, a, b);
    if b != a + 1 {
        let mm = mid_point(a, b);
        gen_splits_v2(a, mm, splits);
        gen_splits_v2(mm, b, splits);
    }
}

/// The census of every halving tree with top ranges `(1, b)` for `b` from
/// `first` to `end` in steps of `step`.
pub open spec fn deduce_spec(m: Map<(u32, u32), u32>, b: int, end: int, step: int) -> Map<
    (u32, u32),
    u32,
>
    decreases end + step - b,
{
    if step < 1 || b > end {
        m
    } else {
        deduce_spec(add_tree_stack(m, 1u32, b as u32), b + step, end, step)
    }
}

/// Deduces the full split census for the family of ranges `(1, b)`,
/// `b = start, start+step, ..` up to `end`: across the whole family each
/// distinct range is counted as often as the halving rule visits it.
pub fn deduce_splits(start: u32, end: u32, step: u32) -> (splits: SplitCounts)
    requires
        2 <= start <= end,
        1 <= step,
    ensures
        counts_model(splits) == deduce_spec(counts_model_empty(), start as int, end as int,
        step as int),
{
    let mut splits = counts_new();
    let mut b: u64 = start as u64;
    while b <= end as u64
        invariant
            start <= b,
            2 <= start <= end,
            1 <= step,
            deduce_spec(counts_model(splits), b as int, end as int, step as int) == deduce_spec(
                counts_model_empty(),
                start as int,
                end as int,
                step as int,
            ),
        decreases end + step - b,
    {
        gen_splits_v1(1, b as u32, &mut splits);
        b = b + step as u64;
    }
    splits
}

/// The packed form of a range key: `2^32 * a + b`, a deterministic,
/// collision-free encoding into one machine word.
pub open spec fn packed_key(a: int, b: int) -> int {
    a * 0x100000000 + b
}

/// Packs a range into one 64-bit key.
pub fn pack_split(a: u32, b: u32) -> (k: u64)
    ensures
        k == packed_key(a as int, b as int),
        k as int / 0x100000000 == a as int,
        k as int % 0x100000000 == b as int,
{
    let k: u64 = ((a as u64) << 32u64) | (b as u64);
    proof {
        let au = a as u64;
        let bu = b as u64;
        assert((au << 32u64) | bu == au * 0x100000000 + bu) by (bit_vector)
            requires
                au <= 0xffffffffu64,
                bu <= 0xffffffffu64,
        ;
        lemma_fundamental_div_mod_converse(k as int, 0x100000000, a as int, b as int);
    }
    k
}

/// Every entry of a well-formed packed-key cache is the exact triple of
/// the range its key encodes.
pub open spec fn packed_inv(m: Map<u64, PQR>) -> bool {
    forall|k: u64| #[trigger]
        m.contains_key(k) ==> {
            let a = k as int / 0x100000000;
            let b = k as int % 0x100000000;
            1 <= a && a < b && pqr_view(m[k]) == (split_p(a, b), split_q(a, b), split_r(a, b))
        }
}

/// One computed buffer entry: a packed range key with the exact triple of
/// that range.
pub open spec fn entry_ok(e: (u64, PQR)) -> bool {
    let a = e.0 as int / 0x100000000;
    let b = e.0 as int % 0x100000000;
    1 <= a && a < b && pqr_view(e.1) == (split_p(a, b), split_q(a, b), split_r(a, b))
}

/// The packed key of a range.
pub open spec fn packed_of(r: (u32, u32)) -> u64 {
    (packed_key(r.0 as int, r.1 as int)) as u64
}

/// No range of the halving tree of `(a, b)` has an entry in the packed
/// cache.
pub open spec fn tree_absent(m: Map<u64, PQR>, a: u32, b: u32) -> bool {
    forall|t: int|
        0 <= t < tree_ranges(a, b).len() ==> !m.contains_key(
            packed_of(#[trigger] tree_ranges(a, b)[t]),
        )
}

fn split_v2_inner(
    a: u32,
    b: u32,
    context: &std::collections::HashMap<u64, PQR>,
    buf: &mut Vec<(u64, PQR)>,
) -> (r: PQR)
    requires
        1 <= a < b,
        packed_inv(context@),
    ensures
        r.0@ == split_p(a as int, b as int),
        r.1@ == split_q(a as int, b as int),
        r.2@ == split_r(a as int, b as int),
        final(buf)@.len() >= old(buf)@.len(),
        forall|t: int| 0 <= t < old(buf)@.len() ==> final(buf)@[t] == old(buf)@[t],
        forall|t: int|
            old(buf)@.len() <= t < final(buf)@.len() ==> entry_ok(#[trigger] final(buf)@[t]),
        context@.contains_key((packed_key(a as int, b as int)) as u64) || exists|t: int|
            old(buf)@.len() <= t < final(buf)@.len() && (#[trigger] final(buf)@[t]).0 == (
            packed_key(a as int, b as int)) as u64,
        tree_absent(context@, a, b) ==> forall|t: int|
            0 <= t < tree_ranges(a, b).len() ==> exists|u: int|
                old(buf)@.len() <= u < final(buf)@.len() && (#[trigger] final(buf)@[u]).0
                    == packed_of(#[trigger] tree_ranges(a, b)[t]),
    decreases b - a,
{
    let key = pack_split(a, b);
    if let Some(hit) = context.get(&key) {
        proof {
            assert(context@.contains_key(key));
            if tree_absent(context@, a, b) {
                assert(tree_ranges(a, b)[0] == (a, b));
                assert(packed_of((a, b)) == key);
                assert(false);
            }
        }
        return clone_pqr(hit);
    }
    let ghost b0 = buf@;
    let ghost mut b_mid: Seq<(u64, PQR)> = Seq::empty();
    let t = if b == a + 1 {
        split_base(a)
    } else {
        let m = mid_point(a, b);
        let left = split_v2_inner(a, m, context, buf);
        proof {
            b_mid = buf@;
        }
        let right = split_v2_inner(m, b, context, buf);
        proof {
            lemma_split_combine(a as int, m as int, b as int);
            assert forall|tt: int| b0.len() <= tt < buf@.len() implies entry_ok(
                #[trigger] buf@[tt],
            ) by {
                if tt < b_mid.len() {
                    assert(buf@[tt] == b_mid[tt]);
                }
            }
        }
        combine_pqr(&left, &right)
    };
    let ghost pre = buf@;
    buf.push((key, clone_pqr(&t)));
    proof {
        assert(buf@[buf@.len() - 1].0 == key);
        assert(entry_ok(buf@[buf@.len() - 1]));
        assert forall|tt: int| b0.len() <= tt < buf@.len() implies entry_ok(
            #[trigger] buf@[tt],
        ) by {
            if tt < pre.len() {
                assert(buf@[tt] == pre[tt]);
            }
        }
        if tree_absent(context@, a, b) {
            let s = tree_ranges(a, b);
            assert(s[0] == (a, b));
            assert(packed_of(s[0]) == key);
            if b == a + 1 {
                assert forall|tt: int| 0 <= tt < s.len() implies exists|u: int|
                    b0.len() <= u < buf@.len() && (#[trigger] buf@[u]).0 == packed_of(
                        #[trigger] s[tt],
                    ) by {
                    assert(buf@[buf@.len() - 1].0 == packed_of(s[0]));
                }
            } else {
                let m = mid_of(a as int, b as int) as u32;
                let left_s = tree_ranges(a, m);
                let right_s = tree_ranges(m, b);
                assert forall|tt: int| 0 <= tt < left_s.len() implies !context@.contains_key(
                    packed_of(#[trigger] left_s[tt]),
                ) by {
                    assert(s[1 + tt] == left_s[tt]);
                }
                assert(tree_absent(context@, a, m));
                assert forall|tt: int| 0 <= tt < right_s.len() implies !context@.contains_key(
                    packed_of(#[trigger] right_s[tt]),
                ) by {
                    assert(s[1 + left_s.len() + tt] == right_s[tt]);
                }
                assert(tree_absent(context@, m, b));
                assert forall|tt: int| 0 <= tt < s.len() implies exists|u: int|
                    b0.len() <= u < buf@.len() && (#[trigger] buf@[u]).0 == packed_of(
                        #[trigger] s[tt],
                    ) by {
                    if tt == 0 {
                        assert(buf@[buf@.len() - 1].0 == packed_of(s[0]));
                    } else if tt < 1 + left_s.len() {
                        assert(s[tt] == left_s[tt - 1]);
                        let u = choose|u: int|
                            b0.len() <= u < b_mid.len() && (#[trigger] b_mid[u]).0 == packed_of(
                                left_s[tt - 1],
                            );
                        assert(pre[u] == b_mid[u]);
                        assert(buf@[u] == pre[u]);
                    } else {
                        assert(s[tt] == right_s[tt - 1 - left_s.len()]);
                        let u = choose|u: int|
                            b_mid.len() <= u < pre.len() && (#[trigger] pre[u]).0 == packed_of(
                                right_s[tt - 1 - left_s.len()],
                            );
                        assert(buf@[u] == pre[u]);
                    }
                }
            }
        }
    }
    t
}

/// Binary splitting with a read-only cache and a write buffer: subranges
/// already in the cache are reused, every newly computed range is pushed
/// to the buffer, and the buffer is merged into the cache at the end, so
/// a later call over an overlapping range finds all of them.  Starting
/// from a cache that holds none of the walk's ranges, every range of the
/// halving tree is published.
pub fn split_v2(a: u32, b: u32, context: &mut std::collections::HashMap<u64, PQR>)
    requires
        1 <= a < b,
        packed_inv(old(context)@),
    ensures
        packed_inv(final(context)@),
        final(context)@.contains_key((packed_key(a as int, b as int)) as u64),
        forall|k: u64|
            old(context)@.contains_key(k) ==> #[trigger] final(context)@.contains_key(k),
        tree_absent(old(context)@, a, b) ==> forall|t: int|
            0 <= t < tree_ranges(a, b).len() ==> final(context)@.contains_key(
                packed_of(#[trigger] tree_ranges(a, b)[t]),
            ),
{
    let mut buf: Vec<(u64, PQR)> = Vec::new();
    split_v2_inner(a, b, context, &mut buf);
    while buf.len() > 0
        invariant
            packed_inv(context@),
            forall|t: int| 0 <= t < buf@.len() ==> entry_ok(#[trigger] buf@[t]),
            context@.contains_key((packed_key(a as int, b as int)) as u64) || exists|t: int|
                0 <= t < buf@.len() && (#[trigger] buf@[t]).0 == (packed_key(
                    a as int,
                    b as int,
                )) as u64,
            forall|k: u64|
                old(context)@.contains_key(k) ==> #[trigger] context@.contains_key(k),
            tree_absent(old(context)@, a, b) ==> forall|t: int|
                0 <= t < tree_ranges(a, b).len() ==> context@.contains_key(
                    packed_of(#[trigger] tree_ranges(a, b)[t]),
                ) || exists|u: int|
                    0 <= u < buf@.len() && (#[trigger] buf@[u]).0 == packed_of(
                        tree_ranges(a, b)[t],
                    ),
        decreases buf@.len(),
    {
        let ghost pre = buf@;
        let ghost ctx_pre = context@;
        let e = match buf.pop() {
            Some(x) => x,
            None => vstd::pervasive::unreached(),
        };
        proof {
            assert(e == pre.last());
            assert(buf@ =~= pre.drop_last());
        }
        let (k, v) = e;
        context.insert(k, v);
        proof {
            assert(forall|t: int| 0 <= t < buf@.len() ==> buf@[t] == pre[t]);
            if tree_absent(old(context)@, a, b) {
                let s = tree_ranges(a, b);
                assert forall|t: int| 0 <= t < s.len() implies context@.contains_key(
                    packed_of(#[trigger] s[t]),
                ) || exists|u: int|
                    0 <= u < buf@.len() && (#[trigger] buf@[u]).0 == packed_of(s[t]) by {
                    if !ctx_pre.contains_key(packed_of(s[t])) {
                        let u = choose|u: int|
                            0 <= u < pre.len() && (#[trigger] pre[u]).0 == packed_of(s[t]);
                        if u < pre.len() - 1 {
                            assert(buf@[u] == pre[u]);
                        } else {
                            assert(k == packed_of(s[t]));
                        }
                    }
                }
            }
        }
    }
}

/// An indexed split cache: the triple of range `(a, b)` lives in row
/// `b - 1` at column `a - 1`, so lookups need no hashing at all.
pub struct VContext {
    inner: Vec<Vec<Option<(BigInt, BigInt, BigInt)>>>,
}

/// Whether the indexed cache has a stored triple for the range `k`.
pub open spec fn vc_slot_full(rows: Seq<Vec<Option<(BigInt, BigInt, BigInt)>>>, k: (u32, u32)) -> bool {
    &&& 1 <= k.1
    &&& k.1 - 1 < rows.len()
    &&& 1 <= k.0
    &&& k.0 - 1 < rows[k.1 - 1]@.len()
    &&& rows[k.1 - 1]@[k.0 - 1].is_some()
}

impl VContext {
    /// The entries the cache holds, as a map from ranges to triple values.
    pub closed spec fn model(&self) -> Map<(u32, u32), (int, int, int)> {
        Map::new(
            |k: (u32, u32)| vc_slot_full(self.inner@, k),
            |k: (u32, u32)| pqr_view(self.inner@[k.1 - 1]@[k.0 - 1].unwrap()),
        )
    }

    /// Appends empty rows until every range bound up to `b` has a row.
    fn grow(&mut self, b: u32)
        requires
            2 <= b <= 0x7fffffff,
        ensures
            final(self).model() == old(self).model(),
            final(self).inner@.len() >= b,
    {
        let ghost m0 = self.model();
        let t1: usize = (b as usize) * 2 - 3;
        let t2: usize = b as usize;
        let target: usize = if t1 > t2 {
            t1
        } else {
            t2
        };
        while self.inner.len() < target
            invariant
                self.model() == m0,
            decreases target - self.inner@.len(),
        {
            let ghost rows0 = self.inner@;
            self.inner.push(Vec::new());
            proof {
                assert forall|k: (u32, u32)| vc_slot_full(self.inner@, k) == vc_slot_full(
                    rows0,
                    k,
                ) by {
                    if 1 <= k.1 && k.1 - 1 < rows0.len() {
                        assert(self.inner@[k.1 - 1] == rows0[k.1 - 1]);
                    }
                }
                assert(self.model() =~= m0);
            }
        }
    }

    /// Pads row `b - 1` with empty slots until column `a - 1` exists.
    fn grow_at(&mut self, a: u32, b: u32)
        requires
            1 <= a,
            2 <= b <= 0x7fffffff,
        ensures
            final(self).model() == old(self).model(),
            final(self).inner@.len() >= b,
            final(self).inner@[b - 1]@.len() >= a,
    {
        let ghost m0 = self.model();
        self.grow(b);
        let bi: usize = (b - 1) as usize;
        while self.inner[bi].len() < a as usize
            invariant
                self.model() == m0,
                bi == b - 1,
                bi < self.inner@.len(),
            decreases a - self.inner@[bi as int]@.len(),
        {
            let ghost rows0 = self.inner@;
            self.inner[bi].push(None);
            proof {
                assert forall|k: (u32, u32)| vc_slot_full(self.inner@, k) == vc_slot_full(
                    rows0,
                    k,
                ) by {
                    if 1 <= k.1 && k.1 - 1 < rows0.len() {
                        if k.1 - 1 == bi {
                            assert(self.inner@[k.1 - 1]@ == rows0[k.1 - 1]@.push(None));
                        } else {
                            assert(self.inner@[k.1 - 1] == rows0[k.1 - 1]);
                        }
                    }
                }
                assert forall|k: (u32, u32)|
                    vc_slot_full(self.inner@, k) implies pqr_view(
                    self.inner@[k.1 - 1]@[k.0 - 1].unwrap(),
                ) == pqr_view(rows0[k.1 - 1]@[k.0 - 1].unwrap()) by {
                    if k.1 - 1 == bi {
                        assert(self.inner@[k.1 - 1]@[k.0 - 1] == rows0[k.1 - 1]@[k.0 - 1]);
                    }
                }
                assert(self.model() =~= m0);
            }
        }
    }

    /// The stored triple of a range, if the cache holds one.
    pub fn get(&self, a: u32, b: u32) -> (r: Option<&(BigInt, BigInt, BigInt)>)
        ensures
            match r {
                Some(t) => self.model().contains_key((a, b)) && pqr_view(*t) == self.model()[
                    (a, b)
                ],
                None => !self.model().contains_key((a, b)),
            },
    {
        if a >= 1 && b >= 1 {
            let bi: usize = (b - 1) as usize;
            let ai: usize = (a - 1) as usize;
            if bi < self.inner.len() {
                if ai < self.inner[bi].len() {
                    match &self.inner[bi][ai] {
                        Some(t) => Some(t),
                        None => None,
                    }
                } else {
                    None
                }
            } else {
                None
            }
        } else {
            None
        }
    }

    /// Publishes the triple of a range; the slot is written whole, so a
    /// later read sees either nothing or this full triple.
    pub fn insert(&mut self, a: u32, b: u32, value: (BigInt, BigInt, BigInt))
        requires
            1 <= a < b <= 0x7fffffff,
        ensures
            final(self).model() == old(self).model().insert((a, b), pqr_view(value)),
    {
        self.grow_at(a, b);
        let bi: usize = (b - 1) as usize;
        let ai: usize = (a - 1) as usize;
        let ghost rows0 = self.inner@;
        let ghost m0 = self.model();
        self.inner[bi][ai] = Some(value);
        proof {
            assert forall|k: (u32, u32)|
                k != (a, b) implies vc_slot_full(self.inner@, k) == vc_slot_full(rows0, k) && (
            vc_slot_full(rows0, k) ==> self.inner@[k.1 - 1]@[k.0 - 1] == rows0[k.1 - 1]@[k.0
                - 1]) by {
                if 1 <= k.1 && k.1 - 1 < rows0.len() {
                    if k.1 - 1 == bi {
                        assert(self.inner@[k.1 - 1]@ == rows0[k.1 - 1]@.update(
                            ai as int,
                            Some(value),
                        ));
                    } else {
                        assert(self.inner@[k.1 - 1] == rows0[k.1 - 1]);
                    }
                }
            }
            assert(vc_slot_full(self.inner@, (a, b)));
            assert(self.inner@[b - 1]@[a - 1] == Some(value));
            assert(self.model() =~= m0.insert((a, b), pqr_view(value)));
        }
    }
}

impl Default for VContext {
    /// An empty indexed cache.
    fn default() -> (r: Self)
        ensures
            r.model() == context_model_empty(),
    {
        let r = VContext { inner: Vec::new() };
        proof {
            assert(r.model() =~= context_model_empty());
        }
        r
    }
}

/// The integer square root: the unique `r >= 0` with `r*r <= n < (r+1)*(r+1)`.
pub open spec fn isqrt(n: int) -> int {
    choose|r: int| r >= 0 && #[trigger] (r * r) <= n && n < (r + 1) * (r + 1)
}

/// A value satisfying the square-root bracketing is the integer square root.
pub proof fn lemma_isqrt_unique(n: int, r: int)
    requires
        r >= 0,
        r * r <= n,
        n < (r + 1) * (r + 1),
    ensures
        isqrt(n) == r,
{
    assert(r >= 0 && r * r <= n && n < (r + 1) * (r + 1));
    let s = isqrt(n);
    assert(s >= 0 && s * s <= n && n < (s + 1) * (s + 1));
    if s < r {
        assert((s + 1) * (s + 1) <= r * r) by (nonlinear_arith)
            requires
                0 <= s,
                s < r,
        ;
        assert(false);
    }
    if r < s {
        assert((r + 1) * (r + 1) <= s * s) by (nonlinear_arith)
            requires
                0 <= r,
                r < s,
        ;
        assert(false);
    }
}

/// The scaled radicand of the integer pi assembler: `10005 * 10^(2*(14n+1))`.
pub open spec fn integer_radicand(n: int) -> int {
    pow(10, (2 * (n * 14 + 1)) as nat) * 10005
}

/// The denominator both pi assemblers divide by: `13591409*Q + R` over `[1, n)`.
pub open spec fn pi_denominator(n: int) -> int {
    13591409 * split_q(1, n) + split_r(1, n)
}

/// Decimal pi as an exact integer: pi scaled by `10^(14n)`, computed from
/// the top-level triple and an integer square root of the scaled radicand,
/// which avoids any floating rounding ambiguity.  The series guarantees
/// that the denominator is nonzero for every real run; that fact is a
/// mathematical property of the series and is taken as a precondition.
pub fn chudnovsky_integer(n: u32) -> (r: BigInt)
    requires
        2 <= n <= 153391581,
        pi_denominator(n as int) != 0,
    ensures
        r@ == div_trunc(
            426880 * isqrt(integer_radicand(n as int)) * split_q(1, n as int),
            pi_denominator(n as int),
        ),
{
    let e: u32 = 2 * (n * 14 + 1);
    let scaled = int_mul(&int_pow(&int_from(10), e), &int_from(10005));
    proof {
        vstd::arithmetic::power::lemma_pow_positive(10, e as nat);
    }
    let root = int_sqrt(&scaled);
    proof {
        lemma_isqrt_unique(scaled@, root@);
    }
    let split = binary_split(1, n);
    let num = int_mul(&int_mul(&int_from(426880), &root), &split.1);
    let den = int_add(&int_mul(&int_from(13591409), &split.1), &split.2);
    int_div(&num, &den)
}

/// The scaled radicand of the fixed-point pi assembler: `10005 * 2^(2*prec)`.
pub open spec fn float_radicand(prec: nat) -> int {
    10005 * (pow2(2 * prec) as int)
}

/// Decimal pi as a bounded-precision binary fraction at the precision
/// budget of `n*14*4` bits derived from the requested term count: the
/// mantissa is the exact truncated quotient of the Chudnovsky formula with
/// `sqrt(10005)` computed at that same budget.
pub fn chudnovsky_float(n: u32) -> (r: BigFloat)
    requires
        2 <= n <= 38347922,
        pi_denominator(n as int) != 0,
    ensures
        r.exp == n * 14 * 4,
        r.mantissa@ == div_trunc(
            426880 * isqrt(float_radicand((n * 14 * 4) as nat)) * split_q(1, n as int),
            pi_denominator(n as int),
        ),
{
    let prec: u32 = n * 14 * 4;
    let scaled = int_mul(&int_from(10005), &int_shl(&int_from(1), 2 * prec));
    proof {
        vstd::arithmetic::power2::lemma_pow2_pos((2 * prec) as nat);
    }
    let root = int_sqrt(&scaled);
    proof {
        lemma_isqrt_unique(scaled@, root@);
    }
    let split = binary_split(1, n);
    let num = int_mul(&int_mul(&int_from(426880), &root), &split.1);
    let den = int_add(&int_mul(&int_from(13591409), &split.1), &split.2);
    BigFloat { mantissa: int_div(&num, &den), exp: prec }
}

} // verus!