//! The weak integrity check guarding incremental trail updates: the sum of
//! `x + y` over a prefix of the trail, accumulated with wrapping 64-bit
//! addition. A mirror recomputes it over its own stored prefix and compares it
//! with the value the sender claims; a mismatch signals desynchronization.
//!
//! The checksum is not collision-resistant (two different prefixes can sum to
//! the same value), but changing a single coordinate always changes it, which
//! is proved here (`lemma_prefix_sum_detects_update`).

use vstd::prelude::*;
use vstd::arithmetic::div_mod::{
    lemma_fundamental_div_mod,
    lemma_mod_bound,
    lemma_mod_equivalence,
    lemma_mod_add_multiples_vanish,
    lemma_mod_sub_multiples_vanish,
    lemma_add_mod_noop,
};
use vstd::wrapping::i64_specs;
use crate::geom::Pos;

verus! {

/// One point's contribution to the checksum.
pub open spec fn point_term(p: Pos) -> int {
    p.x + p.y
}

/// The checksum of the first `n` points: a left fold with wrapping addition.
pub open spec fn prefix_sum(s: Seq<Pos>, n: int) -> i64
    decreases n,
{
    if n <= 0 {
        0
    } else {
        i64_specs::wrapping_add(prefix_sum(s, n - 1), point_term(s[n - 1]) as i64)
    }
}

/// The same sum over the mathematical integers, without wrapping.
pub open spec fn exact_sum(s: Seq<Pos>, n: int) -> int
    decreases n,
{
    if n <= 0 {
        0
    } else {
        exact_sum(s, n - 1) + point_term(s[n - 1])
    }
}

/// The wrapped sum agrees with the exact sum modulo `2^64`.
pub proof fn lemma_prefix_sum_congruent(s: Seq<Pos>, n: int)
    ensures
        (prefix_sum(s, n) as int) % 0x1_0000_0000_0000_0000 == exact_sum(s, n)
            % 0x1_0000_0000_0000_0000,
    decreases n,
{
    let m: int = 0x1_0000_0000_0000_0000;
    if n > 0 {
        lemma_prefix_sum_congruent(s, n - 1);
        let w: int = prefix_sum(s, n - 1) as int;
        let e: int = exact_sum(s, n - 1);
        let c: int = point_term(s[n - 1]);
        // The wrapped step is `w + c` shifted by a multiple of the modulus.
        let step: int = prefix_sum(s, n) as int;
        assert(step == w + c || step == w + c - m || step == w + c + m);
        lemma_mod_add_multiples_vanish(w + c, m);
        lemma_mod_sub_multiples_vanish(w + c, m);
        assert(step % m == (w + c) % m);
        lemma_add_mod_noop(w, c, m);
        lemma_add_mod_noop(e, c, m);
        assert((w + c) % m == (e + c) % m);
    }
}

/// Replacing the point at index `i` shifts the exact sum by the change in that
/// point's term.
pub proof fn lemma_exact_sum_update(s: Seq<Pos>, n: int, i: int, q: Pos)
    requires
        0 <= i < n <= s.len(),
    ensures
        exact_sum(s.update(i, q), n) == exact_sum(s, n) + point_term(q) - point_term(s[i]),
    decreases n,
{
    let t = s.update(i, q);
    if i == n - 1 {
        assert(forall|j: int| 0 <= j < n - 1 ==> t[j] == s[j]);
        lemma_exact_sum_unchanged(s, t, n - 1);
    } else {
        lemma_exact_sum_update(s, n - 1, i, q);
        assert(t[n - 1] == s[n - 1]);
    }
}

/// Two sequences equal on the first `n` positions have the same exact sum there.
pub proof fn lemma_exact_sum_unchanged(s: Seq<Pos>, t: Seq<Pos>, n: int)
    requires
        forall|j: int| 0 <= j < n ==> t[j] == s[j],
    ensures
        exact_sum(t, n) == exact_sum(s, n),
    decreases n,
{
    if n > 0 {
        lemma_exact_sum_unchanged(s, t, n - 1);
    }
}

/// Likewise for the wrapped sum: only the first `n` points matter.
pub proof fn lemma_prefix_sum_unchanged(s: Seq<Pos>, t: Seq<Pos>, n: int)
    requires
        forall|j: int| 0 <= j < n ==> t[j] == s[j],
    ensures
        prefix_sum(t, n) == prefix_sum(s, n),
    decreases n,
{
    if n > 0 {
        lemma_prefix_sum_unchanged(s, t, n - 1);
    }
}

/// Corrupting one point of the prefix so that its term changes always changes
/// the checksum: the shift is nonzero and far smaller than the modulus, so the
/// wrapped values cannot coincide.
pub proof fn lemma_prefix_sum_detects_update(s: Seq<Pos>, n: int, i: int, q: Pos)
    requires
        0 <= i < n <= s.len(),
        point_term(q) != point_term(s[i]),
    ensures
        prefix_sum(s.update(i, q), n) != prefix_sum(s, n),
{
    let m: int = 0x1_0000_0000_0000_0000;
    let t = s.update(i, q);
    let delta: int = point_term(q) - point_term(s[i]);
    lemma_exact_sum_update(s, n, i, q);
    lemma_prefix_sum_congruent(s, n);
    lemma_prefix_sum_congruent(t, n);
    if prefix_sum(t, n) == prefix_sum(s, n) {
        lemma_mod_equivalence(exact_sum(t, n), exact_sum(s, n), m);
        assert(delta % m == 0) by {
            lemma_mod_equivalence(delta, 0, m);
        };
        lemma_fundamental_div_mod(delta, m);
        assert(delta == m * (delta / m));
        // The term of a point lies in (-2^33, 2^33), so |delta| < 2^64.
        assert(-m < delta < m);
        assert(delta == 0) by (nonlinear_arith)
            requires
                delta == m * (delta / m),
                -m < delta < m,
                m > 0,
        ;
    }
}

/// The wrapped checksum of the first `n` points of `points`.
pub fn points_sum(points: &Vec<Pos>, n: usize) -> (r: i64)
    requires
        n <= points@.len(),
    ensures
        r == prefix_sum(points@, n as int),
{
    let mut acc: i64 = 0;
    let mut i: usize = 0;
    while i < n
        invariant
            0 <= i <= n <= points@.len(),
            acc == prefix_sum(points@, i as int),
        decreases n - i,
    {
        let p = points[i];
        let term: i64 = p.x as i64 + p.y as i64;
        acc = acc.wrapping_add(term);
        i = i + 1;
    }
    acc
}

} // verus!
