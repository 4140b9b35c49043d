//! Why the least used orientation is the one that keeps the usage counts most
//! even, and the most used one the one that keeps them least even.
//!
//! The Shannon entropy of counts `c` with total `S` is
//! `log2(S) - log2(W) / S`, where `W` is the product of `c^c` over the counts
//! (with `0^0 = 1`). Of two distributions with the same total, the one with the
//! smaller `W` has the greater entropy. `W` is a whole number, so entropies of
//! distributions with the same total are compared here exactly, without
//! logarithms.

use vstd::prelude::*;
use vstd::arithmetic::power::{
    lemma_pow0, lemma_pow1, lemma_pow_adds, lemma_pow_distributes, lemma_pow_positive,
    lemma_square_is_pow2, pow,
};
use crate::domain::Domain;
use crate::grid::UsageCounts;
use crate::select::{favoured, EntropyPolicy};

verus! {

/// `n` to the power of `n`, with 1 for `n = 0`.
pub open spec fn self_power(n: nat) -> int {
    pow(n as int, n)
}

/// The product of `c^c` over the counts `c` in `s`: the smaller it is among
/// distributions with the same total, the greater their entropy.
pub open spec fn concentration(s: Seq<nat>) -> int
    decreases s.len(),
{
    if s.len() == 0 {
        1
    } else {
        concentration(s.drop_last()) * self_power(s.last())
    }
}

/// The usage counts as natural numbers.
pub open spec fn tally(usage: UsageCounts) -> Seq<nat> {
    Seq::new(4, |o: int| usage.of(o) as nat)
}

/// The counts `t` after one more use of orientation `o`.
pub open spec fn one_more(t: Seq<nat>, o: int) -> Seq<nat> {
    t.update(o, (t[o] + 1) as nat)
}

proof fn lemma_pow_unfold(b: int, e: nat)
    requires
        e > 0,
    ensures
        pow(b, e) == b * pow(b, (e - 1) as nat),
{
    lemma_pow_adds(b, 1, (e - 1) as nat);
    lemma_pow1(b);
}

proof fn lemma_pow_nonnegative(b: int, e: nat)
    requires
        b >= 0,
    ensures
        pow(b, e) >= 0,
    decreases e,
{
    if e == 0 {
        lemma_pow0(b);
    } else {
        lemma_pow_unfold(b, e);
        lemma_pow_nonnegative(b, (e - 1) as nat);
        let p = pow(b, (e - 1) as nat);
        assert(b * p >= 0) by (nonlinear_arith)
            requires
                b >= 0,
                p >= 0,
        ;
    }
}

/// Bernoulli's inequality, cleared of fractions:
/// `(1 - 1/(m+1))^k >= 1 - k/(m+1)`.
proof fn lemma_bernoulli(m: int, k: nat)
    requires
        m >= 0,
    ensures
        pow(m, k) * (m + 1) >= (m + 1 - k) * pow(m + 1, k),
    decreases k,
{
    if k == 0 {
        lemma_pow0(m);
        lemma_pow0(m + 1);
    } else {
        let j = (k - 1) as nat;
        lemma_bernoulli(m, j);
        lemma_pow_unfold(m, k);
        lemma_pow_unfold(m + 1, k);
        lemma_pow_positive(m + 1, j);
        let a = pow(m, j);
        let p = pow(m + 1, j);
        assert(a * (m + 1) >= (m + 1 - j) * p);
        assert((m * a) * (m + 1) >= (m + 1 - k) * ((m + 1) * p)) by (nonlinear_arith)
            requires
                a * (m + 1) >= (m + 1 - j) * p,
                m >= 0,
                p > 0,
                k == j + 1,
                j >= 0,
        {
            assert(m * (a * (m + 1)) >= m * ((m + 1 - j) * p));
            assert(m * (m + 1 - j) == (m + 1 - k) * (m + 1) + j);
            assert(m * ((m + 1 - j) * p) == (m + 1 - k) * ((m + 1) * p) + j * p);
            assert(j * p >= 0);
        }
    }
}

/// `n^n` is positive.
pub proof fn lemma_self_power_positive(n: nat)
    ensures
        self_power(n) > 0,
{
    if n == 0 {
        lemma_pow0(0);
    } else {
        lemma_pow_positive(n as int, n);
    }
}

/// The factor by which `n^n` grows from one `n` to the next grows itself:
/// `(n+1)^(n+1) / n^n < (n+2)^(n+2) / (n+1)^(n+1)`.
proof fn lemma_self_power_convex(n: nat)
    ensures
        self_power((n + 1) as nat) * self_power((n + 1) as nat) < self_power(n) * self_power((n + 2) as nat),
{
    if n == 0 {
        lemma_pow0(0);
        lemma_pow1(1);
        lemma_square_is_pow2(2);
    } else {
        let x: int = n as int + 1;
        let m: int = x * x - 1;
        assert(m == (x - 1) * (x + 1)) by (nonlinear_arith)
            requires
                m == x * x - 1,
        ;
        assert(m >= 0) by (nonlinear_arith)
            requires
                m == x * x - 1,
                x >= 1,
        ;
        let a = pow(m, n);
        let p = pow(m + 1, n);
        let c = (x + 1) * (x + 1);
        let lhs = self_power((n + 1) as nat) * self_power((n + 1) as nat);
        let rhs = self_power(n) * self_power((n + 2) as nat);
        // lhs == (m + 1) * p
        assert(lhs == (m + 1) * p) by {
            lemma_pow_distributes(x, x, (n + 1) as nat);
            lemma_pow_unfold(x * x, (n + 1) as nat);
        }
        // rhs == a * c
        assert(rhs == a * c) by {
            lemma_pow_adds(x + 1, n, 2);
            lemma_square_is_pow2(x + 1);
            lemma_pow_distributes(x - 1, x + 1, n);
            let u = pow(x - 1, n);
            let v = pow(x + 1, n);
            assert(self_power(n) == u);
            assert(self_power((n + 2) as nat) == v * c);
            assert(a == u * v);
            assert(u * (v * c) == (u * v) * c) by (nonlinear_arith);
        }
        lemma_bernoulli(m, n);
        lemma_pow_positive(m + 1, n);
        lemma_pow_nonnegative(m, n);
        assert(a * (m + 1) >= (m + 1 - n) * p);
        assert((m + 1 - n) * c > (m + 1) * (m + 1)) by (nonlinear_arith)
            requires
                m == x * x - 1,
                c == (x + 1) * (x + 1),
                n == x - 1,
                x >= 2,
        {
            assert((m + 1 - n) == x * x - x + 1);
            assert(c == x * x + 2 * x + 1);
            assert((x * x - x + 1) * (x * x + 2 * x + 1) == x * x * x * x + x * x * x + x + 1);
            assert((m + 1) * (m + 1) == x * x * x * x);
            assert(x * x * x > 0);
        }
        assert(c > 0) by (nonlinear_arith)
            requires
                c == (x + 1) * (x + 1),
                x >= 2,
        ;
        assert((m + 1) * p < a * c) by (nonlinear_arith)
            requires
                a * (m + 1) >= (m + 1 - n) * p,
                (m + 1 - n) * c > (m + 1) * (m + 1),
                p > 0,
                c > 0,
                m >= 0,
                a >= 0,
        {
            assert((a * (m + 1)) * c >= ((m + 1 - n) * p) * c);
            assert(((m + 1 - n) * p) * c == ((m + 1 - n) * c) * p);
            assert(((m + 1 - n) * c) * p > ((m + 1) * (m + 1)) * p);
            assert((a * (m + 1)) * c == (a * c) * (m + 1));
            assert(((m + 1) * (m + 1)) * p == ((m + 1) * p) * (m + 1));
            assert((a * c) * (m + 1) > ((m + 1) * p) * (m + 1));
        }
    }
}

/// One more use adds less to the concentration where the count is smaller:
/// for `a < b`, `(a+1)^(a+1) / a^a < (b+1)^(b+1) / b^b`.
pub proof fn lemma_growth_is_monotone(a: nat, b: nat)
    requires
        a < b,
    ensures
        self_power((a + 1) as nat) * self_power(b) < self_power(a) * self_power((b + 1) as nat),
    decreases b - a,
{
    if b == a + 1 {
        lemma_self_power_convex(a);
    } else {
        let b1 = (b - 1) as nat;
        lemma_growth_is_monotone(a, b1);
        lemma_self_power_convex(b1);
        lemma_self_power_positive(a);
        lemma_self_power_positive((a + 1) as nat);
        lemma_self_power_positive(b1);
        lemma_self_power_positive(b);
        lemma_self_power_positive((b + 1) as nat);
        let p = self_power((a + 1) as nat);
        let q = self_power(b1);
        let r = self_power(b);
        let s = self_power(a);
        let t = self_power((b + 1) as nat);
        assert(p * q < s * r);
        assert(r * r < q * t);
        assert(p * r < s * t) by (nonlinear_arith)
            requires
                p * q < s * r,
                r * r < q * t,
                p > 0,
                q > 0,
                r > 0,
                s > 0,
                t > 0,
        {
            assert((p * q) * r < (s * r) * r);
            assert(s * (r * r) < s * (q * t));
            assert((s * r) * r == s * (r * r));
            assert((p * q) * r == (p * r) * q);
            assert(s * (q * t) == (s * t) * q);
            assert((p * r) * q < (s * t) * q);
        }
    }
}

/// The concentration is positive.
pub proof fn lemma_concentration_positive(s: Seq<nat>)
    ensures
        concentration(s) > 0,
    decreases s.len(),
{
    if s.len() > 0 {
        lemma_concentration_positive(s.drop_last());
        lemma_self_power_positive(s.last());
        let w = concentration(s.drop_last());
        let f = self_power(s.last());
        assert(w * f > 0) by (nonlinear_arith)
            requires
                w > 0,
                f > 0,
        ;
    }
}

/// Replacing the count at `i` by `x` changes the concentration by the factor
/// `x^x / s[i]^s[i]`.
pub proof fn lemma_concentration_update(s: Seq<nat>, i: int, x: nat)
    requires
        0 <= i < s.len(),
    ensures
        concentration(s.update(i, x)) * self_power(s[i]) == concentration(s) * self_power(x),
    decreases s.len(),
{
    let t = s.update(i, x);
    let w = concentration(s.drop_last());
    if i == s.len() - 1 {
        assert(t.drop_last() =~= s.drop_last());
        let f = self_power(s[i]);
        let g = self_power(x);
        assert((w * g) * f == (w * f) * g) by (nonlinear_arith);
    } else {
        assert(t.drop_last() =~= s.drop_last().update(i, x));
        lemma_concentration_update(s.drop_last(), i, x);
        let w2 = concentration(s.drop_last().update(i, x));
        let f = self_power(s[i]);
        let g = self_power(x);
        let l = self_power(s.last());
        assert(w2 * f == w * g);
        assert((w2 * l) * f == (w * l) * g) by (nonlinear_arith)
            requires
                w2 * f == w * g,
        {
            assert((w2 * l) * f == (w2 * f) * l);
            assert((w * l) * g == (w * g) * l);
        }
    }
}

/// One more use of an orientation with the smaller count leaves the smaller
/// concentration, and so the greater entropy; with equal counts the two are
/// the same.
pub proof fn lemma_fewer_uses_more_entropy(t: Seq<nat>, o: int, k: int)
    requires
        0 <= o < t.len(),
        0 <= k < t.len(),
        t[o] <= t[k],
    ensures
        concentration(one_more(t, o)) <= concentration(one_more(t, k)),
        t[o] < t[k] ==> concentration(one_more(t, o)) < concentration(one_more(t, k)),
        t[o] == t[k] ==> concentration(one_more(t, o)) == concentration(one_more(t, k)),
{
    let w = concentration(t);
    let wo = concentration(one_more(t, o));
    let wk = concentration(one_more(t, k));
    let so = self_power(t[o]);
    let so1 = self_power((t[o] + 1) as nat);
    let sk = self_power(t[k]);
    let sk1 = self_power((t[k] + 1) as nat);
    lemma_concentration_update(t, o, (t[o] + 1) as nat);
    lemma_concentration_update(t, k, (t[k] + 1) as nat);
    lemma_concentration_positive(t);
    lemma_self_power_positive(t[o]);
    lemma_self_power_positive(t[k]);
    lemma_self_power_positive((t[o] + 1) as nat);
    lemma_self_power_positive((t[k] + 1) as nat);
    assert(wo * so == w * so1);
    assert(wk * sk == w * sk1);
    if t[o] < t[k] {
        lemma_growth_is_monotone(t[o], t[k]);
        assert(so1 * sk < so * sk1);
        assert(wo < wk) by (nonlinear_arith)
            requires
                wo * so == w * so1,
                wk * sk == w * sk1,
                so1 * sk < so * sk1,
                w > 0,
                so > 0,
                sk > 0,
        {
            assert((wo * so) * sk == w * (so1 * sk));
            assert((wk * sk) * so == w * (so * sk1));
            assert(w * (so1 * sk) < w * (so * sk1));
            assert((wo * so) * sk == wo * (so * sk));
            assert((wk * sk) * so == wk * (so * sk));
            assert(so * sk > 0);
            assert(wo * (so * sk) < wk * (so * sk));
        }
    } else {
        assert(wo == wk) by (nonlinear_arith)
            requires
                wo * so == w * so1,
                wk * so == w * so1,
                so > 0,
        ;
    }
}

/// The orientation that the solver picks takes the entropy of the usage
/// counts, as they would be after the pick, to its extreme. Under the policy to
/// maximise, no member of the domain would leave a smaller concentration, and
/// every member with a lower number would leave a greater one; under the policy
/// to minimise, it is the other way round.
pub proof fn lemma_pick_extremises_entropy(
    policy: EntropyPolicy,
    usage: UsageCounts,
    dom: Domain,
    o: int,
    k: int,
)
    requires
        favoured(policy, usage, dom, o),
        0 <= k < 4,
        dom.has(k),
    ensures
        match policy {
            EntropyPolicy::Maximise => {
                &&& concentration(one_more(tally(usage), o)) <= concentration(
                    one_more(tally(usage), k),
                )
                &&& k < o ==> concentration(one_more(tally(usage), o)) < concentration(
                    one_more(tally(usage), k),
                )
            },
            EntropyPolicy::Minimise => {
                &&& concentration(one_more(tally(usage), o)) >= concentration(
                    one_more(tally(usage), k),
                )
                &&& k < o ==> concentration(one_more(tally(usage), o)) > concentration(
                    one_more(tally(usage), k),
                )
            },
        },
{
    let t = tally(usage);
    assert(t[o] == usage.of(o));
    assert(t[k] == usage.of(k));
    match policy {
        EntropyPolicy::Maximise => {
            lemma_fewer_uses_more_entropy(t, o, k);
        },
        EntropyPolicy::Minimise => {
            lemma_fewer_uses_more_entropy(t, k, o);
        },
    }
}

} // verus!
