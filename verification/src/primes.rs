use vstd::prelude::*;
use vstd::arithmetic::div_mod::{lemma_fundamental_div_mod, lemma_mod_multiples_basic};

verus! {

/// `m` has a divisor other than 1 and itself.
pub open spec fn composite(m: int) -> bool {
    exists|d: int| 2 <= d < m && #[trigger] (m % d) == 0
}

/// `m` is a prime number.
pub open spec fn is_prime(m: int) -> bool {
    m >= 2 && !composite(m)
}

/// `p` is the least prime that is not below `from`.
pub open spec fn is_next_prime(p: int, from: int) -> bool {
    &&& is_prime(p)
    &&& from <= p
    &&& forall|q: int| from <= q < p ==> !#[trigger] is_prime(q)
}

/// A number divides each of its multiples.
pub proof fn lemma_multiple(d: int, k: int)
    requires
        d > 0,
    ensures
        (d * k) % d == 0,
{
    lemma_mod_multiples_basic(k, d);
    assert(d * k == k * d) by (nonlinear_arith);
}

/// A number is the product of a divisor and the quotient by it.
pub proof fn lemma_quotient(m: int, d: int)
    requires
        d > 0,
        m >= 0,
        m % d == 0,
    ensures
        m == d * (m / d),
        0 <= m / d <= m,
{
    lemma_fundamental_div_mod(m, d);
    assert(0 <= m / d <= m) by (nonlinear_arith)
        requires
            m == d * (m / d),
            d > 0,
            m >= 0,
    ;
}

/// A number with a proper divisor has one whose square does not exceed it.
pub proof fn lemma_small_divisor(m: int, d: int) -> (e: int)
    requires
        2 <= d < m,
        m % d == 0,
    ensures
        2 <= e < m,
        m % e == 0,
        e * e <= m,
{
    let q = m / d;
    lemma_quotient(m, d);
    assert(2 <= q < m) by (nonlinear_arith)
        requires
            m == d * q,
            2 <= d < m,
            q >= 0,
    ;
    lemma_multiple(q, d);
    assert(q * d == d * q) by (nonlinear_arith);
    if d <= q {
        assert(d * d <= d * q) by (nonlinear_arith)
            requires
                d <= q,
                d >= 0,
        ;
        d
    } else {
        assert(q * q <= d * q) by (nonlinear_arith)
            requires
                q <= d,
                q >= 0,
        ;
        q
    }
}

/// Marks the composite numbers up to `limit`: the flag at position `m` is
/// set exactly when `m` is composite, for every `m` from 2 to `limit`.
pub fn sieve(limit: usize) -> (is_composite: Vec<bool>)
    requires
        limit < usize::MAX,
    ensures
        is_composite@.len() == limit + 1,
        forall|m: int| 2 <= m <= limit ==> #[trigger] is_composite@[m] == composite(m),
{
    let mut is_composite: Vec<bool> = Vec::new();
    let mut m: usize = 0;
    while m <= limit
        invariant
            m <= limit + 1,
            limit < usize::MAX,
            is_composite@.len() == m,
            forall|k: int| 0 <= k < m ==> !#[trigger] is_composite@[k],
        decreases limit + 1 - m,
    {
        is_composite.push(false);
        m += 1;
    }
    let mut i: usize = 2;
    while i <= limit / i
        invariant
            2 <= i,
            i <= limit + 2,
            limit < usize::MAX,
            is_composite@.len() == limit + 1,
            forall|m: int| 0 <= m <= limit && #[trigger] is_composite@[m] ==> composite(m),
            forall|m: int, d: int|
                2 <= d < i && d < m <= limit && #[trigger] (m % d) == 0 ==> is_composite@[m],
        decreases limit + 2 - i,
    {
        proof {
            assert(i * i <= limit) by (nonlinear_arith)
                requires
                    i <= limit / i,
                    i >= 2,
            ;
            assert(i <= i * i) by (nonlinear_arith)
                requires
                    i >= 2,
            ;
        }
        if !is_composite[i] {
            let mut j: usize = i * i;
            let ghost mut k: int = i as int;
            let mut marking = true;
            while marking
                invariant
                    2 <= i <= limit,
                    limit < usize::MAX,
                    is_composite@.len() == limit + 1,
                    marking ==> j == i * k && j <= limit,
                    !marking ==> i * k > limit,
                    k >= i,
                    forall|m: int| 0 <= m <= limit && #[trigger] is_composite@[m] ==> composite(m),
                    forall|m: int, d: int|
                        2 <= d < i && d < m <= limit && #[trigger] (m % d) == 0
                            ==> is_composite@[m],
                    forall|c: int|
                        i <= c < k && i * c <= limit ==> is_composite@[#[trigger] (i * c)],
                decreases
                    limit - j + if marking {
                        1int
                    } else {
                        0int
                    },
            {
                let ghost before = is_composite@;
                is_composite.set(j, true);
                proof {
                    lemma_multiple(i as int, k);
                    assert(i < i * k) by (nonlinear_arith)
                        requires
                            k >= i,
                            i >= 2,
                    ;
                    assert(composite(j as int)) by {
                        assert((j as int) % (i as int) == 0);
                    }
                    assert forall|c: int| i <= c < k + 1 && i * c <= limit implies is_composite@[#[trigger] (
                    i * c)] by {
                        if c < k {
                            assert(before[i * c]);
                        }
                    }
                    assert(i * (k + 1) == i * k + i) by (nonlinear_arith);
                    k = k + 1;
                }
                if i > limit - j {
                    marking = false;
                } else {
                    j += i;
                }
            }
            proof {
                assert forall|m: int, d: int|
                    2 <= d < i + 1 && d < m <= limit && #[trigger] (m % d) == 0 implies is_composite@[m] by {
                    if d == i {
                        lemma_quotient(m, d);
                        let c = m / d;
                        if c < i {
                            assert(2 <= c) by (nonlinear_arith)
                                requires
                                    m == d * c,
                                    d < m,
                                    d >= 2,
                                    c >= 0,
                            ;
                            lemma_multiple(c, d);
                            assert(c * d == d * c) by (nonlinear_arith);
                            assert(c < m) by (nonlinear_arith)
                                requires
                                    m == d * c,
                                    d >= 2,
                                    c >= 2,
                            ;
                            assert(m % c == 0);
                        } else {
                            assert(c < k) by (nonlinear_arith)
                                requires
                                    m == i * c,
                                    m <= limit,
                                    i * k > limit,
                                    i >= 2,
                            ;
                            assert(is_composite@[i * c]);
                        }
                    }
                }
            }
        } else {
            proof {
                assert(composite(i as int));
                let d0 = choose|d0: int| 2 <= d0 < i && #[trigger] ((i as int) % d0) == 0;
                assert forall|m: int, d: int|
                    2 <= d < i + 1 && d < m <= limit && #[trigger] (m % d) == 0 implies is_composite@[m] by {
                    if d == i {
                        lemma_quotient(m, d);
                        lemma_quotient(i as int, d0);
                        let a = (i as int) / d0;
                        let c = m / d;
                        assert(m == d0 * (a * c)) by (nonlinear_arith)
                            requires
                                m == d * c,
                                d == d0 * a,
                        ;
                        lemma_multiple(d0, a * c);
                        assert(m % d0 == 0);
                    }
                }
            }
        }
        i += 1;
    }
    proof {
        assert forall|m: int| 2 <= m <= limit implies #[trigger] is_composite@[m] == composite(
            m,
        ) by {
            if composite(m) {
                let d = choose|d: int| 2 <= d < m && #[trigger] (m % d) == 0;
                let e = lemma_small_divisor(m, d);
                assert(e < i) by (nonlinear_arith)
                    requires
                        e * e <= m,
                        m <= limit,
                        i > limit / i,
                        e >= 2,
                        i >= 2,
                ;
                assert(m % e == 0);
            }
        }
    }
    is_composite
}

/// Decides by trial division whether `p` is prime.
pub fn is_prime_by_division(p: usize) -> (prime: bool)
    ensures
        prime == is_prime(p as int),
{
    if p < 2 {
        return false;
    }
    let mut d: usize = 2;
    while d <= p / d
        invariant
            2 <= d <= p,
            forall|e: int| 2 <= e < d ==> #[trigger] ((p as int) % e) != 0,
        decreases p - d,
    {
        if p % d == 0 {
            proof {
                assert(d < p) by (nonlinear_arith)
                    requires
                        d <= p / d,
                        d >= 2,
                        p >= 2,
                ;
                assert((p as int) % (d as int) == 0);
            }
            return false;
        }
        proof {
            assert(d < p) by (nonlinear_arith)
                requires
                    d <= p / d,
                    d >= 2,
                    p >= 2,
            ;
        }
        d += 1;
    }
    proof {
        if composite(p as int) {
            let c = choose|c: int| 2 <= c < p && #[trigger] ((p as int) % c) == 0;
            let e = lemma_small_divisor(p as int, c);
            assert(e < d) by (nonlinear_arith)
                requires
                    e * e <= p,
                    d > p / d,
                    d >= 2,
                    e >= 2,
            ;
            assert((p as int) % e == 0);
        }
    }
    true
}

} // verus!
