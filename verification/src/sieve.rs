//! The segmented sieve a worker runs over its assigned range, with the
//! number-theoretic facts that tie its marking discipline to primality.
use vstd::prelude::*;
use vstd::arithmetic::div_mod::lemma_fundamental_div_mod;
use vstd::arithmetic::div_mod::lemma_mod_multiples_basic;
use vstd::arithmetic::div_mod::lemma_mod_self_0;
use crate::is_prime;

verus! {

/// Divisor lists the sieve accepts: every entry at least 2, in
/// non-decreasing order.
pub open spec fn divisors_wf(divs: Seq<u32>) -> bool {
    &&& forall|i: int| 0 <= i < divs.len() ==> #[trigger] divs[i] >= 2
    &&& forall|i: int, j: int|
        0 <= i <= j < divs.len() ==> #[trigger] divs[i] <= #[trigger] divs[j]
}

/// `p` eliminates `x` from a segment: `p` divides `x` and `x` is at least
/// `p * p` (smaller multiples of `p` are left to smaller divisors, and `p`
/// itself stays).
pub open spec fn eliminates(p: int, x: int) -> bool {
    p * p <= x && x % p == 0
}

/// Some listed divisor eliminates `x`.
pub open spec fn has_divisor_in(divs: Seq<u32>, x: int) -> bool {
    exists|j: int| 0 <= j < divs.len() && #[trigger] eliminates(divs[j] as int, x)
}

/// Every prime whose square is at most `hi` appears among the divisors:
/// what a caller must supply for the sieve's survivors to be exactly the
/// primes of the segment.
pub open spec fn divisors_complete(divs: Seq<u32>, hi: int) -> bool {
    forall|q: u32|
        is_prime(q as int) && (q as int) * (q as int) <= hi ==> #[trigger] divs.contains(q)
}

/// Divisibility carries over a middle term: a divisor of a divisor of `c`
/// divides `c`.
proof fn lemma_divides_trans(a: int, b: int, c: int)
    requires
        1 <= a,
        1 <= b,
        b % a == 0,
        0 <= c,
        c % b == 0,
    ensures
        c % a == 0,
{
    let k = c / b;
    let m = b / a;
    lemma_fundamental_div_mod(c, b);
    lemma_fundamental_div_mod(b, a);
    assert(c == (m * k) * a) by (nonlinear_arith)
        requires
            c == b * k + 0,
            b == a * m + 0,
    ;
    lemma_mod_multiples_basic(m * k, a);
}

/// Every integer of at least 2 has a prime divisor no larger than itself.
proof fn lemma_exists_prime_divisor(n: int)
    requires
        n >= 2,
    ensures
        exists|p: int| is_prime(p) && 2 <= p <= n && #[trigger] (n % p) == 0,
    decreases n,
{
    if is_prime(n) {
        lemma_mod_self_0(n);
        assert(is_prime(n) && 2 <= n <= n && n % n == 0);
    } else {
        let d = choose|d: int| 2 <= d < n && #[trigger] (n % d) == 0;
        lemma_exists_prime_divisor(d);
        let p = choose|p: int| is_prime(p) && 2 <= p <= d && #[trigger] (d % p) == 0;
        lemma_divides_trans(p, d, n);
        assert(is_prime(p) && 2 <= p <= n && n % p == 0);
    }
}

/// A composite number has a prime divisor whose square does not exceed it.
proof fn lemma_composite_has_small_prime_factor(n: int)
    requires
        n >= 2,
        !is_prime(n),
    ensures
        exists|p: int| is_prime(p) && p * p <= n && #[trigger] (n % p) == 0,
{
    let d = choose|d: int| 2 <= d < n && #[trigger] (n % d) == 0;
    let e = n / d;
    lemma_fundamental_div_mod(n, d);
    assert(e >= 2) by (nonlinear_arith)
        requires
            n == d * e + 0,
            2 <= d < n,
    ;
    let m = if d <= e {
        d
    } else {
        e
    };
    assert(m * m <= n) by (nonlinear_arith)
        requires
            n == d * e + 0,
            2 <= d,
            2 <= e,
            m == if d <= e { d } else { e },
    ;
    if d <= e {
        assert(n % m == 0);
    } else {
        assert(n == e * d) by (nonlinear_arith)
            requires
                n == d * e + 0,
        ;
        lemma_mod_multiples_basic(d, e);
        assert(n % m == 0);
    }
    lemma_exists_prime_divisor(m);
    let p = choose|p: int| is_prime(p) && 2 <= p <= m && #[trigger] (m % p) == 0;
    lemma_divides_trans(p, m, n);
    assert(p * p <= m * m) by (nonlinear_arith)
        requires
            2 <= p <= m,
    ;
    assert(is_prime(p) && p * p <= n && n % p == 0);
}

/// Over a complete, well-formed divisor list, surviving the sieve is the
/// same as being prime, for any value of at least 2 within the bound.
pub proof fn lemma_survivor_iff_prime(divs: Seq<u32>, hi: int, x: int)
    requires
        divisors_wf(divs),
        divisors_complete(divs, hi),
        2 <= x <= hi,
        x <= u32::MAX,
    ensures
        !has_divisor_in(divs, x) <==> is_prime(x),
{
    if is_prime(x) {
        if has_divisor_in(divs, x) {
            let j = choose|j: int| 0 <= j < divs.len() && #[trigger] eliminates(divs[j] as int, x);
            let p = divs[j] as int;
            assert(p >= 2);
            assert(p < x) by (nonlinear_arith)
                requires
                    p >= 2,
                    p * p <= x,
            ;
            assert(x % p != 0);
            assert(false);
        }
    } else {
        lemma_composite_has_small_prime_factor(x);
        let p = choose|p: int| is_prime(p) && p * p <= x && #[trigger] (x % p) == 0;
        assert(p <= x) by (nonlinear_arith)
            requires
                2 <= p,
                p * p <= x,
        ;
        let q: u32 = p as u32;
        assert(is_prime(q as int) && (q as int) * (q as int) <= hi);
        assert(divs.contains(q));
        let j = choose|j: int| 0 <= j < divs.len() && divs[j] == q;
        assert(eliminates(divs[j] as int, x));
        assert(has_divisor_in(divs, x));
    }
}

/// Primes in `[start, end]`, both bounds inclusive, found by marking within
/// the segment every multiple of a listed divisor that the divisor
/// eliminates.
///
/// The survivors are characterized exactly: a value stays if and only if no
/// listed divisor eliminates it. When the caller supplies every prime up to
/// the square root of `end` — as the master's divisor handout does — and the
/// segment starts at 2 or later, the survivors are exactly the primes of the
/// segment, in ascending order, each once. An inverted range yields an empty
/// result.
#[verifier::loop_isolation(false)]
pub fn sieve_segment(start: u32, end: u32, primes: Vec<u32>) -> (res: Vec<u32>)
    requires
        start <= end ==> divisors_wf(primes@),
        start <= end ==> (end as int) - (start as int) < usize::MAX,
    ensures
        forall|i: int, j: int| 0 <= i < j < res@.len() ==> res@[i] < res@[j],
        forall|x: u32|
            res@.contains(x) <==> (start <= x <= end && !has_divisor_in(primes@, x as int)),
        start > end ==> res@.len() == 0,
        (start >= 2 && divisors_complete(primes@, end as int)) ==> forall|x: u32|
            res@.contains(x) <==> (start <= x <= end && is_prime(x as int)),
{
    if end < start {
        let res: Vec<u32> = Vec::new();
        assert(forall|x: u32| !res@.contains(x));
        return res;
    }
    let size: usize = (end - start) as usize + 1;
    let mut flags: Vec<bool> = Vec::new();
    let mut k: usize = 0;
    while k < size
        invariant
            k <= size,
            flags@.len() == k,
            forall|i: int| 0 <= i < k ==> flags@[i],
        decreases size - k,
    {
        flags.push(true);
        k = k + 1;
    }

    let mut di: usize = 0;
    let mut stopped = false;
    while di < primes.len() && !stopped
        invariant
            di <= primes@.len(),
            flags@.len() == size,
            !stopped ==> forall|i: int|
                0 <= i < size ==> (flags@[i] == !exists|j: int|
                    0 <= j < di && #[trigger] eliminates(primes@[j] as int, start + i)),
            stopped ==> forall|i: int|
                0 <= i < size ==> (flags@[i] == !has_divisor_in(primes@, start + i)),
        decreases primes@.len() - di + (if stopped { 0int } else { 1 }),
    {
        let p = primes[di];
        let p64 = p as u64;
        proof {
            assert((p64 as int) * (p64 as int) <= (u32::MAX as int) * (u32::MAX as int)) by (
            nonlinear_arith)
                requires
                    0 <= p64 <= u32::MAX,
            ;
        }
        if p64 * p64 > end as u64 {
            proof {
                assert forall|i: int| 0 <= i < size implies (flags@[i]
                    == !has_divisor_in(primes@, start + i)) by {
                    let x = start + i;
                    assert forall|j: int|
                        0 <= j < primes@.len() implies !eliminates(primes@[j] as int, x) || j
                        < di by {
                        if di <= j < primes@.len() {
                            assert(primes@[di as int] <= primes@[j]);
                            assert((primes@[j] as int) * (primes@[j] as int) > end) by (
                            nonlinear_arith)
                                requires
                                    (p64 as int) * (p64 as int) > end,
                                    primes@[j] >= p64,
                            ;
                        }
                    }
                }
            }
            stopped = true;
            continue;
        }
        // first multiple of p within the segment that p eliminates
        let rem: u64 = start as u64 % p64;
        let rounded: u64 = if rem == 0 {
            start as u64
        } else {
            start as u64 + (p64 - rem)
        };
        proof {
            lemma_fundamental_div_mod(start as int, p64 as int);
            if rem != 0 {
                assert(rounded == p64 * ((start as u64 / p64) as int) + p64);
                lemma_mod_multiples_basic((start as u64 / p64) as int + 1, p64 as int);
                assert(p64 * ((start as u64 / p64) as int) + p64 == (((start as u64 / p64) as int)
                    + 1) * (p64 as int)) by (nonlinear_arith);
            } else {
                lemma_mod_multiples_basic((start as u64 / p64) as int, p64 as int);
                assert(p64 * ((start as u64 / p64) as int) == (((start as u64 / p64) as int)) * (
                p64 as int)) by (nonlinear_arith);
            }
        }
        assert(rounded % p64 == 0);
        assert(start <= rounded < start + p64);
        // p itself never collides with this first multiple: p * p exceeds p
        // for every divisor of at least 2
        let mut mul: u64 = if p64 * p64 > rounded {
            p64 * p64
        } else {
            rounded
        };
        proof {
            lemma_mod_multiples_basic(p64 as int, p64 as int);
        }
        assert(mul % p64 == 0 && mul >= rounded && mul >= p64 * p64);
        // every value the current divisor eliminates in the segment is a
        // multiple of p no smaller than mul
        proof {
            assert forall|x: int|
                start <= x <= end && eliminates(p as int, x) implies x >= mul && x % (p64 as int)
                == 0 by {
                assert(x % (p as int) == 0);
                if x < rounded {
                    // two distinct multiples of p cannot sit within p of each other
                    lemma_fundamental_div_mod(x, p as int);
                    lemma_fundamental_div_mod(rounded as int, p as int);
                    let qx = x / (p as int);
                    let qr = (rounded as int) / (p as int);
                    assert(false) by (nonlinear_arith)
                        requires
                            x == (p as int) * qx,
                            rounded == (p as int) * qr,
                            x < rounded,
                            rounded - x <= rounded - start,
                            rounded < start + p64,
                            start <= x,
                            p64 == p,
                            p >= 2,
                    ;
                }
            }
        }
        let ghost first_mul = mul;
        while mul <= end as u64
            invariant
                flags@.len() == size,
                p64 == p,
                p >= 2,
                mul % p64 == 0,
                first_mul <= mul,
                mul >= p64 * p64,
                mul >= rounded,
                rounded >= start,
                forall|x: int|
                    start <= x <= end && #[trigger] eliminates(p as int, x) ==> x >= first_mul && x
                        % (p64 as int) == 0,
                forall|i: int|
                    0 <= i < size ==> (flags@[i] == !((exists|j: int|
                        0 <= j < di && #[trigger] eliminates(primes@[j] as int, start + i)) || (
                    eliminates(p as int, start + i) && start + i < mul))),
            decreases end as int + p64 as int - mul as int,
        {
            let idx: usize = (mul - start as u64) as usize;
            assert(start + (idx as int) == mul);
            flags[idx] = false;
            proof {
                assert(eliminates(p as int, mul as int)) by {
                    assert((p as int) * (p as int) <= mul);
                    assert(mul as int % (p as int) == 0);
                };
                // the only multiple of p in [mul, mul + p) is mul itself
                assert forall|x: int|
                    start <= x <= end && eliminates(p as int, x) && x < mul + p64 implies x < mul
                        || x == mul by {
                    if mul <= x < mul + p64 {
                        lemma_fundamental_div_mod(x, p as int);
                        lemma_fundamental_div_mod(mul as int, p as int);
                        assert(x == mul) by (nonlinear_arith)
                            requires
                                x == (p as int) * (x / (p as int)),
                                mul == (p as int) * ((mul as int) / (p as int)),
                                mul <= x < mul + p64,
                                p64 == p,
                                p >= 2,
                        ;
                    }
                }
                // the next multiple is a multiple still
                lemma_fundamental_div_mod(mul as int, p64 as int);
                let q = mul as int / p64 as int;
                assert(mul + p64 == (q + 1) * (p64 as int)) by (nonlinear_arith)
                    requires
                        mul == (p64 as int) * q + 0,
                ;
                lemma_mod_multiples_basic(q + 1, p64 as int);
            }
            mul = mul + p64;
        }
        proof {
            assert forall|i: int|
                0 <= i < size implies (flags@[i] == !exists|j: int|
                0 <= j < di + 1 && #[trigger] eliminates(primes@[j] as int, start + i)) by {
                let x = start + i;
                assert(eliminates(p as int, x) && x < mul <==> eliminates(p as int, x));
                if exists|j: int| 0 <= j < di + 1 && #[trigger] eliminates(primes@[j] as int, x) {
                    let j = choose|j: int|
                        0 <= j < di + 1 && #[trigger] eliminates(primes@[j] as int, x);
                    if j == di {
                        assert(eliminates(p as int, x));
                    }
                }
            }
        }
        di = di + 1;
    }

    let mut res: Vec<u32> = Vec::new();
    let mut k: usize = 0;
    while k < size
        invariant
            k <= size,
            flags@.len() == size,
            forall|i: int| 0 <= i < size ==> (flags@[i] == !has_divisor_in(primes@, start + i)),
            forall|i: int, j: int| 0 <= i < j < res@.len() ==> res@[i] < res@[j],
            forall|t: int|
                0 <= t < res@.len() ==> start <= #[trigger] res@[t] && res@[t] < start + k
                    && !has_divisor_in(primes@, res@[t] as int),
            forall|x: u32|
                start <= x < start + k && !has_divisor_in(primes@, x as int) ==> res@.contains(x),
        decreases size - k,
    {
        if flags[k] {
            let v: u32 = start + k as u32;
            let ghost old_res = res@;
            res.push(v);
            proof {
                assert forall|x: u32|
                    start <= x < start + k + 1 && !has_divisor_in(primes@, x as int) implies res@
                    .contains(x) by {
                    if x == v {
                        assert(res@[res@.len() - 1] == x);
                    } else {
                        assert(old_res.contains(x));
                        let t = choose|t: int| 0 <= t < old_res.len() && old_res[t] == x;
                        assert(res@[t] == x);
                    }
                }
            }
        }
        k = k + 1;
    }
    proof {
        assert forall|x: u32|
            res@.contains(x) <==> (start <= x <= end && !has_divisor_in(primes@, x as int)) by {
            if res@.contains(x) {
                let t = choose|t: int| 0 <= t < res@.len() && res@[t] == x;
            }
        }
        if start >= 2 && divisors_complete(primes@, end as int) {
            assert forall|x: u32|
                res@.contains(x) <==> (start <= x <= end && is_prime(x as int)) by {
                if start <= x <= end {
                    lemma_survivor_iff_prime(primes@, end as int, x as int);
                }
            }
        }
    }
    res
}

} // verus!
