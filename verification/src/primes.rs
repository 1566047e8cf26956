//! Primality testing by trial division, and enumeration of the primes in an
//! inclusive bound range.

use vstd::prelude::*;
use vstd::arithmetic::div_mod::lemma_fundamental_div_mod;
use vstd::arithmetic::div_mod::lemma_mod_multiples_basic;

verus! {

/// A number is prime when it is at least 2 and no smaller number above 1
/// divides it.
pub open spec fn is_prime_spec(n: nat) -> bool {
    n >= 2 && forall|d: nat| 2 <= d < n ==> #[trigger] (n % d) != 0
}

/// A multiple of an even number is even.
proof fn lemma_even_divisor_even_multiple(n: nat, d: nat)
    requires
        d % 2 == 0,
        d > 0,
        n % d == 0,
    ensures
        n % 2 == 0,
{
    lemma_fundamental_div_mod(n as int, d as int);
    lemma_fundamental_div_mod(d as int, 2);
    let q = n as int / d as int;
    let h = d as int / 2;
    assert(n as int == 2 * (h * q)) by (nonlinear_arith)
        requires
            n as int == d as int * q,
            d as int == 2 * h,
    ;
    lemma_mod_multiples_basic(h * q, 2);
}

/// A composite number has a divisor no larger than its square root.
proof fn lemma_composite_has_small_divisor(n: nat, d: nat)
    requires
        2 <= d < n,
        n % d == 0,
    ensures
        exists|e: nat| 2 <= e && e * e <= n && #[trigger] (n % e) == 0,
{
    lemma_fundamental_div_mod(n as int, d as int);
    let q = (n / d) as nat;
    assert(n == d * q);
    assert(q >= 2) by (nonlinear_arith)
        requires
            n == d * q,
            2 <= d < n,
    ;
    if d * d <= n {
        assert(2 <= d && d * d <= n && n % d == 0);
    } else {
        assert(q * q <= n) by (nonlinear_arith)
            requires
                n == d * q,
                d * d > n,
                d >= 2,
                q >= 2,
        ;
        lemma_mod_multiples_basic(d as int, q as int);
        assert((d as int * q as int) % (q as int) == 0);
        assert(n % q == 0);
        assert(2 <= q && q * q <= n && n % q == 0);
    }
}

/// Returns whether `n` is prime, by trial division over the odd candidates up
/// to the square root of `n`.
pub fn is_prime(n: u32) -> (r: bool)
    ensures
        r == is_prime_spec(n as nat),
{
    if n < 2 {
        return false;
    }
    if n == 2 {
        return true;
    }
    if n % 2 == 0 {
        assert(!is_prime_spec(n as nat)) by {
            assert((n as nat) % 2 == 0 && 2 <= 2 < n as nat);
        }
        return false;
    }
    let mut i: u32 = 3;
    loop
        invariant
            3 <= i <= n,
            i % 2 == 1,
            n % 2 == 1,
            n >= 3,
            forall|d: nat| 2 <= d < i ==> #[trigger] ((n as nat) % d) != 0,
        ensures
            i as int * i as int > n as int,
            forall|d: nat| 2 <= d < i ==> #[trigger] ((n as nat) % d) != 0,
        decreases n as int - i as int,
    {
        proof {
            assert((i as u64) as int * (i as u64) as int <= 0xFFFF_FFFFu64 as int
                * 0xFFFF_FFFFu64 as int) by (nonlinear_arith)
                requires
                    (i as u64) <= 0xFFFF_FFFFu64,
            ;
        }
        let sq: u64 = (i as u64) * (i as u64);
        if sq > n as u64 {
            break;
        }
        if n % i == 0 {
            assert(!is_prime_spec(n as nat)) by {
                assert((n as nat) % (i as nat) == 0 && 2 <= (i as nat) && (i as nat) < (
                n as nat)) by {
                    assert((i as nat) < (n as nat)) by (nonlinear_arith)
                        requires
                            i as int * i as int <= n as int,
                            i >= 3,
                    ;
                }
            }
            return false;
        }
        proof {
            assert(i as int + 2 <= n as int) by (nonlinear_arith)
                requires
                    i as int * i as int <= n as int,
                    i >= 3,
            ;
            assert((n as nat) % ((i + 1) as nat) != 0) by {
                if (n as nat) % ((i + 1) as nat) == 0 {
                    lemma_even_divisor_even_multiple(n as nat, (i + 1) as nat);
                }
            }
        }
        i = i + 2;
    }
    proof {
        assert(is_prime_spec(n as nat)) by {
            assert forall|d: nat| 2 <= d < n as nat implies #[trigger] ((n as nat) % d) != 0 by {
                if (n as nat) % d != 0 {
                } else if d < i as nat {
                } else {
                    lemma_composite_has_small_divisor(n as nat, d);
                    let e = choose|e: nat| 2 <= e && e * e <= n as nat && #[trigger] ((n as nat)
                        % e) == 0;
                    assert(e < i as nat) by (nonlinear_arith)
                        requires
                            e * e <= n as nat,
                            (i as nat) * (i as nat) > n as nat,
                    ;
                }
            }
        }
    }
    true
}

/// The primes in the inclusive range `[start, end]`, in ascending order; empty
/// when `start > end`.
pub open spec fn primes_in_range_spec(start: int, end: int) -> Seq<u32>
    decreases end - start + 1,
{
    if start > end {
        Seq::empty()
    } else {
        primes_in_range_spec(start, end - 1) + if is_prime_spec(end as nat) {
            seq![end as u32]
        } else {
            Seq::empty()
        }
    }
}

/// The prime sequence holds exactly the primes of the bound range: a value
/// occurs in it if and only if it lies in `[start, end]` and is prime.
pub proof fn lemma_primes_in_range_members(start: int, end: int)
    requires
        0 <= start,
        end <= u32::MAX,
    ensures
        forall|p: u32| #[trigger] primes_in_range_spec(start, end).contains(p) <==> (start
            <= p as int <= end && is_prime_spec(p as nat)),
    decreases end - start + 1,
{
    if start > end {
        assert forall|p: u32| !(#[trigger] primes_in_range_spec(start, end).contains(p)) by {
            assert(primes_in_range_spec(start, end).len() == 0);
        }
    } else {
        lemma_primes_in_range_members(start, end - 1);
        let prev = primes_in_range_spec(start, end - 1);
        let whole = primes_in_range_spec(start, end);
        assert forall|p: u32| #[trigger] whole.contains(p) <==> (start <= p as int <= end
            && is_prime_spec(p as nat)) by {
            if whole.contains(p) {
                let i = choose|i: int| 0 <= i < whole.len() && whole[i] == p;
                if i < prev.len() {
                    assert(prev[i] == p);
                    assert(prev.contains(p));
                } else {
                    assert(is_prime_spec(end as nat));
                    assert(p == end as u32);
                }
            }
            if start <= p as int <= end && is_prime_spec(p as nat) {
                if p as int <= end - 1 {
                    assert(prev.contains(p));
                    let i = choose|i: int| 0 <= i < prev.len() && prev[i] == p;
                    assert(whole[i] == p);
                } else {
                    assert(p as int == end);
                    assert(whole[prev.len() as int] == end as u32);
                }
                assert(whole.contains(p));
            }
        }
    }
}

/// The prime sequence is strictly increasing: no duplicates, ascending order.
pub proof fn lemma_primes_in_range_sorted(start: int, end: int)
    requires
        0 <= start,
        end <= u32::MAX,
    ensures
        forall|i: int, j: int| 0 <= i < j < primes_in_range_spec(start, end).len()
            ==> #[trigger] primes_in_range_spec(start, end)[i]
            < #[trigger] primes_in_range_spec(start, end)[j],
        forall|i: int| 0 <= i < primes_in_range_spec(start, end).len() ==> start
            <= #[trigger] primes_in_range_spec(start, end)[i] as int <= end,
    decreases end - start + 1,
{
    if start > end {
    } else {
        lemma_primes_in_range_sorted(start, end - 1);
        let prev = primes_in_range_spec(start, end - 1);
        let whole = primes_in_range_spec(start, end);
        assert forall|i: int, j: int| 0 <= i < j < whole.len() implies #[trigger] whole[i]
            < #[trigger] whole[j] by {
            if j < prev.len() {
                assert(whole[i] == prev[i] && whole[j] == prev[j]);
            } else {
                assert(whole[i] == prev[i]);
                assert(prev[i] as int <= end - 1);
                assert(whole[j] == end as u32);
            }
        }
    }
}

/// Scans `[start, end]` in ascending order and returns every prime found, in
/// the order encountered. A reversed range (`start > end`) yields the empty
/// sequence.
pub fn primes_in_range(start: u32, end: u32) -> (r: Vec<u32>)
    ensures
        r@ == primes_in_range_spec(start as int, end as int),
{
    let mut out: Vec<u32> = Vec::new();
    if start > end {
        return out;
    }
    let mut k: u32 = start;
    loop
        invariant_except_break
            start <= k <= end,
            out@ == primes_in_range_spec(start as int, k as int - 1),
        ensures
            out@ == primes_in_range_spec(start as int, end as int),
        decreases end as int - k as int,
    {
        if is_prime(k) {
            out.push(k);
        }
        proof {
            assert(out@ == primes_in_range_spec(start as int, k as int)) by {
                assert(k as int == (k as int - 1) + 1);
                if is_prime_spec(k as nat) {
                    assert(out@ =~= primes_in_range_spec(start as int, k as int - 1) + seq![k]);
                } else {
                    assert(out@ =~= primes_in_range_spec(start as int, k as int - 1)
                        + Seq::<u32>::empty());
                }
            }
        }
        if k == end {
            break;
        }
        k = k + 1;
    }
    out
}

} // verus!
