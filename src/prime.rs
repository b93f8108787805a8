use vstd::prelude::*;

verus! {

/// The number of divisors of `x` among `1..=n`.
pub open spec fn divisors_upto(x: nat, n: nat) -> nat
    decreases n,
{
    if n == 0 {
        0
    } else {
        divisors_upto(x, (n - 1) as nat) + if x % n == 0 { 1nat } else { 0nat }
    }
}

/// `x` has exactly two divisors: 1 and itself.
pub open spec fn prime_spec(x: nat) -> bool {
    x >= 2 && forall|d: nat| 2 <= d < x ==> #[trigger] (x % d) != 0
}

proof fn lemma_divisors(x: nat, n: nat)
    requires
        1 <= n < x,
    ensures
        divisors_upto(x, n) >= 1,
        divisors_upto(x, n) == 1 <==> forall|d: nat| 2 <= d <= n ==> #[trigger] (x % d) != 0,
    decreases n,
{
    if n == 1 {
        assert(x % 1 == 0);
        assert(divisors_upto(x, 0) == 0);
    } else {
        lemma_divisors(x, (n - 1) as nat);
        if forall|d: nat| 2 <= d <= n ==> #[trigger] (x % d) != 0 {
            assert forall|d: nat| 2 <= d <= (n - 1) as nat implies #[trigger] (x % d) != 0 by {}
            assert(x % n != 0);
        }
        if divisors_upto(x, n) == 1 {
            assert forall|d: nat| 2 <= d <= n implies #[trigger] (x % d) != 0 by {
                if d < n {
                    assert(2 <= d <= n - 1);
                }
            }
        }
    }
}

/// Whether `x` is prime, found by counting its divisors.
pub fn is_prime(x: u64) -> (r: bool)
    ensures
        r == prime_spec(x as nat),
{
    if x < 2 {
        return false;
    }
    let mut cnt: u64 = 0;
    let mut i: u64 = 1;
    while i < x
        invariant
            2 <= x,
            1 <= i <= x,
            cnt == divisors_upto(x as nat, (i - 1) as nat),
            cnt < i,
        decreases x - i,
    {
        if x % i == 0 {
            cnt = cnt + 1;
        }
        i = i + 1;
    }
    proof {
        lemma_divisors(x as nat, (x - 1) as nat);
        assert(divisors_upto(x as nat, x as nat) == divisors_upto(x as nat, (x - 1) as nat) + 1);
        if prime_spec(x as nat) {
            assert forall|d: nat| 2 <= d <= (x - 1) as nat implies #[trigger] ((x as nat) % d) != 0 by {}
        } else {
            let d = choose|d: nat| 2 <= d < x && #[trigger] ((x as nat) % d) == 0;
            assert(2 <= d <= (x - 1) as nat);
        }
    }
    cnt + 1 == 2
}

} // verus!
