//! Greatest common divisor of positive integers.

use vstd::prelude::*;

verus! {

/// `d` divides `n`.
pub open spec fn divides(d: nat, n: nat) -> bool {
    d != 0 && n % d == 0
}

/// `d` divides both `n` and `m`.
pub open spec fn common_divisor(d: nat, n: nat, m: nat) -> bool {
    divides(d, n) && divides(d, m)
}

/// `g` is the greatest common divisor of `n` and `m`: it divides both, and
/// every common divisor divides it.
pub open spec fn is_gcd(g: nat, n: nat, m: nat) -> bool {
    &&& common_divisor(g, n, m)
    &&& forall|d: nat| #[trigger] common_divisor(d, n, m) ==> divides(d, g)
}

/// None of the numbers is zero.
pub open spec fn all_positive(numbers: Seq<u64>) -> bool {
    forall|i: int| 0 <= i < numbers.len() ==> #[trigger] numbers[i] != 0
}

/// `d` divides every one of `numbers`.
pub open spec fn divides_all(d: nat, numbers: Seq<u64>) -> bool {
    forall|i: int| 0 <= i < numbers.len() ==> divides(d, #[trigger] numbers[i] as nat)
}

/// `g` is the greatest common divisor of `numbers`: it divides each of them,
/// and every number that divides each of them divides it.
pub open spec fn is_gcd_of_all(g: nat, numbers: Seq<u64>) -> bool {
    &&& divides_all(g, numbers)
    &&& forall|d: nat| #[trigger] divides_all(d, numbers) ==> divides(d, g)
}

/// Every multiple of a positive `d` is divisible by `d`.
proof fn lemma_multiple_divides(d: nat, k: int)
    requires
        d != 0,
        k >= 0,
    ensures
        divides(d, (d * k) as nat),
{
    vstd::arithmetic::div_mod::lemma_mod_multiples_basic(k, d as int);
    assert(d * k == k * d) by (nonlinear_arith);
    assert(d * k >= 0) by (nonlinear_arith)
        requires
            d >= 0,
            k >= 0,
    ;
}

/// A number that `d` divides is `d` times its quotient by `d`.
proof fn lemma_divides_quotient(d: nat, n: nat)
    requires
        divides(d, n),
    ensures
        n == d * (n / d),
{
    vstd::arithmetic::div_mod::lemma_fundamental_div_mod(n as int, d as int);
}

/// The common divisors of `n` and `m` are those of `n` and `m % n`.
proof fn lemma_common_divisor_step(d: nat, n: nat, m: nat)
    requires
        n != 0,
    ensures
        common_divisor(d, n, m) == common_divisor(d, n, m % n),
{
    if divides(d, n) {
        let q: int = (m / n) as int;
        let r: int = (m % n) as int;
        let k: int = (n / d) as int;
        let kq: int = k * q;
        assert(m == n * q + r) by {
            vstd::arithmetic::div_mod::lemma_fundamental_div_mod(m as int, n as int);
        }
        lemma_divides_quotient(d, n);
        assert(n * q == d * kq) by (nonlinear_arith)
            requires
                n == d * k,
                kq == k * q,
        ;
        assert(kq >= 0) by (nonlinear_arith)
            requires
                kq == k * q,
                k >= 0,
                q >= 0,
        ;
        if divides(d, (m % n) as nat) {
            let j: int = (r / (d as int)) as int;
            lemma_divides_quotient(d, (m % n) as nat);
            assert(m == d * (kq + j)) by (nonlinear_arith)
                requires
                    m == n * q + r,
                    n * q == d * kq,
                    r == d * j,
            ;
            lemma_multiple_divides(d, kq + j);
        }
        if divides(d, m) {
            let j: int = (m / d) as int;
            lemma_divides_quotient(d, m);
            assert(r == d * (j - kq)) by (nonlinear_arith)
                requires
                    m == n * q + r,
                    n * q == d * kq,
                    m == d * j,
            ;
            assert(j - kq >= 0) by (nonlinear_arith)
                requires
                    r == d * (j - kq),
                    d > 0,
                    r >= 0,
            ;
            lemma_multiple_divides(d, j - kq);
        }
    }
}

/// Euclid's algorithm.
pub fn gcd(n: u64, m: u64) -> (g: u64)
    requires
        n != 0,
        m != 0,
    ensures
        is_gcd(g as nat, n as nat, m as nat),
{
    let mut a: u64 = n;
    let mut b: u64 = m;
    while b != 0
        invariant
            a != 0,
            forall|d: nat| #[trigger]
                common_divisor(d, n as nat, m as nat) == common_divisor(d, a as nat, b as nat),
        decreases b,
    {
        if b < a {
            let t: u64 = b;
            b = a;
            a = t;
        }
        proof {
            assert forall|d: nat| #[trigger]
                common_divisor(d, n as nat, m as nat) == common_divisor(
                    d,
                    a as nat,
                    (b % a) as nat,
                ) by {
                lemma_common_divisor_step(d, a as nat, b as nat);
            }
        }
        b = b % a;
    }
    proof {
        assert(common_divisor(a as nat, a as nat, 0)) by {
            vstd::arithmetic::div_mod::lemma_mod_self_0(a as int);
        }
        assert(common_divisor(a as nat, n as nat, m as nat));
    }
    a
}

/// A divisor of a divisor of `n` divides `n`.
proof fn lemma_divides_transitive(d: nat, g: nat, n: nat)
    requires
        divides(d, g),
        divides(g, n),
    ensures
        divides(d, n),
{
    lemma_divides_quotient(d, g);
    lemma_divides_quotient(g, n);
    let a: int = (g / d) as int;
    let b: int = (n / g) as int;
    assert(n == d * (a * b)) by (nonlinear_arith)
        requires
            g == d * a,
            n == g * b,
    ;
    assert(a * b >= 0) by (nonlinear_arith)
        requires
            a >= 0,
            b >= 0,
    ;
    lemma_multiple_divides(d, a * b);
}

/// Taking one more number into a greatest common divisor: the greatest
/// common divisor of the numbers so far and the next number is that of all
/// of them.
proof fn lemma_gcd_with_next(g: nat, so_far: nat, numbers: Seq<u64>, count: int)
    requires
        0 < count < numbers.len(),
        is_gcd_of_all(so_far, numbers.take(count)),
        is_gcd(g, so_far, numbers[count] as nat),
    ensures
        is_gcd_of_all(g, numbers.take(count + 1)),
{
    let before = numbers.take(count);
    let with_next = numbers.take(count + 1);
    assert forall|i: int| 0 <= i < with_next.len() implies divides(
        g,
        #[trigger] with_next[i] as nat,
    ) by {
        if i < count {
            assert(divides(so_far, before[i] as nat));
            lemma_divides_transitive(g, so_far, with_next[i] as nat);
        }
    }
    assert forall|d: nat| #[trigger] divides_all(d, with_next) implies divides(d, g) by {
        assert forall|i: int| 0 <= i < before.len() implies divides(d, #[trigger] before[i] as nat) by {
            assert(divides(d, with_next[i] as nat));
        }
        assert(divides_all(d, before));
        assert(divides(d, with_next[count] as nat));
        assert(common_divisor(d, so_far, numbers[count] as nat));
    }
}

/// Greatest common divisor of all the numbers, taken in one after another.
/// A single number is its own, whatever it is.
pub fn gcd_of_all(numbers: &[u64]) -> (g: u64)
    requires
        numbers@.len() >= 1,
        numbers@.len() >= 2 ==> all_positive(numbers@),
    ensures
        numbers@.len() == 1 ==> g == numbers@[0],
        all_positive(numbers@) ==> is_gcd_of_all(g as nat, numbers@),
{
    let mut d: u64 = numbers[0];
    proof {
        if d != 0 {
            assert(divides(d as nat, d as nat)) by {
                vstd::arithmetic::div_mod::lemma_mod_self_0(d as int);
            }
            assert forall|e: nat| #[trigger] divides_all(e, numbers@.take(1)) implies divides(
                e,
                d as nat,
            ) by {
                assert(divides(e, numbers@.take(1)[0] as nat));
            }
        }
    }
    let mut i: usize = 1;
    while i < numbers.len()
        invariant
            1 <= i <= numbers@.len(),
            numbers@.len() >= 2 ==> all_positive(numbers@),
            i == 1 ==> d == numbers@[0],
            all_positive(numbers@) ==> d != 0 && is_gcd_of_all(d as nat, numbers@.take(i as int)),
        decreases numbers@.len() - i,
    {
        let next: u64 = gcd(d, numbers[i]);
        proof {
            lemma_gcd_with_next(next as nat, d as nat, numbers@, i as int);
        }
        d = next;
        i += 1;
    }
    proof {
        assert(numbers@.take(numbers@.len() as int) =~= numbers@);
    }
    d
}

} // verus!
