//! Integer series helpers: factorials and triangular sums.

use vstd::prelude::*;
use vstd::arithmetic::div_mod::{
    lemma_fundamental_div_mod, lemma_fundamental_div_mod_converse, lemma_div_is_ordered,
};
use vstd::arithmetic::mul::lemma_mul_is_commutative;

verus! {

/// `n!`, with the conventional quirk of this library that `0!` is `0`.
pub open spec fn factorial_spec(n: nat) -> nat
    decreases n,
{
    if n == 0 {
        0
    } else if n == 1 {
        1
    } else {
        n * factorial_spec((n - 1) as nat)
    }
}

/// `1 + 2 + ... + n`.
pub open spec fn triangle(n: nat) -> nat {
    (n * (n + 1)) / 2
}

proof fn lemma_factorial_pos(i: nat)
    requires
        1 <= i,
    ensures
        1 <= factorial_spec(i),
    decreases i,
{
    if i > 1 {
        lemma_factorial_pos((i - 1) as nat);
        assert(1 <= i * factorial_spec((i - 1) as nat)) by (nonlinear_arith)
            requires 1 <= i, 1 <= factorial_spec((i - 1) as nat),
        ;
    }
}

proof fn lemma_factorial_mono(i: nat, j: nat)
    requires
        1 <= i <= j,
    ensures
        factorial_spec(i) <= factorial_spec(j),
    decreases j,
{
    if i < j {
        lemma_factorial_mono(i, (j - 1) as nat);
        lemma_factorial_pos((j - 1) as nat);
        assert(factorial_spec((j - 1) as nat) <= j * factorial_spec((j - 1) as nat))
            by (nonlinear_arith)
            requires 1 <= j, 1 <= factorial_spec((j - 1) as nat),
        ;
    }
}

proof fn lemma_factorial_34_bound()
    ensures
        factorial_spec(34) < u128::MAX,
{
    assert(factorial_spec(0) == 0);
    assert(factorial_spec(1) == 1);
    assert(factorial_spec(2) == 2);
    assert(factorial_spec(3) == 6);
    assert(factorial_spec(4) == 24);
    assert(factorial_spec(5) == 120);
    assert(factorial_spec(6) == 720);
    assert(factorial_spec(7) == 5040);
    assert(factorial_spec(8) == 40320);
    assert(factorial_spec(9) == 362880);
    assert(factorial_spec(10) == 3628800);
    assert(factorial_spec(11) == 39916800);
    assert(factorial_spec(12) == 479001600);
    assert(factorial_spec(13) == 6227020800);
    assert(factorial_spec(14) == 87178291200);
    assert(factorial_spec(15) == 1307674368000);
    assert(factorial_spec(16) == 20922789888000);
    assert(factorial_spec(17) == 355687428096000);
    assert(factorial_spec(18) == 6402373705728000);
    assert(factorial_spec(19) == 121645100408832000);
    assert(factorial_spec(20) == 2432902008176640000);
    assert(factorial_spec(21) == 51090942171709440000);
    assert(factorial_spec(22) == 1124000727777607680000);
    assert(factorial_spec(23) == 25852016738884976640000);
    assert(factorial_spec(24) == 620448401733239439360000);
    assert(factorial_spec(25) == 15511210043330985984000000);
    assert(factorial_spec(26) == 403291461126605635584000000);
    assert(factorial_spec(27) == 10888869450418352160768000000);
    assert(factorial_spec(28) == 304888344611713860501504000000);
    assert(factorial_spec(29) == 8841761993739701954543616000000);
    assert(factorial_spec(30) == 265252859812191058636308480000000);
    assert(factorial_spec(31) == 8222838654177922817725562880000000);
    assert(factorial_spec(32) == 263130836933693530167218012160000000);
    assert(factorial_spec(33) == 8683317618811886495518194401280000000);
    assert(factorial_spec(34) == 295232799039604140847618609643520000000);
}

/// The product `2 * 3 * ... * n`; `0` for `n == 0`.
pub fn factorial(n: &usize) -> (r: u128)
    requires
        *n <= 34,
    ensures
        r == factorial_spec(*n as nat),
{
    match *n {
        0 => 0,
        1 => 1,
        _ => {
            let mut r: u128 = 1;
            let mut i: u128 = 2;
            proof {
                lemma_factorial_34_bound();
            }
            while i <= *n as u128
                invariant
                    2 <= i <= *n as u128 + 1,
                    2 <= *n <= 34,
                    r == factorial_spec((i - 1) as nat),
                    factorial_spec(34) < u128::MAX,
                decreases *n as u128 - i + 1,
            {
                proof {
                    lemma_factorial_mono(i as nat, 34);
                    assert(factorial_spec(i as nat) == i * factorial_spec((i - 1) as nat));
                    assert(r * i == i * r) by (nonlinear_arith);
                    assert(r * i == factorial_spec(i as nat));
                }
                r = r * i;
                i = i + 1;
            }
            r
        },
    }
}

/// Two consecutive integers multiply to an even number.
proof fn lemma_consecutive_even(k: nat)
    ensures
        (k * (k + 1)) % 2 == 0,
{
    lemma_fundamental_div_mod(k as int, 2);
    let q = k as int / 2;
    let r = k as int % 2;
    if r == 0 {
        let h = q * (k + 1);
        assert(k * (k + 1) == h * 2) by (nonlinear_arith)
            requires k as int == 2 * q, h == q * (k + 1),
        ;
        lemma_fundamental_div_mod_converse((k * (k + 1)) as int, 2, h, 0);
    } else {
        let h = (q + 1) * k;
        assert(k * (k + 1) == h * 2) by (nonlinear_arith)
            requires k as int == 2 * q + 1, h == (q + 1) * k,
        ;
        lemma_fundamental_div_mod_converse((k * (k + 1)) as int, 2, h, 0);
    }
}

/// Adding the next integer advances a triangular sum by one step.
proof fn lemma_triangle_step(i: nat)
    requires
        1 <= i,
    ensures
        triangle(i) == triangle((i - 1) as nat) + i,
{
    let p = ((i - 1) as nat) * i;
    lemma_consecutive_even((i - 1) as nat);
    lemma_fundamental_div_mod(p as int, 2);
    let c = p as int / 2;
    assert(p == 2 * c);
    assert(i * (i + 1) == (c + i) * 2) by (nonlinear_arith)
        requires p == 2 * c, p == ((i - 1) as nat) * i, 1 <= i,
    ;
    lemma_fundamental_div_mod_converse((i * (i + 1)) as int, 2, c + i as int, 0);
}

proof fn lemma_triangle_mono(a: nat, b: nat)
    requires
        a <= b,
    ensures
        triangle(a) <= triangle(b),
{
    assert(a * (a + 1) <= b * (b + 1)) by (nonlinear_arith)
        requires a <= b,
    ;
    lemma_div_is_ordered((a * (a + 1)) as int, (b * (b + 1)) as int, 2);
}

/// `1 + 2 + ... + n`, computed by a counting loop.
pub fn sigma(n: &usize) -> (r: usize)
    requires
        triangle(*n as nat) <= usize::MAX,
    ensures
        r == triangle(*n as nat),
{
    let mut sum: usize = 0;
    let mut i: usize = 0;
    while i < *n
        invariant
            i <= *n,
            sum == triangle(i as nat),
            triangle(*n as nat) <= usize::MAX,
        decreases *n - i,
    {
        proof {
            lemma_triangle_step((i + 1) as nat);
            lemma_triangle_mono((i + 1) as nat, *n as nat);
        }
        i = i + 1;
        sum = sum + i;
    }
    sum
}

/// `1 + 2 + ... + n`, the same sum written as a running total.
pub fn simple_sigma(n: usize) -> (r: usize)
    requires
        triangle(n as nat) <= usize::MAX,
    ensures
        r == triangle(n as nat),
{
    let mut sum: usize = 0;
    let mut value: usize = 0;
    while value < n
        invariant
            value <= n,
            sum == triangle(value as nat),
            triangle(n as nat) <= usize::MAX,
        decreases n - value,
    {
        proof {
            lemma_triangle_step((value + 1) as nat);
            lemma_triangle_mono((value + 1) as nat, n as nat);
        }
        value = value + 1;
        sum = sum + value;
    }
    sum
}

} // verus!
