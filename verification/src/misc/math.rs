use vstd::prelude::*;

verus! {

/// `k` times `d`.
pub open spec fn multiple(d: nat, k: nat) -> nat {
    d * k
}

/// `d` divides `n`: `n` is a multiple of `d`.
pub open spec fn divides(d: nat, n: nat) -> bool {
    exists|k: nat| n == #[trigger] multiple(d, k)
}

/// `g` is the greatest common divisor of `a` and `b`: it divides both, and
/// every number that divides both divides it. Of 0 and 0 it is 0.
pub open spec fn is_gcd(a: nat, b: nat, g: nat) -> bool {
    &&& divides(g, a)
    &&& divides(g, b)
    &&& forall|d: nat| divides(d, a) && divides(d, b) ==> divides(d, g)
}

/// A number divides itself and 0.
pub proof fn lemma_divides_self(n: nat)
    ensures
        divides(n, n),
        divides(n, 0),
{
    assert(n == multiple(n, 1));
    assert(0 == multiple(n, 0));
}

/// What divides a divisor and the remainder divides the dividend, and what
/// divides the dividend and the divisor divides the remainder.
pub proof fn lemma_divides_remainder(d: nat, a: nat, b: nat)
    requires
        b > 0,
        divides(d, b),
    ensures
        divides(d, a) <==> divides(d, a % b),
{
    let q = a / b;
    let r = a % b;
    assert(a == q * b + r) by (nonlinear_arith)
        requires
            b > 0,
            q == a / b,
            r == a % b,
    ;
    let kb = choose|k: nat| b == multiple(d, k);
    if divides(d, r) {
        let kr = choose|k: nat| r == multiple(d, k);
        assert(a == d * (q * kb + kr)) by (nonlinear_arith)
            requires
                a == q * b + r,
                b == d * kb,
                r == d * kr,
        ;
        assert(a == multiple(d, q * kb + kr));
    }
    if divides(d, a) {
        let ka = choose|k: nat| a == multiple(d, k);
        assert(d > 0) by {
            if d == 0 {
                assert(b == 0 * kb);
            }
        }
        assert(ka >= q * kb) by (nonlinear_arith)
            requires
                a == q * b + r,
                b == d * kb,
                a == d * ka,
                d > 0,
                r >= 0,
        ;
        let kr = (ka - q * kb) as nat;
        assert(r == d * kr) by (nonlinear_arith)
            requires
                a == q * b + r,
                b == d * kb,
                a == d * ka,
                kr == ka - q * kb,
        ;
        assert(r == multiple(d, kr));
    }
}

/// Two numbers have one greatest common divisor: what [`gcd`] promises of
/// its result holds of no other number.
pub proof fn law_gcd_is_unique(a: nat, b: nat, g: nat, h: nat)
    requires
        is_gcd(a, b, g),
        is_gcd(a, b, h),
    ensures
        g == h,
{
    assert(divides(g, h));
    assert(divides(h, g));
    let k = choose|k: nat| h == multiple(g, k);
    let l = choose|l: nat| g == multiple(h, l);
    assert(g == h) by (nonlinear_arith)
        requires
            h == g * k,
            g == h * l,
    ;
}

/// Calculate the greatest common divisor of `a` and `b`
pub fn gcd(a: usize, b: usize) -> (r: usize)
    ensures
        is_gcd(a as nat, b as nat, r as nat),
    decreases b,
{
    if b == 0 {
        proof {
            lemma_divides_self(a as nat);
        }
        return a;
    }
    let r = gcd(b, a % b);
    proof {
        let g = r as nat;
        lemma_divides_remainder(g, a as nat, b as nat);
        assert forall|d: nat| divides(d, a as nat) && divides(d, b as nat) implies divides(d, g) by {
            lemma_divides_remainder(d, a as nat, b as nat);
        }
    }
    r
}

} // verus!
