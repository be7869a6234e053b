//! An ElGamal-style signature over a fixed prime field: a generator `g` of
//! the subgroup of order `q` is drawn, the hash `h` is signed with a random
//! `k`, and the signature is checked against the public key.
use vstd::prelude::*;
use vstd::arithmetic::power::pow;

use crate::bignum::{
    abs, big_add, big_div, big_eq, big_gt, big_modpow, big_mul, big_rem, big_sub, decimal_value,
    gen_range, is_decimal, new_rng, parse_decimal, trunc_div, trunc_rem, BigNum,
};

verus! {

/// The field prime.
pub open spec fn p_value() -> int {
    255211775190703847597530955573826158579
}

/// The order of the subgroup generated by `g`; it divides `p - 1`.
pub open spec fn q_value() -> int {
    252991020016994668398330411224101
}

/// The generator raised from `gamma`: `gamma ^ ((p - 1) / q) mod p`.
pub open spec fn sig_g(gamma: int) -> int {
    pow(gamma, ((p_value() - 1) / q_value()) as nat) % p_value()
}

/// The commitment `g ^ k mod p`.
pub open spec fn sig_r(gamma: int, k: int) -> int {
    pow(sig_g(gamma), k as nat) % p_value()
}

/// The commitment reduced modulo `q`.
pub open spec fn sig_rho(gamma: int, k: int) -> int {
    trunc_rem(sig_r(gamma, k), q_value())
}

/// `k - rho h`, the number the private key has to divide.
pub open spec fn sig_d(h: int, gamma: int, k: int) -> int {
    k - sig_rho(gamma, k) * h
}

/// The signing ends: a private key can be found (`k - rho h` is not `1` or
/// `-1`) and `g` can be raised to `rho h` (it is not negative).
pub open spec fn completes(h: int, gamma: int, k: int) -> bool {
    abs(sig_d(h, gamma, k)) != 1 && sig_rho(gamma, k) * h >= 0
}

/// `x` is the least integer from 2 on that divides `d`.
pub open spec fn is_first_divisor(x: int, d: int) -> bool {
    &&& x >= 2
    &&& trunc_rem(d, x) == 0
    &&& forall|z: int| 2 <= z < x ==> trunc_rem(d, z) != 0
}

/// The signature `s` for the private key `x`.
pub open spec fn sig_s(h: int, gamma: int, k: int, x: int) -> int {
    let rho_h = sig_rho(gamma, k) * h;
    let d = k - rho_h;
    if k > rho_h {
        trunc_rem(trunc_div(d, x), q_value())
    } else {
        trunc_rem(trunc_div(d, x) + q_value() * trunc_div(rho_h - k, x), q_value())
    }
}

/// Everything the signing of `h` with the draws `gamma` and `k` computes.
pub struct SignatureTrace {
    pub gamma: BigNum,
    pub g: BigNum,
    pub k: BigNum,
    pub r: BigNum,
    pub rho: BigNum,
    pub x: BigNum,
    pub y: BigNum,
    pub s: BigNum,
    pub x1: BigNum,
    pub x2: BigNum,
    /// Whether the check `x1 == x2` holds.
    pub valid: bool,
}

/// The draws with which the signing does not end.
pub struct UnfinishedDraws {
    pub gamma: BigNum,
    pub k: BigNum,
}

/// `t` is the trace of signing `h` with the draws `gamma` and `k`.
pub open spec fn is_trace(t: SignatureTrace, h: int, gamma: int, k: int) -> bool {
    let p = p_value();
    let x = t.x.value();
    &&& t.gamma.value() == gamma
    &&& t.k.value() == k
    &&& t.g.value() == sig_g(gamma)
    &&& t.r.value() == sig_r(gamma, k)
    &&& t.rho.value() == sig_rho(gamma, k)
    &&& is_first_divisor(x, sig_d(h, gamma, k))
    &&& t.y.value() == pow(sig_g(gamma), x as nat) % p
    &&& t.s.value() == sig_s(h, gamma, k, x)
    &&& t.x1.value() == trunc_rem(sig_r(gamma, k), p)
    &&& t.x2.value() == trunc_rem(
        (pow(sig_g(gamma), (sig_rho(gamma, k) * h) as nat) % p) * (pow(t.y.value(), t.s.value() as nat)
            % p),
        p,
    )
    &&& t.valid == (t.x1.value() == t.x2.value())
}

/// Properties of Rust's rounding division and remainder by a positive number.
proof fn lemma_trunc(a: int, b: int)
    requires
        b > 0,
    ensures
        abs(a) / b >= 0,
        0 <= abs(a) % b < b,
        a >= 0 ==> trunc_div(a, b) == a / b && trunc_rem(a, b) == a % b,
        a < 0 ==> trunc_div(a, b) == -(abs(a) / b) && trunc_rem(a, b) == -(abs(a) % b),
        (trunc_rem(a, b) == 0) == (abs(a) % b == 0),
        a >= 0 ==> trunc_rem(a, b) >= 0,
{
    let q = abs(a) / b;
    vstd::arithmetic::div_mod::lemma_fundamental_div_mod(abs(a), b);
    vstd::arithmetic::div_mod::lemma_div_pos_is_pos(abs(a), b);
    vstd::arithmetic::div_mod::lemma_mod_bound(abs(a), b);
    if a < 0 {
        assert(trunc_div(a, b) == -q);
        assert(b * (-q) == -(b * q)) by (nonlinear_arith);
    }
}

/// The parsed field constants.
proof fn lemma_constants(ps: Seq<char>, qs: Seq<char>)
    requires
        ps == "255211775190703847597530955573826158579"@,
        qs == "252991020016994668398330411224101"@,
    ensures
        is_decimal(ps),
        is_decimal(qs),
        decimal_value(ps) == p_value(),
        decimal_value(qs) == q_value(),
{
    reveal_strlit("255211775190703847597530955573826158579");
    reveal_strlit("252991020016994668398330411224101");
    reveal_with_fuel(decimal_value, 40);
}

/// The least integer from 2 on that divides `d`, found by counting up.
fn first_divisor(d: &BigNum) -> (x: BigNum)
    requires
        abs(d.value()) != 1,
    ensures
        is_first_divisor(x.value(), d.value()),
{
    let ghost dv = d.value();
    let one = BigNum::from_u32(1);
    let zero = BigNum::from_u32(0);
    let mut x = BigNum::from_u32(2);
    loop
        invariant_except_break
            dv == d.value(),
            abs(dv) != 1,
            one.value() == 1,
            zero.value() == 0,
            x.value() >= 2,
            dv != 0 ==> x.value() <= abs(dv),
            forall|z: int| 2 <= z < x.value() ==> trunc_rem(dv, z) != 0,
        ensures
            is_first_divisor(x.value(), dv),
        decreases abs(dv) - x.value(),
    {
        let rem = big_rem(d, &x);
        if big_eq(&rem, &zero) {
            break;
        }
        proof {
            lemma_trunc(0, x.value());
            assert(dv != 0);
            lemma_trunc(dv, abs(dv));
            vstd::arithmetic::div_mod::lemma_mod_self_0(abs(dv));
            assert(x.value() != abs(dv));
        }
        x = big_add(&x, &one);
    }
    x
}

/// The signature `s` from the private key `x`, where `d` is `k - rho h`.
fn signature_s(k: &BigNum, rho_h: &BigNum, d: &BigNum, x: &BigNum, q: &BigNum) -> (s: BigNum)
    requires
        d.value() == k.value() - rho_h.value(),
        x.value() >= 1,
        q.value() >= 1,
    ensures
        s.value() == (if k.value() > rho_h.value() {
            trunc_rem(trunc_div(d.value(), x.value()), q.value())
        } else {
            trunc_rem(
                trunc_div(d.value(), x.value()) + q.value() * trunc_div(
                    rho_h.value() - k.value(),
                    x.value(),
                ),
                q.value(),
            )
        }),
        s.value() >= 0,
{
    let ghost dv = d.value();
    let ghost xv = x.value();
    let ghost qv = q.value();
    proof {
        lemma_trunc(dv, xv);
        lemma_trunc(-dv, xv);
    }
    let ghost u = abs(dv) / xv;
    if big_gt(k, rho_h) {
        proof {
            lemma_trunc(u, qv);
        }
        big_rem(&big_div(d, x), q)
    } else {
        let t1 = big_div(d, x);
        let t2 = big_div(&big_sub(rho_h, k), x);
        proof {
            assert(t1.value() + qv * t2.value() == (qv - 1) * u) by (nonlinear_arith)
                requires
                    t1.value() == -u,
                    t2.value() == u,
            ;
            assert((qv - 1) * u >= 0) by (nonlinear_arith)
                requires
                    qv >= 1,
                    u >= 0,
            ;
            lemma_trunc((qv - 1) * u, qv);
        }
        big_rem(&big_add(&t1, &big_mul(q, &t2)), q)
    }
}

/// Signs `h` with the draws `gamma` and `k` and checks the signature.
/// Returns the draws as an error exactly when the signing does not end: when
/// no private key can be found, or when `g` would be raised to a negative power.
pub fn signature_with(h: &BigNum, gamma: BigNum, k: BigNum) -> (res: Result<
    SignatureTrace,
    UnfinishedDraws,
>)
    requires
        k.value() >= 0,
    ensures
        res is Err <==> !completes(h.value(), gamma.value(), k.value()),
        res matches Ok(t) ==> is_trace(t, h.value(), gamma.value(), k.value()),
        res matches Err(u) ==> u.gamma.value() == gamma.value() && u.k.value() == k.value(),
        res matches Ok(t) ==> t.g.value() == pow(gamma.value(), 1008778nat)
            % 255211775190703847597530955573826158579int,
        res matches Ok(t) ==> t.r.value() == pow(t.g.value(), k.value() as nat)
            % 255211775190703847597530955573826158579int,
{
    let ps = "255211775190703847597530955573826158579";
    let qs = "252991020016994668398330411224101";
    proof {
        lemma_constants(ps@, qs@);
    }
    let p = parse_decimal(ps).unwrap();
    let q = parse_decimal(qs).unwrap();
    let ghost pv = p.value();
    let ghost qv = q.value();
    let ghost hv = h.value();
    let ghost kv = k.value();
    let one = BigNum::from_u32(1);
    let zero = BigNum::from_u32(0);
    let minus_one = BigNum::negative_u32(1);

    let exponent = big_div(&big_sub(&p, &one), &q);
    let g = big_modpow(&gamma, &exponent, &p);
    let r = big_modpow(&g, &k, &p);
    let rho = big_rem(&r, &q);
    let rho_h = big_mul(&rho, h);
    let d = big_sub(&k, &rho_h);
    proof {
        lemma_trunc(pv - 1, qv);
        vstd::arithmetic::div_mod::lemma_mod_bound(pow(g.value(), kv as nat), pv);
        lemma_trunc(r.value(), qv);
    }
    assert(g.value() == sig_g(gamma.value()));
    assert(rho.value() == sig_rho(gamma.value(), kv));
    assert(d.value() == sig_d(hv, gamma.value(), kv));
    if big_eq(&d, &one) || big_eq(&d, &minus_one) || big_gt(&zero, &rho_h) {
        return Err(UnfinishedDraws { gamma, k });
    }
    let x = first_divisor(&d);
    let y = big_modpow(&g, &x, &p);
    let s = signature_s(&k, &rho_h, &d, &x, &q);
    assert(s.value() == sig_s(hv, gamma.value(), kv, x.value()));
    let x1 = big_rem(&r, &p);
    let x2 = big_rem(&big_mul(&big_modpow(&g, &rho_h, &p), &big_modpow(&y, &s, &p)), &p);
    let valid = big_eq(&x1, &x2);
    let t = SignatureTrace { gamma, g, k, r, rho, x, y, s, x1, x2, valid };
    proof {
        lemma_trace_meaning(t, hv, t.gamma.value(), kv);
    }
    Ok(t)
}

/// Signs `h` with a random `gamma` in `[2, p - 1)` and a random `k` in
/// `[1, q)`, and checks the signature. Returns those draws as an error when
/// they make the signing not end (see `signature_with`).
pub fn signature(h: &BigNum) -> (res: Result<SignatureTrace, UnfinishedDraws>)
    ensures
        res matches Ok(t) ==> {
            &&& 2 <= t.gamma.value() < p_value() - 1
            &&& 1 <= t.k.value() < q_value()
            &&& is_trace(t, h.value(), t.gamma.value(), t.k.value())
        },
        res matches Err(u) ==> {
            &&& 2 <= u.gamma.value() < p_value() - 1
            &&& 1 <= u.k.value() < q_value()
            &&& !completes(h.value(), u.gamma.value(), u.k.value())
        },
{
    let ps = "255211775190703847597530955573826158579";
    let qs = "252991020016994668398330411224101";
    proof {
        lemma_constants(ps@, qs@);
    }
    let p = parse_decimal(ps).unwrap();
    let q = parse_decimal(qs).unwrap();
    let mut rng = new_rng();
    let two = BigNum::from_u32(2);
    let one = BigNum::from_u32(1);
    let gamma = gen_range(&mut rng, &two, &big_sub(&p, &one));
    let k = gen_range(&mut rng, &one, &q);
    signature_with(h, gamma, k)
}

/// The signing equation: `rho h + x s` is `k` modulo `q`, whenever the
/// signing ends.
pub proof fn lemma_signing_equation(h: int, gamma: int, k: int, x: int)
    requires
        completes(h, gamma, k),
        is_first_divisor(x, sig_d(h, gamma, k)),
    ensures
        (sig_rho(gamma, k) * h + x * sig_s(h, gamma, k, x)) % q_value() == k % q_value(),
{
    let q = q_value();
    let rho_h = sig_rho(gamma, k) * h;
    let d = k - rho_h;
    let s = sig_s(h, gamma, k, x);
    lemma_trunc(d, x);
    lemma_trunc(-d, x);
    let u = abs(d) / x;
    vstd::arithmetic::div_mod::lemma_fundamental_div_mod(abs(d), x);
    assert(abs(d) == x * u);
    if k > rho_h {
        lemma_trunc(u, q);
        assert(s == u % q);
        assert(d == x * u);
        vstd::arithmetic::div_mod::lemma_mul_mod_noop_right(x, u, q);
        vstd::arithmetic::div_mod::lemma_add_mod_noop(rho_h, x * (u % q), q);
        vstd::arithmetic::div_mod::lemma_add_mod_noop(rho_h, x * u, q);
    } else {
        assert(trunc_div(d, x) + q * trunc_div(rho_h - k, x) == (q - 1) * u) by (nonlinear_arith)
            requires
                trunc_div(d, x) == -u,
                trunc_div(rho_h - k, x) == u,
        ;
        assert((q - 1) * u >= 0) by (nonlinear_arith)
            requires
                q >= 1,
                u >= 0,
        ;
        lemma_trunc((q - 1) * u, q);
        assert(s == ((q - 1) * u) % q);
        assert(d == -(x * u));
        assert(x * ((q - 1) * u) == q * (x * u) + d) by (nonlinear_arith)
            requires
                d == -(x * u),
        ;
        vstd::arithmetic::div_mod::lemma_mul_mod_noop_right(x, (q - 1) * u, q);
        vstd::arithmetic::div_mod::lemma_mod_multiples_vanish(x * u, d, q);
        vstd::arithmetic::div_mod::lemma_add_mod_noop(rho_h, x * s, q);
        vstd::arithmetic::div_mod::lemma_add_mod_noop(rho_h, x * ((q - 1) * u), q);
        vstd::arithmetic::div_mod::lemma_add_mod_noop(rho_h, d, q);
    }
}

/// `z` divides `d`.
pub open spec fn divides(z: int, d: int) -> bool {
    d % z == 0
}

/// `d` is divisible by `x` (with `x > 0`) exactly when `|d|` is.
proof fn lemma_divides_abs(d: int, x: int)
    requires
        x > 0,
    ensures
        (d % x == 0) == (abs(d) % x == 0),
{
    if d < 0 {
        vstd::arithmetic::div_mod::lemma_fundamental_div_mod(d, x);
        vstd::arithmetic::div_mod::lemma_fundamental_div_mod(-d, x);
        if d % x == 0 {
            assert(-d == (-(d / x)) * x) by (nonlinear_arith)
                requires
                    d == x * (d / x) + d % x,
                    d % x == 0,
            ;
            vstd::arithmetic::div_mod::lemma_mod_multiples_basic(-(d / x), x);
        }
        if (-d) % x == 0 {
            assert(d == (-((-d) / x)) * x) by (nonlinear_arith)
                requires
                    -d == x * ((-d) / x) + (-d) % x,
                    (-d) % x == 0,
            ;
            vstd::arithmetic::div_mod::lemma_mod_multiples_basic(-((-d) / x), x);
        }
    }
}

/// What each value of a finished signing is, in terms of the draws, the hash
/// and the field constants `p` and `q`: the generator is `gamma` raised to
/// `(p - 1) / q = 1008778` modulo `p`; the commitment is the generator raised
/// to `k`; `rho` is the commitment modulo `q`; the private key `x` is the least
/// number from 2 on that divides `k - rho h`; the public key is the generator
/// raised to `x`; the signature `s` lies in `[0, q)` and satisfies
/// `rho h + x s = k (mod q)`; and the check compares `r mod p` with
/// `g^(rho h) y^s mod p`.
pub proof fn lemma_trace_meaning(t: SignatureTrace, h: int, gamma: int, k: int)
    requires
        is_trace(t, h, gamma, k),
        completes(h, gamma, k),
    ensures
        t.gamma.value() == gamma,
        t.k.value() == k,
        t.g.value() == pow(gamma, 1008778nat) % 255211775190703847597530955573826158579int,
        t.r.value() == pow(t.g.value(), k as nat) % 255211775190703847597530955573826158579int,
        t.rho.value() == t.r.value() % 252991020016994668398330411224101int,
        t.x.value() >= 2,
        divides(t.x.value(), k - t.rho.value() * h),
        forall|z: int| 2 <= z < t.x.value() ==> !#[trigger] divides(z, k - t.rho.value() * h),
        t.y.value() == pow(t.g.value(), t.x.value() as nat)
            % 255211775190703847597530955573826158579int,
        0 <= t.s.value() < 252991020016994668398330411224101int,
        (t.rho.value() * h + t.x.value() * t.s.value()) % 252991020016994668398330411224101int == k
            % 252991020016994668398330411224101int,
        t.x1.value() == t.r.value() % 255211775190703847597530955573826158579int,
        t.x2.value() == ((pow(t.g.value(), (t.rho.value() * h) as nat)
            % 255211775190703847597530955573826158579int) * (pow(t.y.value(), t.s.value() as nat)
            % 255211775190703847597530955573826158579int))
            % 255211775190703847597530955573826158579int,
        t.valid == (t.x1.value() == t.x2.value()),
{
    let p = p_value();
    let q = q_value();
    assert((p - 1) / q == 1008778);
    let g = t.g.value();
    let r = t.r.value();
    vstd::arithmetic::div_mod::lemma_mod_bound(pow(g, k as nat), p);
    lemma_trunc(r, q);
    lemma_trunc(r, p);
    let d = sig_d(h, gamma, k);
    let x = t.x.value();
    lemma_trunc(d, x);
    lemma_divides_abs(d, x);
    assert forall|z: int| 2 <= z < x implies !#[trigger] divides(z, k - t.rho.value() * h) by {
        lemma_trunc(d, z);
        lemma_divides_abs(d, z);
    }
    // The signature lies in [0, q).
    let rho_h = sig_rho(gamma, k) * h;
    lemma_trunc(-d, x);
    let u = abs(d) / x;
    if k > rho_h {
        lemma_trunc(u, q);
    } else {
        assert(trunc_div(d, x) + q * trunc_div(rho_h - k, x) == (q - 1) * u) by (nonlinear_arith)
            requires
                trunc_div(d, x) == -u,
                trunc_div(rho_h - k, x) == u,
        ;
        assert((q - 1) * u >= 0) by (nonlinear_arith)
            requires
                q >= 1,
                u >= 0,
        ;
        lemma_trunc((q - 1) * u, q);
    }
    lemma_signing_equation(h, gamma, k, x);
    let a = pow(g, rho_h as nat) % p;
    let b = pow(t.y.value(), t.s.value() as nat) % p;
    vstd::arithmetic::div_mod::lemma_mod_bound(pow(g, rho_h as nat), p);
    vstd::arithmetic::div_mod::lemma_mod_bound(pow(t.y.value(), t.s.value() as nat), p);
    assert(a * b >= 0) by (nonlinear_arith)
        requires
            a >= 0,
            b >= 0,
    ;
    lemma_trunc(a * b, p);
}

} // verus!
