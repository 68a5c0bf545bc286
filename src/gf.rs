//! Arithmetic in GF(2^8) as spec functions, and the laws it obeys.
//!
//! An element is a byte read as a polynomial of degree < 8 over GF(2). Addition is XOR;
//! multiplication is carry-less multiplication reduced modulo x^8 + x^4 + x^3 + x + 1.
use vstd::prelude::*;
use vstd::relations::injective_on;
use vstd::set_lib::*;

verus! {

/// Low byte of the irreducible polynomial x^8 + x^4 + x^3 + x + 1.
pub const IRREDUCIBLE: u8 = 0x1b;

/// The element whose powers enumerate every non-zero element.
pub const GENERATOR: u8 = 0x03;

/// Field addition (and subtraction): bitwise XOR.
pub open spec fn gf_add(x: u8, y: u8) -> u8 {
    x ^ y
}

/// Field subtraction, which coincides with addition.
pub open spec fn gf_sub(x: u8, y: u8) -> u8 {
    x ^ y
}

/// Additive inverse: every element is its own negation.
pub open spec fn gf_neg(x: u8) -> u8 {
    x
}

/// Multiplication by x, reduced modulo the irreducible polynomial.
pub open spec fn xtime(a: u8) -> u8 {
    ((a << 1u8) ^ ((((a >> 7u8) & 1u8) * 0x1bu8) as u8)) as u8
}

/// `v` when bit `k` of `b` is set, else zero.
pub open spec fn pick(b: u8, k: u8, v: u8) -> u8 {
    if (b >> k) & 1u8 == 1u8 {
        v
    } else {
        0u8
    }
}

/// Field multiplication: the sum over the set bits k of `b` of `a * x^k`.
pub open spec fn gf_mul(a: u8, b: u8) -> u8 {
    let a1 = xtime(a);
    let a2 = xtime(a1);
    let a3 = xtime(a2);
    let a4 = xtime(a3);
    let a5 = xtime(a4);
    let a6 = xtime(a5);
    let a7 = xtime(a6);
    pick(b, 0, a) ^ pick(b, 1, a1) ^ pick(b, 2, a2) ^ pick(b, 3, a3) ^ pick(b, 4, a4) ^ pick(
        b,
        5,
        a5,
    ) ^ pick(b, 6, a6) ^ pick(b, 7, a7)
}

/// `x` raised to the power `n` by repeated multiplication (`x^0 == 1`, also for `x == 0`).
pub open spec fn gf_pow(x: u8, n: nat) -> u8
    decreases n,
{
    if n == 0 {
        1u8
    } else {
        gf_mul(gf_pow(x, (n - 1) as nat), x)
    }
}

/// The multiplicative inverse: the element `y` with `x * y == 1`; zero has none and maps to 0.
pub open spec fn gf_inv(x: u8) -> u8 {
    if x == 0 {
        0u8
    } else {
        choose|y: u8| gf_mul(x, y) == 1
    }
}

/// Field division `x / y == x * inv(y)`.
pub open spec fn gf_div(x: u8, y: u8) -> u8 {
    gf_mul(x, gf_inv(y))
}

/// The discrete logarithm of a non-zero element to the base `GENERATOR`.
pub open spec fn gf_log(y: u8) -> nat {
    choose|i: nat| i < 255 && gf_pow(GENERATOR, i) == y
}

/// The step of "Russian peasant" multiplication that consumes the low `n` bits of `b`.
pub open spec fn peasant(a: u8, b: u8, n: nat) -> u8
    decreases n,
{
    if n == 0 {
        0u8
    } else {
        (if b & 1u8 == 1u8 {
            a
        } else {
            0u8
        }) ^ peasant(xtime(a), b >> 1u8, (n - 1) as nat)
    }
}

// ---------------------------------------------------------------------------------------------
// Facts decided by the bit-vector solver.
pub proof fn lemma_xor(a: u8, b: u8, c: u8)
    ensures
        a ^ 0 == a,
        0 ^ a == a,
        a ^ a == 0,
        a ^ b == b ^ a,
        (a ^ b) ^ c == a ^ (b ^ c),
        a ^ b == 0 ==> a == b,
{
    assert(a ^ 0 == a && 0 ^ a == a && a ^ a == 0 && a ^ b == b ^ a && (a ^ b) ^ c == a ^ (b
        ^ c) && (a ^ b == 0 ==> a == b)) by (bit_vector);
}

#[verifier::rlimit(100)]
pub proof fn lemma_mul_commutative(a: u8, b: u8)
    ensures
        gf_mul(a, b) == gf_mul(b, a),
{
    assert(gf_mul(a, b) == gf_mul(b, a)) by (bit_vector);
}

#[verifier::rlimit(100)]
proof fn lemma_mul_generator_assoc(a: u8, b: u8)
    ensures
        gf_mul(gf_mul(a, b), 3) == gf_mul(a, gf_mul(b, 3)),
{
    assert(gf_mul(gf_mul(a, b), 3) == gf_mul(a, gf_mul(b, 3))) by (bit_vector);
}

pub proof fn lemma_mul_no_zero_divisors(a: u8, b: u8)
    ensures
        gf_mul(a, b) == 0 <==> (a == 0 || b == 0),
{
    assert(gf_mul(a, b) == 0 <==> (a == 0 || b == 0)) by (bit_vector);
}

#[verifier::rlimit(100)]
pub proof fn lemma_mul_distributes(a: u8, b: u8, c: u8)
    ensures
        gf_mul(a, b ^ c) == gf_mul(a, b) ^ gf_mul(a, c),
        gf_mul(b ^ c, a) == gf_mul(b, a) ^ gf_mul(c, a),
{
    assert(gf_mul(a, b ^ c) == gf_mul(a, b) ^ gf_mul(a, c)) by (bit_vector);
    lemma_mul_commutative(a, b ^ c);
    lemma_mul_commutative(a, b);
    lemma_mul_commutative(a, c);
}

pub proof fn lemma_mul_identities(a: u8)
    ensures
        gf_mul(a, 1) == a,
        gf_mul(1, a) == a,
        gf_mul(a, 0) == 0,
        gf_mul(0, a) == 0,
{
    assert(gf_mul(a, 1) == a && gf_mul(1, a) == a && gf_mul(a, 0) == 0 && gf_mul(0, a) == 0)
        by (bit_vector);
}

pub proof fn lemma_peasant_is_mul(a: u8, b: u8)
    ensures
        peasant(a, b, 8) == gf_mul(a, b),
{
    assert(peasant(a, b, 8) == gf_mul(a, b)) by (bit_vector);
}

proof fn lemma_generator_constants()
    ensures
        gf_pow(GENERATOR, 255) == 1,
        gf_pow(GENERATOR, 85) != 1,
        gf_pow(GENERATOR, 51) != 1,
        gf_pow(GENERATOR, 15) != 1,
{
    assert(gf_pow(3, 255) == 1 && gf_pow(3, 85) != 1 && gf_pow(3, 51) != 1 && gf_pow(3, 15)
        != 1) by (bit_vector);
}

proof fn lemma_proper_divisors_of_255(d: u8)
    requires
        0 < d < 255,
        255u8 % d == 0,
    ensures
        85u8 % d == 0 || 51u8 % d == 0 || 15u8 % d == 0,
{
    assert(0 < d < 255 && 255u8 % d == 0 ==> 85u8 % d == 0 || 51u8 % d == 0 || 15u8 % d == 0)
        by (bit_vector);
}

// ---------------------------------------------------------------------------------------------
// Powers of the generator.
pub proof fn lemma_peasant_zero(a: u8, n: nat)
    ensures
        peasant(a, 0, n) == 0,
    decreases n,
{
    if n > 0 {
        lemma_peasant_zero(xtime(a), (n - 1) as nat);
        assert((0u8 & 1u8) == 0u8 && (0u8 >> 1u8) == 0u8) by (bit_vector);
        lemma_xor(0, 0, 0);
    }
}

proof fn lemma_gpow_add(i: nat, j: nat)
    ensures
        gf_mul(gf_pow(GENERATOR, i), gf_pow(GENERATOR, j)) == gf_pow(GENERATOR, i + j),
    decreases j,
{
    if j == 0 {
        lemma_mul_identities(gf_pow(GENERATOR, i));
    } else {
        lemma_gpow_add(i, (j - 1) as nat);
        lemma_mul_generator_assoc(gf_pow(GENERATOR, i), gf_pow(GENERATOR, (j - 1) as nat));
        assert(gf_pow(GENERATOR, i + j) == gf_mul(gf_pow(GENERATOR, (i + j - 1) as nat), 3));
    }
}

pub proof fn lemma_gpow_nonzero(n: nat)
    ensures
        gf_pow(GENERATOR, n) != 0,
    decreases n,
{
    if n > 0 {
        lemma_gpow_nonzero((n - 1) as nat);
        lemma_mul_no_zero_divisors(gf_pow(GENERATOR, (n - 1) as nat), 3);
    }
}

pub proof fn lemma_gpow_mod(n: nat)
    ensures
        gf_pow(GENERATOR, n) == gf_pow(GENERATOR, n % 255),
    decreases n,
{
    if n >= 255 {
        let m = (n - 255) as nat;
        lemma_gpow_mod(m);
        lemma_gpow_add(m, 255);
        lemma_generator_constants();
        lemma_mul_identities(gf_pow(GENERATOR, m));
        assert(n % 255 == m % 255) by {
            vstd::arithmetic::div_mod::lemma_mod_sub_multiples_vanish(n as int, 255);
        }
    } else {
        vstd::arithmetic::div_mod::lemma_small_mod(n, 255);
    }
}

proof fn lemma_gpow_one_multiple(d: nat, q: nat)
    requires
        gf_pow(GENERATOR, d) == 1,
    ensures
        gf_pow(GENERATOR, q * d) == 1,
    decreases q,
{
    if q == 0 {
        assert(q * d == 0);
    } else {
        lemma_gpow_one_multiple(d, (q - 1) as nat);
        lemma_gpow_add(((q - 1) * d) as nat, d);
        lemma_mul_identities(1);
        assert((q - 1) * d + d == q * d) by (nonlinear_arith);
    }
}

#[verifier::rlimit(100)]
proof fn lemma_gpow_order(d: nat)
    requires
        0 < d < 255,
    ensures
        gf_pow(GENERATOR, d) != 1,
    decreases d,
{
    if gf_pow(GENERATOR, d) == 1 {
        let q = 255nat / d;
        let r = 255nat % d;
        assert(q * d + r == 255) by {
            vstd::arithmetic::div_mod::lemma_fundamental_div_mod(255, d as int);
            assert(q * d == d * q) by (nonlinear_arith);
        }
        lemma_gpow_one_multiple(d, q);
        lemma_gpow_add(q * d, r);
        lemma_generator_constants();
        lemma_mul_identities(gf_pow(GENERATOR, r));
        if r > 0 {
            lemma_gpow_order(r);
        } else {
            lemma_proper_divisors_of_255(d as u8);
            if 85nat % d == 0 {
                assert(85 == (85nat / d) * d) by {
                    vstd::arithmetic::div_mod::lemma_fundamental_div_mod(85, d as int);
                    assert((85nat / d) * d == d * (85nat / d)) by (nonlinear_arith);
                }
                lemma_gpow_one_multiple(d, 85nat / d);
            } else if 51nat % d == 0 {
                assert(51 == (51nat / d) * d) by {
                    vstd::arithmetic::div_mod::lemma_fundamental_div_mod(51, d as int);
                    assert((51nat / d) * d == d * (51nat / d)) by (nonlinear_arith);
                }
                lemma_gpow_one_multiple(d, 51nat / d);
            } else {
                assert(15 == (15nat / d) * d) by {
                    vstd::arithmetic::div_mod::lemma_fundamental_div_mod(15, d as int);
                    assert((15nat / d) * d == d * (15nat / d)) by (nonlinear_arith);
                }
                lemma_gpow_one_multiple(d, 15nat / d);
            }
        }
    }
}

/// Cancellation: a non-zero factor can be removed from both sides.
pub proof fn lemma_mul_cancel(x: u8, a: u8, b: u8)
    requires
        x != 0,
        gf_mul(x, a) == gf_mul(x, b),
    ensures
        a == b,
{
    lemma_mul_distributes(x, a, b);
    lemma_xor(gf_mul(x, a), 0, 0);
    lemma_mul_no_zero_divisors(x, a ^ b);
    lemma_xor(a, b, 0);
}

pub proof fn lemma_gpow_injective(i: nat, j: nat)
    requires
        i < j < 255,
    ensures
        gf_pow(GENERATOR, i) != gf_pow(GENERATOR, j),
{
    let d = (j - i) as nat;
    lemma_gpow_add(i, d);
    lemma_gpow_order(d);
    lemma_gpow_nonzero(i);
    if gf_pow(GENERATOR, i) == gf_pow(GENERATOR, j) {
        lemma_mul_identities(gf_pow(GENERATOR, i));
        lemma_mul_cancel(gf_pow(GENERATOR, i), gf_pow(GENERATOR, d), 1);
    }
}

#[verifier::rlimit(100)]
proof fn lemma_gpow_surjective(y: u8)
    requires
        y != 0,
    ensures
        exists|i: nat| i < 255 && gf_pow(GENERATOR, i) == y,
{
    let f = |i: int| gf_pow(GENERATOR, i as nat) as int;
    let dom = set_int_range(0, 255);
    let img = dom.map(f);
    let target = set_int_range(1, 256);
    lemma_int_range(0, 255);
    lemma_int_range(1, 256);
    assert(injective_on(f, dom)) by {
        assert forall|a: int, b: int| dom.contains(a) && dom.contains(b) && #[trigger] f(a)
            == #[trigger] f(b) implies a == b by {
            if a < b {
                lemma_gpow_injective(a as nat, b as nat);
            } else if b < a {
                lemma_gpow_injective(b as nat, a as nat);
            }
        }
    }
    lemma_map_size(dom, img, f);
    assert(img.subset_of(target)) by {
        assert forall|v: int| img.contains(v) implies target.contains(v) by {
            let i = choose|i: int| dom.contains(i) && f(i) == v;
            lemma_gpow_nonzero(i as nat);
        }
    }
    lemma_subset_equality(img, target);
    assert(target.contains(y as int));
    assert(img.contains(y as int));
    let i = choose|i: int| dom.contains(i) && f(i) == y as int;
    assert((i as nat) < 255 && gf_pow(GENERATOR, i as nat) == y);
}

/// Every non-zero element is a power of the generator, given by `gf_log`.
pub proof fn lemma_log(y: u8)
    requires
        y != 0,
    ensures
        gf_log(y) < 255,
        gf_pow(GENERATOR, gf_log(y)) == y,
{
    lemma_gpow_surjective(y);
}

/// The logarithm is the only exponent below 255 that yields the element.
pub proof fn lemma_log_unique(y: u8, i: nat)
    requires
        i < 255,
        gf_pow(GENERATOR, i) == y,
    ensures
        gf_log(y) == i,
{
    lemma_gpow_nonzero(i);
    lemma_log(y);
    if gf_log(y) < i {
        lemma_gpow_injective(gf_log(y), i);
    } else if i < gf_log(y) {
        lemma_gpow_injective(i, gf_log(y));
    }
}

/// Products of powers of the generator add exponents, reduced modulo 255.
pub proof fn lemma_gpow_mul(i: nat, j: nat)
    ensures
        gf_mul(gf_pow(GENERATOR, i), gf_pow(GENERATOR, j)) == gf_pow(GENERATOR, (i + j) % 255),
{
    lemma_gpow_add(i, j);
    lemma_gpow_mod(i + j);
}

pub proof fn lemma_mul_associative(a: u8, b: u8, c: u8)
    ensures
        gf_mul(gf_mul(a, b), c) == gf_mul(a, gf_mul(b, c)),
{
    lemma_mul_identities(a);
    lemma_mul_identities(b);
    lemma_mul_identities(c);
    lemma_mul_identities(gf_mul(a, b));
    lemma_mul_identities(gf_mul(b, c));
    if a != 0 && b != 0 && c != 0 {
        lemma_log(a);
        lemma_log(b);
        lemma_log(c);
        let (la, lb, lc) = (gf_log(a), gf_log(b), gf_log(c));
        lemma_gpow_add(la, lb);
        lemma_gpow_add(la + lb, lc);
        lemma_gpow_add(lb, lc);
        lemma_gpow_add(la, lb + lc);
        assert(la + lb + lc == la + (lb + lc));
    }
}

/// Every non-zero element has an inverse, which is non-zero and unique.
pub proof fn lemma_inverse(x: u8)
    requires
        x != 0,
    ensures
        gf_mul(x, gf_inv(x)) == 1,
        gf_mul(gf_inv(x), x) == 1,
        gf_inv(x) != 0,
        forall|y: u8| #[trigger] gf_mul(x, y) == 1 ==> y == gf_inv(x),
{
    lemma_log(x);
    let l = gf_log(x);
    let w = gf_pow(GENERATOR, (255 - l) as nat);
    lemma_gpow_add(l, (255 - l) as nat);
    lemma_generator_constants();
    assert(gf_mul(x, w) == 1);
    let v = gf_inv(x);
    assert(gf_mul(x, v) == 1);
    lemma_mul_commutative(x, v);
    lemma_mul_identities(x);
    assert forall|y: u8| #[trigger] gf_mul(x, y) == 1 implies y == gf_inv(x) by {
        lemma_mul_cancel(x, y, v);
    }
}

/// The inverse of a power of the generator.
pub proof fn lemma_inv_gpow(i: nat)
    requires
        i < 255,
    ensures
        gf_inv(gf_pow(GENERATOR, i)) == gf_pow(GENERATOR, (255 - i) as nat),
{
    let x = gf_pow(GENERATOR, i);
    lemma_gpow_nonzero(i);
    lemma_gpow_add(i, (255 - i) as nat);
    lemma_generator_constants();
    lemma_inverse(x);
}

/// Powers of a power of the generator multiply exponents.
#[verifier::rlimit(100)]
pub proof fn lemma_pow_of_gpow(l: nat, n: nat)
    ensures
        gf_pow(gf_pow(GENERATOR, l), n) == gf_pow(GENERATOR, (l * n) % 255),
    decreases n,
{
    if n == 0 {
        assert(l * n == 0) by (nonlinear_arith) requires n == 0;
    } else {
        lemma_pow_of_gpow(l, (n - 1) as nat);
        lemma_gpow_add(l * (n - 1) as nat, l);
        assert(l * (n - 1) as nat + l == l * n) by (nonlinear_arith) requires n > 0;
        lemma_gpow_mod(l * (n - 1) as nat);
        lemma_gpow_mod(l * n);
        lemma_gpow_mod(l);
        // gf_pow(g^l, n) == g^(l(n-1) mod 255) * g^l
        lemma_gpow_add(((l * (n - 1) as nat) % 255) as nat, l);
        assert(((l * (n - 1) as nat) % 255 + l) % 255 == (l * (n - 1) as nat + l) % 255) by {
            vstd::arithmetic::div_mod::lemma_add_mod_noop((l * (n - 1) as nat) as int, l as int, 255);
            vstd::arithmetic::div_mod::lemma_mod_twice((l * (n - 1) as nat) as int, 255);
            vstd::arithmetic::div_mod::lemma_add_mod_noop(((l * (n - 1) as nat) % 255) as int, l as int, 255);
        }
        lemma_gpow_mod(((l * (n - 1) as nat) % 255 + l) as nat);
    }
}

pub proof fn lemma_pow_zero_base(n: nat)
    ensures
        gf_pow(0, n) == if n == 0 { 1u8 } else { 0u8 },
    decreases n,
{
    if n > 0 {
        lemma_mul_identities(gf_pow(0, (n - 1) as nat));
    }
}

// ---------------------------------------------------------------------------------------------
// The field laws.
/// Zero is the additive identity.
pub proof fn lemma_add_identity(i: u8)
    ensures
        gf_add(i, 0) == i,
        gf_add(0, i) == i,
{
    lemma_xor(i, 0, 0);
}

/// Every element is its own additive inverse; negation is the identity and subtraction
/// coincides with addition.
pub proof fn lemma_add_self_inverse(i: u8, j: u8)
    ensures
        gf_add(i, i) == 0,
        gf_neg(i) == i,
        gf_sub(i, j) == gf_add(i, j),
{
    lemma_xor(i, j, 0);
}

/// Division undoes multiplication by a non-zero factor, on either side.
pub proof fn lemma_div_mul(i: u8, j: u8)
    ensures
        i != 0 ==> gf_div(gf_mul(i, j), i) == j,
        j != 0 ==> gf_div(gf_mul(i, j), j) == i,
{
    if i != 0 {
        lemma_inverse(i);
        lemma_mul_commutative(i, j);
        lemma_mul_associative(j, i, gf_inv(i));
        lemma_mul_identities(j);
    }
    if j != 0 {
        lemma_inverse(j);
        lemma_mul_associative(i, j, gf_inv(j));
        lemma_mul_identities(i);
    }
}

/// The powers `3^i` for `i` in `1..=255`.
pub open spec fn generator_powers() -> Set<u8> {
    Set::new(|y: u8| exists|i: nat| 1 <= i <= 255 && gf_pow(GENERATOR, i) == y)
}

/// The powers `3^1 .. 3^255` are exactly the non-zero elements.
pub proof fn lemma_generator_span()
    ensures
        generator_powers() == Set::new(|y: u8| 1 <= y <= 255),
{
    assert forall|y: u8| #[trigger] generator_powers().contains(y) <==> 1 <= y <= 255 by {
        if y != 0 {
            lemma_log(y);
            let l = gf_log(y);
            if l == 0 {
                lemma_generator_constants();
                assert(gf_pow(GENERATOR, 255) == y);
            } else {
                assert(1 <= l <= 255 && gf_pow(GENERATOR, l) == y);
            }
        } else {
            if generator_powers().contains(y) {
                let i = choose|i: nat| 1 <= i <= 255 && gf_pow(GENERATOR, i) == y;
                lemma_gpow_nonzero(i);
            }
        }
    }
    assert(generator_powers() =~= Set::new(|y: u8| 1 <= y <= 255));
}

} // verus!
