//! The scalar field of BLS12-381, seen through four 64-bit limbs.
//!
//! A field element travels in its *transformed* (Montgomery) encoding, the
//! form the arithmetic backend multiplies fastest in: the limbs of the
//! encoding of a canonical value `c < p` hold `c * 2^256 mod p`.  All limb
//! arithmetic is done by the outside crates `dusk_bls12_381` and `bigint`
//! behind the trusted wrappers below; everything said about them is said
//! over the plain integer value of the four limbs.

use vstd::arithmetic::div_mod::{
    lemma_add_mod_noop, lemma_mod_bound, lemma_mul_mod_noop, lemma_mul_mod_noop_left,
    lemma_mul_mod_noop_right, lemma_small_mod,
};
use vstd::arithmetic::mul::lemma_mul_is_associative;
use vstd::prelude::*;

use bigint::U256;
use dusk_bls12_381::BlsScalar;

verus! {

/// The weight of one limb: 2^64.
pub open spec fn limb_base() -> nat {
    0x1_0000_0000_0000_0000
}

/// The integer held by four little-endian 64-bit limbs.
pub open spec fn val4(l: [u64; 4]) -> nat {
    l@[0] as nat + limb_base() * (l@[1] as nat + limb_base() * (l@[2] as nat + limb_base()
        * l@[3] as nat))
}

/// The integer with the given four little-endian 64-bit limbs.
pub open spec fn from_limbs(l0: u64, l1: u64, l2: u64, l3: u64) -> nat {
    l0 as nat + limb_base() * (l1 as nat + limb_base() * (l2 as nat + limb_base() * l3 as nat))
}

/// The BLS12-381 scalar field modulus
/// p = 0x73eda753299d7d483339d80809a1d80553bda402fffe5bfeffffffff00000001.
pub open spec fn p_modulus() -> nat {
    from_limbs(
        0xffffffff_00000001,
        0x53bda402_fffe5bfe,
        0x3339d808_09a1d805,
        0x73eda753_299d7d48,
    )
}

/// The Montgomery radix reduced into the field: 2^256 mod p.
pub open spec fn mont_r() -> nat {
    from_limbs(
        0x00000001_fffffffe,
        0x5884b7fa_00034802,
        0x998c4fef_ecbc4ff5,
        0x1824b159_acc5056f,
    )
}

/// The inverse of the Montgomery radix: mont_r() * mont_r_inv() == 1 (mod p).
pub open spec fn mont_r_inv() -> nat {
    from_limbs(
        0x13f75b69_fe75c040,
        0xab6fca8f_09dc705f,
        0x7204078a_4f77266a,
        0x1bbe8693_30009d57,
    )
}

/// The limbs `m` are the transformed encoding of the canonical value `c`.
pub open spec fn encodes(m: [u64; 4], c: nat) -> bool {
    c < p_modulus() && val4(m) == (c * mont_r()) % p_modulus()
}

/// Relies on dusk_bls12_381::BlsScalar::reduce: a Montgomery reduction of the
/// limbs, returning the fully reduced value congruent to `a * 2^-256 mod p`.
#[verifier::external_body]
pub fn scalar_reduce(a: [u64; 4]) -> (r: [u64; 4])
    ensures
        val4(r) < p_modulus(),
        (val4(r) * mont_r()) % p_modulus() == val4(a) % p_modulus(),
{
    BlsScalar(a).reduce().0
}

/// Relies on dusk_bls12_381::BlsScalar::from_raw: multiplies the limbs by
/// 2^256 in the field and reduces fully, producing the transformed encoding.
#[verifier::external_body]
pub fn scalar_from_raw(a: [u64; 4]) -> (r: [u64; 4])
    ensures
        val4(r) < p_modulus(),
        val4(r) == (val4(a) * mont_r()) % p_modulus(),
{
    BlsScalar::from_raw(a).0
}

/// Relies on Mul for dusk_bls12_381::BlsScalar: a Montgomery product, the
/// fully reduced value congruent to `a * b * 2^-256 mod p`; the bound on the
/// operands keeps the 512-bit intermediate inside the reduction's range.
#[verifier::external_body]
pub fn scalar_mul(a: [u64; 4], b: [u64; 4]) -> (r: [u64; 4])
    requires
        val4(a) < p_modulus(),
        val4(b) < p_modulus(),
    ensures
        val4(r) < p_modulus(),
        (val4(r) * mont_r()) % p_modulus() == (val4(a) * val4(b)) % p_modulus(),
{
    (BlsScalar(a) * BlsScalar(b)).0
}

/// Relies on Add for dusk_bls12_381::BlsScalar: the exact sum mod p, fully
/// reduced, of two fully reduced operands.
#[verifier::external_body]
pub fn scalar_add(a: [u64; 4], b: [u64; 4]) -> (r: [u64; 4])
    requires
        val4(a) < p_modulus(),
        val4(b) < p_modulus(),
    ensures
        val4(r) < p_modulus(),
        val4(r) == (val4(a) + val4(b)) % p_modulus(),
{
    (BlsScalar(a) + BlsScalar(b)).0
}

/// Relies on Rem for bigint::U256: exact 256-bit integer remainder by long
/// division; it asserts that the divisor is nonzero.
#[verifier::external_body]
pub fn u256_rem(a: [u64; 4], b: [u64; 4]) -> (r: [u64; 4])
    requires
        val4(b) > 0,
    ensures
        val4(r) == val4(a) % val4(b),
{
    (U256(a) % U256(b)).0
}

/// Relies on Sub for bigint::U256: exact 256-bit integer subtraction; it
/// panics on underflow, which the bound on the operands rules out.
#[verifier::external_body]
pub fn u256_sub(a: [u64; 4], b: [u64; 4]) -> (r: [u64; 4])
    requires
        val4(b) <= val4(a),
    ensures
        val4(r) == val4(a) - val4(b),
{
    (U256(a) - U256(b)).0
}

/// An encoding is fully reduced: its limbs hold a value below p.
pub proof fn lemma_encodes_bound(m: [u64; 4], c: nat)
    requires
        encodes(m, c),
    ensures
        val4(m) < p_modulus(),
{
    lemma_mod_bound((c * mont_r()) as int, p_modulus() as int);
}

/// A limb and a tail are determined by the value they compose.
proof fn lemma_limb_unique(l0: u64, t1: int, m0: u64, t2: int)
    requires
        t1 >= 0,
        t2 >= 0,
        l0 + limb_base() * t1 == m0 + limb_base() * t2,
    ensures
        l0 == m0,
        t1 == t2,
{
    let b = limb_base() as int;
    let v = l0 + b * t1;
    vstd::arithmetic::div_mod::lemma_fundamental_div_mod_converse(v, b, t1, l0 as int);
    vstd::arithmetic::div_mod::lemma_fundamental_div_mod_converse(v, b, t2, m0 as int);
}

/// Four limbs are determined by the value they hold.
pub proof fn lemma_val4_injective(a: [u64; 4], b: [u64; 4])
    requires
        val4(a) == val4(b),
    ensures
        a@ =~= b@,
{
    let base = limb_base() as int;
    lemma_limb_unique(
        a@[0],
        a@[1] + base * (a@[2] + base * a@[3]),
        b@[0],
        b@[1] + base * (b@[2] + base * b@[3]),
    );
    lemma_limb_unique(a@[1], a@[2] + base * a@[3], b@[1], b@[2] + base * b@[3]);
    lemma_limb_unique(a@[2], a@[3] as int, b@[2], b@[3] as int);
}

/// Limb-wise equality of two fully written values decides equality of the
/// integers they hold.
pub fn limbs_eq(a: &[u64; 4], b: &[u64; 4]) -> (r: bool)
    ensures
        r == (val4(*a) == val4(*b)),
{
    let r = a[0] == b[0] && a[1] == b[1] && a[2] == b[2] && a[3] == b[3];
    proof {
        if !r {
            if val4(*a) == val4(*b) {
                lemma_val4_injective(*a, *b);
            }
        }
    }
    r
}

/// Two canonical values with the same transformed encoding are equal: the
/// Montgomery radix can be cancelled because it is invertible mod p.
pub proof fn lemma_mont_cancel(a: nat, b: nat)
    requires
        a < p_modulus(),
        b < p_modulus(),
        (a * mont_r()) % p_modulus() == (b * mont_r()) % p_modulus(),
    ensures
        a == b,
{
    lemma_mont_r_invertible();
    lemma_mont_unscale(a);
    lemma_mont_unscale(b);
}

/// mont_r_inv() really inverts mont_r() mod p: their product exceeds a
/// multiple of p by exactly one.
proof fn lemma_mont_r_invertible()
    ensures
        (mont_r() * mont_r_inv()) % p_modulus() == 1,
{
    let q: nat = from_limbs(
        0xd811492b_03147f7f,
        0xfcdac6e1_ec457b3f,
        0x34131d02_61169f30,
        0x05c72d8a_77bded8a,
    );
    assert((0x00000001fffffffe + 0x1_0000_0000_0000_0000 * (0x5884b7fa00034802
        + 0x1_0000_0000_0000_0000 * (0x998c4fefecbc4ff5 + 0x1_0000_0000_0000_0000
        * 0x1824b159acc5056f))) * (0x13f75b69fe75c040 + 0x1_0000_0000_0000_0000
        * (0xab6fca8f09dc705f + 0x1_0000_0000_0000_0000 * (0x7204078a4f77266a
        + 0x1_0000_0000_0000_0000 * 0x1bbe869330009d57))) == (0xd811492b03147f7f
        + 0x1_0000_0000_0000_0000 * (0xfcdac6e1ec457b3f + 0x1_0000_0000_0000_0000
        * (0x34131d0261169f30 + 0x1_0000_0000_0000_0000 * 0x05c72d8a77bded8a)))
        * (0xffffffff00000001 + 0x1_0000_0000_0000_0000 * (0x53bda402fffe5bfe
        + 0x1_0000_0000_0000_0000 * (0x3339d80809a1d805 + 0x1_0000_0000_0000_0000
        * 0x73eda753299d7d48))) + 1int) by (nonlinear_arith);
    assert(mont_r() * mont_r_inv() == q * p_modulus() + 1);
    vstd::arithmetic::div_mod::lemma_fundamental_div_mod_converse_mod(
        (mont_r() * mont_r_inv()) as int,
        p_modulus() as int,
        q as int,
        1,
    );
}

/// Multiplying by the radix and then by its inverse gives the value back.
proof fn lemma_mont_unscale(a: nat)
    requires
        a < p_modulus(),
        (mont_r() * mont_r_inv()) % p_modulus() == 1,
    ensures
        ((((a * mont_r()) % p_modulus()) * mont_r_inv()) % p_modulus()) == a,
{
    let p = p_modulus() as int;
    let r = mont_r() as int;
    let ri = mont_r_inv() as int;
    let ai = a as int;
    lemma_mul_mod_noop_left(ai * r, ri, p);
    lemma_mul_is_associative(ai, r, ri);
    lemma_mul_mod_noop_right(ai, r * ri, p);
    lemma_small_mod(a, p_modulus());
}

/// Transformed encodings add like their canonical values.
pub proof fn lemma_encodes_add(m1: [u64; 4], c1: nat, m2: [u64; 4], c2: nat, s: [u64; 4])
    requires
        encodes(m1, c1),
        encodes(m2, c2),
        val4(s) < p_modulus(),
        val4(s) == (val4(m1) + val4(m2)) % p_modulus(),
    ensures
        encodes(s, ((c1 + c2) % p_modulus())),
{
    let p = p_modulus() as int;
    let r = mont_r() as int;
    let a = c1 as int;
    let b = c2 as int;
    lemma_add_mod_noop(a * r, b * r, p);
    assert((a + b) * r == a * r + b * r) by (nonlinear_arith);
    lemma_mul_mod_noop_left(a + b, r, p);
    lemma_mod_bound(a + b, p);
}

/// Transformed encodings multiply, through one Montgomery product, like
/// their canonical values.
pub proof fn lemma_encodes_mul(m1: [u64; 4], c1: nat, m2: [u64; 4], c2: nat, m: [u64; 4])
    requires
        encodes(m1, c1),
        encodes(m2, c2),
        val4(m) < p_modulus(),
        (val4(m) * mont_r()) % p_modulus() == (val4(m1) * val4(m2)) % p_modulus(),
    ensures
        encodes(m, ((c1 * c2) % p_modulus())),
{
    let p = p_modulus() as int;
    let r = mont_r() as int;
    let a = c1 as int;
    let b = c2 as int;
    let c = (c1 * c2) % p_modulus();
    assert((val4(m1) as int * val4(m2) as int) % p == ((c as int * r) % p * r) % p) by {
        lemma_mul_mod_noop(a * r, b * r, p);
        assert((a * r) * (b * r) == ((a * b) * r) * r) by (nonlinear_arith);
        lemma_mul_mod_noop_left((a * b) * r, r, p);
        lemma_mul_mod_noop_left(a * b, r, p);
        lemma_mul_mod_noop_left(c as int * r, r, p);
    }
    lemma_mod_bound(c as int * r, p);
    lemma_mont_cancel(val4(m), ((c * mont_r()) % p_modulus()));
}

} // verus!
