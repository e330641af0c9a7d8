//! The two cooperating gadgets: mixed-radix decomposition with in-circuit
//! Horner recomposition, and table-driven digit substitution with the carried
//! boundary-comparison flag.

use vstd::arithmetic::div_mod::{
    lemma_div_nonincreasing, lemma_fundamental_div_mod, lemma_mod_bound, lemma_mod_decreases,
    lemma_mul_mod_noop_right, lemma_small_mod,
};
use vstd::arithmetic::mul::lemma_mul_is_associative;
use vstd::prelude::*;

use crate::composer::{table_contains, StandardComposer, Variable};
use crate::field::{
    lemma_mont_cancel, limb_base, mont_r, p_modulus, scalar_mul, u256_rem, u256_sub, val4,
};
use crate::scan::scan_step;

verus! {

/// The radices as mathematical values, least significant position first.
pub open spec fn radix_seq(radices: [u64; 26]) -> Seq<nat> {
    radices@.map_values(|r: u64| r as nat)
}

/// The canonical values of the 27 digit wires, least significant first.
pub open spec fn digit_values(c: StandardComposer, nibbles: [Variable; 27]) -> Seq<nat> {
    Seq::new(27, |k: int| c.val_of(nibbles@[k]))
}

/// The value a digit string denotes: `d[0] + s[0] * (d[1] + s[1] * (...))`,
/// one more digit than there are radices.
pub open spec fn horner(d: Seq<nat>, s: Seq<nat>) -> nat
    recommends
        d.len() == s.len() + 1,
    decreases d.len(),
{
    if d.len() == 0 {
        0
    } else if d.len() == 1 {
        d[0]
    } else {
        d[0] + s[0] * horner(d.drop_first(), s.drop_first())
    }
}

/// The product of a string of radices.
pub open spec fn radix_product(s: Seq<nat>) -> nat
    decreases s.len(),
{
    if s.len() == 0 {
        1
    } else {
        s[0] * radix_product(s.drop_first())
    }
}

/// A string of quotients and remainders under a radix chain: `iv` holds the
/// running value before each position, `d` the digits it leaves behind.
pub open spec fn quotient_chain(iv: Seq<nat>, d: Seq<nat>, s: Seq<nat>) -> bool {
    &&& iv.len() == s.len() + 1
    &&& d.len() == s.len() + 1
    &&& forall|k: int|
        #![trigger iv[k + 1]]
        #![trigger d[k]]
        0 <= k < s.len() ==> iv[k + 1] == iv[k] / s[k] && d[k] == iv[k] % s[k] && s[k] > 0
    &&& d[s.len() as int] == iv[s.len() as int]
}

/// Horner recomposition undoes a quotient chain: from any position on, the
/// digits it left behind denote exactly the running value at that position.
pub proof fn lemma_horner_of_chain(iv: Seq<nat>, d: Seq<nat>, s: Seq<nat>, j: int)
    requires
        quotient_chain(iv, d, s),
        0 <= j <= s.len(),
    ensures
        horner(d.skip(j), s.skip(j)) == iv[j],
    decreases s.len() - j,
{
    if j == s.len() {
        assert(d.skip(j).len() == 1);
        assert(d.skip(j)[0] == d[j]);
    } else {
        lemma_horner_of_chain(iv, d, s, j + 1);
        assert(d.skip(j).drop_first() =~= d.skip(j + 1));
        assert(s.skip(j).drop_first() =~= s.skip(j + 1));
        assert(d.skip(j)[0] == d[j]);
        assert(s.skip(j)[0] == s[j]);
        lemma_fundamental_div_mod(iv[j] as int, s[j] as int);
        lemma_mod_bound(iv[j] as int, s[j] as int);
    }
}

/// Appending a radix multiplies the product by it.
proof fn lemma_radix_product_snoc(s: Seq<nat>, v: nat)
    ensures
        radix_product(s.push(v)) == radix_product(s) * v,
    decreases s.len(),
{
    if s.len() == 0 {
        assert(s.push(v).drop_first() =~= s);
        assert(s.push(v)[0] == v);
        assert(radix_product(s.push(v)) == v * 1);
        assert(v * 1 == 1 * v) by (nonlinear_arith);
    } else {
        assert(s.push(v).drop_first() =~= s.drop_first().push(v));
        assert(s.push(v)[0] == s[0]);
        lemma_radix_product_snoc(s.drop_first(), v);
        lemma_mul_is_associative(
            s[0] as int,
            radix_product(s.drop_first()) as int,
            v as int,
        );
    }
}

/// The running value at each position, weighted by the radices already
/// consumed, never exceeds the value decomposed.
pub proof fn lemma_chain_weight(iv: Seq<nat>, d: Seq<nat>, s: Seq<nat>, j: int)
    requires
        quotient_chain(iv, d, s),
        0 <= j <= s.len(),
    ensures
        iv[j] * radix_product(s.take(j)) <= iv[0],
    decreases j,
{
    if j == 0 {
        assert(s.take(0).len() == 0);
        assert(iv[0] * 1 == iv[0]) by (nonlinear_arith);
    } else {
        lemma_chain_weight(iv, d, s, j - 1);
        let w = radix_product(s.take(j - 1));
        let sk = s[j - 1];
        assert(s.take(j) =~= s.take(j - 1).push(sk));
        lemma_radix_product_snoc(s.take(j - 1), sk);
        lemma_fundamental_div_mod(iv[j - 1] as int, sk as int);
        lemma_mod_bound(iv[j - 1] as int, sk as int);
        assert(iv[j] * sk <= iv[j - 1]) by (nonlinear_arith)
            requires
                iv[j] == iv[j - 1] / sk,
                sk > 0,
                sk * (iv[j - 1] as int / sk as int) + iv[j - 1] % sk == iv[j - 1],
                iv[j - 1] % sk >= 0,
        ;
        assert(iv[j] * (w * sk) <= iv[0]) by (nonlinear_arith)
            requires
                iv[j] * sk <= iv[j - 1],
                iv[j - 1] * w <= iv[0],
                w >= 0,
                iv[j] >= 0,
        ;
    }
}

/// The exact-division step: multiplying the remainder-subtracted value by
/// the transformed inverse of the radix recovers the integer quotient itself,
/// because that quotient is below the modulus, so no wraparound occurs.
proof fn lemma_exact_quotient(q: nat, s: nat, inv: nat, m: nat)
    requires
        q < p_modulus(),
        m < p_modulus(),
        s > 0,
        (inv * s) % p_modulus() == mont_r(),
        (m * mont_r()) % p_modulus() == ((q * s) * inv) % p_modulus(),
    ensures
        m == q,
{
    let p = p_modulus() as int;
    assert((q as int * s as int) * inv as int == q as int * (inv as int * s as int))
        by (nonlinear_arith);
    lemma_mul_mod_noop_right(q as int, inv as int * s as int, p);
    lemma_mont_cancel(m, q);
}

impl StandardComposer {
    /// The bar decomposition: convert the element on wire `x` into its
    /// 27-digit mixed-radix form, allocate one wire per digit, and add the
    /// Horner recomposition gates that tie the digits back to `x`'s value.
    ///
    /// The wire holds its element in transformed form; the digit arithmetic
    /// runs on the canonical integer.  At each position, the integer
    /// remainder by the radix leaves an exactly divisible value, and one
    /// field multiplication by the radix's transformed inverse recovers the
    /// integer quotient: the quotient is below the modulus, so the
    /// multiplication cannot wrap.
    ///
    /// `radices` are the 26 radices, least significant position first;
    /// `inverses` their transformed modular inverses; `s_i_decomposition`
    /// wires already holding the radices (a 27th entry is accepted and
    /// ignored, as the callers' fixed-width tables carry one).  Entry 0 of
    /// the result is the least significant digit in positional weight.
    #[verifier::rlimit(100)]
    #[verifier::spinoff_prover]
    pub fn decomposition_gadget(
        &mut self,
        x: Variable,
        s_i_decomposition: [Variable; 27],
        radices: &[u64; 26],
        inverses: &[[u64; 4]; 26],
    ) -> (nibbles: [Variable; 27])
        requires
            old(self).wf(),
            old(self).is_var(x),
            forall|k: int| 0 <= k < 26 ==> old(self).is_var(#[trigger] s_i_decomposition@[k]),
            forall|k: int|
                0 <= k < 26 ==> old(self).val_of(#[trigger] s_i_decomposition@[k])
                    == radices@[k] as nat,
            forall|k: int| 0 <= k < 26 ==> 0 < #[trigger] radices@[k],
            forall|k: int| 0 <= k < 26 ==> val4(#[trigger] inverses@[k]) < p_modulus(),
            forall|k: int|
                0 <= k < 26 ==> (val4(#[trigger] inverses@[k]) * radices@[k] as nat)
                    % p_modulus() == mont_r(),
        ensures
            final(self).wf(),
            final(self).zero_wire() == old(self).zero_wire(),
            final(self).table_view() == old(self).table_view(),
            final(self).is_satisfied() == old(self).is_satisfied(),
            old(self).values().is_prefix_of(final(self).values()),
            forall|k: int| 0 <= k < 27 ==> final(self).is_var(#[trigger] nibbles@[k]),
            forall|k: int|
                0 <= k < 26 ==> digit_values(*final(self), nibbles)[k] < radix_seq(*radices)[k],
            horner(digit_values(*final(self), nibbles), radix_seq(*radices)) == old(self).val_of(
                x,
            ),
            digit_values(*final(self), nibbles)[26] * radix_product(radix_seq(*radices)) <= old(
                self,
            ).val_of(x),
    {
        let ghost x0 = self.val_of(x);
        let ghost rads = radix_seq(*radices);
        let ghost old_len = self.values().len() as int;
        proof {
            self.lemma_wf_values();
            assert(forall|j: int| 0 <= j < 26 ==> rads[j] == (#[trigger] radices@[j]) as nat);
        }
        let x_limbs = self.canonical_value_of(x);
        let mut v_limbs = x_limbs;
        let mut nibbles: [Variable; 27] = [x; 27];
        let ghost mut iv: Seq<nat> = seq![x0];
        let mut k: usize = 0;
        while k < 26
            invariant
                self.wf(),
                self.zero_wire() == old(self).zero_wire(),
                self.table_view() == old(self).table_view(),
                self.is_satisfied() == old(self).is_satisfied(),
                k <= 26,
                x0 < p_modulus(),
                rads == radix_seq(*radices),
                forall|j: int| 0 <= j < 26 ==> 0 < #[trigger] radices@[j],
                forall|j: int| 0 <= j < 26 ==> rads[j] == (#[trigger] radices@[j]) as nat,
                forall|j: int| 0 <= j < 26 ==> val4(#[trigger] inverses@[j]) < p_modulus(),
                forall|j: int|
                    0 <= j < 26 ==> (val4(#[trigger] inverses@[j]) * radices@[j] as nat)
                        % p_modulus() == mont_r(),
                old_len == old(self).values().len(),
                self.values().len() == old_len + k,
                forall|i: int|
                    0 <= i < old_len ==> #[trigger] self.values()[i] == old(self).values()[i],
                iv.len() == k + 1,
                iv[0] == x0,
                forall|j: int| 0 <= j <= k ==> #[trigger] iv[j] <= x0,
                forall|j: int|
                    0 <= j < k ==> (#[trigger] iv[j + 1]) == iv[j] / rads[j]
                        && self.values()[old_len + j] == iv[j] % rads[j],
                val4(v_limbs) == iv[k as int],
                forall|j: int| 0 <= j < k ==> (#[trigger] nibbles@[j]).0 == old_len + j,
            decreases 26 - k,
        {
            let s_limb: [u64; 4] = [radices[k], 0u64, 0u64, 0u64];
            proof {
                assert(val4(s_limb) == radices@[k as int] as nat);
            }
            let r_limbs = u256_rem(v_limbs, s_limb);
            proof {
                lemma_mod_decreases(val4(v_limbs), val4(s_limb));
            }
            let diff = u256_sub(v_limbs, r_limbs);
            let ghost vk = iv[k as int];
            let ghost sk = rads[k as int];
            let ghost qk = vk / sk;
            proof {
                lemma_fundamental_div_mod(vk as int, sk as int);
                lemma_mod_bound(vk as int, sk as int);
                lemma_div_nonincreasing(vk as int, sk as int);
                assert(val4(diff) == sk * qk);
            }
            let q_mont = scalar_mul(diff, inverses[k]);
            proof {
                let invk = val4(inverses@[k as int]);
                assert((sk * qk) * invk == (qk * sk) * invk) by (nonlinear_arith);
                lemma_exact_quotient(qk, sk, invk, val4(q_mont));
            }
            v_limbs = q_mont;
            proof {
                assert(val4(r_limbs) == vk % sk);
                assert(val4(r_limbs) < p_modulus());
            }
            let n = self.add_input(r_limbs);
            nibbles[k] = n;
            proof {
                iv = iv.push(qk);
                assert(self.values()[old_len + k] == vk % sk);
                assert(iv[k + 1] == qk);
            }
            k = k + 1;
        }
        let ghost pre_vals = self.values();
        let n_last = self.add_input(v_limbs);
        nibbles[26] = n_last;
        let ghost ds = self.values().skip(old_len);
        proof {
            assert(self.values() == pre_vals.push(val4(v_limbs)));
            assert forall|i2: int|
                0 <= i2 < old_len + 26 implies #[trigger] self.values()[i2] == pre_vals[i2] by {
                assert(pre_vals.push(val4(v_limbs))[i2] == pre_vals[i2]);
            }
            assert(forall|i: int| 0 <= i < 27 ==> #[trigger] ds[i] == self.values()[old_len + i]);
            assert(ds[26] == iv[26]);
            assert(iv.len() == 27);
            assert(ds.len() == 27);
            assert(rads.len() == 26);
            assert forall|k2: int|
                0 <= k2 < 26 implies (#[trigger] iv[k2 + 1]) == iv[k2] / rads[k2] && ds[k2]
                == iv[k2] % rads[k2] && rads[k2] > 0 by {
                assert(iv[k2 + 1] <= x0);
                assert(self.values()[old_len + k2] == pre_vals[old_len + k2]);
                assert(pre_vals[old_len + k2] == iv[k2] % rads[k2]);
                assert(ds[k2] == self.values()[old_len + k2]);
            }
            assert(quotient_chain(iv, ds, rads));
            lemma_horner_of_chain(iv, ds, rads, 0);
            assert(ds.skip(0) =~= ds);
            assert(rads.skip(0) =~= rads);
            lemma_chain_weight(iv, ds, rads, 26);
            assert(rads.take(26) =~= rads);
            assert(ds =~= self.values().subrange(old_len, old_len + 27));
            assert forall|i: int| 0 <= i < 26 implies (#[trigger] s_i_decomposition@[i]).0
                < old_len && self.val_of(s_i_decomposition@[i]) == radices@[i] as nat by {
                assert(old(self).is_var(s_i_decomposition@[i]));
            }
        }
        // In-circuit recomposition: fused multiply-add gates walk the digits
        // from the most significant end back down, and one equality gate ties
        // the final accumulator to the input's value.
        let ghost pre_acc_vals = self.values();
        let ghost acc_push = (iv[26] * rads[25] + ds[25]) % p_modulus();
        let mut acc = self.big_mul(nibbles[26], s_i_decomposition[25], nibbles[25]);
        proof {
            assert(self.values() == pre_acc_vals.push(acc_push));
            assert forall|i2: int|
                0 <= i2 < old_len + 27 implies #[trigger] self.values()[i2]
                == pre_acc_vals[i2] by {
                assert(pre_acc_vals.push(acc_push)[i2] == pre_acc_vals[i2]);
            }
            assert(ds =~= self.values().subrange(old_len, old_len + 27));
            lemma_fundamental_div_mod(iv[25] as int, rads[25] as int);
            lemma_small_mod(iv[25], p_modulus());
            assert(iv[26] == iv[25] / rads[25] && ds[25] == iv[25] % rads[25]);
            assert(iv[25] == rads[25] * iv[26] + ds[25]);
            assert(pre_acc_vals[old_len + 26] == ds[26]);
            assert(self.val_of(acc) == acc_push);
            assert(iv[26] * rads[25] + ds[25] == iv[25]) by (nonlinear_arith)
                requires
                    iv[25] == rads[25] * iv[26] + ds[25],
            ;
            assert(self.val_of(acc) == iv[25]);
        }
        let mut j: usize = 1;
        while j < 26
            invariant
                1 <= j <= 26,
                self.wf(),
                self.zero_wire() == old(self).zero_wire(),
                self.table_view() == old(self).table_view(),
                self.is_satisfied() == old(self).is_satisfied(),
                old_len == old(self).values().len(),
                forall|i: int|
                    0 <= i < old_len ==> #[trigger] self.values()[i] == old(self).values()[i],
                self.values().len() >= old_len + 27,
                ds == self.values().subrange(old_len, old_len + 27),
                forall|i: int| 0 <= i < 26 ==> 0 < #[trigger] radices@[i],
                forall|i: int| 0 <= i < 26 ==> (#[trigger] s_i_decomposition@[i]).0 < old_len,
                forall|i: int|
                    0 <= i < 26 ==> self.val_of(#[trigger] s_i_decomposition@[i])
                        == radices@[i] as nat,
                forall|i: int| 0 <= i < 27 ==> (#[trigger] nibbles@[i]).0 == old_len + i,
                rads == radix_seq(*radices),
                forall|i: int| 0 <= i < 26 ==> rads[i] == (#[trigger] radices@[i]) as nat,
                quotient_chain(iv, ds, rads),
                iv[0] == x0,
                forall|i: int| 0 <= i <= 26 ==> #[trigger] iv[i] <= x0,
                x0 < p_modulus(),
                self.is_var(acc),
                self.val_of(acc) == iv[26 - j],
            decreases 26 - j,
        {
            let ghost i = 25 - j as int;
            let ghost pre_step_vals = self.values();
            let ghost step_push = (iv[26 - j] * rads[i] + ds[i]) % p_modulus();
            proof {
                assert(self.val_of(nibbles@[i]) == ds[i]);
                assert(self.val_of(s_i_decomposition@[i]) == radices@[i] as nat);
                assert(rads[i] == radices@[i] as nat);
            }
            acc = self.big_mul(acc, s_i_decomposition[25 - j], nibbles[25 - j]);
            proof {
                assert(self.values() == pre_step_vals.push(step_push));
                assert forall|i2: int|
                    0 <= i2 < pre_step_vals.len() implies #[trigger] self.values()[i2]
                    == pre_step_vals[i2] by {
                    assert(pre_step_vals.push(step_push)[i2] == pre_step_vals[i2]);
                }
                lemma_fundamental_div_mod(iv[i] as int, rads[i] as int);
                lemma_small_mod(iv[i], p_modulus());
                assert(ds =~= self.values().subrange(old_len, old_len + 27));
                assert(iv[i + 1] == iv[i] / rads[i] && ds[i] == iv[i] % rads[i]);
                assert(iv[i] == rads[i] * iv[i + 1] + ds[i]);
                assert(acc.0 == pre_step_vals.len());
                assert(pre_step_vals.push(step_push)[pre_step_vals.len() as int] == step_push);
                assert(self.val_of(acc) == step_push);
                assert(iv[26 - j] == iv[i + 1]);
                assert(iv[26 - j] * rads[i] + ds[i] == iv[i]) by (nonlinear_arith)
                    requires
                        iv[26 - j] == iv[i + 1],
                        iv[i] == rads[i] * iv[i + 1] + ds[i],
                ;
                assert(self.val_of(acc) == iv[i]);
            }
            j = j + 1;
        }
        proof {
            assert(self.val_of(acc) == x0);
            assert(val4(x_limbs) == x0);
        }
        self.constrain_to_constant(acc, x_limbs);
        proof {
            assert(old(self).values() =~= final(self).values().subrange(0, old_len));
            assert(digit_values(*final(self), nibbles) =~= ds);
            assert forall|k2: int|
                0 <= k2 < 26 implies digit_values(*final(self), nibbles)[k2] < radix_seq(
                *radices,
            )[k2] by {
                assert(iv[k2 + 1] <= x0);
                assert(ds[k2] == iv[k2] % rads[k2]);
                lemma_mod_bound(iv[k2] as int, rads[k2] as int);
            }
        }
        nibbles
    }

    /// The digit substitution: apply the lookup table to one digit wire, or
    /// pass the digit through where it lies outside the table's domain, and
    /// thread the boundary-comparison flag.
    ///
    /// `counter` is the 1-based position, decreasing from 27 as the caller
    /// walks from the most significant digit to the least; the digit is
    /// compared against the modulus's own digit `reference_digits[27 -
    /// counter]`.  `sbox` is the substitution table over `[0,
    /// sbox.len())`; `one` and `two` are wires carrying the selector tag
    /// encodings.  The returned tuple is the output wire, the selector wire,
    /// the updated flag, and the passthrough marker wire; a 4-wire lookup
    /// gate binding the digit, the position-scaled marker, the output and
    /// the selector is added, and its row must be in the registered table
    /// for the system to stay satisfied.
    pub fn s_box_and_constraints(
        &mut self,
        input: Variable,
        counter: u64,
        conditional: bool,
        one: Variable,
        two: Variable,
        sbox: &Vec<u64>,
        reference_digits: &[u64; 27],
    ) -> (res: (Variable, Variable, bool, Variable))
        requires
            old(self).wf(),
            old(self).is_var(input),
            old(self).is_var(one),
            old(self).is_var(two),
            1 <= counter <= 27,
        ensures
            final(self).wf(),
            final(self).zero_wire() == old(self).zero_wire(),
            final(self).table_view() == old(self).table_view(),
            old(self).values().is_prefix_of(final(self).values()),
            final(self).is_var(res.0),
            final(self).is_var(res.1),
            final(self).is_var(res.3),
            res.2 == scan_step(
                conditional,
                old(self).val_of(input),
                reference_digits@[27 - counter as int] as nat,
                sbox@.len() as nat,
            ),
            old(self).val_of(input) < sbox@.len() ==> final(self).val_of(res.0) == sbox@[old(
                self,
            ).val_of(input) as int] as nat && res.1 == one && res.3 == old(self).zero_wire(),
            old(self).val_of(input) >= sbox@.len() ==> res.0 == input && res.3 == one && ({
                let rd = reference_digits@[27 - counter as int] as nat;
                &&& (old(self).val_of(input) > rd ==> res.1 == two)
                &&& (old(self).val_of(input) == rd && conditional ==> res.1 == two)
                &&& (old(self).val_of(input) == rd && !conditional ==> res.1 == old(
                    self,
                ).zero_wire())
                &&& (old(self).val_of(input) < rd ==> res.1 == one)
            }),
            final(self).is_satisfied() == (old(self).is_satisfied() && table_contains(
                old(self).table_view(),
                old(self).val_of(input),
                (counter as nat * final(self).val_of(res.3)) % p_modulus(),
                final(self).val_of(res.0),
                final(self).val_of(res.1),
            )),
    {
        let ghost cv = self.val_of(input);
        proof {
            self.lemma_wf_values();
            self.lemma_wf_zero();
        }
        // The comparisons below need the digit's canonical integer form.
        let value = self.canonical_value_of(input);
        let high_zero = value[1] == 0 && value[2] == 0 && value[3] == 0;
        proof {
            if high_zero {
                assert(cv == value@[0] as nat);
            } else {
                assert(cv >= limb_base());
            }
        }
        let mut y_i = input;
        let mut c_i = one;
        let mut conditional_new = conditional;
        let mut z_i = self.zero_var();
        let tl: usize = sbox.len();
        if high_zero && value[0] < (tl as u64) {
            let idx = value[0] as usize;
            let sub: u64 = sbox[idx];
            proof {
                assert(val4([sub, 0u64, 0u64, 0u64]) == sub as nat);
            }
            y_i = self.add_input([sub, 0u64, 0u64, 0u64]);
            conditional_new = true;
        } else {
            proof {
                if !high_zero {
                    assert(sbox@.len() < limb_base());
                }
                assert(cv >= sbox@.len());
            }
            y_i = input;
            z_i = one;
            let idx27: usize = (27 - counter) as usize;
            let rd = reference_digits[idx27];
            let ghost rdv = rd as nat;
            if !high_zero || value[0] > rd {
                proof {
                    assert(cv > rdv);
                }
                c_i = two;
                conditional_new = true;
            } else if value[0] == rd {
                if conditional {
                    c_i = two;
                    conditional_new = true;
                } else {
                    c_i = self.zero_var();
                    conditional_new = false;
                }
            } else {
                proof {
                    assert(cv < rdv);
                }
                c_i = one;
                conditional_new = conditional;
            }
        }
        let scaled_z_i = self.scaled_witness(counter, z_i);
        self.plookup_gate(input, scaled_z_i, y_i, c_i);
        proof {
            assert(old(self).values() =~= final(self).values().subrange(
                0,
                old(self).values().len() as int,
            ));
        }
        (y_i, c_i, conditional_new, z_i)
    }
}

} // verus!
