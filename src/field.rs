//! Limb-level modular arithmetic gadgets: each `populate` computes a result
//! modulo `p` together with the witness that the constraint identity needs.
use vstd::prelude::*;
use vstd::arithmetic::div_mod::{
    lemma_fundamental_div_mod, lemma_mod_add_multiples_vanish, lemma_mul_mod_noop_left,
    lemma_mul_mod_noop_right, lemma_small_mod,
};
use vstd::arithmetic::mul::lemma_mul_is_associative;
use crate::bigint::{
    big_add, big_div, big_modinv, big_mul, big_rem, big_sub, invertible_mod,
};
use crate::words::{is_normalized, words_value};

verus! {

#[derive(Clone, Copy, Debug, PartialEq, Eq, Structural)]
pub enum FpOperation {
    Add,
    Sub,
    Mul,
}

/// `a op b` reduced modulo `p`.
pub open spec fn fp_op_spec(a: nat, b: nat, op: FpOperation, p: nat) -> nat {
    match op {
        FpOperation::Add => (a + b) % p,
        FpOperation::Sub => ((a - b) % (p as int)) as nat,
        FpOperation::Mul => (a * b) % p,
    }
}

/// The identity that ties the inputs, the result `c` and the witness `k`
/// of an operation together, without any reduction.
pub open spec fn fp_op_identity(a: nat, b: nat, c: nat, k: nat, op: FpOperation, p: nat) -> bool {
    match op {
        FpOperation::Add => a + b == c + k * p,
        FpOperation::Sub => a + p == b + c + k * p,
        FpOperation::Mul => a * b == c + k * p,
    }
}

/// The populated values of one modular operation.
pub struct FpOpWitness {
    /// The result, reduced modulo `p`.
    pub result: Vec<u32>,
    /// The multiple of `p` taken off.
    pub carry: Vec<u32>,
}

/// A field element modulo the modulus that `m` denotes.
pub open spec fn is_reduced(a: Seq<u32>, m: Seq<u32>) -> bool {
    words_value(a) < words_value(m)
}

proof fn lemma_div_mod_split(s: nat, p: nat)
    requires
        p > 0,
    ensures
        s == s % p + (s / p) * p,
        s % p < p,
{
    lemma_fundamental_div_mod(s as int, p as int);
    assert((s / p) * p == p * (s / p)) by (nonlinear_arith);
}

/// Splits `s` into its remainder and quotient by `m`.
fn split_mod(s: &Vec<u32>, m: &Vec<u32>) -> (r: FpOpWitness)
    requires
        words_value(m@) > 0,
    ensures
        words_value(r.result@) == words_value(s@) % words_value(m@),
        words_value(s@) == words_value(r.result@) + words_value(r.carry@) * words_value(m@),
        is_normalized(r.result@),
        is_normalized(r.carry@),
{
    let result = big_rem(s, m);
    let carry = big_div(s, m);
    proof {
        lemma_div_mod_split(words_value(s@), words_value(m@));
    }
    FpOpWitness { result, carry }
}

impl FpOpWitness {
    /// Computes `a op b` modulo `m` with the carry that makes the
    /// operation's identity hold exactly.
    pub fn populate(a: &Vec<u32>, b: &Vec<u32>, op: FpOperation, m: &Vec<u32>) -> (r: FpOpWitness)
        requires
            words_value(m@) > 0,
            is_reduced(a@, m@),
            is_reduced(b@, m@),
        ensures
            words_value(r.result@) == fp_op_spec(words_value(a@), words_value(b@), op, words_value(m@)),
            is_reduced(r.result@, m@),
            is_normalized(r.result@),
            is_normalized(r.carry@),
            fp_op_identity(
                words_value(a@),
                words_value(b@),
                words_value(r.result@),
                words_value(r.carry@),
                op,
                words_value(m@),
            ),
    {
        let ghost (va, vb, p) = (words_value(a@), words_value(b@), words_value(m@));
        match op {
            FpOperation::Add => {
                let s = big_add(a, b);
                split_mod(&s, m)
            },
            FpOperation::Mul => {
                let s = big_mul(a, b);
                split_mod(&s, m)
            },
            FpOperation::Sub => {
                let t = big_add(a, m);
                let s = big_sub(&t, b);
                let r = split_mod(&s, m);
                proof {
                    lemma_mod_add_multiples_vanish(va - vb, p as int);
                    assert(va + p - vb == (va - vb) + p);
                }
                r
            },
        }
    }
}

/// `sum_{i < n} a_i * b_i` over the values of the word vectors.
pub open spec fn inner_product(a: Seq<Vec<u32>>, b: Seq<Vec<u32>>, n: nat) -> nat
    decreases n,
{
    if n == 0 {
        0
    } else {
        inner_product(a, b, (n - 1) as nat) + words_value(a[n - 1]@) * words_value(b[n - 1]@)
    }
}

impl FpOpWitness {
    /// Computes `sum_i a_i * b_i` modulo `m`, with the carry that makes
    /// `sum_i a_i * b_i == result + carry * m` hold exactly.
    pub fn populate_inner_product(a: &Vec<Vec<u32>>, b: &Vec<Vec<u32>>, m: &Vec<u32>) -> (r: FpOpWitness)
        requires
            words_value(m@) > 0,
            a@.len() == b@.len(),
            forall|i: int| 0 <= i < a@.len() ==> is_reduced(#[trigger] a@[i]@, m@),
            forall|i: int| 0 <= i < b@.len() ==> is_reduced(#[trigger] b@[i]@, m@),
        ensures
            words_value(r.result@) == inner_product(a@, b@, a@.len() as nat) % words_value(m@),
            is_reduced(r.result@, m@),
            is_normalized(r.result@),
            is_normalized(r.carry@),
            inner_product(a@, b@, a@.len() as nat)
                == words_value(r.result@) + words_value(r.carry@) * words_value(m@),
    {
        let mut s: Vec<u32> = Vec::new();
        let mut i: usize = 0;
        while i < a.len()
            invariant
                a@.len() == b@.len(),
                i <= a@.len(),
                words_value(s@) == inner_product(a@, b@, i as nat),
            decreases a@.len() - i,
        {
            let t = big_mul(&a[i], &b[i]);
            s = big_add(&s, &t);
            i = i + 1;
        }
        split_mod(&s, m)
    }
}

/// `1 + b` when `sign` holds, `1 - b` otherwise, reduced modulo `p`.
pub open spec fn den_spec(b: nat, sign: bool, p: nat) -> nat {
    if sign {
        (1 + b) % p
    } else {
        ((1 - b) % (p as int)) as nat
    }
}

#[derive(Clone, Copy, Debug, PartialEq, Eq, Structural)]
pub enum FieldError {
    /// A modular inverse that the computation needs does not exist.
    NotInvertible,
}

impl FpOpWitness {
    /// Computes `a / (1 + b)` (`sign`) or `a / (1 - b)` (`!sign`) modulo `m`:
    /// the `r` in `[0, m)` with `r * (1 ± b) ≡ a`, and the carry `k` with
    /// `r * (1 ± b) == a + k * m` (`1 ± b` reduced). Fails exactly when
    /// `1 ± b` has no inverse modulo `m`.
    pub fn populate_den(a: &Vec<u32>, b: &Vec<u32>, sign: bool, m: &Vec<u32>) -> (r: Result<FpOpWitness, FieldError>)
        requires
            words_value(m@) > 1,
            is_reduced(a@, m@),
            is_reduced(b@, m@),
        ensures
            match r {
                Ok(w) => {
                    &&& is_reduced(w.result@, m@)
                    &&& is_normalized(w.result@)
                    &&& is_normalized(w.carry@)
                    &&& (words_value(w.result@) * den_spec(words_value(b@), sign, words_value(m@)))
                        % words_value(m@) == words_value(a@) % words_value(m@)
                    &&& words_value(w.result@) * den_spec(words_value(b@), sign, words_value(m@))
                        == words_value(a@) + words_value(w.carry@) * words_value(m@)
                },
                Err(e) => e == FieldError::NotInvertible
                    && !invertible_mod(den_spec(words_value(b@), sign, words_value(m@)), words_value(m@)),
            },
            r is Err <==> !invertible_mod(den_spec(words_value(b@), sign, words_value(m@)), words_value(m@)),
    {
        let ghost (va, vb, p) = (words_value(a@), words_value(b@), words_value(m@));
        let one: Vec<u32> = vec![1u32];
        proof {
            reveal_with_fuel(words_value, 2);
            assert(one@.drop_last() =~= Seq::<u32>::empty());
            assert(words_value(one@) == 1);
        }
        let den = if sign {
            let t = big_add(&one, b);
            let r = big_rem(&t, m);
            assert(words_value(r@) == den_spec(vb, sign, p));
            r
        } else {
            let t = big_add(&one, m);
            let s = big_sub(&t, b);
            proof {
                lemma_mod_add_multiples_vanish(1 - vb, p as int);
                assert(1 + p - vb == (1 - vb) + p);
            }
            let r = big_rem(&s, m);
            assert(words_value(r@) == den_spec(vb, sign, p));
            r
        };
        let ghost d = words_value(den@);
        assert(d == den_spec(vb, sign, p));
        match big_modinv(&den, m) {
            None => Err(FieldError::NotInvertible),
            Some(inv) => {
                let t = big_mul(a, &inv);
                let result = big_rem(&t, m);
                proof {
                    let vi = words_value(inv@);
                    let pi = p as int;
                    lemma_mul_mod_noop_left((va * vi) as int, d as int, pi);
                    lemma_mul_is_associative(va as int, vi as int, d as int);
                    assert(vi * d == d * vi) by (nonlinear_arith);
                    lemma_mul_mod_noop_right(va as int, (vi * d) as int, pi);
                    lemma_small_mod(1, p);
                    assert((va * vi) * d == va * (vi * d)) by (nonlinear_arith);
                    assert(va * 1 == va);
                }
                let product = big_mul(&result, &den);
                let check = split_mod(&product, m);
                proof {
                    lemma_small_mod(va, p);
                }
                Ok(FpOpWitness { result, carry: check.carry })
            },
        }
    }
}

} // verus!
