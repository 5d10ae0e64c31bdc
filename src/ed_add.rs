//! The curve-addition precompile on the twisted Edwards curve
//! `-x^2 + y^2 = 1 + d x^2 y^2` over the prime field of order `2^255 - 19`.
use vstd::prelude::*;
use vstd::arithmetic::div_mod::{
    lemma_add_mod_noop, lemma_mod_twice, lemma_mul_mod_noop, lemma_mul_mod_noop_left,
    lemma_small_mod, lemma_sub_mod_noop,
};
use crate::bigint::{big_add, big_mul, big_rem, big_sub, invertible_mod, is_inverse_mod};
use crate::field::{
    den_spec, inner_product, FieldError, FpOpWitness, FpOperation,
};
use crate::memory::{
    apply_records, is_aligned, mem_word, records_consistent, MemoryError, MemoryRecord, Runtime,
    CLK_STEP,
};
use crate::cols::{
    bytes_in_range, bytes_of_word, limb_word, limb_words, limbs_of_words, limbs_to_words, word_of_bytes, Word,
    access_prev_values, limbs_match_words, read_values, AffinePoint, FpDenCols,
    FpInnerProductCols, FpOpCols, Limbs, MemoryAccessCols, MemoryReadCols,
};
use crate::words::{is_normalized, one_word, same_value, fixed_words, lemma_one_words, lemma_words_value_unique, lemma_zero_words, word_weight, words_value};

verus! {

/// Words per field element.
pub const NUM_WORDS: usize = 8;

/// Byte limbs per field element.
pub const NUM_LIMBS: usize = 32;

/// The register that holds the opcode.
pub const REG_T0: usize = 5;

/// The register that holds the pointer to `P`, which receives the sum.
pub const REG_A0: usize = 10;

/// The register that holds the pointer to `Q`.
pub const REG_A1: usize = 11;

/// The little-endian words of the field's modulus `2^255 - 19`.
pub open spec fn ed_modulus_words() -> Seq<u32> {
    seq![
        0xffffffedu32, 0xffffffffu32, 0xffffffffu32, 0xffffffffu32,
        0xffffffffu32, 0xffffffffu32, 0xffffffffu32, 0x7fffffffu32,
    ]
}

/// The little-endian words of the curve constant
/// `d = -121665 / 121666 mod p`.
pub open spec fn ed_d_words() -> Seq<u32> {
    seq![
        0x135978a3u32, 0x75eb4dcau32, 0x4141d8abu32, 0x00700a4du32,
        0x7779e898u32, 0x8cc74079u32, 0x2b6ffe73u32, 0x52036ceeu32,
    ]
}

/// The field's modulus `p`.
pub open spec fn ed_p() -> nat {
    words_value(ed_modulus_words())
}

/// The curve constant `d`.
pub open spec fn ed_d() -> nat {
    words_value(ed_d_words())
}

/// The words of the modulus `p`.
pub fn ed_modulus() -> (r: Vec<u32>)
    ensures
        r@ == ed_modulus_words(),
{
    let r: Vec<u32> = vec![
        0xffffffed, 0xffffffff, 0xffffffff, 0xffffffff,
        0xffffffff, 0xffffffff, 0xffffffff, 0x7fffffff,
    ];
    assert(r@ =~= ed_modulus_words());
    r
}

/// The words of the curve constant `d`.
pub fn ed_d_constant() -> (r: Vec<u32>)
    ensures
        r@ == ed_d_words(),
{
    let r: Vec<u32> = vec![
        0x135978a3, 0x75eb4dca, 0x4141d8ab, 0x00700a4d,
        0x7779e898, 0x8cc74079, 0x2b6ffe73, 0x52036cee,
    ];
    assert(r@ =~= ed_d_words());
    r
}

/// `d * x1 * x2 * y1 * y2`, the term shared by both denominators.
pub open spec fn ed_dxy(x1: nat, y1: nat, x2: nat, y2: nat) -> nat {
    ed_d() * x1 * x2 * y1 * y2
}

/// `1 + d x1 x2 y1 y2` modulo `p`.
pub open spec fn x3_denominator(x1: nat, y1: nat, x2: nat, y2: nat) -> nat {
    (1 + ed_dxy(x1, y1, x2, y2)) % ed_p()
}

/// `1 - d x1 x2 y1 y2` modulo `p`.
pub open spec fn y3_denominator(x1: nat, y1: nat, x2: nat, y2: nat) -> nat {
    ((1 - ed_dxy(x1, y1, x2, y2)) % (ed_p() as int)) as nat
}

/// `(x3, y3)` is the sum of `(x1, y1)` and `(x2, y2)` under the addition law
/// `x3 = (x1 y2 + x2 y1) / (1 + d x1 x2 y1 y2)`,
/// `y3 = (y1 y2 + x1 x2) / (1 - d x1 x2 y1 y2)`, all modulo `p`.
pub open spec fn is_ed_sum(x1: nat, y1: nat, x2: nat, y2: nat, x3: nat, y3: nat) -> bool {
    let p = ed_p();
    &&& x3 < p
    &&& y3 < p
    &&& (x3 * x3_denominator(x1, y1, x2, y2)) % p == (x1 * y2 + x2 * y1) % p
    &&& (y3 * y3_denominator(x1, y1, x2, y2)) % p == (y1 * y2 + x1 * x2) % p
}

/// Both denominators of the addition law are invertible.
pub open spec fn ed_sum_defined(x1: nat, y1: nat, x2: nat, y2: nat) -> bool {
    &&& invertible_mod(x3_denominator(x1, y1, x2, y2), ed_p())
    &&& invertible_mod(y3_denominator(x1, y1, x2, y2), ed_p())
}

/// The address of the `i`-th word after `base`, wrapping around memory.
pub open spec fn word_addr(base: u32, i: int) -> u32 {
    ((base + 4 * i) % 0x1_0000_0000) as u32
}

/// The `n` words of memory `m` from the `start`-th word after `base`.
pub open spec fn region(m: Map<u32, u32>, base: u32, start: int, n: nat) -> Seq<u32> {
    Seq::new(n, |i: int| mem_word(m, word_addr(base, start + i)))
}

/// One curve addition: the clock after it, and both points' pointers and
/// words as memory held them before the call.
#[derive(Clone, Copy, Debug)]
pub struct EdAddEvent {
    pub clk: u32,
    pub p_ptr: u32,
    pub p: [u32; 16],
    pub q_ptr: u32,
    pub q: [u32; 16],
    /// The call's accesses in clock order: the reads of `P`, the reads of
    /// `Q`, then the writes of the sum over `P`.
    pub memory_records: [MemoryRecord; 48],
}

#[derive(Clone, Copy, Debug, PartialEq, Eq, Structural)]
pub enum EdAddError {
    Memory(MemoryError),
    Field(FieldError),
}

/// The curve-addition precompile.
pub struct EdAddAssignChip {}

/// The modulus is `2^255 - 19`, which fits in eight words.
#[verifier::rlimit(60)]
#[verifier::spinoff_prover]
pub proof fn lemma_ed_p_value()
    ensures
        ed_p() == 0x7fffffffffffffffffffffffffffffffffffffffffffffffffffffffffffffed,
        ed_p() > 1,
        ed_p() < word_weight(8),
        2 * ed_p() < word_weight(8),
{
    reveal_with_fuel(words_value, 9);
    reveal_with_fuel(word_weight, 9);
    let w = ed_modulus_words();
    assert(w.drop_last() =~= seq![0xffffffedu32, 0xffffffffu32, 0xffffffffu32, 0xffffffffu32, 0xffffffffu32, 0xffffffffu32, 0xffffffffu32]);
    assert(w.drop_last().drop_last() =~= seq![0xffffffedu32, 0xffffffffu32, 0xffffffffu32, 0xffffffffu32, 0xffffffffu32, 0xffffffffu32]);
    assert(w.drop_last().drop_last().drop_last() =~= seq![0xffffffedu32, 0xffffffffu32, 0xffffffffu32, 0xffffffffu32, 0xffffffffu32]);
    assert(w.drop_last().drop_last().drop_last().drop_last() =~= seq![0xffffffedu32, 0xffffffffu32, 0xffffffffu32, 0xffffffffu32]);
    assert(w.drop_last().drop_last().drop_last().drop_last().drop_last() =~= seq![0xffffffedu32, 0xffffffffu32, 0xffffffffu32]);
    assert(w.drop_last().drop_last().drop_last().drop_last().drop_last().drop_last() =~= seq![0xffffffedu32, 0xffffffffu32]);
    assert(w.drop_last().drop_last().drop_last().drop_last().drop_last().drop_last().drop_last() =~= seq![0xffffffedu32]);
    assert(w.drop_last().drop_last().drop_last().drop_last().drop_last().drop_last().drop_last().drop_last() =~= Seq::<u32>::empty());
}

/// The curve constant is a field element.
#[verifier::rlimit(60)]
#[verifier::spinoff_prover]
pub proof fn lemma_ed_d_reduced()
    ensures
        ed_d() < ed_p(),
{
    reveal_with_fuel(words_value, 9);
    reveal_with_fuel(word_weight, 9);
    lemma_ed_p_value();
    let w = ed_d_words();
    assert(w.drop_last() =~= seq![0x135978a3u32, 0x75eb4dcau32, 0x4141d8abu32, 0x00700a4du32, 0x7779e898u32, 0x8cc74079u32, 0x2b6ffe73u32]);
    assert(w.drop_last().drop_last() =~= seq![0x135978a3u32, 0x75eb4dcau32, 0x4141d8abu32, 0x00700a4du32, 0x7779e898u32, 0x8cc74079u32]);
    assert(w.drop_last().drop_last().drop_last() =~= seq![0x135978a3u32, 0x75eb4dcau32, 0x4141d8abu32, 0x00700a4du32, 0x7779e898u32]);
    assert(w.drop_last().drop_last().drop_last().drop_last() =~= seq![0x135978a3u32, 0x75eb4dcau32, 0x4141d8abu32, 0x00700a4du32]);
    assert(w.drop_last().drop_last().drop_last().drop_last().drop_last() =~= seq![0x135978a3u32, 0x75eb4dcau32, 0x4141d8abu32]);
    assert(w.drop_last().drop_last().drop_last().drop_last().drop_last().drop_last() =~= seq![0x135978a3u32, 0x75eb4dcau32]);
    assert(w.drop_last().drop_last().drop_last().drop_last().drop_last().drop_last().drop_last() =~= seq![0x135978a3u32]);
    assert(w.drop_last().drop_last().drop_last().drop_last().drop_last().drop_last().drop_last().drop_last() =~= Seq::<u32>::empty());
}

/// A copy of a word vector.
pub fn copy_words(w: &Vec<u32>) -> (r: Vec<u32>)
    ensures
        r@ == w@,
{
    let mut r: Vec<u32> = Vec::new();
    let mut i: usize = 0;
    while i < w.len()
        invariant
            i <= w@.len(),
            r@ == w@.subrange(0, i as int),
        decreases w@.len() - i,
    {
        r.push(w[i]);
        i = i + 1;
        assert(r@ =~= w@.subrange(0, i as int));
    }
    assert(w@.subrange(0, w@.len() as int) =~= w@);
    r
}

proof fn lemma_x3_denominator(x1: nat, y1: nat, x2: nat, y2: nat, x1y1: nat, x2y2: nat, f: nat, df: nat)
    requires
        ed_p() > 1,
        x1y1 == (x1 * y1) % ed_p(),
        x2y2 == (x2 * y2) % ed_p(),
        f == (x1y1 * x2y2) % ed_p(),
        df == (f * ed_d()) % ed_p(),
    ensures
        df == (ed_dxy(x1, y1, x2, y2)) % ed_p(),
        den_spec(df, true, ed_p()) == x3_denominator(x1, y1, x2, y2),
        den_spec(df, false, ed_p()) == y3_denominator(x1, y1, x2, y2),
{
    let p = ed_p() as int;
    let t = (x1 * y1) * (x2 * y2);
    lemma_mul_mod_noop((x1 * y1) as int, (x2 * y2) as int, p);
    lemma_mul_mod_noop_left(t as int, ed_d() as int, p);
    let dd = ed_d();
    assert(((x1 * y1) * (x2 * y2)) * dd == dd * x1 * x2 * y1 * y2) by (nonlinear_arith);
    lemma_small_mod(1, ed_p());
    lemma_add_mod_noop(1, ed_dxy(x1, y1, x2, y2) as int, p);
    lemma_sub_mod_noop(1, ed_dxy(x1, y1, x2, y2) as int, p);
}

/// Adds `(x1, y1)` and `(x2, y2)` under the curve's addition law and returns
/// the coordinates of the sum as eight words each. Fails exactly when one of
/// the two denominators has no inverse.
pub fn ed_add_values(x1: &Vec<u32>, y1: &Vec<u32>, x2: &Vec<u32>, y2: &Vec<u32>) -> (r: Result<(Vec<u32>, Vec<u32>), FieldError>)
    requires
        words_value(x1@) < ed_p(),
        words_value(y1@) < ed_p(),
        words_value(x2@) < ed_p(),
        words_value(y2@) < ed_p(),
    ensures
        r is Err <==> !ed_sum_defined(words_value(x1@), words_value(y1@), words_value(x2@), words_value(y2@)),
        match r {
            Ok((x3, y3)) => {
                &&& x3@.len() == NUM_WORDS
                &&& y3@.len() == NUM_WORDS
                &&& is_ed_sum(
                    words_value(x1@),
                    words_value(y1@),
                    words_value(x2@),
                    words_value(y2@),
                    words_value(x3@),
                    words_value(y3@),
                )
            },
            Err(e) => e == FieldError::NotInvertible,
        },
{
    proof {
        lemma_ed_p_value();
        lemma_ed_d_reduced();
    }
    let ghost (vx1, vy1, vx2, vy2) = (words_value(x1@), words_value(y1@), words_value(x2@), words_value(y2@));
    let m = ed_modulus();
    let d = ed_d_constant();
    let x3_num = FpOpWitness::populate_inner_product(
        &vec![copy_words(x1), copy_words(x2)],
        &vec![copy_words(y2), copy_words(y1)],
        &m,
    );
    let y3_num = FpOpWitness::populate_inner_product(
        &vec![copy_words(y1), copy_words(x1)],
        &vec![copy_words(y2), copy_words(x2)],
        &m,
    );
    let x1_mul_y1 = FpOpWitness::populate(x1, y1, FpOperation::Mul, &m);
    let x2_mul_y2 = FpOpWitness::populate(x2, y2, FpOperation::Mul, &m);
    let f = FpOpWitness::populate(&x1_mul_y1.result, &x2_mul_y2.result, FpOperation::Mul, &m);
    let d_mul_f = FpOpWitness::populate(&f.result, &d, FpOperation::Mul, &m);
    proof {
        lemma_x3_denominator(
            vx1, vy1, vx2, vy2,
            words_value(x1_mul_y1.result@),
            words_value(x2_mul_y2.result@),
            words_value(f.result@),
            words_value(d_mul_f.result@),
        );
    }
    let x3 = match FpOpWitness::populate_den(&x3_num.result, &d_mul_f.result, true, &m) {
        Ok(w) => w,
        Err(e) => {
            return Err(e);
        },
    };
    let y3 = match FpOpWitness::populate_den(&y3_num.result, &d_mul_f.result, false, &m) {
        Ok(w) => w,
        Err(e) => {
            return Err(e);
        },
    };
    proof {
        let p = ed_p() as int;
        reveal_with_fuel(inner_product, 3);
        lemma_mod_twice((vx1 * vy2 + vx2 * vy1) as int, p);
        lemma_mod_twice((vy1 * vy2 + vx1 * vx2) as int, p);
    }
    let x3w = fixed_words(x3.result, NUM_WORDS);
    let y3w = fixed_words(y3.result, NUM_WORDS);
    Ok((x3w, y3w))
}

/// Words per curve point.
pub const POINT_WORDS: usize = 16;

/// The most words that one region access covers.
pub const MAX_REGION_WORDS: usize = 64;

#[verifier::rlimit(60)]
#[verifier::spinoff_prover]
proof fn lemma_word_addr(base: u32, i: int)
    requires
        is_aligned(base),
        0 <= i < MAX_REGION_WORDS,
    ensures
        is_aligned(word_addr(base, i)),
        forall|j: int| 0 <= j < i ==> word_addr(base, j) != word_addr(base, i),
        word_addr(base, i) == (if base + 4 * i > u32::MAX { base + 4 * i - 0x1_0000_0000 } else { base + 4 * i }),
{
    assert forall|j: int| 0 <= j < i implies word_addr(base, j) != word_addr(base, i) by {
        if base + 4 * i > u32::MAX && base + 4 * j <= u32::MAX {
            assert(word_addr(base, i) == base + 4 * i - 0x1_0000_0000);
        }
    }
}

/// `a` is none of the `n` word addresses from `base` on.
pub open spec fn outside_region(a: u32, base: u32, n: nat) -> bool {
    forall|j: int| 0 <= j < n ==> a != #[trigger] word_addr(base, j)
}

/// Reads the `n` words from `base` on, recording each access.
#[verifier::rlimit(100)]
#[verifier::spinoff_prover]
pub(crate) fn read_region(rt: &mut Runtime, base: u32, n: usize, Ghost(m0): Ghost<Map<u32, u32>>, Ghost(start): Ghost<int>) -> (r: (Vec<u32>, Vec<MemoryRecord>))
    requires
        old(rt).wf(),
        is_aligned(base),
        n <= MAX_REGION_WORDS,
        old(rt).clk_room(n as nat),
        old(rt).run_from(m0, start),
    ensures
        final(rt).wf(),
        final(rt).run_from(m0, start),
        r.0@ == region(old(rt).memory@, base, 0, n as nat),
        r.1@.len() == n,
        forall|i: int| 0 <= i < n ==> #[trigger] r.1@[i] == (MemoryRecord {
            addr: word_addr(base, i),
            clk: (old(rt).clk + CLK_STEP * i) as u32,
            prev_value: r.0@[i],
            value: r.0@[i],
        }),
        final(rt).records@ == old(rt).records@ + r.1@,
        forall|a: u32| mem_word(#[trigger] final(rt).memory@, a) == mem_word(old(rt).memory@, a),
        final(rt).clk == old(rt).clk + n * CLK_STEP,
        final(rt).records@.len() == old(rt).records@.len() + n,
        final(rt).registers@ == old(rt).registers@,
        final(rt).ed_add_events@ == old(rt).ed_add_events@,
{
    let mut r: Vec<u32> = Vec::new();
    let mut recs: Vec<MemoryRecord> = Vec::new();
    let mut i: usize = 0;
    while i < n
        invariant
            i <= n <= MAX_REGION_WORDS,
            recs@.len() == i,
            forall|j: int| 0 <= j < i ==> #[trigger] recs@[j] == (MemoryRecord {
                addr: word_addr(base, j),
                clk: (old(rt).clk + CLK_STEP * j) as u32,
                prev_value: r@[j],
                value: r@[j],
            }),
            rt.records@ == old(rt).records@ + recs@,
            is_aligned(base),
            rt.wf(),
            rt.run_from(m0, start),
            rt.clk == old(rt).clk + i * CLK_STEP,
            rt.records@.len() == old(rt).records@.len() + i,
            old(rt).clk_room(n as nat),
            r@ == region(old(rt).memory@, base, 0, i as nat),
            forall|a: u32| mem_word(#[trigger] rt.memory@, a) == mem_word(old(rt).memory@, a),
            rt.registers@ == old(rt).registers@,
            rt.ed_add_events@ == old(rt).ed_add_events@,
        decreases n - i,
    {
        proof {
            lemma_word_addr(base, i as int);
        }
        let addr = base.wrapping_add(4 * (i as u32));
        let v = rt.peek(addr);
        let rec = rt.access(addr, v);
        r.push(v);
        let ghost before = rt.records@;
        recs.push(rec);
        i = i + 1;
        assert(r@ =~= region(old(rt).memory@, base, 0, i as nat));
        assert(rt.records@ =~= old(rt).records@ + recs@);
    }
    (r, recs)
}

/// Writes `w` to the words from `base` on, recording each access.
#[verifier::rlimit(100)]
#[verifier::spinoff_prover]
pub(crate) fn write_region(rt: &mut Runtime, base: u32, w: &Vec<u32>, Ghost(m0): Ghost<Map<u32, u32>>, Ghost(start): Ghost<int>) -> (recs: Vec<MemoryRecord>)
    requires
        old(rt).wf(),
        is_aligned(base),
        w@.len() <= MAX_REGION_WORDS,
        old(rt).clk_room(w@.len()),
        old(rt).run_from(m0, start),
    ensures
        final(rt).wf(),
        final(rt).run_from(m0, start),
        region(final(rt).memory@, base, 0, w@.len()) == w@,
        recs@.len() == w@.len(),
        forall|i: int| 0 <= i < w@.len() ==> #[trigger] recs@[i] == (MemoryRecord {
            addr: word_addr(base, i),
            clk: (old(rt).clk + CLK_STEP * i) as u32,
            prev_value: mem_word(old(rt).memory@, word_addr(base, i)),
            value: w@[i],
        }),
        final(rt).records@ == old(rt).records@ + recs@,
        forall|a: u32| outside_region(a, base, w@.len()) ==> mem_word(final(rt).memory@, a) == mem_word(old(rt).memory@, a),
        final(rt).clk == old(rt).clk + w@.len() * CLK_STEP,
        final(rt).records@.len() == old(rt).records@.len() + w@.len(),
        final(rt).registers@ == old(rt).registers@,
        final(rt).ed_add_events@ == old(rt).ed_add_events@,
{
    let mut recs: Vec<MemoryRecord> = Vec::new();
    let mut i: usize = 0;
    while i < w.len()
        invariant
            i <= w@.len() <= MAX_REGION_WORDS,
            recs@.len() == i,
            forall|j: int| 0 <= j < i ==> #[trigger] recs@[j] == (MemoryRecord {
                addr: word_addr(base, j),
                clk: (old(rt).clk + CLK_STEP * j) as u32,
                prev_value: mem_word(old(rt).memory@, word_addr(base, j)),
                value: w@[j],
            }),
            rt.records@ == old(rt).records@ + recs@,
            forall|a: u32| outside_region(a, base, i as nat) ==> mem_word(rt.memory@, a) == mem_word(old(rt).memory@, a),
            is_aligned(base),
            rt.wf(),
            rt.run_from(m0, start),
            rt.clk == old(rt).clk + i * CLK_STEP,
            rt.records@.len() == old(rt).records@.len() + i,
            old(rt).clk_room(w@.len()),
            region(rt.memory@, base, 0, i as nat) == w@.subrange(0, i as int),
            rt.registers@ == old(rt).registers@,
            rt.ed_add_events@ == old(rt).ed_add_events@,
        decreases w@.len() - i,
    {
        proof {
            lemma_word_addr(base, i as int);
        }
        let addr = base.wrapping_add(4 * (i as u32));
        let ghost before = rt.memory@;
        assert(outside_region(addr, base, i as nat));
        let rec = rt.access(addr, w[i]);
        recs.push(rec);
        i = i + 1;
        assert(rt.records@ =~= old(rt).records@ + recs@);
        assert forall|a: u32| outside_region(a, base, i as nat) implies mem_word(rt.memory@, a) == mem_word(old(rt).memory@, a) by {
            assert(a != word_addr(base, i - 1));
            assert(outside_region(a, base, (i - 1) as nat));
        }
        assert forall|j: int| 0 <= j < i implies #[trigger] region(rt.memory@, base, 0, i as nat)[j] == w@[j] by {
            if j < i - 1 {
                assert(region(before, base, 0, (i - 1) as nat)[j] == w@.subrange(0, i - 1)[j]);
            }
        }
        assert(region(rt.memory@, base, 0, i as nat) =~= w@.subrange(0, i as int));
    }
    assert(w@.subrange(0, w@.len() as int) =~= w@);
    recs
}

/// The words `w[from..to]`.
pub fn sub_words(w: &Vec<u32>, from: usize, to: usize) -> (r: Vec<u32>)
    requires
        from <= to <= w@.len(),
    ensures
        r@ == w@.subrange(from as int, to as int),
{
    let mut r: Vec<u32> = Vec::new();
    let mut i: usize = from;
    while i < to
        invariant
            from <= i <= to <= w@.len(),
            r@ == w@.subrange(from as int, i as int),
        decreases to - i,
    {
        r.push(w[i]);
        i = i + 1;
        assert(r@ =~= w@.subrange(from as int, i as int));
    }
    r
}

fn copy_records(v: &Vec<MemoryRecord>) -> (r: Vec<MemoryRecord>)
    ensures
        r@ == v@,
{
    let mut r: Vec<MemoryRecord> = Vec::new();
    let mut i: usize = 0;
    while i < v.len()
        invariant
            i <= v@.len(),
            r@ == v@.subrange(0, i as int),
        decreases v@.len() - i,
    {
        r.push(v[i]);
        i = i + 1;
        assert(r@ =~= v@.subrange(0, i as int));
    }
    assert(v@.subrange(0, v@.len() as int) =~= v@);
    r
}

fn records_array(v: &Vec<MemoryRecord>) -> (r: [MemoryRecord; 48])
    requires
        v@.len() == 48,
    ensures
        r@ == v@,
{
    let blank = MemoryRecord { addr: 0, clk: 0, prev_value: 0, value: 0 };
    let mut r: [MemoryRecord; 48] = vstd::array::array_fill_for_copy_types(blank);
    let mut i: usize = 0;
    while i < 48
        invariant
            i <= 48,
            v@.len() == 48,
            r@.len() == 48,
            forall|j: int| 0 <= j < i ==> r@[j] == v@[j],
        decreases 48 - i,
    {
        r[i] = v[i];
        i = i + 1;
    }
    assert(r@ =~= v@);
    r
}

fn to_point_array(w: &Vec<u32>) -> (r: [u32; 16])
    requires
        w@.len() == POINT_WORDS,
    ensures
        r@ == w@,
{
    let mut r: [u32; 16] = [0u32; 16];
    let mut i: usize = 0;
    while i < POINT_WORDS
        invariant
            i <= POINT_WORDS,
            w@.len() == POINT_WORDS,
            r@.len() == POINT_WORDS,
            forall|j: int| 0 <= j < i ==> r@[j] == w@[j],
        decreases POINT_WORDS - i,
    {
        r[i] = w[i];
        i = i + 1;
    }
    assert(r@ =~= w@);
    r
}

/// The coordinate of a point held in words `[start, start + 8)` of `w`,
/// reduced to a field element.
pub open spec fn coordinate(w: Seq<u32>, start: int) -> nat {
    words_value(w.subrange(start, start + NUM_WORDS as int)) % ed_p()
}

/// The sum of the points whose words `p` and `q` hold, with both
/// denominators invertible, as eight words of `x` then eight of `y`.
pub open spec fn is_ed_sum_words(p: Seq<u32>, q: Seq<u32>, r: Seq<u32>) -> bool {
    &&& r.len() == POINT_WORDS
    &&& is_ed_sum(
        coordinate(p, 0),
        coordinate(p, 8),
        coordinate(q, 0),
        coordinate(q, 8),
        words_value(r.subrange(0, 8)),
        words_value(r.subrange(8, 16)),
    )
}

pub open spec fn ed_sum_defined_words(p: Seq<u32>, q: Seq<u32>) -> bool {
    ed_sum_defined(coordinate(p, 0), coordinate(p, 8), coordinate(q, 0), coordinate(q, 8))
}

impl EdAddAssignChip {
    /// Runs one curve addition: reads the pointers to `P` and `Q` from their
    /// registers, reads both points, and writes `P + Q` over `P`, recording
    /// every access and appending one event. Returns `(p_ptr, opcode, q_ptr)`.
    #[verifier::rlimit(100)]
    #[verifier::spinoff_prover]
    pub fn execute(rt: &mut Runtime) -> (r: Result<(u32, u32, u32), EdAddError>)
        requires
            old(rt).wf(),
            old(rt).clk_room(3 * POINT_WORDS as nat),
        ensures
            final(rt).wf(),
            ({
                let opcode = old(rt).registers@[REG_T0 as int];
                let p_ptr = old(rt).registers@[REG_A0 as int];
                let q_ptr = old(rt).registers@[REG_A1 as int];
                let m = old(rt).memory@;
                let p = region(m, p_ptr, 0, 16);
                let q = region(m, q_ptr, 0, 16);
                if !is_aligned(p_ptr) {
                    r == Err::<(u32, u32, u32), EdAddError>(EdAddError::Memory(MemoryError::Misaligned(p_ptr)))
                        && *final(rt) == *old(rt)
                } else if !is_aligned(q_ptr) {
                    r == Err::<(u32, u32, u32), EdAddError>(EdAddError::Memory(MemoryError::Misaligned(q_ptr)))
                        && *final(rt) == *old(rt)
                } else if !ed_sum_defined_words(p, q) {
                    r == Err::<(u32, u32, u32), EdAddError>(EdAddError::Field(FieldError::NotInvertible))
                } else {
                    let n0 = old(rt).records@.len() as int;
                    let rs = final(rt).records@.subrange(n0, final(rt).records@.len() as int);
                    let ev = final(rt).ed_add_events@.last();
                    &&& r == Ok::<(u32, u32, u32), EdAddError>((p_ptr, opcode, q_ptr))
                    &&& is_ed_sum_words(p, q, region(final(rt).memory@, p_ptr, 0, 16))
                    &&& final(rt).ed_add_events@ == old(rt).ed_add_events@.push(ev)
                    &&& ev.clk == final(rt).clk
                    &&& ev.p_ptr == p_ptr
                    &&& ev.q_ptr == q_ptr
                    &&& ev.p@ == p
                    &&& ev.q@ == q
                    &&& rs.len() == 3 * POINT_WORDS
                    &&& ev.memory_records@ == rs
                    &&& forall|k: int| 0 <= k < POINT_WORDS ==> #[trigger] rs[k] == (MemoryRecord {
                        addr: word_addr(p_ptr, k),
                        clk: (old(rt).clk + CLK_STEP * k) as u32,
                        prev_value: p[k],
                        value: p[k],
                    })
                    &&& forall|k: int| 0 <= k < POINT_WORDS ==> #[trigger] rs[16 + k] == (MemoryRecord {
                        addr: word_addr(q_ptr, k),
                        clk: (old(rt).clk + CLK_STEP * (16 + k)) as u32,
                        prev_value: q[k],
                        value: q[k],
                    })
                    &&& forall|k: int| 0 <= k < POINT_WORDS ==> #[trigger] rs[32 + k] == (MemoryRecord {
                        addr: word_addr(p_ptr, k),
                        clk: (old(rt).clk + CLK_STEP * (32 + k)) as u32,
                        prev_value: p[k],
                        value: region(final(rt).memory@, p_ptr, 0, 16)[k],
                    })
                    &&& forall|a: u32| outside_region(a, p_ptr, 16) ==> mem_word(final(rt).memory@, a) == mem_word(m, a)
                    &&& records_consistent(m, rs)
                    &&& final(rt).memory@ == apply_records(m, rs)
                    &&& final(rt).clk == old(rt).clk + 3 * POINT_WORDS * CLK_STEP
                    &&& final(rt).registers@ == old(rt).registers@
                }
            }),
    {
        let opcode = rt.register(REG_T0);
        let p_ptr = rt.register(REG_A0);
        let q_ptr = rt.register(REG_A1);
        if p_ptr % 4 != 0 {
            return Err(EdAddError::Memory(MemoryError::Misaligned(p_ptr)));
        }
        if q_ptr % 4 != 0 {
            return Err(EdAddError::Memory(MemoryError::Misaligned(q_ptr)));
        }
        let ghost m0 = rt.memory@;
        let ghost n0 = rt.records@.len() as int;
        assert(rt.records@.subrange(n0, n0) =~= Seq::<MemoryRecord>::empty());
        let (pw, pr) = read_region(rt, p_ptr, POINT_WORDS, Ghost(m0), Ghost(n0));
        let ghost m1 = rt.memory@;
        let (qw, qr) = read_region(rt, q_ptr, POINT_WORDS, Ghost(m0), Ghost(n0));
        assert(qw@ =~= region(m0, q_ptr, 0, 16));
        let m = ed_modulus();
        proof {
            lemma_ed_p_value();
        }
        let x1 = big_rem(&sub_words(&pw, 0, NUM_WORDS), &m);
        let y1 = big_rem(&sub_words(&pw, NUM_WORDS, POINT_WORDS), &m);
        let x2 = big_rem(&sub_words(&qw, 0, NUM_WORDS), &m);
        let y2 = big_rem(&sub_words(&qw, NUM_WORDS, POINT_WORDS), &m);
        assert(words_value(x1@) == coordinate(pw@, 0));
        assert(words_value(y1@) == coordinate(pw@, 8));
        assert(words_value(x2@) == coordinate(qw@, 0));
        assert(words_value(y2@) == coordinate(qw@, 8));
        let (x3, y3) = match ed_add_values(&x1, &y1, &x2, &y2) {
            Ok(v) => v,
            Err(e) => {
                return Err(EdAddError::Field(e));
            },
        };
        let mut out = x3;
        let mut y3 = y3;
        let ghost y3_words = y3@;
        out.append(&mut y3);
        assert(out@.subrange(0, 8) =~= x3@);
        assert(out@.subrange(8, 16) =~= y3_words);
        assert(is_ed_sum_words(pw@, qw@, out@));
        let ghost m2 = rt.memory@;
        let wr = write_region(rt, p_ptr, &out, Ghost(m0), Ghost(n0));
        let mut all = pr;
        let mut qr = qr;
        let mut wr2 = copy_records(&wr);
        all.append(&mut qr);
        all.append(&mut wr2);
        let ghost rs = rt.records@.subrange(n0, rt.records@.len() as int);
        assert(all@ =~= rs);
        proof {
            assert forall|k: int| 0 <= k < POINT_WORDS implies mem_word(m2, #[trigger] word_addr(p_ptr, k)) == region(m0, p_ptr, 0, 16)[k] by {
                assert(mem_word(m2, word_addr(p_ptr, k)) == mem_word(m1, word_addr(p_ptr, k)));
            }
        }
        let memory_records = records_array(&all);
        let p = to_point_array(&pw);
        let q = to_point_array(&qw);
        rt.ed_add_events.push(EdAddEvent { clk: rt.clk, p_ptr, p, q_ptr, q, memory_records });
        assert(region(rt.memory@, p_ptr, 0, 16) == out@);
        assert(is_ed_sum_words(region(m0, p_ptr, 0, 16), region(m0, q_ptr, 0, 16), region(rt.memory@, p_ptr, 0, 16)));
        assert(rt.run_from(m0, n0));
        Ok((p_ptr, opcode, q_ptr))
    }
}

/// The columns of one curve addition: its memory accesses and the
/// gadgets that compute the sum, in the order of the addition law.
#[derive(Clone, Copy, Debug)]
pub struct EdAddAssignCols<T> {
    pub clk: T,
    pub p_ptr: T,
    pub q_ptr: T,
    pub p_access: [MemoryAccessCols<T>; 16],
    pub q_access: [MemoryReadCols<T>; 16],
    pub x3_numerator: FpInnerProductCols<T>,
    pub y3_numerator: FpInnerProductCols<T>,
    pub x1_mul_y1: FpOpCols<T>,
    pub x2_mul_y2: FpOpCols<T>,
    pub f: FpOpCols<T>,
    pub d_mul_f: FpOpCols<T>,
    pub x3_ins: FpDenCols<T>,
    pub y3_ins: FpDenCols<T>,
}

impl<T: Copy> EdAddAssignCols<T> {
    /// The sum, as the two division gadgets hold it.
    pub fn result(&self) -> (r: AffinePoint<T>)
        ensures
            r.x == self.x3_ins.result,
            r.y == self.y3_ins.result,
    {
        AffinePoint { x: self.x3_ins.result, y: self.y3_ins.result }
    }

    pub fn limbs_from_read(cols: &[MemoryReadCols<T>]) -> (r: Limbs<T>)
        requires
            cols@.len() == 8,
        ensures
            limbs_match_words(r.0@, read_values(cols@)),
    {
        let r = Limbs([
                cols[0].value.0[0],
                cols[0].value.0[1],
                cols[0].value.0[2],
                cols[0].value.0[3],
                cols[1].value.0[0],
                cols[1].value.0[1],
                cols[1].value.0[2],
                cols[1].value.0[3],
                cols[2].value.0[0],
                cols[2].value.0[1],
                cols[2].value.0[2],
                cols[2].value.0[3],
                cols[3].value.0[0],
                cols[3].value.0[1],
                cols[3].value.0[2],
                cols[3].value.0[3],
                cols[4].value.0[0],
                cols[4].value.0[1],
                cols[4].value.0[2],
                cols[4].value.0[3],
                cols[5].value.0[0],
                cols[5].value.0[1],
                cols[5].value.0[2],
                cols[5].value.0[3],
                cols[6].value.0[0],
                cols[6].value.0[1],
                cols[6].value.0[2],
                cols[6].value.0[3],
                cols[7].value.0[0],
                cols[7].value.0[1],
                cols[7].value.0[2],
                cols[7].value.0[3],
            ]);
        assert(limbs_match_words(r.0@, read_values(cols@)));
        r
    }

    pub fn limbs_from_access(cols: &[MemoryAccessCols<T>]) -> (r: Limbs<T>)
        requires
            cols@.len() == 8,
        ensures
            limbs_match_words(r.0@, access_prev_values(cols@)),
    {
        let r = Limbs([
                cols[0].prev_value.0[0],
                cols[0].prev_value.0[1],
                cols[0].prev_value.0[2],
                cols[0].prev_value.0[3],
                cols[1].prev_value.0[0],
                cols[1].prev_value.0[1],
                cols[1].prev_value.0[2],
                cols[1].prev_value.0[3],
                cols[2].prev_value.0[0],
                cols[2].prev_value.0[1],
                cols[2].prev_value.0[2],
                cols[2].prev_value.0[3],
                cols[3].prev_value.0[0],
                cols[3].prev_value.0[1],
                cols[3].prev_value.0[2],
                cols[3].prev_value.0[3],
                cols[4].prev_value.0[0],
                cols[4].prev_value.0[1],
                cols[4].prev_value.0[2],
                cols[4].prev_value.0[3],
                cols[5].prev_value.0[0],
                cols[5].prev_value.0[1],
                cols[5].prev_value.0[2],
                cols[5].prev_value.0[3],
                cols[6].prev_value.0[0],
                cols[6].prev_value.0[1],
                cols[6].prev_value.0[2],
                cols[6].prev_value.0[3],
                cols[7].prev_value.0[0],
                cols[7].prev_value.0[1],
                cols[7].prev_value.0[2],
                cols[7].prev_value.0[3],
            ]);
        assert(limbs_match_words(r.0@, access_prev_values(cols@)));
        r
    }
}

/// The words of the neutral point `(0, 1)`: all zero but the first word of `y`.
pub open spec fn neutral_point_words() -> Seq<u32> {
    Seq::new(16, |i: int| if i == 8 { 1u32 } else { 0u32 })
}

proof fn lemma_neutral_coordinates()
    ensures
        coordinate(neutral_point_words(), 0) == 0,
        coordinate(neutral_point_words(), 8) == 1,
{
    lemma_ed_p_value();
    let n = neutral_point_words();
    lemma_zero_words(n.subrange(0, 8));
    lemma_one_words(n.subrange(8, 16));
    lemma_small_mod(1, ed_p());
}

/// Adding the neutral point `(0, 1)` is always defined: both denominators are one.
pub proof fn lemma_add_neutral_defined(p: Seq<u32>)
    requires
        p.len() == POINT_WORDS,
    ensures
        ed_sum_defined_words(p, neutral_point_words()),
{
    lemma_ed_p_value();
    lemma_neutral_coordinates();
    let x1 = coordinate(p, 0);
    let y1 = coordinate(p, 8);
    let dd = ed_d();
    assert(dd * x1 * 0 * y1 * 1 == 0) by (nonlinear_arith);
    assert(ed_dxy(x1, y1, 0, 1) == 0);
    lemma_small_mod(1, ed_p());
    assert(is_inverse_mod(1, 1, ed_p()));
    assert(x3_denominator(x1, y1, 0, 1) == 1);
    assert(y3_denominator(x1, y1, 0, 1) == 1);
}

/// Adding the neutral point `(0, 1)` to a point with reduced coordinates
/// gives that point back, word for word.
pub proof fn lemma_add_neutral(p: Seq<u32>, r: Seq<u32>)
    requires
        p.len() == POINT_WORDS,
        words_value(p.subrange(0, 8)) < ed_p(),
        words_value(p.subrange(8, 16)) < ed_p(),
        is_ed_sum_words(p, neutral_point_words(), r),
    ensures
        r == p,
{
    lemma_ed_p_value();
    lemma_neutral_coordinates();
    lemma_add_neutral_defined(p);
    let pp = ed_p();
    let x1 = words_value(p.subrange(0, 8));
    let y1 = words_value(p.subrange(8, 16));
    lemma_small_mod(x1, pp);
    lemma_small_mod(y1, pp);
    let x3 = words_value(r.subrange(0, 8));
    let y3 = words_value(r.subrange(8, 16));
    let dd = ed_d();
    assert(dd * x1 * 0 * y1 * 1 == 0) by (nonlinear_arith);
    lemma_small_mod(1, pp);
    assert(x3_denominator(x1, y1, 0, 1) == 1);
    assert(y3_denominator(x1, y1, 0, 1) == 1);
    assert(x1 * 1 + 0 * y1 == x1) by (nonlinear_arith);
    assert(y1 * 1 + x1 * 0 == y1) by (nonlinear_arith);
    assert(coordinate(p, 0) == x1);
    assert(coordinate(p, 8) == y1);
    assert((x3 * 1) % pp == x1 % pp);
    assert((y3 * 1) % pp == y1 % pp);
    assert(x3 * 1 == x3) by (nonlinear_arith);
    assert(y3 * 1 == y3) by (nonlinear_arith);
    lemma_small_mod(x3, pp);
    lemma_small_mod(y3, pp);
    lemma_words_value_unique(r.subrange(0, 8), p.subrange(0, 8));
    lemma_words_value_unique(r.subrange(8, 16), p.subrange(8, 16));
    assert(r =~= r.subrange(0, 8) + r.subrange(8, 16));
    assert(p =~= p.subrange(0, 8) + p.subrange(8, 16));
}

/// The result limbs of a division gadget equal the current limbs of the
/// eight accesses from `start` on.
pub open spec fn limbs_written(result: Limbs<u32>, access: Seq<MemoryAccessCols<u32>>, start: int) -> bool {
    forall|i: int| 0 <= i < NUM_LIMBS ==> #[trigger] result.0@[i] == access[start + i / 4].value.0@[i % 4]
}

impl EdAddAssignCols<u32> {
    /// Whether the row writes the computed sum back: `x3` into the first
    /// eight accesses to `P`, `y3` into the last eight.
    pub fn writeback_holds(&self) -> (r: bool)
        ensures
            r == (limbs_written(self.x3_ins.result, self.p_access@, 0)
                && limbs_written(self.y3_ins.result, self.p_access@, 8)),
    {
        let mut i: usize = 0;
        while i < NUM_LIMBS
            invariant
                i <= NUM_LIMBS,
                forall|j: int| 0 <= j < i ==> #[trigger] self.x3_ins.result.0@[j] == self.p_access@[j / 4].value.0@[j % 4],
                forall|j: int| 0 <= j < i ==> #[trigger] self.y3_ins.result.0@[j] == self.p_access@[8 + j / 4].value.0@[j % 4],
            decreases NUM_LIMBS - i,
        {
            if self.x3_ins.result.0[i] != self.p_access[i / 4].value.0[i % 4] {
                assert(!limbs_written(self.x3_ins.result, self.p_access@, 0));
                return false;
            }
            if self.y3_ins.result.0[i] != self.p_access[8 + i / 4].value.0[i % 4] {
                assert(!limbs_written(self.y3_ins.result, self.p_access@, 8));
                return false;
            }
            i = i + 1;
        }
        true
    }
}

/// The 32 byte limbs of the prior words of accesses `start..start + 8`.
pub open spec fn prev_limbs(acc: Seq<MemoryAccessCols<u32>>, start: int) -> Seq<u32> {
    Seq::new(32, |i: int| acc[start + i / 4].prev_value.0@[i % 4])
}

/// The 32 byte limbs of the words of reads `start..start + 8`.
pub open spec fn read_limbs(acc: Seq<MemoryReadCols<u32>>, start: int) -> Seq<u32> {
    Seq::new(32, |i: int| acc[start + i / 4].value.0@[i % 4])
}

/// The number that byte limbs denote.
pub open spec fn limbs_value(l: Seq<u32>) -> nat {
    words_value(limb_words(l))
}

/// The byte limbs of a gadget's result and carry are in range, and the
/// result is reduced.
pub open spec fn gadget_ok(result: Limbs<u32>, carry: Limbs<u32>) -> bool {
    &&& bytes_in_range(result.0@)
    &&& bytes_in_range(carry.0@)
    &&& limbs_value(result.0@) < ed_p()
}

/// `a * b == r + k * p` for a gadget's result `r` and carry `k`.
pub open spec fn product_identity(a: nat, b: nat, result: Limbs<u32>, carry: Limbs<u32>) -> bool {
    a * b == limbs_value(result.0@) + limbs_value(carry.0@) * ed_p()
}

/// Every identity that one curve-addition row must satisfy: the byte range
/// of every limb, the two inner products, the four products, the two
/// divisions, and the write-back of the sum into the accesses to `P`.
pub open spec fn row_constraints_hold(c: EdAddAssignCols<u32>) -> bool {
    let p = ed_p();
    let x1 = prev_limbs(c.p_access@, 0);
    let y1 = prev_limbs(c.p_access@, 8);
    let x2 = read_limbs(c.q_access@, 0);
    let y2 = read_limbs(c.q_access@, 8);
    let (vx1, vy1, vx2, vy2) = (limbs_value(x1), limbs_value(y1), limbs_value(x2), limbs_value(y2));
    let dmf = limbs_value(c.d_mul_f.result.0@);
    &&& bytes_in_range(x1) && bytes_in_range(y1) && bytes_in_range(x2) && bytes_in_range(y2)
    &&& gadget_ok(c.x3_numerator.result, c.x3_numerator.carry)
    &&& gadget_ok(c.y3_numerator.result, c.y3_numerator.carry)
    &&& gadget_ok(c.x1_mul_y1.result, c.x1_mul_y1.carry)
    &&& gadget_ok(c.x2_mul_y2.result, c.x2_mul_y2.carry)
    &&& gadget_ok(c.f.result, c.f.carry)
    &&& gadget_ok(c.d_mul_f.result, c.d_mul_f.carry)
    &&& gadget_ok(c.x3_ins.result, c.x3_ins.carry)
    &&& gadget_ok(c.y3_ins.result, c.y3_ins.carry)
    &&& vx1 * vy2 + vx2 * vy1 == limbs_value(c.x3_numerator.result.0@) + limbs_value(c.x3_numerator.carry.0@) * p
    &&& vy1 * vy2 + vx1 * vx2 == limbs_value(c.y3_numerator.result.0@) + limbs_value(c.y3_numerator.carry.0@) * p
    &&& product_identity(vx1, vy1, c.x1_mul_y1.result, c.x1_mul_y1.carry)
    &&& product_identity(vx2, vy2, c.x2_mul_y2.result, c.x2_mul_y2.carry)
    &&& product_identity(limbs_value(c.x1_mul_y1.result.0@), limbs_value(c.x2_mul_y2.result.0@), c.f.result, c.f.carry)
    &&& product_identity(limbs_value(c.f.result.0@), ed_d(), c.d_mul_f.result, c.d_mul_f.carry)
    &&& limbs_value(c.x3_ins.result.0@) * den_spec(dmf, true, p)
        == limbs_value(c.x3_numerator.result.0@) + limbs_value(c.x3_ins.carry.0@) * p
    &&& limbs_value(c.y3_ins.result.0@) * den_spec(dmf, false, p)
        == limbs_value(c.y3_numerator.result.0@) + limbs_value(c.y3_ins.carry.0@) * p
    &&& limbs_written(c.x3_ins.result, c.p_access@, 0)
    &&& limbs_written(c.y3_ins.result, c.p_access@, 8)
}

fn prev_words(acc: &[MemoryAccessCols<u32>; 16], start: usize) -> (r: Option<Vec<u32>>)
    requires
        start <= 8,
    ensures
        r is Some <==> bytes_in_range(prev_limbs(acc@, start as int)),
        r is Some ==> r->0@ == limb_words(prev_limbs(acc@, start as int)),
{
    let ghost l = prev_limbs(acc@, start as int);
    let mut w: Vec<u32> = Vec::new();
    let mut j: usize = 0;
    while j < 8
        invariant
            j <= 8,
            start <= 8,
            l == prev_limbs(acc@, start as int),
            w@.len() == j,
            forall|i: int| 0 <= i < 4 * j ==> #[trigger] l[i] < 256,
            forall|k: int| 0 <= k < j ==> #[trigger] w@[k] == limb_word(l, k) as u32,
        decreases 8 - j,
    {
        let b = acc[start + j].prev_value.0;
        assert(l[4 * j as int] == b@[0] && l[4 * j + 1] == b@[1] && l[4 * j + 2] == b@[2] && l[4 * j + 3] == b@[3]);
        match word_of_bytes(b[0], b[1], b[2], b[3]) {
            Some(v) => {
                w.push(v);
            },
            None => {
                assert(!bytes_in_range(l));
                return None;
            },
        }
        j = j + 1;
    }
    assert(w@ =~= limb_words(l));
    Some(w)
}

fn read_words(acc: &[MemoryReadCols<u32>; 16], start: usize) -> (r: Option<Vec<u32>>)
    requires
        start <= 8,
    ensures
        r is Some <==> bytes_in_range(read_limbs(acc@, start as int)),
        r is Some ==> r->0@ == limb_words(read_limbs(acc@, start as int)),
{
    let ghost l = read_limbs(acc@, start as int);
    let mut w: Vec<u32> = Vec::new();
    let mut j: usize = 0;
    while j < 8
        invariant
            j <= 8,
            start <= 8,
            l == read_limbs(acc@, start as int),
            w@.len() == j,
            forall|i: int| 0 <= i < 4 * j ==> #[trigger] l[i] < 256,
            forall|k: int| 0 <= k < j ==> #[trigger] w@[k] == limb_word(l, k) as u32,
        decreases 8 - j,
    {
        let b = acc[start + j].value.0;
        assert(l[4 * j as int] == b@[0] && l[4 * j + 1] == b@[1] && l[4 * j + 2] == b@[2] && l[4 * j + 3] == b@[3]);
        match word_of_bytes(b[0], b[1], b[2], b[3]) {
            Some(v) => {
                w.push(v);
            },
            None => {
                assert(!bytes_in_range(l));
                return None;
            },
        }
        j = j + 1;
    }
    assert(w@ =~= limb_words(l));
    Some(w)
}

fn gadget_words(result: &Limbs<u32>, carry: &Limbs<u32>, m: &Vec<u32>) -> (r: Option<(Vec<u32>, Vec<u32>)>)
    requires
        m@ == ed_modulus_words(),
    ensures
        r is Some <==> gadget_ok(*result, *carry),
        match r {
            Some((rw, kw)) => rw@ == limb_words(result.0@) && kw@ == limb_words(carry.0@),
            None => true,
        },
{
    proof {
        lemma_ed_p_value();
    }
    let rw = match limbs_to_words(result) {
        Some(w) => w,
        None => {
            return None;
        },
    };
    let kw = match limbs_to_words(carry) {
        Some(w) => w,
        None => {
            return None;
        },
    };
    let reduced = big_rem(&rw, m);
    if !same_value(&reduced, &rw) {
        proof {
            if words_value(rw@) < ed_p() {
                vstd::arithmetic::div_mod::lemma_small_mod(words_value(rw@), ed_p());
            }
        }
        return None;
    }
    proof {
        vstd::arithmetic::div_mod::lemma_mod_bound(words_value(rw@) as int, ed_p() as int);
    }
    Some((rw, kw))
}

impl EdAddAssignCols<u32> {
    /// Whether the row satisfies every identity of the curve-addition
    /// constraints.
    #[verifier::rlimit(100)]
    #[verifier::spinoff_prover]
    pub fn eval_holds(&self) -> (r: bool)
        ensures
            r == row_constraints_hold(*self),
    {
        proof {
            lemma_ed_p_value();
        }
        let m = ed_modulus();
        let d = ed_d_constant();
        let x1 = match prev_words(&self.p_access, 0) { Some(w) => w, None => { return false; } };
        let y1 = match prev_words(&self.p_access, 8) { Some(w) => w, None => { return false; } };
        let x2 = match read_words(&self.q_access, 0) { Some(w) => w, None => { return false; } };
        let y2 = match read_words(&self.q_access, 8) { Some(w) => w, None => { return false; } };
        let (x3n, x3nk) = match gadget_words(&self.x3_numerator.result, &self.x3_numerator.carry, &m) { Some(v) => v, None => { return false; } };
        let (y3n, y3nk) = match gadget_words(&self.y3_numerator.result, &self.y3_numerator.carry, &m) { Some(v) => v, None => { return false; } };
        let (a, ak) = match gadget_words(&self.x1_mul_y1.result, &self.x1_mul_y1.carry, &m) { Some(v) => v, None => { return false; } };
        let (b, bk) = match gadget_words(&self.x2_mul_y2.result, &self.x2_mul_y2.carry, &m) { Some(v) => v, None => { return false; } };
        let (f, fk) = match gadget_words(&self.f.result, &self.f.carry, &m) { Some(v) => v, None => { return false; } };
        let (g, gk) = match gadget_words(&self.d_mul_f.result, &self.d_mul_f.carry, &m) { Some(v) => v, None => { return false; } };
        let (x3, x3k) = match gadget_words(&self.x3_ins.result, &self.x3_ins.carry, &m) { Some(v) => v, None => { return false; } };
        let (y3, y3k) = match gadget_words(&self.y3_ins.result, &self.y3_ins.carry, &m) { Some(v) => v, None => { return false; } };
        if !same_value(&big_add(&big_mul(&x1, &y2), &big_mul(&x2, &y1)), &big_add(&x3n, &big_mul(&x3nk, &m))) {
            return false;
        }
        if !same_value(&big_add(&big_mul(&y1, &y2), &big_mul(&x1, &x2)), &big_add(&y3n, &big_mul(&y3nk, &m))) {
            return false;
        }
        if !same_value(&big_mul(&x1, &y1), &big_add(&a, &big_mul(&ak, &m))) {
            return false;
        }
        if !same_value(&big_mul(&x2, &y2), &big_add(&b, &big_mul(&bk, &m))) {
            return false;
        }
        if !same_value(&big_mul(&a, &b), &big_add(&f, &big_mul(&fk, &m))) {
            return false;
        }
        if !same_value(&big_mul(&f, &d), &big_add(&g, &big_mul(&gk, &m))) {
            return false;
        }
        let ghost (vg, pp) = (words_value(g@), ed_p());
        let one = one_word();
        let den_plus = big_rem(&big_add(&one, &g), &m);
        let den_minus = big_rem(&big_sub(&big_add(&one, &m), &g), &m);
        proof {
            vstd::arithmetic::div_mod::lemma_mod_add_multiples_vanish(1 - vg, pp as int);
            assert(1 + pp - vg == (1 - vg) + pp);
            assert(words_value(den_plus@) == den_spec(vg, true, pp));
            assert(words_value(den_minus@) == den_spec(vg, false, pp));
        }
        if !same_value(&big_mul(&x3, &den_plus), &big_add(&x3n, &big_mul(&x3k, &m))) {
            return false;
        }
        if !same_value(&big_mul(&y3, &den_minus), &big_add(&y3n, &big_mul(&y3k, &m))) {
            return false;
        }
        self.writeback_holds()
    }
}

proof fn lemma_quotient_bound(s: nat, r: nat, k: nat, p: nat, c: nat)
    requires
        p > 0,
        s == r + k * p,
        s < c * p,
    ensures
        k < c,
{
    assert(k < c) by (nonlinear_arith)
        requires p > 0, s == r + k * p, s < c * p;
}

/// The byte limbs of a result or carry whose value fits eight words.
fn value_limbs(w: Vec<u32>) -> (r: Limbs<u32>)
    requires
        is_normalized(w@),
        words_value(w@) < word_weight(8),
    ensures
        bytes_in_range(r.0@),
        limbs_value(r.0@) == words_value(w@),
{
    let f = fixed_words(w, 8);
    limbs_of_words(&f)
}

fn array_words(a: &[u32; 16], from: usize) -> (r: Vec<u32>)
    requires
        from <= 8,
    ensures
        r@ == a@.subrange(from as int, from + 8),
{
    let mut r: Vec<u32> = Vec::new();
    let mut i: usize = 0;
    while i < 8
        invariant
            i <= 8,
            from <= 8,
            r@ == a@.subrange(from as int, from + i),
        decreases 8 - i,
    {
        r.push(a[from + i]);
        i = i + 1;
        assert(r@ =~= a@.subrange(from as int, from + i));
    }
    r
}

/// The coordinates of a point's words are field elements.
pub open spec fn point_reduced(w: Seq<u32>) -> bool {
    &&& words_value(w.subrange(0, 8)) < ed_p()
    &&& words_value(w.subrange(8, 16)) < ed_p()
}

/// Whether both coordinates that the words of a point hold are field elements.
pub fn point_is_reduced(w: &[u32; 16]) -> (r: bool)
    ensures
        r == point_reduced(w@),
{
    proof {
        lemma_ed_p_value();
    }
    let m = ed_modulus();
    let x = array_words(w, 0);
    let y = array_words(w, 8);
    let xr = big_rem(&x, &m);
    let yr = big_rem(&y, &m);
    let ok = same_value(&xr, &x) && same_value(&yr, &y);
    proof {
        let (vx, vy) = (words_value(x@), words_value(y@));
        vstd::arithmetic::div_mod::lemma_mod_bound(vx as int, ed_p() as int);
        vstd::arithmetic::div_mod::lemma_mod_bound(vy as int, ed_p() as int);
        if vx < ed_p() {
            vstd::arithmetic::div_mod::lemma_small_mod(vx, ed_p());
        }
        if vy < ed_p() {
            vstd::arithmetic::div_mod::lemma_small_mod(vy, ed_p());
        }
    }
    ok
}

/// The row of an event: its accesses, and every gadget populated in the
/// order of the addition law. Fails exactly when a denominator has no inverse.
#[verifier::rlimit(100)]
#[verifier::spinoff_prover]
pub fn populate_row(ev: &EdAddEvent) -> (r: Result<EdAddAssignCols<u32>, FieldError>)
    requires
        point_reduced(ev.p@),
        point_reduced(ev.q@),
    ensures
        r is Err <==> !ed_sum_defined_words(ev.p@, ev.q@),
        match r {
            Ok(c) => {
                &&& row_constraints_hold(c)
                &&& c.clk == ev.clk
                &&& c.p_ptr == ev.p_ptr
                &&& c.q_ptr == ev.q_ptr
                &&& limb_words(prev_limbs(c.p_access@, 0)) == ev.p@.subrange(0, 8)
                &&& limb_words(prev_limbs(c.p_access@, 8)) == ev.p@.subrange(8, 16)
                &&& limb_words(read_limbs(c.q_access@, 0)) == ev.q@.subrange(0, 8)
                &&& limb_words(read_limbs(c.q_access@, 8)) == ev.q@.subrange(8, 16)
            },
            Err(e) => e == FieldError::NotInvertible,
        },
{
    proof {
        lemma_ed_p_value();
        lemma_ed_d_reduced();
        vstd::arithmetic::div_mod::lemma_small_mod(words_value(ev.p@.subrange(0, 8)), ed_p());
        vstd::arithmetic::div_mod::lemma_small_mod(words_value(ev.p@.subrange(8, 16)), ed_p());
        vstd::arithmetic::div_mod::lemma_small_mod(words_value(ev.q@.subrange(0, 8)), ed_p());
        vstd::arithmetic::div_mod::lemma_small_mod(words_value(ev.q@.subrange(8, 16)), ed_p());
    }
    let ghost pp = ed_p();
    let m = ed_modulus();
    let d = ed_d_constant();
    let x1 = array_words(&ev.p, 0);
    let y1 = array_words(&ev.p, 8);
    let x2 = array_words(&ev.q, 0);
    let y2 = array_words(&ev.q, 8);
    let ghost (vx1, vy1, vx2, vy2) = (words_value(x1@), words_value(y1@), words_value(x2@), words_value(y2@));
    let x3n = FpOpWitness::populate_inner_product(
        &vec![copy_words(&x1), copy_words(&x2)],
        &vec![copy_words(&y2), copy_words(&y1)],
        &m,
    );
    let y3n = FpOpWitness::populate_inner_product(
        &vec![copy_words(&y1), copy_words(&x1)],
        &vec![copy_words(&y2), copy_words(&x2)],
        &m,
    );
    let a = FpOpWitness::populate(&x1, &y1, FpOperation::Mul, &m);
    let b = FpOpWitness::populate(&x2, &y2, FpOperation::Mul, &m);
    let f = FpOpWitness::populate(&a.result, &b.result, FpOperation::Mul, &m);
    let g = FpOpWitness::populate(&f.result, &d, FpOperation::Mul, &m);
    proof {
        lemma_x3_denominator(vx1, vy1, vx2, vy2, words_value(a.result@), words_value(b.result@),
            words_value(f.result@), words_value(g.result@));
    }
    let x3 = match FpOpWitness::populate_den(&x3n.result, &g.result, true, &m) {
        Ok(w) => w,
        Err(e) => {
            return Err(e);
        },
    };
    let y3 = match FpOpWitness::populate_den(&y3n.result, &g.result, false, &m) {
        Ok(w) => w,
        Err(e) => {
            return Err(e);
        },
    };
    proof {
        reveal_with_fuel(inner_product, 3);
        let vg = words_value(g.result@);
        assert(vx1 * vy2 + vx2 * vy1 < 2 * pp * pp) by (nonlinear_arith)
            requires vx1 < pp, vy1 < pp, vx2 < pp, vy2 < pp;
        assert(vy1 * vy2 + vx1 * vx2 < 2 * pp * pp) by (nonlinear_arith)
            requires vx1 < pp, vy1 < pp, vx2 < pp, vy2 < pp;
        lemma_quotient_bound((vx1 * vy2 + vx2 * vy1) as nat, words_value(x3n.result@), words_value(x3n.carry@), pp, 2 * pp);
        lemma_quotient_bound((vy1 * vy2 + vx1 * vx2) as nat, words_value(y3n.result@), words_value(y3n.carry@), pp, 2 * pp);
        assert(vx1 * vy1 < pp * pp) by (nonlinear_arith) requires vx1 < pp, vy1 < pp;
        assert(vx2 * vy2 < pp * pp) by (nonlinear_arith) requires vx2 < pp, vy2 < pp;
        let (va, vb, vf) = (words_value(a.result@), words_value(b.result@), words_value(f.result@));
        assert(va * vb < pp * pp) by (nonlinear_arith) requires va < pp, vb < pp;
        assert(vf * ed_d() < pp * pp) by (nonlinear_arith) requires vf < pp, ed_d() < pp;
        lemma_quotient_bound(vx1 * vy1, va, words_value(a.carry@), pp, pp);
        lemma_quotient_bound(vx2 * vy2, vb, words_value(b.carry@), pp, pp);
        lemma_quotient_bound(va * vb, vf, words_value(f.carry@), pp, pp);
        lemma_quotient_bound(vf * ed_d(), vg, words_value(g.carry@), pp, pp);
        let (v3, w3) = (words_value(x3.result@), words_value(y3.result@));
        let (dp, dm) = (den_spec(vg, true, pp), den_spec(vg, false, pp));
        assert(v3 * dp < pp * pp) by (nonlinear_arith) requires v3 < pp, dp < pp;
        assert(w3 * dm < pp * pp) by (nonlinear_arith) requires w3 < pp, dm < pp;
        lemma_quotient_bound(v3 * dp, words_value(x3n.result@), words_value(x3.carry@), pp, pp);
        lemma_quotient_bound(w3 * dm, words_value(y3n.result@), words_value(y3.carry@), pp, pp);
    }
    let x3l = value_limbs(x3.result);
    let y3l = value_limbs(y3.result);
    let blank_w = Word([0u32, 0, 0, 0]);
    let mut p_access: [MemoryAccessCols<u32>; 16] = [MemoryAccessCols { prev_value: blank_w, value: blank_w }; 16];
    let mut q_access: [MemoryReadCols<u32>; 16] = [MemoryReadCols { value: blank_w }; 16];
    let mut k: usize = 0;
    while k < 16
        invariant
            k <= 16,
            p_access@.len() == 16,
            q_access@.len() == 16,
            forall|j: int| 0 <= j < k ==> (#[trigger] p_access@[j]).prev_value.0@[0] + 256 * p_access@[j].prev_value.0@[1]
                + 65536 * p_access@[j].prev_value.0@[2] + 16777216 * p_access@[j].prev_value.0@[3] == ev.p@[j]
                && p_access@[j].prev_value.0@[0] < 256 && p_access@[j].prev_value.0@[1] < 256
                && p_access@[j].prev_value.0@[2] < 256 && p_access@[j].prev_value.0@[3] < 256,
            forall|j: int| 0 <= j < k ==> (#[trigger] q_access@[j]).value.0@[0] + 256 * q_access@[j].value.0@[1]
                + 65536 * q_access@[j].value.0@[2] + 16777216 * q_access@[j].value.0@[3] == ev.q@[j]
                && q_access@[j].value.0@[0] < 256 && q_access@[j].value.0@[1] < 256
                && q_access@[j].value.0@[2] < 256 && q_access@[j].value.0@[3] < 256,
            forall|j: int| 0 <= j < k && j < 8 ==> #[trigger] p_access@[j].value.0@ == x3l.0@.subrange(4 * j, 4 * j + 4),
            forall|j: int| 8 <= j < k ==> #[trigger] p_access@[j].value.0@ == y3l.0@.subrange(4 * (j - 8), 4 * (j - 8) + 4),
        decreases 16 - k,
    {
        let src = if k < 8 { &x3l } else { &y3l };
        let o: usize = if k < 8 { 4 * k } else { 4 * (k - 8) };
        let value = Word([src.0[o], src.0[o + 1], src.0[o + 2], src.0[o + 3]]);
        assert(value.0@ =~= src.0@.subrange(o as int, o + 4));
        p_access[k] = MemoryAccessCols { prev_value: Word(bytes_of_word(ev.p[k])), value };
        q_access[k] = MemoryReadCols { value: Word(bytes_of_word(ev.q[k])) };
        k = k + 1;
    }
    let c = EdAddAssignCols {
        clk: ev.clk,
        p_ptr: ev.p_ptr,
        q_ptr: ev.q_ptr,
        p_access,
        q_access,
        x3_numerator: FpInnerProductCols { result: value_limbs(x3n.result), carry: value_limbs(x3n.carry) },
        y3_numerator: FpInnerProductCols { result: value_limbs(y3n.result), carry: value_limbs(y3n.carry) },
        x1_mul_y1: FpOpCols { result: value_limbs(a.result), carry: value_limbs(a.carry) },
        x2_mul_y2: FpOpCols { result: value_limbs(b.result), carry: value_limbs(b.carry) },
        f: FpOpCols { result: value_limbs(f.result), carry: value_limbs(f.carry) },
        d_mul_f: FpOpCols { result: value_limbs(g.result), carry: value_limbs(g.carry) },
        x3_ins: FpDenCols { result: x3l, carry: value_limbs(x3.carry) },
        y3_ins: FpDenCols { result: y3l, carry: value_limbs(y3.carry) },
    };
    proof {
        assert(limb_words(prev_limbs(c.p_access@, 0)) =~= ev.p@.subrange(0, 8));
        assert(limb_words(prev_limbs(c.p_access@, 8)) =~= ev.p@.subrange(8, 16));
        assert(limb_words(read_limbs(c.q_access@, 0)) =~= ev.q@.subrange(0, 8));
        assert(limb_words(read_limbs(c.q_access@, 8)) =~= ev.q@.subrange(8, 16));
        assert forall|i: int| 0 <= i < 32 implies #[trigger] prev_limbs(c.p_access@, 0)[i] < 256 by {}
        assert forall|i: int| 0 <= i < 32 implies #[trigger] prev_limbs(c.p_access@, 8)[i] < 256 by {}
        assert forall|i: int| 0 <= i < 32 implies #[trigger] read_limbs(c.q_access@, 0)[i] < 256 by {}
        assert forall|i: int| 0 <= i < 32 implies #[trigger] read_limbs(c.q_access@, 8)[i] < 256 by {}
        assert forall|i: int| 0 <= i < NUM_LIMBS implies #[trigger] x3l.0@[i] == c.p_access@[0 + i / 4].value.0@[i % 4] by {
            assert(c.p_access@[i / 4].value.0@ == x3l.0@.subrange(4 * (i / 4), 4 * (i / 4) + 4));
        }
        assert forall|i: int| 0 <= i < NUM_LIMBS implies #[trigger] y3l.0@[i] == c.p_access@[8 + i / 4].value.0@[i % 4] by {
            assert(c.p_access@[8 + i / 4].value.0@ == y3l.0@.subrange(4 * (i / 4), 4 * (i / 4) + 4));
        }
        assert(row_constraints_hold(c));
    }
    Ok(c)
}

/// `h` is a power of two.
pub open spec fn is_pow2(h: nat) -> bool
    decreases h,
{
    if h <= 1 {
        h == 1
    } else {
        h % 2 == 0 && is_pow2(h / 2)
    }
}

/// The trace height for `n` rows: the least power of two that is at least `n`.
pub fn padded_height(n: usize) -> (h: usize)
    requires
        n <= 0x4000_0000,
    ensures
        is_pow2(h as nat),
        n <= h,
        h == 1 || h / 2 < n,
{
    let mut h: usize = 1;
    while h < n
        invariant
            is_pow2(h as nat),
            h == 1 || h / 2 < n,
            1 <= h,
            h <= 1 || h <= 2 * n,
            n <= 0x4000_0000,
        decreases 2 * n + 1 - h,
    {
        let ghost h0 = h as nat;
        h = h * 2;
        assert(h as nat / 2 == h0 && h as nat % 2 == 0 && h as nat > 1);
        assert(is_pow2(h as nat));
    }
    h
}

/// The rows, followed by zero rows of `width` values up to a power-of-two height.
pub fn pad_rows(rows: Vec<Vec<u32>>, width: usize) -> (r: Vec<Vec<u32>>)
    requires
        rows@.len() <= 0x4000_0000,
    ensures
        is_pow2(r@.len()),
        rows@.len() <= r@.len(),
        r@.len() == 1 || r@.len() / 2 < rows@.len(),
        forall|i: int| 0 <= i < rows@.len() ==> r@[i] == rows@[i],
        forall|i: int| rows@.len() <= i < r@.len() ==> (#[trigger] r@[i])@ == Seq::new(width as nat, |j: int| 0u32),
{
    let h = padded_height(rows.len());
    let ghost rows0 = rows@;
    let mut r = rows;
    while r.len() < h
        invariant
            rows0.len() <= r@.len() <= h,
            forall|i: int| 0 <= i < rows0.len() ==> r@[i] == rows0[i],
            forall|i: int| rows0.len() <= i < r@.len() ==> (#[trigger] r@[i])@ == Seq::new(width as nat, |j: int| 0u32),
        decreases h - r.len(),
    {
        let mut z: Vec<u32> = Vec::new();
        while z.len() < width
            invariant
                z@.len() <= width,
                forall|j: int| 0 <= j < z@.len() ==> z@[j] == 0,
            decreases width - z.len(),
        {
            z.push(0);
        }
        assert(z@ =~= Seq::new(width as nat, |j: int| 0u32));
        r.push(z);
    }
    r
}

/// The values of one trace row for an event: clock, both pointers, then
/// the words of `P` and of `Q`.
pub fn trace_row(ev: &EdAddEvent) -> (r: Vec<u32>)
    ensures
        r@ == seq![ev.clk, ev.p_ptr, ev.q_ptr] + ev.p@ + ev.q@,
{
    let mut r: Vec<u32> = vec![ev.clk, ev.p_ptr, ev.q_ptr];
    let mut i: usize = 0;
    while i < POINT_WORDS
        invariant
            i <= POINT_WORDS,
            r@ == seq![ev.clk, ev.p_ptr, ev.q_ptr] + ev.p@.subrange(0, i as int),
        decreases POINT_WORDS - i,
    {
        r.push(ev.p[i]);
        i = i + 1;
        assert(r@ =~= seq![ev.clk, ev.p_ptr, ev.q_ptr] + ev.p@.subrange(0, i as int));
    }
    assert(ev.p@.subrange(0, 16) =~= ev.p@);
    let mut i: usize = 0;
    while i < POINT_WORDS
        invariant
            i <= POINT_WORDS,
            r@ == seq![ev.clk, ev.p_ptr, ev.q_ptr] + ev.p@ + ev.q@.subrange(0, i as int),
        decreases POINT_WORDS - i,
    {
        r.push(ev.q[i]);
        i = i + 1;
        assert(r@ =~= seq![ev.clk, ev.p_ptr, ev.q_ptr] + ev.p@ + ev.q@.subrange(0, i as int));
    }
    assert(ev.q@.subrange(0, 16) =~= ev.q@);
    r
}

} // verus!
