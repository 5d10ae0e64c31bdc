use vstd::prelude::*;
use vstd::arithmetic::div_mod::lemma_fundamental_div_mod_converse;

verus! {

/// The radix of a word: one `u32` digit.
pub open spec fn word_base() -> nat {
    0x1_0000_0000
}

/// The weight `2^(32 i)` of the `i`-th word of a little-endian number.
pub open spec fn word_weight(i: nat) -> nat
    decreases i,
{
    if i == 0 {
        1
    } else {
        word_base() * word_weight((i - 1) as nat)
    }
}

/// The natural number that a little-endian sequence of words denotes.
pub open spec fn words_value(w: Seq<u32>) -> nat
    decreases w.len(),
{
    if w.len() == 0 {
        0
    } else {
        words_value(w.drop_last()) + (w.last() as nat) * word_weight((w.len() - 1) as nat)
    }
}

/// A sequence of words without a zero at its most significant end.
pub open spec fn is_normalized(w: Seq<u32>) -> bool {
    w.len() == 0 || w.last() != 0
}

pub proof fn lemma_word_weight_positive(i: nat)
    ensures
        word_weight(i) >= 1,
    decreases i,
{
    if i > 0 {
        lemma_word_weight_positive((i - 1) as nat);
        assert(word_base() * word_weight((i - 1) as nat) >= word_weight((i - 1) as nat))
            by (nonlinear_arith)
            requires word_weight((i - 1) as nat) >= 1, word_base() >= 1;
    }
}

pub proof fn lemma_word_weight_monotonic(i: nat, j: nat)
    requires
        i <= j,
    ensures
        word_weight(i) <= word_weight(j),
    decreases j,
{
    if i < j {
        lemma_word_weight_monotonic(i, (j - 1) as nat);
        lemma_word_weight_positive((j - 1) as nat);
        assert(word_base() * word_weight((j - 1) as nat) >= word_weight((j - 1) as nat))
            by (nonlinear_arith)
            requires word_weight((j - 1) as nat) >= 1, word_base() >= 1;
    }
}

/// A normalized number is at least the weight of its top word, so it
/// has no more words than its value needs.
pub proof fn lemma_normalized_len(w: Seq<u32>, n: nat)
    requires
        is_normalized(w),
        words_value(w) < word_weight(n),
    ensures
        w.len() <= n,
{
    if w.len() > n {
        let top = (w.len() - 1) as nat;
        lemma_word_weight_monotonic(n, top);
        assert((w.last() as nat) * word_weight(top) >= word_weight(top)) by (nonlinear_arith)
            requires w.last() as nat >= 1;
    }
}

/// Zeros at the most significant end do not change the value.
pub proof fn lemma_push_zero(w: Seq<u32>)
    ensures
        words_value(w.push(0)) == words_value(w),
{
    let v = w.push(0);
    assert(v.drop_last() =~= w);
    assert(v.last() == 0);
    assert((v.last() as nat) * word_weight((v.len() - 1) as nat) == 0);
}

/// A sequence of `n` words denotes less than `2^(32 n)`.
pub proof fn lemma_words_value_bound(w: Seq<u32>)
    ensures
        words_value(w) < word_weight(w.len()),
    decreases w.len(),
{
    if w.len() > 0 {
        let n = (w.len() - 1) as nat;
        lemma_words_value_bound(w.drop_last());
        let lo = words_value(w.drop_last());
        let top = w.last() as nat;
        let wt = word_weight(n);
        assert(lo + top * wt < word_base() * wt) by (nonlinear_arith)
            requires lo < wt, top < word_base();
    }
}

/// Two sequences of the same length that denote the same number are equal.
pub proof fn lemma_words_value_unique(a: Seq<u32>, b: Seq<u32>)
    requires
        a.len() == b.len(),
        words_value(a) == words_value(b),
    ensures
        a == b,
    decreases a.len(),
{
    if a.len() == 0 {
        assert(a =~= b);
    } else {
        let n = (a.len() - 1) as nat;
        let wt = word_weight(n);
        lemma_words_value_bound(a.drop_last());
        lemma_words_value_bound(b.drop_last());
        lemma_word_weight_positive(n);
        let v = words_value(a) as int;
        assert(v == (a.last() as int) * wt + words_value(a.drop_last()));
        assert(v == (b.last() as int) * wt + words_value(b.drop_last()));
        lemma_fundamental_div_mod_converse(v, wt as int, a.last() as int, words_value(a.drop_last()) as int);
        lemma_fundamental_div_mod_converse(v, wt as int, b.last() as int, words_value(b.drop_last()) as int);
        lemma_words_value_unique(a.drop_last(), b.drop_last());
        assert(a =~= a.drop_last().push(a.last()));
        assert(b =~= b.drop_last().push(b.last()));
    }
}

/// A sequence of zero words denotes zero.
pub proof fn lemma_zero_words(w: Seq<u32>)
    requires
        forall|i: int| 0 <= i < w.len() ==> w[i] == 0,
    ensures
        words_value(w) == 0,
    decreases w.len(),
{
    if w.len() > 0 {
        lemma_zero_words(w.drop_last());
        assert((w.last() as nat) * word_weight((w.len() - 1) as nat) == 0);
    }
}

/// A one followed by zero words denotes one.
pub proof fn lemma_one_words(w: Seq<u32>)
    requires
        w.len() >= 1,
        w[0] == 1,
        forall|i: int| 1 <= i < w.len() ==> w[i] == 0,
    ensures
        words_value(w) == 1,
    decreases w.len(),
{
    if w.len() == 1 {
        assert(w.drop_last() =~= Seq::<u32>::empty());
        assert(w.last() == 1);
        assert(words_value(w.drop_last()) == 0);
        assert((w.last() as nat) * word_weight(0) == 1);
    } else {
        assert(w.drop_last()[0] == 1);
        lemma_one_words(w.drop_last());
        assert(w.last() == 0);
        assert((w.last() as nat) * word_weight((w.len() - 1) as nat) == 0);
    }
}

/// Returns `w` extended with zero words to exactly `n` words.
pub fn fixed_words(w: Vec<u32>, n: usize) -> (r: Vec<u32>)
    requires
        is_normalized(w@),
        words_value(w@) < word_weight(n as nat),
    ensures
        r@.len() == n,
        words_value(r@) == words_value(w@),
        forall|i: int| 0 <= i < w@.len() ==> r@[i] == w@[i],
        forall|i: int| w@.len() <= i < n ==> r@[i] == 0,
{
    proof {
        lemma_normalized_len(w@, n as nat);
    }
    let ghost w0 = w@;
    let mut r = w;
    while r.len() < n
        invariant
            w0.len() <= r@.len() <= n,
            words_value(r@) == words_value(w0),
            forall|i: int| 0 <= i < w0.len() ==> r@[i] == w0[i],
            forall|i: int| w0.len() <= i < r@.len() ==> r@[i] == 0,
        decreases n - r.len(),
    {
        proof {
            lemma_push_zero(r@);
        }
        r.push(0);
    }
    r
}

/// `w` without the zero words at its most significant end.
pub fn normalize_words(w: &Vec<u32>) -> (r: Vec<u32>)
    ensures
        is_normalized(r@),
        words_value(r@) == words_value(w@),
{
    let mut r = w.clone();
    assert(r@ == w@);
    while r.len() > 0 && r[r.len() - 1] == 0
        invariant
            words_value(r@) == words_value(w@),
        decreases r@.len(),
    {
        let ghost before = r@;
        r.pop();
        proof {
            assert(before =~= r@.push(0));
            lemma_push_zero(r@);
        }
    }
    r
}

/// Two normalized sequences with the same value are equal.
pub proof fn lemma_normalized_unique(a: Seq<u32>, b: Seq<u32>)
    requires
        is_normalized(a),
        is_normalized(b),
        words_value(a) == words_value(b),
    ensures
        a == b,
{
    lemma_words_value_bound(a);
    lemma_words_value_bound(b);
    lemma_normalized_len(a, b.len());
    lemma_normalized_len(b, a.len());
    lemma_words_value_unique(a, b);
}

/// Whether two word sequences denote the same number.
pub fn same_value(a: &Vec<u32>, b: &Vec<u32>) -> (r: bool)
    ensures
        r == (words_value(a@) == words_value(b@)),
{
    let na = normalize_words(a);
    let nb = normalize_words(b);
    if na.len() != nb.len() {
        proof {
            if words_value(a@) == words_value(b@) {
                lemma_normalized_unique(na@, nb@);
            }
        }
        return false;
    }
    let mut i: usize = 0;
    while i < na.len()
        invariant
            na@.len() == nb@.len(),
            is_normalized(na@),
            is_normalized(nb@),
            words_value(na@) == words_value(a@),
            words_value(nb@) == words_value(b@),
            i <= na@.len(),
            forall|j: int| 0 <= j < i ==> na@[j] == nb@[j],
        decreases na@.len() - i,
    {
        if na[i] != nb[i] {
            proof {
                if words_value(a@) == words_value(b@) {
                    lemma_normalized_unique(na@, nb@);
                }
            }
            return false;
        }
        i = i + 1;
    }
    assert(na@ =~= nb@);
    true
}

/// The number one as a single word.
pub fn one_word() -> (r: Vec<u32>)
    ensures
        words_value(r@) == 1,
{
    let r: Vec<u32> = vec![1u32];
    proof {
        lemma_one_words(r@);
    }
    r
}

} // verus!
