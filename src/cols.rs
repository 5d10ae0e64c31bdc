//! Column layouts: named, typed views of one trace row.
use vstd::prelude::*;

verus! {

/// Four byte limbs of a 32-bit word.
#[derive(Clone, Copy, Debug)]
pub struct Word<T>(pub [T; 4]);

/// The columns of a read-only memory access.
#[derive(Clone, Copy, Debug)]
pub struct MemoryReadCols<T> {
    pub value: Word<T>,
}

/// The columns of a memory access that may change the word.
#[derive(Clone, Copy, Debug)]
pub struct MemoryAccessCols<T> {
    pub prev_value: Word<T>,
    pub value: Word<T>,
}

/// The columns of a memory access that reads a word and writes it back.
#[derive(Clone, Copy, Debug)]
pub struct MemoryReadWriteCols<T> {
    pub prev_value: Word<T>,
    pub value: Word<T>,
}

/// The byte limbs of a field element, least significant first.
#[derive(Clone, Copy, Debug)]
pub struct Limbs<T>(pub [T; 32]);

#[derive(Clone, Copy, Debug)]
pub struct AffinePoint<T> {
    pub x: Limbs<T>,
    pub y: Limbs<T>,
}

/// The columns of one modular add, sub or mul.
#[derive(Clone, Copy, Debug)]
pub struct FpOpCols<T> {
    pub result: Limbs<T>,
    pub carry: Limbs<T>,
}

/// The columns of a modular inner product.
#[derive(Clone, Copy, Debug)]
pub struct FpInnerProductCols<T> {
    pub result: Limbs<T>,
    pub carry: Limbs<T>,
}

/// The columns of a modular division by `1 ± b`.
#[derive(Clone, Copy, Debug)]
pub struct FpDenCols<T> {
    pub result: Limbs<T>,
    pub carry: Limbs<T>,
}

/// The columns of a 32-bit addition.
#[derive(Clone, Copy, Debug)]
pub struct AddOperation<T> {
    pub value: Word<T>,
    pub carry: [T; 3],
}

/// The limbs of a field element laid out word by word, least significant first.
pub open spec fn limbs_match_words<T>(limbs: Seq<T>, words: Seq<Word<T>>) -> bool {
    &&& limbs.len() == 4 * words.len()
    &&& forall|i: int| 0 <= i < limbs.len() ==> limbs[i] == words[i / 4].0@[i % 4]
}

/// The current words of a run of read-only accesses.
pub open spec fn read_values<T>(cols: Seq<MemoryReadCols<T>>) -> Seq<Word<T>> {
    cols.map_values(|c: MemoryReadCols<T>| c.value)
}

/// The prior words of a run of accesses.
pub open spec fn access_prev_values<T>(cols: Seq<MemoryAccessCols<T>>) -> Seq<Word<T>> {
    cols.map_values(|c: MemoryAccessCols<T>| c.prev_value)
}

/// The word that the four byte limbs from `4 j` on form.
pub open spec fn limb_word(l: Seq<u32>, j: int) -> int {
    l[4 * j] + 256 * l[4 * j + 1] + 65536 * l[4 * j + 2] + 16777216 * l[4 * j + 3]
}

/// Every limb is a byte.
pub open spec fn bytes_in_range(l: Seq<u32>) -> bool {
    forall|i: int| 0 <= i < l.len() ==> #[trigger] l[i] < 256
}

/// The words that byte limbs form, four limbs to a word.
pub open spec fn limb_words(l: Seq<u32>) -> Seq<u32> {
    Seq::new(l.len() / 4, |j: int| limb_word(l, j) as u32)
}

/// The words of four byte limbs, when each is a byte.
pub fn word_of_bytes(b0: u32, b1: u32, b2: u32, b3: u32) -> (r: Option<u32>)
    ensures
        r is Some <==> (b0 < 256 && b1 < 256 && b2 < 256 && b3 < 256),
        r is Some ==> r->0 == b0 + 256 * b1 + 65536 * b2 + 16777216 * b3,
{
    if b0 < 256 && b1 < 256 && b2 < 256 && b3 < 256 {
        Some(b0 + 256 * b1 + 65536 * b2 + 16777216 * b3)
    } else {
        None
    }
}

/// The words of 32 byte limbs, or `None` when one is not a byte.
pub fn limbs_to_words(l: &Limbs<u32>) -> (r: Option<Vec<u32>>)
    ensures
        r is Some <==> bytes_in_range(l.0@),
        r is Some ==> r->0@ == limb_words(l.0@),
{
    let mut w: Vec<u32> = Vec::new();
    let mut j: usize = 0;
    while j < 8
        invariant
            j <= 8,
            l.0@.len() == 32,
            w@.len() == j,
            forall|i: int| 0 <= i < 4 * j ==> #[trigger] l.0@[i] < 256,
            forall|k: int| 0 <= k < j ==> #[trigger] w@[k] == limb_word(l.0@, k) as u32,
        decreases 8 - j,
    {
        match word_of_bytes(l.0[4 * j], l.0[4 * j + 1], l.0[4 * j + 2], l.0[4 * j + 3]) {
            Some(v) => {
                w.push(v);
            },
            None => {
                assert(!bytes_in_range(l.0@));
                return None;
            },
        }
        j = j + 1;
    }
    assert(w@ =~= limb_words(l.0@));
    Some(w)
}

/// The four byte limbs of a word, least significant first.
pub fn bytes_of_word(w: u32) -> (r: [u32; 4])
    ensures
        r@[0] < 256 && r@[1] < 256 && r@[2] < 256 && r@[3] < 256,
        r@[0] + 256 * r@[1] + 65536 * r@[2] + 16777216 * r@[3] == w,
{
    let b0 = w & 0xff;
    let b1 = (w >> 8u32) & 0xff;
    let b2 = (w >> 16u32) & 0xff;
    let b3 = w >> 24u32;
    assert(b0 < 256 && b1 < 256 && b2 < 256 && b3 < 256) by (bit_vector)
        requires b0 == w & 0xff, b1 == (w >> 8u32) & 0xff, b2 == (w >> 16u32) & 0xff, b3 == w >> 24u32;
    assert(b0 + 256 * b1 + 65536 * b2 + 16777216 * b3 == w) by (bit_vector)
        requires b0 == w & 0xff, b1 == (w >> 8u32) & 0xff, b2 == (w >> 16u32) & 0xff, b3 == w >> 24u32;
    [b0, b1, b2, b3]
}

/// The 32 byte limbs of eight words.
pub fn limbs_of_words(w: &Vec<u32>) -> (r: Limbs<u32>)
    requires
        w@.len() == 8,
    ensures
        bytes_in_range(r.0@),
        limb_words(r.0@) == w@,
{
    let mut a: [u32; 32] = [0u32; 32];
    let mut j: usize = 0;
    while j < 8
        invariant
            j <= 8,
            w@.len() == 8,
            a@.len() == 32,
            forall|i: int| 0 <= i < 32 ==> #[trigger] a@[i] < 256,
            forall|k: int| 0 <= k < j ==> #[trigger] limb_word(a@, k) == w@[k] as int,
        decreases 8 - j,
    {
        let b = bytes_of_word(w[j]);
        let ghost before = a@;
        a[4 * j] = b[0];
        a[4 * j + 1] = b[1];
        a[4 * j + 2] = b[2];
        a[4 * j + 3] = b[3];
        proof {
            assert forall|k: int| 0 <= k <= j implies #[trigger] limb_word(a@, k) == w@[k] as int by {
                if k < j {
                    assert(limb_word(before, k) == w@[k] as int);
                    assert(a@[4 * k] == before[4 * k] && a@[4 * k + 1] == before[4 * k + 1]
                        && a@[4 * k + 2] == before[4 * k + 2] && a@[4 * k + 3] == before[4 * k + 3]);
                }
            }
        }
        j = j + 1;
    }
    assert(limb_words(a@) =~= w@);
    Limbs(a)
}

} // verus!
