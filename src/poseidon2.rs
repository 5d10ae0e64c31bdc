//! The external rounds of the Poseidon2 permutation over the BabyBear field,
//! applied in place to a state held in memory, and the chip's column layout.
use vstd::prelude::*;
use vstd::arithmetic::div_mod::{lemma_mod_bound, lemma_mul_mod_noop};
use vstd::arithmetic::power::pow;
use crate::cols::{AddOperation, MemoryReadWriteCols, Word};
use crate::ed_add::{outside_region, read_region, region, word_addr, write_region, REG_A0};
use crate::memory::{is_aligned, mem_word, MemoryError, MemoryRecord, Runtime};

verus! {

pub const POSEIDON2_DEFAULT_ROUNDS_F: usize = 8;

pub const POSEIDON2_DEFAULT_ROUNDS_P: usize = 22;

pub const POSEIDON2_DEFAULT_EXTERNAL_ROUNDS: usize = 4;

/// The BabyBear prime `2^31 - 2^27 + 1`.
pub const BABYBEAR_P: u64 = 2013265921;

/// The largest state width that the chip takes: it keeps the sums of the
/// linear layer, taken before reduction, within 64 bits.
pub const MAX_WIDTH: usize = 64;

pub open spec fn bb_p() -> nat {
    BABYBEAR_P as nat
}

/// The S-box `x^7` in the field.
pub open spec fn sbox(x: nat) -> nat {
    (pow(x as int, 7) % (bb_p() as int)) as nat
}

/// Row `r` of the 4x4 matrix `[[5, 7, 1, 3], [4, 6, 1, 1], [1, 3, 5, 7], [1, 1, 4, 6]]`
/// applied to the block of four that starts at `b`.
pub open spec fn m4_row(x: Seq<nat>, b: int, r: int) -> nat {
    let (x0, x1, x2, x3) = (x[b], x[b + 1], x[b + 2], x[b + 3]);
    if r == 0 {
        5 * x0 + 7 * x1 + x2 + 3 * x3
    } else if r == 1 {
        4 * x0 + 6 * x1 + x2 + x3
    } else if r == 2 {
        x0 + 3 * x1 + 5 * x2 + 7 * x3
    } else {
        x0 + x1 + 4 * x2 + 6 * x3
    }
}

/// `M4` applied to every block of four.
pub open spec fn m4_layer(x: Seq<nat>) -> Seq<nat> {
    Seq::new(x.len(), |k: int| m4_row(x, k - k % 4, k % 4))
}

/// The sum of entries `c, c + 4, ...` of the first `nb` blocks.
pub open spec fn column_sum(y: Seq<nat>, c: int, nb: nat) -> nat
    decreases nb,
{
    if nb == 0 {
        0
    } else {
        column_sum(y, c, (nb - 1) as nat) + y[4 * (nb - 1) + c]
    }
}

/// The external linear layer `circ(2 M4, M4, ..., M4)`.
pub open spec fn external_linear(x: Seq<nat>) -> Seq<nat> {
    let y = m4_layer(x);
    Seq::new(x.len(), |k: int| (y[k] + column_sum(y, k % 4, (x.len() / 4) as nat)) % bb_p())
}

/// One external round: add the round constants, apply the S-box to every
/// entry, then the linear layer.
pub open spec fn external_round(s: Seq<nat>, rc: Seq<nat>) -> Seq<nat> {
    external_linear(Seq::new(s.len(), |i: int| sbox((s[i] + rc[i]) % bb_p())))
}

/// The state after the first `r` external rounds from `s`.
pub open spec fn external_rounds(s: Seq<nat>, rcs: Seq<Seq<nat>>, r: nat) -> Seq<nat>
    decreases r,
{
    if r == 0 {
        s
    } else {
        external_round(external_rounds(s, rcs, (r - 1) as nat), rcs[r - 1])
    }
}

pub open spec fn as_nats(w: Seq<u32>) -> Seq<nat> {
    w.map_values(|v: u32| v as nat)
}

pub open spec fn reduced_nats(w: Seq<u32>) -> Seq<nat> {
    w.map_values(|v: u32| (v as nat) % bb_p())
}

/// `a * b` modulo the field prime.
pub fn mul_mod(a: u64, b: u64) -> (r: u64)
    requires
        a < BABYBEAR_P,
        b < BABYBEAR_P,
    ensures
        r == (a * b) % (BABYBEAR_P as int),
        r < BABYBEAR_P,
{
    assert(a * b < BABYBEAR_P * BABYBEAR_P) by (nonlinear_arith)
        requires a < BABYBEAR_P, b < BABYBEAR_P;
    a * b % BABYBEAR_P
}

/// `x^7` modulo the field prime.
pub fn sbox_exec(x: u64) -> (r: u64)
    requires
        x < BABYBEAR_P,
    ensures
        r == sbox(x as nat),
        r < BABYBEAR_P,
{
    let p = BABYBEAR_P;
    let x2 = mul_mod(x, x);
    let x3 = mul_mod(x2, x);
    let x6 = mul_mod(x3, x3);
    let x7 = mul_mod(x6, x);
    proof {
        let (xi, pi) = (x as int, p as int);
        reveal_with_fuel(pow, 8);
        lemma_mul_mod_noop(xi, xi, pi);
        lemma_mul_mod_noop(xi * xi, xi, pi);
        lemma_mul_mod_noop(xi * xi * xi, xi * xi * xi, pi);
        lemma_mul_mod_noop(xi * xi * xi * (xi * xi * xi), xi, pi);
        lemma_mod_bound(xi, pi);
        assert(x2 == (xi * xi) % pi);
        assert(x3 == (xi * xi * xi) % pi);
        assert(x6 == (xi * xi * xi * (xi * xi * xi)) % pi);
        assert(pow(xi, 7) == xi * xi * xi * (xi * xi * xi) * xi) by (nonlinear_arith)
            requires pow(xi, 7) == xi * (xi * (xi * (xi * (xi * (xi * (xi * 1))))));
    }
    x7
}

pub open spec fn u64_nats(x: Seq<u64>) -> Seq<nat> {
    x.map_values(|v: u64| v as nat)
}

pub open spec fn is_width(n: nat) -> bool {
    0 < n <= MAX_WIDTH && n % 4 == 0
}

/// The external linear layer on a state of field elements.
pub fn external_linear_exec(x: &Vec<u64>) -> (r: Vec<u64>)
    requires
        is_width(x@.len()),
        forall|i: int| 0 <= i < x@.len() ==> x@[i] < BABYBEAR_P,
    ensures
        u64_nats(r@) == external_linear(u64_nats(x@)),
        forall|i: int| 0 <= i < r@.len() ==> r@[i] < BABYBEAR_P,
{
    let n = x.len();
    let ghost xs = u64_nats(x@);
    let ghost ys = m4_layer(xs);
    let mut y: Vec<u64> = Vec::new();
    let mut k: usize = 0;
    while k < n
        invariant
            n == x@.len(),
            is_width(n as nat),
            xs == u64_nats(x@),
            ys == m4_layer(xs),
            forall|i: int| 0 <= i < n ==> x@[i] < BABYBEAR_P,
            k <= n,
            y@.len() == k,
            forall|j: int| 0 <= j < k ==> (#[trigger] y@[j]) as nat == ys[j] && y@[j] < 16 * BABYBEAR_P,
        decreases n - k,
    {
        let b = k - k % 4;
        let (x0, x1, x2, x3) = (x[b], x[b + 1], x[b + 2], x[b + 3]);
        let c = k % 4;
        let v = if c == 0 {
            5 * x0 + 7 * x1 + x2 + 3 * x3
        } else if c == 1 {
            4 * x0 + 6 * x1 + x2 + x3
        } else if c == 2 {
            x0 + 3 * x1 + 5 * x2 + 7 * x3
        } else {
            x0 + x1 + 4 * x2 + 6 * x3
        };
        y.push(v);
        k = k + 1;
    }
    let nb = n / 4;
    assert(4 * nb == n && nb <= 16);
    let mut sums: Vec<u64> = Vec::new();
    let mut c: usize = 0;
    while c < 4
        invariant
            n == x@.len(),
            is_width(n as nat),
            nb == n / 4,
            4 * nb == n,
            nb <= 16,
            y@.len() == n,
            ys == m4_layer(xs),
            forall|j: int| 0 <= j < n ==> (#[trigger] y@[j]) as nat == ys[j] && y@[j] < 16 * BABYBEAR_P,
            c <= 4,
            sums@.len() == c,
            forall|j: int| 0 <= j < c ==> sums@[j] as nat == column_sum(ys, j, nb as nat),
            forall|j: int| 0 <= j < c ==> #[trigger] sums@[j] <= 16 * 16 * BABYBEAR_P,
        decreases 4 - c,
    {
        let mut acc: u64 = 0;
        let mut j: usize = 0;
        while j < nb
            invariant
                n == x@.len(),
                is_width(n as nat),
                nb == n / 4,
                4 * nb == n,
                nb <= 16,
                c < 4,
                y@.len() == n,
                forall|i: int| 0 <= i < n ==> (#[trigger] y@[i]) as nat == ys[i] && y@[i] < 16 * BABYBEAR_P,
                j <= nb,
                acc as nat == column_sum(ys, c as int, j as nat),
                acc <= j * 16 * BABYBEAR_P,
            decreases nb - j,
        {
            assert(4 * j + c < n);
            acc = acc + y[4 * j + c];
            j = j + 1;
        }
        sums.push(acc);
        c = c + 1;
    }
    let mut r: Vec<u64> = Vec::new();
    let mut k: usize = 0;
    while k < n
        invariant
            n == x@.len(),
            is_width(n as nat),
            nb == n / 4,
            4 * nb == n,
            nb <= 16,
            y@.len() == n,
            sums@.len() == 4,
            forall|j: int| 0 <= j < n ==> (#[trigger] y@[j]) as nat == ys[j] && y@[j] < 16 * BABYBEAR_P,
            forall|j: int| 0 <= j < 4 ==> sums@[j] as nat == column_sum(ys, j, nb as nat),
            forall|j: int| 0 <= j < 4 ==> #[trigger] sums@[j] <= 16 * 16 * BABYBEAR_P,
            k <= n,
            r@.len() == k,
            forall|j: int| 0 <= j < k ==> r@[j] as nat == (ys[j] + column_sum(ys, j % 4, nb as nat)) % bb_p(),
            forall|j: int| 0 <= j < k ==> r@[j] < BABYBEAR_P,
        decreases n - k,
    {
        let v = (y[k] + sums[k % 4]) % BABYBEAR_P;
        r.push(v);
        k = k + 1;
    }
    assert(u64_nats(r@) =~= external_linear(xs));
    r
}

/// The words reduced into the field.
fn reduce_words(words: &Vec<u32>) -> (r: Vec<u64>)
    ensures
        u64_nats(r@) == reduced_nats(words@),
        r@.len() == words@.len(),
        forall|j: int| 0 <= j < r@.len() ==> r@[j] < BABYBEAR_P,
{
    let mut r: Vec<u64> = Vec::new();
    let mut i: usize = 0;
    while i < words.len()
        invariant
            i <= words@.len(),
            r@.len() == i,
            forall|j: int| 0 <= j < i ==> (#[trigger] r@[j]) as nat == (words@[j] as nat) % bb_p()
                && r@[j] < BABYBEAR_P,
        decreases words@.len() - i,
    {
        r.push(words[i] as u64 % BABYBEAR_P);
        i = i + 1;
    }
    assert(u64_nats(r@) =~= reduced_nats(words@));
    r
}

/// Field elements as words.
fn narrow_words(x: &Vec<u64>) -> (r: Vec<u32>)
    requires
        forall|j: int| 0 <= j < x@.len() ==> x@[j] < BABYBEAR_P,
    ensures
        as_nats(r@) == u64_nats(x@),
        r@.len() == x@.len(),
{
    let mut r: Vec<u32> = Vec::new();
    let mut i: usize = 0;
    while i < x.len()
        invariant
            i <= x@.len(),
            forall|j: int| 0 <= j < x@.len() ==> x@[j] < BABYBEAR_P,
            r@.len() == i,
            forall|j: int| 0 <= j < i ==> (#[trigger] r@[j]) as nat == x@[j] as nat,
        decreases x@.len() - i,
    {
        r.push(x[i] as u32);
        i = i + 1;
    }
    assert(as_nats(r@) =~= u64_nats(x@));
    r
}

/// One external round on a state of field elements.
pub fn external_round_exec(state: &Vec<u64>, rc: &Vec<u32>) -> (r: Vec<u64>)
    requires
        is_width(state@.len()),
        rc@.len() == state@.len(),
        forall|i: int| 0 <= i < state@.len() ==> state@[i] < BABYBEAR_P,
    ensures
        u64_nats(r@) == external_round(u64_nats(state@), as_nats(rc@)),
        r@.len() == state@.len(),
        forall|i: int| 0 <= i < r@.len() ==> r@[i] < BABYBEAR_P,
{
    let n = state.len();
    let mut t: Vec<u64> = Vec::new();
    let mut i: usize = 0;
    while i < n
        invariant
            n == state@.len(),
            rc@.len() == n,
            forall|j: int| 0 <= j < n ==> state@[j] < BABYBEAR_P,
            i <= n,
            t@.len() == i,
            forall|j: int| 0 <= j < i ==> (#[trigger] t@[j]) as nat == sbox(
                ((state@[j] as nat) + (rc@[j] as nat)) % bb_p(),
            ) && t@[j] < BABYBEAR_P,
        decreases n - i,
    {
        let v = (state[i] + rc[i] as u64) % BABYBEAR_P;
        t.push(sbox_exec(v));
        i = i + 1;
    }
    let ghost ts = Seq::new(n as nat, |j: int| sbox((u64_nats(state@)[j] + as_nats(rc@)[j]) % bb_p()));
    assert(u64_nats(t@) =~= ts);
    external_linear_exec(&t)
}

/// The round constants as field elements: `rounds` vectors of `n` each.
pub open spec fn round_constants_ok(rcs: Seq<Vec<u32>>, rounds: nat, n: nat) -> bool {
    &&& rcs.len() == rounds
    &&& forall|r: int| 0 <= r < rounds ==> (#[trigger] rcs[r])@.len() == n
}

pub open spec fn rcs_nats(rcs: Seq<Vec<u32>>) -> Seq<Seq<nat>> {
    rcs.map_values(|v: Vec<u32>| as_nats(v@))
}

/// The state that the chip works on: the words at `ptr`, each reduced
/// into the field.
pub open spec fn initial_state(m: Map<u32, u32>, ptr: u32, n: nat) -> Seq<nat> {
    reduced_nats(region(m, ptr, 0, n))
}

/// The word that the `round`-th external round reads at position `i`: the
/// word that memory held at the start for the first round, then what the
/// round before wrote.
pub open spec fn round_input_word(m: Map<u32, u32>, ptr: u32, n: nat, rcs: Seq<Vec<u32>>, round: nat, i: int) -> nat {
    if round == 0 {
        region(m, ptr, 0, n)[i] as nat
    } else {
        external_rounds(initial_state(m, ptr, n), rcs_nats(rcs), round)[i]
    }
}

/// Round `rr` reads word `i` of the state at `ptr`.
pub open spec fn read_ok(reads: Seq<Vec<MemoryRecord>>, m: Map<u32, u32>, ptr: u32, n: nat, rcs: Seq<Vec<u32>>, clk0: int, rr: int, i: int) -> bool {
    &&& reads[rr]@.len() == n
    &&& reads[rr]@[i].addr == word_addr(ptr, i)
    &&& reads[rr]@[i].value as nat == round_input_word(m, ptr, n, rcs, rr as nat, i)
    &&& reads[rr]@[i].prev_value == reads[rr]@[i].value
    &&& reads[rr]@[i].clk == clk0 + 4 * (2 * n * rr + i)
}

/// Round `rr` writes word `i` of the state after it at `ptr`.
pub open spec fn write_ok(writes: Seq<Vec<MemoryRecord>>, m: Map<u32, u32>, ptr: u32, n: nat, rcs: Seq<Vec<u32>>, clk0: int, rr: int, i: int) -> bool {
    &&& writes[rr]@.len() == n
    &&& writes[rr]@[i].addr == word_addr(ptr, i)
    &&& writes[rr]@[i].value as nat == external_rounds(initial_state(m, ptr, n), rcs_nats(rcs), (rr + 1) as nat)[i]
    &&& writes[rr]@[i].prev_value as nat == round_input_word(m, ptr, n, rcs, rr as nat, i)
    &&& writes[rr]@[i].clk == clk0 + 4 * (2 * n * rr + n + i)
}

/// The first `count` rounds of read records: each round reads the `n`
/// words at `ptr`, seeing what that round takes as input.
pub open spec fn reads_match(reads: Seq<Vec<MemoryRecord>>, m: Map<u32, u32>, ptr: u32, n: nat, rcs: Seq<Vec<u32>>, clk0: int, count: int) -> bool {
    forall|rr: int, i: int| 0 <= rr < count && 0 <= i < n ==> #[trigger] read_ok(reads, m, ptr, n, rcs, clk0, rr, i)
}

/// The first `count` rounds of write records: each round writes the `n`
/// words at `ptr` with the state after that round.
pub open spec fn writes_match(writes: Seq<Vec<MemoryRecord>>, m: Map<u32, u32>, ptr: u32, n: nat, rcs: Seq<Vec<u32>>, clk0: int, count: int) -> bool {
    forall|rr: int, i: int| 0 <= rr < count && 0 <= i < n ==> #[trigger] write_ok(writes, m, ptr, n, rcs, clk0, rr, i)
}

proof fn lemma_reads_push(reads: Seq<Vec<MemoryRecord>>, new: Vec<MemoryRecord>, m: Map<u32, u32>, ptr: u32, n: nat, rcs: Seq<Vec<u32>>, clk0: int, count: int)
    requires
        0 <= count,
        reads.len() == count,
        reads_match(reads, m, ptr, n, rcs, clk0, count),
        new@.len() == n,
        forall|i: int| 0 <= i < n ==> #[trigger] read_ok(reads.push(new), m, ptr, n, rcs, clk0, count, i),
    ensures
        reads_match(reads.push(new), m, ptr, n, rcs, clk0, count + 1),
{
    let r2 = reads.push(new);
    assert forall|rr: int, i: int| 0 <= rr < count + 1 && 0 <= i < n implies #[trigger] read_ok(r2, m, ptr, n, rcs, clk0, rr, i) by {
        if rr < count {
            assert(r2[rr] == reads[rr]);
            assert(read_ok(reads, m, ptr, n, rcs, clk0, rr, i));
        } else {
            assert(read_ok(reads.push(new), m, ptr, n, rcs, clk0, count, i));
        }
    }
}

proof fn lemma_writes_push(writes: Seq<Vec<MemoryRecord>>, new: Vec<MemoryRecord>, m: Map<u32, u32>, ptr: u32, n: nat, rcs: Seq<Vec<u32>>, clk0: int, count: int)
    requires
        0 <= count,
        writes.len() == count,
        writes_match(writes, m, ptr, n, rcs, clk0, count),
        new@.len() == n,
        forall|i: int| 0 <= i < n ==> #[trigger] write_ok(writes.push(new), m, ptr, n, rcs, clk0, count, i),
    ensures
        writes_match(writes.push(new), m, ptr, n, rcs, clk0, count + 1),
{
    let w2 = writes.push(new);
    assert forall|rr: int, i: int| 0 <= rr < count + 1 && 0 <= i < n implies #[trigger] write_ok(w2, m, ptr, n, rcs, clk0, rr, i) by {
        if rr < count {
            assert(w2[rr] == writes[rr]);
            assert(write_ok(writes, m, ptr, n, rcs, clk0, rr, i));
        } else {
            assert(write_ok(writes.push(new), m, ptr, n, rcs, clk0, count, i));
        }
    }
}

/// One permutation call: the clock and state pointer at its start, and
/// every access it made, round by round.
pub struct Poseidon2ExternalEvent {
    pub clk: u32,
    pub state_ptr: u32,
    /// For each round, the records of reading the state, word by word.
    pub state_reads: Vec<Vec<MemoryRecord>>,
    /// For each round, the records of writing the new state, word by word.
    pub state_writes: Vec<Vec<MemoryRecord>>,
}

/// Runs one external round on the `n`-word state in memory at `ptr`:
/// reads it, applies the round with constants `rc`, and writes it back.
/// `input` is the state that the words in memory hold.
#[verifier::rlimit(100)]
#[verifier::spinoff_prover]
fn round_in_memory(
    rt: &mut Runtime,
    ptr: u32,
    rc: &Vec<u32>,
    Ghost(m0): Ghost<Map<u32, u32>>,
    Ghost(n0): Ghost<int>,
    Ghost(input): Ghost<Seq<nat>>,
) -> (r: (Vec<MemoryRecord>, Vec<MemoryRecord>))
    requires
        old(rt).wf(),
        old(rt).run_from(m0, n0),
        is_aligned(ptr),
        is_width(rc@.len()),
        old(rt).clk_room(2 * rc@.len()),
        reduced_nats(region(old(rt).memory@, ptr, 0, rc@.len())) == input,
    ensures
        final(rt).wf(),
        final(rt).run_from(m0, n0),
        final(rt).clk == old(rt).clk + 8 * rc@.len(),
        final(rt).registers@ == old(rt).registers@,
        r.0@.len() == rc@.len(),
        r.1@.len() == rc@.len(),
        forall|i: int| 0 <= i < rc@.len() ==> #[trigger] r.0@[i] == (MemoryRecord {
            addr: word_addr(ptr, i),
            clk: (old(rt).clk + 4 * i) as u32,
            prev_value: region(old(rt).memory@, ptr, 0, rc@.len())[i],
            value: region(old(rt).memory@, ptr, 0, rc@.len())[i],
        }),
        forall|i: int| 0 <= i < rc@.len() ==> (#[trigger] r.1@[i]).addr == word_addr(ptr, i)
            && r.1@[i].value as nat == external_round(input, as_nats(rc@))[i]
            && r.1@[i].prev_value == region(old(rt).memory@, ptr, 0, rc@.len())[i]
            && r.1@[i].clk == old(rt).clk + 4 * (rc@.len() + i),
        forall|a: u32| outside_region(a, ptr, rc@.len()) ==> mem_word(final(rt).memory@, a) == mem_word(old(rt).memory@, a),
        as_nats(region(final(rt).memory@, ptr, 0, rc@.len())) == external_round(input, as_nats(rc@)),
{
    let n = rc.len();
    let (words, reads) = read_region(rt, ptr, n, Ghost(m0), Ghost(n0));
    let ghost mid = rt.memory@;
    let state = reduce_words(&words);
    let next = external_round_exec(&state, rc);
    let out = narrow_words(&next);
    let writes = write_region(rt, ptr, &out, Ghost(m0), Ghost(n0));
    proof {
        assert forall|i: int| 0 <= i < n implies (#[trigger] writes@[i]).value as nat
            == external_round(input, as_nats(rc@))[i] by {
            assert(as_nats(out@)[i] == out@[i] as nat);
        }
        assert forall|i: int| 0 <= i < n implies (#[trigger] writes@[i]).prev_value
            == region(old(rt).memory@, ptr, 0, n as nat)[i] by {
            assert(writes@[i].prev_value == mem_word(mid, word_addr(ptr, i)));
        }
    }
    (reads, writes)
}

/// The permutation precompile on a state of `N` words.
pub struct Poseidon2ExternalChip<const N: usize> {}

impl<const N: usize> Poseidon2ExternalChip<N> {
    /// Applies the external rounds to the `N`-word state that register `a0`
    /// points to: each round reads the state, applies the round with its
    /// constants, and writes the new state back. Returns the pointer and the
    /// event that records every access.
    #[verifier::rlimit(100)]
    #[verifier::spinoff_prover]
    pub fn execute(rt: &mut Runtime, rcs: &Vec<Vec<u32>>) -> (r: Result<(u32, Poseidon2ExternalEvent), MemoryError>)
        requires
            old(rt).wf(),
            is_width(N as nat),
            old(rt).clk_room((2 * POSEIDON2_DEFAULT_EXTERNAL_ROUNDS * N) as nat),
            round_constants_ok(rcs@, POSEIDON2_DEFAULT_EXTERNAL_ROUNDS as nat, N as nat),
        ensures
            final(rt).wf(),
            ({
                let ptr = old(rt).registers@[REG_A0 as int];
                let m = old(rt).memory@;
                let init = initial_state(m, ptr, N as nat);
                let rn = rcs_nats(rcs@);
                if !is_aligned(ptr) {
                    r == Err::<(u32, Poseidon2ExternalEvent), MemoryError>(MemoryError::Misaligned(ptr))
                        && *final(rt) == *old(rt)
                } else {
                    &&& r is Ok
                    &&& r->Ok_0.0 == ptr
                    &&& r->Ok_0.1.clk == old(rt).clk
                    &&& r->Ok_0.1.state_ptr == ptr
                    &&& r->Ok_0.1.state_reads@.len() == POSEIDON2_DEFAULT_EXTERNAL_ROUNDS
                    &&& r->Ok_0.1.state_writes@.len() == POSEIDON2_DEFAULT_EXTERNAL_ROUNDS
                    &&& reads_match(r->Ok_0.1.state_reads@, m, ptr, N as nat, rcs@, old(rt).clk as int, POSEIDON2_DEFAULT_EXTERNAL_ROUNDS as int)
                    &&& writes_match(r->Ok_0.1.state_writes@, m, ptr, N as nat, rcs@, old(rt).clk as int, POSEIDON2_DEFAULT_EXTERNAL_ROUNDS as int)
                    &&& as_nats(region(final(rt).memory@, ptr, 0, N as nat)) == external_rounds(
                        init,
                        rn,
                        POSEIDON2_DEFAULT_EXTERNAL_ROUNDS as nat,
                    )
                    &&& final(rt).registers@ == old(rt).registers@
                    &&& final(rt).clk == old(rt).clk + 8 * POSEIDON2_DEFAULT_EXTERNAL_ROUNDS * N
                    &&& forall|a: u32| outside_region(a, ptr, N as nat) ==> mem_word(final(rt).memory@, a) == mem_word(m, a)
                }
            }),
    {
        let state_ptr = rt.register(REG_A0);
        if state_ptr % 4 != 0 {
            return Err(MemoryError::Misaligned(state_ptr));
        }
        let saved_clk = rt.clk;
        let ghost m0 = rt.memory@;
        let ghost n0 = rt.records@.len() as int;
        let ghost init = initial_state(m0, state_ptr, N as nat);
        let ghost rn = rcs_nats(rcs@);
        assert(rt.records@.subrange(n0, n0) =~= Seq::<MemoryRecord>::empty());
        let mut state_reads: Vec<Vec<MemoryRecord>> = Vec::new();
        let mut state_writes: Vec<Vec<MemoryRecord>> = Vec::new();
        let mut round: usize = 0;
        while round < POSEIDON2_DEFAULT_EXTERNAL_ROUNDS
            invariant
                rt.wf(),
                rt.run_from(m0, n0),
                is_width(N as nat),
                is_aligned(state_ptr),
                round <= POSEIDON2_DEFAULT_EXTERNAL_ROUNDS,
                rt.clk == old(rt).clk + 8 * N * round,
                old(rt).clk_room((2 * POSEIDON2_DEFAULT_EXTERNAL_ROUNDS * N) as nat),
                round_constants_ok(rcs@, POSEIDON2_DEFAULT_EXTERNAL_ROUNDS as nat, N as nat),
                rt.registers@ == old(rt).registers@,
                m0 == old(rt).memory@,
                state_ptr == old(rt).registers@[REG_A0 as int],
                init == initial_state(m0, state_ptr, N as nat),
                rn == rcs_nats(rcs@),
                round == 0 ==> region(rt.memory@, state_ptr, 0, N as nat) == region(m0, state_ptr, 0, N as nat),
                round > 0 ==> as_nats(region(rt.memory@, state_ptr, 0, N as nat)) == external_rounds(init, rn, round as nat),
                state_reads@.len() == round,
                state_writes@.len() == round,
                reads_match(state_reads@, m0, state_ptr, N as nat, rcs@, old(rt).clk as int, round as int),
                forall|a: u32| outside_region(a, state_ptr, N as nat) ==> mem_word(rt.memory@, a) == mem_word(m0, a),
                writes_match(state_writes@, m0, state_ptr, N as nat, rcs@, old(rt).clk as int, round as int),
            decreases POSEIDON2_DEFAULT_EXTERNAL_ROUNDS - round,
        {
            let ghost before = rt.memory@;
            proof {
                assert(8 * N * round + 8 * N <= 8 * N * 4) by (nonlinear_arith)
                    requires round < 4;
                assert(8 * N * (round + 1) == 8 * N * round + 8 * N) by (nonlinear_arith);
                if round == 0 {
                    assert(reduced_nats(region(before, state_ptr, 0, N as nat)) =~= init);
                } else {
                    let prev = external_rounds(init, rn, round as nat);
                    let w = region(before, state_ptr, 0, N as nat);
                    assert forall|j: int| 0 <= j < N implies (w[j] as nat) % bb_p() == w[j] as nat by {
                        assert(as_nats(w)[j] == prev[j]);
                        vstd::arithmetic::div_mod::lemma_small_mod(w[j] as nat, bb_p());
                    }
                    assert(reduced_nats(w) =~= prev);
                }
                assert(rn[round as int] == as_nats(rcs@[round as int]@));
            }
            let (reads, writes) = round_in_memory(rt, state_ptr, &rcs[round], Ghost(m0), Ghost(n0), Ghost(external_rounds(init, rn, round as nat)));
            proof {
                assert forall|i: int| 0 <= i < N implies (#[trigger] reads@[i]).value as nat
                    == round_input_word(m0, state_ptr, N as nat, rcs@, round as nat, i) by {
                    if round > 0 {
                        assert(as_nats(region(before, state_ptr, 0, N as nat))[i] == region(before, state_ptr, 0, N as nat)[i] as nat);
                    }
                }
            }
            proof {
                assert(external_rounds(init, rn, (round + 1) as nat) == external_round(external_rounds(init, rn, round as nat), rn[round as int]));
            }
            proof {
                let c0 = old(rt).clk as int;
                assert(4 * (2 * N * round) == 8 * N * round) by (nonlinear_arith);
                let sr = state_reads@.push(reads);
                let sw = state_writes@.push(writes);
                assert(sr[round as int] == reads);
                assert(sw[round as int] == writes);
                assert forall|i: int| 0 <= i < N implies #[trigger] read_ok(sr, m0, state_ptr, N as nat, rcs@, c0, round as int, i) by {
                    assert(reads@[i].addr == word_addr(state_ptr, i));
                }
                assert forall|i: int| 0 <= i < N implies #[trigger] write_ok(sw, m0, state_ptr, N as nat, rcs@, c0, round as int, i) by {
                    assert(writes@[i].addr == word_addr(state_ptr, i));
                    assert(reads@[i].addr == word_addr(state_ptr, i));
                }
                lemma_reads_push(state_reads@, reads, m0, state_ptr, N as nat, rcs@, c0, round as int);
                lemma_writes_push(state_writes@, writes, m0, state_ptr, N as nat, rcs@, c0, round as int);
            }
            state_reads.push(reads);
            state_writes.push(writes);
            assert(reads_match(state_reads@, m0, state_ptr, N as nat, rcs@, old(rt).clk as int, round + 1));
            assert(writes_match(state_writes@, m0, state_ptr, N as nat, rcs@, old(rt).clk as int, round + 1));
            round = round + 1;
        }
        Ok((state_ptr, Poseidon2ExternalEvent { clk: saved_clk, state_ptr, state_reads, state_writes }))
    }
}

/// The columns of one external-round row, for `ROUNDS` rounds of memory access.
#[derive(Clone, Copy, Debug)]
pub struct Poseidon2ExternalColsConfigurable<T, const ROUNDS: usize> {
    pub segment: T,
    pub clk: T,
    pub state_ptr: T,
    pub mem: [MemoryReadWriteCols<T>; ROUNDS],
    pub mem_addr: [T; ROUNDS],
    /// The word that the finalize phase adds, materialised in its own column.
    pub finalized_operand: Word<T>,
    pub finalize_add: AddOperation<T>,
    /// Selects a genuine external-round row.
    pub is_external: T,
    /// Selects a row that is not padding.
    pub is_real: T,
}

/// Every scalar column of `c` holds `d`.
pub open spec fn all_columns_are<T, const ROUNDS: usize>(c: Poseidon2ExternalColsConfigurable<T, ROUNDS>, d: T) -> bool {
    &&& c.segment == d
    &&& c.clk == d
    &&& c.state_ptr == d
    &&& forall|i: int| 0 <= i < ROUNDS ==> {
        &&& (#[trigger] c.mem@[i]).prev_value.0@ == seq![d, d, d, d]
        &&& c.mem@[i].value.0@ == seq![d, d, d, d]
    }
    &&& forall|i: int| 0 <= i < ROUNDS ==> #[trigger] c.mem_addr@[i] == d
    &&& c.finalized_operand.0@ == seq![d, d, d, d]
    &&& c.finalize_add.value.0@ == seq![d, d, d, d]
    &&& c.finalize_add.carry@ == seq![d, d, d]
    &&& c.is_external == d
    &&& c.is_real == d
}

impl<T: Default + Copy, const ROUNDS: usize> Default for Poseidon2ExternalColsConfigurable<T, ROUNDS> {
    /// A row whose every column holds `T`'s default value.
    fn default() -> (r: Self)
        ensures
            all_columns_are(r, r.clk),
    {
        let d = T::default();
        let w = Word([d, d, d, d]);
        let access = MemoryReadWriteCols { prev_value: w, value: w };
        let r = Poseidon2ExternalColsConfigurable {
            segment: d,
            clk: d,
            state_ptr: d,
            mem: vstd::array::array_fill_for_copy_types(access),
            mem_addr: vstd::array::array_fill_for_copy_types(d),
            finalized_operand: w,
            finalize_add: AddOperation { value: w, carry: [d, d, d] },
            is_external: d,
            is_real: d,
        };
        assert(w.0@ =~= seq![d, d, d, d]);
        assert(r.finalize_add.carry@ =~= seq![d, d, d]);
        r
    }
}

/// The row layout with the default number of external rounds.
#[derive(Clone, Copy, Debug)]
pub struct Poseidon2ExternalCols<T>(pub Poseidon2ExternalColsConfigurable<T, 4>);

/// Equal initial memory at the state pointer, equal round constants and an
/// equal starting clock give equal read and write records: the chip's event depends on nothing else.
pub proof fn lemma_permutation_deterministic(
    m1: Map<u32, u32>,
    m2: Map<u32, u32>,
    ptr: u32,
    n: nat,
    rcs: Seq<Vec<u32>>,
    clk0: int,
    reads1: Seq<Vec<MemoryRecord>>,
    reads2: Seq<Vec<MemoryRecord>>,
    writes1: Seq<Vec<MemoryRecord>>,
    writes2: Seq<Vec<MemoryRecord>>,
)
    requires
        region(m1, ptr, 0, n) == region(m2, ptr, 0, n),
        reads1.len() == POSEIDON2_DEFAULT_EXTERNAL_ROUNDS,
        reads2.len() == POSEIDON2_DEFAULT_EXTERNAL_ROUNDS,
        writes1.len() == POSEIDON2_DEFAULT_EXTERNAL_ROUNDS,
        writes2.len() == POSEIDON2_DEFAULT_EXTERNAL_ROUNDS,
        reads_match(reads1, m1, ptr, n, rcs, clk0, POSEIDON2_DEFAULT_EXTERNAL_ROUNDS as int),
        reads_match(reads2, m2, ptr, n, rcs, clk0, POSEIDON2_DEFAULT_EXTERNAL_ROUNDS as int),
        writes_match(writes1, m1, ptr, n, rcs, clk0, POSEIDON2_DEFAULT_EXTERNAL_ROUNDS as int),
        writes_match(writes2, m2, ptr, n, rcs, clk0, POSEIDON2_DEFAULT_EXTERNAL_ROUNDS as int),
    ensures
        forall|rr: int, i: int| 0 <= rr < POSEIDON2_DEFAULT_EXTERNAL_ROUNDS && 0 <= i < n ==>
            (#[trigger] writes1[rr]@[i]) == writes2[rr]@[i] && reads1[rr]@[i] == reads2[rr]@[i],
{
    assert(initial_state(m1, ptr, n) == initial_state(m2, ptr, n));
    assert forall|rr: int, i: int| 0 <= rr < POSEIDON2_DEFAULT_EXTERNAL_ROUNDS && 0 <= i < n implies
        (#[trigger] writes1[rr]@[i]) == writes2[rr]@[i] && reads1[rr]@[i] == reads2[rr]@[i] by {
        assert(read_ok(reads1, m1, ptr, n, rcs, clk0, rr, i));
        assert(read_ok(reads2, m2, ptr, n, rcs, clk0, rr, i));
        assert(write_ok(writes1, m1, ptr, n, rcs, clk0, rr, i));
        assert(write_ok(writes2, m2, ptr, n, rcs, clk0, rr, i));
    }
}

} // verus!
