//! The execution context that precompiles run against: registers, a
//! word-addressed memory, a logical clock and the log of memory records.
use vstd::prelude::*;
use std::collections::HashMap;
use crate::ed_add::EdAddEvent;

verus! {

broadcast use vstd::std_specs::hash::group_hash_axioms;

/// The number of general-purpose registers.
pub const NUM_REGISTERS: usize = 32;

/// How far the clock advances with each memory access.
pub const CLK_STEP: u32 = 4;

/// One memory access: the word at `addr` held `prev_value` just before the
/// access at clock `clk` and `value` after it. A read has both equal.
#[derive(Clone, Copy, Debug, PartialEq, Eq, Structural)]
pub struct MemoryRecord {
    pub addr: u32,
    pub clk: u32,
    pub prev_value: u32,
    pub value: u32,
}

#[derive(Clone, Copy, Debug, PartialEq, Eq, Structural)]
pub enum MemoryError {
    /// The address is not a multiple of the word size.
    Misaligned(u32),
}

/// The word that a memory map holds at `a`; memory starts out zero.
pub open spec fn mem_word(m: Map<u32, u32>, a: u32) -> u32 {
    if m.contains_key(a) {
        m[a]
    } else {
        0
    }
}

/// The memory after applying the records in order to `m`.
pub open spec fn apply_records(m: Map<u32, u32>, rs: Seq<MemoryRecord>) -> Map<u32, u32>
    decreases rs.len(),
{
    if rs.len() == 0 {
        m
    } else {
        apply_records(m, rs.drop_last()).insert(rs.last().addr, rs.last().value)
    }
}

/// Each record's prior value is the word that memory held just before it,
/// starting from `m`.
pub open spec fn records_consistent(m: Map<u32, u32>, rs: Seq<MemoryRecord>) -> bool {
    forall|k: int|
        0 <= k < rs.len() ==> (#[trigger] rs[k]).prev_value == mem_word(
            apply_records(m, rs.take(k)),
            rs[k].addr,
        )
}

/// The records carry strictly increasing clocks.
pub open spec fn clocks_increasing(rs: Seq<MemoryRecord>) -> bool {
    forall|i: int, j: int| 0 <= i < j < rs.len() ==> rs[i].clk < rs[j].clk
}

pub open spec fn is_aligned(addr: u32) -> bool {
    addr % 4 == 0
}

/// The shared state that a precompile invocation reads and changes.
pub struct Runtime {
    pub clk: u32,
    pub registers: Vec<u32>,
    pub memory: HashMap<u32, u32>,
    /// Every memory access so far, in clock order.
    pub records: Vec<MemoryRecord>,
    /// The curve-addition events of the current segment, in order.
    pub ed_add_events: Vec<EdAddEvent>,
}

impl Runtime {
    pub open spec fn wf(&self) -> bool {
        &&& self.registers@.len() == NUM_REGISTERS
        &&& forall|i: int| 0 <= i < self.records@.len() ==> self.records@[i].clk < self.clk
        &&& clocks_increasing(self.records@)
    }

    /// The accesses since the first `start` records form a consistent run
    /// from `m`, and memory is what that run left.
    pub open spec fn run_from(&self, m: Map<u32, u32>, start: int) -> bool {
        &&& 0 <= start <= self.records@.len()
        &&& records_consistent(m, self.records@.subrange(start, self.records@.len() as int))
        &&& self.memory@ == apply_records(m, self.records@.subrange(start, self.records@.len() as int))
    }

    /// The number of accesses that the clock still has room for.
    pub open spec fn clk_room(&self, n: nat) -> bool {
        self.clk + n * (CLK_STEP as nat) <= u32::MAX
    }

    /// A fresh context: zero registers, empty memory, clock at 0.
    pub fn new() -> (r: Runtime)
        ensures
            r.wf(),
            r.clk == 0,
            r.memory@ == Map::<u32, u32>::empty(),
            r.records@.len() == 0,
            r.ed_add_events@.len() == 0,
            forall|i: int| 0 <= i < NUM_REGISTERS ==> r.registers@[i] == 0,
    {
        let mut registers: Vec<u32> = Vec::new();
        while registers.len() < NUM_REGISTERS
            invariant
                registers@.len() <= NUM_REGISTERS,
                forall|i: int| 0 <= i < registers@.len() ==> registers@[i] == 0,
            decreases NUM_REGISTERS - registers@.len(),
        {
            registers.push(0);
        }
        Runtime {
            clk: 0,
            registers,
            memory: HashMap::new(),
            records: Vec::new(),
            ed_add_events: Vec::new(),
        }
    }

    /// The value of register `id`.
    pub fn register(&self, id: usize) -> (r: u32)
        requires
            self.wf(),
            id < NUM_REGISTERS,
        ensures
            r == self.registers@[id as int],
    {
        self.registers[id]
    }

    /// The word that memory holds at `addr`, without recording an access.
    pub fn peek(&self, addr: u32) -> (r: u32)
        ensures
            r == mem_word(self.memory@, addr),
    {
        match self.memory.get(&addr) {
            Some(v) => *v,
            None => 0,
        }
    }

    /// Records an access that leaves `value` at the aligned `addr`, then
    /// advances the clock.
    pub(crate) fn access(&mut self, addr: u32, value: u32) -> (rec: MemoryRecord)
        requires
            old(self).wf(),
            old(self).clk_room(1),
        ensures
            final(self).wf(),
            rec == (MemoryRecord {
                addr,
                clk: old(self).clk,
                prev_value: mem_word(old(self).memory@, addr),
                value,
            }),
            final(self).clk == old(self).clk + CLK_STEP,
            final(self).memory@ == old(self).memory@.insert(addr, value),
            final(self).records@ == old(self).records@.push(rec),
            final(self).registers@ == old(self).registers@,
            final(self).ed_add_events@ == old(self).ed_add_events@,
            forall|m: Map<u32, u32>, start: int| old(self).run_from(m, start) ==> #[trigger] final(self).run_from(m, start),
    {
        let prev_value = self.peek(addr);
        let rec = MemoryRecord { addr, clk: self.clk, prev_value, value };
        self.memory.insert(addr, value);
        self.records.push(rec);
        self.clk = self.clk + CLK_STEP;
        proof {
            assert forall|m: Map<u32, u32>, start: int| old(self).run_from(m, start) implies #[trigger] self.run_from(m, start) by {
                let rs = old(self).records@.subrange(start, old(self).records@.len() as int);
                lemma_consistent_push(m, rs, rec);
                assert(self.records@.subrange(start, self.records@.len() as int) =~= rs.push(rec));
            }
        }
        rec
    }

    /// Reads the word at `addr`; fails on an unaligned address, leaving
    /// the context as it was.
    pub fn mr(&mut self, addr: u32) -> (r: Result<(u32, MemoryRecord), MemoryError>)
        requires
            old(self).wf(),
            old(self).clk_room(1),
        ensures
            final(self).wf(),
            is_aligned(addr) <==> r is Ok,
            match r {
                Ok((v, rec)) => {
                    &&& v == mem_word(old(self).memory@, addr)
                    &&& rec == (MemoryRecord { addr, clk: old(self).clk, prev_value: v, value: v })
                    &&& final(self).clk == old(self).clk + CLK_STEP
                    &&& final(self).memory@ == old(self).memory@.insert(addr, v)
                    &&& final(self).records@ == old(self).records@.push(rec)
                    &&& final(self).registers@ == old(self).registers@
                    &&& final(self).ed_add_events@ == old(self).ed_add_events@
                    &&& forall|m: Map<u32, u32>, start: int| old(self).run_from(m, start) ==> #[trigger] final(self).run_from(m, start)
                },
                Err(e) => e == MemoryError::Misaligned(addr) && *final(self) == *old(self),
            },
    {
        if addr % 4 != 0 {
            return Err(MemoryError::Misaligned(addr));
        }
        let v = self.peek(addr);
        let rec = self.access(addr, v);
        Ok((v, rec))
    }

    /// Writes `value` at `addr`; fails on an unaligned address, leaving
    /// the context as it was.
    pub fn mw(&mut self, addr: u32, value: u32) -> (r: Result<MemoryRecord, MemoryError>)
        requires
            old(self).wf(),
            old(self).clk_room(1),
        ensures
            final(self).wf(),
            is_aligned(addr) <==> r is Ok,
            match r {
                Ok(rec) => {
                    &&& rec == (MemoryRecord {
                        addr,
                        clk: old(self).clk,
                        prev_value: mem_word(old(self).memory@, addr),
                        value,
                    })
                    &&& final(self).clk == old(self).clk + CLK_STEP
                    &&& final(self).memory@ == old(self).memory@.insert(addr, value)
                    &&& final(self).records@ == old(self).records@.push(rec)
                    &&& final(self).registers@ == old(self).registers@
                    &&& final(self).ed_add_events@ == old(self).ed_add_events@
                    &&& forall|m: Map<u32, u32>, start: int| old(self).run_from(m, start) ==> #[trigger] final(self).run_from(m, start)
                },
                Err(e) => e == MemoryError::Misaligned(addr) && *final(self) == *old(self),
            },
    {
        if addr % 4 != 0 {
            return Err(MemoryError::Misaligned(addr));
        }
        Ok(self.access(addr, value))
    }
}

/// Appending a record that sees the current memory keeps a run consistent.
pub proof fn lemma_consistent_push(m: Map<u32, u32>, rs: Seq<MemoryRecord>, rec: MemoryRecord)
    requires
        records_consistent(m, rs),
        rec.prev_value == mem_word(apply_records(m, rs), rec.addr),
    ensures
        records_consistent(m, rs.push(rec)),
        apply_records(m, rs.push(rec)) == apply_records(m, rs).insert(rec.addr, rec.value),
{
    let rs2 = rs.push(rec);
    assert(rs2.drop_last() =~= rs);
    assert forall|k: int| 0 <= k < rs2.len() implies (#[trigger] rs2[k]).prev_value == mem_word(
        apply_records(m, rs2.take(k)),
        rs2[k].addr,
    ) by {
        if k < rs.len() {
            assert(rs2.take(k) =~= rs.take(k));
            assert(rs2[k] == rs[k]);
        } else {
            assert(rs2.take(k) =~= rs);
        }
    }
}

proof fn lemma_word_after(m: Map<u32, u32>, rs: Seq<MemoryRecord>, i: int, n: int)
    requires
        0 <= i < n <= rs.len(),
        forall|k: int| i < k < n ==> (#[trigger] rs[k]).addr != rs[i].addr,
    ensures
        mem_word(apply_records(m, rs.take(n)), rs[i].addr) == rs[i].value,
    decreases n,
{
    let t = rs.take(n);
    assert(t.drop_last() =~= rs.take(n - 1));
    assert(t.last() == rs[n - 1]);
    if n - 1 > i {
        lemma_word_after(m, rs, i, n - 1);
    }
}

/// Memory consistency: in a consistent run, a later access to an address
/// sees as its prior value exactly the value that the latest earlier access
/// to that address left there.
pub proof fn lemma_memory_consistency(m: Map<u32, u32>, rs: Seq<MemoryRecord>, i: int, j: int)
    requires
        records_consistent(m, rs),
        0 <= i < j < rs.len(),
        rs[i].addr == rs[j].addr,
        forall|k: int| i < k < j ==> (#[trigger] rs[k]).addr != rs[i].addr,
    ensures
        rs[j].prev_value == rs[i].value,
{
    lemma_word_after(m, rs, i, j);
    assert(rs[j].prev_value == mem_word(apply_records(m, rs.take(j)), rs[j].addr));
}

} // verus!
