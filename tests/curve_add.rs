use zkvm_precompiles::ed_add::{EdAddAssignChip, EdAddError, REG_A0, REG_A1, REG_T0};
use zkvm_precompiles::memory::{MemoryError, Runtime};

const BASE: [u32; 16] = [
    0x8f25d51a, 0xc9562d60, 0x9525a7b2, 0x692cc760, 0xfdd6dc5c, 0xc0a4e231, 0xcd6e53fe, 0x216936d3,
    0x66666658, 0x66666666, 0x66666666, 0x66666666, 0x66666666, 0x66666666, 0x66666666, 0x66666666,
];

const DOUBLE_BASE: [u32; 16] = [
    0x2843ce0e, 0x83c5a14e, 0x15d7a45f, 0x080d8e45, 0x1833e7ac, 0x3d043b7d, 0x9f5a046c, 0x36ab384c,
    0x6af8a3c9, 0x0e5f46ae, 0x64385156, 0x97390f51, 0xc9a21f56, 0x1da25ee8, 0x092329c2, 0x2260cdf3,
];

fn neutral() -> [u32; 16] {
    let mut n = [0u32; 16];
    n[8] = 1;
    n
}

fn setup(p_ptr: u32, p: &[u32; 16], q_ptr: u32, q: &[u32; 16]) -> Runtime {
    let mut rt = Runtime::new();
    rt.registers[REG_T0] = 0x11;
    rt.registers[REG_A0] = p_ptr;
    rt.registers[REG_A1] = q_ptr;
    for i in 0..16 {
        rt.memory.insert(p_ptr + 4 * i as u32, p[i]);
        rt.memory.insert(q_ptr + 4 * i as u32, q[i]);
    }
    rt
}

fn region(rt: &Runtime, base: u32) -> [u32; 16] {
    let mut r = [0u32; 16];
    for i in 0..16 {
        r[i] = rt.peek(base + 4 * i as u32);
    }
    r
}

#[test]
fn base_point_plus_neutral_is_base_point() {
    let mut rt = setup(0x1000, &BASE, 0x2000, &neutral());
    let r = EdAddAssignChip::execute(&mut rt).unwrap();
    assert_eq!(r, (0x1000, 0x11, 0x2000));
    assert_eq!(region(&rt, 0x1000), BASE);
    assert_eq!(rt.ed_add_events.len(), 1);
    let ev = rt.ed_add_events[0];
    assert_eq!(ev.p_ptr, 0x1000);
    assert_eq!(ev.q_ptr, 0x2000);
    assert_eq!(ev.p, BASE);
    assert_eq!(ev.q, neutral());
    assert_eq!(ev.clk, rt.clk);
    assert_eq!(rt.clk, 48 * 4);
}

#[test]
fn base_point_doubled() {
    let mut rt = setup(0x1000, &BASE, 0x2000, &BASE);
    EdAddAssignChip::execute(&mut rt).unwrap();
    assert_eq!(region(&rt, 0x1000), DOUBLE_BASE);
    assert_eq!(region(&rt, 0x2000), BASE);
    assert_eq!(rt.ed_add_events[0].p, BASE);
}

#[test]
fn neutral_plus_neutral_is_neutral() {
    let mut rt = setup(0x100, &neutral(), 0x200, &neutral());
    EdAddAssignChip::execute(&mut rt).unwrap();
    assert_eq!(region(&rt, 0x100), neutral());
}

#[test]
fn records_chain_within_one_call() {
    let mut rt = setup(0x1000, &BASE, 0x2000, &BASE);
    EdAddAssignChip::execute(&mut rt).unwrap();
    assert_eq!(rt.records.len(), 48);
    for i in 0..16 {
        let read = rt.records[i];
        let write = rt.records[32 + i];
        assert_eq!(read.addr, write.addr);
        assert_eq!(write.prev_value, read.value);
        assert_eq!(write.value, DOUBLE_BASE[i]);
    }
    for k in 1..48 {
        assert!(rt.records[k - 1].clk < rt.records[k].clk);
    }
    let ev = rt.ed_add_events[0];
    for k in 0..48 {
        assert_eq!(ev.memory_records[k], rt.records[k]);
        assert_eq!(ev.memory_records[k].clk, 4 * k as u32);
    }
    for k in 0..16 {
        assert_eq!(ev.memory_records[16 + k].addr, 0x2000 + 4 * k as u32);
        assert_eq!(ev.memory_records[32 + k].prev_value, BASE[k]);
    }
}

#[test]
fn memory_outside_p_is_untouched() {
    let mut rt = setup(0x1000, &BASE, 0x2000, &BASE);
    rt.memory.insert(0x1040, 77);
    rt.memory.insert(0x0ffc, 78);
    EdAddAssignChip::execute(&mut rt).unwrap();
    assert_eq!(rt.peek(0x1040), 77);
    assert_eq!(rt.peek(0x0ffc), 78);
}

#[test]
fn misaligned_pointer_is_rejected() {
    let mut rt = setup(0x1000, &BASE, 0x2000, &BASE);
    rt.registers[REG_A0] = 0x1002;
    let r = EdAddAssignChip::execute(&mut rt);
    assert_eq!(r, Err(EdAddError::Memory(MemoryError::Misaligned(0x1002))));
    assert!(rt.ed_add_events.is_empty());
    assert_eq!(rt.clk, 0);
    rt.registers[REG_A0] = 0x1000;
    rt.registers[REG_A1] = 0x2001;
    let r = EdAddAssignChip::execute(&mut rt);
    assert_eq!(r, Err(EdAddError::Memory(MemoryError::Misaligned(0x2001))));
}

use zkvm_precompiles::ed_add::populate_row;

#[test]
fn populated_row_satisfies_constraints() {
    let mut rt = setup(0x1000, &BASE, 0x2000, &BASE);
    EdAddAssignChip::execute(&mut rt).unwrap();
    let ev = rt.ed_add_events[0];
    let row = populate_row(&ev).unwrap();
    assert!(row.eval_holds());
    assert!(row.writeback_holds());
    for i in 0..32 {
        let w = DOUBLE_BASE[i / 4];
        assert_eq!(row.x3_ins.result.0[i], (w >> (8 * (i % 4))) & 0xff);
    }
    assert_eq!(row.p_access[0].prev_value.0, [0x1a, 0xd5, 0x25, 0x8f]);
}

#[test]
fn tampered_row_fails_constraints() {
    let mut rt = setup(0x1000, &BASE, 0x2000, &neutral());
    EdAddAssignChip::execute(&mut rt).unwrap();
    let ev = rt.ed_add_events[0];
    let row = populate_row(&ev).unwrap();
    assert!(row.eval_holds());
    let mut bad = row;
    bad.f.result.0[3] ^= 1;
    assert!(!bad.eval_holds());
    let mut bad = row;
    bad.x1_mul_y1.carry.0[0] = 300;
    assert!(!bad.eval_holds());
    let mut bad = row;
    bad.q_access[2].value.0[1] ^= 4;
    assert!(!bad.eval_holds());
}
