use zkvm_precompiles::memory::Runtime;
use zkvm_precompiles::poseidon2::{
    external_round_exec, sbox_exec, Poseidon2ExternalChip, Poseidon2ExternalCols,
    Poseidon2ExternalColsConfigurable,
};

fn constants() -> Vec<Vec<u32>> {
    (0..4u32).map(|r| (0..8u32).map(|i| r * 8 + i).collect()).collect()
}

fn setup() -> Runtime {
    let mut rt = Runtime::new();
    rt.registers[10] = 0x400;
    for i in 0..8u32 {
        rt.memory.insert(0x400 + 4 * i, i + 1);
    }
    rt
}

const ROUND_OUTPUTS: [[u32; 8]; 4] = [
    [740779820, 371492382, 1585326668, 1310932350, 1473867436, 740240382, 1138901451, 592830941],
    [13964011, 872581036, 1287131630, 1378357158, 1271214642, 1948181228, 1717197429, 766314016],
    [744379485, 1470374208, 1662333204, 378880508, 25133391, 855821967, 1167271347, 1554221606],
    [1973950258, 1474912146, 496303878, 1440736415, 1627825664, 1660652664, 690094621, 1053992233],
];

#[test]
fn sbox_is_seventh_power() {
    assert_eq!(sbox_exec(2), 128);
    assert_eq!(sbox_exec(2013265920), 2013265920);
}

#[test]
fn one_round_matches_reference_values() {
    let state: Vec<u64> = (1..=8).collect();
    let r = external_round_exec(&state, &constants()[0]);
    let expected: Vec<u64> = ROUND_OUTPUTS[0].iter().map(|&v| v as u64).collect();
    assert_eq!(r, expected);
}

#[test]
fn chip_writes_every_round_state() {
    let mut rt = setup();
    let (ptr, ev) = Poseidon2ExternalChip::<8>::execute(&mut rt, &constants()).unwrap();
    assert_eq!(ptr, 0x400);
    assert_eq!(ev.clk, 0);
    assert_eq!(ev.state_ptr, 0x400);
    assert_eq!(ev.state_reads.len(), 4);
    for i in 0..8 {
        assert_eq!(ev.state_reads[0][i].value, i as u32 + 1);
    }
    for r in 0..4 {
        for i in 0..8 {
            assert_eq!(ev.state_writes[r][i].value, ROUND_OUTPUTS[r][i]);
            assert_eq!(ev.state_writes[r][i].addr, 0x400 + 4 * i as u32);
        }
    }
    for i in 0..8 {
        assert_eq!(rt.peek(0x400 + 4 * i as u32), ROUND_OUTPUTS[3][i]);
    }
    assert_eq!(rt.clk, 4 * 2 * 8 * 4);
    for r in 0..4 {
        for i in 0..8 {
            assert_eq!(ev.state_writes[r][i].prev_value, ev.state_reads[r][i].value);
            assert_eq!(ev.state_reads[r][i].prev_value, ev.state_reads[r][i].value);
            assert_eq!(ev.state_reads[r][i].clk, 4 * (16 * r + i) as u32);
            assert_eq!(ev.state_writes[r][i].clk, 4 * (16 * r + 8 + i) as u32);
        }
    }
    assert_eq!(rt.peek(0x400 + 32), 0);
}

#[test]
fn chip_is_deterministic() {
    let mut rt1 = setup();
    let mut rt2 = setup();
    let (_, ev1) = Poseidon2ExternalChip::<8>::execute(&mut rt1, &constants()).unwrap();
    let (_, ev2) = Poseidon2ExternalChip::<8>::execute(&mut rt2, &constants()).unwrap();
    assert_eq!(ev1.state_writes, ev2.state_writes);
    assert_eq!(ev1.state_reads, ev2.state_reads);
    assert_eq!(ev1.clk, ev2.clk);
    assert_eq!(rt1.records, rt2.records);
}

#[test]
fn chip_rejects_misaligned_state() {
    let mut rt = setup();
    rt.registers[10] = 0x402;
    assert!(Poseidon2ExternalChip::<8>::execute(&mut rt, &constants()).is_err());
    assert!(rt.records.is_empty());
}

#[test]
fn default_row_is_zero() {
    let c: Poseidon2ExternalColsConfigurable<u32, 4> = Default::default();
    assert_eq!(c.clk, 0);
    assert_eq!(c.mem_addr, [0; 4]);
    assert_eq!(c.mem[3].value.0, [0; 4]);
    assert_eq!(c.finalize_add.carry, [0; 3]);
    let wrapped = Poseidon2ExternalCols(c);
    assert_eq!(wrapped.0.is_real, 0);
}
