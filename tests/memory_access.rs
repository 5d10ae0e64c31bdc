use zkvm_precompiles::memory::{MemoryError, MemoryRecord, Runtime};

#[test]
fn read_of_untouched_memory_is_zero() {
    let mut rt = Runtime::new();
    let (v, rec) = rt.mr(16).unwrap();
    assert_eq!(v, 0);
    assert_eq!(rec, MemoryRecord { addr: 16, clk: 0, prev_value: 0, value: 0 });
    assert_eq!(rt.clk, 4);
}

#[test]
fn misaligned_access_fails_and_changes_nothing() {
    let mut rt = Runtime::new();
    assert_eq!(rt.mr(6).unwrap_err(), MemoryError::Misaligned(6));
    assert_eq!(rt.mw(7, 1).unwrap_err(), MemoryError::Misaligned(7));
    assert_eq!(rt.clk, 0);
    assert!(rt.records.is_empty());
}

#[test]
fn later_access_sees_earlier_value() {
    let mut rt = Runtime::new();
    let w1 = rt.mw(8, 5).unwrap();
    let _ = rt.mw(12, 9).unwrap();
    let w2 = rt.mw(8, 6).unwrap();
    let (v, r) = rt.mr(8).unwrap();
    assert_eq!(w1.prev_value, 0);
    assert_eq!(w2.prev_value, w1.value);
    assert_eq!(r.prev_value, w2.value);
    assert_eq!(v, 6);
    assert!(w1.clk < w2.clk && w2.clk < r.clk);
    assert_eq!(rt.records.len(), 4);
}
