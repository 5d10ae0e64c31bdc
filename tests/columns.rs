use zkvm_precompiles::cols::{MemoryAccessCols, MemoryReadCols, Word};
use zkvm_precompiles::ed_add::EdAddAssignCols;

#[test]
fn limbs_from_read_concatenates_words() {
    let cols: Vec<MemoryReadCols<u8>> = (0..8u8)
        .map(|w| MemoryReadCols { value: Word([4 * w, 4 * w + 1, 4 * w + 2, 4 * w + 3]) })
        .collect();
    let limbs = EdAddAssignCols::<u8>::limbs_from_read(&cols);
    let expected: Vec<u8> = (0..32).collect();
    assert_eq!(limbs.0.to_vec(), expected);
}

#[test]
fn limbs_from_access_takes_prior_values() {
    let cols: Vec<MemoryAccessCols<u8>> = (0..8u8)
        .map(|w| MemoryAccessCols {
            prev_value: Word([w, w, w, w]),
            value: Word([100, 100, 100, 100]),
        })
        .collect();
    let limbs = EdAddAssignCols::<u8>::limbs_from_access(&cols);
    for i in 0..32 {
        assert_eq!(limbs.0[i], (i / 4) as u8);
    }
}

use zkvm_precompiles::cols::{FpDenCols, FpInnerProductCols, FpOpCols, Limbs};

fn row_with_sum(x3: [u32; 32], y3: [u32; 32]) -> EdAddAssignCols<u32> {
    let zero = Limbs([0u32; 32]);
    let op = FpOpCols { result: zero, carry: zero };
    let ip = FpInnerProductCols { result: zero, carry: zero };
    let mut p_access = [MemoryAccessCols { prev_value: Word([0; 4]), value: Word([0; 4]) }; 16];
    for i in 0..32 {
        p_access[i / 4].value.0[i % 4] = x3[i];
        p_access[8 + i / 4].value.0[i % 4] = y3[i];
    }
    EdAddAssignCols {
        clk: 0,
        p_ptr: 0,
        q_ptr: 0,
        p_access,
        q_access: [MemoryReadCols { value: Word([0; 4]) }; 16],
        x3_numerator: ip,
        y3_numerator: ip,
        x1_mul_y1: op,
        x2_mul_y2: op,
        f: op,
        d_mul_f: op,
        x3_ins: FpDenCols { result: Limbs(x3), carry: zero },
        y3_ins: FpDenCols { result: Limbs(y3), carry: zero },
    }
}

#[test]
fn writeback_check_accepts_matching_row() {
    let mut x3 = [0u32; 32];
    let mut y3 = [0u32; 32];
    for i in 0..32 {
        x3[i] = i as u32;
        y3[i] = 200 - i as u32;
    }
    let row = row_with_sum(x3, y3);
    assert!(row.writeback_holds());
    let sum = row.result();
    assert_eq!(sum.x.0, x3);
    assert_eq!(sum.y.0, y3);
}

#[test]
fn writeback_check_rejects_changed_limb() {
    let mut row = row_with_sum([7u32; 32], [9u32; 32]);
    row.p_access[12].value.0[1] = 8;
    assert!(!row.writeback_holds());
}

use zkvm_precompiles::ed_add::{pad_rows, padded_height};

#[test]
fn height_is_next_power_of_two() {
    assert_eq!(padded_height(0), 1);
    assert_eq!(padded_height(1), 1);
    assert_eq!(padded_height(5), 8);
    assert_eq!(padded_height(8), 8);
}

#[test]
fn rows_padded_with_zero_rows() {
    let rows = vec![vec![1, 2], vec![3, 4], vec![5, 6]];
    let r = pad_rows(rows, 2);
    assert_eq!(r, vec![vec![1, 2], vec![3, 4], vec![5, 6], vec![0, 0]]);
}

use zkvm_precompiles::ed_add::point_is_reduced;

#[test]
fn reduced_point_check() {
    let mut w = [0u32; 16];
    assert!(point_is_reduced(&w));
    // y = p = 2^255 - 19 is not a field element
    w[8] = 0xffff_ffed;
    for i in 9..15 {
        w[i] = 0xffff_ffff;
    }
    w[15] = 0x7fff_ffff;
    assert!(!point_is_reduced(&w));
    w[8] = 0xffff_ffec;
    assert!(point_is_reduced(&w));
}
