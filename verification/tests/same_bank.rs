use spmspm_pim::bits::BitsField;
use spmspm_pim::same_bank::SameBankMapping;

#[test]
fn test_mapping() {
    let mapping = SameBankMapping::new(100, 4, 4, 4);
    assert_eq!(mapping.subarray_bits, BitsField { bits: 2, offset: 0 });
    assert_eq!(mapping.inner_insubarray_bits, BitsField { bits: 0, offset: 2 });
    assert_eq!(mapping.bank_bits, BitsField { bits: 2, offset: 2 });
    assert_eq!(mapping.channel_bits, BitsField { bits: 2, offset: 4 });
    assert_eq!(mapping.outer_insubarray_bits, BitsField { bits: 1, offset: 6 });
}

#[test]
fn test_mapping_1000() {
    let mapping = SameBankMapping::new(1000, 4, 4, 4);
    assert_eq!(mapping.subarray_bits, BitsField { bits: 2, offset: 0 });
    assert_eq!(mapping.inner_insubarray_bits, BitsField { bits: 3, offset: 2 });
    assert_eq!(mapping.bank_bits, BitsField { bits: 2, offset: 5 });
    assert_eq!(mapping.channel_bits, BitsField { bits: 2, offset: 7 });
    assert_eq!(mapping.outer_insubarray_bits, BitsField { bits: 1, offset: 9 });
}

#[test]
fn test_row_id() {
    let mapping = SameBankMapping::new(1000, 4, 4, 4);
    let row_id = mapping.get_row_rowid(10);
    assert_eq!(row_id, 2);
    let sp_col_id = mapping.get_row_colid(row_id);
    assert_eq!(sp_col_id, 0);

    let dense_row_id = mapping.get_col_rowid(10);
    // still the same row
    assert_eq!(dense_row_id, 0);
    let dense_col_id = mapping.get_col_colid(10);
    // the col id is 2, each data have 4 bytes, so it's 8
    assert_eq!(dense_col_id, 8);

    let dense_row_id = mapping.get_col_rowid(100);
    assert_eq!(dense_row_id, 0);
    let dense_col_id = mapping.get_col_colid(100);
    assert_eq!(dense_col_id, 4);

    // test the outer
    let dense_row_id = mapping.get_col_rowid(999);
    assert_eq!(dense_row_id, 0);
    let dense_col_id = mapping.get_col_colid(999);
    assert_eq!(dense_col_id, 9 * 4);
}

#[test]
fn test_row_id_10000() {
    let mapping = SameBankMapping::new(10000, 4, 4, 4);
    let dense_row_id = mapping.get_col_rowid(9999);
    assert_eq!(dense_row_id, 3);
    let dense_col_id = mapping.get_col_colid(9999);
    assert_eq!(dense_col_id, 3 * 4);
}

#[test]
fn test_sp_row_id_10000() {
    let mapping = SameBankMapping::new(10000, 4, 4, 4);
    let dense_row_id = mapping.get_row_rowid(9999);
    assert_eq!(dense_row_id, 195);
}

#[test]
fn test_global_subarray_id() {
    let mapping = SameBankMapping::new(10000, 4, 4, 4);
    let subarray_id = mapping.get_global_subarray_id(9999);
    assert_eq!(subarray_id, 15);
}
