use laplacianos::fdt::{decode_first_reg, Region};

#[test]
fn decodes_64_bit_reg_cells() {
    let bytes = [0, 0, 0, 0, 0x40, 0, 0, 0, 0, 0, 0, 0, 0x20, 0, 0, 0];
    assert_eq!(
        decode_first_reg(&bytes, 2, 2),
        Some(Region {
            base: 0x4000_0000,
            size: 0x2000_0000,
        })
    );
}

#[test]
fn rejects_unsupported_cell_widths() {
    assert_eq!(decode_first_reg(&[0; 24], 3, 2), None);
}
