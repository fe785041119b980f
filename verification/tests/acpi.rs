use crustlet::acpi::{acpi_table_index, find_config_table, guid_eq};

const ACPI2: [u8; 16] = [
    0x71, 0xe8, 0x68, 0x88, 0xf1, 0xe4, 0xd3, 0x11, 0xbc, 0x22, 0x00, 0x80, 0xc7, 0x3c, 0x88, 0x81,
];
const ACPI1: [u8; 16] = [
    0x30, 0x2d, 0x9d, 0xeb, 0x88, 0x2d, 0xd3, 0x11, 0x9a, 0x16, 0x00, 0x90, 0x27, 0x3f, 0xc1, 0x4d,
];

#[test]
fn acpi2_bytes_are_uefis_constant() {
    assert_eq!(uefi::table::cfg::ConfigTableEntry::ACPI2_GUID.to_bytes(), ACPI2);
}

#[test]
fn acpi2_table_is_found_at_its_first_index() {
    let guids = vec![[0u8; 16], ACPI1, ACPI2, ACPI2];
    assert_eq!(acpi_table_index(&guids), Some(2));
}

#[test]
fn acpi1_table_alone_is_not_acpi2() {
    let guids = vec![ACPI1, [0xffu8; 16]];
    assert_eq!(acpi_table_index(&guids), None);
    assert_eq!(acpi_table_index(&[]), None);
}

#[test]
fn find_config_table_finds_any_vendor_guid() {
    let guids = vec![ACPI2, ACPI1, ACPI1];
    assert_eq!(find_config_table(&guids, &ACPI1), Some(1));
    assert_eq!(find_config_table(&guids, &[1u8; 16]), None);
}

#[test]
fn guid_eq_compares_every_byte() {
    let mut other = ACPI2;
    assert!(guid_eq(&ACPI2, &other));
    other[15] ^= 1;
    assert!(!guid_eq(&ACPI2, &other));
}
