use esp32_wroom_rp::FirmwareVersion;

#[test]
fn firmware_new_returns_a_populated_firmware_struct() {
    let firmware_version: FirmwareVersion =
        FirmwareVersion::new([0x1, 0x2e, 0x7, 0x2e, 0x4, 0x0, 0x0, 0x0]);

    assert_eq!(firmware_version, FirmwareVersion { major: 1, minor: 7, patch: 4 })
}

#[test]
fn firmware_separators_and_trailing_bytes_are_ignored() {
    let firmware_version = FirmwareVersion::new([b'2', 0xaa, b'0', 0xbb, b'9', 0xcc, 0xdd, 0xee]);

    assert_eq!(firmware_version, FirmwareVersion { major: b'2', minor: b'0', patch: b'9' })
}
