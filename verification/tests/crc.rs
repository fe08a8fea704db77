use kvr::crc::crc32;

#[test]
fn crc32_known_value() {
    // CRC32 of "123456789" is 0xCBF43926.
    assert_eq!(crc32(b"123456789"), 0xCBF43926);
}
