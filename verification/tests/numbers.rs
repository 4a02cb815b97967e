use flooglyflup::numbers;

#[test]
fn decimals_are_padded() {
    assert_eq!(numbers::write_decimal(0, 1), "0");
    assert_eq!(numbers::write_decimal(7, 2), "07");
    assert_eq!(numbers::write_decimal(123, 2), "123");
    assert_eq!(numbers::write_decimal(42, 0), "42");
    assert_eq!(numbers::write_decimal(u64::MAX, 1), "18446744073709551615");
    assert_eq!(numbers::write_decimal(99, 4), "0099");
}

#[test]
fn bytes_are_written_in_hexadecimal() {
    assert_eq!(numbers::write_hex(&vec![]), "");
    assert_eq!(numbers::write_hex(&vec![0, 9, 10, 15, 16, 255]), "00090a0f10ff");
}
