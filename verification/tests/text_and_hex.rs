use cis_core::hex::{hex16, padded_decimal, parse_hex16};

#[test]
fn hex_round_trip() {
    let id = [0xabu8; 16];
    assert_eq!(hex16(&id), "ab".repeat(16));
    assert_eq!(parse_hex16(&hex16(&id)), Some(id));
}

#[test]
fn decimals_are_padded() {
    assert_eq!(padded_decimal(42, 20), "00000000000000000042");
}
