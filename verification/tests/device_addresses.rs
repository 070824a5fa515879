use yakking_yak::all::utils::Address;

#[test]
fn device_ids_are_padded_or_cut_to_32_bytes() {
    let a = Address::from_sendable("Ym9i@AQID".to_string());
    assert_eq!(a.name, "bob");
    let mut expected = [0u8; 32];
    expected[0] = 1;
    expected[1] = 2;
    expected[2] = 3;
    assert_eq!(a.device_id, expected);
    let full = Address::new("bob", [7u8; 32]);
    let back = Address::from_sendable(full.as_sendable());
    assert_eq!(back.device_id, [7u8; 32]);
    assert_eq!(back.name, "bob");
}
