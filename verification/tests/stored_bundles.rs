use yakking_yak::client::key_bundle::{read_stored_bundle, FieldValue, ReadError, SecretKey, StoredField};
use yakking_yak::client::utils::Address;

fn key(name: &str, k: [u8; 32]) -> StoredField<Address> {
    StoredField { name: name.to_string(), value: FieldValue::Key(k) }
}

fn addr(name: &str, a: &str) -> StoredField<Address> {
    StoredField { name: name.to_string(), value: FieldValue::Address(Address::new(a, vec![1, 2])) }
}

#[test]
fn a_stored_bundle_reads_back() {
    let (p, s, a) = read_stored_bundle(vec![key("public", [1; 32]), key("shared", [2; 32]), addr("address", "bob")])
        .ok()
        .unwrap();
    assert_eq!(p, [1; 32]);
    assert!(matches!(s, SecretKey::Shared(k) if k == [2; 32]));
    assert_eq!(a.name, "bob");
    let (_, s, _) = read_stored_bundle(vec![addr("address", "me"), key("ephemeral", [3; 32]), key("public", [4; 32])])
        .ok()
        .unwrap();
    assert!(matches!(s, SecretKey::Ephemeral(k) if k == [3; 32]));
    let (_, s, _) = read_stored_bundle(vec![key("public", [4; 32]), addr("address", "x")]).ok().unwrap();
    assert!(matches!(s, SecretKey::Empty()));
}

#[test]
fn stored_bundles_that_do_not_read() {
    assert!(matches!(read_stored_bundle(vec![key("publicKey", [1; 32])]), Err(ReadError::UnknownField(n)) if n == "publicKey"));
    assert!(matches!(
        read_stored_bundle(vec![key("shared", [1; 32]), key("ephemeral", [1; 32])]),
        Err(ReadError::DuplicateField(n)) if n == "secret"
    ));
    assert!(matches!(read_stored_bundle(vec![addr("public", "x")]), Err(ReadError::InvalidValue(n)) if n == "public"));
    assert!(matches!(read_stored_bundle(vec![key("address", [1; 32])]), Err(ReadError::InvalidValue(n)) if n == "address"));
    assert!(matches!(read_stored_bundle(vec![addr("address", "x")]), Err(ReadError::MissingField(n)) if n == "public"));
    assert!(matches!(read_stored_bundle(vec![key("public", [1; 32])]), Err(ReadError::MissingField(n)) if n == "addresss"));
    assert!(matches!(read_stored_bundle(Vec::<StoredField<Address>>::new()), Err(ReadError::MissingField(n)) if n == "public"));
}
