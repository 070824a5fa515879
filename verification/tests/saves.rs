use magic_crypt::{MagicCrypt256, MagicCryptTrait};
use std::collections::hash_map::DefaultHasher;
use std::hash::{Hash, Hasher};
use yakking_yak::client::save::{
    open_device_id, seal_device_id, try_open_device_id, user_file, GroupSave,
};
use yakking_yak::client::utils::{calc_hash, Address};
use yakking_yak::codec::{encode_base64_bytes, encode_base64_str};

fn magic(key: &str) -> MagicCrypt256 {
    MagicCrypt256::new(key, None::<String>)
}

#[test]
fn user_files_are_named_by_the_base64_of_the_user() {
    assert_eq!(user_file("alice"), "./saves/YWxpY2U=.user");
    assert_eq!(user_file(""), "./saves/.user");
}

#[test]
fn device_ids_are_sealed_under_the_hash_of_the_password() {
    let id = [7u8; 32];
    let sealed = seal_device_id(&id, "hunter2");
    let key = calc_hash("hunter2");
    assert_eq!(sealed, magic(&key).encrypt_str_to_base64(encode_base64_bytes(&id.to_vec())));
    assert_eq!(magic(&key).decrypt_base64_to_string(&sealed).unwrap(), encode_base64_bytes(&id.to_vec()));
}

#[test]
fn device_ids_are_opened_under_the_password_itself() {
    let id: Vec<u8> = (0u8..32).collect();
    let data = magic("pw").encrypt_str_to_base64(encode_base64_bytes(&id));
    let mut expected = [0u8; 32];
    expected.copy_from_slice(&id);
    assert_eq!(open_device_id(&data, "pw"), Some(expected));
    // a shorter id is padded with zeros, a longer one cut
    let short = magic("pw").encrypt_str_to_base64(encode_base64_bytes(&vec![9u8, 8]));
    let mut padded = [0u8; 32];
    padded[0] = 9;
    padded[1] = 8;
    assert_eq!(open_device_id(&short, "pw"), Some(padded));
    let long = magic("pw").encrypt_str_to_base64(encode_base64_bytes(&vec![5u8; 40]));
    assert_eq!(open_device_id(&long, "pw"), Some([5u8; 32]));
}

#[test]
fn unreadable_user_files() {
    // not Base64 at all: it does not decrypt
    assert_eq!(try_open_device_id("***", "pw"), Some(None));
    // decrypts, but not to Base64
    let data = magic("pw").encrypt_str_to_base64("not base64!");
    assert_eq!(try_open_device_id(&data, "pw"), None);
    // a file sealed by `seal_device_id` is opened under another key than it was sealed with
    let sealed = seal_device_id(&[3u8; 32], "pw");
    assert_ne!(try_open_device_id(&sealed, "pw"), Some(Some([3u8; 32])));
}

#[test]
fn group_files_are_named_by_address_and_group() {
    let addr = Address::new("bob", vec![1, 2, 3]);
    let expected = format!(
        "./saves/{}@{}.msglog",
        addr.as_sendable(),
        encode_base64_str(&encode_base64_str("Default"))
    );
    assert_eq!(GroupSave::filename(&addr, "Default"), expected);
    assert_eq!(GroupSave::filename(&addr, "Default"), "./saves/Ym9i@AQID@UkdWbVlYVnNkQT09.msglog");
}

#[test]
fn group_saves_open_under_their_password() {
    let plain = "{\"group\":\"Default\"}";
    let sealed = GroupSave::seal(plain, "secret");
    assert_eq!(GroupSave::open(&sealed, "secret"), Some(plain.to_string()));
    let mut h = DefaultHasher::new();
    "secret".to_string().hash(&mut h);
    let key = format!("{}", h.finish());
    assert_eq!(sealed, magic(&key).encrypt_str_to_base64(plain));
    assert_ne!(GroupSave::open(&sealed, "other"), Some(plain.to_string()));
    assert_eq!(GroupSave::open("%%%", "secret"), None);
}
