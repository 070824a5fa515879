//! What the desktop client keeps on disk, sealed with the user's password through
//! `magic-crypt`: the device id of each user, and the log of each group it joined.
use vstd::prelude::*;
use vstd::utf8::*;
use crate::client::ratchet::Ratchet;
use crate::client::serverhandlers::ServerMsg;
use crate::client::store::ForeinAgent;
use crate::client::utils::{be_bytes, calc_hash, key_sendable, text_hash, Address, KeyAddrView};
use crate::codec::{
    base64_decode, base64_decode_spec, base64_encode, base64_encode_spec, dec_nat,
    encode_base64_str, encode_base64_text, push_dec_u64, push_str, to_owned_string, utf8_bytes,
};
use crate::crypto::{magic256_decrypt, magic256_decrypt_spec, magic256_encrypt, magic256_encrypt_spec};
use std::collections::hash_map::DefaultHasher;
use std::hash::Hasher;

verus! {

/// The file that holds the sealed device id of `username`: `./saves/base64(username).user`.
pub open spec fn user_file_spec(username: Seq<char>) -> Seq<char> {
    "./saves/"@ + encode_base64_text(username) + ".user"@
}

/// The path of the file that holds the sealed device id of `username`.
pub fn user_file(username: &str) -> (res: String)
    ensures
        res@ == user_file_spec(username@),
{
    let mut f = to_owned_string("./saves/");
    let name = encode_base64_str(username);
    push_str(&mut f, name.as_str());
    push_str(&mut f, ".user");
    f
}

/// A user file's text for the device id `device_id`: the Base64 of the id, encrypted under
/// `calc_hash` of the password.
pub open spec fn sealed_device_id(device_id: Seq<u8>, password: Seq<char>) -> Seq<char> {
    magic256_encrypt_spec(base64_encode_spec(be_bytes(text_hash(password))), base64_encode_spec(device_id))
}

/// Seals `device_id` for the user file; what it seals opens again under the password's hash.
pub fn seal_device_id(device_id: &[u8; 32], password: &str) -> (res: String)
    ensures
        res@ == sealed_device_id(device_id@, password@),
        magic256_decrypt_spec(base64_encode_spec(be_bytes(text_hash(password@))), res@) == Some(
            base64_encode_spec(device_id@),
        ),
{
    let key = calc_hash(password);
    let id = base64_encode(device_id.as_slice());
    magic256_encrypt(key.as_str(), id.as_str())
}

/// The first 32 bytes of `bytes`, zero-padded: how a device id read back fills its array.
pub open spec fn device_id_of(bytes: Seq<u8>) -> Seq<u8> {
    Seq::new(32, |i: int| if i < bytes.len() { bytes[i] } else { 0u8 })
}

/// Whether reading the user file text `data` with `password` does not fail: where it
/// decrypts, what it decrypts to is Base64.
pub open spec fn device_id_readable(data: Seq<char>, password: Seq<char>) -> bool {
    magic256_decrypt_spec(password, data) matches Some(t) ==> base64_decode_spec(encode_utf8(t)) is Some
}

/// The device id read from the user file text `data`: decrypted under the password itself
/// (a file is sealed under the password's hash, so this opens only where the two agree),
/// Base64-decoded, then cut or padded to 32 bytes; `None` where it does not decrypt.
pub open spec fn opened_device_id(data: Seq<char>, password: Seq<char>) -> Option<Seq<u8>> {
    match magic256_decrypt_spec(password, data) {
        Some(t) => Some(device_id_of(base64_decode_spec(encode_utf8(t)).unwrap())),
        None => None,
    }
}

/// The first 32 bytes of `bytes`, zero-padded.
fn fill_device_id(bytes: &Vec<u8>) -> (res: [u8; 32])
    ensures
        res@ == device_id_of(bytes@),
{
    let mut id = [0u8; 32];
    let mut i: usize = 0;
    while i < 32 && i < bytes.len()
        invariant
            i <= 32,
            i <= bytes@.len(),
            forall|j: int| 0 <= j < 32 ==> #[trigger] id@[j] == (if j < i { bytes@[j] } else { 0u8 }),
        decreases 32 - i,
    {
        id[i] = bytes[i];
        i = i + 1;
    }
    assert(id@ =~= device_id_of(bytes@));
    id
}

/// Reads the device id from the user file text `data` with `password`.
pub fn open_device_id(data: &str, password: &str) -> (res: Option<[u8; 32]>)
    requires
        device_id_readable(data@, password@),
    ensures
        match res {
            Some(id) => opened_device_id(data@, password@) == Some(id@),
            None => opened_device_id(data@, password@) is None,
        },
{
    match try_open_device_id(data, password) {
        Some(r) => r,
        None => {
            assert(false);
            None
        },
    }
}

/// `open_device_id`, or `None` where the decrypted text is not Base64.
pub fn try_open_device_id(data: &str, password: &str) -> (res: Option<Option<[u8; 32]>>)
    ensures
        res is Some <==> device_id_readable(data@, password@),
        res matches Some(r) ==> match r {
            Some(id) => opened_device_id(data@, password@) == Some(id@),
            None => opened_device_id(data@, password@) is None,
        },
{
    match magic256_decrypt(password, data) {
        None => Some(None),
        Some(text) => match base64_decode(utf8_bytes(text.as_str())) {
            None => None,
            Some(bytes) => Some(Some(fill_device_id(&bytes))),
        },
    }
}

/// Everything the client knows of a group, as it is saved: the group's name, the user's
/// address, the ratchet of the user's own messages, the agents and the messages.
pub struct GroupSave {
    pub group: String,
    pub addr: Address,
    pub proxy_ratchet: Ratchet,
    pub agents: Vec<ForeinAgent>,
    pub msgs: Vec<ServerMsg>,
}

/// The file of the group `group` for the user at `addr`:
/// `./saves/sendable(addr)@base64(base64(group)).msglog`.
pub open spec fn group_file_spec(addr: KeyAddrView, group: Seq<char>) -> Seq<char> {
    "./saves/"@ + key_sendable(addr) + "@"@ + encode_base64_text(encode_base64_text(group))
        + ".msglog"@
}

/// The key a group file is sealed under: the `DefaultHasher` hash of the password, in decimal.
pub open spec fn group_key(password: Seq<char>) -> Seq<char> {
    dec_nat(text_hash(password) as nat)
}

/// The text of a group file that holds `plain_data`.
pub open spec fn sealed_group(plain_data: Seq<char>, password: Seq<char>) -> Seq<char> {
    magic256_encrypt_spec(group_key(password), plain_data)
}

/// The data that the group file text `data` holds under `password`; `None` where it does not
/// decrypt.
pub open spec fn opened_group(data: Seq<char>, password: Seq<char>) -> Option<Seq<char>> {
    magic256_decrypt_spec(group_key(password), data)
}

/// The `DefaultHasher` hash of `text`, in decimal.
fn group_key_of(text: &str) -> (res: String)
    ensures
        res@ == group_key(text@),
{
    let mut hasher = DefaultHasher::new();
    hasher.write(utf8_bytes(text));
    let end: [u8; 1] = [0xff];
    hasher.write(end.as_slice());
    let h = hasher.finish();
    assert(end@ =~= seq![0xffu8]);
    assert(hasher@ =~= seq![encode_utf8(text@), seq![0xffu8]]);
    let mut s = String::new();
    push_dec_u64(&mut s, h);
    s
}

impl GroupSave {
    /// The path of the file of the group `group` for the user at `addr`.
    pub fn filename(addr: &Address, group: &str) -> (res: String)
        ensures
            res@ == group_file_spec(addr@, group@),
    {
        let safe_group = encode_base64_str(group);
        let twice = encode_base64_str(safe_group.as_str());
        let mut f = to_owned_string("./saves/");
        let a = addr.as_sendable();
        push_str(&mut f, a.as_str());
        push_str(&mut f, "@");
        push_str(&mut f, twice.as_str());
        push_str(&mut f, ".msglog");
        f
    }

    /// The text of the group file that holds `plain_data`, the saved group written out; it
    /// opens again, under the same password, as `plain_data`.
    pub fn seal(plain_data: &str, password: &str) -> (res: String)
        ensures
            res@ == sealed_group(plain_data@, password@),
            opened_group(res@, password@) == Some(plain_data@),
    {
        let key = group_key_of(password);
        magic256_encrypt(key.as_str(), plain_data)
    }

    /// The saved group that the group file text `data` holds, written out; `None` where it
    /// does not decrypt under `password`.
    pub fn open(data: &str, password: &str) -> (res: Option<String>)
        ensures
            match res {
                Some(p) => opened_group(data@, password@) == Some(p@),
                None => opened_group(data@, password@) is None,
            },
    {
        let key = group_key_of(password);
        magic256_decrypt(key.as_str(), data)
    }
}

} // verus!
