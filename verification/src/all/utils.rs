//! Addresses that carry a 32-byte device id.
use vstd::prelude::*;
use vstd::utf8::*;
use crate::client::utils::{encoded_bytes, key_sendable, lemma_key_sendable_roundtrip, KeyAddrView};
use crate::codec::{
    base64_decode, base64_decode_spec, base64_encode, base64_encode_spec, decode_base64_spec,
    encode_base64_str, encode_base64_text, push_char, push_str, to_owned_string, try_decode_base64,
    utf8_bytes,
};
use crate::text::{is_ws, split_and_clean_spec};
pub use crate::client::utils::decode_base64;
pub use crate::text::split_and_clean;

verus! {

/// An address as a mathematical value: a name and a device id.
pub struct DeviceAddrView {
    pub name: Seq<char>,
    pub device_id: Seq<u8>,
}

/// A participant: display name and 32-byte device id.
pub struct Address {
    pub name: String,
    pub device_id: [u8; 32],
}

impl View for Address {
    type V = DeviceAddrView;

    open spec fn view(&self) -> DeviceAddrView {
        DeviceAddrView { name: self.name@, device_id: self.device_id@ }
    }
}

impl Clone for Address {
    fn clone(&self) -> (res: Self)
        ensures
            res@ == self@,
    {
        Address { name: self.name.clone(), device_id: self.device_id }
    }
}

/// `base64(name)@base64(device id)`.
pub open spec fn device_sendable(a: DeviceAddrView) -> Seq<char> {
    encode_base64_text(a.name) + seq!['@'] + base64_encode_spec(a.device_id)
}

/// Whether `s` can be read as an address without failing.
pub open spec fn device_sendable_ok(s: Seq<char>) -> bool {
    let p = split_and_clean_spec(s, '@');
    &&& p.len() >= 2
    &&& decode_base64_spec(p[0]) is Some
    &&& base64_decode_spec(encode_utf8(p[1])) is Some
}

/// The 32 bytes of a device id read from `b`: its first 32 bytes, zeros after a shorter one.
pub open spec fn device_id_from(b: Seq<u8>) -> Seq<u8> {
    Seq::new(32, |i: int| if i < b.len() { b[i] } else { 0u8 })
}

/// The address read from `s`.
pub open spec fn device_from_sendable(s: Seq<char>) -> DeviceAddrView {
    let p = split_and_clean_spec(s, '@');
    DeviceAddrView {
        name: decode_base64_spec(p[0]).unwrap(),
        device_id: device_id_from(base64_decode_spec(encode_utf8(p[1])).unwrap()),
    }
}

impl Address {
    pub fn new(name: &str, device_id: [u8; 32]) -> (res: Address)
        ensures
            res@ == (DeviceAddrView { name: name@, device_id: device_id@ }),
    {
        Address { name: to_owned_string(name), device_id }
    }

    /// `base64(name)@base64(device id)`; read back by `from_sendable` as this same address
    /// when the name is not empty.
    pub fn as_sendable(&self) -> (res: String)
        ensures
            res@ == device_sendable(self@),
            self@.name.len() > 0 ==> device_sendable_ok(res@) && device_from_sendable(res@) == self@,
    {
        let mut s = encode_base64_str(self.name.as_str());
        push_char(&mut s, '@');
        let k = base64_encode(self.device_id.as_slice());
        push_str(&mut s, k.as_str());
        proof {
            if self@.name.len() > 0 {
                let v = KeyAddrView { name: self@.name, public_key: self@.device_id };
                lemma_key_sendable_roundtrip(v);
                assert(device_id_from(self@.device_id) =~= self@.device_id);
                assert(s@ == key_sendable(v));
                assert(device_sendable_ok(s@));
                assert(device_from_sendable(s@) == self@);
            }
        }
        s
    }

    /// Reads an address written by `as_sendable`: the device id is the first 32 bytes that
    /// its Base64 holds, zeros after fewer.
    pub fn from_sendable(s: String) -> (res: Address)
        requires
            device_sendable_ok(s@),
        ensures
            res@ == device_from_sendable(s@),
    {
        let addr_data = split_and_clean(s.as_str(), '@');
        assert(addr_data@[0]@ == split_and_clean_spec(s@, '@')[0]);
        assert(addr_data@[1]@ == split_and_clean_spec(s@, '@')[1]);
        let device_byte_vec = match base64_decode(utf8_bytes(addr_data[1])) {
            Some(b) => b,
            None => {
                assert(false);
                Vec::new()
            },
        };
        let mut device_id = [0u8; 32];
        let mut i: usize = 0;
        while i < device_byte_vec.len() && i < 32
            invariant
                i <= 32,
                i <= device_byte_vec@.len(),
                forall|j: int| 0 <= j < i ==> device_id@[j] == device_byte_vec@[j],
                forall|j: int| i <= j < 32 ==> device_id@[j] == 0u8,
            decreases 32 - i,
        {
            device_id[i] = device_byte_vec[i];
            i = i + 1;
        }
        assert(device_id@ =~= device_id_from(device_byte_vec@));
        let name = decode_base64(addr_data[0]);
        Address::new(name.as_str(), device_id)
    }
}

} // verus!
