//! Addresses that carry their owner's signing key, and the small helpers around them.
use vstd::prelude::*;
use vstd::utf8::*;
use std::collections::hash_map::DefaultHasher;
use std::hash::Hasher;
use vstd::std_specs::hash::DefaultHasherAdditionalSpecFns;
use crate::codec::{
    all_base64, base64_decode, base64_decode_spec, base64_encode, base64_encode_spec,
    decode_base64_spec, encode_base64_str, encode_base64_text, is_base64_char, push_char, push_str,
    to_owned_string, utf8_bytes, vec_bytes,
};
use crate::crypto::{k256_verify, k256_verify_spec};
use crate::text::{
    is_ws, join, lemma_split_and_clean_join, plain_piece, plain_pieces, split_and_clean_spec,
};
use crate::wire::{decode_base64_text, encoded_text};
pub use crate::text::split_and_clean;

verus! {

/// An address as the signed protocol carries it: a display name and the SEC1 bytes of the
/// owner's ECDSA public key.
pub struct KeyAddrView {
    pub name: Seq<char>,
    pub public_key: Seq<u8>,
}

/// A participant of the signed protocol.
pub struct Address {
    pub name: String,
    pub public_key: Vec<u8>,
}

impl View for Address {
    type V = KeyAddrView;

    open spec fn view(&self) -> KeyAddrView {
        KeyAddrView { name: self.name@, public_key: self.public_key@ }
    }
}

impl Clone for Address {
    fn clone(&self) -> (res: Self)
        ensures
            res@ == self@,
    {
        Address { name: self.name.clone(), public_key: self.public_key.clone() }
    }
}

/// What the Base64 encoder promises of the encoding of some bytes.
pub open spec fn encoded_bytes(b: Seq<u8>) -> bool {
    &&& all_base64(base64_encode_spec(b))
    &&& (base64_encode_spec(b).len() == 0 <==> b.len() == 0)
    &&& base64_decode_spec(encode_utf8(base64_encode_spec(b))) == Some(b)
}

/// `base64(name)@base64(public key)`, the form in which an address travels.
pub open spec fn key_sendable(a: KeyAddrView) -> Seq<char> {
    encode_base64_text(a.name) + seq!['@'] + base64_encode_spec(a.public_key)
}

/// Whether `s` can be read as an address without failing.
pub open spec fn key_sendable_ok(s: Seq<char>) -> bool {
    let p = split_and_clean_spec(s, '@');
    &&& p.len() >= 2
    &&& decode_base64_spec(p[0]) is Some
    &&& base64_decode_spec(encode_utf8(p[1])) is Some
}

/// The address read from `s`.
pub open spec fn key_from_sendable(s: Seq<char>) -> KeyAddrView {
    let p = split_and_clean_spec(s, '@');
    KeyAddrView {
        name: decode_base64_spec(p[0]).unwrap(),
        public_key: base64_decode_spec(encode_utf8(p[1])).unwrap(),
    }
}

proof fn lemma_base64_no_sep(s: Seq<char>)
    requires
        all_base64(s),
    ensures
        forall|i: int|
            0 <= i < s.len() ==> #[trigger] s[i] != '@' && s[i] != '*' && s[i] != ';' && s[i] != '.'
                && !is_ws(s[i]),
{
    assert forall|i: int| 0 <= i < s.len() implies #[trigger] s[i] != '@' && s[i] != '*' && s[i]
        != ';' && s[i] != '.' && !is_ws(s[i]) by {
        assert(is_base64_char(s[i]));
    }
}

/// An address with a name and a key reads back, from its sendable form, as itself; that form
/// holds neither `*`, `;` nor whitespace.
pub proof fn lemma_key_sendable_roundtrip(a: KeyAddrView)
    requires
        a.name.len() > 0,
        a.public_key.len() > 0,
        encoded_text(a.name),
        encoded_bytes(a.public_key),
    ensures
        key_sendable_ok(key_sendable(a)),
        key_from_sendable(key_sendable(a)) == a,
        forall|i: int|
            0 <= i < key_sendable(a).len() ==> #[trigger] key_sendable(a)[i] != '*'
                && key_sendable(a)[i] != ';' && !is_ws(key_sendable(a)[i]),
{
    let b = encode_base64_text(a.name);
    let k = base64_encode_spec(a.public_key);
    lemma_base64_no_sep(b);
    lemma_base64_no_sep(k);
    let ps = seq![b, k];
    assert(plain_pieces(ps, '@')) by {
        assert forall|i: int| 0 <= i < ps.len() implies plain_piece(#[trigger] ps[i], '@') by {
            if i == 0 {
                assert(ps[0] == b);
            } else {
                assert(ps[1] == k);
            }
        }
    }
    assert(join(ps, '@') =~= key_sendable(a)) by {
        assert(ps.drop_last() =~= seq![b]);
        assert(join(seq![b], '@') == b);
    }
    lemma_split_and_clean_join(ps, '@');
    let s = key_sendable(a);
    assert forall|i: int| 0 <= i < s.len() implies #[trigger] s[i] != '*' && s[i] != ';' && !is_ws(
        s[i],
    ) by {
        if i < b.len() {
            assert(s[i] == b[i]);
        } else if i > b.len() {
            assert(s[i] == k[i - b.len() - 1]);
        }
    }
}

/// The UTF-8 text that the Base64 text `text` encodes.
pub fn decode_base64(text: &str) -> (res: String)
    requires
        decode_base64_spec(text@) is Some,
    ensures
        decode_base64_spec(text@) == Some(res@),
{
    decode_base64_text(text)
}

impl Address {
    pub fn new(name: &str, public_key: Vec<u8>) -> (res: Address)
        ensures
            res@ == (KeyAddrView { name: name@, public_key: public_key@ }),
    {
        Address { name: to_owned_string(name), public_key }
    }

    /// `base64(name)@base64(public key)`; read back by `from_sendable` as this same address
    /// when neither the name nor the key is empty.
    pub fn as_sendable(&self) -> (res: String)
        ensures
            res@ == key_sendable(self@),
            encoded_text(self@.name),
            encoded_bytes(self@.public_key),
            self@.name.len() > 0 && self@.public_key.len() > 0 ==> key_sendable_ok(res@)
                && key_from_sendable(res@) == self@,
            self@.name.len() > 0 && self@.public_key.len() > 0 ==> forall|i: int|
                0 <= i < res@.len() ==> #[trigger] res@[i] != '*' && res@[i] != ';' && !is_ws(
                    res@[i],
                ),
    {
        let mut s = encode_base64_str(self.name.as_str());
        push_char(&mut s, '@');
        let k = base64_encode(vec_bytes(&self.public_key));
        push_str(&mut s, k.as_str());
        proof {
            if self@.name.len() > 0 && self@.public_key.len() > 0 {
                lemma_key_sendable_roundtrip(self@);
            }
        }
        s
    }

    /// Reads an address written by `as_sendable`.
    pub fn from_sendable(s: String) -> (res: Address)
        requires
            key_sendable_ok(s@),
        ensures
            res@ == key_from_sendable(s@),
    {
        match try_key_from_sendable(s.as_str()) {
            Some(a) => a,
            None => {
                assert(false);
                Address { name: String::new(), public_key: Vec::new() }
            },
        }
    }

    /// The display name.
    pub fn name(&self) -> (res: String)
        ensures
            res@ == self@.name,
    {
        self.name.clone()
    }

    /// Whether `signature_str`, Base64 of an ECDSA/secp256k1 signature, signs `msg` under this
    /// address's key.
    pub fn verify(&self, signature_str: &str, msg: &str) -> (res: bool)
        requires
            verify_ok(self@.public_key, signature_str@, msg@),
        ensures
            Some(res) == verify_spec(self@.public_key, signature_str@, msg@),
    {
        match self.try_verify(signature_str, msg) {
            Some(b) => b,
            None => {
                assert(false);
                false
            },
        }
    }

    /// `verify`, or `None` where the signature is not Base64, or the key or the signature
    /// cannot be read.
    pub fn try_verify(&self, signature_str: &str, msg: &str) -> (res: Option<bool>)
        ensures
            res == verify_spec(self@.public_key, signature_str@, msg@),
    {
        match base64_decode(utf8_bytes(signature_str)) {
            Some(sig) => k256_verify(vec_bytes(&self.public_key), vec_bytes(&sig), utf8_bytes(msg)),
            None => None,
        }
    }
}

/// The verdict on a Base64 signature `sig` of `msg` under `key`: `None` where the signature
/// is not Base64, or the key or the signature cannot be read.
pub open spec fn verify_spec(key: Seq<u8>, sig: Seq<char>, msg: Seq<char>) -> Option<bool> {
    match base64_decode_spec(encode_utf8(sig)) {
        Some(b) => k256_verify_spec(key, b, encode_utf8(msg)),
        None => None,
    }
}

/// Whether checking the signature does not fail.
pub open spec fn verify_ok(key: Seq<u8>, sig: Seq<char>, msg: Seq<char>) -> bool {
    verify_spec(key, sig, msg) is Some
}

/// Reads an address, or `None` where `from_sendable` would fail.
pub fn try_key_from_sendable(s: &str) -> (res: Option<Address>)
    ensures
        res is Some <==> key_sendable_ok(s@),
        res matches Some(a) ==> a@ == key_from_sendable(s@),
{
    let parts = split_and_clean(s, '@');
    if parts.len() < 2 {
        return None;
    }
    assert(parts@[0]@ == split_and_clean_spec(s@, '@')[0]);
    assert(parts@[1]@ == split_and_clean_spec(s@, '@')[1]);
    match crate::codec::try_decode_base64(parts[0]) {
        None => None,
        Some(name) => match base64_decode(utf8_bytes(parts[1])) {
            None => None,
            Some(key) => Some(Address { name, public_key: key }),
        },
    }
}

/// The big-endian bytes of `h`.
pub open spec fn be_bytes(h: u64) -> Seq<u8> {
    Seq::new(8, |i: int| ((h >> (56 - 8 * i) as u64) & 0xff) as u8)
}

/// The hash that `DefaultHasher` gives a string: its UTF-8 bytes, then the byte `0xff`.
pub open spec fn text_hash(text: Seq<char>) -> u64 {
    DefaultHasher::spec_finish(seq![encode_utf8(text), seq![0xffu8]])
}

/// The Base64 of the big-endian bytes of the `DefaultHasher` hash of `text`.
pub fn calc_hash(text: &str) -> (res: String)
    ensures
        res@ == base64_encode_spec(be_bytes(text_hash(text@))),
{
    let mut hasher = DefaultHasher::new();
    hasher.write(utf8_bytes(text));
    let end: [u8; 1] = [0xff];
    hasher.write(end.as_slice());
    let h = hasher.finish();
    assert(end@ =~= seq![0xffu8]);
    assert(hasher@ =~= seq![encode_utf8(text@), seq![0xffu8]]);
    let mut bytes: Vec<u8> = Vec::new();
    let mut i: u64 = 0;
    while i < 8
        invariant
            i <= 8,
            h == text_hash(text@),
            bytes@.len() == i,
            forall|j: int| 0 <= j < i ==> bytes@[j] == be_bytes(h)[j],
        decreases 8 - i,
    {
        let shift: u64 = 56 - 8 * i;
        let b = ((h >> shift) & 0xff) as u8;
        bytes.push(b);
        i = i + 1;
    }
    assert(bytes@ =~= be_bytes(h));
    base64_encode(vec_bytes(&bytes))
}

/// Whether `a` and `b` hold the same bytes.
pub fn bytes_equal(a: &[u8], b: &[u8]) -> (r: bool)
    ensures
        r == (a@ == b@),
{
    if a.len() != b.len() {
        return false;
    }
    let mut i: usize = 0;
    while i < a.len()
        invariant
            a@.len() == b@.len(),
            i <= a@.len(),
            forall|j: int| 0 <= j < i ==> a@[j] == b@[j],
        decreases a@.len() - i,
    {
        if a[i] != b[i] {
            return false;
        }
        i = i + 1;
    }
    assert(a@ =~= b@);
    true
}

impl Address {
    /// Whether `self` and `other` are the same address: same name, same key.
    pub fn same(&self, other: &Address) -> (r: bool)
        ensures
            r == (self@ == other@),
    {
        self.name == other.name && bytes_equal(self.public_key.as_slice(), other.public_key.as_slice())
    }
}

} // verus!
