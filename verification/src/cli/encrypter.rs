//! The key store of the terminal client: its own X25519 key pair, the people whose public
//! keys it has heard, and the AES-256-GCM channel it shares with those it trusts.
use vstd::prelude::*;
use vstd::utf8::*;
use crate::cli::utils::ConnectionData;
use crate::codec::{
    all_base64, encode_base64_text, is_base64_char, base64_decode, base64_decode_spec, base64_encode, base64_encode_spec, dec_int,
    i32_to_decimal, push_char, push_str, str_from_utf8, to_owned_string, utf8_bytes, vec_bytes,
};
use crate::crypto::{
    aes256gcm_decrypt, aes256gcm_encrypt, aes256gcm_open, aes256gcm_seal, random_secret,
    x25519_diffie_hellman, x25519_public, x25519_public_key, x25519_shared, aes_plaintext_ok,
};
use crate::text::{
    is_ws, join, lemma_split_and_clean_join, lemma_split_and_clean_terminated, plain_piece,
    plain_pieces, split_and_clean, split_and_clean_spec, terminated, views,
};
use crate::wire::{
    encoded_text, from_sendable_spec, lemma_sendable_chars, lemma_sendable_roundtrip, sendable,
    sendable_char, sendable_ok, try_read_sendable, AddrView, Address,
};

verus! {

/// The device id under which the terminal client speaks.
pub const DEVICE_ID: i32 = 12345;

/// The nonce of every message of the terminal client: the bytes of `unique nonce`.
pub open spec fn nonce_spec() -> Seq<u8> {
    seq![0x75u8, 0x6e, 0x69, 0x71, 0x75, 0x65, 0x20, 0x6e, 0x6f, 0x6e, 0x63, 0x65]
}

fn crypt_nonce() -> (n: [u8; 12])
    ensures
        n@ == nonce_spec(),
{
    let n: [u8; 12] = [0x75, 0x6e, 0x69, 0x71, 0x75, 0x65, 0x20, 0x6e, 0x6f, 0x6e, 0x63, 0x65];
    assert(n@ =~= nonce_spec());
    n
}

/// The Base64 text of the AES-256-GCM encryption of the UTF-8 bytes of `text` under `key`.
pub open spec fn seal_text(key: Seq<u8>, text: Seq<char>) -> Seq<char> {
    base64_encode_spec(aes256gcm_seal(key, nonce_spec(), encode_utf8(text)))
}

/// The text that `data`, the Base64 of an AES-256-GCM ciphertext, decrypts to under `key`;
/// `None` where the Base64, the authentication or the UTF-8 fails.
pub open spec fn open_text(key: Seq<u8>, data: Seq<char>) -> Option<Seq<char>> {
    match base64_decode_spec(encode_utf8(data)) {
        Some(c) => match aes256gcm_open(key, nonce_spec(), c) {
            Some(p) => if valid_utf8(p) {
                Some(decode_utf8(p))
            } else {
                None
            },
            None => None,
        },
        None => None,
    }
}

/// What sealing `text` under `key` is known to give: Base64 text, never empty, that opens
/// under the same key to `text` again.
pub open spec fn sealed(key: Seq<u8>, text: Seq<char>) -> bool {
    &&& all_base64(seal_text(key, text))
    &&& seal_text(key, text).len() > 0
    &&& open_text(key, seal_text(key, text)) == Some(text)
}

/// The inputs on which `crypt` does not fail: a plaintext that AES-GCM accepts, or a
/// ciphertext that opens.
pub open spec fn crypt_ok(key: Seq<u8>, data: Seq<char>, is_encrypting: bool) -> bool {
    if is_encrypting {
        aes_plaintext_ok(encode_utf8(data).len())
    } else {
        open_text(key, data) is Some
    }
}

/// Encrypts `data` under `key` into Base64 text, or decrypts such text back.
pub fn crypt(key: &[u8; 32], data: &str, isEncrypting: bool) -> (res: String)
    requires
        crypt_ok(key@, data@, isEncrypting),
    ensures
        isEncrypting ==> res@ == seal_text(key@, data@) && sealed(key@, data@),
        !isEncrypting ==> open_text(key@, data@) == Some(res@),
{
    let nonce = crypt_nonce();
    let bytes = utf8_bytes(data);
    if isEncrypting {
        match aes256gcm_encrypt(key, &nonce, bytes) {
            Some(c) => {
                let s = base64_encode(vec_bytes(&c));
                proof {
                    encode_utf8_valid_utf8(data@);
                    encode_utf8_decode_utf8(data@);
                }
                s
            },
            None => {
                assert(false);
                String::new()
            },
        }
    } else {
        match open_data(key, data) {
            Some(t) => t,
            None => {
                assert(false);
                String::new()
            },
        }
    }
}

/// Decrypts the Base64 ciphertext `data` under `key` into text; `None` where that fails.
pub(crate) fn open_data(key: &[u8; 32], data: &str) -> (res: Option<String>)
    ensures
        match res {
            Some(t) => open_text(key@, data@) == Some(t@),
            None => open_text(key@, data@) is None,
        },
{
    let nonce = crypt_nonce();
    match base64_decode(utf8_bytes(data)) {
        Some(c) => match aes256gcm_decrypt(key, &nonce, vec_bytes(&c)) {
            Some(p) => match str_from_utf8(vec_bytes(&p)) {
                Some(t) => Some(to_owned_string(t)),
                None => None,
            },
            None => None,
        },
        None => None,
    }
}

/// What the store knows of a person: their public key, the secret shared with them once
/// trusted, and their address.
pub struct KeyBundleView {
    pub public: Seq<u8>,
    pub shared: Option<Seq<u8>>,
    pub address: AddrView,
}

/// A person the terminal client has heard of.
pub struct KeyBundle {
    pub publicKey: [u8; 32],
    pub sharedSecret: Option<[u8; 32]>,
    pub address: Address,
}

impl View for KeyBundle {
    type V = KeyBundleView;

    open spec fn view(&self) -> KeyBundleView {
        KeyBundleView {
            public: self.publicKey@,
            shared: match self.sharedSecret {
                Some(k) => Some(k@),
                None => None,
            },
            address: self.address@,
        }
    }
}

impl KeyBundle {
    /// Whether a secret is shared with this person.
    pub fn isTrusting(&self) -> (r: bool)
        ensures
            r == self@.shared is Some,
    {
        self.sharedSecret.is_some()
    }
}

/// The index of the first person named `name`, if any.
pub open spec fn first_named(people: Seq<KeyBundleView>, name: Seq<char>) -> Option<int>
    decreases people.len(),
{
    if people.len() == 0 {
        None
    } else if people[0].address.name == name {
        Some(0)
    } else {
        match first_named(people.drop_first(), name) {
            Some(i) => Some(i + 1),
            None => None,
        }
    }
}

pub(crate) proof fn lemma_first_named(people: Seq<KeyBundleView>, name: Seq<char>, i: int)
    requires
        0 <= i <= people.len(),
        forall|j: int| 0 <= j < i ==> (#[trigger] people[j]).address.name != name,
    ensures
        i < people.len() && people[i].address.name == name ==> first_named(people, name) == Some(i),
        i == people.len() ==> first_named(people, name) is None,
    decreases i,
{
    if i > 0 {
        let rest = people.drop_first();
        assert forall|j: int| 0 <= j < i - 1 implies (#[trigger] rest[j]).address.name != name by {
            assert(rest[j] == people[j + 1]);
        }
        lemma_first_named(rest, name, i - 1);
        assert(people[0].address.name != name);
        if i < people.len() {
            assert(rest[i - 1] == people[i]);
        }
    }
}

pub(crate) proof fn lemma_first_named_found(people: Seq<KeyBundleView>, name: Seq<char>)
    ensures
        first_named(people, name) matches Some(j) ==> 0 <= j < people.len()
            && people[j].address.name == name,
    decreases people.len(),
{
    if people.len() > 0 {
        lemma_first_named_found(people.drop_first(), name);
    }
}

/// Whether a secret is shared with some person of `people`.
pub open spec fn any_trusting(people: Seq<KeyBundleView>) -> bool {
    exists|i: int| 0 <= i < people.len() && (#[trigger] people[i]).shared is Some
}

/// Every secret in `people` is the Diffie-Hellman secret of `secret` with that person's key,
/// and the person, holding the secret of that key, computes the same one.
pub open spec fn agreed(people: Seq<KeyBundleView>, secret: Seq<u8>) -> bool {
    forall|i: int|
        0 <= i < people.len() && (#[trigger] people[i]).shared is Some ==> {
            &&& people[i].shared == Some(x25519_shared(secret, people[i].public))
            &&& forall|other: Seq<u8>|
                #![trigger x25519_public(other)]
                other.len() == 32 && people[i].public == x25519_public(other) ==> x25519_shared(secret, people[i].public)
                    == x25519_shared(other, x25519_public(secret))
        }
}

/// `name@device`, the line that lists a person.
pub open spec fn person_line(a: AddrView) -> Seq<char> {
    a.name + seq!['@'] + dec_int(a.device_id as int)
}

/// `address.sealed`, the part of a secure text meant for a trusted person.
pub open spec fn piece_for(p: KeyBundleView, text: Seq<char>) -> Seq<char> {
    sendable(p.address) + seq!['.'] + seal_text(p.shared.unwrap(), text)
}

/// The parts of a secure text, one for each trusted person, in the order of `people`.
pub open spec fn pieces_for(people: Seq<KeyBundleView>, text: Seq<char>) -> Seq<Seq<char>>
    decreases people.len(),
{
    if people.len() == 0 {
        Seq::empty()
    } else if people.last().shared is Some {
        pieces_for(people.drop_last(), text).push(piece_for(people.last(), text))
    } else {
        pieces_for(people.drop_last(), text)
    }
}

/// The secure text of `text` for `people`: each part followed by `;`.
pub open spec fn encrypt_spec(people: Seq<KeyBundleView>, text: Seq<char>) -> Seq<char> {
    terminated(pieces_for(people, text), ';')
}

/// What encrypting `text` is known to give for each trusted person: a sealed text and an
/// address name that Base64 carries.
pub open spec fn sealed_for(people: Seq<KeyBundleView>, text: Seq<char>) -> bool {
    forall|i: int|
        0 <= i < people.len() && (#[trigger] people[i]).shared is Some ==> sealed(
            people[i].shared.unwrap(),
            text,
        ) && encoded_text(people[i].address.name)
}

/// The answer to a secure text from someone who has not shared a secret with the reader.
pub open spec fn cannot_read_text() -> Seq<char> {
    "has sent a secure message but you cannot read it as you do not trust them"@
}

/// The answer to a secure text that holds no part for the reader.
pub open spec fn not_trusted_text() -> Seq<char> {
    "has sent a message secure but does not trust you"@
}

/// What the reader named `me`, knowing `people`, reads from the parts `msgs` of a secure text
/// sent by `from`: the first part addressed to `me` decides, if the reader knows `from`.
/// `None` where reading fails: a part without an address that can be read, or one addressed
/// to `me` that does not decrypt.
pub open spec fn read_parts(
    people: Seq<KeyBundleView>,
    me: Seq<char>,
    from: Seq<char>,
    msgs: Seq<Seq<char>>,
) -> Option<Seq<char>>
    decreases msgs.len(),
{
    if msgs.len() == 0 {
        Some(not_trusted_text())
    } else {
        let parts = split_and_clean_spec(msgs[0], '.');
        if parts.len() == 0 || !sendable_ok(parts[0]) {
            None
        } else if from_sendable_spec(parts[0]).name == me && first_named(people, from) is Some {
            let p = people[first_named(people, from).unwrap()];
            match p.shared {
                Some(k) => if parts.len() < 2 {
                    None
                } else {
                    open_text(k, parts[1])
                },
                None => Some(cannot_read_text()),
            }
        } else {
            read_parts(people, me, from, msgs.drop_first())
        }
    }
}

/// What the reader reads from the secure text `data`.
pub open spec fn decrypt_spec(
    people: Seq<KeyBundleView>,
    me: Seq<char>,
    from: Seq<char>,
    data: Seq<char>,
) -> Option<Seq<char>> {
    read_parts(people, me, from, split_and_clean_spec(data, ';'))
}

/// The terminal client's keys and the people it knows.
pub struct Crypto {
    pub connData: ConnectionData,
    pub publicKey: [u8; 32],
    otherPeople: Vec<KeyBundle>,
    secretKey: [u8; 32],
    deviceId: i32,
}

impl Crypto {
    /// The people known, in the order they were heard.
    pub closed spec fn people(&self) -> Seq<KeyBundleView> {
        Seq::new(self.otherPeople@.len(), |i: int| self.otherPeople@[i]@)
    }

    /// The client's X25519 secret.
    pub closed spec fn secret(&self) -> Seq<u8> {
        self.secretKey@
    }

    /// The device id the client speaks under.
    pub closed spec fn device_id(&self) -> i32 {
        self.deviceId
    }

    /// The connection settings.
    pub closed spec fn conn(&self) -> ConnectionData {
        self.connData
    }

    /// The client's own name.
    pub closed spec fn name(&self) -> Seq<char> {
        self.connData.name@
    }

    /// The client's X25519 public key.
    pub closed spec fn public(&self) -> Seq<u8> {
        self.publicKey@
    }

    /// The public key belongs to the secret, and every shared secret was agreed with it.
    pub open spec fn wf(&self) -> bool {
        &&& self.public() == x25519_public(self.secret())
        &&& agreed(self.people(), self.secret())
    }

    /// Everything but the list of people is as in `old`.
    pub open spec fn same_keys(&self, old: &Crypto) -> bool {
        &&& self.conn() == old.conn()
        &&& self.name() == old.name()
        &&& self.public() == old.public()
        &&& self.secret() == old.secret()
        &&& self.device_id() == old.device_id()
    }

    /// A fresh key pair from the operating system's randomness, knowing nobody yet.
    pub fn new(connData: ConnectionData) -> (res: Crypto)
        ensures
            res.wf(),
            res.conn() == connData,
            res.name() == connData.name@,
            res.people() == Seq::<KeyBundleView>::empty(),
            res.device_id() == DEVICE_ID,
    {
        let secretKey = random_secret();
        let publicKey = x25519_public_key(&secretKey);
        let res = Crypto { connData, publicKey, otherPeople: Vec::new(), secretKey, deviceId: DEVICE_ID };
        assert(res.people() =~= Seq::<KeyBundleView>::empty());
        res
    }

    /// Remembers the public key that `addr` offered, not trusting them yet.
    pub fn addPublicKey(&mut self, addr: Address, publicKeyData: [u8; 32])
        ensures
            final(self).people() == old(self).people().push(
                KeyBundleView { public: publicKeyData@, shared: None, address: addr@ },
            ),
            final(self).same_keys(old(self)),
            old(self).wf() ==> final(self).wf(),
    {
        let kb = KeyBundle { publicKey: publicKeyData, sharedSecret: None, address: addr };
        self.otherPeople.push(kb);
        assert(self.people() =~= old(self).people().push(kb@));
    }

    /// The client's public key.
    pub fn public_key(&self) -> (r: [u8; 32])
        ensures
            r@ == self.public(),
    {
        self.publicKey
    }

    /// The client's own address.
    pub fn addr(&self) -> (res: Address)
        ensures
            res@ == (AddrView { name: self.name(), device_id: self.device_id() }),
    {
        Address::new(self.connData.name.as_str(), self.deviceId)
    }

    fn find_named(&self, name: &String) -> (r: Option<usize>)
        ensures
            r is None <==> first_named(self.people(), name@) is None,
            r matches Some(i) ==> i < self.people().len() && first_named(self.people(), name@) == Some(
                i as int,
            ),
    {
        let mut i: usize = 0;
        while i < self.otherPeople.len()
            invariant
                i <= self.otherPeople@.len(),
                forall|j: int| 0 <= j < i ==> (#[trigger] self.people()[j]).address.name != name@,
            decreases self.otherPeople@.len() - i,
        {
            if self.otherPeople[i].address.name == *name {
                proof {
                    lemma_first_named(self.people(), name@, i as int);
                }
                return Some(i);
            }
            i = i + 1;
        }
        proof {
            lemma_first_named(self.people(), name@, i as int);
        }
        None
    }

    /// Trusts the first person named `name`: computes the secret shared with them and
    /// returns their address; `None`, changing nothing, when nobody has that name.
    pub fn trust(&mut self, name: String) -> (res: Option<Address>)
        ensures
            match first_named(old(self).people(), name@) {
                None => res is None && final(self).people() == old(self).people(),
                Some(i) => {
                    &&& res is Some
                    &&& res.unwrap()@ == old(self).people()[i].address
                    &&& final(self).people() == old(self).people().update(
                        i,
                        KeyBundleView {
                            shared: Some(
                                x25519_shared(old(self).secret(), old(self).people()[i].public),
                            ),
                            ..old(self).people()[i]
                        },
                    )
                },
            },
            final(self).same_keys(old(self)),
            old(self).wf() ==> final(self).wf(),
    {
        match self.find_named(&name) {
            Some(i) => {
                let pk = self.otherPeople[i].publicKey;
                let shared = x25519_diffie_hellman(&self.secretKey, &pk);
                let address = self.otherPeople[i].address.clone();
                let kb = KeyBundle { publicKey: pk, sharedSecret: Some(shared), address: address.clone() };
                let ghost before = self.people();
                self.otherPeople.set(i, kb);
                assert(self.people() =~= before.update(i as int, kb@));
                Some(address)
            },
            None => None,
        }
    }

    /// Whether a secret is shared with anyone.
    pub fn isTrusting(&self) -> (r: bool)
        ensures
            r == any_trusting(self.people()),
    {
        let mut i: usize = 0;
        while i < self.otherPeople.len()
            invariant
                i <= self.otherPeople@.len(),
                forall|j: int| 0 <= j < i ==> (#[trigger] self.people()[j]).shared is None,
            decreases self.otherPeople@.len() - i,
        {
            if self.otherPeople[i].isTrusting() {
                assert(self.people()[i as int].shared is Some);
                return true;
            }
            i = i + 1;
        }
        false
    }

    /// One line `name@device` for each person known, in order.
    pub fn listPeople(&self) -> (res: Vec<String>)
        ensures
            res@.len() == self.people().len(),
            forall|i: int|
                0 <= i < res@.len() ==> (#[trigger] res@[i])@ == person_line(self.people()[i].address),
    {
        let mut out: Vec<String> = Vec::new();
        let mut i: usize = 0;
        while i < self.otherPeople.len()
            invariant
                i <= self.otherPeople@.len(),
                out@.len() == i,
                forall|j: int|
                    0 <= j < i ==> (#[trigger] out@[j])@ == person_line(self.people()[j].address),
            decreases self.otherPeople@.len() - i,
        {
            let a = &self.otherPeople[i].address;
            let mut line = a.name.clone();
            push_char(&mut line, '@');
            let d = i32_to_decimal(a.deviceId);
            push_str(&mut line, d.as_str());
            out.push(line);
            i = i + 1;
        }
        out
    }

    /// The secure text of `text`: for each trusted person, in order, their address, a dot,
    /// the text sealed under the secret shared with them, and a semicolon.
    pub fn encrypt(&self, text: String) -> (res: String)
        requires
            any_trusting(self.people()) ==> aes_plaintext_ok(encode_utf8(text@).len()),
        ensures
            res@ == encrypt_spec(self.people(), text@),
            sealed_for(self.people(), text@),
    {
        let mut out = String::new();
        let mut i: usize = 0;
        assert(self.people().take(0) =~= Seq::<KeyBundleView>::empty());
        while i < self.otherPeople.len()
            invariant
                i <= self.otherPeople@.len(),
                out@ == encrypt_spec(self.people().take(i as int), text@),
                sealed_for(self.people().take(i as int), text@),
                any_trusting(self.people()) ==> aes_plaintext_ok(encode_utf8(text@).len()),
            decreases self.otherPeople@.len() - i,
        {
            let ghost ps = self.people();
            assert(ps.take(i + 1).drop_last() =~= ps.take(i as int));
            assert(ps.take(i + 1).last() == ps[i as int]);
            match self.otherPeople[i].sharedSecret {
                Some(k) => {
                    assert(ps[i as int].shared is Some);
                    let addr = self.otherPeople[i].address.asSendable();
                    let sealed_text = crypt(&k, text.as_str(), true);
                    let ghost before = out@;
                    push_str(&mut out, addr.as_str());
                    push_char(&mut out, '.');
                    push_str(&mut out, sealed_text.as_str());
                    push_char(&mut out, ';');
                    let ghost piece = piece_for(ps[i as int], text@);
                    assert(pieces_for(ps.take(i + 1), text@) == pieces_for(ps.take(i as int), text@).push(piece));
                    assert(pieces_for(ps.take(i + 1), text@).drop_last() =~= pieces_for(ps.take(i as int), text@));
                    assert(out@ =~= before + piece + seq![';']);
                },
                None => {
                    assert(pieces_for(ps.take(i + 1), text@) == pieces_for(ps.take(i as int), text@));
                },
            }
            assert forall|j: int|
                0 <= j < i + 1 && (#[trigger] ps.take(i + 1)[j]).shared is Some implies sealed(
                ps.take(i + 1)[j].shared.unwrap(),
                text@,
            ) && encoded_text(ps.take(i + 1)[j].address.name) by {
                if j < i {
                    assert(ps.take(i + 1)[j] == ps.take(i as int)[j]);
                }
            }
            i = i + 1;
        }
        assert(self.people().take(i as int) =~= self.people());
        out
    }

    /// Reads the secure text `data` from `from`, or `None` where reading fails.
    fn read(&self, from: &Address, data: &str) -> (res: Option<String>)
        ensures
            match res {
                Some(t) => decrypt_spec(self.people(), self.name(), from@.name, data@) == Some(t@),
                None => decrypt_spec(self.people(), self.name(), from@.name, data@) is None,
            },
    {
        let msgs = split_and_clean(data, ';');
        let ghost all = views(msgs@);
        let mut i: usize = 0;
        assert(all.subrange(0, all.len() as int) =~= all);
        while i < msgs.len()
            invariant
                i <= msgs@.len(),
                all == views(msgs@),
                all == split_and_clean_spec(data@, ';'),
                decrypt_spec(self.people(), self.name(), from@.name, data@) == read_parts(
                    self.people(),
                    self.name(),
                    from@.name,
                    all.subrange(i as int, all.len() as int),
                ),
            decreases msgs@.len() - i,
        {
            let ghost rest = all.subrange(i as int, all.len() as int);
            assert(rest[0] == msgs@[i as int]@);
            assert(rest.drop_first() =~= all.subrange(i + 1, all.len() as int));
            let parts = split_and_clean(msgs[i], '.');
            if parts.len() == 0 {
                return None;
            }
            assert(parts@[0]@ == split_and_clean_spec(rest[0], '.')[0]);
            match try_read_sendable(parts[0]) {
                None => {
                    return None;
                },
                Some(address) => {
                    if address.name == self.connData.name {
                        match self.find_named(&from.name) {
                            Some(j) => {
                                match self.otherPeople[j].sharedSecret {
                                    Some(k) => {
                                        if parts.len() < 2 {
                                            return None;
                                        }
                                        assert(parts@[1]@ == split_and_clean_spec(rest[0], '.')[1]);
                                        return open_data(&k, parts[1]);
                                    },
                                    None => {
                                        return Some(to_owned_string(
                                            "has sent a secure message but you cannot read it as you do not trust them",
                                        ));
                                    },
                                }
                            },
                            None => {},
                        }
                    }
                },
            }
            i = i + 1;
        }
        Some(to_owned_string("has sent a message secure but does not trust you"))
    }

    /// What `from` wrote to this client in the secure text `addressedMsgData`, or a note
    /// that it was not meant to be read here.
    pub fn decrypt(&self, from: &Address, addressedMsgData: String) -> (res: String)
        requires
            decrypt_spec(self.people(), self.name(), from@.name, addressedMsgData@) is Some,
        ensures
            decrypt_spec(self.people(), self.name(), from@.name, addressedMsgData@) == Some(res@),
    {
        match self.read(from, addressedMsgData.as_str()) {
            Some(t) => t,
            None => {
                assert(false);
                String::new()
            },
        }
    }

    /// `decrypt`, or `None` where it would fail.
    pub fn try_decrypt(&self, from: &Address, addressedMsgData: String) -> (res: Option<String>)
        ensures
            match res {
                Some(t) => decrypt_spec(self.people(), self.name(), from@.name, addressedMsgData@)
                    == Some(t@),
                None => decrypt_spec(self.people(), self.name(), from@.name, addressedMsgData@) is None,
            },
    {
        match self.read(from, addressedMsgData.as_str()) {
            Some(_) => Some(self.decrypt(from, addressedMsgData)),
            None => None,
        }
    }
}

proof fn lemma_piece_parts(p: KeyBundleView, text: Seq<char>)
    requires
        p.shared is Some,
        sealed(p.shared.unwrap(), text),
        encoded_text(p.address.name),
    ensures
        plain_piece(piece_for(p, text), ';'),
        split_and_clean_spec(piece_for(p, text), '.') == seq![
            sendable(p.address),
            seal_text(p.shared.unwrap(), text),
        ],
{
    let a = sendable(p.address);
    let e = seal_text(p.shared.unwrap(), text);
    lemma_sendable_chars(p.address);
    assert(a.len() > 0) by {
        assert(a[encode_base64_text(p.address.name).len() as int] == '@');
    }
    assert forall|i: int| 0 <= i < e.len() implies #[trigger] e[i] != '.' && e[i] != ';' && !is_ws(e[i]) by {
        assert(is_base64_char(e[i]));
    }
    assert forall|i: int| 0 <= i < a.len() implies #[trigger] a[i] != '.' && a[i] != ';' by {
        assert(sendable_char(a[i]));
    }
    let ps = seq![a, e];
    assert(plain_pieces(ps, '.')) by {
        assert forall|i: int| 0 <= i < ps.len() implies plain_piece(#[trigger] ps[i], '.') by {
            if i == 0 {
                assert(ps[0] == a);
            } else {
                assert(ps[1] == e);
            }
        }
    }
    assert(join(ps, '.') =~= piece_for(p, text)) by {
        assert(ps.drop_last() =~= seq![a]);
        assert(join(seq![a], '.') == a);
    }
    lemma_split_and_clean_join(ps, '.');
    let q = piece_for(p, text);
    assert forall|i: int| 0 <= i < q.len() implies #[trigger] q[i] != ';' && !is_ws(q[i]) by {
        if i < a.len() {
            assert(q[i] == a[i]);
        } else if i > a.len() {
            assert(q[i] == e[i - a.len() - 1]);
        }
    }
}

pub(crate) proof fn lemma_pieces_plain(people: Seq<KeyBundleView>, text: Seq<char>)
    requires
        sealed_for(people, text),
    ensures
        plain_pieces(pieces_for(people, text), ';'),
    decreases people.len(),
{
    if people.len() > 0 {
        let init = people.drop_last();
        assert(sealed_for(init, text)) by {
            assert forall|i: int| 0 <= i < init.len() && (#[trigger] init[i]).shared is Some implies sealed(
                init[i].shared.unwrap(),
                text,
            ) && encoded_text(init[i].address.name) by {
                assert(init[i] == people[i]);
            }
        }
        lemma_pieces_plain(init, text);
        let last = people.last();
        if last.shared is Some {
            assert(people[people.len() - 1] == last);
            lemma_piece_parts(last, text);
            let ps = pieces_for(init, text).push(piece_for(last, text));
            assert forall|i: int| 0 <= i < ps.len() implies plain_piece(#[trigger] ps[i], ';') by {
                if i < ps.len() - 1 {
                    assert(ps[i] == pieces_for(init, text)[i]);
                }
            }
        }
    }
}

proof fn lemma_pieces_front(people: Seq<KeyBundleView>, text: Seq<char>)
    requires
        people.len() > 0,
    ensures
        pieces_for(people, text) == (if people[0].shared is Some {
            seq![piece_for(people[0], text)]
        } else {
            Seq::<Seq<char>>::empty()
        }) + pieces_for(people.drop_first(), text),
    decreases people.len(),
{
    let head = if people[0].shared is Some {
        seq![piece_for(people[0], text)]
    } else {
        Seq::<Seq<char>>::empty()
    };
    if people.len() == 1 {
        assert(people.drop_last() =~= Seq::<KeyBundleView>::empty());
        assert(people.drop_first() =~= Seq::<KeyBundleView>::empty());
        assert(people.last() == people[0]);
        assert(pieces_for(people, text) =~= head + pieces_for(people.drop_first(), text));
    } else {
        let init = people.drop_last();
        lemma_pieces_front(init, text);
        assert(init[0] == people[0]);
        assert(init.drop_first() =~= people.drop_first().drop_last());
        assert(people.drop_first().last() == people.last());
        assert(pieces_for(people, text) =~= head + pieces_for(people.drop_first(), text));
    }
}

/// Every trusted person of `people` up to the first one named `name` has a name: the parts
/// of a secure text read before the reader's own then carry addresses that can be read.
pub open spec fn named_up_to(people: Seq<KeyBundleView>, name: Seq<char>) -> bool {
    forall|i: int|
        0 <= i < people.len() && (#[trigger] people[i]).shared is Some && (forall|k: int|
            0 <= k < i ==> !((#[trigger] people[k]).shared is Some && people[k].address.name == name))
            ==> people[i].address.name.len() > 0
}

/// `people` holds a trusted person named `name`, every trusted person of that name under
/// the public key `key`, and the names that a reader meets before that person's part.
pub open spec fn trusts_as(people: Seq<KeyBundleView>, name: Seq<char>, key: Seq<u8>) -> bool {
    &&& exists|i: int|
        0 <= i < people.len() && (#[trigger] people[i]).shared is Some && people[i].address.name == name
    &&& forall|i: int|
        0 <= i < people.len() && (#[trigger] people[i]).shared is Some && people[i].address.name == name
            ==> people[i].public == key
    &&& named_up_to(people, name)
}

pub(crate) proof fn lemma_read_parts(
    ap: Seq<KeyBundleView>,
    a_secret: Seq<u8>,
    bp: Seq<KeyBundleView>,
    b_secret: Seq<u8>,
    aname: Seq<char>,
    bname: Seq<char>,
    text: Seq<char>,
)
    requires
        b_secret.len() == 32,
        sealed_for(ap, text),
        agreed(ap, a_secret),
        trusts_as(ap, bname, x25519_public(b_secret)),
        agreed(bp, b_secret),
        first_named(bp, aname) matches Some(j) && bp[j].shared is Some && bp[j].public == x25519_public(
            a_secret,
        ),
    ensures
        read_parts(bp, bname, aname, pieces_for(ap, text)) == Some(text),
    decreases ap.len(),
{
    let rest = ap.drop_first();
    let w = choose|i: int|
        0 <= i < ap.len() && (#[trigger] ap[i]).shared is Some && ap[i].address.name == bname;
    assert(0 <= w < ap.len());
    lemma_pieces_front(ap, text);
    let p = ap[0];
    let is_target = p.shared is Some && p.address.name == bname;
    if !is_target {
        assert(w > 0);
        assert(rest[w - 1] == ap[w]);
        assert(sealed_for(rest, text)) by {
            assert forall|i: int| 0 <= i < rest.len() && (#[trigger] rest[i]).shared is Some implies sealed(
                rest[i].shared.unwrap(),
                text,
            ) && encoded_text(rest[i].address.name) by {
                assert(rest[i] == ap[i + 1]);
            }
        }
        assert(agreed(rest, a_secret)) by {
            assert forall|i: int| 0 <= i < rest.len() && (#[trigger] rest[i]).shared is Some implies {
                &&& rest[i].shared == Some(x25519_shared(a_secret, rest[i].public))
                &&& forall|other: Seq<u8>|
                    #![trigger x25519_public(other)]
                    other.len() == 32 && rest[i].public == x25519_public(other) ==> x25519_shared(a_secret, rest[i].public)
                        == x25519_shared(other, x25519_public(a_secret))
            } by {
                assert(rest[i] == ap[i + 1]);
            }
        }
        assert(trusts_as(rest, bname, x25519_public(b_secret))) by {
            assert forall|i: int|
                0 <= i < rest.len() && (#[trigger] rest[i]).shared is Some && rest[i].address.name
                    == bname implies rest[i].public == x25519_public(b_secret) by {
                assert(rest[i] == ap[i + 1]);
            }
            assert forall|i: int|
                0 <= i < rest.len() && (#[trigger] rest[i]).shared is Some && (forall|k: int|
                    0 <= k < i ==> !((#[trigger] rest[k]).shared is Some && rest[k].address.name
                        == bname)) implies rest[i].address.name.len() > 0 by {
                assert(rest[i] == ap[i + 1]);
                assert forall|k: int| 0 <= k < i + 1 implies !((#[trigger] ap[k]).shared is Some
                    && ap[k].address.name == bname) by {
                    if k > 0 {
                        assert(ap[k] == rest[k - 1]);
                    }
                }
            }
        }
        lemma_read_parts(rest, a_secret, bp, b_secret, aname, bname, text);
    }
    if p.shared is Some {
        assert(sealed(p.shared.unwrap(), text) && encoded_text(p.address.name));
        lemma_piece_parts(p, text);
        assert(p.address.name.len() > 0);
        lemma_sendable_roundtrip(p.address);
        let msgs = pieces_for(ap, text);
        assert(msgs[0] == piece_for(p, text));
        assert(msgs.drop_first() =~= pieces_for(rest, text));
        if is_target {
            lemma_first_named_found(bp, aname);
            let j = first_named(bp, aname).unwrap();
            let ka = p.shared.unwrap();
            let kb = bp[j].shared.unwrap();
            assert(ka == x25519_shared(a_secret, x25519_public(b_secret)));
            assert(kb == x25519_shared(b_secret, bp[j].public));
            assert(x25519_shared(b_secret, bp[j].public) == x25519_shared(a_secret, x25519_public(b_secret)));
        }
    } else {
        assert(pieces_for(ap, text) =~= pieces_for(rest, text));
    }
}

/// A secure text reaches the one it is meant for: when `a` has trusted `b` under `b`'s public
/// key and `b` has trusted `a` under `a`'s, a secure text `c` that `a` made of `text` (what
/// `a.encrypt(text)` returns) reads at `b`, as sent by `a`, as `text`.
pub proof fn lemma_secure_text_roundtrip(a: Crypto, b: Crypto, text: Seq<char>, c: Seq<char>)
    requires
        a.wf(),
        b.wf(),
        c == encrypt_spec(a.people(), text),
        sealed_for(a.people(), text),
        trusts_as(a.people(), b.name(), b.public()),
        first_named(b.people(), a.name()) matches Some(j) && b.people()[j].shared is Some
            && b.people()[j].public == a.public(),
    ensures
        decrypt_spec(b.people(), b.name(), a.name(), c) == Some(text),
{
    lemma_pieces_plain(a.people(), text);
    lemma_split_and_clean_terminated(pieces_for(a.people(), text), ';');
    lemma_read_parts(a.people(), a.secret(), b.people(), b.secret(), a.name(), b.name(), text);
}

}
