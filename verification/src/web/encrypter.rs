//! The key store of the browser client: its own key bundle and the people it knows. Its
//! secure texts are those of the terminal client: one part per trusted person, sealed with
//! AES-256-GCM under the secret shared with them.
use vstd::prelude::*;
use vstd::utf8::*;
use crate::cli::encrypter::{
    agreed, any_trusting, crypt, decrypt_spec, encrypt_spec, first_named, lemma_first_named,
    lemma_first_named_found, lemma_pieces_plain, lemma_read_parts, open_data, piece_for, pieces_for,
    sealed, sealed_for, trusts_as, KeyBundleView,
};
use crate::codec::{
    base64_encode, base64_encode_spec, dec_int, i32_to_decimal, push_char, push_str,
    to_owned_string,
};
use crate::crypto::{aes_plaintext_ok, x25519_diffie_hellman, x25519_public, x25519_shared};
use crate::text::{lemma_split_and_clean_terminated, split_and_clean, split_and_clean_spec, views};
use crate::web::key_bundle::{KeyBundle, SecretKey, SecretView, WebBundleView};
use crate::wire::{
    encoded_text, from_sendable_spec, sendable, sendable_ok, try_read_sendable, AddrView, Address,
};

verus! {

/// What the store knows of a person, as the secure texts see it: the secret shared with
/// them only when it is a shared secret.
pub open spec fn people_view(b: WebBundleView) -> KeyBundleView {
    KeyBundleView {
        public: b.public_key,
        shared: match b.secret {
            SecretView::Shared(k) => Some(k),
            _ => None,
        },
        address: b.address,
    }
}

/// How the store relates to someone: `self`, `trusted`, `allowedTrust` or `unknown`.
pub open spec fn relation_text(secret: Option<SecretView>) -> Seq<char> {
    match secret {
        Some(SecretView::Ephemeral(_)) => "self"@,
        Some(SecretView::Shared(_)) => "trusted"@,
        Some(SecretView::Empty) => "allowedTrust"@,
        None => "unknown"@,
    }
}

/// The index of the first bundle at the address `a`, if any.
pub open spec fn first_at(people: Seq<WebBundleView>, a: AddrView) -> Option<int>
    decreases people.len(),
{
    if people.len() == 0 {
        None
    } else if people[0].address == a {
        Some(0)
    } else {
        match first_at(people.drop_first(), a) {
            Some(i) => Some(i + 1),
            None => None,
        }
    }
}

proof fn lemma_first_at(people: Seq<WebBundleView>, a: AddrView, i: int)
    requires
        0 <= i <= people.len(),
        forall|j: int| 0 <= j < i ==> (#[trigger] people[j]).address != a,
    ensures
        i < people.len() && people[i].address == a ==> first_at(people, a) == Some(i),
        i == people.len() ==> first_at(people, a) is None,
    decreases i,
{
    if i > 0 {
        let rest = people.drop_first();
        assert forall|j: int| 0 <= j < i - 1 implies (#[trigger] rest[j]).address != a by {
            assert(rest[j] == people[j + 1]);
        }
        lemma_first_at(rest, a, i - 1);
        if i < people.len() {
            assert(rest[i - 1] == people[i]);
        }
    }
}

/// The index of the first bundle whose public key is, in Base64, `key`, if any.
pub open spec fn first_with_key(people: Seq<WebBundleView>, key: Seq<char>) -> Option<int>
    decreases people.len(),
{
    if people.len() == 0 {
        None
    } else if base64_encode_spec(people[0].public_key) == key {
        Some(0)
    } else {
        match first_with_key(people.drop_first(), key) {
            Some(i) => Some(i + 1),
            None => None,
        }
    }
}

proof fn lemma_first_with_key(people: Seq<WebBundleView>, key: Seq<char>, i: int)
    requires
        0 <= i <= people.len(),
        forall|j: int| 0 <= j < i ==> base64_encode_spec((#[trigger] people[j]).public_key) != key,
    ensures
        i < people.len() && base64_encode_spec(people[i].public_key) == key ==> first_with_key(
            people,
            key,
        ) == Some(i),
        i == people.len() ==> first_with_key(people, key) is None,
    decreases i,
{
    if i > 0 {
        let rest = people.drop_first();
        assert forall|j: int| 0 <= j < i - 1 implies base64_encode_spec(
            (#[trigger] rest[j]).public_key,
        ) != key by {
            assert(rest[j] == people[j + 1]);
        }
        lemma_first_with_key(rest, key, i - 1);
        if i < people.len() {
            assert(rest[i - 1] == people[i]);
        }
    }
}

/// The key store of the browser client.
pub struct Crypto {
    pub is_encrypting: bool,
    self_data: KeyBundle,
    other_people: Vec<KeyBundle>,
}

impl Crypto {
    /// Whether the user sends secure texts.
    pub closed spec fn encrypting(&self) -> bool {
        self.is_encrypting
    }

    /// The client's own bundle.
    pub closed spec fn own(&self) -> WebBundleView {
        self.self_data@
    }

    /// The bundles of the people known, in the order they were heard.
    pub closed spec fn bundles(&self) -> Seq<WebBundleView> {
        Seq::new(self.other_people@.len(), |i: int| self.other_people@[i]@)
    }

    /// The people known, as the secure texts see them.
    pub open spec fn people(&self) -> Seq<KeyBundleView> {
        self.bundles().map_values(|b: WebBundleView| people_view(b))
    }

    /// The client's own X25519 secret.
    pub open spec fn own_secret(&self) -> Seq<u8> {
        match self.own().secret {
            SecretView::Ephemeral(s) => s,
            _ => Seq::empty(),
        }
    }

    /// The client's own name.
    pub open spec fn name(&self) -> Seq<char> {
        self.own().address.name
    }

    /// The store's invariant: its own bundle holds its own secret and the matching public
    /// key; no one else's bundle holds an own secret; every shared secret was agreed.
    pub open spec fn wf(&self) -> bool {
        &&& self.own().secret is Ephemeral
        &&& self.own().public_key == x25519_public(self.own_secret())
        &&& forall|i: int| 0 <= i < self.bundles().len() ==> (#[trigger] self.bundles()[i]).secret !is Ephemeral
        &&& agreed(self.people(), self.own_secret())
    }

    /// A store for `name` on device `deviceId`, with a key pair drawn from the generator
    /// seeded with `randNum`, knowing nobody yet.
    pub fn new(name: &str, deviceId: i32, randNum: u64) -> (res: Crypto)
        ensures
            res.wf(),
            res.own() == (WebBundleView {
                public_key: x25519_public(crate::crypto::chacha20_seeded_bytes(randNum)),
                secret: SecretView::Ephemeral(crate::crypto::chacha20_seeded_bytes(randNum)),
                address: AddrView { name: name@, device_id: deviceId },
            }),
            res.bundles() == Seq::<WebBundleView>::empty(),
            !res.encrypting(),
    {
        let res = Crypto {
            self_data: KeyBundle::newSelfKeySet(Address::new(name, deviceId), randNum),
            other_people: Vec::new(),
            is_encrypting: false,
        };
        assert(res.bundles() =~= Seq::<WebBundleView>::empty());
        assert(res.people() =~= Seq::<KeyBundleView>::empty());
        res
    }

    /// Remembers the public key that `addr` offered, not trusting them yet.
    pub fn add_public_key(&mut self, addr: Address, public_key_data: [u8; 32])
        ensures
            final(self).bundles() == old(self).bundles().push(
                WebBundleView { public_key: public_key_data@, secret: SecretView::Empty, address: addr@ },
            ),
            final(self).own() == old(self).own(),
            final(self).encrypting() == old(self).encrypting(),
            old(self).wf() ==> final(self).wf(),
    {
        let kb = KeyBundle { address: addr, secret: SecretKey::Empty(), publicKey: public_key_data };
        self.other_people.push(kb);
        assert(self.bundles() =~= old(self).bundles().push(kb@));
        assert(self.people() =~= old(self).people().push(people_view(kb@)));
    }

    /// Whether the user sends secure texts.
    pub fn encrypting_now(&self) -> (r: bool)
        ensures
            r == self.encrypting(),
    {
        self.is_encrypting
    }

    /// Whether a secret is shared with anyone.
    pub fn any_trusted(&self) -> (r: bool)
        ensures
            r == any_trusting(self.people()),
    {
        let mut i: usize = 0;
        while i < self.other_people.len()
            invariant
                i <= self.other_people@.len(),
                forall|j: int| 0 <= j < i ==> (#[trigger] self.people()[j]).shared is None,
            decreases self.other_people@.len() - i,
        {
            assert(self.people()[i as int] == people_view(self.other_people@[i as int]@));
            if self.other_people[i].isTrusting() {
                assert(self.people()[i as int].shared is Some);
                return true;
            }
            i = i + 1;
        }
        false
    }

    /// Switches secure texts on or off.
    pub fn set_encrypting(&mut self, on: bool)
        ensures
            final(self).encrypting() == on,
            final(self).own() == old(self).own(),
            final(self).bundles() == old(self).bundles(),
            old(self).wf() ==> final(self).wf(),
    {
        self.is_encrypting = on;
    }

    /// The client's own address.
    pub fn addr(&self) -> (res: Address)
        ensures
            res@ == self.own().address,
    {
        Address::new(self.self_data.address.name.as_str(), self.self_data.address.deviceId)
    }

    fn find_named(&self, name: &String) -> (r: Option<usize>)
        ensures
            r is None <==> first_named(self.people(), name@) is None,
            r matches Some(i) ==> i < self.bundles().len() && first_named(self.people(), name@)
                == Some(i as int),
    {
        let mut i: usize = 0;
        while i < self.other_people.len()
            invariant
                i <= self.other_people@.len(),
                forall|j: int| 0 <= j < i ==> (#[trigger] self.people()[j]).address.name != name@,
            decreases self.other_people@.len() - i,
        {
            if self.other_people[i].address.name == *name {
                proof {
                    lemma_first_named(self.people(), name@, i as int);
                }
                return Some(i);
            }
            i = i + 1;
        }
        proof {
            lemma_first_named(self.people(), name@, i as int);
        }
        None
    }

    /// Trusts the first person named `name` with the secret shared with them, and returns
    /// their address; `None`, changing nothing, when nobody has that name.
    pub fn trust(&mut self, name: String) -> (res: Option<Address>)
        requires
            old(self).wf(),
        ensures
            final(self).wf(),
            match first_named(old(self).people(), name@) {
                None => res is None && final(self).bundles() == old(self).bundles(),
                Some(i) => {
                    &&& res is Some
                    &&& res.unwrap()@ == old(self).bundles()[i].address
                    &&& final(self).bundles() == old(self).bundles().update(
                        i,
                        WebBundleView {
                            secret: SecretView::Shared(
                                x25519_shared(old(self).own_secret(), old(self).bundles()[i].public_key),
                            ),
                            ..old(self).bundles()[i]
                        },
                    )
                },
            },
            final(self).own() == old(self).own(),
            final(self).encrypting() == old(self).encrypting(),
    {
        match self.find_named(&name) {
            Some(i) => {
                let own = match &self.self_data.secret {
                    SecretKey::Ephemeral(s) => *s,
                    _ => {
                        assert(false);
                        [0u8; 32]
                    },
                };
                let pk = self.other_people[i].publicKey;
                let shared = x25519_diffie_hellman(&own, &pk);
                let address = self.other_people[i].address.clone();
                let kb = KeyBundle { publicKey: pk, secret: SecretKey::Shared(shared), address: address.clone() };
                let ghost before = self.bundles();
                let ghost before_people = self.people();
                self.other_people.set(i, kb);
                assert(self.bundles() =~= before.update(i as int, kb@));
                assert(self.people() =~= before_people.update(i as int, people_view(kb@)));
                Some(address)
            },
            None => None,
        }
    }

    /// The bundle of `forien`: the client's own if it is the client's address, else that of
    /// the first person at that address.
    pub fn person(&self, forien: &Address) -> (res: Option<&KeyBundle>)
        ensures
            forien@ == self.own().address ==> (res matches Some(b) && b@ == self.own()),
            forien@ != self.own().address ==> match first_at(self.bundles(), forien@) {
                Some(i) => (res matches Some(b) && b@ == self.bundles()[i]),
                None => res is None,
            },
    {
        if forien.name == self.self_data.address.name && forien.deviceId == self.self_data.address.deviceId {
            return Some(&self.self_data);
        }
        let mut i: usize = 0;
        while i < self.other_people.len()
            invariant
                i <= self.other_people@.len(),
                forien@ != self.own().address,
                forall|j: int| 0 <= j < i ==> (#[trigger] self.bundles()[j]).address != forien@,
            decreases self.other_people@.len() - i,
        {
            let a = &self.other_people[i].address;
            if a.name == forien.name && a.deviceId == forien.deviceId {
                proof {
                    lemma_first_at(self.bundles(), forien@, i as int);
                }
                return Some(&self.other_people[i]);
            }
            i = i + 1;
        }
        proof {
            lemma_first_at(self.bundles(), forien@, i as int);
        }
        None
    }

    /// The secret the store holds for `a`, if it knows `a`.
    pub open spec fn secret_for(&self, a: AddrView) -> Option<SecretView> {
        if a == self.own().address {
            Some(self.own().secret)
        } else {
            match first_at(self.bundles(), a) {
                Some(i) => Some(self.bundles()[i].secret),
                None => None,
            }
        }
    }

    /// How the store relates to `forien`.
    pub fn relation(&self, forien: &Address) -> (res: String)
        ensures
            res@ == relation_text(self.secret_for(forien@)),
    {
        match self.person(forien) {
            Some(key_bundle) => match key_bundle.secret {
                SecretKey::Ephemeral(_) => to_owned_string("self"),
                SecretKey::Shared(_) => to_owned_string("trusted"),
                SecretKey::Empty() => to_owned_string("allowedTrust"),
            },
            None => to_owned_string("unknown"),
        }
    }

    /// The first person whose public key is, in Base64, `key`.
    pub fn person_from_pub_key(&self, key: &str) -> (res: Option<&KeyBundle>)
        ensures
            match first_with_key(self.bundles(), key@) {
                Some(i) => (res matches Some(b) && b@ == self.bundles()[i]),
                None => res is None,
            },
    {
        let mut i: usize = 0;
        while i < self.other_people.len()
            invariant
                i <= self.other_people@.len(),
                forall|j: int|
                    0 <= j < i ==> base64_encode_spec((#[trigger] self.bundles()[j]).public_key) != key@,
            decreases self.other_people@.len() - i,
        {
            let encoded = base64_encode(self.other_people[i].publicKey.as_slice());
            if crate::text::str_equal(encoded.as_str(), key) {
                proof {
                    lemma_first_with_key(self.bundles(), key@, i as int);
                }
                return Some(&self.other_people[i]);
            }
            i = i + 1;
        }
        proof {
            lemma_first_with_key(self.bundles(), key@, i as int);
        }
        None
    }

    /// `name@device,` and a line break for each person known.
    pub fn list_people(&self) -> (res: String)
        ensures
            res@ == people_list(self.bundles(), self.bundles().len()),
    {
        let mut s = String::new();
        let mut i: usize = 0;
        while i < self.other_people.len()
            invariant
                i <= self.other_people@.len(),
                s@ == people_list(self.bundles(), i as nat),
            decreases self.other_people@.len() - i,
        {
            let a = &self.other_people[i].address;
            push_str(&mut s, a.name.as_str());
            push_char(&mut s, '@');
            let d = i32_to_decimal(a.deviceId);
            push_str(&mut s, d.as_str());
            push_str(&mut s, ",\n");
            i = i + 1;
        }
        s
    }

    /// The client's public key, in Base64.
    pub fn public_key(&self) -> (res: String)
        ensures
            res@ == base64_encode_spec(self.own().public_key),
    {
        base64_encode(self.self_data.publicKey.as_slice())
    }

    /// The secure text of `text`: for each trusted person, in order, their address, a dot,
    /// the text sealed under the secret shared with them, and a semicolon.
    pub fn encrypt(&self, text: String) -> (res: String)
        requires
            any_trusting(self.people()) ==> aes_plaintext_ok(encode_utf8(text@).len()),
        ensures
            res@ == encrypt_spec(self.people(), text@),
            sealed_for(self.people(), text@),
    {
        let mut out = String::new();
        let mut i: usize = 0;
        let ghost ps = self.people();
        assert(ps.take(0) =~= Seq::<KeyBundleView>::empty());
        while i < self.other_people.len()
            invariant
                i <= self.other_people@.len(),
                ps == self.people(),
                out@ == encrypt_spec(ps.take(i as int), text@),
                sealed_for(ps.take(i as int), text@),
                any_trusting(ps) ==> aes_plaintext_ok(encode_utf8(text@).len()),
            decreases self.other_people@.len() - i,
        {
            assert(ps.take(i + 1).drop_last() =~= ps.take(i as int));
            assert(ps.take(i + 1).last() == ps[i as int]);
            assert(ps[i as int] == people_view(self.other_people@[i as int]@));
            match self.other_people[i].secret {
                SecretKey::Shared(k) => {
                    assert(ps[i as int].shared is Some);
                    let addr = self.other_people[i].address.asSendable();
                    let sealed_text = crypt(&k, text.as_str(), true);
                    let ghost before = out@;
                    push_str(&mut out, addr.as_str());
                    push_char(&mut out, '.');
                    push_str(&mut out, sealed_text.as_str());
                    push_char(&mut out, ';');
                    let ghost piece = piece_for(ps[i as int], text@);
                    assert(pieces_for(ps.take(i + 1), text@) == pieces_for(ps.take(i as int), text@).push(piece));
                    assert(pieces_for(ps.take(i + 1), text@).drop_last() =~= pieces_for(ps.take(i as int), text@));
                    assert(out@ =~= before + piece + seq![';']);
                },
                _ => {
                    assert(pieces_for(ps.take(i + 1), text@) == pieces_for(ps.take(i as int), text@));
                },
            }
            assert forall|j: int|
                0 <= j < i + 1 && (#[trigger] ps.take(i + 1)[j]).shared is Some implies sealed(
                ps.take(i + 1)[j].shared.unwrap(),
                text@,
            ) && encoded_text(ps.take(i + 1)[j].address.name) by {
                if j < i {
                    assert(ps.take(i + 1)[j] == ps.take(i as int)[j]);
                }
            }
            i = i + 1;
        }
        assert(ps.take(i as int) =~= ps);
        out
    }

    /// Reads the secure text `data` from `from`, or `None` where reading fails.
    fn read(&self, from: &Address, data: &str) -> (res: Option<String>)
        ensures
            match res {
                Some(t) => decrypt_spec(self.people(), self.name(), from@.name, data@) == Some(t@),
                None => decrypt_spec(self.people(), self.name(), from@.name, data@) is None,
            },
    {
        let msgs = split_and_clean(data, ';');
        let ghost all = views(msgs@);
        let mut i: usize = 0;
        assert(all.subrange(0, all.len() as int) =~= all);
        while i < msgs.len()
            invariant
                i <= msgs@.len(),
                all == views(msgs@),
                all == split_and_clean_spec(data@, ';'),
                decrypt_spec(self.people(), self.name(), from@.name, data@) == crate::cli::encrypter::read_parts(
                    self.people(),
                    self.name(),
                    from@.name,
                    all.subrange(i as int, all.len() as int),
                ),
            decreases msgs@.len() - i,
        {
            let ghost rest = all.subrange(i as int, all.len() as int);
            assert(rest[0] == msgs@[i as int]@);
            assert(rest.drop_first() =~= all.subrange(i + 1, all.len() as int));
            let parts = split_and_clean(msgs[i], '.');
            if parts.len() == 0 {
                return None;
            }
            assert(parts@[0]@ == split_and_clean_spec(rest[0], '.')[0]);
            match try_read_sendable(parts[0]) {
                None => {
                    return None;
                },
                Some(address) => {
                    if address.name == self.self_data.address.name {
                        match self.find_named(&from.name) {
                            Some(j) => {
                                assert(self.people()[j as int] == people_view(self.other_people@[j as int]@));
                                match self.other_people[j].secret {
                                    SecretKey::Shared(k) => {
                                        if parts.len() < 2 {
                                            return None;
                                        }
                                        assert(parts@[1]@ == split_and_clean_spec(rest[0], '.')[1]);
                                        return open_data(&k, parts[1]);
                                    },
                                    _ => {
                                        return Some(to_owned_string(
                                            "has sent a secure message but you cannot read it as you do not trust them",
                                        ));
                                    },
                                }
                            },
                            None => {},
                        }
                    }
                },
            }
            i = i + 1;
        }
        Some(to_owned_string("has sent a message secure but does not trust you"))
    }

    /// What `from` wrote to this client in the secure text `addressed_msg_data`, or a note
    /// that it was not meant to be read here.
    pub fn decrypt(&self, from: &Address, addressed_msg_data: String) -> (res: String)
        requires
            decrypt_spec(self.people(), self.name(), from@.name, addressed_msg_data@) is Some,
        ensures
            decrypt_spec(self.people(), self.name(), from@.name, addressed_msg_data@) == Some(res@),
    {
        match self.read(from, addressed_msg_data.as_str()) {
            Some(t) => t,
            None => {
                assert(false);
                String::new()
            },
        }
    }

    /// `decrypt`, or `None` where it would fail.
    pub fn try_decrypt(&self, from: &Address, addressed_msg_data: String) -> (res: Option<String>)
        ensures
            match res {
                Some(t) => decrypt_spec(self.people(), self.name(), from@.name, addressed_msg_data@)
                    == Some(t@),
                None => decrypt_spec(self.people(), self.name(), from@.name, addressed_msg_data@) is None,
            },
    {
        match self.read(from, addressed_msg_data.as_str()) {
            Some(_) => Some(self.decrypt(from, addressed_msg_data)),
            None => None,
        }
    }
}

/// The list of the first `n` people: `name@device,` and a line break each.
pub open spec fn people_list(people: Seq<WebBundleView>, n: nat) -> Seq<char>
    decreases n,
{
    if n == 0 {
        Seq::empty()
    } else {
        let a = people[n - 1].address;
        people_list(people, (n - 1) as nat) + a.name + seq!['@'] + dec_int(a.device_id as int) + ",\n"@
    }
}

/// A secure text reaches the one it is meant for: when `a` has trusted `b` under `b`'s public
/// key and `b` has trusted `a` under `a`'s, a secure text `c` that `a` made of `text` (what
/// `a.encrypt(text)` returns) reads at `b`, as sent by `a`, as `text`.
pub proof fn lemma_web_secure_text_roundtrip(a: Crypto, b: Crypto, text: Seq<char>, c: Seq<char>)
    requires
        a.wf(),
        b.wf(),
        c == encrypt_spec(a.people(), text),
        sealed_for(a.people(), text),
        trusts_as(a.people(), b.name(), b.own().public_key),
        first_named(b.people(), a.name()) matches Some(j) && b.people()[j].shared is Some
            && b.people()[j].public == a.own().public_key,
    ensures
        decrypt_spec(b.people(), b.name(), a.name(), c) == Some(text),
{
    lemma_pieces_plain(a.people(), text);
    lemma_split_and_clean_terminated(pieces_for(a.people(), text), ';');
    lemma_read_parts(a.people(), a.own_secret(), b.people(), b.own_secret(), a.name(), b.name(), text);
}

} // verus!
