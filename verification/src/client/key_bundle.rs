//! A key bundle: someone's X25519 public key, the secret held for them, and their address;
//! and the rules by which a stored bundle is read back, field by field.
use vstd::prelude::*;
use crate::client::utils::{Address, KeyAddrView};
use crate::crypto::{chacha20_seeded_bytes, seeded_secret, x25519_public, x25519_public_key};
use crate::codec::to_owned_string;
use crate::text::str_equal;

verus! {

/// The secret that a bundle holds: none, the secret shared with its owner, or the owner's
/// own secret.
pub enum SecretKey {
    Empty(),
    Shared([u8; 32]),
    Ephemeral([u8; 32]),
}

/// A secret as a mathematical value.
pub enum SecretView {
    Empty,
    Shared(Seq<u8>),
    Ephemeral(Seq<u8>),
}

impl View for SecretKey {
    type V = SecretView;

    open spec fn view(&self) -> SecretView {
        match self {
            SecretKey::Empty() => SecretView::Empty,
            SecretKey::Shared(k) => SecretView::Shared(k@),
            SecretKey::Ephemeral(k) => SecretView::Ephemeral(k@),
        }
    }
}

impl Clone for SecretKey {
    fn clone(&self) -> (res: Self)
        ensures
            res@ == self@,
    {
        match self {
            SecretKey::Empty() => SecretKey::Empty(),
            SecretKey::Shared(k) => SecretKey::Shared(*k),
            SecretKey::Ephemeral(k) => SecretKey::Ephemeral(*k),
        }
    }
}

/// A key bundle as a mathematical value.
pub struct BundleView {
    pub public_key: Seq<u8>,
    pub secret: SecretView,
    pub address: KeyAddrView,
}

/// Someone's public key, the secret held for them, and their address.
pub struct KeyBundle {
    pub public_key: [u8; 32],
    pub secret: SecretKey,
    pub address: Address,
}

impl View for KeyBundle {
    type V = BundleView;

    open spec fn view(&self) -> BundleView {
        BundleView { public_key: self.public_key@, secret: self.secret@, address: self.address@ }
    }
}

impl Clone for KeyBundle {
    fn clone(&self) -> (res: Self)
        ensures
            res@ == self@,
    {
        KeyBundle {
            public_key: self.public_key,
            address: self.address.clone(),
            secret: self.secret.clone(),
        }
    }
}

impl KeyBundle {
    /// The bundle of a new key pair for `addr`, its secret drawn from the ChaCha20 generator
    /// seeded with `seed`.
    pub fn new_self_key_set(addr: Address, seed: u64) -> (res: KeyBundle)
        ensures
            res@ == (BundleView {
                public_key: x25519_public(chacha20_seeded_bytes(seed)),
                secret: SecretView::Ephemeral(chacha20_seeded_bytes(seed)),
                address: addr@,
            }),
    {
        let secret = seeded_secret(seed);
        KeyBundle {
            public_key: x25519_public_key(&secret),
            secret: SecretKey::Ephemeral(secret),
            address: addr,
        }
    }
}

/// A field of a stored key bundle.
pub enum Field {
    Public,
    Shared,
    Ephemeral,
    Addr,
}

/// The field that a stored name stands for: `public`, `shared`, `ephemeral` or `address`.
pub open spec fn field_named(name: Seq<char>) -> Option<Field> {
    if name == "public"@ {
        Some(Field::Public)
    } else if name == "shared"@ {
        Some(Field::Shared)
    } else if name == "ephemeral"@ {
        Some(Field::Ephemeral)
    } else if name == "address"@ {
        Some(Field::Addr)
    } else {
        None
    }
}

/// The field that `value` names, or `None` for an unknown field.
pub fn field_from_name(value: &str) -> (res: Option<Field>)
    ensures
        res == field_named(value@),
{
    if str_equal(value, "public") {
        Some(Field::Public)
    } else if str_equal(value, "shared") {
        Some(Field::Shared)
    } else if str_equal(value, "ephemeral") {
        Some(Field::Ephemeral)
    } else if str_equal(value, "address") {
        Some(Field::Addr)
    } else {
        None
    }
}

/// The fields of a stored key bundle read so far; `A` is the kind of address.
pub struct KeyBundleFields<A> {
    pub public: Option<[u8; 32]>,
    pub secret: Option<SecretKey>,
    pub address: Option<A>,
}

/// The name under which a field read twice is reported.
pub open spec fn duplicate_name(f: Field) -> Seq<char> {
    match f {
        Field::Public => "public"@,
        Field::Shared => "secret"@,
        Field::Ephemeral => "secret"@,
        Field::Addr => "address"@,
    }
}

impl<A> KeyBundleFields<A> {
    /// No field read yet.
    pub fn new() -> (res: KeyBundleFields<A>)
        ensures
            res.public is None && res.secret is None && res.address is None,
    {
        KeyBundleFields { public: None, secret: None, address: None }
    }

    /// Whether `f` may be read now: `None` if so, else the name of the field that was
    /// already read (both secrets count as the field `secret`).
    pub fn duplicate(&self, f: &Field) -> (res: Option<&'static str>)
        ensures
            match res {
                None => match f {
                    Field::Public => self.public is None,
                    Field::Shared | Field::Ephemeral => self.secret is None,
                    Field::Addr => self.address is None,
                },
                Some(n) => n@ == duplicate_name(*f) && match f {
                    Field::Public => self.public is Some,
                    Field::Shared | Field::Ephemeral => self.secret is Some,
                    Field::Addr => self.address is Some,
                },
            },
    {
        match f {
            Field::Public => if self.public.is_some() {
                Some("public")
            } else {
                None
            },
            Field::Shared | Field::Ephemeral => if self.secret.is_some() {
                Some("secret")
            } else {
                None
            },
            Field::Addr => if self.address.is_some() {
                Some("address")
            } else {
                None
            },
        }
    }

    /// Records the public key read.
    pub fn set_public(&mut self, data: [u8; 32])
        ensures
            final(self).public == Some(data),
            final(self).secret == old(self).secret,
            final(self).address == old(self).address,
    {
        self.public = Some(data);
    }

    /// Records a shared secret read.
    pub fn set_shared(&mut self, data: [u8; 32])
        ensures
            final(self).secret == Some(SecretKey::Shared(data)),
            final(self).public == old(self).public,
            final(self).address == old(self).address,
    {
        self.secret = Some(SecretKey::Shared(data));
    }

    /// Records an own secret read.
    pub fn set_ephemeral(&mut self, data: [u8; 32])
        ensures
            final(self).secret == Some(SecretKey::Ephemeral(data)),
            final(self).public == old(self).public,
            final(self).address == old(self).address,
    {
        self.secret = Some(SecretKey::Ephemeral(data));
    }

    /// Records the address read.
    pub fn set_address(&mut self, addr: A)
        ensures
            final(self).address == Some(addr),
            final(self).public == old(self).public,
            final(self).secret == old(self).secret,
    {
        self.address = Some(addr);
    }

    /// The bundle's public key, secret and address once every field has been read: a missing
    /// public key or address is an error that names it; a missing secret is `Empty`.
    pub fn finish(self) -> (res: Result<([u8; 32], SecretKey, A), &'static str>)
        ensures
            match self.public {
                None => res matches Err(n) && n@ == "public"@,
                Some(p) => match self.address {
                    None => res matches Err(n) && n@ == "addresss"@,
                    Some(a) => res matches Ok(t) && t.0 == p && t.2 == a && t.1 == match self.secret {
                        Some(s) => s,
                        None => SecretKey::Empty(),
                    },
                },
            },
    {
        let public = match self.public {
            Some(p) => p,
            None => {
                return Err("public");
            },
        };
        let addr = match self.address {
            Some(a) => a,
            None => {
                return Err("addresss");
            },
        };
        let secret = match self.secret {
            Some(s) => s,
            None => SecretKey::Empty(),
        };
        Ok((public, secret, addr))
    }
}

/// The value of a stored field: 32 key bytes, or an address.
pub enum FieldValue<A> {
    Key([u8; 32]),
    Address(A),
}

/// A field of a stored bundle: its name and its value.
pub struct StoredField<A> {
    pub name: String,
    pub value: FieldValue<A>,
}

/// Why a stored bundle cannot be read: a field that no bundle has, a field read twice, a field
/// whose value is of the wrong kind, or a field that is missing.
pub enum ReadError {
    UnknownField(String),
    DuplicateField(String),
    InvalidValue(String),
    MissingField(String),
}

/// A reading error as a mathematical value.
pub enum ReadErrorView {
    UnknownField(Seq<char>),
    DuplicateField(Seq<char>),
    InvalidValue(Seq<char>),
    MissingField(Seq<char>),
}

impl View for ReadError {
    type V = ReadErrorView;

    open spec fn view(&self) -> ReadErrorView {
        match self {
            ReadError::UnknownField(n) => ReadErrorView::UnknownField(n@),
            ReadError::DuplicateField(n) => ReadErrorView::DuplicateField(n@),
            ReadError::InvalidValue(n) => ReadErrorView::InvalidValue(n@),
            ReadError::MissingField(n) => ReadErrorView::MissingField(n@),
        }
    }
}

/// The names and values of stored fields.
pub open spec fn field_entries<A>(fs: Seq<StoredField<A>>) -> Seq<(Seq<char>, FieldValue<A>)> {
    Seq::new(fs.len(), |i: int| (fs[i].name@, fs[i].value))
}

/// Whether the field `f` has been read already (both secrets count as one field).
pub open spec fn already_read<A>(st: KeyBundleFields<A>, f: Field) -> bool {
    match f {
        Field::Public => st.public is Some,
        Field::Shared | Field::Ephemeral => st.secret is Some,
        Field::Addr => st.address is Some,
    }
}

/// The fields read once the stored fields `fields` are read after `st`, one after the other;
/// the first field that is unknown, read twice, or of the wrong kind of value is an error.
pub open spec fn read_fields<A>(fields: Seq<(Seq<char>, FieldValue<A>)>, st: KeyBundleFields<A>) -> Result<
    KeyBundleFields<A>,
    ReadErrorView,
>
    decreases fields.len(),
{
    if fields.len() == 0 {
        Ok(st)
    } else {
        let name = fields[0].0;
        let rest = fields.drop_first();
        match field_named(name) {
            None => Err(ReadErrorView::UnknownField(name)),
            Some(f) => if already_read(st, f) {
                Err(ReadErrorView::DuplicateField(duplicate_name(f)))
            } else {
                match fields[0].1 {
                    FieldValue::Key(k) => match f {
                        Field::Public => read_fields(rest, KeyBundleFields { public: Some(k), ..st }),
                        Field::Shared => read_fields(rest, KeyBundleFields { secret: Some(SecretKey::Shared(k)), ..st }),
                        Field::Ephemeral => read_fields(
                            rest,
                            KeyBundleFields { secret: Some(SecretKey::Ephemeral(k)), ..st },
                        ),
                        Field::Addr => Err(ReadErrorView::InvalidValue(name)),
                    },
                    FieldValue::Address(a) => match f {
                        Field::Addr => read_fields(rest, KeyBundleFields { address: Some(a), ..st }),
                        _ => Err(ReadErrorView::InvalidValue(name)),
                    },
                }
            },
        }
    }
}

/// The bundle that a stored bundle's fields give: read from no field read yet; then a missing
/// public key or address is an error that names it, and a missing secret is `Empty`.
pub open spec fn stored_bundle<A>(fields: Seq<(Seq<char>, FieldValue<A>)>) -> Result<([u8; 32], SecretKey, A), ReadErrorView> {
    match read_fields(fields, KeyBundleFields { public: None, secret: None, address: None }) {
        Err(e) => Err(e),
        Ok(st) => match st.public {
            None => Err(ReadErrorView::MissingField("public"@)),
            Some(p) => match st.address {
                None => Err(ReadErrorView::MissingField("addresss"@)),
                Some(a) => Ok(
                    (
                        p,
                        match st.secret {
                            Some(s) => s,
                            None => SecretKey::Empty(),
                        },
                        a,
                    ),
                ),
            },
        },
    }
}

/// Reads a stored key bundle from its fields, in the order they are stored.
pub fn read_stored_bundle<A>(fields: Vec<StoredField<A>>) -> (res: Result<([u8; 32], SecretKey, A), ReadError>)
    ensures
        match res {
            Ok(t) => stored_bundle(field_entries(fields@)) == Ok::<([u8; 32], SecretKey, A), ReadErrorView>(t),
            Err(e) => stored_bundle(field_entries(fields@)) == Err::<([u8; 32], SecretKey, A), ReadErrorView>(e@),
        },
{
    let ghost all = field_entries(fields@);
    let mut st: KeyBundleFields<A> = KeyBundleFields::new();
    assert(st == KeyBundleFields::<A> { public: None, secret: None, address: None });
    let mut rest = fields;
    while rest.len() > 0
        invariant
            all == field_entries(fields@),
            read_fields(all, KeyBundleFields::<A> { public: None, secret: None, address: None }) == read_fields(
                field_entries(rest@),
                st,
            ),
        decreases rest@.len(),
    {
        let ghost before = rest@;
        let f = rest.remove(0);
        assert(field_entries(before).drop_first() =~= field_entries(rest@));
        assert(field_entries(before)[0] == (f.name@, f.value));
        let StoredField { name, value } = f;
        let ghost e0 = field_entries(before);
        assert(e0[0].0 == name@ && e0[0].1 == value);
        match field_from_name(name.as_str()) {
            None => {
                return Err(ReadError::UnknownField(name));
            },
            Some(field) => {
                match st.duplicate(&field) {
                    Some(n) => {
                        return Err(ReadError::DuplicateField(to_owned_string(n)));
                    },
                    None => {},
                }
                match value {
                    FieldValue::Key(k) => match field {
                        Field::Public => st.set_public(k),
                        Field::Shared => st.set_shared(k),
                        Field::Ephemeral => st.set_ephemeral(k),
                        Field::Addr => {
                            return Err(ReadError::InvalidValue(name));
                        },
                    },
                    FieldValue::Address(a) => match field {
                        Field::Addr => st.set_address(a),
                        _ => {
                            return Err(ReadError::InvalidValue(name));
                        },
                    },
                }
            },
        }
    }
    assert(field_entries(rest@) =~= Seq::<(Seq<char>, FieldValue<A>)>::empty());
    match st.finish() {
        Ok(t) => Ok(t),
        Err(n) => Err(ReadError::MissingField(to_owned_string(n))),
    }
}

} // verus!
