//! The ratchet: a chain of links, each derived with HKDF-SHA256 from the shared secret, the
//! salt and the secret of the link before it. Link `n` encrypts, or decrypts, message `n`
//! under a key and a nonce of its own, and its result stays in the chain.
use vstd::prelude::*;
use crate::client::serverhandlers::{MsgIdView, SecureMsgIdentifier};
use crate::client::utils::Address;
use crate::crypto::{
    aes256gcm_decrypt, aes256gcm_encrypt, aes256gcm_open, aes256gcm_seal, aes_plaintext_ok,
    hkdf_sha256, hkdf_sha256_76,
};

verus! {

/// The secret that stands before the first link: 32 zero bytes.
pub open spec fn zero_secret() -> Seq<u8> {
    Seq::new(32, |i: int| 0u8)
}

/// The 76 bytes of key material that HKDF-SHA256 gives after the secret `prev`.
pub open spec fn okm_from(shared: Seq<u8>, salt: Seq<u8>, prev: Seq<u8>) -> Seq<u8> {
    hkdf_sha256(salt, shared, prev, 76)
}

/// The secret of link `n` of the chain of `shared` and `salt`.
pub open spec fn link_secret(shared: Seq<u8>, salt: Seq<u8>, n: nat) -> Seq<u8>
    decreases n,
{
    if n == 0 {
        okm_from(shared, salt, zero_secret()).subrange(0, 32)
    } else {
        okm_from(shared, salt, link_secret(shared, salt, (n - 1) as nat)).subrange(0, 32)
    }
}

/// The secret that link `n` is derived after.
pub open spec fn link_prev(shared: Seq<u8>, salt: Seq<u8>, n: nat) -> Seq<u8> {
    if n == 0 {
        zero_secret()
    } else {
        link_secret(shared, salt, (n - 1) as nat)
    }
}

/// The AES-256-GCM key of link `n`.
pub open spec fn link_key(shared: Seq<u8>, salt: Seq<u8>, n: nat) -> Seq<u8> {
    okm_from(shared, salt, link_prev(shared, salt, n)).subrange(32, 64)
}

/// The nonce of link `n`.
pub open spec fn link_iv(shared: Seq<u8>, salt: Seq<u8>, n: nat) -> Seq<u8> {
    okm_from(shared, salt, link_prev(shared, salt, n)).subrange(64, 76)
}

/// Whether processing `payload` under `key` and `iv` does not fail: a plaintext that
/// AES-GCM accepts, or a ciphertext that authenticates.
pub open spec fn payload_ok(key: Seq<u8>, iv: Seq<u8>, is_encrypting: bool, payload: Seq<u8>) -> bool {
    if is_encrypting {
        aes_plaintext_ok(payload.len())
    } else {
        aes256gcm_open(key, iv, payload) is Some
    }
}

/// The result of processing `payload`: its encryption, or its decryption.
pub open spec fn payload_result(
    key: Seq<u8>,
    iv: Seq<u8>,
    is_encrypting: bool,
    payload: Seq<u8>,
) -> Seq<u8> {
    if is_encrypting {
        aes256gcm_seal(key, iv, payload)
    } else {
        aes256gcm_open(key, iv, payload).unwrap()
    }
}

/// Encrypts or decrypts `payload` with AES-256-GCM under `aes_key` and `unique_iv`.
pub fn proccess_payload(aes_key: &[u8; 32], unique_iv: &[u8; 12], is_encrypting: bool, payload: &[u8]) -> (res: Vec<u8>)
    requires
        payload_ok(aes_key@, unique_iv@, is_encrypting, payload@),
    ensures
        res@ == payload_result(aes_key@, unique_iv@, is_encrypting, payload@),
        is_encrypting ==> aes256gcm_open(aes_key@, unique_iv@, res@) == Some(payload@),
        is_encrypting ==> res@.len() == payload@.len() + 16,
{
    if is_encrypting {
        match aes256gcm_encrypt(aes_key, unique_iv, payload) {
            Some(c) => c,
            None => {
                assert(false);
                Vec::new()
            },
        }
    } else {
        match aes256gcm_decrypt(aes_key, unique_iv, payload) {
            Some(p) => p,
            None => {
                assert(false);
                Vec::new()
            },
        }
    }
}

/// Whether processing `payload` under `aes_key` and `unique_iv` would succeed.
fn payload_check(aes_key: &[u8; 32], unique_iv: &[u8; 12], is_encrypting: bool, payload: &[u8]) -> (r: bool)
    ensures
        r == payload_ok(aes_key@, unique_iv@, is_encrypting, payload@),
{
    if is_encrypting {
        let n = payload.len() as u64;
        n <= crate::crypto::AES_GCM_P_MAX && n <= (isize::MAX as u64) - 16
    } else {
        aes256gcm_decrypt(aes_key, unique_iv, payload).is_some()
    }
}

/// A link's keys, nonce, secret and origin.
pub struct LinkView {
    pub aes_key: Seq<u8>,
    pub unique_iv: Seq<u8>,
    pub secret: Seq<u8>,
    pub salt: Seq<u8>,
    pub shared_secret: Seq<u8>,
}

/// The link that HKDF-SHA256 derives from `shared` and `salt` after the secret `prev`.
pub open spec fn link_from(shared: Seq<u8>, salt: Seq<u8>, prev: Seq<u8>) -> LinkView {
    let o = okm_from(shared, salt, prev);
    LinkView {
        secret: o.subrange(0, 32),
        aes_key: o.subrange(32, 64),
        unique_iv: o.subrange(64, 76),
        salt,
        shared_secret: shared,
    }
}

/// Link `n` of the chain of `shared` and `salt`.
pub open spec fn chain_link(shared: Seq<u8>, salt: Seq<u8>, n: nat) -> LinkView {
    link_from(shared, salt, link_prev(shared, salt, n))
}

/// A link that has processed nothing yet.
pub struct UnusedLink {
    aes_key: [u8; 32],
    unique_iv: [u8; 12],
    secret: [u8; 32],
    salt: Vec<u8>,
    shared_secret: [u8; 32],
}

impl View for UnusedLink {
    type V = LinkView;

    closed spec fn view(&self) -> LinkView {
        LinkView {
            aes_key: self.aes_key@,
            unique_iv: self.unique_iv@,
            secret: self.secret@,
            salt: self.salt@,
            shared_secret: self.shared_secret@,
        }
    }
}

impl Clone for UnusedLink {
    fn clone(&self) -> (res: Self)
        ensures
            res@ == self@,
    {
        UnusedLink {
            aes_key: self.aes_key,
            unique_iv: self.unique_iv,
            secret: self.secret,
            salt: self.salt.clone(),
            shared_secret: self.shared_secret,
        }
    }
}

/// What a link that has derived its successor keeps: its key and nonce.
pub struct KeyView {
    pub aes_key: Seq<u8>,
    pub unique_iv: Seq<u8>,
}

/// A link whose successor exists and that has processed nothing yet.
pub struct MadeNextLink {
    aes_key: [u8; 32],
    unique_iv: [u8; 12],
}

impl View for MadeNextLink {
    type V = KeyView;

    closed spec fn view(&self) -> KeyView {
        KeyView { aes_key: self.aes_key@, unique_iv: self.unique_iv@ }
    }
}

/// What a link that has processed a payload keeps: the result, and what derives its successor.
pub struct DoneView {
    pub result: Seq<u8>,
    pub secret: Seq<u8>,
    pub salt: Seq<u8>,
    pub shared_secret: Seq<u8>,
}

/// The last link of a chain, once it has processed a payload.
pub struct HasProccessedLink {
    pub result: Vec<u8>,
    salt: Vec<u8>,
    shared_secret: [u8; 32],
    secret: [u8; 32],
}

impl View for HasProccessedLink {
    type V = DoneView;

    closed spec fn view(&self) -> DoneView {
        DoneView {
            result: self.result@,
            secret: self.secret@,
            salt: self.salt@,
            shared_secret: self.shared_secret@,
        }
    }
}

fn copy_bytes_32(src: &[u8; 76], from: usize) -> (res: [u8; 32])
    requires
        from + 32 <= 76,
    ensures
        res@ == src@.subrange(from as int, from + 32),
{
    let mut out = [0u8; 32];
    let mut i: usize = 0;
    while i < 32
        invariant
            from + 32 <= 76,
            i <= 32,
            forall|j: int| 0 <= j < i ==> out@[j] == src@[from + j],
        decreases 32 - i,
    {
        out[i] = src[from + i];
        i = i + 1;
    }
    assert(out@ =~= src@.subrange(from as int, from + 32));
    out
}

fn copy_bytes_12(src: &[u8; 76], from: usize) -> (res: [u8; 12])
    requires
        from + 12 <= 76,
    ensures
        res@ == src@.subrange(from as int, from + 12),
{
    let mut out = [0u8; 12];
    let mut i: usize = 0;
    while i < 12
        invariant
            from + 12 <= 76,
            i <= 12,
            forall|j: int| 0 <= j < i ==> out@[j] == src@[from + j],
        decreases 12 - i,
    {
        out[i] = src[from + i];
        i = i + 1;
    }
    assert(out@ =~= src@.subrange(from as int, from + 12));
    out
}

impl UnusedLink {
    /// Derives a link from the shared secret, the salt and the secret of the link before it
    /// (32 zero bytes for the first link): the 76 bytes of HKDF-SHA256 are its secret, its
    /// key and its nonce, in that order.
    pub fn new(shared_secret: [u8; 32], salt: Vec<u8>, last_secret_: Option<&[u8; 32]>) -> (res: UnusedLink)
        ensures
            res@ == link_from(
                shared_secret@,
                salt@,
                match last_secret_ {
                    Some(s) => s@,
                    None => zero_secret(),
                },
            ),
    {
        let zeros = [0u8; 32];
        assert(zeros@ =~= zero_secret());
        let last_secret = match last_secret_ {
            Some(secret) => secret,
            None => &zeros,
        };
        let key_data = hkdf_sha256_76(salt.as_slice(), &shared_secret, last_secret);
        let secret = copy_bytes_32(&key_data, 0);
        let aes_key = copy_bytes_32(&key_data, 32);
        let unique_iv = copy_bytes_12(&key_data, 64);
        UnusedLink { secret, aes_key, unique_iv, salt, shared_secret }
    }

    /// Processes `payload` with this link's key and nonce; the link keeps the result.
    pub fn proccess_payload(&self, is_encrypting: bool, payload: &[u8]) -> (res: HasProccessedLink)
        requires
            payload_ok(self@.aes_key, self@.unique_iv, is_encrypting, payload@),
        ensures
            res@ == (DoneView {
                result: payload_result(self@.aes_key, self@.unique_iv, is_encrypting, payload@),
                secret: self@.secret,
                salt: self@.salt,
                shared_secret: self@.shared_secret,
            }),
            is_encrypting ==> aes256gcm_open(self@.aes_key, self@.unique_iv, res@.result) == Some(
                payload@,
            ),
            is_encrypting ==> res@.result.len() == payload@.len() + 16,
    {
        let res = proccess_payload(&self.aes_key, &self.unique_iv, is_encrypting, payload);
        HasProccessedLink {
            result: res,
            salt: self.salt.clone(),
            shared_secret: self.shared_secret,
            secret: self.secret,
        }
    }

    /// This link, keeping its key, and its successor, derived after its secret from the new
    /// shared secret, or the same one.
    pub fn next(&self, new_shared_secret: Option<[u8; 32]>) -> (res: (MadeNextLink, UnusedLink))
        ensures
            res.0@ == (KeyView { aes_key: self@.aes_key, unique_iv: self@.unique_iv }),
            res.1@ == link_from(
                match new_shared_secret {
                    Some(s) => s@,
                    None => self@.shared_secret,
                },
                self@.salt,
                self@.secret,
            ),
    {
        let shared_secret = match new_shared_secret {
            Some(shared_secret) => shared_secret,
            None => self.shared_secret,
        };
        (
            MadeNextLink { aes_key: self.aes_key, unique_iv: self.unique_iv },
            UnusedLink::new(shared_secret, self.salt.clone(), Some(&self.secret)),
        )
    }
}

impl MadeNextLink {
    /// Processes `payload` with this link's key and nonce.
    pub fn proccess_payload(&self, is_encrypting: bool, payload: &[u8]) -> (res: Vec<u8>)
        requires
            payload_ok(self@.aes_key, self@.unique_iv, is_encrypting, payload@),
        ensures
            res@ == payload_result(self@.aes_key, self@.unique_iv, is_encrypting, payload@),
            is_encrypting ==> aes256gcm_open(self@.aes_key, self@.unique_iv, res@) == Some(payload@),
            is_encrypting ==> res@.len() == payload@.len() + 16,
    {
        proccess_payload(&self.aes_key, &self.unique_iv, is_encrypting, payload)
    }
}

impl HasProccessedLink {
    /// The successor of this link, derived after its secret from the new shared secret, or
    /// the same one.
    pub fn next(&self, new_shared_secret: Option<[u8; 32]>) -> (res: UnusedLink)
        ensures
            res@ == link_from(
                match new_shared_secret {
                    Some(s) => s@,
                    None => self@.shared_secret,
                },
                self@.salt,
                self@.secret,
            ),
    {
        let shared_secret = match new_shared_secret {
            Some(shared_secret) => shared_secret,
            None => self.shared_secret,
        };
        UnusedLink::new(shared_secret, self.salt.clone(), Some(&self.secret))
    }
}

/// A link of the chain in one of its four states.
pub enum PayloadHandler {
    Unused(UnusedLink),
    MadeNext(MadeNextLink),
    HasProccessed(HasProccessedLink),
    Used(Vec<u8>),
}

/// What link `n` has given, if it has processed a payload.
pub open spec fn handler_result(h: PayloadHandler) -> Option<Seq<u8>> {
    match h {
        PayloadHandler::Unused(_) => None,
        PayloadHandler::MadeNext(_) => None,
        PayloadHandler::HasProccessed(d) => Some(d@.result),
        PayloadHandler::Used(r) => Some(r@),
    }
}

/// Whether the handler holds the keys of link `n` of the chain of `shared` and `salt`.
pub open spec fn handler_keys_ok(h: PayloadHandler, shared: Seq<u8>, salt: Seq<u8>, n: nat) -> bool {
    match h {
        PayloadHandler::Unused(u) => u@ == chain_link(shared, salt, n),
        PayloadHandler::MadeNext(m) => m@ == (KeyView {
            aes_key: chain_link(shared, salt, n).aes_key,
            unique_iv: chain_link(shared, salt, n).unique_iv,
        }),
        PayloadHandler::HasProccessed(d) => {
            &&& d@.secret == chain_link(shared, salt, n).secret
            &&& d@.salt == salt
            &&& d@.shared_secret == shared
        },
        PayloadHandler::Used(_) => true,
    }
}

/// A ratchet as a mathematical value: its direction, the shared secret and salt that its
/// chain grows from, and what each link of the chain has given so far.
pub struct RatchetView {
    pub is_encrypting: bool,
    pub shared: Seq<u8>,
    pub salt: Seq<u8>,
    pub results: Seq<Option<Seq<u8>>>,
}

/// The results with fresh links appended, up to and including link `id`.
pub open spec fn extended(results: Seq<Option<Seq<u8>>>, id: nat) -> Seq<Option<Seq<u8>>> {
    if id < results.len() {
        results
    } else {
        results + Seq::new((id + 1 - results.len()) as nat, |i: int| None::<Seq<u8>>)
    }
}

/// Whether processing `payload` at link `id` does not fail: the chain can grow to `id` (past
/// a link that has processed, it grows by one link at a time), and a fresh link at `id`
/// accepts the payload.
pub open spec fn process_ok(r: RatchetView, id: nat, payload: Seq<u8>) -> bool {
    &&& !(id > r.results.len() && r.results.last() is Some)
    &&& extended(r.results, id)[id as int] is None ==> payload_ok(
        link_key(r.shared, r.salt, id),
        link_iv(r.shared, r.salt, id),
        r.is_encrypting,
        payload,
    )
}

/// The ratchet after processing `payload` at link `id`: the chain grown to `id`, and a fresh
/// link `id` holding its result; a link that has already processed keeps its result.
pub open spec fn step(r: RatchetView, id: nat, payload: Seq<u8>) -> RatchetView {
    let ext = extended(r.results, id);
    RatchetView {
        results: if ext[id as int] is None {
            ext.update(
                id as int,
                Some(
                    payload_result(
                        link_key(r.shared, r.salt, id),
                        link_iv(r.shared, r.salt, id),
                        r.is_encrypting,
                        payload,
                    ),
                ),
            )
        } else {
            ext
        },
        ..r
    }
}

/// A chain of links that encrypts, or decrypts, one message per link.
pub struct Ratchet {
    is_encrypting: bool,
    secret_chain: Vec<PayloadHandler>,
}

/// The shared secret and salt that the last handler of a chain was derived from.
pub open spec fn origin(h: PayloadHandler) -> (Seq<u8>, Seq<u8>) {
    match h {
        PayloadHandler::Unused(u) => (u@.shared_secret, u@.salt),
        PayloadHandler::HasProccessed(d) => (d@.shared_secret, d@.salt),
        _ => (Seq::empty(), Seq::empty()),
    }
}

impl View for Ratchet {
    type V = RatchetView;

    closed spec fn view(&self) -> RatchetView {
        let ghost chain = self.secret_chain@;
        let o = origin(chain.last());
        RatchetView {
            is_encrypting: self.is_encrypting,
            shared: o.0,
            salt: o.1,
            results: Seq::new(chain.len(), |i: int| handler_result(chain[i])),
        }
    }
}

impl Ratchet {
    /// The chain is not empty; every link but the last has derived its successor, the last
    /// has not; and each link holds the keys of its place in the chain.
    pub closed spec fn wf(&self) -> bool {
        let ghost chain = self.secret_chain@;
        let o = origin(chain.last());
        &&& chain.len() > 0
        &&& forall|i: int|
            0 <= i < chain.len() - 1 ==> (#[trigger] chain[i] is MadeNext) || chain[i] is Used
        &&& (chain.last() is Unused || chain.last() is HasProccessed)
        &&& forall|i: int|
            0 <= i < chain.len() ==> handler_keys_ok(#[trigger] chain[i], o.0, o.1, i as nat)
    }

    /// A ratchet whose chain is the first link of `shared_secret` and `salt`.
    pub fn new(shared_secret: &[u8; 32], is_encrypting: bool, salt: Vec<u8>) -> (res: Ratchet)
        ensures
            res.wf(),
            res@ == (RatchetView {
                is_encrypting,
                shared: shared_secret@,
                salt: salt@,
                results: seq![None],
            }),
    {
        let handler = UnusedLink::new(*shared_secret, salt, None);
        let mut chain: Vec<PayloadHandler> = Vec::new();
        chain.push(PayloadHandler::Unused(handler));
        let ratchet = Ratchet { is_encrypting, secret_chain: chain };
        assert(ratchet@.results =~= seq![None]);
        ratchet
    }

    /// Grows the chain, one link at a time, until it holds link `id`.
    fn gen_handlers_to(&mut self, id: usize)
        requires
            old(self).wf(),
            !(id > old(self)@.results.len() && old(self)@.results.last() is Some),
        ensures
            final(self).wf(),
            final(self)@ == (RatchetView { results: extended(old(self)@.results, id as nat), ..old(self)@ }),
    {
        let ghost start = self@;
        while self.secret_chain.len() <= id
            invariant
                self.wf(),
                self@.is_encrypting == start.is_encrypting,
                self@.shared == start.shared,
                self@.salt == start.salt,
                start.results.len() <= self@.results.len(),
                self@.results == start.results + Seq::new(
                    (self@.results.len() - start.results.len()) as nat,
                    |i: int| None::<Seq<u8>>,
                ),
                self@.results.len() > start.results.len() ==> self@.results.len() <= id + 1,
                !(id > self@.results.len() && self@.results.last() is Some),
            decreases id + 1 - self.secret_chain@.len(),
        {
            let len = self.secret_chain.len();
            let ghost view_before = self@;
            let ghost before = self.secret_chain@;
            let ghost o = origin(before.last());
            assert(before.last() == before[len - 1]);
            assert(handler_keys_ok(before[len - 1], o.0, o.1, (len - 1) as nat));
            if let PayloadHandler::Unused(handler) = &self.secret_chain[len - 1] {
                let (last_handler, next_handler) = handler.next(None);
                self.secret_chain.set(len - 1, PayloadHandler::MadeNext(last_handler));
                self.secret_chain.push(PayloadHandler::Unused(next_handler));
            } else if let PayloadHandler::HasProccessed(handler) = &self.secret_chain[id - 1] {
                let next_handler = handler.next(None);
                let result = handler.result.clone();
                self.secret_chain.set(len - 1, PayloadHandler::Used(result));
                self.secret_chain.push(PayloadHandler::Unused(next_handler));
            } else {
                assert(false);
            }
            let ghost chain = self.secret_chain@;
            assert(chain.last() == chain[len as int]);
            assert(chain[len as int] is Unused);
            assert(origin(chain.last()) == o);
            assert(link_prev(o.0, o.1, len as nat) == link_secret(o.0, o.1, (len - 1) as nat));
            assert forall|i: int| 0 <= i < chain.len() implies handler_keys_ok(
                #[trigger] chain[i],
                o.0,
                o.1,
                i as nat,
            ) by {
                if i < len - 1 {
                    assert(chain[i] == before[i]);
                }
            }
            assert forall|i: int| 0 <= i < chain.len() - 1 implies (#[trigger] chain[i] is MadeNext)
                || chain[i] is Used by {
                if i < len - 1 {
                    assert(chain[i] == before[i]);
                }
            }
            let ghost fresh = Seq::new(
                (self@.results.len() - start.results.len()) as nat,
                |k: int| None::<Seq<u8>>,
            );
            let ghost fresh_before = Seq::new(
                (len - start.results.len()) as nat,
                |k: int| None::<Seq<u8>>,
            );
            assert(self@.results =~= start.results + fresh) by {
                assert forall|i: int| 0 <= i < self@.results.len() implies self@.results[i] == (
                start.results + fresh)[i] by {
                    assert(self@.results[i] == handler_result(chain[i]));
                    if i < len {
                        assert(view_before.results[i] == handler_result(before[i]));
                        assert(view_before.results[i] == (start.results + fresh_before)[i]);
                        if i < len - 1 {
                            assert(chain[i] == before[i]);
                        }
                    }
                }
            }
        }
        assert(self@.results =~= extended(start.results, id as nat));
    }

    /// Processes `payload` at link `id`, growing the chain to it first: a fresh link encrypts
    /// or decrypts it and keeps the result; a link that has already processed is left as it
    /// is. Returns the identifier of the message: its sender's address, its link, and
    /// whether this ratchet sent it.
    pub fn process_payload(&mut self, addr: &Address, id: usize, payload: &[u8]) -> (res: SecureMsgIdentifier)
        requires
            old(self).wf(),
            process_ok(old(self)@, id as nat, payload@),
        ensures
            final(self).wf(),
            final(self)@ == step(old(self)@, id as nat, payload@),
            res@ == (MsgIdView { ord: id, address: addr@, is_sender: old(self)@.is_encrypting }),
            old(self)@.is_encrypting && extended(old(self)@.results, id as nat)[id as int] is None
                ==> aes256gcm_open(
                link_key(old(self)@.shared, old(self)@.salt, id as nat),
                link_iv(old(self)@.shared, old(self)@.salt, id as nat),
                final(self)@.results[id as int].unwrap(),
            ) == Some(payload@),
            old(self)@.is_encrypting && extended(old(self)@.results, id as nat)[id as int] is None
                ==> final(self)@.results[id as int].unwrap().len() == payload@.len() + 16,
    {
        let ghost start = self@;
        self.gen_handlers_to(id);
        let ghost before = self.secret_chain@;
        let ghost o = origin(before.last());
        assert(self@.results.len() == before.len());
        assert(extended(start.results, id as nat).len() > id);
        assert(id < before.len());
        assert(self@.results[id as int] == handler_result(before[id as int]));
        assert(handler_keys_ok(before[id as int], o.0, o.1, id as nat));
        let is_encrypting = self.is_encrypting;
        if let PayloadHandler::Unused(handler) = &self.secret_chain[id] {
            let remaining_handler = handler.proccess_payload(is_encrypting, payload);
            self.secret_chain.set(id, PayloadHandler::HasProccessed(remaining_handler));
        } else if let PayloadHandler::MadeNext(handler) = &self.secret_chain[id] {
            let res = handler.proccess_payload(is_encrypting, payload);
            self.secret_chain.set(id, PayloadHandler::Used(res));
        }
        let ghost chain = self.secret_chain@;
        proof {
            if before[id as int] is Unused || before[id as int] is MadeNext {
                assert(id == before.len() - 1 <==> before[id as int] is Unused) by {
                    if id < before.len() - 1 {
                        assert(before[id as int] is MadeNext || before[id as int] is Used);
                    }
                }
                assert(chain.last() == chain[chain.len() - 1]);
                if id < before.len() - 1 {
                    assert(chain.last() == before.last());
                }
                assert(origin(chain.last()) == o);
                assert forall|i: int| 0 <= i < chain.len() implies handler_keys_ok(
                    #[trigger] chain[i],
                    o.0,
                    o.1,
                    i as nat,
                ) by {
                    if i != id {
                        assert(chain[i] == before[i]);
                    }
                }
                assert forall|i: int| 0 <= i < chain.len() - 1 implies (#[trigger] chain[i] is MadeNext)
                    || chain[i] is Used by {
                    if i != id {
                        assert(chain[i] == before[i]);
                    }
                }
                assert(self@.results =~= step(start, id as nat, payload@).results) by {
                    assert forall|i: int| 0 <= i < chain.len() implies self@.results[i] == step(
                        start,
                        id as nat,
                        payload@,
                    ).results[i] by {
                        if i != id {
                            assert(chain[i] == before[i]);
                        }
                    }
                }
            } else {
                assert(chain =~= before);
            }
        }
        SecureMsgIdentifier { is_sender: is_encrypting, address: addr.clone(), ord: id }
    }

    /// Whether `process_payload` accepts `payload` at link `id`.
    pub fn can_process(&self, id: usize, payload: &[u8]) -> (r: bool)
        requires
            self.wf(),
        ensures
            r == process_ok(self@, id as nat, payload@),
    {
        let len = self.secret_chain.len();
        let ghost chain = self.secret_chain@;
        let ghost o = origin(chain.last());
        assert(chain.last() == chain[len - 1]);
        assert(self@.results.last() == handler_result(chain[len - 1]));
        let last_done = match &self.secret_chain[len - 1] {
            PayloadHandler::HasProccessed(_) => true,
            _ => false,
        };
        if id > len && last_done {
            return false;
        }
        if id < len {
            assert(self@.results[id as int] == handler_result(chain[id as int]));
            assert(handler_keys_ok(chain[id as int], o.0, o.1, id as nat));
            match &self.secret_chain[id] {
                PayloadHandler::Unused(u) => payload_check(&u.aes_key, &u.unique_iv, self.is_encrypting, payload),
                PayloadHandler::MadeNext(m) => payload_check(&m.aes_key, &m.unique_iv, self.is_encrypting, payload),
                _ => true,
            }
        } else {
            assert(handler_keys_ok(chain[len - 1], o.0, o.1, (len - 1) as nat));
            let (mut link, mut k) = match &self.secret_chain[len - 1] {
                PayloadHandler::Unused(u) => (u.clone(), len - 1),
                PayloadHandler::HasProccessed(h) => (h.next(None), len),
                _ => {
                    assert(false);
                    (UnusedLink::new([0u8; 32], Vec::new(), None), 0)
                },
            };
            assert(link_prev(o.0, o.1, len as nat) == link_secret(o.0, o.1, (len - 1) as nat));
            while k < id
                invariant
                    k <= id,
                    link@ == chain_link(o.0, o.1, k as nat),
                decreases id - k,
            {
                let (_, next) = link.next(None);
                assert(link_prev(o.0, o.1, (k + 1) as nat) == link_secret(o.0, o.1, k as nat));
                link = next;
                k = k + 1;
            }
            assert(extended(self@.results, id as nat)[id as int] is None);
            payload_check(&link.aes_key, &link.unique_iv, self.is_encrypting, payload)
        }
    }

    /// `process_payload`, or `None`, changing nothing, where it would fail.
    pub fn try_process_payload(&mut self, addr: &Address, id: usize, payload: &[u8]) -> (res: Option<SecureMsgIdentifier>)
        requires
            old(self).wf(),
        ensures
            final(self).wf(),
            res is Some <==> process_ok(old(self)@, id as nat, payload@),
            res is None ==> final(self)@ == old(self)@,
            res matches Some(m) ==> final(self)@ == step(old(self)@, id as nat, payload@) && m@ == (
            MsgIdView { ord: id, address: addr@, is_sender: old(self)@.is_encrypting }),
    {
        if self.can_process(id, payload) {
            Some(self.process_payload(addr, id, payload))
        } else {
            None
        }
    }

    /// The result of link `id`, if the chain holds it and it has processed a payload.
    pub fn get_msg(&self, id: usize) -> (res: Option<Vec<u8>>)
        ensures
            match res {
                Some(v) => id < self@.results.len() && self@.results[id as int] == Some(v@),
                None => id >= self@.results.len() || self@.results[id as int] is None,
            },
    {
        if id >= self.secret_chain.len() {
            return None;
        }
        assert(self@.results[id as int] == handler_result(self.secret_chain@[id as int]));
        match &self.secret_chain[id] {
            PayloadHandler::HasProccessed(handler) => Some(handler.result.clone()),
            PayloadHandler::Used(res) => Some(res.clone()),
            _ => None,
        }
    }

    /// The number of links in the chain.
    pub fn len(&self) -> (res: usize)
        ensures
            res == self@.results.len(),
    {
        self.secret_chain.len()
    }
}

/// The two sides of a ratchet pair agree: when both grow from the same shared secret and
/// salt, what the sending side gave at link `id` for `payload` (a ciphertext that opens under
/// that link's key, as `process_payload` promises) the receiving side, fresh at link `id`,
/// opens there to `payload`.
pub proof fn lemma_ratchet_roundtrip(
    sender: RatchetView,
    receiver: RatchetView,
    id: nat,
    payload: Seq<u8>,
    sealed: Seq<u8>,
)
    requires
        sender.is_encrypting,
        !receiver.is_encrypting,
        sender.shared == receiver.shared,
        sender.salt == receiver.salt,
        aes256gcm_open(link_key(sender.shared, sender.salt, id), link_iv(sender.shared, sender.salt, id), sealed)
            == Some(payload),
        !(id > receiver.results.len() && receiver.results.last() is Some),
        extended(receiver.results, id)[id as int] is None,
    ensures
        process_ok(receiver, id, sealed),
        step(receiver, id, sealed).results[id as int] == Some(payload),
{
}

/// Processing a link that has already processed changes nothing.
pub proof fn lemma_step_idempotent(r: RatchetView, id: nat, p: Seq<u8>, q: Seq<u8>)
    ensures
        step(step(r, id, p), id, q) == step(r, id, p),
{
    let s = step(r, id, p);
    assert(extended(r.results, id).len() > id);
    assert(extended(s.results, id) == s.results);
    assert(s.results[id as int] is Some);
}

/// A link's result, once given, stays; processing grows the chain to link `id` and changes
/// no other link.
pub proof fn lemma_step_keeps_results(r: RatchetView, id: nat, p: Seq<u8>)
    ensures
        step(r, id, p).results.len() == if id < r.results.len() {
            r.results.len()
        } else {
            id + 1
        },
        forall|j: int|
            0 <= j < r.results.len() && (j != id || r.results[j] is Some) ==> #[trigger] step(
                r,
                id,
                p,
            ).results[j] == r.results[j],
        forall|j: int|
            r.results.len() <= j < step(r, id, p).results.len() && j != id ==> #[trigger] step(
                r,
                id,
                p,
            ).results[j] is None,
        step(r, id, p).results[id as int] is Some,
{
}

/// The ratchet once it has processed `payloads[k]` at link `ids[k]`, one after the other.
pub open spec fn processed(r: RatchetView, ids: Seq<nat>, payloads: Seq<Seq<u8>>) -> RatchetView
    decreases ids.len(),
{
    if ids.len() == 0 || payloads.len() == 0 {
        r
    } else {
        step(processed(r, ids.drop_last(), payloads.drop_last()), ids.last(), payloads.last())
    }
}

/// The length of a chain of `n` links once it has grown to each of the links `ids`: the
/// largest of `n` and one more than each link.
pub open spec fn grown_len(n: nat, ids: Seq<nat>) -> nat
    decreases ids.len(),
{
    if ids.len() == 0 {
        n
    } else {
        let m = grown_len(n, ids.drop_last());
        if ids.last() < m {
            m
        } else {
            ids.last() + 1
        }
    }
}

/// A ratchet's length after a run of processing is the largest of its length before and one
/// more than the largest link processed, and never shrinks; a fresh ratchet (one link) that
/// processes links `ids` is `max(1, 1 + max(ids))` long.
pub proof fn lemma_len_after_run(r: RatchetView, ids: Seq<nat>, payloads: Seq<Seq<u8>>)
    requires
        ids.len() == payloads.len(),
    ensures
        processed(r, ids, payloads).results.len() == grown_len(r.results.len(), ids),
        processed(r, ids, payloads).results.len() >= r.results.len(),
        forall|k: int| 0 <= k < ids.len() ==> processed(r, ids, payloads).results.len() > #[trigger] ids[k],
    decreases ids.len(),
{
    if ids.len() > 0 {
        let q = processed(r, ids.drop_last(), payloads.drop_last());
        lemma_len_after_run(r, ids.drop_last(), payloads.drop_last());
        lemma_step_keeps_results(q, ids.last(), payloads.last());
        assert forall|k: int| 0 <= k < ids.len() implies processed(r, ids, payloads).results.len() > #[trigger] ids[k] by {
            if k < ids.len() - 1 {
                assert(ids[k] == ids.drop_last()[k]);
            }
        }
    }
}

/// One more than the largest of the links `ids`; 0 for none.
pub open spec fn max_link_plus_one(ids: Seq<nat>) -> nat
    decreases ids.len(),
{
    if ids.len() == 0 {
        0
    } else {
        let m = max_link_plus_one(ids.drop_last());
        if ids.last() + 1 > m {
            ids.last() + 1
        } else {
            m
        }
    }
}

proof fn lemma_grown_len(n: nat, ids: Seq<nat>)
    ensures
        grown_len(n, ids) == if n > max_link_plus_one(ids) {
            n
        } else {
            max_link_plus_one(ids)
        },
    decreases ids.len(),
{
    if ids.len() > 0 {
        lemma_grown_len(n, ids.drop_last());
    }
}

/// The length of a fresh ratchet after a run: a ratchet as `Ratchet::new` makes it (one link)
/// that then processes `payloads[k]` at link `ids[k]`, one call of `process_payload` after
/// the other, is `max(1, 1 + the largest of ids)` links long, and no call shortens it.
pub proof fn lemma_fresh_len_after_run(r: RatchetView, ids: Seq<nat>, payloads: Seq<Seq<u8>>)
    requires
        r.results.len() == 1,
        ids.len() == payloads.len(),
    ensures
        processed(r, ids, payloads).results.len() == if max_link_plus_one(ids) > 1 {
            max_link_plus_one(ids)
        } else {
            1
        },
        forall|k: nat|
            k <= ids.len() ==> processed(r, ids.take(k as int), payloads.take(k as int)).results.len()
                <= #[trigger] processed(r, ids, payloads).results.len(),
    decreases ids.len(),
{
    lemma_len_after_run(r, ids, payloads);
    lemma_grown_len(1, ids);
    assert forall|k: nat| k <= ids.len() implies processed(r, ids.take(k as int), payloads.take(k as int)).results.len()
        <= #[trigger] processed(r, ids, payloads).results.len() by {
        lemma_run_prefix_len(r, ids, payloads, k);
    }
}

proof fn lemma_run_prefix_len(r: RatchetView, ids: Seq<nat>, payloads: Seq<Seq<u8>>, k: nat)
    requires
        ids.len() == payloads.len(),
        k <= ids.len(),
    ensures
        processed(r, ids.take(k as int), payloads.take(k as int)).results.len() <= processed(
            r,
            ids,
            payloads,
        ).results.len(),
    decreases ids.len() - k,
{
    if k < ids.len() {
        lemma_run_prefix_len(r, ids, payloads, (k + 1) as nat);
        let i2 = ids.take((k + 1) as int);
        let p2 = payloads.take((k + 1) as int);
        assert(i2.drop_last() =~= ids.take(k as int));
        assert(p2.drop_last() =~= payloads.take(k as int));
        lemma_step_keeps_results(processed(r, ids.take(k as int), payloads.take(k as int)), i2.last(), p2.last());
    } else {
        assert(ids.take(k as int) =~= ids);
        assert(payloads.take(k as int) =~= payloads);
    }
}

/// Growing a chain to link `id`: it becomes `max(len, id + 1)` links long, keeps every link
/// it had, and the links added have processed nothing (what `gen_handlers_to` does to the
/// results).
pub proof fn lemma_extended(results: Seq<Option<Seq<u8>>>, id: nat)
    ensures
        extended(results, id).len() == if id < results.len() {
            results.len()
        } else {
            id + 1
        },
        forall|j: int| 0 <= j < results.len() ==> #[trigger] extended(results, id)[j] == results[j],
        forall|j: int| results.len() <= j < extended(results, id).len() ==> #[trigger] extended(results, id)[j] is None,
{
}

} // verus!
