//! The key store of the signed protocol: the client's own key pair and the ratchet it uses to
//! read its own messages back, the people it knows with a ratchet each way for those it
//! trusts, and the messages it has seen, in time order.
use vstd::prelude::*;
use vstd::utf8::*;
use crate::client::key_bundle::{BundleView, KeyBundle, SecretKey, SecretView};
use crate::client::ratchet::{
    extended, lemma_ratchet_roundtrip, link_iv, link_key, process_ok, step, Ratchet, RatchetView,
};
use crate::client::serverhandlers::{id_views, MsgIdView, SecureMsgIdentifier, ServerMsg, SignedMsgView};
use crate::client::utils::{key_from_sendable, key_sendable_ok, try_key_from_sendable, Address, KeyAddrView};
use crate::codec::{base64_decode, base64_decode_spec, parse_num_spec, parse_usize, vec_bytes};
use crate::crypto::{aes256gcm_open, aes_plaintext_ok, chacha20_seeded_bytes};
use crate::text::{split_and_clean, split_and_clean_spec, views};
use crate::codec::{base64_encode, base64_encode_spec, push_str, to_owned_string, utf8_bytes};
use crate::crypto::{x25519_diffie_hellman, x25519_public, x25519_shared};

verus! {

/// The salt of every ratchet of the store.
pub const SALT_STRING: &'static str = "This is a temporary salt until I figure out what to put here";

/// The bytes of the salt.
pub open spec fn salt_spec() -> Seq<u8> {
    encode_utf8(SALT_STRING@)
}

fn salt_bytes() -> (res: Vec<u8>)
    ensures
        res@ == salt_spec(),
{
    vstd::slice::slice_to_vec(utf8_bytes(SALT_STRING))
}

/// Someone the store knows: their key bundle and, once trusted, a ratchet each way.
pub struct ForeinAgent {
    pub to_ratchet: Option<Ratchet>,
    pub from_ratchet: Option<Ratchet>,
    pub keys: KeyBundle,
}

/// An agent as a mathematical value.
pub struct AgentView {
    pub to: Option<RatchetView>,
    pub from: Option<RatchetView>,
    pub keys: BundleView,
}

/// The view of a ratchet that may be absent.
pub open spec fn ratchet_view(r: Option<Ratchet>) -> Option<RatchetView> {
    match r {
        Some(x) => Some(x@),
        None => None,
    }
}

impl View for ForeinAgent {
    type V = AgentView;

    open spec fn view(&self) -> AgentView {
        AgentView {
            to: ratchet_view(self.to_ratchet),
            from: ratchet_view(self.from_ratchet),
            keys: self.keys@,
        }
    }
}

/// A ratchet that may be absent is well formed where present.
pub open spec fn ratchet_wf(r: Option<Ratchet>) -> bool {
    r matches Some(x) ==> x.wf()
}

/// The ratchets of an agent trusted with the shared secret `k`: fresh from `k` and the salt,
/// one to encrypt and one to decrypt.
pub open spec fn ratchets_of(k: Seq<u8>, to: RatchetView, from: RatchetView) -> bool {
    &&& to.shared == k && to.salt == salt_spec() && to.is_encrypting
    &&& from.shared == k && from.salt == salt_spec() && !from.is_encrypting
}

/// What holds of every agent of a store whose own secret is `own`: a trusted agent holds the
/// secret agreed with its key, which its owner computes too, and a ratchet each way grown
/// from it; an agent not trusted has no secret and no ratchet.
pub open spec fn agent_ok(a: AgentView, own: Seq<u8>) -> bool {
    match a.keys.secret {
        SecretView::Shared(k) => {
            &&& k == x25519_shared(own, a.keys.public_key)
            &&& forall|other: Seq<u8>|
                #![trigger x25519_public(other)]
                other.len() == 32 && a.keys.public_key == x25519_public(other) ==> k == x25519_shared(
                    other,
                    x25519_public(own),
                )
            &&& a.to matches Some(t) && a.from matches Some(f) && ratchets_of(k, t, f)
        },
        SecretView::Empty => a.to is None && a.from is None,
        SecretView::Ephemeral(_) => false,
    }
}


/// Whether an agent is sent secure texts: trusted, with a ratchet to encrypt them.
pub open spec fn sends_to(a: AgentView) -> bool {
    a.keys.secret is Shared && a.to is Some
}

/// The next link of the encrypting ratchet of an agent.
pub open spec fn next_link(a: AgentView) -> nat {
    a.to.unwrap().results.len()
}

/// The agent once `text` is sealed for it: its encrypting ratchet has processed `text` at
/// its next link.
pub open spec fn sealed_agent(a: AgentView, text: Seq<u8>) -> AgentView {
    if sends_to(a) {
        AgentView { to: Some(step(a.to.unwrap(), next_link(a), text)), ..a }
    } else {
        a
    }
}

/// What sealing `text` for the agent is known to give: a ciphertext that opens, under the
/// key of the link it was sealed at, to `text`.
pub open spec fn sealed_opens(before: AgentView, after: AgentView, text: Seq<u8>) -> bool {
    sends_to(before) ==> {
        let t = before.to.unwrap();
        let n = next_link(before);
        aes256gcm_open(link_key(t.shared, t.salt, n), link_iv(t.shared, t.salt, n), after.to.unwrap().results[n as int].unwrap())
            == Some(text)
    }
}

/// The identifiers of the secure texts sent to the agents, in their order.
pub open spec fn sent_ids(agents: Seq<AgentView>) -> Seq<MsgIdView>
    decreases agents.len(),
{
    if agents.len() == 0 {
        Seq::empty()
    } else if sends_to(agents.last()) {
        sent_ids(agents.drop_last()).push(
            MsgIdView {
                ord: next_link(agents.last()) as usize,
                address: agents.last().keys.address,
                is_sender: true,
            },
        )
    } else {
        sent_ids(agents.drop_last())
    }
}

impl ForeinAgent {
    /// Seals `text` for this agent, if it is trusted, at the next link of its encrypting
    /// ratchet.
    fn seal_for(&mut self, text: &[u8]) -> (res: Option<SecureMsgIdentifier>)
        requires
            ratchet_wf(old(self).to_ratchet),
            sends_to(old(self)@) ==> aes_plaintext_ok(text@.len()) && old(self)@.to.unwrap().is_encrypting,
        ensures
            ratchet_wf(final(self).to_ratchet),
            final(self).from_ratchet == old(self).from_ratchet,
            final(self)@ == sealed_agent(old(self)@, text@),
            sealed_opens(old(self)@, final(self)@, text@),
            sends_to(old(self)@) ==> (res matches Some(m) && m@ == (MsgIdView {
                ord: next_link(old(self)@) as usize,
                address: old(self)@.keys.address,
                is_sender: true,
            })),
            !sends_to(old(self)@) ==> res is None,
    {
        if let SecretKey::Shared(_) = &self.keys.secret {
            match self.to_ratchet.take() {
                Some(mut ratchet) => {
                    let id = ratchet.len();
                    assert(extended(ratchet@.results, id as nat)[id as int] is None);
                    let m = ratchet.process_payload(&self.keys.address, id, text);
                    self.to_ratchet = Some(ratchet);
                    Some(m)
                },
                None => None,
            }
        } else {
            None
        }
    }
}

/// The messages are in the order of their time stamps.
pub open spec fn time_ordered(msgs: Seq<SignedMsgView>) -> bool {
    forall|i: int, j: int| 0 <= i < j < msgs.len() ==> msgs[i].time_stamp <= msgs[j].time_stamp
}

/// `new` is `old` with `m` inserted where its time stamp puts it: after every message of
/// the same time or earlier, before every later one.
pub open spec fn time_inserted(old: Seq<SignedMsgView>, m: SignedMsgView, new: Seq<SignedMsgView>) -> bool {
    exists|k: int|
        0 <= k <= old.len() && (forall|j: int| 0 <= j < k ==> (#[trigger] old[j]).time_stamp <= m.time_stamp)
            && (forall|j: int| k <= j < old.len() ==> (#[trigger] old[j]).time_stamp > m.time_stamp)
            && new == old.insert(k, m)
}

/// The index of the first agent whose name is `name`, if any.
pub open spec fn first_agent_named(agents: Seq<AgentView>, name: Seq<char>) -> Option<int>
    decreases agents.len(),
{
    if agents.len() == 0 {
        None
    } else if agents[0].keys.address.name == name {
        Some(0)
    } else {
        match first_agent_named(agents.drop_first(), name) {
            Some(i) => Some(i + 1),
            None => None,
        }
    }
}

proof fn lemma_first_agent_named(agents: Seq<AgentView>, name: Seq<char>, i: int)
    requires
        0 <= i <= agents.len(),
        forall|j: int| 0 <= j < i ==> (#[trigger] agents[j]).keys.address.name != name,
    ensures
        i < agents.len() && agents[i].keys.address.name == name ==> first_agent_named(agents, name)
            == Some(i),
        i == agents.len() ==> first_agent_named(agents, name) is None,
    decreases i,
{
    if i > 0 {
        let rest = agents.drop_first();
        assert forall|j: int| 0 <= j < i - 1 implies (#[trigger] rest[j]).keys.address.name != name by {
            assert(rest[j] == agents[j + 1]);
        }
        lemma_first_agent_named(rest, name, i - 1);
        if i < agents.len() {
            assert(rest[i - 1] == agents[i]);
        }
    }
}

/// The index of the first agent at the address `a`, if any.
pub open spec fn first_agent_at(agents: Seq<AgentView>, a: KeyAddrView) -> Option<int>
    decreases agents.len(),
{
    if agents.len() == 0 {
        None
    } else if agents[0].keys.address == a {
        Some(0)
    } else {
        match first_agent_at(agents.drop_first(), a) {
            Some(i) => Some(i + 1),
            None => None,
        }
    }
}

proof fn lemma_first_agent_at(agents: Seq<AgentView>, a: KeyAddrView, i: int)
    requires
        0 <= i <= agents.len(),
        forall|j: int| 0 <= j < i ==> (#[trigger] agents[j]).keys.address != a,
    ensures
        i < agents.len() && agents[i].keys.address == a ==> first_agent_at(agents, a) == Some(i),
        i == agents.len() ==> first_agent_at(agents, a) is None,
    decreases i,
{
    if i > 0 {
        let rest = agents.drop_first();
        assert forall|j: int| 0 <= j < i - 1 implies (#[trigger] rest[j]).keys.address != a by {
            assert(rest[j] == agents[j + 1]);
        }
        lemma_first_agent_at(rest, a, i - 1);
        if i < agents.len() {
            assert(rest[i - 1] == agents[i]);
        }
    }
}

/// The index of the first agent whose public key is, in Base64, `key`, if any.
pub open spec fn first_agent_with_key(agents: Seq<AgentView>, key: Seq<char>) -> Option<int>
    decreases agents.len(),
{
    if agents.len() == 0 {
        None
    } else if base64_encode_spec(agents[0].keys.public_key) == key {
        Some(0)
    } else {
        match first_agent_with_key(agents.drop_first(), key) {
            Some(i) => Some(i + 1),
            None => None,
        }
    }
}

proof fn lemma_first_agent_with_key(agents: Seq<AgentView>, key: Seq<char>, i: int)
    requires
        0 <= i <= agents.len(),
        forall|j: int|
            0 <= j < i ==> base64_encode_spec((#[trigger] agents[j]).keys.public_key) != key,
    ensures
        i < agents.len() && base64_encode_spec(agents[i].keys.public_key) == key
            ==> first_agent_with_key(agents, key) == Some(i),
        i == agents.len() ==> first_agent_with_key(agents, key) is None,
    decreases i,
{
    if i > 0 {
        let rest = agents.drop_first();
        assert forall|j: int| 0 <= j < i - 1 implies base64_encode_spec(
            (#[trigger] rest[j]).keys.public_key,
        ) != key by {
            assert(rest[j] == agents[j + 1]);
        }
        lemma_first_agent_with_key(rest, key, i - 1);
        if i < agents.len() {
            assert(rest[i - 1] == agents[i]);
        }
    }
}

/// The agents once the public key `key` offered by `addr` is remembered: a new agent, not
/// trusted, unless someone at that address is known already.
pub open spec fn added_key(agents: Seq<AgentView>, addr: KeyAddrView, key: Seq<u8>) -> Seq<AgentView> {
    if first_agent_at(agents, addr) is None {
        agents.push(
            AgentView {
                to: None,
                from: None,
                keys: BundleView { public_key: key, secret: SecretView::Empty, address: addr },
            },
        )
    } else {
        agents
    }
}

/// How the store relates to someone: `self`, `trusted`, `allowedTrust` or `unknown`.
pub open spec fn relation_word(secret: Option<SecretView>) -> Seq<char> {
    match secret {
        Some(SecretView::Ephemeral(_)) => "self"@,
        Some(SecretView::Shared(_)) => "trusted"@,
        Some(SecretView::Empty) => "allowedTrust"@,
        None => "unknown"@,
    }
}

/// What trusting the first agent named `name` makes of the store `old`: nothing where nobody
/// has that name; else that agent's secret becomes the X25519 secret it shares with the
/// store, and both of its ratchets start fresh from that secret (`res` is the agent's
/// address); nothing else changes.
pub open spec fn trusted(old: &Crypto, new: &Crypto, name: Seq<char>, res: Option<KeyAddrView>) -> bool {
    &&& match first_agent_named(old.agents(), name) {
        None => res is None && new.agents() == old.agents(),
        Some(i) => {
            let k = x25519_shared(old.own_secret(), old.agents()[i].keys.public_key);
            &&& res == Some(old.agents()[i].keys.address)
            &&& new.agents().len() == old.agents().len()
            &&& forall|j: int|
                0 <= j < old.agents().len() && j != i ==> #[trigger] new.agents()[j] == old.agents()[j]
            &&& new.agents()[i].keys == BundleView { secret: SecretView::Shared(k), ..old.agents()[i].keys }
            &&& new.agents()[i].to == Some(
                RatchetView { is_encrypting: true, shared: k, salt: salt_spec(), results: seq![None] },
            )
            &&& new.agents()[i].from == Some(
                RatchetView { is_encrypting: false, shared: k, salt: salt_spec(), results: seq![None] },
            )
        },
    }
    &&& new.own() == old.own()
    &&& new.proxy() == old.proxy()
    &&& new.msgs() == old.msgs()
    &&& new.encrypting() == old.encrypting()
}

/// The key store of the signed protocol.
pub struct Crypto {
    pub is_encrypting: bool,
    self_data: KeyBundle,
    proxy_ratchet: Ratchet,
    agents: Vec<ForeinAgent>,
    msgs: Vec<ServerMsg>,
}

impl Crypto {
    /// Whether the user sends secure texts.
    pub closed spec fn encrypting(&self) -> bool {
        self.is_encrypting
    }

    /// The client's own bundle.
    pub closed spec fn own(&self) -> BundleView {
        self.self_data@
    }

    /// The ratchet that reads the client's own messages back.
    pub closed spec fn proxy(&self) -> RatchetView {
        self.proxy_ratchet@
    }

    /// The people known, in the order they were heard.
    pub closed spec fn agents(&self) -> Seq<AgentView> {
        Seq::new(self.agents@.len(), |i: int| self.agents@[i]@)
    }

    /// The messages seen.
    pub closed spec fn msgs(&self) -> Seq<SignedMsgView> {
        Seq::new(self.msgs@.len(), |i: int| self.msgs@[i]@)
    }

    /// The client's own X25519 secret.
    pub open spec fn own_secret(&self) -> Seq<u8> {
        match self.own().secret {
            SecretView::Ephemeral(s) => s,
            _ => Seq::empty(),
        }
    }

    /// The store's invariant: its own bundle holds its own secret and the matching public
    /// key; the proxy ratchet decrypts with the secret that the client shares with itself;
    /// every agent is as `agent_ok` says; the messages are in time order.
    pub closed spec fn wf(&self) -> bool {
        let own = self.own_secret();
        &&& self.own().secret is Ephemeral
        &&& self.own().public_key == x25519_public(own)
        &&& self.proxy_ratchet.wf()
        &&& self.proxy().shared == x25519_shared(own, x25519_public(own))
        &&& self.proxy().salt == salt_spec()
        &&& !self.proxy().is_encrypting
        &&& forall|i: int|
            0 <= i < self.agents@.len() ==> ratchet_wf((#[trigger] self.agents@[i]).to_ratchet)
                && ratchet_wf(self.agents@[i].from_ratchet)
        &&& forall|i: int| 0 <= i < self.agents().len() ==> agent_ok(#[trigger] self.agents()[i], own)
        &&& time_ordered(self.msgs())
    }

    /// The client's own address.
    pub fn get_address(&self) -> (res: Address)
        ensures
            res@ == self.own().address,
    {
        self.self_data.address.clone()
    }

    /// The client's X25519 public key, in Base64.
    pub fn public_key(&self) -> (res: String)
        ensures
            res@ == base64_encode_spec(self.own().public_key),
    {
        base64_encode(self.self_data.public_key.as_slice())
    }

    /// Remembers the public key that `addr` offered, unless someone at that address is
    /// known already; says whether it did.
    #[verifier::loop_isolation(false)]
    pub fn add_public_key(&mut self, addr: Address, public_key_data: [u8; 32]) -> (res: bool)
        requires
            old(self).wf(),
        ensures
            final(self).wf(),
            res == (first_agent_at(old(self).agents(), addr@) is None),
            final(self).agents() == added_key(old(self).agents(), addr@, public_key_data@),
            final(self).own() == old(self).own(),
            final(self).proxy() == old(self).proxy(),
            final(self).msgs() == old(self).msgs(),
            final(self).encrypting() == old(self).encrypting(),
    {
        let mut i: usize = 0;
        while i < self.agents.len()
            invariant
                i <= self.agents@.len(),
                forall|j: int| 0 <= j < i ==> (#[trigger] self.agents()[j]).keys.address != addr@,
            decreases self.agents@.len() - i,
        {
            if self.agents[i].keys.address.same(&addr) {
                proof {
                    lemma_first_agent_at(self.agents(), addr@, i as int);
                }
                return false;
            }
            i = i + 1;
        }
        proof {
            lemma_first_agent_at(self.agents(), addr@, i as int);
        }
        let agent = ForeinAgent {
            to_ratchet: None,
            from_ratchet: None,
            keys: KeyBundle { address: addr, secret: SecretKey::Empty(), public_key: public_key_data },
        };
        let ghost before = self.agents();
        self.agents.push(agent);
        assert(self.agents() =~= before.push(agent@));
        assert forall|k: int| 0 <= k < self.agents@.len() implies ratchet_wf(
            (#[trigger] self.agents@[k]).to_ratchet,
        ) && ratchet_wf(self.agents@[k].from_ratchet) by {
            if k < before.len() {
                assert(self.agents@[k] == old(self).agents@[k]);
            }
        }
        assert forall|k: int| 0 <= k < self.agents().len() implies agent_ok(
            #[trigger] self.agents()[k],
            self.own_secret(),
        ) by {
            if k < before.len() {
                assert(self.agents()[k] == before[k]);
            }
        }
        true
    }

    /// Trusts the first person named `name`: computes the secret shared with them, starts a
    /// ratchet each way from it, and returns their address; `None`, changing nothing, when
    /// nobody has that name.
    #[verifier::loop_isolation(false)]
    pub fn trust(&mut self, name: String) -> (res: Option<Address>)
        requires
            old(self).wf(),
        ensures
            final(self).wf(),
            trusted(
                old(self),
                final(self),
                name@,
                match res {
                    Some(a) => Some(a@),
                    None => None,
                },
            ),
    {
        let mut i: usize = 0;
        while i < self.agents.len()
            invariant
                i <= self.agents@.len(),
                *self == *old(self),
                old(self).wf(),
                forall|j: int| 0 <= j < i ==> (#[trigger] self.agents()[j]).keys.address.name != name@,
            decreases self.agents@.len() - i,
        {
            if self.agents[i].keys.address.name == name {
                proof {
                    lemma_first_agent_named(self.agents(), name@, i as int);
                }
                let own = match &self.self_data.secret {
                    SecretKey::Ephemeral(s) => *s,
                    _ => {
                        assert(false);
                        [0u8; 32]
                    },
                };
                let public_key = self.agents[i].keys.public_key;
                let shared_secret = x25519_diffie_hellman(&own, &public_key);
                let salt = salt_bytes();
                let to_ratchet = Ratchet::new(&shared_secret, true, salt.clone());
                let from_ratchet = Ratchet::new(&shared_secret, false, salt);
                let address = self.agents[i].keys.address.clone();
                let agent = ForeinAgent {
                    to_ratchet: Some(to_ratchet),
                    from_ratchet: Some(from_ratchet),
                    keys: KeyBundle {
                        public_key,
                        secret: SecretKey::Shared(shared_secret),
                        address: address.clone(),
                    },
                };
                let ghost before = self.agents();
                let ghost raw = self.agents@;
                self.agents.set(i, agent);
                assert(self.agents() =~= before.update(i as int, agent@));
                assert forall|k: int| 0 <= k < self.agents@.len() implies ratchet_wf(
                    (#[trigger] self.agents@[k]).to_ratchet,
                ) && ratchet_wf(self.agents@[k].from_ratchet) by {
                    if k != i {
                        assert(self.agents@[k] == raw[k]);
                    }
                }
                assert forall|k: int| 0 <= k < self.agents().len() implies agent_ok(
                    #[trigger] self.agents()[k],
                    self.own_secret(),
                ) by {
                    if k != i {
                        assert(self.agents()[k] == before[k]);
                    }
                }
                return Some(address);
            }
            i = i + 1;
        }
        proof {
            lemma_first_agent_named(self.agents(), name@, i as int);
        }
        None
    }

    /// The messages seen, in time order.
    pub fn get_msgs(&self) -> (res: Vec<ServerMsg>)
        ensures
            Seq::new(res@.len(), |i: int| res@[i]@) == self.msgs(),
    {
        let mut out: Vec<ServerMsg> = Vec::new();
        let mut i: usize = 0;
        while i < self.msgs.len()
            invariant
                i <= self.msgs@.len(),
                out@.len() == i,
                forall|j: int| 0 <= j < i ==> (#[trigger] out@[j])@ == self.msgs@[j]@,
            decreases self.msgs@.len() - i,
        {
            out.push(self.msgs[i].clone());
            i = i + 1;
        }
        assert(Seq::new(out@.len(), |i: int| out@[i]@) =~= self.msgs());
        out
    }

    /// Forgets the messages seen.
    pub fn empty_msgs(&mut self)
        requires
            old(self).wf(),
        ensures
            final(self).wf(),
            final(self).msgs() == Seq::<SignedMsgView>::empty(),
            final(self).own() == old(self).own(),
            final(self).proxy() == old(self).proxy(),
            final(self).agents() == old(self).agents(),
            final(self).encrypting() == old(self).encrypting(),
    {
        self.msgs = Vec::new();
        assert(self.msgs() =~= Seq::<SignedMsgView>::empty());
        assert(self.agents() == old(self).agents());
        assert(self.agents@ == old(self).agents@);
    }

    /// Adds a message where its time stamp puts it: after every message of the same time or
    /// earlier, before every later one.
    #[verifier::loop_isolation(false)]
    pub fn add_msg(&mut self, msg: ServerMsg)
        requires
            old(self).wf(),
        ensures
            final(self).wf(),
            time_inserted(old(self).msgs(), msg@, final(self).msgs()),
            final(self).own() == old(self).own(),
            final(self).proxy() == old(self).proxy(),
            final(self).agents() == old(self).agents(),
            final(self).encrypting() == old(self).encrypting(),
    {
        let t = msg.time_stamp;
        let mut k: usize = 0;
        while k < self.msgs.len() && self.msgs[k].time_stamp <= t
            invariant
                k <= self.msgs@.len(),
                forall|j: int| 0 <= j < k ==> (#[trigger] self.msgs()[j]).time_stamp <= t,
            decreases self.msgs@.len() - k,
        {
            k = k + 1;
        }
        let ghost before = self.msgs();
        assert forall|j: int| k <= j < before.len() implies (#[trigger] before[j]).time_stamp > t by {
            assert(before[k as int].time_stamp > t);
            assert(before[k as int].time_stamp <= before[j].time_stamp);
        }
        let ghost m = msg@;
        self.msgs.insert(k, msg);
        assert(self.msgs() =~= before.insert(k as int, m));
        assert(self.agents@ == old(self).agents@);
        assert(self.agents() == old(self).agents());
        assert(time_ordered(self.msgs())) by {
            assert forall|i: int, j: int| 0 <= i < j < self.msgs().len() implies self.msgs()[i].time_stamp
                <= self.msgs()[j].time_stamp by {
                let s = self.msgs();
                if j < k {
                    assert(s[i] == before[i] && s[j] == before[j]);
                } else if j == k {
                    assert(s[i] == before[i]);
                } else if i < k {
                    assert(s[i] == before[i] && s[j] == before[j - 1]);
                } else if i == k {
                    assert(s[j] == before[j - 1]);
                } else {
                    assert(s[i] == before[i - 1] && s[j] == before[j - 1]);
                }
            }
        }
    }

    /// The bundle of the client itself if `forien` is its own address, else of the first
    /// agent at that address.
    fn keys(&self, forien: &Address) -> (res: Option<&KeyBundle>)
        ensures
            forien@ == self.own().address ==> (res matches Some(b) && b@ == self.own()),
            forien@ != self.own().address ==> match first_agent_at(self.agents(), forien@) {
                Some(i) => (res matches Some(b) && b@ == self.agents()[i].keys),
                None => res is None,
            },
    {
        if forien.same(&self.self_data.address) {
            return Some(&self.self_data);
        }
        let mut i: usize = 0;
        while i < self.agents.len()
            invariant
                i <= self.agents@.len(),
                forien@ != self.own().address,
                forall|j: int| 0 <= j < i ==> (#[trigger] self.agents()[j]).keys.address != forien@,
            decreases self.agents@.len() - i,
        {
            if self.agents[i].keys.address.same(forien) {
                proof {
                    lemma_first_agent_at(self.agents(), forien@, i as int);
                }
                return Some(&self.agents[i].keys);
            }
            i = i + 1;
        }
        proof {
            lemma_first_agent_at(self.agents(), forien@, i as int);
        }
        None
    }

    /// The first agent whose public key is, in Base64, `key`.
    pub fn agent_from_pub_key(&self, key: &str) -> (res: Option<&ForeinAgent>)
        ensures
            match first_agent_with_key(self.agents(), key@) {
                Some(i) => (res matches Some(a) && a@ == self.agents()[i]),
                None => res is None,
            },
    {
        let mut i: usize = 0;
        while i < self.agents.len()
            invariant
                i <= self.agents@.len(),
                forall|j: int|
                    0 <= j < i ==> base64_encode_spec((#[trigger] self.agents()[j]).keys.public_key)
                        != key@,
            decreases self.agents@.len() - i,
        {
            let encoded = base64_encode(self.agents[i].keys.public_key.as_slice());
            if crate::text::str_equal(encoded.as_str(), key) {
                proof {
                    lemma_first_agent_with_key(self.agents(), key@, i as int);
                }
                return Some(&self.agents[i]);
            }
            i = i + 1;
        }
        proof {
            lemma_first_agent_with_key(self.agents(), key@, i as int);
        }
        None
    }

    /// How the store relates to `forien`.
    pub fn relation(&self, forien: &Address) -> (res: String)
        ensures
            res@ == relation_word(self.secret_for(forien@)),
    {
        match self.keys(forien) {
            Some(key_bundle) => match key_bundle.secret {
                SecretKey::Ephemeral(_) => to_owned_string("self"),
                SecretKey::Shared(_) => to_owned_string("trusted"),
                SecretKey::Empty() => to_owned_string("allowedTrust"),
            },
            None => to_owned_string("unknown"),
        }
    }

    /// The secret the store holds for `a`, if it knows `a`.
    pub open spec fn secret_for(&self, a: KeyAddrView) -> Option<SecretView> {
        if a == self.own().address {
            Some(self.own().secret)
        } else {
            match first_agent_at(self.agents(), a) {
                Some(i) => Some(self.agents()[i].keys.secret),
                None => None,
            }
        }
    }

    /// One line for each person known: `relation: name@base64(public key)`.
    pub fn list_people(&self) -> (res: String)
        ensures
            res@ == people_lines(self, self.agents().len()),
    {
        let mut s = String::new();
        let mut i: usize = 0;
        while i < self.agents.len()
            invariant
                i <= self.agents@.len(),
                s@ == people_lines(self, i as nat),
            decreases self.agents@.len() - i,
        {
            let a = &self.agents[i].keys.address;
            let rel = self.relation(a);
            push_str(&mut s, rel.as_str());
            push_str(&mut s, ": ");
            push_str(&mut s, a.name.as_str());
            push_str(&mut s, "@");
            let k = base64_encode(crate::codec::vec_bytes(&a.public_key));
            push_str(&mut s, k.as_str());
            push_str(&mut s, "\n");
            i = i + 1;
        }
        s
    }
}

/// The lines that list the first `n` agents of `c`.
pub open spec fn people_lines(c: &Crypto, n: nat) -> Seq<char>
    decreases n,
{
    if n == 0 {
        Seq::empty()
    } else {
        let a = c.agents()[n - 1].keys.address;
        people_lines(c, (n - 1) as nat) + relation_word(c.secret_for(a)) + ": "@ + a.name + "@"@
            + base64_encode_spec(a.public_key) + "\n"@
    }
}

fn ephemeral_of(b: &KeyBundle) -> (s: [u8; 32])
    requires
        b@.secret is Ephemeral,
    ensures
        b@.secret == SecretView::Ephemeral(s@),
{
    match &b.secret {
        SecretKey::Ephemeral(s) => *s,
        _ => {
            assert(false);
            [0u8; 32]
        },
    }
}

/// Whether some agent is sent secure texts.
pub open spec fn any_sends(agents: Seq<AgentView>) -> bool {
    exists|i: int| 0 <= i < agents.len() && sends_to(#[trigger] agents[i])
}

/// What a secure text asks the store to do: fail, nothing, or process a payload at a link
/// of the proxy ratchet or of an agent's decrypting ratchet.
pub enum DecryptPlan {
    Fail,
    Nothing,
    Proxy(usize, Seq<u8>),
    Agent(int, usize, Seq<u8>),
}

/// What the parts `msgs` of a secure text from `from` ask of the store whose own address is
/// `own` and whose agents are `agents`. Each part is `address*link*base64(payload)`; a part
/// that cannot be read fails. A text from the store itself goes to the proxy ratchet; else
/// the first part addressed to the store decides, by the first agent at `from`.
pub open spec fn decrypt_plan(
    own: KeyAddrView,
    agents: Seq<AgentView>,
    from: KeyAddrView,
    msgs: Seq<Seq<char>>,
) -> DecryptPlan
    decreases msgs.len(),
{
    if msgs.len() == 0 {
        DecryptPlan::Nothing
    } else {
        let parts = split_and_clean_spec(msgs[0], '*');
        if parts.len() < 3 || !key_sendable_ok(parts[0]) || parse_num_spec(
            parts[1],
            false,
            0,
            usize::MAX as int,
        ) is None || base64_decode_spec(encode_utf8(parts[2])) is None {
            DecryptPlan::Fail
        } else {
            let to = key_from_sendable(parts[0]);
            let id = parse_num_spec(parts[1], false, 0, usize::MAX as int).unwrap() as usize;
            let payload = base64_decode_spec(encode_utf8(parts[2])).unwrap();
            if from == own {
                DecryptPlan::Proxy(id, payload)
            } else if to == own && first_agent_at(agents, from) is Some {
                let i = first_agent_at(agents, from).unwrap();
                if agents[i].keys.secret is Shared && agents[i].from is Some {
                    DecryptPlan::Agent(i, id, payload)
                } else {
                    DecryptPlan::Nothing
                }
            } else {
                decrypt_plan(own, agents, from, msgs.drop_first())
            }
        }
    }
}

proof fn lemma_plan_agent(own: KeyAddrView, agents: Seq<AgentView>, from: KeyAddrView, msgs: Seq<Seq<char>>)
    ensures
        decrypt_plan(own, agents, from, msgs) matches DecryptPlan::Agent(i, _, _) ==> 0 <= i
            < agents.len() && agents[i].keys.secret is Shared && agents[i].from is Some,
    decreases msgs.len(),
{
    lemma_first_agent_at_found(agents, from);
    if msgs.len() > 0 {
        lemma_plan_agent(own, agents, from, msgs.drop_first());
    }
}

/// The plan for the secure text `data`.
pub open spec fn plan_for(c: &Crypto, from: KeyAddrView, data: Seq<char>) -> DecryptPlan {
    decrypt_plan(c.own().address, c.agents(), from, split_and_clean_spec(data, ';'))
}

/// Whether `decrypt` carries the plan out without failing.
pub open spec fn decrypt_ok(c: &Crypto, from: KeyAddrView, data: Seq<char>) -> bool {
    match plan_for(c, from, data) {
        DecryptPlan::Fail => false,
        DecryptPlan::Nothing => true,
        DecryptPlan::Proxy(id, p) => process_ok(c.proxy(), id as nat, p),
        DecryptPlan::Agent(i, id, p) => process_ok(c.agents()[i].from.unwrap(), id as nat, p),
    }
}

/// A plan, as the executable code holds it.
enum ExecPlan {
    Nothing,
    Proxy(usize, Vec<u8>),
    Agent(usize, usize, Vec<u8>),
}

/// The plan that `p` stands for.
spec fn exec_plan_view(p: ExecPlan) -> DecryptPlan {
    match p {
        ExecPlan::Nothing => DecryptPlan::Nothing,
        ExecPlan::Proxy(id, v) => DecryptPlan::Proxy(id, v@),
        ExecPlan::Agent(i, id, v) => DecryptPlan::Agent(i as int, id, v@),
    }
}

proof fn lemma_first_agent_at_found(agents: Seq<AgentView>, a: KeyAddrView)
    ensures
        first_agent_at(agents, a) matches Some(i) ==> 0 <= i < agents.len() && agents[i].keys.address
            == a,
    decreases agents.len(),
{
    if agents.len() > 0 {
        lemma_first_agent_at_found(agents.drop_first(), a);
    }
}

/// The payload that the store keeps for the message `id`: the result of its link in the
/// ratchet it went through. `None` where the store does not know the address.
pub open spec fn encrypted_msg_spec(c: &Crypto, id: MsgIdView) -> Option<Option<Seq<u8>>> {
    match first_agent_at(c.agents(), id.address) {
        None => Some(None),
        Some(i) => {
            let a = c.agents()[i];
            let r = if a.keys.address == c.own().address && !id.is_sender {
                Some(c.proxy())
            } else if id.is_sender {
                a.to
            } else {
                a.from
            };
            match r {
                Some(rv) => if id.ord < rv.results.len() && rv.results[id.ord as int] is Some {
                    Some(rv.results[id.ord as int])
                } else {
                    None
                },
                None => None,
            }
        },
    }
}

impl Crypto {
    /// A store for the user `name` with the signing key `public_key`: a key pair drawn from
    /// the generator seeded with `rand_num`, a proxy ratchet that reads the store's own
    /// messages, and the store itself as the one person it knows and trusts.
    pub fn new(name: &str, public_key: Vec<u8>, rand_num: u64) -> (res: Crypto)
        ensures
            res.wf(),
            ({
                let s = chacha20_seeded_bytes(rand_num);
                let p = x25519_public(s);
                let k = x25519_shared(s, p);
                let addr = KeyAddrView { name: name@, public_key: public_key@ };
                &&& res.own() == BundleView { public_key: p, secret: SecretView::Ephemeral(s), address: addr }
                &&& res.proxy() == RatchetView {
                    is_encrypting: false,
                    shared: k,
                    salt: salt_spec(),
                    results: seq![None],
                }
                &&& res.agents() == seq![
                    AgentView {
                        to: Some(
                            RatchetView { is_encrypting: true, shared: k, salt: salt_spec(), results: seq![None] },
                        ),
                        from: Some(
                            RatchetView { is_encrypting: false, shared: k, salt: salt_spec(), results: seq![None] },
                        ),
                        keys: BundleView { public_key: p, secret: SecretView::Shared(k), address: addr },
                    },
                ]
                &&& res.msgs() == Seq::<SignedMsgView>::empty()
                &&& !res.encrypting()
            }),
    {
        let self_addr = Address::new(name, public_key);
        let proxy = KeyBundle::new_self_key_set(self_addr.clone(), rand_num);
        let proxy_private = ephemeral_of(&proxy);
        let self_data = KeyBundle::new_self_key_set(self_addr, rand_num);
        let shared_secret = x25519_diffie_hellman(&proxy_private, &self_data.public_key);
        let salt = salt_bytes();
        let proxy_ratchet = Ratchet::new(&shared_secret, false, salt);
        let mut state = Crypto {
            self_data,
            proxy_ratchet,
            agents: Vec::new(),
            is_encrypting: false,
            msgs: Vec::new(),
        };
        assert(state.agents() =~= Seq::<AgentView>::empty());
        assert(state.msgs() =~= Seq::<SignedMsgView>::empty());
        state.add_public_key(proxy.address.clone(), proxy.public_key);
        let ghost one = state.agents();
        state.trust(proxy.address.name.clone());
        assert(state.agents() =~= seq![state.agents()[0]]);
        state
    }

    /// Seals `text` for every agent it sends to, each at the next link of that agent's
    /// encrypting ratchet, and returns the identifiers of those messages.
    pub fn encrypt(&mut self, text: String) -> (res: Vec<SecureMsgIdentifier>)
        requires
            old(self).wf(),
            any_sends(old(self).agents()) ==> aes_plaintext_ok(encode_utf8(text@).len()),
        ensures
            final(self).wf(),
            final(self).agents() == Seq::new(
                old(self).agents().len(),
                |i: int| sealed_agent(old(self).agents()[i], encode_utf8(text@)),
            ),
            forall|i: int|
                0 <= i < old(self).agents().len() ==> sealed_opens(
                    #[trigger] old(self).agents()[i],
                    final(self).agents()[i],
                    encode_utf8(text@),
                ),
            id_views(res@) == sent_ids(old(self).agents()),
            final(self).own() == old(self).own(),
            final(self).proxy() == old(self).proxy(),
            final(self).msgs() == old(self).msgs(),
            final(self).encrypting() == old(self).encrypting(),
    {
        let bytes = utf8_bytes(text.as_str());
        let ghost start = self.agents();
        let ghost raw = self.agents@;
        let ghost own = self.own_secret();
        let mut ids: Vec<SecureMsgIdentifier> = Vec::new();
        let mut i: usize = 0;
        assert(start.take(0) =~= Seq::<AgentView>::empty());
        assert(id_views(ids@) =~= Seq::<MsgIdView>::empty());
        while i < self.agents.len()
            invariant
                i <= self.agents@.len(),
                self.agents@.len() == raw.len(),
                start.len() == raw.len(),
                bytes@ == encode_utf8(text@),
                own == old(self).own_secret(),
                any_sends(start) ==> aes_plaintext_ok(bytes@.len()),
                self.self_data == old(self).self_data,
                self.proxy_ratchet == old(self).proxy_ratchet,
                self.msgs == old(self).msgs,
                self.is_encrypting == old(self).is_encrypting,
                old(self).wf(),
                start == old(self).agents(),
                raw == old(self).agents@,
                forall|j: int|
                    0 <= j < self.agents@.len() ==> ratchet_wf((#[trigger] self.agents@[j]).to_ratchet)
                        && ratchet_wf(self.agents@[j].from_ratchet),
                forall|j: int| 0 <= j < self.agents().len() ==> agent_ok(#[trigger] self.agents()[j], own),
                forall|j: int|
                    0 <= j < i ==> #[trigger] self.agents()[j] == sealed_agent(start[j], bytes@)
                        && sealed_opens(start[j], self.agents()[j], bytes@),
                forall|j: int| i <= j < raw.len() ==> #[trigger] self.agents@[j] == raw[j],
                id_views(ids@) == sent_ids(start.take(i as int)),
            decreases raw.len() - i,
        {
            let ghost before = self.agents@;
            let ghost before_agents = self.agents();
            assert(self.agents()[i as int] == start[i as int]);
            assert(start[i as int] == raw[i as int]@);
            let mut agent = self.agents.remove(i);
            assert(agent@ == start[i as int]);
            assert(agent_ok(start[i as int], own));
            proof {
                if sends_to(agent@) {
                    assert(any_sends(start));
                }
            }
            let r = agent.seal_for(bytes);
            let ghost sealed = agent;
            self.agents.insert(i, agent);
            assert(self.agents@ =~= before.update(i as int, sealed));
            let ghost ids_before = ids@;
            match r {
                Some(m) => {
                    ids.push(m);
                    assert(id_views(ids@) =~= id_views(ids_before).push(m@));
                },
                None => {},
            }
            proof {
                let t = start.take(i + 1);
                assert(t.drop_last() =~= start.take(i as int));
                assert(t.last() == start[i as int]);
                assert(self.agents()[i as int] == sealed@);
                assert(sealed@ == sealed_agent(start[i as int], bytes@));
                assert forall|j: int| 0 <= j < i + 1 implies #[trigger] self.agents()[j] == sealed_agent(
                    start[j],
                    bytes@,
                ) && sealed_opens(start[j], self.agents()[j], bytes@) by {
                    if j < i {
                        assert(before_agents[j] == sealed_agent(start[j], bytes@));
                        assert(sealed_opens(start[j], before_agents[j], bytes@));
                        assert(self.agents()[j] == before[j]@);
                    }
                }
                assert forall|j: int| 0 <= j < self.agents().len() implies agent_ok(
                    #[trigger] self.agents()[j],
                    own,
                ) by {
                    if j != i {
                        assert(self.agents()[j] == before[j]@);
                    }
                }
                assert forall|j: int| 0 <= j < self.agents@.len() implies ratchet_wf(
                    (#[trigger] self.agents@[j]).to_ratchet,
                ) && ratchet_wf(self.agents@[j].from_ratchet) by {
                    if j != i {
                        assert(self.agents@[j] == before[j]);
                    }
                }
            }
            i = i + 1;
        }
        assert(start.take(i as int) =~= start);
        assert(self.agents() =~= Seq::new(start.len(), |k: int| sealed_agent(start[k], bytes@)));
        ids
    }
}

/// What `decrypt` does to the store, by the plan for the text: nothing; a step of the proxy
/// ratchet; or a step of the decrypting ratchet of the agent the text came from. Only that
/// ratchet changes.
pub open spec fn decrypted(
    old: &Crypto,
    new: &Crypto,
    from: KeyAddrView,
    data: Seq<char>,
    res: Option<SecureMsgIdentifier>,
) -> bool {
    &&& new.own() == old.own()
    &&& new.msgs() == old.msgs()
    &&& new.encrypting() == old.encrypting()
    &&& ratchets_after(old, new, from, data)
    &&& match plan_for(old, from, data) {
        DecryptPlan::Proxy(_, _) | DecryptPlan::Agent(_, _, _) => res is Some && res.unwrap()@
            == plan_id(old, from, data),
        _ => res is None,
    }
}

/// The ratchets once the secure text `data` from `from` is read: the one that the plan names
/// has processed its payload; nothing else changed.
pub open spec fn ratchets_after(old: &Crypto, new: &Crypto, from: KeyAddrView, data: Seq<char>) -> bool {
    match plan_for(old, from, data) {
        DecryptPlan::Proxy(id, p) => {
            &&& new.proxy() == step(old.proxy(), id as nat, p)
            &&& new.agents() == old.agents()
        },
        DecryptPlan::Agent(i, id, p) => {
            &&& new.proxy() == old.proxy()
            &&& new.agents() == old.agents().update(
                i,
                AgentView { from: Some(step(old.agents()[i].from.unwrap(), id as nat, p)), ..old.agents()[i] },
            )
        },
        _ => {
            &&& new.proxy() == old.proxy()
            &&& new.agents() == old.agents()
        },
    }
}

/// The identifier of the message that the secure text `data` from `from` is, by its plan.
pub open spec fn plan_id(c: &Crypto, from: KeyAddrView, data: Seq<char>) -> MsgIdView {
    match plan_for(c, from, data) {
        DecryptPlan::Proxy(id, _) => MsgIdView { ord: id, address: c.own().address, is_sender: false },
        DecryptPlan::Agent(i, id, _) => MsgIdView {
            ord: id,
            address: c.agents()[i].keys.address,
            is_sender: false,
        },
        _ => MsgIdView { ord: 0, address: c.own().address, is_sender: false },
    }
}

impl Crypto {
    /// The index of the first agent at the address `a`.
    fn find_agent(&self, a: &Address) -> (res: Option<usize>)
        ensures
            res is None <==> first_agent_at(self.agents(), a@) is None,
            res matches Some(i) ==> i < self.agents().len() && first_agent_at(self.agents(), a@) == Some(
                i as int,
            ),
    {
        let mut i: usize = 0;
        while i < self.agents.len()
            invariant
                i <= self.agents@.len(),
                forall|j: int| 0 <= j < i ==> (#[trigger] self.agents()[j]).keys.address != a@,
            decreases self.agents@.len() - i,
        {
            if self.agents[i].keys.address.same(a) {
                proof {
                    lemma_first_agent_at(self.agents(), a@, i as int);
                }
                return Some(i);
            }
            i = i + 1;
        }
        proof {
            lemma_first_agent_at(self.agents(), a@, i as int);
        }
        None
    }

    /// The plan for the secure text `data` from `from`; `None` where reading it fails.
    fn plan(&self, from: &Address, data: &str) -> (res: Option<ExecPlan>)
        ensures
            match res {
                None => plan_for(self, from@, data@) is Fail,
                Some(p) => plan_for(self, from@, data@) == exec_plan_view(p) && (p matches ExecPlan::Agent(
                    i,
                    _,
                    _,
                ) ==> i < self.agents().len()),
            },
    {
        let msgs = split_and_clean(data, ';');
        let ghost all = views(msgs@);
        let ghost own = self.own().address;
        let mut i: usize = 0;
        assert(all.subrange(0, all.len() as int) =~= all);
        while i < msgs.len()
            invariant
                i <= msgs@.len(),
                all == views(msgs@),
                all == split_and_clean_spec(data@, ';'),
                own == self.own().address,
                plan_for(self, from@, data@) == decrypt_plan(
                    own,
                    self.agents(),
                    from@,
                    all.subrange(i as int, all.len() as int),
                ),
            decreases msgs@.len() - i,
        {
            let ghost rest = all.subrange(i as int, all.len() as int);
            assert(rest[0] == msgs@[i as int]@);
            assert(rest.drop_first() =~= all.subrange(i + 1, all.len() as int));
            let parts = split_and_clean(msgs[i], '*');
            let ghost ps = split_and_clean_spec(rest[0], '*');
            if parts.len() < 3 {
                return None;
            }
            assert(parts@[0]@ == ps[0]);
            assert(parts@[1]@ == ps[1]);
            assert(parts@[2]@ == ps[2]);
            let to = match try_key_from_sendable(parts[0]) {
                Some(a) => a,
                None => {
                    return None;
                },
            };
            let id = match parse_usize(parts[1]) {
                Some(v) => v,
                None => {
                    return None;
                },
            };
            let payload = match base64_decode(utf8_bytes(parts[2])) {
                Some(p) => p,
                None => {
                    return None;
                },
            };
            if from.same(&self.self_data.address) {
                return Some(ExecPlan::Proxy(id, payload));
            }
            if to.same(&self.self_data.address) {
                match self.find_agent(from) {
                    Some(j) => {
                        let a = &self.agents[j];
                        assert(self.agents()[j as int] == a@);
                        let shared = match &a.keys.secret {
                            SecretKey::Shared(_) => true,
                            _ => false,
                        };
                        if shared && a.from_ratchet.is_some() {
                            return Some(ExecPlan::Agent(j, id, payload));
                        }
                        return Some(ExecPlan::Nothing);
                    },
                    None => {},
                }
            }
            i = i + 1;
        }
        Some(ExecPlan::Nothing)
    }

    /// Reads the secure text `addressed_msg_data` from `from`: its part for this store
    /// goes through the ratchet that the plan names, and the identifier of the message is
    /// returned; `None` where the text holds nothing for this store.
    pub fn decrypt(&mut self, from: &Address, addressed_msg_data: String) -> (res: Option<SecureMsgIdentifier>)
        requires
            old(self).wf(),
            decrypt_ok(old(self), from@, addressed_msg_data@),
        ensures
            final(self).wf(),
            decrypted(old(self), final(self), from@, addressed_msg_data@, res),
    {
        match self.plan(from, addressed_msg_data.as_str()) {
            None => {
                assert(false);
                None
            },
            Some(ExecPlan::Nothing) => None,
            Some(ExecPlan::Proxy(id, payload)) => {
                let addr = self.self_data.address.clone();
                let m = self.proxy_ratchet.process_payload(&addr, id, payload.as_slice());
                assert(self.agents@ == old(self).agents@);
                assert(self.agents() == old(self).agents());
                Some(m)
            },
            Some(ExecPlan::Agent(j, id, payload)) => {
                let ghost before = self.agents@;
                let ghost own = self.own_secret();
                proof {
                    lemma_plan_agent(
                        old(self).own().address,
                        old(self).agents(),
                        from@,
                        split_and_clean_spec(addressed_msg_data@, ';'),
                    );
                }
                let mut agent = self.agents.remove(j);
                assert(agent@ == old(self).agents()[j as int]);
                assert(ratchet_wf(agent.from_ratchet));
                assert(agent_ok(agent@, own));
                let r = match agent.from_ratchet.take() {
                    Some(mut ratchet) => {
                        let m = ratchet.process_payload(&agent.keys.address, id, payload.as_slice());
                        agent.from_ratchet = Some(ratchet);
                        Some(m)
                    },
                    None => {
                        assert(false);
                        None
                    },
                };
                let ghost updated = agent;
                self.agents.insert(j, agent);
                assert(self.agents@ =~= before.update(j as int, updated));
                assert(self.agents() =~= old(self).agents().update(j as int, updated@));
                assert forall|k: int| 0 <= k < self.agents@.len() implies ratchet_wf(
                    (#[trigger] self.agents@[k]).to_ratchet,
                ) && ratchet_wf(self.agents@[k].from_ratchet) by {
                    if k != j {
                        assert(self.agents@[k] == before[k]);
                    }
                }
                assert forall|k: int| 0 <= k < self.agents().len() implies agent_ok(
                    #[trigger] self.agents()[k],
                    own,
                ) by {
                    if k != j {
                        assert(self.agents()[k] == old(self).agents()[k]);
                    }
                }
                r
            },
        }
    }

    /// Whether `decrypt` reads `data` from `from` without failing (`None` if not), and then
    /// whether it gives a message.
    pub fn check_decrypt(&self, from: &Address, data: &str) -> (res: Option<bool>)
        requires
            self.wf(),
        ensures
            res is Some <==> decrypt_ok(self, from@, data@),
            res matches Some(b) ==> (b <==> !(plan_for(self, from@, data@) is Nothing)),
    {
        match self.plan(from, data) {
            None => None,
            Some(ExecPlan::Nothing) => Some(false),
            Some(ExecPlan::Proxy(id, payload)) => if self.proxy_ratchet.can_process(id, payload.as_slice()) {
                Some(true)
            } else {
                None
            },
            Some(ExecPlan::Agent(j, id, payload)) => {
                proof {
                    lemma_plan_agent(
                        self.own().address,
                        self.agents(),
                        from@,
                        split_and_clean_spec(data@, ';'),
                    );
                }
                assert(ratchet_wf(self.agents@[j as int].from_ratchet));
                assert(self.agents()[j as int] == self.agents@[j as int]@);
                match &self.agents[j].from_ratchet {
                    Some(r) => if r.can_process(id, payload.as_slice()) {
                        Some(true)
                    } else {
                        None
                    },
                    None => None,
                }
            },
        }
    }

    /// `decrypt`, or `None`, changing nothing, where it would fail.
    pub fn try_decrypt(&mut self, from: &Address, addressed_msg_data: String) -> (res: Option<Option<SecureMsgIdentifier>>)
        requires
            old(self).wf(),
        ensures
            final(self).wf(),
            res is Some <==> decrypt_ok(old(self), from@, addressed_msg_data@),
            res is None ==> final(self).own() == old(self).own() && final(self).proxy() == old(self).proxy()
                && final(self).agents() == old(self).agents() && final(self).msgs() == old(self).msgs(),
            res matches Some(r) ==> decrypted(old(self), final(self), from@, addressed_msg_data@, r),
    {
        match self.check_decrypt(from, addressed_msg_data.as_str()) {
            Some(_) => Some(self.decrypt(from, addressed_msg_data)),
            None => None,
        }
    }

    /// The payload kept for the message `id`, from the ratchet it went through: the proxy
    /// for the store's own messages, else the agent's ratchet in the message's direction.
    /// `None` where the store knows nobody at the message's address.
    pub fn get_encrypted_msg(&self, id: &SecureMsgIdentifier) -> (res: Option<Vec<u8>>)
        requires
            self.wf(),
            encrypted_msg_spec(self, id@) is Some,
        ensures
            match res {
                Some(v) => encrypted_msg_spec(self, id@) == Some(Some(v@)),
                None => encrypted_msg_spec(self, id@) == Some(None::<Seq<u8>>),
            },
    {
        match self.find_agent(&id.address) {
            None => None,
            Some(j) => {
                let a = &self.agents[j];
                assert(self.agents()[j as int] == a@);
                if a.keys.address.same(&self.self_data.address) && !id.is_sender {
                    Some(self.proxy_ratchet.get_msg(id.ord).unwrap())
                } else if id.is_sender {
                    Some(a.to_ratchet.as_ref().unwrap().get_msg(id.ord).unwrap())
                } else {
                    Some(a.from_ratchet.as_ref().unwrap().get_msg(id.ord).unwrap())
                }
            },
        }
    }

    /// `get_encrypted_msg`, or `None` where it would fail: the ratchet the message went
    /// through is absent, or holds no payload at the message's link.
    pub(crate) fn try_encrypted_msg(&self, id: &SecureMsgIdentifier) -> (res: Option<Option<Vec<u8>>>)
        requires
            self.wf(),
        ensures
            match res {
                Some(Some(v)) => encrypted_msg_spec(self, id@) == Some(Some(v@)),
                Some(None) => encrypted_msg_spec(self, id@) == Some(None::<Seq<u8>>),
                None => encrypted_msg_spec(self, id@) is None,
            },
    {
        match self.find_agent(&id.address) {
            None => Some(None),
            Some(j) => {
                let a = &self.agents[j];
                assert(self.agents()[j as int] == a@);
                let r = if a.keys.address.same(&self.self_data.address) && !id.is_sender {
                    Some(&self.proxy_ratchet)
                } else if id.is_sender {
                    a.to_ratchet.as_ref()
                } else {
                    a.from_ratchet.as_ref()
                };
                match r {
                    Some(ratchet) => match ratchet.get_msg(id.ord) {
                        Some(v) => Some(Some(v)),
                        None => None,
                    },
                    None => None,
                }
            },
        }
    }
}

/// Two stores that trust each other under each other's public keys share a channel: the
/// ratchet with which `a` encrypts for `b` and the one with which `b` decrypts what `a` sends
/// grow from the same shared secret and salt. So what `a` sealed for `b` at link `n` (a
/// ciphertext that opens under that link's key, as `encrypt` promises), `b`, fresh at link
/// `n`, opens there to the same payload.
pub proof fn lemma_store_channel(
    a: Crypto,
    b: Crypto,
    i: int,
    j: int,
    n: nat,
    payload: Seq<u8>,
    sealed: Seq<u8>,
)
    requires
        a.wf(),
        b.wf(),
        0 <= i < a.agents().len(),
        0 <= j < b.agents().len(),
        a.agents()[i].keys.secret is Shared,
        a.agents()[i].keys.public_key == b.own().public_key,
        b.agents()[j].keys.secret is Shared,
        b.agents()[j].keys.public_key == a.own().public_key,
        aes256gcm_open(
            link_key(a.agents()[i].to.unwrap().shared, a.agents()[i].to.unwrap().salt, n),
            link_iv(a.agents()[i].to.unwrap().shared, a.agents()[i].to.unwrap().salt, n),
            sealed,
        ) == Some(payload),
        !(n > b.agents()[j].from.unwrap().results.len() && b.agents()[j].from.unwrap().results.last() is Some),
        extended(b.agents()[j].from.unwrap().results, n)[n as int] is None,
    ensures
        a.agents()[i].to.unwrap().shared == b.agents()[j].from.unwrap().shared,
        a.agents()[i].to.unwrap().salt == b.agents()[j].from.unwrap().salt,
        process_ok(b.agents()[j].from.unwrap(), n, sealed),
        step(b.agents()[j].from.unwrap(), n, sealed).results[n as int] == Some(payload),
{
    let sa = a.own_secret();
    let sb = b.own_secret();
    assert(agent_ok(a.agents()[i], sa));
    assert(agent_ok(b.agents()[j], sb));
    assert(b.own().public_key == x25519_public(sb));
    assert(a.own().public_key == x25519_public(sa));
    lemma_ratchet_roundtrip(a.agents()[i].to.unwrap(), b.agents()[j].from.unwrap(), n, payload, sealed);
}

/// A store reads its own messages back: the ratchet with which it encrypts for itself (an
/// agent with its own public key, trusted) and its proxy ratchet grow from the same shared
/// secret and salt, so what it sealed for itself at link `n`, the proxy, fresh at link `n`,
/// opens there to the same payload.
pub proof fn lemma_store_own_channel(a: Crypto, k: int, n: nat, payload: Seq<u8>, sealed: Seq<u8>)
    requires
        a.wf(),
        0 <= k < a.agents().len(),
        a.agents()[k].keys.secret is Shared,
        a.agents()[k].keys.public_key == a.own().public_key,
        aes256gcm_open(
            link_key(a.agents()[k].to.unwrap().shared, a.agents()[k].to.unwrap().salt, n),
            link_iv(a.agents()[k].to.unwrap().shared, a.agents()[k].to.unwrap().salt, n),
            sealed,
        ) == Some(payload),
        !(n > a.proxy().results.len() && a.proxy().results.last() is Some),
        extended(a.proxy().results, n)[n as int] is None,
    ensures
        a.agents()[k].to.unwrap().shared == a.proxy().shared,
        process_ok(a.proxy(), n, sealed),
        step(a.proxy(), n, sealed).results[n as int] == Some(payload),
{
    assert(agent_ok(a.agents()[k], a.own_secret()));
    lemma_ratchet_roundtrip(a.agents()[k].to.unwrap(), a.proxy(), n, payload, sealed);
}

/// The messages of a store are always in the order of their time stamps.
pub proof fn lemma_msgs_time_ordered(c: Crypto)
    requires
        c.wf(),
    ensures
        time_ordered(c.msgs()),
{
}

} // verus!
