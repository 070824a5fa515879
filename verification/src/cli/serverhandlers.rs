use vstd::prelude::*;
use vstd::utf8::{decode_utf8, valid_utf8};
use vstd::utf8::encode_utf8;
use crate::cli::encrypter::{decrypt_spec, Crypto, KeyBundleView};
use crate::codec::{
    base64_decode, base64_decode_spec, push_str, str_from_utf8, to_owned_string, utf8_bytes,
    vec_bytes,
};
use crate::text::{lemma_strip_absent, lemma_strip_concat, remove_char, strip};
use crate::wire::{
    from_wire, parse_wire, sendable, to_wire, transmittable, try_from_wire, wire, wire_ok, AddrView,
    Address, ContentView, MsgView,
};
pub use crate::wire::MsgContent;

verus! {

/// A message of the terminal client.
pub struct ServerMsg {
    pub from: Address,
    pub content: MsgContent,
}

impl View for ServerMsg {
    type V = MsgView;

    open spec fn view(&self) -> MsgView {
        MsgView { from: self.from@, content: self.content@ }
    }
}

impl Clone for ServerMsg {
    fn clone(&self) -> (res: Self)
        ensures
            res@ == self@,
    {
        ServerMsg { from: self.from.clone(), content: self.content.clone() }
    }
}

/// The line that the terminal prints for a message.
pub open spec fn display_spec(m: MsgView) -> Seq<char> {
    let content = match m.content {
        ContentView::PublicKey(_) => "p* is alllowing people to trust them"@,
        ContentView::SecureText(t) => "s* "@ + t,
        ContentView::InsecureText(t) => "i* "@ + t,
        ContentView::Join(_) => "j* went online"@,
        ContentView::Leave(_) => "j* went offline"@,
        ContentView::Trust(a) => "t* is trusting "@ + a.name,
        ContentView::Blank => "_* Error Parsing Text"@,
    };
    "*"@ + m.from.name + "\\"@ + strip(strip(content, '\r'), '\n')
}

/// Whether the bytes `data` hold a message that `fromServer` can read.
pub open spec fn server_bytes_ok(data: Seq<u8>) -> bool {
    valid_utf8(data) && wire_ok(decode_utf8(data))
}

impl ServerMsg {
    pub fn new(from: &Address, content: MsgContent) -> (res: ServerMsg)
        ensures
            res@ == (MsgView { from: from@, content: content@ }),
    {
        ServerMsg { from: from.clone(), content }
    }

    /// Reads a message that arrived from the server as UTF-8 bytes.
    pub fn fromServer(data: &Vec<u8>) -> (res: ServerMsg)
        requires
            server_bytes_ok(data@),
        ensures
            res@ == parse_wire(decode_utf8(data@)),
    {
        match str_from_utf8(vec_bytes(data)) {
            Some(txt) => {
                let (from, content) = from_wire(txt);
                ServerMsg { from, content }
            },
            None => {
                assert(false);
                ServerMsg { from: Address { name: String::new(), deviceId: 0 }, content: MsgContent::Blank() }
            },
        }
    }

    /// Reads a message from the server, or `None` where `fromServer` could not.
    pub fn try_fromServer(data: &Vec<u8>) -> (res: Option<ServerMsg>)
        ensures
            res is Some <==> server_bytes_ok(data@),
            res matches Some(m) ==> m@ == parse_wire(decode_utf8(data@)),
    {
        match str_from_utf8(vec_bytes(data)) {
            Some(txt) => match try_from_wire(txt) {
                Some(_) => Some(ServerMsg::fromServer(data)),
                None => None,
            },
            None => None,
        }
    }

    /// `*address*label*base64(body)*`; `fromServer` reads a transmittable message back from it.
    pub fn toString(self) -> (res: String)
        ensures
            res@ == wire(self@),
            transmittable(self@) ==> wire_ok(res@) && parse_wire(res@) == self@,
    {
        to_wire(&self.from, &self.content)
    }

    /// The line that shows the message in the terminal.
    pub fn display(self) -> (res: String)
        ensures
            res@ == display_spec(self@),
    {
        let content = match &self.content {
            MsgContent::PublicKey(_) => to_owned_string("p* is alllowing people to trust them"),
            MsgContent::SecureText(txt) => {
                let mut s = to_owned_string("s* ");
                push_str(&mut s, txt.as_str());
                s
            },
            MsgContent::InsecureText(txt) => {
                let mut s = to_owned_string("i* ");
                push_str(&mut s, txt.as_str());
                s
            },
            MsgContent::Join(_) => to_owned_string("j* went online"),
            MsgContent::Leave(_) => to_owned_string("j* went offline"),
            MsgContent::Trust(addr) => {
                let mut s = to_owned_string("t* is trusting ");
                push_str(&mut s, addr.name.as_str());
                s
            },
            MsgContent::Blank() => to_owned_string("_* Error Parsing Text"),
        };
        let no_cr = remove_char(content.as_str(), '\r');
        let clean = remove_char(no_cr.as_str(), '\n');
        let mut out = to_owned_string("*");
        push_str(&mut out, self.from.name.as_str());
        push_str(&mut out, "\\");
        push_str(&mut out, clean.as_str());
        out
    }

    /// Takes in a message that arrived: a public key is remembered, a secure text is
    /// decrypted; unless the message is the client's own, the line that shows it is returned.
    pub fn handleSelf(self, state: &mut Crypto) -> (res: Option<String>)
        requires
            handle_ok(self@, old(state)),
        ensures
            match handled(self@, old(state)) {
                None => res is None && *final(state) == *old(state),
                Some(m) => res matches Some(line) && line@ == display_spec(m) && match self@.content {
                    ContentView::PublicKey(d) => {
                        &&& final(state).same_keys(old(state))
                        &&& final(state).people() == old(state).people().push(
                            KeyBundleView {
                                public: base64_decode_spec(encode_utf8(d)).unwrap(),
                                shared: None,
                                address: self@.from,
                            },
                        )
                    },
                    _ => *final(state) == *old(state),
                },
            },
            old(state).wf() ==> final(state).wf(),
    {
        let own = state.addr();
        let from_s = self.from.asSendable();
        let own_s = own.asSendable();
        if from_s == own_s {
            return None;
        }
        let from = self.from;
        let content = match self.content {
            MsgContent::PublicKey(data) => {
                let key = decodeToPublicKeyBytes(data.clone());
                state.addPublicKey(from.clone(), key);
                MsgContent::PublicKey(data)
            },
            MsgContent::SecureText(data) => MsgContent::SecureText(state.decrypt(&from, data)),
            other => other,
        };
        Some(ServerMsg { from, content }.display())
    }

    /// `handleSelf`, or `None`, changing nothing, where the message holds a public key that
    /// is not 32 bytes of Base64 or a secure text that cannot be read.
    pub fn try_handleSelf(self, state: &mut Crypto) -> (res: Option<Option<String>>)
        ensures
            res is Some <==> handle_ok(self@, old(state)),
            res is None ==> *final(state) == *old(state),
            res matches Some(r) ==> match handled(self@, old(state)) {
                None => r is None && *final(state) == *old(state),
                Some(m) => r matches Some(line) && line@ == display_spec(m),
            },
            old(state).wf() ==> final(state).wf(),
    {
        let own = state.addr();
        let from_s = self.from.asSendable();
        let own_s = own.asSendable();
        if from_s != own_s {
            match &self.content {
                MsgContent::PublicKey(data) => {
                    match base64_decode(utf8_bytes(data.as_str())) {
                        Some(b) => {
                            if b.len() != 32 {
                                return None;
                            }
                        },
                        None => {
                            return None;
                        },
                    }
                },
                MsgContent::SecureText(data) => {
                    if state.try_decrypt(&self.from, data.clone()).is_none() {
                        return None;
                    }
                },
                _ => {},
            }
        }
        Some(self.handleSelf(state))
    }
}

/// Every message but the client's own is shown: `handled` is `None` exactly where the sender
/// is the client itself, and any other message is shown from its sender as it came, but for
/// a secure text, which is shown as the secure text it reads as.
pub proof fn lemma_handled_shows_others(m: MsgView, state: &Crypto)
    ensures
        handled(m, state) is None <==> sendable(m.from) == sendable(
            AddrView { name: state.name(), device_id: state.device_id() },
        ),
        sendable(m.from) != sendable(AddrView { name: state.name(), device_id: state.device_id() })
            && !(m.content is SecureText) ==> handled(m, state) == Some(m),
        sendable(m.from) != sendable(AddrView { name: state.name(), device_id: state.device_id() })
            && m.content is SecureText ==> (handled(m, state) matches Some(h) && h.from == m.from
            && h.content is SecureText),
{
}

/// The line of each kind of message: the sender's name, `\\` and a label of its kind with
/// what it says, line breaks removed: a plain text as `i* ` and the text itself, a secure
/// text as `s* ` and its text, a key offer as `p* is alllowing people to trust them`, a join
/// as `j* went online`, a leave as `j* went offline`, a trust as `t* is trusting ` and the
/// trusted name, a blank message as `_* Error Parsing Text`.
pub proof fn lemma_display_kinds(m: MsgView)
    ensures
        m.content matches ContentView::InsecureText(t) ==> display_spec(m) == "*"@ + m.from.name
            + "\\"@ + "i* "@ + strip(strip(t, '\r'), '\n'),
        m.content matches ContentView::SecureText(t) ==> display_spec(m) == "*"@ + m.from.name
            + "\\"@ + "s* "@ + strip(strip(t, '\r'), '\n'),
        m.content matches ContentView::Trust(a) ==> display_spec(m) == "*"@ + m.from.name
            + "\\"@ + "t* is trusting "@ + strip(strip(a.name, '\r'), '\n'),
        m.content is PublicKey ==> display_spec(m) == "*"@ + m.from.name + "\\"@
            + "p* is alllowing people to trust them"@,
        m.content is Join ==> display_spec(m) == "*"@ + m.from.name + "\\"@ + "j* went online"@,
        m.content is Leave ==> display_spec(m) == "*"@ + m.from.name + "\\"@ + "j* went offline"@,
        m.content is Blank ==> display_spec(m) == "*"@ + m.from.name + "\\"@
            + "_* Error Parsing Text"@,
{
    match m.content {
        ContentView::InsecureText(t) => lemma_strip_prefixed("i* "@, t),
        ContentView::SecureText(t) => lemma_strip_prefixed("s* "@, t),
        ContentView::Trust(a) => lemma_strip_prefixed("t* is trusting "@, a.name),
        ContentView::PublicKey(_) => lemma_strip_prefixed("p* is alllowing people to trust them"@, seq![]),
        ContentView::Join(_) => lemma_strip_prefixed("j* went online"@, seq![]),
        ContentView::Leave(_) => lemma_strip_prefixed("j* went offline"@, seq![]),
        ContentView::Blank => lemma_strip_prefixed("_* Error Parsing Text"@, seq![]),
    }
}

proof fn lemma_strip_prefixed(p: Seq<char>, t: Seq<char>)
    requires
        p == "i* "@ || p == "s* "@ || p == "t* is trusting "@ || p
            == "p* is alllowing people to trust them"@ || p == "j* went online"@ || p
            == "j* went offline"@ || p == "_* Error Parsing Text"@,
    ensures
        strip(strip(p + t, '\r'), '\n') == p + strip(strip(t, '\r'), '\n'),
        strip(strip(p, '\r'), '\n') == p,
{
    reveal_strlit("i* ");
    reveal_strlit("s* ");
    reveal_strlit("t* is trusting ");
    reveal_strlit("p* is alllowing people to trust them");
    reveal_strlit("j* went online");
    reveal_strlit("j* went offline");
    reveal_strlit("_* Error Parsing Text");
    lemma_strip_concat(p, t, '\r');
    lemma_strip_absent(p, '\r');
    lemma_strip_concat(p, strip(t, '\r'), '\n');
    lemma_strip_absent(p, '\n');
}

/// Whether `s` holds, in Base64, the 32 bytes of a public key.
pub open spec fn key_bytes_ok(s: Seq<char>) -> bool {
    base64_decode_spec(encode_utf8(s)) matches Some(b) && b.len() == 32
}

/// The 32 bytes of the public key that `s` holds in Base64.
pub fn decodeToPublicKeyBytes(s: String) -> (res: [u8; 32])
    requires
        key_bytes_ok(s@),
    ensures
        base64_decode_spec(encode_utf8(s@)) == Some(res@),
{
    match base64_decode(utf8_bytes(s.as_str())) {
        Some(b) => {
            let mut key = [0u8; 32];
            let mut i: usize = 0;
            while i < 32
                invariant
                    b@.len() == 32,
                    i <= 32,
                    forall|j: int| 0 <= j < i ==> key@[j] == b@[j],
                decreases 32 - i,
            {
                key[i] = b[i];
                i = i + 1;
            }
            assert(key@ =~= b@);
            key
        },
        None => {
            assert(false);
            [0u8; 32]
        },
    }
}

/// Whether the message sent by someone else, as `state` sees it, can be taken in: a public
/// key of 32 bytes, or a secure text that reads.
pub open spec fn handle_ok(m: MsgView, state: &Crypto) -> bool {
    sendable(m.from) != sendable(AddrView { name: state.name(), device_id: state.device_id() })
        ==> match m.content {
        ContentView::PublicKey(d) => key_bytes_ok(d),
        ContentView::SecureText(d) => decrypt_spec(state.people(), state.name(), m.from.name, d)
            is Some,
        _ => true,
    }
}

/// The message as shown once taken in: `None` for the client's own messages, a secure text
/// replaced by what it reads as.
pub open spec fn handled(m: MsgView, state: &Crypto) -> Option<MsgView> {
    if sendable(m.from) == sendable(AddrView { name: state.name(), device_id: state.device_id() }) {
        None
    } else {
        match m.content {
            ContentView::SecureText(d) => Some(
                MsgView {
                    from: m.from,
                    content: ContentView::SecureText(
                        decrypt_spec(state.people(), state.name(), m.from.name, d).unwrap(),
                    ),
                },
            ),
            _ => Some(m),
        }
    }
}

}
