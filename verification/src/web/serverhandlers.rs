//! The messages of the browser client: `*address*label*base64(body)*`, shown as HTML.
use vstd::prelude::*;
use crate::cli::encrypter::decrypt_spec;
use crate::cli::serverhandlers::{decodeToPublicKeyBytes, key_bytes_ok};
use crate::codec::{base64_decode, push_str, to_owned_string, utf8_bytes};
use crate::text::{lemma_strip_absent, remove_char, strip};
use crate::web::encrypter::{first_with_key, relation_text, Crypto};
use crate::web::key_bundle::WebBundleView;
use crate::wire::{
    from_wire, parse_wire, to_wire, transmittable, try_from_wire, wire, wire_ok, AddrView, Address,
    ContentView, MsgView,
};
pub use crate::wire::MsgContent;

verus! {

/// A message of the browser client.
pub struct ServerMsg {
    pub from: Address,
    pub content: MsgContent,
}

impl View for ServerMsg {
    type V = MsgView;

    open spec fn view(&self) -> MsgView {
        MsgView { from: self.from@, content: self.content@ }
    }
}

impl Clone for ServerMsg {
    fn clone(&self) -> (res: Self)
        ensures
            res@ == self@,
    {
        ServerMsg { from: self.from.clone(), content: self.content.clone() }
    }
}

/// Whether `a` and `b` are the same address.
pub fn same_address(a: &Address, b: &Address) -> (r: bool)
    ensures
        r == (a@ == b@),
{
    a.name == b.name && a.deviceId == b.deviceId
}

/// What a message shows and the label it shows under; `None` for a public key already known
/// or offered by the store itself, and for the store's own secure texts.
pub open spec fn web_shown(m: MsgView, c: &Crypto) -> Option<(Seq<char>, char)> {
    match m.content {
        ContentView::PublicKey(pk) => if first_with_key(c.bundles(), pk) is Some {
            None
        } else if m.from != c.own().address {
            Some(("is alllowing people to trust them"@, 'p'))
        } else {
            None
        },
        ContentView::SecureText(t) => if m.from == c.own().address {
            None
        } else {
            Some((decrypt_spec(c.people(), c.name(), m.from.name, t).unwrap(), 's'))
        },
        ContentView::InsecureText(t) => Some((t, 'i')),
        ContentView::Join(_) => Some(("went online"@, 'j')),
        ContentView::Leave(_) => Some(("went offline"@, 'l')),
        ContentView::Trust(a) => Some(
            (
                "is trusting <span class=\""@ + relation_text(c.secret_for(a)) + "\">"@ + a.name
                    + "</span>"@,
                't',
            ),
        ),
        ContentView::Blank => Some(("Error Parsing Text"@, '_')),
    }
}

/// Whether `display` shows the message without failing: a secure text from someone else
/// must read.
pub open spec fn web_display_ok(m: MsgView, c: &Crypto) -> bool {
    match m.content {
        ContentView::SecureText(t) => m.from != c.own().address ==> decrypt_spec(
            c.people(),
            c.name(),
            m.from.name,
            t,
        ) is Some,
        _ => true,
    }
}

/// The HTML that shows the message: `<span class="relation">(label) name</span> content`.
pub open spec fn web_display(m: MsgView, c: &Crypto) -> Option<Seq<char>> {
    match web_shown(m, c) {
        Some((content, label)) => Some(
            "<span class=\""@ + relation_text(c.secret_for(m.from)) + "\">("@ + seq![label] + ") "@
                + m.from.name + "</span> "@ + strip(content, '\r'),
        ),
        None => None,
    }
}

/// What `display` shows. Nothing only for a public key that is already known or that the
/// store offers itself, and for the store's own secure text; every other message is shown as
/// the sender's relation, `(label) name` and the content: a join as `(j)` and `went online`,
/// a leave as `(l)` and `went offline`, a plain text as `(i)` and the text itself, someone
/// else's secure text as `(s)` and what it reads as, a key offer as `(p)` and
/// `is alllowing people to trust them`, a blank message as `(_)` and `Error Parsing Text`.
pub proof fn lemma_web_display_shows(m: MsgView, c: &Crypto)
    ensures
        web_display(m, c) is None <==> ((m.content is PublicKey && (first_with_key(
            c.bundles(),
            m.content->PublicKey_0,
        ) is Some || m.from == c.own().address)) || (m.content is SecureText && m.from
            == c.own().address)),
        m.content is Join ==> web_display(m, c) == Some(
            "<span class=\""@ + relation_text(c.secret_for(m.from)) + "\">("@ + seq!['j'] + ") "@
                + m.from.name + "</span> "@ + "went online"@,
        ),
        m.content is Leave ==> web_display(m, c) == Some(
            "<span class=\""@ + relation_text(c.secret_for(m.from)) + "\">("@ + seq!['l'] + ") "@
                + m.from.name + "</span> "@ + "went offline"@,
        ),
        m.content matches ContentView::InsecureText(t) ==> web_display(m, c) == Some(
            "<span class=\""@ + relation_text(c.secret_for(m.from)) + "\">("@ + seq!['i'] + ") "@
                + m.from.name + "</span> "@ + strip(t, '\r'),
        ),
        m.content matches ContentView::SecureText(t) ==> m.from != c.own().address ==> web_display(
            m,
            c,
        ) == Some(
            "<span class=\""@ + relation_text(c.secret_for(m.from)) + "\">("@ + seq!['s'] + ") "@
                + m.from.name + "</span> "@ + strip(
                decrypt_spec(c.people(), c.name(), m.from.name, t).unwrap(),
                '\r',
            ),
        ),
        m.content is PublicKey && web_display(m, c) is Some ==> web_display(m, c) == Some(
            "<span class=\""@ + relation_text(c.secret_for(m.from)) + "\">("@ + seq!['p'] + ") "@
                + m.from.name + "</span> "@ + "is alllowing people to trust them"@,
        ),
        m.content is Blank ==> web_display(m, c) == Some(
            "<span class=\""@ + relation_text(c.secret_for(m.from)) + "\">("@ + seq!['_'] + ") "@
                + m.from.name + "</span> "@ + "Error Parsing Text"@,
        ),
{
    reveal_strlit("went online");
    reveal_strlit("went offline");
    reveal_strlit("is alllowing people to trust them");
    reveal_strlit("Error Parsing Text");
    lemma_strip_absent("went online"@, '\r');
    lemma_strip_absent("went offline"@, '\r');
    lemma_strip_absent("is alllowing people to trust them"@, '\r');
    lemma_strip_absent("Error Parsing Text"@, '\r');
}

/// Whether `handleSelf` takes the message in without failing: a public key from someone
/// else must be 32 bytes of Base64.
pub open spec fn web_handle_ok(m: MsgView, c: &Crypto) -> bool {
    m.from != c.own().address && m.content is PublicKey ==> key_bytes_ok(m.content->PublicKey_0)
}

fn label_string(c: char) -> (res: String)
    ensures
        res@ == seq![c],
{
    let mut s = String::new();
    crate::codec::push_char(&mut s, c);
    s
}

impl ServerMsg {
    pub fn new(from: &Address, content: MsgContent) -> (res: ServerMsg)
        ensures
            res@ == (MsgView { from: from@, content: content@ }),
    {
        ServerMsg { from: from.clone(), content }
    }

    /// Reads a message that arrived from the server.
    pub fn fromServer(txt: &str) -> (res: ServerMsg)
        requires
            wire_ok(txt@),
        ensures
            res@ == parse_wire(txt@),
    {
        let (from, content) = from_wire(txt);
        ServerMsg { from, content }
    }

    /// Reads a message from the server, or `None` where `fromServer` could not.
    pub fn try_fromServer(txt: &str) -> (res: Option<ServerMsg>)
        ensures
            res is Some <==> wire_ok(txt@),
            res matches Some(m) ==> m@ == parse_wire(txt@),
    {
        match try_from_wire(txt) {
            Some(_) => Some(ServerMsg::fromServer(txt)),
            None => None,
        }
    }

    /// `*address*label*base64(body)*`; `fromServer` reads a transmittable message back.
    pub fn toString(&self) -> (res: String)
        ensures
            res@ == wire(self@),
            transmittable(self@) ==> wire_ok(res@) && parse_wire(res@) == self@,
    {
        to_wire(&self.from, &self.content)
    }

    /// The text to send: `toString`.
    pub fn toWritable(self) -> (res: String)
        ensures
            res@ == wire(self@),
            transmittable(self@) ==> wire_ok(res@) && parse_wire(res@) == self@,
    {
        self.toString()
    }

    /// The HTML line that shows the message, or `None` where nothing is shown.
    pub fn display(&self, state: &Crypto) -> (res: Option<String>)
        requires
            web_display_ok(self@, state),
        ensures
            match res {
                Some(h) => web_display(self@, state) == Some(h@),
                None => web_display(self@, state) is None,
            },
    {
        let own = state.addr();
        let msg_data: Option<(String, char)> = match &self.content {
            MsgContent::PublicKey(pub_key) => {
                if state.person_from_pub_key(pub_key.as_str()).is_some() {
                    None
                } else if !same_address(&self.from, &own) {
                    Some((to_owned_string("is alllowing people to trust them"), 'p'))
                } else {
                    None
                }
            },
            MsgContent::SecureText(txt) => {
                if same_address(&self.from, &own) {
                    None
                } else {
                    Some((state.decrypt(&self.from, txt.clone()), 's'))
                }
            },
            MsgContent::InsecureText(txt) => Some((txt.clone(), 'i')),
            MsgContent::Join(_) => Some((to_owned_string("went online"), 'j')),
            MsgContent::Leave(_) => Some((to_owned_string("went offline"), 'l')),
            MsgContent::Trust(addr) => {
                let relation = state.relation(addr);
                let mut t = to_owned_string("is trusting <span class=\"");
                push_str(&mut t, relation.as_str());
                push_str(&mut t, "\">");
                push_str(&mut t, addr.name.as_str());
                push_str(&mut t, "</span>");
                Some((t, 't'))
            },
            MsgContent::Blank() => Some((to_owned_string("Error Parsing Text"), '_')),
        };
        match msg_data {
            Some((content, label)) => {
                let relation = state.relation(&self.from);
                let mut h = to_owned_string("<span class=\"");
                push_str(&mut h, relation.as_str());
                push_str(&mut h, "\">(");
                let l = label_string(label);
                push_str(&mut h, l.as_str());
                push_str(&mut h, ") ");
                push_str(&mut h, self.from.name.as_str());
                push_str(&mut h, "</span> ");
                let clean = remove_char(content.as_str(), '\r');
                push_str(&mut h, clean.as_str());
                Some(h)
            },
            None => None,
        }
    }

    /// `display`, or `None` where it would fail.
    pub fn try_display(&self, state: &Crypto) -> (res: Option<Option<String>>)
        ensures
            res is Some <==> web_display_ok(self@, state),
            res matches Some(r) ==> match r {
                Some(h) => web_display(self@, state) == Some(h@),
                None => web_display(self@, state) is None,
            },
    {
        if let MsgContent::SecureText(txt) = &self.content {
            let own = state.addr();
            if !same_address(&self.from, &own) && state.try_decrypt(&self.from, txt.clone()).is_none() {
                return None;
            }
        }
        Some(self.display(state))
    }

    /// Takes in a message from someone else: a public key is remembered.
    pub fn handleSelf(&self, state: &mut Crypto)
        requires
            web_handle_ok(self@, old(state)),
        ensures
            if self@.from != old(state).own().address && self@.content is PublicKey {
                final(state).bundles() == old(state).bundles().push(
                    WebBundleView {
                        public_key: crate::codec::base64_decode_spec(
                            vstd::utf8::encode_utf8(self@.content->PublicKey_0),
                        ).unwrap(),
                        secret: crate::web::key_bundle::SecretView::Empty,
                        address: self@.from,
                    },
                )
            } else {
                final(state).bundles() == old(state).bundles()
            },
            final(state).own() == old(state).own(),
            final(state).encrypting() == old(state).encrypting(),
            old(state).wf() ==> final(state).wf(),
    {
        let own = state.addr();
        if !same_address(&self.from, &own) {
            if let MsgContent::PublicKey(data) = &self.content {
                state.add_public_key(self.from.clone(), decodeToPublicKeyBytes(data.clone()));
            }
        }
    }

    /// `handleSelf`, or `false`, changing nothing, where it would fail.
    pub fn try_handleSelf(&self, state: &mut Crypto) -> (res: bool)
        ensures
            res == web_handle_ok(self@, old(state)),
            !res ==> *final(state) == *old(state),
            res ==> if self@.from != old(state).own().address && self@.content is PublicKey {
                final(state).bundles() == old(state).bundles().push(
                    WebBundleView {
                        public_key: crate::codec::base64_decode_spec(
                            vstd::utf8::encode_utf8(self@.content->PublicKey_0),
                        ).unwrap(),
                        secret: crate::web::key_bundle::SecretView::Empty,
                        address: self@.from,
                    },
                )
            } else {
                final(state).bundles() == old(state).bundles()
            },
            old(state).wf() ==> final(state).wf(),
    {
        let own = state.addr();
        if !same_address(&self.from, &own) {
            if let MsgContent::PublicKey(data) = &self.content {
                match base64_decode(utf8_bytes(data.as_str())) {
                    Some(b) => {
                        if b.len() != 32 {
                            return false;
                        }
                    },
                    None => {
                        return false;
                    },
                }
            }
        }
        self.handleSelf(state);
        true
    }
}

} // verus!
