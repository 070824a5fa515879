//! Another form of the browser client's messages, shown with the sender framed by stars.
use vstd::prelude::*;
use crate::cli::encrypter::decrypt_spec;
use crate::cli::serverhandlers::decodeToPublicKeyBytes;
use crate::codec::{base64_decode, push_str, to_owned_string, utf8_bytes};
use crate::text::{lemma_strip_absent, lemma_strip_concat, remove_char, strip};
use crate::web::encrypter::{relation_text, Crypto};
use crate::web::key_bundle::{SecretView, WebBundleView};
use crate::web::serverhandlers::{same_address, web_handle_ok};
use crate::wire::{
    from_wire, parse_wire, to_wire, transmittable, try_from_wire, wire, wire_ok, Address,
    ContentView, MsgView,
};
pub use crate::wire::MsgContent;

verus! {

/// A message of the browser client.
pub struct YakMsg {
    pub from: Address,
    pub content: MsgContent,
}

impl View for YakMsg {
    type V = MsgView;

    open spec fn view(&self) -> MsgView {
        MsgView { from: self.from@, content: self.content@ }
    }
}

impl Clone for YakMsg {
    fn clone(&self) -> (res: Self)
        ensures
            res@ == self@,
    {
        YakMsg { from: self.from.clone(), content: self.content.clone() }
    }
}

/// What a message shows and the label it shows under.
pub open spec fn yak_shown(m: MsgView, c: &Crypto) -> (Seq<char>, char) {
    match m.content {
        ContentView::PublicKey(_) => ("is alllowing people to trust them"@, 'p'),
        ContentView::SecureText(t) => (decrypt_spec(c.people(), c.name(), m.from.name, t).unwrap(), 's'),
        ContentView::InsecureText(t) => (t, 'i'),
        ContentView::Join(_) => ("went online"@, 'j'),
        ContentView::Leave(_) => ("went offline"@, 'l'),
        ContentView::Trust(a) => ("is trusting "@ + a.name, 't'),
        ContentView::Blank => ("Error Parsing Text"@, '_'),
    }
}

/// Whether `display` shows the message without failing: a secure text must read.
pub open spec fn yak_display_ok(m: MsgView, c: &Crypto) -> bool {
    match m.content {
        ContentView::SecureText(t) => decrypt_spec(c.people(), c.name(), m.from.name, t) is Some,
        _ => true,
    }
}

/// The HTML that shows the message: `<span class="relation">*name*\label</span> content`.
pub open spec fn yak_display(m: MsgView, c: &Crypto) -> Seq<char> {
    "<span class=\""@ + relation_text(c.secret_for(m.from)) + "\">*"@ + m.from.name + "*\\"@
        + seq![yak_shown(m, c).1] + "</span> "@ + strip(yak_shown(m, c).0, '\r')
}

/// Every message is shown as the sender's relation, `*name*\\`, a label of its own kind and
/// its content: a plain text as `i` and the text itself, `\r` removed; a secure text as `s`
/// and what it reads as; a join as `j` and `went online`; a leave as `l` and `went offline`;
/// a key offer as `p` and `is alllowing people to trust them`; a trust as `t`, `is trusting `
/// and the trusted name; a blank message as `_` and `Error Parsing Text`.
pub proof fn lemma_yak_display_kinds(m: MsgView, c: &Crypto)
    ensures
        m.content matches ContentView::InsecureText(t) ==> yak_display(m, c) == "<span class=\""@
            + relation_text(c.secret_for(m.from)) + "\">*"@ + m.from.name + "*\\"@ + seq!['i']
            + "</span> "@ + strip(t, '\r'),
        m.content matches ContentView::SecureText(t) ==> yak_display(m, c) == "<span class=\""@
            + relation_text(c.secret_for(m.from)) + "\">*"@ + m.from.name + "*\\"@ + seq!['s']
            + "</span> "@ + strip(decrypt_spec(c.people(), c.name(), m.from.name, t).unwrap(), '\r'),
        m.content is Join ==> yak_display(m, c) == "<span class=\""@ + relation_text(
            c.secret_for(m.from),
        ) + "\">*"@ + m.from.name + "*\\"@ + seq!['j'] + "</span> "@ + "went online"@,
        m.content is Leave ==> yak_display(m, c) == "<span class=\""@ + relation_text(
            c.secret_for(m.from),
        ) + "\">*"@ + m.from.name + "*\\"@ + seq!['l'] + "</span> "@ + "went offline"@,
        m.content is PublicKey ==> yak_display(m, c) == "<span class=\""@ + relation_text(
            c.secret_for(m.from),
        ) + "\">*"@ + m.from.name + "*\\"@ + seq!['p'] + "</span> "@
            + "is alllowing people to trust them"@,
        m.content matches ContentView::Trust(a) ==> yak_display(m, c) == "<span class=\""@
            + relation_text(c.secret_for(m.from)) + "\">*"@ + m.from.name + "*\\"@ + seq!['t']
            + "</span> "@ + "is trusting "@ + strip(a.name, '\r'),
        m.content is Blank ==> yak_display(m, c) == "<span class=\""@ + relation_text(
            c.secret_for(m.from),
        ) + "\">*"@ + m.from.name + "*\\"@ + seq!['_'] + "</span> "@ + "Error Parsing Text"@,
{
    reveal_strlit("went online");
    reveal_strlit("went offline");
    reveal_strlit("is alllowing people to trust them");
    reveal_strlit("Error Parsing Text");
    reveal_strlit("is trusting ");
    lemma_strip_absent("went online"@, '\r');
    lemma_strip_absent("went offline"@, '\r');
    lemma_strip_absent("is alllowing people to trust them"@, '\r');
    lemma_strip_absent("Error Parsing Text"@, '\r');
    lemma_strip_absent("is trusting "@, '\r');
    if let ContentView::Trust(a) = m.content {
        lemma_strip_concat("is trusting "@, a.name, '\r');
        let pre = "<span class=\""@ + relation_text(c.secret_for(m.from)) + "\">*"@ + m.from.name
            + "*\\"@ + seq!['t'] + "</span> "@;
        assert(pre + ("is trusting "@ + strip(a.name, '\r')) =~= pre + "is trusting "@ + strip(
            a.name,
            '\r',
        ));
    }
}

impl YakMsg {
    pub fn new(from: &Address, content: MsgContent) -> (res: YakMsg)
        ensures
            res@ == (MsgView { from: from@, content: content@ }),
    {
        YakMsg { from: from.clone(), content }
    }

    /// Reads a message that arrived from the server.
    pub fn fromServer(txt: &str) -> (res: YakMsg)
        requires
            wire_ok(txt@),
        ensures
            res@ == parse_wire(txt@),
    {
        let (from, content) = from_wire(txt);
        YakMsg { from, content }
    }

    /// Reads a message from the server, or `None` where `fromServer` could not.
    pub fn try_fromServer(txt: &str) -> (res: Option<YakMsg>)
        ensures
            res is Some <==> wire_ok(txt@),
            res matches Some(m) ==> m@ == parse_wire(txt@),
    {
        match try_from_wire(txt) {
            Some(_) => Some(YakMsg::fromServer(txt)),
            None => None,
        }
    }

    /// `*address*label*base64(body)*`; `fromServer` reads a transmittable message back.
    pub fn toString(&self) -> (res: String)
        ensures
            res@ == wire(self@),
            transmittable(self@) ==> wire_ok(res@) && parse_wire(res@) == self@,
    {
        to_wire(&self.from, &self.content)
    }

    /// The text to send: `toString`.
    pub fn toWritable(self) -> (res: String)
        ensures
            res@ == wire(self@),
            transmittable(self@) ==> wire_ok(res@) && parse_wire(res@) == self@,
    {
        self.toString()
    }

    /// The HTML line that shows the message.
    pub fn display(&self, state: &Crypto) -> (res: String)
        requires
            yak_display_ok(self@, state),
        ensures
            res@ == yak_display(self@, state),
    {
        let (content, label): (String, char) = match &self.content {
            MsgContent::PublicKey(_) => (to_owned_string("is alllowing people to trust them"), 'p'),
            MsgContent::SecureText(txt) => (state.decrypt(&self.from, txt.clone()), 's'),
            MsgContent::InsecureText(txt) => (txt.clone(), 'i'),
            MsgContent::Join(_) => (to_owned_string("went online"), 'j'),
            MsgContent::Leave(_) => (to_owned_string("went offline"), 'l'),
            MsgContent::Trust(addr) => {
                let mut t = to_owned_string("is trusting ");
                push_str(&mut t, addr.name.as_str());
                (t, 't')
            },
            MsgContent::Blank() => (to_owned_string("Error Parsing Text"), '_'),
        };
        let relation = state.relation(&self.from);
        let mut h = to_owned_string("<span class=\"");
        push_str(&mut h, relation.as_str());
        push_str(&mut h, "\">*");
        push_str(&mut h, self.from.name.as_str());
        push_str(&mut h, "*\\");
        let mut l = String::new();
        crate::codec::push_char(&mut l, label);
        push_str(&mut h, l.as_str());
        push_str(&mut h, "</span> ");
        let clean = remove_char(content.as_str(), '\r');
        push_str(&mut h, clean.as_str());
        h
    }

    /// `display`, or `None` where it would fail.
    pub fn try_display(&self, state: &Crypto) -> (res: Option<String>)
        ensures
            res is Some <==> yak_display_ok(self@, state),
            res matches Some(h) ==> h@ == yak_display(self@, state),
    {
        if let MsgContent::SecureText(txt) = &self.content {
            if state.try_decrypt(&self.from, txt.clone()).is_none() {
                return None;
            }
        }
        Some(self.display(state))
    }

    /// Takes in a message from someone else: a public key is remembered.
    pub fn handleSelf(&self, state: &mut Crypto)
        requires
            web_handle_ok(self@, old(state)),
        ensures
            if self@.from != old(state).own().address && self@.content is PublicKey {
                final(state).bundles() == old(state).bundles().push(
                    WebBundleView {
                        public_key: crate::codec::base64_decode_spec(
                            vstd::utf8::encode_utf8(self@.content->PublicKey_0),
                        ).unwrap(),
                        secret: SecretView::Empty,
                        address: self@.from,
                    },
                )
            } else {
                final(state).bundles() == old(state).bundles()
            },
            final(state).own() == old(state).own(),
            final(state).encrypting() == old(state).encrypting(),
            old(state).wf() ==> final(state).wf(),
    {
        let own = state.addr();
        if !same_address(&self.from, &own) {
            if let MsgContent::PublicKey(data) = &self.content {
                state.add_public_key(self.from.clone(), decodeToPublicKeyBytes(data.clone()));
            }
        }
    }

    /// `handleSelf`, or `false`, changing nothing, where it would fail.
    pub fn try_handleSelf(&self, state: &mut Crypto) -> (res: bool)
        ensures
            res == web_handle_ok(self@, old(state)),
            !res ==> *final(state) == *old(state),
            old(state).wf() ==> final(state).wf(),
    {
        let own = state.addr();
        if !same_address(&self.from, &own) {
            if let MsgContent::PublicKey(data) = &self.content {
                match base64_decode(utf8_bytes(data.as_str())) {
                    Some(b) => {
                        if b.len() != 32 {
                            return false;
                        }
                    },
                    None => {
                        return false;
                    },
                }
            }
        }
        self.handleSelf(state);
        true
    }
}

} // verus!
