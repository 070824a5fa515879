//! What the browser client does on each event of its page: the page hands over the event's
//! name and value, and gets back the message to send and the line to show.
use vstd::prelude::*;
use vstd::utf8::*;
use crate::cli::encrypter::{any_trusting, encrypt_spec, first_named};
use crate::codec::{base64_encode_spec, push_char, to_owned_string};
use crate::crypto::{aes_plaintext_ok, x25519_shared};
use crate::text::{str_chars, str_equal};
use crate::web::encrypter::Crypto;
use crate::web::key_bundle::{SecretView, WebBundleView};
use crate::web::serverhandlers::{web_display, web_display_ok, web_handle_ok, ServerMsg};
use crate::wire::{parse_wire, wire, wire_ok, ContentView, MsgContent, MsgView};

verus! {

/// What handling an event gives: the text to send to the server, the line to show, and the
/// name of its sender.
pub struct EventReply {
    pub send: Option<String>,
    pub show: Option<String>,
    pub sender: Option<String>,
}

/// The text that an optional string holds.
pub open spec fn opt_text(o: Option<String>) -> Option<Seq<char>> {
    match o {
        Some(s) => Some(s@),
        None => None,
    }
}

/// The part of `s` before the first `c`, all of it if there is none.
pub open spec fn before_char(s: Seq<char>, c: char) -> Seq<char>
    decreases s.len(),
{
    if s.len() == 0 {
        s
    } else if s[0] == c {
        Seq::empty()
    } else {
        seq![s[0]] + before_char(s.drop_first(), c)
    }
}

proof fn lemma_before_char_step(s: Seq<char>, c: char, i: int)
    requires
        0 <= i < s.len(),
        forall|j: int| 0 <= j < i ==> s[j] != c,
        s[i] != c,
    ensures
        before_char(s.subrange(i, s.len() as int), c) == seq![s[i]] + before_char(
            s.subrange(i + 1, s.len() as int),
            c,
        ),
{
    assert(s.subrange(i, s.len() as int).drop_first() =~= s.subrange(i + 1, s.len() as int));
}

/// The kind of an event: its name up to the first `-`.
pub fn event_kind(event_name: &str) -> (res: String)
    ensures
        res@ == before_char(event_name@, '-'),
{
    let chars = str_chars(event_name);
    let mut out = String::new();
    let mut i: usize = 0;
    assert(chars@.subrange(0, chars@.len() as int) =~= chars@);
    while i < chars.len() && chars[i] != '-'
        invariant
            i <= chars@.len(),
            chars@ == event_name@,
            forall|j: int| 0 <= j < i ==> chars@[j] != '-',
            before_char(event_name@, '-') == out@ + before_char(
                chars@.subrange(i as int, chars@.len() as int),
                '-',
            ),
        decreases chars@.len() - i,
    {
        proof {
            lemma_before_char_step(chars@, '-', i as int);
        }
        push_char(&mut out, chars[i]);
        i = i + 1;
    }
    if i < chars.len() {
        assert(chars@.subrange(i as int, chars@.len() as int)[0] == '-');
    } else {
        assert(chars@.subrange(i as int, chars@.len() as int).len() == 0);
    }
    out
}

/// The kinds of events are distinct.
proof fn lemma_event_kinds_distinct()
    ensures
        "msg"@ != "msgInput"@,
        "msg"@ != "groupInput"@,
        "msg"@ != "isEncrypting"@,
        "msg"@ != "allowTrust"@,
        "msg"@ != "clickName"@,
        "msgInput"@ != "groupInput"@,
        "msgInput"@ != "isEncrypting"@,
        "msgInput"@ != "allowTrust"@,
        "msgInput"@ != "clickName"@,
        "groupInput"@ != "isEncrypting"@,
        "groupInput"@ != "allowTrust"@,
        "groupInput"@ != "clickName"@,
        "isEncrypting"@ != "allowTrust"@,
        "isEncrypting"@ != "clickName"@,
        "allowTrust"@ != "clickName"@,
{
    reveal_strlit("msg");
    reveal_strlit("msgInput");
    reveal_strlit("groupInput");
    reveal_strlit("isEncrypting");
    reveal_strlit("allowTrust");
    reveal_strlit("clickName");
    assert("groupInput"@[0] != "allowTrust"@[0]);
    assert("msg"@.len() == 3);
    assert("msgInput"@.len() == 8);
    assert("groupInput"@.len() == 10);
    assert("isEncrypting"@.len() == 12);
    assert("allowTrust"@.len() == 10);
    assert("clickName"@.len() == 9);
}

/// What the page's events ask of the store, where `handleEvent` does not fail: a message
/// from the server must read, its public key if any must be 32 bytes of Base64, and its
/// secure text must read; a text to seal must fit AES-GCM.
pub open spec fn event_ok(state: &Crypto, event_name: Seq<char>, value: Seq<char>) -> bool {
    let k = before_char(event_name, '-');
    &&& k == "msg"@ ==> {
        &&& wire_ok(value)
        &&& web_handle_ok(parse_wire(value), state)
        &&& web_display_ok(parse_wire(value), state)
    }
    &&& k == "msgInput"@ && state.encrypting() && any_trusting(state.people()) ==> aes_plaintext_ok(
        encode_utf8(value).len(),
    )
}

/// What handling the event `event_name` with `value` gives and does to the store.
pub open spec fn event_done(old: &Crypto, new: &Crypto, event_name: Seq<char>, value: Seq<char>, res: EventReply) -> bool {
    let k = before_char(event_name, '-');
    let own = old.own().address;
    if k == "msg"@ {
        let m = parse_wire(value);
        &&& new.own() == old.own()
        &&& new.encrypting() == old.encrypting()
        &&& if m.from != own && m.content is PublicKey {
            new.bundles() == old.bundles().push(
                WebBundleView {
                    public_key: crate::codec::base64_decode_spec(
                        encode_utf8(m.content->PublicKey_0),
                    ).unwrap(),
                    secret: SecretView::Empty,
                    address: m.from,
                },
            )
        } else {
            new.bundles() == old.bundles()
        }
        &&& res.send is None
        &&& opt_text(res.show) == web_display(m, new)
        &&& opt_text(res.sender) == Some(m.from.name)
    } else if k == "clickName"@ {
        &&& new.own() == old.own()
        &&& new.encrypting() == old.encrypting()
        &&& res.show is None && res.sender is None
        &&& match first_named(old.people(), value) {
            None => res.send is None && new.bundles() == old.bundles(),
            Some(i) => {
                &&& opt_text(res.send) == Some(
                    wire(
                        MsgView {
                            from: own,
                            content: ContentView::Trust(old.bundles()[i].address),
                        },
                    ),
                )
                &&& new.bundles() == old.bundles().update(
                    i,
                    WebBundleView {
                        secret: SecretView::Shared(
                            x25519_shared(old.own_secret(), old.bundles()[i].public_key),
                        ),
                        ..old.bundles()[i]
                    },
                )
            },
        }
    } else {
        &&& new.own() == old.own()
        &&& new.bundles() == old.bundles()
        &&& res.show is None && res.sender is None
        &&& if k == "isEncrypting"@ {
            new.encrypting() == (value == "true"@) && res.send is None
        } else {
            &&& new.encrypting() == old.encrypting()
            &&& if k == "msgInput"@ {
                opt_text(res.send) == Some(
                    wire(
                        MsgView {
                            from: own,
                            content: if old.encrypting() {
                                ContentView::SecureText(encrypt_spec(old.people(), value))
                            } else {
                                ContentView::InsecureText(value)
                            },
                        },
                    ),
                )
            } else if k == "groupInput"@ {
                opt_text(res.send) == Some(wire(MsgView { from: own, content: ContentView::Join(value) }))
            } else if k == "allowTrust"@ {
                opt_text(res.send) == Some(
                    wire(
                        MsgView {
                            from: own,
                            content: ContentView::PublicKey(base64_encode_spec(old.own().public_key)),
                        },
                    ),
                )
            } else {
                res.send is None
            }
        }
    }
}

/// Handles an event of the page: `msg` takes in and shows a message from the server;
/// `msgInput` sends the text typed, sealed when secure texts are on; `groupInput` joins a
/// group; `isEncrypting` switches secure texts; `allowTrust` offers the public key;
/// `clickName` trusts the person clicked on. Any other event does nothing.
pub fn handleEvent(state: &mut Crypto, event_name: &str, value: &str) -> (res: EventReply)
    requires
        old(state).wf(),
        event_ok(old(state), event_name@, value@),
    ensures
        final(state).wf(),
        event_done(old(state), final(state), event_name@, value@, res),
{
    proof {
        lemma_event_kinds_distinct();
    }
    let kind = event_kind(event_name);
    let k = kind.as_str();
    if str_equal(k, "msg") {
        let msg = ServerMsg::fromServer(value);
        msg.handleSelf(state);
        assert(state.people() == old(state).people() || !(msg@.content is SecureText));
        let shown = msg.display(state);
        let sender = msg.from.name.clone();
        EventReply { send: None, show: shown, sender: Some(sender) }
    } else if str_equal(k, "msgInput") {
        let text = to_owned_string(value);
        let content = if state.encrypting_now() {
            MsgContent::SecureText(state.encrypt(text))
        } else {
            MsgContent::InsecureText(text)
        };
        let msg = ServerMsg::new(&state.addr(), content);
        EventReply { send: Some(msg.toWritable()), show: None, sender: None }
    } else if str_equal(k, "groupInput") {
        let content = MsgContent::Join(to_owned_string(value));
        let msg = ServerMsg::new(&state.addr(), content);
        EventReply { send: Some(msg.toWritable()), show: None, sender: None }
    } else if str_equal(k, "isEncrypting") {
        state.set_encrypting(str_equal(value, "true"));
        EventReply { send: None, show: None, sender: None }
    } else if str_equal(k, "allowTrust") {
        let content = MsgContent::PublicKey(state.public_key());
        let msg = ServerMsg::new(&state.addr(), content);
        EventReply { send: Some(msg.toWritable()), show: None, sender: None }
    } else if str_equal(k, "clickName") {
        let addr = state.addr();
        match state.trust(to_owned_string(value)) {
            Some(forein) => {
                let msg = ServerMsg::new(&addr, MsgContent::Trust(forein));
                EventReply { send: Some(msg.toWritable()), show: None, sender: None }
            },
            None => EventReply { send: None, show: None, sender: None },
        }
    } else {
        EventReply { send: None, show: None, sender: None }
    }
}

/// `handleEvent`, or `None`, changing nothing, where it would fail.
pub fn try_handleEvent(state: &mut Crypto, event_name: &str, value: &str) -> (res: Option<EventReply>)
    requires
        old(state).wf(),
    ensures
        final(state).wf(),
        res is Some <==> event_ok(old(state), event_name@, value@),
        res is None ==> *final(state) == *old(state),
        res matches Some(r) ==> event_done(old(state), final(state), event_name@, value@, r),
{
    proof {
        lemma_event_kinds_distinct();
    }
    let kind = event_kind(event_name);
    let k = kind.as_str();
    if str_equal(k, "msg") {
        match ServerMsg::try_fromServer(value) {
            None => {
                return None;
            },
            Some(msg) => {
                let own = state.addr();
                let other = !crate::web::serverhandlers::same_address(&msg.from, &own);
                match &msg.content {
                    MsgContent::PublicKey(data) => {
                        if other {
                            match crate::codec::base64_decode(crate::codec::utf8_bytes(data.as_str())) {
                                Some(b) => {
                                    if b.len() != 32 {
                                        return None;
                                    }
                                },
                                None => {
                                    return None;
                                },
                            }
                        }
                    },
                    MsgContent::SecureText(txt) => {
                        if other && state.try_decrypt(&msg.from, txt.clone()).is_none() {
                            return None;
                        }
                    },
                    _ => {},
                }
            },
        }
    } else if str_equal(k, "msgInput") {
        if state.encrypting_now() && state.any_trusted() {
            let n = crate::codec::utf8_bytes(value).len() as u64;
            if !(n <= crate::crypto::AES_GCM_P_MAX && n <= (isize::MAX as u64) - 16) {
                return None;
            }
        }
    }
    Some(handleEvent(state, event_name, value))
}

} // verus!
