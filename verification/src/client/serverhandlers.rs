//! The messages of the signed protocol: `*address*label*base64(body)*time*signature*`.
use vstd::prelude::*;
use vstd::utf8::*;
use crate::cli::serverhandlers::{decodeToPublicKeyBytes, key_bytes_ok};
use crate::client::store::{
    added_key, decrypt_ok, encrypted_msg_spec, first_agent_with_key, plan_for, plan_id,
    ratchets_after, relation_word, time_inserted, Crypto,
};
use crate::client::utils::{
    decode_base64, encoded_bytes, key_from_sendable, key_sendable, key_sendable_ok,
    lemma_key_sendable_roundtrip,
    try_key_from_sendable, verify_ok, verify_spec, Address, KeyAddrView,
};
use crate::clock::{datetime_text, datetime_text_spec, now_millis, now_seconds};
use crate::crypto::{k256_sign, k256_sign_spec, k256_verify_spec};
use crate::codec::{
    all_base64, base64_decode, base64_decode_spec, base64_encode_spec, dec_int, dec_nat,
    decode_base64_spec, is_base64_char, is_digit, lemma_dec_nat, lemma_parse_dec,
    encode_base64_bytes, encode_base64_str, encode_base64_text, i64_to_decimal, parse_i64,
    parse_num_spec, push_str, str_from_utf8, to_owned_string, try_decode_base64, usize_to_decimal,
    utf8_bytes, vec_bytes,
};
use crate::wire::encoded_text;
use crate::text::{
    is_ws, join, join_prefix, lemma_split_and_clean_framed, lemma_strip_absent, plain_piece,
    plain_pieces, remove_char,
    split_and_clean, split_and_clean_spec, str_equal, strip, views,
};

verus! {

/// Which message of which ratchet a secure text is: the link, the address of the other side,
/// and whether this side sent it.
pub struct SecureMsgIdentifier {
    pub ord: usize,
    pub address: Address,
    pub is_sender: bool,
}

/// A message identifier as a mathematical value.
pub struct MsgIdView {
    pub ord: usize,
    pub address: KeyAddrView,
    pub is_sender: bool,
}

impl View for SecureMsgIdentifier {
    type V = MsgIdView;

    open spec fn view(&self) -> MsgIdView {
        MsgIdView { ord: self.ord, address: self.address@, is_sender: self.is_sender }
    }
}

impl Clone for SecureMsgIdentifier {
    fn clone(&self) -> (res: Self)
        ensures
            res@ == self@,
    {
        SecureMsgIdentifier { ord: self.ord, address: self.address.clone(), is_sender: self.is_sender }
    }
}

/// What a message of the signed protocol says.
pub enum MsgContent {
    InsecureText(String),
    SecureText(Vec<SecureMsgIdentifier>),
    Join(String),
    PublicKey(String),
    Leave(String),
    Trust(Address),
    Blank(),
}

/// The content of a message as a mathematical value.
pub enum SignedContentView {
    InsecureText(Seq<char>),
    SecureText(Seq<MsgIdView>),
    Join(Seq<char>),
    PublicKey(Seq<char>),
    Leave(Seq<char>),
    Trust(KeyAddrView),
    Blank,
}

/// The views of the identifiers `ids`.
pub open spec fn id_views(ids: Seq<SecureMsgIdentifier>) -> Seq<MsgIdView> {
    Seq::new(ids.len(), |i: int| ids[i]@)
}

impl View for MsgContent {
    type V = SignedContentView;

    open spec fn view(&self) -> SignedContentView {
        match self {
            MsgContent::InsecureText(t) => SignedContentView::InsecureText(t@),
            MsgContent::SecureText(ids) => SignedContentView::SecureText(id_views(ids@)),
            MsgContent::Join(t) => SignedContentView::Join(t@),
            MsgContent::PublicKey(t) => SignedContentView::PublicKey(t@),
            MsgContent::Leave(t) => SignedContentView::Leave(t@),
            MsgContent::Trust(a) => SignedContentView::Trust(a@),
            MsgContent::Blank() => SignedContentView::Blank,
        }
    }
}

/// Copies of the identifiers `ids`.
pub fn clone_ids(ids: &Vec<SecureMsgIdentifier>) -> (res: Vec<SecureMsgIdentifier>)
    ensures
        id_views(res@) == id_views(ids@),
{
    let mut out: Vec<SecureMsgIdentifier> = Vec::new();
    let mut i: usize = 0;
    while i < ids.len()
        invariant
            i <= ids@.len(),
            out@.len() == i,
            forall|j: int| 0 <= j < i ==> (#[trigger] out@[j])@ == ids@[j]@,
        decreases ids@.len() - i,
    {
        out.push(ids[i].clone());
        i = i + 1;
    }
    assert(id_views(out@) =~= id_views(ids@));
    out
}

impl Clone for MsgContent {
    fn clone(&self) -> (res: Self)
        ensures
            res@ == self@,
    {
        match self {
            MsgContent::InsecureText(t) => MsgContent::InsecureText(t.clone()),
            MsgContent::SecureText(ids) => MsgContent::SecureText(clone_ids(ids)),
            MsgContent::Join(t) => MsgContent::Join(t.clone()),
            MsgContent::PublicKey(t) => MsgContent::PublicKey(t.clone()),
            MsgContent::Leave(t) => MsgContent::Leave(t.clone()),
            MsgContent::Trust(a) => MsgContent::Trust(a.clone()),
            MsgContent::Blank() => MsgContent::Blank(),
        }
    }
}

/// A signed message as a mathematical value.
pub struct SignedMsgView {
    pub from: KeyAddrView,
    pub content: SignedContentView,
    pub time_stamp: i64,
}

/// A message of the signed protocol, with the time it was written, in milliseconds.
pub struct ServerMsg {
    pub from: Address,
    pub content: MsgContent,
    pub time_stamp: i64,
}

impl View for ServerMsg {
    type V = SignedMsgView;

    open spec fn view(&self) -> SignedMsgView {
        SignedMsgView { from: self.from@, content: self.content@, time_stamp: self.time_stamp }
    }
}

impl Clone for ServerMsg {
    fn clone(&self) -> (res: Self)
        ensures
            res@ == self@,
    {
        ServerMsg { from: self.from.clone(), content: self.content.clone(), time_stamp: self.time_stamp }
    }
}

/// The labels of the signed protocol are distinct.
pub(crate) proof fn lemma_labels_distinct()
    ensures
        "i"@ != "s"@,
        "i"@ != "j"@,
        "i"@ != "p"@,
        "i"@ != "t"@,
        "i"@ != "l"@,
        "i"@ != "_"@,
        "s"@ != "j"@,
        "s"@ != "p"@,
        "s"@ != "t"@,
        "s"@ != "l"@,
        "s"@ != "_"@,
        "j"@ != "p"@,
        "j"@ != "t"@,
        "j"@ != "l"@,
        "j"@ != "_"@,
        "p"@ != "t"@,
        "p"@ != "l"@,
        "p"@ != "_"@,
        "t"@ != "l"@,
        "t"@ != "_"@,
        "l"@ != "_"@,
{
    reveal_strlit("i");
    reveal_strlit("s");
    reveal_strlit("j");
    reveal_strlit("p");
    reveal_strlit("t");
    reveal_strlit("l");
    reveal_strlit("_");
    assert("i"@[0] != "s"@[0]);
    assert("i"@[0] != "j"@[0]);
    assert("i"@[0] != "p"@[0]);
    assert("i"@[0] != "t"@[0]);
    assert("i"@[0] != "l"@[0]);
    assert("i"@[0] != "_"@[0]);
    assert("s"@[0] != "j"@[0]);
    assert("s"@[0] != "p"@[0]);
    assert("s"@[0] != "t"@[0]);
    assert("s"@[0] != "l"@[0]);
    assert("s"@[0] != "_"@[0]);
    assert("j"@[0] != "p"@[0]);
    assert("j"@[0] != "t"@[0]);
    assert("j"@[0] != "l"@[0]);
    assert("j"@[0] != "_"@[0]);
    assert("p"@[0] != "t"@[0]);
    assert("p"@[0] != "l"@[0]);
    assert("p"@[0] != "_"@[0]);
    assert("t"@[0] != "l"@[0]);
    assert("t"@[0] != "_"@[0]);
    assert("l"@[0] != "_"@[0]);
}

/// The fields of a signed message: `address*label*base64(body)*time*signature`.
pub open spec fn signed_fields(txt: Seq<char>) -> Seq<Seq<char>> {
    split_and_clean_spec(txt, '*')
}

/// The text that the signature of a message signs: its first four fields, framed by `*`.
pub open spec fn pre_signed_text(seg: Seq<Seq<char>>) -> Seq<char> {
    "*"@ + join(seg.take(4), '*') + "*"@
}

/// The content that the label `label` and the decoded body `data` stand for.
pub open spec fn signed_content(label: Seq<char>, data: Seq<char>, id: MsgIdView) -> SignedContentView {
    if label == "i"@ {
        SignedContentView::InsecureText(data)
    } else if label == "s"@ {
        SignedContentView::SecureText(seq![id])
    } else if label == "j"@ {
        SignedContentView::Join(data)
    } else if label == "p"@ {
        SignedContentView::PublicKey(data)
    } else if label == "t"@ {
        SignedContentView::Trust(key_from_sendable(data))
    } else if label == "l"@ {
        SignedContentView::Leave(data)
    } else {
        SignedContentView::Blank
    }
}

/// A signed message is read by its label: `p` a public key, `s` a secure text for the
/// identifier of the message, `i` a plain text, `j` a join, `l` a leave and `t` a trust,
/// each with the decoded body; any other label reads as a blank message.
pub proof fn lemma_signed_reading(label: Seq<char>, data: Seq<char>, id: MsgIdView)
    ensures
        label == "p"@ ==> signed_content(label, data, id) == SignedContentView::PublicKey(data),
        label == "s"@ ==> signed_content(label, data, id) == SignedContentView::SecureText(seq![id]),
        label == "i"@ ==> signed_content(label, data, id) == SignedContentView::InsecureText(data),
        label == "j"@ ==> signed_content(label, data, id) == SignedContentView::Join(data),
        label == "l"@ ==> signed_content(label, data, id) == SignedContentView::Leave(data),
        label == "t"@ ==> signed_content(label, data, id) == SignedContentView::Trust(
            key_from_sendable(data),
        ),
        label != "p"@ && label != "s"@ && label != "i"@ && label != "j"@ && label != "l"@ && label
            != "t"@ ==> signed_content(label, data, id) is Blank,
{
    lemma_labels_distinct();
}

/// Whether `from_server` reads `txt` into the store `c` without failing.
pub open spec fn from_server_ok(txt: Seq<char>, c: &Crypto) -> bool {
    let seg = signed_fields(txt);
    &&& seg.len() >= 2
    &&& !(seg.len() < 4 && seg[1] != "_"@) ==> {
        &&& seg.len() >= 5
        &&& decode_base64_spec(seg[2]) is Some
        &&& key_sendable_ok(seg[0])
        &&& verify_ok(key_from_sendable(seg[0]).public_key, seg[4], pre_signed_text(seg))
        &&& verify_spec(key_from_sendable(seg[0]).public_key, seg[4], pre_signed_text(seg)).unwrap()
            ==> {
            let from = key_from_sendable(seg[0]);
            let data = decode_base64_spec(seg[2]).unwrap();
            &&& seg[1] == "s"@ ==> decrypt_ok(c, from, data)
            &&& seg[1] == "p"@ && from != c.own().address ==> key_bytes_ok(data)
            &&& seg[1] == "t"@ ==> key_sendable_ok(data)
            &&& !(seg[1] == "s"@ && plan_for(c, from, data) is Nothing) ==> parse_num_spec(
                seg[3],
                true,
                i64::MIN as int,
                i64::MAX as int,
            ) is Some
        }
    }
}

/// Everything of the store is as it was.
pub open spec fn unchanged(old: &Crypto, new: &Crypto) -> bool {
    &&& new.own() == old.own()
    &&& new.proxy() == old.proxy()
    &&& new.agents() == old.agents()
    &&& new.msgs() == old.msgs()
    &&& new.encrypting() == old.encrypting()
}

/// What reading `txt` gives and does: nothing for a short text that is not blank, a
/// signature that does not verify, or a secure text with nothing for this store; else the
/// message, which the store keeps in time order, after taking in its key or reading its
/// secure text.
pub open spec fn received(old: &Crypto, new: &Crypto, txt: Seq<char>, res: Option<ServerMsg>) -> bool {
    let seg = signed_fields(txt);
    let from = key_from_sendable(seg[0]);
    let data = decode_base64_spec(seg[2]).unwrap();
    if seg.len() < 4 && seg[1] != "_"@ {
        res is None && unchanged(old, new)
    } else if !verify_spec(from.public_key, seg[4], pre_signed_text(seg)).unwrap() {
        res is None && unchanged(old, new)
    } else if seg[1] == "s"@ && plan_for(old, from, data) is Nothing {
        res is None && unchanged(old, new)
    } else {
        let m = SignedMsgView {
            from,
            content: signed_content(seg[1], data, plan_id(old, from, data)),
            time_stamp: parse_num_spec(seg[3], true, i64::MIN as int, i64::MAX as int).unwrap() as i64,
        };
        &&& res is Some
        &&& res.unwrap()@ == m
        &&& time_inserted(old.msgs(), m, new.msgs())
        &&& new.own() == old.own()
        &&& new.encrypting() == old.encrypting()
        &&& if seg[1] == "s"@ {
            ratchets_after(old, new, from, data)
        } else if seg[1] == "p"@ && from != old.own().address {
            &&& new.proxy() == old.proxy()
            &&& new.agents() == added_key(
                old.agents(),
                from,
                base64_decode_spec(encode_utf8(data)).unwrap(),
            )
        } else {
            &&& new.proxy() == old.proxy()
            &&& new.agents() == old.agents()
        }
    }
}

impl ServerMsg {
    /// A message from `from`, stamped with the current time.
    pub fn new(from: &Address, content: MsgContent) -> (res: ServerMsg)
        ensures
            res@.from == from@,
            res@.content == content@,
    {
        let time_stamp = now_millis();
        ServerMsg { from: from.clone(), content, time_stamp }
    }

    /// Reads a message from the server into the store: checks its signature, takes in a
    /// public key, reads a secure text, and keeps the message in time order.
    pub fn from_server(txt: &str, state: &mut Crypto) -> (res: Option<ServerMsg>)
        requires
            old(state).wf(),
            from_server_ok(txt@, old(state)),
        ensures
            final(state).wf(),
            received(old(state), final(state), txt@, res),
    {
        proof {
            lemma_labels_distinct();
        }
        let segments = split_and_clean(txt, '*');
        let ghost seg = views(segments@);
        assert(seg == signed_fields(txt@));
        assert(segments@[1]@ == seg[1]);
        if segments.len() < 4 && !str_equal(segments[1], "_") {
            return None;
        }
        assert(segments@[0]@ == seg[0]);
        assert(segments@[2]@ == seg[2]);
        assert(segments@[3]@ == seg[3]);
        assert(segments@[4]@ == seg[4]);
        let content_data = decode_base64(segments[2]);
        let from = Address::from_sendable(to_owned_string(segments[0]));
        let mut pre_signed_msg = to_owned_string("*");
        let joined = join_prefix(&segments, 4, '*');
        push_str(&mut pre_signed_msg, joined.as_str());
        push_str(&mut pre_signed_msg, "*");
        assert(views(segments@).take(4) == seg.take(4));
        if !from.verify(segments[4], pre_signed_msg.as_str()) {
            return None;
        }
        let label = segments[1];
        assert(label@ == seg[1]);
        let ghost data = content_data@;
        let ghost id = plan_id(old(state), from@, data);
        let content = if str_equal(label, "i") {
            MsgContent::InsecureText(content_data)
        } else if str_equal(label, "s") {
            match state.decrypt(&from, content_data) {
                Some(msg_id) => {
                    assert(!(plan_for(old(state), from@, data) is Nothing));
                    let mut ids: Vec<SecureMsgIdentifier> = Vec::new();
                    ids.push(msg_id);
                    assert(id_views(ids@) =~= seq![id]);
                    MsgContent::SecureText(ids)
                },
                None => {
                    return None;
                },
            }
        } else if str_equal(label, "j") {
            MsgContent::Join(content_data)
        } else if str_equal(label, "p") {
            let own = state.get_address();
            if !from.same(&own) {
                state.add_public_key(from.clone(), decodeToPublicKeyBytes(content_data.clone()));
            }
            MsgContent::PublicKey(content_data)
        } else if str_equal(label, "t") {
            MsgContent::Trust(Address::from_sendable(content_data))
        } else if str_equal(label, "l") {
            MsgContent::Leave(content_data)
        } else {
            MsgContent::Blank()
        };
        assert(from@ == key_from_sendable(seg[0]));
        assert(data == decode_base64_spec(seg[2]).unwrap());
        assert(pre_signed_msg@ == pre_signed_text(seg));
        assert(verify_spec(from@.public_key, seg[4], pre_signed_text(seg)).unwrap());
        assert(!(seg[1] == "s"@ && plan_for(old(state), from@, data) is Nothing));
        let time_stamp = if segments.len() > 2 {
            match parse_i64(segments[3]) {
                Some(t) => t,
                None => {
                    assert(false);
                    0
                },
            }
        } else {
            now_millis()
        };
        let msg = ServerMsg { from, content, time_stamp };
        state.add_msg(msg.clone());
        Some(msg)
    }
}

/// What a message shows and the label it shows under; `None` for a public key already known
/// or offered by the store itself.
pub open spec fn shown(m: SignedMsgView, c: &Crypto) -> Option<(Seq<char>, char)> {
    match m.content {
        SignedContentView::PublicKey(pk) => if first_agent_with_key(c.agents(), pk) is Some {
            None
        } else if m.from != c.own().address {
            Some(("is alllowing people to trust them"@, 'p'))
        } else {
            None
        },
        SignedContentView::SecureText(ids) => match encrypted_msg_spec(c, ids[0]).unwrap() {
            Some(p) => Some((decode_utf8(p), 's')),
            None => Some(("has sent a secure message but you cannot read it as you do not trust them"@, 's')),
        },
        SignedContentView::InsecureText(t) => Some((t, 'i')),
        SignedContentView::Join(_) => Some(("went online"@, 'j')),
        SignedContentView::Leave(_) => Some(("went offline"@, 'l')),
        SignedContentView::Trust(a) => Some((m.from.name + " is trusting "@ + a.name, 't')),
        SignedContentView::Blank => Some(("Error Parsing Text"@, '_')),
    }
}

/// Whether `display` shows the message without failing: a time stamp that a date can be
/// made of, and for a secure text, a first identifier whose payload, if kept, is UTF-8.
pub open spec fn display_ok(m: SignedMsgView, c: &Crypto) -> bool {
    &&& datetime_text_spec(m.time_stamp) is Some
    &&& m.content matches SignedContentView::SecureText(ids) ==> {
        &&& ids.len() > 0
        &&& encrypted_msg_spec(c, ids[0]) is Some
        &&& encrypted_msg_spec(c, ids[0]).unwrap() matches Some(p) ==> valid_utf8(p)
    }
}

/// The line that shows the message: `(label) name at date\rcontent\rrelation`.
pub open spec fn display_line(m: SignedMsgView, c: &Crypto) -> Option<Seq<char>> {
    match shown(m, c) {
        Some((content, label)) => Some(
            "("@ + seq![label] + ") "@ + m.from.name + " at "@ + datetime_text_spec(m.time_stamp).unwrap()
                + "\r"@ + strip(content, '\r') + "\r"@ + relation_word(c.secret_for(m.from)),
        ),
        None => None,
    }
}

/// What `display` shows. Nothing only for a public key that is already known or that the
/// store offers itself; every other message is shown as `(label) name at date`, a `\r`, the
/// content and, after another `\r`, the sender's relation: a plain text under `i` with the
/// text itself, a join under `j` with `went online`, a leave under `l` with `went offline`,
/// a key offer under `p` with `is alllowing people to trust them`, a blank message under `_`
/// with `Error Parsing Text`.
pub proof fn lemma_display_shows(m: SignedMsgView, c: &Crypto)
    ensures
        display_line(m, c) is None <==> (m.content is PublicKey && (first_agent_with_key(
            c.agents(),
            m.content->PublicKey_0,
        ) is Some || m.from == c.own().address)),
        m.content matches SignedContentView::InsecureText(t) ==> display_line(m, c) == Some(
            "("@ + seq!['i'] + ") "@ + m.from.name + " at "@ + datetime_text_spec(
                m.time_stamp,
            ).unwrap() + "\r"@ + strip(t, '\r') + "\r"@ + relation_word(c.secret_for(m.from)),
        ),
        m.content is Join ==> display_line(m, c) == Some(
            "("@ + seq!['j'] + ") "@ + m.from.name + " at "@ + datetime_text_spec(
                m.time_stamp,
            ).unwrap() + "\r"@ + "went online"@ + "\r"@ + relation_word(c.secret_for(m.from)),
        ),
        m.content is Leave ==> display_line(m, c) == Some(
            "("@ + seq!['l'] + ") "@ + m.from.name + " at "@ + datetime_text_spec(
                m.time_stamp,
            ).unwrap() + "\r"@ + "went offline"@ + "\r"@ + relation_word(c.secret_for(m.from)),
        ),
        m.content is PublicKey && display_line(m, c) is Some ==> display_line(m, c) == Some(
            "("@ + seq!['p'] + ") "@ + m.from.name + " at "@ + datetime_text_spec(
                m.time_stamp,
            ).unwrap() + "\r"@ + "is alllowing people to trust them"@ + "\r"@ + relation_word(
                c.secret_for(m.from),
            ),
        ),
        m.content is Blank ==> display_line(m, c) == Some(
            "("@ + seq!['_'] + ") "@ + m.from.name + " at "@ + datetime_text_spec(
                m.time_stamp,
            ).unwrap() + "\r"@ + "Error Parsing Text"@ + "\r"@ + relation_word(c.secret_for(m.from)),
        ),
{
    reveal_strlit("went online");
    reveal_strlit("went offline");
    reveal_strlit("is alllowing people to trust them");
    reveal_strlit("Error Parsing Text");
    lemma_strip_absent("went online"@, '\r');
    lemma_strip_absent("went offline"@, '\r');
    lemma_strip_absent("is alllowing people to trust them"@, '\r');
    lemma_strip_absent("Error Parsing Text"@, '\r');
}

fn label_text(c: char) -> (res: String)
    ensures
        res@ == seq![c],
{
    let mut s = String::new();
    crate::codec::push_char(&mut s, c);
    s
}

impl ServerMsg {
    /// `from_server`, or `None`, changing nothing, where it would fail.
    pub fn try_from_server(txt: &str, state: &mut Crypto) -> (res: Option<Option<ServerMsg>>)
        requires
            old(state).wf(),
        ensures
            final(state).wf(),
            res is Some <==> from_server_ok(txt@, old(state)),
            res is None ==> unchanged(old(state), final(state)),
            res matches Some(r) ==> received(old(state), final(state), txt@, r),
    {
        proof {
            lemma_labels_distinct();
        }
        let segments = split_and_clean(txt, '*');
        let ghost seg = views(segments@);
        assert(seg == signed_fields(txt@));
        if segments.len() < 2 {
            return None;
        }
        assert(segments@[1]@ == seg[1]);
        if !(segments.len() < 4 && !str_equal(segments[1], "_")) {
            if segments.len() < 5 {
                return None;
            }
            assert(segments@[0]@ == seg[0]);
            assert(segments@[2]@ == seg[2]);
            assert(segments@[3]@ == seg[3]);
            assert(segments@[4]@ == seg[4]);
            let data = match try_decode_base64(segments[2]) {
                Some(d) => d,
                None => {
                    return None;
                },
            };
            let from = match try_key_from_sendable(segments[0]) {
                Some(a) => a,
                None => {
                    return None;
                },
            };
            let mut pre_signed_msg = to_owned_string("*");
            let joined = join_prefix(&segments, 4, '*');
            push_str(&mut pre_signed_msg, joined.as_str());
            push_str(&mut pre_signed_msg, "*");
            assert(views(segments@).take(4) == seg.take(4));
            match from.try_verify(segments[4], pre_signed_msg.as_str()) {
                None => {
                    return None;
                },
                Some(false) => {},
                Some(true) => {
                    let label = segments[1];
                    if str_equal(label, "s") {
                        match state.check_decrypt(&from, data.as_str()) {
                            None => {
                                return None;
                            },
                            Some(b) => {
                                if b && parse_i64(segments[3]).is_none() {
                                    return None;
                                }
                            },
                        }
                    } else {
                        if str_equal(label, "p") {
                            let own = state.get_address();
                            if !from.same(&own) {
                                match base64_decode(utf8_bytes(data.as_str())) {
                                    Some(k) => {
                                        if k.len() != 32 {
                                            return None;
                                        }
                                    },
                                    None => {
                                        return None;
                                    },
                                }
                            }
                        }
                        if str_equal(label, "t") && try_key_from_sendable(data.as_str()).is_none() {
                            return None;
                        }
                        if parse_i64(segments[3]).is_none() {
                            return None;
                        }
                    }
                },
            }
        }
        Some(ServerMsg::from_server(txt, state))
    }

    /// `display`, or `None` where it would fail: a time stamp that no date can be made of, or
    /// a secure text with no identifier, or whose first payload cannot be looked up or is not
    /// UTF-8.
    pub fn try_display(&self, state: &Crypto) -> (res: Option<Option<String>>)
        requires
            state.wf(),
        ensures
            res is Some <==> display_ok(self@, state),
            res matches Some(r) ==> match r {
                Some(line) => display_line(self@, state) == Some(line@),
                None => display_line(self@, state) is None,
            },
    {
        if datetime_text(self.time_stamp).is_none() {
            return None;
        }
        if let MsgContent::SecureText(ids) = &self.content {
            if ids.len() == 0 {
                return None;
            }
            assert(id_views(ids@)[0] == ids@[0]@);
            match state.try_encrypted_msg(&ids[0]) {
                None => {
                    return None;
                },
                Some(Some(p)) => {
                    if str_from_utf8(vec_bytes(&p)).is_none() {
                        return None;
                    }
                },
                Some(None) => {},
            }
        }
        Some(self.display(state))
    }

    /// The line that shows the message to the user; `None` for a public key that is known
    /// already or that the store itself offered.
    pub fn display(&self, state: &Crypto) -> (res: Option<String>)
        requires
            state.wf(),
            display_ok(self@, state),
        ensures
            match res {
                Some(line) => display_line(self@, state) == Some(line@),
                None => display_line(self@, state) is None,
            },
    {
        let msg_data: Option<(String, char)> = match &self.content {
            MsgContent::PublicKey(pub_key) => {
                if state.agent_from_pub_key(pub_key.as_str()).is_some() {
                    None
                } else if !self.from.same(&state.get_address()) {
                    Some((to_owned_string("is alllowing people to trust them"), 'p'))
                } else {
                    None
                }
            },
            MsgContent::SecureText(ids) => {
                match state.get_encrypted_msg(&ids[0]) {
                    Some(payload) => match str_from_utf8(vec_bytes(&payload)) {
                        Some(t) => Some((to_owned_string(t), 's')),
                        None => {
                            assert(false);
                            None
                        },
                    },
                    None => Some(
                        (
                            to_owned_string(
                                "has sent a secure message but you cannot read it as you do not trust them",
                            ),
                            's',
                        ),
                    ),
                }
            },
            MsgContent::InsecureText(txt) => Some((txt.clone(), 'i')),
            MsgContent::Join(_) => Some((to_owned_string("went online"), 'j')),
            MsgContent::Leave(_) => Some((to_owned_string("went offline"), 'l')),
            MsgContent::Trust(addr) => {
                let mut t = self.from.name.clone();
                push_str(&mut t, " is trusting ");
                push_str(&mut t, addr.name.as_str());
                Some((t, 't'))
            },
            MsgContent::Blank() => Some((to_owned_string("Error Parsing Text"), '_')),
        };
        let date_time = match datetime_text(self.time_stamp) {
            Some(d) => d,
            None => {
                assert(false);
                String::new()
            },
        };
        match msg_data {
            Some((content, label)) => {
                let relation = state.relation(&self.from);
                let mut line = to_owned_string("(");
                let l = label_text(label);
                push_str(&mut line, l.as_str());
                push_str(&mut line, ") ");
                push_str(&mut line, self.from.name.as_str());
                push_str(&mut line, " at ");
                push_str(&mut line, date_time.as_str());
                push_str(&mut line, "\r");
                let clean = remove_char(content.as_str(), '\r');
                push_str(&mut line, clean.as_str());
                push_str(&mut line, "\r");
                push_str(&mut line, relation.as_str());
                Some(line)
            },
            None => None,
        }
    }
}

/// The label under which a content travels.
pub open spec fn sent_label(c: SignedContentView) -> Seq<char> {
    match c {
        SignedContentView::PublicKey(_) => "p"@,
        SignedContentView::SecureText(_) => "s"@,
        SignedContentView::InsecureText(_) => "i"@,
        SignedContentView::Join(_) => "j"@,
        SignedContentView::Leave(_) => "l"@,
        SignedContentView::Trust(_) => "t"@,
        SignedContentView::Blank => "_"@,
    }
}

/// Each kind of content is signed and sent under a label of its own: a public key under `p`,
/// a secure text under `s`, a plain text under `i`, a join under `j`, a leave under `l`, a
/// trust under `t` and a blank message under `_`, each with the Base64 of its body: the key,
/// the entries of the secure text, the text, the group, the trusted address or `_`.
pub proof fn lemma_signed_labels(m: SignedMsgView, c: &Crypto, time: i64)
    ensures
        m.content matches SignedContentView::PublicKey(k) ==> pre_signed_msg(m, c, time)
            == "*"@ + key_sendable(m.from) + "*"@ + "p"@ + "*"@ + encode_base64_text(k)
            + "*"@ + dec_int(time as int) + "*"@,
        m.content matches SignedContentView::SecureText(ids) ==> pre_signed_msg(m, c, time)
            == "*"@ + key_sendable(m.from) + "*"@ + "s"@ + "*"@ + encode_base64_text(secure_body(ids, c))
            + "*"@ + dec_int(time as int) + "*"@,
        m.content matches SignedContentView::InsecureText(t) ==> pre_signed_msg(m, c, time)
            == "*"@ + key_sendable(m.from) + "*"@ + "i"@ + "*"@ + encode_base64_text(t)
            + "*"@ + dec_int(time as int) + "*"@,
        m.content matches SignedContentView::Join(g) ==> pre_signed_msg(m, c, time)
            == "*"@ + key_sendable(m.from) + "*"@ + "j"@ + "*"@ + encode_base64_text(g)
            + "*"@ + dec_int(time as int) + "*"@,
        m.content matches SignedContentView::Leave(g) ==> pre_signed_msg(m, c, time)
            == "*"@ + key_sendable(m.from) + "*"@ + "l"@ + "*"@ + encode_base64_text(g)
            + "*"@ + dec_int(time as int) + "*"@,
        m.content matches SignedContentView::Trust(a) ==> pre_signed_msg(m, c, time)
            == "*"@ + key_sendable(m.from) + "*"@ + "t"@ + "*"@ + encode_base64_text(key_sendable(a))
            + "*"@ + dec_int(time as int) + "*"@,
        m.content is Blank ==> pre_signed_msg(m, c, time)
            == "*"@ + key_sendable(m.from) + "*"@ + "_"@ + "*"@ + encode_base64_text("_"@)
            + "*"@ + dec_int(time as int) + "*"@,
{
}

/// The entry `address*link*base64(payload);` of a secure message whose payload the store
/// keeps; nothing for one whose payload it does not.
pub open spec fn secure_entry(id: MsgIdView, c: &Crypto) -> Seq<char> {
    match encrypted_msg_spec(c, id).unwrap() {
        Some(p) => key_sendable(id.address) + "*"@ + dec_int(id.ord as int) + "*"@
            + base64_encode_spec(p) + ";"@,
        None => seq![],
    }
}

/// The entries of the secure messages `ids`, one after the other.
pub open spec fn secure_body(ids: Seq<MsgIdView>, c: &Crypto) -> Seq<char>
    decreases ids.len(),
{
    if ids.len() == 0 {
        seq![]
    } else {
        secure_body(ids.drop_last(), c) + secure_entry(ids.last(), c)
    }
}

/// The body under which a content travels, before Base64.
pub open spec fn sent_body(m: SignedContentView, c: &Crypto) -> Seq<char> {
    match m {
        SignedContentView::PublicKey(k) => k,
        SignedContentView::SecureText(ids) => secure_body(ids, c),
        SignedContentView::InsecureText(t) => t,
        SignedContentView::Join(g) => g,
        SignedContentView::Leave(g) => g,
        SignedContentView::Trust(a) => key_sendable(a),
        SignedContentView::Blank => "_"@,
    }
}

/// Whether the store can write the message: for a secure text, it can look up every
/// identifier's payload.
pub open spec fn writable(m: SignedContentView, c: &Crypto) -> bool {
    m matches SignedContentView::SecureText(ids) ==> forall|i: int|
        0 <= i < ids.len() ==> (#[trigger] encrypted_msg_spec(c, ids[i])) is Some
}

/// The part of a message that its signature signs: `*address*label*base64(body)*time*`.
pub open spec fn pre_signed_msg(m: SignedMsgView, c: &Crypto, time: i64) -> Seq<char> {
    "*"@ + key_sendable(m.from) + "*"@ + sent_label(m.content) + "*"@ + encode_base64_text(
        sent_body(m.content, c),
    ) + "*"@ + dec_int(time as int) + "*"@
}

/// The message as it goes to the server at the time `time` (in seconds), signed with the
/// secret key `secret`: its signed part, the Base64 of the signature and a closing `*`;
/// `None` where the key cannot sign.
pub open spec fn signed_text(m: SignedMsgView, c: &Crypto, time: i64, secret: Seq<u8>) -> Option<Seq<char>> {
    let pre = pre_signed_msg(m, c, time);
    match k256_sign_spec(secret, encode_utf8(pre)) {
        Some(sig) => Some(pre + base64_encode_spec(sig) + "*"@),
        None => None,
    }
}

/// What the encoders promised of the entries of a secure text that the store `c` wrote: the
/// Base64 of each address's name and key, and of each payload kept, read back as what was
/// encoded.
pub open spec fn entries_encoded(ids: Seq<MsgIdView>, c: &Crypto) -> bool {
    forall|p: int|
        0 <= p < ids.len() ==> match (#[trigger] encrypted_msg_spec(c, ids[p])).unwrap() {
            Some(pl) => encoded_text(ids[p].address.name) && encoded_bytes(ids[p].address.public_key)
                && encoded_bytes(pl),
            None => true,
        }
}

/// What the encoders and the signer promised of the pieces of a message that a store wrote:
/// the Base64 of the sender's name and key, of the body and of the 64-byte signature read
/// back as what was encoded, and so does a trusted address.
pub open spec fn written_ok(m: SignedMsgView, c: &Crypto, time: i64, secret: Seq<u8>) -> bool {
    let sig = k256_sign_spec(secret, encode_utf8(pre_signed_msg(m, c, time))).unwrap();
    &&& encoded_text(m.from.name)
    &&& encoded_bytes(m.from.public_key)
    &&& encoded_text(sent_body(m.content, c))
    &&& sig.len() == 64
    &&& encoded_bytes(sig)
    &&& m.content matches SignedContentView::Trust(a) ==> encoded_text(a.name) && encoded_bytes(
        a.public_key,
    )
    &&& m.content matches SignedContentView::SecureText(ids) ==> entries_encoded(ids, c)
}

impl ServerMsg {
    /// The body of a secure text: the entries of the identifiers whose payloads the store keeps.
    fn secure_text_body(ids: &Vec<SecureMsgIdentifier>, state: &Crypto) -> (res: String)
        requires
            state.wf(),
            writable(SignedContentView::SecureText(id_views(ids@)), state),
        ensures
            res@ == secure_body(id_views(ids@), state),
            entries_encoded(id_views(ids@), state),
    {
        let ghost v = id_views(ids@);
        let mut out = String::new();
        let mut i: usize = 0;
        while i < ids.len()
            invariant
                state.wf(),
                i <= ids@.len(),
                v == id_views(ids@),
                writable(SignedContentView::SecureText(v), state),
                out@ == secure_body(v.take(i as int), state),
                entries_encoded(v.take(i as int), state),
            decreases ids@.len() - i,
        {
            assert(v.take(i + 1).drop_last() =~= v.take(i as int));
            assert(v[i as int] == ids@[i as int]@);
            assert(encrypted_msg_spec(state, v[i as int]) is Some);
            match state.get_encrypted_msg(&ids[i]) {
                Some(payload) => {
                    let a = ids[i].address.as_sendable();
                    push_str(&mut out, a.as_str());
                    push_str(&mut out, "*");
                    let ord = usize_to_decimal(ids[i].ord);
                    push_str(&mut out, ord.as_str());
                    push_str(&mut out, "*");
                    let b = encode_base64_bytes(&payload);
                    push_str(&mut out, b.as_str());
                    push_str(&mut out, ";");
                },
                None => {},
            }
            proof {
                let w = v.take(i + 1);
                assert forall|p: int| 0 <= p < w.len() implies match (#[trigger] encrypted_msg_spec(
                    state,
                    w[p],
                )).unwrap() {
                    Some(pl) => encoded_text(w[p].address.name) && encoded_bytes(w[p].address.public_key)
                        && encoded_bytes(pl),
                    None => true,
                } by {
                    if p < i {
                        assert(w[p] == v.take(i as int)[p]);
                    }
                }
            }
            i = i + 1;
        }
        assert(v.take(ids@.len() as int) =~= v);
        out
    }

    /// The message as it goes to the server at the time `time` (in seconds), signed with
    /// `signing_key`; `None` where that key cannot sign.
    pub fn to_string_at(&self, state: &Crypto, signing_key: &[u8], time: i64) -> (res: Option<String>)
        requires
            state.wf(),
            writable(self@.content, state),
        ensures
            match res {
                Some(t) => signed_text(self@, state, time, signing_key@) == Some(t@),
                None => signed_text(self@, state, time, signing_key@) is None,
            },
            res is Some ==> written_ok(self@, state, time, signing_key@),
    {
        let (kind, body): (&str, String) = match &self.content {
            MsgContent::PublicKey(public_key) => ("p", public_key.clone()),
            MsgContent::SecureText(ids) => ("s", ServerMsg::secure_text_body(ids, state)),
            MsgContent::InsecureText(txt) => ("i", txt.clone()),
            MsgContent::Join(group) => ("j", group.clone()),
            MsgContent::Leave(group) => ("l", group.clone()),
            MsgContent::Trust(addr) => ("t", addr.as_sendable()),
            MsgContent::Blank() => ("_", to_owned_string("_")),
        };
        assert(kind@ == sent_label(self@.content));
        assert(body@ == sent_body(self@.content, state));
        let mut pre_signed = to_owned_string("*");
        let from = self.from.as_sendable();
        push_str(&mut pre_signed, from.as_str());
        push_str(&mut pre_signed, "*");
        push_str(&mut pre_signed, kind);
        push_str(&mut pre_signed, "*");
        let encoded = encode_base64_str(body.as_str());
        push_str(&mut pre_signed, encoded.as_str());
        push_str(&mut pre_signed, "*");
        let t = i64_to_decimal(time);
        push_str(&mut pre_signed, t.as_str());
        push_str(&mut pre_signed, "*");
        assert(pre_signed@ =~= pre_signed_msg(self@, state, time));
        match k256_sign(signing_key, utf8_bytes(pre_signed.as_str())) {
            Some(sig) => {
                let s = encode_base64_bytes(&sig);
                let mut text = pre_signed;
                push_str(&mut text, s.as_str());
                push_str(&mut text, "*");
                Some(text)
            },
            None => None,
        }
    }

    /// The message as it goes to the server now, signed with `signing_key`; `None` where that
    /// key cannot sign.
    pub fn to_string(&self, state: &Crypto, signing_key: &[u8]) -> (res: Option<String>)
        requires
            state.wf(),
            writable(self@.content, state),
        ensures
            exists|time: i64|
                match res {
                    Some(t) => signed_text(self@, state, time, signing_key@) == Some(t@),
                    None => signed_text(self@, state, time, signing_key@) is None,
                },
    {
        let time = now_seconds();
        self.to_string_at(state, signing_key, time)
    }
}

/// Every character that an integer is written with in decimal is a digit or `-`: neither a
/// `*` nor whitespace.
proof fn lemma_dec_int_plain(n: int)
    ensures
        dec_int(n).len() > 0,
        forall|i: int|
            0 <= i < dec_int(n).len() ==> #[trigger] dec_int(n)[i] != '*' && !is_ws(dec_int(n)[i]),
{
    let d = dec_int(n);
    if n < 0 {
        lemma_dec_nat((-n) as nat);
        assert forall|i: int| 0 <= i < d.len() implies d[i] == '-' || is_digit(d[i]) by {
            if i > 0 {
                assert(d[i] == dec_nat((-n) as nat)[i - 1]);
            }
        }
    } else {
        lemma_dec_nat(n as nat);
    }
}

/// No character of a Base64 text is a `*` or whitespace.
proof fn lemma_base64_plain(s: Seq<char>)
    requires
        all_base64(s),
    ensures
        forall|i: int| 0 <= i < s.len() ==> #[trigger] s[i] != '*' && !is_ws(s[i]),
{
    assert forall|i: int| 0 <= i < s.len() implies #[trigger] s[i] != '*' && !is_ws(s[i]) by {
        assert(is_base64_char(s[i]));
    }
}

/// The contents that travel and read back as themselves whatever the reader holds: all but a
/// secure text (what a reader gets of one depends on its ratchets), with a body that is not
/// empty (an empty field vanishes when the text is split), a trusted address with a name and
/// a key, and a public key that the reader, unless it is the reader's own, can take in.
pub open spec fn readable_content(m: SignedContentView, from: KeyAddrView, r: &Crypto) -> bool {
    match m {
        SignedContentView::SecureText(_) => false,
        SignedContentView::InsecureText(t) => t.len() > 0,
        SignedContentView::Join(g) => g.len() > 0,
        SignedContentView::Leave(g) => g.len() > 0,
        SignedContentView::PublicKey(k) => k.len() > 0 && (from != r.own().address ==> key_bytes_ok(k)),
        SignedContentView::Trust(a) => a.name.len() > 0 && a.public_key.len() > 0,
        SignedContentView::Blank => true,
    }
}

/// The fields of a message that a store wrote, with a sender that has a name and a key and a
/// body that is not empty: the sender's address, the label, the Base64 body, the time and the
/// signature, each of which reads back as what was written.
pub(crate) proof fn lemma_signed_fields(m: SignedMsgView, c: &Crypto, time: i64, secret: Seq<u8>)
    requires
        signed_text(m, c, time, secret) is Some,
        written_ok(m, c, time, secret),
        m.from.name.len() > 0,
        m.from.public_key.len() > 0,
        sent_body(m.content, c).len() > 0,
    ensures
        signed_fields(signed_text(m, c, time, secret).unwrap()) == seq![
            key_sendable(m.from),
            sent_label(m.content),
            encode_base64_text(sent_body(m.content, c)),
            dec_int(time as int),
            base64_encode_spec(k256_sign_spec(secret, encode_utf8(pre_signed_msg(m, c, time))).unwrap()),
        ],
        pre_signed_text(signed_fields(signed_text(m, c, time, secret).unwrap())) == pre_signed_msg(m, c, time),
        key_sendable_ok(key_sendable(m.from)),
        key_from_sendable(key_sendable(m.from)) == m.from,
        decode_base64_spec(encode_base64_text(sent_body(m.content, c))) == Some(sent_body(m.content, c)),
        base64_decode_spec(
            encode_utf8(base64_encode_spec(k256_sign_spec(secret, encode_utf8(pre_signed_msg(m, c, time))).unwrap())),
        ) == Some(k256_sign_spec(secret, encode_utf8(pre_signed_msg(m, c, time))).unwrap()),
        parse_num_spec(dec_int(time as int), true, i64::MIN as int, i64::MAX as int) == Some(time as int),
{
    reveal_strlit("*");
    reveal_strlit("_");
    let pre = pre_signed_msg(m, c, time);
    let sig = k256_sign_spec(secret, encode_utf8(pre)).unwrap();
    let body = sent_body(m.content, c);
    let a = key_sendable(m.from);
    let l = sent_label(m.content);
    let b = encode_base64_text(body);
    let t = dec_int(time as int);
    let sg = base64_encode_spec(sig);
    let ps = seq![a, l, b, t, sg];
    lemma_key_sendable_roundtrip(m.from);
    lemma_dec_int_plain(time as int);
    lemma_base64_plain(b);
    lemma_base64_plain(sg);
    assert(l.len() == 1 && l[0] != '*' && !is_ws(l[0])) by {
        reveal_strlit("i");
        reveal_strlit("s");
        reveal_strlit("j");
        reveal_strlit("p");
        reveal_strlit("t");
        reveal_strlit("l");
    }
    assert(b.len() > 0);
    assert(a.len() > 0) by {
        assert(a[encode_base64_text(m.from.name).len() as int] == '@');
    }
    assert(plain_pieces(ps, '*')) by {
        assert forall|i: int| 0 <= i < ps.len() implies plain_piece(#[trigger] ps[i], '*') by {
            if i == 0 {
                assert(ps[0] == a);
            } else if i == 1 {
                assert(ps[1] == l);
                assert forall|j: int| 0 <= j < l.len() implies #[trigger] l[j] != '*' && !is_ws(l[j]) by {
                    assert(j == 0);
                }
            } else if i == 2 {
                assert(ps[2] == b);
            } else if i == 3 {
                assert(ps[3] == t);
            } else {
                assert(ps[4] == sg);
            }
        }
    }
    let p4 = seq![a, l, b, t];
    let p3 = seq![a, l, b];
    let p2 = seq![a, l];
    assert(ps.drop_last() =~= p4);
    assert(p4.drop_last() =~= p3);
    assert(p3.drop_last() =~= p2);
    assert(p2.drop_last() =~= seq![a]);
    assert(join(seq![a], '*') == a);
    assert(join(p2, '*') == a + seq!['*'] + l);
    assert(join(p3, '*') == join(p2, '*') + seq!['*'] + b);
    assert(join(p4, '*') == join(p3, '*') + seq!['*'] + t);
    assert(join(ps, '*') == join(p4, '*') + seq!['*'] + sg);
    lemma_split_and_clean_framed(ps, '*');
    let txt = signed_text(m, c, time, secret).unwrap();
    assert(pre =~= seq!['*'] + join(p4, '*') + seq!['*']);
    assert(txt =~= seq!['*'] + join(ps, '*') + seq!['*']);
    assert(signed_fields(txt) == ps);
    assert(ps.take(4) =~= p4);
    assert(pre_signed_text(ps) =~= pre);
    lemma_parse_dec(time as int, true, i64::MIN as int, i64::MAX as int);
}

/// What one store writes, another reads back: a message that a store wrote at the time
/// `time` with the key `secret` (as `to_string_at` does, which also gives `written_ok`), from
/// a sender with a name and a key under which the signature checks out, splits into the
/// sender's address, the label, the Base64 body, the time and the signature; every store `r`
/// reads it without failing, and what it reads is the same sender and content, stamped `time`.
pub proof fn lemma_signed_roundtrip(m: SignedMsgView, c: &Crypto, time: i64, secret: Seq<u8>, r: &Crypto)
    requires
        signed_text(m, c, time, secret) is Some,
        written_ok(m, c, time, secret),
        m.from.name.len() > 0,
        m.from.public_key.len() > 0,
        readable_content(m.content, m.from, r),
        k256_verify_spec(
            m.from.public_key,
            k256_sign_spec(secret, encode_utf8(pre_signed_msg(m, c, time))).unwrap(),
            encode_utf8(pre_signed_msg(m, c, time)),
        ) == Some(true),
    ensures
        signed_fields(signed_text(m, c, time, secret).unwrap()) == seq![
            key_sendable(m.from),
            sent_label(m.content),
            encode_base64_text(sent_body(m.content, c)),
            dec_int(time as int),
            base64_encode_spec(k256_sign_spec(secret, encode_utf8(pre_signed_msg(m, c, time))).unwrap()),
        ],
        from_server_ok(signed_text(m, c, time, secret).unwrap(), r),
        forall|new: Crypto, res: Option<ServerMsg>|
            received(r, &new, signed_text(m, c, time, secret).unwrap(), res) ==> res is Some
                && res.unwrap()@ == (SignedMsgView { from: m.from, content: m.content, time_stamp: time }),
{
    lemma_labels_distinct();
    reveal_strlit("_");
    let body = sent_body(m.content, c);
    if let SignedContentView::Trust(x) = m.content {
        lemma_key_sendable_roundtrip(x);
        assert(body == key_sendable(x));
        assert(key_sendable(x)[encode_base64_text(x.name).len() as int] == '@');
    }
    assert(body.len() > 0);
    lemma_signed_fields(m, c, time, secret);
    assert(signed_content(sent_label(m.content), body, plan_id(r, m.from, body)) == m.content);
}

} // verus!
