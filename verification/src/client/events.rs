//! What the desktop client sends when the user types, clicks on a user or joins a group, and
//! what it answers a message with. Its window and its socket do the rest: they read the
//! user's input, and write out what these functions return.
use vstd::prelude::*;
use vstd::utf8::*;
use crate::client::key_bundle::SecretView;
use crate::client::serverhandlers::{unchanged, MsgContent, ServerMsg, SignedContentView};
use crate::client::store::{any_sends, sealed_agent, sent_ids, trusted, Crypto};
use crate::client::utils::Address;
use crate::codec::{base64_encode_spec, to_owned_string};
use crate::crypto::aes_plaintext_ok;
use crate::text::str_equal;

verus! {

/// What typing `text` sends, with its label: nothing for an empty text; a secure text to
/// every agent the store sends to (under `s`) when encrypting, which advances their ratchets;
/// a plain text (under `i`) otherwise.
pub fn on_send_msg(state: &mut Crypto, text: String, encrypting: bool) -> (res: Option<(String, ServerMsg)>)
    requires
        old(state).wf(),
        encrypting && any_sends(old(state).agents()) ==> aes_plaintext_ok(encode_utf8(text@).len()),
    ensures
        final(state).wf(),
        text@.len() == 0 ==> res is None && unchanged(old(state), final(state)),
        text@.len() > 0 && !encrypting ==> {
            &&& unchanged(old(state), final(state))
            &&& res matches Some((label, msg)) && label@ == "i"@ && msg@.from == old(state).own().address
                && msg@.content == SignedContentView::InsecureText(text@)
        },
        text@.len() > 0 && encrypting ==> {
            &&& res matches Some((label, msg)) && label@ == "s"@ && msg@.from == old(state).own().address
                && msg@.content == SignedContentView::SecureText(sent_ids(old(state).agents()))
            &&& final(state).agents() == Seq::new(
                old(state).agents().len(),
                |i: int| sealed_agent(old(state).agents()[i], encode_utf8(text@)),
            )
            &&& final(state).own() == old(state).own()
            &&& final(state).proxy() == old(state).proxy()
            &&& final(state).msgs() == old(state).msgs()
            &&& final(state).encrypting() == old(state).encrypting()
        },
{
    if text.as_str().is_empty() {
        return None;
    }
    let (content, label) = if encrypting {
        let encrypted_text = state.encrypt(text);
        (MsgContent::SecureText(encrypted_text), to_owned_string("s"))
    } else {
        (MsgContent::InsecureText(text), to_owned_string("i"))
    };
    let msg = ServerMsg::new(&state.get_address(), content);
    Some((label, msg))
}

/// What clicking on the user at `from` sends: where the store has their key but does not
/// trust them yet, it trusts the first agent with their name and sends that agent's address
/// as trusted (nothing if nobody has the name); for anyone else nothing, and nothing changes.
pub fn on_user_click(state: &mut Crypto, from: &Address) -> (res: Option<ServerMsg>)
    requires
        old(state).wf(),
    ensures
        final(state).wf(),
        old(state).secret_for(from@) != Some(SecretView::Empty) ==> res is None && unchanged(
            old(state),
            final(state),
        ),
        old(state).secret_for(from@) == Some(SecretView::Empty) ==> match res {
            Some(m) => m@.from == old(state).own().address && (m@.content matches SignedContentView::Trust(
                a,
            ) && trusted(old(state), final(state), from@.name, Some(a))),
            None => trusted(old(state), final(state), from@.name, None),
        },
{
    let relation = state.relation(from);
    proof {
        reveal_strlit("allowedTrust");
        reveal_strlit("self");
        reveal_strlit("trusted");
        reveal_strlit("unknown");
        assert("allowedTrust"@.len() == 12);
        assert("self"@.len() == 4 && "trusted"@.len() == 7 && "unknown"@.len() == 7);
        if old(state).secret_for(from@) != Some(SecretView::Empty) {
            assert(relation@ != "allowedTrust"@);
        }
    }
    if str_equal(relation.as_str(), "allowedTrust") {
        match state.trust(from.name.clone()) {
            Some(forein) => Some(ServerMsg::new(&state.get_address(), MsgContent::Trust(forein))),
            None => None,
        }
    } else {
        None
    }
}

/// Joining the group `group`: the store forgets the messages it has seen, and the client
/// announces itself in the group.
pub fn on_join_group(state: &mut Crypto, group: String) -> (res: ServerMsg)
    requires
        old(state).wf(),
    ensures
        final(state).wf(),
        final(state).msgs().len() == 0,
        final(state).own() == old(state).own(),
        final(state).proxy() == old(state).proxy(),
        final(state).agents() == old(state).agents(),
        final(state).encrypting() == old(state).encrypting(),
        res@.from == old(state).own().address,
        res@.content == SignedContentView::Join(group@),
{
    state.empty_msgs();
    ServerMsg::new(&state.get_address(), MsgContent::Join(group))
}

/// What the client answers the message `msg` with: its public key to someone who joined, so
/// that they can trust it; nothing to anything else.
pub fn reply_to(msg: &ServerMsg, state: &Crypto) -> (res: Option<ServerMsg>)
    requires
        state.wf(),
    ensures
        res is Some <==> msg@.content is Join,
        res matches Some(m) ==> m@.from == state.own().address && m@.content
            == SignedContentView::PublicKey(base64_encode_spec(state.own().public_key)),
{
    match &msg.content {
        MsgContent::Join(_) => Some(ServerMsg::new(&state.get_address(), MsgContent::PublicKey(state.public_key()))),
        _ => None,
    }
}

} // verus!
