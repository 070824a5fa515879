//! What one store sends another through the server: a secure text that a store writes reads,
//! at the store it was meant for, as the text.
use vstd::prelude::*;
use vstd::utf8::*;
use crate::client::ratchet::{extended, lemma_step_keeps_results, step};
use crate::client::serverhandlers::{
    entries_encoded, from_server_ok, lemma_labels_distinct, lemma_signed_fields, pre_signed_msg,
    pre_signed_text, received, secure_body, secure_entry, sent_body, sent_label, signed_fields,
    signed_text, written_ok, MsgIdView, ServerMsg, SignedContentView, SignedMsgView,
};
use crate::client::store::{
    decrypt_ok, decrypt_plan, encrypted_msg_spec, first_agent_at, lemma_store_channel, next_link, plan_for,
    sealed_agent, sealed_opens, sends_to, sent_ids, AgentView, Crypto, DecryptPlan,
};
use crate::client::utils::{
    encoded_bytes, key_from_sendable, key_sendable, key_sendable_ok, lemma_key_sendable_roundtrip,
    verify_spec, KeyAddrView,
};
use crate::codec::{
    base64_decode_spec, base64_encode_spec, dec_int, dec_nat, decode_base64_spec,
    encode_base64_text, is_base64_char, is_digit,
    lemma_dec_nat, lemma_parse_dec, parse_num_spec,
};
use crate::text::{
    is_ws, join, lemma_split_and_clean_join, lemma_split_and_clean_terminated, plain_piece, plain_pieces,
    split_and_clean_spec, terminated,
};
use crate::crypto::{k256_sign_spec, k256_verify_spec};
use crate::wire::encoded_text;

verus! {

/// The entry of a kept payload `p` of the message `id`, without its closing `;`:
/// `address*link*base64(payload)`.
pub open spec fn entry_core(id: MsgIdView, p: Seq<u8>) -> Seq<char> {
    key_sendable(id.address) + "*"@ + dec_int(id.ord as int) + "*"@ + base64_encode_spec(p)
}

/// The entries of the messages `ids` whose payloads the store `c` keeps, in their order.
pub open spec fn kept_entries(ids: Seq<MsgIdView>, c: &Crypto) -> Seq<Seq<char>>
    decreases ids.len(),
{
    if ids.len() == 0 {
        seq![]
    } else {
        kept_entries(ids.drop_last(), c) + match encrypted_msg_spec(c, ids.last()).unwrap() {
            Some(p) => seq![entry_core(ids.last(), p)],
            None => seq![],
        }
    }
}

/// The body of a secure text is its kept entries, each closed by `;`.
proof fn lemma_body_terminated(ids: Seq<MsgIdView>, c: &Crypto)
    ensures
        secure_body(ids, c) == terminated(kept_entries(ids, c), ';'),
    decreases ids.len(),
{
    reveal_strlit(";");
    if ids.len() == 0 {
        assert(kept_entries(ids, c) =~= Seq::<Seq<char>>::empty());
    } else {
        lemma_body_terminated(ids.drop_last(), c);
        let k = kept_entries(ids.drop_last(), c);
        match encrypted_msg_spec(c, ids.last()).unwrap() {
            Some(p) => {
                let e = entry_core(ids.last(), p);
                assert(kept_entries(ids, c) == k + seq![e]);
                assert((k + seq![e]).drop_last() =~= k);
                assert((k + seq![e]).last() == e);
                assert(secure_entry(ids.last(), c) =~= e + seq![';']);
                assert(secure_body(ids, c) =~= terminated(k, ';') + e + seq![';']);
            },
            None => {
                assert(kept_entries(ids, c) =~= k);
                assert(secure_entry(ids.last(), c) =~= Seq::<char>::empty());
                assert(secure_body(ids, c) =~= secure_body(ids.drop_last(), c));
            },
        }
    }
}

/// The kept entries of two runs of messages, one after the other.
proof fn lemma_kept_concat(x: Seq<MsgIdView>, y: Seq<MsgIdView>, c: &Crypto)
    ensures
        kept_entries(x + y, c) == kept_entries(x, c) + kept_entries(y, c),
    decreases y.len(),
{
    if y.len() == 0 {
        assert(x + y =~= x);
        assert(kept_entries(y, c) =~= Seq::<Seq<char>>::empty());
        assert(kept_entries(x, c) + kept_entries(y, c) =~= kept_entries(x, c));
    } else {
        lemma_kept_concat(x, y.drop_last(), c);
        assert((x + y).drop_last() =~= x + y.drop_last());
        assert((x + y).last() == y.last());
        let t = match encrypted_msg_spec(c, y.last()).unwrap() {
            Some(p) => seq![entry_core(y.last(), p)],
            None => Seq::<Seq<char>>::empty(),
        };
        assert(kept_entries(x + y, c) == kept_entries(x + y.drop_last(), c) + t);
        assert(kept_entries(y, c) == kept_entries(y.drop_last(), c) + t);
        assert(kept_entries(x, c) + kept_entries(y.drop_last(), c) + t =~= kept_entries(x, c) + (
        kept_entries(y.drop_last(), c) + t));
    }
}

/// Every kept entry is the entry of one of the messages, with the payload kept for it.
proof fn lemma_kept_elements(ids: Seq<MsgIdView>, c: &Crypto)
    ensures
        forall|q: int|
            #![trigger kept_entries(ids, c)[q]]
            0 <= q < kept_entries(ids, c).len() ==> exists|p: int|
                0 <= p < ids.len() && (#[trigger] encrypted_msg_spec(c, ids[p])).unwrap() is Some
                    && kept_entries(ids, c)[q] == entry_core(
                    ids[p],
                    encrypted_msg_spec(c, ids[p]).unwrap().unwrap(),
                ),
    decreases ids.len(),
{
    if ids.len() > 0 {
        let init = ids.drop_last();
        lemma_kept_elements(init, c);
        let k = kept_entries(init, c);
        assert forall|q: int|
            #![trigger kept_entries(ids, c)[q]]
            0 <= q < kept_entries(ids, c).len() implies exists|p: int|
            0 <= p < ids.len() && (#[trigger] encrypted_msg_spec(c, ids[p])).unwrap() is Some
                && kept_entries(ids, c)[q] == entry_core(
                ids[p],
                encrypted_msg_spec(c, ids[p]).unwrap().unwrap(),
            ) by {
            if q < k.len() {
                let p = choose|p: int|
                    0 <= p < init.len() && (#[trigger] encrypted_msg_spec(c, init[p])).unwrap() is Some
                        && k[q] == entry_core(init[p], encrypted_msg_spec(c, init[p]).unwrap().unwrap());
                assert(init[p] == ids[p]);
                assert(kept_entries(ids, c)[q] == k[q]);
            } else {
                let p = ids.len() - 1;
                assert(ids[p] == ids.last());
                assert(encrypted_msg_spec(c, ids[p]).unwrap() is Some);
            }
        }
    }
}

/// The messages sent to two runs of agents, one after the other.
proof fn lemma_sent_concat(x: Seq<AgentView>, y: Seq<AgentView>)
    ensures
        sent_ids(x + y) == sent_ids(x) + sent_ids(y),
    decreases y.len(),
{
    if y.len() == 0 {
        assert(x + y =~= x);
        assert(sent_ids(x) + sent_ids(y) =~= sent_ids(x));
    } else {
        lemma_sent_concat(x, y.drop_last());
        assert((x + y).drop_last() =~= x + y.drop_last());
        assert((x + y).last() == y.last());
        if sends_to(y.last()) {
            let m = MsgIdView { ord: next_link(y.last()) as usize, address: y.last().keys.address, is_sender: true };
            assert(sent_ids(x) + sent_ids(y.drop_last()).push(m) =~= (sent_ids(x) + sent_ids(
                y.drop_last(),
            )).push(m));
        }
    }
}

/// What holds of the address of every agent that is sent to holds of the address of every
/// message sent.
proof fn lemma_sent_addresses(agents: Seq<AgentView>, q: spec_fn(KeyAddrView) -> bool)
    requires
        forall|k: int| 0 <= k < agents.len() && sends_to(#[trigger] agents[k]) ==> q(agents[k].keys.address),
    ensures
        forall|p: int| 0 <= p < sent_ids(agents).len() ==> q(#[trigger] sent_ids(agents)[p].address),
        forall|p: int| 0 <= p < sent_ids(agents).len() ==> (#[trigger] sent_ids(agents)[p]).is_sender,
    decreases agents.len(),
{
    if agents.len() > 0 {
        let init = agents.drop_last();
        assert forall|k: int| 0 <= k < init.len() && sends_to(#[trigger] init[k]) implies q(
            init[k].keys.address,
        ) by {
            assert(init[k] == agents[k]);
        }
        lemma_sent_addresses(init, q);
        assert(agents[agents.len() - 1] == agents.last());
        if sends_to(agents.last()) {
            let m = MsgIdView { ord: next_link(agents.last()) as usize, address: agents.last().keys.address, is_sender: true };
            assert(sent_ids(agents) == sent_ids(init).push(m));
            assert(q(m.address));
            assert forall|p: int| 0 <= p < sent_ids(agents).len() implies q(#[trigger] sent_ids(agents)[p].address) by {
                if p < sent_ids(init).len() {
                    assert(sent_ids(agents)[p] == sent_ids(init)[p]);
                }
            }
        } else {
            assert(sent_ids(agents) == sent_ids(init));
        }
    } else {
        assert(sent_ids(agents).len() == 0);
    }
}

/// An entry reads: it splits at `*` into the address, the link and the Base64 payload, each of
/// which reads back as what was written; and it holds neither `;` nor whitespace.
proof fn lemma_entry_reads(id: MsgIdView, p: Seq<u8>)
    requires
        id.address.name.len() > 0,
        id.address.public_key.len() > 0,
        encoded_text(id.address.name),
        encoded_bytes(id.address.public_key),
        encoded_bytes(p),
        p.len() > 0,
    ensures
        plain_piece(entry_core(id, p), ';'),
        split_and_clean_spec(entry_core(id, p), '*') == seq![
            key_sendable(id.address),
            dec_int(id.ord as int),
            base64_encode_spec(p),
        ],
        key_sendable_ok(key_sendable(id.address)),
        key_from_sendable(key_sendable(id.address)) == id.address,
        parse_num_spec(dec_int(id.ord as int), false, 0, usize::MAX as int) == Some(id.ord as int),
        base64_decode_spec(encode_utf8(base64_encode_spec(p))) == Some(p),
{
    reveal_strlit("*");
    let a = key_sendable(id.address);
    let d = dec_int(id.ord as int);
    let b = base64_encode_spec(p);
    lemma_key_sendable_roundtrip(id.address);
    lemma_dec_nat(id.ord as nat);
    lemma_parse_dec(id.ord as int, false, 0, usize::MAX as int);
    assert(d == dec_nat(id.ord as nat));
    assert forall|k: int| 0 <= k < b.len() implies #[trigger] b[k] != '*' && b[k] != ';' && !is_ws(b[k]) by {
        assert(is_base64_char(b[k]));
    }
    assert forall|k: int| 0 <= k < d.len() implies #[trigger] d[k] != '*' && d[k] != ';' && !is_ws(d[k]) by {
        assert(is_digit(d[k]));
    }
    assert(a.len() > 0) by {
        assert(a[base64_encode_spec(encode_utf8(id.address.name)).len() as int] == '@');
    }
    assert(b.len() > 0);
    let ps = seq![a, d, b];
    assert(plain_pieces(ps, '*')) by {
        assert forall|k: int| 0 <= k < ps.len() implies plain_piece(#[trigger] ps[k], '*') by {
            if k == 0 {
                assert(ps[0] == a);
            } else if k == 1 {
                assert(ps[1] == d);
            } else {
                assert(ps[2] == b);
            }
        }
    }
    assert(ps.drop_last() =~= seq![a, d]);
    assert(seq![a, d].drop_last() =~= seq![a]);
    assert(join(seq![a], '*') == a);
    assert(join(seq![a, d], '*') == a + seq!['*'] + d);
    assert(join(ps, '*') == join(seq![a, d], '*') + seq!['*'] + b);
    let e = entry_core(id, p);
    assert(e =~= join(ps, '*'));
    lemma_split_and_clean_join(ps, '*');
    assert forall|k: int| 0 <= k < e.len() implies #[trigger] e[k] != ';' && !is_ws(e[k]) by {
        if k < a.len() {
            assert(e[k] == a[k]);
        } else if k == a.len() {
            assert(e[k] == '*');
        } else if k < a.len() + 1 + d.len() {
            assert(e[k] == d[k - a.len() - 1]);
        } else if k == a.len() + 1 + d.len() {
            assert(e[k] == '*');
        } else {
            assert(e[k] == b[k - a.len() - 2 - d.len()]);
        }
    }
}

/// Whether the part `m` of a secure text reads, addressed to someone other than `own`.
pub open spec fn reads_elsewhere(m: Seq<char>, own: KeyAddrView) -> bool {
    let parts = split_and_clean_spec(m, '*');
    &&& parts.len() >= 3
    &&& key_sendable_ok(parts[0])
    &&& parse_num_spec(parts[1], false, 0, usize::MAX as int) is Some
    &&& base64_decode_spec(encode_utf8(parts[2])) is Some
    &&& key_from_sendable(parts[0]) != own
}

/// Parts that read and are addressed to others ask nothing of a store that did not send the
/// text: its plan is that of the parts after them.
proof fn lemma_plan_skips(
    own: KeyAddrView,
    agents: Seq<AgentView>,
    from: KeyAddrView,
    pre: Seq<Seq<char>>,
    rest: Seq<Seq<char>>,
)
    requires
        from != own,
        forall|q: int| 0 <= q < pre.len() ==> reads_elsewhere(#[trigger] pre[q], own),
    ensures
        decrypt_plan(own, agents, from, pre + rest) == decrypt_plan(own, agents, from, rest),
    decreases pre.len(),
{
    if pre.len() == 0 {
        assert(pre + rest =~= rest);
    } else {
        let msgs = pre + rest;
        assert(msgs[0] == pre[0]);
        assert(reads_elsewhere(pre[0], own));
        assert(msgs.drop_first() =~= pre.drop_first() + rest);
        assert forall|q: int| 0 <= q < pre.drop_first().len() implies reads_elsewhere(
            #[trigger] pre.drop_first()[q],
            own,
        ) by {
            assert(pre.drop_first()[q] == pre[q + 1]);
        }
        lemma_plan_skips(own, agents, from, pre.drop_first(), rest);
    }
}

/// The first agent at an address is at that address, and no agent before it is.
proof fn lemma_first_agent(agents: Seq<AgentView>, a: KeyAddrView)
    ensures
        first_agent_at(agents, a) matches Some(i) ==> 0 <= i < agents.len() && agents[i].keys.address == a
            && forall|k: int| 0 <= k < i ==> (#[trigger] agents[k]).keys.address != a,
    decreases agents.len(),
{
    if agents.len() > 0 && agents[0].keys.address != a {
        let rest = agents.drop_first();
        lemma_first_agent(rest, a);
        if let Some(i) = first_agent_at(rest, a) {
            assert forall|k: int| 0 <= k < i + 1 implies (#[trigger] agents[k]).keys.address != a by {
                if k > 0 {
                    assert(agents[k] == rest[k - 1]);
                }
            }
        }
    }
}

/// Agents at the same addresses, one for one, have their first agent at any address in the
/// same place.
proof fn lemma_first_agent_same(x: Seq<AgentView>, y: Seq<AgentView>, a: KeyAddrView)
    requires
        x.len() == y.len(),
        forall|k: int| 0 <= k < x.len() ==> (#[trigger] x[k]).keys.address == y[k].keys.address,
    ensures
        first_agent_at(x, a) == first_agent_at(y, a),
    decreases x.len(),
{
    if x.len() > 0 {
        assert(x[0].keys.address == y[0].keys.address);
        assert forall|k: int| 0 <= k < x.drop_first().len() implies (#[trigger] x.drop_first()[k]).keys.address
            == y.drop_first()[k].keys.address by {
            assert(x.drop_first()[k] == x[k + 1]);
            assert(y.drop_first()[k] == y[k + 1]);
        }
        lemma_first_agent_same(x.drop_first(), y.drop_first(), a);
    }
}

/// The message that a store sends at the next link of its agent `i`.
pub open spec fn sent_id(a: AgentView) -> MsgIdView {
    MsgIdView { ord: next_link(a) as usize, address: a.keys.address, is_sender: true }
}

/// The body of the secure text that `a1`, the store `a0` once it sealed `t` for the agents it
/// sends to, writes: where its first agent at the address `bown` is sent to, every agent it
/// sends to has a name and a key, and every payload it keeps for the text is non-empty and
/// was encoded, the body splits at `;` into its entries; the entries before the one of that
/// agent read and are addressed to others; that one is the payload sealed at its next link.
proof fn lemma_body_entries(a0: Crypto, a1: Crypto, t: Seq<u8>, i: int, bown: KeyAddrView)
    requires
        a1.agents() == Seq::new(a0.agents().len(), |k: int| sealed_agent(a0.agents()[k], t)),
        first_agent_at(a0.agents(), bown) == Some(i),
        sends_to(a0.agents()[i]),
        next_link(a0.agents()[i]) <= usize::MAX,
        forall|k: int|
            0 <= k < a0.agents().len() && sends_to(#[trigger] a0.agents()[k]) ==> a0.agents()[k].keys.address.name.len()
                > 0 && a0.agents()[k].keys.address.public_key.len() > 0,
        entries_encoded(sent_ids(a0.agents()), &a1),
        forall|p: int|
            0 <= p < sent_ids(a0.agents()).len() ==> match (#[trigger] encrypted_msg_spec(
                &a1,
                sent_ids(a0.agents())[p],
            )).unwrap() {
                Some(pl) => pl.len() > 0,
                None => true,
            },
    ensures
        ({
            let ids = sent_ids(a0.agents());
            let n = next_link(a0.agents()[i]);
            let sealed = a1.agents()[i].to.unwrap().results[n as int].unwrap();
            let e = entry_core(sent_id(a0.agents()[i]), sealed);
            let pre = kept_entries(sent_ids(a0.agents().take(i)), &a1);
            let post = kept_entries(sent_ids(a0.agents().skip(i + 1)), &a1);
            &&& sent_id(a0.agents()[i]).address == bown
            &&& encrypted_msg_spec(&a1, sent_id(a0.agents()[i])) == Some(Some(sealed))
            &&& split_and_clean_spec(secure_body(ids, &a1), ';') == pre + (seq![e] + post)
            &&& secure_body(ids, &a1).len() > 0
            &&& forall|q: int| 0 <= q < pre.len() ==> reads_elsewhere(#[trigger] pre[q], bown)
            &&& sealed.len() > 0
            &&& encoded_text(bown.name) && encoded_bytes(bown.public_key) && encoded_bytes(sealed)
            &&& bown.name.len() > 0 && bown.public_key.len() > 0
        }),
{
    let agents = a0.agents();
    let ids = sent_ids(agents);
    let n = next_link(agents[i]);
    let id_i = sent_id(agents[i]);
    let x = agents.take(i);
    let y = agents.skip(i + 1);
    lemma_first_agent(agents, bown);
    assert(agents =~= x + seq![agents[i]] + y);
    lemma_sent_concat(x + seq![agents[i]], y);
    lemma_sent_concat(x, seq![agents[i]]);
    let one = seq![agents[i]];
    assert(one.drop_last() =~= Seq::<AgentView>::empty());
    assert(one.last() == agents[i]);
    assert(sent_ids(one.drop_last()) == Seq::<MsgIdView>::empty());
    assert(sent_ids(one) == sent_ids(one.drop_last()).push(id_i));
    assert(sent_ids(one) =~= seq![id_i]);
    let pre_ids = sent_ids(x);
    let post_ids = sent_ids(y);
    assert(ids == pre_ids + seq![id_i] + post_ids);
    // the payload sealed for agent i is kept
    assert forall|k: int| 0 <= k < a1.agents().len() implies (#[trigger] a1.agents()[k]).keys.address
        == agents[k].keys.address by {
        assert(a1.agents()[k] == sealed_agent(agents[k], t));
    }
    lemma_first_agent_same(a1.agents(), agents, bown);
    let r = agents[i].to.unwrap();
    lemma_step_keeps_results(r, n, t);
    assert(a1.agents()[i] == sealed_agent(agents[i], t));
    assert(a1.agents()[i].to == Some(step(r, n, t)));
    let sealed = a1.agents()[i].to.unwrap().results[n as int].unwrap();
    assert(id_i.ord as int == n);
    assert(encrypted_msg_spec(&a1, id_i) == Some(Some(sealed)));
    let e = entry_core(id_i, sealed);
    lemma_kept_concat(pre_ids + seq![id_i], post_ids, &a1);
    lemma_kept_concat(pre_ids, seq![id_i], &a1);
    let one_id = seq![id_i];
    assert(one_id.drop_last() =~= Seq::<MsgIdView>::empty());
    assert(one_id.last() == id_i);
    assert(kept_entries(one_id.drop_last(), &a1) == Seq::<Seq<char>>::empty());
    assert(kept_entries(one_id, &a1) == kept_entries(one_id.drop_last(), &a1) + seq![e]);
    assert(kept_entries(one_id, &a1) =~= seq![e]);
    let pre = kept_entries(pre_ids, &a1);
    let post = kept_entries(post_ids, &a1);
    let all = kept_entries(ids, &a1);
    assert(all =~= pre + (seq![e] + post));
    // every agent sent to has a name and a key
    let named = |addr: KeyAddrView| addr.name.len() > 0 && addr.public_key.len() > 0;
    lemma_sent_addresses(agents, named);
    // the entries are plain
    lemma_kept_elements(ids, &a1);
    assert forall|q: int| 0 <= q < all.len() implies plain_piece(#[trigger] all[q], ';') by {
        let p = choose|p: int|
            0 <= p < ids.len() && (#[trigger] encrypted_msg_spec(&a1, ids[p])).unwrap() is Some && all[q]
                == entry_core(ids[p], encrypted_msg_spec(&a1, ids[p]).unwrap().unwrap());
        let pl = encrypted_msg_spec(&a1, ids[p]).unwrap().unwrap();
        assert(named(ids[p].address));
        lemma_entry_reads(ids[p], pl);
    }
    lemma_body_terminated(ids, &a1);
    lemma_split_and_clean_terminated(all, ';');
    assert(all.len() > 0);
    assert(all.drop_last().len() + 1 == all.len());
    assert(secure_body(ids, &a1) =~= terminated(all.drop_last(), ';') + all.last() + seq![';']);
    // the entries before agent i's read and are addressed to others
    let elsewhere = |addr: KeyAddrView| addr != bown && addr.name.len() > 0 && addr.public_key.len() > 0;
    assert forall|k: int| 0 <= k < x.len() && sends_to(#[trigger] x[k]) implies elsewhere(x[k].keys.address) by {
        assert(x[k] == agents[k]);
    }
    lemma_sent_addresses(x, elsewhere);
    lemma_kept_elements(pre_ids, &a1);
    assert forall|q: int| 0 <= q < pre.len() implies reads_elsewhere(#[trigger] pre[q], bown) by {
        let p = choose|p: int|
            0 <= p < pre_ids.len() && (#[trigger] encrypted_msg_spec(&a1, pre_ids[p])).unwrap() is Some
                && pre[q] == entry_core(pre_ids[p], encrypted_msg_spec(&a1, pre_ids[p]).unwrap().unwrap());
        let pl = encrypted_msg_spec(&a1, pre_ids[p]).unwrap().unwrap();
        assert(pre_ids[p] == ids[p]);
        assert(elsewhere(pre_ids[p].address));
        lemma_entry_reads(pre_ids[p], pl);
    }
    // agent i's own entry
    let pi = pre_ids.len() as int;
    assert(ids[pi] == id_i);
    assert(named(ids[pi].address));
}

/// A secure text reaches the store it is meant for through the server: `a0` and `b` trust
/// each other under each other's public keys (the first agent of `a0` at `b`'s address, `i`,
/// is sent to; `b`'s first agent at `a0`'s address, `j`, is trusted with a ratchet to read),
/// and `b` has not used the link that `a0` seals at. When `a1`, what `encrypt` made of `a0`
/// for `text`, writes the secure text of the messages it sent (as `to_string_at` does, which
/// also gives `written_ok`), and the signature checks out under `a0`'s key, then `b` reads it
/// without failing, as a secure text from `a0` stamped `time`, whose payload it then keeps is
/// the text. Every agent that `a0` sends to has a name and a key, and every payload it keeps
/// for the text is non-empty: an empty part would vanish when the text is split.
pub proof fn lemma_secure_delivery(
    a0: Crypto,
    a1: Crypto,
    text: Seq<char>,
    i: int,
    m: SignedMsgView,
    time: i64,
    secret: Seq<u8>,
    b: Crypto,
    j: int,
)
    requires
        a0.wf(),
        b.wf(),
        a1.agents() == Seq::new(a0.agents().len(), |k: int| sealed_agent(a0.agents()[k], encode_utf8(text))),
        forall|k: int|
            0 <= k < a0.agents().len() ==> sealed_opens(
                #[trigger] a0.agents()[k],
                a1.agents()[k],
                encode_utf8(text),
            ),
        a1.own() == a0.own(),
        a0.own().address != b.own().address,
        a0.own().address.name.len() > 0,
        a0.own().address.public_key.len() > 0,
        first_agent_at(a0.agents(), b.own().address) == Some(i),
        sends_to(a0.agents()[i]),
        a0.agents()[i].keys.public_key == b.own().public_key,
        next_link(a0.agents()[i]) <= usize::MAX,
        first_agent_at(b.agents(), a0.own().address) == Some(j),
        b.agents()[j].keys.secret is Shared,
        b.agents()[j].from is Some,
        b.agents()[j].keys.public_key == a0.own().public_key,
        !(next_link(a0.agents()[i]) > b.agents()[j].from.unwrap().results.len()
            && b.agents()[j].from.unwrap().results.last() is Some),
        extended(b.agents()[j].from.unwrap().results, next_link(a0.agents()[i]))[next_link(
            a0.agents()[i],
        ) as int] is None,
        forall|k: int|
            0 <= k < a0.agents().len() && sends_to(#[trigger] a0.agents()[k]) ==> a0.agents()[k].keys.address.name.len()
                > 0 && a0.agents()[k].keys.address.public_key.len() > 0,
        forall|p: int|
            0 <= p < sent_ids(a0.agents()).len() ==> match (#[trigger] encrypted_msg_spec(
                &a1,
                sent_ids(a0.agents())[p],
            )).unwrap() {
                Some(pl) => pl.len() > 0,
                None => true,
            },
        m.from == a0.own().address,
        m.content == SignedContentView::SecureText(sent_ids(a0.agents())),
        signed_text(m, &a1, time, secret) is Some,
        written_ok(m, &a1, time, secret),
        k256_verify_spec(
            a0.own().address.public_key,
            k256_sign_spec(secret, encode_utf8(pre_signed_msg(m, &a1, time))).unwrap(),
            encode_utf8(pre_signed_msg(m, &a1, time)),
        ) == Some(true),
    ensures
        from_server_ok(signed_text(m, &a1, time, secret).unwrap(), &b),
        forall|new: Crypto, res: Option<ServerMsg>|
            received(&b, &new, signed_text(m, &a1, time, secret).unwrap(), res) ==> {
                let id = MsgIdView {
                    ord: next_link(a0.agents()[i]) as usize,
                    address: a0.own().address,
                    is_sender: false,
                };
                &&& res is Some
                &&& res.unwrap()@ == (SignedMsgView {
                    from: a0.own().address,
                    content: SignedContentView::SecureText(seq![id]),
                    time_stamp: time,
                })
                &&& encrypted_msg_spec(&new, id) == Some(Some(encode_utf8(text)))
            },
{
    let t = encode_utf8(text);
    let ids = sent_ids(a0.agents());
    let n = next_link(a0.agents()[i]);
    let bown = b.own().address;
    let aown = a0.own().address;
    lemma_labels_distinct();
    reveal_strlit("s");
    lemma_body_entries(a0, a1, t, i, bown);
    let sealed = a1.agents()[i].to.unwrap().results[n as int].unwrap();
    let e = entry_core(sent_id(a0.agents()[i]), sealed);
    let pre = kept_entries(sent_ids(a0.agents().take(i)), &a1);
    let post = kept_entries(sent_ids(a0.agents().skip(i + 1)), &a1);
    let body = secure_body(ids, &a1);
    assert(sent_body(m.content, &a1) == body);
    lemma_signed_fields(m, &a1, time, secret);
    // what b plans for the body
    lemma_plan_skips(bown, b.agents(), aown, pre, seq![e] + post);
    lemma_entry_reads(sent_id(a0.agents()[i]), sealed);
    lemma_first_agent(b.agents(), aown);
    assert((seq![e] + post)[0] == e);
    assert(plan_for(&b, aown, body) == DecryptPlan::Agent(j, n as usize, sealed));
    // the channel from a0 to b
    lemma_first_agent(a0.agents(), bown);
    assert(sealed_opens(a0.agents()[i], a1.agents()[i], t));
    assert(a1.agents()[i] == sealed_agent(a0.agents()[i], t));
    lemma_store_channel(a0, b, i, j, n, t, sealed);
    let r = b.agents()[j].from.unwrap();
    lemma_step_keeps_results(r, n, sealed);
    // the fields of the text, as b reads them
    let txt = signed_text(m, &a1, time, secret).unwrap();
    let seg = signed_fields(txt);
    let sig = k256_sign_spec(secret, encode_utf8(pre_signed_msg(m, &a1, time))).unwrap();
    assert(seg.len() == 5);
    assert(seg[0] == key_sendable(aown));
    assert(seg[1] == sent_label(m.content));
    assert(seg[1] == "s"@);
    assert(seg[2] == encode_base64_text(body));
    assert(seg[4] == base64_encode_spec(sig));
    assert(key_from_sendable(seg[0]) == aown);
    assert(decode_base64_spec(seg[2]) == Some(body));
    assert(pre_signed_text(seg) == pre_signed_msg(m, &a1, time));
    assert(verify_spec(aown.public_key, seg[4], pre_signed_text(seg)) == Some(true));
    assert((n as usize) as nat == n);
    assert(decrypt_ok(&b, aown, body));
    assert(from_server_ok(txt, &b));
    let id = MsgIdView { ord: n as usize, address: aown, is_sender: false };
    assert forall|new: Crypto, res: Option<ServerMsg>|
        received(&b, &new, signed_text(m, &a1, time, secret).unwrap(), res) implies {
        &&& res is Some
        &&& res.unwrap()@ == (SignedMsgView {
            from: aown,
            content: SignedContentView::SecureText(seq![id]),
            time_stamp: time,
        })
        &&& encrypted_msg_spec(&new, id) == Some(Some(t))
    } by {
        assert forall|k: int| 0 <= k < new.agents().len() implies (#[trigger] new.agents()[k]).keys.address
            == b.agents()[k].keys.address by {
            if k == j {
                assert(new.agents()[k].keys == b.agents()[k].keys);
            } else {
                assert(new.agents()[k] == b.agents()[k]);
            }
        }
        lemma_first_agent_same(new.agents(), b.agents(), aown);
        assert(new.agents()[j].from == Some(step(r, n, sealed)));
    }
}

} // verus!
