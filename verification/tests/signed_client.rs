use k256::ecdsa::signature::Signer;
use k256::ecdsa::{Signature, SigningKey};
use std::collections::hash_map::DefaultHasher;
use std::hash::{Hash, Hasher};
use yakking_yak::cli::serverhandlers::decodeToPublicKeyBytes;
use yakking_yak::client::serverhandlers::{MsgContent, SecureMsgIdentifier, ServerMsg};
use yakking_yak::client::store::Crypto;
use yakking_yak::client::utils::{calc_hash, Address};
use yakking_yak::codec::{encode_base64_bytes, encode_base64_str};

fn signing_key(seed: u8) -> SigningKey {
    SigningKey::from_bytes(&[seed; 32].into()).unwrap()
}

fn sec1(sk: &SigningKey) -> Vec<u8> {
    sk.verifying_key().to_encoded_point(true).as_bytes().to_vec()
}

fn sign(sk: &SigningKey, text: &str) -> String {
    let sig: Signature = sk.sign(text.as_bytes());
    encode_base64_bytes(&sig.to_bytes().to_vec())
}

/// A signed message: `*address*label*base64(body)*time*signature*`.
fn signed(sk: &SigningKey, from: &Address, label: &str, body: &str, time: i64) -> String {
    let pre = format!("*{}*{}*{}*{}*", from.as_sendable(), label, encode_base64_str(body), time);
    let sig = sign(sk, &pre);
    format!("{}{}*", pre, sig)
}

fn pair() -> (Crypto, Crypto) {
    let mut a = Crypto::new("alice", sec1(&signing_key(1)), 11);
    let mut b = Crypto::new("bob", sec1(&signing_key(2)), 22);
    assert!(a.add_public_key(b.get_address(), decodeToPublicKeyBytes(b.public_key())));
    assert!(b.add_public_key(a.get_address(), decodeToPublicKeyBytes(a.public_key())));
    assert_eq!(a.trust("bob".to_string()).map(|x| x.name), Some("bob".to_string()));
    assert!(b.trust("alice".to_string()).is_some());
    (a, b)
}

#[test]
fn new_store_knows_and_trusts_itself() {
    let a = Crypto::new("alice", vec![1, 2, 3], 5);
    assert_eq!(a.relation(&a.get_address()), "self");
    assert_eq!(a.relation(&Address::new("x", vec![9])), "unknown");
    assert_eq!(a.list_people(), format!("self: alice@{}\n", encode_base64_bytes(&vec![1, 2, 3])));
    assert!(a.get_msgs().is_empty());
    let same_seed = Crypto::new("alice", vec![1, 2, 3], 5);
    assert_eq!(a.public_key(), same_seed.public_key());
}

#[test]
fn adding_a_key_twice_is_refused() {
    let mut a = Crypto::new("alice", vec![1], 5);
    let b = Crypto::new("bob", vec![2], 6);
    assert!(a.add_public_key(b.get_address(), decodeToPublicKeyBytes(b.public_key())));
    assert!(!a.add_public_key(b.get_address(), [0u8; 32]));
    assert_eq!(a.relation(&b.get_address()), "allowedTrust");
    assert!(a.agent_from_pub_key(&b.public_key()).is_some());
    assert!(a.agent_from_pub_key("nope").is_none());
}

#[test]
fn store_to_store_secure_text() {
    let (mut a, mut b) = pair();
    assert_eq!(a.relation(&b.get_address()), "trusted");
    let ids = a.encrypt("hello".to_string());
    assert_eq!(ids.len(), 2);
    assert_eq!(ids[1].address.name, "bob");
    // a fresh ratchet holds one link; the first message goes to the next one
    assert_eq!(ids[1].ord, 1);
    assert!(ids[1].is_sender);
    let payload = a.get_encrypted_msg(&ids[1]).unwrap();
    let data = format!("{}*{}*{};", b.get_address().as_sendable(), ids[1].ord, encode_base64_bytes(&payload));
    let got = b.decrypt(&a.get_address(), data).unwrap();
    assert_eq!(got.ord, 1);
    assert!(!got.is_sender);
    assert_eq!(got.address.name, "alice");
    assert_eq!(b.get_encrypted_msg(&got), Some(b"hello".to_vec()));
}

#[test]
fn store_reads_its_own_secure_text() {
    let mut a = Crypto::new("alice", vec![1, 2], 7);
    let ids = a.encrypt("note to self".to_string());
    assert_eq!(ids.len(), 1);
    let payload = a.get_encrypted_msg(&ids[0]).unwrap();
    let data = format!("{}*{}*{};", a.get_address().as_sendable(), ids[0].ord, encode_base64_bytes(&payload));
    let got = a.decrypt(&a.get_address(), data).unwrap();
    assert!(!got.is_sender);
    assert_eq!(a.get_encrypted_msg(&got), Some(b"note to self".to_vec()));
}

#[test]
fn secure_text_for_someone_else_gives_nothing() {
    let (mut a, mut b) = pair();
    let ids = a.encrypt("x".to_string());
    let payload = a.get_encrypted_msg(&ids[0]).unwrap();
    let data = format!("{}*{}*{};", a.get_address().as_sendable(), ids[0].ord, encode_base64_bytes(&payload));
    assert!(b.decrypt(&a.get_address(), data).is_none());
    assert!(b.try_decrypt(&a.get_address(), "garbage;".to_string()).is_none());
    let none: Option<Option<SecureMsgIdentifier>> = b.try_decrypt(&a.get_address(), "".to_string());
    assert!(matches!(none, Some(None)));
}

#[test]
fn messages_are_kept_in_time_order() {
    let mut a = Crypto::new("alice", vec![1], 5);
    let from = a.get_address();
    for (t, text) in [(5i64, "e1"), (3, "c"), (5, "e2"), (1, "a")] {
        a.add_msg(ServerMsg { from: from.clone(), content: MsgContent::InsecureText(text.to_string()), time_stamp: t });
    }
    let order: Vec<String> = a
        .get_msgs()
        .into_iter()
        .map(|m| match m.content {
            MsgContent::InsecureText(t) => t,
            _ => String::new(),
        })
        .collect();
    assert_eq!(order, vec!["a", "c", "e1", "e2"]);
    a.empty_msgs();
    assert!(a.get_msgs().is_empty());
}

#[test]
fn signed_messages_are_checked_and_kept() {
    let ka = signing_key(1);
    let (a, mut b) = pair();
    let txt = signed(&ka, &a.get_address(), "i", "hello bob", 1000);
    let msg = ServerMsg::from_server(&txt, &mut b).unwrap();
    assert_eq!(msg.time_stamp, 1000);
    assert_eq!(msg.from.name, "alice");
    assert!(matches!(msg.content, MsgContent::InsecureText(ref t) if t == "hello bob"));
    assert_eq!(b.get_msgs().len(), 1);
    assert_eq!(msg.display(&b), Some("(i) alice at 1970-01-01 00:00:01\rhello bob\rtrusted".to_string()));
    let forged = signed(&signing_key(3), &a.get_address(), "i", "hello bob", 1000);
    assert!(ServerMsg::from_server(&forged, &mut b).is_none());
    assert_eq!(b.get_msgs().len(), 1);
}

#[test]
fn signed_secure_text_is_read() {
    let ka = signing_key(1);
    let (mut a, mut b) = pair();
    let ids = a.encrypt("psst".to_string());
    let payload = a.get_encrypted_msg(&ids[1]).unwrap();
    let body = format!("{}*{}*{};", b.get_address().as_sendable(), ids[1].ord, encode_base64_bytes(&payload));
    let txt = signed(&ka, &a.get_address(), "s", &body, 2000);
    let msg = ServerMsg::from_server(&txt, &mut b).unwrap();
    assert_eq!(msg.display(&b), Some("(s) alice at 1970-01-01 00:00:02\rpsst\rtrusted".to_string()));
}

#[test]
fn signed_public_key_is_taken_in() {
    let kc = signing_key(4);
    let c = Crypto::new("carol", sec1(&kc), 33);
    let mut b = Crypto::new("bob", sec1(&signing_key(2)), 22);
    let txt = signed(&kc, &c.get_address(), "p", &c.public_key(), 3000);
    let msg = ServerMsg::try_from_server(&txt, &mut b).unwrap().unwrap();
    assert_eq!(b.relation(&c.get_address()), "allowedTrust");
    assert_eq!(msg.display(&b), None);
    let bad = signed(&kc, &c.get_address(), "p", "AAAA", 3000);
    assert!(ServerMsg::try_from_server(&bad, &mut b).is_none());
}

#[test]
fn short_unsigned_texts() {
    let mut b = Crypto::new("bob", vec![2], 22);
    assert!(matches!(ServerMsg::try_from_server("*x*i*", &mut b), Some(None)));
    assert!(ServerMsg::try_from_server("*x*_*", &mut b).is_none());
    assert!(ServerMsg::try_from_server("*x*", &mut b).is_none());
}

#[test]
fn calc_hash_is_the_default_hasher_of_the_text() {
    for text in ["", "abc", "héllo wörld"] {
        let mut h = DefaultHasher::new();
        text.to_string().hash(&mut h);
        let expected = encode_base64_bytes(&h.finish().to_be_bytes().to_vec());
        assert_eq!(calc_hash(text), expected);
    }
    assert_ne!(calc_hash("a"), calc_hash("b"));
}

#[test]
fn key_addresses() {
    let a = Address::new("alice", vec![1, 2, 3]);
    assert_eq!(a.as_sendable(), "YWxpY2U=@AQID");
    let back = Address::from_sendable("YWxpY2U=@AQID".to_string());
    assert_eq!(back.name(), "alice");
    assert_eq!(back.public_key, vec![1, 2, 3]);
    assert!(a.same(&back));
    assert!(!a.same(&Address::new("alice", vec![1, 2])));
}

#[test]
fn signatures() {
    let sk = signing_key(9);
    let a = Address::new("alice", sec1(&sk));
    let sig = sign(&sk, "message");
    assert!(a.verify(&sig, "message"));
    assert!(!a.verify(&sig, "messagf"));
    assert_eq!(a.try_verify("***", "message"), None);
    assert_eq!(Address::new("x", vec![1, 2]).try_verify(&sig, "message"), None);
}

#[test]
fn written_messages_are_signed_texts() {
    let sk = signing_key(1);
    let a = Crypto::new("alice", sec1(&sk), 11);
    let msg = ServerMsg::new(&a.get_address(), MsgContent::InsecureText("hi there".to_string()));
    let txt = msg.to_string_at(&a, &sk.to_bytes(), 1_700_000_000).unwrap();
    assert_eq!(txt, signed(&sk, &a.get_address(), "i", "hi there", 1_700_000_000));
    let blank = ServerMsg::new(&a.get_address(), MsgContent::Blank());
    let txt = blank.to_string_at(&a, &sk.to_bytes(), -5).unwrap();
    assert_eq!(txt, signed(&sk, &a.get_address(), "_", "_", -5));
    let trust = ServerMsg::new(&a.get_address(), MsgContent::Trust(Address::new("bob", vec![7, 8])));
    let txt = trust.to_string_at(&a, &sk.to_bytes(), 3).unwrap();
    let bob = Address::new("bob", vec![7, 8]).as_sendable();
    assert_eq!(txt, signed(&sk, &a.get_address(), "t", &bob, 3));
}

#[test]
fn a_key_that_cannot_sign_writes_nothing() {
    let sk = signing_key(1);
    let a = Crypto::new("alice", sec1(&sk), 11);
    let msg = ServerMsg::new(&a.get_address(), MsgContent::Join("room".to_string()));
    assert!(msg.to_string_at(&a, &[0u8; 32], 9).is_none());
    assert!(msg.to_string(&a, &[]).is_none());
    assert!(msg.to_string(&a, &sk.to_bytes()).is_some());
}

#[test]
fn what_one_store_writes_another_reads() {
    let sk = signing_key(1);
    let a = Crypto::new("alice", sec1(&sk), 11);
    let mut b = Crypto::new("bob", sec1(&signing_key(2)), 22);
    for content in [
        MsgContent::InsecureText("hello bob".to_string()),
        MsgContent::Join("lobby".to_string()),
        MsgContent::Leave("lobby".to_string()),
        MsgContent::Trust(Address::new("carol", vec![4, 5, 6])),
        MsgContent::Blank(),
    ] {
        let msg = ServerMsg::new(&a.get_address(), content);
        let txt = msg.to_string_at(&a, &sk.to_bytes(), 42).unwrap();
        let got = ServerMsg::from_server(&txt, &mut b).unwrap();
        assert!(got.from.same(&a.get_address()));
        assert_eq!(got.time_stamp, 42);
        match (&got.content, &msg.content) {
            (MsgContent::InsecureText(x), MsgContent::InsecureText(y)) => assert_eq!(x, y),
            (MsgContent::Join(x), MsgContent::Join(y)) => assert_eq!(x, y),
            (MsgContent::Leave(x), MsgContent::Leave(y)) => assert_eq!(x, y),
            (MsgContent::Trust(x), MsgContent::Trust(y)) => assert!(x.same(y)),
            (MsgContent::Blank(), MsgContent::Blank()) => {},
            _ => panic!("content changed on the way"),
        }
    }
    let key_msg = ServerMsg::new(&a.get_address(), MsgContent::PublicKey(a.public_key()));
    let txt = key_msg.to_string_at(&a, &sk.to_bytes(), 7).unwrap();
    let got = ServerMsg::from_server(&txt, &mut b).unwrap();
    assert!(matches!(got.content, MsgContent::PublicKey(ref k) if *k == a.public_key()));
    assert_eq!(b.relation(&a.get_address()), "allowedTrust");
}

#[test]
fn secure_text_is_written_with_its_entries() {
    let sk = signing_key(1);
    let (mut a, _b) = pair();
    let ids = a.encrypt("psst".to_string());
    let payload = a.get_encrypted_msg(&ids[1]).unwrap();
    let msg = ServerMsg::new(&a.get_address(), MsgContent::SecureText(ids.clone()));
    let txt = msg.to_string_at(&a, &sk.to_bytes(), 8).unwrap();
    let mut body = String::new();
    for id in &ids {
        if let Some(p) = a.get_encrypted_msg(id) {
            body += &format!("{}*{}*{};", id.address.as_sendable(), id.ord, encode_base64_bytes(&p));
        }
    }
    assert!(body.contains(&encode_base64_bytes(&payload)));
    assert_eq!(txt, signed(&sk, &a.get_address(), "s", &body, 8));
}

#[test]
fn a_secure_text_reaches_its_reader_through_the_server() {
    let sk = signing_key(1);
    let (mut a, mut b) = pair();
    let ids = a.encrypt("meet at noon".to_string());
    let msg = ServerMsg::new(&a.get_address(), MsgContent::SecureText(ids));
    let txt = msg.to_string_at(&a, &sk.to_bytes(), 77).unwrap();
    let got = ServerMsg::from_server(&txt, &mut b).unwrap();
    assert!(got.from.same(&a.get_address()));
    assert_eq!(got.time_stamp, 77);
    match got.content {
        MsgContent::SecureText(read) => {
            assert_eq!(read.len(), 1);
            assert!(!read[0].is_sender);
            assert!(read[0].address.same(&a.get_address()));
            assert_eq!(b.get_encrypted_msg(&read[0]), Some(b"meet at noon".to_vec()));
        },
        _ => panic!("expected a secure text"),
    }
}

#[test]
fn messages_that_cannot_be_shown() {
    let (a, b) = pair();
    let mut msg = ServerMsg::new(&a.get_address(), MsgContent::InsecureText("hi".to_string()));
    msg.time_stamp = 1000;
    assert_eq!(msg.try_display(&b), Some(Some("(i) alice at 1970-01-01 00:00:01\rhi\rtrusted".to_string())));
    msg.time_stamp = i64::MAX;
    assert_eq!(msg.try_display(&b), None);
    let mut empty = ServerMsg::new(&a.get_address(), MsgContent::SecureText(vec![]));
    empty.time_stamp = 1000;
    assert_eq!(empty.try_display(&b), None);
    let unknown = SecureMsgIdentifier { ord: 0, address: Address::new("zed", vec![5]), is_sender: false };
    let mut nobody = ServerMsg::new(&a.get_address(), MsgContent::SecureText(vec![unknown]));
    nobody.time_stamp = 1000;
    assert_eq!(
        nobody.try_display(&b),
        Some(Some(
            "(s) alice at 1970-01-01 00:00:01\rhas sent a secure message but you cannot read it as you do not trust them\rtrusted"
                .to_string()
        ))
    );
    let missing = SecureMsgIdentifier { ord: 9, address: a.get_address(), is_sender: false };
    let mut unread = ServerMsg::new(&a.get_address(), MsgContent::SecureText(vec![missing]));
    unread.time_stamp = 1000;
    assert_eq!(unread.try_display(&b), None);
}
