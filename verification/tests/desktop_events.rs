use k256::ecdsa::SigningKey;
use yakking_yak::cli::serverhandlers::decodeToPublicKeyBytes;
use yakking_yak::client::events::{on_join_group, on_send_msg, on_user_click, reply_to};
use yakking_yak::client::serverhandlers::{MsgContent, ServerMsg};
use yakking_yak::client::store::Crypto;
use yakking_yak::client::utils::Address;

fn sec1(seed: u8) -> Vec<u8> {
    let sk = SigningKey::from_bytes(&[seed; 32].into()).unwrap();
    sk.verifying_key().to_encoded_point(true).as_bytes().to_vec()
}

fn knowing_each_other() -> (Crypto, Crypto) {
    let mut a = Crypto::new("alice", sec1(1), 11);
    let mut b = Crypto::new("bob", sec1(2), 22);
    assert!(a.add_public_key(b.get_address(), decodeToPublicKeyBytes(b.public_key())));
    assert!(b.add_public_key(a.get_address(), decodeToPublicKeyBytes(a.public_key())));
    (a, b)
}

#[test]
fn typing_nothing_sends_nothing() {
    let (mut a, _) = knowing_each_other();
    assert!(on_send_msg(&mut a, String::new(), false).is_none());
    assert!(on_send_msg(&mut a, String::new(), true).is_none());
}

#[test]
fn typing_sends_plain_or_secure_text() {
    let (mut a, b) = knowing_each_other();
    let (label, msg) = on_send_msg(&mut a, "hello".to_string(), false).unwrap();
    assert_eq!(label, "i");
    assert!(msg.from.same(&a.get_address()));
    assert!(matches!(msg.content, MsgContent::InsecureText(ref t) if t == "hello"));
    assert!(a.trust("bob".to_string()).is_some());
    let (label, msg) = on_send_msg(&mut a, "secret".to_string(), true).unwrap();
    assert_eq!(label, "s");
    match msg.content {
        MsgContent::SecureText(ids) => {
            assert!(ids.iter().any(|id| id.address.same(&b.get_address()) && id.is_sender));
            let to_bob = ids.iter().find(|id| id.address.same(&b.get_address())).unwrap();
            assert!(a.get_encrypted_msg(to_bob).is_some());
        },
        _ => panic!("expected a secure text"),
    }
}

#[test]
fn clicking_a_user_trusts_them_once() {
    let (mut a, b) = knowing_each_other();
    assert_eq!(a.relation(&b.get_address()), "allowedTrust");
    let msg = on_user_click(&mut a, &b.get_address()).unwrap();
    assert!(msg.from.same(&a.get_address()));
    assert!(matches!(msg.content, MsgContent::Trust(ref x) if x.same(&b.get_address())));
    assert_eq!(a.relation(&b.get_address()), "trusted");
    assert!(on_user_click(&mut a, &b.get_address()).is_none());
    let own = a.get_address();
    assert!(on_user_click(&mut a, &own).is_none());
    assert!(on_user_click(&mut a, &Address::new("carol", vec![3])).is_none());
}

#[test]
fn joining_a_group_forgets_its_messages() {
    let (mut a, _) = knowing_each_other();
    a.add_msg(ServerMsg::new(&a.get_address(), MsgContent::Blank()));
    assert_eq!(a.get_msgs().len(), 1);
    let msg = on_join_group(&mut a, "lobby".to_string());
    assert!(a.get_msgs().is_empty());
    assert!(matches!(msg.content, MsgContent::Join(ref g) if g == "lobby"));
    assert!(msg.from.same(&a.get_address()));
}

#[test]
fn a_join_is_answered_with_the_public_key() {
    let (a, b) = knowing_each_other();
    let join = ServerMsg::new(&b.get_address(), MsgContent::Join("lobby".to_string()));
    let reply = reply_to(&join, &a).unwrap();
    assert!(matches!(reply.content, MsgContent::PublicKey(ref k) if *k == a.public_key()));
    assert!(reply.from.same(&a.get_address()));
    let text = ServerMsg::new(&b.get_address(), MsgContent::InsecureText("hi".to_string()));
    assert!(reply_to(&text, &a).is_none());
}
