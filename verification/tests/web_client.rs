use yakking_yak::cli::serverhandlers::decodeToPublicKeyBytes;
use yakking_yak::web::encrypter::Crypto;
use yakking_yak::web::events::{event_kind, handleEvent, try_handleEvent};
use yakking_yak::web::key_bundle::{field_from_name, Field, KeyBundleFields, SecretKey};
use yakking_yak::web::msg::YakMsg;
use yakking_yak::web::serverhandlers::ServerMsg;
use yakking_yak::wire::{Address, MsgContent};

fn pair() -> (Crypto, Crypto) {
    let mut a = Crypto::new("alice", 1, 111);
    let mut b = Crypto::new("bob", 2, 222);
    a.add_public_key(b.addr(), decodeToPublicKeyBytes(b.public_key()));
    b.add_public_key(a.addr(), decodeToPublicKeyBytes(a.public_key()));
    assert!(a.trust("bob".to_string()).is_some());
    assert!(b.trust("alice".to_string()).is_some());
    (a, b)
}

#[test]
fn web_secure_text_round_trip() {
    let (a, b) = pair();
    let sealed = a.encrypt("hi bob".to_string());
    assert_eq!(b.decrypt(&a.addr(), sealed), "hi bob");
}

#[test]
fn web_relations_and_list() {
    let (a, b) = pair();
    assert_eq!(a.relation(&a.addr()), "self");
    assert_eq!(a.relation(&b.addr()), "trusted");
    assert_eq!(a.relation(&Address::new("zed", 9)), "unknown");
    let mut c = Crypto::new("carol", 3, 333);
    c.add_public_key(a.addr(), decodeToPublicKeyBytes(a.public_key()));
    assert_eq!(c.relation(&a.addr()), "allowedTrust");
    assert_eq!(a.list_people(), "bob@2,\n");
    assert!(a.person(&b.addr()).is_some());
    assert!(a.person_from_pub_key(&b.public_key()).is_some());
}

#[test]
fn seeded_keys_repeat() {
    assert_eq!(Crypto::new("a", 1, 5).public_key(), Crypto::new("b", 2, 5).public_key());
    assert_ne!(Crypto::new("a", 1, 5).public_key(), Crypto::new("a", 1, 6).public_key());
}

#[test]
fn web_messages() {
    let (a, b) = pair();
    let m = ServerMsg::new(&a.addr(), MsgContent::InsecureText("x\ry".to_string()));
    assert_eq!(m.display(&b), Some("<span class=\"trusted\">(i) alice</span> xy".to_string()));
    let wire = m.clone().toWritable();
    assert_eq!(wire, "*YWxpY2U=@1*i*eA15*");
    let back = ServerMsg::fromServer(&wire);
    assert_eq!(back.toString(), wire);
    let own_secure = ServerMsg::new(&b.addr(), MsgContent::SecureText("x".to_string()));
    assert_eq!(own_secure.display(&b), None);
    let secure = ServerMsg::new(&a.addr(), MsgContent::SecureText(a.encrypt("s3".to_string())));
    assert_eq!(secure.display(&b), Some("<span class=\"trusted\">(s) alice</span> s3".to_string()));
    let trust = ServerMsg::new(&a.addr(), MsgContent::Trust(b.addr()));
    assert_eq!(
        trust.display(&b),
        Some("<span class=\"trusted\">(t) alice</span> is trusting <span class=\"self\">bob</span>".to_string())
    );
    assert!(ServerMsg::try_fromServer("*x*").is_none());
}

#[test]
fn yak_messages() {
    let (a, b) = pair();
    let m = YakMsg::new(&a.addr(), MsgContent::Join("room".to_string()));
    assert_eq!(m.display(&b), "<span class=\"trusted\">*alice*\\j</span> went online");
    let w = m.clone().toWritable();
    assert_eq!(YakMsg::fromServer(&w).toString(), w);
    let s = YakMsg::new(&a.addr(), MsgContent::SecureText(a.encrypt("yo".to_string())));
    assert_eq!(s.display(&b), "<span class=\"trusted\">*alice*\\s</span> yo");
    assert!(YakMsg::new(&a.addr(), MsgContent::SecureText("garbage".to_string())).try_display(&b).is_none());
}

#[test]
fn handle_public_key_message() {
    let mut a = Crypto::new("alice", 1, 111);
    let b = Crypto::new("bob", 2, 222);
    let m = ServerMsg::new(&b.addr(), MsgContent::PublicKey(b.public_key()));
    m.handleSelf(&mut a);
    assert_eq!(a.relation(&b.addr()), "allowedTrust");
    let own = ServerMsg::new(&a.addr(), MsgContent::PublicKey(a.public_key()));
    own.handleSelf(&mut a);
    assert_eq!(a.list_people(), "bob@2,\n");
    let bad = YakMsg::new(&b.addr(), MsgContent::PublicKey("AAAA".to_string()));
    assert!(!bad.try_handleSelf(&mut a));
}

#[test]
fn page_events() {
    let mut a = Crypto::new("alice", 1, 111);
    assert_eq!(event_kind("msgInput-3"), "msgInput");
    assert_eq!(event_kind("msg"), "msg");
    let r = handleEvent(&mut a, "msgInput", "hello");
    assert_eq!(r.send, Some("*YWxpY2U=@1*i*aGVsbG8=*".to_string()));
    let r = handleEvent(&mut a, "groupInput", "g");
    assert_eq!(r.send, Some("*YWxpY2U=@1*j*Zw==*".to_string()));
    let r = handleEvent(&mut a, "isEncrypting", "true");
    assert!(r.send.is_none());
    let r = handleEvent(&mut a, "msgInput", "hello");
    assert_eq!(r.send, Some("*YWxpY2U=@1*s**".to_string()));
    handleEvent(&mut a, "isEncrypting", "false");
    let r = handleEvent(&mut a, "allowTrust", "");
    let offer = ServerMsg::fromServer(r.send.as_ref().unwrap());
    assert!(matches!(offer.content, MsgContent::PublicKey(ref k) if *k == a.public_key()));
    let r = handleEvent(&mut a, "clickName", "nobody");
    assert!(r.send.is_none());
    let r = handleEvent(&mut a, "whatever", "x");
    assert!(r.send.is_none() && r.show.is_none());
}

#[test]
fn page_receives_and_trusts() {
    let mut a = Crypto::new("alice", 1, 111);
    let b = Crypto::new("bob", 2, 222);
    let offer = ServerMsg::new(&b.addr(), MsgContent::PublicKey(b.public_key())).toWritable();
    let r = handleEvent(&mut a, "msg-1", &offer);
    assert_eq!(r.sender, Some("bob".to_string()));
    assert_eq!(r.show, None);
    let r = handleEvent(&mut a, "clickName", "bob");
    assert_eq!(r.send, Some(ServerMsg::new(&a.addr(), MsgContent::Trust(b.addr())).toWritable()));
    assert_eq!(a.relation(&b.addr()), "trusted");
    let hello = ServerMsg::new(&b.addr(), MsgContent::InsecureText("hey".to_string())).toWritable();
    let r = handleEvent(&mut a, "msg", &hello);
    assert_eq!(r.show, Some("<span class=\"trusted\">(i) bob</span> hey".to_string()));
    assert!(try_handleEvent(&mut a, "msg", "*broken*").is_none());
}

#[test]
fn stored_bundle_fields() {
    assert!(matches!(field_from_name("public"), Some(Field::Public)));
    assert!(matches!(field_from_name("shared"), Some(Field::Shared)));
    assert!(matches!(field_from_name("ephemeral"), Some(Field::Ephemeral)));
    assert!(matches!(field_from_name("address"), Some(Field::Addr)));
    assert!(field_from_name("publicKey").is_none());
    let mut f: KeyBundleFields<Address> = KeyBundleFields::new();
    assert_eq!(f.duplicate(&Field::Public), None);
    f.set_public([1u8; 32]);
    assert_eq!(f.duplicate(&Field::Public), Some("public"));
    f.set_shared([2u8; 32]);
    assert_eq!(f.duplicate(&Field::Ephemeral), Some("secret"));
    assert_eq!(f.duplicate(&Field::Addr), None);
    assert_eq!(f.finish().err(), Some("addresss"));
    let g: KeyBundleFields<Address> = KeyBundleFields::new();
    assert_eq!(g.finish().err(), Some("public"));
    let mut h: KeyBundleFields<Address> = KeyBundleFields::new();
    h.set_address(Address::new("a", 1));
    h.set_public([3u8; 32]);
    let (p, s, a) = h.finish().ok().unwrap();
    assert_eq!(p, [3u8; 32]);
    assert!(matches!(s, SecretKey::Empty()));
    assert_eq!(a.name, "a");
}
