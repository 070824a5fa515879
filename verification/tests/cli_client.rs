use yakking_yak::cli::cmdhandler::ClientCommand;
use yakking_yak::cli::encrypter::{crypt, Crypto};
use yakking_yak::cli::serverhandlers::{decodeToPublicKeyBytes, ServerMsg};
use yakking_yak::cli::utils::ConnectionData;
use yakking_yak::codec::encode_base64_bytes;
use yakking_yak::wire::{Address, MsgContent};

fn conn(name: &str) -> ConnectionData {
    ConnectionData {
        server: "localhost:8080".to_string(),
        group: "g".to_string(),
        name: name.to_string(),
        password: "pw".to_string(),
    }
}

fn key_text(c: &Crypto) -> String {
    encode_base64_bytes(&c.public_key().to_vec())
}

/// Makes `a` and `b` trust each other, as the commands and messages of the client do.
fn pair() -> (Crypto, Crypto) {
    let mut a = Crypto::new(conn("alice"));
    let mut b = Crypto::new(conn("bob"));
    let ka = key_text(&a);
    let kb = key_text(&b);
    a.addPublicKey(b.addr(), decodeToPublicKeyBytes(kb));
    b.addPublicKey(a.addr(), decodeToPublicKeyBytes(ka));
    assert!(a.trust("bob".to_string()).is_some());
    assert!(b.trust("alice".to_string()).is_some());
    (a, b)
}

#[test]
fn crypt_round_trip() {
    let key = [7u8; 32];
    let sealed = crypt(&key, "attack at dawn", true);
    assert_ne!(sealed, "attack at dawn");
    assert_eq!(crypt(&key, &sealed, false), "attack at dawn");
    let other = crypt(&[8u8; 32], "attack at dawn", true);
    assert_ne!(other, sealed);
}

#[test]
fn crypt_output_length_holds_tag() {
    let key = [1u8; 32];
    let sealed = crypt(&key, "", true);
    // 16 bytes of tag, Base64 with padding
    assert_eq!(sealed.len(), 24);
    assert_eq!(crypt(&key, &sealed, false), "");
}

#[test]
fn key_pair_and_address() {
    let a = Crypto::new(conn("alice"));
    let addr = a.addr();
    assert_eq!(addr.name, "alice");
    assert_eq!(addr.deviceId, 12345);
    assert!(!a.isTrusting());
    assert_eq!(a.listPeople(), Vec::<String>::new());
    let key = decodeToPublicKeyBytes(key_text(&a));
    assert_eq!(key, a.public_key());
}

#[test]
fn secure_text_reaches_trusted_peer() {
    let (a, b) = pair();
    assert!(a.isTrusting());
    let sealed = a.encrypt("meet at noon".to_string());
    assert!(sealed.starts_with(&Address::new("bob", 12345).asSendable()));
    assert!(sealed.ends_with(';'));
    assert_eq!(b.decrypt(&a.addr(), sealed.clone()), "meet at noon");
    assert_eq!(b.try_decrypt(&a.addr(), sealed), Some("meet at noon".to_string()));
}

#[test]
fn secure_text_not_for_reader() {
    let (a, _b) = pair();
    let c = Crypto::new(conn("carol"));
    let sealed = a.encrypt("secret".to_string());
    assert_eq!(c.decrypt(&a.addr(), sealed), "has sent a message secure but does not trust you");
}

#[test]
fn secure_text_from_untrusted_sender() {
    let (a, _b) = pair();
    let mut b2 = Crypto::new(conn("bob"));
    b2.addPublicKey(a.addr(), decodeToPublicKeyBytes(key_text(&a)));
    let sealed = a.encrypt("hi".to_string());
    assert_eq!(
        b2.decrypt(&a.addr(), sealed),
        "has sent a secure message but you cannot read it as you do not trust them"
    );
}

#[test]
fn unreadable_secure_text_is_refused() {
    let (a, b) = pair();
    assert_eq!(b.try_decrypt(&a.addr(), "Ym9i@12345.AAAA;".to_string()), None);
    assert_eq!(b.try_decrypt(&a.addr(), "nonsense;".to_string()), None);
}

#[test]
fn encrypt_without_trust_is_empty() {
    let a = Crypto::new(conn("alice"));
    assert_eq!(a.encrypt("x".to_string()), "");
}

#[test]
fn trust_unknown_name_changes_nothing() {
    let mut a = Crypto::new(conn("alice"));
    assert!(a.trust("nobody".to_string()).is_none());
    assert!(!a.isTrusting());
}

#[test]
fn list_people_lines() {
    let (a, _b) = pair();
    assert_eq!(a.listPeople(), vec!["bob@12345".to_string()]);
}

#[test]
fn commands() {
    let mut a = Crypto::new(conn("alice"));
    let r = ClientCommand("/allowTrust".to_string()).handleSelf(&mut a);
    match r.content {
        Some(MsgContent::PublicKey(k)) => assert_eq!(k, key_text(&a)),
        _ => panic!("expected a public key"),
    }
    let r = ClientCommand("/broadcast hello   world".to_string()).handleSelf(&mut a);
    match r.content {
        Some(MsgContent::InsecureText(t)) => assert_eq!(t, "hello world"),
        _ => panic!("expected a text"),
    }
    let r = ClientCommand("/trust bob".to_string()).handleSelf(&mut a);
    assert!(r.content.is_none());
    assert_eq!(r.lines, vec!["bob has not allowed you to trust them or does not exist".to_string()]);
    let r = ClientCommand("/dance".to_string()).handleSelf(&mut a);
    assert!(r.content.is_none());
    assert_eq!(r.error, Some("Command /dance was not recognized.".to_string()));
    let r = ClientCommand("plain words".to_string()).handleSelf(&mut a);
    match r.content {
        Some(MsgContent::InsecureText(t)) => assert_eq!(t, "plain words"),
        _ => panic!("expected a text"),
    }
}

#[test]
fn commands_with_a_trusted_peer() {
    let (mut a, b) = pair();
    let r = ClientCommand("/list".to_string()).handleSelf(&mut a);
    assert_eq!(r.lines, vec!["bob@12345".to_string()]);
    let r = ClientCommand("/trust bob".to_string()).handleSelf(&mut a);
    match r.content {
        Some(MsgContent::Trust(addr)) => assert_eq!(addr.name, "bob"),
        _ => panic!("expected a trust"),
    }
    let r = ClientCommand("secret plans".to_string()).handleSelf(&mut a);
    match r.content {
        Some(MsgContent::SecureText(t)) => assert_eq!(b.decrypt(&a.addr(), t), "secret plans"),
        _ => panic!("expected a secure text"),
    }
}

#[test]
fn incoming_messages() {
    let mut a = Crypto::new(conn("alice"));
    let b = Crypto::new(conn("bob"));
    let offer = ServerMsg::new(&b.addr(), MsgContent::PublicKey(key_text(&b)));
    let line = offer.handleSelf(&mut a);
    assert_eq!(line, Some("*bob\\p* is alllowing people to trust them".to_string()));
    assert_eq!(a.listPeople(), vec!["bob@12345".to_string()]);
    let own = ServerMsg::new(&a.addr(), MsgContent::InsecureText("me".to_string()));
    assert_eq!(own.handleSelf(&mut a), None);
    let bad = ServerMsg::new(&b.addr(), MsgContent::PublicKey("AAAA".to_string()));
    assert_eq!(bad.try_handleSelf(&mut a), None);
}

#[test]
fn incoming_secure_text_is_shown_decrypted() {
    let (mut a, b) = pair();
    let sealed = b.encrypt("psst".to_string());
    let m = ServerMsg::new(&b.addr(), MsgContent::SecureText(sealed));
    assert_eq!(m.handleSelf(&mut a), Some("*bob\\s* psst".to_string()));
}
