use yakking_yak::cli::serverhandlers::ServerMsg;
use yakking_yak::wire::{Address, MsgContent};

fn bob() -> Address {
    Address::new("bob", 5)
}

#[test]
fn address_sendable_form() {
    assert_eq!(bob().asSendable(), "Ym9i@5");
    assert_eq!(Address::new("bob", -12).asSendable(), "Ym9i@-12");
    let back = Address::fromSendable("Ym9i@-12".to_string());
    assert_eq!(back.name, "bob");
    assert_eq!(back.deviceId, -12);
}

#[test]
fn message_wire_form() {
    let m = ServerMsg::new(&bob(), MsgContent::InsecureText("hi".to_string()));
    assert_eq!(m.toString(), "*Ym9i@5*i*aGk=*");
    let t = ServerMsg::new(&bob(), MsgContent::Trust(Address::new("al", 1)));
    assert_eq!(t.toString(), "*Ym9i@5*t*WVd3PUAx*");
    let blank = ServerMsg::new(&bob(), MsgContent::Blank());
    assert_eq!(blank.toString(), "*Ym9i@5*_*Xw==*");
}

#[test]
fn message_round_trip() {
    let contents = vec![
        MsgContent::InsecureText("hello there".to_string()),
        MsgContent::SecureText("abc@1.xyz;".to_string()),
        MsgContent::Join("room".to_string()),
        MsgContent::PublicKey("AAAA".to_string()),
        MsgContent::Leave("room".to_string()),
        MsgContent::Trust(Address::new("carol", 77)),
        MsgContent::Blank(),
    ];
    for c in contents {
        let m = ServerMsg::new(&bob(), c);
        let wire = m.clone().toString();
        let back = ServerMsg::fromServer(&wire.as_bytes().to_vec());
        assert_eq!(back.clone().toString(), wire);
        assert_eq!(back.from.name, "bob");
        assert_eq!(back.from.deviceId, 5);
    }
}

#[test]
fn unknown_label_reads_as_blank() {
    let m = ServerMsg::fromServer(&b"*Ym9i@5*q*aGk=*".to_vec());
    assert!(matches!(m.content, MsgContent::Blank()));
}

#[test]
fn malformed_messages_are_refused() {
    assert!(ServerMsg::try_fromServer(&b"*Ym9i@5*i*".to_vec()).is_none());
    assert!(ServerMsg::try_fromServer(&b"*Ym9i*i*aGk=*".to_vec()).is_none());
    assert!(ServerMsg::try_fromServer(&b"*Ym9i@x*i*aGk=*".to_vec()).is_none());
    assert!(ServerMsg::try_fromServer(&vec![0xff, 0xfe]).is_none());
    assert!(ServerMsg::try_fromServer(&b"*Ym9i@5*i*aGk=*".to_vec()).is_some());
}

#[test]
fn display_lines() {
    let m = ServerMsg::new(&bob(), MsgContent::InsecureText("a\r\nb".to_string()));
    assert_eq!(m.display(), "*bob\\i* ab");
    let t = ServerMsg::new(&bob(), MsgContent::Trust(Address::new("al", 1)));
    assert_eq!(t.display(), "*bob\\t* is trusting al");
    let j = ServerMsg::new(&bob(), MsgContent::Join("g".to_string()));
    assert_eq!(j.display(), "*bob\\j* went online");
    let b = ServerMsg::new(&bob(), MsgContent::Blank());
    assert_eq!(b.display(), "*bob\\_* Error Parsing Text");
}
