use yakking_yak::client::ratchet::{HasProccessedLink, Ratchet, UnusedLink};
use yakking_yak::client::utils::Address;

fn addr() -> Address {
    Address::new("bob", vec![2, 3, 4])
}

#[test]
fn fresh_ratchet_has_one_link() {
    let r = Ratchet::new(&[9u8; 32], true, b"salt".to_vec());
    assert_eq!(r.len(), 1);
    assert_eq!(r.get_msg(0), None);
    assert_eq!(r.get_msg(5), None);
}

#[test]
fn sender_and_receiver_agree() {
    let shared = [42u8; 32];
    let mut tx = Ratchet::new(&shared, true, b"salt".to_vec());
    let mut rx = Ratchet::new(&shared, false, b"salt".to_vec());
    for (i, text) in ["one", "two", "three"].iter().enumerate() {
        let id = tx.process_payload(&addr(), i, text.as_bytes());
        assert_eq!(id.ord, i);
        assert!(id.is_sender);
        let sealed = tx.get_msg(i).unwrap();
        assert_ne!(sealed, text.as_bytes().to_vec());
        assert_eq!(sealed.len(), text.len() + 16);
        let got = rx.process_payload(&addr(), i, &sealed);
        assert!(!got.is_sender);
        assert_eq!(rx.get_msg(i), Some(text.as_bytes().to_vec()));
    }
    assert_eq!(tx.len(), 3);
    assert_eq!(rx.len(), 3);
}

#[test]
fn each_link_has_its_own_key() {
    let shared = [1u8; 32];
    let mut tx = Ratchet::new(&shared, true, b"salt".to_vec());
    tx.process_payload(&addr(), 0, b"same");
    tx.process_payload(&addr(), 1, b"same");
    assert_ne!(tx.get_msg(0), tx.get_msg(1));
}

#[test]
fn links_out_of_order() {
    let shared = [5u8; 32];
    let mut tx = Ratchet::new(&shared, true, b"s".to_vec());
    let mut rx = Ratchet::new(&shared, false, b"s".to_vec());
    tx.process_payload(&addr(), 3, b"later");
    assert_eq!(tx.len(), 4);
    tx.process_payload(&addr(), 1, b"earlier");
    let later = tx.get_msg(3).unwrap();
    let earlier = tx.get_msg(1).unwrap();
    rx.process_payload(&addr(), 3, &later);
    rx.process_payload(&addr(), 1, &earlier);
    assert_eq!(rx.get_msg(3), Some(b"later".to_vec()));
    assert_eq!(rx.get_msg(1), Some(b"earlier".to_vec()));
    assert_eq!(rx.get_msg(0), None);
}

#[test]
fn processing_twice_keeps_the_first_result() {
    let mut tx = Ratchet::new(&[3u8; 32], true, b"s".to_vec());
    tx.process_payload(&addr(), 0, b"first");
    let first = tx.get_msg(0);
    tx.process_payload(&addr(), 0, b"second");
    assert_eq!(tx.get_msg(0), first);
    assert_eq!(tx.len(), 1);
}

#[test]
fn different_salt_or_secret_do_not_open() {
    let mut tx = Ratchet::new(&[3u8; 32], true, b"a".to_vec());
    tx.process_payload(&addr(), 0, b"text");
    let sealed = tx.get_msg(0).unwrap();
    let mut other_salt = Ratchet::new(&[3u8; 32], false, b"b".to_vec());
    assert!(other_salt.try_process_payload(&addr(), 0, &sealed).is_none());
    assert_eq!(other_salt.len(), 1);
    let mut other_secret = Ratchet::new(&[4u8; 32], false, b"a".to_vec());
    assert!(!other_secret.can_process(0, &sealed));
    let mut same = Ratchet::new(&[3u8; 32], false, b"a".to_vec());
    assert!(same.can_process(0, &sealed));
    assert!(same.try_process_payload(&addr(), 0, &sealed).is_some());
    assert_eq!(same.get_msg(0), Some(b"text".to_vec()));
}

#[test]
fn growing_past_a_processed_link_is_one_step_at_a_time() {
    let mut r = Ratchet::new(&[3u8; 32], true, b"s".to_vec());
    r.process_payload(&addr(), 0, b"x");
    assert!(!r.can_process(2, b"y"));
    assert!(r.try_process_payload(&addr(), 2, b"y").is_none());
    assert!(r.can_process(1, b"y"));
    r.process_payload(&addr(), 1, b"y");
    assert_eq!(r.len(), 2);
}

#[test]
fn links_derive_their_successors() {
    let first = UnusedLink::new([6u8; 32], b"salt".to_vec(), None);
    let (_, second) = first.next(None);
    let done: HasProccessedLink = first.proccess_payload(true, b"p");
    let from_done = done.next(None);
    let mut a = Ratchet::new(&[6u8; 32], true, b"salt".to_vec());
    a.process_payload(&addr(), 1, b"q");
    // the successor of the first link seals as link 1 of a ratchet does
    let sealed_by_link = second.proccess_payload(true, b"q").result;
    let sealed_by_done = from_done.proccess_payload(true, b"q").result;
    assert_eq!(Some(sealed_by_link.clone()), a.get_msg(1));
    assert_eq!(sealed_by_link, sealed_by_done);
}

#[test]
fn length_after_a_run_is_one_more_than_the_largest_link() {
    let mut r = Ratchet::new(&[5u8; 32], true, b"salt".to_vec());
    assert_eq!(r.len(), 1);
    r.process_payload(&addr(), 3, b"a");
    assert_eq!(r.len(), 4);
    r.process_payload(&addr(), 4, b"b");
    assert_eq!(r.len(), 5);
    // a link already in the chain does not grow it
    r.process_payload(&addr(), 0, b"c");
    assert_eq!(r.len(), 5);
    assert_eq!(r.get_msg(0).unwrap().len(), 1 + 16);
}
