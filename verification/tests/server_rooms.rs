use yakking_yak::server::{timed_out, ChatState};

#[test]
fn join_and_relay() {
    let mut s = ChatState::new();
    assert_eq!(s.on_text(1, "*YWxpY2U=@1*j*Z3JvdXA=*"), Some(vec![1]));
    assert_eq!(s.on_text(2, "*Ym9i@2*j*Z3JvdXA=*"), Some(vec![1, 2]));
    assert_eq!(s.on_text(1, "*YWxpY2U=@1*i*aGk=*"), Some(vec![1, 2]));
    assert_eq!(s.on_text(3, "*Y2Fyb2w=@3*i*aGk=*"), Some(vec![]));
    assert_eq!(s.on_text(3, ""), None);
    s.on_text(2, "*Ym9i@2*j*Z3JvdXA=*");
    assert_eq!(s.recipients(2), vec![1, 2]);
}

#[test]
fn join_body_up_to_ampersand() {
    let mut s = ChatState::new();
    s.on_text(1, "*a*j*room&extra*");
    s.join("room", 2);
    assert_eq!(s.recipients(1), vec![1, 2]);
}

#[test]
fn leaving() {
    let mut s = ChatState::new();
    s.join("g", 1);
    s.join("g", 2);
    s.join("h", 3);
    s.leave(1);
    assert_eq!(s.recipients(2), vec![2]);
    assert_eq!(s.recipients(1), Vec::<u64>::new());
    s.leave(3);
    assert_eq!(s.recipients(3), Vec::<u64>::new());
    s.join("h", 4);
    assert_eq!(s.recipients(4), vec![4]);
    s.leave(99);
    assert_eq!(s.recipients(2), vec![2]);
}

#[test]
fn texts_the_server_cannot_read() {
    assert!(ChatState::accepts(""));
    assert!(!ChatState::accepts("*one*"));
    assert!(!ChatState::accepts("*a*j*"));
    assert!(!ChatState::accepts("*a*j*&&*"));
    assert!(ChatState::accepts("*a*j*g*"));
    assert!(ChatState::accepts("*a*i*"));
}

#[test]
fn joining_another_group_changes_the_room() {
    let mut s = ChatState::new();
    s.join("g", 1);
    s.join("g", 2);
    s.join("h", 3);
    s.join("h", 1);
    assert_eq!(s.recipients(1), vec![3, 1]);
    assert_eq!(s.recipients(2), vec![2]);
    // a connection alone in its group drops the group when it moves
    s.join("k", 2);
    assert_eq!(s.recipients(2), vec![2]);
    s.join("g", 4);
    assert_eq!(s.recipients(4), vec![4]);
    // joining the group it is in changes nothing
    s.join("h", 3);
    assert_eq!(s.recipients(3), vec![3, 1]);
    assert_eq!(s.on_text(1, "*a*j*k*"), Some(vec![2, 1]));
    assert_eq!(s.recipients(3), vec![3]);
}

#[test]
fn heartbeats_time_out_after_ten_seconds() {
    assert!(!timed_out(1_000, 11_000));
    assert!(timed_out(1_000, 11_001));
    assert!(!timed_out(5_000, 1_000));
    assert!(timed_out(i64::MIN, i64::MAX));
    assert!(!timed_out(i64::MAX, i64::MIN));
}
