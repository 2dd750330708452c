use mini_irc::protocol::{ChanOp, MessageReceiver, Request, Response};
use mini_irc::registry::Registry;
use mini_irc::session::{Outcome, Session};

use serde_encrypt::key::key_pair::SenderKeyPair;
use serde_encrypt::shared_key::SharedKey;
use serde_encrypt::traits::SerdeEncryptPublicKey;
use serde_encrypt::{AsSharedKey, SenderCombinedKey, SenderKeyPairCore};
use serde_encrypt_core::key::key_pair::public_key::ReceiverPublicKey;

fn s(x: &str) -> String {
    x.to_string()
}

fn room_event(chan: &str, op: ChanOp) -> Response {
    Response::Channel { op, chan: s(chan) }
}

fn deliveries(o: &Outcome) -> Vec<(u64, Response)> {
    o.deliveries.iter().map(|d| (d.conn, d.response.clone())).collect()
}

fn connected(reg: &mut Registry, conn: u64, nick: &str) -> Session {
    let mut sess = Session::new(conn);
    let o = sess.handle(reg, Some(Request::Connect(s(nick))));
    assert_eq!(o.reply, Some(Response::AckConnect(s("Welcome"))));
    sess
}

#[test]
fn first_join_reports_no_member_and_second_sees_first() {
    let mut reg = Registry::new();
    let mut a = connected(&mut reg, 1, "alice");
    let o = a.handle(&mut reg, Some(Request::JoinChan(s("general"))));
    assert_eq!(o.reply, Some(Response::AckJoin { chan: s("general"), users: vec![] }));
    assert!(o.deliveries.is_empty());
    let mut b = connected(&mut reg, 2, "bob");
    let o = b.handle(&mut reg, Some(Request::JoinChan(s("general"))));
    assert_eq!(o.reply, Some(Response::AckJoin { chan: s("general"), users: vec![s("alice")] }));
    assert_eq!(deliveries(&o), vec![(1, room_event("general", ChanOp::UserAdd(s("bob"))))]);
    // alice's session passes the event on from its mailbox
    assert_eq!(a.on_mailbox(room_event("general", ChanOp::UserAdd(s("bob")))), Some(room_event("general", ChanOp::UserAdd(s("bob")))));
}

#[test]
fn room_message_is_echoed_and_fanned_out_once() {
    let mut reg = Registry::new();
    let mut a = connected(&mut reg, 1, "alice");
    let mut b = connected(&mut reg, 2, "bob");
    a.handle(&mut reg, Some(Request::JoinChan(s("general"))));
    b.handle(&mut reg, Some(Request::JoinChan(s("general"))));
    let o = a.handle(&mut reg, Some(Request::Message { to: MessageReceiver::Channel(s("general")), content: s("hi") }));
    let ev = room_event("general", ChanOp::Message { from: s("alice"), content: s("hi") });
    assert_eq!(o.reply, Some(ev.clone()));
    assert_eq!(deliveries(&o), vec![(1, ev.clone()), (2, ev.clone())]);
    // the sender drops its own copy; the other member passes it on
    assert_eq!(a.on_mailbox(ev.clone()), None);
    assert_eq!(b.on_mailbox(ev.clone()), Some(ev));
}

#[test]
fn abrupt_disconnect_announces_departure_and_frees_nickname() {
    let mut reg = Registry::new();
    let mut a = connected(&mut reg, 1, "alice");
    let mut b = connected(&mut reg, 2, "bob");
    a.handle(&mut reg, Some(Request::JoinChan(s("general"))));
    b.handle(&mut reg, Some(Request::JoinChan(s("general"))));
    let d = a.close(&mut reg);
    let d: Vec<(u64, Response)> = d.iter().map(|x| (x.conn, x.response.clone())).collect();
    assert_eq!(d, vec![(2, room_event("general", ChanOp::UserDel(s("alice"))))]);
    let mut again = Session::new(3);
    let o = again.handle(&mut reg, Some(Request::Connect(s("alice"))));
    assert_eq!(o.reply, Some(Response::AckConnect(s("Welcome"))));
    // a later join of the room does not report alice
    let mut c = connected(&mut reg, 4, "carol");
    let o = c.handle(&mut reg, Some(Request::JoinChan(s("general"))));
    assert_eq!(o.reply, Some(Response::AckJoin { chan: s("general"), users: vec![s("bob")] }));
}

#[test]
fn taken_nickname_is_refused_and_session_stays_unauthenticated() {
    let mut reg = Registry::new();
    let _a = connected(&mut reg, 1, "alice");
    let mut b = Session::new(2);
    let o = b.handle(&mut reg, Some(Request::Connect(s("alice"))));
    assert!(matches!(o.reply, Some(Response::Error(_))));
    assert!(b.nickname.is_none());
    let o = b.handle(&mut reg, Some(Request::JoinChan(s("general"))));
    assert!(matches!(o.reply, Some(Response::Error(_))));
    // retrying with another nickname works
    let o = b.handle(&mut reg, Some(Request::Connect(s("bob"))));
    assert_eq!(o.reply, Some(Response::AckConnect(s("Welcome"))));
}

#[test]
fn empty_nickname_and_second_connect_are_refused() {
    let mut reg = Registry::new();
    let mut a = Session::new(1);
    assert!(matches!(a.handle(&mut reg, Some(Request::Connect(s("")))).reply, Some(Response::Error(_))));
    let mut a = connected(&mut reg, 1, "alice");
    assert!(matches!(a.handle(&mut reg, Some(Request::Connect(s("alice2")))).reply, Some(Response::Error(_))));
}

#[test]
fn leave_acknowledges_and_notifies_the_others() {
    let mut reg = Registry::new();
    let mut a = connected(&mut reg, 1, "alice");
    let mut b = connected(&mut reg, 2, "bob");
    a.handle(&mut reg, Some(Request::JoinChan(s("general"))));
    b.handle(&mut reg, Some(Request::JoinChan(s("general"))));
    let o = a.handle(&mut reg, Some(Request::LeaveChan(s("general"))));
    assert_eq!(o.reply, Some(Response::AckLeave(s("alice"))));
    assert_eq!(deliveries(&o), vec![(2, room_event("general", ChanOp::UserDel(s("alice"))))]);
    assert!(a.channels.is_empty());
    // leaving again, or a room never joined, is a protocol error
    assert!(matches!(a.handle(&mut reg, Some(Request::LeaveChan(s("general")))).reply, Some(Response::Error(_))));
    assert!(matches!(a.handle(&mut reg, Some(Request::LeaveChan(s("other")))).reply, Some(Response::Error(_))));
    let mut c = connected(&mut reg, 3, "carol");
    let o = c.handle(&mut reg, Some(Request::JoinChan(s("general"))));
    assert_eq!(o.reply, Some(Response::AckJoin { chan: s("general"), users: vec![s("bob")] }));
}

#[test]
fn joining_twice_and_requests_before_connect_are_errors() {
    let mut reg = Registry::new();
    let mut x = Session::new(9);
    for req in [
        Request::JoinChan(s("general")),
        Request::LeaveChan(s("general")),
        Request::Message { to: MessageReceiver::Channel(s("general")), content: s("hi") },
        Request::Message { to: MessageReceiver::User(s("bob")), content: s("hi") },
    ] {
        let o = x.handle(&mut reg, Some(req));
        assert!(matches!(o.reply, Some(Response::Error(_))));
        assert!(o.deliveries.is_empty() && !o.close);
    }
    let mut a = connected(&mut reg, 1, "alice");
    a.handle(&mut reg, Some(Request::JoinChan(s("general"))));
    let o = a.handle(&mut reg, Some(Request::JoinChan(s("general"))));
    assert!(matches!(o.reply, Some(Response::Error(_))));
    let o = a.handle(&mut reg, Some(Request::Message { to: MessageReceiver::Channel(s("elsewhere")), content: s("hi") }));
    assert!(matches!(o.reply, Some(Response::Error(_))));
}

#[test]
fn malformed_request_is_a_recoverable_error() {
    let mut reg = Registry::new();
    let mut a = Session::new(1);
    let o = a.handle(&mut reg, None);
    assert!(matches!(o.reply, Some(Response::Error(_))));
    assert!(!o.close);
}

#[test]
fn direct_message_goes_to_the_named_user() {
    let mut reg = Registry::new();
    let mut a = connected(&mut reg, 1, "alice");
    let _b = connected(&mut reg, 2, "bob");
    let o = a.handle(&mut reg, Some(Request::Message { to: MessageReceiver::User(s("bob")), content: s("psst") }));
    assert_eq!(o.reply, Some(Response::Ack));
    assert_eq!(deliveries(&o), vec![(2, Response::DirectMessage { from: s("alice"), content: s("psst") })]);
    let o = a.handle(&mut reg, Some(Request::Message { to: MessageReceiver::User(s("nobody")), content: s("psst") }));
    assert!(matches!(o.reply, Some(Response::Error(_))));
}

#[test]
fn public_key_of_wrong_length_closes() {
    let mut a = Session::new(1);
    let o = a.secure(vec![1, 2, 3]);
    assert!(o.close);
    assert!(o.reply.is_none());
}

#[test]
fn shared_key_before_public_key_is_an_error() {
    let mut a = Session::new(1);
    let o = a.shared(vec![0u8; 80]);
    assert!(matches!(o.reply, Some(Response::Error(_))));
}

#[test]
fn forged_shared_key_closes() {
    let mut a = Session::new(1);
    let o = a.secure(vec![9u8; 32]);
    assert!(matches!(o.reply, Some(Response::Secure(ref k)) if k.len() == 32));
    let o = a.shared(vec![0u8; 80]);
    assert!(o.close);
    assert!(a.reader.shared_key.is_none());
}

#[test]
fn install_shared_key_sets_both_directions() {
    let mut a = Session::new(1);
    let o = a.install_shared_key(Some(vec![5u8; 32]));
    assert_eq!(o.reply, Some(Response::Ack));
    assert_eq!(a.reader.shared_key, Some(vec![5u8; 32]));
    assert_eq!(a.writer.shared_key, Some(vec![5u8; 32]));
    let mut b = Session::new(2);
    assert!(b.install_shared_key(None).close);
}

#[test]
fn full_handshake_installs_the_clients_key() {
    let mut reg = Registry::new();
    let mut server = Session::new(1);
    let client = SenderKeyPair::generate();
    let o = server.handle(&mut reg, Some(Request::Secure(client.public_key().as_ref().as_bytes().to_vec())));
    let server_pub = match o.reply {
        Some(Response::Secure(k)) => k,
        other => panic!("unexpected {other:?}"),
    };
    let bytes: [u8; 32] = server_pub.as_slice().try_into().unwrap();
    let server_key = ReceiverPublicKey::from(crypto_box::PublicKey::from(bytes));
    let combined = SenderCombinedKey::new(client.private_key(), &server_key);
    let shared = SharedKey::generate();
    let sealed = shared.clone().encrypt(&combined).unwrap().serialize();
    let o = server.handle(&mut reg, Some(Request::Shared(sealed)));
    assert_eq!(o.reply, Some(Response::Ack));
    assert_eq!(server.reader.shared_key, Some(shared.as_slice().to_vec()));
    assert_eq!(server.writer.shared_key, Some(shared.as_slice().to_vec()));
    // after the handshake, another public key is refused
    let o = server.handle(&mut reg, Some(Request::Secure(vec![0u8; 32])));
    assert!(matches!(o.reply, Some(Response::Error(_))));
}

#[test]
fn protocol_errors_carry_their_texts() {
    let mut reg = Registry::new();
    let mut x = Session::new(9);
    let err = |o: Outcome| o.reply;
    assert_eq!(err(x.handle(&mut reg, Some(Request::JoinChan(s("r"))))), Some(Response::Error(s("Please connect first"))));
    assert_eq!(err(x.handle(&mut reg, None)), Some(Response::Error(s("Malformed request"))));
    assert_eq!(err(x.handle(&mut reg, Some(Request::Connect(s(""))))), Some(Response::Error(s("Invalid username"))));
    let mut a = connected(&mut reg, 1, "alice");
    assert_eq!(err(a.handle(&mut reg, Some(Request::Connect(s("other"))))), Some(Response::Error(s("Already connected"))));
    assert_eq!(err(a.handle(&mut reg, Some(Request::LeaveChan(s("r"))))), Some(Response::Error(s("Not in channel"))));
    a.handle(&mut reg, Some(Request::JoinChan(s("r"))));
    assert_eq!(err(a.handle(&mut reg, Some(Request::JoinChan(s("r"))))), Some(Response::Error(s("User already in channel"))));
    assert_eq!(
        err(a.handle(&mut reg, Some(Request::Message { to: MessageReceiver::User(s("zed")), content: s("x") }))),
        Some(Response::Error(s("Unknown user")))
    );
    assert_eq!(err(a.handle(&mut reg, Some(Request::Secure(vec![0u8; 32])))), Some(Response::Error(s("invalid"))));
}

#[test]
fn handshake_answers_with_the_sessions_own_public_key() {
    let mut a = Session::new(1);
    let mut b = Session::new(2);
    assert_eq!(a.public_key.len(), 32);
    assert_ne!(a.public_key, b.public_key);
    let own = a.public_key.clone();
    assert_eq!(a.secure(vec![3u8; 32]).reply, Some(Response::Secure(own)));
    let own_b = b.public_key.clone();
    assert_eq!(b.secure(vec![4u8; 32]).reply, Some(Response::Secure(own_b)));
}
