use mini_irc::protocol::{ChanOp, Response};
use mini_irc::registry::Registry;
use mini_irc::session::publish;

fn s(x: &str) -> String {
    x.to_string()
}

#[test]
fn connect_is_unique_and_disconnect_frees() {
    let mut reg = Registry::new();
    assert!(reg.connect_user(&s("alice"), 1));
    assert!(!reg.connect_user(&s("alice"), 2));
    assert_eq!(reg.lookup_user(&s("alice")), Some(1));
    reg.disconnect_user(&s("alice"));
    assert_eq!(reg.lookup_user(&s("alice")), None);
    // idempotent, and a no-op for an empty nickname
    reg.disconnect_user(&s("alice"));
    reg.disconnect_user(&s(""));
    assert!(reg.connect_user(&s("alice"), 3));
    assert_eq!(reg.lookup_user(&s("alice")), Some(3));
}

#[test]
fn join_reports_members_in_join_order() {
    let mut reg = Registry::new();
    assert_eq!(reg.add_user_to_chan(&s("a"), 1, &s("r")).map(|m| m.len()), Some(0));
    assert_eq!(reg.add_user_to_chan(&s("b"), 2, &s("r")).map(|m| m.iter().map(|x| x.nick.clone()).collect::<Vec<_>>()), Some(vec![s("a")]));
    let before = reg.add_user_to_chan(&s("c"), 3, &s("r")).unwrap();
    assert_eq!(before.iter().map(|x| (x.nick.clone(), x.conn)).collect::<Vec<_>>(), vec![(s("a"), 1), (s("b"), 2)]);
    assert!(reg.add_user_to_chan(&s("b"), 2, &s("r")).is_none());
    assert_eq!(reg.chan_members(&s("r")).len(), 3);
    assert_eq!(reg.chan_members(&s("other")).len(), 0);
}

#[test]
fn leave_keeps_the_others_in_order() {
    let mut reg = Registry::new();
    reg.add_user_to_chan(&s("a"), 1, &s("r"));
    reg.add_user_to_chan(&s("b"), 2, &s("r"));
    reg.add_user_to_chan(&s("c"), 3, &s("r"));
    reg.add_user_to_chan(&s("a"), 1, &s("q"));
    let stay = reg.remove_user_from_chan(&s("b"), &s("r"));
    assert_eq!(stay.iter().map(|x| x.nick.clone()).collect::<Vec<_>>(), vec![s("a"), s("c")]);
    assert_eq!(reg.chan_members(&s("q")).len(), 1);
    // the room stays, empty, when its last member leaves
    reg.remove_user_from_chan(&s("a"), &s("q"));
    assert_eq!(reg.chan_members(&s("q")).len(), 0);
    assert_eq!(reg.remove_user_from_chan(&s("z"), &s("nowhere")).len(), 0);
}


#[test]
fn publish_reaches_every_member_once() {
    let mut reg = Registry::new();
    reg.add_user_to_chan(&s("a"), 1, &s("r"));
    reg.add_user_to_chan(&s("b"), 2, &s("r"));
    let ev = Response::Channel { op: ChanOp::UserAdd(s("c")), chan: s("r") };
    let d = publish(&reg, &s("r"), &ev);
    assert_eq!(d.iter().map(|x| (x.conn, x.response.clone())).collect::<Vec<_>>(), vec![(1, ev.clone()), (2, ev.clone())]);
    assert!(publish(&reg, &s("none"), &ev).is_empty());
}
