//! What the chat client does with a line the user submitted: a command
//! (`/join`, `/quit`, `/clear notif`, `/to`) or a message for the tab shown.

use vstd::prelude::*;
use vstd::string::{StrSliceExecFns, StringExecFns};
use crate::protocol::{receiver_error, receiver_of, MessageReceiver, ReceiverV, Request};
use crate::ui::{tab_names, App};

verus! {

/// Whether `s` starts with `p`.
pub open spec fn starts_with(s: Seq<char>, p: Seq<char>) -> bool {
    p.len() <= s.len() && s.subrange(0, p.len() as int) == p
}

fn has_prefix(s: &str, p: &str) -> (r: bool)
    ensures
        r == starts_with(s@, p@),
{
    let n = s.unicode_len();
    let m = p.unicode_len();
    if m > n {
        return false;
    }
    let mut i: usize = 0;
    while i < m
        invariant
            n == s@.len(),
            m == p@.len(),
            m <= n,
            i <= m,
            forall|j: int| 0 <= j < i ==> s@[j] == p@[j],
        decreases m - i,
    {
        if s.get_char(i) != p.get_char(i) {
            assert(s@.subrange(0, m as int)[i as int] != p@[i as int]);
            return false;
        }
        i = i + 1;
    }
    assert(s@.subrange(0, m as int) =~= p@);
    true
}

proof fn lemma_prefix_char(s: Seq<char>, p: Seq<char>, i: int)
    requires
        starts_with(s, p),
        0 <= i < p.len(),
    ensures
        s[i] == p[i],
{
    assert(s.subrange(0, p.len() as int)[i] == s[i]);
}

proof fn lemma_prefix_shorter(s: Seq<char>, p: Seq<char>, q: Seq<char>)
    requires
        starts_with(s, p),
        q.len() <= p.len(),
        p.subrange(0, q.len() as int) =~= q,
    ensures
        starts_with(s, q),
{
    assert(s.subrange(0, q.len() as int) =~= p.subrange(0, q.len() as int));
}

/// The commands are told apart by their first two characters.
proof fn lemma_commands(s: Seq<char>)
    ensures
        starts_with(s, "/join "@) ==> starts_with(s, "/join"@),
        starts_with(s, "/join"@) ==> starts_with(s, "/"@),
        starts_with(s, "/quit"@) ==> starts_with(s, "/"@) && !starts_with(s, "/join"@),
        starts_with(s, "/clear notif"@) ==> starts_with(s, "/"@) && !starts_with(s, "/join"@) && !starts_with(s, "/quit"@),
        starts_with(s, "/to"@) ==> starts_with(s, "/"@) && !starts_with(s, "/join"@) && !starts_with(s, "/quit"@)
            && !starts_with(s, "/clear notif"@),
{
    reveal_strlit("/");
    reveal_strlit("/join");
    reveal_strlit("/join ");
    reveal_strlit("/quit");
    reveal_strlit("/clear notif");
    reveal_strlit("/to");
    if starts_with(s, "/join "@) {
        lemma_prefix_shorter(s, "/join "@, "/join"@);
    }
    if starts_with(s, "/join"@) {
        lemma_prefix_shorter(s, "/join"@, "/"@);
    }
    if starts_with(s, "/quit"@) {
        lemma_prefix_shorter(s, "/quit"@, "/"@);
        lemma_prefix_char(s, "/quit"@, 1);
        if starts_with(s, "/join"@) {
            lemma_prefix_char(s, "/join"@, 1);
        }
    }
    if starts_with(s, "/clear notif"@) {
        lemma_prefix_shorter(s, "/clear notif"@, "/"@);
        lemma_prefix_char(s, "/clear notif"@, 1);
        if starts_with(s, "/join"@) {
            lemma_prefix_char(s, "/join"@, 1);
        }
        if starts_with(s, "/quit"@) {
            lemma_prefix_char(s, "/quit"@, 1);
        }
    }
    if starts_with(s, "/to"@) {
        lemma_prefix_shorter(s, "/to"@, "/"@);
        lemma_prefix_char(s, "/to"@, 1);
        if starts_with(s, "/join"@) {
            lemma_prefix_char(s, "/join"@, 1);
        }
        if starts_with(s, "/quit"@) {
            lemma_prefix_char(s, "/quit"@, 1);
        }
        if starts_with(s, "/clear notif"@) {
            lemma_prefix_char(s, "/clear notif"@, 1);
        }
    }
}

/// Position of the first space at or after `from`.
pub open spec fn space_from(s: Seq<char>, from: int) -> Option<int>
    decreases s.len() - from,
{
    if from < 0 || from >= s.len() {
        None
    } else if s[from] == ' ' {
        Some(from)
    } else {
        space_from(s, from + 1)
    }
}

fn find_space(s: &str, from: usize) -> (r: Option<usize>)
    ensures
        r is None <==> space_from(s@, from as int) is None,
        r matches Some(i) ==> space_from(s@, from as int) == Some(i as int) && from <= i < s@.len(),
        s@.len() <= usize::MAX,
{
    let n = s.unicode_len();
    let mut i: usize = from;
    if i >= n {
        return None;
    }
    while i < n
        invariant
            n == s@.len(),
            from <= i <= n,
            space_from(s@, from as int) == space_from(s@, i as int),
        decreases n - i,
    {
        if s.get_char(i) == ' ' {
            return Some(i);
        }
        i = i + 1;
    }
    None
}

/// The second and third of the parts that splitting `s` at its first two
/// spaces gives; `None` when `s` has fewer than two spaces.
pub open spec fn split3(s: Seq<char>) -> Option<(Seq<char>, Seq<char>)> {
    match space_from(s, 0) {
        None => None,
        Some(a) => match space_from(s, a + 1) {
            None => None,
            Some(b) => Some((s.subrange(a + 1, b), s.subrange(b + 1, s.len() as int))),
        },
    }
}

/// The request for a message to the receiver that `tab` names.
pub open spec fn message_for(r: Request, to: ReceiverV, content: Seq<char>) -> bool {
    r matches Request::Message { to: t, content: c } && t@ == to && c@ == content
}

fn owned(s: &str) -> (r: String)
    ensures
        r@ == s@,
{
    String::from_str(s)
}

/// Turns a line the user submitted into the request to send, if any. A line
/// that does not start with `/` is a message for the tab shown, which must
/// name a room (`#room`) or a user (`@nickname`).
pub fn handle_user_input(input: String, app: &mut App) -> (r: Result<Option<Request>, String>)
    requires
        old(app).wf(),
    ensures
        final(app).wf(),
        !starts_with(input@, "/"@) ==> *final(app) == *old(app) && match receiver_of(
            old(app).state.current().name@,
        ) {
            None => (r matches Err(e) && e@ == receiver_error(old(app).state.current().name@)),
            Some(to) => (r matches Ok(Some(req)) && message_for(req, to, input@)),
        },
        starts_with(input@, "/join"@) ==> *final(app) == *old(app) && if starts_with(input@, "/join "@) {
            r matches Ok(Some(Request::JoinChan(c))) && c@ == input@.subrange(6, input@.len() as int)
        } else {
            r matches Err(e) && e@ == "The command 'join' has to be used with the name of a channel to join."@
        },
        starts_with(input@, "/quit"@) ==> *final(app) == *old(app) && if old(app).state.current().name@.len() == 0 {
            r matches Err(e) && e@ == "Can't quit. No channel joined."@
        } else {
            match receiver_of(old(app).state.current().name@) {
                Some(ReceiverV::Channel(c)) => r matches Ok(Some(Request::LeaveChan(x))) && x@ == c,
                Some(ReceiverV::User(_)) => r matches Err(e) && e@ == "Can't quit a conversation with a user."@,
                None => r matches Err(e) && e@ == receiver_error(old(app).state.current().name@),
            }
        },
        starts_with(input@, "/clear notif"@) ==> (r matches Ok(None) && final(app).state.notif is None
            && final(app).state.tabs == old(app).state.tabs && final(app).state.current_tab == old(
            app).state.current_tab),
        starts_with(input@, "/to"@) ==> match split3(input@) {
            None => r is Err && *final(app) == *old(app),
            Some((user, msg)) => {
                &&& r matches Ok(Some(req)) && message_for(req, ReceiverV::User(user), msg)
                &&& exists|i: int|
                    0 <= i < final(app).state.tabs@.len() && #[trigger] final(app).state.tabs@[i].name@ == "@"@ + user
                        && final(app).state.tabs@[i].history@.len() > 0
                        && final(app).state.tabs@[i].history@.last().0@ == "myself"@
                        && final(app).state.tabs@[i].history@.last().1@ == msg
                &&& !tab_names(old(app).state.tabs@).contains("@"@ + user) ==> {
                    &&& final(app).state.tabs@.len() == old(app).state.tabs@.len() + 1
                    &&& final(app).state.tabs@.last().name@ == "@"@ + user
                    &&& final(app).state.tabs@.last().history@.len() == 1
                    &&& final(app).state.tabs@.last().history@[0].0@ == "myself"@
                    &&& final(app).state.tabs@.last().history@[0].1@ == msg
                    &&& forall|j: int| 0 <= j < old(app).state.tabs@.len()
                        ==> #[trigger] final(app).state.tabs@[j] == old(app).state.tabs@[j]
                }
                &&& old(app).state.current_tab is None ==> final(app).state.current_tab == Some(0usize)
                &&& old(app).state.current_tab is Some ==> final(app).state.current_tab == old(app).state.current_tab
            },
        },
        starts_with(input@, "/"@) && !starts_with(input@, "/join"@) && !starts_with(input@, "/quit"@)
            && !starts_with(input@, "/clear notif"@) && !starts_with(input@, "/to"@) ==> *final(app) == *old(app)
            && (r matches Err(e) && e@ == "Not a command: "@ + input@),
{
    proof {
        reveal_strlit("/");
        reveal_strlit("/join");
        reveal_strlit("/join ");
        reveal_strlit("/quit");
        reveal_strlit("/clear notif");
        reveal_strlit("/to");
        lemma_commands(input@);
    }
    let text = input.as_str();
    if has_prefix(text, "/") {
        if has_prefix(text, "/join") {
            if has_prefix(text, "/join ") {
                let n = text.unicode_len();
                Ok(Some(Request::JoinChan(owned(text.substring_char(6, n)))))
            } else {
                Err(owned("The command 'join' has to be used with the name of a channel to join."))
            }
        } else if has_prefix(text, "/quit") {
            assert(!starts_with(input@, "/join"@));
            let s = app.get_current_tab();
            if s.as_str().is_empty() {
                Err(owned("Can't quit. No channel joined."))
            } else {
                match MessageReceiver::from_str(s.as_str()) {
                    Ok(MessageReceiver::Channel(chan)) => Ok(Some(Request::LeaveChan(chan))),
                    Ok(MessageReceiver::User(_)) => Err(owned("Can't quit a conversation with a user.")),
                    Err(e) => Err(e),
                }
            }
        } else if has_prefix(text, "/clear notif") {
            app.clear_notif();
            Ok(None)
        } else if has_prefix(text, "/to") {
            match find_space(text, 0) {
                None => Err(owned("The command 'to' has to be used with a nickname and a message.")),
                Some(a) => match find_space(text, a + 1) {
                    None => Err(owned("The command 'to' has to be used with a nickname and a message.")),
                    Some(b) => {
                        let n = text.unicode_len();
                        let username = owned(text.substring_char(a + 1, b));
                        let msg = owned(text.substring_char(b + 1, n));
                        let mut tab_name = owned("@");
                        tab_name.append(username.as_str());
                        let ghost name = tab_name@;
                        app.add_tab(tab_name.clone());
                        let ghost names = tab_names(app.state.tabs@);
                        proof {
                            if !tab_names(old(app).state.tabs@).contains(name) {
                                assert(names[names.len() - 1] == name);
                            }
                            assert(names.contains(name));
                        }
                        let ghost i = names.index_of(name);
                        let ghost mid = app.state.tabs@;
                        let me = owned("myself");
                        let ghost me_view = me@;
                        let ghost msg_view = msg@;
                        app.push_message(me, msg.clone(), tab_name);
                        proof {
                            assert(app.state.tabs@[i].name@ == "@"@ + username@);
                            assert(app.state.tabs@[i].history@.last().0@ == me_view);
                            if !tab_names(old(app).state.tabs@).contains(name) {
                                let last = old(app).state.tabs@.len() as int;
                                assert(names[last] == name);
                                assert(names.index_of(name) == last) by {
                                    assert(names.no_duplicates());
                                }
                                assert forall|j: int| 0 <= j < old(app).state.tabs@.len()
                                    implies #[trigger] app.state.tabs@[j] == old(app).state.tabs@[j] by {
                                    assert(mid[j] == old(app).state.tabs@[j]);
                                    assert(names[j] != name) by {
                                        assert(tab_names(old(app).state.tabs@)[j] == names[j]);
                                    }
                                }
                            }
                        }
                        Ok(Some(Request::Message { to: MessageReceiver::User(username), content: msg }))
                    },
                },
            }
        } else {
            let mut e = owned("Not a command: ");
            e.append(text);
            Err(e)
        }
    } else {
        let tab = app.get_current_tab();
        match MessageReceiver::from_str(tab.as_str()) {
            Ok(to) => Ok(Some(Request::Message { to, content: input })),
            Err(e) => Err(e),
        }
    }
}

} // verus!
