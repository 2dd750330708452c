//! The per-connection session engine: the handshake, authentication, and the
//! handling of each request against the registry. Handling a request gives
//! the reply for this connection and the events that go to the mailboxes of
//! other connections; the caller performs the I/O.

use vstd::prelude::*;
use crate::crypto::{generate_private_key, open_shared_key, opened_shared, public_key_bytes, public_of, KEY_LEN};
use crate::frame::Codec;
use crate::protocol::{ChanOp, ChanOpV, MessageReceiver, Request, Response, ResponseV, strings_view};
use crate::registry::{distinct_nicks, nicks, other_than, Member, Registry};

verus! {

broadcast use vstd::seq_lib::group_seq_properties;

/// A response bound for the mailbox of connection `conn`.
pub struct Delivery {
    pub conn: u64,
    pub response: Response,
}

/// What handling one request gives.
pub struct Outcome {
    /// The response for the requesting client, if any.
    pub reply: Option<Response>,
    /// Events for the mailboxes of connections.
    pub deliveries: Vec<Delivery>,
    /// Whether the connection must be closed (a security error).
    pub close: bool,
}

/// The deliveries as pairs of connection and response.
pub open spec fn deliveries_view(d: Seq<Delivery>) -> Seq<(u64, ResponseV)> {
    d.map_values(|x: Delivery| (x.conn, x.response@))
}

/// One delivery of `ev` to each member, in order.
pub open spec fn fan_out(members: Seq<Member>, ev: ResponseV) -> Seq<(u64, ResponseV)> {
    members.map_values(|m: Member| (m.conn, ev))
}

/// The event of a room.
pub open spec fn room_event(chan: Seq<char>, op: ChanOpV) -> ResponseV {
    ResponseV::Channel { op, chan }
}

impl Outcome {
    /// The value of the reply.
    pub open spec fn reply_view(&self) -> Option<ResponseV> {
        match self.reply {
            Some(r) => Some(r@),
            None => None,
        }
    }

    /// A protocol error: an `Error` reply, nothing else.
    pub open spec fn is_error(&self) -> bool {
        &&& self.reply matches Some(Response::Error(_))
        &&& self.deliveries@.len() == 0
        &&& !self.close
    }

    /// A reply and nothing else.
    pub open spec fn is_reply(&self, r: ResponseV) -> bool {
        &&& self.reply_view() == Some(r)
        &&& self.deliveries@.len() == 0
        &&& !self.close
    }
}

fn error(message: &str) -> (r: Outcome)
    ensures
        r.is_error(),
        r.reply_view() == Some(ResponseV::Error(message@)),
{
    Outcome { reply: Some(Response::Error(message.to_owned())), deliveries: Vec::new(), close: false }
}

fn reply(response: Response) -> (r: Outcome)
    ensures
        r.is_reply(response@),
{
    Outcome { reply: Some(response), deliveries: Vec::new(), close: false }
}

/// One delivery of `ev` to each of `members`, in order.
pub fn deliver_to(members: &Vec<Member>, ev: &Response) -> (r: Vec<Delivery>)
    ensures
        deliveries_view(r@) == fan_out(members@, ev@),
{
    let mut r: Vec<Delivery> = Vec::new();
    let mut k: usize = 0;
    while k < members.len()
        invariant
            k <= members@.len(),
            r@.len() == k,
            forall|j: int| 0 <= j < k ==> (#[trigger] r@[j]).conn == members@[j].conn && r@[j].response@ == ev@,
        decreases members@.len() - k,
    {
        r.push(Delivery { conn: members[k].conn, response: ev.clone() });
        k = k + 1;
    }
    assert(deliveries_view(r@) =~= fan_out(members@, ev@));
    r
}

/// Broadcasts `ev` to the current members of room `chan`: one delivery to
/// each, in the order they joined; none for a room that does not exist.
pub fn publish(reg: &Registry, chan: &String, ev: &Response) -> (r: Vec<Delivery>)
    requires
        reg.wf(),
    ensures
        deliveries_view(r@) == fan_out(reg.room_of(chan@), ev@),
{
    let members = reg.chan_members(chan);
    deliver_to(&members, ev)
}

/// Whether two registries hold the same entries.
pub open spec fn same_registry(a: Registry, b: Registry) -> bool {
    a.users@ == b.users@ && a.rooms@ == b.rooms@
}

/// The state of one connection.
pub struct Session {
    /// The connection's identifier, given at accept.
    pub conn: u64,
    /// The authenticated nickname.
    pub nickname: Option<String>,
    /// The rooms joined, in the order they were joined.
    pub channels: Vec<String>,
    /// This side's ephemeral private key for the handshake.
    pub private_key: Vec<u8>,
    /// The public key of `private_key`, sent to the client.
    pub public_key: Vec<u8>,
    /// The client's public key, once it has sent it.
    pub peer_key: Option<Vec<u8>>,
    /// Codec for frames read from the client.
    pub reader: Codec,
    /// Codec for frames written to the client.
    pub writer: Codec,
}

impl Session {
    /// The nickname's characters.
    pub open spec fn nick(&self) -> Option<Seq<char>> {
        match self.nickname {
            Some(n) => Some(n@),
            None => None,
        }
    }

    /// The names of the rooms joined.
    pub open spec fn chans(&self) -> Seq<Seq<char>> {
        strings_view(self.channels@)
    }

    /// Both codecs hold the same key or none; a nickname is not empty, and
    /// only a session with a nickname is in rooms; the keys have their
    /// length, and the public key belongs to the private one; no room is
    /// listed twice.
    pub open spec fn wf(&self) -> bool {
        &&& self.reader.wf()
        &&& self.writer.wf()
        &&& self.reader.key() == self.writer.key()
        &&& self.nickname matches Some(n) ==> n@.len() > 0
        &&& self.nickname is None ==> self.channels@.len() == 0
        &&& self.peer_key matches Some(k) ==> k@.len() == KEY_LEN
        &&& self.private_key@.len() == KEY_LEN
        &&& self.public_key@ == public_of(self.private_key@)
        &&& self.public_key@.len() == KEY_LEN
        &&& self.chans().no_duplicates()
    }

    /// Whether the handshake may still run: no key installed, not connected.
    pub open spec fn in_handshake(&self) -> bool {
        self.reader.key() is None && self.nickname is None
    }

    /// The session for a newly accepted connection.
    pub fn new(conn: u64) -> (r: Session)
        ensures
            r.wf(),
            r.conn == conn,
            r.nick() is None,
            r.chans().len() == 0,
            r.peer_key is None,
            r.reader.key() is None,
    {
        let private_key = generate_private_key();
        let public_key = public_key_bytes(&private_key);
        let r = Session {
            conn,
            nickname: None,
            channels: Vec::new(),
            private_key,
            public_key,
            peer_key: None,
            reader: Codec::new(),
            writer: Codec::new(),
        };
        assert(r.chans() =~= Seq::<Seq<char>>::empty());
        r
    }
}

/// The two sessions differ at most in the nickname.
pub open spec fn same_but_nick(a: Session, b: Session) -> bool {
    a.conn == b.conn && a.channels == b.channels && a.private_key == b.private_key && a.public_key == b.public_key && a.peer_key == b.peer_key
        && a.reader == b.reader && a.writer == b.writer
}

/// The two sessions differ at most in the rooms joined.
pub open spec fn same_but_chans(a: Session, b: Session) -> bool {
    a.conn == b.conn && a.nickname == b.nickname && a.private_key == b.private_key && a.public_key == b.public_key && a.peer_key == b.peer_key
        && a.reader == b.reader && a.writer == b.writer
}

/// The two sessions differ at most in the handshake's keys.
pub open spec fn same_but_keys(a: Session, b: Session) -> bool {
    a.conn == b.conn && a.nickname == b.nickname && a.channels == b.channels && a.private_key == b.private_key && a.public_key == b.public_key
}

/// Rooms other than `chan` keep their existence and their members.
pub open spec fn other_rooms_kept(g0: Registry, g1: Registry, chan: Seq<char>) -> bool {
    &&& forall|c: Seq<char>| c != chan ==> g1.has_room(c) == g0.has_room(c)
    &&& forall|c: Seq<char>| c != chan ==> g1.room_of(c) == g0.room_of(c)
}

/// Nothing changes but an `Error` reply with the text `message`.
pub open spec fn refused(s0: Session, s1: Session, g0: Registry, g1: Registry, o: Outcome, message: Seq<char>) -> bool {
    o.is_error() && o.reply_view() == Some(ResponseV::Error(message)) && s1 == s0 && same_registry(g0, g1)
}

/// What `Connect(nick)` does: a session that has no nickname yet takes a
/// non-empty nickname that nobody holds, and is welcomed.
pub open spec fn connect_post(s0: Session, s1: Session, g0: Registry, g1: Registry, nick: Seq<char>, o: Outcome) -> bool {
    if s0.nickname is Some {
        refused(s0, s1, g0, g1, o, "Already connected"@)
    } else if nick.len() == 0 || g0.user_set().contains(nick) {
        refused(s0, s1, g0, g1, o, "Invalid username"@)
    } else {
        &&& o.is_reply(ResponseV::AckConnect("Welcome"@))
        &&& s1.nick() == Some(nick)
        &&& same_but_nick(s0, s1)
        &&& g1.user_set() == g0.user_set().insert(nick)
        &&& g1.rooms@ == g0.rooms@
    }
}

/// What `JoinChan(chan)` does: a connected session that is not in the room
/// yet joins it, learns who was there, and they learn that it came.
pub open spec fn join_post(s0: Session, s1: Session, g0: Registry, g1: Registry, chan: Seq<char>, o: Outcome) -> bool {
    match s0.nick() {
        None => refused(s0, s1, g0, g1, o, "Please connect first"@),
        Some(n) => if s0.chans().contains(chan) || g0.members(chan).contains(n) {
            refused(s0, s1, g0, g1, o, "User already in channel"@)
        } else {
            &&& o.reply_view() == Some(ResponseV::AckJoin { chan, users: g0.members(chan) })
            &&& deliveries_view(o.deliveries@) == fan_out(g0.room_of(chan), room_event(chan, ChanOpV::UserAdd(n)))
            &&& !o.close
            &&& same_but_chans(s0, s1)
            &&& s1.chans() == s0.chans().push(chan)
            &&& g1.users@ == g0.users@
            &&& g1.has_room(chan)
            &&& g1.room_of(chan) == g0.room_of(chan).push(Member { nick: s0.nickname->0, conn: s0.conn })
            &&& other_rooms_kept(g0, g1, chan)
        },
    }
}

/// What `LeaveChan(chan)` does: a connected session in the room leaves it,
/// and the members that stay learn that it left.
pub open spec fn leave_post(s0: Session, s1: Session, g0: Registry, g1: Registry, chan: Seq<char>, o: Outcome) -> bool {
    match s0.nick() {
        None => refused(s0, s1, g0, g1, o, "Please connect first"@),
        Some(n) => if !s0.chans().contains(chan) {
            refused(s0, s1, g0, g1, o, "Not in channel"@)
        } else {
            &&& o.reply_view() == Some(ResponseV::AckLeave(n))
            &&& deliveries_view(o.deliveries@) == fan_out(
                g0.room_of(chan).filter(other_than(n)),
                room_event(chan, ChanOpV::UserDel(n)),
            )
            &&& !o.close
            &&& same_but_chans(s0, s1)
            &&& exists|i: int| 0 <= i < s0.chans().len() && s0.chans()[i] == chan && s1.chans() == s0.chans().remove(i)
            &&& g1.users@ == g0.users@
            &&& g1.room_of(chan) == g0.room_of(chan).filter(other_than(n))
            &&& forall|c: Seq<char>| g1.has_room(c) == g0.has_room(c)
            &&& other_rooms_kept(g0, g1, chan)
        },
    }
}

/// What a message to room `chan` does: from a connected session in the
/// room, the message event goes back as the reply and to every member.
pub open spec fn send_chan_post(s0: Session, s1: Session, g0: Registry, g1: Registry, chan: Seq<char>, content: Seq<char>, o: Outcome) -> bool {
    match s0.nick() {
        None => refused(s0, s1, g0, g1, o, "Please connect first"@),
        Some(n) => if !s0.chans().contains(chan) {
            refused(s0, s1, g0, g1, o, "Not in channel"@)
        } else {
            let ev = room_event(chan, ChanOpV::Message { from: n, content });
            &&& o.reply_view() == Some(ev)
            &&& deliveries_view(o.deliveries@) == fan_out(g0.room_of(chan), ev)
            &&& !o.close
            &&& s1 == s0
            &&& same_registry(g0, g1)
        },
    }
}

/// What a message to user `to` does: from a connected session, to a
/// connected user, it goes as a direct message to that user's connection,
/// and the sender gets an `Ack`.
pub open spec fn send_user_post(s0: Session, s1: Session, g0: Registry, g1: Registry, to: Seq<char>, content: Seq<char>, o: Outcome) -> bool {
    match s0.nick() {
        None => refused(s0, s1, g0, g1, o, "Please connect first"@),
        Some(n) => if !g0.user_set().contains(to) {
            refused(s0, s1, g0, g1, o, "Unknown user"@)
        } else {
            &&& o.reply_view() == Some(ResponseV::Ack)
            &&& o.deliveries@.len() == 1
            &&& o.deliveries@[0].response@ == (ResponseV::DirectMessage { from: n, content })
            &&& exists|i: int| 0 <= i < g0.users@.len() && #[trigger] g0.users@[i].nick@ == to
                && g0.users@[i].conn == o.deliveries@[0].conn
            &&& !o.close
            &&& s1 == s0
            &&& same_registry(g0, g1)
        },
    }
}

/// What the client's public key does: during the handshake a 32-byte key
/// is kept and answered with this side's public key; a key of another
/// length closes the connection.
pub open spec fn secure_post(s0: Session, s1: Session, key: Seq<u8>, o: Outcome) -> bool {
    if !s0.in_handshake() {
        o.is_error() && o.reply_view() == Some(ResponseV::Error("invalid"@)) && s1 == s0
    } else if key.len() != KEY_LEN {
        o.reply is None && o.deliveries@.len() == 0 && o.close && s1 == s0
    } else {
        &&& o.is_reply(ResponseV::Secure(s0.public_key@))
        &&& s0.public_key@ == public_of(s0.private_key@)
        &&& same_but_keys(s0, s1)
        &&& s1.peer_key matches Some(k) && k@ == key
        &&& s1.reader == s0.reader && s1.writer == s0.writer
    }
}

/// What the client's sealed symmetric key does: after the client's public
/// key and before the handshake ends, the key that opening the envelope
/// under this session's private key and the client's public key gives is
/// installed in both codecs and acknowledged; an envelope that does not open
/// closes the connection.
pub open spec fn shared_post(s0: Session, s1: Session, sealed: Seq<u8>, o: Outcome) -> bool {
    if !s0.in_handshake() || s0.peer_key is None {
        o.is_error() && o.reply_view() == Some(ResponseV::Error("invalid"@)) && s1 == s0
    } else {
        match opened_shared(s0.private_key@, s0.peer_key->0@, sealed) {
            None => o.close && o.reply is None && o.deliveries@.len() == 0 && s1 == s0,
            Some(k) => {
                &&& o.is_reply(ResponseV::Ack)
                &&& s1.reader.key() == Some(k)
                &&& s1.writer.key() == Some(k)
                &&& same_but_keys(s0, s1)
                &&& s1.peer_key == s0.peer_key
            },
        }
    }
}

/// The reply of a connection to an event from its mailbox: the event
/// itself, but for a message of its own nickname, which it already had.
pub open spec fn mailbox_result(nick: Option<Seq<char>>, ev: ResponseV) -> Option<ResponseV> {
    match ev {
        ResponseV::Channel { op: ChanOpV::Message { from, content: _ }, chan: _ } => if nick == Some(from) {
            None
        } else {
            Some(ev)
        },
        _ => Some(ev),
    }
}

/// The deliveries that leaving each of `chans` in turn gives.
pub open spec fn leave_all(g: Registry, chans: Seq<Seq<char>>, n: Seq<char>) -> Seq<(u64, ResponseV)>
    decreases chans.len(),
{
    if chans.len() == 0 {
        Seq::empty()
    } else {
        leave_all(g, chans.drop_last(), n) + fan_out(
            g.room_of(chans.last()).filter(other_than(n)),
            room_event(chans.last(), ChanOpV::UserDel(n)),
        )
    }
}

impl Session {
    /// Handles `Connect(nick)`.
    pub fn connect(&mut self, reg: &mut Registry, nick: String) -> (o: Outcome)
        requires
            old(self).wf(),
            old(reg).wf(),
        ensures
            final(self).wf(),
            final(reg).wf(),
            connect_post(*old(self), *final(self), *old(reg), *final(reg), nick@, o),
    {
        if self.nickname.is_some() {
            return error("Already connected");
        }
        if nick.as_str().is_empty() {
            return error("Invalid username");
        }
        if reg.connect_user(&nick, self.conn) {
            self.nickname = Some(nick);
            reply(Response::AckConnect("Welcome".to_owned()))
        } else {
            error("Invalid username")
        }
    }

    /// Handles `JoinChan(chan)`.
    pub fn join_chan(&mut self, reg: &mut Registry, chan: String) -> (o: Outcome)
        requires
            old(self).wf(),
            old(reg).wf(),
        ensures
            final(self).wf(),
            final(reg).wf(),
            join_post(*old(self), *final(self), *old(reg), *final(reg), chan@, o),
    {
        let nick = match &self.nickname {
            None => {
                return error("Please connect first");
            },
            Some(n) => n.clone(),
        };
        if contains_string(&self.channels, &chan) {
            return error("User already in channel");
        }
        match reg.add_user_to_chan(&nick, self.conn, &chan) {
            None => error("User already in channel"),
            Some(before) => {
                let ev = Response::Channel { op: ChanOp::UserAdd(nick.clone()), chan: chan.clone() };
                let deliveries = deliver_to(&before, &ev);
                let users = nicknames(&before);
                self.channels.push(chan.clone());
                proof {
                    assert(self.chans() =~= old(self).chans().push(chan@));
                    assert(self.chans().no_duplicates());
                }
                Outcome { reply: Some(Response::AckJoin { chan, users }), deliveries, close: false }
            },
        }
    }

    /// Handles `LeaveChan(chan)`.
    pub fn leave_chan(&mut self, reg: &mut Registry, chan: String) -> (o: Outcome)
        requires
            old(self).wf(),
            old(reg).wf(),
        ensures
            final(self).wf(),
            final(reg).wf(),
            leave_post(*old(self), *final(self), *old(reg), *final(reg), chan@, o),
    {
        let nick = match &self.nickname {
            None => {
                return error("Please connect first");
            },
            Some(n) => n.clone(),
        };
        let idx = match position_of(&self.channels, &chan) {
            None => {
                return error("Not in channel");
            },
            Some(i) => i,
        };
        let remaining = reg.remove_user_from_chan(&nick, &chan);
        let ev = Response::Channel { op: ChanOp::UserDel(nick.clone()), chan: chan.clone() };
        let deliveries = deliver_to(&remaining, &ev);
        self.channels.remove(idx);
        proof {
            assert(self.chans() =~= old(self).chans().remove(idx as int));
            assert forall|a: int, b: int| 0 <= a < b < self.chans().len() implies self.chans()[a] != self.chans()[b] by {
                if a >= idx {
                    assert(self.chans()[a] == old(self).chans()[a + 1]);
                    assert(self.chans()[b] == old(self).chans()[b + 1]);
                } else if b >= idx {
                    assert(self.chans()[b] == old(self).chans()[b + 1]);
                }
            }
        }
        Outcome { reply: Some(Response::AckLeave(nick)), deliveries, close: false }
    }

    /// Handles a message to room `chan`.
    pub fn send_to_chan(&mut self, reg: &mut Registry, chan: String, content: String) -> (o: Outcome)
        requires
            old(self).wf(),
            old(reg).wf(),
        ensures
            final(self).wf(),
            final(reg).wf(),
            send_chan_post(*old(self), *final(self), *old(reg), *final(reg), chan@, content@, o),
    {
        let nick = match &self.nickname {
            None => {
                return error("Please connect first");
            },
            Some(n) => n.clone(),
        };
        if !contains_string(&self.channels, &chan) {
            return error("Not in channel");
        }
        let ev = Response::Channel { op: ChanOp::Message { from: nick, content }, chan: chan.clone() };
        let deliveries = publish(reg, &chan, &ev);
        Outcome { reply: Some(ev), deliveries, close: false }
    }

    /// Handles a message to user `to`.
    pub fn send_to_user(&mut self, reg: &mut Registry, to: String, content: String) -> (o: Outcome)
        requires
            old(self).wf(),
            old(reg).wf(),
        ensures
            final(self).wf(),
            final(reg).wf(),
            send_user_post(*old(self), *final(self), *old(reg), *final(reg), to@, content@, o),
    {
        let nick = match &self.nickname {
            None => {
                return error("Please connect first");
            },
            Some(n) => n.clone(),
        };
        match reg.lookup_user(&to) {
            None => error("Unknown user"),
            Some(conn) => {
                let mut deliveries: Vec<Delivery> = Vec::new();
                deliveries.push(Delivery { conn, response: Response::DirectMessage { from: nick, content } });
                Outcome { reply: Some(Response::Ack), deliveries, close: false }
            },
        }
    }

    /// Handles the client's public key, which opens the handshake.
    pub fn secure(&mut self, key: Vec<u8>) -> (o: Outcome)
        requires
            old(self).wf(),
        ensures
            final(self).wf(),
            secure_post(*old(self), *final(self), key@, o),
    {
        if self.nickname.is_some() || self.reader.shared_key.is_some() {
            return error("invalid");
        }
        if key.len() != KEY_LEN {
            return Outcome { reply: None, deliveries: Vec::new(), close: true };
        }
        self.peer_key = Some(key);
        let own = self.public_key.clone();
        Outcome { reply: Some(Response::Secure(own)), deliveries: Vec::new(), close: false }
    }

    /// Installs the symmetric key that opening the client's envelope gave, in
    /// both codecs, and acknowledges it; `None`, a failed opening, closes the
    /// connection.
    pub fn install_shared_key(&mut self, key: Option<Vec<u8>>) -> (o: Outcome)
        requires
            old(self).wf(),
            old(self).in_handshake(),
            key matches Some(k) ==> k@.len() == KEY_LEN,
        ensures
            final(self).wf(),
            key is None ==> o.reply is None && o.deliveries@.len() == 0 && o.close && *final(self) == *old(self),
            key matches Some(k) ==> o.is_reply(ResponseV::Ack) && final(self).reader.key() == Some(k@)
                && final(self).writer.key() == Some(k@) && same_but_keys(*old(self), *final(self))
                && final(self).peer_key == old(self).peer_key,
    {
        match key {
            None => Outcome { reply: None, deliveries: Vec::new(), close: true },
            Some(k) => {
                self.reader.set_shared_key(k.clone());
                self.writer.set_shared_key(k);
                reply(Response::Ack)
            },
        }
    }

    /// Handles the client's symmetric key, sealed under the combined key.
    /// Before the client's public key, or after the handshake, this is a
    /// protocol error; an envelope that does not open closes the connection.
    pub fn shared(&mut self, sealed: Vec<u8>) -> (o: Outcome)
        requires
            old(self).wf(),
        ensures
            final(self).wf(),
            shared_post(*old(self), *final(self), sealed@, o),
    {
        if self.nickname.is_some() || self.reader.shared_key.is_some() {
            return error("invalid");
        }
        let opened = match &self.peer_key {
            None => {
                return error("invalid");
            },
            Some(peer) => open_shared_key(&self.private_key, peer, &sealed),
        };
        self.install_shared_key(opened)
    }

    /// Handles one request; `None` stands for a frame whose payload was not
    /// a request, a recoverable protocol error.
    pub fn handle(&mut self, reg: &mut Registry, req: Option<Request>) -> (o: Outcome)
        requires
            old(self).wf(),
            old(reg).wf(),
        ensures
            final(self).wf(),
            final(reg).wf(),
            req is None ==> refused(*old(self), *final(self), *old(reg), *final(reg), o, "Malformed request"@),
            req matches Some(Request::Connect(n)) ==> connect_post(*old(self), *final(self), *old(reg), *final(reg), n@, o),
            req matches Some(Request::JoinChan(c)) ==> join_post(*old(self), *final(self), *old(reg), *final(reg), c@, o),
            req matches Some(Request::LeaveChan(c)) ==> leave_post(*old(self), *final(self), *old(reg), *final(reg), c@, o),
            req matches Some(Request::Message { to: MessageReceiver::Channel(c), content }) ==> send_chan_post(
                *old(self), *final(self), *old(reg), *final(reg), c@, content@, o),
            req matches Some(Request::Message { to: MessageReceiver::User(u), content }) ==> send_user_post(
                *old(self), *final(self), *old(reg), *final(reg), u@, content@, o),
            req matches Some(Request::Secure(k)) ==> secure_post(*old(self), *final(self), k@, o) && same_registry(*old(reg), *final(reg)),
            req matches Some(Request::Shared(k)) ==> shared_post(*old(self), *final(self), k@, o)
                && same_registry(*old(reg), *final(reg)),
    {
        match req {
            None => error("Malformed request"),
            Some(Request::Secure(k)) => self.secure(k),
            Some(Request::Shared(s)) => self.shared(s),
            Some(Request::Connect(n)) => self.connect(reg, n),
            Some(Request::JoinChan(c)) => self.join_chan(reg, c),
            Some(Request::LeaveChan(c)) => self.leave_chan(reg, c),
            Some(Request::Message { to: MessageReceiver::Channel(c), content }) => self.send_to_chan(reg, c, content),
            Some(Request::Message { to: MessageReceiver::User(u), content }) => self.send_to_user(reg, u, content),
        }
    }

    /// Tears the session down when its connection ends: the nickname is
    /// released, and the session leaves each room it is in, in the order it
    /// joined them, so that the members that stay learn that it left.
    pub fn close(&mut self, reg: &mut Registry) -> (r: Vec<Delivery>)
        requires
            old(self).wf(),
            old(reg).wf(),
        ensures
            final(self).wf(),
            final(reg).wf(),
            final(self).nick() is None,
            final(self).chans().len() == 0,
            old(self).nick() is None ==> r@.len() == 0 && final(reg).user_set() == old(reg).user_set()
                && final(reg).rooms@ == old(reg).rooms@,
            old(self).nick() matches Some(n) ==> {
                &&& final(reg).user_set() == old(reg).user_set().remove(n)
                &&& deliveries_view(r@) == leave_all(*old(reg), old(self).chans(), n)
                &&& forall|c: Seq<char>| #[trigger] old(self).chans().contains(c)
                    ==> final(reg).room_of(c) == old(reg).room_of(c).filter(other_than(n))
                &&& forall|c: Seq<char>| !old(self).chans().contains(c) ==> #[trigger] final(reg).room_of(c) == old(reg).room_of(c)
                &&& forall|c: Seq<char>| #[trigger] final(reg).has_room(c) == old(reg).has_room(c)
            },
    {
        let nick = match &self.nickname {
            None => {
                return Vec::new();
            },
            Some(n) => n.clone(),
        };
        reg.disconnect_user(&nick);
        let ghost g0 = *old(reg);
        let ghost chans = old(self).chans();
        let ghost n = nick@;
        let mut out: Vec<Delivery> = Vec::new();
        let mut i: usize = 0;
        while i < self.channels.len()
            invariant
                reg.wf(),
                *self == *old(self),
                chans == self.chans(),
                chans.no_duplicates(),
                n == nick@,
                i <= chans.len(),
                reg.user_set() == g0.user_set().remove(n),
                deliveries_view(out@) == leave_all(g0, chans.subrange(0, i as int), n),
                forall|c: Seq<char>| #[trigger] chans.subrange(0, i as int).contains(c)
                    ==> reg.room_of(c) == g0.room_of(c).filter(other_than(n)),
                forall|c: Seq<char>| !chans.subrange(0, i as int).contains(c) ==> #[trigger] reg.room_of(c) == g0.room_of(c),
                forall|c: Seq<char>| #[trigger] reg.has_room(c) == g0.has_room(c),
            decreases chans.len() - i,
        {
            let chan = self.channels[i].clone();
            let ghost before = *reg;
            let ghost pre = chans.subrange(0, i as int);
            proof {
                assert(chans[i as int] == chan@);
                assert(!pre.contains(chan@)) by {
                    if pre.contains(chan@) {
                        let j = choose|j: int| 0 <= j < pre.len() && pre[j] == chan@;
                        assert(chans[j] == chans[i as int]);
                    }
                }
            }
            let remaining = reg.remove_user_from_chan(&nick, &chan);
            let ev = Response::Channel { op: ChanOp::UserDel(nick.clone()), chan: chan.clone() };
            let more = deliver_to(&remaining, &ev);
            let ghost out_before = out@;
            let mut more = more;
            out.append(&mut more);
            i = i + 1;
            proof {
                let post = chans.subrange(0, i as int);
                assert(post.drop_last() =~= pre);
                assert(post.last() == chan@);
                assert(deliveries_view(out@) =~= deliveries_view(out_before) + fan_out(remaining@, ev@));
                assert forall|c: Seq<char>| #[trigger] post.contains(c) <==> pre.contains(c) || c == chan@ by {
                    if post.contains(c) {
                        let j = choose|j: int| 0 <= j < post.len() && post[j] == c;
                        if j < pre.len() {
                            assert(pre[j] == c);
                        }
                    }
                    if pre.contains(c) {
                        let j = choose|j: int| 0 <= j < pre.len() && pre[j] == c;
                        assert(post[j] == c);
                    }
                    if c == chan@ {
                        assert(post[i - 1] == c);
                    }
                }
            }
        }
        proof {
            assert(chans.subrange(0, i as int) =~= chans);
        }
        self.nickname = None;
        self.channels = Vec::new();
        proof {
            assert(self.chans() =~= Seq::<Seq<char>>::empty());
        }
        out
    }

    /// What the client gets for an event from this session's mailbox.
    pub fn on_mailbox(&self, ev: Response) -> (r: Option<Response>)
        ensures
            r matches Some(x) ==> mailbox_result(self.nick(), ev@) == Some(x@),
            r is None ==> mailbox_result(self.nick(), ev@) is None,
    {
        let own = match (&ev, &self.nickname) {
            (Response::Channel { op: ChanOp::Message { from, content: _ }, chan: _ }, Some(n)) => *from == *n,
            _ => false,
        };
        if own {
            None
        } else {
            Some(ev)
        }
    }
}

/// No member of a room that `nick` has left is called `nick`.
proof fn lemma_filtered_lacks(members: Seq<Member>, nick: Seq<char>)
    ensures
        !nicks(members.filter(other_than(nick))).contains(nick),
{
    let f = members.filter(other_than(nick));
    if nicks(f).contains(nick) {
        let j = choose|j: int| 0 <= j < nicks(f).len() && nicks(f)[j] == nick;
        members.lemma_filter_pred(other_than(nick), j);
        assert(f[j].nick@ == nick);
    }
}

/// After a session has left a room, its nickname is no longer among the
/// room's members.
pub proof fn lemma_left_nickname_gone(s0: Session, s1: Session, g0: Registry, g1: Registry, chan: Seq<char>, o: Outcome)
    requires
        leave_post(s0, s1, g0, g1, chan, o),
        s0.nick() is Some,
        s0.chans().contains(chan),
    ensures
        !g1.members(chan).contains(s0.nick()->0),
{
    lemma_filtered_lacks(g0.room_of(chan), s0.nick()->0);
}

/// When a nickname is not among a room's members, a join of that room by
/// another session does not report it, and it stays absent.
pub proof fn lemma_join_keeps_absent(
    s0: Session,
    s1: Session,
    g0: Registry,
    g1: Registry,
    chan: Seq<char>,
    o: Outcome,
    gone: Seq<char>,
)
    requires
        join_post(s0, s1, g0, g1, chan, o),
        s0.nick() != Some(gone),
        !g0.members(chan).contains(gone),
    ensures
        o.reply_view() matches Some(ResponseV::AckJoin { chan: _, users }) ==> !users.contains(gone),
        !g1.members(chan).contains(gone),
{
    if s0.nick() is Some && !s0.chans().contains(chan) && !g0.members(chan).contains(s0.nick()->0) {
        let added = Member { nick: s0.nickname->0, conn: s0.conn };
        assert(nicks(g0.room_of(chan).push(added)) =~= nicks(g0.room_of(chan)).push(added.nick@));
    }
}

/// One step in the membership of room `chan` that a session other than
/// `gone`'s can cause: the members stay, the members of some nickname
/// leave, or a member not called `gone` joins.
pub open spec fn room_step(g0: Registry, g1: Registry, chan: Seq<char>, gone: Seq<char>) -> bool {
    ||| g1.room_of(chan) == g0.room_of(chan)
    ||| exists|x: Seq<char>| g1.room_of(chan) == #[trigger] g0.room_of(chan).filter(other_than(x))
    ||| exists|m: Member| m.nick@ != gone && g1.room_of(chan) == #[trigger] g0.room_of(chan).push(m)
}

/// A room step keeps a nickname out of the room's members.
pub proof fn lemma_room_step_keeps_absent(g0: Registry, g1: Registry, chan: Seq<char>, gone: Seq<char>)
    requires
        room_step(g0, g1, chan, gone),
        !g0.members(chan).contains(gone),
    ensures
        !g1.members(chan).contains(gone),
{
    let m = g0.room_of(chan);
    if g1.room_of(chan) == m {
    } else if exists|x: Seq<char>| g1.room_of(chan) == #[trigger] m.filter(other_than(x)) {
        let x = choose|x: Seq<char>| g1.room_of(chan) == #[trigger] m.filter(other_than(x));
        let f = m.filter(other_than(x));
        if nicks(f).contains(gone) {
            let j = choose|j: int| 0 <= j < nicks(f).len() && nicks(f)[j] == gone;
            m.lemma_filter_contains_rev(other_than(x), f[j]);
            let k = choose|k: int| 0 <= k < m.len() && m[k] == f[j];
            assert(nicks(m)[k] == gone);
        }
    } else {
        let added = choose|a: Member| a.nick@ != gone && g1.room_of(chan) == #[trigger] m.push(a);
        assert(nicks(m.push(added)) =~= nicks(m).push(added.nick@));
    }
}

/// A nickname that is not among the members of room `chan` stays out of
/// them, and out of every member list that a join of the room reports,
/// along any sequence of registry states in which each step is a room step
/// of other sessions: after a session has left a room, no later join of the
/// room lists it until it joins again.
pub proof fn lemma_departed_never_listed(trace: Seq<Registry>, chan: Seq<char>, gone: Seq<char>)
    requires
        trace.len() > 0,
        !trace[0].members(chan).contains(gone),
        forall|k: int| 0 <= k < trace.len() - 1 ==> room_step(#[trigger] trace[k], trace[k + 1], chan, gone),
    ensures
        forall|k: int| 0 <= k < trace.len() ==> !(#[trigger] trace[k]).members(chan).contains(gone),
    decreases trace.len(),
{
    if trace.len() > 1 {
        let front = trace.drop_last();
        assert forall|k: int| 0 <= k < front.len() - 1 implies room_step(#[trigger] front[k], front[k + 1], chan, gone) by {
            assert(front[k] == trace[k] && front[k + 1] == trace[k + 1]);
        }
        lemma_departed_never_listed(front, chan, gone);
        let last = trace.len() - 1;
        assert(front[last - 1] == trace[last - 1]);
        assert(room_step(trace[last - 1], trace[last], chan, gone));
        lemma_room_step_keeps_absent(trace[last - 1], trace[last], chan, gone);
        assert forall|k: int| 0 <= k < trace.len() implies !(#[trigger] trace[k]).members(chan).contains(gone) by {
            if k < last {
                assert(front[k] == trace[k]);
            }
        }
    }
}

/// A request that leaves the rooms as they were is a room step.
pub proof fn lemma_same_rooms_is_room_step(g0: Registry, g1: Registry, chan: Seq<char>, gone: Seq<char>)
    requires
        g1.rooms@ == g0.rooms@,
    ensures
        room_step(g0, g1, chan, gone),
{
    assert(g1.room_of(chan) == g0.room_of(chan));
}

/// A join by a session not called `gone` is a room step of every room.
pub proof fn lemma_join_is_room_step(
    s0: Session,
    s1: Session,
    g0: Registry,
    g1: Registry,
    c: Seq<char>,
    o: Outcome,
    chan: Seq<char>,
    gone: Seq<char>,
)
    requires
        join_post(s0, s1, g0, g1, c, o),
        s0.nick() != Some(gone),
    ensures
        room_step(g0, g1, chan, gone),
{
    if s0.nick() is Some && !s0.chans().contains(c) && !g0.members(c).contains(s0.nick()->0) && chan == c {
        let added = Member { nick: s0.nickname->0, conn: s0.conn };
        assert(g1.room_of(chan) == g0.room_of(chan).push(added));
    } else if s0.nick() is None || s0.chans().contains(c) || g0.members(c).contains(s0.nick()->0) {
        assert(g1.rooms@ == g0.rooms@);
        lemma_same_rooms_is_room_step(g0, g1, chan, gone);
    }
}

/// A leave by any session is a room step of every room.
pub proof fn lemma_leave_is_room_step(
    s0: Session,
    s1: Session,
    g0: Registry,
    g1: Registry,
    c: Seq<char>,
    o: Outcome,
    chan: Seq<char>,
    gone: Seq<char>,
)
    requires
        leave_post(s0, s1, g0, g1, c, o),
    ensures
        room_step(g0, g1, chan, gone),
{
    if s0.nick() is Some && s0.chans().contains(c) && chan == c {
        let n = s0.nick()->0;
        assert(g1.room_of(chan) == g0.room_of(chan).filter(other_than(n)));
    } else if s0.nick() is None || !s0.chans().contains(c) {
        lemma_same_rooms_is_room_step(g0, g1, chan, gone);
    }
}

/// Tearing a session down is a room step of every room.
pub proof fn lemma_close_is_room_step(g0: Registry, g1: Registry, chans: Seq<Seq<char>>, n: Seq<char>, chan: Seq<char>, gone: Seq<char>)
    requires
        forall|c: Seq<char>| #[trigger] chans.contains(c) ==> g1.room_of(c) == g0.room_of(c).filter(other_than(n)),
        forall|c: Seq<char>| !chans.contains(c) ==> #[trigger] g1.room_of(c) == g0.room_of(c),
    ensures
        room_step(g0, g1, chan, gone),
{
    if chans.contains(chan) {
        assert(g1.room_of(chan) == g0.room_of(chan).filter(other_than(n)));
    }
}

/// A message to a room goes back to its sender once, as the reply, and
/// once to each member of the room, members having distinct nicknames; from
/// its mailbox the sender's session drops its own copy, and every other
/// member's session passes it on.
pub proof fn lemma_message_delivered_once(
    s0: Session,
    s1: Session,
    g0: Registry,
    g1: Registry,
    chan: Seq<char>,
    content: Seq<char>,
    o: Outcome,
)
    requires
        g0.wf(),
        send_chan_post(s0, s1, g0, g1, chan, content, o),
        s0.nick() is Some,
        s0.chans().contains(chan),
    ensures
        ({
            let n = s0.nick()->0;
            let ev = room_event(chan, ChanOpV::Message { from: n, content });
            let members = g0.room_of(chan);
            &&& o.reply_view() == Some(ev)
            &&& o.deliveries@.len() == members.len()
            &&& forall|i: int| 0 <= i < members.len() ==> (#[trigger] o.deliveries@[i]).conn == members[i].conn
                && o.deliveries@[i].response@ == ev
            &&& forall|i: int, j: int| 0 <= i < j < members.len() ==> members[i].nick@ != members[j].nick@
            &&& forall|i: int| 0 <= i < members.len() ==> mailbox_result(Some(#[trigger] members[i].nick@), ev)
                == if members[i].nick@ == n { None } else { Some(ev) }
        }),
{
    let n = s0.nick()->0;
    let ev = room_event(chan, ChanOpV::Message { from: n, content });
    let members = g0.room_of(chan);
    assert(deliveries_view(o.deliveries@).len() == members.len());
    assert forall|i: int| 0 <= i < members.len() implies (#[trigger] o.deliveries@[i]).conn == members[i].conn
        && o.deliveries@[i].response@ == ev by {
        assert(deliveries_view(o.deliveries@)[i] == fan_out(members, ev)[i]);
    }
    if g0.has_room(chan) {
        let k = choose|k: int| 0 <= k < g0.rooms@.len() && #[trigger] g0.rooms@[k].name@ == chan;
        assert(distinct_nicks(g0.rooms@[k].members@));
    }
}

/// A nickname that a connection holds is refused to any other: the second
/// `Connect` gets an `Error` and leaves that session as it was, without a
/// nickname.
pub proof fn lemma_taken_nickname_refused(s0: Session, s1: Session, g0: Registry, g1: Registry, nick: Seq<char>, o: Outcome)
    requires
        connect_post(s0, s1, g0, g1, nick, o),
        g0.user_set().contains(nick),
    ensures
        o.is_error(),
        s1 == s0,
        s1.nick() == s0.nick(),
{
}

/// Once a session has been torn down, its nickname is free again: a new
/// session that connects with it is welcomed.
pub proof fn lemma_nickname_free_after_close(
    g0: Registry,
    g1: Registry,
    g2: Registry,
    n: Seq<char>,
    fresh0: Session,
    fresh1: Session,
    o: Outcome,
)
    requires
        g1.user_set() == g0.user_set().remove(n),
        n.len() > 0,
        fresh0.nick() is None,
        connect_post(fresh0, fresh1, g1, g2, n, o),
    ensures
        o.is_reply(ResponseV::AckConnect("Welcome"@)),
        fresh1.nick() == Some(n),
{
}

proof fn lemma_leave_all_contains(g: Registry, chans: Seq<Seq<char>>, n: Seq<char>, k: int, i: int)
    requires
        0 <= k < chans.len(),
        0 <= i < g.room_of(chans[k]).filter(other_than(n)).len(),
    ensures
        leave_all(g, chans, n).contains(
            (g.room_of(chans[k]).filter(other_than(n))[i].conn, room_event(chans[k], ChanOpV::UserDel(n))),
        ),
    decreases chans.len(),
{
    let x = (g.room_of(chans[k]).filter(other_than(n))[i].conn, room_event(chans[k], ChanOpV::UserDel(n)));
    let front = leave_all(g, chans.drop_last(), n);
    let back = fan_out(g.room_of(chans.last()).filter(other_than(n)), room_event(chans.last(), ChanOpV::UserDel(n)));
    assert(leave_all(g, chans, n) == front + back);
    if k == chans.len() - 1 {
        assert((front + back)[front.len() + i] == x);
    } else {
        lemma_leave_all_contains(g, chans.drop_last(), n, k, i);
        let j = choose|j: int| 0 <= j < front.len() && front[j] == x;
        assert((front + back)[j] == x);
    }
}

/// When a session is torn down, every other member of each room it was in
/// gets the event that it left that room.
pub proof fn lemma_close_announces_departure(g0: Registry, chans: Seq<Seq<char>>, n: Seq<char>, k: int, m: Member)
    requires
        0 <= k < chans.len(),
        g0.room_of(chans[k]).contains(m),
        m.nick@ != n,
    ensures
        leave_all(g0, chans, n).contains((m.conn, room_event(chans[k], ChanOpV::UserDel(n)))),
{
    let members = g0.room_of(chans[k]);
    let j = choose|j: int| 0 <= j < members.len() && members[j] == m;
    members.lemma_filter_contains(other_than(n), j);
    let f = members.filter(other_than(n));
    let i = choose|i: int| 0 <= i < f.len() && f[i] == m;
    lemma_leave_all_contains(g0, chans, n, k, i);
}

/// Whether `s` is one of `v`.
fn contains_string(v: &Vec<String>, s: &String) -> (r: bool)
    ensures
        r == strings_view(v@).contains(s@),
{
    match position_of(v, s) {
        Some(i) => true,
        None => false,
    }
}

/// The first position of `s` in `v`.
fn position_of(v: &Vec<String>, s: &String) -> (r: Option<usize>)
    ensures
        r is None <==> !strings_view(v@).contains(s@),
        r matches Some(i) ==> i < v@.len() && strings_view(v@)[i as int] == s@,
{
    let mut i: usize = 0;
    while i < v.len()
        invariant
            i <= v@.len(),
            forall|j: int| 0 <= j < i ==> v@[j]@ != s@,
        decreases v@.len() - i,
    {
        if v[i] == *s {
            assert(strings_view(v@)[i as int] == s@);
            return Some(i);
        }
        i = i + 1;
    }
    assert(!strings_view(v@).contains(s@)) by {
        if strings_view(v@).contains(s@) {
            let j = choose|j: int| 0 <= j < strings_view(v@).len() && strings_view(v@)[j] == s@;
            assert(v@[j]@ == s@);
        }
    }
    None
}

/// The nicknames of `members`, in order.
fn nicknames(members: &Vec<Member>) -> (r: Vec<String>)
    ensures
        strings_view(r@) == nicks(members@),
{
    let mut r: Vec<String> = Vec::new();
    let mut k: usize = 0;
    while k < members.len()
        invariant
            k <= members@.len(),
            r@.len() == k,
            forall|j: int| 0 <= j < k ==> (#[trigger] r@[j])@ == members@[j].nick@,
        decreases members@.len() - k,
    {
        r.push(members[k].nick.clone());
        k = k + 1;
    }
    assert(strings_view(r@) =~= nicks(members@));
    r
}

} // verus!
