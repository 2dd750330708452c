//! Messages exchanged between chat clients and the server.

use vstd::prelude::*;
use vstd::string::{StrSliceExecFns, StringExecFns};

verus! {

/// A request, sent by a client to the server.
#[derive(Debug, PartialEq, Eq)]
pub enum Request {
    /// The client's symmetric key, encrypted under the combined handshake key.
    Shared(Vec<u8>),
    /// Opens the handshake with the client's public key.
    Secure(Vec<u8>),
    /// Asks to be known under the given nickname.
    Connect(String),
    /// Asks to join a room, which is created when absent.
    JoinChan(String),
    /// Asks to leave a room.
    LeaveChan(String),
    /// A text message for a room or a user.
    Message { to: MessageReceiver, content: String },
}

/// Where a message goes.
#[derive(Debug, PartialEq, Eq)]
pub enum MessageReceiver {
    User(String),
    Channel(String),
}

/// What happened in a room.
#[derive(Debug, PartialEq, Eq)]
pub enum ChanOp {
    Message { from: String, content: String },
    UserAdd(String),
    UserDel(String),
}

/// A response, sent by the server to a client.
#[derive(Debug, PartialEq, Eq)]
pub enum Response {
    /// Acknowledgement.
    Ack,
    /// The server's public key, in answer to the client's.
    Secure(Vec<u8>),
    /// A message from one user to another.
    DirectMessage { from: String, content: String },
    /// An event of a room.
    Channel { op: ChanOp, chan: String },
    /// The room was joined; `users` are the members that were there before.
    AckJoin { chan: String, users: Vec<String> },
    /// The room was left by the given nickname.
    AckLeave(String),
    /// The nickname was accepted.
    AckConnect(String),
    /// A recoverable protocol error.
    Error(String),
}

/// The value a receiver stands for.
pub enum ReceiverV {
    User(Seq<char>),
    Channel(Seq<char>),
}

/// The value a room event stands for.
pub enum ChanOpV {
    Message { from: Seq<char>, content: Seq<char> },
    UserAdd(Seq<char>),
    UserDel(Seq<char>),
}

/// The value a response stands for.
pub enum ResponseV {
    Ack,
    Secure(Seq<u8>),
    DirectMessage { from: Seq<char>, content: Seq<char> },
    Channel { op: ChanOpV, chan: Seq<char> },
    AckJoin { chan: Seq<char>, users: Seq<Seq<char>> },
    AckLeave(Seq<char>),
    AckConnect(Seq<char>),
    Error(Seq<char>),
}

/// The contents of a list of strings.
pub open spec fn strings_view(v: Seq<String>) -> Seq<Seq<char>> {
    v.map_values(|s: String| s@)
}

impl View for MessageReceiver {
    type V = ReceiverV;

    open spec fn view(&self) -> ReceiverV {
        match self {
            MessageReceiver::User(u) => ReceiverV::User(u@),
            MessageReceiver::Channel(c) => ReceiverV::Channel(c@),
        }
    }
}

impl View for ChanOp {
    type V = ChanOpV;

    open spec fn view(&self) -> ChanOpV {
        match self {
            ChanOp::Message { from, content } => ChanOpV::Message { from: from@, content: content@ },
            ChanOp::UserAdd(n) => ChanOpV::UserAdd(n@),
            ChanOp::UserDel(n) => ChanOpV::UserDel(n@),
        }
    }
}

impl View for Response {
    type V = ResponseV;

    open spec fn view(&self) -> ResponseV {
        match self {
            Response::Ack => ResponseV::Ack,
            Response::Secure(k) => ResponseV::Secure(k@),
            Response::DirectMessage { from, content } => ResponseV::DirectMessage {
                from: from@,
                content: content@,
            },
            Response::Channel { op, chan } => ResponseV::Channel { op: op@, chan: chan@ },
            Response::AckJoin { chan, users } => ResponseV::AckJoin {
                chan: chan@,
                users: strings_view(users@),
            },
            Response::AckLeave(n) => ResponseV::AckLeave(n@),
            Response::AckConnect(t) => ResponseV::AckConnect(t@),
            Response::Error(t) => ResponseV::Error(t@),
        }
    }
}

/// Copies a list of strings element by element.
pub fn clone_strings(v: &Vec<String>) -> (r: Vec<String>)
    ensures
        strings_view(r@) == strings_view(v@),
{
    let mut r: Vec<String> = Vec::new();
    let mut i: usize = 0;
    while i < v.len()
        invariant
            i <= v@.len(),
            r@.len() == i,
            forall|j: int| 0 <= j < i ==> #[trigger] r@[j]@ == v@[j]@,
        decreases v@.len() - i,
    {
        r.push(v[i].clone());
        i = i + 1;
    }
    assert(strings_view(r@) =~= strings_view(v@));
    r
}

impl Clone for ChanOp {
    fn clone(&self) -> (r: Self)
        ensures
            r@ == self@,
    {
        match self {
            ChanOp::Message { from, content } => ChanOp::Message {
                from: from.clone(),
                content: content.clone(),
            },
            ChanOp::UserAdd(n) => ChanOp::UserAdd(n.clone()),
            ChanOp::UserDel(n) => ChanOp::UserDel(n.clone()),
        }
    }
}

impl Clone for Response {
    fn clone(&self) -> (r: Self)
        ensures
            r@ == self@,
    {
        match self {
            Response::Ack => Response::Ack,
            Response::Secure(k) => Response::Secure(k.clone()),
            Response::DirectMessage { from, content } => Response::DirectMessage {
                from: from.clone(),
                content: content.clone(),
            },
            Response::Channel { op, chan } => Response::Channel { op: op.clone(), chan: chan.clone() },
            Response::AckJoin { chan, users } => Response::AckJoin {
                chan: chan.clone(),
                users: clone_strings(users),
            },
            Response::AckLeave(n) => Response::AckLeave(n.clone()),
            Response::AckConnect(t) => Response::AckConnect(t.clone()),
            Response::Error(t) => Response::Error(t.clone()),
        }
    }
}

/// Whether an address is shorter than two bytes: empty, or one ASCII character.
pub open spec fn too_short(s: Seq<char>) -> bool {
    s.len() == 0 || (s.len() == 1 && (s[0] as u32) < 128)
}

/// The receiver that a textual address names: `#room` or `@nickname`.
/// Addresses shorter than two bytes are refused, as are those with another
/// first character.
pub open spec fn receiver_of(s: Seq<char>) -> Option<ReceiverV> {
    if too_short(s) {
        None
    } else if s[0] == '#' {
        Some(ReceiverV::Channel(s.subrange(1, s.len() as int)))
    } else if s[0] == '@' {
        Some(ReceiverV::User(s.subrange(1, s.len() as int)))
    } else {
        None
    }
}

/// The message of the error for an address that names no receiver.
pub open spec fn receiver_error(s: Seq<char>) -> Seq<char> {
    if too_short(s) {
        "Channel or username must be at least one character long: "@ + s
    } else {
        "Unrecognized receiver: "@ + s
    }
}

impl MessageReceiver {
    /// Reads `#room` as a room and `@nickname` as a user.
    pub fn from_str(s: &str) -> (r: Result<MessageReceiver, String>)
        ensures
            r is Ok <==> receiver_of(s@) is Some,
            r is Ok ==> r->Ok_0@ == receiver_of(s@)->0,
            r is Err ==> r->Err_0@ == receiver_error(s@),
    {
        let n = s.unicode_len();
        if n == 0 || (n == 1 && (s.get_char(0) as u32) < 128) {
            let mut e = String::from_str("Channel or username must be at least one character long: ");
            e.append(s);
            return Err(e);
        }
        let first = s.get_char(0);
        if first == '#' {
            Ok(MessageReceiver::Channel(s.substring_char(1, n).to_owned()))
        } else if first == '@' {
            Ok(MessageReceiver::User(s.substring_char(1, n).to_owned()))
        } else {
            let mut e = String::from_str("Unrecognized receiver: ");
            e.append(s);
            Err(e)
        }
    }
}

} // verus!
