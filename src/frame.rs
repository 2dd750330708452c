//! Length-prefixed frames: a 4-byte big-endian length, then exactly that many
//! payload bytes. A codec seals payloads once a symmetric key is installed.

use vstd::prelude::*;
use crate::crypto::{open, opened, seal, KEY_LEN, SEAL_OVERHEAD};

verus! {

/// Number of bytes of a frame's length prefix.
pub const HEADER_LEN: usize = 4;

/// The big-endian bytes of `n`.
pub open spec fn be_bytes(n: u32) -> Seq<u8> {
    seq![(n >> 24u32) as u8, (n >> 16u32) as u8, (n >> 8u32) as u8, n as u8]
}

/// The number that the first four bytes of `b` stand for, big-endian.
pub open spec fn be_value(b: Seq<u8>) -> u32 {
    ((b[0] as u32) << 24u32) | ((b[1] as u32) << 16u32) | ((b[2] as u32) << 8u32) | (b[3] as u32)
}

/// The frame that carries `payload`.
pub open spec fn frame_of(payload: Seq<u8>) -> Seq<u8> {
    be_bytes(payload.len() as u32) + payload
}

/// The first frame at the start of `buf`, as its payload and the number of
/// bytes it takes, or `None` while `buf` holds less than a whole frame.
pub open spec fn first_frame(buf: Seq<u8>) -> Option<(Seq<u8>, nat)> {
    if buf.len() < HEADER_LEN {
        None
    } else {
        let end = HEADER_LEN + be_value(buf);
        if buf.len() < end {
            None
        } else {
            Some((buf.subrange(HEADER_LEN as int, end as int), end as nat))
        }
    }
}

proof fn lemma_be_round_trip(n: u32)
    ensures
        be_value(be_bytes(n)) == n,
{
    let b0 = (n >> 24u32) as u8;
    let b1 = (n >> 16u32) as u8;
    let b2 = (n >> 8u32) as u8;
    let b3 = n as u8;
    assert(((b0 as u32) << 24u32) | ((b1 as u32) << 16u32) | ((b2 as u32) << 8u32) | (b3 as u32) == n)
        by (bit_vector)
        requires
            b0 == (n >> 24u32) as u8,
            b1 == (n >> 16u32) as u8,
            b2 == (n >> 8u32) as u8,
            b3 == n as u8,
    ;
}

/// Writes the frame that carries `payload`.
pub fn encode_frame(payload: &Vec<u8>) -> (r: Vec<u8>)
    requires
        payload@.len() <= u32::MAX,
    ensures
        r@ == frame_of(payload@),
{
    let n = payload.len() as u32;
    let mut r: Vec<u8> = Vec::new();
    r.push((n >> 24u32) as u8);
    r.push((n >> 16u32) as u8);
    r.push((n >> 8u32) as u8);
    r.push(n as u8);
    let mut i: usize = 0;
    while i < payload.len()
        invariant
            i <= payload@.len(),
            r@ == be_bytes(n) + payload@.subrange(0, i as int),
        decreases payload@.len() - i,
    {
        r.push(payload[i]);
        i = i + 1;
        assert(r@ =~= be_bytes(n) + payload@.subrange(0, i as int));
    }
    assert(payload@.subrange(0, i as int) =~= payload@);
    r
}

/// Reads the payload length from the 4-byte prefix that starts `header`.
pub fn frame_length(header: &[u8]) -> (r: u32)
    requires
        header@.len() >= HEADER_LEN,
    ensures
        r == be_value(header@),
{
    ((header[0] as u32) << 24u32) | ((header[1] as u32) << 16u32) | ((header[2] as u32) << 8u32)
        | (header[3] as u32)
}

/// Splits the first whole frame off the start of `buf`: its payload and the
/// number of bytes it takes, or `None` while the frame is incomplete.
pub fn decode_frame(buf: &Vec<u8>) -> (r: Option<(Vec<u8>, usize)>)
    ensures
        r is None <==> first_frame(buf@) is None,
        r is Some ==> (r->0).0@ == (first_frame(buf@)->0).0 && (r->0).1 == (first_frame(buf@)->0).1,
{
    if buf.len() < HEADER_LEN {
        return None;
    }
    let len = frame_length(buf.as_slice());
    if ((buf.len() - HEADER_LEN) as u64) < len as u64 {
        return None;
    }
    let end: usize = HEADER_LEN + len as usize;
    let mut p: Vec<u8> = Vec::new();
    let mut i: usize = HEADER_LEN;
    while i < end
        invariant
            HEADER_LEN <= i <= end <= buf@.len(),
            p@ == buf@.subrange(HEADER_LEN as int, i as int),
        decreases end - i,
    {
        p.push(buf[i]);
        i = i + 1;
        assert(p@ =~= buf@.subrange(HEADER_LEN as int, i as int));
    }
    Some((p, end))
}

/// Splitting the frame of a payload off the front of a stream gives back
/// the payload and the frame's length, whatever follows it.
pub proof fn lemma_frame_round_trip(payload: Seq<u8>, rest: Seq<u8>)
    requires
        payload.len() <= u32::MAX,
    ensures
        first_frame(frame_of(payload) + rest) == Some((payload, (HEADER_LEN + payload.len()) as nat)),
{
    let buf = frame_of(payload) + rest;
    lemma_be_round_trip(payload.len() as u32);
    assert(buf[0] == be_bytes(payload.len() as u32)[0]);
    assert(buf[1] == be_bytes(payload.len() as u32)[1]);
    assert(buf[2] == be_bytes(payload.len() as u32)[2]);
    assert(buf[3] == be_bytes(payload.len() as u32)[3]);
    assert(buf.subrange(HEADER_LEN as int, HEADER_LEN + payload.len()) =~= payload);
}

/// The plain bytes that a codec holding `key` reads out of a frame payload:
/// the payload itself without a key, else what opening it gives.
pub open spec fn plain_of(key: Option<Seq<u8>>, payload: Seq<u8>) -> Option<Seq<u8>> {
    match key {
        None => Some(payload),
        Some(k) => opened(k, payload),
    }
}

/// Bytes that a codec holding `key` adds to a payload before framing it.
pub open spec fn overhead(key: Option<Seq<u8>>) -> nat {
    match key {
        None => 0,
        Some(_) => SEAL_OVERHEAD as nat,
    }
}

/// Whether `frame` is one frame whose payload a codec holding `key` reads as `plain`.
pub open spec fn encodes(key: Option<Seq<u8>>, plain: Seq<u8>, frame: Seq<u8>) -> bool {
    exists|p: Seq<u8>|
        p.len() <= u32::MAX && frame == frame_of(p) && plain_of(key, p) == Some(plain)
}

/// One direction of a connection's codec: frames payloads, and seals or
/// opens them once the handshake has installed a symmetric key.
pub struct Codec {
    pub shared_key: Option<Vec<u8>>,
}

impl Codec {
    /// The installed key's bytes.
    pub open spec fn key(&self) -> Option<Seq<u8>> {
        match self.shared_key {
            Some(k) => Some(k@),
            None => None,
        }
    }

    /// An installed key has the symmetric key's length.
    pub open spec fn wf(&self) -> bool {
        self.shared_key matches Some(k) ==> k@.len() == KEY_LEN
    }

    /// A codec without a key: payloads travel in plain.
    pub fn new() -> (r: Codec)
        ensures
            r.wf(),
            r.key() is None,
    {
        Codec { shared_key: None }
    }

    /// Installs the symmetric key; every later payload is sealed under it.
    pub fn set_shared_key(&mut self, shared_key: Vec<u8>)
        requires
            shared_key@.len() == KEY_LEN,
        ensures
            final(self).wf(),
            final(self).key() == Some(shared_key@),
    {
        self.shared_key = Some(shared_key);
    }

    /// The frame that carries `plain`, sealed when a key is installed; `None`
    /// when the payload would not fit the 4-byte length.
    pub fn encode(&self, plain: &Vec<u8>) -> (r: Option<Vec<u8>>)
        requires
            self.wf(),
        ensures
            r is Some <==> plain@.len() + overhead(self.key()) <= u32::MAX,
            r is Some ==> encodes(self.key(), plain@, r->0@),
            r is Some && self.key() is None ==> r->0@ == frame_of(plain@),
    {
        match &self.shared_key {
            None => {
                if plain.len() as u64 > u32::MAX as u64 {
                    return None;
                }
                let f = encode_frame(plain);
                assert(plain_of(self.key(), plain@) == Some(plain@));
                Some(f)
            },
            Some(k) => {
                if plain.len() as u64 > (u32::MAX as u64) - (SEAL_OVERHEAD as u64) {
                    return None;
                }
                let sealed = seal(k, plain);
                match sealed {
                    Some(p) => {
                        let f = encode_frame(&p);
                        assert(plain_of(self.key(), p@) == Some(plain@));
                        Some(f)
                    },
                    None => None,
                }
            },
        }
    }

    /// The plain bytes of a frame payload: the payload itself without a key,
    /// else its opened contents; `None` when it does not authenticate.
    pub fn decode(&self, payload: &Vec<u8>) -> (r: Option<Vec<u8>>)
        requires
            self.wf(),
        ensures
            r is Some <==> plain_of(self.key(), payload@) is Some,
            r is Some ==> r->0@ == plain_of(self.key(), payload@)->0,
    {
        match &self.shared_key {
            None => {
                let mut r: Vec<u8> = Vec::new();
                let mut i: usize = 0;
                while i < payload.len()
                    invariant
                        i <= payload@.len(),
                        r@ == payload@.subrange(0, i as int),
                    decreases payload@.len() - i,
                {
                    r.push(payload[i]);
                    i = i + 1;
                    assert(r@ =~= payload@.subrange(0, i as int));
                }
                assert(payload@.subrange(0, i as int) =~= payload@);
                Some(r)
            },
            Some(k) => open(k, payload),
        }
    }
}

/// Whatever a codec writes for `plain`, a codec holding the same key reads
/// back: the first frame of the stream is split off whole and its payload
/// reads as `plain`, whatever follows it.
pub proof fn lemma_codec_round_trip(key: Option<Seq<u8>>, plain: Seq<u8>, frame: Seq<u8>, rest: Seq<u8>)
    requires
        encodes(key, plain, frame),
    ensures
        first_frame(frame + rest) is Some,
        (first_frame(frame + rest)->0).1 == frame.len(),
        plain_of(key, (first_frame(frame + rest)->0).0) == Some(plain),
{
    let p = choose|p: Seq<u8>|
        p.len() <= u32::MAX && frame == frame_of(p) && plain_of(key, p) == Some(plain);
    lemma_frame_round_trip(p, rest);
    assert(frame.len() == HEADER_LEN + p.len());
    assert(first_frame(frame + rest) == Some((p, (HEADER_LEN + p.len()) as nat)));
}

} // verus!
