//! The per-connection request/response state machine.
//!
//! A network front end owns the socket; this module owns everything else:
//! it accumulates received bytes, decodes one frame at a time, interprets
//! it against the shared store, and hands back the encoded reply. Errors in
//! one request never tear the connection down by themselves: an unknown
//! verb or a malformed command is answered with an error frame and the
//! next request is awaited; only an unparseable byte stream, where no
//! frame boundary can be recovered, closes the connection.

use vstd::prelude::*;
use crate::codec::Decoded;
use crate::codec::Parse;
use crate::codec::decode;
use crate::codec::encode;
use crate::codec::parse_at;
use crate::command::Command;
use crate::command::CommandModel;
use crate::command::from_frame;
use crate::command::interpret;
use crate::frame::Frame;
use crate::frame::FrameModel;
use crate::frame::encodable;
use crate::frame::encoding;
use crate::frame::fm;
use crate::store::Store;
use vstd::string::StringExecFns;

verus! {

/// The reply text `OK`.
pub open spec fn ok_text() -> Seq<char> {
    seq!['O', 'K']
}

/// The reply text for a well-shaped request with an unknown verb.
pub open spec fn unknown_text() -> Seq<char> {
    seq!['u', 'n', 'r', 'e', 'c', 'o', 'g', 'n', 'i', 'z', 'e', 'd', ' ', 'c', 'o', 'm', 'm', 'a', 'n', 'd']
}

/// The reply text for a frame that spells no command.
pub open spec fn malformed_text() -> Seq<char> {
    seq!['m', 'a', 'l', 'f', 'o', 'r', 'm', 'e', 'd', ' ', 'c', 'o', 'm', 'm', 'a', 'n', 'd']
}

/// The reply owed to a request frame against a store holding `m`.
pub open spec fn reply_model(req: FrameModel, m: Map<Seq<char>, Seq<u8>>) -> FrameModel {
    match interpret(req) {
        Some(CommandModel::Get(k)) => if m.contains_key(k) {
            FrameModel::Bulk(m[k])
        } else {
            FrameModel::Null
        },
        Some(CommandModel::Put(k, v)) => FrameModel::Simple(ok_text()),
        Some(CommandModel::Unknown(v)) => FrameModel::Error(unknown_text()),
        Option::None => FrameModel::Error(malformed_text()),
    }
}

/// The store contents after a request frame: only a well-formed `SET`
/// changes the map.
pub open spec fn store_after(req: FrameModel, m: Map<Seq<char>, Seq<u8>>) -> Map<
    Seq<char>,
    Seq<u8>,
> {
    match interpret(req) {
        Some(CommandModel::Put(k, v)) => m.insert(k, v),
        _ => m,
    }
}

/// Executes one decoded request against the store and returns the reply
/// frame. Total: every frame, however malformed, gets a reply, and only a
/// well-formed `SET` touches the store.
pub fn respond(store: &mut Store, req: &Frame) -> (reply: Frame)
    requires
        old(store).inv(),
    ensures
        final(store).inv(),
        final(store)@ == store_after(fm(*req), old(store)@),
        fm(reply) == reply_model(fm(*req), old(store)@),
        encodable(fm(reply)),
{
    match from_frame(req) {
        Ok(Command::Get { key }) => {
            match store.get(&key) {
                Some(v) => {
                    let out = vstd::slice::slice_to_vec(v.as_slice());
                    Frame::Bulk(out)
                },
                Option::None => Frame::Null,
            }
        },
        Ok(Command::Put { key, value }) => {
            store.set(key, value);
            let s = String::from_str("OK");
            proof {
                reveal_strlit("OK");
                assert(s@ =~= ok_text());
                assert(vstd::utf8::is_ascii_chars(s@));
                crate::frame::lemma_ascii_text_wf(s@);
            }
            Frame::Simple(s)
        },
        Ok(Command::Unknown { verb }) => {
            let s = String::from_str("unrecognized command");
            proof {
                reveal_strlit("unrecognized command");
                assert(s@ =~= unknown_text());
                assert(vstd::utf8::is_ascii_chars(s@));
                crate::frame::lemma_ascii_text_wf(s@);
            }
            Frame::Error(s)
        },
        Err(e) => {
            let s = String::from_str("malformed command");
            proof {
                reveal_strlit("malformed command");
                assert(s@ =~= malformed_text());
                assert(vstd::utf8::is_ascii_chars(s@));
                crate::frame::lemma_ascii_text_wf(s@);
            }
            Frame::Error(s)
        },
    }
}

/// An unrecognized verb is answered with an error reply and leaves the
/// store untouched, so a subsequent request on the same connection is
/// served exactly as if the unknown one had never arrived.
pub proof fn lemma_unknown_command_resilience(
    m1: FrameModel,
    m2: FrameModel,
    st: Map<Seq<char>, Seq<u8>>,
)
    requires
        interpret(m1) matches Some(c) && c is Unknown,
    ensures
        reply_model(m1, st) == FrameModel::Error(unknown_text()),
        store_after(m1, st) == st,
        reply_model(m2, store_after(m1, st)) == reply_model(m2, st),
        store_after(m2, store_after(m1, st)) == store_after(m2, st),
{
}

/// What one turn of the connection state machine asks the front end to do.
pub enum Step {
    /// A complete request was consumed and answered: write these bytes to
    /// the peer, then step again (more requests may already be buffered).
    Reply(Vec<u8>),
    /// No complete frame is buffered: read more bytes, feed them, retry.
    /// Nothing was consumed and nothing changed.
    NeedMore,
    /// The buffered bytes can belong to no frame and no boundary can be
    /// recovered: write these error-reply bytes and close the connection.
    Corrupt(Vec<u8>),
}

/// Per-connection state: the bytes received and not yet consumed. Owned by
/// one handler; never shared.
pub struct Conn {
    buf: Vec<u8>,
}

impl View for Conn {
    type V = Seq<u8>;

    closed spec fn view(&self) -> Seq<u8> {
        self.buf@
    }
}

impl Conn {
    /// A fresh connection with nothing buffered.
    pub fn new() -> (c: Conn)
        ensures
            c@ == Seq::<u8>::empty(),
    {
        Conn { buf: Vec::new() }
    }

    /// Takes bytes read from the peer into the buffer.
    pub fn feed(&mut self, bytes: &[u8])
        ensures
            final(self)@ == old(self)@ + bytes@,
    {
        let ghost base = self.buf@;
        let mut i: usize = 0;
        while i < bytes.len()
            invariant
                i <= bytes@.len(),
                self.buf@ == base + bytes@.take(i as int),
            decreases bytes@.len() - i,
        {
            self.buf.push(bytes[i]);
            i = i + 1;
            proof {
                assert(self.buf@ =~= base + bytes@.take(i as int));
            }
        }
        proof {
            assert(base + bytes@.take(bytes@.len() as int) =~= base + bytes@);
        }
    }

    /// One turn of the read-decode-execute-reply cycle: decodes at most one
    /// frame from the front of the buffer, executes it against the store,
    /// and returns the encoded reply. Requests are consumed strictly in
    /// arrival order, and nothing is consumed until a frame is complete.
    pub fn step(&mut self, store: &mut Store) -> (r: Step)
        requires
            old(store).inv(),
        ensures
            final(store).inv(),
            match r {
                Step::Reply(out) => parse_at(old(self)@, 0) matches Parse::Found(m, c)
                    && final(self)@ == old(self)@.skip(c) && final(store)@ == store_after(
                    m,
                    old(store)@,
                ) && out@ == encoding(reply_model(m, old(store)@)),
                Step::NeedMore => parse_at(old(self)@, 0) == Parse::Incomplete && final(self)@
                    == old(self)@ && final(store)@ == old(store)@,
                Step::Corrupt(out) => parse_at(old(self)@, 0) == Parse::Bad && final(self)@ == old(
                    self,
                )@ && final(store)@ == old(store)@ && out@ == encoding(
                    FrameModel::Error(malformed_text()),
                ),
            },
    {
        let d = decode(self.buf.as_slice());
        match d {
            Decoded::Frame { frame, used } => {
                let rest = {
                    let s = self.buf.as_slice();
                    let sub = vstd::slice::slice_subrange(s, used, s.len());
                    vstd::slice::slice_to_vec(sub)
                };
                let ghost old_buf = self.buf@;
                self.buf = rest;
                proof {
                    assert(self.buf@ =~= old_buf.skip(used as int));
                }
                let reply = respond(store, &frame);
                let mut out: Vec<u8> = Vec::new();
                encode(&reply, &mut out);
                proof {
                    assert(out@ =~= encoding(fm(reply)));
                }
                Step::Reply(out)
            },
            Decoded::Incomplete => Step::NeedMore,
            Decoded::Malformed => {
                let s = String::from_str("malformed command");
                proof {
                    reveal_strlit("malformed command");
                    assert(s@ =~= malformed_text());
                    assert(vstd::utf8::is_ascii_chars(s@));
                    crate::frame::lemma_ascii_text_wf(s@);
                }
                let reply = Frame::Error(s);
                let mut out: Vec<u8> = Vec::new();
                encode(&reply, &mut out);
                Step::Corrupt(out)
            },
        }
    }
}

} // verus!
