use vstd::prelude::*;

use crate::call_table::{CallTable, has_id, next_after, resolve_spec};
use crate::codec::{Decoded, Parsed, encode_value};
use crate::message::{
    Message, Msg, decode_message, enc_msg, message_to_value, parse_msg, wf_msg,
};
use crate::value::{Val, Value, fits, view_all};

verus! {

/// Why a call or a notification was not written.
#[derive(Clone, Copy, Debug, PartialEq, Eq, Structural)]
pub enum CallError {
    /// The message cannot be written: a value is out of the wire format's
    /// range, or the next id is still outstanding. Nothing was sent.
    NotSent,
    /// The session has ended. Nothing was sent.
    Closed,
}

/// How a session ended.
#[derive(Clone, Copy, Debug, PartialEq, Eq, Structural)]
pub enum EndCause {
    /// The peer closed the stream.
    PeerClosed,
    /// The peer sent bytes that are no MessagePack-RPC message.
    Malformed,
    /// A write to the peer failed.
    WriteFailed,
}

/// What the dispatch loop is to do next, after one look at the bytes read.
#[derive(Debug, PartialEq, Eq)]
pub enum Step<S> {
    /// No whole message has arrived yet: read more bytes.
    NeedBytes,
    /// A response arrived: hand `result` to the waiting caller through
    /// `slot`, or drop it where no call waits for its id.
    Response { slot: Option<S>, result: Result<Value, Value> },
    /// The peer calls a method of ours: run the handler, then write its
    /// reply.
    Request { id: u64, method: Vec<u8>, params: Vec<Value> },
    /// The peer notifies us: run the handler; nothing is written back.
    Notification { method: Vec<u8>, params: Vec<Value> },
    /// The bytes were malformed and the session has ended: fail every one of
    /// these slots with a connection-closed error.
    Failed { slots: Vec<S> },
    /// The session had already ended.
    Stopped,
}

/// The model of a peer's result.
pub open spec fn result_view(r: Result<Value, Value>) -> Result<Val, Val> {
    match r {
        Ok(v) => Ok(v@),
        Err(e) => Err(e@),
    }
}

/// The slots of the outstanding calls, in the order they were registered.
pub open spec fn slots_of<S>(s: Seq<(u64, S)>) -> Seq<S> {
    s.map_values(|p: (u64, S)| p.1)
}

/// The state of one connection: the outstanding calls, the bytes read and
/// not yet decoded, and how the session ended, once it has.
pub struct Session<S> {
    table: CallTable<S>,
    buf: Vec<u8>,
    end: Option<EndCause>,
}

/// A copy of the bytes of `buf` from `e` on.
fn tail_from(buf: &Vec<u8>, e: usize) -> (r: Vec<u8>)
    requires
        e <= buf@.len(),
    ensures
        r@ == buf@.subrange(e as int, buf@.len() as int),
{
    let mut out: Vec<u8> = Vec::new();
    let mut i: usize = e;
    while i < buf.len()
        invariant
            e <= i <= buf@.len(),
            out@ == buf@.subrange(e as int, i as int),
        decreases buf@.len() - i,
    {
        out.push(buf[i]);
        i = i + 1;
        assert(out@ =~= buf@.subrange(e as int, i as int));
    }
    out
}

impl<S> Session<S> {
    /// The outstanding calls.
    pub closed spec fn pending(&self) -> Seq<(u64, S)> {
        self.table@.pending
    }

    /// The id that the next call will get.
    pub closed spec fn next(&self) -> u64 {
        self.table@.next
    }

    /// The bytes read and not yet decoded.
    pub closed spec fn unread(&self) -> Seq<u8> {
        self.buf@
    }

    /// How the session ended, once it has.
    pub closed spec fn ended(&self) -> Option<EndCause> {
        self.end
    }

    /// The state is well formed.
    pub closed spec fn wf(&self) -> bool {
        &&& self.table.wf()
        &&& self.end is Some ==> self.table@.pending.len() == 0
    }

    /// A running session with no outstanding call and nothing read.
    pub fn new() -> (r: Self)
        ensures
            r.wf(),
            r.pending().len() == 0,
            r.next() == 0,
            r.unread().len() == 0,
            r.ended() is None,
    {
        Session { table: CallTable::new(), buf: Vec::new(), end: None }
    }

    /// How the session ended, or `None` while it runs.
    pub fn end_cause(&self) -> (r: Option<EndCause>)
        ensures
            r == self.ended(),
    {
        self.end
    }

    /// The number of outstanding calls.
    pub fn outstanding(&self) -> (r: usize)
        requires
            self.wf(),
        ensures
            r == self.pending().len(),
    {
        self.table.len()
    }

    /// Whether a call with `id` waits for its response.
    pub fn is_pending(&self, id: u64) -> (r: bool)
        ensures
            r == has_id(self.pending(), id),
    {
        self.table.is_pending(id)
    }

    /// Appends bytes read from the peer.
    pub fn feed(&mut self, bytes: &Vec<u8>)
        requires
            old(self).wf(),
        ensures
            final(self).wf(),
            final(self).unread() == old(self).unread() + bytes@,
            final(self).pending() == old(self).pending(),
            final(self).next() == old(self).next(),
            final(self).ended() == old(self).ended(),
    {
        let mut i: usize = 0;
        let ghost start = self.buf@;
        while i < bytes.len()
            invariant
                i <= bytes@.len(),
                self.buf@ == start + bytes@.subrange(0, i as int),
                self.table == old(self).table,
                self.end == old(self).end,
            decreases bytes@.len() - i,
        {
            self.buf.push(bytes[i]);
            i = i + 1;
            assert(self.buf@ =~= start + bytes@.subrange(0, i as int));
        }
        assert(bytes@.subrange(0, bytes@.len() as int) =~= bytes@);
    }

    /// Starts a call: registers `slot` under a fresh id and gives the bytes
    /// of the request to write. The caller then waits on its slot.
    pub fn begin_call(&mut self, method: Vec<u8>, params: Vec<Value>, slot: S) -> (r: Result<
        (u64, Vec<u8>),
        (CallError, S),
    >)
        requires
            old(self).wf(),
        ensures
            final(self).wf(),
            final(self).unread() == old(self).unread(),
            final(self).ended() == old(self).ended(),
            ({
                let req = Msg::Request {
                    id: old(self).next(),
                    method: method@,
                    params: view_all(params@),
                };
                r is Ok <==> (old(self).ended() is None && wf_msg(req) && !has_id(
                    old(self).pending(),
                    old(self).next(),
                ))
            }),
            match r {
                Ok((id, bytes)) => {
                    &&& id == old(self).next()
                    &&& bytes@ == enc_msg(
                        Msg::Request { id, method: method@, params: view_all(params@) },
                    )
                    &&& final(self).pending() == old(self).pending().push((id, slot))
                    &&& final(self).next() == next_after(id)
                },
                Err((e, s)) => {
                    &&& s == slot
                    &&& final(self).pending() == old(self).pending()
                    &&& e == if old(self).ended() is Some {
                        CallError::Closed
                    } else {
                        CallError::NotSent
                    }
                },
            },
    {
        if self.end.is_some() {
            return Err((CallError::Closed, slot));
        }
        let id = self.table.next_id();
        let v = message_to_value(Message::Request { id, method, params });
        if !fits(&v) {
            return Err((CallError::NotSent, slot));
        }
        match self.table.register(slot) {
            Ok(id) => {
                let bytes = encode_value(&v);
                Ok((id, bytes))
            },
            Err(slot) => Err((CallError::NotSent, slot)),
        }
    }

    /// The bytes of a notification to write. Nothing waits for the peer:
    /// the outcome depends on the session's state and the message alone.
    pub fn notify(&self, method: Vec<u8>, params: Vec<Value>) -> (r: Result<Vec<u8>, CallError>)
        ensures
            ({
                let note = Msg::Notification { method: method@, params: view_all(params@) };
                if self.ended() is Some {
                    r == Err::<Vec<u8>, CallError>(CallError::Closed)
                } else if !wf_msg(note) {
                    r == Err::<Vec<u8>, CallError>(CallError::NotSent)
                } else {
                    r matches Ok(bytes) && bytes@ == enc_msg(note)
                }
            }),
    {
        if self.end.is_some() {
            return Err(CallError::Closed);
        }
        let v = message_to_value(Message::Notification { method, params });
        if !fits(&v) {
            return Err(CallError::NotSent);
        }
        Ok(encode_value(&v))
    }

    /// The bytes of the response to a peer's request `id`, carrying the
    /// handler's result.
    pub fn reply(&self, id: u64, result: Result<Value, Value>) -> (r: Result<Vec<u8>, CallError>)
        ensures
            ({
                let resp = Msg::Response { id, result: result_view(result) };
                if self.ended() is Some {
                    r == Err::<Vec<u8>, CallError>(CallError::Closed)
                } else if !wf_msg(resp) {
                    r == Err::<Vec<u8>, CallError>(CallError::NotSent)
                } else {
                    r matches Ok(bytes) && bytes@ == enc_msg(resp)
                }
            }),
    {
        if self.end.is_some() {
            return Err(CallError::Closed);
        }
        let v = message_to_value(Message::Response { id, result });
        if !fits(&v) {
            return Err(CallError::NotSent);
        }
        Ok(encode_value(&v))
    }

    /// Ends the session (the peer closed the stream, or a write failed):
    /// takes the slot of every outstanding call out, to be failed with a
    /// connection-closed error. The first cause is kept.
    pub fn close(&mut self, cause: EndCause) -> (r: Vec<S>)
        requires
            old(self).wf(),
        ensures
            final(self).wf(),
            r@ == slots_of(old(self).pending()),
            final(self).pending().len() == 0,
            final(self).unread() == old(self).unread(),
            final(self).ended() == if old(self).ended() is Some {
                old(self).ended()
            } else {
                Some(cause)
            },
    {
        let slots = self.table.drain_all();
        if self.end.is_none() {
            self.end = Some(cause);
        }
        slots
    }

    /// Decodes the next message of the bytes read and says what to do with
    /// it. A response completes its call; malformed bytes end the session.
    pub fn poll(&mut self) -> (r: Step<S>)
        requires
            old(self).wf(),
        ensures
            final(self).wf(),
            old(self).ended() is Some ==> r is Stopped && final(self).pending() == old(
                self,
            ).pending() && final(self).unread() == old(self).unread() && final(self).ended()
                == old(self).ended(),
            old(self).ended() is None ==> match parse_msg(old(self).unread(), 0) {
                Parsed::Short => {
                    &&& r is NeedBytes
                    &&& final(self).pending() == old(self).pending()
                    &&& final(self).unread() == old(self).unread()
                    &&& final(self).ended() is None
                },
                Parsed::Bad => {
                    &&& r matches Step::Failed { slots } && slots@ == slots_of(
                        old(self).pending(),
                    )
                    &&& final(self).pending().len() == 0
                    &&& final(self).ended() == Some(EndCause::Malformed)
                },
                Parsed::Done(m, e) => {
                    &&& final(self).unread() == old(self).unread().subrange(
                        e as int,
                        old(self).unread().len() as int,
                    )
                    &&& final(self).ended() is None
                    &&& match m {
                        Msg::Response { id, result } => {
                            &&& r matches Step::Response { slot, result: res } && slot
                                == resolve_spec(old(self).pending(), id).0 && result_view(res)
                                == result
                            &&& final(self).pending() == resolve_spec(old(self).pending(), id).1
                        },
                        Msg::Request { id, method, params } => {
                            &&& r matches Step::Request { id: i, method: mm, params: ps } && i
                                == id && mm@ == method && view_all(ps@) == params
                            &&& final(self).pending() == old(self).pending()
                        },
                        Msg::Notification { method, params } => {
                            &&& r matches Step::Notification { method: mm, params: ps } && mm@
                                == method && view_all(ps@) == params
                            &&& final(self).pending() == old(self).pending()
                        },
                    }
                },
            },
    {
        if self.end.is_some() {
            return Step::Stopped;
        }
        match decode_message(&self.buf, 0) {
            Decoded::Incomplete => Step::NeedBytes,
            Decoded::Malformed => {
                let slots = self.table.drain_all();
                self.end = Some(EndCause::Malformed);
                Step::Failed { slots }
            },
            Decoded::Done(m, e) => {
                self.buf = tail_from(&self.buf, e);
                match m {
                    Message::Response { id, result } => {
                        let slot = self.table.resolve(id);
                        Step::Response { slot, result }
                    },
                    Message::Request { id, method, params } => Step::Request {
                        id,
                        method,
                        params,
                    },
                    Message::Notification { method, params } => Step::Notification {
                        method,
                        params,
                    },
                }
            },
        }
    }
}

} // verus!
