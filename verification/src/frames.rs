//! Frames on a connection: a length before each message, and answers that come in the
//! order of their requests.
use crate::client::{Error, Fault};
use crate::wire;
use std::collections::VecDeque;
use vstd::prelude::*;
use vstd::slice::slice_subrange;

verus! {

/// How long the length before a frame is.
pub const LENGTH_PREFIX: usize = 4;

/// A message with its length before it.
pub open spec fn framed(body: Seq<u8>) -> Seq<u8> {
    seq![
        (body.len() / 0x100_0000 % 256) as u8,
        (body.len() / 0x1_0000 % 256) as u8,
        (body.len() / 0x100 % 256) as u8,
        (body.len() % 256) as u8,
    ] + body
}

/// Puts its length before a message, `None` where the length does not fit.
pub fn frame(body: &[u8]) -> (bytes: Option<Vec<u8>>)
    ensures
        match bytes {
            Some(b) => body@.len() <= i32::MAX && b@ == framed(body@),
            None => body@.len() > i32::MAX,
        },
{
    let size: usize = body.len();
    if size > 0x7fff_ffff {
        return None;
    }
    let mut out: Vec<u8> = Vec::new();
    out.push((size / 0x100_0000 % 256) as u8);
    out.push((size / 0x1_0000 % 256) as u8);
    out.push((size / 0x100 % 256) as u8);
    out.push((size % 256) as u8);
    let ghost head = out@;
    let mut i: usize = 0;
    assert(out@ =~= head + body@.take(0));
    while i < body.len()
        invariant
            i <= body@.len(),
            out@ == head + body@.take(i as int),
        decreases body@.len() - i,
    {
        out.push(body[i]);
        i = i + 1;
        assert(out@ =~= head + body@.take(i as int));
    }
    assert(body@.take(i as int) =~= body@);
    Some(out)
}

/// What is at the front of what a connection received.
pub ghost enum Front {
    /// A whole message, and what follows it.
    Whole(Seq<u8>, Seq<u8>),
    /// Not all of a message yet.
    Partial,
    /// A length that is none.
    Negative,
}

/// What is at the front of what a connection received.
pub open spec fn front(received: Seq<u8>) -> Front {
    if received.len() < LENGTH_PREFIX {
        Front::Partial
    } else {
        let size = wire::i32_of(received, 0);
        if size < 0 {
            Front::Negative
        } else if received.len() < LENGTH_PREFIX + size {
            Front::Partial
        } else {
            Front::Whole(
                received.subrange(LENGTH_PREFIX as int, LENGTH_PREFIX + size),
                received.skip(LENGTH_PREFIX + size),
            )
        }
    }
}

/// A framed message reads back, whatever follows it.
pub proof fn law_a_frame_reads_back(body: Seq<u8>, rest: Seq<u8>)
    requires
        body.len() <= i32::MAX,
    ensures
        front(framed(body) + rest) == Front::Whole(body, rest),
{
    let all = framed(body) + rest;
    let n = body.len();
    reveal_with_fuel(wire::be_unsigned, 5);
    assert(all[0] == (n / 0x100_0000 % 256) as u8);
    assert(all[1] == (n / 0x1_0000 % 256) as u8);
    assert(all[2] == (n / 0x100 % 256) as u8);
    assert(all[3] == (n % 256) as u8);
    assert(wire::be_unsigned(all, 0, 4) == n);
    assert(all.subrange(4, 4 + n as int) =~= body);
    assert(all.skip(4 + n as int) =~= rest);
}

/// However a stream is cut into reads, a message is there once all of it has come, and not
/// before.
pub proof fn law_a_frame_is_whole_or_partial(body: Seq<u8>, received: int)
    requires
        body.len() <= i32::MAX,
        0 <= received <= framed(body).len(),
    ensures
        front(framed(body).take(received)) == if received == framed(body).len() {
            Front::Whole(body, Seq::empty())
        } else {
            Front::Partial
        },
{
    let all = framed(body);
    let part = all.take(received);
    law_a_frame_reads_back(body, Seq::empty());
    assert(all + Seq::empty() =~= all);
    if received == all.len() {
        assert(part =~= all);
    } else if received >= 4 {
        reveal_with_fuel(wire::be_unsigned, 5);
        assert(part[0] == all[0] && part[1] == all[1] && part[2] == all[2] && part[3] == all[3]);
    }
}

/// A request that was sent and not answered yet.
#[derive(Debug, Clone, Copy, PartialEq, Eq, Structural)]
pub struct Sent {
    pub correlation_id: i32,
    pub kind: i16,
    pub version: i16,
}

/// The state of one connection: what it received and has not taken yet, and which requests
/// are out.
#[derive(Debug)]
pub struct Connection {
    received: Vec<u8>,
    sent: VecDeque<Sent>,
    next_id: i32,
}

/// What a [`Connection`] stands for.
pub ghost struct Stream {
    pub received: Seq<u8>,
    pub sent: Seq<Sent>,
    pub next_id: i32,
}

impl View for Connection {
    type V = Stream;

    closed spec fn view(&self) -> Stream {
        Stream { received: self.received@, sent: self.sent@, next_id: self.next_id }
    }
}

/// The answer to a request.
#[derive(Debug)]
pub struct Answered {
    pub request: Sent,
    /// The message, with its header.
    pub body: Vec<u8>,
}

impl Connection {
    pub fn new() -> (me: Self)
        ensures
            me@ == (Stream { received: Seq::empty(), sent: Seq::empty(), next_id: 0 }),
    {
        let me = Connection { received: Vec::new(), sent: VecDeque::new(), next_id: 0 };
        assert(me@.received =~= Seq::empty());
        assert(me@.sent =~= Seq::empty());
        me
    }

    /// Numbers a request that is about to be sent.
    pub fn request(&mut self, kind: i16, version: i16) -> (correlation_id: i32)
        ensures
            correlation_id == old(self)@.next_id,
            final(self)@ == (Stream {
                received: old(self)@.received,
                sent: old(self)@.sent.push(Sent { correlation_id, kind, version }),
                next_id: old(self)@.next_id.wrapping_add(1),
            }),
    {
        let correlation_id: i32 = self.next_id;
        self.next_id = correlation_id.wrapping_add(1);
        self.sent.push_back(Sent { correlation_id, kind, version });
        correlation_id
    }

    /// How many requests are not answered yet.
    pub fn in_flight(&self) -> (n: usize)
        ensures
            n == self@.sent.len(),
    {
        self.sent.len()
    }

    /// Takes bytes that arrived.
    pub fn push_bytes(&mut self, bytes: &[u8])
        ensures
            final(self)@ == (Stream { received: old(self)@.received + bytes@, ..old(self)@ }),
    {
        let ghost before = self@;
        let mut i: usize = 0;
        assert(self.received@ =~= before.received + bytes@.take(0));
        while i < bytes.len()
            invariant
                i <= bytes@.len(),
                self.received@ == before.received + bytes@.take(i as int),
                self.sent@ == before.sent,
                self.next_id == before.next_id,
            decreases bytes@.len() - i,
        {
            self.received.push(bytes[i]);
            i = i + 1;
            assert(self.received@ =~= before.received + bytes@.take(i as int));
        }
        assert(bytes@.take(i as int) =~= bytes@);
    }

    /// How many more bytes the next message needs, as far as is known.
    pub fn needed(&self) -> (n: usize)
        ensures
            ({
                let received = self@.received;
                let size = wire::i32_of(received, 0);
                n == if received.len() < LENGTH_PREFIX {
                    LENGTH_PREFIX - received.len()
                } else if size < 0 || received.len() >= LENGTH_PREFIX + size {
                    0
                } else {
                    LENGTH_PREFIX + size - received.len()
                }
            }),
    {
        let have: usize = self.received.len();
        match wire::i32_at(self.received.as_slice(), 0) {
            None => LENGTH_PREFIX - have,
            Some(size) => {
                if size < 0 {
                    0
                } else {
                    let rest: usize = have - LENGTH_PREFIX;
                    if rest >= size as usize {
                        0
                    } else {
                        size as usize - rest
                    }
                }
            },
        }
    }

    /// Takes the answer to the **oldest** request, where all of it has arrived. An answer
    /// that nothing was sent for, or one for another request, is an error.
    pub fn next_response(&mut self) -> (response: Result<Option<Answered>, Error>)
        ensures
            match front(old(self)@.received) {
                Front::Partial => response matches Ok(None) && final(self)@ == old(self)@,
                Front::Negative => response is Err && response->Err_0@ == Fault::Missing(
                    "frame length"@,
                ) && final(self)@ == old(self)@,
                Front::Whole(body, rest) => {
                    let oldest = old(self)@.sent[0];
                    if old(self)@.sent.len() == 0 || body.len() < 4 || wire::i32_of(body, 0)
                        != oldest.correlation_id {
                        &&& response is Err
                        &&& response->Err_0@ == Fault::Missing("matching request"@)
                        &&& final(self)@ == old(self)@
                    } else {
                        &&& response matches Ok(Some(a))
                        &&& a.request == oldest
                        &&& a.body@ == body
                        &&& final(self)@ == (Stream {
                            received: rest,
                            sent: old(self)@.sent.skip(1),
                            ..old(self)@
                        })
                    }
                },
            },
    {
        let size: i32 = match wire::i32_at(self.received.as_slice(), 0) {
            None => {
                return Ok(None);
            },
            Some(size) => size,
        };
        if size < 0 {
            return Err(Error::Missing("frame length"));
        }
        let have: usize = self.received.len() - LENGTH_PREFIX;
        if have < size as usize {
            return Ok(None);
        }
        let end: usize = LENGTH_PREFIX + size as usize;
        let ghost all = self.received@;
        let ghost body = all.subrange(LENGTH_PREFIX as int, end as int);
        let answers = slice_subrange(self.received.as_slice(), LENGTH_PREFIX, end);
        let id = wire::i32_at(answers, 0);
        let matches = match id {
            Some(id) => self.sent.len() > 0 && self.sent[0].correlation_id == id,
            None => false,
        };
        if !matches {
            return Err(Error::Missing("matching request"));
        }
        let rest = self.received.split_off(end);
        let taken = self.received.split_off(LENGTH_PREFIX);
        self.received = rest;
        assert(taken@ =~= body);
        assert(self.received@ =~= all.skip(end as int));
        let ghost before = self.sent@;
        match self.sent.pop_front() {
            Some(request) => {
                assert(self.sent@ =~= before.skip(1));
                Ok(Some(Answered { request, body: taken }))
            },
            None => Err(Error::Missing("matching request")),
        }
    }
}

} // verus!
