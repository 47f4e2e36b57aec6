//! The framing of what is sent between processes, and the two ends of a request-reply
//! connection: what they send, and when they give a connection up.

use byteorder::{BigEndian, ByteOrder};
use vstd::prelude::*;

verus! {

/// The largest payload that a frame may carry unless another ceiling is set: 64 MiB.
pub const DEFAULT_FRAME_CEILING: usize = 67108864;

/// The four bytes of `n`, most significant first.
pub open spec fn be_bytes(n: u32) -> Seq<u8> {
    seq![
        (n / 0x1000000) as u8,
        ((n / 0x10000) % 0x100) as u8,
        ((n / 0x100) % 0x100) as u8,
        (n % 0x100) as u8,
    ]
}

/// The number whose four bytes, most significant first, `b` starts with.
pub open spec fn be_value(b: Seq<u8>) -> nat {
    (b[0] * 0x1000000 + b[1] * 0x10000 + b[2] * 0x100 + b[3]) as nat
}

/// Reading the four bytes of a number gives the number back.
pub proof fn lemma_be_roundtrip(n: u32)
    ensures
        be_value(be_bytes(n)) == n,
        be_bytes(n).len() == 4,
{
}

/// `byteorder::BigEndian::write_u32`, on a buffer of four bytes: the buffer then holds the
/// four bytes of `n`, most significant first.
#[verifier::external_body]
fn write_be_u32(n: u32) -> (b: Vec<u8>)
    ensures
        b@ == be_bytes(n),
{
    let mut b = vec![0u8; 4];
    BigEndian::write_u32(&mut b, n);
    b
}

/// `byteorder::BigEndian::read_u32`: the number that the first four bytes of `b` spell,
/// most significant first. It needs four bytes.
#[verifier::external_body]
fn read_be_u32(b: &Vec<u8>) -> (n: u32)
    requires
        b@.len() >= 4,
    ensures
        n == be_value(b@),
{
    BigEndian::read_u32(b)
}

/// A payload as it travels: its length in four bytes, most significant first, then the
/// payload.
pub open spec fn framed(payload: Seq<u8>) -> Seq<u8> {
    be_bytes(payload.len() as u32) + payload
}

/// Why a frame cannot be made or taken.
#[derive(Clone, Copy, Debug, PartialEq, Eq, Structural)]
pub enum FrameError {
    /// The payload is longer than the ceiling allows, or than four bytes can say.
    TooLarge,
}

/// Frames a payload, unless it is longer than `ceiling` or than four bytes can say.
pub fn encode_frame(payload: &Vec<u8>, ceiling: usize) -> (r: Result<Vec<u8>, FrameError>)
    ensures
        r.is_ok() == (payload@.len() <= ceiling && payload@.len() <= u32::MAX),
        r.is_ok() ==> r.unwrap()@ == framed(payload@),
        r.is_err() ==> r == Err::<Vec<u8>, FrameError>(FrameError::TooLarge),
{
    if payload.len() > ceiling || payload.len() > u32::MAX as usize {
        return Err(FrameError::TooLarge);
    }
    let mut frame = write_be_u32(payload.len() as u32);
    let ghost head = frame@;
    let mut i: usize = 0;
    while i < payload.len()
        invariant
            i <= payload@.len(),
            frame@ == head + payload@.take(i as int),
        decreases payload@.len() - i,
    {
        frame.push(payload[i]);
        assert(frame@ =~= head + payload@.take(i + 1));
        i += 1;
    }
    assert(payload@.take(payload@.len() as int) =~= payload@);
    Ok(frame)
}

/// What the start of a buffer of received bytes holds.
#[derive(Debug)]
pub enum Decoded {
    /// Not yet a whole frame: more bytes are needed.
    Incomplete,
    /// A frame: its payload, and how many bytes of the buffer it took.
    Frame { payload: Vec<u8>, consumed: usize },
    /// A frame that says it is longer than the ceiling allows. It is to be dropped and the
    /// connection closed.
    TooLarge { length: u32 },
}

/// Takes a frame off the start of `buf`, if a whole one is there.
pub fn decode_frame(buf: &Vec<u8>, ceiling: usize) -> (d: Decoded)
    ensures
        buf@.len() < 4 ==> d is Incomplete,
        buf@.len() >= 4 && be_value(buf@) > ceiling ==> (d matches Decoded::TooLarge { length }
            && length == be_value(buf@)),
        buf@.len() >= 4 && be_value(buf@) <= ceiling && buf@.len() < 4 + be_value(buf@)
            ==> d is Incomplete,
        buf@.len() >= 4 && be_value(buf@) <= ceiling && buf@.len() >= 4 + be_value(buf@) ==> (
        d matches Decoded::Frame { payload, consumed } && consumed == 4 + be_value(buf@)
            && payload@ == buf@.subrange(4, 4 + be_value(buf@) as int)),
{
    if buf.len() < 4 {
        return Decoded::Incomplete;
    }
    let length: u32 = read_be_u32(buf);
    if length as usize > ceiling {
        return Decoded::TooLarge { length };
    }
    let n: usize = length as usize;
    if buf.len() - 4 < n {
        return Decoded::Incomplete;
    }
    let mut payload: Vec<u8> = Vec::with_capacity(n);
    let mut i: usize = 0;
    while i < n
        invariant
            i <= n,
            4 + n <= buf@.len() <= usize::MAX,
            payload@ == buf@.subrange(4, 4 + i as int),
        decreases n - i,
    {
        payload.push(buf[4 + i]);
        assert(payload@ =~= buf@.subrange(4, 4 + (i + 1) as int));
        i += 1;
    }
    Decoded::Frame { payload, consumed: 4 + n }
}

/// A frame that was made of a payload gives the payload back, and takes all its bytes.
pub proof fn lemma_frame_roundtrip(payload: Seq<u8>)
    requires
        payload.len() <= u32::MAX,
    ensures
        framed(payload).len() == 4 + payload.len(),
        be_value(framed(payload)) == payload.len(),
        framed(payload).subrange(4, 4 + payload.len() as int) == payload,
{
    lemma_be_roundtrip(payload.len() as u32);
    assert(framed(payload).subrange(4, 4 + payload.len() as int) =~= payload);
}

/// Why a request could not be sent.
#[derive(Clone, Copy, Debug, PartialEq, Eq, Structural)]
pub enum SendError {
    /// An earlier request failed on this connection: the connection is given up.
    Poisoned,
    /// The request is too large to frame.
    TooLarge,
    /// Writing the request or reading the reply failed.
    Io,
    /// The reply could not be understood.
    Serialization,
}

/// Why a reply could not be sent.
#[derive(Clone, Copy, Debug, PartialEq, Eq, Structural)]
pub enum RpcSendError {
    /// The reply could not be written out as bytes.
    SerializationError,
    /// The connection is given up.
    Disconnected,
    /// The reply is written, but bytes are left that have to be flushed.
    StillNeedsFlush,
}

/// Why no request was received.
#[derive(Clone, Copy, Debug, PartialEq, Eq, Structural)]
pub enum TryRecvError {
    /// No whole request has come in yet.
    Empty,
    /// The connection is given up.
    Disconnected,
    /// What came in could not be understood.
    DeserializationError,
}

/// The side of a connection that sends requests and waits for the reply to each. After one
/// failure the connection is poisoned, and every later request fails at once.
#[derive(Clone, Copy, Debug, PartialEq, Eq, Structural)]
pub struct RpcClient {
    poisoned: bool,
    is_local: bool,
}

impl RpcClient {
    /// Whether an earlier request failed.
    pub closed spec fn spec_poisoned(self) -> bool {
        self.poisoned
    }

    /// Whether the other end lives in this process.
    pub closed spec fn spec_local(self) -> bool {
        self.is_local
    }

    /// A fresh connection.
    pub fn new(is_local: bool) -> (c: RpcClient)
        ensures
            !c.spec_poisoned(),
            c.spec_local() == is_local,
    {
        RpcClient { poisoned: false, is_local }
    }

    /// Whether the other end lives in this process.
    pub fn is_local(&self) -> (b: bool)
        ensures
            b == self.spec_local(),
    {
        self.is_local
    }

    /// Whether an earlier request failed.
    pub fn is_poisoned(&self) -> (b: bool)
        ensures
            b == self.spec_poisoned(),
    {
        self.poisoned
    }

    /// The bytes to write for a request whose body is `query`: the frame of the body. A
    /// poisoned connection sends nothing, and a body that cannot be framed poisons it.
    pub fn send(&mut self, query: &Vec<u8>) -> (r: Result<Vec<u8>, SendError>)
        ensures
            final(self).spec_local() == old(self).spec_local(),
            old(self).spec_poisoned() ==> r == Err::<Vec<u8>, SendError>(SendError::Poisoned)
                && final(self).spec_poisoned(),
            !old(self).spec_poisoned() && query@.len() <= u32::MAX ==> r.is_ok() && r.unwrap()@
                == framed(query@) && !final(self).spec_poisoned(),
            !old(self).spec_poisoned() && query@.len() > u32::MAX ==> r == Err::<
                Vec<u8>,
                SendError,
            >(SendError::TooLarge) && final(self).spec_poisoned(),
    {
        if self.poisoned {
            return Err(SendError::Poisoned);
        }
        match encode_frame(query, usize::MAX) {
            Ok(frame) => Ok(frame),
            Err(_) => {
                self.poisoned = true;
                Err(SendError::TooLarge)
            },
        }
    }

    /// Takes note of how the exchange went: a failure poisons the connection. The outcome
    /// is handed back unchanged.
    pub fn complete(&mut self, reply: Result<Vec<u8>, SendError>) -> (r: Result<
        Vec<u8>,
        SendError,
    >)
        ensures
            r == reply,
            final(self).spec_local() == old(self).spec_local(),
            final(self).spec_poisoned() == (old(self).spec_poisoned() || reply.is_err()),
    {
        if reply.is_err() {
            self.poisoned = true;
        }
        reply
    }
}

/// What the receiving side of a connection finds when it tries to take a request.
#[derive(Debug)]
pub enum Received {
    /// A whole request: its body.
    Message(Vec<u8>),
    /// No whole request has come in yet.
    WouldBlock,
    /// Reading failed.
    IoError,
    /// What came in could not be understood.
    DeserializationError,
}

/// The side of a connection that receives requests and sends a reply to each. After a
/// failure the connection is poisoned: nothing more is received or sent.
#[derive(Clone, Copy, Debug, PartialEq, Eq, Structural)]
pub struct RpcServiceEndpoint {
    poisoned: bool,
}

impl RpcServiceEndpoint {
    /// Whether the connection is given up.
    pub closed spec fn spec_poisoned(self) -> bool {
        self.poisoned
    }

    /// A fresh connection.
    pub fn new() -> (e: RpcServiceEndpoint)
        ensures
            !e.spec_poisoned(),
    {
        RpcServiceEndpoint { poisoned: false }
    }

    /// Whether the connection is given up.
    pub fn is_poisoned(&self) -> (b: bool)
        ensures
            b == self.spec_poisoned(),
    {
        self.poisoned
    }

    /// Whether the connection is still good enough to try to receive on.
    pub fn may_receive(&self) -> (b: bool)
        ensures
            b == !self.spec_poisoned(),
    {
        !self.poisoned
    }

    /// What trying to receive gives, where `found` is what the connection had. A poisoned
    /// connection gives nothing, whatever was found; a failure poisons the connection.
    pub fn try_recv(&mut self, found: Received) -> (r: Result<Vec<u8>, TryRecvError>)
        ensures
            old(self).spec_poisoned() ==> r == Err::<Vec<u8>, TryRecvError>(
                TryRecvError::Disconnected,
            ) && final(self).spec_poisoned(),
            !old(self).spec_poisoned() ==> match found {
                Received::Message(body) => r == Ok::<Vec<u8>, TryRecvError>(body) && !final(self).spec_poisoned(),
                Received::WouldBlock => r == Err::<Vec<u8>, TryRecvError>(TryRecvError::Empty)
                    && !final(self).spec_poisoned(),
                Received::IoError => r == Err::<Vec<u8>, TryRecvError>(
                    TryRecvError::Disconnected,
                ) && final(self).spec_poisoned(),
                Received::DeserializationError => r == Err::<Vec<u8>, TryRecvError>(
                    TryRecvError::DeserializationError,
                ) && final(self).spec_poisoned(),
            },
    {
        if self.poisoned {
            return Err(TryRecvError::Disconnected);
        }
        match found {
            Received::Message(body) => Ok(body),
            Received::WouldBlock => Err(TryRecvError::Empty),
            Received::IoError => {
                self.poisoned = true;
                Err(TryRecvError::Disconnected)
            },
            Received::DeserializationError => {
                self.poisoned = true;
                Err(TryRecvError::DeserializationError)
            },
        }
    }

    /// What sending a reply gives, where `written` says whether the reply could be written
    /// out as bytes and `needs_flush` whether bytes are left to flush after it.
    pub fn send(&mut self, written: bool, needs_flush: bool) -> (r: Result<(), RpcSendError>)
        ensures
            old(self).spec_poisoned() ==> r == Err::<(), RpcSendError>(
                RpcSendError::Disconnected,
            ) && final(self).spec_poisoned(),
            !old(self).spec_poisoned() && !written ==> r == Err::<(), RpcSendError>(
                RpcSendError::SerializationError,
            ) && final(self).spec_poisoned(),
            !old(self).spec_poisoned() && written && needs_flush ==> r == Err::<
                (),
                RpcSendError,
            >(RpcSendError::StillNeedsFlush) && !final(self).spec_poisoned(),
            !old(self).spec_poisoned() && written && !needs_flush ==> r.is_ok() && !final(self).spec_poisoned(),
    {
        if self.poisoned {
            return Err(RpcSendError::Disconnected);
        }
        if !written {
            self.poisoned = true;
            return Err(RpcSendError::SerializationError);
        }
        if needs_flush {
            return Err(RpcSendError::StillNeedsFlush);
        }
        Ok(())
    }

    /// What flushing gives, where `flushed` says whether the bytes went out. A poisoned
    /// connection cannot flush, and a failure poisons the connection.
    pub fn flush(&mut self, flushed: bool) -> (r: Result<(), RpcSendError>)
        ensures
            r.is_ok() == (!old(self).spec_poisoned() && flushed),
            r.is_err() ==> r == Err::<(), RpcSendError>(RpcSendError::Disconnected),
            final(self).spec_poisoned() == !r.is_ok(),
    {
        if self.poisoned || !flushed {
            self.poisoned = true;
            return Err(RpcSendError::Disconnected);
        }
        Ok(())
    }
}

} // verus!
