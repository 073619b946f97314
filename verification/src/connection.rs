//! One connection, without its socket: the bytes that came in and are not
//! yet read as frames, and the bytes that are to go out.
//!
//! Whoever owns the socket hands what it read to `receive`, asks `read_frame`
//! for the next frame, writes replies with `write_frame`, and sends what
//! `take_output` returns.

use vstd::prelude::*;
use crate::cursor::Cursor;
use crate::err::{ProtocolErrorView, RedisProtocolError};
use crate::frame::Frame;
use crate::wire::{lemma_invalid_is_fatal, lemma_parse_bounds, parse, wire, Parsed};

verus! {

/// The state of one connection.
pub struct Connection {
    buffer: Vec<u8>,
    outgoing: Vec<u8>,
}

/// What reading at a connection comes to.
#[derive(Debug)]
pub enum Incoming {
    /// The next frame.
    Frame(Frame),
    /// No whole frame yet: more bytes have to be received.
    Pending,
    /// The peer closed the stream, and no byte was left unread.
    Closed,
}

/// What reading at a connection comes to, by what it has buffered: a whole
/// frame at the front is read; so long as none stands there, more bytes are
/// waited for, unless the stream has ended, which is in order only if no byte
/// is left.
pub open spec fn read_outcome(buffered: Seq<u8>, end_of_stream: bool) -> Result<
    Option<Parsed>,
    ProtocolErrorView,
> {
    match parse(buffered) {
        Parsed::Complete { frame, len } => Ok(Some(Parsed::Complete { frame, len })),
        Parsed::Incomplete => if !end_of_stream {
            Ok(Some(Parsed::Incomplete))
        } else if buffered.len() == 0 {
            Ok(None)
        } else {
            Err(ProtocolErrorView::ConnectionReset)
        },
        Parsed::Invalid(e) => Err(e),
    }
}

impl Connection {
    /// The bytes that came in and are not yet read as frames.
    pub closed spec fn buffered(&self) -> Seq<u8> {
        self.buffer@
    }

    /// The bytes that were written and not yet taken out.
    pub closed spec fn output(&self) -> Seq<u8> {
        self.outgoing@
    }

    /// A connection on which nothing came in and nothing was written.
    pub fn new() -> (connection: Self)
        ensures
            connection.buffered() == Seq::<u8>::empty(),
            connection.output() == Seq::<u8>::empty(),
    {
        Connection { buffer: Vec::with_capacity(1024), outgoing: Vec::new() }
    }

    /// Takes in bytes that the socket delivered.
    pub fn receive(&mut self, data: &[u8])
        ensures
            final(self).buffered() == old(self).buffered() + data@,
            final(self).output() == old(self).output(),
    {
        self.buffer.extend_from_slice(data);
    }

    /// Reads the frame at the front of what came in, if a whole frame stands
    /// there, and drops its bytes. Fails where no frame can stand there.
    pub fn parse_frame(&mut self) -> (r: Result<Option<Frame>, RedisProtocolError>)
        ensures
            final(self).output() == old(self).output(),
            match parse(old(self).buffered()) {
                Parsed::Complete { frame, len } => r matches Ok(Some(read)) && read@ == frame
                    && final(self).buffered() == old(self).buffered().skip(len as int),
                Parsed::Incomplete => r matches Ok(None) && final(self).buffered() == old(
                    self,
                ).buffered(),
                Parsed::Invalid(x) => r matches Err(e) && e@ == x && final(self).buffered() == old(
                    self,
                ).buffered(),
            },
    {
        let mut cursor = Cursor::new(self.buffer.as_slice());
        proof {
            assert(cursor.rest() =~= self.buffer@);
            lemma_parse_bounds(self.buffer@);
            lemma_invalid_is_fatal(self.buffer@);
        }
        match Frame::is_parsable(&mut cursor) {
            Ok(()) => {
                let len = cursor.position();
                cursor.set_position(0);
                assert(cursor.rest() =~= self.buffer@);
                let frame = Frame::parse(&mut cursor)?;
                let rest = self.buffer.split_off(len);
                self.buffer = rest;
                assert(self.buffer@ =~= old(self).buffer@.skip(len as int));
                Ok(Some(frame))
            },
            Err(e) => match e {
                RedisProtocolError::NotEnoughData => Ok(None),
                other => Err(other),
            },
        }
    }

    /// The next step of reading: the frame at the front of what came in, or
    /// the word that more bytes are needed, or, once the stream has ended,
    /// that it was closed in order. It was not if bytes are left that make no
    /// frame: that is `ConnectionReset`.
    pub fn read_frame(&mut self, end_of_stream: bool) -> (r: Result<Incoming, RedisProtocolError>)
        ensures
            final(self).output() == old(self).output(),
            match read_outcome(old(self).buffered(), end_of_stream) {
                Ok(Some(Parsed::Complete { frame, len })) => r matches Ok(Incoming::Frame(read))
                    && read@ == frame && final(self).buffered() == old(self).buffered().skip(
                    len as int,
                ),
                Ok(Some(_)) => r matches Ok(Incoming::Pending) && final(self).buffered() == old(
                    self,
                ).buffered(),
                Ok(None) => r matches Ok(Incoming::Closed) && final(self).buffered() == old(
                    self,
                ).buffered(),
                Err(x) => r matches Err(e) && e@ == x && final(self).buffered() == old(
                    self,
                ).buffered(),
            },
    {
        match self.parse_frame()? {
            Some(frame) => Ok(Incoming::Frame(frame)),
            None => {
                if !end_of_stream {
                    Ok(Incoming::Pending)
                } else if self.buffer.len() == 0 {
                    Ok(Incoming::Closed)
                } else {
                    Err(RedisProtocolError::ConnectionReset)
                }
            },
        }
    }

    /// Writes a frame: its bytes are put behind those that wait to go out.
    pub fn write_frame(&mut self, frame: &Frame)
        ensures
            final(self).output() == old(self).output() + wire(frame@),
            final(self).buffered() == old(self).buffered(),
    {
        frame.encode(&mut self.outgoing);
    }

    /// Hands out the bytes that wait to go out, and keeps none of them.
    pub fn take_output(&mut self) -> (bytes: Vec<u8>)
        ensures
            bytes@ == old(self).output(),
            final(self).output() == Seq::<u8>::empty(),
            final(self).buffered() == old(self).buffered(),
    {
        let bytes = self.outgoing.split_off(0);
        assert(bytes@ =~= old(self).output());
        assert(self.outgoing@ =~= Seq::<u8>::empty());
        bytes
    }
}

} // verus!
