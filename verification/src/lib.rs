//! Motion Control Bus: a word-oriented request/response protocol between a
//! controlling device (the main) and a peripheral (the node).
//!
//! The transport is supplied by the caller as a [`PhysicalInterface`]. The
//! endpoints in [`mcb_main`] and [`mcb_node`] compose, seal, send, receive and
//! validate frames through it; [`frame`] holds the frame layout and
//! [`transfer`] the steps that both endpoints share.
use vstd::prelude::*;

pub mod frame;
pub mod mcb_main;
pub mod mcb_node;
pub mod roundtrip;
pub mod transfer;

verus! {

/// Number of words that a frame buffer holds.
pub const MAX_FRAME_SIZE: usize = 128;

/// What an access, or a call of the transport, gives when it does not fail.
#[derive(Debug)]
pub enum IntfResult {
    Success,
    Empty,
    Ready,
    Data(Box<[u16; MAX_FRAME_SIZE]>),
}

/// Why an access failed.
#[derive(Debug, Clone, Copy, PartialEq, Eq, Structural)]
pub enum IntfError {
    /// The transport failed or answered what was not expected.
    Interface,
    /// The peer answered with an error, or with an answer to something else.
    Access(u32),
    /// The address does not fit the command word; nothing was sent.
    AddressOutOfIndex,
    /// A received frame did not carry its checksum.
    Crc,
    /// A node received a frame meant for another subnode.
    WrongSubnode,
    /// A node received a frame with an opcode that is no request.
    WrongCommand,
}

/// How a string that does not fit the four data words is sent.
#[derive(Debug, Clone, Copy, PartialEq, Eq, Structural)]
pub enum ExtMode {
    /// In frames of four data words each, all but the last with an extended
    /// opcode.
    Segmented,
    /// In one long frame that carries the length in its first data word and
    /// the bytes behind the checksum.
    Extended,
}

/// Access to the bus that carries the frames.
///
/// The spec functions are a model that the contracts of this crate are stated
/// over: a record of what went through the transport, and two bounds. Their
/// bodies here stand for a transport written outside verified code, which has
/// no model; a verified one gives its own, and none can meet the clauses
/// without. The clauses are what an implementation owes: it keeps the record,
/// it announces `Empty` only finitely often in a row, it delivers only
/// finitely many continuing segments in a row, and its checksum is
/// CRC-16/XMODEM over the first six words of the frame.
pub trait PhysicalInterface {
    /// The word runs handed to `raw_write` so far, oldest first, whether or
    /// not the transport took them.
    open spec fn sent(&self) -> Seq<Seq<u16>> {
        arbitrary()
    }

    /// What `raw_write` answered to each of them.
    open spec fn answers(&self) -> Seq<Result<IntfResult, IntfError>> {
        arbitrary()
    }

    /// The frames that `raw_read` delivered so far, oldest first.
    open spec fn received(&self) -> Seq<Seq<u16>> {
        arbitrary()
    }

    /// What `is_data2read` answered so far, oldest first.
    open spec fn polled(&self) -> Seq<Result<IntfResult, IntfError>> {
        arbitrary()
    }

    /// A bound on the number of times that `is_data2read` still answers
    /// `Empty` before it answers anything else.
    open spec fn polls_left(&self) -> nat {
        arbitrary()
    }

    /// A bound on the number of frames with an extended opcode that
    /// `raw_read` still delivers before it delivers anything else.
    open spec fn segments_left(&self) -> nat {
        arbitrary()
    }

    /// Transmits `frame`. `Ok(Success)` is the answer of a transport that
    /// took it.
    fn raw_write(&mut self, frame: &[u16]) -> (r: Result<IntfResult, IntfError>)
        ensures
            final(self).sent() == old(self).sent().push(frame@),
            final(self).answers() == old(self).answers().push(r),
            final(self).received() == old(self).received(),
            final(self).polled() == old(self).polled(),
            final(self).segments_left() == old(self).segments_left(),
    ;

    /// Reads one frame: `Ok(Data(words))` where one came in.
    fn raw_read(&mut self) -> (r: Result<IntfResult, IntfError>)
        ensures
            final(self).sent() == old(self).sent(),
            final(self).answers() == old(self).answers(),
            final(self).received() == (match r {
                Ok(IntfResult::Data(words)) => old(self).received().push(words@),
                _ => old(self).received(),
            }),
            final(self).polled() == old(self).polled(),
            r matches Ok(IntfResult::Data(words)) && frame::is_extended(words@)
                ==> final(self).segments_left() < old(self).segments_left(),
    ;

    /// Tells whether a frame is waiting: `Ok(Empty)` where none is yet. A
    /// transport that cannot tell answers `Ok(Success)` at once.
    fn is_data2read(&mut self) -> (r: Result<IntfResult, IntfError>)
        ensures
            final(self).sent() == old(self).sent(),
            final(self).answers() == old(self).answers(),
            final(self).received() == old(self).received(),
            final(self).polled() == old(self).polled().push(r),
            final(self).segments_left() == old(self).segments_left(),
            r matches Ok(IntfResult::Empty) ==> final(self).polls_left() < old(self).polls_left(),
    ;

    /// The checksum of the first six words of `frame`. A transport with a
    /// peripheral for it computes the same value there.
    fn crc_checksum(&mut self, frame: &[u16]) -> (r: u16)
        requires
            frame@.len() >= frame::HEADER_WORDS,
        ensures
            r == frame::frame_crc(frame@),
            final(self).sent() == old(self).sent(),
            final(self).answers() == old(self).answers(),
            final(self).received() == old(self).received(),
            final(self).polled() == old(self).polled(),
            final(self).segments_left() == old(self).segments_left(),
    {
        frame::checksum(frame)
    }
}

/// State of an endpoint that was made and not yet started.
pub struct Init;

/// State of an endpoint in the register-access phase.
pub struct Config;

/// State of an endpoint in the cyclic phase.
pub struct Cyclic;

} // verus!
