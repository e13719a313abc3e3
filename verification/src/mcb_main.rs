//! The main endpoint: it asks a node for a register or hands it a value, and
//! waits for the node's answer.
use vstd::prelude::*;
use vstd::string::*;
use crate::frame::{
    command_word, ext_text, ext_text_of, frame_crc, has_ext_bit, is_extended, load_u16, load_u32,
    load_u64, load_u8, make_command, sealed, stamped, std_text, std_text_of, store_text, store_u16,
    store_u32, store_u64, store_u8, u16_of, u32_of, u64_of, u8_of, with_text, with_u16, with_u32,
    with_u64, with_u8, CFG_DATA_IDX, CFG_EXT_WRITE, CFG_STD_ACK, CFG_STD_READ, CFG_STD_WRITE,
    COMMAND_IDX, CRC_IDX, HEADER_IDX, HEADER_WORDS, MAX_ADDRESS, MAX_STD_CFG_DATA,
    STD_FRAME_WORDS,
};
use crate::transfer::{
    await_data, in_one_frame, in_segments, is_success, lemma_waited_again, segments_answer,
    send_extended, send_frame, send_segments, take_frame, waited, waited_once, wire,
};
use crate::{Config, Cyclic, ExtMode, Init, IntfError, IntfResult, PhysicalInterface, MAX_FRAME_SIZE};

verus! {

/// A main endpoint in the state `STATE`, on the transport `INTERFACE`.
pub struct Main<STATE, INTERFACE: PhysicalInterface> {
    frame: [u16; MAX_FRAME_SIZE],
    subnode: u8,
    _state: STATE,
    interface: INTERFACE,
    ext_mode: ExtMode,
}

/// What the main makes of a frame that came in as the answer to an access to
/// `address` of `subnode`, where `crc` is the checksum of the frame's first six
/// words: the frame carries that checksum, comes from that subnode, and
/// acknowledges that address; else the error says which of these failed first.
/// An answer that acknowledges something else is the peer's error report, and
/// the error carries the code in its first two data words.
pub open spec fn reply_verdict(words: Seq<u16>, crc: u16, subnode: u8, address: u16) -> Result<
    (),
    IntfError,
> {
    if words[CRC_IDX as int] != crc {
        Err(IntfError::Crc)
    } else if words[HEADER_IDX as int] & 0xF != subnode as u16 {
        Err(IntfError::Access(0))
    } else if words[COMMAND_IDX as int] & 0xFFFE != command_word(CFG_STD_ACK, address) {
        Err(IntfError::Access(u32_of(words)))
    } else {
        Ok(())
    }
}

/// Judges the frame `data` as the answer to an access to `address` of
/// `subnode`; `crc` is the checksum computed over its first six words.
pub fn check_reply(data: &[u16; MAX_FRAME_SIZE], crc: u16, subnode: u8, address: u16) -> (r:
    Result<(), IntfError>)
    ensures
        r == reply_verdict(data@, crc, subnode, address),
{
    if data[CRC_IDX] != crc {
        return Err(IntfError::Crc);
    }
    if (data[HEADER_IDX] & 0xF) != subnode as u16 {
        return Err(IntfError::Access(0));
    }
    if (data[COMMAND_IDX] & 0xFFFE) != make_command(CFG_STD_ACK, address) {
        return Err(IntfError::Access(load_u32(data)));
    }
    Ok(())
}

/// What an access to `address` of `subnode` comes to, given the frames that
/// came in while it ran: an address beyond the last one fails before anything
/// is sent, an access that no frame answered failed on the transport, and a
/// frame that came in is judged by `reply_verdict` and handed on where it
/// passes.
pub open spec fn access_outcome(arrived: Seq<Seq<u16>>, subnode: u8, address: u16) -> Result<
    Seq<u16>,
    IntfError,
> {
    if address > MAX_ADDRESS {
        Err(IntfError::AddressOutOfIndex)
    } else if arrived.len() == 0 {
        Err(IntfError::Interface)
    } else {
        match reply_verdict(arrived[0], frame_crc(arrived[0]), subnode, address) {
            Ok(_) => Ok(arrived[0]),
            Err(e) => Err(e),
        }
    }
}

/// The answer to a write: success where the access gave a frame, its error
/// where it did not.
pub open spec fn write_outcome(arrived: Seq<Seq<u16>>, subnode: u8, address: u16) -> Result<
    IntfResult,
    IntfError,
> {
    match access_outcome(arrived, subnode, address) {
        Ok(_) => Ok(IntfResult::Success),
        Err(e) => Err(e),
    }
}

/// The answer to a long write, for which no frame is waited: success where the
/// transport took the last frame, and its error where it did not.
pub open spec fn settled(answer: Result<IntfResult, IntfError>) -> Result<IntfResult, IntfError> {
    match answer {
        Ok(_) => Ok(IntfResult::Success),
        Err(e) => Err(e),
    }
}

/// Tells whether a frame that came in during a read in segments is an answer
/// that more segments follow.
pub open spec fn continues(words: Seq<u16>, subnode: u8, address: u16) -> bool {
    reply_verdict(words, frame_crc(words), subnode, address) is Ok && is_extended(words)
}

/// The strings of the first `n` of the frames `arrived`, one behind the other.
pub open spec fn joined_text(arrived: Seq<Seq<u16>>, n: nat) -> Seq<char>
    decreases n,
{
    if n == 0 {
        Seq::empty()
    } else {
        joined_text(arrived, (n - 1) as nat) + std_text(arrived[n - 1])
    }
}

/// What a read in segments from `address` of `subnode` comes to, given the
/// frames that came in while it ran and the number of requests it made. Every
/// frame but the last says that more follow. The read gives the joined strings
/// where the last frame is an answer that closes the sequence, the error of the
/// last frame where it is no answer, and `Interface` where the last request got
/// no frame.
pub open spec fn segmented_read(
    arrived: Seq<Seq<u16>>,
    requests: int,
    subnode: u8,
    address: u16,
    result: Result<Seq<char>, IntfError>,
) -> bool {
    let m = arrived.len() as int;
    &&& forall|i: int| 0 <= i < m - 1 ==> continues(#[trigger] arrived[i], subnode, address)
    &&& match result {
        Ok(text) => {
            &&& m >= 1
            &&& requests == m
            &&& reply_verdict(arrived[m - 1], frame_crc(arrived[m - 1]), subnode, address) is Ok
            &&& !is_extended(arrived[m - 1])
            &&& text == joined_text(arrived, m as nat)
        },
        Err(e) => {
            ||| {
                &&& m >= 1
                &&& requests == m
                &&& reply_verdict(arrived[m - 1], frame_crc(arrived[m - 1]), subnode, address)
                    == Err::<(), IntfError>(e)
            }
            ||| {
                &&& e == IntfError::Interface
                &&& requests == m + 1
                &&& m >= 1 ==> continues(arrived[m - 1], subnode, address)
            }
        },
    }
}

/// What `requests` requests, one behind the other, do to the record of a
/// transport: it answered each of them, and `Success` to every one but perhaps
/// the last; and each request that it answered so was waited for, once.
pub open spec fn requested<INTF: PhysicalInterface>(
    before: INTF,
    after: INTF,
    requests: int,
) -> bool {
    let old_answers = before.answers().len() as int;
    &&& requests >= 1
    &&& after.answers().len() == old_answers + requests
    &&& after.answers().take(old_answers) == before.answers()
    &&& forall|i: int|
        old_answers <= i < old_answers + requests - 1 ==> is_success(
            #[trigger] after.answers()[i],
        )
    &&& waited(
        before.polled(),
        after.polled(),
        (if is_success(after.answers().last()) {
            requests
        } else {
            requests - 1
        }) as nat,
    )
}

/// The view of a string result.
pub open spec fn text_result(r: Result<String, IntfError>) -> Result<Seq<char>, IntfError> {
    match r {
        Ok(s) => Ok(s@),
        Err(e) => Err(e),
    }
}

/// Stamping and sealing a frame once more for the same request changes
/// nothing.
pub proof fn lemma_send_again(words: Seq<u16>, subnode: u8, opcode: u16, address: u16)
    requires
        words.len() > CRC_IDX,
    ensures
        sealed(stamped(sealed(stamped(words, subnode, opcode, address)), subnode, opcode, address))
            == sealed(stamped(words, subnode, opcode, address)),
{
    let once = sealed(stamped(words, subnode, opcode, address));
    let again = stamped(once, subnode, opcode, address);
    assert(again =~= once);
    assert(once.subrange(0, HEADER_WORDS as int) =~= stamped(
        words,
        subnode,
        opcode,
        address,
    ).subrange(0, HEADER_WORDS as int));
    assert(sealed(again) =~= once);
}

/// The joined strings of the first `n` frames do not depend on the frames
/// behind them.
pub proof fn lemma_joined_prefix(a: Seq<Seq<u16>>, b: Seq<Seq<u16>>, n: nat)
    requires
        n <= a.len() <= b.len(),
        forall|i: int| 0 <= i < n ==> a[i] == b[i],
    ensures
        joined_text(a, n) == joined_text(b, n),
    decreases n,
{
    if n > 0 {
        lemma_joined_prefix(a, b, (n - 1) as nat);
    }
}

impl<STATE, INTF: PhysicalInterface> Main<STATE, INTF> {
    /// The words of the working frame.
    pub closed spec fn words(&self) -> Seq<u16> {
        self.frame@
    }

    /// The transport.
    pub closed spec fn link(&self) -> INTF {
        self.interface
    }

    /// The way long strings are sent.
    pub closed spec fn mode(&self) -> ExtMode {
        self.ext_mode
    }

    /// The subnode that the endpoint was made with.
    pub closed spec fn subnode(&self) -> u8 {
        self.subnode
    }

    /// The frames that came in since the endpoint was as `before`.
    pub open spec fn arrived(&self, before: Self) -> Seq<Seq<u16>> {
        self.link().received().skip(before.link().received().len() as int)
    }

    /// The working frame holds `MAX_FRAME_SIZE` words at all times.
    pub proof fn lemma_words_len(self)
        ensures
            self.words().len() == MAX_FRAME_SIZE,
    {
    }

    /// The endpoint differs from `before` in its state only.
    pub open spec fn carries<OTHER>(&self, before: Main<OTHER, INTF>) -> bool {
        &&& self.words() == before.words()
        &&& self.link() == before.link()
        &&& self.mode() == before.mode()
        &&& self.subnode() == before.subnode()
    }
}

impl<INTF: PhysicalInterface> Main<Init, INTF> {
    /// Starts the endpoint: it enters the register-access phase.
    pub fn init(self) -> (r: Main<Config, INTF>)
        ensures
            r.carries(self),
    {
        Main {
            frame: self.frame,
            subnode: self.subnode,
            _state: Config,
            interface: self.interface,
            ext_mode: self.ext_mode,
        }
    }
}

impl<INTF: PhysicalInterface> Main<Cyclic, INTF> {
    /// Goes back to the register-access phase.
    pub fn into_config(self) -> (r: Main<Config, INTF>)
        ensures
            r.carries(self),
    {
        Main {
            frame: self.frame,
            subnode: self.subnode,
            _state: Config,
            interface: self.interface,
            ext_mode: self.ext_mode,
        }
    }
}

/// Makes a main endpoint on `interface`, with an empty working frame.
pub fn create_main_mcb<INTF: PhysicalInterface>(
    interface: Option<INTF>,
    mode: ExtMode,
    subnode: u8,
) -> (r: Main<Init, INTF>)
    requires
        interface is Some,
    ensures
        r.link() == interface->0,
        r.mode() == mode,
        r.subnode() == subnode,
        r.words() == Seq::new(MAX_FRAME_SIZE as nat, |i: int| 0u16),
{
    let r = Main {
        frame: [0u16; MAX_FRAME_SIZE],
        subnode,
        _state: Init,
        interface: interface.unwrap(),
        ext_mode: mode,
    };
    assert(r.frame@ =~= Seq::new(MAX_FRAME_SIZE as nat, |i: int| 0u16));
    r
}

impl<INTF: PhysicalInterface> Main<Config, INTF> {
    /// What one access does to the endpoint, where `staged` is the working
    /// frame with the data of the access in it. An address beyond the last one
    /// leaves the transport alone. Else the frame is stamped for `subnode`,
    /// `opcode` and `address` and sealed, its first seven words are handed to
    /// the transport, and at most one frame comes in. Where the transport
    /// answered the request with `Success`, it was then asked whether a frame
    /// waits until it answered anything but `Empty`, and then read once; where
    /// it did not, it was neither asked nor read.
    pub open spec fn accessed(
        &self,
        before: Self,
        staged: Seq<u16>,
        subnode: u8,
        address: u16,
        opcode: u16,
    ) -> bool {
        &&& self.mode() == before.mode()
        &&& self.subnode() == before.subnode()
        &&& if address > MAX_ADDRESS {
            &&& self.words() == staged
            &&& self.link() == before.link()
        } else {
            &&& self.words() == sealed(stamped(staged, subnode, opcode, address))
            &&& self.link().sent() == before.link().sent().push(wire(self.words()))
            &&& self.link().answers().len() == before.link().answers().len() + 1
            &&& self.link().answers().drop_last() == before.link().answers()
            &&& self.arrived(before).len() <= 1
            &&& self.link().received() == before.link().received() + self.arrived(before)
            &&& !(self.link().answers().last() matches Ok(IntfResult::Success))
                ==> self.arrived(before).len() == 0
            &&& if self.link().answers().last() matches Ok(IntfResult::Success) {
                waited_once(before.link().polled(), self.link().polled())
            } else {
                self.link().polled() == before.link().polled()
            }
        }
    }

    /// One access: sends the working frame as a request and takes in the
    /// answer.
    fn internal_access(&mut self, subnode: u8, add: u16, cmd: u16) -> (r: Result<
        Box<[u16; MAX_FRAME_SIZE]>,
        IntfError,
    >)
        ensures
            final(self).accessed(*old(self), old(self).words(), subnode, add, cmd),
            match r {
                Ok(data) => access_outcome(final(self).arrived(*old(self)), subnode, add) == Ok::<
                    Seq<u16>,
                    IntfError,
                >(data@),
                Err(e) => access_outcome(final(self).arrived(*old(self)), subnode, add) == Err::<
                    Seq<u16>,
                    IntfError,
                >(e),
            },
            r matches Ok(data) && is_extended(data@)
                ==> final(self).link().segments_left() < old(self).link().segments_left(),
    {
        if add > MAX_ADDRESS {
            return Err(IntfError::AddressOutOfIndex);
        }
        let sent = send_frame(&mut self.frame, &mut self.interface, subnode, cmd, add);
        assert(self.link().answers().drop_last() =~= old(self).link().answers());
        match sent {
            Ok(IntfResult::Success) => (),
            _ => {
                assert(self.arrived(*old(self)) =~= Seq::<Seq<u16>>::empty());
                assert(self.link().received() =~= old(self).link().received() + self.arrived(
                    *old(self),
                ));
                return Err(IntfError::Interface);
            },
        }
        let _ = await_data(&mut self.interface);
        let data = match take_frame(&mut self.interface) {
            Ok(data) => data,
            Err(e) => {
                assert(self.arrived(*old(self)) =~= Seq::<Seq<u16>>::empty());
                assert(self.link().received() =~= old(self).link().received() + self.arrived(
                    *old(self),
                ));
                return Err(e);
            },
        };
        assert(self.arrived(*old(self)) =~= seq![data@]);
        assert(self.link().received() =~= old(self).link().received() + self.arrived(*old(self)));
        let crc = self.interface.crc_checksum(vstd::array::array_as_slice(&*data));
        match check_reply(&*data, crc, subnode, add) {
            Ok(_) => Ok(data),
            Err(e) => Err(e),
        }
    }

    /// Writes a byte to `add` of `subnode`.
    pub fn write_u8(&mut self, subnode: u8, add: u16, data: u8) -> (r: Result<
        IntfResult,
        IntfError,
    >)
        ensures
            final(self).accessed(
                *old(self),
                with_u8(old(self).words(), data),
                subnode,
                add,
                CFG_STD_WRITE,
            ),
            r == write_outcome(final(self).arrived(*old(self)), subnode, add),
    {
        store_u8(&mut self.frame, data);
        match self.internal_access(subnode, add, CFG_STD_WRITE) {
            Ok(_) => Ok(IntfResult::Success),
            Err(e) => Err(e),
        }
    }

    /// Reads a byte from `add` of `subnode`.
    pub fn read_u8(&mut self, subnode: u8, add: u16) -> (r: Result<u8, IntfError>)
        ensures
            final(self).accessed(*old(self), old(self).words(), subnode, add, CFG_STD_READ),
            r == (match access_outcome(final(self).arrived(*old(self)), subnode, add) {
                Ok(words) => Ok(u8_of(words)),
                Err(e) => Err(e),
            }),
    {
        match self.internal_access(subnode, add, CFG_STD_READ) {
            Ok(data) => Ok(load_u8(&*data)),
            Err(e) => Err(e),
        }
    }

    /// Writes a signed byte to `add` of `subnode`.
    pub fn write_i8(&mut self, subnode: u8, add: u16, data: i8) -> (r: Result<
        IntfResult,
        IntfError,
    >)
        ensures
            final(self).accessed(
                *old(self),
                with_u8(old(self).words(), data as u8),
                subnode,
                add,
                CFG_STD_WRITE,
            ),
            r == write_outcome(final(self).arrived(*old(self)), subnode, add),
    {
        self.write_u8(subnode, add, data as u8)
    }

    /// Reads a signed byte from `add` of `subnode`.
    pub fn read_i8(&mut self, subnode: u8, add: u16) -> (r: Result<i8, IntfError>)
        ensures
            final(self).accessed(*old(self), old(self).words(), subnode, add, CFG_STD_READ),
            r == (match access_outcome(final(self).arrived(*old(self)), subnode, add) {
                Ok(words) => Ok(u8_of(words) as i8),
                Err(e) => Err(e),
            }),
    {
        match self.internal_access(subnode, add, CFG_STD_READ) {
            Ok(data) => Ok(load_u8(&*data) as i8),
            Err(e) => Err(e),
        }
    }

    /// Writes a word to `add` of `subnode`.
    pub fn write_u16(&mut self, subnode: u8, add: u16, data: u16) -> (r: Result<
        IntfResult,
        IntfError,
    >)
        ensures
            final(self).accessed(
                *old(self),
                with_u16(old(self).words(), data),
                subnode,
                add,
                CFG_STD_WRITE,
            ),
            r == write_outcome(final(self).arrived(*old(self)), subnode, add),
    {
        store_u16(&mut self.frame, data);
        match self.internal_access(subnode, add, CFG_STD_WRITE) {
            Ok(_) => Ok(IntfResult::Success),
            Err(e) => Err(e),
        }
    }

    /// Reads a word from `add` of `subnode`.
    pub fn read_u16(&mut self, subnode: u8, add: u16) -> (r: Result<u16, IntfError>)
        ensures
            final(self).accessed(*old(self), old(self).words(), subnode, add, CFG_STD_READ),
            r == (match access_outcome(final(self).arrived(*old(self)), subnode, add) {
                Ok(words) => Ok(u16_of(words)),
                Err(e) => Err(e),
            }),
    {
        match self.internal_access(subnode, add, CFG_STD_READ) {
            Ok(data) => Ok(load_u16(&*data)),
            Err(e) => Err(e),
        }
    }

    /// Writes a signed word to `add` of `subnode`.
    pub fn write_i16(&mut self, subnode: u8, add: u16, data: i16) -> (r: Result<
        IntfResult,
        IntfError,
    >)
        ensures
            final(self).accessed(
                *old(self),
                with_u16(old(self).words(), data as u16),
                subnode,
                add,
                CFG_STD_WRITE,
            ),
            r == write_outcome(final(self).arrived(*old(self)), subnode, add),
    {
        self.write_u16(subnode, add, data as u16)
    }

    /// Reads a signed word from `add` of `subnode`.
    pub fn read_i16(&mut self, subnode: u8, add: u16) -> (r: Result<i16, IntfError>)
        ensures
            final(self).accessed(*old(self), old(self).words(), subnode, add, CFG_STD_READ),
            r == (match access_outcome(final(self).arrived(*old(self)), subnode, add) {
                Ok(words) => Ok(u16_of(words) as i16),
                Err(e) => Err(e),
            }),
    {
        match self.internal_access(subnode, add, CFG_STD_READ) {
            Ok(data) => Ok(load_u16(&*data) as i16),
            Err(e) => Err(e),
        }
    }

    /// Writes a 32-bit value to `add` of `subnode`.
    pub fn write_u32(&mut self, subnode: u8, add: u16, data: u32) -> (r: Result<
        IntfResult,
        IntfError,
    >)
        ensures
            final(self).accessed(
                *old(self),
                with_u32(old(self).words(), data),
                subnode,
                add,
                CFG_STD_WRITE,
            ),
            r == write_outcome(final(self).arrived(*old(self)), subnode, add),
    {
        store_u32(&mut self.frame, data);
        match self.internal_access(subnode, add, CFG_STD_WRITE) {
            Ok(_) => Ok(IntfResult::Success),
            Err(e) => Err(e),
        }
    }

    /// Reads a 32-bit value from `add` of `subnode`.
    pub fn read_u32(&mut self, subnode: u8, add: u16) -> (r: Result<u32, IntfError>)
        ensures
            final(self).accessed(*old(self), old(self).words(), subnode, add, CFG_STD_READ),
            r == (match access_outcome(final(self).arrived(*old(self)), subnode, add) {
                Ok(words) => Ok(u32_of(words)),
                Err(e) => Err(e),
            }),
    {
        match self.internal_access(subnode, add, CFG_STD_READ) {
            Ok(data) => Ok(load_u32(&*data)),
            Err(e) => Err(e),
        }
    }

    /// Writes a signed 32-bit value to `add` of `subnode`.
    pub fn write_i32(&mut self, subnode: u8, add: u16, data: i32) -> (r: Result<
        IntfResult,
        IntfError,
    >)
        ensures
            final(self).accessed(
                *old(self),
                with_u32(old(self).words(), data as u32),
                subnode,
                add,
                CFG_STD_WRITE,
            ),
            r == write_outcome(final(self).arrived(*old(self)), subnode, add),
    {
        self.write_u32(subnode, add, data as u32)
    }

    /// Reads a signed 32-bit value from `add` of `subnode`.
    pub fn read_i32(&mut self, subnode: u8, add: u16) -> (r: Result<i32, IntfError>)
        ensures
            final(self).accessed(*old(self), old(self).words(), subnode, add, CFG_STD_READ),
            r == (match access_outcome(final(self).arrived(*old(self)), subnode, add) {
                Ok(words) => Ok(u32_of(words) as i32),
                Err(e) => Err(e),
            }),
    {
        match self.internal_access(subnode, add, CFG_STD_READ) {
            Ok(data) => Ok(load_u32(&*data) as i32),
            Err(e) => Err(e),
        }
    }

    /// Writes a 64-bit value to `add` of `subnode`.
    pub fn write_u64(&mut self, subnode: u8, add: u16, data: u64) -> (r: Result<
        IntfResult,
        IntfError,
    >)
        ensures
            final(self).accessed(
                *old(self),
                with_u64(old(self).words(), data),
                subnode,
                add,
                CFG_STD_WRITE,
            ),
            r == write_outcome(final(self).arrived(*old(self)), subnode, add),
    {
        store_u64(&mut self.frame, data);
        match self.internal_access(subnode, add, CFG_STD_WRITE) {
            Ok(_) => Ok(IntfResult::Success),
            Err(e) => Err(e),
        }
    }

    /// Reads a 64-bit value from `add` of `subnode`.
    pub fn read_u64(&mut self, subnode: u8, add: u16) -> (r: Result<u64, IntfError>)
        ensures
            final(self).accessed(*old(self), old(self).words(), subnode, add, CFG_STD_READ),
            r == (match access_outcome(final(self).arrived(*old(self)), subnode, add) {
                Ok(words) => Ok(u64_of(words)),
                Err(e) => Err(e),
            }),
    {
        match self.internal_access(subnode, add, CFG_STD_READ) {
            Ok(data) => Ok(load_u64(&*data)),
            Err(e) => Err(e),
        }
    }

    /// Writes a signed 64-bit value to `add` of `subnode`.
    pub fn write_i64(&mut self, subnode: u8, add: u16, data: i64) -> (r: Result<
        IntfResult,
        IntfError,
    >)
        ensures
            final(self).accessed(
                *old(self),
                with_u64(old(self).words(), data as u64),
                subnode,
                add,
                CFG_STD_WRITE,
            ),
            r == write_outcome(final(self).arrived(*old(self)), subnode, add),
    {
        self.write_u64(subnode, add, data as u64)
    }

    /// Reads a signed 64-bit value from `add` of `subnode`.
    pub fn read_i64(&mut self, subnode: u8, add: u16) -> (r: Result<i64, IntfError>)
        ensures
            final(self).accessed(*old(self), old(self).words(), subnode, add, CFG_STD_READ),
            r == (match access_outcome(final(self).arrived(*old(self)), subnode, add) {
                Ok(words) => Ok(u64_of(words) as i64),
                Err(e) => Err(e),
            }),
    {
        match self.internal_access(subnode, add, CFG_STD_READ) {
            Ok(data) => Ok(load_u64(&*data) as i64),
            Err(e) => Err(e),
        }
    }

    /// Writes a string to `add` of `subnode`. One of fewer than eight bytes
    /// goes as a standard write, a zero word behind its bytes, and the answer
    /// is waited for. A longer one goes in segments or in one extended frame,
    /// as the endpoint was made, and no answer is waited for.
    pub fn write_str(&mut self, subnode: u8, add: u16, data: &str) -> (r: Result<
        IntfResult,
        IntfError,
    >)
        requires
            old(self).mode() == ExtMode::Extended ==> STD_FRAME_WORDS + data.spec_bytes().len()
                <= MAX_FRAME_SIZE,
        ensures
            final(self).mode() == old(self).mode(),
            final(self).subnode() == old(self).subnode(),
            data.spec_bytes().len() < MAX_STD_CFG_DATA ==> {
                &&& final(self).accessed(
                    *old(self),
                    with_text(old(self).words(), CFG_DATA_IDX as int, data.spec_bytes()),
                    subnode,
                    add,
                    CFG_STD_WRITE,
                )
                &&& r == write_outcome(final(self).arrived(*old(self)), subnode, add)
            },
            data.spec_bytes().len() >= MAX_STD_CFG_DATA && add > MAX_ADDRESS ==> {
                &&& r == Err::<IntfResult, IntfError>(IntfError::AddressOutOfIndex)
                &&& final(self).carries(*old(self))
            },
            data.spec_bytes().len() >= MAX_STD_CFG_DATA && add <= MAX_ADDRESS && old(self).mode()
                == ExtMode::Segmented ==> {
                &&& in_segments(
                    old(self).words(),
                    final(self).words(),
                    old(self).link(),
                    final(self).link(),
                    subnode,
                    add,
                    CFG_EXT_WRITE,
                    CFG_STD_WRITE,
                    data.spec_bytes(),
                )
                &&& r == settled(
                    segments_answer(old(self).link(), final(self).link(), data.spec_bytes()),
                )
            },
            data.spec_bytes().len() >= MAX_STD_CFG_DATA && add <= MAX_ADDRESS && old(self).mode()
                == ExtMode::Extended ==> {
                &&& in_one_frame(
                    old(self).words(),
                    final(self).words(),
                    old(self).link(),
                    final(self).link(),
                    subnode,
                    add,
                    CFG_EXT_WRITE,
                    data.spec_bytes(),
                )
                &&& r == settled(final(self).link().answers().last())
            },
    {
        let bytes = data.as_bytes();
        let size: usize = bytes.len();
        if size < MAX_STD_CFG_DATA {
            store_text(&mut self.frame, CFG_DATA_IDX, bytes, 0, size);
            proof {
                assert(bytes@.subrange(0, size as int) =~= bytes@);
            }
            return match self.internal_access(subnode, add, CFG_STD_WRITE) {
                Ok(_) => Ok(IntfResult::Success),
                Err(e) => Err(e),
            };
        }
        if add > MAX_ADDRESS {
            return Err(IntfError::AddressOutOfIndex);
        }
        let sent = match self.ext_mode {
            ExtMode::Segmented => send_segments(
                &mut self.frame,
                &mut self.interface,
                subnode,
                add,
                CFG_EXT_WRITE,
                CFG_STD_WRITE,
                bytes,
            ),
            ExtMode::Extended => send_extended(
                &mut self.frame,
                &mut self.interface,
                subnode,
                add,
                CFG_EXT_WRITE,
                bytes,
            ),
        };
        match sent {
            Ok(_) => Ok(IntfResult::Success),
            Err(e) => Err(e),
        }
    }

    /// Reads a string from `add` of `subnode`. An endpoint made for extended
    /// frames makes one access and reads the string as the opcode of the answer
    /// says: from the data words, or by its length from behind the checksum.
    /// One made for segments makes one access for each segment and joins their
    /// strings, until an answer closes the sequence.
    pub fn read_str(&mut self, subnode: u8, add: u16) -> (r: Result<String, IntfError>)
        ensures
            final(self).mode() == old(self).mode(),
            final(self).subnode() == old(self).subnode(),
            add > MAX_ADDRESS ==> {
                &&& r == Err::<String, IntfError>(IntfError::AddressOutOfIndex)
                &&& final(self).carries(*old(self))
            },
            add <= MAX_ADDRESS && old(self).mode() == ExtMode::Extended ==> {
                &&& final(self).accessed(
                    *old(self),
                    old(self).words(),
                    subnode,
                    add,
                    CFG_STD_READ,
                )
                &&& text_result(r) == (match access_outcome(
                    final(self).arrived(*old(self)),
                    subnode,
                    add,
                ) {
                    Ok(words) => Ok(
                        if is_extended(words) {
                            ext_text(words)
                        } else {
                            std_text(words)
                        },
                    ),
                    Err(e) => Err(e),
                })
            },
            add <= MAX_ADDRESS && old(self).mode() == ExtMode::Segmented ==> {
                let requests = final(self).link().sent().len() - old(self).link().sent().len();
                &&& final(self).words() == sealed(
                    stamped(old(self).words(), subnode, CFG_STD_READ, add),
                )
                &&& final(self).link().sent() == old(self).link().sent() + Seq::new(
                    requests as nat,
                    |i: int| wire(final(self).words()),
                )
                &&& requested(old(self).link(), final(self).link(), requests)
                &&& final(self).link().received() == old(self).link().received()
                    + final(self).arrived(*old(self))
                &&& segmented_read(
                    final(self).arrived(*old(self)),
                    requests,
                    subnode,
                    add,
                    text_result(r),
                )
            },
    {
        if add > MAX_ADDRESS {
            return Err(IntfError::AddressOutOfIndex);
        }
        match self.ext_mode {
            ExtMode::Extended => {
                match self.internal_access(subnode, add, CFG_STD_READ) {
                    Ok(data) => {
                        if has_ext_bit(&*data) {
                            Ok(ext_text_of(&*data))
                        } else {
                            Ok(std_text_of(&*data))
                        }
                    },
                    Err(e) => Err(e),
                }
            },
            ExtMode::Segmented => {
                let mut result = String::new();
                let ghost request = wire(
                    sealed(stamped(old(self).words(), subnode, CFG_STD_READ, add)),
                );
                let ghost old_answers = old(self).link().answers().len() as int;
                let ghost mut taken: int = 0;
                proof {
                    assert(self.link().sent() =~= old(self).link().sent() + Seq::new(
                        0,
                        |i: int| request,
                    ));
                    assert(self.arrived(*old(self)) =~= Seq::<Seq<u16>>::empty());
                    assert(self.link().received() =~= old(self).link().received() + self.arrived(
                        *old(self),
                    ));
                    assert(self.link().answers().take(old_answers) =~= old(self).link().answers());
                    assert(self.link().polled().skip(self.link().polled().len() as int)
                        =~= Seq::<Result<IntfResult, IntfError>>::empty());
                    assert(self.link().polled().take(self.link().polled().len() as int)
                        =~= self.link().polled());
                }
                loop
                    invariant
                        add <= MAX_ADDRESS,
                        taken >= 0,
                        old(self).words().len() == MAX_FRAME_SIZE,
                        old(self).mode() == ExtMode::Segmented,
                        self.mode() == old(self).mode(),
                        self.subnode() == old(self).subnode(),
                        old_answers == old(self).link().answers().len(),
                        request == wire(
                            sealed(stamped(old(self).words(), subnode, CFG_STD_READ, add)),
                        ),
                        taken == 0 ==> self.words() == old(self).words(),
                        taken > 0 ==> self.words() == sealed(
                            stamped(old(self).words(), subnode, CFG_STD_READ, add),
                        ),
                        self.link().sent() == old(self).link().sent() + Seq::new(
                            taken as nat,
                            |i: int| request,
                        ),
                        self.link().answers().len() == old_answers + taken,
                        self.link().answers().take(old_answers) == old(self).link().answers(),
                        forall|i: int|
                            old_answers <= i < old_answers + taken ==> is_success(
                                #[trigger] self.link().answers()[i],
                            ),
                        waited(old(self).link().polled(), self.link().polled(), taken as nat),
                        self.arrived(*old(self)).len() == taken,
                        self.link().received() == old(self).link().received() + self.arrived(
                            *old(self),
                        ),
                        forall|i: int|
                            0 <= i < taken ==> continues(
                                #[trigger] self.arrived(*old(self))[i],
                                subnode,
                                add,
                            ),
                        result@ == joined_text(self.arrived(*old(self)), taken as nat),
                    decreases self.link().segments_left(),
                {
                    let ghost before = *self;
                    let ghost came = self.arrived(*old(self));
                    proof {
                        lemma_send_again(old(self).words(), subnode, CFG_STD_READ, add);
                    }
                    let answer = self.internal_access(subnode, add, CFG_STD_READ);
                    proof {
                        assert(self.link().sent() =~= old(self).link().sent() + Seq::new(
                            (taken + 1) as nat,
                            |i: int| request,
                        ));
                        assert(self.arrived(*old(self)) =~= came + self.arrived(before));
                        assert(self.link().received() =~= old(self).link().received()
                            + self.arrived(*old(self)));
                        assert(self.link().answers().take(old_answers)
                            =~= before.link().answers().take(old_answers));
                        assert forall|i: int| old_answers <= i < old_answers + taken implies is_success(
                            #[trigger] self.link().answers()[i],
                        ) by {
                            assert(self.link().answers()[i] == self.link().answers().drop_last()[i]);
                            assert(is_success(before.link().answers()[i]));
                        }
                        if is_success(self.link().answers().last()) {
                            lemma_waited_again(
                                old(self).link().polled(),
                                before.link().polled(),
                                self.link().polled(),
                                taken as nat,
                            );
                        }
                    }
                    let data = match answer {
                        Ok(data) => data,
                        Err(e) => {
                            return Err(e);
                        },
                    };
                    proof {
                        assert(self.arrived(before) =~= seq![data@]);
                        assert(is_success(self.link().answers().last()));
                        assert(self.arrived(*old(self)) =~= came.push(data@));
                        lemma_joined_prefix(came, came.push(data@), taken as nat);
                        taken = taken + 1;
                    }
                    let segment = std_text_of(&*data);
                    result.append(segment.as_str());
                    if !has_ext_bit(&*data) {
                        return Ok(result);
                    }
                }
            },
        }
    }

    /// Enters the cyclic phase.
    pub fn into_cyclic(self) -> (r: Main<Cyclic, INTF>)
        ensures
            r.carries(self),
    {
        Main {
            frame: self.frame,
            subnode: self.subnode,
            _state: Cyclic,
            interface: self.interface,
            ext_mode: self.ext_mode,
        }
    }
}

} // verus!
