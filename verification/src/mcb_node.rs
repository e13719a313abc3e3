//! The node endpoint: it takes in the requests of a main, hands out what
//! they carry, and answers them.
use vstd::prelude::*;
use vstd::string::*;
use crate::frame::{
    address_of, ext_text, ext_text_of, frame_crc, has_ext_bit, is_extended, load_u16, load_u32,
    load_u64, load_u8, run_text, run_text_of, sealed, stamped, std_text, std_text_of, store_text,
    store_u16, store_u32, store_u64, store_u8, subnode_of, u16_of, u32_of, u64_of, u8_of, with_text,
    with_u16, with_u32, with_u64, with_u8, CFG_DATA_IDX, CFG_ERR_BIT, CFG_EXT_ACK, CFG_EXT_READ,
    CFG_EXT_WRITE, CFG_STD_ACK, CFG_STD_READ, CFG_STD_WRITE, COMMAND_IDX, CRC_IDX, HEADER_IDX,
    MAX_SEGMENTS, MAX_STD_CFG_DATA, STD_FRAME_WORDS,
};
use crate::transfer::{
    await_data, in_one_frame, in_segments, lemma_waited_again, segments_answer, send_extended,
    send_frame, send_segments, take_frame, waited, wire,
};
use crate::{Config, Cyclic, ExtMode, Init, IntfError, IntfResult, PhysicalInterface, MAX_FRAME_SIZE};

verus! {

/// What a request asks for.
#[derive(Debug, Clone, Copy, PartialEq, Eq, Structural)]
pub enum CommandType {
    Read,
    Write,
    ExtRead,
    ExtWrite,
    StateChange,
}

/// A request as the node took it in.
pub struct Request {
    pub subnode: u8,
    pub address: u16,
    pub command: CommandType,
    /// The frame that carried the request.
    pub data_value: [u16; MAX_FRAME_SIZE],
}

impl Request {
    /// The words of the frame that carried the request; where it came in
    /// segments, the data words of the later segments stand behind the first
    /// six words.
    pub open spec fn words(&self) -> Seq<u16> {
        self.data_value@
    }
}

/// A node endpoint in the state `STATE`, on the transport `INTERFACE`.
pub struct Node<STATE, INTERFACE: PhysicalInterface> {
    frame: [u16; MAX_FRAME_SIZE],
    subnode: u8,
    _state: STATE,
    interface: INTERFACE,
    ext_mode: ExtMode,
}

/// The kind of request that an opcode stands for, if it stands for one.
pub open spec fn command_kind(opcode: u16) -> Option<CommandType> {
    if opcode == CFG_STD_READ {
        Some(CommandType::Read)
    } else if opcode == CFG_STD_WRITE {
        Some(CommandType::Write)
    } else if opcode == CFG_EXT_READ {
        Some(CommandType::ExtRead)
    } else if opcode == CFG_EXT_WRITE {
        Some(CommandType::ExtWrite)
    } else {
        None
    }
}

/// Tells whether a request of this kind may come in segments.
pub open spec fn is_long(kind: CommandType) -> bool {
    kind == CommandType::ExtRead || kind == CommandType::ExtWrite
}

/// What the node of `subnode` makes of a frame that came in, where `crc` is
/// the checksum of the frame's first six words: the frame carries that
/// checksum, is meant for this subnode, and its opcode is that of a request;
/// else the error says which of these failed first.
pub open spec fn request_verdict(words: Seq<u16>, crc: u16, subnode: u8) -> Result<
    CommandType,
    IntfError,
> {
    if words[CRC_IDX as int] != crc {
        Err(IntfError::Crc)
    } else if words[HEADER_IDX as int] & 0xF != subnode as u16 {
        Err(IntfError::WrongSubnode)
    } else {
        match command_kind(words[COMMAND_IDX as int] & 0xF) {
            Some(kind) => Ok(kind),
            None => Err(IntfError::WrongCommand),
        }
    }
}

/// Judges the frame `data` as a request to the node of `subnode`; `crc` is
/// the checksum computed over its first six words.
pub fn check_request(data: &[u16; MAX_FRAME_SIZE], crc: u16, subnode: u8) -> (r: Result<
    CommandType,
    IntfError,
>)
    ensures
        r == request_verdict(data@, crc, subnode),
{
    if data[CRC_IDX] != crc {
        return Err(IntfError::Crc);
    }
    if (data[HEADER_IDX] & 0xF) != subnode as u16 {
        return Err(IntfError::WrongSubnode);
    }
    let opcode: u16 = data[COMMAND_IDX] & 0xF;
    if opcode == CFG_STD_READ {
        Ok(CommandType::Read)
    } else if opcode == CFG_STD_WRITE {
        Ok(CommandType::Write)
    } else if opcode == CFG_EXT_READ {
        Ok(CommandType::ExtRead)
    } else if opcode == CFG_EXT_WRITE {
        Ok(CommandType::ExtWrite)
    } else {
        Err(IntfError::WrongCommand)
    }
}

/// The buffer `words` with the four data words of `segment` in the four
/// words from `at` on.
pub open spec fn with_segment(words: Seq<u16>, at: int, segment: Seq<u16>) -> Seq<u16> {
    Seq::new(
        words.len(),
        |i: int|
            if at <= i < at + 4 {
                segment[CFG_DATA_IDX as int + i - at]
            } else {
                words[i]
            },
    )
}

/// Copies the four data words of `segment` into the four words of `data` from
/// `at` on.
pub fn copy_segment(
    data: &mut [u16; MAX_FRAME_SIZE],
    at: usize,
    segment: &[u16; MAX_FRAME_SIZE],
)
    requires
        at + 4 <= MAX_FRAME_SIZE,
    ensures
        final(data)@ == with_segment(old(data)@, at as int, segment@),
{
    let mut i: usize = 0;
    while i < 4
        invariant
            i <= 4,
            at + 4 <= MAX_FRAME_SIZE,
            forall|j: int|
                0 <= j < MAX_FRAME_SIZE ==> data@[j] == (if at <= j < at + i {
                    segment@[CFG_DATA_IDX as int + j - at]
                } else {
                    old(data)@[j]
                }),
        decreases 4 - i,
    {
        data[at + i] = segment[CFG_DATA_IDX + i];
        i = i + 1;
    }
    assert(data@ =~= with_segment(old(data)@, at as int, segment@));
}

/// The buffer that the first `n` of the frames `arrived` leave: the first
/// frame as it came, and the data words of each later one behind the words
/// gathered before it, from the seventh word on.
pub open spec fn gathered(arrived: Seq<Seq<u16>>, n: nat) -> Seq<u16>
    decreases n,
{
    if n <= 1 {
        arrived[0]
    } else {
        with_segment(
            gathered(arrived, (n - 1) as nat),
            CRC_IDX as int + 4 * (n - 2),
            arrived[n - 1],
        )
    }
}

/// The buffer that the first `n` frames leave does not depend on the frames
/// behind them.
pub proof fn lemma_gathered_prefix(a: Seq<Seq<u16>>, b: Seq<Seq<u16>>, n: nat)
    requires
        1 <= n <= a.len() <= b.len(),
        forall|i: int| 0 <= i < n ==> a[i] == b[i],
    ensures
        gathered(a, n) == gathered(b, n),
    decreases n,
{
    if n > 1 {
        lemma_gathered_prefix(a, b, (n - 1) as nat);
    }
}

/// Tells whether a frame carries the checksum of its first six words.
pub open spec fn intact(words: Seq<u16>) -> bool {
    words[CRC_IDX as int] == frame_crc(words)
}

/// What taking in a request in segments comes to, given the frames that came
/// in, the first one included, and the number of acknowledgements sent. Every
/// segment between the first frame and the last is intact and says that more
/// follow. The request is complete where the last frame is an intact segment
/// that closes the sequence; the taking fails with `Crc` where the last frame
/// is a segment that is not intact, and with `Interface` where an
/// acknowledgement brought no segment or where the last segment that the
/// buffer has room for still says that more follow.
pub open spec fn reassembled(
    arrived: Seq<Seq<u16>>,
    acks: int,
    result: Result<Seq<u16>, IntfError>,
) -> bool {
    let m = arrived.len() as int;
    &&& 1 <= m <= MAX_SEGMENTS
    &&& forall|i: int|
        1 <= i < m - 1 ==> intact(#[trigger] arrived[i]) && is_extended(arrived[i])
    &&& match result {
        Ok(words) => {
            &&& m >= 2
            &&& acks == m - 1
            &&& intact(arrived[m - 1])
            &&& !is_extended(arrived[m - 1])
            &&& words == gathered(arrived, m as nat)
        },
        Err(e) => {
            ||| {
                &&& e == IntfError::Crc
                &&& m >= 2
                &&& acks == m - 1
                &&& !intact(arrived[m - 1])
            }
            ||| {
                &&& e == IntfError::Interface
                &&& acks == m
                &&& m >= 2 ==> intact(arrived[m - 1]) && is_extended(arrived[m - 1])
            }
            ||| {
                &&& e == IntfError::Interface
                &&& acks == m - 1
                &&& m == MAX_SEGMENTS
                &&& intact(arrived[m - 1])
                &&& is_extended(arrived[m - 1])
            }
        },
    }
}

/// What taking in a request comes to for the node of `subnode` made for
/// `mode`, given the frames that came in and the number of acknowledgements
/// sent. No frame is a failure of the transport. The first frame is judged by
/// `request_verdict`. A request of a long kind to a node made for segments is
/// gathered from the segments that follow; any other is the first frame alone.
pub open spec fn served(
    arrived: Seq<Seq<u16>>,
    acks: int,
    mode: ExtMode,
    subnode: u8,
    result: Result<Request, IntfError>,
) -> bool {
    if arrived.len() == 0 {
        acks == 0 && result == Err::<Request, IntfError>(IntfError::Interface)
    } else {
        let first = arrived[0];
        match request_verdict(first, frame_crc(first), subnode) {
            Err(e) => arrived.len() == 1 && acks == 0 && result == Err::<Request, IntfError>(e),
            Ok(kind) => {
                &&& result matches Ok(request) ==> {
                    &&& request.subnode == subnode_of(first[HEADER_IDX as int])
                    &&& request.address == address_of(first[COMMAND_IDX as int])
                    &&& request.command == kind
                }
                &&& if mode == ExtMode::Segmented && is_long(kind) {
                    reassembled(
                        arrived,
                        acks,
                        match result {
                            Ok(request) => Ok(request.words()),
                            Err(e) => Err(e),
                        },
                    )
                } else {
                    &&& arrived.len() == 1
                    &&& acks == 0
                    &&& result matches Ok(request) && request.words() == first
                }
            },
        }
    }
}

/// What `acks` acknowledgements, one behind the other, do to the record of a
/// transport: it answered each of them, and with no error to every one but
/// perhaps the last; and for each that it answered so a segment was waited
/// for, once.
pub open spec fn acknowledged<INTF: PhysicalInterface>(
    before: INTF,
    after: INTF,
    acks: int,
) -> bool {
    let old_answers = before.answers().len() as int;
    &&& acks >= 0
    &&& after.answers().len() == old_answers + acks
    &&& after.answers().take(old_answers) == before.answers()
    &&& forall|i: int|
        old_answers <= i < old_answers + acks - 1 ==> (#[trigger] after.answers()[i]) is Ok
    &&& waited(
        before.polled(),
        after.polled(),
        (if acks > 0 && after.answers().last() is Err {
            acks - 1
        } else {
            acks
        }) as nat,
    )
}

impl<STATE, INTF: PhysicalInterface> Node<STATE, INTF> {
    /// The words of the working frame.
    pub closed spec fn words(&self) -> Seq<u16> {
        self.frame@
    }

    /// The transport.
    pub closed spec fn link(&self) -> INTF {
        self.interface
    }

    /// The way long strings are sent and taken in.
    pub closed spec fn mode(&self) -> ExtMode {
        self.ext_mode
    }

    /// The subnode that the node answers for.
    pub closed spec fn subnode(&self) -> u8 {
        self.subnode
    }

    /// The frames that came in since the endpoint was as `before`.
    pub open spec fn arrived(&self, before: Self) -> Seq<Seq<u16>> {
        self.link().received().skip(before.link().received().len() as int)
    }

    /// The working frame holds `MAX_FRAME_SIZE` words at all times.
    pub proof fn lemma_words_len(self)
        ensures
            self.words().len() == MAX_FRAME_SIZE,
    {
    }

    /// The endpoint differs from `before` in its state only.
    pub open spec fn carries<OTHER>(&self, before: Node<OTHER, INTF>) -> bool {
        &&& self.words() == before.words()
        &&& self.link() == before.link()
        &&& self.mode() == before.mode()
        &&& self.subnode() == before.subnode()
    }
}

impl<INTF: PhysicalInterface> Node<Init, INTF> {
    /// Starts the endpoint: it enters the register-access phase.
    pub fn init(self) -> (r: Node<Config, INTF>)
        ensures
            r.carries(self),
    {
        Node {
            frame: self.frame,
            subnode: self.subnode,
            _state: Config,
            interface: self.interface,
            ext_mode: self.ext_mode,
        }
    }
}

impl<INTF: PhysicalInterface> Node<Cyclic, INTF> {
    /// Goes back to the register-access phase.
    pub fn into_config(self) -> (r: Node<Config, INTF>)
        ensures
            r.carries(self),
    {
        Node {
            frame: self.frame,
            subnode: self.subnode,
            _state: Config,
            interface: self.interface,
            ext_mode: self.ext_mode,
        }
    }
}

/// Makes a node endpoint on `interface` that answers for `subnode`, with an
/// empty working frame.
pub fn create_node_mcb<INTF: PhysicalInterface>(
    interface: Option<INTF>,
    mode: ExtMode,
    subnode: u8,
) -> (r: Node<Init, INTF>)
    requires
        interface is Some,
    ensures
        r.link() == interface->0,
        r.mode() == mode,
        r.subnode() == subnode,
        r.words() == Seq::new(MAX_FRAME_SIZE as nat, |i: int| 0u16),
{
    let r = Node {
        frame: [0u16; MAX_FRAME_SIZE],
        subnode,
        _state: Init,
        interface: interface.unwrap(),
        ext_mode: mode,
    };
    assert(r.frame@ =~= Seq::new(MAX_FRAME_SIZE as nat, |i: int| 0u16));
    r
}

impl<INTF: PhysicalInterface> Node<Config, INTF> {
    /// What one answer does to the endpoint, where `staged` is the working
    /// frame with the data of the answer in it: the frame is stamped for the
    /// node's own subnode, `opcode` and `address` and sealed, its first seven
    /// words are handed to the transport, which says `taken` to them;
    /// nothing comes in and nothing is asked for.
    pub open spec fn answered(
        &self,
        before: Self,
        staged: Seq<u16>,
        address: u16,
        opcode: u16,
        taken: Result<IntfResult, IntfError>,
    ) -> bool {
        &&& self.mode() == before.mode()
        &&& self.subnode() == before.subnode()
        &&& self.words() == sealed(stamped(staged, before.subnode(), opcode, address))
        &&& self.link().sent() == before.link().sent().push(wire(self.words()))
        &&& self.link().answers() == before.link().answers().push(taken)
        &&& self.link().received() == before.link().received()
        &&& self.link().polled() == before.link().polled()
    }

    /// Sends the working frame as an answer. The result is that of the
    /// transport.
    fn write_internal(&mut self, add: u16, cmd: u16) -> (r: Result<IntfResult, IntfError>)
        ensures
            final(self).answered(*old(self), old(self).words(), add, cmd, r),
    {
        send_frame(&mut self.frame, &mut self.interface, self.subnode, cmd, add)
    }

    /// Answers with an error: the opcode is `addcmd` with the error bit set,
    /// and the first two data words carry `err`, low half first.
    pub fn error(&mut self, addcmd: u16, err: u32) -> (r: Result<IntfResult, IntfError>)
        ensures
            final(self).answered(
                *old(self),
                with_u32(old(self).words(), err),
                0,
                CFG_ERR_BIT | addcmd,
                r,
            ),
    {
        store_u32(&mut self.frame, err);
        self.write_internal(0, CFG_ERR_BIT | addcmd)
    }

    /// Acknowledges an access to `add`; the data words go out as they are.
    pub fn ack(&mut self, add: u16) -> (r: Result<IntfResult, IntfError>)
        ensures
            final(self).answered(*old(self), old(self).words(), add, CFG_STD_ACK, r),
    {
        self.write_internal(add, CFG_STD_ACK)
    }

    /// Answers an access to `add` with a byte.
    pub fn write_u8(&mut self, add: u16, data: u8) -> (r: Result<IntfResult, IntfError>)
        ensures
            final(self).answered(
                *old(self),
                with_u8(old(self).words(), data),
                add,
                CFG_STD_ACK,
                r,
            ),
    {
        store_u8(&mut self.frame, data);
        self.write_internal(add, CFG_STD_ACK)
    }

    /// Answers an access to `add` with a signed byte.
    pub fn write_i8(&mut self, add: u16, data: i8) -> (r: Result<IntfResult, IntfError>)
        ensures
            final(self).answered(
                *old(self),
                with_u8(old(self).words(), data as u8),
                add,
                CFG_STD_ACK,
                r,
            ),
    {
        self.write_u8(add, data as u8)
    }

    /// Answers an access to `add` with a word.
    pub fn write_u16(&mut self, add: u16, data: u16) -> (r: Result<IntfResult, IntfError>)
        ensures
            final(self).answered(
                *old(self),
                with_u16(old(self).words(), data),
                add,
                CFG_STD_ACK,
                r,
            ),
    {
        store_u16(&mut self.frame, data);
        self.write_internal(add, CFG_STD_ACK)
    }

    /// Answers an access to `add` with a signed word.
    pub fn write_i16(&mut self, add: u16, data: i16) -> (r: Result<IntfResult, IntfError>)
        ensures
            final(self).answered(
                *old(self),
                with_u16(old(self).words(), data as u16),
                add,
                CFG_STD_ACK,
                r,
            ),
    {
        self.write_u16(add, data as u16)
    }

    /// Answers an access to `add` with a 32-bit value.
    pub fn write_u32(&mut self, add: u16, data: u32) -> (r: Result<IntfResult, IntfError>)
        ensures
            final(self).answered(
                *old(self),
                with_u32(old(self).words(), data),
                add,
                CFG_STD_ACK,
                r,
            ),
    {
        store_u32(&mut self.frame, data);
        self.write_internal(add, CFG_STD_ACK)
    }

    /// Answers an access to `add` with a signed 32-bit value.
    pub fn write_i32(&mut self, add: u16, data: i32) -> (r: Result<IntfResult, IntfError>)
        ensures
            final(self).answered(
                *old(self),
                with_u32(old(self).words(), data as u32),
                add,
                CFG_STD_ACK,
                r,
            ),
    {
        self.write_u32(add, data as u32)
    }

    /// Answers an access to `add` with a 64-bit value.
    pub fn write_u64(&mut self, add: u16, data: u64) -> (r: Result<IntfResult, IntfError>)
        ensures
            final(self).answered(
                *old(self),
                with_u64(old(self).words(), data),
                add,
                CFG_STD_ACK,
                r,
            ),
    {
        store_u64(&mut self.frame, data);
        self.write_internal(add, CFG_STD_ACK)
    }

    /// Answers an access to `add` with a signed 64-bit value.
    pub fn write_i64(&mut self, add: u16, data: i64) -> (r: Result<IntfResult, IntfError>)
        ensures
            final(self).answered(
                *old(self),
                with_u64(old(self).words(), data as u64),
                add,
                CFG_STD_ACK,
                r,
            ),
    {
        self.write_u64(add, data as u64)
    }

    /// Answers an access to `add` with a string. One of fewer than eight bytes
    /// goes in one acknowledgement, a zero word behind its bytes; a longer one
    /// goes in segments or in one extended frame, as the endpoint was made. The
    /// result is that of the transport for the last frame.
    pub fn write_str(&mut self, add: u16, data: &str) -> (r: Result<IntfResult, IntfError>)
        requires
            old(self).mode() == ExtMode::Extended ==> STD_FRAME_WORDS + data.spec_bytes().len()
                <= MAX_FRAME_SIZE,
        ensures
            final(self).mode() == old(self).mode(),
            final(self).subnode() == old(self).subnode(),
            data.spec_bytes().len() < MAX_STD_CFG_DATA ==> final(self).answered(
                *old(self),
                with_text(old(self).words(), CFG_DATA_IDX as int, data.spec_bytes()),
                add,
                CFG_STD_ACK,
                r,
            ),
            data.spec_bytes().len() >= MAX_STD_CFG_DATA && old(self).mode() == ExtMode::Segmented
                ==> {
                &&& in_segments(
                    old(self).words(),
                    final(self).words(),
                    old(self).link(),
                    final(self).link(),
                    old(self).subnode(),
                    add,
                    CFG_EXT_ACK,
                    CFG_STD_ACK,
                    data.spec_bytes(),
                )
                &&& r == segments_answer(old(self).link(), final(self).link(), data.spec_bytes())
            },
            data.spec_bytes().len() >= MAX_STD_CFG_DATA && old(self).mode() == ExtMode::Extended
                ==> {
                &&& in_one_frame(
                    old(self).words(),
                    final(self).words(),
                    old(self).link(),
                    final(self).link(),
                    old(self).subnode(),
                    add,
                    CFG_EXT_ACK,
                    data.spec_bytes(),
                )
                &&& r == final(self).link().answers().last()
            },
    {
        let bytes = data.as_bytes();
        let size: usize = bytes.len();
        if size < MAX_STD_CFG_DATA {
            store_text(&mut self.frame, CFG_DATA_IDX, bytes, 0, size);
            proof {
                assert(bytes@.subrange(0, size as int) =~= bytes@);
            }
            return self.write_internal(add, CFG_STD_ACK);
        }
        match self.ext_mode {
            ExtMode::Segmented => send_segments(
                &mut self.frame,
                &mut self.interface,
                self.subnode,
                add,
                CFG_EXT_ACK,
                CFG_STD_ACK,
                bytes,
            ),
            ExtMode::Extended => send_extended(
                &mut self.frame,
                &mut self.interface,
                self.subnode,
                add,
                CFG_EXT_ACK,
                bytes,
            ),
        }
    }

    /// Takes in one request. The frame that comes in is tested for its
    /// checksum, its subnode and its opcode, in this order. A request of a long
    /// kind to a node made for segments is gathered: the node acknowledges what
    /// it has, waits, takes in the next segment and tests its checksum, until a
    /// segment closes the sequence.
    pub fn read(&mut self) -> (r: Result<Request, IntfError>)
        ensures
            final(self).mode() == old(self).mode(),
            final(self).subnode() == old(self).subnode(),
            final(self).link().received() == old(self).link().received() + final(self).arrived(
                *old(self),
            ),
            served(
                final(self).arrived(*old(self)),
                final(self).link().sent().len() - old(self).link().sent().len(),
                old(self).mode(),
                old(self).subnode(),
                r,
            ),
            acknowledged(
                old(self).link(),
                final(self).link(),
                final(self).link().sent().len() - old(self).link().sent().len(),
            ),
            final(self).link().sent().len() == old(self).link().sent().len() ==> {
                &&& final(self).words() == old(self).words()
                &&& final(self).link().sent() == old(self).link().sent()
            },
            final(self).link().sent().len() > old(self).link().sent().len() ==> {
                &&& final(self).words() == sealed(
                    stamped(
                        old(self).words(),
                        old(self).subnode(),
                        CFG_STD_ACK,
                        address_of(final(self).arrived(*old(self))[0][COMMAND_IDX as int]),
                    ),
                )
                &&& final(self).link().sent() == old(self).link().sent() + Seq::new(
                    (final(self).link().sent().len() - old(self).link().sent().len()) as nat,
                    |i: int| wire(final(self).words()),
                )
            },
    {
        proof {
            assert(self.link().answers().take(self.link().answers().len() as int)
                =~= self.link().answers());
            assert(self.link().polled().skip(self.link().polled().len() as int)
                =~= Seq::<Result<IntfResult, IntfError>>::empty());
            assert(self.link().polled().take(self.link().polled().len() as int)
                =~= self.link().polled());
        }
        let first = match take_frame(&mut self.interface) {
            Ok(first) => first,
            Err(e) => {
                assert(self.arrived(*old(self)) =~= Seq::<Seq<u16>>::empty());
                assert(self.link().received() =~= old(self).link().received() + self.arrived(
                    *old(self),
                ));
                return Err(e);
            },
        };
        assert(self.arrived(*old(self)) =~= seq![first@]);
        assert(self.link().received() =~= old(self).link().received() + self.arrived(*old(self)));
        let crc = self.interface.crc_checksum(vstd::array::array_as_slice(&*first));
        let command = match check_request(&*first, crc, self.subnode) {
            Ok(command) => command,
            Err(e) => {
                return Err(e);
            },
        };
        let address: u16 = first[COMMAND_IDX] >> 4;
        let subnode: u8 = (first[HEADER_IDX] & 0xF) as u8;
        let mut data: [u16; MAX_FRAME_SIZE] = *first;
        let long = match command {
            CommandType::ExtRead | CommandType::ExtWrite => true,
            _ => false,
        };
        let segmented = match self.ext_mode {
            ExtMode::Segmented => true,
            ExtMode::Extended => false,
        };
        if !(long && segmented) {
            return Ok(Request { subnode, address, command, data_value: data });
        }
        let ghost acked = sealed(stamped(old(self).words(), self.subnode(), CFG_STD_ACK, address));
        let mut got: usize = 0;
        while got < MAX_SEGMENTS - 1
            invariant
                got <= MAX_SEGMENTS - 1,
                old(self).words().len() == MAX_FRAME_SIZE,
                self.mode() == old(self).mode(),
                self.subnode() == old(self).subnode(),
                old(self).mode() == ExtMode::Segmented,
                is_long(command),
                request_verdict(first@, frame_crc(first@), old(self).subnode()) == Ok::<
                    CommandType,
                    IntfError,
                >(command),
                address == address_of(first@[COMMAND_IDX as int]),
                subnode == subnode_of(first@[HEADER_IDX as int]),
                acked == sealed(
                    stamped(old(self).words(), old(self).subnode(), CFG_STD_ACK, address),
                ),
                got == 0 ==> self.words() == old(self).words(),
                got > 0 ==> self.words() == acked,
                self.link().sent() == old(self).link().sent() + Seq::new(
                    got as nat,
                    |i: int| wire(acked),
                ),
                self.link().answers().len() == old(self).link().answers().len() + got,
                self.link().answers().take(old(self).link().answers().len() as int) == old(
                    self,
                ).link().answers(),
                forall|i: int|
                    old(self).link().answers().len() <= i < old(self).link().answers().len() + got
                        ==> (#[trigger] self.link().answers()[i]) is Ok,
                waited(old(self).link().polled(), self.link().polled(), got as nat),
                self.arrived(*old(self)).len() == got + 1,
                self.arrived(*old(self))[0] == first@,
                self.link().received() == old(self).link().received() + self.arrived(*old(self)),
                forall|i: int|
                    1 <= i <= got ==> intact(#[trigger] self.arrived(*old(self))[i])
                        && is_extended(self.arrived(*old(self))[i]),
                data@ == gathered(self.arrived(*old(self)), (got + 1) as nat),
            decreases MAX_SEGMENTS - 1 - got,
        {
            let ghost before = *self;
            let ghost came = self.arrived(*old(self));
            proof {
                crate::mcb_main::lemma_send_again(
                    old(self).words(),
                    self.subnode(),
                    CFG_STD_ACK,
                    address,
                );
            }
            let sent = self.ack(address);
            proof {
                assert(self.link().answers().take(old(self).link().answers().len() as int)
                    =~= old(self).link().answers());
                assert(self.words() == acked);
                assert(self.link().sent() =~= old(self).link().sent() + Seq::new(
                    (got + 1) as nat,
                    |i: int| wire(acked),
                ));
                assert(self.arrived(*old(self)) =~= came);
            }
            if sent.is_err() {
                return Err(IntfError::Interface);
            }
            let _ = await_data(&mut self.interface);
            proof {
                lemma_waited_again(
                    old(self).link().polled(),
                    before.link().polled(),
                    self.link().polled(),
                    got as nat,
                );
            }
            let segment = match take_frame(&mut self.interface) {
                Ok(segment) => segment,
                Err(e) => {
                    assert(self.arrived(*old(self)) =~= came);
                    return Err(e);
                },
            };
            proof {
                assert(self.arrived(*old(self)) =~= came.push(segment@));
                assert(self.link().received() =~= old(self).link().received() + self.arrived(
                    *old(self),
                ));
                lemma_gathered_prefix(came, came.push(segment@), (got + 1) as nat);
            }
            let crc = self.interface.crc_checksum(vstd::array::array_as_slice(&*segment));
            if segment[CRC_IDX] != crc {
                return Err(IntfError::Crc);
            }
            copy_segment(&mut data, CRC_IDX + 4 * got, &*segment);
            got = got + 1;
            if !has_ext_bit(&*segment) {
                return Ok(Request { subnode, address, command, data_value: data });
            }
        }
        Err(IntfError::Interface)
    }

    /// The byte that `request` carries.
    pub fn get_data_u8(&self, request: &Request) -> (value: u8)
        ensures
            value == u8_of(request.words()),
    {
        load_u8(&request.data_value)
    }

    /// The signed byte that `request` carries.
    pub fn get_data_i8(&self, request: &Request) -> (value: i8)
        ensures
            value == u8_of(request.words()) as i8,
    {
        self.get_data_u8(request) as i8
    }

    /// The word that `request` carries.
    pub fn get_data_u16(&self, request: &Request) -> (value: u16)
        ensures
            value == u16_of(request.words()),
    {
        load_u16(&request.data_value)
    }

    /// The signed word that `request` carries.
    pub fn get_data_i16(&self, request: &Request) -> (value: i16)
        ensures
            value == u16_of(request.words()) as i16,
    {
        self.get_data_u16(request) as i16
    }

    /// The 32-bit value that `request` carries.
    pub fn get_data_u32(&self, request: &Request) -> (value: u32)
        ensures
            value == u32_of(request.words()),
    {
        load_u32(&request.data_value)
    }

    /// The signed 32-bit value that `request` carries.
    pub fn get_data_i32(&self, request: &Request) -> (value: i32)
        ensures
            value == u32_of(request.words()) as i32,
    {
        self.get_data_u32(request) as i32
    }

    /// The 64-bit value that `request` carries.
    pub fn get_data_u64(&self, request: &Request) -> (value: u64)
        ensures
            value == u64_of(request.words()),
    {
        load_u64(&request.data_value)
    }

    /// The signed 64-bit value that `request` carries.
    pub fn get_data_i64(&self, request: &Request) -> (value: i64)
        ensures
            value == u64_of(request.words()) as i64,
    {
        self.get_data_u64(request) as i64
    }

    /// The string that `request` carries: read by its length from behind the
    /// checksum where the request is of a long kind and the endpoint was made
    /// for extended frames, from the gathered segments where it is of a long
    /// kind and the endpoint was made for segments, and from the four data
    /// words else.
    pub fn get_data_str(&self, request: &Request) -> (value: String)
        ensures
            value@ == (if is_long(request.command) {
                if self.mode() == ExtMode::Extended {
                    ext_text(request.words())
                } else {
                    run_text(request.words())
                }
            } else {
                std_text(request.words())
            }),
    {
        match request.command {
            CommandType::ExtRead | CommandType::ExtWrite => match self.ext_mode {
                ExtMode::Extended => ext_text_of(&request.data_value),
                ExtMode::Segmented => run_text_of(&request.data_value),
            },
            _ => std_text_of(&request.data_value),
        }
    }

    /// Asks the transport whether a frame is waiting.
    pub fn listen(&mut self) -> (r: Result<IntfResult, IntfError>)
        ensures
            final(self).words() == old(self).words(),
            final(self).mode() == old(self).mode(),
            final(self).subnode() == old(self).subnode(),
            final(self).link().sent() == old(self).link().sent(),
            final(self).link().answers() == old(self).link().answers(),
            final(self).link().received() == old(self).link().received(),
            final(self).link().polled() == old(self).link().polled().push(r),
            r matches Ok(IntfResult::Empty) ==> final(self).link().polls_left() < old(
                self,
            ).link().polls_left(),
    {
        self.interface.is_data2read()
    }

    /// Enters the cyclic phase.
    pub fn into_cyclic(self) -> (r: Node<Cyclic, INTF>)
        ensures
            r.carries(self),
    {
        Node {
            frame: self.frame,
            subnode: self.subnode,
            _state: Cyclic,
            interface: self.interface,
            ext_mode: self.ext_mode,
        }
    }
}

} // verus!
