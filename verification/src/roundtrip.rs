//! What the two endpoints make of each other's frames: a request of the main
//! is taken in by the node as what it is, an answer of the node gives the main
//! the value it carries, and an error report gives the main its code.
use vstd::prelude::*;
use crate::frame::{
    address_of, command_word, ext_text, frame_crc, is_extended, latin1, lemma_command_fields,
    lemma_ext_text_round_trip, lemma_full_window_text, lemma_latin1_joins, lemma_packed_word_bytes,
    lemma_sealed_verifies, lemma_signed_round_trip, lemma_std_text_round_trip, lemma_text_ends_at,
    lemma_unsigned_round_trip, run_text, sealed, stamped, std_text, subnode_of, u16_of, u32_of,
    u64_of, u8_of, with_text, with_u16, with_u32, with_u64, with_u8, words_to_bytes, zero_free,
    CFG_DATA_IDX, CFG_ERR_BIT, CFG_EXT_ACK, CFG_EXT_WRITE, CFG_STD_ACK, CFG_STD_WRITE, COMMAND_IDX,
    CRC_IDX, HEADER_IDX, MAX_ADDRESS, MAX_SEGMENTS, MAX_STD_CFG_DATA, STD_FRAME_WORDS,
};
use crate::mcb_main::{
    access_outcome, continues, joined_text, reply_verdict, segmented_read, write_outcome,
};
use crate::mcb_node::{
    command_kind, gathered, intact, reassembled, request_verdict, CommandType,
};
use crate::transfer::{
    extended_state, lemma_segment_frame, segment_bytes, segment_count, segment_frames,
    segment_opcode, segment_state, wire,
};
use crate::{IntfError, IntfResult, MAX_FRAME_SIZE};

verus! {

/// The working frame of a main after it asked the node of `subnode` for
/// `opcode` at `address`, where `staged` is the frame with the data in it.
pub open spec fn request_frame(staged: Seq<u16>, subnode: u8, opcode: u16, address: u16) -> Seq<
    u16,
> {
    sealed(stamped(staged, subnode, opcode, address))
}

/// The working frame of the node of `subnode` after it acknowledged an access
/// to `address`, where `staged` is the frame with the data in it.
pub open spec fn ack_frame(staged: Seq<u16>, subnode: u8, address: u16) -> Seq<u16> {
    sealed(stamped(staged, subnode, CFG_STD_ACK, address))
}

/// The working frame of the node of `subnode` after it reported the error
/// `code` for `addcmd`, where `words` is the frame before.
pub open spec fn error_frame(words: Seq<u16>, subnode: u8, addcmd: u16, code: u32) -> Seq<u16> {
    sealed(stamped(with_u32(words, code), subnode, CFG_ERR_BIT | addcmd, 0))
}

/// Tells whether `frame` is what a transport delivers after the first seven
/// words of `buffer` went out: a frame of full length that begins with them.
pub open spec fn delivered(buffer: Seq<u16>, frame: Seq<u16>) -> bool {
    &&& frame.len() == MAX_FRAME_SIZE
    &&& wire(frame) == wire(buffer)
}

/// A delivered frame has the header, the data words and the checksum of the
/// buffer that went out, and with them every value that the data words hold.
pub proof fn lemma_delivered_words(buffer: Seq<u16>, frame: Seq<u16>)
    requires
        buffer.len() > CRC_IDX,
        delivered(buffer, frame),
    ensures
        forall|i: int| 0 <= i <= CRC_IDX ==> frame[i] == buffer[i],
        frame_crc(frame) == frame_crc(buffer),
        u8_of(frame) == u8_of(buffer),
        u16_of(frame) == u16_of(buffer),
        u32_of(frame) == u32_of(buffer),
        u64_of(frame) == u64_of(buffer),
{
    assert forall|i: int| 0 <= i <= CRC_IDX implies frame[i] == buffer[i] by {
        assert(frame[i] == wire(frame)[i]);
        assert(buffer[i] == wire(buffer)[i]);
    }
    assert(frame.subrange(0, 6) =~= buffer.subrange(0, 6));
}

/// Stamping and sealing leave the four data words as they are, and with them
/// every value that they hold.
pub proof fn lemma_envelope_keeps_data(words: Seq<u16>, subnode: u8, opcode: u16, address: u16)
    requires
        words.len() > CRC_IDX,
    ensures
        u8_of(sealed(stamped(words, subnode, opcode, address))) == u8_of(words),
        u16_of(sealed(stamped(words, subnode, opcode, address))) == u16_of(words),
        u32_of(sealed(stamped(words, subnode, opcode, address))) == u32_of(words),
        u64_of(sealed(stamped(words, subnode, opcode, address))) == u64_of(words),
{
}

/// A request that the main sends to a subnode is taken in by the node of that
/// subnode as a request of the kind of its opcode, at its address, with the
/// data that the main put in.
pub proof fn lemma_request_is_served(
    staged: Seq<u16>,
    subnode: u8,
    opcode: u16,
    address: u16,
    frame: Seq<u16>,
)
    requires
        staged.len() > CRC_IDX,
        subnode <= 0xF,
        address <= MAX_ADDRESS,
        command_kind(opcode) is Some,
        delivered(request_frame(staged, subnode, opcode, address), frame),
    ensures
        request_verdict(frame, frame_crc(frame), subnode) == Ok::<CommandType, IntfError>(
            command_kind(opcode)->0,
        ),
        address_of(frame[COMMAND_IDX as int]) == address,
        subnode_of(frame[HEADER_IDX as int]) == subnode,
        u8_of(frame) == u8_of(staged),
        u16_of(frame) == u16_of(staged),
        u32_of(frame) == u32_of(staged),
        u64_of(frame) == u64_of(staged),
{
    lemma_delivered_words(request_frame(staged, subnode, opcode, address), frame);
    lemma_envelope_keeps_data(staged, subnode, opcode, address);
    lemma_sealed_verifies(stamped(staged, subnode, opcode, address));
    lemma_command_fields(opcode, address);
    let header = subnode as u16;
    assert(header & 0xF == header && (header & 0xF) as u8 == subnode) by (bit_vector)
        requires
            header == subnode as u16,
            subnode <= 0xF,
    ;
}

/// A node made for another subnode turns the request down.
pub proof fn lemma_request_to_other_subnode(
    staged: Seq<u16>,
    subnode: u8,
    other: u8,
    opcode: u16,
    address: u16,
    frame: Seq<u16>,
)
    requires
        staged.len() > CRC_IDX,
        subnode <= 0xF,
        other != subnode,
        delivered(request_frame(staged, subnode, opcode, address), frame),
    ensures
        request_verdict(frame, frame_crc(frame), other) == Err::<CommandType, IntfError>(
            IntfError::WrongSubnode,
        ),
{
    lemma_delivered_words(request_frame(staged, subnode, opcode, address), frame);
    lemma_sealed_verifies(stamped(staged, subnode, opcode, address));
    let header = subnode as u16;
    let mine = other as u16;
    assert(header & 0xF != mine) by (bit_vector)
        requires
            header == subnode as u16,
            mine == other as u16,
            subnode <= 0xF,
            other != subnode,
    ;
}

/// What it is for a frame to carry a write of its data to `address`, as the
/// node of `subnode` takes it in.
pub open spec fn is_write_to(frame: Seq<u16>, subnode: u8, address: u16) -> bool {
    &&& request_verdict(frame, frame_crc(frame), subnode) == Ok::<CommandType, IntfError>(
        CommandType::Write,
    )
    &&& address_of(frame[COMMAND_IDX as int]) == address
}

/// What the main writes, the node reads: the request of each typed write, as
/// the transport delivers it, is taken in as a write at its address, and it
/// carries the value written.
pub proof fn lemma_write_round_trip(
    words: Seq<u16>,
    subnode: u8,
    address: u16,
    a: u8,
    b: u16,
    c: u32,
    d: u64,
    with_a: Seq<u16>,
    with_b: Seq<u16>,
    with_c: Seq<u16>,
    with_d: Seq<u16>,
)
    requires
        words.len() > CRC_IDX,
        subnode <= 0xF,
        address <= MAX_ADDRESS,
        delivered(request_frame(with_u8(words, a), subnode, CFG_STD_WRITE, address), with_a),
        delivered(request_frame(with_u16(words, b), subnode, CFG_STD_WRITE, address), with_b),
        delivered(request_frame(with_u32(words, c), subnode, CFG_STD_WRITE, address), with_c),
        delivered(request_frame(with_u64(words, d), subnode, CFG_STD_WRITE, address), with_d),
    ensures
        is_write_to(with_a, subnode, address) && u8_of(with_a) == a,
        is_write_to(with_b, subnode, address) && u16_of(with_b) == b,
        is_write_to(with_c, subnode, address) && u32_of(with_c) == c,
        is_write_to(with_d, subnode, address) && u64_of(with_d) == d,
{
    lemma_unsigned_round_trip(words, a, b, c, d);
    lemma_request_is_served(with_u8(words, a), subnode, CFG_STD_WRITE, address, with_a);
    lemma_request_is_served(with_u16(words, b), subnode, CFG_STD_WRITE, address, with_b);
    lemma_request_is_served(with_u32(words, c), subnode, CFG_STD_WRITE, address, with_c);
    lemma_request_is_served(with_u64(words, d), subnode, CFG_STD_WRITE, address, with_d);
}

/// The same for the signed types, which travel as their unsigned images.
pub proof fn lemma_signed_write_round_trip(
    words: Seq<u16>,
    subnode: u8,
    address: u16,
    a: i8,
    b: i16,
    c: i32,
    d: i64,
    with_a: Seq<u16>,
    with_b: Seq<u16>,
    with_c: Seq<u16>,
    with_d: Seq<u16>,
)
    requires
        words.len() > CRC_IDX,
        subnode <= 0xF,
        address <= MAX_ADDRESS,
        delivered(request_frame(with_u8(words, a as u8), subnode, CFG_STD_WRITE, address), with_a),
        delivered(
            request_frame(with_u16(words, b as u16), subnode, CFG_STD_WRITE, address),
            with_b,
        ),
        delivered(
            request_frame(with_u32(words, c as u32), subnode, CFG_STD_WRITE, address),
            with_c,
        ),
        delivered(
            request_frame(with_u64(words, d as u64), subnode, CFG_STD_WRITE, address),
            with_d,
        ),
    ensures
        is_write_to(with_a, subnode, address) && u8_of(with_a) as i8 == a,
        is_write_to(with_b, subnode, address) && u16_of(with_b) as i16 == b,
        is_write_to(with_c, subnode, address) && u32_of(with_c) as i32 == c,
        is_write_to(with_d, subnode, address) && u64_of(with_d) as i64 == d,
{
    lemma_signed_round_trip(words, a, b, c, d);
    lemma_request_is_served(with_u8(words, a as u8), subnode, CFG_STD_WRITE, address, with_a);
    lemma_request_is_served(with_u16(words, b as u16), subnode, CFG_STD_WRITE, address, with_b);
    lemma_request_is_served(with_u32(words, c as u32), subnode, CFG_STD_WRITE, address, with_c);
    lemma_request_is_served(with_u64(words, d as u64), subnode, CFG_STD_WRITE, address, with_d);
}

/// An acknowledgement of the node of `subnode` for `address`, as the
/// transport delivers it, is what the main waits for after an access to that
/// address of that subnode: the access gives the frame with the data that the
/// node put in, and a write succeeds.
pub proof fn lemma_ack_is_accepted(staged: Seq<u16>, subnode: u8, address: u16, frame: Seq<u16>)
    requires
        staged.len() > CRC_IDX,
        subnode <= 0xF,
        address <= MAX_ADDRESS,
        delivered(ack_frame(staged, subnode, address), frame),
    ensures
        reply_verdict(frame, frame_crc(frame), subnode, address) == Ok::<(), IntfError>(()),
        access_outcome(seq![frame], subnode, address) == Ok::<Seq<u16>, IntfError>(frame),
        write_outcome(seq![frame], subnode, address) == Ok::<IntfResult, IntfError>(
            IntfResult::Success,
        ),
        u8_of(frame) == u8_of(staged),
        u16_of(frame) == u16_of(staged),
        u32_of(frame) == u32_of(staged),
        u64_of(frame) == u64_of(staged),
{
    lemma_delivered_words(ack_frame(staged, subnode, address), frame);
    lemma_envelope_keeps_data(staged, subnode, CFG_STD_ACK, address);
    lemma_sealed_verifies(stamped(staged, subnode, CFG_STD_ACK, address));
    let header = subnode as u16;
    assert(header & 0xF == header) by (bit_vector)
        requires
            header == subnode as u16,
            subnode <= 0xF,
    ;
    let command = command_word(CFG_STD_ACK, address);
    assert(command & 0xFFFE == command) by (bit_vector)
        requires
            command == 0x0006u16 | (address << 4),
    ;
    assert(seq![frame][0] == frame);
}

/// What it is for a frame to give an access to `address` of `subnode` its
/// answer.
pub open spec fn answers_to(frame: Seq<u16>, subnode: u8, address: u16) -> bool {
    access_outcome(seq![frame], subnode, address) == Ok::<Seq<u16>, IntfError>(frame)
}

/// What the node answers, the main reads: the acknowledgement of each typed
/// answer, as the transport delivers it, is accepted by the main that asked,
/// and it carries the value answered.
pub proof fn lemma_read_round_trip(
    words: Seq<u16>,
    subnode: u8,
    address: u16,
    a: u8,
    b: u16,
    c: u32,
    d: u64,
    with_a: Seq<u16>,
    with_b: Seq<u16>,
    with_c: Seq<u16>,
    with_d: Seq<u16>,
)
    requires
        words.len() > CRC_IDX,
        subnode <= 0xF,
        address <= MAX_ADDRESS,
        delivered(ack_frame(with_u8(words, a), subnode, address), with_a),
        delivered(ack_frame(with_u16(words, b), subnode, address), with_b),
        delivered(ack_frame(with_u32(words, c), subnode, address), with_c),
        delivered(ack_frame(with_u64(words, d), subnode, address), with_d),
    ensures
        answers_to(with_a, subnode, address) && u8_of(with_a) == a,
        answers_to(with_b, subnode, address) && u16_of(with_b) == b,
        answers_to(with_c, subnode, address) && u32_of(with_c) == c,
        answers_to(with_d, subnode, address) && u64_of(with_d) == d,
{
    lemma_unsigned_round_trip(words, a, b, c, d);
    lemma_ack_is_accepted(with_u8(words, a), subnode, address, with_a);
    lemma_ack_is_accepted(with_u16(words, b), subnode, address, with_b);
    lemma_ack_is_accepted(with_u32(words, c), subnode, address, with_c);
    lemma_ack_is_accepted(with_u64(words, d), subnode, address, with_d);
}

/// The same for the signed types, which travel as their unsigned images.
pub proof fn lemma_signed_read_round_trip(
    words: Seq<u16>,
    subnode: u8,
    address: u16,
    a: i8,
    b: i16,
    c: i32,
    d: i64,
    with_a: Seq<u16>,
    with_b: Seq<u16>,
    with_c: Seq<u16>,
    with_d: Seq<u16>,
)
    requires
        words.len() > CRC_IDX,
        subnode <= 0xF,
        address <= MAX_ADDRESS,
        delivered(ack_frame(with_u8(words, a as u8), subnode, address), with_a),
        delivered(ack_frame(with_u16(words, b as u16), subnode, address), with_b),
        delivered(ack_frame(with_u32(words, c as u32), subnode, address), with_c),
        delivered(ack_frame(with_u64(words, d as u64), subnode, address), with_d),
    ensures
        answers_to(with_a, subnode, address) && u8_of(with_a) as i8 == a,
        answers_to(with_b, subnode, address) && u16_of(with_b) as i16 == b,
        answers_to(with_c, subnode, address) && u32_of(with_c) as i32 == c,
        answers_to(with_d, subnode, address) && u64_of(with_d) as i64 == d,
{
    lemma_signed_round_trip(words, a, b, c, d);
    lemma_ack_is_accepted(with_u8(words, a as u8), subnode, address, with_a);
    lemma_ack_is_accepted(with_u16(words, b as u16), subnode, address, with_b);
    lemma_ack_is_accepted(with_u32(words, c as u32), subnode, address, with_c);
    lemma_ack_is_accepted(with_u64(words, d as u64), subnode, address, with_d);
}

/// An error report of the node of `subnode`, as the transport delivers it,
/// fails the access that it answers, whatever its address, with the code that
/// it carries.
pub proof fn lemma_error_is_reported(
    words: Seq<u16>,
    subnode: u8,
    addcmd: u16,
    code: u32,
    address: u16,
    frame: Seq<u16>,
)
    requires
        words.len() > CRC_IDX,
        subnode <= 0xF,
        address <= MAX_ADDRESS,
        delivered(error_frame(words, subnode, addcmd, code), frame),
    ensures
        access_outcome(seq![frame], subnode, address) == Err::<Seq<u16>, IntfError>(
            IntfError::Access(code),
        ),
        write_outcome(seq![frame], subnode, address) == Err::<IntfResult, IntfError>(
            IntfError::Access(code),
        ),
{
    let staged = with_u32(words, code);
    lemma_delivered_words(error_frame(words, subnode, addcmd, code), frame);
    lemma_sealed_verifies(stamped(staged, subnode, CFG_ERR_BIT | addcmd, 0));
    lemma_unsigned_round_trip(words, 0, 0, code, 0);
    lemma_envelope_keeps_data(staged, subnode, CFG_ERR_BIT | addcmd, 0);
    let header = subnode as u16;
    assert(header & 0xF == header) by (bit_vector)
        requires
            header == subnode as u16,
            subnode <= 0xF,
    ;
    assert((((0x0008u16 | addcmd) | (0u16 << 4)) & 0xFFFE) != (0x0006u16 | (address << 4)))
        by (bit_vector);
    assert(seq![frame][0] == frame);
}

/// An answer of the node of another subnode, as the transport delivers it,
/// fails the access with the code zero.
pub proof fn lemma_answer_of_other_subnode(
    staged: Seq<u16>,
    subnode: u8,
    other: u8,
    opcode: u16,
    address: u16,
    asked: u16,
    frame: Seq<u16>,
)
    requires
        staged.len() > CRC_IDX,
        other <= 0xF,
        other != subnode,
        asked <= MAX_ADDRESS,
        delivered(sealed(stamped(staged, other, opcode, address)), frame),
    ensures
        access_outcome(seq![frame], subnode, asked) == Err::<Seq<u16>, IntfError>(
            IntfError::Access(0),
        ),
{
    lemma_delivered_words(sealed(stamped(staged, other, opcode, address)), frame);
    lemma_sealed_verifies(stamped(staged, other, opcode, address));
    let header = other as u16;
    let wanted = subnode as u16;
    assert(header & 0xF != wanted) by (bit_vector)
        requires
            header == other as u16,
            wanted == subnode as u16,
            other <= 0xF,
            other != subnode,
    ;
    assert(seq![frame][0] == frame);
}

/// Tells whether the frames `arrived` are the word runs `frames` as a
/// transport delivers them: each in a frame of full length that begins with
/// the words that went out.
pub open spec fn carried(frames: Seq<Seq<u16>>, arrived: Seq<Seq<u16>>) -> bool {
    &&& arrived.len() == frames.len()
    &&& forall|k: int|
        0 <= k < frames.len() ==> (#[trigger] arrived[k]).len() == MAX_FRAME_SIZE
            && arrived[k].subrange(0, frames[k].len() as int) == frames[k]
}

/// What the main makes of the `k`-th segment of a string that the node of
/// `subnode` sent in answer to an access to `address`: an answer, which says
/// that more follow unless it is the last, and which carries the bytes of the
/// segment.
pub proof fn lemma_segment_is_accepted(
    words: Seq<u16>,
    subnode: u8,
    address: u16,
    bytes: Seq<u8>,
    arrived: Seq<Seq<u16>>,
    k: int,
)
    requires
        words.len() == MAX_FRAME_SIZE,
        subnode <= 0xF,
        address <= MAX_ADDRESS,
        zero_free(bytes),
        carried(
            segment_frames(words, subnode, address, CFG_EXT_ACK, CFG_STD_ACK, bytes),
            arrived,
        ),
        0 <= k < segment_count(bytes.len() as int),
    ensures
        reply_verdict(arrived[k], frame_crc(arrived[k]), subnode, address) == Ok::<(), IntfError>(
            (),
        ),
        is_extended(arrived[k]) == (k < segment_count(bytes.len() as int) - 1),
        std_text(arrived[k]) == latin1(segment_bytes(bytes, k)),
{
    let frames = segment_frames(words, subnode, address, CFG_EXT_ACK, CFG_STD_ACK, bytes);
    let frame = frames[k];
    let got = arrived[k];
    lemma_segment_frame(words, subnode, address, CFG_EXT_ACK, CFG_STD_ACK, bytes, k);
    assert(got.subrange(0, frame.len() as int) == frame);
    assert(forall|i: int| 0 <= i < 7 ==> got[i] == got.subrange(0, 7)[i]);
    assert(got.subrange(0, 6) =~= frame.subrange(0, 6));
    assert(got.subrange(2, 6) =~= frame.subrange(2, 6));
    let header = subnode as u16;
    assert(header & 0xF == header) by (bit_vector)
        requires
            header == subnode as u16,
            subnode <= 0xF,
    ;
    let command = got[1];
    let before = segment_state(
        words,
        subnode,
        address,
        CFG_EXT_ACK,
        CFG_STD_ACK,
        bytes,
        k as nat,
    );
    let chunk = segment_bytes(bytes, k);
    if k < segment_count(bytes.len() as int) - 1 {
        assert(command & 0xFFFE == 0x0006u16 | (address << 4) && command & 0x0001 == 0x0001)
            by (bit_vector)
            requires
                command == 0x0007u16 | (address << 4),
        ;
        lemma_full_window_text(before, got, chunk);
    } else {
        assert(command & 0xFFFE == 0x0006u16 | (address << 4) && command & 0x0001 != 0x0001)
            by (bit_vector)
            requires
                command == 0x0006u16 | (address << 4),
        ;
        lemma_std_text_round_trip(before, got, chunk);
    }
}

/// The strings of the first `n` segments of a string, joined, are its first
/// bytes.
pub proof fn lemma_segments_join(
    words: Seq<u16>,
    subnode: u8,
    address: u16,
    bytes: Seq<u8>,
    arrived: Seq<Seq<u16>>,
    n: nat,
)
    requires
        words.len() == MAX_FRAME_SIZE,
        subnode <= 0xF,
        address <= MAX_ADDRESS,
        zero_free(bytes),
        carried(
            segment_frames(words, subnode, address, CFG_EXT_ACK, CFG_STD_ACK, bytes),
            arrived,
        ),
        n <= segment_count(bytes.len() as int),
    ensures
        joined_text(arrived, n) == latin1(
            bytes.take(
                if n == segment_count(bytes.len() as int) {
                    bytes.len() as int
                } else {
                    8 * (n as int)
                },
            ),
        ),
    decreases n,
{
    if n == 0 {
        assert(joined_text(arrived, 0) =~= latin1(bytes.take(0)));
    } else {
        lemma_segments_join(words, subnode, address, bytes, arrived, (n - 1) as nat);
        lemma_segment_is_accepted(words, subnode, address, bytes, arrived, n - 1);
        let head = bytes.take(8 * (n - 1));
        let chunk = segment_bytes(bytes, n - 1);
        lemma_latin1_joins(head, chunk);
        let upto = if n == segment_count(bytes.len() as int) {
            bytes.len() as int
        } else {
            8 * (n as int)
        };
        assert(head + chunk =~= bytes.take(upto));
    }
}

/// What the node writes in segments, the main reads: where the node of
/// `subnode` answers an access to `address` with a string without a zero byte,
/// and the main takes in its segments, its read in segments gives the string.
pub proof fn lemma_segments_reach_main(
    words: Seq<u16>,
    subnode: u8,
    address: u16,
    bytes: Seq<u8>,
    arrived: Seq<Seq<u16>>,
)
    requires
        words.len() == MAX_FRAME_SIZE,
        subnode <= 0xF,
        address <= MAX_ADDRESS,
        zero_free(bytes),
        carried(
            segment_frames(words, subnode, address, CFG_EXT_ACK, CFG_STD_ACK, bytes),
            arrived,
        ),
    ensures
        segmented_read(
            arrived,
            segment_count(bytes.len() as int),
            subnode,
            address,
            Ok(latin1(bytes)),
        ),
{
    let count = segment_count(bytes.len() as int);
    assert forall|i: int| 0 <= i < count - 1 implies continues(
        #[trigger] arrived[i],
        subnode,
        address,
    ) by {
        lemma_segment_is_accepted(words, subnode, address, bytes, arrived, i);
    }
    lemma_segment_is_accepted(words, subnode, address, bytes, arrived, count - 1);
    lemma_segments_join(words, subnode, address, bytes, arrived, count as nat);
    assert(bytes.take(bytes.len() as int) =~= bytes);
}

/// The words that the first `n` frames leave in the buffer: the data words of
/// the `k`-th stand four words behind those of the one before it.
pub proof fn lemma_gathered_window(arrived: Seq<Seq<u16>>, n: nat, k: int)
    requires
        1 <= n <= MAX_SEGMENTS,
        n <= arrived.len(),
        forall|i: int| 0 <= i < n ==> (#[trigger] arrived[i]).len() == MAX_FRAME_SIZE,
        0 <= k < n,
    ensures
        gathered(arrived, n).len() == MAX_FRAME_SIZE,
        gathered(arrived, n).subrange(2 + 4 * k, 6 + 4 * k) == arrived[k].subrange(2, 6),
    decreases n,
{
    if n > 1 {
        lemma_gathered_window(arrived, (n - 1) as nat, if k < n - 1 {
            k
        } else {
            0
        });
        assert(gathered(arrived, n).subrange(2 + 4 * k, 6 + 4 * k) =~= arrived[k].subrange(2, 6));
    } else {
        assert(gathered(arrived, n).subrange(2, 6) =~= arrived[0].subrange(2, 6));
    }
}

/// What the main writes in segments, the node reads: where the main writes a
/// string of eight bytes or more without a zero byte to `address` of `subnode`
/// in no more segments than the node has room for, and the node takes in these
/// segments, the first is a long write to that address, the others complete
/// it, and the string of the gathered request is the string written.
pub proof fn lemma_segments_reach_node(
    words: Seq<u16>,
    subnode: u8,
    address: u16,
    bytes: Seq<u8>,
    arrived: Seq<Seq<u16>>,
)
    requires
        words.len() == MAX_FRAME_SIZE,
        subnode <= 0xF,
        address <= MAX_ADDRESS,
        zero_free(bytes),
        bytes.len() >= MAX_STD_CFG_DATA,
        segment_count(bytes.len() as int) <= MAX_SEGMENTS,
        carried(
            segment_frames(words, subnode, address, CFG_EXT_WRITE, CFG_STD_WRITE, bytes),
            arrived,
        ),
    ensures
        request_verdict(arrived[0], frame_crc(arrived[0]), subnode) == Ok::<
            CommandType,
            IntfError,
        >(CommandType::ExtWrite),
        address_of(arrived[0][COMMAND_IDX as int]) == address,
        reassembled(
            arrived,
            segment_count(bytes.len() as int) - 1,
            Ok(gathered(arrived, segment_count(bytes.len() as int) as nat)),
        ),
        run_text(gathered(arrived, segment_count(bytes.len() as int) as nat)) == latin1(bytes),
{
    let count = segment_count(bytes.len() as int);
    let frames = segment_frames(words, subnode, address, CFG_EXT_WRITE, CFG_STD_WRITE, bytes);
    let total = gathered(arrived, count as nat);
    let len = bytes.len() as int;
    assert forall|k: int| 0 <= k < count implies intact(#[trigger] arrived[k]) && is_extended(
        arrived[k],
    ) == (k < count - 1) && arrived[k][0] == subnode as u16 && arrived[k][1] == command_word(
        segment_opcode(len, k, CFG_EXT_WRITE, CFG_STD_WRITE),
        address,
    ) by {
        lemma_segment_frame(words, subnode, address, CFG_EXT_WRITE, CFG_STD_WRITE, bytes, k);
        let got = arrived[k];
        assert(got.subrange(0, frames[k].len() as int) == frames[k]);
        assert(forall|i: int| 0 <= i < 7 ==> got[i] == got.subrange(0, 7)[i]);
        assert(got.subrange(0, 6) =~= frames[k].subrange(0, 6));
        let command = got[1];
        if k < count - 1 {
            assert(command & 0x0001 == 0x0001) by (bit_vector)
                requires
                    command == 0x0005u16 | (address << 4),
            ;
        } else {
            assert(command & 0x0001 != 0x0001) by (bit_vector)
                requires
                    command == 0x0004u16 | (address << 4),
            ;
        }
    }
    assert(is_extended(arrived[0]));
    lemma_command_fields(CFG_EXT_WRITE, address);
    let header = subnode as u16;
    assert(header & 0xF == header) by (bit_vector)
        requires
            header == subnode as u16,
            subnode <= 0xF,
    ;
    // the bytes of the gathered buffer
    let read = words_to_bytes(total.subrange(CFG_DATA_IDX as int, total.len() as int));
    lemma_gathered_window(arrived, count as nat, 0);
    assert forall|i: int| 0 <= i < len implies read[i] == bytes[i] by {
        let k = i / 8;
        let j = i - 8 * k;
        lemma_gathered_window(arrived, count as nat, k);
        lemma_segment_frame(words, subnode, address, CFG_EXT_WRITE, CFG_STD_WRITE, bytes, k);
        let chunk = segment_bytes(bytes, k);
        let got = arrived[k];
        assert(got.subrange(0, frames[k].len() as int) == frames[k]);
        assert(got.subrange(2, 6) =~= frames[k].subrange(2, 6));
        lemma_packed_word_bytes(chunk, j / 2);
        assert(total[2 + i / 2] == total.subrange(2 + 4 * k, 6 + 4 * k)[j / 2]);
        assert(got[2 + j / 2] == got.subrange(2, 6)[j / 2]);
    }
    assert(read[len] == 0) by {
        let k = count - 1;
        let j = len - 8 * k;
        lemma_gathered_window(arrived, count as nat, k);
        lemma_segment_frame(words, subnode, address, CFG_EXT_WRITE, CFG_STD_WRITE, bytes, k);
        let chunk = segment_bytes(bytes, k);
        let got = arrived[k];
        assert(got.subrange(0, frames[k].len() as int) == frames[k]);
        assert(got.subrange(2, 6) =~= frames[k].subrange(2, 6));
        assert(total[2 + len / 2] == total.subrange(2 + 4 * k, 6 + 4 * k)[j / 2]);
        assert(got[2 + j / 2] == got.subrange(2, 6)[j / 2]);
        if j % 2 == 1 {
            lemma_packed_word_bytes(chunk, j / 2);
        } else {
            assert(0u16 & 0xFF == 0u16) by (bit_vector);
        }
    }
    lemma_text_ends_at(read, len);
    assert(read.take(len) =~= bytes);
}

/// A short string that one endpoint writes, the other reads: a string of fewer
/// than eight bytes without a zero byte is read again from the frame that
/// the transport delivers.
pub proof fn lemma_short_string_round_trip(
    words: Seq<u16>,
    subnode: u8,
    opcode: u16,
    address: u16,
    bytes: Seq<u8>,
    frame: Seq<u16>,
)
    requires
        words.len() > CRC_IDX,
        bytes.len() < MAX_STD_CFG_DATA,
        zero_free(bytes),
        delivered(
            sealed(stamped(with_text(words, CFG_DATA_IDX as int, bytes), subnode, opcode, address)),
            frame,
        ),
    ensures
        std_text(frame) == latin1(bytes),
{
    let staged = with_text(words, CFG_DATA_IDX as int, bytes);
    let buffer = sealed(stamped(staged, subnode, opcode, address));
    lemma_delivered_words(buffer, frame);
    assert(frame.subrange(CFG_DATA_IDX as int, CRC_IDX as int) =~= staged.subrange(
        CFG_DATA_IDX as int,
        CRC_IDX as int,
    ));
    lemma_std_text_round_trip(words, frame, bytes);
}

/// A long string that one endpoint writes in an extended frame, the other
/// reads: any frame that begins with the words that went out carries its
/// checksum, has an extended opcode where it was sent with one, and gives the
/// string, whatever bytes the string holds.
pub proof fn lemma_extended_string_round_trip(
    words: Seq<u16>,
    subnode: u8,
    address: u16,
    opcode: u16,
    bytes: Seq<u8>,
    frame: Seq<u16>,
)
    requires
        words.len() == MAX_FRAME_SIZE,
        frame.len() == MAX_FRAME_SIZE,
        STD_FRAME_WORDS + bytes.len() <= MAX_FRAME_SIZE,
        frame.subrange(0, STD_FRAME_WORDS + bytes.len()) == extended_state(
            words,
            subnode,
            address,
            opcode,
            bytes,
        ).subrange(0, STD_FRAME_WORDS + bytes.len()),
    ensures
        intact(frame),
        frame[HEADER_IDX as int] == subnode as u16,
        frame[COMMAND_IDX as int] == command_word(opcode, address),
        ext_text(frame) == latin1(bytes),
{
    let n = bytes.len() as int;
    let staged = with_u16(words, bytes.len() as u16);
    let header = sealed(stamped(staged, subnode, opcode, address));
    let state = extended_state(words, subnode, address, opcode, bytes);
    lemma_sealed_verifies(stamped(staged, subnode, opcode, address));
    assert forall|i: int| 0 <= i < 7 + n implies frame[i] == state[i] by {
        assert(frame[i] == frame.subrange(0, 7 + n)[i]);
        assert(state[i] == state.subrange(0, 7 + n)[i]);
    }
    assert(frame.subrange(0, 6) =~= header.subrange(0, 6));
    assert(frame.subrange(2, 3) =~= with_u16(header, bytes.len() as u16).subrange(2, 3));
    assert(frame.subrange(7, 7 + n) =~= with_text(header, 7, bytes).subrange(7, 7 + n));
    lemma_ext_text_round_trip(header, frame, bytes);
}

} // verus!
