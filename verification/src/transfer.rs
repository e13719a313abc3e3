//! The steps that both endpoints take on the transport: seal and send a
//! frame, wait for one, take one in, and send a long string in segments or in
//! one extended frame.
use vstd::prelude::*;
use vstd::array::array_as_slice;
use vstd::slice::slice_subrange;
use crate::frame::{
    is_extended, sealed, stamp, stamped, store_bytes, store_text, store_u16, with_bytes,
    with_text, with_u16, CFG_DATA_IDX, CRC_IDX, EXT_DATA_IDX, HEADER_WORDS, MAX_STD_CFG_DATA, STD_FRAME_WORDS,
};
use crate::{IntfError, IntfResult, PhysicalInterface, MAX_FRAME_SIZE};

verus! {

/// The words of a standard frame that go on the wire.
pub open spec fn wire(words: Seq<u16>) -> Seq<u16> {
    words.subrange(0, STD_FRAME_WORDS as int)
}

/// Puts the checksum that `link` computes over the first six words of `raw`
/// into the seventh.
pub fn seal<INTF: PhysicalInterface>(raw: &mut [u16; MAX_FRAME_SIZE], link: &mut INTF)
    ensures
        final(raw)@ == sealed(old(raw)@),
        final(link).sent() == old(link).sent(),
        final(link).answers() == old(link).answers(),
        final(link).received() == old(link).received(),
        final(link).polled() == old(link).polled(),
        final(link).segments_left() == old(link).segments_left(),
{
    let crc = link.crc_checksum(slice_subrange(array_as_slice(raw), 0, HEADER_WORDS));
    proof {
        assert(raw@.subrange(0, HEADER_WORDS as int).subrange(0, HEADER_WORDS as int)
            =~= raw@.subrange(0, HEADER_WORDS as int));
    }
    raw[CRC_IDX] = crc;
}

/// Stamps `raw` for `subnode`, `opcode` and `address`, seals it and hands its
/// first seven words to `link`. The answer is that of the transport.
pub fn send_frame<INTF: PhysicalInterface>(
    raw: &mut [u16; MAX_FRAME_SIZE],
    link: &mut INTF,
    subnode: u8,
    opcode: u16,
    address: u16,
) -> (r: Result<IntfResult, IntfError>)
    ensures
        final(raw)@ == sealed(stamped(old(raw)@, subnode, opcode, address)),
        final(link).sent() == old(link).sent().push(wire(final(raw)@)),
        final(link).answers() == old(link).answers().push(r),
        final(link).received() == old(link).received(),
        final(link).polled() == old(link).polled(),
        final(link).segments_left() == old(link).segments_left(),
{
    stamp(raw, subnode, opcode, address);
    seal(raw, link);
    link.raw_write(slice_subrange(array_as_slice(raw), 0, STD_FRAME_WORDS))
}

/// Asks `link` whether a frame is waiting until it answers anything but
/// `Empty`, and returns that answer.
pub fn await_data<INTF: PhysicalInterface>(link: &mut INTF) -> (r: Result<IntfResult, IntfError>)
    ensures
        !(r matches Ok(IntfResult::Empty)),
        polled_through(old(link).polled(), final(link).polled(), r),
        final(link).sent() == old(link).sent(),
        final(link).answers() == old(link).answers(),
        final(link).received() == old(link).received(),
        final(link).segments_left() == old(link).segments_left(),
{
    let mut ready = link.is_data2read();
    proof {
        assert(link.polled() =~= old(link).polled() + empties(0).push(ready));
    }
    while matches!(ready, Ok(IntfResult::Empty))
        invariant
            link.sent() == old(link).sent(),
            link.answers() == old(link).answers(),
            link.received() == old(link).received(),
            link.segments_left() == old(link).segments_left(),
            polled_through(old(link).polled(), link.polled(), ready),
        decreases
            (if ready matches Ok(IntfResult::Empty) {
                link.polls_left() + 1
            } else {
                0
            }),
    {
        let ghost waits = link.polled().len() - old(link).polled().len() - 1;
        ready = link.is_data2read();
        proof {
            assert(link.polled() =~= old(link).polled() + empties(waits + 1).push(ready));
        }
    }
    ready
}

/// Tells whether the answer says that the transport took what it was handed.
pub open spec fn is_success(answer: Result<IntfResult, IntfError>) -> bool {
    answer matches Ok(IntfResult::Success)
}

/// A run of `n` answers `Empty`.
pub open spec fn empties(n: int) -> Seq<Result<IntfResult, IntfError>> {
    Seq::new(n as nat, |i: int| Ok::<IntfResult, IntfError>(IntfResult::Empty))
}

/// What a wait that ended with the answer `last` does to the record of the
/// transport's answers to `is_data2read`: the record grows by the answers
/// `Empty` that were polled through, and then by `last`.
pub open spec fn polled_through(
    before: Seq<Result<IntfResult, IntfError>>,
    after: Seq<Result<IntfResult, IntfError>>,
    last: Result<IntfResult, IntfError>,
) -> bool {
    let waits = after.len() - before.len() - 1;
    &&& waits >= 0
    &&& after == before + empties(waits).push(last)
}

/// What one wait does to the record, whatever answer ended it: the record
/// grows by answers `Empty` and then by one that is not `Empty`.
pub open spec fn waited_once(
    before: Seq<Result<IntfResult, IntfError>>,
    after: Seq<Result<IntfResult, IntfError>>,
) -> bool {
    &&& after.len() > before.len()
    &&& polled_through(before, after, after.last())
    &&& !(after.last() matches Ok(IntfResult::Empty))
}

/// Number of answers in `record` that are not `Empty`: each of them ended a
/// wait.
pub open spec fn found(record: Seq<Result<IntfResult, IntfError>>) -> nat
    decreases record.len(),
{
    if record.len() == 0 {
        0
    } else {
        found(record.drop_last()) + (if record.last() matches Ok(IntfResult::Empty) {
            0nat
        } else {
            1nat
        })
    }
}

/// What `n` waits, one behind the other, do to the record: it grows by `n`
/// runs of answers `Empty`, each with an answer behind it that is not `Empty`.
pub open spec fn waited(
    before: Seq<Result<IntfResult, IntfError>>,
    after: Seq<Result<IntfResult, IntfError>>,
    n: nat,
) -> bool {
    &&& before.len() <= after.len()
    &&& after.take(before.len() as int) == before
    &&& found(after.skip(before.len() as int)) == n
    &&& after.len() > before.len() ==> !(after.last() matches Ok(IntfResult::Empty))
}

/// The answers found in two records, one behind the other, are those found
/// in each.
pub proof fn lemma_found_joins(
    a: Seq<Result<IntfResult, IntfError>>,
    b: Seq<Result<IntfResult, IntfError>>,
)
    ensures
        found(a + b) == found(a) + found(b),
    decreases b.len(),
{
    if b.len() == 0 {
        assert(a + b =~= a);
    } else {
        lemma_found_joins(a, b.drop_last());
        assert((a + b).drop_last() =~= a + b.drop_last());
        assert((a + b).last() == b.last());
    }
}

/// A run of answers `Empty` holds no answer that ended a wait.
pub proof fn lemma_found_in_empties(n: int)
    requires
        n >= 0,
    ensures
        found(empties(n)) == 0,
    decreases n,
{
    if n > 0 {
        lemma_found_in_empties(n - 1);
        assert(empties(n).drop_last() =~= empties(n - 1));
    }
}

/// One more wait behind `n` waits makes `n + 1`.
pub proof fn lemma_waited_again(
    before: Seq<Result<IntfResult, IntfError>>,
    between: Seq<Result<IntfResult, IntfError>>,
    after: Seq<Result<IntfResult, IntfError>>,
    n: nat,
)
    requires
        waited(before, between, n),
        waited_once(between, after),
    ensures
        waited(before, after, n + 1),
{
    let waits = after.len() - between.len() - 1;
    let run = empties(waits).push(after.last());
    let grown = between.skip(before.len() as int);
    lemma_found_in_empties(waits);
    assert(run.drop_last() =~= empties(waits));
    assert(found(run) == 1);
    lemma_found_joins(grown, run);
    assert(after.skip(before.len() as int) =~= grown + run);
    assert(after.take(before.len() as int) =~= between.take(before.len() as int));
}

/// Reads one frame from `link`; anything but a frame is a failure of the
/// transport.
pub fn take_frame<INTF: PhysicalInterface>(link: &mut INTF) -> (r: Result<
    Box<[u16; MAX_FRAME_SIZE]>,
    IntfError,
>)
    ensures
        final(link).sent() == old(link).sent(),
        final(link).answers() == old(link).answers(),
        final(link).polled() == old(link).polled(),
        match r {
            Ok(words) => final(link).received() == old(link).received().push(words@),
            Err(e) => e == IntfError::Interface && final(link).received() == old(link).received(),
        },
        r matches Ok(words) && is_extended(words@)
            ==> final(link).segments_left() < old(link).segments_left(),
{
    match link.raw_read() {
        Ok(IntfResult::Data(words)) => Ok(words),
        _ => Err(IntfError::Interface),
    }
}

/// Number of frames that a string of `len` bytes takes in segments: one for
/// every full eight bytes, and a last one for the rest, which may be empty.
pub open spec fn segment_count(len: int) -> int {
    len / (MAX_STD_CFG_DATA as int) + 1
}

/// The frame buffer after the first `n` segments of `bytes` went out, starting
/// from `words`. A segment of eight bytes fills the four data words and is
/// stamped with `ext_opcode`; the last segment holds the rest, a zero word
/// behind it, and is stamped with `std_opcode`.
pub open spec fn segment_state(
    words: Seq<u16>,
    subnode: u8,
    address: u16,
    ext_opcode: u16,
    std_opcode: u16,
    bytes: Seq<u8>,
    n: nat,
) -> Seq<u16>
    decreases n,
{
    if n == 0 {
        words
    } else {
        let before = segment_state(
            words,
            subnode,
            address,
            ext_opcode,
            std_opcode,
            bytes,
            (n - 1) as nat,
        );
        let from = (MAX_STD_CFG_DATA as int) * (n - 1);
        if bytes.len() - from >= MAX_STD_CFG_DATA as int {
            sealed(
                stamped(
                    with_bytes(
                        before,
                        CFG_DATA_IDX as int,
                        bytes.subrange(from, from + MAX_STD_CFG_DATA as int),
                    ),
                    subnode,
                    ext_opcode,
                    address,
                ),
            )
        } else {
            sealed(
                stamped(
                    with_text(before, CFG_DATA_IDX as int, bytes.subrange(from, bytes.len() as int)),
                    subnode,
                    std_opcode,
                    address,
                ),
            )
        }
    }
}

/// The frames that carry `bytes` in segments, in the order in which they go
/// out.
pub open spec fn segment_frames(
    words: Seq<u16>,
    subnode: u8,
    address: u16,
    ext_opcode: u16,
    std_opcode: u16,
    bytes: Seq<u8>,
) -> Seq<Seq<u16>> {
    Seq::new(
        segment_count(bytes.len() as int) as nat,
        |k: int|
            wire(
                segment_state(
                    words,
                    subnode,
                    address,
                    ext_opcode,
                    std_opcode,
                    bytes,
                    (k + 1) as nat,
                ),
            ),
    )
}

/// What sending `bytes` in segments does to a frame buffer and to the
/// transport: some of the frames went out, at least one and in their order, the
/// buffer is as the last of them left it, nothing came in and nothing was
/// asked for. The transport
/// answered each of them, and only the last answer may be an error; where not
/// all went out, it is one.
pub open spec fn in_segments<INTF: PhysicalInterface>(
    words_before: Seq<u16>,
    words_after: Seq<u16>,
    link_before: INTF,
    link_after: INTF,
    subnode: u8,
    address: u16,
    ext_opcode: u16,
    std_opcode: u16,
    bytes: Seq<u8>,
) -> bool {
    let frames = segment_frames(words_before, subnode, address, ext_opcode, std_opcode, bytes);
    let n = link_after.sent().len() - link_before.sent().len();
    let old_answers = link_before.answers().len() as int;
    &&& link_after.received() == link_before.received()
    &&& link_after.polled() == link_before.polled()
    &&& 1 <= n <= frames.len()
    &&& link_after.sent() == link_before.sent() + frames.take(n)
    &&& words_after == segment_state(
        words_before,
        subnode,
        address,
        ext_opcode,
        std_opcode,
        bytes,
        n as nat,
    )
    &&& link_after.answers().len() == old_answers + n
    &&& link_after.answers().take(old_answers) == link_before.answers()
    &&& forall|i: int|
        old_answers <= i < old_answers + n - 1 ==> (#[trigger] link_after.answers()[i]) is Ok
    &&& n < frames.len() ==> link_after.answers().last() is Err
}

/// What sending in segments answers, given the transport before and after it:
/// the answer of the transport to the last segment where all went out, and
/// `Interface` where the transport failed on one before.
pub open spec fn segments_answer<INTF: PhysicalInterface>(
    link_before: INTF,
    link_after: INTF,
    bytes: Seq<u8>,
) -> Result<IntfResult, IntfError> {
    if link_after.sent().len() - link_before.sent().len() < segment_count(bytes.len() as int) {
        Err(IntfError::Interface)
    } else {
        link_after.answers().last()
    }
}

/// What sending `bytes` in one extended frame does to a frame buffer and to
/// the transport: the frame went out with all its words, the transport
/// answered it, nothing came in and nothing was asked for.
pub open spec fn in_one_frame<INTF: PhysicalInterface>(
    words_before: Seq<u16>,
    words_after: Seq<u16>,
    link_before: INTF,
    link_after: INTF,
    subnode: u8,
    address: u16,
    opcode: u16,
    bytes: Seq<u8>,
) -> bool {
    &&& words_after == extended_state(words_before, subnode, address, opcode, bytes)
    &&& link_after.sent() == link_before.sent().push(
        words_after.subrange(0, STD_FRAME_WORDS + bytes.len()),
    )
    &&& link_after.answers().len() == link_before.answers().len() + 1
    &&& link_after.answers().drop_last() == link_before.answers()
    &&& link_after.received() == link_before.received()
    &&& link_after.polled() == link_before.polled()
}

/// Sends `bytes` in segments. A segment that the transport fails on ends the
/// sending with `Interface`; the answer to the last segment is returned as it
/// came.
pub fn send_segments<INTF: PhysicalInterface>(
    raw: &mut [u16; MAX_FRAME_SIZE],
    link: &mut INTF,
    subnode: u8,
    address: u16,
    ext_opcode: u16,
    std_opcode: u16,
    bytes: &[u8],
) -> (r: Result<IntfResult, IntfError>)
    ensures
        in_segments(
            old(raw)@,
            final(raw)@,
            *old(link),
            *final(link),
            subnode,
            address,
            ext_opcode,
            std_opcode,
            bytes@,
        ),
        r == segments_answer(*old(link), *final(link), bytes@),
{
    let ghost frames = segment_frames(old(raw)@, subnode, address, ext_opcode, std_opcode, bytes@);
    let total: usize = bytes.len();
    let mut from: usize = 0;
    let mut done: usize = 0;
    while total - from >= MAX_STD_CFG_DATA
        invariant
            from <= total == bytes@.len(),
            from == MAX_STD_CFG_DATA * done,
            frames == segment_frames(old(raw)@, subnode, address, ext_opcode, std_opcode, bytes@),
            link.received() == old(link).received(),
            link.polled() == old(link).polled(),
            link.sent() == old(link).sent() + frames.take(done as int),
            link.answers().len() == old(link).answers().len() + done,
            link.answers().take(old(link).answers().len() as int) == old(link).answers(),
            forall|i: int|
                old(link).answers().len() <= i < old(link).answers().len() + done ==> (
                #[trigger] link.answers()[i]) is Ok,
            raw@ == segment_state(
                old(raw)@,
                subnode,
                address,
                ext_opcode,
                std_opcode,
                bytes@,
                done as nat,
            ),
        decreases total - from,
    {
        let _ = store_bytes(raw, CFG_DATA_IDX, bytes, from, from + MAX_STD_CFG_DATA);
        let sent = send_frame(raw, link, subnode, ext_opcode, address);
        done = done + 1;
        from = from + MAX_STD_CFG_DATA;
        proof {
            assert(frames[done - 1] == wire(raw@));
            assert(link.sent() =~= old(link).sent() + frames.take(done as int));
            assert(link.answers().take(old(link).answers().len() as int) =~= old(link).answers());
        }
        if sent.is_err() {
            return Err(IntfError::Interface);
        }
    }
    store_text(raw, CFG_DATA_IDX, bytes, from, total);
    let sent = send_frame(raw, link, subnode, std_opcode, address);
    proof {
        assert(frames.len() == done + 1);
        assert(frames[done as int] == wire(raw@));
        assert(link.sent() =~= old(link).sent() + frames.take(done + 1));
        assert(link.answers().take(old(link).answers().len() as int) =~= old(link).answers());
    }
    sent
}

/// The frame buffer after `bytes` went out in one extended frame, starting
/// from `words`: the length in the first data word, the header stamped and
/// sealed, the bytes packed behind the checksum and a zero word behind them.
pub open spec fn extended_state(
    words: Seq<u16>,
    subnode: u8,
    address: u16,
    opcode: u16,
    bytes: Seq<u8>,
) -> Seq<u16> {
    with_text(
        sealed(stamped(with_u16(words, bytes.len() as u16), subnode, opcode, address)),
        EXT_DATA_IDX as int,
        bytes,
    )
}

/// Sends `bytes` in one extended frame of seven words and one more for each
/// byte. The answer is that of the transport.
pub fn send_extended<INTF: PhysicalInterface>(
    raw: &mut [u16; MAX_FRAME_SIZE],
    link: &mut INTF,
    subnode: u8,
    address: u16,
    opcode: u16,
    bytes: &[u8],
) -> (r: Result<IntfResult, IntfError>)
    requires
        STD_FRAME_WORDS + bytes@.len() <= MAX_FRAME_SIZE,
    ensures
        in_one_frame(
            old(raw)@,
            final(raw)@,
            *old(link),
            *final(link),
            subnode,
            address,
            opcode,
            bytes@,
        ),
        r == final(link).answers().last(),
{
    let size: usize = bytes.len();
    store_u16(raw, size as u16);
    stamp(raw, subnode, opcode, address);
    seal(raw, link);
    store_text(raw, EXT_DATA_IDX, bytes, 0, size);
    proof {
        assert(bytes@.subrange(0, size as int) =~= bytes@);
    }
    let sent = link.raw_write(slice_subrange(array_as_slice(raw), 0, STD_FRAME_WORDS + size));
    proof {
        assert(link.answers().drop_last() =~= old(link).answers());
    }
    sent
}

/// The opcode of the `k`-th segment of a string of `len` bytes: `std_opcode`
/// for the last, `ext_opcode` for those before it.
pub open spec fn segment_opcode(len: int, k: int, ext_opcode: u16, std_opcode: u16) -> u16 {
    if k < segment_count(len) - 1 {
        ext_opcode
    } else {
        std_opcode
    }
}

/// The bytes that the `k`-th segment of `bytes` carries: eight, or what is left
/// for the last.
pub open spec fn segment_bytes(bytes: Seq<u8>, k: int) -> Seq<u8> {
    let from = (MAX_STD_CFG_DATA as int) * k;
    if k < segment_count(bytes.len() as int) - 1 {
        bytes.subrange(from, from + MAX_STD_CFG_DATA as int)
    } else {
        bytes.subrange(from, bytes.len() as int)
    }
}

/// Sending in segments keeps the length of the frame buffer.
pub proof fn lemma_segment_state_len(
    words: Seq<u16>,
    subnode: u8,
    address: u16,
    ext_opcode: u16,
    std_opcode: u16,
    bytes: Seq<u8>,
    n: nat,
)
    requires
        words.len() == MAX_FRAME_SIZE,
        n <= segment_count(bytes.len() as int),
    ensures
        segment_state(words, subnode, address, ext_opcode, std_opcode, bytes, n).len()
            == MAX_FRAME_SIZE,
    decreases n,
{
    if n > 0 {
        lemma_segment_state_len(
            words,
            subnode,
            address,
            ext_opcode,
            std_opcode,
            bytes,
            (n - 1) as nat,
        );
    }
}

/// What the `k`-th segment of a string looks like on the wire: it is stamped
/// for its subnode, its opcode and its address, it carries its checksum, and
/// its data words hold its bytes, with a zero word behind them in the last.
pub proof fn lemma_segment_frame(
    words: Seq<u16>,
    subnode: u8,
    address: u16,
    ext_opcode: u16,
    std_opcode: u16,
    bytes: Seq<u8>,
    k: int,
)
    requires
        words.len() == MAX_FRAME_SIZE,
        0 <= k < segment_count(bytes.len() as int),
    ensures
        ({
            let frame = segment_frames(words, subnode, address, ext_opcode, std_opcode, bytes)[k];
            let before = segment_state(
                words,
                subnode,
                address,
                ext_opcode,
                std_opcode,
                bytes,
                k as nat,
            );
            let chunk = segment_bytes(bytes, k);
            &&& frame.len() == STD_FRAME_WORDS
            &&& before.len() == MAX_FRAME_SIZE
            &&& frame[0] == subnode as u16
            &&& frame[1] == crate::frame::command_word(
                segment_opcode(bytes.len() as int, k, ext_opcode, std_opcode),
                address,
            )
            &&& frame[CRC_IDX as int] == crate::frame::frame_crc(frame)
            &&& chunk.len() == (if k < segment_count(bytes.len() as int) - 1 {
                MAX_STD_CFG_DATA as int
            } else {
                bytes.len() - MAX_STD_CFG_DATA * k
            })
            &&& chunk.len() <= MAX_STD_CFG_DATA
            &&& k == segment_count(bytes.len() as int) - 1 ==> chunk.len() < MAX_STD_CFG_DATA
            &&& frame.subrange(CFG_DATA_IDX as int, CRC_IDX as int) == (if k < segment_count(
                bytes.len() as int,
            ) - 1 {
                with_bytes(before, CFG_DATA_IDX as int, chunk)
            } else {
                with_text(before, CFG_DATA_IDX as int, chunk)
            }).subrange(CFG_DATA_IDX as int, CRC_IDX as int)
        }),
{
    let before = segment_state(words, subnode, address, ext_opcode, std_opcode, bytes, k as nat);
    let after = segment_state(
        words,
        subnode,
        address,
        ext_opcode,
        std_opcode,
        bytes,
        (k + 1) as nat,
    );
    let frame = segment_frames(words, subnode, address, ext_opcode, std_opcode, bytes)[k];
    lemma_segment_state_len(words, subnode, address, ext_opcode, std_opcode, bytes, k as nat);
    lemma_segment_state_len(words, subnode, address, ext_opcode, std_opcode, bytes, (k + 1) as nat);
    assert(frame == wire(after));
    let chunk = segment_bytes(bytes, k);
    let staged = if k < segment_count(bytes.len() as int) - 1 {
        with_bytes(before, CFG_DATA_IDX as int, chunk)
    } else {
        with_text(before, CFG_DATA_IDX as int, chunk)
    };
    let opcode = segment_opcode(bytes.len() as int, k, ext_opcode, std_opcode);
    assert(after == sealed(stamped(staged, subnode, opcode, address)));
    crate::frame::lemma_sealed_verifies(stamped(staged, subnode, opcode, address));
    assert(frame.subrange(0, HEADER_WORDS as int) =~= after.subrange(0, HEADER_WORDS as int));
    assert(frame.subrange(CFG_DATA_IDX as int, CRC_IDX as int) =~= staged.subrange(
        CFG_DATA_IDX as int,
        CRC_IDX as int,
    ));
}

} // verus!
