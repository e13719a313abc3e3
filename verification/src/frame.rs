//! Frame layout, command and header words, checksum, and the placement of
//! typed values in the data window.
use vstd::prelude::*;
use crate::MAX_FRAME_SIZE;

verus! {

/// Bit that tells an extended opcode from the standard one of the same class.
pub const CFG_EXT_BIT: u16 = 0x0001;
/// Bit that marks an error response.
pub const CFG_ERR_BIT: u16 = 0x0008;
pub const CFG_STD_READ: u16 = 0x0002;
pub const CFG_EXT_READ: u16 = 0x0003;
pub const CFG_STD_WRITE: u16 = 0x0004;
pub const CFG_EXT_WRITE: u16 = 0x0005;
pub const CFG_STD_ACK: u16 = 0x0006;
pub const CFG_EXT_ACK: u16 = 0x0007;
pub const CFG_IDLE: u16 = 0x000E;

/// Largest register address that the command word can carry.
pub const MAX_ADDRESS: u16 = 0x0FFF;

pub const HEADER_IDX: usize = 0;
pub const COMMAND_IDX: usize = 1;
pub const CFG_DATA_IDX: usize = 2;
pub const CRC_IDX: usize = 6;
pub const EXT_DATA_IDX: usize = 7;

/// Number of words that the checksum covers and that precede it.
pub const HEADER_WORDS: usize = 6;
/// Number of words of a standard frame on the wire.
pub const STD_FRAME_WORDS: usize = 7;
/// Bytes that the four standard data words hold; a string takes the
/// standard path only when it is strictly shorter.
pub const MAX_STD_CFG_DATA: usize = 8;

/// The command word: opcode in the low four bits, address above them.
pub open spec fn command_word(opcode: u16, address: u16) -> u16 {
    opcode | (address << 4)
}

/// The opcode that a command word carries.
pub open spec fn opcode_of(command: u16) -> u16 {
    command & 0xF
}

/// The address that a command word carries.
pub open spec fn address_of(command: u16) -> u16 {
    command >> 4
}

/// The subnode that a header word carries.
pub open spec fn subnode_of(header: u16) -> u8 {
    (header & 0xF) as u8
}

/// Composes the command word of `opcode` at `address`.
pub fn make_command(opcode: u16, address: u16) -> (r: u16)
    ensures
        r == command_word(opcode, address),
{
    opcode | (address << 4)
}

/// A command word gives back the opcode and the address it was composed from,
/// as long as each fits its field.
pub proof fn lemma_command_fields(opcode: u16, address: u16)
    requires
        opcode <= 0xF,
        address <= MAX_ADDRESS,
    ensures
        opcode_of(command_word(opcode, address)) == opcode,
        address_of(command_word(opcode, address)) == address,
{
    assert((opcode | (address << 4)) & 0xF == opcode) by (bit_vector)
        requires
            opcode <= 0xF,
            address <= 0x0FFF,
    ;
    assert((opcode | (address << 4)) >> 4 == address) by (bit_vector)
        requires
            opcode <= 0xF,
            address <= 0x0FFF,
    ;
}

pub open spec fn low_byte(w: u16) -> u8 {
    (w & 0xFF) as u8
}

pub open spec fn high_byte(w: u16) -> u8 {
    (w >> 8) as u8
}

/// The bytes of a run of words as they travel: each word low byte first.
pub open spec fn words_to_bytes(ws: Seq<u16>) -> Seq<u8> {
    Seq::new(
        2 * ws.len(),
        |i: int|
            if i % 2 == 0 {
                low_byte(ws[i / 2])
            } else {
                high_byte(ws[i / 2])
            },
    )
}

/// Serialises `words[from..to]`, low byte of each word first.
pub fn bytes_of_words(words: &[u16], from: usize, to: usize) -> (out: Vec<u8>)
    requires
        from <= to <= words@.len(),
    ensures
        out@ == words_to_bytes(words@.subrange(from as int, to as int)),
{
    let mut out: Vec<u8> = Vec::new();
    let mut i: usize = from;
    while i < to
        invariant
            from <= i <= to <= words@.len(),
            out@ == words_to_bytes(words@.subrange(from as int, i as int)),
        decreases to - i,
    {
        let w: u16 = words[i];
        let lo: u8 = (w & 0xFF) as u8;
        let hi: u8 = (w >> 8) as u8;
        out.push(lo);
        out.push(hi);
        i = i + 1;
        assert(out@ =~= words_to_bytes(words@.subrange(from as int, i as int)));
    }
    out
}

/// Generator polynomial of CRC-16/XMODEM, without its highest term.
pub const XMODEM_POLY: u16 = 0x1021;

/// One shift of the checksum register: the bits move up by one, and the
/// polynomial is taken away where a set bit fell out at the top.
pub open spec fn crc_shift(value: u16) -> u16 {
    (value << 1) ^ (if value & 0x8000 != 0 {
        XMODEM_POLY
    } else {
        0u16
    })
}

/// What a byte in the upper half of the register leaves after eight shifts.
pub open spec fn crc_entry(index: u16) -> u16 {
    let once = crc_shift(index << 8);
    let twice = crc_shift(once);
    let thrice = crc_shift(twice);
    let fourth = crc_shift(thrice);
    let fifth = crc_shift(fourth);
    let sixth = crc_shift(fifth);
    let seventh = crc_shift(sixth);
    crc_shift(seventh)
}

/// The checksum register after one more byte.
pub open spec fn crc_update(crc: u16, byte: u8) -> u16 {
    crc_entry(((crc >> 8) ^ (byte as u16)) & 0xFF) ^ (crc << 8)
}

/// CRC-16/XMODEM of a byte string: the register starts at zero, takes in the
/// bytes in their order, and is the checksum as it stands.
pub open spec fn crc16_xmodem(bytes: Seq<u8>) -> u16
    decreases bytes.len(),
{
    if bytes.len() == 0 {
        0
    } else {
        crc_update(crc16_xmodem(bytes.drop_last()), bytes.last())
    }
}

/// `crc::Crc::<u16>::checksum` under the catalogue's `CRC_16_XMODEM`
/// parameters: width 16, polynomial 0x1021, initial value and final xor zero,
/// nothing reflected. The crate looks up in a table what `crc_entry` states,
/// and folds the bytes as `crc_update` does.
#[verifier::external_body]
fn xmodem(bytes: &[u8]) -> (r: u16)
    ensures
        r == crc16_xmodem(bytes@),
{
    crc::Crc::<u16>::new(&crc::CRC_16_XMODEM).checksum(bytes)
}

/// The checksum that belongs to a frame: CRC-16/XMODEM over the twelve bytes
/// of its first six words.
pub open spec fn frame_crc(words: Seq<u16>) -> u16
    recommends
        words.len() >= HEADER_WORDS,
{
    crc16_xmodem(words_to_bytes(words.subrange(0, HEADER_WORDS as int)))
}

/// Computes the checksum of the first six words of `frame`.
pub fn checksum(frame: &[u16]) -> (r: u16)
    requires
        frame@.len() >= HEADER_WORDS,
    ensures
        r == frame_crc(frame@),
{
    let bytes = bytes_of_words(frame, 0, HEADER_WORDS);
    xmodem(bytes.as_slice())
}

/// Tells whether the seventh word of `frame` is the checksum of the six
/// before it.
pub fn verify_crc(frame: &[u16]) -> (r: bool)
    requires
        frame@.len() > CRC_IDX,
    ensures
        r == (frame@[CRC_IDX as int] == frame_crc(frame@)),
{
    frame[CRC_IDX] == checksum(frame)
}

/// The frame `words` with its header and command words set for `subnode`,
/// `opcode` and `address`.
pub open spec fn stamped(words: Seq<u16>, subnode: u8, opcode: u16, address: u16) -> Seq<u16> {
    words.update(HEADER_IDX as int, subnode as u16).update(
        COMMAND_IDX as int,
        command_word(opcode, address),
    )
}

/// The frame `words` with the checksum of its first six words in the seventh.
pub open spec fn sealed(words: Seq<u16>) -> Seq<u16> {
    words.update(CRC_IDX as int, frame_crc(words))
}

/// Sets the header and command words of `raw`.
pub fn stamp(raw: &mut [u16; MAX_FRAME_SIZE], subnode: u8, opcode: u16, address: u16)
    ensures
        final(raw)@ == stamped(old(raw)@, subnode, opcode, address),
{
    raw[HEADER_IDX] = subnode as u16;
    raw[COMMAND_IDX] = make_command(opcode, address);
}

/// A sealed frame passes the checksum test, whatever it carries.
pub proof fn lemma_sealed_verifies(words: Seq<u16>)
    requires
        words.len() > CRC_IDX,
    ensures
        sealed(words)[CRC_IDX as int] == frame_crc(sealed(words)),
{
    assert(sealed(words).subrange(0, HEADER_WORDS as int) =~= words.subrange(
        0,
        HEADER_WORDS as int,
    ));
}

pub open spec fn with_u8(words: Seq<u16>, value: u8) -> Seq<u16> {
    words.update(CFG_DATA_IDX as int, value as u16)
}

pub open spec fn with_u16(words: Seq<u16>, value: u16) -> Seq<u16> {
    words.update(CFG_DATA_IDX as int, value)
}

pub open spec fn with_u32(words: Seq<u16>, value: u32) -> Seq<u16> {
    words.update(CFG_DATA_IDX as int, value as u16).update(
        CFG_DATA_IDX as int + 1,
        (value >> 16) as u16,
    )
}

pub open spec fn with_u64(words: Seq<u16>, value: u64) -> Seq<u16> {
    words.update(CFG_DATA_IDX as int, value as u16).update(
        CFG_DATA_IDX as int + 1,
        (value >> 16) as u16,
    ).update(CFG_DATA_IDX as int + 2, (value >> 32) as u16).update(
        CFG_DATA_IDX as int + 3,
        (value >> 48) as u16,
    )
}

pub open spec fn u8_of(words: Seq<u16>) -> u8 {
    words[CFG_DATA_IDX as int] as u8
}

pub open spec fn u16_of(words: Seq<u16>) -> u16 {
    words[CFG_DATA_IDX as int]
}

pub open spec fn u32_of(words: Seq<u16>) -> u32 {
    (words[CFG_DATA_IDX as int] as u32) | ((words[CFG_DATA_IDX as int + 1] as u32) << 16)
}

pub open spec fn u64_of(words: Seq<u16>) -> u64 {
    (words[CFG_DATA_IDX as int] as u64) | ((words[CFG_DATA_IDX as int + 1] as u64) << 16) | ((
    words[CFG_DATA_IDX as int + 2] as u64) << 32) | ((words[CFG_DATA_IDX as int + 3] as u64) << 48)
}

/// Places a byte in the first data word; the high byte of the word is zero.
pub fn store_u8(raw: &mut [u16; MAX_FRAME_SIZE], value: u8)
    ensures
        final(raw)@ == with_u8(old(raw)@, value),
{
    raw[CFG_DATA_IDX] = value as u16;
}

/// Places a word in the first data word.
pub fn store_u16(raw: &mut [u16; MAX_FRAME_SIZE], value: u16)
    ensures
        final(raw)@ == with_u16(old(raw)@, value),
{
    raw[CFG_DATA_IDX] = value;
}

/// Places a 32-bit value in the first two data words, low half first.
pub fn store_u32(raw: &mut [u16; MAX_FRAME_SIZE], value: u32)
    ensures
        final(raw)@ == with_u32(old(raw)@, value),
{
    raw[CFG_DATA_IDX] = value as u16;
    raw[CFG_DATA_IDX + 1] = (value >> 16) as u16;
}

/// Places a 64-bit value in the four data words, lowest quarter first.
pub fn store_u64(raw: &mut [u16; MAX_FRAME_SIZE], value: u64)
    ensures
        final(raw)@ == with_u64(old(raw)@, value),
{
    raw[CFG_DATA_IDX] = value as u16;
    raw[CFG_DATA_IDX + 1] = (value >> 16) as u16;
    raw[CFG_DATA_IDX + 2] = (value >> 32) as u16;
    raw[CFG_DATA_IDX + 3] = (value >> 48) as u16;
}

/// The low byte of the first data word.
pub fn load_u8(raw: &[u16; MAX_FRAME_SIZE]) -> (value: u8)
    ensures
        value == u8_of(raw@),
{
    raw[CFG_DATA_IDX] as u8
}

/// The first data word.
pub fn load_u16(raw: &[u16; MAX_FRAME_SIZE]) -> (value: u16)
    ensures
        value == u16_of(raw@),
{
    raw[CFG_DATA_IDX]
}

/// The 32-bit value that the first two data words hold, low half first.
pub fn load_u32(raw: &[u16; MAX_FRAME_SIZE]) -> (value: u32)
    ensures
        value == u32_of(raw@),
{
    (raw[CFG_DATA_IDX] as u32) | ((raw[CFG_DATA_IDX + 1] as u32) << 16)
}

/// The 64-bit value that the four data words hold, lowest quarter first.
pub fn load_u64(raw: &[u16; MAX_FRAME_SIZE]) -> (value: u64)
    ensures
        value == u64_of(raw@),
{
    (raw[CFG_DATA_IDX] as u64) | ((raw[CFG_DATA_IDX + 1] as u64) << 16) | ((raw[CFG_DATA_IDX
        + 2] as u64) << 32) | ((raw[CFG_DATA_IDX + 3] as u64) << 48)
}

/// An unsigned value that was stored is loaded again unchanged, whatever the
/// frame held before and whatever is done to the words outside the data window.
pub proof fn lemma_unsigned_round_trip(words: Seq<u16>, a: u8, b: u16, c: u32, d: u64)
    requires
        words.len() >= CRC_IDX,
    ensures
        u8_of(with_u8(words, a)) == a,
        u16_of(with_u16(words, b)) == b,
        u32_of(with_u32(words, c)) == c,
        u64_of(with_u64(words, d)) == d,
{
    assert((a as u16) as u8 == a) by (bit_vector);
    assert(((c as u16) as u32) | ((((c >> 16) as u16) as u32) << 16) == c) by (bit_vector);
    assert(((d as u16) as u64) | ((((d >> 16) as u16) as u64) << 16) | ((((d >> 32) as u16) as u64)
        << 32) | ((((d >> 48) as u16) as u64) << 48) == d) by (bit_vector);
}

/// A signed value that was stored through its unsigned image is loaded again
/// unchanged.
pub proof fn lemma_signed_round_trip(words: Seq<u16>, a: i8, b: i16, c: i32, d: i64)
    requires
        words.len() >= CRC_IDX,
    ensures
        u8_of(with_u8(words, a as u8)) as i8 == a,
        u16_of(with_u16(words, b as u16)) as i16 == b,
        u32_of(with_u32(words, c as u32)) as i32 == c,
        u64_of(with_u64(words, d as u64)) as i64 == d,
{
    lemma_unsigned_round_trip(words, a as u8, b as u16, c as u32, d as u64);
    assert((a as u8) as i8 == a) by (bit_vector);
    assert((b as u16) as i16 == b) by (bit_vector);
    assert((c as u32) as i32 == c) by (bit_vector);
    assert((d as u64) as i64 == d) by (bit_vector);
}

/// The `k`-th word of a packed byte string: two bytes, the earlier one low;
/// a last odd byte stands alone with a zero high byte.
pub open spec fn packed_word(bytes: Seq<u8>, k: int) -> u16 {
    if 2 * k + 1 < bytes.len() {
        (bytes[2 * k] as u16) | ((bytes[2 * k + 1] as u16) << 8)
    } else {
        bytes[2 * k] as u16
    }
}

/// Number of words that `n` packed bytes take.
pub open spec fn packed_len(n: int) -> int {
    (n + 1) / 2
}

/// The frame `words` with `bytes` packed into it from word `start` on.
pub open spec fn with_bytes(words: Seq<u16>, start: int, bytes: Seq<u8>) -> Seq<u16> {
    Seq::new(
        words.len(),
        |i: int|
            if start <= i < start + packed_len(bytes.len() as int) {
                packed_word(bytes, i - start)
            } else {
                words[i]
            },
    )
}

/// The frame `words` with `bytes` packed into it from word `start` on and a
/// zero word behind them.
pub open spec fn with_text(words: Seq<u16>, start: int, bytes: Seq<u8>) -> Seq<u16> {
    with_bytes(words, start, bytes).update(start + packed_len(bytes.len() as int), 0)
}

/// Packs `bytes[from..to]` into `raw` from word `start` on and returns the
/// index of the word behind the last one written.
pub fn store_bytes(
    raw: &mut [u16; MAX_FRAME_SIZE],
    start: usize,
    bytes: &[u8],
    from: usize,
    to: usize,
) -> (next: usize)
    requires
        from <= to <= bytes@.len(),
        start + packed_len(to - from) <= MAX_FRAME_SIZE,
    ensures
        final(raw)@ == with_bytes(old(raw)@, start as int, bytes@.subrange(from as int, to as int)),
        next == start + packed_len(to - from),
{
    let mut count: usize = start;
    let mut i: usize = from;
    while i < to
        invariant
            from <= i <= to <= bytes@.len(),
            (i - from) % 2 == 0 || i == to,
            count == start + packed_len(i - from),
            start + packed_len(to - from) <= MAX_FRAME_SIZE,
            raw@ == with_bytes(old(raw)@, start as int, bytes@.subrange(from as int, i as int)),
        decreases to - i,
    {
        let low: u16 = bytes[i] as u16;
        if i + 1 < to {
            let high: u16 = bytes[i + 1] as u16;
            raw[count] = low | (high << 8);
            i = i + 2;
        } else {
            raw[count] = low;
            i = i + 1;
        }
        count = count + 1;
        assert(raw@ =~= with_bytes(
            old(raw)@,
            start as int,
            bytes@.subrange(from as int, i as int),
        ));
    }
    count
}

/// Packs `bytes[from..to]` into `raw` from word `start` on and sets the word
/// behind them to zero.
pub fn store_text(
    raw: &mut [u16; MAX_FRAME_SIZE],
    start: usize,
    bytes: &[u8],
    from: usize,
    to: usize,
)
    requires
        from <= to <= bytes@.len(),
        start + packed_len(to - from) < MAX_FRAME_SIZE,
    ensures
        final(raw)@ == with_text(old(raw)@, start as int, bytes@.subrange(from as int, to as int)),
{
    let next = store_bytes(raw, start, bytes, from, to);
    raw[next] = 0;
}

/// Index of the first zero byte at or behind `i`, or the length where there
/// is none.
pub open spec fn text_end(bytes: Seq<u8>, i: int) -> int
    decreases bytes.len() - i,
{
    if i < 0 || i >= bytes.len() {
        bytes.len() as int
    } else if bytes[i] == 0 {
        i
    } else {
        text_end(bytes, i + 1)
    }
}

/// The bytes before the first zero byte.
pub open spec fn until_zero(bytes: Seq<u8>) -> Seq<u8> {
    bytes.take(text_end(bytes, 0))
}

/// Each byte as the character of the same code.
pub open spec fn latin1(bytes: Seq<u8>) -> Seq<char> {
    Seq::new(bytes.len(), |i: int| bytes[i] as char)
}

/// `String::push` appends one character and leaves the others as they were.
pub assume_specification[ String::push ](s: &mut String, ch: char)
    ensures
        final(s)@ == old(s)@.push(ch),
;

/// The first `count` bytes as a string, one character for each byte.
pub fn string_of(bytes: &[u8], count: usize) -> (s: String)
    requires
        count <= bytes@.len(),
    ensures
        s@ == latin1(bytes@.take(count as int)),
{
    let mut s = String::new();
    let mut i: usize = 0;
    while i < count
        invariant
            i <= count <= bytes@.len(),
            s@ == latin1(bytes@.take(i as int)),
        decreases count - i,
    {
        s.push(bytes[i] as char);
        i = i + 1;
        assert(s@ =~= latin1(bytes@.take(i as int)));
    }
    s
}

/// Number of bytes before the first zero byte.
pub fn text_len(bytes: &[u8]) -> (n: usize)
    ensures
        n == text_end(bytes@, 0),
        n <= bytes@.len(),
{
    let mut i: usize = 0;
    while i < bytes.len() && bytes[i] != 0
        invariant
            i <= bytes@.len(),
            text_end(bytes@, 0) == text_end(bytes@, i as int),
        decreases bytes@.len() - i,
    {
        i = i + 1;
    }
    i
}

/// The bytes before the first zero byte as a string, one character for each.
pub fn text_of(bytes: &[u8]) -> (s: String)
    ensures
        s@ == latin1(until_zero(bytes@)),
{
    let n = text_len(bytes);
    string_of(bytes, n)
}

/// The most frames that a node gathers into one request: the first, and one
/// for every four words that a frame buffer holds behind the first six.
pub const MAX_SEGMENTS: usize = 31;

/// Tells whether the opcode of the frame is an extended one, which in a
/// sequence of segments says that more follow.
pub open spec fn is_extended(words: Seq<u16>) -> bool {
    words[COMMAND_IDX as int] & CFG_EXT_BIT == CFG_EXT_BIT
}

/// Tells whether the opcode of the frame is an extended one.
pub fn has_ext_bit(data: &[u16; MAX_FRAME_SIZE]) -> (r: bool)
    ensures
        r == is_extended(data@),
{
    (data[COMMAND_IDX] & CFG_EXT_BIT) == CFG_EXT_BIT
}

/// The string in the four data words of a frame: their bytes up to the first
/// zero byte.
pub open spec fn std_text(words: Seq<u16>) -> Seq<char> {
    latin1(
        until_zero(words_to_bytes(words.subrange(CFG_DATA_IDX as int, CRC_IDX as int))),
    )
}

/// The string in a run of segments gathered in one buffer: the bytes from the
/// first data word on, up to the first zero byte.
pub open spec fn run_text(words: Seq<u16>) -> Seq<char> {
    latin1(
        until_zero(words_to_bytes(words.subrange(CFG_DATA_IDX as int, words.len() as int))),
    )
}

/// The string in an extended frame: as many bytes behind the checksum as the
/// first data word says, or as many as the frame holds there if that is
/// fewer.
pub open spec fn ext_text(words: Seq<u16>) -> Seq<char> {
    let room = words_to_bytes(words.subrange(EXT_DATA_IDX as int, words.len() as int));
    let size = words[CFG_DATA_IDX as int] as int;
    latin1(
        room.take(
            if size <= room.len() {
                size
            } else {
                room.len() as int
            },
        ),
    )
}

/// Reads the string in the four data words of `data`.
pub fn std_text_of(data: &[u16; MAX_FRAME_SIZE]) -> (s: String)
    ensures
        s@ == std_text(data@),
{
    let bytes = bytes_of_words(vstd::array::array_as_slice(data), CFG_DATA_IDX, CRC_IDX);
    text_of(bytes.as_slice())
}

/// Reads the string that a run of segments left in `data`.
pub fn run_text_of(data: &[u16; MAX_FRAME_SIZE]) -> (s: String)
    ensures
        s@ == run_text(data@),
{
    let bytes = bytes_of_words(vstd::array::array_as_slice(data), CFG_DATA_IDX, MAX_FRAME_SIZE);
    text_of(bytes.as_slice())
}

/// Reads the string in the extended frame `data`.
pub fn ext_text_of(data: &[u16; MAX_FRAME_SIZE]) -> (s: String)
    ensures
        s@ == ext_text(data@),
{
    let bytes = bytes_of_words(vstd::array::array_as_slice(data), EXT_DATA_IDX, MAX_FRAME_SIZE);
    let size: usize = data[CFG_DATA_IDX] as usize;
    let count: usize = if size <= bytes.len() {
        size
    } else {
        bytes.len()
    };
    string_of(bytes.as_slice(), count)
}

/// The bytes of a packed word are the bytes that were packed into it, and a
/// last odd byte has a zero byte behind it.
pub proof fn lemma_packed_word_bytes(bytes: Seq<u8>, k: int)
    requires
        0 <= k,
        2 * k < bytes.len(),
    ensures
        low_byte(packed_word(bytes, k)) == bytes[2 * k],
        high_byte(packed_word(bytes, k)) == (if 2 * k + 1 < bytes.len() {
            bytes[2 * k + 1]
        } else {
            0u8
        }),
{
    let low = bytes[2 * k];
    if 2 * k + 1 < bytes.len() {
        let high = bytes[2 * k + 1];
        assert((((low as u16) | ((high as u16) << 8)) & 0xFF) as u8 == low) by (bit_vector);
        assert((((low as u16) | ((high as u16) << 8)) >> 8) as u8 == high) by (bit_vector);
    } else {
        assert(((low as u16) & 0xFF) as u8 == low) by (bit_vector);
        assert(((low as u16) >> 8) as u8 == 0u8) by (bit_vector);
    }
}

/// The text of a byte string ends at `n` where its first `n` bytes are not
/// zero and the string ends there or a zero byte stands there.
pub proof fn lemma_text_ends_at(bytes: Seq<u8>, n: int)
    requires
        0 <= n <= bytes.len(),
        forall|i: int| 0 <= i < n ==> bytes[i] != 0,
        n == bytes.len() || bytes[n] == 0,
    ensures
        text_end(bytes, 0) == n,
{
    lemma_text_ends_from(bytes, n, 0);
}

proof fn lemma_text_ends_from(bytes: Seq<u8>, n: int, from: int)
    requires
        0 <= from <= n <= bytes.len(),
        forall|i: int| 0 <= i < n ==> bytes[i] != 0,
        n == bytes.len() || bytes[n] == 0,
    ensures
        text_end(bytes, from) == n,
    decreases n - from,
{
    if from < n {
        lemma_text_ends_from(bytes, n, from + 1);
    }
}

/// Tells whether no byte of the string is zero.
pub open spec fn zero_free(bytes: Seq<u8>) -> bool {
    forall|i: int| 0 <= i < bytes.len() ==> bytes[i] != 0
}

/// A string of fewer than eight bytes, none of them zero, that was stored as
/// text in the data words is read from them again, whatever is done to the
/// words around them.
pub proof fn lemma_std_text_round_trip(words: Seq<u16>, frame: Seq<u16>, bytes: Seq<u8>)
    requires
        words.len() > CRC_IDX,
        frame.len() >= CRC_IDX,
        bytes.len() < MAX_STD_CFG_DATA,
        zero_free(bytes),
        frame.subrange(CFG_DATA_IDX as int, CRC_IDX as int) == with_text(
            words,
            CFG_DATA_IDX as int,
            bytes,
        ).subrange(CFG_DATA_IDX as int, CRC_IDX as int),
    ensures
        std_text(frame) == latin1(bytes),
{
    let stored = with_text(words, CFG_DATA_IDX as int, bytes);
    let window = frame.subrange(CFG_DATA_IDX as int, CRC_IDX as int);
    let read = words_to_bytes(window);
    let n = bytes.len() as int;
    assert forall|i: int| 0 <= i < n implies read[i] == bytes[i] by {
        lemma_packed_word_bytes(bytes, i / 2);
        assert(window[i / 2] == stored[CFG_DATA_IDX as int + i / 2]);
    }
    if n % 2 == 1 {
        lemma_packed_word_bytes(bytes, n / 2);
        assert(window[n / 2] == stored[CFG_DATA_IDX as int + n / 2]);
        assert(read[n] == 0);
    } else {
        assert(window[n / 2] == stored[CFG_DATA_IDX as int + n / 2]);
        assert(0u16 & 0xFF == 0u16) by (bit_vector);
        assert(read[n] == 0);
    }
    lemma_text_ends_at(read, n);
    assert(read.take(n) =~= bytes);
}

/// A string that was stored in an extended frame, its length in the first
/// data word and its bytes behind the checksum, is read again from any
/// frame that begins with the words that went out.
pub proof fn lemma_ext_text_round_trip(words: Seq<u16>, frame: Seq<u16>, bytes: Seq<u8>)
    requires
        words.len() == MAX_FRAME_SIZE,
        frame.len() == MAX_FRAME_SIZE,
        STD_FRAME_WORDS + bytes.len() <= MAX_FRAME_SIZE,
        frame.subrange(CFG_DATA_IDX as int, CFG_DATA_IDX as int + 1) == with_u16(
            words,
            bytes.len() as u16,
        ).subrange(CFG_DATA_IDX as int, CFG_DATA_IDX as int + 1),
        frame.subrange(EXT_DATA_IDX as int, STD_FRAME_WORDS + bytes.len()) == with_text(
            words,
            EXT_DATA_IDX as int,
            bytes,
        ).subrange(EXT_DATA_IDX as int, STD_FRAME_WORDS + bytes.len()),
    ensures
        ext_text(frame) == latin1(bytes),
{
    let n = bytes.len() as int;
    let stored = with_text(words, EXT_DATA_IDX as int, bytes);
    let room = words_to_bytes(frame.subrange(EXT_DATA_IDX as int, frame.len() as int));
    assert(frame[CFG_DATA_IDX as int] == frame.subrange(
        CFG_DATA_IDX as int,
        CFG_DATA_IDX as int + 1,
    )[0]);
    assert(frame[CFG_DATA_IDX as int] == n);
    assert forall|i: int| 0 <= i < n implies room[i] == bytes[i] by {
        lemma_packed_word_bytes(bytes, i / 2);
        assert(frame[EXT_DATA_IDX as int + i / 2] == frame.subrange(
            EXT_DATA_IDX as int,
            STD_FRAME_WORDS + bytes.len(),
        )[i / 2]);
        assert(stored[EXT_DATA_IDX as int + i / 2] == stored.subrange(
            EXT_DATA_IDX as int,
            STD_FRAME_WORDS + bytes.len(),
        )[i / 2]);
    }
    assert(room.take(n) =~= bytes);
}

/// A string of eight bytes, none of them zero, that was packed into the four
/// data words is read from them again as it is.
pub proof fn lemma_full_window_text(words: Seq<u16>, frame: Seq<u16>, bytes: Seq<u8>)
    requires
        words.len() >= CRC_IDX,
        frame.len() >= CRC_IDX,
        bytes.len() == MAX_STD_CFG_DATA,
        zero_free(bytes),
        frame.subrange(CFG_DATA_IDX as int, CRC_IDX as int) == with_bytes(
            words,
            CFG_DATA_IDX as int,
            bytes,
        ).subrange(CFG_DATA_IDX as int, CRC_IDX as int),
    ensures
        std_text(frame) == latin1(bytes),
{
    let stored = with_bytes(words, CFG_DATA_IDX as int, bytes);
    let window = frame.subrange(CFG_DATA_IDX as int, CRC_IDX as int);
    let read = words_to_bytes(window);
    assert forall|i: int| 0 <= i < 8 implies read[i] == bytes[i] by {
        lemma_packed_word_bytes(bytes, i / 2);
        assert(window[i / 2] == stored[CFG_DATA_IDX as int + i / 2]);
    }
    lemma_text_ends_at(read, 8);
    assert(read.take(8) =~= bytes);
}

/// The characters of two byte strings, one behind the other, are those of the
/// joined string.
pub proof fn lemma_latin1_joins(a: Seq<u8>, b: Seq<u8>)
    ensures
        latin1(a) + latin1(b) == latin1(a + b),
{
    assert(latin1(a) + latin1(b) =~= latin1(a + b));
}

/// A shift of the checksum register tells two registers apart.
pub proof fn lemma_crc_shift_tells(a: u16, b: u16)
    requires
        a != b,
    ensures
        crc_shift(a) != crc_shift(b),
{
    assert(((a << 1) ^ (if a & 0x8000 != 0 {
        0x1021u16
    } else {
        0u16
    })) != ((b << 1) ^ (if b & 0x8000 != 0 {
        0x1021u16
    } else {
        0u16
    }))) by (bit_vector)
        requires
            a != b,
    ;
}

/// The checksum register after eight shifts.
pub open spec fn crc_shift8(value: u16) -> u16 {
    let once = crc_shift(value);
    let twice = crc_shift(once);
    let thrice = crc_shift(twice);
    let fourth = crc_shift(thrice);
    let fifth = crc_shift(fourth);
    let sixth = crc_shift(fifth);
    let seventh = crc_shift(sixth);
    crc_shift(seventh)
}

/// Eight shifts tell two registers apart.
pub proof fn lemma_crc_shift8_tells(a: u16, b: u16)
    requires
        a != b,
    ensures
        crc_shift8(a) != crc_shift8(b),
{
    let a1 = crc_shift(a);
    let b1 = crc_shift(b);
    lemma_crc_shift_tells(a, b);
    let a2 = crc_shift(a1);
    let b2 = crc_shift(b1);
    lemma_crc_shift_tells(a1, b1);
    let a3 = crc_shift(a2);
    let b3 = crc_shift(b2);
    lemma_crc_shift_tells(a2, b2);
    let a4 = crc_shift(a3);
    let b4 = crc_shift(b3);
    lemma_crc_shift_tells(a3, b3);
    let a5 = crc_shift(a4);
    let b5 = crc_shift(b4);
    lemma_crc_shift_tells(a4, b4);
    let a6 = crc_shift(a5);
    let b6 = crc_shift(b5);
    lemma_crc_shift_tells(a5, b5);
    let a7 = crc_shift(a6);
    let b7 = crc_shift(b6);
    lemma_crc_shift_tells(a6, b6);
    lemma_crc_shift_tells(a7, b7);
}

/// A shift of two registers laid over each other is the two shifts laid over
/// each other.
pub proof fn lemma_crc_shift_splits(a: u16, b: u16)
    ensures
        crc_shift(a ^ b) == crc_shift(a) ^ crc_shift(b),
{
    assert((((a ^ b) << 1) ^ (if (a ^ b) & 0x8000 != 0 {
        0x1021u16
    } else {
        0u16
    })) == ((a << 1) ^ (if a & 0x8000 != 0 {
        0x1021u16
    } else {
        0u16
    })) ^ ((b << 1) ^ (if b & 0x8000 != 0 {
        0x1021u16
    } else {
        0u16
    }))) by (bit_vector);
}

/// Eight shifts of two registers laid over each other are the eight shifts of
/// each laid over each other.
pub proof fn lemma_crc_shift8_splits(a: u16, b: u16)
    ensures
        crc_shift8(a ^ b) == crc_shift8(a) ^ crc_shift8(b),
{
    let a1 = crc_shift(a);
    let b1 = crc_shift(b);
    lemma_crc_shift_splits(a, b);
    let a2 = crc_shift(a1);
    let b2 = crc_shift(b1);
    lemma_crc_shift_splits(a1, b1);
    let a3 = crc_shift(a2);
    let b3 = crc_shift(b2);
    lemma_crc_shift_splits(a2, b2);
    let a4 = crc_shift(a3);
    let b4 = crc_shift(b3);
    lemma_crc_shift_splits(a3, b3);
    let a5 = crc_shift(a4);
    let b5 = crc_shift(b4);
    lemma_crc_shift_splits(a4, b4);
    let a6 = crc_shift(a5);
    let b6 = crc_shift(b5);
    lemma_crc_shift_splits(a5, b5);
    let a7 = crc_shift(a6);
    let b7 = crc_shift(b6);
    lemma_crc_shift_splits(a6, b6);
    lemma_crc_shift_splits(a7, b7);
}

/// A shift of a register whose top bit is clear only moves its bits up.
pub proof fn lemma_crc_shift_below(value: u16)
    requires
        value < 0x8000,
    ensures
        crc_shift(value) == value << 1,
{
    assert(((value << 1) ^ (if value & 0x8000 != 0 {
        0x1021u16
    } else {
        0u16
    })) == value << 1) by (bit_vector)
        requires
            value < 0x8000,
    ;
}

/// Eight shifts of a register that holds a byte in its lower half only move
/// the byte to the upper half.
pub proof fn lemma_crc_shift8_low(low: u16)
    requires
        low <= 0xFF,
    ensures
        crc_shift8(low) == low << 8,
{
    let s1 = low << 1;
    let s2 = low << 2;
    let s3 = low << 3;
    let s4 = low << 4;
    let s5 = low << 5;
    let s6 = low << 6;
    let s7 = low << 7;
    assert(low < 0x8000 && s1 < 0x8000 && s2 < 0x8000 && s3 < 0x8000 && s4 < 0x8000 && s5
        < 0x8000 && s6 < 0x8000 && s7 < 0x8000 && s1 << 1 == s2 && s2 << 1 == s3 && s3 << 1 == s4
        && s4 << 1 == s5 && s5 << 1 == s6 && s6 << 1 == s7 && s7 << 1 == low << 8)
        by (bit_vector)
        requires
            low <= 0xFF,
            s1 == low << 1,
            s2 == low << 2,
            s3 == low << 3,
            s4 == low << 4,
            s5 == low << 5,
            s6 == low << 6,
            s7 == low << 7,
    ;
    lemma_crc_shift_below(low);
    lemma_crc_shift_below(s1);
    lemma_crc_shift_below(s2);
    lemma_crc_shift_below(s3);
    lemma_crc_shift_below(s4);
    lemma_crc_shift_below(s5);
    lemma_crc_shift_below(s6);
    lemma_crc_shift_below(s7);
}

/// Taking a byte into the register is laying it over the upper half and
/// shifting eight times.
pub proof fn lemma_crc_update_shifts(crc: u16, byte: u8)
    ensures
        crc_update(crc, byte) == crc_shift8(crc ^ ((byte as u16) << 8)),
{
    let wide = byte as u16;
    let value = crc ^ (wide << 8);
    let index = ((crc >> 8) ^ wide) & 0xFF;
    let high = index << 8;
    let low = crc & 0xFF;
    assert(value == high ^ low && low <= 0xFF && low << 8 == crc << 8) by (bit_vector)
        requires
            wide <= 0xFF,
            value == crc ^ (wide << 8),
            index == ((crc >> 8) ^ wide) & 0xFF,
            high == index << 8,
            low == crc & 0xFF,
    ;
    lemma_crc_shift8_splits(high, low);
    lemma_crc_shift8_low(low);
    assert(crc_entry(index) == crc_shift8(high));
}

/// Taking a byte in tells apart two registers that take in the same byte,
/// and two bytes that the same register takes in.
pub proof fn lemma_crc_update_tells(first: u16, x: u8, second: u16, y: u8)
    requires
        (first != second && x == y) || (first == second && x != y),
    ensures
        crc_update(first, x) != crc_update(second, y),
{
    let wide_x = x as u16;
    let wide_y = y as u16;
    lemma_crc_update_shifts(first, x);
    lemma_crc_update_shifts(second, y);
    assert(first ^ (wide_x << 8) != second ^ (wide_y << 8)) by (bit_vector)
        requires
            wide_x <= 0xFF,
            wide_y <= 0xFF,
            (first != second && wide_x == wide_y) || (first == second && wide_x != wide_y),
    ;
    lemma_crc_shift8_tells(first ^ (wide_x << 8), second ^ (wide_y << 8));
}

/// The checksum tells apart two byte strings that differ in one byte.
pub proof fn lemma_crc_tells_one_byte(a: Seq<u8>, b: Seq<u8>, at: int)
    requires
        a.len() == b.len(),
        0 <= at < a.len(),
        a[at] != b[at],
        forall|i: int| 0 <= i < a.len() && i != at ==> a[i] == b[i],
    ensures
        crc16_xmodem(a) != crc16_xmodem(b),
    decreases a.len(),
{
    if at == a.len() - 1 {
        assert(a.drop_last() =~= b.drop_last());
        lemma_crc_update_tells(
            crc16_xmodem(a.drop_last()),
            a.last(),
            crc16_xmodem(b.drop_last()),
            b.last(),
        );
    } else {
        lemma_crc_tells_one_byte(a.drop_last(), b.drop_last(), at);
        lemma_crc_update_tells(
            crc16_xmodem(a.drop_last()),
            a.last(),
            crc16_xmodem(b.drop_last()),
            b.last(),
        );
    }
}

/// The frame `words` with one bit of one word flipped.
pub open spec fn flipped(words: Seq<u16>, word: int, bit: u16) -> Seq<u16> {
    words.update(word, words[word] ^ (1u16 << bit))
}

/// One flipped bit in the first six words never goes unseen: the checksum of
/// the frame is another, so that a frame that carried its checksum no longer
/// does.
pub proof fn lemma_flipped_bit_is_told(words: Seq<u16>, word: int, bit: u16)
    requires
        words.len() > CRC_IDX,
        0 <= word < HEADER_WORDS,
        bit < 16,
    ensures
        frame_crc(flipped(words, word, bit)) != frame_crc(words),
        flipped(words, word, bit)[CRC_IDX as int] == words[CRC_IDX as int],
        words[CRC_IDX as int] == frame_crc(words) ==> flipped(words, word, bit)[CRC_IDX as int]
            != frame_crc(flipped(words, word, bit)),
{
    let other = flipped(words, word, bit);
    let a = words_to_bytes(words.subrange(0, HEADER_WORDS as int));
    let b = words_to_bytes(other.subrange(0, HEADER_WORDS as int));
    let was = words[word];
    let now = was ^ (1u16 << bit);
    assert(other.subrange(0, HEADER_WORDS as int)[word] == now);
    assert(words.subrange(0, HEADER_WORDS as int)[word] == was);
    if bit < 8 {
        assert(((now & 0xFF) as u8) != ((was & 0xFF) as u8) && ((now >> 8) as u8) == ((was >> 8)
            as u8)) by (bit_vector)
            requires
                now == was ^ (1u16 << bit),
                bit < 8,
        ;
        assert(a[2 * word] != b[2 * word]);
        lemma_crc_tells_one_byte(a, b, 2 * word);
    } else {
        assert(((now & 0xFF) as u8) == ((was & 0xFF) as u8) && ((now >> 8) as u8) != ((was >> 8)
            as u8)) by (bit_vector)
            requires
                now == was ^ (1u16 << bit),
                8 <= bit < 16,
        ;
        assert(a[2 * word + 1] != b[2 * word + 1]);
        lemma_crc_tells_one_byte(a, b, 2 * word + 1);
    }
}

} // verus!
