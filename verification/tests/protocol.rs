use std::cell::RefCell;
use std::collections::VecDeque;
use std::rc::Rc;

use mcb::frame::{
    bytes_of_words, checksum, has_ext_bit, load_u16, load_u32, load_u64, load_u8, make_command,
    stamp, std_text_of, store_bytes, store_text, store_u16, store_u32, store_u64, store_u8,
    string_of, text_len, text_of, verify_crc, CFG_EXT_WRITE, CFG_STD_ACK, CFG_STD_READ,
    CFG_STD_WRITE, MAX_ADDRESS, MAX_SEGMENTS,
};
use mcb::mcb_main::{check_reply, create_main_mcb, Main};
use mcb::mcb_node::{check_request, copy_segment, create_node_mcb, CommandType, Node};
use mcb::transfer::await_data;
use mcb::{Config, ExtMode, IntfError, IntfResult, PhysicalInterface, MAX_FRAME_SIZE};

/// What a scripted transport holds: the frames it will deliver, the word runs
/// it was handed, and how it answers.
struct State {
    inbox: VecDeque<[u16; MAX_FRAME_SIZE]>,
    sent: Vec<Vec<u16>>,
    reads: usize,
    polls: usize,
    sums: usize,
    empties: usize,
    refuse_from: Option<usize>,
}

#[derive(Clone)]
struct Wire(Rc<RefCell<State>>);

impl Wire {
    fn new() -> Wire {
        Wire(Rc::new(RefCell::new(State {
            inbox: VecDeque::new(),
            sent: Vec::new(),
            reads: 0,
            polls: 0,
            sums: 0,
            empties: 0,
            refuse_from: None,
        })))
    }

    fn deliver(&self, frame: [u16; MAX_FRAME_SIZE]) {
        self.0.borrow_mut().inbox.push_back(frame);
    }

    fn sent(&self) -> Vec<Vec<u16>> {
        self.0.borrow().sent.clone()
    }

    fn untouched(&self) -> bool {
        let state = self.0.borrow();
        state.sent.is_empty() && state.reads == 0 && state.polls == 0 && state.sums == 0
    }
}

impl PhysicalInterface for Wire {
    fn raw_write(&mut self, frame: &[u16]) -> Result<IntfResult, IntfError> {
        let mut state = self.0.borrow_mut();
        state.sent.push(frame.to_vec());
        match state.refuse_from {
            Some(n) if state.sent.len() > n => Err(IntfError::Interface),
            _ => Ok(IntfResult::Success),
        }
    }

    fn raw_read(&mut self) -> Result<IntfResult, IntfError> {
        let mut state = self.0.borrow_mut();
        state.reads += 1;
        match state.inbox.pop_front() {
            Some(frame) => Ok(IntfResult::Data(Box::new(frame))),
            None => Err(IntfError::Interface),
        }
    }

    fn is_data2read(&mut self) -> Result<IntfResult, IntfError> {
        let mut state = self.0.borrow_mut();
        state.polls += 1;
        if state.empties > 0 {
            state.empties -= 1;
            Ok(IntfResult::Empty)
        } else {
            Ok(IntfResult::Success)
        }
    }

    fn crc_checksum(&mut self, frame: &[u16]) -> u16 {
        self.0.borrow_mut().sums += 1;
        xmodem_by_bits(frame)
    }
}

/// CRC-16/XMODEM over the first six words, bit by bit, as a peripheral would
/// compute it.
fn xmodem_by_bits(frame: &[u16]) -> u16 {
    let mut crc: u16 = 0;
    for word in &frame[..6] {
        for byte in [(word & 0xFF) as u8, (word >> 8) as u8] {
            crc ^= (byte as u16) << 8;
            for _ in 0..8 {
                crc = if crc & 0x8000 != 0 {
                    (crc << 1) ^ 0x1021
                } else {
                    crc << 1
                };
            }
        }
    }
    crc
}

/// A frame of the given first six words, with its checksum.
fn framed(head: [u16; 6]) -> [u16; MAX_FRAME_SIZE] {
    let mut frame = [0u16; MAX_FRAME_SIZE];
    frame[..6].copy_from_slice(&head);
    frame[6] = checksum(&frame);
    frame
}

fn main_on(wire: &Wire, mode: ExtMode) -> Main<Config, Wire> {
    create_main_mcb(Some(wire.clone()), mode, 1).init()
}

fn node_on(wire: &Wire, mode: ExtMode) -> Node<Config, Wire> {
    create_node_mcb(Some(wire.clone()), mode, 2).init()
}

#[test]
fn command_word_holds_opcode_and_address() {
    assert_eq!(make_command(CFG_STD_WRITE, 10), 0x00A4);
    assert_eq!(make_command(CFG_STD_READ, 0), 0x0002);
    assert_eq!(make_command(CFG_STD_ACK, MAX_ADDRESS), 0xFFF6);
    assert_eq!(make_command(CFG_EXT_WRITE, 0x0123), 0x1235);
}

#[test]
fn words_travel_low_byte_first() {
    let words: [u16; 3] = [0x1234, 0x00FF, 0xAB00];
    assert_eq!(bytes_of_words(&words, 0, 3), vec![0x34, 0x12, 0xFF, 0x00, 0x00, 0xAB]);
    assert_eq!(bytes_of_words(&words, 1, 2), vec![0xFF, 0x00]);
    assert_eq!(bytes_of_words(&words, 2, 2), Vec::<u8>::new());
}

#[test]
fn checksum_is_xmodem_of_twelve_bytes() {
    // "123456789" and three zero bytes
    let words: [u16; 6] = [0x3231, 0x3433, 0x3635, 0x3837, 0x0039, 0x0000];
    assert_eq!(checksum(&words), 0xB192);
    assert_eq!(checksum(&[2, 0x00A4, 0xA5A5, 0xA5A5, 0, 0]), 0xAF03);
    assert_eq!(checksum(&[0u16; 6]), 0x0000);
}

#[test]
fn checksum_covers_six_words_only() {
    let short: [u16; 6] = [2, 0x00A2, 0, 0, 0, 0];
    let long: [u16; 9] = [2, 0x00A2, 0, 0, 0, 0, 0xFFFF, 0x1234, 0x5678];
    assert_eq!(checksum(&short), 0x0559);
    assert_eq!(checksum(&long), 0x0559);
}

#[test]
fn checksum_agrees_with_bitwise_xmodem() {
    let mut words: [u16; 6] = [0; 6];
    for round in 0..200u32 {
        for (i, word) in words.iter_mut().enumerate() {
            *word = (round.wrapping_mul(2654435761).wrapping_add(i as u32 * 40503) >> 7) as u16;
        }
        assert_eq!(checksum(&words), xmodem_by_bits(&words));
    }
}

#[test]
fn sealed_frame_verifies_and_flipped_bit_does_not() {
    let frame = framed([2, 0x00A6, 0x00A5, 0, 0, 0]);
    assert_eq!(frame[6], 0x663B);
    assert!(verify_crc(&frame));
    for word in 0..6 {
        for bit in 0..16 {
            let mut broken = frame;
            broken[word] ^= 1 << bit;
            assert!(!verify_crc(&broken));
        }
    }
    let mut broken = frame;
    broken[6] ^= 0x0100;
    assert!(!verify_crc(&broken));
}

#[test]
fn values_lie_in_the_data_words_low_part_first() {
    let mut raw = [0xFFFFu16; MAX_FRAME_SIZE];
    store_u8(&mut raw, 0xA5);
    assert_eq!(raw[2], 0x00A5);
    store_u16(&mut raw, 0xBEEF);
    assert_eq!(raw[2], 0xBEEF);
    store_u32(&mut raw, 0x1234_5678);
    assert_eq!(&raw[2..4], &[0x5678, 0x1234]);
    store_u64(&mut raw, 0x0123_4567_89AB_CDEF);
    assert_eq!(&raw[2..6], &[0xCDEF, 0x89AB, 0x4567, 0x0123]);
    assert_eq!(raw[0], 0xFFFF);
    assert_eq!(raw[1], 0xFFFF);
    assert_eq!(raw[6], 0xFFFF);
}

#[test]
fn stored_values_are_loaded_again() {
    let mut raw = [0u16; MAX_FRAME_SIZE];
    for value in [0u8, 1, 0x7F, 0x80, 0xFF] {
        store_u8(&mut raw, value);
        assert_eq!(load_u8(&raw), value);
        store_u8(&mut raw, (value as i8) as u8);
        assert_eq!(load_u8(&raw) as i8, value as i8);
    }
    for value in [0u16, 1, 0x7FFF, 0x8000, 0xFFFF] {
        store_u16(&mut raw, value);
        assert_eq!(load_u16(&raw), value);
    }
    for value in [0u32, 1, 0x7FFF_FFFF, 0x8000_0000, 0xFFFF_FFFF, 0xA5A5_1234] {
        store_u32(&mut raw, value);
        assert_eq!(load_u32(&raw), value);
        assert_eq!(load_u32(&raw) as i32, value as i32);
    }
    for value in [0u64, 1, u64::MAX, 0x8000_0000_0000_0000, 0x0123_4567_89AB_CDEF] {
        store_u64(&mut raw, value);
        assert_eq!(load_u64(&raw), value);
        assert_eq!(load_u64(&raw) as i64, value as i64);
    }
}

#[test]
fn byte_load_ignores_the_high_byte() {
    let mut raw = [0u16; MAX_FRAME_SIZE];
    raw[2] = 0x12A5;
    assert_eq!(load_u8(&raw), 0xA5);
}

#[test]
fn stamp_sets_header_and_command() {
    let mut raw = [0x1111u16; MAX_FRAME_SIZE];
    stamp(&mut raw, 2, CFG_STD_WRITE, 10);
    assert_eq!(&raw[..3], &[0x0002, 0x00A4, 0x1111]);
}

#[test]
fn text_is_packed_two_bytes_a_word() {
    let mut raw = [0xFFFFu16; MAX_FRAME_SIZE];
    store_text(&mut raw, 2, b"abc", 0, 3);
    assert_eq!(&raw[1..6], &[0xFFFF, 0x6261, 0x0063, 0x0000, 0xFFFF]);

    let mut raw = [0xFFFFu16; MAX_FRAME_SIZE];
    store_text(&mut raw, 2, b"abcd", 0, 4);
    assert_eq!(&raw[2..6], &[0x6261, 0x6463, 0x0000, 0xFFFF]);

    let mut raw = [0xFFFFu16; MAX_FRAME_SIZE];
    store_text(&mut raw, 7, b"", 0, 0);
    assert_eq!(&raw[6..9], &[0xFFFF, 0x0000, 0xFFFF]);

    let mut raw = [0xFFFFu16; MAX_FRAME_SIZE];
    let next = store_bytes(&mut raw, 2, b"xxabcdexx", 2, 7);
    assert_eq!(next, 5);
    assert_eq!(&raw[2..6], &[0x6261, 0x6463, 0x0065, 0xFFFF]);
}

#[test]
fn text_ends_at_the_first_zero_byte() {
    assert_eq!(text_len(b"abc\0def"), 3);
    assert_eq!(text_len(b"abc"), 3);
    assert_eq!(text_len(b"\0abc"), 0);
    assert_eq!(text_len(b""), 0);
    assert_eq!(text_of(b"small\0\0\0"), "small");
    assert_eq!(text_of(b"12345678"), "12345678");
    assert_eq!(string_of(b"abcdef", 4), "abcd");
    assert_eq!(string_of(b"abcdef", 0), "");
    // one character for each byte, whatever the byte
    assert_eq!(text_of(&[0x41, 0xE9, 0xFF]), "A\u{e9}\u{ff}");
}

#[test]
fn std_text_reads_the_four_data_words() {
    let mut frame = framed([2, 0x00A6, 0x6261, 0x6463, 0x6665, 0x6867]);
    frame[7] = 0x6A69;
    assert_eq!(std_text_of(&frame), "abcdefgh");
    let frame = framed([2, 0x00A6, 0x6261, 0x0063, 0x6665, 0x6867]);
    assert_eq!(std_text_of(&frame), "abc");
}

#[test]
fn ext_bit_is_the_lowest_bit_of_the_command() {
    assert!(has_ext_bit(&framed([2, 0x00A7, 0, 0, 0, 0])));
    assert!(has_ext_bit(&framed([2, 0x00A5, 0, 0, 0, 0])));
    assert!(!has_ext_bit(&framed([2, 0x00A6, 0, 0, 0, 0])));
    assert!(!has_ext_bit(&framed([2, 0x00B4, 0, 0, 0, 0])));
}

#[test]
fn reply_is_judged_crc_first_then_subnode_then_command() {
    let good = framed([2, 0x00A6, 0x1234, 0x5678, 0, 0]);
    assert_eq!(check_reply(&good, good[6], 2, 10), Ok(()));
    assert_eq!(check_reply(&good, good[6] ^ 1, 2, 10), Err(IntfError::Crc));
    assert_eq!(check_reply(&good, good[6], 3, 10), Err(IntfError::Access(0)));
    assert_eq!(check_reply(&good, good[6], 2, 11), Err(IntfError::Access(0x5678_1234)));
    // a continuing acknowledgement is an answer too
    let continuing = framed([2, 0x00A7, 0, 0, 0, 0]);
    assert_eq!(check_reply(&continuing, continuing[6], 2, 10), Ok(()));
    // the subnode is the low nibble of the header
    let high = framed([0x00F2, 0x00A6, 0, 0, 0, 0]);
    assert_eq!(check_reply(&high, high[6], 2, 10), Ok(()));
    // wrong checksum and wrong subnode: the checksum is reported
    assert_eq!(check_reply(&good, 0, 3, 11), Err(IntfError::Crc));
    // wrong subnode and wrong command: the subnode is reported
    assert_eq!(check_reply(&good, good[6], 3, 11), Err(IntfError::Access(0)));
    // an error report carries its code
    let report = framed([2, 0x0108, 0x5000, 0x8000, 0, 0]);
    assert_eq!(check_reply(&report, report[6], 2, 0x0100), Err(IntfError::Access(0x8000_5000)));
}

#[test]
fn request_is_judged_crc_first_then_subnode_then_opcode() {
    let write = framed([2, 0x00A4, 0, 0, 0, 0]);
    assert_eq!(check_request(&write, write[6], 2), Ok(CommandType::Write));
    assert_eq!(check_request(&framed([2, 0x00A2, 0, 0, 0, 0]), 0x0559, 2), Ok(CommandType::Read));
    let ext_read = framed([2, 0x00A3, 0, 0, 0, 0]);
    assert_eq!(check_request(&ext_read, ext_read[6], 2), Ok(CommandType::ExtRead));
    let ext_write = framed([2, 0x00A5, 0, 0, 0, 0]);
    assert_eq!(check_request(&ext_write, ext_write[6], 2), Ok(CommandType::ExtWrite));
    for opcode in [0u16, 1, 6, 7, 8, 9, 0xA, 0xB, 0xC, 0xD, 0xE, 0xF] {
        let other = framed([2, 0x00A0 | opcode, 0, 0, 0, 0]);
        assert_eq!(check_request(&other, other[6], 2), Err(IntfError::WrongCommand));
    }
    assert_eq!(check_request(&write, write[6], 3), Err(IntfError::WrongSubnode));
    assert_eq!(check_request(&write, write[6] ^ 0x8000, 3), Err(IntfError::Crc));
    let idle_for_other = framed([5, 0x000E, 0, 0, 0, 0]);
    assert_eq!(
        check_request(&idle_for_other, idle_for_other[6], 2),
        Err(IntfError::WrongSubnode)
    );
}

#[test]
fn segment_is_copied_into_four_words() {
    let mut data = [0u16; MAX_FRAME_SIZE];
    let mut segment = [0u16; MAX_FRAME_SIZE];
    segment[..8].copy_from_slice(&[9, 9, 1, 2, 3, 4, 9, 9]);
    copy_segment(&mut data, 6, &segment);
    assert_eq!(&data[5..11], &[0, 1, 2, 3, 4, 0]);
    copy_segment(&mut data, MAX_FRAME_SIZE - 4, &segment);
    assert_eq!(&data[MAX_FRAME_SIZE - 5..], &[0, 1, 2, 3, 4]);
}

#[test]
fn main_write_u32_sends_one_sealed_frame() {
    let wire = Wire::new();
    wire.deliver(framed([2, 0x00A6, 0, 0, 0, 0]));
    let mut main = main_on(&wire, ExtMode::Extended);
    let result = main.write_u32(2, 10, 0xA5A5_A5A5);
    assert!(matches!(result, Ok(IntfResult::Success)));
    assert_eq!(wire.sent(), vec![vec![2, 0x00A4, 0xA5A5, 0xA5A5, 0, 0, 0xAF03]]);
}

#[test]
fn main_read_sends_the_request_and_reads_the_answer() {
    let wire = Wire::new();
    wire.deliver(framed([2, 0x00A6, 0x5678, 0x1234, 0, 0]));
    let mut main = main_on(&wire, ExtMode::Extended);
    assert!(matches!(main.read_u32(2, 10), Ok(0x1234_5678)));
    assert_eq!(wire.sent(), vec![vec![2, 0x00A2, 0, 0, 0, 0, 0x0559]]);

    wire.deliver(framed([2, 0x00A6, 1, 2, 3, 4]));
    assert!(matches!(main.read_u64(2, 10), Ok(0x0004_0003_0002_0001)));
    wire.deliver(framed([2, 0x00A6, 0x12A5, 0, 0, 0]));
    assert!(matches!(main.read_u8(2, 10), Ok(0xA5)));
    wire.deliver(framed([2, 0x00A6, 0x00A5, 0, 0, 0]));
    assert!(matches!(main.read_i8(2, 10), Ok(-91)));
    wire.deliver(framed([2, 0x00A6, 0xFFFE, 0, 0, 0]));
    assert!(matches!(main.read_i16(2, 10), Ok(-2)));
    wire.deliver(framed([2, 0x00A6, 0xFFFE, 0xFFFF, 0, 0]));
    assert!(matches!(main.read_i32(2, 10), Ok(-2)));
    wire.deliver(framed([2, 0x00A6, 0xFFFE, 0xFFFF, 0xFFFF, 0xFFFF]));
    assert!(matches!(main.read_i64(2, 10), Ok(-2)));
    wire.deliver(framed([2, 0x00A6, 0xBEEF, 0, 0, 0]));
    assert!(matches!(main.read_u16(2, 10), Ok(0xBEEF)));
}

#[test]
fn main_keeps_written_data_in_later_requests() {
    let wire = Wire::new();
    wire.deliver(framed([2, 0x00A6, 0, 0, 0, 0]));
    wire.deliver(framed([2, 0x00A6, 7, 0, 0, 0]));
    let mut main = main_on(&wire, ExtMode::Extended);
    assert!(main.write_u16(2, 10, 0xBEEF).is_ok());
    assert!(matches!(main.read_u16(2, 10), Ok(7)));
    let sent = wire.sent();
    assert_eq!(&sent[1][..6], &[2, 0x00A2, 0xBEEF, 0, 0, 0]);
    assert!(verify_crc(&sent[1]));
}

#[test]
fn main_fails_on_every_kind_of_bad_answer() {
    let wire = Wire::new();
    let mut main = main_on(&wire, ExtMode::Extended);
    // nothing comes in
    assert!(matches!(main.read_u8(2, 10), Err(IntfError::Interface)));
    // the checksum is wrong
    let mut broken = framed([2, 0x00A6, 0, 0, 0, 0]);
    broken[6] ^= 1;
    wire.deliver(broken);
    assert!(matches!(main.read_u8(2, 10), Err(IntfError::Crc)));
    // another subnode answers
    wire.deliver(framed([3, 0x00A6, 0x1111, 0x2222, 0, 0]));
    assert!(matches!(main.read_u8(2, 10), Err(IntfError::Access(0))));
    // the node reports an error
    wire.deliver(framed([2, 0x0108, 0x5000, 0x8000, 0, 0]));
    assert!(matches!(main.write_u8(2, 0x0100, 1), Err(IntfError::Access(0x8000_5000))));
    // an answer to another address
    wire.deliver(framed([2, 0x00B6, 0x0001, 0x0002, 0, 0]));
    assert!(matches!(main.read_u8(2, 10), Err(IntfError::Access(0x0002_0001))));
    // the endpoint goes on working
    wire.deliver(framed([2, 0x00A6, 0x0042, 0, 0, 0]));
    assert!(matches!(main.read_u8(2, 10), Ok(0x42)));
}

#[test]
fn main_does_not_read_where_the_transport_refuses_the_request() {
    let wire = Wire::new();
    wire.0.borrow_mut().refuse_from = Some(0);
    wire.deliver(framed([2, 0x00A6, 0, 0, 0, 0]));
    let mut main = main_on(&wire, ExtMode::Extended);
    assert!(matches!(main.write_u8(2, 10, 1), Err(IntfError::Interface)));
    assert_eq!(wire.0.borrow().reads, 0);
    assert_eq!(wire.0.borrow().polls, 0);
    assert_eq!(wire.0.borrow().inbox.len(), 1);
}

#[test]
fn main_polls_until_the_transport_is_no_longer_empty() {
    let wire = Wire::new();
    wire.0.borrow_mut().empties = 3;
    wire.deliver(framed([2, 0x00A6, 0x0042, 0, 0, 0]));
    let mut main = main_on(&wire, ExtMode::Extended);
    assert!(matches!(main.read_u8(2, 10), Ok(0x42)));
    assert_eq!(wire.0.borrow().polls, 4);
    assert_eq!(wire.0.borrow().reads, 1);
}

#[test]
fn checksum_of_the_transport_is_the_one_used() {
    let wire = Wire::new();
    wire.deliver(framed([2, 0x00A6, 0x0042, 0, 0, 0]));
    let mut main = main_on(&wire, ExtMode::Extended);
    assert!(matches!(main.read_u8(2, 10), Ok(0x42)));
    // once for the request and once for the answer
    assert_eq!(wire.0.borrow().sums, 2);
}

#[test]
fn last_address_is_accepted_and_the_next_is_not() {
    let wire = Wire::new();
    wire.deliver(framed([2, 0xFFF6, 0x0042, 0, 0, 0]));
    let mut main = main_on(&wire, ExtMode::Extended);
    assert!(matches!(main.read_u8(2, MAX_ADDRESS), Ok(0x42)));
    assert_eq!(wire.sent()[0][1], 0xFFF2);
    assert!(matches!(main.read_u8(2, MAX_ADDRESS + 1), Err(IntfError::AddressOutOfIndex)));
    assert_eq!(wire.sent().len(), 1);
}

#[test]
fn address_beyond_the_last_leaves_the_transport_alone() {
    for mode in [ExtMode::Extended, ExtMode::Segmented] {
        let wire = Wire::new();
        let mut main = main_on(&wire, mode);
        for add in [0x1000u16, 0x1001, 0x8000, 0xFFFF] {
            assert!(matches!(main.write_u8(2, add, 1), Err(IntfError::AddressOutOfIndex)));
            assert!(matches!(main.write_i8(2, add, 1), Err(IntfError::AddressOutOfIndex)));
            assert!(matches!(main.write_u16(2, add, 1), Err(IntfError::AddressOutOfIndex)));
            assert!(matches!(main.write_i16(2, add, 1), Err(IntfError::AddressOutOfIndex)));
            assert!(matches!(main.write_u32(2, add, 1), Err(IntfError::AddressOutOfIndex)));
            assert!(matches!(main.write_i32(2, add, 1), Err(IntfError::AddressOutOfIndex)));
            assert!(matches!(main.write_u64(2, add, 1), Err(IntfError::AddressOutOfIndex)));
            assert!(matches!(main.write_i64(2, add, 1), Err(IntfError::AddressOutOfIndex)));
            assert!(matches!(main.write_str(2, add, "abc"), Err(IntfError::AddressOutOfIndex)));
            assert!(matches!(
                main.write_str(2, add, "longer than eight"),
                Err(IntfError::AddressOutOfIndex)
            ));
            assert!(matches!(main.read_u8(2, add), Err(IntfError::AddressOutOfIndex)));
            assert!(matches!(main.read_i8(2, add), Err(IntfError::AddressOutOfIndex)));
            assert!(matches!(main.read_u16(2, add), Err(IntfError::AddressOutOfIndex)));
            assert!(matches!(main.read_i16(2, add), Err(IntfError::AddressOutOfIndex)));
            assert!(matches!(main.read_u32(2, add), Err(IntfError::AddressOutOfIndex)));
            assert!(matches!(main.read_i32(2, add), Err(IntfError::AddressOutOfIndex)));
            assert!(matches!(main.read_u64(2, add), Err(IntfError::AddressOutOfIndex)));
            assert!(matches!(main.read_i64(2, add), Err(IntfError::AddressOutOfIndex)));
            assert!(matches!(main.read_str(2, add), Err(IntfError::AddressOutOfIndex)));
        }
        assert!(wire.untouched());
    }
}

#[test]
fn string_of_seven_bytes_is_a_standard_write() {
    let wire = Wire::new();
    wire.deliver(framed([2, 0x00A6, 0, 0, 0, 0]));
    let mut main = main_on(&wire, ExtMode::Segmented);
    assert!(matches!(main.write_str(2, 10, "abcdefg"), Ok(IntfResult::Success)));
    let sent = wire.sent();
    assert_eq!(sent.len(), 1);
    assert_eq!(&sent[0][..6], &[2, 0x00A4, 0x6261, 0x6463, 0x6665, 0x0067]);
    assert!(verify_crc(&sent[0]));
    assert_eq!(wire.0.borrow().reads, 1);
}

#[test]
fn empty_string_is_a_standard_write_of_a_zero_word() {
    let wire = Wire::new();
    wire.deliver(framed([2, 0x00A6, 0, 0, 0, 0]));
    wire.deliver(framed([2, 0x00A6, 0, 0, 0, 0]));
    let mut main = main_on(&wire, ExtMode::Extended);
    assert!(main.write_u64(2, 10, u64::MAX).is_ok());
    assert!(matches!(main.write_str(2, 10, ""), Ok(IntfResult::Success)));
    assert_eq!(&wire.sent()[1][..6], &[2, 0x00A4, 0, 0xFFFF, 0xFFFF, 0xFFFF]);
}

#[test]
fn string_of_eight_bytes_goes_in_two_segments() {
    let wire = Wire::new();
    let mut main = main_on(&wire, ExtMode::Segmented);
    assert!(matches!(main.write_str(2, 10, "abcdefgh"), Ok(IntfResult::Success)));
    let sent = wire.sent();
    assert_eq!(sent.len(), 2);
    assert_eq!(&sent[0][..6], &[2, 0x00A5, 0x6261, 0x6463, 0x6665, 0x6867]);
    assert_eq!(&sent[1][..6], &[2, 0x00A4, 0x0000, 0x6463, 0x6665, 0x6867]);
    assert!(sent.iter().all(|frame| frame.len() == 7 && verify_crc(frame)));
    // no answer is waited for
    assert_eq!(wire.0.borrow().reads, 0);
}

#[test]
fn long_string_goes_in_segments_of_eight_bytes() {
    let wire = Wire::new();
    let mut main = main_on(&wire, ExtMode::Segmented);
    assert!(matches!(main.write_str(2, 10, "big_segmented"), Ok(IntfResult::Success)));
    let sent = wire.sent();
    assert_eq!(sent.len(), 2);
    assert_eq!(&sent[0][..6], &[2, 0x00A5, 0x6962, 0x5F67, 0x6573, 0x6D67]);
    assert_eq!(&sent[1][..6], &[2, 0x00A4, 0x6E65, 0x6574, 0x0064, 0x0000]);
    assert!(sent.iter().all(|frame| frame.len() == 7 && verify_crc(frame)));

    let wire = Wire::new();
    let mut main = main_on(&wire, ExtMode::Segmented);
    let text = "0123456789abcdefghijklmnopqrstuvwxyz";
    assert!(main.write_str(2, 10, text).is_ok());
    let sent = wire.sent();
    assert_eq!(sent.len(), 5);
    for frame in &sent[..4] {
        assert_eq!(frame[1], 0x00A5);
    }
    assert_eq!(sent[4][1], 0x00A4);
    assert_eq!(&sent[4][2..5], &[0x7877, 0x7A79, 0x0000]);
}

#[test]
fn segments_stop_where_the_transport_fails() {
    let wire = Wire::new();
    wire.0.borrow_mut().refuse_from = Some(1);
    let mut main = main_on(&wire, ExtMode::Segmented);
    let result = main.write_str(2, 10, "0123456789abcdefghijklmnopqrstuvwxyz");
    assert!(matches!(result, Err(IntfError::Interface)));
    assert_eq!(wire.sent().len(), 2);
}

#[test]
fn long_string_goes_in_one_extended_frame() {
    let wire = Wire::new();
    let mut main = main_on(&wire, ExtMode::Extended);
    assert!(matches!(main.write_str(2, 10, "big_extended"), Ok(IntfResult::Success)));
    let sent = wire.sent();
    assert_eq!(sent.len(), 1);
    assert_eq!(sent[0].len(), 7 + 12);
    assert_eq!(&sent[0][..6], &[2, 0x00A5, 12, 0, 0, 0]);
    assert!(verify_crc(&sent[0]));
    assert_eq!(&sent[0][7..14], &[0x6962, 0x5F67, 0x7865, 0x6574, 0x646E, 0x6465, 0x0000]);
    assert_eq!(wire.0.borrow().reads, 0);
}

#[test]
fn longest_extended_string_fills_the_frame() {
    let wire = Wire::new();
    let mut main = main_on(&wire, ExtMode::Extended);
    let text = "x".repeat(MAX_FRAME_SIZE - 7);
    assert!(matches!(main.write_str(2, 10, &text), Ok(IntfResult::Success)));
    let sent = wire.sent();
    assert_eq!(sent[0].len(), MAX_FRAME_SIZE);
    assert_eq!(sent[0][2], 121);
    assert_eq!(sent[0][7 + 60], 0x0078);
    assert_eq!(sent[0][7 + 61], 0x0000);
}

#[test]
fn main_reads_a_string_as_the_answer_says() {
    let wire = Wire::new();
    let mut main = main_on(&wire, ExtMode::Extended);
    wire.deliver(framed([2, 0x00A6, 0x6D73, 0x6C61, 0x006C, 0]));
    assert_eq!(main.read_str(2, 10).unwrap(), "small");

    let mut long = framed([2, 0x00A7, 12, 0, 0, 0]);
    long[7..13].copy_from_slice(&[0x6962, 0x5F67, 0x7865, 0x6574, 0x646E, 0x6465]);
    wire.deliver(long);
    assert_eq!(main.read_str(2, 10).unwrap(), "big_extended");

    // the length decides, not a zero byte
    let mut short = framed([2, 0x00A7, 3, 0, 0, 0]);
    short[7..10].copy_from_slice(&[0x6261, 0x6463, 0x6665]);
    wire.deliver(short);
    assert_eq!(main.read_str(2, 10).unwrap(), "abc");

    // a length beyond the frame is cut to what the frame holds
    let mut over = framed([2, 0x00A7, 0xFFFF, 0, 0, 0]);
    for word in over[7..].iter_mut() {
        *word = 0x6161;
    }
    wire.deliver(over);
    assert_eq!(main.read_str(2, 10).unwrap(), "a".repeat(2 * (MAX_FRAME_SIZE - 7)));

    let mut broken = framed([2, 0x00A7, 3, 0, 0, 0]);
    broken[6] ^= 1;
    wire.deliver(broken);
    assert!(matches!(main.read_str(2, 10), Err(IntfError::Crc)));
    assert!(matches!(main.read_str(2, 10), Err(IntfError::Interface)));
}

#[test]
fn main_joins_segments_until_one_closes() {
    let wire = Wire::new();
    let mut main = main_on(&wire, ExtMode::Segmented);
    wire.deliver(framed([2, 0x00A7, 0x6962, 0x5F67, 0x6573, 0x6D67]));
    wire.deliver(framed([2, 0x00A6, 0x6E65, 0x6574, 0x0064, 0]));
    assert_eq!(main.read_str(2, 10).unwrap(), "big_segmented");
    let sent = wire.sent();
    assert_eq!(sent.len(), 2);
    assert_eq!(sent[0], vec![2, 0x00A2, 0, 0, 0, 0, 0x0559]);
    assert_eq!(sent[1], sent[0]);

    // a segment that fails ends the read with its error
    wire.deliver(framed([2, 0x00A7, 0x6962, 0x5F67, 0x6573, 0x6D67]));
    wire.deliver(framed([3, 0x00A6, 0x6E65, 0x6574, 0x0064, 0]));
    assert!(matches!(main.read_str(2, 10), Err(IntfError::Access(0))));
    wire.deliver(framed([2, 0x00A7, 0x6962, 0x5F67, 0x6573, 0x6D67]));
    assert!(matches!(main.read_str(2, 10), Err(IntfError::Interface)));
}

#[test]
fn main_reads_on_as_long_as_segments_continue() {
    let wire = Wire::new();
    let mut main = main_on(&wire, ExtMode::Segmented);
    for _ in 0..100 {
        wire.deliver(framed([2, 0x00A7, 0x6161, 0x6161, 0x6161, 0x6161]));
    }
    wire.deliver(framed([2, 0x00A6, 0x6262, 0, 0, 0]));
    wire.deliver(framed([2, 0x00A6, 0x6363, 0, 0, 0]));
    let text = main.read_str(2, 10).unwrap();
    assert_eq!(text, "a".repeat(800) + "bb");
    assert_eq!(wire.sent().len(), 101);
    assert_eq!(wire.0.borrow().polls, 101);
    assert_eq!(wire.0.borrow().reads, 101);
    assert_eq!(wire.0.borrow().inbox.len(), 1);
}

#[test]
fn node_takes_in_a_write() {
    let wire = Wire::new();
    wire.deliver(framed([2, 0x00A4, 0xA5A5, 0xA5A5, 0, 0]));
    let mut node = node_on(&wire, ExtMode::Extended);
    let request = node.read().unwrap();
    assert_eq!(request.subnode, 2);
    assert_eq!(request.address, 10);
    assert_eq!(request.command, CommandType::Write);
    assert_eq!(node.get_data_u32(&request), 0xA5A5_A5A5);
    assert_eq!(node.get_data_i32(&request), 0xA5A5_A5A5u32 as i32);
    assert_eq!(node.get_data_u16(&request), 0xA5A5);
    assert_eq!(node.get_data_i16(&request), 0xA5A5u16 as i16);
    assert_eq!(node.get_data_u8(&request), 0xA5);
    assert_eq!(node.get_data_i8(&request), 0xA5u8 as i8);
    assert_eq!(node.get_data_u64(&request), 0xA5A5_A5A5);
    assert_eq!(node.get_data_i64(&request), 0xA5A5_A5A5);
    assert!(wire.sent().is_empty());
}

#[test]
fn node_takes_the_subnode_from_the_low_nibble() {
    let wire = Wire::new();
    wire.deliver(framed([0x0AB2, 0xFFF2, 0, 0, 0, 0]));
    let mut node = node_on(&wire, ExtMode::Extended);
    let request = node.read().unwrap();
    assert_eq!(request.subnode, 2);
    assert_eq!(request.address, MAX_ADDRESS);
    assert_eq!(request.command, CommandType::Read);
}

#[test]
fn node_fails_on_every_kind_of_bad_request() {
    let wire = Wire::new();
    let mut node = node_on(&wire, ExtMode::Extended);
    assert!(matches!(node.read(), Err(IntfError::Interface)));
    let mut broken = framed([2, 0x00A4, 0, 0, 0, 0]);
    broken[3] ^= 0x0010;
    wire.deliver(broken);
    assert!(matches!(node.read(), Err(IntfError::Crc)));
    wire.deliver(framed([3, 0x00A4, 0, 0, 0, 0]));
    assert!(matches!(node.read(), Err(IntfError::WrongSubnode)));
    wire.deliver(framed([2, 0x00A6, 0, 0, 0, 0]));
    assert!(matches!(node.read(), Err(IntfError::WrongCommand)));
    wire.deliver(framed([2, 0x000E, 0, 0, 0, 0]));
    assert!(matches!(node.read(), Err(IntfError::WrongCommand)));
    // the endpoint goes on working
    wire.deliver(framed([2, 0x00A2, 0, 0, 0, 0]));
    assert!(node.read().is_ok());
    assert!(wire.sent().is_empty());
}

#[test]
fn node_answers_with_its_own_subnode() {
    let wire = Wire::new();
    let mut node = node_on(&wire, ExtMode::Extended);
    assert!(matches!(node.write_u8(10, 0xA5), Ok(IntfResult::Success)));
    assert!(node.ack(11).is_ok());
    assert!(node.write_u64(12, 0x0123_4567_89AB_CDEF).is_ok());
    assert!(node.write_i16(13, -2).is_ok());
    assert!(node.write_i8(13, -2).is_ok());
    assert!(node.write_i32(13, -2).is_ok());
    assert!(node.write_i64(13, -2).is_ok());
    assert!(node.write_u16(13, 7).is_ok());
    assert!(node.write_u32(13, 0x0001_0002).is_ok());
    let sent = wire.sent();
    assert_eq!(sent[0], vec![2, 0x00A6, 0x00A5, 0, 0, 0, 0x663B]);
    assert_eq!(&sent[1][..6], &[2, 0x00B6, 0x00A5, 0, 0, 0]);
    assert_eq!(&sent[2][..6], &[2, 0x00C6, 0xCDEF, 0x89AB, 0x4567, 0x0123]);
    assert_eq!(&sent[3][..6], &[2, 0x00D6, 0xFFFE, 0x89AB, 0x4567, 0x0123]);
    assert_eq!(&sent[4][..6], &[2, 0x00D6, 0x00FE, 0x89AB, 0x4567, 0x0123]);
    assert_eq!(&sent[5][..6], &[2, 0x00D6, 0xFFFE, 0xFFFF, 0x4567, 0x0123]);
    assert_eq!(&sent[6][..6], &[2, 0x00D6, 0xFFFE, 0xFFFF, 0xFFFF, 0xFFFF]);
    assert_eq!(&sent[7][..6], &[2, 0x00D6, 0x0007, 0xFFFF, 0xFFFF, 0xFFFF]);
    assert_eq!(&sent[8][..6], &[2, 0x00D6, 0x0002, 0x0001, 0xFFFF, 0xFFFF]);
    assert!(sent.iter().all(|frame| frame.len() == 7 && verify_crc(frame)));
}

#[test]
fn node_reports_an_error_with_its_code() {
    let wire = Wire::new();
    let mut node = node_on(&wire, ExtMode::Extended);
    assert!(matches!(node.error(0x0100, 0x8000_5000), Ok(IntfResult::Success)));
    assert_eq!(wire.sent(), vec![vec![2, 0x0108, 0x5000, 0x8000, 0, 0, 0x6FC5]]);
}

#[test]
fn node_hands_on_the_answer_of_the_transport() {
    let wire = Wire::new();
    wire.0.borrow_mut().refuse_from = Some(0);
    let mut node = node_on(&wire, ExtMode::Extended);
    assert!(matches!(node.write_u8(10, 1), Err(IntfError::Interface)));
    assert!(matches!(node.write_str(10, "abc"), Err(IntfError::Interface)));
    assert!(matches!(node.write_str(10, "big_extended"), Err(IntfError::Interface)));
}

#[test]
fn node_listens_through_the_transport() {
    let wire = Wire::new();
    wire.0.borrow_mut().empties = 2;
    let mut node = node_on(&wire, ExtMode::Extended);
    assert!(matches!(node.listen(), Ok(IntfResult::Empty)));
    assert!(matches!(node.listen(), Ok(IntfResult::Empty)));
    assert!(matches!(node.listen(), Ok(IntfResult::Success)));
    assert_eq!(wire.0.borrow().polls, 3);
}

#[test]
fn node_answers_with_a_string() {
    let wire = Wire::new();
    let mut node = node_on(&wire, ExtMode::Extended);
    assert!(node.write_str(10, "small").is_ok());
    assert!(node.write_str(10, "big_extended").is_ok());
    let sent = wire.sent();
    assert_eq!(&sent[0][..6], &[2, 0x00A6, 0x6D73, 0x6C61, 0x006C, 0]);
    assert_eq!(sent[1].len(), 19);
    assert_eq!(&sent[1][..6], &[2, 0x00A7, 12, 0x6C61, 0x006C, 0]);
    assert!(verify_crc(&sent[1]));
    assert_eq!(&sent[1][7..14], &[0x6962, 0x5F67, 0x7865, 0x6574, 0x646E, 0x6465, 0x0000]);

    let wire = Wire::new();
    let mut node = node_on(&wire, ExtMode::Segmented);
    assert!(node.write_str(10, "big_segmented").is_ok());
    let sent = wire.sent();
    assert_eq!(sent.len(), 2);
    assert_eq!(&sent[0][..6], &[2, 0x00A7, 0x6962, 0x5F67, 0x6573, 0x6D67]);
    assert_eq!(&sent[1][..6], &[2, 0x00A6, 0x6E65, 0x6574, 0x0064, 0x0000]);
}

#[test]
fn node_reads_a_string_by_the_kind_of_the_request() {
    let wire = Wire::new();
    let mut node = node_on(&wire, ExtMode::Extended);
    wire.deliver(framed([2, 0x00A4, 0x6D73, 0x6C61, 0x006C, 0]));
    let request = node.read().unwrap();
    assert_eq!(node.get_data_str(&request), "small");

    let mut long = framed([2, 0x00A5, 12, 0, 0, 0]);
    long[7..13].copy_from_slice(&[0x6962, 0x5F67, 0x7865, 0x6574, 0x646E, 0x6465]);
    wire.deliver(long);
    let request = node.read().unwrap();
    assert_eq!(request.command, CommandType::ExtWrite);
    assert_eq!(node.get_data_str(&request), "big_extended");
    assert!(wire.sent().is_empty());
}

#[test]
fn node_gathers_segments_and_acknowledges_each() {
    let wire = Wire::new();
    let mut node = node_on(&wire, ExtMode::Segmented);
    wire.deliver(framed([2, 0x00A5, 0x3130, 0x3332, 0x3534, 0x3736]));
    wire.deliver(framed([2, 0x00A5, 0x3938, 0x6261, 0x6463, 0x6665]));
    wire.deliver(framed([2, 0x00A4, 0x6867, 0x0069, 0, 0]));
    let request = node.read().unwrap();
    assert_eq!(request.address, 10);
    assert_eq!(request.command, CommandType::ExtWrite);
    assert_eq!(node.get_data_str(&request), "0123456789abcdefghi");
    let sent = wire.sent();
    assert_eq!(sent.len(), 2);
    assert_eq!(&sent[0][..2], &[2, 0x00A6]);
    assert_eq!(sent[0], sent[1]);
    assert!(verify_crc(&sent[0]));
}

#[test]
fn node_fails_where_a_segment_is_broken_or_missing() {
    let wire = Wire::new();
    let mut node = node_on(&wire, ExtMode::Segmented);
    wire.deliver(framed([2, 0x00A5, 0x3130, 0x3332, 0x3534, 0x3736]));
    let mut broken = framed([2, 0x00A4, 0x6867, 0x0069, 0, 0]);
    broken[6] ^= 0x4000;
    wire.deliver(broken);
    assert!(matches!(node.read(), Err(IntfError::Crc)));
    assert_eq!(wire.sent().len(), 1);

    wire.deliver(framed([2, 0x00A5, 0x3130, 0x3332, 0x3534, 0x3736]));
    assert!(matches!(node.read(), Err(IntfError::Interface)));
    assert_eq!(wire.sent().len(), 2);

    let wire = Wire::new();
    wire.0.borrow_mut().refuse_from = Some(0);
    let mut node = node_on(&wire, ExtMode::Segmented);
    wire.deliver(framed([2, 0x00A5, 0x3130, 0x3332, 0x3534, 0x3736]));
    wire.deliver(framed([2, 0x00A4, 0x6867, 0x0069, 0, 0]));
    assert!(matches!(node.read(), Err(IntfError::Interface)));
    assert_eq!(wire.0.borrow().reads, 1);
}

#[test]
fn node_gathers_no_more_than_the_buffer_holds() {
    let wire = Wire::new();
    let mut node = node_on(&wire, ExtMode::Segmented);
    for _ in 0..MAX_SEGMENTS - 1 {
        wire.deliver(framed([2, 0x00A5, 0x6161, 0x6161, 0x6161, 0x6161]));
    }
    wire.deliver(framed([2, 0x00A4, 0x6262, 0x6262, 0x6262, 0x0062]));
    let request = node.read().unwrap();
    assert_eq!(
        node.get_data_str(&request),
        "a".repeat(8 * (MAX_SEGMENTS - 1)) + "bbbbbbb"
    );
    assert_eq!(wire.sent().len(), MAX_SEGMENTS - 1);

    let wire = Wire::new();
    let mut node = node_on(&wire, ExtMode::Segmented);
    for _ in 0..MAX_SEGMENTS + 1 {
        wire.deliver(framed([2, 0x00A5, 0x6161, 0x6161, 0x6161, 0x6161]));
    }
    assert!(matches!(node.read(), Err(IntfError::Interface)));
    assert_eq!(wire.sent().len(), MAX_SEGMENTS - 1);
    assert_eq!(wire.0.borrow().inbox.len(), 1);
}

#[test]
fn node_made_for_extended_frames_gathers_nothing() {
    let wire = Wire::new();
    let mut node = node_on(&wire, ExtMode::Extended);
    wire.deliver(framed([2, 0x00A5, 3, 0, 0, 0]));
    wire.deliver(framed([2, 0x00A4, 0, 0, 0, 0]));
    let request = node.read().unwrap();
    assert_eq!(request.command, CommandType::ExtWrite);
    assert_eq!(wire.0.borrow().inbox.len(), 1);
    assert!(wire.sent().is_empty());
}

#[test]
fn short_request_to_a_segmented_node_is_one_frame() {
    let wire = Wire::new();
    let mut node = node_on(&wire, ExtMode::Segmented);
    wire.deliver(framed([2, 0x00A4, 0x6D73, 0x6C61, 0x006C, 0]));
    wire.deliver(framed([2, 0x00A4, 0, 0, 0, 0]));
    let request = node.read().unwrap();
    assert_eq!(request.command, CommandType::Write);
    assert_eq!(node.get_data_str(&request), "small");
    assert_eq!(wire.0.borrow().inbox.len(), 1);
    assert!(wire.sent().is_empty());
}

#[test]
fn endpoints_pass_through_their_states() {
    let wire = Wire::new();
    wire.deliver(framed([2, 0x00A6, 0x0042, 0, 0, 0]));
    let main = create_main_mcb(Some(wire.clone()), ExtMode::Extended, 1);
    let main = main.init().into_cyclic().into_config().into_cyclic().into_config();
    let mut main = main;
    assert!(main.write_u16(2, 10, 0xBEEF).is_ok());
    let mut main = main.into_cyclic().into_config();
    wire.deliver(framed([2, 0x00A6, 0x0042, 0, 0, 0]));
    assert!(matches!(main.read_u8(2, 10), Ok(0x42)));
    // the working frame came along
    assert_eq!(&wire.sent()[1][..3], &[2, 0x00A2, 0xBEEF]);

    let node_wire = Wire::new();
    node_wire.deliver(framed([2, 0x00A2, 0, 0, 0, 0]));
    let node = create_node_mcb(Some(node_wire.clone()), ExtMode::Extended, 2);
    let mut node = node.init().into_cyclic().into_config();
    assert!(node.read().is_ok());
    assert!(wire.0.borrow().inbox.is_empty());
}

/// Carries the last frame handed to `from` over to `to`.
fn carry(from: &Wire, to: &Wire) {
    let mut frame = [0u16; MAX_FRAME_SIZE];
    let sent = from.sent();
    let last = sent.last().unwrap();
    frame[..last.len()].copy_from_slice(last);
    to.deliver(frame);
}

#[test]
fn what_the_main_writes_the_node_reads() {
    let values: [u64; 5] = [0, 1, 0x8000_0000_0000_0000, u64::MAX, 0x0123_4567_89AB_CDEF];
    for (i, value) in values.iter().enumerate() {
        let address: u16 = (i as u16) * 0x03FF;
        let main_wire = Wire::new();
        let node_wire = Wire::new();
        let mut main = main_on(&main_wire, ExtMode::Extended);
        let mut node = node_on(&node_wire, ExtMode::Extended);
        // no answer waits yet: the write fails, but its request went out
        assert!(matches!(main.write_u64(2, address, *value), Err(IntfError::Interface)));
        carry(&main_wire, &node_wire);
        let request = node.read().unwrap();
        assert_eq!(request.subnode, 2);
        assert_eq!(request.address, address);
        assert_eq!(request.command, CommandType::Write);
        assert_eq!(node.get_data_u64(&request), *value);
        assert_eq!(node.get_data_i64(&request), *value as i64);
    }
}

#[test]
fn what_the_node_answers_the_main_reads() {
    let values: [u32; 5] = [0, 1, 0x8000_0000, u32::MAX, 0x0123_4567];
    for (i, value) in values.iter().enumerate() {
        let address: u16 = (i as u16) * 0x03FF;
        let main_wire = Wire::new();
        let node_wire = Wire::new();
        let mut main = main_on(&main_wire, ExtMode::Extended);
        let mut node = node_on(&node_wire, ExtMode::Extended);
        assert!(node.write_u32(address, *value).is_ok());
        carry(&node_wire, &main_wire);
        assert!(matches!(main.read_u32(2, address), Ok(v) if v == *value));
        assert!(node.write_i32(address, *value as i32).is_ok());
        carry(&node_wire, &main_wire);
        assert!(matches!(main.read_i32(2, address), Ok(v) if v == *value as i32));
        // an acknowledgement for the address lets a write succeed
        assert!(node.ack(address).is_ok());
        carry(&node_wire, &main_wire);
        assert!(matches!(main.write_u32(2, address, 5), Ok(IntfResult::Success)));
        // an error report fails it with the code
        assert!(node.error(address, *value).is_ok());
        carry(&node_wire, &main_wire);
        assert!(matches!(main.write_u32(2, address, 5), Err(IntfError::Access(code)) if code == *value));
    }
}

#[test]
fn strings_pass_from_one_endpoint_to_the_other() {
    for mode in [ExtMode::Extended, ExtMode::Segmented] {
        for text in ["", "a", "small", "1234567", "12345678", "big_extended", "big_segmented",
            "0123456789abcdefghijklmnopqrstuvwxyz"]
        {
            let main_wire = Wire::new();
            let node_wire = Wire::new();
            let mut main = main_on(&main_wire, mode);
            let mut node = node_on(&node_wire, mode);
            let _ = main.write_str(2, 0x0123, text);
            for frame in main_wire.sent() {
                let mut carried = [0u16; MAX_FRAME_SIZE];
                carried[..frame.len()].copy_from_slice(&frame);
                node_wire.deliver(carried);
            }
            let request = node.read().unwrap();
            assert_eq!(request.address, 0x0123);
            assert_eq!(node.get_data_str(&request), text);

            let answers = node_wire.sent().len();
            assert!(node.write_str(0x0123, text).is_ok());
            for frame in &node_wire.sent()[answers..] {
                let mut carried = [0u16; MAX_FRAME_SIZE];
                carried[..frame.len()].copy_from_slice(frame);
                main_wire.deliver(carried);
            }
            assert_eq!(main.read_str(2, 0x0123).unwrap(), text);
        }
    }
}

/// A transport that cannot tell whether a frame waits.
struct Mute;

impl PhysicalInterface for Mute {
    fn raw_write(&mut self, _frame: &[u16]) -> Result<IntfResult, IntfError> {
        Ok(IntfResult::Success)
    }

    fn raw_read(&mut self) -> Result<IntfResult, IntfError> {
        Err(IntfError::Interface)
    }

    fn is_data2read(&mut self) -> Result<IntfResult, IntfError> {
        Ok(IntfResult::Success)
    }
}

/// A transport that finds nothing for a while and then answers as it was
/// told to.
struct Waiting {
    empties: usize,
    polls: usize,
    fails: bool,
}

impl PhysicalInterface for Waiting {
    fn raw_write(&mut self, _frame: &[u16]) -> Result<IntfResult, IntfError> {
        Ok(IntfResult::Success)
    }

    fn raw_read(&mut self) -> Result<IntfResult, IntfError> {
        Err(IntfError::Interface)
    }

    fn is_data2read(&mut self) -> Result<IntfResult, IntfError> {
        self.polls += 1;
        if self.polls <= self.empties {
            Ok(IntfResult::Empty)
        } else if self.fails {
            Err(IntfError::Access(7))
        } else {
            Ok(IntfResult::Ready)
        }
    }
}

#[test]
fn transport_that_cannot_tell_says_a_frame_waits() {
    let mut mute = Mute;
    assert!(matches!(mute.is_data2read(), Ok(IntfResult::Success)));
    assert!(matches!(await_data(&mut mute), Ok(IntfResult::Success)));
    let mut node = create_node_mcb(Some(Mute), ExtMode::Extended, 2).init();
    assert!(matches!(node.listen(), Ok(IntfResult::Success)));
}

#[test]
fn wait_ends_with_the_first_answer_that_is_not_empty() {
    let mut link = Waiting { empties: 0, polls: 0, fails: false };
    assert!(matches!(await_data(&mut link), Ok(IntfResult::Ready)));
    assert_eq!(link.polls, 1);

    let mut link = Waiting { empties: 5, polls: 0, fails: false };
    assert!(matches!(await_data(&mut link), Ok(IntfResult::Ready)));
    assert_eq!(link.polls, 6);

    let mut link = Waiting { empties: 2, polls: 0, fails: true };
    assert!(matches!(await_data(&mut link), Err(IntfError::Access(7))));
    assert_eq!(link.polls, 3);
}

#[test]
fn listen_hands_on_each_answer_of_the_transport() {
    let link = Waiting { empties: 1, polls: 0, fails: true };
    let mut node = create_node_mcb(Some(link), ExtMode::Extended, 2).init();
    assert!(matches!(node.listen(), Ok(IntfResult::Empty)));
    assert!(matches!(node.listen(), Err(IntfError::Access(7))));

    let link = Waiting { empties: 0, polls: 0, fails: false };
    let mut node = create_node_mcb(Some(link), ExtMode::Extended, 2).init();
    assert!(matches!(node.listen(), Ok(IntfResult::Ready)));
}
