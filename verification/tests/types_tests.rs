use newflasher::types::{
    c_reply, download_command, expect_header, get_data_length, get_data_payload,
    getvar_u32_value, read_reply_header, set_active_command, tar_entry_sent_whole, ByteVec,
    FastbootError, FastbootHeader, InvalidNumber, Slot,
};

#[test]
fn slot_other_swaps_and_names_read_back() {
    assert_eq!(Slot::A.other(), Slot::B);
    assert_eq!(Slot::B.other(), Slot::A);
    assert_eq!(Slot::A.other().other(), Slot::A);
    assert_eq!(Slot::A.as_str(), "a");
    assert_eq!(Slot::B.as_str(), "b");
    assert_eq!(Slot::parse("a"), Some(Slot::A));
    assert_eq!(Slot::parse("B"), Some(Slot::B));
    assert_eq!(Slot::parse("c"), None);
    assert_eq!(Slot::parse("ab"), None);
    assert_eq!(Slot::parse(""), None);
    assert_eq!(Slot::from("A"), Slot::A);
    assert_eq!(Slot::from(Slot::A.as_str()), Slot::A);
    assert_eq!(Slot::from(Slot::B.as_str().to_uppercase().as_str()), Slot::B);
    assert_eq!(Slot::parse(Slot::B.as_str()), Some(Slot::B));
}

#[test]
fn from_len_is_eight_lower_case_hex_digits() {
    assert_eq!(ByteVec::from_len(0).as_slice(), b"00000000");
    assert_eq!(ByteVec::from_len(0x1f4).as_slice(), b"000001f4");
    assert_eq!(ByteVec::from_len(0xdeadbeef).as_slice(), b"deadbeef");
    assert_eq!(ByteVec::from_len(0x1_0000_0000).as_slice(), b"100000000");
}

#[test]
fn from_len_reads_back_as_hexadecimal() {
    for n in [0usize, 1, 15, 16, 0x1000, 0x7fff_ffff, 0xffff_ffff] {
        assert_eq!(ByteVec::from_len(n).as_hexadecimal(), Ok(n as u32));
    }
}

#[test]
fn as_decimal_follows_from_str_radix() {
    assert_eq!(ByteVec::from_text("805306368").as_decimal(), Ok(805306368));
    assert_eq!(ByteVec::from_text("+12").as_decimal(), Ok(12));
    assert_eq!(ByteVec::from_text("4294967295").as_decimal(), Ok(u32::MAX));
    assert_eq!(ByteVec::from_text("4294967296").as_decimal(), Err(InvalidNumber));
    assert_eq!(ByteVec::from_text("").as_decimal(), Err(InvalidNumber));
    assert_eq!(ByteVec::from_text("+").as_decimal(), Err(InvalidNumber));
    assert_eq!(ByteVec::from_text("-1").as_decimal(), Err(InvalidNumber));
    assert_eq!(ByteVec::from_text("12a").as_decimal(), Err(InvalidNumber));
    assert_eq!(ByteVec::from_text(" 1").as_decimal(), Err(InvalidNumber));
    assert_eq!(ByteVec::from_slice(&[0xff, 0x31]).as_decimal(), Err(InvalidNumber));
}

#[test]
fn as_hexadecimal_accepts_either_case() {
    assert_eq!(ByteVec::from_text("0000BEEF").as_hexadecimal(), Ok(0xbeef));
    assert_eq!(ByteVec::from_text("beef").as_hexadecimal(), Ok(0xbeef));
    assert_eq!(ByteVec::from_text("FFFFFFFF").as_hexadecimal(), Ok(u32::MAX));
    assert_eq!(ByteVec::from_text("100000000").as_hexadecimal(), Err(InvalidNumber));
    assert_eq!(ByteVec::from_text("0x10").as_hexadecimal(), Err(InvalidNumber));
    assert_eq!(ByteVec::from_text("g").as_hexadecimal(), Err(InvalidNumber));
}

#[test]
fn byte_vec_append_and_compare() {
    let mut a = ByteVec::from_text("download:");
    let b = ByteVec::from_len(16);
    a.append(&b);
    assert_eq!(a.as_slice(), b"download:00000010");
    a.extend_vec(ByteVec::from(vec![b'!']));
    assert_eq!(a.len(), 18);
    assert!(a.eq_bytes(b"download:00000010!"));
    assert!(ByteVec::from_text("ab") == ByteVec::from_slice(b"ab"));
    assert!(ByteVec::from_text("ab") != ByteVec::from_slice(b"abc"));
    a.clear();
    assert!(a.is_empty());
    assert_eq!(ByteVec::new().into_vec(), Vec::<u8>::new());
    assert!(ByteVec::new() == ByteVec::default());
}

#[test]
fn header_is_read_from_the_whole_slice() {
    assert_eq!(FastbootHeader::from_bytes(b"OKAY"), FastbootHeader::Okay);
    assert_eq!(FastbootHeader::from_bytes(b"DATA"), FastbootHeader::Data);
    assert_eq!(FastbootHeader::from_bytes(b"FAIL"), FastbootHeader::Fail);
    assert_eq!(FastbootHeader::from_bytes(b"OKAY1"), FastbootHeader::NoHeader);
    assert_eq!(FastbootHeader::from_bytes(b"okay"), FastbootHeader::NoHeader);
    assert_eq!(FastbootHeader::from_bytes(b""), FastbootHeader::NoHeader);
}

fn reply_after(raw: &[u8]) -> (FastbootHeader, Vec<u8>) {
    let mut reply = ByteVec::from_slice(raw);
    let header = read_reply_header(&mut reply);
    (header, reply.into_vec())
}

#[test]
fn read_reply_strips_the_header() {
    assert_eq!(reply_after(b"OKAY"), (FastbootHeader::Okay, vec![]));
    assert_eq!(reply_after(b"OKAYyes"), (FastbootHeader::Okay, b"yes".to_vec()));
    assert_eq!(reply_after(b"FAILno such var"), (FastbootHeader::Fail, b"no such var".to_vec()));
    assert_eq!(reply_after(b"DATA00000030"), (FastbootHeader::Data, b"00000030".to_vec()));
    assert_eq!(reply_after(b"DATA00000030\0"), (FastbootHeader::Data, b"00000030".to_vec()));
    assert_eq!(reply_after(b"DATA0000003"), (FastbootHeader::Data, b"DATA0000003".to_vec()));
    assert_eq!(reply_after(b"OK"), (FastbootHeader::NoHeader, b"OK".to_vec()));
    assert_eq!(reply_after(b"INFOhello"), (FastbootHeader::NoHeader, b"INFOhello".to_vec()));
}

#[test]
fn download_and_set_active_commands() {
    assert_eq!(download_command(1), b"download:00000001".to_vec());
    assert_eq!(download_command(0x30000000), b"download:30000000".to_vec());
    assert_eq!(set_active_command(Slot::B), b"set_active:b".to_vec());
}

#[test]
fn getvar_u32_falls_back_to_the_default() {
    let reply = ByteVec::from_text("4096");
    assert_eq!(getvar_u32_value(FastbootHeader::Okay, &reply, 0), 4096);
    assert_eq!(getvar_u32_value(FastbootHeader::Fail, &reply, 7), 7);
    let reply = ByteVec::from_text("Battery not supported");
    assert_eq!(getvar_u32_value(FastbootHeader::Okay, &reply, 9), 9);
}

#[test]
fn get_data_steps() {
    assert_eq!(get_data_length(FastbootHeader::Data, &ByteVec::from_text("00000030")), Ok(48));
    assert_eq!(
        get_data_length(FastbootHeader::Okay, &ByteVec::from_text("00000030")),
        Err(FastbootError::UnexpectedHeader {
            expected: FastbootHeader::Data,
            received: FastbootHeader::Okay
        })
    );
    assert_eq!(
        get_data_length(FastbootHeader::Data, &ByteVec::from_text("zz")),
        Err(FastbootError::InvalidNumber)
    );
    assert_eq!(get_data_payload(4, &ByteVec::from_text("OKAY")), Ok(true));
    assert_eq!(get_data_payload(3, &ByteVec::from_text("abc")), Ok(false));
    assert_eq!(
        get_data_payload(5, &ByteVec::from_text("abc")),
        Err(FastbootError::LengthMismatch { announced: 5, received_len: 3 })
    );
    assert_eq!(expect_header(FastbootHeader::Okay, FastbootHeader::Okay), Ok(()));
}

#[test]
fn tar_entries_sent_whole_or_in_chunks() {
    assert!(!tar_entry_sent_whole(0xf));
    assert!(tar_entry_sent_whole(0x10));
    assert!(tar_entry_sent_whole(0x1fffff));
    assert!(!tar_entry_sent_whole(0x200000));
}

#[test]
fn c_reply_ends_with_nul() {
    assert_eq!(c_reply(b"yes", 10), b"ye\0".to_vec());
    assert_eq!(c_reply(b"hello", 3), b"he\0".to_vec());
    assert_eq!(c_reply(b"x", 1), b"\0".to_vec());
}

#[test]
fn download_echo_reads_back_the_announced_length() {
    for n in [1usize, 0x1234, 0xffff_ffff] {
        let announced = ByteVec::from_len(n);
        let mut reply = ByteVec::from_text("DATA");
        reply.append(&announced);
        assert_eq!(read_reply_header(&mut reply), FastbootHeader::Data);
        assert!(reply == announced);
    }
}
