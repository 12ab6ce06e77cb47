use forensic_adb::numbers::{decimal, hex4, parse_number, ParseIntError};
use forensic_adb::wire::{
    decode_text, encode_message, read_length, read_length_little_endian,
    write_length_little_endian,
};
use forensic_adb::{DeviceError, Result, SyncCommand};
use std::io::Read;

fn read_length_of(message: &str) -> Result<usize> {
    let mut stream = message.as_bytes();
    let mut bytes: [u8; 4] = [0; 4];
    stream.read_exact(&mut bytes).map_err(DeviceError::Io)?;
    read_length(&bytes)
}

#[test]
fn read_length_from_valid_string() {
    assert_eq!(read_length_of("0000").unwrap(), 0);
    assert_eq!(read_length_of("0001").unwrap(), 1);
    assert_eq!(read_length_of("000F").unwrap(), 15);
    assert_eq!(read_length_of("00FF").unwrap(), 255);
    assert_eq!(read_length_of("0FFF").unwrap(), 4095);
    assert_eq!(read_length_of("FFFF").unwrap(), 65535);

    assert_eq!(read_length_of("FFFF0").unwrap(), 65535);
}

#[test]
fn read_length_from_invalid_string() {
    read_length_of("").expect_err("empty string");
    read_length_of("G").expect_err("invalid hex character");
    read_length_of("-1").expect_err("negative number");
    read_length_of("000").expect_err("shorter than 4 bytes");
}

#[test]
fn read_length_of_four_wrong_bytes() {
    assert!(matches!(
        read_length_of("00G0"),
        Err(DeviceError::ParseInt(ParseIntError::InvalidDigit))
    ));
    assert!(matches!(
        read_length_of("-001"),
        Err(DeviceError::ParseInt(ParseIntError::InvalidDigit))
    ));
    assert!(matches!(read_length(&[0x30, 0x30, 0xff, 0x30]), Err(DeviceError::Utf8(_))));
    assert_eq!(read_length_of("+00f").unwrap(), 15);
    assert_eq!(read_length_of("abcd").unwrap(), 0xabcd);
}

#[test]
fn encode_message_with_valid_string() {
    assert_eq!(encode_message("").unwrap(), "0000".to_string());
    assert_eq!(encode_message("a").unwrap(), "0001a".to_string());
    assert_eq!(
        encode_message(&"a".repeat(15)).unwrap(),
        format!("000F{}", "a".repeat(15))
    );
    assert_eq!(
        encode_message(&"a".repeat(255)).unwrap(),
        format!("00FF{}", "a".repeat(255))
    );
    assert_eq!(
        encode_message(&"a".repeat(4095)).unwrap(),
        format!("0FFF{}", "a".repeat(4095))
    );
    assert_eq!(
        encode_message(&"a".repeat(65535)).unwrap(),
        format!("FFFF{}", "a".repeat(65535))
    );
}

#[test]
fn encode_message_with_invalid_string() {
    encode_message(&"a".repeat(65536)).expect_err("string lengths exceeds 4 bytes");
}

#[test]
fn a_message_that_is_too_long_is_a_number_error() {
    let error = encode_message(&"a".repeat(65536)).unwrap_err();
    assert!(matches!(error, DeviceError::FromInt(_)));
    assert_eq!(error.message(), "out of range integral type conversion attempted");
}

#[test]
fn the_length_of_a_message_counts_bytes() {
    assert_eq!(encode_message("\u{e9}\u{20ac}").unwrap(), "0005\u{e9}\u{20ac}");
}

#[test]
fn a_message_is_read_back() {
    for payload in ["", "host:devices-l", "shell:ls \u{e9}"] {
        let message = encode_message(payload).unwrap();
        let bytes = message.as_bytes();
        let n = read_length(&[bytes[0], bytes[1], bytes[2], bytes[3]]).unwrap();
        assert_eq!(n, payload.len());
        assert_eq!(decode_text(&bytes[4..]).unwrap(), payload);
    }
}

#[test]
fn lengths_are_little_endian() {
    assert_eq!(read_length_little_endian(&[0x78, 0x56, 0x34, 0x12]), 0x1234_5678);
    assert_eq!(write_length_little_endian(0x1234_5678), [0x78, 0x56, 0x34, 0x12]);
    assert_eq!(write_length_little_endian(0xab_1234_5678), [0x78, 0x56, 0x34, 0x12]);
    assert_eq!(
        read_length_little_endian(&write_length_little_endian(0xab_1234_5678)),
        0x1234_5678
    );
    assert_eq!(
        write_length_little_endian(read_length_little_endian(&[1, 2, 3, 0xff])),
        [1, 2, 3, 0xff]
    );
}

#[test]
fn text_is_decoded() {
    assert_eq!(decode_text("gr\u{fc}n".as_bytes()).unwrap(), "gr\u{fc}n");
    let error = decode_text(&[0x61, 0xff]).unwrap_err();
    assert!(matches!(error, DeviceError::Utf8(_)));
    let expected = std::str::from_utf8(&[0x61, 0xff]).unwrap_err().to_string();
    assert_eq!(error.message(), expected);
}

#[test]
fn words_of_the_protocol() {
    assert_eq!(&SyncCommand::Data.code(), b"DATA");
    assert_eq!(&SyncCommand::Dent.code(), b"DENT");
    assert_eq!(&SyncCommand::Done.code(), b"DONE");
    assert_eq!(&SyncCommand::Fail.code(), b"FAIL");
    assert_eq!(&SyncCommand::List.code(), b"LIST");
    assert_eq!(&SyncCommand::Okay.code(), b"OKAY");
    assert_eq!(&SyncCommand::Recv.code(), b"RECV");
    assert_eq!(&SyncCommand::Send.code(), b"SEND");
    assert!(SyncCommand::Okay.leads(&b"OKAYOKAY".to_vec()));
    assert!(!SyncCommand::Okay.leads(&b"OKA".to_vec()));
    assert!(!SyncCommand::Okay.leads(&b"FAIL".to_vec()));
}

#[test]
fn numbers_are_written() {
    assert_eq!(decimal(0), "0");
    assert_eq!(decimal(5037), "5037");
    assert_eq!(decimal(u64::MAX), u64::MAX.to_string());
    for n in [0u16, 9, 10, 15, 16, 255, 4096, 43981, 65535] {
        assert_eq!(hex4(n), format!("{:0>4X}", n));
    }
}

#[test]
fn numbers_are_read() {
    for s in [
        "", "+", "-", "0", "7", "+7", "-7", "65535", "65536", "000559464", "12a", "1 2", "\u{661}",
        "99999999999999999999", "9999999999999999999a", "++1",
    ] {
        let expected = s.parse::<u16>();
        let found = parse_number(s, 10, 65535);
        match (expected, found) {
            (Ok(n), Ok(m)) => assert_eq!(n as u64, m),
            (Err(e), Err(f)) => assert_eq!(e.to_string(), f.message()),
            (e, f) => panic!("{:?}: {:?} and {:?}", s, e, f),
        }
    }
}

#[test]
fn format_own_device_error_types() {
    assert_eq!(
        DeviceError::InvalidStorage.message(),
        "Invalid storage".to_string()
    );
    assert_eq!(
        DeviceError::MissingPackage.message(),
        "Missing package".to_string()
    );
    assert_eq!(
        DeviceError::MultipleDevices.message(),
        "Multiple Android devices online".to_string()
    );

    assert_eq!(
        DeviceError::Adb("foo".to_string()).message(),
        "foo".to_string()
    );
}

#[test]
fn errors_that_wrap_others_read_as_those() {
    assert_eq!(
        DeviceError::UnknownDevice("emu".to_string()).message(),
        "Unknown Android device with serial 'emu'"
    );
    assert_eq!(
        DeviceError::ParseInt(ParseIntError::Empty).message(),
        "cannot parse integer from empty string"
    );
    let io = std::io::Error::new(std::io::ErrorKind::Other, "gone");
    assert_eq!(DeviceError::Io(io).message(), "gone");
    let walk = walkdir::WalkDir::new("/no/such/directory/at/all")
        .into_iter()
        .next()
        .unwrap()
        .unwrap_err();
    let expected = walk.to_string();
    assert_eq!(DeviceError::WalkDir(walk).message(), expected);
}
