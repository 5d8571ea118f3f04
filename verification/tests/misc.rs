//! The record reader, the diagnostic renderings, the kernel paths and the
//! hexadecimal argument parser.

use beholder::error::Error;
use beholder::fmt::{Binary, Hex};
use beholder::io::read_u64;
use beholder::paths::{
    proc_kpagecount_path, proc_kpageflags_path, proc_pid_clear_refs, proc_pid_maps_path,
    proc_pid_pagemaps_path,
};
use beholder::text::parse_hex;

#[test]
fn read_u64_is_little_endian() {
    let bytes = [0x78u8, 0x56, 0x34, 0x12, 0, 0, 0, 0];
    assert_eq!(read_u64(&bytes).unwrap(), 0x1234_5678);
    let all = [0xffu8; 8];
    assert_eq!(read_u64(&all).unwrap(), u64::MAX);
    let longer = [1u8, 0, 0, 0, 0, 0, 0, 0, 0xee];
    assert_eq!(read_u64(&longer).unwrap(), 1);
}

#[test]
fn read_u64_short_input_is_an_io_error() {
    match read_u64(&[1, 2, 3]) {
        Err(Error::IO { message }) => assert!(message.contains("short read")),
        _ => panic!("expected an io error"),
    }
}

#[test]
fn hex_and_binary_renderings() {
    assert_eq!(Hex(255).render(), "ff");
    assert_eq!(Hex(0).render(), "0");
    assert_eq!(Hex(0xdead_beef).render(), "deadbeef");
    assert_eq!(Binary(5).render(), "101");
    assert_eq!(Binary(0).render(), "0");
    assert_eq!(Binary(8).render(), "1000");
}

#[test]
fn kernel_paths_are_deterministic() {
    assert_eq!(proc_pid_maps_path(Some(42)), "/proc/42/maps");
    assert_eq!(proc_pid_maps_path(None), "/proc/self/maps");
    assert_eq!(proc_pid_pagemaps_path(Some(1)), "/proc/1/pagemap");
    assert_eq!(proc_pid_pagemaps_path(None), "/proc/self/pagemap");
    assert_eq!(proc_pid_clear_refs(Some(31337)), "/proc/31337/clear_refs");
    assert_eq!(proc_kpageflags_path(), "/proc/kpageflags");
    assert_eq!(proc_kpagecount_path(), "/proc/kpagecount");
}

#[test]
fn parse_hex_arguments() {
    assert_eq!(parse_hex("ff").unwrap(), 0xff);
    assert_eq!(parse_hex("00400000").unwrap(), 0x0040_0000);
    assert_eq!(parse_hex("7fa281f3f000").unwrap(), 0x7fa2_81f3_f000);
    assert!(parse_hex("").is_err());
    assert!(parse_hex("0x10").is_err());
    match parse_hex("zz") {
        Err(Error::Parse { typename, .. }) => assert_eq!(typename, "usize"),
        _ => panic!("expected a parse error"),
    }
}

#[test]
fn error_messages_carry_their_details() {
    let e = Error::Parse {
        value: "bogus".to_string(),
        typename: "Inode",
        reason: "Inode string was not valid base 10 usize".to_string(),
    };
    assert_eq!(
        e.message(),
        "parsing Inode from bogus, reason: Inode string was not valid base 10 usize"
    );
    let io = Error::IO { message: "short read: fewer than 8 bytes".to_string() };
    assert!(io.message().starts_with("an io error occurred: "));
    assert_eq!(Error::Unknown.message(), "unknown error");
    assert_eq!(
        Error::Number.message(),
        "an error occurred casting between integer types"
    );
}
