//! Column-level behaviour: parsing, printing, containment, and the error
//! each malformed column reports.

use beholder::error::Error;
use beholder::maps::column::{
    AddressRange, Device, Inode, Offset, PathName, Perm, PermSet,
};
use beholder::maps::MappedRegion;

#[test]
fn address_range_parse_and_display() {
    let a = AddressRange::parse("00400000-00452000").unwrap();
    assert_eq!(a.start(), 0x0040_0000);
    assert_eq!(a.end(), 0x0045_2000);
    assert_eq!(a.to_string(), "00400000-00452000");
    assert_eq!(a.len(), 0x52000);
    assert_eq!(a.offset_from(0x0030_0000), 0x0010_0000);
}

#[test]
fn address_range_display_pads_to_eight_digits() {
    let a = AddressRange::new(0x1000, 0x5000);
    assert_eq!(a.to_string(), "00001000-00005000");
    let b = AddressRange::new(0x7fa2_81f3_f000, 0x7fa2_81f4_2000);
    assert_eq!(b.to_string(), "7fa281f3f000-7fa281f42000");
}

#[test]
fn address_range_contains_bounds() {
    let a = AddressRange::new(0x1000, 0x5000);
    assert!(a.contains(0x1000));
    assert!(a.contains(0x4fff));
    assert!(!a.contains(0x5000));
    assert!(!a.contains(0xfff));
}

#[test]
fn address_range_errors() {
    match AddressRange::parse("   ") {
        Err(Error::Parse { typename, reason, .. }) => {
            assert_eq!(typename, "AddressRange");
            assert_eq!(reason, "blank string");
        },
        _ => panic!("expected a parse error"),
    }
    match AddressRange::parse("ab") {
        Err(Error::Parse { reason, .. }) => {
            assert!(reason.contains("minimum number of characters"));
        },
        _ => panic!("expected a parse error"),
    }
    assert!(AddressRange::parse("1234zz-4000").is_err());
    assert!(AddressRange::parse("123456").is_err());
    assert!(AddressRange::parse("ffffffffffffffffff-0").is_err());
}

#[test]
fn perm_chars_roundtrip() {
    assert_eq!(Perm::Read.to_char(), 'r');
    assert_eq!(Perm::Write.to_char(), 'w');
    assert_eq!(Perm::Execute.to_char(), 'x');
    assert_eq!(Perm::Private.to_char(), 'p');
    assert_eq!(Perm::Shared.to_char(), 's');
    assert_eq!(Perm::Nil.to_char(), '-');
    assert_eq!(Perm::parse_char('r').unwrap(), Perm::Read);
    assert_eq!(Perm::parse_char('R').unwrap(), Perm::Read);
    assert_eq!(Perm::parse_char('-').unwrap(), Perm::Nil);
    match Perm::parse_char('q') {
        Err(Error::Parse { typename, .. }) => assert_eq!(typename, "Perm"),
        _ => panic!("expected a parse error"),
    }
}

#[test]
fn permset_parse_and_display() {
    let ps = PermSet::parse("r-xp").unwrap();
    assert_eq!(ps.0, vec![Perm::Read, Perm::Nil, Perm::Execute, Perm::Private]);
    assert_eq!(ps.to_string(), "r-xp");
    assert!(PermSet::parse("").is_err());
    assert!(PermSet::parse("rwq").is_err());
}

#[test]
fn offset_parse_and_display() {
    let o = Offset::parse("00051000").unwrap();
    assert_eq!(o.0, 0x51000);
    assert_eq!(o.to_string(), "00051000");
    match Offset::parse("xyz") {
        Err(Error::Parse { typename, .. }) => assert_eq!(typename, "Offset"),
        _ => panic!("expected a parse error"),
    }
    match Offset::parse("") {
        Err(Error::Parse { reason, .. }) => assert_eq!(reason, "blank string"),
        _ => panic!("expected a parse error"),
    }
}

#[test]
fn device_parse_and_display() {
    let d = Device::parse("103:01").unwrap();
    assert_eq!(d.major, 0x103);
    assert_eq!(d.minor, 0x01);
    assert_eq!(d.to_string(), "103:01");
    let d2 = Device::parse("08:02").unwrap();
    assert_eq!((d2.major, d2.minor), (8, 2));
    assert!(Device::parse("0802").is_err());
    assert!(Device::parse("x:y").is_err());
    match Device::parse("ab") {
        Err(Error::Parse { typename, .. }) => assert_eq!(typename, "Device"),
        _ => panic!("expected a parse error"),
    }
}

#[test]
fn inode_parse_and_display() {
    let n = Inode::parse("173521").unwrap();
    assert_eq!(n.0, 173521);
    assert_eq!(n.to_string(), "173521");
    assert!(Inode::parse("12ab").is_err());
    match Inode::parse("  ") {
        Err(Error::Parse { typename, .. }) => assert_eq!(typename, "Inode"),
        _ => panic!("expected a parse error"),
    }
}

#[test]
fn pathname_classification() {
    assert!(matches!(PathName::parse(""), PathName::Empty));
    assert!(matches!(PathName::parse("   "), PathName::Empty));
    let heap = PathName::parse("[heap]");
    assert!(matches!(&heap, PathName::Pseudo(s) if s == "[heap]"));
    assert_eq!(heap.as_str(), "[heap]");
    let real = PathName::parse("/usr/bin/zsh");
    assert!(matches!(&real, PathName::Real(s) if s == "/usr/bin/zsh"));
    assert!(matches!(PathName::parse("[open"), PathName::Real(_)));
    assert!(PathName::parse("[heap]").matches(&PathName::parse("[heap]")));
    assert!(!PathName::parse("[heap]").matches(&PathName::parse("[stack]")));
    assert!(!PathName::parse("x").matches(&PathName::Empty));
}

#[test]
fn dbus_daemon_line_scenario() {
    let line = "00400000-00452000 r-xp 00000000 08:02 173521 /usr/bin/dbus-daemon";
    let m = MappedRegion::parse(line).unwrap();
    assert_eq!(m.addr_range().start(), 0x0040_0000);
    assert_eq!(m.addr_range().end(), 0x0045_2000);
    assert_eq!(
        m.perms().0,
        vec![Perm::Read, Perm::Nil, Perm::Execute, Perm::Private]
    );
    assert_eq!(m.offset().0, 0);
    assert_eq!(m.device().major, 8);
    assert_eq!(m.device().minor, 2);
    assert_eq!(m.inode().0, 173521);
    assert!(matches!(m.pathname(), PathName::Real(s) if s == "/usr/bin/dbus-daemon"));
    assert!(m.extra().is_empty());
    // Redisplaying gives an equivalent line: same columns, with the
    // pathname padded out to its display column.
    let shown = m.to_string();
    let reparsed = MappedRegion::parse(&shown).unwrap();
    assert_eq!(reparsed.addr_range().start(), m.addr_range().start());
    assert_eq!(reparsed.perms().0, m.perms().0);
    assert_eq!(reparsed.offset().0, 0);
    assert_eq!(reparsed.inode().0, 173521);
    assert_eq!(reparsed.pathname().as_str(), "/usr/bin/dbus-daemon");
    let mut normalized: Vec<&str> = shown.split_ascii_whitespace().collect();
    assert_eq!(
        normalized.drain(..).collect::<Vec<_>>().join(" "),
        "00400000-00452000 r-xp 00000000 08:02 173521 /usr/bin/dbus-daemon"
    );
}

#[test]
fn extra_tokens_are_collected_not_rejected() {
    let line = "00001000-00002000 rw-p 00000000 00:00 0 /x first second";
    let m = MappedRegion::parse(line).unwrap();
    assert_eq!(m.extra(), &["first".to_string(), "second".to_string()]);
}

#[test]
fn blank_line_is_rejected() {
    match MappedRegion::parse("   ") {
        Err(Error::Parse { reason, .. }) => assert_eq!(reason, "blank string"),
        _ => panic!("expected a parse error"),
    }
    assert!(MappedRegion::parse("00001000-00002000 rw-p").is_err());
}
