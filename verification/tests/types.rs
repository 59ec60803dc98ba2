//! Addresses and handles.
use tcp_sans_io::IpAddr;


#[test]
fn v6_groups_encode_big_endian() {
    let IpAddr::V6(b) = IpAddr::v6([0xfc00, 0, 0, 0, 0, 0, 0, 1]) else {
        panic!()
    };
    assert_eq!(b[0], 0xfc);
    assert_eq!(b[1], 0x00);
    assert_eq!(b[15], 1);
}

#[test]
fn family_checks() {
    let a = IpAddr::v4(10, 0, 0, 1);
    let b = IpAddr::v6([0xfc00, 0, 0, 0, 0, 0, 0, 1]);
    assert!(a.is_v4() && !b.is_v4());
    assert!(!a.same_family(&b));
}

#[test]
fn unicast_source_filter() {
    // Valid unicast sources.
    assert!(IpAddr::v4(10, 0, 0, 1).is_unicast_source());
    assert!(IpAddr::v4(223, 255, 255, 255).is_unicast_source());
    assert!(IpAddr::v6([0xfc00, 0, 0, 0, 0, 0, 0, 1]).is_unicast_source());
    // Martians.
    assert!(!IpAddr::v4(0, 0, 0, 0).is_unicast_source());
    assert!(!IpAddr::v4(127, 0, 0, 1).is_unicast_source());
    assert!(!IpAddr::v4(224, 0, 0, 1).is_unicast_source()); // multicast
    assert!(!IpAddr::v4(255, 255, 255, 255).is_unicast_source()); // broadcast
    assert!(!IpAddr::v4(240, 0, 0, 1).is_unicast_source()); // reserved
    assert!(!IpAddr::v6([0; 8]).is_unicast_source()); // ::
    assert!(!IpAddr::v6([0, 0, 0, 0, 0, 0, 0, 1]).is_unicast_source()); // ::1
    assert!(!IpAddr::v6([0xff02, 0, 0, 0, 0, 0, 0, 1]).is_unicast_source()); // multicast
}
