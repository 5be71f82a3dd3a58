//! The socket-address sub-formats: schemes, dotted quads, IPv6 bodies,
//! and the entry-value parsers built on them.

use haptik::addr::{IpAddr, Ipv4Addr, Ipv6Addr, SocketAddr, SocketAddrV4, SocketAddrV6};
use haptik::errors::Error;
use haptik::models::AclEntry;
use haptik::responses::CliSocketAddr;

#[test]
fn cli_socket_addr_from_str() {
    assert_eq!(
        CliSocketAddr::parse("unix@/var/run/haproxy.sock").unwrap(),
        CliSocketAddr::Unix("/var/run/haproxy.sock".to_string())
    );
    assert_eq!(
        CliSocketAddr::parse("ipv4@127.0.0.1:9999").unwrap(),
        CliSocketAddr::Ip(SocketAddr::parse("127.0.0.1:9999").unwrap())
    );
    assert_eq!(
        CliSocketAddr::parse("ipv6@[::]:9999").unwrap(),
        CliSocketAddr::Ip(SocketAddr::parse("[::]:9999").unwrap())
    );
    assert_eq!(
        CliSocketAddr::parse("sockpair@1234").unwrap(),
        CliSocketAddr::SocketPair("1234".to_string())
    );
    assert_eq!(
        CliSocketAddr::parse("abns@abcd").unwrap(),
        CliSocketAddr::AbstractSocket("abcd".to_string())
    );
    assert_eq!(CliSocketAddr::parse("unknown").unwrap(), CliSocketAddr::Unknown);
}

#[test]
fn cli_socket_addr_rejects_bad_schemes() {
    assert!(matches!(CliSocketAddr::parse("bogus@x"), Err(Error::ParseFailure)));
    assert!(matches!(CliSocketAddr::parse("anything"), Err(Error::ParseFailure)));
    assert!(matches!(
        CliSocketAddr::parse("ipv4@not-an-address"),
        Err(Error::ParseFailure)
    ));
    assert!(matches!(
        CliSocketAddr::parse("ipv6@[:::1]:80"),
        Err(Error::ParseFailure)
    ));
}

#[test]
fn ipv4_socket_addresses_decode_by_octet() {
    assert_eq!(
        SocketAddrV4::parse("127.0.0.1:9999").unwrap(),
        SocketAddrV4 { addr: Ipv4Addr { o0: 127, o1: 0, o2: 0, o3: 1 }, port: 9999 }
    );
    assert!(SocketAddrV4::parse("256.0.0.1:80").is_err());
    assert!(SocketAddrV4::parse("01.2.3.4:80").is_err());
    assert!(SocketAddrV4::parse("1.2.3:80").is_err());
    assert!(SocketAddrV4::parse("1.2.3.4").is_err());
    assert!(SocketAddrV4::parse("1.2.3.4:65536").is_err());
    assert!(SocketAddrV4::parse("1.2.3.4:65535").is_ok());
}

#[test]
fn ipv6_socket_addresses_expand_the_double_colon() {
    assert_eq!(
        SocketAddrV6::parse("[::]:9999").unwrap(),
        SocketAddrV6 {
            addr: Ipv6Addr { s0: 0, s1: 0, s2: 0, s3: 0, s4: 0, s5: 0, s6: 0, s7: 0 },
            port: 9999
        }
    );
    assert_eq!(
        SocketAddrV6::parse("[2001:db8::1]:443").unwrap(),
        SocketAddrV6 {
            addr: Ipv6Addr { s0: 0x2001, s1: 0xdb8, s2: 0, s3: 0, s4: 0, s5: 0, s6: 0, s7: 1 },
            port: 443
        }
    );
    assert_eq!(
        SocketAddrV6::parse("[1:2:3:4:5:6:7:8]:1").unwrap(),
        SocketAddrV6 {
            addr: Ipv6Addr { s0: 1, s1: 2, s2: 3, s3: 4, s4: 5, s5: 6, s6: 7, s7: 8 },
            port: 1
        }
    );
    assert!(SocketAddrV6::parse("[1:2:3:4:5:6:7:8:9]:1").is_err());
    assert!(SocketAddrV6::parse("[1:2:3:4:5:6:7::8]:1").is_err());
    assert!(SocketAddrV6::parse("[1:2:3]:1").is_err());
    assert!(SocketAddrV6::parse("[12345::]:1").is_err());
    assert!(SocketAddrV6::parse("::1").is_err());
}

#[test]
fn aclentry_from_str() {
    assert_eq!(
        AclEntry::<IpAddr>::parse("0x1234 127.0.0.1").unwrap(),
        AclEntry::<IpAddr> {
            id: 0x1234,
            value: IpAddr::V4(Ipv4Addr { o0: 127, o1: 0, o2: 0, o3: 1 })
        }
    );
}

#[test]
fn aclentry_requires_the_hex_prefix() {
    assert!(matches!(
        AclEntry::<String>::parse("1234 value"),
        Err(Error::ParseFailure)
    ));
    assert!(matches!(AclEntry::<String>::parse("0x value"), Err(Error::ParseFailure)));
    assert!(matches!(AclEntry::<String>::parse("0x1234"), Err(Error::ParseFailure)));
    assert!(matches!(
        AclEntry::<String>::parse("0x10000000000000000 value"),
        Err(Error::ParseFailure)
    ));
}

#[test]
fn ip_addresses_decode_in_either_family() {
    assert_eq!(
        IpAddr::parse("10.20.30.40").unwrap(),
        IpAddr::V4(Ipv4Addr { o0: 10, o1: 20, o2: 30, o3: 40 })
    );
    assert_eq!(
        IpAddr::parse("fe80::a").unwrap(),
        IpAddr::V6(Ipv6Addr { s0: 0xfe80, s1: 0, s2: 0, s3: 0, s4: 0, s5: 0, s6: 0, s7: 0xa })
    );
    assert!(IpAddr::parse("not an address").is_err());
}
