use hypernet::address::IpAddr;
use hypernet::protocol::Identity;
use hypernet::text::format_address;

#[test]
fn an_address_is_the_ip_a_colon_and_the_port() {
    assert_eq!(Identity::new(IpAddr::from_octets(127, 0, 0, 1), 9000).address(), "127.0.0.1:9000");
    assert_eq!(Identity::new(IpAddr::from_octets(0, 0, 0, 0), 8080).address(), "0.0.0.0:8080");
    assert_eq!(Identity::new(IpAddr::V4(u32::MAX), u16::MAX).address(), "255.255.255.255:65535");
    assert_eq!(Identity::new(IpAddr::from_octets(10, 200, 3, 45), 0).address(), "10.200.3.45:0");
    assert_eq!(IpAddr::localhost(), IpAddr::V4(0x7f00_0001));
}

#[test]
fn an_ipv6_address_stands_in_brackets() {
    assert_eq!(format_address(IpAddr::V6(1), 8080), "[0:0:0:0:0:0:0:1]:8080");
    assert_eq!(
        format_address(IpAddr::V6(0x2001_0db8_0000_0000_0000_ff00_0042_8329), 443),
        "[2001:db8:0:0:0:ff00:42:8329]:443"
    );
    assert_eq!(
        format_address(IpAddr::V6(u128::MAX), 1),
        "[ffff:ffff:ffff:ffff:ffff:ffff:ffff:ffff]:1"
    );
    assert_eq!(format_address(IpAddr::V6(0), 10), "[0:0:0:0:0:0:0:0]:10");
}
