use ping_monitor::address::{parse_ip, HostAddr};

fn v4(a: u8, b: u8, c: u8, d: u8) -> HostAddr {
    HostAddr::V4([a, b, c, d])
}

#[test]
fn main_test_parse_ip() {
    let localhost = v4(127, 0, 0, 1);
    assert_eq!(parse_ip("127.0.0.1").unwrap(), localhost);

    let ipv6 = HostAddr::V6([0, 0, 0, 0, 0, 0, 0, 1]);
    assert_eq!(parse_ip("::1").unwrap(), ipv6);

    let ipv62 = HostAddr::V6([1111, 2222, 3333, 4444, 5555, 6666, 7777, 8888]);
    println!("{}", ipv62.to_text());
    assert_eq!(parse_ip("457:8ae:d05:115c:15b3:1a0a:1e61:22b8").unwrap(), ipv62);

    let invalid = "dfkgjhsd";
    assert!(parse_ip(invalid).is_none());
}

#[test]
fn ping_result_test_parse_ip() {
    let localhost = v4(127, 0, 0, 1);
    println!("{}", localhost.to_text());

    let ip = parse_ip("8.0.8.0").unwrap();
    println!("{:?}", ip);
    assert_eq!(ip, v4(8, 0, 8, 0));

    let ip = parse_ip("2a00:1450:4007:80d::200e").unwrap();
    println!("{:?}", ip);
    assert_eq!(ip, HostAddr::V6([0x2a00, 0x1450, 0x4007, 0x80d, 0, 0, 0, 0x200e]));
}

#[test]
fn ipv4_text_is_dotted_decimal() {
    assert_eq!(v4(127, 0, 0, 1).to_text(), "127.0.0.1");
    assert_eq!(v4(0, 0, 0, 0).to_text(), "0.0.0.0");
    assert_eq!(v4(255, 255, 255, 255).to_text(), "255.255.255.255");
    assert_eq!(v4(10, 99, 100, 9).to_text(), "10.99.100.9");
}

#[test]
fn ipv4_rejects_what_is_no_dotted_quad() {
    assert_eq!(parse_ip(""), None);
    assert_eq!(parse_ip("1.2.3"), None);
    assert_eq!(parse_ip("1.2.3.4.5"), None);
    assert_eq!(parse_ip("1.2.3."), None);
    assert_eq!(parse_ip(".1.2.3"), None);
    assert_eq!(parse_ip("1..2.3"), None);
    assert_eq!(parse_ip("01.2.3.4"), None);
    assert_eq!(parse_ip("1.2.3.00"), None);
    assert_eq!(parse_ip("256.1.1.1"), None);
    assert_eq!(parse_ip("1.2.3.1000"), None);
    assert_eq!(parse_ip("1.2.3.4 "), None);
    assert_eq!(parse_ip(" 1.2.3.4"), None);
    assert_eq!(parse_ip("1.2.3.a"), None);
    assert_eq!(parse_ip("1.2.3.-4"), None);
    assert_eq!(parse_ip("١.2.3.4"), None);
}

#[test]
fn ipv4_accepts_each_octet_range() {
    assert_eq!(parse_ip("0.0.0.0"), Some(v4(0, 0, 0, 0)));
    assert_eq!(parse_ip("255.255.255.255"), Some(v4(255, 255, 255, 255)));
    assert_eq!(parse_ip("9.10.99.100"), Some(v4(9, 10, 99, 100)));
}

#[test]
fn ipv6_text_elides_the_first_longest_run_of_zeros() {
    assert_eq!(HostAddr::V6([0, 0, 0, 0, 0, 0, 0, 1]).to_text(), "::1");
    assert_eq!(HostAddr::V6([0, 0, 0, 0, 0, 0, 0, 0]).to_text(), "::");
    assert_eq!(HostAddr::V6([1, 0, 0, 0, 0, 0, 0, 0]).to_text(), "1::");
    assert_eq!(HostAddr::V6([1, 0, 0, 2, 0, 0, 0, 3]).to_text(), "1:0:0:2::3");
    assert_eq!(HostAddr::V6([1, 0, 0, 2, 0, 0, 3, 4]).to_text(), "1::2:0:0:3:4");
    assert_eq!(HostAddr::V6([1, 0, 2, 3, 4, 5, 6, 7]).to_text(), "1:0:2:3:4:5:6:7");
    assert_eq!(
        HostAddr::V6([0x2a00, 0x1450, 0x4007, 0x80d, 0, 0, 0, 0x200e]).to_text(),
        "2a00:1450:4007:80d::200e"
    );
    assert_eq!(
        HostAddr::V6([0xffff, 0xabcd, 0x10, 0x1, 0xf, 0xfff, 0x100, 0x1000]).to_text(),
        "ffff:abcd:10:1:f:fff:100:1000"
    );
}

#[test]
fn ipv6_accepts_full_and_elided_forms() {
    assert_eq!(parse_ip("::"), Some(HostAddr::V6([0; 8])));
    assert_eq!(parse_ip("1::"), Some(HostAddr::V6([1, 0, 0, 0, 0, 0, 0, 0])));
    assert_eq!(parse_ip("1:2:3:4:5:6:7:8"), Some(HostAddr::V6([1, 2, 3, 4, 5, 6, 7, 8])));
    assert_eq!(parse_ip("1:2:3:4:5:6:7::"), Some(HostAddr::V6([1, 2, 3, 4, 5, 6, 7, 0])));
    assert_eq!(parse_ip("::2:3:4:5:6:7:8"), Some(HostAddr::V6([0, 2, 3, 4, 5, 6, 7, 8])));
    assert_eq!(parse_ip("1::8"), Some(HostAddr::V6([1, 0, 0, 0, 0, 0, 0, 8])));
    assert_eq!(parse_ip("ABCD::00ef"), Some(HostAddr::V6([0xabcd, 0, 0, 0, 0, 0, 0, 0xef])));
    assert_eq!(parse_ip("0:0:0:0:0:0:0:1"), Some(HostAddr::V6([0, 0, 0, 0, 0, 0, 0, 1])));
}

#[test]
fn ipv6_rejects_what_is_no_address() {
    assert_eq!(parse_ip(":"), None);
    assert_eq!(parse_ip(":::"), None);
    assert_eq!(parse_ip("1::2::3"), None);
    assert_eq!(parse_ip("12345::"), None);
    assert_eq!(parse_ip("g::"), None);
    assert_eq!(parse_ip("1:2:3:4:5:6:7"), None);
    assert_eq!(parse_ip("1:2:3:4:5:6:7:8:9"), None);
    assert_eq!(parse_ip("1:2:3:4:5:6:7::8"), None);
    assert_eq!(parse_ip("1:2:3:4:5:6:7:8::"), None);
    assert_eq!(parse_ip(":1:2:3:4:5:6:7"), None);
    assert_eq!(parse_ip("1:2:3:4:5:6:7:"), None);
    assert_eq!(parse_ip("::1 "), None);
}

#[test]
fn written_addresses_read_back() {
    let hosts = vec![
        v4(127, 0, 0, 1),
        v4(0, 0, 0, 0),
        v4(192, 168, 100, 254),
        HostAddr::V6([0; 8]),
        HostAddr::V6([0, 0, 0, 0, 0, 0, 0, 1]),
        HostAddr::V6([0, 0, 0, 0, 0, 0xffff, 0x102, 0x304]),
        HostAddr::V6([1, 0, 0, 2, 0, 0, 3, 4]),
        HostAddr::V6([0xfe80, 0, 0, 0, 0x1, 0, 0, 0xabcd]),
        HostAddr::V6([0xffff; 8]),
    ];
    for host in hosts {
        assert_eq!(parse_ip(&host.to_text()), Some(host));
    }
}

#[test]
fn mapped_ipv4_addresses_are_written_dotted() {
    assert_eq!(
        HostAddr::V6([0, 0, 0, 0, 0, 0xffff, 0xc00a, 0x2ff]).to_text(),
        "::ffff:192.10.2.255"
    );
    assert_eq!(HostAddr::V6([0, 0, 0, 0, 0, 0xffff, 0, 0]).to_text(), "::ffff:0.0.0.0");
    assert_eq!(
        HostAddr::V6([0, 0, 0, 0, 0, 0xffff, 0xffff, 0xffff]).to_text(),
        "::ffff:255.255.255.255"
    );
    assert_eq!(HostAddr::V6([0, 0, 0, 0, 0, 0, 0xc00a, 0x2ff]).to_text(), "::c00a:2ff");
    assert_eq!(HostAddr::V6([0, 0, 0, 0, 1, 0xffff, 0xc00a, 0x2ff]).to_text(), "::1:ffff:c00a:2ff");
}

#[test]
fn ipv6_accepts_an_ipv4_address_at_the_end() {
    assert_eq!(
        parse_ip("::ffff:1.2.3.4"),
        Some(HostAddr::V6([0, 0, 0, 0, 0, 0xffff, 0x102, 0x304]))
    );
    assert_eq!(parse_ip("::1.2.3.4"), Some(HostAddr::V6([0, 0, 0, 0, 0, 0, 0x102, 0x304])));
    assert_eq!(
        parse_ip("1:2:3:4:5:6:255.254.0.1"),
        Some(HostAddr::V6([1, 2, 3, 4, 5, 6, 0xfffe, 0x1]))
    );
    assert_eq!(
        parse_ip("1:2:3:4:5::10.0.0.1"),
        Some(HostAddr::V6([1, 2, 3, 4, 5, 0, 0xa00, 0x1]))
    );
    assert_eq!(
        parse_ip("64:ff9b::192.0.2.33"),
        Some(HostAddr::V6([0x64, 0xff9b, 0, 0, 0, 0, 0xc000, 0x221]))
    );
}

#[test]
fn ipv6_rejects_an_ipv4_address_elsewhere() {
    assert_eq!(parse_ip("1.2.3.4::"), None);
    assert_eq!(parse_ip("1.2.3.4::1"), None);
    assert_eq!(parse_ip("::1.2.3.4:5"), None);
    assert_eq!(parse_ip("1:2:3:4:5:6:7:1.2.3.4"), None);
    assert_eq!(parse_ip("1:2:3:4:5:1.2.3.4"), None);
    assert_eq!(parse_ip("1:2:3:4:5:6::1.2.3.4"), None);
    assert_eq!(parse_ip("::1.2.3"), None);
    assert_eq!(parse_ip("::1.2.3.4.5"), None);
    assert_eq!(parse_ip("::01.2.3.4"), None);
    assert_eq!(parse_ip("::1.2.3.256"), None);
    assert_eq!(parse_ip("::."), None);
    assert_eq!(parse_ip("1.2.3.4:"), None);
}
