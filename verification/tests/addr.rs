use update_ip::addr::{Address, Ipv4Address, Ipv6Address};

#[test]
fn ipv4_text_is_dotted_decimal() {
    assert_eq!(Ipv4Address([192, 168, 0, 10]).to_string(), "192.168.0.10");
    assert_eq!(Ipv4Address([0, 0, 0, 0]).to_string(), "0.0.0.0");
    assert_eq!(Ipv4Address([255, 255, 255, 255]).to_string(), "255.255.255.255");
    assert_eq!(Ipv4Address([1, 20, 100, 9]).to_string(), "1.20.100.9");
}

#[test]
fn ipv6_text_is_uncompressed_hex_groups() {
    let ip = Ipv6Address([0x26, 0x20, 0x01, 0x19, 0x00, 0x35, 0, 0, 0, 0, 0, 0, 0, 0, 0x00, 0x35]);
    assert_eq!(ip.to_string(), "2620:119:35:0:0:0:0:35");
    assert_eq!(Ipv6Address([0; 16]).to_string(), "0:0:0:0:0:0:0:0");
    assert_eq!(
        Ipv6Address([0xff; 16]).to_string(),
        "ffff:ffff:ffff:ffff:ffff:ffff:ffff:ffff"
    );
    let ip = Ipv6Address([0x0a, 0xbc, 0, 0x0d, 0x10, 0, 0x01, 0x00, 0, 0, 0, 0, 0, 0, 0, 1]);
    assert_eq!(ip.to_string(), "abc:d:1000:100:0:0:0:1");
}

#[test]
fn to_str_writes_at_the_start_and_keeps_the_rest() {
    let mut buf = [b'x'; 64];
    let len = Ipv4Address([10, 0, 0, 1]).to_str(&mut buf);
    assert_eq!(len, 8);
    assert_eq!(&buf[..len], b"10.0.0.1");
    assert!(buf[len..].iter().all(|&b| b == b'x'));

    let mut buf = [0u8; 39];
    let len = Ipv6Address([0xff; 16]).to_str(&mut buf);
    assert_eq!(len, 39);
    assert_eq!(&buf[..], b"ffff:ffff:ffff:ffff:ffff:ffff:ffff:ffff");

    let mut buf = [0u8; 15];
    let len = Ipv4Address([255, 255, 255, 255]).to_str(&mut buf);
    assert_eq!(len, 15);

    // a buffer that just holds the text is enough
    let mut buf = [0u8; 7];
    let len = Ipv4Address([1, 1, 1, 1]).to_str(&mut buf);
    assert_eq!(&buf[..len], b"1.1.1.1");
    let mut buf = [0u8; 15];
    let len = Ipv6Address([0; 16]).to_str(&mut buf);
    assert_eq!(&buf[..len], b"0:0:0:0:0:0:0:0");
}

#[test]
fn record_types() {
    assert_eq!(Ipv4Address::record_type(), "A");
    assert_eq!(Ipv6Address::record_type(), "AAAA");
}

#[test]
fn texts_read_back_to_the_octets() {
    for octets in [[0u8, 0, 0, 0], [1, 2, 3, 4], [10, 200, 99, 255], [100, 9, 10, 0]] {
        let text = Ipv4Address(octets).to_string();
        let fields: Vec<u8> = text.split('.').map(|f| f.parse().unwrap()).collect();
        assert_eq!(fields, octets);
    }
    let samples = [
        [0u8; 16],
        [0xff; 16],
        [0x26, 0x20, 0x01, 0x19, 0x00, 0x35, 0, 0, 0, 0, 0, 0, 0, 0, 0x00, 0x35],
        [0, 1, 0, 0x10, 1, 0, 0x10, 0, 0xab, 0xcd, 0, 0, 0, 0, 0, 0],
    ];
    for octets in samples {
        let text = Ipv6Address(octets).to_string();
        let groups: Vec<u16> =
            text.split(':').map(|g| u16::from_str_radix(g, 16).unwrap()).collect();
        let expected: Vec<u16> =
            octets.chunks(2).map(|c| (c[0] as u16) << 8 | c[1] as u16).collect();
        assert_eq!(groups, expected);
    }
    assert_ne!(Ipv4Address([1, 11, 1, 1]).to_string(), Ipv4Address([11, 1, 1, 1]).to_string());
}
