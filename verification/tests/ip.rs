use snirelay::ip::{parse_ip, parse_socket_addr, IpAddress, SocketAddress};

fn chars(s: &str) -> Vec<char> {
    s.chars().collect()
}

fn rewritten(s: &str) -> Option<String> {
    parse_ip(&chars(s)).map(|ip| ip.to_text())
}

#[test]
fn ipv4_addresses() {
    assert_eq!(parse_ip(&chars("0.0.0.0")), Some(IpAddress::V4([0, 0, 0, 0])));
    assert_eq!(parse_ip(&chars("1.20.255.9")), Some(IpAddress::V4([1, 20, 255, 9])));
    assert_eq!(IpAddress::V4([255, 100, 10, 0]).to_text(), "255.100.10.0");
    for s in [
        "", "256.0.0.1", "1.2.3", "1.2.3.4.5", "01.2.3.4", "1.2.3.04", "0.0.0.00", "1..2.3",
        " 1.2.3.4", "1.2.3.4 ", "1.2.3.a", "+1.2.3.4", "1.2.3.1000", "1.2.3.", ".1.2.3",
    ] {
        assert_eq!(parse_ip(&chars(s)), None, "{}", s);
    }
}

#[test]
fn ipv6_addresses() {
    for (s, groups) in [
        ("::", [0, 0, 0, 0, 0, 0, 0, 0]),
        ("::1", [0, 0, 0, 0, 0, 0, 0, 1]),
        ("1::", [1, 0, 0, 0, 0, 0, 0, 0]),
        ("1:2:3:4:5:6:7:8", [1, 2, 3, 4, 5, 6, 7, 8]),
        ("1:2:3:4:5:6:7::", [1, 2, 3, 4, 5, 6, 7, 0]),
        ("::2:3:4:5:6:7:8", [0, 2, 3, 4, 5, 6, 7, 8]),
        ("1::3:4:5:6:7:8", [1, 0, 3, 4, 5, 6, 7, 8]),
        ("ABCD::ef", [0xabcd, 0, 0, 0, 0, 0, 0, 0xef]),
        ("0001::000", [1, 0, 0, 0, 0, 0, 0, 0]),
        ("::1.2.3.4", [0, 0, 0, 0, 0, 0, 0x102, 0x304]),
        ("1:2:3:4:5:6:1.2.3.4", [1, 2, 3, 4, 5, 6, 0x102, 0x304]),
        ("::2:3:4:5:1.2.3.4", [0, 0, 2, 3, 4, 5, 0x102, 0x304]),
        ("1::3:4:5:6:1.2.3.4", [1, 0, 3, 4, 5, 6, 0x102, 0x304]),
    ] {
        assert_eq!(parse_ip(&chars(s)), Some(IpAddress::V6(groups)), "{}", s);
    }
    for s in [
        "1:2:3:4:5:6:7", "1:2:3:4:5:6:7:8:9", "1:2:3:4::5:6:7:8", "::1:2:3:4:5:6:7:8",
        "1:2:3:4:5:6:7:8::", "1::2::3", ":::", "1:::2", ":", ":1", "1:", "12345::", "g::", "::G",
        "1.2.3.4::", "::1.2.3.4:5", "1:2:3:4:5:6:7:1.2.3.4", "1:2:3:4:5:1.2.3.4",
        "::1:2:3:4:5:6:1.2.3.4", "::256.2.3.4", "::1.2.3", "fe80::1%1", "[::1]", "::+1",
    ] {
        assert_eq!(parse_ip(&chars(s)), None, "{}", s);
    }
}

#[test]
fn ipv6_addresses_are_written_short() {
    for (s, want) in [
        ("2001:0DB8:0000:0000:0001:0000:0000:0001", "2001:db8::1:0:0:1"),
        ("0:0:1:0:0:0:1:0", "0:0:1::1:0"),
        ("1:0:0:2:0:0:3:4", "1::2:0:0:3:4"),
        ("1:0:2:0:3:0:4:0", "1:0:2:0:3:0:4:0"),
        ("1:2:3:4:5:6:0:0", "1:2:3:4:5:6::"),
        ("0:0:3:4:5:6:7:8", "::3:4:5:6:7:8"),
        ("0:2:3:4:5:6:7:8", "0:2:3:4:5:6:7:8"),
        ("0:0:0:0:0:0:0:0", "::"),
        ("0:0:0:0:0:0:1.2.3.4", "::102:304"),
        ("0:0:0:0:0:ffff:102:304", "::ffff:1.2.3.4"),
        ("0:0:0:0:0:ffff:0:0", "::ffff:0.0.0.0"),
        ("0:0:0:0:1:ffff:102:304", "::1:ffff:102:304"),
        ("a00:10:fff:1000:1:2:3:4", "a00:10:fff:1000:1:2:3:4"),
    ] {
        assert_eq!(rewritten(s).as_deref(), Some(want), "{}", s);
        assert_eq!(rewritten(want).as_deref(), Some(want), "{}", want);
    }
}

#[test]
fn every_address_is_read_back() {
    for bits in 0..256u32 {
        let mut groups = [0u16; 8];
        for (i, g) in groups.iter_mut().enumerate() {
            *g = if bits >> i & 1 == 1 { 0xab0 + i as u16 } else { 0 };
        }
        let text = IpAddress::V6(groups).to_text();
        assert_eq!(parse_ip(&chars(&text)), Some(IpAddress::V6(groups)), "{}", text);
    }
    for n in 0..=255u8 {
        let octets = [n, 255 - n, n / 2, 10];
        let text = IpAddress::V4(octets).to_text();
        assert_eq!(parse_ip(&chars(&text)), Some(IpAddress::V4(octets)), "{}", text);
    }
}

#[test]
fn socket_addresses() {
    let v4 = |port: u16| Some(SocketAddress { ip: IpAddress::V4([1, 2, 3, 4]), port });
    let v6 = |port: u16| Some(SocketAddress { ip: IpAddress::V6([0, 0, 0, 0, 0, 0, 0, 1]), port });
    for (s, want) in [
        ("1.2.3.4:0", v4(0)),
        ("1.2.3.4:65535", v4(65535)),
        ("1.2.3.4:00080", v4(80)),
        ("[::1]:80", v6(80)),
        ("[::1]:00080", v6(80)),
        ("[::1%7]:80", v6(80)),
        ("[::1%4294967295]:80", v6(80)),
    ] {
        assert_eq!(parse_socket_addr(&chars(s)), want, "{}", s);
    }
    for s in [
        "", "1.2.3.4", "1.2.3.4:", "1.2.3.4:65536", "1.2.3.4:+80", "1.2.3.4:80 ", ":80", "[::1]",
        "[::1]:", "[::1]80", "::1:80", "[::1%]:80", "[::1%4294967296]:80", "[::1%eth0]:80",
        "[1.2.3.4]:80", "[::1]:80:90", "[]:80", "[::1]]:80", "localhost:80", "[::1:80",
    ] {
        assert_eq!(parse_socket_addr(&chars(s)), None, "{}", s);
    }
}
