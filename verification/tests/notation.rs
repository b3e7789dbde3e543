use cidr_calc::address::{push_binary, push_dotted, push_hex, push_reverse_dns};
use cidr_calc::decimal::push_decimal;
use cidr_calc::CIDR;

#[test]
fn decimal_notation() {
    for n in [0u32, 1, 9, 10, 11, 99, 100, 101, 255, 256, 999, 1000, 65535, 4294967295] {
        let mut out = String::new();
        push_decimal(&mut out, n);
        assert_eq!(out, format!("{}", n));
    }
    let mut out = String::from("n=");
    push_decimal(&mut out, 1203);
    push_decimal(&mut out, 40);
    assert_eq!(out, "n=120340");
}

#[test]
fn dotted_decimal_notation() {
    assert_eq!(CIDR::to_string(0), "0.0.0.0");
    assert_eq!(CIDR::to_string(0xffff_ffff), "255.255.255.255");
    assert_eq!(CIDR::to_string(0xc0a8_0100), "192.168.1.0");
    assert_eq!(CIDR::to_string(0x0102_0304), "1.2.3.4");
    assert_eq!(CIDR::to_string(0x0a00_6409), "10.0.100.9");
    assert_eq!(CIDR::from_octets(127, 0, 0, 1, 8).to_string_ip(), "127.0.0.1");
    let mut out = String::from("ip ");
    push_dotted(&mut out, 0x0808_0404);
    assert_eq!(out, "ip 8.8.4.4");
}

#[test]
fn address_with_subnet_notation() {
    assert_eq!(
        CIDR::from_octets(192, 168, 1, 0, 24).to_string_ip_subnet(),
        "192.168.1.0/255.255.255.0"
    );
    assert_eq!(CIDR::from_octets(10, 9, 8, 7, 0).to_string_ip_subnet(), "10.9.8.7/0.0.0.0");
    assert_eq!(
        CIDR::from_octets(10, 9, 8, 7, 32).to_string_ip_subnet(),
        "10.9.8.7/255.255.255.255"
    );
    assert_eq!(CIDR::from_octets(10, 9, 8, 7, 9).to_string_ip_subnet(), "10.9.8.7/255.128.0.0");
}

#[test]
fn cidr_notation() {
    assert_eq!(CIDR::from_octets(192, 168, 1, 0, 24).to_string_cidr(), "192.168.1.0/24");
    assert_eq!(CIDR::from_octets(0, 0, 0, 0, 0).to_string_cidr(), "0.0.0.0/0");
    assert_eq!(CIDR::from_octets(255, 255, 255, 255, 32).to_string_cidr(), "255.255.255.255/32");
    assert_eq!(CIDR::from_octets(10, 20, 30, 40, 1).to_string_cidr(), "10.20.30.40/1");
    assert_eq!(CIDR::from_octets(10, 20, 30, 40, 31).to_string_cidr(), "10.20.30.40/31");
    assert_eq!(CIDR::from_octets(10, 20, 30, 40, 24).network().to_string_cidr(), "10.20.30.0/0");
}

#[test]
fn hexadecimal_notation() {
    assert_eq!(CIDR::from_octets(192, 168, 1, 0, 24).to_string_hex(), "c0a80100");
    assert_eq!(CIDR::from_octets(0, 0, 0, 0, 0).to_string_hex(), "00000000");
    assert_eq!(CIDR::from_octets(0, 0, 0, 10, 0).to_string_hex(), "0000000a");
    assert_eq!(CIDR::from_octets(255, 255, 255, 255, 0).to_string_hex(), "ffffffff");
    assert_eq!(CIDR::from_octets(1, 35, 69, 103, 0).to_string_hex(), "01234567");
    assert_eq!(CIDR::from_octets(137, 171, 205, 239, 0).to_string_hex(), "89abcdef");
    let mut out = String::from("0x");
    push_hex(&mut out, 0xdead_beef);
    assert_eq!(out, "0xdeadbeef");
}

#[test]
fn dotted_binary_notation() {
    assert_eq!(
        CIDR::from_octets(192, 168, 1, 0, 24).to_string_binary(),
        "11000000.10101000.00000001.00000000"
    );
    assert_eq!(
        CIDR::from_octets(0, 255, 128, 1, 24).to_string_binary(),
        "00000000.11111111.10000000.00000001"
    );
    assert_eq!(
        CIDR::from_octets(85, 170, 15, 240, 24).to_string_binary(),
        "01010101.10101010.00001111.11110000"
    );
    let mut out = String::from("b");
    push_binary(&mut out, 0x0103_070f);
    assert_eq!(out, "b00000001.00000011.00000111.00001111");
}

#[test]
fn reverse_dns_name() {
    assert_eq!(CIDR::from_octets(192, 168, 1, 0, 24).reverse_dns(), "0.1.168.192.in-addr.arpa");
    assert_eq!(CIDR::from_octets(8, 8, 4, 4, 32).reverse_dns(), "4.4.8.8.in-addr.arpa");
    assert_eq!(CIDR::from_octets(0, 0, 0, 0, 0).reverse_dns(), "0.0.0.0.in-addr.arpa");
    assert_eq!(
        CIDR::from_octets(255, 254, 253, 252, 0).reverse_dns(),
        "252.253.254.255.in-addr.arpa"
    );
    let mut out = String::from("> ");
    push_reverse_dns(&mut out, 0x0102_0304);
    assert_eq!(out, "> 4.3.2.1.in-addr.arpa");
}
