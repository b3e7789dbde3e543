use cidr_calc::{CidrError, CIDR};

fn parse(text: &str) -> Result<CIDR, CidrError> {
    CIDR::from_string(text.to_string())
}

#[test]
fn reads_octets_and_prefix() {
    let ip = parse("192.168.1.0/24").unwrap();
    assert_eq!(ip.to_u32(), 0xc0a8_0100);
    assert_eq!(ip.netmask().to_u32(), 0xffff_ff00);
    assert_eq!(ip.prefix_len(), 24);
    assert_eq!(ip, CIDR::from_octets(192, 168, 1, 0, 24));
}

#[test]
fn reads_shortest_and_longest_texts() {
    assert_eq!(parse("0.0.0.0/0"), Ok(CIDR::from_octets(0, 0, 0, 0, 0)));
    assert_eq!(parse("255.255.255.255/32"), Ok(CIDR::from_octets(255, 255, 255, 255, 32)));
    assert_eq!(parse("1.22.133.4/9"), Ok(CIDR::from_octets(1, 22, 133, 4, 9)));
}

#[test]
fn leading_zeros_are_accepted() {
    assert_eq!(parse("001.002.003.004/08"), Ok(CIDR::from_octets(1, 2, 3, 4, 8)));
    assert_eq!(parse("010.000.00.0/00"), Ok(CIDR::from_octets(10, 0, 0, 0, 0)));
    assert_eq!(parse("099.1.1.1/32"), Ok(CIDR::from_octets(99, 1, 1, 1, 32)));
}

#[test]
fn numbers_above_their_bound_are_out_of_range() {
    assert_eq!(parse("256.1.1.1/24"), Err(CidrError::InvalidRange));
    assert_eq!(parse("1.256.1.1/24"), Err(CidrError::InvalidRange));
    assert_eq!(parse("1.1.300.1/24"), Err(CidrError::InvalidRange));
    assert_eq!(parse("1.1.1.999/24"), Err(CidrError::InvalidRange));
    assert_eq!(parse("1.1.1.1/33"), Err(CidrError::InvalidRange));
    assert_eq!(parse("1.1.1.1/99"), Err(CidrError::InvalidRange));
    assert_eq!(parse("999.999.999.999/99"), Err(CidrError::InvalidRange));
    assert_eq!(parse("255.255.255.255/32").is_ok(), true);
}

#[test]
fn malformed_separators_are_rejected() {
    for text in [
        "192.168.1.0-24",
        "192.168.1/0/24",
        "192,168,1,0/24",
        "192.168.1.0.24",
        "192.168..1/24",
        "192.168.1.0//24",
        "192/168.1.0.24",
        "192.168.1.0\\24",
        "192 168 1 0 24",
    ] {
        assert_eq!(parse(text), Err(CidrError::InvalidFormat), "{}", text);
    }
}

#[test]
fn extra_characters_are_rejected() {
    for text in [
        " 192.168.1.0/24",
        "192.168.1.0/24 ",
        "192.168.1.0/24\n",
        "192.168.1.0 /24",
        "192.168.1.0/ 24",
        "192.168.1.0/24x",
        "x192.168.1.0/24",
        "192.168.1.0/24/",
        "192.168.1.0/24.",
        "192.168.1.0.1/24",
        "+192.168.1.0/24",
        "192.168.1.0/+4",
        "192.168.-1.0/24",
        "1922.168.1.0/24",
        "192.1688.1.0/24",
        "192.168.0001.0/24",
        "192.168.1.0000/24",
        "192.168.1.0/024",
        "192.168.1.0/240",
        "0x10.1.1.1/24",
    ] {
        assert_eq!(parse(text), Err(CidrError::InvalidFormat), "{}", text);
    }
}

#[test]
fn missing_parts_are_rejected() {
    for text in [
        "",
        "/",
        "...",
        ".../",
        "192.168.1.0",
        "192.168.1.0/",
        "192.168.1/24",
        "192.168.1./24",
        ".168.1.0/24",
        "192..1.0/24",
        "192.168/24",
        "/24",
        "24",
        "192",
        "192.",
        "192.168.1.0/.",
    ] {
        assert_eq!(parse(text), Err(CidrError::InvalidFormat), "{}", text);
    }
}

#[test]
fn digits_outside_ascii_are_rejected() {
    assert_eq!(parse("١٩٢.168.1.0/24"), Err(CidrError::InvalidFormat));
    assert_eq!(parse("192.168.1.0/٢٤"), Err(CidrError::InvalidFormat));
    assert_eq!(parse("192.168.1.0/24é"), Err(CidrError::InvalidFormat));
    assert_eq!(parse("é192.168.1.0/24"), Err(CidrError::InvalidFormat));
    assert_eq!(parse("１.２.３.４/５"), Err(CidrError::InvalidFormat));
}

#[test]
fn format_is_checked_before_range() {
    assert_eq!(parse("999.1.1.1"), Err(CidrError::InvalidFormat));
    assert_eq!(parse("999.1.1.1/24 "), Err(CidrError::InvalidFormat));
    assert_eq!(parse("1.1.1.1/999"), Err(CidrError::InvalidFormat));
}

#[test]
fn notation_round_trips() {
    let prefixes = [0u32, 1, 7, 8, 9, 15, 16, 17, 23, 24, 25, 30, 31, 32];
    let octets = [0u32, 1, 9, 10, 99, 100, 127, 128, 199, 200, 254, 255];
    for &prefix in prefixes.iter() {
        for (i, &a) in octets.iter().enumerate() {
            let b = octets[(i + 3) % octets.len()];
            let c = octets[(i + 5) % octets.len()];
            let d = octets[(i + 7) % octets.len()];
            let built = CIDR::from_octets(a, b, c, d, prefix);
            let text = built.to_string_cidr();
            assert_eq!(text, format!("{}.{}.{}.{}/{}", a, b, c, d, prefix));
            assert_eq!(CIDR::from_string(text), Ok(built));
        }
    }
}

#[test]
fn every_prefix_round_trips() {
    for prefix in 0..=32u32 {
        let built = CIDR::from_octets(172, 16, 254, 1, prefix);
        assert_eq!(built.prefix_len(), prefix);
        assert_eq!(CIDR::from_string(built.to_string_cidr()), Ok(built));
    }
}
