use cidr_calc::mask::{make_netmask, prefix_len_of};
use cidr_calc::CIDR;

#[test]
fn octets_are_packed_most_significant_first() {
    assert_eq!(CIDR::from_octets(1, 2, 3, 4, 8).to_u32(), 0x0102_0304);
    assert_eq!(CIDR::from_octets(255, 0, 0, 0, 8).to_u32(), 0xff00_0000);
    assert_eq!(CIDR::from_octets(0, 0, 0, 255, 8).to_u32(), 0x0000_00ff);
    assert_eq!(CIDR::from_octets(1, 2, 3, 4, 8).to_octets(), vec![1, 2, 3, 4]);
    assert_eq!(CIDR::from_octets(192, 168, 1, 77, 24).to_octets(), vec![192, 168, 1, 77]);
}

#[test]
fn octets_above_a_byte_overlap() {
    assert_eq!(CIDR::from_octets(0, 0, 1, 256, 0).to_u32(), 0x0000_0100);
    assert_eq!(CIDR::from_octets(0, 0, 0, 0x0102_0304, 0).to_octets(), vec![1, 2, 3, 4]);
    assert_eq!(CIDR::from_octets(256, 0, 0, 0, 0).to_u32(), 0);
}

#[test]
fn netmask_of_every_prefix() {
    let mut expected: u32 = 0;
    for prefix in 0..=32u32 {
        assert_eq!(make_netmask(prefix), expected);
        assert_eq!(prefix_len_of(expected), prefix);
        assert_eq!(CIDR::from_octets(10, 1, 2, 3, prefix).netmask().to_u32(), expected);
        expected = (expected >> 1) | 0x8000_0000;
    }
    assert_eq!(make_netmask(0), 0x0000_0000);
    assert_eq!(make_netmask(1), 0x8000_0000);
    assert_eq!(make_netmask(24), 0xffff_ff00);
    assert_eq!(make_netmask(31), 0xffff_fffe);
    assert_eq!(make_netmask(32), 0xffff_ffff);
}

#[test]
fn prefix_32_is_a_single_address() {
    let ip = CIDR::from_octets(8, 8, 8, 8, 32);
    assert_eq!(ip.netmask().to_u32(), 0xffff_ffff);
    assert_eq!(ip.network().to_u32(), ip.to_u32());
    assert_eq!(ip.broadcast().to_u32(), ip.to_u32());
    assert_eq!(ip.host_min().to_u32(), ip.to_u32() + 1);
    assert_eq!(ip.host_max().to_u32(), ip.to_u32() - 1);
    assert_eq!(ip.num_hosts(), u32::MAX);
}

#[test]
fn prefix_0_is_the_whole_address_space() {
    let ip = CIDR::from_octets(203, 0, 113, 7, 0);
    assert_eq!(ip.netmask().to_u32(), 0);
    assert_eq!(ip.network().to_string_ip(), "0.0.0.0");
    assert_eq!(ip.broadcast().to_string_ip(), "255.255.255.255");
    assert_eq!(ip.host_min().to_u32(), 1);
    assert_eq!(ip.host_max().to_u32(), 0xffff_fffe);
    assert_eq!(ip.num_hosts(), 0xffff_fffe);
}

#[test]
fn host_range_wraps_at_the_ends() {
    let top = CIDR::from_octets(255, 255, 255, 255, 32);
    assert_eq!(top.host_min().to_u32(), 0);
    assert_eq!(top.host_max().to_u32(), 0xffff_fffe);
    assert_eq!(top.num_hosts(), u32::MAX);
    let bottom = CIDR::from_octets(0, 0, 0, 0, 32);
    assert_eq!(bottom.host_min().to_u32(), 1);
    assert_eq!(bottom.host_max().to_u32(), u32::MAX);
    assert_eq!(bottom.num_hosts(), u32::MAX);
}

#[test]
fn number_of_hosts_by_prefix() {
    assert_eq!(CIDR::from_octets(10, 0, 0, 0, 8).num_hosts(), 16_777_214);
    assert_eq!(CIDR::from_octets(172, 16, 0, 0, 12).num_hosts(), 1_048_574);
    assert_eq!(CIDR::from_octets(192, 168, 0, 0, 16).num_hosts(), 65_534);
    assert_eq!(CIDR::from_octets(192, 168, 1, 0, 24).num_hosts(), 254);
    assert_eq!(CIDR::from_octets(192, 168, 1, 0, 30).num_hosts(), 2);
    assert_eq!(CIDR::from_octets(192, 168, 1, 0, 31).num_hosts(), 0);
    assert_eq!(CIDR::from_octets(192, 168, 1, 0, 32).num_hosts(), 4_294_967_295);
    assert_eq!(CIDR::from_octets(192, 168, 1, 0, 1).num_hosts(), 2_147_483_646);
    for prefix in 0..=32u32 {
        let size: u64 = 1u64 << (32 - prefix);
        let expected = (size.wrapping_sub(2) & 0xffff_ffff) as u32;
        assert_eq!(CIDR::from_octets(198, 51, 100, 42, prefix).num_hosts(), expected);
    }
}

#[test]
fn derived_addresses_inside_a_block() {
    let ip = CIDR::from_octets(172, 16, 45, 200, 20);
    assert_eq!(ip.network().to_string_ip(), "172.16.32.0");
    assert_eq!(ip.broadcast().to_string_ip(), "172.16.47.255");
    assert_eq!(ip.host_min().to_string_ip(), "172.16.32.1");
    assert_eq!(ip.host_max().to_string_ip(), "172.16.47.254");
    assert_eq!(ip.netmask().to_string_ip(), "255.255.240.0");
    assert_eq!(ip.num_hosts(), 4094);
}

#[test]
fn derived_addresses_have_a_cleared_netmask() {
    let ip = CIDR::from_octets(172, 16, 45, 200, 20);
    for derived in [ip.network(), ip.netmask(), ip.broadcast(), ip.host_min(), ip.host_max()] {
        assert_eq!(derived.netmask().to_u32(), 0);
        assert_eq!(derived.prefix_len(), 0);
    }
    assert_eq!(ip.network(), CIDR::from_octets(172, 16, 32, 0, 0));
}

#[test]
fn prefix_31_leaves_no_hosts() {
    let ip = CIDR::from_octets(192, 0, 2, 6, 31);
    assert_eq!(ip.netmask().to_u32(), 0xffff_fffe);
    assert_eq!(ip.network().to_string_ip(), "192.0.2.6");
    assert_eq!(ip.broadcast().to_string_ip(), "192.0.2.7");
    assert_eq!(ip.host_min().to_string_ip(), "192.0.2.7");
    assert_eq!(ip.host_max().to_string_ip(), "192.0.2.6");
    assert_eq!(ip.num_hosts(), 0);
}
