use ip_extract::cidr::{partition_to_cidr, partition_to_cidr_v6, CidrBlockV4, CidrBlockV6, IpError};
use ip_extract::ip_tool::{cidr_to_ipv4, ipv4_to_cidr, ipv4_to_u32, ipv6_to_u128, u128_to_ipv6, u32_to_ipv4};

#[test]
fn parse_format_concrete_test() {
    assert_eq!(Some(16777216), ipv4_to_u32("1.0.0.0"));
    assert_eq!("1.0.0.0", u32_to_ipv4(16777216));
}

#[test]
fn ipv4_round_trip_samples_test() {
    for n in [0u32, 1, 255, 256, 16777216, 3232237129, u32::MAX] {
        assert_eq!(Some(n), ipv4_to_u32(&u32_to_ipv4(n)));
    }
}

#[test]
fn ipv4_canonicalizes_leading_zeros_test() {
    let n = ipv4_to_u32("001.002.003.004").unwrap();
    assert_eq!("1.2.3.4", u32_to_ipv4(n));
}

#[test]
fn ipv6_round_trip_samples_test() {
    for n in [0u128, 1, 0xffff_0000_0000, 1 << 64, u128::MAX] {
        assert_eq!(Some(n), ipv6_to_u128(&u128_to_ipv6(n)));
    }
    let n = ipv6_to_u128("2001:200::1").unwrap();
    assert_eq!("2001:200:0:0:0:0:0:1", ip_extract::ip_tool::u128_to_ipv6(n));
}

#[test]
fn ipv4_parse_rejects_test() {
    assert_eq!(None, ipv4_to_u32("1.2.3"));
    assert_eq!(None, ipv4_to_u32("1.2.3.4.5"));
    assert_eq!(None, ipv4_to_u32("256.0.0.0"));
    assert_eq!(None, ipv4_to_u32("+1.2.3.4"));
    assert_eq!(None, ipv4_to_u32("1..2.3"));
    assert_eq!(None, ipv4_to_u32(""));
}

#[test]
fn ipv6_parse_rejects_test() {
    assert_eq!(None, ipv6_to_u128("1:2:3"));
    assert_eq!(None, ipv6_to_u128("12345:0:0:0:0:0:0:0"));
    assert_eq!(None, ipv6_to_u128("g::1"));
    assert_eq!(None, ipv6_to_u128("1.2.3.4.5"));
    assert_eq!(None, ipv6_to_u128("1:2:3:4:5:6:7"));
}

#[test]
fn partition_blocks_concrete_test() {
    // the seven greedy blocks of 192.168.6.73 .. 192.168.6.132
    let a = ipv4_to_u32("192.168.6.73").unwrap();
    let b = ipv4_to_u32("192.168.6.132").unwrap();
    let blocks = partition_to_cidr(a, b).unwrap();
    let expected = [
        ("192.168.6.73", 32u8),
        ("192.168.6.74", 31),
        ("192.168.6.76", 30),
        ("192.168.6.80", 28),
        ("192.168.6.96", 27),
        ("192.168.6.128", 30),
        ("192.168.6.132", 32),
    ];
    assert_eq!(expected.len(), blocks.len());
    for (blk, (base, prefix)) in blocks.iter().zip(expected.iter()) {
        assert_eq!(
            CidrBlockV4 { base: ipv4_to_u32(base).unwrap(), prefix: *prefix },
            *blk
        );
    }
}

#[test]
fn partition_full_space_test() {
    // the whole 32-bit space is one block with prefix 0
    let blocks = partition_to_cidr(0, u32::MAX).unwrap();
    assert_eq!(1, blocks.len());
    assert_eq!(CidrBlockV4 { base: 0, prefix: 0 }, blocks[0]);
    let blocks = partition_to_cidr_v6(0, u128::MAX).unwrap();
    assert_eq!(1, blocks.len());
    assert_eq!(CidrBlockV6 { base: 0, prefix: 0 }, blocks[0]);
}

#[test]
fn partition_invalid_range_test() {
    assert_eq!(Err(IpError::InvalidRange), partition_to_cidr(5, 3));
    assert_eq!(Err(IpError::InvalidRange), partition_to_cidr_v6(5, 3));
    assert_eq!(None, ipv4_to_cidr("2.0.0.0", "1.0.0.0"));
}

#[test]
fn partition_single_block_round_trip_test() {
    // a single aligned block partitions back to exactly itself
    let info = cidr_to_ipv4("103.165.84.5/22").unwrap();
    assert_eq!(
        vec!["103.165.84.0/22".to_string()],
        ipv4_to_cidr(&info.ip_start, &info.ip_end).unwrap()
    );
}

#[test]
fn cidr_info_concrete_test() {
    let info = cidr_to_ipv4("103.165.84.5/22").unwrap();
    assert_eq!("103.165.84.0", info.ip_start);
    assert_eq!("103.165.87.255", info.ip_end);
    assert_eq!("255.255.252.0", info.mask);
    assert_eq!(1024, info.count);
}

#[test]
fn cidr_info_rejects_test() {
    assert_eq!(None, cidr_to_ipv4("1.2.3.4"));
    assert_eq!(None, cidr_to_ipv4("1.2.3.4/33"));
    assert_eq!(None, cidr_to_ipv4("1.2.3.4/+2"));
    assert_eq!(None, cidr_to_ipv4("1.2.3/22"));
    assert_eq!(None, ip_extract::ip_tool::cidr_to_ipv6("::1/129"));
}

#[test]
fn mapped_band_rendering_test() {
    // values inside the IPv4-mapped band render as eight hex groups like
    // any other, through both entry points
    assert_eq!("0:0:0:0:0:ffff:0:0", ip_extract::u128_to_ipv6(281470681743360));
    assert_eq!("0:0:0:0:0:ffff:0:0", u128_to_ipv6(281470681743360));
}
