use ip_extract::ip_tool::{
    cidr_to_ipv4, cidr_to_ipv6, ipv4_to_cidr, ipv4_to_ipv6, ipv4_to_u32, ipv6_to_cidr,
    ipv6_to_ipv4, ipv6_to_u128, u128_to_ipv6, u32_to_ipv4, CidrIpv4Info, CidrIpv6Info,
};

#[test]
fn ip_tool_ipv4_to_u32_test() {
    let x = ipv4_to_u32("223.255.255.255");
    if x == None {
        panic!("convert ipv4 to u32 fail")
    }
    assert_eq!(3758096383, x.unwrap());
    let x = ipv4_to_u32("1.0.0.0");
    if x == None {
        panic!("convert ipv4 to u32 fail")
    }
    assert_eq!(16777216, x.unwrap());
    let x = ipv4_to_u32("0.0.0.0");
    if x == None {
        panic!("convert ipv4 to u32 fail")
    }
    assert_eq!(0, x.unwrap());
    let x = ipv4_to_u32("255.255.255.255");
    if x == None {
        panic!("convert ipv4 to u32 fail")
    }
    assert_eq!(4294967295, x.unwrap());
}

#[test]
fn ip_tool_ipv6_to_u128_test() {
    let x = ipv6_to_u128("ffff:ffff:ffff:ffff:ffff:ffff:ffff:ffff");
    if x == None {
        panic!("convert ffff:ffff:ffff:ffff:ffff:ffff:ffff:ffff to u128 fail")
    }
    assert_eq!(340282366920938463463374607431768211455, x.unwrap());
    let x = ipv6_to_u128("2001:200:0:0:0:0:0:0");
    if x == None {
        panic!("convert 2001:200:0:0:0:0:0:0 to u128 fail")
    }
    assert_eq!(42540528726795050063891204319802818560, x.unwrap());
    let x = ipv6_to_u128("2001:200::1");
    if x == None {
        panic!("convert 2001:200::1 to u128 fail")
    }
    assert_eq!(42540528726795050063891204319802818561, x.unwrap());
    let x = ipv6_to_u128("::1");
    if x == None {
        panic!("convert ::1 to u128 fail")
    }
    assert_eq!(1, x.unwrap());
    let x = ipv6_to_u128("255.255.255.255");
    if x == None {
        panic!("convert 255.255.255.255 to u128 fail")
    }
    assert_eq!(281474976710655, x.unwrap());
    let x = ipv6_to_u128("0.0.0.0");
    if x == None {
        panic!("convert 0.0.0.0 to u128 fail")
    }
    assert_eq!(281470681743360, x.unwrap());
    let x = ipv6_to_u128("::0.0.0.0");
    if x == None {
        panic!("convert ::0.0.0.0 to u128 fail")
    }
    assert_eq!(281470681743360, x.unwrap());
    let x = ipv6_to_u128("223.255.255.255");
    if x == None {
        panic!("convert 223.255.255.255 to u128 fail")
    }
    assert_eq!(281474439839743, x.unwrap());
}

#[test]
fn ip_tool_u32_to_ipv4_test() {
    assert_eq!("255.255.255.255", u32_to_ipv4(4294967295));
    assert_eq!("223.255.255.255", u32_to_ipv4(3758096383));
    assert_eq!("1.0.0.0", u32_to_ipv4(16777216));
    assert_eq!("0.0.0.0", u32_to_ipv4(0));
}

#[test]
fn ip_tool_u128_to_ipv6_test() {
    assert_eq!(
        "ffff:ffff:ffff:ffff:ffff:ffff:ffff:ffff",
        u128_to_ipv6(340282366920938463463374607431768211455)
    );
    assert_eq!(
        "2001:200:0:0:0:0:0:0",
        u128_to_ipv6(42540528726795050063891204319802818560)
    );
    assert_eq!("0:0:0:0:0:0:0:1", u128_to_ipv6(1));
    assert_eq!("0:0:0:0:0:0:0:0", u128_to_ipv6(0));
}

#[test]
fn ipv4_to_ipv6_test() {
    assert_eq!(
        Some("0:0:0:0:0:ffff:ffff:ffff".to_string()),
        ipv4_to_ipv6("255.255.255.255")
    );
    assert_eq!(
        Some("0:0:0:0:0:ffff:3d80:8044".to_string()),
        ipv4_to_ipv6("61.128.128.68")
    );
    assert_eq!(Some("0:0:0:0:0:ffff:0:0".to_string()), ipv4_to_ipv6("0.0.0.0"));
}

#[test]
fn ipv6_to_ipv4_test() {
    assert_eq!(
        Some("255.255.255.255".to_string()),
        ipv6_to_ipv4("0:0:0:0:0:ffff:ffff:ffff")
    );
    assert_eq!(
        Some("61.128.128.68".to_string()),
        ipv6_to_ipv4("0:0:0:0:0:ffff:3d80:8044")
    );
    assert_eq!(Some("0.0.0.0".to_string()), ipv6_to_ipv4("0:0:0:0:0:ffff:0:0"));
}

#[test]
fn cidr_to_ipv4_test() {
    assert_eq!(
        CidrIpv4Info {
            cidr: "103.165.84.5/22".to_string(),
            ip_start: "103.165.84.0".to_string(),
            ip_end: "103.165.87.255".to_string(),
            mask: "255.255.252.0".to_string(),
            count: 1024,
        },
        cidr_to_ipv4("103.165.84.5/22").unwrap()
    );
    assert_eq!(
        CidrIpv4Info {
            cidr: "0.0.0.0/14".to_string(),
            ip_start: "0.0.0.0".to_string(),
            ip_end: "0.3.255.255".to_string(),
            mask: "255.252.0.0".to_string(),
            count: 262144,
        },
        cidr_to_ipv4("0.0.0.0/14").unwrap()
    );
    assert_eq!(
        CidrIpv4Info {
            cidr: "0.0.0.0/0".to_string(),
            ip_start: "0.0.0.0".to_string(),
            ip_end: "255.255.255.255".to_string(),
            mask: "0.0.0.0".to_string(),
            count: 0,
        },
        cidr_to_ipv4("0.0.0.0/0").unwrap()
    );
    assert_eq!(
        CidrIpv4Info {
            cidr: "1.1.1.1/32".to_string(),
            ip_start: "1.1.1.1".to_string(),
            ip_end: "1.1.1.1".to_string(),
            mask: "255.255.255.255".to_string(),
            count: 1,
        },
        cidr_to_ipv4("1.1.1.1/32").unwrap()
    );
}

#[test]
fn cidr_to_ipv6_test() {
    assert_eq!(
        CidrIpv6Info {
            cidr: "CDCD:910A:2222:5498:8475:1111:3900:2020/64".to_string(),
            ip_start: "cdcd:910a:2222:5498:0:0:0:0".to_string(),
            ip_end: "cdcd:910a:2222:5498:ffff:ffff:ffff:ffff".to_string(),
            mask: "ffff:ffff:ffff:ffff:0:0:0:0".to_string(),
            count: 2_u128.pow(64),
        },
        cidr_to_ipv6("CDCD:910A:2222:5498:8475:1111:3900:2020/64").unwrap()
    );
    assert_eq!(
        CidrIpv6Info {
            cidr: "::0/0".to_string(),
            ip_start: "0:0:0:0:0:0:0:0".to_string(),
            ip_end: "ffff:ffff:ffff:ffff:ffff:ffff:ffff:ffff".to_string(),
            mask: "0:0:0:0:0:0:0:0".to_string(),
            count: 0,
        },
        cidr_to_ipv6("::0/0").unwrap()
    );
    assert_eq!(
        CidrIpv6Info {
            cidr: "::1/128".to_string(),
            ip_start: "0:0:0:0:0:0:0:1".to_string(),
            ip_end: "0:0:0:0:0:0:0:1".to_string(),
            mask: "ffff:ffff:ffff:ffff:ffff:ffff:ffff:ffff".to_string(),
            count: 1,
        },
        cidr_to_ipv6("::1/128").unwrap()
    );
}

#[test]
fn ipv4_to_cidr_test() {
    assert_eq!(
        vec![
            "103.165.84.0/22".to_string(),
            "103.165.88.0/21".to_string(),
            "103.165.96.0/23".to_string(),
            "103.165.98.0/24".to_string(),
        ],
        ipv4_to_cidr("103.165.84.0", "103.165.98.255").unwrap()
    );
    assert_eq!(
        vec![
            "192.168.6.73/32".to_string(),
            "192.168.6.74/31".to_string(),
            "192.168.6.76/30".to_string(),
            "192.168.6.80/28".to_string(),
            "192.168.6.96/27".to_string(),
            "192.168.6.128/30".to_string(),
            "192.168.6.132/32".to_string(),
        ],
        ipv4_to_cidr("192.168.6.73", "192.168.6.132").unwrap()
    );
    assert_eq!(
        vec!["192.168.6.73/32".to_string()],
        ipv4_to_cidr("192.168.6.73", "192.168.6.73").unwrap()
    );
    assert_eq!(
        vec!["0.0.0.0/0".to_string()],
        ipv4_to_cidr("0.0.0.0", "255.255.255.255").unwrap()
    );
}

#[test]
fn ipv6_to_cidr_test() {
    assert_eq!(
        vec!["16a0:10:ab00:1e:0:0:0:0/64".to_string()],
        ipv6_to_cidr(
            "16A0:0010:AB00:001E:0000:0000:0000:0000",
            "16A0:0010:AB00:001E:FFFF:FFFF:FFFF:FFFF"
        )
        .unwrap()
    );
    assert_eq!(
        vec!["0:0:0:0:0:0:0:0/0".to_string()],
        ipv6_to_cidr("::", "ffff:ffff:ffff:ffff:ffff:ffff:ffff:ffff").unwrap()
    );
}
