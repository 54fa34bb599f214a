use ip_extract::{ipv4_split_to_u32, ipv4_to_u32, ipv6_to_u128, u128_to_ipv6, u32_to_ipv4};

#[test]
fn lib_ipv4_to_u32_test() {
    let x = ipv4_to_u32("223.255.255.255");
    if x == None {
        panic!("convert ipv4 to u32 fail")
    }
    assert_eq!(3758096383, x.unwrap());
    let x = ipv4_to_u32("1.0.0.0");
    if x == None {
        panic!("convert ipv4 to u32 fail")
    }
    assert_eq!(16777216, x.unwrap());
    let x = ipv4_to_u32("0.0.0.0");
    if x == None {
        panic!("convert ipv4 to u32 fail")
    }
    assert_eq!(0, x.unwrap());
    let x = ipv4_to_u32("255.255.255.255");
    if x == None {
        panic!("convert ipv4 to u32 fail")
    }
    assert_eq!(4294967295, x.unwrap());
}

#[test]
fn lib_ipv6_to_u128_test() {
    let x = ipv6_to_u128("ffff:ffff:ffff:ffff:ffff:ffff:ffff:ffff");
    if x == None {
        panic!("convert ffff:ffff:ffff:ffff:ffff:ffff:ffff:ffff to u128 fail")
    }
    assert_eq!(340282366920938463463374607431768211455, x.unwrap());
    let x = ipv6_to_u128("2001:200:0:0:0:0:0:0");
    if x == None {
        panic!("convert 2001:200:0:0:0:0:0:0 to u128 fail")
    }
    assert_eq!(42540528726795050063891204319802818560, x.unwrap());
    let x = ipv6_to_u128("255.255.255.255");
    if x == None {
        panic!("convert 255.255.255.255 to u128 fail")
    }
    assert_eq!(281474976710655, x.unwrap());
    let x = ipv6_to_u128("0.0.0.0");
    if x == None {
        panic!("convert 0.0.0.0 to u128 fail")
    }
    assert_eq!(281470681743360, x.unwrap());
    let x = ipv6_to_u128("223.255.255.255");
    if x == None {
        panic!("convert 223.255.255.255 to u128 fail")
    }
    assert_eq!(281474439839743, x.unwrap());
}

#[test]
fn lib_u32_to_ipv4_test() {
    assert_eq!("255.255.255.255", u32_to_ipv4(4294967295));
    assert_eq!("223.255.255.255", u32_to_ipv4(3758096383));
    assert_eq!("1.0.0.0", u32_to_ipv4(16777216));
    assert_eq!("0.0.0.0", u32_to_ipv4(0));
}

#[test]
fn lib_u128_to_ipv6_test() {
    assert_eq!(
        "ffff:ffff:ffff:ffff:ffff:ffff:ffff:ffff",
        u128_to_ipv6(340282366920938463463374607431768211455)
    );
    assert_eq!(
        "2001:200:0:0:0:0:0:0",
        u128_to_ipv6(42540528726795050063891204319802818560)
    );
    assert_eq!("0:0:0:0:0:ffff:0:0", u128_to_ipv6(281470681743360));
    assert_eq!("0:0:0:0:0:ffff:dfff:ffff", u128_to_ipv6(281474439839743));
    assert_eq!("0:0:0:0:0:ffff:ffff:ffff", u128_to_ipv6(281474976710655));
}

#[test]
fn lib_ipv4_split_to_u32_test() {
    assert_eq!(Some(16777216), ipv4_split_to_u32(vec!["1", "0", "0", "0"]));
    assert_eq!(Some(4294967295), ipv4_split_to_u32(vec!["255", "255", "255", "255"]));
    assert_eq!(None, ipv4_split_to_u32(vec!["1", "0", "0"]));
    assert_eq!(None, ipv4_split_to_u32(vec!["1", "0", "0", "256"]));
    assert_eq!(None, ipv4_split_to_u32(vec!["1", "0", "0", "a"]));
}

#[test]
fn lib_ip_location_new_test() {
    let rec = ip_extract::IpLocation::new(vec!["16777216", "16777471", "US", "United States"]);
    assert_eq!("16777216", rec._ip_start);
    assert_eq!("16777471", rec._ip_end);
    assert_eq!("US", rec._country_code);
    assert_eq!("United States", rec._country_name);
}
