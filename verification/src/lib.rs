//! Address/CIDR arithmetic for building country-filtered routing rules:
//! conversion between textual IPv4/IPv6 addresses and fixed-width unsigned
//! integers, coalescing of qualifying address ranges, and exact minimal
//! decomposition of a contiguous range into aligned CIDR blocks.
//!
//! The crate root offers plain conversion entry points; `ip_tool` holds
//! the full toolkit, `extract` the range merger and rule renderers, and
//! `addr`, `cidr` and `strnum` the verified core they are built on.
pub mod strnum;
pub mod addr;
pub mod cidr;
pub mod ip_tool;
pub mod extract;

use vstd::prelude::*;
use crate::addr::{
    quad_value, spec_parse_ipv4, spec_parse_ipv6, ipv4_str, ipv6_str, parse_ipv4_str,
    parse_ipv6_str, format_ipv4, format_ipv6, valid_octet,
};
use crate::strnum::{parse_dec_bounded, dec_val};

verus! {

/// Reads the four components of an already split dotted-quad literal as
/// its 32-bit value: exactly four components, each a decimal octet in
/// `[0, 255]`, packed most significant first. `None` on any other input.
pub fn ipv4_split_to_u32(split: Vec<&str>) -> (r: Option<u32>)
    ensures
        r == quad_value(split.deep_view()),
{
    let ghost dv = split.deep_view();
    if split.len() != 4 {
        return None;
    }
    let o0 = match parse_dec_bounded(split[0], 255) {
        Some(v) => v,
        None => {
            assert(!valid_octet(dv[0]));
            return None;
        },
    };
    let o1 = match parse_dec_bounded(split[1], 255) {
        Some(v) => v,
        None => {
            assert(!valid_octet(dv[1]));
            return None;
        },
    };
    let o2 = match parse_dec_bounded(split[2], 255) {
        Some(v) => v,
        None => {
            assert(!valid_octet(dv[2]));
            return None;
        },
    };
    let o3 = match parse_dec_bounded(split[3], 255) {
        Some(v) => v,
        None => {
            assert(!valid_octet(dv[3]));
            return None;
        },
    };
    let r = ((o0 * 0x100 + o1) * 0x100 + o2) * 0x100 + o3;
    proof {
        let vals = Seq::new(4, |i: int| dec_val(dv[i]));
        crate::addr::lemma_pack4(vals, 256);
        assert(r == crate::addr::pack_base(vals, 256));
    }
    Some(r)
}

/// Reads a dotted-quad IPv4 literal as its 32-bit value.
pub fn ipv4_to_u32(ipv4: &str) -> (r: Option<u32>)
    ensures
        r == spec_parse_ipv4(ipv4@),
{
    parse_ipv4_str(ipv4)
}

/// Reads an IPv6 literal as its 128-bit value: colon-separated groups
/// with one optional `::` run, or an embedded dotted quad mapped into
/// `::ffff:0:0/96`.
pub fn ipv6_to_u128(ipv6: &str) -> (r: Option<u128>)
    ensures
        r == spec_parse_ipv6(ipv6@),
{
    parse_ipv6_str(ipv6)
}

/// Renders a 32-bit value as the canonical dotted-quad literal.
pub fn u32_to_ipv4(number: u32) -> (r: String)
    ensures
        r@ == ipv4_str(number),
{
    format_ipv4(number)
}

/// Renders a 128-bit value as the canonical IPv6 literal: always eight
/// lowercase hexadecimal groups, never `::`-compressed, never a dotted
/// quad. Callers that want dotted-quad output for the IPv4-mapped band
/// special-case it themselves, as the range merger does.
pub fn u128_to_ipv6(number: u128) -> (r: String)
    ensures
        r@ == ipv6_str(number),
{
    format_ipv6(number)
}

/// One source record, held as the raw texts of one database line.
#[derive(Debug)]
pub struct IpLocation {
    pub _ip_start: String,
    pub _ip_end: String,
    pub _country_code: String,
    pub _country_name: String,
}

impl IpLocation {
    /// Builds a record from the first four fields of a split line.
    pub fn new(split: Vec<&str>) -> (r: Self)
        requires
            split.deep_view().len() >= 4,
        ensures
            r._ip_start@ == split.deep_view()[0],
            r._ip_end@ == split.deep_view()[1],
            r._country_code@ == split.deep_view()[2],
            r._country_name@ == split.deep_view()[3],
    {
        Self {
            _ip_start: split[0].to_owned(),
            _ip_end: split[1].to_owned(),
            _country_code: split[2].to_owned(),
            _country_name: split[3].to_owned(),
        }
    }
}

} // verus!
