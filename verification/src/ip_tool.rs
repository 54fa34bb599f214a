//! The public address toolkit: textual IPv4/IPv6 conversion to and from
//! fixed-width integers, range-to-CIDR decomposition on literals, and the
//! numeric view of a single CIDR literal.
use vstd::prelude::*;
use vstd::string::*;
use crate::strnum::{
    all_dec_digits, dec_str, dec_val, find_last, append_dec, parse_dec_bounded, rfind_char,
    lemma_find_last_range,
};
use crate::addr::{
    spec_parse_ipv4, spec_parse_ipv6, ipv4_str, ipv6_str, parse_ipv4_str, parse_ipv6_str,
    format_ipv4, format_ipv6,
};
use crate::cidr::{
    spec_partition, cidr_start, cidr_end, mask_val, count_val, partition_to_cidr,
    partition_to_cidr_v6, cidr_bounds_v4, cidr_bounds_v6, blocks_model_v4, blocks_model_v6,
};

verus! {

/// Reads a dotted-quad IPv4 literal as its 32-bit value: exactly four
/// dot-separated decimal octets, each in `[0, 255]`. `None` on any other
/// text.
pub fn ipv4_to_u32(ipv4: &str) -> (r: Option<u32>)
    ensures
        r == spec_parse_ipv4(ipv4@),
{
    parse_ipv4_str(ipv4)
}

/// Reads an IPv6 literal as its 128-bit value: either colon-separated
/// hexadecimal groups with one optional `::` zero run, or an embedded
/// dotted-quad after the last colon, mapped into `::ffff:0:0/96`. `None`
/// on any other text.
pub fn ipv6_to_u128(ipv6: &str) -> (r: Option<u128>)
    ensures
        r == spec_parse_ipv6(ipv6@),
{
    parse_ipv6_str(ipv6)
}

/// Renders a 32-bit value as the canonical dotted-quad literal.
pub fn u32_to_ipv4(number: u32) -> (r: String)
    ensures
        r@ == ipv4_str(number),
{
    format_ipv4(number)
}

/// Renders a 128-bit value as the canonical IPv6 literal: always eight
/// lowercase hexadecimal groups, never `::`-compressed, never a dotted
/// quad.
pub fn u128_to_ipv6(number: u128) -> (r: String)
    ensures
        r@ == ipv6_str(number),
{
    format_ipv6(number)
}

/// The 128-bit value of the IPv4-mapped image of a 32-bit value.
pub open spec fn ipv4_mapped(v: u32) -> u128 {
    (v as int + 0xffff_0000_0000) as u128
}

/// Rewrites a dotted-quad literal as the canonical IPv6 literal of its
/// IPv4-mapped image in `::ffff:0:0/96`. `None` when the input is not a
/// valid dotted quad.
pub fn ipv4_to_ipv6(ipv4: &str) -> (r: Option<String>)
    ensures
        match r {
            Some(t) => spec_parse_ipv4(ipv4@) is Some && t@ == ipv6_str(
                ipv4_mapped(spec_parse_ipv4(ipv4@)->Some_0),
            ),
            None => spec_parse_ipv4(ipv4@) is None,
        },
{
    let number = match parse_ipv4_str(ipv4) {
        None => {
            return None;
        },
        Some(v) => v,
    };
    let mapped: u128 = number as u128 + 0xffff_0000_0000;
    Some(format_ipv6(mapped))
}

/// Rewrites an IPv6 literal as the dotted-quad literal of its low 32
/// bits. `None` when the input is not a valid IPv6 literal.
pub fn ipv6_to_ipv4(ipv6: &str) -> (r: Option<String>)
    ensures
        match r {
            Some(t) => spec_parse_ipv6(ipv6@) is Some && t@ == ipv4_str(
                (spec_parse_ipv6(ipv6@)->Some_0 % 0x1_0000_0000) as u32,
            ),
            None => spec_parse_ipv6(ipv6@) is None,
        },
{
    let number = match parse_ipv6_str(ipv6) {
        None => {
            return None;
        },
        Some(v) => v,
    };
    Some(format_ipv4((number % 0x1_0000_0000) as u32))
}

/// The numeric view of an IPv4 CIDR literal: the literal itself, the
/// block's first and last address, its netmask, and its address count,
/// with 0 standing for the whole space at prefix 0.
#[derive(PartialEq, Eq, Debug)]
pub struct CidrIpv4Info {
    pub cidr: String,
    pub ip_start: String,
    pub ip_end: String,
    pub mask: String,
    pub count: u32,
}

/// The numeric view of an IPv6 CIDR literal, as for IPv4.
#[derive(PartialEq, Eq, Debug)]
pub struct CidrIpv6Info {
    pub cidr: String,
    pub ip_start: String,
    pub ip_end: String,
    pub mask: String,
    pub count: u128,
}

/// The address and prefix length of a well-formed IPv4 CIDR literal:
/// everything before the last slash a valid dotted quad, everything after
/// it a decimal prefix length in `[0, 32]`. `None` on any other text.
pub open spec fn spec_cidr_v4(s: Seq<char>) -> Option<(u32, int)> {
    let k = find_last(s, '/');
    if k < 0 {
        None
    } else {
        match spec_parse_ipv4(s.take(k)) {
            None => None,
            Some(ip) => {
                let pt = s.skip(k + 1);
                if pt.len() > 0 && all_dec_digits(pt) && 0 <= dec_val(pt) <= 32 {
                    Some((ip, dec_val(pt)))
                } else {
                    None
                }
            },
        }
    }
}

/// The address and prefix length of a well-formed IPv6 CIDR literal, with
/// the prefix length in `[0, 128]`. `None` on any other text.
pub open spec fn spec_cidr_v6(s: Seq<char>) -> Option<(u128, int)> {
    let k = find_last(s, '/');
    if k < 0 {
        None
    } else {
        match spec_parse_ipv6(s.take(k)) {
            None => None,
            Some(ip) => {
                let pt = s.skip(k + 1);
                if pt.len() > 0 && all_dec_digits(pt) && 0 <= dec_val(pt) <= 128 {
                    Some((ip, dec_val(pt)))
                } else {
                    None
                }
            },
        }
    }
}

/// Describes an IPv4 CIDR literal: its first and last address, netmask
/// and address count, each address rendered canonically. The count 0
/// stands for the whole space: the true count at prefix 0 does not fit a
/// 32-bit result. `None` when the literal is not well-formed.
pub fn cidr_to_ipv4(cidr: &str) -> (r: Option<CidrIpv4Info>)
    ensures
        match r {
            Some(info) => {
                &&& spec_cidr_v4(cidr@) is Some
                &&& {
                    let (ip, p) = spec_cidr_v4(cidr@)->Some_0;
                    &&& info.cidr@ == cidr@
                    &&& info.ip_start@ == ipv4_str(cidr_start(ip as int, p, 32) as u32)
                    &&& info.ip_end@ == ipv4_str(cidr_end(ip as int, p, 32) as u32)
                    &&& info.mask@ == ipv4_str(mask_val(p, 32) as u32)
                    &&& info.count == count_val(p, 32)
                }
            },
            None => spec_cidr_v4(cidr@) is None,
        },
{
    let n = cidr.unicode_len();
    let k = match rfind_char(cidr, '/') {
        None => {
            return None;
        },
        Some(k) => k,
    };
    proof {
        lemma_find_last_range(cidr@, '/');
    }
    let ip_txt = cidr.substring_char(0, k);
    let p_txt = cidr.substring_char(k + 1, n);
    proof {
        assert(ip_txt@ =~= cidr@.take(k as int));
        assert(p_txt@ =~= cidr@.skip(k as int + 1));
    }
    let ip = match parse_ipv4_str(ip_txt) {
        None => {
            return None;
        },
        Some(v) => v,
    };
    let p = match parse_dec_bounded(p_txt, 32) {
        None => {
            return None;
        },
        Some(v) => v,
    };
    let bounds = cidr_bounds_v4(ip, p as u8);
    Some(
        CidrIpv4Info {
            cidr: cidr.to_owned(),
            ip_start: format_ipv4(bounds.0),
            ip_end: format_ipv4(bounds.1),
            mask: format_ipv4(bounds.2),
            count: bounds.3,
        },
    )
}

/// Describes an IPv6 CIDR literal, as `cidr_to_ipv4` does for IPv4; the
/// count 0 stands for the whole space at prefix 0.
pub fn cidr_to_ipv6(cidr: &str) -> (r: Option<CidrIpv6Info>)
    ensures
        match r {
            Some(info) => {
                &&& spec_cidr_v6(cidr@) is Some
                &&& {
                    let (ip, p) = spec_cidr_v6(cidr@)->Some_0;
                    &&& info.cidr@ == cidr@
                    &&& info.ip_start@ == ipv6_str(cidr_start(ip as int, p, 128) as u128)
                    &&& info.ip_end@ == ipv6_str(cidr_end(ip as int, p, 128) as u128)
                    &&& info.mask@ == ipv6_str(mask_val(p, 128) as u128)
                    &&& info.count == count_val(p, 128)
                }
            },
            None => spec_cidr_v6(cidr@) is None,
        },
{
    let n = cidr.unicode_len();
    let k = match rfind_char(cidr, '/') {
        None => {
            return None;
        },
        Some(k) => k,
    };
    proof {
        lemma_find_last_range(cidr@, '/');
    }
    let ip_txt = cidr.substring_char(0, k);
    let p_txt = cidr.substring_char(k + 1, n);
    proof {
        assert(ip_txt@ =~= cidr@.take(k as int));
        assert(p_txt@ =~= cidr@.skip(k as int + 1));
    }
    let ip = match parse_ipv6_str(ip_txt) {
        None => {
            return None;
        },
        Some(v) => v,
    };
    let p = match parse_dec_bounded(p_txt, 128) {
        None => {
            return None;
        },
        Some(v) => v,
    };
    let bounds = cidr_bounds_v6(ip, p as u8);
    Some(
        CidrIpv6Info {
            cidr: cidr.to_owned(),
            ip_start: format_ipv6(bounds.0),
            ip_end: format_ipv6(bounds.1),
            mask: format_ipv6(bounds.2),
            count: bounds.3,
        },
    )
}

/// The text `base/prefix` for one block of the 32-bit space.
pub open spec fn cidr_literal_v4(b: (int, int)) -> Seq<char> {
    ipv4_str(b.0 as u32) + seq!['/'] + dec_str(b.1 as nat)
}

/// The text `base/prefix` for one block of the 128-bit space.
pub open spec fn cidr_literal_v6(b: (int, int)) -> Seq<char> {
    ipv6_str(b.0 as u128) + seq!['/'] + dec_str(b.1 as nat)
}

/// The CIDR literals covering the range two dotted quads span: the
/// minimal decomposition of `[start, end]`, each block as `base/prefix`.
/// `None` when either text is not a valid dotted quad or the range runs
/// backwards.
pub open spec fn spec_ipv4_to_cidr(s1: Seq<char>, s2: Seq<char>) -> Option<Seq<Seq<char>>> {
    match (spec_parse_ipv4(s1), spec_parse_ipv4(s2)) {
        (Some(a), Some(b)) => if a <= b {
            Some(
                spec_partition(a as int, b as int, 32).map_values(
                    |blk: (int, int)| cidr_literal_v4(blk),
                ),
            )
        } else {
            None
        },
        _ => None,
    }
}

/// The CIDR literals covering the range two IPv6 literals span.
pub open spec fn spec_ipv6_to_cidr(s1: Seq<char>, s2: Seq<char>) -> Option<Seq<Seq<char>>> {
    match (spec_parse_ipv6(s1), spec_parse_ipv6(s2)) {
        (Some(a), Some(b)) => if a <= b {
            Some(
                spec_partition(a as int, b as int, 128).map_values(
                    |blk: (int, int)| cidr_literal_v6(blk),
                ),
            )
        } else {
            None
        },
        _ => None,
    }
}

/// Decomposes the inclusive range between two dotted-quad literals into
/// the minimal ordered sequence of aligned CIDR literals covering it
/// exactly. `None` when either literal is malformed or the range runs
/// backwards.
pub fn ipv4_to_cidr(ip_start: &str, ip_end: &str) -> (r: Option<Vec<String>>)
    ensures
        match r {
            Some(v) => spec_ipv4_to_cidr(ip_start@, ip_end@) == Some(v.deep_view()),
            None => spec_ipv4_to_cidr(ip_start@, ip_end@) is None,
        },
{
    let a = match parse_ipv4_str(ip_start) {
        None => {
            return None;
        },
        Some(v) => v,
    };
    let b = match parse_ipv4_str(ip_end) {
        None => {
            return None;
        },
        Some(v) => v,
    };
    if a > b {
        return None;
    }
    let blocks = match partition_to_cidr(a, b) {
        Err(_) => {
            return None;
        },
        Ok(v) => v,
    };
    let ghost bm = spec_partition(a as int, b as int, 32);
    let mut out: Vec<String> = Vec::new();
    let mut i: usize = 0;
    while i < blocks.len()
        invariant
            0 <= i <= blocks.len(),
            blocks_model_v4(blocks@) == bm,
            blocks.len() == bm.len(),
            out.deep_view() =~~= bm.take(i as int).map_values(
                |blk: (int, int)| cidr_literal_v4(blk),
            ),
        decreases blocks.len() - i,
    {
        let blk = blocks[i];
        proof {
            assert(blocks_model_v4(blocks@)[i as int] == blocks@[i as int].model());
            assert(bm[i as int] == (blk.base as int, blk.prefix as int));
        }
        let mut s = format_ipv4(blk.base);
        s.append("/");
        append_dec(&mut s, blk.prefix as u128);
        let ghost prev = out.deep_view();
        out.push(s);
        proof {
            reveal_strlit("/");
            assert(s@ =~= cidr_literal_v4(bm[i as int]));
            assert(out.deep_view() =~~= prev.push(s@));
            assert(bm.take(i as int + 1) =~= bm.take(i as int).push(bm[i as int]));
            assert(out.deep_view() =~~= bm.take(i as int + 1).map_values(
                |blk: (int, int)| cidr_literal_v4(blk),
            ));
        }
        i += 1;
    }
    proof {
        assert(bm.take(bm.len() as int) =~= bm);
    }
    Some(out)
}

/// Decomposes the inclusive range between two IPv6 literals into the
/// minimal ordered sequence of aligned CIDR literals covering it exactly.
/// `None` when either literal is malformed or the range runs backwards.
pub fn ipv6_to_cidr(ip_start: &str, ip_end: &str) -> (r: Option<Vec<String>>)
    ensures
        match r {
            Some(v) => spec_ipv6_to_cidr(ip_start@, ip_end@) == Some(v.deep_view()),
            None => spec_ipv6_to_cidr(ip_start@, ip_end@) is None,
        },
{
    let a = match parse_ipv6_str(ip_start) {
        None => {
            return None;
        },
        Some(v) => v,
    };
    let b = match parse_ipv6_str(ip_end) {
        None => {
            return None;
        },
        Some(v) => v,
    };
    if a > b {
        return None;
    }
    let blocks = match partition_to_cidr_v6(a, b) {
        Err(_) => {
            return None;
        },
        Ok(v) => v,
    };
    let ghost bm = spec_partition(a as int, b as int, 128);
    let mut out: Vec<String> = Vec::new();
    let mut i: usize = 0;
    while i < blocks.len()
        invariant
            0 <= i <= blocks.len(),
            blocks_model_v6(blocks@) == bm,
            blocks.len() == bm.len(),
            out.deep_view() =~~= bm.take(i as int).map_values(
                |blk: (int, int)| cidr_literal_v6(blk),
            ),
        decreases blocks.len() - i,
    {
        let blk = blocks[i];
        proof {
            assert(blocks_model_v6(blocks@)[i as int] == blocks@[i as int].model());
            assert(bm[i as int] == (blk.base as int, blk.prefix as int));
        }
        let mut s = format_ipv6(blk.base);
        s.append("/");
        append_dec(&mut s, blk.prefix as u128);
        let ghost prev = out.deep_view();
        out.push(s);
        proof {
            reveal_strlit("/");
            assert(s@ =~= cidr_literal_v6(bm[i as int]));
            assert(out.deep_view() =~~= prev.push(s@));
            assert(bm.take(i as int + 1) =~= bm.take(i as int).push(bm[i as int]));
            assert(out.deep_view() =~~= bm.take(i as int + 1).map_values(
                |blk: (int, int)| cidr_literal_v6(blk),
            ));
        }
        i += 1;
    }
    proof {
        assert(bm.take(bm.len() as int) =~= bm);
    }
    Some(out)
}

} // verus!
