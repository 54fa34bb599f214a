//! The address codec core: positional numerals over an arbitrary base,
//! the exact grammar of IPv4 and IPv6 literals, and verified conversion
//! between literals and fixed-width unsigned integers.
use vstd::prelude::*;
use vstd::string::*;
use vstd::arithmetic::div_mod::{
    lemma_fundamental_div_mod, lemma_fundamental_div_mod_converse_div,
    lemma_fundamental_div_mod_converse_mod, lemma_div_denominator, lemma_div_pos_is_pos,
    lemma_mod_bound, lemma_small_mod, lemma_multiply_divide_lt,
};
use vstd::arithmetic::power::{pow, lemma_pow0, lemma_pow1, lemma_pow_adds, lemma_pow_positive};
use crate::strnum::{
    all_dec_digits, all_hex_digits, dec_str, dec_val, hex_str, hex_val, is_dec_digit,
    is_hex_digit, split_on, join_with, find_last, lemma_dec_str_ok, lemma_hex_str_ok,
    lemma_split_join, split_str, parse_dec_bounded, parse_hex_bounded, append_dec, append_hex,
    contains_char, rfind_char, lemma_find_last_range, lemma_join_no_char,
};

verus! {

/// The value of the digit string `vals`, most significant first, read in
/// base `b`.
pub open spec fn pack_base(vals: Seq<int>, b: int) -> int
    decreases vals.len(),
{
    if vals.len() == 0 {
        0
    } else {
        pack_base(vals.drop_last(), b) * b + vals.last()
    }
}

/// Digit `k` of `n` in base `b`, counted from the least significant.
pub open spec fn base_digit(n: int, b: int, k: nat) -> int
    decreases k,
{
    if k == 0 {
        n % b
    } else {
        base_digit(n / b, b, (k - 1) as nat)
    }
}

/// A base-`b` digit lies in `[0, b)`.
pub proof fn lemma_base_digit_bound(n: int, b: int, k: nat)
    requires
        n >= 0,
        b >= 2,
    ensures
        0 <= base_digit(n, b, k) < b,
    decreases k,
{
    if k == 0 {
        lemma_mod_bound(n, b);
    } else {
        lemma_div_pos_is_pos(n, b);
        lemma_base_digit_bound(n / b, b, (k - 1) as nat);
    }
}

/// Packing digits that are each in `[0, b)` gives a value in `[0, b^len)`.
pub proof fn lemma_pack_base_bound(vals: Seq<int>, b: int)
    requires
        b >= 2,
        forall|i: int| 0 <= i < vals.len() ==> 0 <= #[trigger] vals[i] < b,
    ensures
        0 <= pack_base(vals, b) < pow(b, vals.len()),
    decreases vals.len(),
{
    if vals.len() == 0 {
        lemma_pow0(b);
    } else {
        let dl = vals.drop_last();
        assert(forall|i: int| 0 <= i < dl.len() ==> 0 <= #[trigger] dl[i] < b) by {
            assert(forall|i: int| 0 <= i < dl.len() ==> dl[i] == vals[i]);
        }
        lemma_pack_base_bound(dl, b);
        let p = pack_base(dl, b);
        lemma_pow_adds(b, (vals.len() - 1) as nat, 1);
        lemma_pow1(b);
        let q = pow(b, (vals.len() - 1) as nat);
        assert(pow(b, vals.len()) == q * b);
        lemma_pow_positive(b, (vals.len() - 1) as nat);
        assert(pack_base(vals, b) == p * b + vals.last());
        assert(0 <= p * b + vals.last() < q * b) by (nonlinear_arith)
            requires
                0 <= p < q,
                2 <= b,
                0 <= vals.last() < b,
        ;
    }
}

/// Extracting digit `k` from the packed value gives the digit back.
pub proof fn lemma_pack_base_digit(vals: Seq<int>, b: int, k: nat)
    requires
        b >= 2,
        forall|i: int| 0 <= i < vals.len() ==> 0 <= #[trigger] vals[i] < b,
        k < vals.len(),
    ensures
        base_digit(pack_base(vals, b), b, k) == vals[vals.len() - 1 - k],
    decreases vals.len(),
{
    let dl = vals.drop_last();
    assert(forall|i: int| 0 <= i < dl.len() ==> 0 <= #[trigger] dl[i] < b) by {
        assert(forall|i: int| 0 <= i < dl.len() ==> dl[i] == vals[i]);
    }
    let p = pack_base(dl, b);
    let v = pack_base(vals, b);
    lemma_pack_base_bound(dl, b);
    assert(v == p * b + vals.last());
    if k == 0 {
        lemma_fundamental_div_mod_converse_mod(v, b, p, vals.last());
    } else {
        lemma_fundamental_div_mod_converse_div(v, b, p, vals.last());
        assert(v / b == p);
        lemma_pack_base_digit(dl, b, (k - 1) as nat);
        assert(dl[dl.len() - 1 - (k - 1)] == vals[vals.len() - 1 - k]);
    }
}

/// A value below `b^len` is the packing of its own `len` base-`b` digits,
/// most significant first.
pub proof fn lemma_unpack_pack(n: int, b: int, len: nat)
    requires
        b >= 2,
        0 <= n < pow(b, len),
    ensures
        pack_base(Seq::new(len, |i: int| base_digit(n, b, (len - 1 - i) as nat)), b) == n,
    decreases len,
{
    let s = Seq::new(len, |i: int| base_digit(n, b, (len - 1 - i) as nat));
    if len == 0 {
        lemma_pow0(b);
        assert(n == 0);
    } else {
        let s2 = Seq::new((len - 1) as nat, |i: int| base_digit(n / b, b, (len - 2 - i) as nat));
        assert(s.drop_last() =~= s2) by {
            assert forall|i: int| 0 <= i < len - 1 implies s.drop_last()[i] == s2[i] by {
                assert(s[i] == base_digit(n, b, (len - 1 - i) as nat));
                assert(base_digit(n, b, (len - 1 - i) as nat) == base_digit(
                    n / b,
                    b,
                    (len - 2 - i) as nat,
                ));
            }
        }
        lemma_pow_adds(b, (len - 1) as nat, 1);
        lemma_pow1(b);
        lemma_div_pos_is_pos(n, b);
        assert(n / b < pow(b, (len - 1) as nat)) by {
            assert(pow(b, len) == pow(b, (len - 1) as nat) * pow(b, 1));
            assert(pow(b, 1) == b);
            assert(n < b * pow(b, (len - 1) as nat)) by (nonlinear_arith)
                requires
                    n < pow(b, (len - 1) as nat) * b,
            ;
            lemma_multiply_divide_lt(n, b, pow(b, (len - 1) as nat));
        }
        lemma_unpack_pack(n / b, b, (len - 1) as nat);
        assert(s.last() == base_digit(n, b, 0));
        lemma_fundamental_div_mod(n, b);
        assert(pack_base(s, b) == (n / b) * b + n % b);
    }
}

/// Is `t` a valid decimal octet: nonempty, digits only, value at most 255?
pub open spec fn valid_octet(t: Seq<char>) -> bool {
    t.len() > 0 && all_dec_digits(t) && dec_val(t) <= 255
}

/// Is `t` a valid hexadecimal group: nonempty, hexadecimal digits only,
/// value at most 0xffff?
pub open spec fn valid_hex_group(t: Seq<char>) -> bool {
    t.len() > 0 && all_hex_digits(t) && hex_val(t) <= 0xffff
}

/// The value of four already split dotted-quad components: exactly four,
/// each a valid octet, packed most significant first. `None` on any other
/// input.
pub open spec fn quad_value(parts: Seq<Seq<char>>) -> Option<u32> {
    if parts.len() == 4 && (forall|i: int| 0 <= i < 4 ==> valid_octet(#[trigger] parts[i])) {
        Some(pack_base(Seq::new(4, |i: int| dec_val(parts[i])), 256) as u32)
    } else {
        None
    }
}

/// The value of a valid IPv4 dotted-quad literal: exactly four components
/// separated by dots, each a valid octet, packed most significant first.
/// `None` on any other text.
pub open spec fn spec_parse_ipv4(s: Seq<char>) -> Option<u32> {
    quad_value(split_on(s, '.'))
}

/// Octet `i` (0 is most significant) of the 32-bit address `n`.
pub open spec fn ipv4_group_val(n: u32, i: int) -> nat {
    base_digit(n as int, 256, (3 - i) as nat) as nat
}

/// The canonical dotted-quad rendering of the 32-bit address `n`:
/// four decimal octets without leading zeros, joined by dots.
pub open spec fn ipv4_str(n: u32) -> Seq<char> {
    join_with(Seq::new(4, |i: int| dec_str(ipv4_group_val(n, i))), '.')
}

/// `pow(b, k)` for the exponents this codec packs with.
pub proof fn lemma_pow_const()
    ensures
        pow(256, 0) == 1,
        pow(256, 1) == 0x100,
        pow(256, 2) == 0x1_0000,
        pow(256, 3) == 0x100_0000,
        pow(256, 4) == 0x1_0000_0000,
        pow(0x10000, 0) == 1,
        pow(0x10000, 1) == 0x10000,
        pow(0x10000, 2) == 0x1_0000_0000,
        pow(0x10000, 3) == 0x1_0000_0000_0000,
        pow(0x10000, 4) == 0x1_0000_0000_0000_0000,
        pow(0x10000, 5) == 0x1_0000_0000_0000_0000_0000,
        pow(0x10000, 6) == 0x1_0000_0000_0000_0000_0000_0000,
        pow(0x10000, 7) == 0x1_0000_0000_0000_0000_0000_0000_0000,
        pow(0x10000, 8) == 0x1_0000_0000_0000_0000_0000_0000_0000_0000,
{
    reveal_with_fuel(pow, 9);
    assert(pow(256, 0) == 1);
    assert(pow(256, 1) == 256);
    assert(pow(256, 2) == 0x10000);
    assert(pow(256, 3) == 0x100_0000);
    assert(pow(256, 4) == 0x1_0000_0000);
    assert(pow(0x10000, 0) == 1);
    assert(pow(0x10000, 1) == 0x10000);
    assert(pow(0x10000, 2) == 0x1_0000_0000);
    assert(pow(0x10000, 3) == 0x1_0000_0000_0000);
    assert(pow(0x10000, 4) == 0x1_0000_0000_0000_0000);
    assert(pow(0x10000, 5) == 0x1_0000_0000_0000_0000_0000);
    assert(pow(0x10000, 6) == 0x1_0000_0000_0000_0000_0000_0000);
    assert(pow(0x10000, 7) == 0x1_0000_0000_0000_0000_0000_0000_0000);
    assert(pow(0x10000, 8) == 0x1_0000_0000_0000_0000_0000_0000_0000_0000);
}

/// Packing four digits unfolds to the familiar nested sum.
pub proof fn lemma_pack4(vals: Seq<int>, b: int)
    requires
        vals.len() == 4,
    ensures
        pack_base(vals, b) == ((vals[0] * b + vals[1]) * b + vals[2]) * b + vals[3],
{
    let v3 = vals.drop_last();
    let v2 = v3.drop_last();
    let v1 = v2.drop_last();
    let v0 = v1.drop_last();
    assert(v0 =~= Seq::<int>::empty());
    assert(pack_base(vals, b) == pack_base(v3, b) * b + vals[3]);
    assert(pack_base(v3, b) == pack_base(v2, b) * b + vals[2]);
    assert(pack_base(v2, b) == pack_base(v1, b) * b + vals[1]);
    assert(pack_base(v0, b) == 0);
    assert(pack_base(v1, b) == vals[0]);
}

/// Reads a dotted-quad IPv4 literal as its 32-bit value, exactly as
/// `spec_parse_ipv4` describes.
pub fn parse_ipv4_str(s: &str) -> (r: Option<u32>)
    ensures
        r == spec_parse_ipv4(s@),
{
    let parts = split_str(s, '.');
    let ghost pv = split_on(s@, '.');
    if parts.len() != 4 {
        return None;
    }
    let o0 = match parse_dec_bounded(parts[0].as_str(), 255) {
        Some(v) => v,
        None => {
            assert(!valid_octet(pv[0]));
            return None;
        },
    };
    let o1 = match parse_dec_bounded(parts[1].as_str(), 255) {
        Some(v) => v,
        None => {
            assert(!valid_octet(pv[1]));
            return None;
        },
    };
    let o2 = match parse_dec_bounded(parts[2].as_str(), 255) {
        Some(v) => v,
        None => {
            assert(!valid_octet(pv[2]));
            return None;
        },
    };
    let o3 = match parse_dec_bounded(parts[3].as_str(), 255) {
        Some(v) => v,
        None => {
            assert(!valid_octet(pv[3]));
            return None;
        },
    };
    let r = ((o0 * 0x100 + o1) * 0x100 + o2) * 0x100 + o3;
    proof {
        let vals = Seq::new(4, |i: int| dec_val(pv[i]));
        lemma_pack4(vals, 256);
        assert(r == pack_base(vals, 256));
    }
    Some(r)
}

/// Octet `i` of `n`, executable.
fn ipv4_group(n: u32, i: usize) -> (g: u32)
    requires
        i < 4,
    ensures
        g == ipv4_group_val(n, i as int),
{
    let g = if i == 0 {
        n / 0x100_0000
    } else if i == 1 {
        (n / 0x10000) % 0x100
    } else if i == 2 {
        (n / 0x100) % 0x100
    } else {
        n % 0x100
    };
    proof {
        lemma_base_digit_div(n as int, 256, (3 - i) as nat);
        lemma_pow_const();
        if i == 0 {
            lemma_small_mod((n as int / 0x100_0000) as nat, 256);
        }
    }
    g
}

/// `base_digit` is division by `b^k` followed by one reduction mod `b`.
pub proof fn lemma_base_digit_div(n: int, b: int, k: nat)
    requires
        n >= 0,
        b >= 2,
    ensures
        base_digit(n, b, k) == (n / pow(b, k)) % b,
    decreases k,
{
    if k == 0 {
        lemma_pow0(b);
        assert(n / 1 == n);
    } else {
        lemma_div_pos_is_pos(n, b);
        lemma_base_digit_div(n / b, b, (k - 1) as nat);
        lemma_pow_positive(b, (k - 1) as nat);
        lemma_div_denominator(n, b, pow(b, (k - 1) as nat));
        lemma_pow_adds(b, 1, (k - 1) as nat);
        lemma_pow1(b);
        assert(b * pow(b, (k - 1) as nat) == pow(b, k));
        assert((n / b) / pow(b, (k - 1) as nat) == n / pow(b, k));
    }
}

/// Joining a one-longer list appends one separator and the new component.
pub proof fn lemma_join_step(parts: Seq<Seq<char>>, sep: char)
    requires
        parts.len() >= 2,
    ensures
        join_with(parts, sep) == join_with(parts.drop_last(), sep).push(sep) + parts.last(),
{
}

/// Renders the 32-bit address `n` as its canonical dotted-quad literal.
pub fn format_ipv4(n: u32) -> (r: String)
    ensures
        r@ == ipv4_str(n),
{
    let ghost gs = Seq::new(4, |i: int| dec_str(ipv4_group_val(n, i)));
    let mut r = String::new();
    let mut i: usize = 0;
    while i < 4
        invariant
            0 <= i <= 4,
            r@ == join_with(gs.take(i as int), '.'),
            gs == Seq::new(4, |j: int| dec_str(ipv4_group_val(n, j))),
        decreases 4 - i,
    {
        if i > 0 {
            r.append(".");
        }
        let g = ipv4_group(n, i);
        append_dec(&mut r, g as u128);
        proof {
            reveal_strlit(".");
            assert(gs.take(i as int + 1).drop_last() =~= gs.take(i as int));
            assert(gs.take(i as int + 1).last() == gs[i as int]);
            if i == 0 {
                assert(join_with(gs.take(1), '.') == gs[0]);
                assert(r@ == Seq::<char>::empty() + dec_str(ipv4_group_val(n, 0)));
                assert(r@ =~= gs[0]);
            } else {
                lemma_join_step(gs.take(i as int + 1), '.');
                assert(r@ =~= join_with(gs.take(i as int), '.').push('.') + gs[i as int]);
            }
        }
        i += 1;
    }
    proof {
        assert(gs.take(4) =~= gs);
    }
    r
}

/// The canonical rendering of an address parses back to the address.
pub proof fn lemma_parse_format_ipv4(n: u32)
    ensures
        spec_parse_ipv4(ipv4_str(n)) == Some(n),
{
    let gs = Seq::new(4, |i: int| dec_str(ipv4_group_val(n, i)));
    lemma_pow_const();
    assert forall|i: int| 0 <= i < 4 implies {
        &&& (#[trigger] gs[i]).len() >= 1
        &&& all_dec_digits(gs[i])
        &&& !gs[i].contains('.')
        &&& dec_val(gs[i]) == ipv4_group_val(n, i)
    } by {
        lemma_dec_str_ok(ipv4_group_val(n, i));
        assert forall|k: int| 0 <= k < gs[i].len() implies #[trigger] gs[i][k] != '.' by {
            assert(is_dec_digit(gs[i][k]));
        }
        assert(!gs[i].contains('.'));
    }
    lemma_split_join(gs, '.');
    let parts = split_on(ipv4_str(n), '.');
    assert(parts =~~= gs);
    assert forall|i: int| 0 <= i < 4 implies valid_octet(#[trigger] parts[i]) by {
        lemma_base_digit_bound(n as int, 256, (3 - i) as nat);
    }
    let vals = Seq::new(4, |i: int| dec_val(parts[i]));
    assert forall|i: int| 0 <= i < 4 implies vals[i] == base_digit(
        n as int,
        256,
        (3 - i) as nat,
    ) by {
        lemma_base_digit_bound(n as int, 256, (3 - i) as nat);
        assert(parts[i] == gs[i]);
    }
    assert(vals =~= Seq::new(4, |i: int| base_digit(n as int, 256, (3 - i) as nat)));
    lemma_unpack_pack(n as int, 256, 4);
    assert(pack_base(vals, 256) == n as int);
}

/// Parsing then formatting canonicalizes each octet of the accepted
/// literal: the rendering of the parsed value is the dot-join of the
/// literal's own octets, each re-rendered without leading zeros.
pub proof fn lemma_format_parse_ipv4(s: Seq<char>, n: u32)
    requires
        spec_parse_ipv4(s) == Some(n),
    ensures
        ipv4_str(n) == join_with(
            Seq::new(4, |i: int| dec_str(dec_val(split_on(s, '.')[i]) as nat)),
            '.',
        ),
{
    let parts = split_on(s, '.');
    let vals = Seq::new(4, |i: int| dec_val(parts[i]));
    lemma_pow_const();
    assert forall|i: int| 0 <= i < 4 implies 0 <= #[trigger] vals[i] < 256 by {
        crate::strnum::lemma_dec_val_nonneg(parts[i]);
    }
    lemma_pack_base_bound(vals, 256);
    assert(n as int == pack_base(vals, 256));
    assert forall|i: int| 0 <= i < 4 implies ipv4_group_val(n, i) == vals[i] by {
        lemma_pack_base_digit(vals, 256, (3 - i) as nat);
    }
    assert(Seq::new(4, |i: int| dec_str(ipv4_group_val(n, i))) =~~= Seq::new(
        4,
        |i: int| dec_str(dec_val(parts[i]) as nat),
    ));
}

/// A dotted-quad literal whose octets are already canonical — no leading
/// zeros — is exactly the rendering of its value: parsing and formatting
/// give the text back unchanged.
pub proof fn lemma_ipv4_canonical_text(s: Seq<char>, n: u32)
    requires
        spec_parse_ipv4(s) == Some(n),
        forall|i: int| 0 <= i < 4 ==> crate::strnum::canonical_dec(#[trigger] split_on(s, '.')[i]),
    ensures
        ipv4_str(n) == s,
{
    lemma_format_parse_ipv4(s, n);
    let parts = split_on(s, '.');
    assert forall|i: int| 0 <= i < 4 implies dec_str(dec_val(parts[i]) as nat) == #[trigger] parts[i] by {
        crate::strnum::lemma_dec_str_fixed_point(parts[i]);
    }
    assert(Seq::new(4, |i: int| dec_str(dec_val(parts[i]) as nat)) =~~= parts);
    crate::strnum::lemma_join_split(s, '.');
}

/// The position of the first empty component at or after `i`, or -1.
pub open spec fn first_empty_at(parts: Seq<Seq<char>>, i: int) -> int
    decreases parts.len() - i,
{
    if i < 0 || i >= parts.len() {
        -1
    } else if parts[i].len() == 0 {
        i
    } else {
        first_empty_at(parts, i + 1)
    }
}

/// The position of the first empty component, or -1 when none is empty.
pub open spec fn first_empty(parts: Seq<Seq<char>>) -> int {
    first_empty_at(parts, 0)
}

/// The single-character group `"0"`.
pub open spec fn zero_group() -> Seq<char> {
    seq!['0']
}

/// Every empty component replaced by the group `"0"`.
pub open spec fn fill_empty(parts: Seq<Seq<char>>) -> Seq<Seq<char>> {
    parts.map_values(|t: Seq<char>| if t.len() == 0 { zero_group() } else { t })
}

/// Zero-run expansion of the groups of an IPv6 literal. The first empty
/// component (the `::` compression) becomes as many `"0"` groups as bring
/// the total to eight; every other empty component becomes one `"0"`.
/// Without empty components the groups stand as they are.
pub open spec fn expand_groups(parts: Seq<Seq<char>>) -> Seq<Seq<char>> {
    let i = first_empty(parts);
    if i < 0 {
        parts
    } else {
        let k: int = if parts.len() >= 8 {
            1
        } else {
            9 - parts.len()
        };
        parts.take(i) + Seq::new(k as nat, |j: int| zero_group()) + fill_empty(
            parts.skip(i + 1),
        )
    }
}

/// The value of a valid IPv6 literal. A literal holding a dot is read as
/// an embedded IPv4 form: the text after the last colon is a dotted quad,
/// mapped into the prefix `::ffff:0:0/96`. Any other literal is read as
/// colon-separated groups, with one `::` zero-run expanded to eight
/// groups, each group a hexadecimal value packed most significant first.
/// `None` on any other text.
pub open spec fn spec_parse_ipv6(s: Seq<char>) -> Option<u128> {
    if s.contains('.') {
        let tail = s.skip(find_last(s, ':') + 1);
        match spec_parse_ipv4(tail) {
            Some(v) => Some((v as int + 0xffff_0000_0000) as u128),
            None => None,
        }
    } else {
        let groups = expand_groups(split_on(s, ':'));
        if groups.len() == 8 && (forall|i: int|
            0 <= i < 8 ==> valid_hex_group(#[trigger] groups[i])) {
            Some(pack_base(Seq::new(8, |i: int| hex_val(groups[i])), 0x10000) as u128)
        } else {
            None
        }
    }
}

/// Group `i` (0 is most significant) of the 128-bit address `n`.
pub open spec fn ipv6_group_val(n: u128, i: int) -> nat {
    base_digit(n as int, 0x10000, (7 - i) as nat) as nat
}

/// The canonical rendering of the 128-bit address `n`: eight lowercase
/// hexadecimal groups without leading zeros, joined by colons, never
/// compressed with `::`.
pub open spec fn ipv6_str(n: u128) -> Seq<char> {
    join_with(Seq::new(8, |i: int| hex_str(ipv6_group_val(n, i))), ':')
}

/// The position of the first empty component among `parts`, executable.
fn find_first_empty(parts: &Vec<String>) -> (r: Option<usize>)
    ensures
        match r {
            Some(i) => i < parts.len() && first_empty(parts.deep_view()) == i,
            None => first_empty(parts.deep_view()) == -1,
        },
{
    let ghost dv = parts.deep_view();
    let mut i: usize = 0;
    while i < parts.len()
        invariant
            0 <= i <= parts.len(),
            dv == parts.deep_view(),
            dv.len() == parts.len(),
            first_empty(dv) == first_empty_at(dv, i as int),
        decreases parts.len() - i,
    {
        if parts[i].as_str().is_empty() {
            return Some(i);
        }
        i += 1;
    }
    None
}

/// Zero-run expansion of the groups of an IPv6 literal, executable.
fn expand_groups_vec(parts: &Vec<String>) -> (r: Vec<String>)
    ensures
        r.deep_view() =~~= expand_groups(parts.deep_view()),
{
    let ghost dv = parts.deep_view();
    let fi = match find_first_empty(parts) {
        None => {
            let mut out: Vec<String> = Vec::new();
            let mut j: usize = 0;
            while j < parts.len()
                invariant
                    0 <= j <= parts.len(),
                    dv == parts.deep_view(),
                    dv.len() == parts.len(),
                    out.deep_view() =~~= dv.take(j as int),
                decreases parts.len() - j,
            {
                proof {
                    assert(dv.take(j as int + 1) =~= dv.take(j as int).push(dv[j as int]));
                }
                out.push(parts[j].clone());
                j += 1;
            }
            proof {
                assert(dv.take(parts.len() as int) =~= dv);
            }
            return out;
        },
        Some(i) => i,
    };
    let k: usize = if parts.len() >= 8 {
        1
    } else {
        9 - parts.len()
    };
    let mut out: Vec<String> = Vec::new();
    let mut j: usize = 0;
    while j < fi
        invariant
            0 <= j <= fi < parts.len(),
            dv == parts.deep_view(),
            dv.len() == parts.len(),
            out.deep_view() =~~= dv.take(j as int),
        decreases fi - j,
    {
        proof {
            assert(dv.take(j as int + 1) =~= dv.take(j as int).push(dv[j as int]));
        }
        out.push(parts[j].clone());
        j += 1;
    }
    let mut z: usize = 0;
    while z < k
        invariant
            0 <= z <= k,
            0 <= fi < parts.len(),
            dv == parts.deep_view(),
            dv.len() == parts.len(),
            out.deep_view() =~~= dv.take(fi as int) + Seq::new(z as nat, |q: int| zero_group()),
        decreases k - z,
    {
        let ghost prev = out.deep_view();
        out.push(String::from_str("0"));
        proof {
            reveal_strlit("0");
            assert("0"@ =~= zero_group());
            assert(out.deep_view() =~~= prev.push(zero_group()));
            assert(out.deep_view() =~~= dv.take(fi as int) + Seq::new(
                (z + 1) as nat,
                |q: int| zero_group(),
            ));
        }
        z += 1;
    }
    let mut j2: usize = fi + 1;
    while j2 < parts.len()
        invariant
            fi + 1 <= j2 <= parts.len(),
            0 <= fi < parts.len(),
            k >= 1,
            dv == parts.deep_view(),
            dv.len() == parts.len(),
            out.deep_view() =~~= dv.take(fi as int) + Seq::new(k as nat, |q: int| zero_group())
                + fill_empty(dv.subrange(fi as int + 1, j2 as int)),
        decreases parts.len() - j2,
    {
        let ghost prev = out.deep_view();
        let ghost filled = (if dv[j2 as int].len() == 0 { zero_group() } else { dv[j2 as int] });
        if parts[j2].as_str().is_empty() {
            out.push(String::from_str("0"));
            proof {
                reveal_strlit("0");
                assert("0"@ =~= zero_group());
            }
        } else {
            out.push(parts[j2].clone());
        }
        proof {
            assert(out.deep_view() =~~= prev.push(filled));
            assert(fill_empty(dv.subrange(fi as int + 1, j2 as int + 1)) =~~= fill_empty(
                dv.subrange(fi as int + 1, j2 as int),
            ).push(filled));
            assert(out.deep_view() =~~= dv.take(fi as int) + Seq::new(
                k as nat,
                |q: int| zero_group(),
            ) + fill_empty(dv.subrange(fi as int + 1, j2 as int + 1)));
        }
        j2 += 1;
    }
    proof {
        assert(dv.subrange(fi as int + 1, parts.len() as int) =~= dv.skip(fi as int + 1));
    }
    out
}

/// Packing eight digits unfolds to the familiar nested sum prefixes.
proof fn lemma_pack_take_step(vals: Seq<int>, b: int, i: int)
    requires
        0 <= i < vals.len(),
    ensures
        pack_base(vals.take(i + 1), b) == pack_base(vals.take(i), b) * b + vals[i],
{
    assert(vals.take(i + 1).drop_last() =~= vals.take(i));
    assert(vals.take(i + 1).last() == vals[i]);
}

/// Reads an IPv6 literal as its 128-bit value, exactly as
/// `spec_parse_ipv6` describes.
pub fn parse_ipv6_str(s: &str) -> (r: Option<u128>)
    ensures
        r == spec_parse_ipv6(s@),
{
    if contains_char(s, '.') {
        let n = s.unicode_len();
        let tail_start = match rfind_char(s, ':') {
            Some(p) => {
                proof {
                    lemma_find_last_range(s@, ':');
                }
                p + 1
            },
            None => 0,
        };
        let tail = s.substring_char(tail_start, n);
        proof {
            assert(tail@ =~= s@.skip(find_last(s@, ':') + 1));
        }
        return match parse_ipv4_str(tail) {
            Some(v) => Some(v as u128 + 0xffff_0000_0000),
            None => None,
        };
    }
    let parts = split_str(s, ':');
    let groups = expand_groups_vec(&parts);
    let ghost gv = expand_groups(split_on(s@, ':'));
    if groups.len() != 8 {
        return None;
    }
    let ghost hv = Seq::new(8, |j: int| hex_val(gv[j]));
    let mut val: u128 = 0;
    let mut i: usize = 0;
    while i < 8
        invariant
            0 <= i <= 8,
            !s@.contains('.'),
            gv == expand_groups(split_on(s@, ':')),
            groups.deep_view() =~~= gv,
            groups.len() == 8,
            gv.len() == 8,
            hv == Seq::new(8, |j: int| hex_val(gv[j])),
            forall|j: int| 0 <= j < i ==> valid_hex_group(#[trigger] gv[j]),
            val == pack_base(hv.take(i as int), 0x10000),
        decreases 8 - i,
    {
        let g = match parse_hex_bounded(groups[i].as_str(), 0xffff) {
            Some(v) => v,
            None => {
                assert(!valid_hex_group(gv[i as int]));
                return None;
            },
        };
        proof {
            assert forall|j: int| 0 <= j <= i implies 0 <= #[trigger] hv[j] < 0x10000 by {
                if j < i {
                    crate::strnum::lemma_hex_val_nonneg(gv[j]);
                } else {
                    assert(hv[j] == g as int);
                }
            }
            assert forall|j: int| 0 <= j < hv.take(i as int).len() implies 0 <= #[trigger] hv.take(
                i as int,
            )[j] < 0x10000 by {
                assert(hv.take(i as int)[j] == hv[j]);
            }
            assert forall|j: int| 0 <= j < hv.take(i as int + 1).len() implies 0
                <= #[trigger] hv.take(i as int + 1)[j] < 0x10000 by {
                assert(hv.take(i as int + 1)[j] == hv[j]);
            }
            lemma_pack_base_bound(hv.take(i as int), 0x10000);
            lemma_pack_base_bound(hv.take(i as int + 1), 0x10000);
            lemma_pow_const();
            vstd::arithmetic::power::lemma_pow_increases(0x10000, i as nat, 7);
            lemma_pack_take_step(hv, 0x10000, i as int);
        }
        val = val * 0x10000 + g as u128;
        i += 1;
    }
    proof {
        assert(hv.take(8) =~= hv);
        assert forall|j: int| 0 <= j < 8 implies 0 <= #[trigger] hv[j] < 0x10000 by {
            crate::strnum::lemma_hex_val_nonneg(gv[j]);
        }
        lemma_pack_base_bound(hv, 0x10000);
        lemma_pow_const();
    }
    Some(val)
}

/// Group `i` of `n`, executable.
fn ipv6_group(n: u128, i: usize) -> (g: u32)
    requires
        i < 8,
    ensures
        g == ipv6_group_val(n, i as int),
{
    let g = if i == 0 {
        (n / 0x1_0000_0000_0000_0000_0000_0000_0000) % 0x10000
    } else if i == 1 {
        (n / 0x1_0000_0000_0000_0000_0000_0000) % 0x10000
    } else if i == 2 {
        (n / 0x1_0000_0000_0000_0000_0000) % 0x10000
    } else if i == 3 {
        (n / 0x1_0000_0000_0000_0000) % 0x10000
    } else if i == 4 {
        (n / 0x1_0000_0000_0000) % 0x10000
    } else if i == 5 {
        (n / 0x1_0000_0000) % 0x10000
    } else if i == 6 {
        (n / 0x1_0000) % 0x10000
    } else {
        n % 0x10000
    };
    proof {
        lemma_base_digit_div(n as int, 0x10000, (7 - i) as nat);
        lemma_pow_const();
    }
    g as u32
}

/// Renders the 128-bit address `n` as its canonical IPv6 literal: eight
/// lowercase hexadecimal groups, never compressed.
pub fn format_ipv6(n: u128) -> (r: String)
    ensures
        r@ == ipv6_str(n),
{
    let ghost gs = Seq::new(8, |i: int| hex_str(ipv6_group_val(n, i)));
    let mut r = String::new();
    let mut i: usize = 0;
    while i < 8
        invariant
            0 <= i <= 8,
            r@ == join_with(gs.take(i as int), ':'),
            gs == Seq::new(8, |j: int| hex_str(ipv6_group_val(n, j))),
        decreases 8 - i,
    {
        if i > 0 {
            r.append(":");
        }
        let g = ipv6_group(n, i);
        append_hex(&mut r, g as u64);
        proof {
            reveal_strlit(":");
            assert(gs.take(i as int + 1).drop_last() =~= gs.take(i as int));
            assert(gs.take(i as int + 1).last() == gs[i as int]);
            if i == 0 {
                assert(join_with(gs.take(1), ':') == gs[0]);
                assert(r@ =~= gs[0]);
            } else {
                lemma_join_step(gs.take(i as int + 1), ':');
                assert(r@ =~= join_with(gs.take(i as int), ':').push(':') + gs[i as int]);
            }
        }
        i += 1;
    }
    proof {
        assert(gs.take(8) =~= gs);
    }
    r
}

/// When no component is empty the search finds none.
proof fn lemma_first_empty_none(parts: Seq<Seq<char>>, i: int)
    requires
        0 <= i <= parts.len(),
        forall|j: int| i <= j < parts.len() ==> (#[trigger] parts[j]).len() > 0,
    ensures
        first_empty_at(parts, i) == -1,
    decreases parts.len() - i,
{
    if i < parts.len() {
        lemma_first_empty_none(parts, i + 1);
    }
}

/// The canonical rendering of an address parses back to the address.
pub proof fn lemma_parse_format_ipv6(n: u128)
    ensures
        spec_parse_ipv6(ipv6_str(n)) == Some(n),
{
    let gs = Seq::new(8, |i: int| hex_str(ipv6_group_val(n, i)));
    lemma_pow_const();
    assert forall|i: int| 0 <= i < 8 implies {
        &&& (#[trigger] gs[i]).len() >= 1
        &&& all_hex_digits(gs[i])
        &&& !gs[i].contains('.')
        &&& !gs[i].contains(':')
        &&& hex_val(gs[i]) == ipv6_group_val(n, i)
    } by {
        lemma_hex_str_ok(ipv6_group_val(n, i));
        assert forall|k: int| 0 <= k < gs[i].len() implies #[trigger] gs[i][k] != '.' && gs[i][k]
            != ':' by {
            assert(is_hex_digit(gs[i][k]));
        }
        assert(!gs[i].contains('.'));
        assert(!gs[i].contains(':'));
    }
    lemma_join_no_char(gs, ':', '.');
    assert(!ipv6_str(n).contains('.'));
    lemma_split_join(gs, ':');
    let parts = split_on(ipv6_str(n), ':');
    assert(parts =~~= gs);
    lemma_first_empty_none(parts, 0);
    assert(expand_groups(parts) == parts);
    assert forall|i: int| 0 <= i < 8 implies valid_hex_group(#[trigger] parts[i]) by {
        lemma_base_digit_bound(n as int, 0x10000, (7 - i) as nat);
    }
    let vals = Seq::new(8, |i: int| hex_val(parts[i]));
    assert forall|i: int| 0 <= i < 8 implies vals[i] == base_digit(
        n as int,
        0x10000,
        (7 - i) as nat,
    ) by {
        lemma_base_digit_bound(n as int, 0x10000, (7 - i) as nat);
        assert(parts[i] == gs[i]);
    }
    assert(vals =~= Seq::new(8, |i: int| base_digit(n as int, 0x10000, (7 - i) as nat)));
    lemma_unpack_pack(n as int, 0x10000, 8);
    assert(pack_base(vals, 0x10000) == n as int);
}

/// Parsing a colon-form literal then formatting canonicalizes it: the
/// rendering of the parsed value is the colon-join of the literal's own
/// expanded groups, each re-rendered in lowercase without leading zeros.
pub proof fn lemma_format_parse_ipv6(s: Seq<char>, n: u128)
    requires
        !s.contains('.'),
        spec_parse_ipv6(s) == Some(n),
    ensures
        ipv6_str(n) == join_with(
            Seq::new(8, |i: int| hex_str(hex_val(expand_groups(split_on(s, ':'))[i]) as nat)),
            ':',
        ),
{
    let groups = expand_groups(split_on(s, ':'));
    let vals = Seq::new(8, |i: int| hex_val(groups[i]));
    lemma_pow_const();
    assert forall|i: int| 0 <= i < 8 implies 0 <= #[trigger] vals[i] < 0x10000 by {
        crate::strnum::lemma_hex_val_nonneg(groups[i]);
    }
    lemma_pack_base_bound(vals, 0x10000);
    assert(n as int == pack_base(vals, 0x10000));
    assert forall|i: int| 0 <= i < 8 implies ipv6_group_val(n, i) == vals[i] by {
        lemma_pack_base_digit(vals, 0x10000, (7 - i) as nat);
    }
    assert(Seq::new(8, |i: int| hex_str(ipv6_group_val(n, i))) =~~= Seq::new(
        8,
        |i: int| hex_str(hex_val(groups[i]) as nat),
    ));
}

/// A colon-form literal whose groups are already canonical — lowercase,
/// no leading zeros, no `::` run — is exactly the rendering of its value:
/// parsing and formatting give the text back unchanged.
pub proof fn lemma_ipv6_canonical_text(s: Seq<char>, n: u128)
    requires
        !s.contains('.'),
        spec_parse_ipv6(s) == Some(n),
        forall|i: int|
            0 <= i < split_on(s, ':').len() ==> crate::strnum::canonical_hex(
                #[trigger] split_on(s, ':')[i],
            ),
    ensures
        ipv6_str(n) == s,
{
    let parts = split_on(s, ':');
    lemma_first_empty_none(parts, 0);
    assert(expand_groups(parts) == parts);
    lemma_format_parse_ipv6(s, n);
    assert forall|i: int| 0 <= i < 8 implies hex_str(hex_val(parts[i]) as nat)
        == #[trigger] parts[i] by {
        crate::strnum::lemma_hex_str_fixed_point(parts[i]);
    }
    assert(Seq::new(8, |i: int| hex_str(hex_val(parts[i]) as nat)) =~~= parts);
    crate::strnum::lemma_join_split(s, ':');
}

} // verus!
