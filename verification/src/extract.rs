//! The range merger and the rule-file renderers: turning an ordered list
//! of per-range country records into merged address ranges with the
//! excluded country left out, and rendering range or CIDR lists as
//! proxy-rule text.
use vstd::prelude::*;
use vstd::string::*;
use vstd::utf8::encode_utf8;
use crate::strnum::{
    all_dec_digits, dec_str, dec_val, split_on, split_str, parse_dec_bounded, parse_dec_u128,
    append_dec,
};
use crate::addr::{ipv4_str, ipv6_str, format_ipv4, format_ipv6};
use crate::cidr::IpError;
use crate::ip_tool::{spec_ipv4_to_cidr, spec_ipv6_to_cidr, ipv4_to_cidr, ipv6_to_cidr};

verus! {

/// One source record: the textual boundaries of an address range, and the
/// country it is attributed to.
#[derive(Debug)]
pub struct IpLocation {
    pub ip_start: String,
    pub ip_end: String,
    pub country_code: String,
    pub country_name: String,
}

/// A reader of one delimited-text line into a record.
pub trait CsvTrait where Self: Sized {
    fn new(line: String) -> Option<Self>;
}

/// The text with every double-quote character removed.
pub open spec fn strip_quotes(s: Seq<char>) -> Seq<char> {
    s.filter(|c: char| c != '"')
}

/// The four fields of one record line: quotes stripped, then split on
/// commas into exactly four fields. `None` on any other shape.
pub open spec fn spec_parse_line(s: Seq<char>) -> Option<
    (Seq<char>, Seq<char>, Seq<char>, Seq<char>),
> {
    let parts = split_on(strip_quotes(s), ',');
    if parts.len() == 4 {
        Some((parts[0], parts[1], parts[2], parts[3]))
    } else {
        None
    }
}

/// All the components of a split, concatenated back together.
pub open spec fn concat_all(parts: Seq<Seq<char>>) -> Seq<char>
    decreases parts.len(),
{
    if parts.len() == 0 {
        Seq::empty()
    } else {
        concat_all(parts.drop_last()) + parts.last()
    }
}

/// Concatenating the components of a split drops exactly the separator.
proof fn lemma_concat_split(s: Seq<char>, sep: char)
    ensures
        concat_all(split_on(s, sep)) =~= s.filter(|c: char| c != sep),
    decreases s.len(),
{
    reveal(Seq::filter);
    if s.len() == 0 {
        assert(split_on(s, sep) =~= seq![s]);
        assert(seq![s].drop_last() =~= Seq::<Seq<char>>::empty());
        assert(concat_all(Seq::<Seq<char>>::empty()) == Seq::<char>::empty());
        assert(concat_all(seq![s]) =~= Seq::<char>::empty() + s);
    } else {
        lemma_concat_split(s.drop_last(), sep);
        let r = split_on(s.drop_last(), sep);
        crate::strnum::lemma_split_on_len(s.drop_last(), sep);
        if s.last() == sep {
            assert(split_on(s, sep) == r.push(Seq::<char>::empty()));
            assert(split_on(s, sep).drop_last() =~= r);
            assert(concat_all(split_on(s, sep)) =~= concat_all(r));
        } else {
            let u = r.update(r.len() - 1, r.last().push(s.last()));
            assert(split_on(s, sep) == u);
            assert(u.drop_last() =~= r.drop_last());
            assert(u.last() == r.last().push(s.last()));
            assert(concat_all(u) =~= (concat_all(r.drop_last()) + r.last()).push(s.last()));
            assert(concat_all(u) =~= concat_all(r).push(s.last()));
        }
    }
}

/// The text with every double-quote character removed, executable.
fn remove_quotes(s: &str) -> (r: String)
    ensures
        r@ == strip_quotes(s@),
{
    let parts = split_str(s, '"');
    let ghost pm = split_on(s@, '"');
    let mut out = String::new();
    let mut i: usize = 0;
    while i < parts.len()
        invariant
            0 <= i <= parts.len(),
            parts.deep_view() =~~= pm,
            parts@.len() == pm.len(),
            out@ == concat_all(pm.take(i as int)),
        decreases parts.len() - i,
    {
        out.append(parts[i].as_str());
        proof {
            assert(pm.take(i as int + 1).drop_last() =~= pm.take(i as int));
            assert(pm.take(i as int + 1).last() == pm[i as int]);
        }
        i += 1;
    }
    proof {
        assert(pm.take(pm.len() as int) =~= pm);
        lemma_concat_split(s@, '"');
    }
    out
}

impl CsvTrait for IpLocation {
    /// Reads one comma-separated record line: quotes are stripped, and the
    /// line must hold exactly four fields.
    fn new(line: String) -> (r: Option<Self>)
        ensures
            match r {
                Some(rec) => spec_parse_line(line@) == Some(
                    (rec.ip_start@, rec.ip_end@, rec.country_code@, rec.country_name@),
                ),
                None => spec_parse_line(line@) is None,
            },
    {
        let stripped = remove_quotes(line.as_str());
        let mut parts = split_str(stripped.as_str(), ',');
        if parts.len() != 4 {
            return None;
        }
        let country_name = parts.pop().unwrap();
        let country_code = parts.pop().unwrap();
        let ip_end = parts.pop().unwrap();
        let ip_start = parts.pop().unwrap();
        Some(
            IpLocation {
                ip_start,
                ip_end,
                country_code,
                country_name,
            },
        )
    }
}

/// Is the record attributed to the excluded country, or to the unknown
/// placeholder `"-"`, which is always excluded?
pub open spec fn excluded_rec(r: IpLocation, excl: Seq<char>) -> bool {
    r.country_code@ == excl || r.country_code@ == "-"@
}

/// The index of the first excluded record at or after `j`, or the list
/// length when the rest of the list is all included.
pub open spec fn span_end(list: Seq<IpLocation>, excl: Seq<char>, j: int) -> int
    decreases list.len() - j,
{
    if j < 0 || j >= list.len() {
        list.len() as int
    } else if excluded_rec(list[j], excl) {
        j
    } else {
        span_end(list, excl, j + 1)
    }
}

/// The span search never goes backwards and stops within the list.
pub proof fn lemma_span_end_range(list: Seq<IpLocation>, excl: Seq<char>, j: int)
    requires
        0 <= j <= list.len(),
    ensures
        j <= span_end(list, excl, j) <= list.len(),
    decreases list.len() - j,
{
    if j < list.len() && !excluded_rec(list[j], excl) {
        lemma_span_end_range(list, excl, j + 1);
    }
}

/// The value of a decimal 32-bit boundary text, or `None` when the text
/// is not a decimal numeral that fits.
pub open spec fn dec_u32(t: Seq<char>) -> Option<u32> {
    if t.len() > 0 && all_dec_digits(t) && dec_val(t) <= u32::MAX {
        Some(dec_val(t) as u32)
    } else {
        None
    }
}

/// The value of a decimal 128-bit boundary text, or `None` when the text
/// is not a decimal numeral that fits.
pub open spec fn dec_u128(t: Seq<char>) -> Option<u128> {
    if t.len() > 0 && all_dec_digits(t) && dec_val(t) <= u128::MAX {
        Some(dec_val(t) as u128)
    } else {
        None
    }
}

/// The merged ranges from record `i` on, as dotted-quad text pairs: one
/// pair per maximal run of consecutive included records, spanning from
/// the run's first start boundary to its last end boundary. `None` when a
/// used boundary text is not a decimal numeral.
pub open spec fn spec_collect(list: Seq<IpLocation>, excl: Seq<char>, i: int) -> Option<
    Seq<(Seq<char>, Seq<char>)>,
>
    decreases list.len() - i,
    via spec_collect_dec
{
    if i < 0 || i >= list.len() {
        Some(Seq::empty())
    } else if excluded_rec(list[i], excl) {
        spec_collect(list, excl, i + 1)
    } else {
        let j = span_end(list, excl, i + 1);
        match (dec_u32(list[i].ip_start@), dec_u32(list[j - 1].ip_end@)) {
            (Some(a), Some(b)) => match spec_collect(list, excl, j) {
                Some(rest) => Some(seq![(ipv4_str(a), ipv4_str(b))] + rest),
                None => None,
            },
            _ => None,
        }
    }
}

#[via_fn]
proof fn spec_collect_dec(list: Seq<IpLocation>, excl: Seq<char>, i: int) {
    if 0 <= i < list.len() && !excluded_rec(list[i], excl) {
        lemma_span_end_range(list, excl, i + 1);
    }
}

/// The boundary pair of one merged IPv6 span, rendered as the original
/// records kept them: spans that begin inside the IPv4-mapped band
/// `::ffff:0:0` to `::ffff:ffff:ffff` are rendered as dotted quads of the
/// low 32 bits, all others as canonical IPv6 literals.
pub open spec fn range_text_v6(a: u128, b: u128) -> (Seq<char>, Seq<char>) {
    if 0xffff_0000_0000 <= a <= 0xffff_ffff_ffff {
        (ipv4_str((a % 0x1_0000_0000) as u32), ipv4_str((b % 0x1_0000_0000) as u32))
    } else {
        (ipv6_str(a), ipv6_str(b))
    }
}

/// The merged IPv6 ranges from record `i` on, as text pairs.
pub open spec fn spec_collect_ipv6(list: Seq<IpLocation>, excl: Seq<char>, i: int) -> Option<
    Seq<(Seq<char>, Seq<char>)>,
>
    decreases list.len() - i,
    via spec_collect_ipv6_dec
{
    if i < 0 || i >= list.len() {
        Some(Seq::empty())
    } else if excluded_rec(list[i], excl) {
        spec_collect_ipv6(list, excl, i + 1)
    } else {
        let j = span_end(list, excl, i + 1);
        match (dec_u128(list[i].ip_start@), dec_u128(list[j - 1].ip_end@)) {
            (Some(a), Some(b)) => match spec_collect_ipv6(list, excl, j) {
                Some(rest) => Some(seq![range_text_v6(a, b)] + rest),
                None => None,
            },
            _ => None,
        }
    }
}

#[via_fn]
proof fn spec_collect_ipv6_dec(list: Seq<IpLocation>, excl: Seq<char>, i: int) {
    if 0 <= i < list.len() && !excluded_rec(list[i], excl) {
        lemma_span_end_range(list, excl, i + 1);
    }
}

/// The text pairs a `(String, String)` list stands for.
pub open spec fn pairs_model(s: Seq<(String, String)>) -> Seq<(Seq<char>, Seq<char>)> {
    s.map_values(|p: (String, String)| (p.0@, p.1@))
}

/// Merges the ordered record list into contiguous spans of records not
/// attributed to `exclude_country_code` nor to the `"-"` placeholder, and
/// renders each span's numeric boundaries as dotted-quad text. Fails with
/// `InvalidFormat` exactly when a span boundary text is not a decimal
/// 32-bit numeral.
pub fn collect(list: &[IpLocation], exclude_country_code: &str) -> (r: Result<
    Vec<(String, String)>,
    IpError,
>)
    ensures
        match r {
            Ok(v) => spec_collect(list@, exclude_country_code@, 0) == Some(pairs_model(v@)),
            Err(e) => spec_collect(list@, exclude_country_code@, 0) is None && e
                == IpError::InvalidFormat,
        },
{
    let ghost excl = exclude_country_code@;
    let excl_s: String = exclude_country_code.to_owned();
    let dash: String = String::from_str("-");
    let mut result: Vec<(String, String)> = Vec::new();
    let mut start_index: usize = 0;
    while start_index < list.len()
        invariant
            0 <= start_index <= list@.len(),
            excl == exclude_country_code@,
            excl_s@ == excl,
            dash@ == "-"@,
            spec_collect(list@, excl, 0) == (match spec_collect(list@, excl, start_index as int) {
                Some(rest) => Some(pairs_model(result@) + rest),
                None => None::<Seq<(Seq<char>, Seq<char>)>>,
            }),
        decreases list@.len() - start_index,
    {
        let start = &list[start_index];
        if start.country_code == excl_s || start.country_code == dash {
            start_index += 1;
            continue;
        }
        let mut end_index: usize = start_index + 1;
        let mut stopped: bool = false;
        while end_index < list.len() && !stopped
            invariant
                start_index < end_index <= list@.len(),
                excl_s@ == excl,
                dash@ == "-"@,
                !stopped ==> span_end(list@, excl, start_index as int + 1) == span_end(
                    list@,
                    excl,
                    end_index as int,
                ),
                stopped ==> span_end(list@, excl, start_index as int + 1) == end_index as int,
            decreases list@.len() - end_index, (if stopped { 0int } else { 1int }),
        {
            let endr = &list[end_index];
            if endr.country_code == excl_s || endr.country_code == dash {
                stopped = true;
            } else {
                end_index += 1;
            }
        }
        assert(span_end(list@, excl, start_index as int + 1) == end_index as int);
        let a = match parse_dec_bounded(list[start_index].ip_start.as_str(), u32::MAX) {
            None => {
                return Err(IpError::InvalidFormat);
            },
            Some(v) => v,
        };
        let b = match parse_dec_bounded(list[end_index - 1].ip_end.as_str(), u32::MAX) {
            None => {
                return Err(IpError::InvalidFormat);
            },
            Some(v) => v,
        };
        let from = format_ipv4(a);
        let to = format_ipv4(b);
        let ghost prev = pairs_model(result@);
        result.push((from, to));
        proof {
            assert(pairs_model(result@) =~= prev.push((ipv4_str(a), ipv4_str(b))));
            assert(pairs_model(result@) =~= prev + seq![(ipv4_str(a), ipv4_str(b))]);
        }
        start_index = end_index;
    }
    proof {
        assert(pairs_model(result@) + Seq::<(Seq<char>, Seq<char>)>::empty() =~= pairs_model(
            result@,
        ));
    }
    Ok(result)
}

/// Merges the ordered record list as `collect` does, reading the
/// boundaries as 128-bit numerals and rendering each span as
/// `range_text_v6` describes. Fails with `InvalidFormat` exactly when a
/// span boundary text is not a decimal 128-bit numeral.
pub fn collect_ipv6(list: &[IpLocation], exclude_country_code: &str) -> (r: Result<
    Vec<(String, String)>,
    IpError,
>)
    ensures
        match r {
            Ok(v) => spec_collect_ipv6(list@, exclude_country_code@, 0) == Some(pairs_model(v@)),
            Err(e) => spec_collect_ipv6(list@, exclude_country_code@, 0) is None && e
                == IpError::InvalidFormat,
        },
{
    let ghost excl = exclude_country_code@;
    let excl_s: String = exclude_country_code.to_owned();
    let dash: String = String::from_str("-");
    let mut result: Vec<(String, String)> = Vec::new();
    let mut start_index: usize = 0;
    while start_index < list.len()
        invariant
            0 <= start_index <= list@.len(),
            excl == exclude_country_code@,
            excl_s@ == excl,
            dash@ == "-"@,
            spec_collect_ipv6(list@, excl, 0) == (match spec_collect_ipv6(
                list@,
                excl,
                start_index as int,
            ) {
                Some(rest) => Some(pairs_model(result@) + rest),
                None => None::<Seq<(Seq<char>, Seq<char>)>>,
            }),
        decreases list@.len() - start_index,
    {
        let start = &list[start_index];
        if start.country_code == excl_s || start.country_code == dash {
            start_index += 1;
            continue;
        }
        let mut end_index: usize = start_index + 1;
        let mut stopped: bool = false;
        while end_index < list.len() && !stopped
            invariant
                start_index < end_index <= list@.len(),
                excl_s@ == excl,
                dash@ == "-"@,
                !stopped ==> span_end(list@, excl, start_index as int + 1) == span_end(
                    list@,
                    excl,
                    end_index as int,
                ),
                stopped ==> span_end(list@, excl, start_index as int + 1) == end_index as int,
            decreases list@.len() - end_index, (if stopped { 0int } else { 1int }),
        {
            let endr = &list[end_index];
            if endr.country_code == excl_s || endr.country_code == dash {
                stopped = true;
            } else {
                end_index += 1;
            }
        }
        assert(span_end(list@, excl, start_index as int + 1) == end_index as int);
        let a = match parse_dec_u128(list[start_index].ip_start.as_str()) {
            None => {
                return Err(IpError::InvalidFormat);
            },
            Some(v) => v,
        };
        let b = match parse_dec_u128(list[end_index - 1].ip_end.as_str()) {
            None => {
                return Err(IpError::InvalidFormat);
            },
            Some(v) => v,
        };
        let from: String;
        let to: String;
        if a >= 0xffff_0000_0000 && a <= 0xffff_ffff_ffff {
            from = format_ipv4((a % 0x1_0000_0000) as u32);
            to = format_ipv4((b % 0x1_0000_0000) as u32);
        } else {
            from = format_ipv6(a);
            to = format_ipv6(b);
        }
        let ghost prev = pairs_model(result@);
        result.push((from, to));
        proof {
            assert(pairs_model(result@) =~= prev.push(range_text_v6(a, b)));
            assert(pairs_model(result@) =~= prev + seq![range_text_v6(a, b)]);
        }
        start_index = end_index;
    }
    proof {
        assert(pairs_model(result@) + Seq::<(Seq<char>, Seq<char>)>::empty() =~= pairs_model(
            result@,
        ));
    }
    Ok(result)
}

/// Merging four records attributed `US`, `US`, `CN`, `US` with the
/// excluded code `CN` yields exactly two spans: one covering the first
/// two records, from the first record's start to the second record's end,
/// and one covering the fourth record alone. The dropped third record
/// does not bridge the gap.
pub proof fn lemma_merge_scenario(list: Seq<IpLocation>, a: u32, b: u32, g: u32, h: u32)
    requires
        list.len() == 4,
        list[0].country_code@ == "US"@,
        list[1].country_code@ == "US"@,
        list[2].country_code@ == "CN"@,
        list[3].country_code@ == "US"@,
        dec_u32(list[0].ip_start@) == Some(a),
        dec_u32(list[1].ip_end@) == Some(b),
        dec_u32(list[3].ip_start@) == Some(g),
        dec_u32(list[3].ip_end@) == Some(h),
    ensures
        spec_collect(list, "CN"@, 0) == Some(
            seq![(ipv4_str(a), ipv4_str(b)), (ipv4_str(g), ipv4_str(h))],
        ),
{
    let excl = "CN"@;
    assert("US"@ != "CN"@) by {
        reveal_strlit("US");
        reveal_strlit("CN");
        assert("US"@[0] == 'U' && "CN"@[0] == 'C');
    }
    assert("US"@ != "-"@) by {
        reveal_strlit("US");
        reveal_strlit("-");
        assert("US"@.len() == 2 && "-"@.len() == 1);
    }
    assert(!excluded_rec(list[0], excl));
    assert(!excluded_rec(list[1], excl));
    assert(excluded_rec(list[2], excl));
    assert(!excluded_rec(list[3], excl));
    assert(span_end(list, excl, 2) == 2);
    assert(span_end(list, excl, 1) == 2);
    assert(span_end(list, excl, 4) == 4);
    assert(spec_collect(list, excl, 4) == Some(Seq::<(Seq<char>, Seq<char>)>::empty()));
    assert(spec_collect(list, excl, 3) == Some(
        seq![(ipv4_str(g), ipv4_str(h))] + Seq::<(Seq<char>, Seq<char>)>::empty(),
    ));
    assert(spec_collect(list, excl, 2) == spec_collect(list, excl, 3));
    assert(spec_collect(list, excl, 0) == Some(
        seq![(ipv4_str(a), ipv4_str(b))] + (seq![(ipv4_str(g), ipv4_str(h))]
            + Seq::<(Seq<char>, Seq<char>)>::empty()),
    ));
    assert(seq![(ipv4_str(a), ipv4_str(b))] + (seq![(ipv4_str(g), ipv4_str(h))]
        + Seq::<(Seq<char>, Seq<char>)>::empty()) =~= seq![
        (ipv4_str(a), ipv4_str(b)),
        (ipv4_str(g), ipv4_str(h)),
    ]);
}

/// One proxy rule holding the accumulated targets and a running number.
pub open spec fn proxifier_rule(targets: Seq<char>, count: nat) -> Seq<char> {
    "\t\t<Rule enabled=\"true\">\n\t\t\t<Action type=\"Proxy\">100</Action>\n\t\t\t<Targets>"@
        + targets + "</Targets>\n\t\t\t<Name>IP-PROXY-"@ + dec_str(count)
        + "</Name>\n\t\t</Rule>\n"@
}

/// The proxy-rule rendering of the range list from entry `i` on, given
/// the rules emitted so far, the targets accumulated for the open rule,
/// and its number. Each range becomes the target `from-to;`; when the
/// open rule's targets pass 32000 bytes of UTF-8, the rule is emitted and
/// a new one begins. The last rule is always emitted.
pub open spec fn spec_proxifier(
    list: Seq<(Seq<char>, Seq<char>)>,
    i: int,
    acc: Seq<char>,
    chunk: Seq<char>,
    count: nat,
) -> Seq<char>
    decreases list.len() - i,
{
    if i < 0 || i >= list.len() {
        acc + proxifier_rule(chunk, count)
    } else {
        let entry = list[i].0 + seq!['-'] + list[i].1 + seq![';'];
        if encode_utf8(chunk).len() as usize > 32000 {
            spec_proxifier(list, i + 1, acc + proxifier_rule(chunk, count), entry, count + 1)
        } else {
            spec_proxifier(list, i + 1, acc, chunk + entry, count)
        }
    }
}

/// Appends one numbered proxy rule around the accumulated targets.
fn append_rule(result: &mut String, chunk: &String, count: u128)
    ensures
        final(result)@ == old(result)@ + proxifier_rule(chunk@, count as nat),
{
    result.append(
        "\t\t<Rule enabled=\"true\">\n\t\t\t<Action type=\"Proxy\">100</Action>\n\t\t\t<Targets>",
    );
    result.append(chunk.as_str());
    result.append("</Targets>\n\t\t\t<Name>IP-PROXY-");
    append_dec(result, count);
    result.append("</Name>\n\t\t</Rule>\n");
    proof {
        assert(result@ =~= old(result)@ + proxifier_rule(chunk@, count as nat));
    }
}

/// Renders the merged range list as numbered proxy rules: each range as
/// the target `from-to;`, broken into a new rule whenever the open rule's
/// target text passes 32000 bytes.
pub fn format_proxifier(list: &Vec<(String, String)>) -> (r: String)
    ensures
        r@ == spec_proxifier(
            pairs_model(list@),
            0,
            Seq::<char>::empty(),
            Seq::<char>::empty(),
            1,
        ),
{
    let ghost lm = pairs_model(list@);
    let mut result = String::new();
    let mut count: u128 = 1;
    let mut chunk = String::new();
    let mut i: usize = 0;
    while i < list.len()
        invariant
            0 <= i <= list@.len(),
            lm == pairs_model(list@),
            lm.len() == list@.len(),
            count >= 1,
            count <= i as int + 1,
            spec_proxifier(lm, 0, Seq::<char>::empty(), Seq::<char>::empty(), 1) == spec_proxifier(
                lm,
                i as int,
                result@,
                chunk@,
                count as nat,
            ),
        decreases list@.len() - i,
    {
        let ghost entry = lm[i as int].0 + seq!['-'] + lm[i as int].1 + seq![';'];
        let ghost old_result = result@;
        let ghost old_chunk = chunk@;
        let ghost old_count = count as nat;
        proof {
            assert(lm[i as int] == (list@[i as int].0@, list@[i as int].1@));
        }
        let overflow = chunk.as_str().len() > 32000;
        if overflow {
            append_rule(&mut result, &chunk, count);
            chunk = String::new();
            count = count + 1;
        }
        let ghost mid_chunk = chunk@;
        let e = &list[i];
        chunk.append(e.0.as_str());
        chunk.append("-");
        chunk.append(e.1.as_str());
        chunk.append(";");
        proof {
            reveal_strlit("-");
            reveal_strlit(";");
            assert(chunk@ =~= mid_chunk + entry);
            if overflow {
                assert(chunk@ =~= entry);
                assert(spec_proxifier(lm, i as int, old_result, old_chunk, old_count)
                    == spec_proxifier(
                    lm,
                    i as int + 1,
                    old_result + proxifier_rule(old_chunk, old_count),
                    entry,
                    old_count + 1,
                ));
                assert(result@ == old_result + proxifier_rule(old_chunk, old_count));
            } else {
                assert(chunk@ =~= old_chunk + entry);
                assert(spec_proxifier(lm, i as int, old_result, old_chunk, old_count)
                    == spec_proxifier(lm, i as int + 1, old_result, old_chunk + entry, old_count));
            }
        }
        i += 1;
    }
    append_rule(&mut result, &chunk, count);
    result
}

/// The clash rule lines for one list of CIDR literals, from entry `i` on.
pub open spec fn clash_lines(cidrs: Seq<Seq<char>>, i: int) -> Seq<char>
    decreases cidrs.len() - i,
{
    if i < 0 || i >= cidrs.len() {
        Seq::empty()
    } else {
        "  - IP-CIDR,"@ + cidrs[i] + ",auto\n"@ + clash_lines(cidrs, i + 1)
    }
}

/// The clash rule lines of the IPv4 range list from entry `i` on: each
/// range decomposed into CIDR literals, one rule line per literal; a
/// range whose texts do not parse or that runs backwards is skipped.
pub open spec fn spec_clash_body(list: Seq<(Seq<char>, Seq<char>)>, i: int) -> Seq<char>
    decreases list.len() - i,
{
    if i < 0 || i >= list.len() {
        Seq::empty()
    } else {
        (match spec_ipv4_to_cidr(list[i].0, list[i].1) {
            Some(cs) => clash_lines(cs, 0),
            None => Seq::empty(),
        }) + spec_clash_body(list, i + 1)
    }
}

/// The clash rule lines of the mixed range list from entry `i` on: a
/// range whose end text holds a dot is decomposed as IPv4, any other as
/// IPv6; a range that does not parse or runs backwards is skipped.
pub open spec fn spec_clash_body_ipv6(list: Seq<(Seq<char>, Seq<char>)>, i: int) -> Seq<char>
    decreases list.len() - i,
{
    if i < 0 || i >= list.len() {
        Seq::empty()
    } else {
        (if list[i].1.contains('.') {
            match spec_ipv4_to_cidr(list[i].0, list[i].1) {
                Some(cs) => clash_lines(cs, 0),
                None => Seq::empty(),
            }
        } else {
            match spec_ipv6_to_cidr(list[i].0, list[i].1) {
                Some(cs) => clash_lines(cs, 0),
                None => Seq::empty(),
            }
        }) + spec_clash_body_ipv6(list, i + 1)
    }
}

/// Appends the rule lines of one decomposed range.
fn append_clash_lines(result: &mut String, cidrs: &Vec<String>)
    ensures
        final(result)@ == old(result)@ + clash_lines(cidrs.deep_view(), 0),
{
    let ghost cm = cidrs.deep_view();
    let ghost base = result@;
    let mut j: usize = 0;
    while j < cidrs.len()
        invariant
            0 <= j <= cidrs@.len(),
            cm == cidrs.deep_view(),
            cm.len() == cidrs@.len(),
            result@ + clash_lines(cm, j as int) == base + clash_lines(cm, 0),
        decreases cidrs@.len() - j,
    {
        result.append("  - IP-CIDR,");
        result.append(cidrs[j].as_str());
        result.append(",auto\n");
        proof {
            assert(result@ + clash_lines(cm, j as int + 1) =~= base + clash_lines(cm, 0));
        }
        j += 1;
    }
    proof {
        assert(clash_lines(cm, cm.len() as int) =~= Seq::<char>::empty());
        assert(result@ =~= result@ + clash_lines(cm, cm.len() as int));
    }
}

/// Renders the merged IPv4 range list as clash rules: a fixed first line,
/// one `IP-CIDR` line per block of each range's minimal decomposition,
/// and a fixed last line. Ranges that do not parse are skipped.
pub fn format_clash(list: &Vec<(String, String)>) -> (r: String)
    ensures
        r@ == "  - GEOIP,LAN,DIRECT\n"@ + spec_clash_body(pairs_model(list@), 0)
            + "  - MATCH,DIRECT\n"@,
{
    let ghost lm = pairs_model(list@);
    let mut result = String::new();
    result.append("  - GEOIP,LAN,DIRECT\n");
    let mut i: usize = 0;
    while i < list.len()
        invariant
            0 <= i <= list@.len(),
            lm == pairs_model(list@),
            lm.len() == list@.len(),
            result@ + spec_clash_body(lm, i as int) == "  - GEOIP,LAN,DIRECT\n"@ + spec_clash_body(
                lm,
                0,
            ),
        decreases list@.len() - i,
    {
        let e = &list[i];
        proof {
            assert(lm[i as int] == (list@[i as int].0@, list@[i as int].1@));
        }
        match ipv4_to_cidr(e.0.as_str(), e.1.as_str()) {
            None => {
                proof {
                    assert(result@ + spec_clash_body(lm, i as int + 1) =~= result@
                        + spec_clash_body(lm, i as int));
                }
            },
            Some(cidrs) => {
                append_clash_lines(&mut result, &cidrs);
                proof {
                    assert(result@ + spec_clash_body(lm, i as int + 1)
                        == "  - GEOIP,LAN,DIRECT\n"@ + spec_clash_body(lm, 0));
                }
            },
        }
        i += 1;
    }
    proof {
        assert(spec_clash_body(lm, lm.len() as int) =~= Seq::<char>::empty());
        assert(result@ =~= result@ + spec_clash_body(lm, lm.len() as int));
    }
    result.append("  - MATCH,DIRECT\n");
    result
}

/// Renders the merged mixed range list as clash rules, decomposing each
/// range as IPv4 when its end text holds a dot and as IPv6 otherwise.
pub fn format_clash_ipv6(list: &Vec<(String, String)>) -> (r: String)
    ensures
        r@ == "  - GEOIP,LAN,DIRECT\n"@ + spec_clash_body_ipv6(pairs_model(list@), 0)
            + "  - MATCH,DIRECT\n"@,
{
    let ghost lm = pairs_model(list@);
    let mut result = String::new();
    result.append("  - GEOIP,LAN,DIRECT\n");
    let mut i: usize = 0;
    while i < list.len()
        invariant
            0 <= i <= list@.len(),
            lm == pairs_model(list@),
            lm.len() == list@.len(),
            result@ + spec_clash_body_ipv6(lm, i as int) == "  - GEOIP,LAN,DIRECT\n"@
                + spec_clash_body_ipv6(lm, 0),
        decreases list@.len() - i,
    {
        let e = &list[i];
        proof {
            assert(lm[i as int] == (list@[i as int].0@, list@[i as int].1@));
        }
        if crate::strnum::contains_char(e.1.as_str(), '.') {
            match ipv4_to_cidr(e.0.as_str(), e.1.as_str()) {
                None => {
                    proof {
                        assert(result@ + spec_clash_body_ipv6(lm, i as int + 1) =~= result@
                            + spec_clash_body_ipv6(lm, i as int));
                    }
                },
                Some(cidrs) => {
                    append_clash_lines(&mut result, &cidrs);
                    proof {
                        assert(result@ + spec_clash_body_ipv6(lm, i as int + 1)
                            == "  - GEOIP,LAN,DIRECT\n"@ + spec_clash_body_ipv6(lm, 0));
                    }
                },
            }
        } else {
            match ipv6_to_cidr(e.0.as_str(), e.1.as_str()) {
                None => {
                    proof {
                        assert(result@ + spec_clash_body_ipv6(lm, i as int + 1) =~= result@
                            + spec_clash_body_ipv6(lm, i as int));
                    }
                },
                Some(cidrs) => {
                    append_clash_lines(&mut result, &cidrs);
                    proof {
                        assert(result@ + spec_clash_body_ipv6(lm, i as int + 1)
                            == "  - GEOIP,LAN,DIRECT\n"@ + spec_clash_body_ipv6(lm, 0));
                    }
                },
            }
        }
        i += 1;
    }
    proof {
        assert(spec_clash_body_ipv6(lm, lm.len() as int) =~= Seq::<char>::empty());
        assert(result@ =~= result@ + spec_clash_body_ipv6(lm, lm.len() as int));
    }
    result.append("  - MATCH,DIRECT\n");
    result
}

} // verus!
