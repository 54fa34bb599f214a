//! Digit arithmetic on character sequences: decimal and hexadecimal values
//! of texts, canonical renderings of numbers, and splitting/joining on a
//! separator character. These are the building blocks of the address codec.
use vstd::prelude::*;
use vstd::string::*;

verus! {

/// Is `c` one of the ten decimal digits?
pub open spec fn is_dec_digit(c: char) -> bool {
    '0' <= c && c <= '9'
}

/// The numeric value of a decimal digit.
pub open spec fn dec_digit_val(c: char) -> int {
    c as int - '0' as int
}

/// Is `c` a hexadecimal digit, in either case?
pub open spec fn is_hex_digit(c: char) -> bool {
    is_dec_digit(c) || ('a' <= c && c <= 'f') || ('A' <= c && c <= 'F')
}

/// The numeric value of a hexadecimal digit.
pub open spec fn hex_digit_val(c: char) -> int {
    if is_dec_digit(c) {
        dec_digit_val(c)
    } else if 'a' <= c && c <= 'f' {
        c as int - 'a' as int + 10
    } else {
        c as int - 'A' as int + 10
    }
}

/// Every character of `s` is a decimal digit.
pub open spec fn all_dec_digits(s: Seq<char>) -> bool {
    forall|i: int| 0 <= i < s.len() ==> is_dec_digit(#[trigger] s[i])
}

/// Every character of `s` is a hexadecimal digit.
pub open spec fn all_hex_digits(s: Seq<char>) -> bool {
    forall|i: int| 0 <= i < s.len() ==> is_hex_digit(#[trigger] s[i])
}

/// The value of `s` read as a decimal numeral (0 when empty).
pub open spec fn dec_val(s: Seq<char>) -> int
    decreases s.len(),
{
    if s.len() == 0 {
        0
    } else {
        dec_val(s.drop_last()) * 10 + dec_digit_val(s.last())
    }
}

/// The value of `s` read as a hexadecimal numeral (0 when empty).
pub open spec fn hex_val(s: Seq<char>) -> int
    decreases s.len(),
{
    if s.len() == 0 {
        0
    } else {
        hex_val(s.drop_last()) * 16 + hex_digit_val(s.last())
    }
}

/// The character that renders the digit value `d` (lowercase for 10..16).
pub open spec fn digit_char(d: int) -> char {
    if d == 0 { '0' }
    else if d == 1 { '1' }
    else if d == 2 { '2' }
    else if d == 3 { '3' }
    else if d == 4 { '4' }
    else if d == 5 { '5' }
    else if d == 6 { '6' }
    else if d == 7 { '7' }
    else if d == 8 { '8' }
    else if d == 9 { '9' }
    else if d == 10 { 'a' }
    else if d == 11 { 'b' }
    else if d == 12 { 'c' }
    else if d == 13 { 'd' }
    else if d == 14 { 'e' }
    else { 'f' }
}

/// The canonical decimal rendering of `n`: no leading zeros, and `"0"` for 0.
pub open spec fn dec_str(n: nat) -> Seq<char>
    decreases n,
{
    if n < 10 {
        seq![digit_char(n as int)]
    } else {
        dec_str(n / 10).push(digit_char((n % 10) as int))
    }
}

/// The canonical lowercase hexadecimal rendering of `n`.
pub open spec fn hex_str(n: nat) -> Seq<char>
    decreases n,
{
    if n < 16 {
        seq![digit_char(n as int)]
    } else {
        hex_str(n / 16).push(digit_char((n % 16) as int))
    }
}

/// The canonical decimal rendering is made of decimal digits, is never
/// empty, and reads back as the number it renders.
pub proof fn lemma_dec_str_ok(n: nat)
    ensures
        dec_str(n).len() >= 1,
        all_dec_digits(dec_str(n)),
        dec_val(dec_str(n)) == n,
    decreases n,
{
    if n < 10 {
        assert(dec_str(n) =~= seq![digit_char(n as int)]);
        assert(dec_str(n).drop_last() =~= Seq::<char>::empty());
        assert(dec_val(Seq::<char>::empty()) == 0);
        assert(dec_val(dec_str(n)) == dec_digit_val(digit_char(n as int)));
    } else {
        lemma_dec_str_ok(n / 10);
        assert(dec_str(n).drop_last() =~= dec_str(n / 10));
        assert forall|i: int| 0 <= i < dec_str(n).len() implies is_dec_digit(
            #[trigger] dec_str(n)[i],
        ) by {
            if i < dec_str(n / 10).len() {
                assert(dec_str(n)[i] == dec_str(n / 10)[i]);
            }
        }
    }
}

/// The canonical hexadecimal rendering is made of hexadecimal digits, is
/// never empty, and reads back as the number it renders.
pub proof fn lemma_hex_str_ok(n: nat)
    ensures
        hex_str(n).len() >= 1,
        all_hex_digits(hex_str(n)),
        hex_val(hex_str(n)) == n,
    decreases n,
{
    if n < 16 {
        assert(hex_str(n) =~= seq![digit_char(n as int)]);
        assert(hex_str(n).drop_last() =~= Seq::<char>::empty());
        assert(hex_val(Seq::<char>::empty()) == 0);
        assert(hex_val(hex_str(n)) == hex_digit_val(digit_char(n as int)));
    } else {
        lemma_hex_str_ok(n / 16);
        assert(hex_str(n).drop_last() =~= hex_str(n / 16));
        assert forall|i: int| 0 <= i < hex_str(n).len() implies is_hex_digit(
            #[trigger] hex_str(n)[i],
        ) by {
            if i < hex_str(n / 16).len() {
                assert(hex_str(n)[i] == hex_str(n / 16)[i]);
            }
        }
    }
}

/// Reading a longer prefix of a digit string never decreases the value.
pub proof fn lemma_dec_val_prefix(s: Seq<char>, i: int)
    requires
        all_dec_digits(s),
        0 <= i <= s.len(),
    ensures
        0 <= dec_val(s.take(i)),
        dec_val(s.take(i)) <= dec_val(s),
    decreases s.len() - i,
{
    if i == s.len() {
        assert(s.take(i) =~= s);
        lemma_dec_val_nonneg(s);
    } else {
        lemma_dec_val_prefix(s, i + 1);
        assert(s.take(i + 1).drop_last() =~= s.take(i));
        assert(dec_val(s.take(i + 1)) == dec_val(s.take(i)) * 10 + dec_digit_val(s[i]));
        lemma_dec_val_nonneg(s.take(i));
    }
}

/// A decimal numeral has a nonnegative value.
pub proof fn lemma_dec_val_nonneg(s: Seq<char>)
    requires
        all_dec_digits(s),
    ensures
        dec_val(s) >= 0,
    decreases s.len(),
{
    if s.len() > 0 {
        assert(all_dec_digits(s.drop_last())) by {
            assert(forall|i: int| 0 <= i < s.len() - 1 ==> s.drop_last()[i] == s[i]);
        }
        lemma_dec_val_nonneg(s.drop_last());
    }
}

/// A hexadecimal numeral has a nonnegative value.
pub proof fn lemma_hex_val_nonneg(s: Seq<char>)
    requires
        all_hex_digits(s),
    ensures
        hex_val(s) >= 0,
    decreases s.len(),
{
    if s.len() > 0 {
        assert(all_hex_digits(s.drop_last())) by {
            assert(forall|i: int| 0 <= i < s.len() - 1 ==> s.drop_last()[i] == s[i]);
        }
        lemma_hex_val_nonneg(s.drop_last());
    }
}

/// Reading a longer prefix of a hexadecimal string never decreases the value.
pub proof fn lemma_hex_val_prefix(s: Seq<char>, i: int)
    requires
        all_hex_digits(s),
        0 <= i <= s.len(),
    ensures
        0 <= hex_val(s.take(i)),
        hex_val(s.take(i)) <= hex_val(s),
    decreases s.len() - i,
{
    if i == s.len() {
        assert(s.take(i) =~= s);
        lemma_hex_val_nonneg(s);
    } else {
        lemma_hex_val_prefix(s, i + 1);
        assert(s.take(i + 1).drop_last() =~= s.take(i));
        assert(hex_val(s.take(i + 1)) == hex_val(s.take(i)) * 16 + hex_digit_val(s[i]));
        lemma_hex_val_nonneg(s.take(i));
    }
}

/// The components of `s` between occurrences of the separator `sep`,
/// in order. A text with no separator is one component; every separator
/// ends a component, so `n` separators give `n + 1` components.
pub open spec fn split_on(s: Seq<char>, sep: char) -> Seq<Seq<char>>
    decreases s.len(),
{
    if s.len() == 0 {
        seq![s]
    } else if s.last() == sep {
        split_on(s.drop_last(), sep).push(Seq::empty())
    } else {
        let r = split_on(s.drop_last(), sep);
        r.update(r.len() - 1, r.last().push(s.last()))
    }
}

/// The components joined back into one text, with `sep` between them.
pub open spec fn join_with(parts: Seq<Seq<char>>, sep: char) -> Seq<char>
    decreases parts.len(),
{
    if parts.len() == 0 {
        Seq::empty()
    } else if parts.len() == 1 {
        parts[0]
    } else {
        join_with(parts.drop_last(), sep).push(sep) + parts.last()
    }
}

/// The index of the last occurrence of `c` in `s`, or -1 when none.
pub open spec fn find_last(s: Seq<char>, c: char) -> int
    decreases s.len(),
{
    if s.len() == 0 {
        -1
    } else if s.last() == c {
        s.len() - 1
    } else {
        find_last(s.drop_last(), c)
    }
}

/// Is `t` a canonical decimal numeral: nonempty, digits only, and no
/// leading zero (except the numeral `"0"` itself)?
pub open spec fn canonical_dec(t: Seq<char>) -> bool {
    t.len() >= 1 && all_dec_digits(t) && (t.len() == 1 || t[0] != '0')
}

/// Is `c` a lowercase hexadecimal digit?
pub open spec fn is_lower_hex_digit(c: char) -> bool {
    is_dec_digit(c) || ('a' <= c && c <= 'f')
}

/// Is `t` a canonical hexadecimal numeral: nonempty, lowercase digits
/// only, and no leading zero (except the numeral `"0"` itself)?
pub open spec fn canonical_hex(t: Seq<char>) -> bool {
    &&& t.len() >= 1
    &&& (forall|i: int| 0 <= i < t.len() ==> is_lower_hex_digit(#[trigger] t[i]))
    &&& (t.len() == 1 || t[0] != '0')
}

/// A numeral without a leading zero is at least 1, and at least 10 from
/// two digits on.
proof fn lemma_dec_val_lower(t: Seq<char>)
    requires
        all_dec_digits(t),
        t.len() >= 1,
        t[0] != '0',
    ensures
        dec_val(t) >= 1,
        t.len() >= 2 ==> dec_val(t) >= 10,
    decreases t.len(),
{
    if t.len() == 1 {
        assert(t.drop_last() =~= Seq::<char>::empty());
        assert(dec_val(Seq::<char>::empty()) == 0);
        assert(dec_val(t) == dec_digit_val(t[0]));
    } else {
        let dl = t.drop_last();
        assert(all_dec_digits(dl)) by {
            assert(forall|i: int| 0 <= i < dl.len() ==> dl[i] == t[i]);
        }
        lemma_dec_val_lower(dl);
    }
}

/// A hexadecimal numeral without a leading zero is at least 1, and at
/// least 16 from two digits on.
proof fn lemma_hex_val_lower(t: Seq<char>)
    requires
        all_hex_digits(t),
        t.len() >= 1,
        t[0] != '0',
    ensures
        hex_val(t) >= 1,
        t.len() >= 2 ==> hex_val(t) >= 16,
    decreases t.len(),
{
    if t.len() == 1 {
        assert(t.drop_last() =~= Seq::<char>::empty());
        assert(hex_val(Seq::<char>::empty()) == 0);
        assert(hex_val(t) == hex_digit_val(t[0]));
    } else {
        let dl = t.drop_last();
        assert(all_hex_digits(dl)) by {
            assert(forall|i: int| 0 <= i < dl.len() ==> dl[i] == t[i]);
        }
        lemma_hex_val_lower(dl);
    }
}

/// A canonical decimal numeral is the rendering of its own value:
/// rendering after reading gives the text back exactly.
pub proof fn lemma_dec_str_fixed_point(t: Seq<char>)
    requires
        canonical_dec(t),
    ensures
        dec_str(dec_val(t) as nat) == t,
    decreases t.len(),
{
    crate::strnum::lemma_dec_val_nonneg(t);
    if t.len() == 1 {
        assert(t.drop_last() =~= Seq::<char>::empty());
        assert(dec_val(Seq::<char>::empty()) == 0);
        assert(dec_val(t) == dec_digit_val(t[0]));
        assert(digit_char(dec_digit_val(t[0])) == t[0]);
        assert(dec_str(dec_val(t) as nat) =~= t);
    } else {
        let dl = t.drop_last();
        assert(all_dec_digits(dl)) by {
            assert(forall|i: int| 0 <= i < dl.len() ==> dl[i] == t[i]);
        }
        lemma_dec_val_lower(t);
        lemma_dec_val_nonneg(dl);
        let v = dec_val(t);
        let d = dec_digit_val(t.last());
        assert(v == dec_val(dl) * 10 + d);
        assert(v / 10 == dec_val(dl) && v % 10 == d) by {
            vstd::arithmetic::div_mod::lemma_fundamental_div_mod_converse(
                v,
                10,
                dec_val(dl),
                d,
            );
        }
        lemma_dec_str_fixed_point(dl);
        assert(digit_char(d) == t.last());
        assert(dec_str(v as nat) =~= dl.push(t.last()));
        assert(dl.push(t.last()) =~= t);
    }
}

/// A canonical hexadecimal numeral is the rendering of its own value.
pub proof fn lemma_hex_str_fixed_point(t: Seq<char>)
    requires
        canonical_hex(t),
    ensures
        hex_str(hex_val(t) as nat) == t,
    decreases t.len(),
{
    assert(all_hex_digits(t));
    crate::strnum::lemma_hex_val_nonneg(t);
    if t.len() == 1 {
        assert(t.drop_last() =~= Seq::<char>::empty());
        assert(hex_val(Seq::<char>::empty()) == 0);
        assert(hex_val(t) == hex_digit_val(t[0]));
        assert(digit_char(hex_digit_val(t[0])) == t[0]);
        assert(hex_str(hex_val(t) as nat) =~= t);
    } else {
        let dl = t.drop_last();
        assert(canonical_hex(dl)) by {
            assert(forall|i: int| 0 <= i < dl.len() ==> dl[i] == t[i]);
        }
        assert(all_hex_digits(dl)) by {
            assert(forall|i: int| 0 <= i < dl.len() ==> dl[i] == t[i]);
        }
        lemma_hex_val_lower(t);
        lemma_hex_val_nonneg(dl);
        let v = hex_val(t);
        let d = hex_digit_val(t.last());
        assert(v == hex_val(dl) * 16 + d);
        assert(v / 16 == hex_val(dl) && v % 16 == d) by {
            vstd::arithmetic::div_mod::lemma_fundamental_div_mod_converse(
                v,
                16,
                hex_val(dl),
                d,
            );
        }
        lemma_hex_str_fixed_point(dl);
        assert(digit_char(d) == t.last());
        assert(hex_str(v as nat) =~= dl.push(t.last()));
        assert(dl.push(t.last()) =~= t);
    }
}

/// Joining the components of a split rebuilds the original text.
pub proof fn lemma_join_split(s: Seq<char>, sep: char)
    ensures
        join_with(split_on(s, sep), sep) == s,
    decreases s.len(),
{
    if s.len() == 0 {
        assert(split_on(s, sep) =~= seq![s]);
        assert(join_with(seq![s], sep) == s);
    } else {
        lemma_join_split(s.drop_last(), sep);
        let r = split_on(s.drop_last(), sep);
        lemma_split_on_len(s.drop_last(), sep);
        if s.last() == sep {
            let u = r.push(Seq::<char>::empty());
            assert(split_on(s, sep) == u);
            assert(u.drop_last() =~= r);
            assert(u.len() >= 2);
            assert(join_with(u, sep) == join_with(r, sep).push(sep) + Seq::<char>::empty());
            assert(join_with(u, sep) =~= s.drop_last().push(sep));
            assert(s.drop_last().push(sep) =~= s);
        } else {
            let u = r.update(r.len() - 1, r.last().push(s.last()));
            assert(split_on(s, sep) == u);
            if r.len() == 1 {
                assert(u.len() == 1);
                assert(join_with(u, sep) == u[0]);
                assert(u[0] == r[0].push(s.last()));
                assert(join_with(r, sep) == r[0]);
                assert(join_with(u, sep) =~= s);
            } else {
                assert(u.drop_last() =~= r.drop_last());
                assert(u.last() == r.last().push(s.last()));
                assert(join_with(u, sep) == join_with(r.drop_last(), sep).push(sep) + r.last().push(
                    s.last(),
                ));
                assert(join_with(r, sep) == join_with(r.drop_last(), sep).push(sep) + r.last());
                assert(join_with(u, sep) =~= join_with(r, sep).push(s.last()));
                assert(join_with(r, sep).push(s.last()) =~= s);
            }
        }
    }
}

/// The index of the last occurrence is always inside the text, or -1.
pub proof fn lemma_find_last_range(s: Seq<char>, c: char)
    ensures
        -1 <= find_last(s, c) < s.len(),
    decreases s.len(),
{
    if s.len() > 0 && s.last() != c {
        lemma_find_last_range(s.drop_last(), c);
    }
}

/// A character that no component holds and that is not the separator does
/// not occur in the joined text.
pub proof fn lemma_join_no_char(parts: Seq<Seq<char>>, sep: char, c: char)
    requires
        c != sep,
        forall|i: int| 0 <= i < parts.len() ==> !(#[trigger] parts[i]).contains(c),
    ensures
        !join_with(parts, sep).contains(c),
    decreases parts.len(),
{
    if parts.len() == 0 {
        assert(!join_with(parts, sep).contains(c));
    } else if parts.len() == 1 {
        assert(join_with(parts, sep) == parts[0]);
    } else {
        let dl = parts.drop_last();
        assert(forall|i: int| 0 <= i < dl.len() ==> dl[i] == parts[i]);
        lemma_join_no_char(dl, sep, c);
        let j = join_with(dl, sep);
        let w = join_with(parts, sep);
        assert(w == j.push(sep) + parts.last());
        assert forall|k: int| 0 <= k < w.len() implies #[trigger] w[k] != c by {
            if k < j.len() {
                assert(j.contains(c) <== j[k] == c);
            } else if k == j.len() {
                assert(w[k] == sep);
            } else {
                assert(w[k] == parts.last()[k - j.len() - 1]);
                assert(parts.last().contains(c) <== parts.last()[k - j.len() - 1] == c);
            }
        }
        assert(!w.contains(c));
    }
}

/// Splitting always yields at least one component.
pub proof fn lemma_split_on_len(s: Seq<char>, sep: char)
    ensures
        split_on(s, sep).len() >= 1,
    decreases s.len(),
{
    if s.len() > 0 {
        lemma_split_on_len(s.drop_last(), sep);
    }
}

/// A text free of the separator splits into exactly itself.
pub proof fn lemma_split_on_sep_free(s: Seq<char>, sep: char)
    requires
        !s.contains(sep),
    ensures
        split_on(s, sep) =~~= seq![s],
    decreases s.len(),
{
    if s.len() > 0 {
        assert(s.last() != sep);
        assert(!s.drop_last().contains(sep)) by {
            assert forall|i: int| 0 <= i < s.len() - 1 implies #[trigger] s.drop_last()[i]
                != sep by {
                assert(s[i] == s.drop_last()[i]);
            }
        }
        lemma_split_on_sep_free(s.drop_last(), sep);
        assert(split_on(s, sep)[0] =~= s);
    }
}

/// Appending separator-free text to `a` extends the last component of the
/// split of `a` by that text.
pub proof fn lemma_split_on_append_sep_free(a: Seq<char>, b: Seq<char>, sep: char)
    requires
        !b.contains(sep),
    ensures
        split_on(a + b, sep) =~~= split_on(a, sep).update(
            split_on(a, sep).len() - 1,
            split_on(a, sep).last() + b,
        ),
    decreases b.len(),
{
    lemma_split_on_len(a, sep);
    if b.len() == 0 {
        assert(a + b =~= a);
        assert(split_on(a, sep).last() + b =~= split_on(a, sep).last());
    } else {
        assert(b.last() != sep) by {
            assert(b[b.len() - 1] == b.last());
        }
        assert(!b.drop_last().contains(sep)) by {
            assert forall|i: int| 0 <= i < b.len() - 1 implies #[trigger] b.drop_last()[i]
                != sep by {
                assert(b[i] == b.drop_last()[i]);
            }
        }
        lemma_split_on_append_sep_free(a, b.drop_last(), sep);
        assert((a + b).drop_last() =~= a + b.drop_last());
        assert((a + b).last() == b.last());
        let r = split_on(a + b.drop_last(), sep);
        lemma_split_on_len(a + b.drop_last(), sep);
        assert(split_on(a + b, sep) =~~= r.update(r.len() - 1, r.last().push(b.last())));
        assert(r.last() =~= split_on(a, sep).last() + b.drop_last());
        assert(r.last().push(b.last()) =~= split_on(a, sep).last() + b);
    }
}

/// Splitting undoes joining: joining any nonempty list of separator-free
/// components and splitting the result gives the components back.
pub proof fn lemma_split_join(parts: Seq<Seq<char>>, sep: char)
    requires
        parts.len() >= 1,
        forall|i: int| 0 <= i < parts.len() ==> !(#[trigger] parts[i]).contains(sep),
    ensures
        split_on(join_with(parts, sep), sep) =~~= parts,
    decreases parts.len(),
{
    if parts.len() == 1 {
        lemma_split_on_sep_free(parts[0], sep);
    } else {
        let dl = parts.drop_last();
        assert(forall|i: int| 0 <= i < dl.len() ==> dl[i] == parts[i]);
        lemma_split_join(dl, sep);
        let j = join_with(dl, sep);
        assert(join_with(parts, sep) == j.push(sep) + parts.last());
        lemma_split_on_append_sep_free(j.push(sep), parts.last(), sep);
        assert(j.push(sep).drop_last() =~= j);
        assert(split_on(j.push(sep), sep) =~~= split_on(j, sep).push(Seq::empty()));
        let r = split_on(j.push(sep), sep);
        lemma_split_on_len(j, sep);
        assert(r.last() =~= Seq::<char>::empty());
        assert(Seq::<char>::empty() + parts.last() =~= parts.last());
        assert(split_on(join_with(parts, sep), sep) =~~= r.update(r.len() - 1, parts.last()));
        assert(r.update(r.len() - 1, parts.last()) =~~= split_on(j, sep).push(parts.last()));
    }
}

/// The one-character string rendering the digit value `d`.
pub fn digit_str(d: u32) -> (r: &'static str)
    requires
        d < 16,
    ensures
        r@ =~= seq![digit_char(d as int)],
{
    proof {
        reveal_strlit("0");
        reveal_strlit("1");
        reveal_strlit("2");
        reveal_strlit("3");
        reveal_strlit("4");
        reveal_strlit("5");
        reveal_strlit("6");
        reveal_strlit("7");
        reveal_strlit("8");
        reveal_strlit("9");
        reveal_strlit("a");
        reveal_strlit("b");
        reveal_strlit("c");
        reveal_strlit("d");
        reveal_strlit("e");
        reveal_strlit("f");
    }
    if d == 0 { "0" }
    else if d == 1 { "1" }
    else if d == 2 { "2" }
    else if d == 3 { "3" }
    else if d == 4 { "4" }
    else if d == 5 { "5" }
    else if d == 6 { "6" }
    else if d == 7 { "7" }
    else if d == 8 { "8" }
    else if d == 9 { "9" }
    else if d == 10 { "a" }
    else if d == 11 { "b" }
    else if d == 12 { "c" }
    else if d == 13 { "d" }
    else if d == 14 { "e" }
    else { "f" }
}

/// Does `s` contain the character `c`?
pub fn contains_char(s: &str, c: char) -> (r: bool)
    ensures
        r == s@.contains(c),
{
    let n = s.unicode_len();
    let mut i: usize = 0;
    while i < n
        invariant
            0 <= i <= n,
            n == s@.len(),
            forall|j: int| 0 <= j < i ==> s@[j] != c,
        decreases n - i,
    {
        if s.get_char(i) == c {
            assert(s@.contains(c)) by {
                assert(s@[i as int] == c);
            }
            return true;
        }
        i += 1;
    }
    false
}

/// The position of the last occurrence of `c` in `s`, or `None` when `s`
/// does not contain it.
pub fn rfind_char(s: &str, c: char) -> (r: Option<usize>)
    ensures
        match r {
            Some(p) => find_last(s@, c) == p,
            None => find_last(s@, c) == -1,
        },
{
    let n = s.unicode_len();
    let mut i: usize = n;
    proof {
        assert(s@.take(n as int) =~= s@);
    }
    while i > 0
        invariant
            0 <= i <= n,
            n == s@.len(),
            find_last(s@, c) == find_last(s@.take(i as int), c),
        decreases i,
    {
        let d = s.get_char(i - 1);
        proof {
            assert(s@.take(i as int).last() == s@[i - 1]);
            assert(s@.take(i as int).drop_last() =~= s@.take(i as int - 1));
        }
        if d == c {
            return Some(i - 1);
        }
        i -= 1;
    }
    assert(s@.take(0) =~= Seq::<char>::empty());
    None
}

/// The components of `s` between occurrences of `sep`, each as a fresh
/// `String`, exactly as `split_on` describes.
pub fn split_str(s: &str, sep: char) -> (r: Vec<String>)
    ensures
        r.deep_view() =~~= split_on(s@, sep),
{
    let n = s.unicode_len();
    let mut parts: Vec<String> = Vec::new();
    let mut comp_start: usize = 0;
    let mut i: usize = 0;
    while i < n
        invariant
            0 <= comp_start <= i <= n,
            n == s@.len(),
            split_on(s@.take(i as int), sep) =~~= parts.deep_view().push(
                s@.subrange(comp_start as int, i as int),
            ),
        decreases n - i,
    {
        let c = s.get_char(i);
        proof {
            assert(s@.take(i as int + 1).drop_last() =~= s@.take(i as int));
            assert(s@.take(i as int + 1).last() == s@[i as int]);
        }
        if c == sep {
            let ghost old_parts = parts.deep_view();
            parts.push(s.substring_char(comp_start, i).to_owned());
            proof {
                assert(parts.deep_view() =~~= old_parts.push(
                    s@.subrange(comp_start as int, i as int),
                ));
                assert(s@.subrange(i as int + 1, i as int + 1) =~= Seq::<char>::empty());
                assert(split_on(s@.take(i as int + 1), sep) =~~= parts.deep_view().push(
                    s@.subrange(i as int + 1, i as int + 1),
                ));
            }
            comp_start = i + 1;
        } else {
            proof {
                let r = split_on(s@.take(i as int), sep);
                assert(r.last() == s@.subrange(comp_start as int, i as int));
                assert(s@.subrange(comp_start as int, i as int).push(s@[i as int]) =~= s@.subrange(
                    comp_start as int,
                    i as int + 1,
                ));
                assert(split_on(s@.take(i as int + 1), sep) =~~= parts.deep_view().push(
                    s@.subrange(comp_start as int, i as int + 1),
                ));
            }
        }
        i += 1;
    }
    let ghost old_parts = parts.deep_view();
    parts.push(s.substring_char(comp_start, n).to_owned());
    proof {
        assert(s@.take(n as int) =~= s@);
        assert(parts.deep_view() =~~= old_parts.push(s@.subrange(comp_start as int, n as int)));
    }
    parts
}

/// Reads `t` as a decimal numeral. Returns its value exactly when `t` is
/// nonempty, made of decimal digits only, and its value is at most `bound`.
pub fn parse_dec_bounded(t: &str, bound: u32) -> (r: Option<u32>)
    ensures
        match r {
            Some(v) => t@.len() > 0 && all_dec_digits(t@) && dec_val(t@) == v && v <= bound,
            None => !(t@.len() > 0 && all_dec_digits(t@) && dec_val(t@) <= bound),
        },
{
    let n = t.unicode_len();
    if n == 0 {
        return None;
    }
    let mut val: u64 = 0;
    let mut i: usize = 0;
    while i < n
        invariant
            0 <= i <= n,
            n == t@.len(),
            all_dec_digits(t@.take(i as int)),
            val == dec_val(t@.take(i as int)),
            val <= bound,
        decreases n - i,
    {
        let c = t.get_char(i);
        let u = c as u32;
        proof {
            assert(t@.take(i as int + 1).drop_last() =~= t@.take(i as int));
            assert(t@.take(i as int + 1).last() == t@[i as int]);
        }
        if u < 48 || u > 57 {
            assert(!is_dec_digit(t@[i as int]));
            return None;
        }
        let d = u - 48;
        val = val * 10 + d as u64;
        assert(val == dec_val(t@.take(i as int + 1)));
        assert(all_dec_digits(t@.take(i as int + 1)));
        if val > bound as u64 {
            proof {
                if all_dec_digits(t@) {
                    lemma_dec_val_prefix(t@, i as int + 1);
                }
            }
            return None;
        }
        i += 1;
    }
    proof {
        assert(t@.take(n as int) =~= t@);
    }
    Some(val as u32)
}

/// Reads `t` as a hexadecimal numeral, accepting both letter cases.
/// Returns its value exactly when `t` is nonempty, made of hexadecimal
/// digits only, and its value is at most `bound`.
pub fn parse_hex_bounded(t: &str, bound: u32) -> (r: Option<u32>)
    ensures
        match r {
            Some(v) => t@.len() > 0 && all_hex_digits(t@) && hex_val(t@) == v && v <= bound,
            None => !(t@.len() > 0 && all_hex_digits(t@) && hex_val(t@) <= bound),
        },
{
    let n = t.unicode_len();
    if n == 0 {
        return None;
    }
    let mut val: u64 = 0;
    let mut i: usize = 0;
    while i < n
        invariant
            0 <= i <= n,
            n == t@.len(),
            all_hex_digits(t@.take(i as int)),
            val == hex_val(t@.take(i as int)),
            val <= bound,
        decreases n - i,
    {
        let c = t.get_char(i);
        let u = c as u32;
        proof {
            assert(t@.take(i as int + 1).drop_last() =~= t@.take(i as int));
            assert(t@.take(i as int + 1).last() == t@[i as int]);
        }
        let d: u32 = if u >= 48 && u <= 57 {
            u - 48
        } else if u >= 97 && u <= 102 {
            u - 87
        } else if u >= 65 && u <= 70 {
            u - 55
        } else {
            assert(!is_hex_digit(t@[i as int]));
            return None;
        };
        assert(d == hex_digit_val(t@[i as int]));
        val = val * 16 + d as u64;
        assert(val == hex_val(t@.take(i as int + 1)));
        assert(all_hex_digits(t@.take(i as int + 1)));
        if val > bound as u64 {
            proof {
                if all_hex_digits(t@) {
                    lemma_hex_val_prefix(t@, i as int + 1);
                }
            }
            return None;
        }
        i += 1;
    }
    proof {
        assert(t@.take(n as int) =~= t@);
    }
    Some(val as u32)
}

/// Reads `t` as a decimal numeral of up to 128 bits. Returns its value
/// exactly when `t` is nonempty, made of decimal digits only, and its
/// value fits in a `u128`.
pub fn parse_dec_u128(t: &str) -> (r: Option<u128>)
    ensures
        match r {
            Some(v) => t@.len() > 0 && all_dec_digits(t@) && dec_val(t@) == v,
            None => !(t@.len() > 0 && all_dec_digits(t@) && dec_val(t@) <= u128::MAX),
        },
{
    let n = t.unicode_len();
    if n == 0 {
        return None;
    }
    let mut val: u128 = 0;
    let mut i: usize = 0;
    while i < n
        invariant
            0 <= i <= n,
            n == t@.len(),
            all_dec_digits(t@.take(i as int)),
            val == dec_val(t@.take(i as int)),
        decreases n - i,
    {
        let c = t.get_char(i);
        let u = c as u32;
        proof {
            assert(t@.take(i as int + 1).drop_last() =~= t@.take(i as int));
            assert(t@.take(i as int + 1).last() == t@[i as int]);
        }
        if u < 48 || u > 57 {
            assert(!is_dec_digit(t@[i as int]));
            return None;
        }
        let d = u - 48;
        if val > (u128::MAX - d as u128) / 10 {
            proof {
                assert(val * 10 + d > u128::MAX) by (nonlinear_arith)
                    requires
                        val > (u128::MAX - d as u128) / 10,
                        d <= 9,
                ;
                assert(dec_val(t@.take(i as int + 1)) > u128::MAX);
                if all_dec_digits(t@) {
                    lemma_dec_val_prefix(t@, i as int + 1);
                }
            }
            return None;
        }
        proof {
            assert(val * 10 + d <= u128::MAX) by (nonlinear_arith)
                requires
                    val <= (u128::MAX - d as u128) / 10,
                    d <= 9,
            ;
        }
        val = val * 10 + d as u128;
        assert(val == dec_val(t@.take(i as int + 1)));
        assert(all_dec_digits(t@.take(i as int + 1)));
        i += 1;
    }
    proof {
        assert(t@.take(n as int) =~= t@);
    }
    Some(val)
}

/// Appends the canonical decimal rendering of `n` to `s`.
pub fn append_dec(s: &mut String, n: u128)
    ensures
        final(s)@ == old(s)@ + dec_str(n as nat),
    decreases n,
{
    if n >= 10 {
        append_dec(s, n / 10);
    }
    s.append(digit_str((n % 10) as u32));
    proof {
        if n < 10 {
            assert(old(s)@ + dec_str(n as nat) =~= s@);
        } else {
            assert(old(s)@ + dec_str(n as nat) =~= s@);
        }
    }
}

/// Appends the canonical lowercase hexadecimal rendering of `n` to `s`.
pub fn append_hex(s: &mut String, n: u64)
    ensures
        final(s)@ == old(s)@ + hex_str(n as nat),
    decreases n,
{
    if n >= 16 {
        append_hex(s, n / 16);
    }
    s.append(digit_str((n % 16) as u32));
    proof {
        assert(old(s)@ + hex_str(n as nat) =~= s@);
    }
}

} // verus!
