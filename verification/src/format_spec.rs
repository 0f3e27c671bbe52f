//! The format specification of a format expression in a µcad format string:
//! a precision and a number of leading zeros, each optional.
use crate::text::chars_of;
use vstd::prelude::*;

verus! {

/// How a value is formatted: the number of digits after the decimal point,
/// and the width to which leading zeros pad it.
#[derive(Debug, Clone, Copy, PartialEq, Eq, Structural)]
pub struct FormatSpec {
    pub precision: Option<u32>,
    pub leading_zeros: Option<u32>,
}

impl Default for FormatSpec {
    /// Neither a precision nor leading zeros.
    fn default() -> (s: FormatSpec)
        ensures
            s.precision is None,
            s.leading_zeros is None,
    {
        FormatSpec { precision: None, leading_zeros: None }
    }
}

/// A part of a format specification as the grammar delivers it, with its
/// text: a precision such as `.3`, or leading zeros such as `05`.  The
/// number follows the first character.
#[derive(Debug)]
pub enum FormatSpecPart {
    Precision(String),
    LeadingZeros(String),
}

/// Whether `c` is an ASCII decimal digit.
pub open spec fn is_digit(c: char) -> bool {
    '0' <= c && c <= '9'
}

/// The value of a decimal digit.
pub open spec fn digit_value(c: char) -> nat {
    (c as nat - '0' as nat) as nat
}

/// The value of a string of decimal digits.
pub open spec fn decimal_value(d: Seq<char>) -> nat
    decreases d.len(),
{
    if d.len() == 0 {
        0
    } else {
        decimal_value(d.drop_last()) * 10 + digit_value(d.last())
    }
}

/// The digits of a number as `u32::from_str` reads it: after an optional
/// `+`, all that is left.
pub open spec fn unsigned_digits(s: Seq<char>) -> Seq<char> {
    if s.len() > 0 && s[0] == '+' {
        s.drop_first()
    } else {
        s
    }
}

/// What `u32::from_str` makes of `s`: an optional `+` and at least one
/// decimal digit, whose value fits in `u32`; nothing else is a number.
pub open spec fn spec_parse_u32(s: Seq<char>) -> Option<u32> {
    let d = unsigned_digits(s);
    if d.len() > 0 && (forall|i: int| 0 <= i < d.len() ==> is_digit(#[trigger] d[i])) && decimal_value(d)
        <= u32::MAX {
        Some(decimal_value(d) as u32)
    } else {
        None
    }
}

/// The number in the text of a part: what follows its first character.
pub open spec fn part_number(text: Seq<char>) -> Option<u32> {
    spec_parse_u32(text.drop_first())
}

/// The text of a part of a format specification.
pub open spec fn part_text(p: FormatSpecPart) -> Seq<char> {
    match p {
        FormatSpecPart::Precision(t) => t@,
        FormatSpecPart::LeadingZeros(t) => t@,
    }
}

/// A part whose text starts with an ASCII character followed by a number.
pub open spec fn valid_part(p: FormatSpecPart) -> bool {
    let t = part_text(p);
    &&& t.len() > 0
    &&& (t[0] as u32) < 128
    &&& part_number(t) is Some
}

/// The format specification that the parts `ps` give, in order: a later
/// part of a kind replaces an earlier one.
pub open spec fn spec_from_parts(ps: Seq<FormatSpecPart>) -> FormatSpec
    decreases ps.len(),
{
    if ps.len() == 0 {
        FormatSpec { precision: None, leading_zeros: None }
    } else {
        let s = spec_from_parts(ps.drop_last());
        match ps.last() {
            FormatSpecPart::Precision(t) => FormatSpec { precision: part_number(t@), ..s },
            FormatSpecPart::LeadingZeros(t) => FormatSpec { leading_zeros: part_number(t@), ..s },
        }
    }
}

/// The value of a prefix of a string of digits is at most that of the whole.
proof fn lemma_decimal_prefix(d: Seq<char>, i: int)
    requires
        0 <= i <= d.len(),
    ensures
        decimal_value(d.take(i)) <= decimal_value(d),
    decreases d.len() - i,
{
    if i < d.len() {
        lemma_decimal_prefix(d, i + 1);
        assert(d.take(i + 1).drop_last() =~= d.take(i));
    } else {
        assert(d.take(i) =~= d);
    }
}

/// The `u32` that `s` holds, as `u32::from_str` reads it: an optional `+`
/// and decimal digits; `None` where `s` holds anything else, no digit, or a
/// number larger than `u32::MAX`.
pub fn parse_u32(s: &Vec<char>) -> (r: Option<u32>)
    ensures
        r == spec_parse_u32(s@),
{
    let start: usize = if s.len() > 0 && s[0] == '+' {
        1
    } else {
        0
    };
    let ghost d = unsigned_digits(s@);
    assert(d =~= s@.skip(start as int));
    if start >= s.len() {
        return None;
    }
    let mut acc: u64 = 0;
    let mut i = start;
    while i < s.len()
        invariant
            start <= i <= s.len(),
            d == s@.skip(start as int),
            d == unsigned_digits(s@),
            d.len() > 0,
            acc == decimal_value(d.take(i - start)),
            acc <= u32::MAX,
            forall|j: int| 0 <= j < i - start ==> is_digit(#[trigger] d[j]),
        decreases s.len() - i,
    {
        let c = s[i];
        assert(d[i - start] == c);
        if !('0' <= c && c <= '9') {
            assert(!is_digit(d[i - start]));
            return None;
        }
        assert(d.take(i - start + 1).drop_last() =~= d.take(i - start));
        let v = (c as u64) - ('0' as u64);
        acc = acc * 10 + v;
        if acc > 0xffff_ffff {
            proof {
                lemma_decimal_prefix(d, i - start + 1);
            }
            return None;
        }
        i = i + 1;
    }
    assert(d.take(i - start) =~= d);
    Some(acc as u32)
}

impl FormatSpec {
    /// The format specification of the parts `parts`, as the grammar
    /// delivers them: each part sets its kind's number, the last one of a
    /// kind winning.
    pub fn from_parts(parts: &Vec<FormatSpecPart>) -> (s: FormatSpec)
        requires
            forall|i: int| 0 <= i < parts@.len() ==> valid_part(#[trigger] parts@[i]),
        ensures
            s == spec_from_parts(parts@),
    {
        let mut opt = FormatSpec::default();
        for i in 0..parts.len()
            invariant
                forall|j: int| 0 <= j < parts@.len() ==> valid_part(#[trigger] parts@[j]),
                opt == spec_from_parts(parts@.take(i as int)),
        {
            assert(parts@.take(i + 1).drop_last() =~= parts@.take(i as int));
            assert(valid_part(parts@[i as int]));
            match &parts[i] {
                FormatSpecPart::Precision(t) => {
                    let chars = chars_of(t.as_str());
                    let mut rest: Vec<char> = Vec::new();
                    for k in 1..chars.len()
                        invariant
                            1 <= chars@.len(),
                            rest@ == chars@.subrange(1, k as int),
                    {
                        rest.push(chars[k]);
                        assert(chars@.subrange(1, k + 1) =~= chars@.subrange(1, k as int).push(chars@[k as int]));
                    }
                    assert(rest@ =~= chars@.drop_first());
                    opt.precision = parse_u32(&rest);
                },
                FormatSpecPart::LeadingZeros(t) => {
                    let chars = chars_of(t.as_str());
                    let mut rest: Vec<char> = Vec::new();
                    for k in 1..chars.len()
                        invariant
                            1 <= chars@.len(),
                            rest@ == chars@.subrange(1, k as int),
                    {
                        rest.push(chars[k]);
                        assert(chars@.subrange(1, k + 1) =~= chars@.subrange(1, k as int).push(chars@[k as int]));
                    }
                    assert(rest@ =~= chars@.drop_first());
                    opt.leading_zeros = parse_u32(&rest);
                },
            }
        }
        assert(parts@.take(parts.len() as int) =~= parts@);
        opt
    }
}

/// With no leading-zeros part, the parts give no leading zeros.
pub proof fn lemma_no_leading_zeros_part(ps: Seq<FormatSpecPart>)
    requires
        forall|j: int| 0 <= j < ps.len() ==> !(#[trigger] ps[j] is LeadingZeros),
    ensures
        spec_from_parts(ps).leading_zeros is None,
    decreases ps.len(),
{
    if ps.len() > 0 {
        let d = ps.drop_last();
        assert forall|j: int| 0 <= j < d.len() implies !(#[trigger] d[j] is LeadingZeros) by {
            assert(d[j] == ps[j]);
        }
        lemma_no_leading_zeros_part(d);
        assert(!(ps[ps.len() - 1] is LeadingZeros));
    }
}

/// The number of leading zeros is that of the last leading-zeros part,
/// whatever precision parts stand before or after it.
pub proof fn lemma_last_leading_zeros_part(ps: Seq<FormatSpecPart>, i: int)
    requires
        0 <= i < ps.len(),
        ps[i] is LeadingZeros,
        forall|j: int| i < j < ps.len() ==> !(#[trigger] ps[j] is LeadingZeros),
    ensures
        spec_from_parts(ps).leading_zeros == part_number(part_text(ps[i])),
    decreases ps.len(),
{
    let d = ps.drop_last();
    if i < ps.len() - 1 {
        assert(d[i] == ps[i]);
        assert forall|j: int| i < j < d.len() implies !(#[trigger] d[j] is LeadingZeros) by {
            assert(d[j] == ps[j]);
        }
        lemma_last_leading_zeros_part(d, i);
        assert(!(ps[ps.len() - 1] is LeadingZeros));
    }
}

/// With no precision part, the parts give no precision.
pub proof fn lemma_no_precision_part(ps: Seq<FormatSpecPart>)
    requires
        forall|j: int| 0 <= j < ps.len() ==> !(#[trigger] ps[j] is Precision),
    ensures
        spec_from_parts(ps).precision is None,
    decreases ps.len(),
{
    if ps.len() > 0 {
        let d = ps.drop_last();
        assert forall|j: int| 0 <= j < d.len() implies !(#[trigger] d[j] is Precision) by {
            assert(d[j] == ps[j]);
        }
        lemma_no_precision_part(d);
        assert(!(ps[ps.len() - 1] is Precision));
    }
}

/// The precision is that of the last precision part, whatever
/// leading-zeros parts stand before or after it.
pub proof fn lemma_last_precision_part(ps: Seq<FormatSpecPart>, i: int)
    requires
        0 <= i < ps.len(),
        ps[i] is Precision,
        forall|j: int| i < j < ps.len() ==> !(#[trigger] ps[j] is Precision),
    ensures
        spec_from_parts(ps).precision == part_number(part_text(ps[i])),
    decreases ps.len(),
{
    let d = ps.drop_last();
    if i < ps.len() - 1 {
        assert(d[i] == ps[i]);
        assert forall|j: int| i < j < d.len() implies !(#[trigger] d[j] is Precision) by {
            assert(d[j] == ps[j]);
        }
        lemma_last_precision_part(d, i);
        assert(!(ps[ps.len() - 1] is Precision));
    }
}

} // verus!
