//! The text form of an item: `PREFIX` or `PREFIX-MAXLEN`.

use crate::error::RoaError;
use crate::max_length::MaxLength;
use crate::prefix::{network_bits, Afi, Prefix, PrefixModel};
use crate::range::{lemma_order_total, make_record, range_models, RangeModel, RoaPrefixRange};
use crate::ranges::{collected, RoaPrefixRanges};
use vstd::prelude::*;
use vstd::string::*;

verus! {

/// What `ip::any::Prefix::from_str` makes of a text: the address family, the
/// network address as a number and the length of the prefix that it reads,
/// or `None` where it reads none.
pub uninterp spec fn parsed_prefix(text: Seq<char>) -> Option<(Afi, u128, u8)>;

/// The text of an IPv4 prefix: the four octets of the network address in
/// decimal, joined by `.`, then `/` and the length in decimal.
pub open spec fn ipv4_prefix_text(bits: u32, length: u8) -> Seq<char> {
    decimal_text((bits / 0x100_0000) as nat) + seq!['.'] + decimal_text(
        (bits / 0x1_0000 % 0x100) as nat,
    ) + seq!['.'] + decimal_text((bits / 0x100 % 0x100) as nat) + seq!['.'] + decimal_text(
        (bits % 0x100) as nat,
    ) + seq!['/'] + decimal_text(length as nat)
}

/// What `ip::concrete::Prefix<Ipv6>` prints for the prefix of `length` bits
/// that `ip::concrete::Prefix::new` makes of the address `bits`.
pub uninterp spec fn ipv6_prefix_text(bits: u128, length: u8) -> Seq<char>;

/// Calls `ip::any::Prefix::from_str`, which reads an IPv4 prefix or, failing
/// that, an IPv6 prefix. The result is named by `parsed_prefix`. The length
/// that comes back is one of the address family, as `ip::PrefixLength`
/// warrants, and an IPv4 address is a number of 32 bits.
#[verifier::external_body]
fn parse_prefix(text: &str) -> (r: Result<(Afi, u128, u8), ip::Error>)
    ensures
        match r {
            Ok(found) => parsed_prefix(text@) == Some(found),
            Err(_) => parsed_prefix(text@) is None,
        },
        r matches Ok(found) ==> found.2 <= found.0.max_length() && found.1
            <= found.0.max_bits(),
{
    Ok(
        match text.parse::<ip::any::Prefix>()? {
            ip::any::Prefix::Ipv4(p) => (
                Afi::Ipv4,
                u128::from(p.prefix().into_primitive()),
                p.length().into_primitive(),
            ),
            ip::any::Prefix::Ipv6(p) => (
                Afi::Ipv6,
                p.prefix().into_primitive(),
                p.length().into_primitive(),
            ),
        },
    )
}

/// Prints an IPv4 prefix through `Display` of `ip::concrete::Prefix<Ipv4>`,
/// made by `ip::concrete::Prefix::new`, which clears the host bits of the
/// address. What is printed is the network address as four decimal octets
/// joined by `.`, then `/` and the length.
#[verifier::external_body]
fn format_ipv4_prefix(bits: u32, length: u8) -> (text: String)
    requires
        length <= 32,
    ensures
        text@ == ipv4_prefix_text(network_bits(Afi::Ipv4, bits as u128, length) as u32, length),
{
    let length = ip::concrete::PrefixLength::<ip::Ipv4>::from_primitive(length).unwrap();
    format!("{}", ip::concrete::Prefix::<ip::Ipv4>::new(ip::concrete::Address::new(bits), length))
}

/// Prints an IPv6 prefix through `Display` of `ip::concrete::Prefix<Ipv6>`,
/// made by `ip::concrete::Prefix::new`. The result is named by
/// `ipv6_prefix_text`.
#[verifier::external_body]
fn format_ipv6_prefix(bits: u128, length: u8) -> (text: String)
    requires
        length <= 128,
    ensures
        text@ == ipv6_prefix_text(bits, length),
{
    let length = ip::concrete::PrefixLength::<ip::Ipv6>::from_primitive(length).unwrap();
    format!("{}", ip::concrete::Prefix::<ip::Ipv6>::new(ip::concrete::Address::new(bits), length))
}

/// The value of a decimal digit.
pub open spec fn digit_value(c: char) -> Option<nat> {
    if c == '0' {
        Some(0)
    } else if c == '1' {
        Some(1)
    } else if c == '2' {
        Some(2)
    } else if c == '3' {
        Some(3)
    } else if c == '4' {
        Some(4)
    } else if c == '5' {
        Some(5)
    } else if c == '6' {
        Some(6)
    } else if c == '7' {
        Some(7)
    } else if c == '8' {
        Some(8)
    } else if c == '9' {
        Some(9)
    } else {
        None
    }
}

/// The number that a run of decimal digits stands for; `None` where one of
/// the characters is no digit.
pub open spec fn digits_value(s: Seq<char>) -> Option<nat>
    decreases s.len(),
{
    if s.len() == 0 {
        Some(0)
    } else {
        match (digits_value(s.drop_last()), digit_value(s.last())) {
            (Some(v), Some(d)) => Some(v * 10 + d),
            _ => None,
        }
    }
}

/// The number from 0 to 255 that a text stands for: an optional `+`, then
/// one or more decimal digits.
pub open spec fn decimal_u8(s: Seq<char>) -> Option<u8> {
    let digits = if s.len() > 0 && s[0] == '+' {
        s.skip(1)
    } else {
        s
    };
    if digits.len() == 0 {
        None
    } else {
        match digits_value(digits) {
            Some(v) => if v <= 255 {
                Some(v as u8)
            } else {
                None
            },
            None => None,
        }
    }
}

/// The number of characters of a text before its first `-`, or of the whole
/// text where it has none.
pub open spec fn before_dash(s: Seq<char>) -> int
    decreases s.len(),
{
    if s.len() == 0 || s[0] == '-' {
        0
    } else {
        1 + before_dash(s.skip(1))
    }
}

/// What comes before the first `-` of a line: the text of the prefix.
pub open spec fn prefix_part(s: Seq<char>) -> Seq<char> {
    s.take(before_dash(s))
}

/// What comes after the first `-` of a line, if it has one: the text of the
/// maximum length.
pub open spec fn max_length_part(s: Seq<char>) -> Option<Seq<char>> {
    if before_dash(s) == s.len() {
        None
    } else {
        Some(s.skip(before_dash(s) + 1))
    }
}

/// The item made of a prefix and of the text of a maximum length, if there is
/// one, or why there is none: the text is no number from 0 to 255, the number
/// is no prefix length of the prefix's address family, or it is less than the
/// length of the prefix.
pub open spec fn record_with_text(prefix: PrefixModel, max_length: Option<Seq<char>>) -> Result<
    RangeModel,
    RoaError,
> {
    match max_length {
        None => make_record(prefix, None),
        Some(text) => match decimal_u8(text) {
            None => Err(RoaError::ParseError),
            Some(l) => if l <= prefix.afi.max_length() {
                make_record(prefix, Some(l))
            } else {
                Err(RoaError::ParseError)
            },
        },
    }
}

/// The item that a line stands for, or why it stands for none. What comes
/// before the first `-` is the prefix; what comes after it, if there is a
/// `-`, is the maximum length.
pub open spec fn parse_record(s: Seq<char>) -> Result<RangeModel, RoaError> {
    match parsed_prefix(prefix_part(s)) {
        None => Err(RoaError::ParseError),
        Some((afi, bits, length)) => record_with_text(
            PrefixModel { afi, bits: network_bits(afi, bits, length), length },
            max_length_part(s),
        ),
    }
}

/// The text that `ip` prints for a prefix.
pub open spec fn prefix_text(prefix: PrefixModel) -> Seq<char> {
    match prefix.afi {
        Afi::Ipv4 => ipv4_prefix_text(prefix.bits as u32, prefix.length),
        Afi::Ipv6 => ipv6_prefix_text(prefix.bits, prefix.length),
    }
}

/// The character of a decimal digit.
pub open spec fn digit_char(d: nat) -> char {
    if d == 0 {
        '0'
    } else if d == 1 {
        '1'
    } else if d == 2 {
        '2'
    } else if d == 3 {
        '3'
    } else if d == 4 {
        '4'
    } else if d == 5 {
        '5'
    } else if d == 6 {
        '6'
    } else if d == 7 {
        '7'
    } else if d == 8 {
        '8'
    } else {
        '9'
    }
}

/// A number in decimal digits, without leading zeros.
pub open spec fn decimal_text(n: nat) -> Seq<char>
    decreases n,
{
    if n < 10 {
        seq![digit_char(n)]
    } else {
        decimal_text(n / 10).push(digit_char(n % 10))
    }
}

/// What the canonical text says of a maximum length: `-` and the maximum
/// length where that is greater than the length of the prefix, and else
/// nothing.
pub open spec fn max_length_text(max_length: MaxLength) -> Seq<char> {
    match max_length {
        MaxLength::Explicit(l) => seq!['-'] + decimal_text(l as nat),
        _ => Seq::empty(),
    }
}

/// The canonical text of an item: the prefix alone, or the prefix, `-` and
/// the maximum length where that is greater than the length of the prefix.
pub open spec fn canonical_text(range: RangeModel) -> Seq<char> {
    prefix_text(range.prefix) + max_length_text(range.max_length)
}

/// Where the first `i` characters are no `-` and the next one is, or the text
/// ends there, `i` characters come before the first `-`.
pub proof fn lemma_before_dash(s: Seq<char>, i: int)
    requires
        0 <= i <= s.len(),
        forall|j: int| 0 <= j < i ==> s[j] != '-',
        i < s.len() ==> s[i] == '-',
    ensures
        before_dash(s) == i,
    decreases i,
{
    if i > 0 {
        let rest = s.skip(1);
        assert forall|j: int| 0 <= j < i - 1 implies rest[j] != '-' by {
            assert(rest[j] == s[j + 1]);
        }
        lemma_before_dash(rest, i - 1);
    }
}

/// A run of digits that starts with a run that stands for more than 255 does
/// not stand for less.
proof fn lemma_digits_value_grows(s: Seq<char>, k: int)
    requires
        0 <= k <= s.len(),
        digits_value(s.take(k)) matches Some(v) && v > 255,
    ensures
        digits_value(s) matches Some(v) ==> v > 255,
    decreases s.len() - k,
{
    if k == s.len() {
        assert(s.take(k) =~= s);
    } else {
        assert(s.take(k + 1).drop_last() =~= s.take(k));
        if digits_value(s.take(k + 1)) is Some {
            lemma_digits_value_grows(s, k + 1);
        } else {
            lemma_digits_value_none(s, k + 1);
        }
    }
}

/// A run of characters that starts with a run that holds a character that is
/// no digit holds one too.
proof fn lemma_digits_value_none(s: Seq<char>, k: int)
    requires
        0 <= k <= s.len(),
        digits_value(s.take(k)) is None,
    ensures
        digits_value(s) is None,
    decreases s.len() - k,
{
    if k == s.len() {
        assert(s.take(k) =~= s);
    } else {
        assert(s.take(k + 1).drop_last() =~= s.take(k));
        lemma_digits_value_none(s, k + 1);
    }
}

/// The value of a character as a decimal digit.
fn read_digit(c: char) -> (r: Option<u8>)
    ensures
        match r {
            Some(d) => digit_value(c) == Some(d as nat),
            None => digit_value(c) is None,
        },
{
    if c == '0' {
        Some(0)
    } else if c == '1' {
        Some(1)
    } else if c == '2' {
        Some(2)
    } else if c == '3' {
        Some(3)
    } else if c == '4' {
        Some(4)
    } else if c == '5' {
        Some(5)
    } else if c == '6' {
        Some(6)
    } else if c == '7' {
        Some(7)
    } else if c == '8' {
        Some(8)
    } else if c == '9' {
        Some(9)
    } else {
        None
    }
}

/// Reads a number from 0 to 255: an optional `+`, then decimal digits.
pub fn parse_decimal_u8(text: &str) -> (r: Option<u8>)
    ensures
        r == decimal_u8(text@),
{
    let n: usize = text.unicode_len();
    let start: usize = if n > 0 && text.get_char(0) == '+' {
        1
    } else {
        0
    };
    if start == n {
        return None;
    }
    let ghost digits = text@.skip(start as int);
    let mut value: u8 = 0;
    let mut i: usize = start;
    proof {
        assert(digits.take(0) =~= Seq::<char>::empty());
        assert(text@.skip(0) =~= text@);
    }
    while i < n
        invariant
            start <= i <= n,
            start < n,
            n == text@.len(),
            digits == (if text@.len() > 0 && text@[0] == '+' {
                text@.skip(1)
            } else {
                text@
            }),
            digits.len() == n - start,
            forall|j: int| 0 <= j < digits.len() ==> digits[j] == text@[j + start],
            digits_value(digits.take(i - start)) == Some(value as nat),
        decreases n - i,
    {
        proof {
            assert(digits.take(i + 1 - start).drop_last() =~= digits.take(i - start));
            assert(digits.take(i + 1 - start).last() == text@[i as int]);
        }
        match read_digit(text.get_char(i)) {
            None => {
                proof {
                    lemma_digits_value_none(digits, i + 1 - start);
                }
                return None;
            },
            Some(d) => {
                if value > 25 || (value == 25 && d > 5) {
                    proof {
                        assert(digits_value(digits.take(i + 1 - start)) == Some(
                            (value * 10 + d) as nat,
                        ));
                        lemma_digits_value_grows(digits, i + 1 - start);
                    }
                    return None;
                }
                value = value * 10 + d;
            },
        }
        i += 1;
    }
    proof {
        assert(digits.take(n - start) =~= digits);
    }
    Some(value)
}

/// Splits a line at its first `-`: what comes before it, and what comes
/// after it if there is one.
pub fn split_line<'a>(input: &'a str) -> (parts: (&'a str, Option<&'a str>))
    ensures
        parts.0@ == prefix_part(input@),
        match parts.1 {
            Some(text) => max_length_part(input@) == Some(text@),
            None => max_length_part(input@) is None,
        },
{
    let n: usize = input.unicode_len();
    let mut split: usize = 0;
    while split < n && input.get_char(split) != '-'
        invariant
            0 <= split <= n,
            n == input@.len(),
            forall|j: int| 0 <= j < split ==> input@[j] != '-',
        decreases n - split,
    {
        split += 1;
    }
    proof {
        lemma_before_dash(input@, split as int);
    }
    let raw_prefix = input.substring_char(0, split);
    assert(raw_prefix@ =~= input@.take(split as int));
    if split == n {
        (raw_prefix, None)
    } else {
        let raw_len = input.substring_char(split + 1, n);
        assert(raw_len@ =~= input@.skip(split + 1));
        (raw_prefix, Some(raw_len))
    }
}

impl RoaPrefixRange {
    /// Makes an item of a prefix and of the text of a maximum length, if
    /// there is one.
    pub fn with_max_length(prefix: Prefix, max_length: Option<&str>) -> (r: Result<
        RoaPrefixRange,
        RoaError,
    >)
        ensures
            match r {
                Ok(range) => record_with_text(
                    prefix@,
                    match max_length {
                        Some(text) => Some(text@),
                        None => None,
                    },
                ) == Ok::<RangeModel, RoaError>(range@),
                Err(e) => record_with_text(
                    prefix@,
                    match max_length {
                        Some(text) => Some(text@),
                        None => None,
                    },
                ) == Err::<RangeModel, RoaError>(e),
            },
    {
        match max_length {
            None => RoaPrefixRange::new(prefix, None),
            Some(text) => match parse_decimal_u8(text) {
                None => Err(RoaError::ParseError),
                Some(l) => {
                    if l <= prefix.afi().max_length() {
                        RoaPrefixRange::new(prefix, Some(l))
                    } else {
                        Err(RoaError::ParseError)
                    }
                },
            },
        }
    }

    /// Reads an item from a line of text: `PREFIX` or `PREFIX-MAXLEN`.
    pub fn from_str(input: &str) -> (r: Result<RoaPrefixRange, RoaError>)
        ensures
            match r {
                Ok(range) => parse_record(input@) == Ok::<RangeModel, RoaError>(range@),
                Err(e) => parse_record(input@) == Err::<RangeModel, RoaError>(e),
            },
    {
        let (raw_prefix, raw_len) = split_line(input);
        match parse_prefix(raw_prefix) {
            Ok((afi, bits, length)) => RoaPrefixRange::with_max_length(
                Prefix::new(afi, bits, length),
                raw_len,
            ),
            Err(_) => Err(RoaError::ParseError),
        }
    }
}

impl core::str::FromStr for RoaPrefixRange {
    type Err = RoaError;

    /// Reads an item from a line of text, as the function of the same name
    /// of the type does.
    fn from_str(input: &str) -> (r: Result<RoaPrefixRange, RoaError>)
        ensures
            match r {
                Ok(range) => parse_record(input@) == Ok::<RangeModel, RoaError>(range@),
                Err(e) => parse_record(input@) == Err::<RangeModel, RoaError>(e),
            },
    {
        RoaPrefixRange::from_str(input)
    }
}

/// The text of a decimal digit.
fn digit_str(d: u8) -> (s: &'static str)
    requires
        d < 10,
    ensures
        s@ == seq![digit_char(d as nat)],
{
    proof {
        reveal_strlit("0");
        reveal_strlit("1");
        reveal_strlit("2");
        reveal_strlit("3");
        reveal_strlit("4");
        reveal_strlit("5");
        reveal_strlit("6");
        reveal_strlit("7");
        reveal_strlit("8");
        reveal_strlit("9");
    }
    let s = if d == 0 {
        "0"
    } else if d == 1 {
        "1"
    } else if d == 2 {
        "2"
    } else if d == 3 {
        "3"
    } else if d == 4 {
        "4"
    } else if d == 5 {
        "5"
    } else if d == 6 {
        "6"
    } else if d == 7 {
        "7"
    } else if d == 8 {
        "8"
    } else {
        "9"
    };
    assert(s@ =~= seq![digit_char(d as nat)]);
    s
}

/// Writes a number in decimal digits.
pub fn decimal_string(n: u8) -> (text: String)
    ensures
        text@ == decimal_text(n as nat),
{
    proof {
        reveal_with_fuel(decimal_text, 3);
    }
    if n < 10 {
        String::from_str(digit_str(n))
    } else if n < 100 {
        let mut text = String::from_str(digit_str(n / 10));
        text.append(digit_str(n % 10));
        assert(text@ =~= decimal_text(n as nat));
        text
    } else {
        let mut text = String::from_str(digit_str(n / 100));
        text.append(digit_str(n / 10 % 10));
        text.append(digit_str(n % 10));
        assert(text@ =~= decimal_text(n as nat));
        text
    }
}

/// Adds to a text what the canonical text says of a maximum length.
pub fn append_max_length(text: String, max_length: MaxLength) -> (whole: String)
    ensures
        whole@ == text@ + max_length_text(max_length),
{
    let mut whole = text;
    match max_length {
        MaxLength::Explicit(l) => {
            proof {
                reveal_strlit("-");
                assert("-"@ =~= seq!['-']);
                assert(text@ + seq!['-'] + decimal_text(l as nat) =~= text@ + (seq!['-']
                    + decimal_text(l as nat)));
            }
            whole.append("-");
            whole.append(decimal_string(l).as_str());
        },
        _ => {
            assert(text@ + Seq::<char>::empty() =~= text@);
        },
    }
    whole
}

impl RoaPrefixRange {
    /// The canonical text of the item.
    pub fn to_string(&self) -> (text: String)
        ensures
            text@ == canonical_text(self@),
    {
        let prefix = self.prefix();
        let printed = match prefix.afi() {
            Afi::Ipv4 => format_ipv4_prefix(prefix.bits() as u32, prefix.length()),
            Afi::Ipv6 => format_ipv6_prefix(prefix.bits(), prefix.length()),
        };
        append_max_length(printed, self.max_length())
    }
}

/// The texts of some lines.
pub open spec fn line_texts(lines: Seq<&str>) -> Seq<Seq<char>> {
    Seq::new(lines.len(), |i: int| lines[i]@)
}

/// The items that some lines stand for, in their order, or the error of the
/// first line that stands for none.
pub open spec fn parse_records(lines: Seq<Seq<char>>) -> Result<Seq<RangeModel>, RoaError>
    decreases lines.len(),
{
    if lines.len() == 0 {
        Ok(Seq::empty())
    } else {
        match parse_records(lines.drop_last()) {
            Err(e) => Err(e),
            Ok(records) => match parse_record(lines.last()) {
                Err(e) => Err(e),
                Ok(record) => Ok(records.push(record)),
            },
        }
    }
}

/// An error among the first `k` lines is the error of all the lines.
proof fn lemma_parse_records_error(lines: Seq<Seq<char>>, k: int, e: RoaError)
    requires
        0 <= k <= lines.len(),
        parse_records(lines.take(k)) == Err::<Seq<RangeModel>, RoaError>(e),
    ensures
        parse_records(lines) == Err::<Seq<RangeModel>, RoaError>(e),
    decreases lines.len() - k,
{
    if k == lines.len() {
        assert(lines.take(k) =~= lines);
    } else {
        assert(lines.take(k + 1).drop_last() =~= lines.take(k));
        lemma_parse_records_error(lines, k + 1, e);
    }
}

impl RoaPrefixRanges {
    /// Reads one item from each line and collects them into canonical order.
    /// The place of an item is the position of its line, counted from 0. The
    /// first line that stands for no item ends the work with its error.
    pub fn from_text(lines: &[&str]) -> (r: Result<RoaPrefixRanges, RoaError>)
        ensures
            collected(r, parse_records(line_texts(lines@))),
    {
        let ghost texts = line_texts(lines@);
        let mut ranges: Vec<RoaPrefixRange> = Vec::new();
        let mut i: usize = 0;
        proof {
            assert(range_models(ranges@) =~= Seq::<RangeModel>::empty());
            assert(texts.take(0) =~= Seq::<Seq<char>>::empty());
        }
        while i < lines.len()
            invariant
                0 <= i <= lines@.len(),
                texts == line_texts(lines@),
                parse_records(texts.take(i as int)) == Ok::<Seq<RangeModel>, RoaError>(
                    range_models(ranges@),
                ),
            decreases lines@.len() - i,
        {
            proof {
                assert(texts.take(i + 1).drop_last() =~= texts.take(i as int));
                assert(texts.take(i + 1).last() == lines@[i as int]@);
            }
            match RoaPrefixRange::from_str(lines[i]) {
                Ok(range) => {
                    proof {
                        assert(range_models(ranges@.push(range)) =~= range_models(ranges@).push(
                            range@,
                        ));
                    }
                    ranges.push(range);
                },
                Err(e) => {
                    proof {
                        lemma_parse_records_error(texts, i + 1, e);
                    }
                    return Err(e);
                },
            }
            i += 1;
        }
        proof {
            assert(texts.take(texts.len() as int) =~= texts);
        }
        Ok(RoaPrefixRanges::from_iter(ranges))
    }
}

/// The digits of a number stand for that number.
pub proof fn lemma_decimal_text(n: nat)
    ensures
        decimal_text(n).len() >= 1,
        digits_value(decimal_text(n)) == Some(n),
        forall|i: int|
            0 <= i < decimal_text(n).len() ==> digit_value(#[trigger] decimal_text(n)[i]) is Some,
    decreases n,
{
    let text = decimal_text(n);
    if n < 10 {
        assert(text.drop_last() =~= Seq::<char>::empty());
        assert(digits_value(text.drop_last()) == Some(0nat));
        assert(text.last() == digit_char(n));
    } else {
        lemma_decimal_text(n / 10);
        assert(text.drop_last() =~= decimal_text(n / 10));
        assert(text.last() == digit_char(n % 10));
        assert forall|i: int| 0 <= i < text.len() implies digit_value(#[trigger] text[i]) is Some by {
            if i < text.len() - 1 {
                assert(text[i] == decimal_text(n / 10)[i]);
            }
        }
    }
}

/// A number from 0 to 255 is read back from its decimal digits.
pub proof fn lemma_decimal_round_trip(n: u8)
    ensures
        decimal_u8(decimal_text(n as nat)) == Some(n),
{
    lemma_decimal_text(n as nat);
    let text = decimal_text(n as nat);
    assert(digit_value(text[0]) is Some);
}

/// The prefix is read back from the text that is printed for it, and that
/// text holds no `-`. This is a matter of the `ip` crate alone.
pub open spec fn reads_back(prefix: PrefixModel) -> bool {
    &&& parsed_prefix(prefix_text(prefix)) == Some((prefix.afi, prefix.bits, prefix.length))
    &&& forall|i: int| 0 <= i < prefix_text(prefix).len() ==> prefix_text(prefix)[i] != '-'
}

/// Where the prefix of an item is read back from its text, the item that
/// is read from the canonical text of the item is equivalent to it.
pub proof fn lemma_round_trip_where_prefix_reads_back(range: RangeModel)
    requires
        range.wf(),
    ensures
        reads_back(range.prefix) ==> (parse_record(canonical_text(range)) matches Ok(back)
            && back.equivalent(range)),
{
    if reads_back(range.prefix) {
        let printed = prefix_text(range.prefix);
        let text = canonical_text(range);
        let split = printed.len() as int;
        lemma_order_total(range, range);
        match range.max_length {
            MaxLength::Explicit(l) => {
                let number = decimal_text(l as nat);
                assert(text =~= printed + seq!['-'] + number);
                assert forall|j: int| 0 <= j < split implies text[j] != '-' by {
                    assert(text[j] == printed[j]);
                }
                assert(text[split] == '-');
                lemma_before_dash(text, split);
                assert(prefix_part(text) =~= printed);
                assert(text.skip(split + 1) =~= number);
                lemma_decimal_round_trip(l);
            },
            _ => {
                assert(text =~= printed);
                lemma_before_dash(text, split);
                assert(prefix_part(text) =~= printed);
            },
        }
    }
}

/// A run of characters that holds a character that is no digit stands for
/// no number.
pub proof fn lemma_digits_value_of_other(s: Seq<char>, i: int)
    requires
        0 <= i < s.len(),
        digit_value(s[i]) is None,
    ensures
        digits_value(s) is None,
    decreases s.len(),
{
    if i < s.len() - 1 {
        assert(s.drop_last()[i] == s[i]);
        lemma_digits_value_of_other(s.drop_last(), i);
    }
}

/// The first `-` of a text, if it has one, stands after as many characters
/// as come before the first `-`, and none of these is a `-`.
pub proof fn lemma_first_dash(s: Seq<char>)
    ensures
        0 <= before_dash(s) <= s.len(),
        before_dash(s) < s.len() ==> s[before_dash(s)] == '-',
        forall|j: int| 0 <= j < before_dash(s) ==> s[j] != '-',
    decreases s.len(),
{
    if s.len() == 0 || s[0] == '-' {
    } else {
        let rest = s.skip(1);
        lemma_first_dash(rest);
        assert forall|j: int| 0 <= j < before_dash(s) implies s[j] != '-' by {
            if j > 0 {
                assert(s[j] == rest[j - 1]);
            }
        }
        if before_dash(s) < s.len() {
            assert(s[before_dash(s)] == rest[before_dash(rest)]);
        }
    }
}

/// A line with a second `-` stands for no item: the maximum length is what
/// comes after the first `-`, and no number holds a `-`.
pub proof fn lemma_second_dash_is_refused(s: Seq<char>, i: int)
    requires
        before_dash(s) < i < s.len(),
        s[i] == '-',
    ensures
        parse_record(s) == Err::<RangeModel, RoaError>(RoaError::ParseError),
{
    lemma_first_dash(s);
    let split = before_dash(s);
    let text = s.skip(split + 1);
    assert(text[i - split - 1] == '-');
    let digits = if text[0] == '+' {
        text.skip(1)
    } else {
        text
    };
    if text[0] == '+' {
        assert(digits[i - split - 2] == '-');
        lemma_digits_value_of_other(digits, i - split - 2);
    } else {
        lemma_digits_value_of_other(digits, i - split - 1);
    }
    assert(decimal_u8(text) is None);
}

} // verus!
