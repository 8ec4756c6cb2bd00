//! The framing of DER: identifier, length and contents octets, and the
//! contents of the primitive types that a ROA is made of.

use vstd::prelude::*;
use vstd::slice::slice_subrange;

verus! {

/// The identifier octet of a SEQUENCE.
pub const TAG_SEQUENCE: u8 = 0x30;

/// The identifier octet of an INTEGER.
pub const TAG_INTEGER: u8 = 0x02;

/// The identifier octet of a BIT STRING.
pub const TAG_BIT_STRING: u8 = 0x03;

/// The identifier octet of an OCTET STRING.
pub const TAG_OCTET_STRING: u8 = 0x04;

/// The identifier octet of the explicit context tag 0.
pub const TAG_CONTEXT_0: u8 = 0xa0;

/// The number that octets hold, the most significant octet first.
pub open spec fn big_endian(octets: Seq<u8>) -> nat
    decreases octets.len(),
{
    if octets.len() == 0 {
        0
    } else {
        big_endian(octets.drop_last()) * 256 + octets.last() as nat
    }
}

/// What the length octets at the start of `s` say: the length of the
/// contents, and how many octets say so. DER has one way to write a length:
/// in one octet where it is less than 128, and else in the fewest octets that
/// hold it, after an octet that counts them.
pub open spec fn length_octets(s: Seq<u8>) -> Option<(int, int)> {
    if s.len() == 0 {
        None
    } else if s[0] < 0x80 {
        Some((s[0] as int, 1int))
    } else if s[0] == 0x80 || s[0] == 0xff {
        None
    } else {
        let count = s[0] - 0x80;
        if s.len() < 1 + count {
            None
        } else {
            let length = big_endian(s.subrange(1, 1 + count)) as int;
            if s[1] == 0 || length < 0x80 {
                None
            } else {
                Some((length, 1 + count))
            }
        }
    }
}

/// One encoded value: its identifier octet, its contents, and what follows it.
pub struct Element {
    pub tag: u8,
    pub contents: Seq<u8>,
    pub rest: Seq<u8>,
}

/// The encoded value at the start of `s`, where `s` starts with an identifier
/// octet, length octets in the form of DER, and as many contents octets as
/// these say.
pub open spec fn element(s: Seq<u8>) -> Option<Element> {
    if s.len() == 0 {
        None
    } else {
        match length_octets(s.skip(1)) {
            None => None,
            Some((length, used)) => if 1 + used + length > s.len() {
                None
            } else {
                Some(
                    Element {
                        tag: s[0],
                        contents: s.subrange(1 + used, 1 + used + length),
                        rest: s.skip(1 + used + length),
                    },
                )
            },
        }
    }
}

/// The encoded value at the start of `s`, where it has the identifier `tag`.
pub open spec fn element_of(s: Seq<u8>, tag: u8) -> Option<Element> {
    match element(s) {
        Some(e) => if e.tag == tag {
            Some(e)
        } else {
            None
        },
        None => None,
    }
}

/// `contents` are the contents octets of an INTEGER in DER: at least one
/// octet, and no leading octet that only repeats the sign.
pub open spec fn is_integer(contents: Seq<u8>) -> bool {
    &&& contents.len() >= 1
    &&& contents.len() >= 2 ==> !(contents[0] == 0 && contents[1] < 0x80)
    &&& contents.len() >= 2 ==> !(contents[0] == 0xff && contents[1] >= 0x80)
}

/// The value of the INTEGER with these contents octets, where it is one from
/// 0 to `max`.
pub open spec fn unsigned_integer(contents: Seq<u8>, max: nat) -> Option<nat> {
    if is_integer(contents) && contents[0] < 0x80 && big_endian(contents) <= max {
        Some(big_endian(contents))
    } else {
        None
    }
}

/// The bits that octets hold, the first octet in the most significant place
/// of 128 bits.
pub open spec fn left_aligned(octets: Seq<u8>) -> u128
    decreases octets.len(),
{
    if octets.len() == 0 || octets.len() > 16 {
        0
    } else {
        left_aligned(octets.drop_last()) | ((octets.last() as u128) << ((128 - 8
            * octets.len()) as u128))
    }
}

/// A bit string of at most 128 bits: the bits, the first in the most
/// significant place, followed by zeros, and their number.
#[derive(Debug, Clone, Copy, PartialEq, Eq, Structural)]
pub struct BitString {
    pub bits: u128,
    pub length: u8,
}

/// The BIT STRING of at most 128 bits with these contents octets in DER: an
/// octet that says how many bits of the last octet are unused, from 0 to 7,
/// then the octets of the string, with the unused bits zero.
pub open spec fn bit_string(contents: Seq<u8>) -> Option<BitString> {
    if contents.len() == 0 || contents.len() > 17 {
        None
    } else {
        let unused = contents[0];
        let octets = contents.skip(1);
        if unused > 7 || (octets.len() == 0 && unused != 0) {
            None
        } else if octets.len() > 0 && ((octets.last() >> unused) << unused) != octets.last() {
            None
        } else {
            Some(
                BitString {
                    bits: left_aligned(octets),
                    length: (8 * octets.len() - unused) as u8,
                },
            )
        }
    }
}

/// A prefix of a run of octets holds no greater number than the run.
proof fn lemma_big_endian_prefix(octets: Seq<u8>, k: int)
    requires
        0 <= k <= octets.len(),
    ensures
        big_endian(octets.take(k)) <= big_endian(octets),
    decreases octets.len() - k,
{
    if k == octets.len() {
        assert(octets.take(k) =~= octets);
    } else {
        lemma_big_endian_prefix(octets, k + 1);
        assert(octets.take(k + 1).drop_last() =~= octets.take(k));
    }
}

/// Reads the length octets at the start of `s`. Returns the length of the
/// contents and the number of length octets, where the contents fit in what
/// follows.
fn read_length(s: &[u8]) -> (r: Option<(usize, usize)>)
    ensures
        match r {
            Some((length, used)) => length_octets(s@) == Some((length as int, used as int))
                && used + length <= s@.len(),
            None => match length_octets(s@) {
                Some((length, used)) => used + length > s@.len(),
                None => true,
            },
        },
{
    if s.len() == 0 {
        return None;
    }
    let first: u8 = s[0];
    if first < 0x80 {
        let length: usize = first as usize;
        if length > s.len() - 1 {
            return None;
        }
        return Some((length, 1));
    }
    if first == 0x80 || first == 0xff {
        return None;
    }
    let count: usize = (first - 0x80) as usize;
    if s.len() - 1 < count {
        return None;
    }
    let ghost octets = s@.subrange(1, 1 + count);
    let available: usize = s.len() - 1 - count;
    if s[1] == 0 {
        return None;
    }
    let mut length: usize = 0;
    let mut i: usize = 0;
    while i < count
        invariant
            0 <= i <= count,
            count + 1 <= s@.len(),
            octets == s@.subrange(1, 1 + count),
            length == big_endian(octets.take(i as int)),
            length <= available,
            available == s@.len() - 1 - count,
            first == s@[0],
            0x80 < first < 0xff,
            count == first - 0x80,
        decreases count - i,
    {
        let octet: u8 = s[i + 1];
        proof {
            assert(octets.take(i + 1).drop_last() =~= octets.take(i as int));
            assert(octets.take(i + 1).last() == octet);
            lemma_big_endian_prefix(octets, i + 1);
        }
        if octet as usize > available || length > (available - octet as usize) / 256 {
            return None;
        }
        length = length * 256 + octet as usize;
        i += 1;
    }
    proof {
        assert(octets.take(count as int) =~= octets);
    }
    if length < 0x80 {
        return None;
    }
    Some((length, 1 + count))
}

/// Reads the encoded value at the start of `s`: its identifier octet, its
/// contents, and what follows it.
pub fn read_element<'a>(s: &'a [u8]) -> (r: Option<(u8, &'a [u8], &'a [u8])>)
    ensures
        match r {
            Some((tag, contents, rest)) => element(s@) == Some(
                Element { tag, contents: contents@, rest: rest@ },
            ),
            None => element(s@) is None,
        },
{
    if s.len() == 0 {
        return None;
    }
    let tag: u8 = s[0];
    let after = slice_subrange(s, 1, s.len());
    assert(after@ =~= s@.skip(1));
    match read_length(after) {
        None => None,
        Some((length, used)) => {
            let contents = slice_subrange(s, 1 + used, 1 + used + length);
            let rest = slice_subrange(s, 1 + used + length, s.len());
            assert(rest@ =~= s@.skip(1 + used + length));
            Some((tag, contents, rest))
        },
    }
}

/// Reads the encoded value at the start of `s` where its identifier is `tag`.
pub fn read_element_of<'a>(s: &'a [u8], tag: u8) -> (r: Option<(&'a [u8], &'a [u8])>)
    ensures
        match r {
            Some((contents, rest)) => element_of(s@, tag) == Some(
                Element { tag, contents: contents@, rest: rest@ },
            ),
            None => element_of(s@, tag) is None,
        },
{
    match read_element(s) {
        Some((found, contents, rest)) => {
            if found == tag {
                Some((contents, rest))
            } else {
                None
            }
        },
        None => None,
    }
}

/// Whether `contents` are the contents octets of an INTEGER in DER.
pub fn check_integer(contents: &[u8]) -> (b: bool)
    ensures
        b == is_integer(contents@),
{
    if contents.len() == 0 {
        return false;
    }
    if contents.len() >= 2 {
        if contents[0] == 0 && contents[1] < 0x80 {
            return false;
        }
        if contents[0] == 0xff && contents[1] >= 0x80 {
            return false;
        }
    }
    true
}

/// Reads the contents octets of an INTEGER whose value is one from 0 to
/// `max`.
pub fn read_unsigned_integer(contents: &[u8], max: u64) -> (r: Option<u64>)
    ensures
        match r {
            Some(value) => unsigned_integer(contents@, max as nat) == Some(value as nat),
            None => unsigned_integer(contents@, max as nat) is None,
        },
{
    if !check_integer(contents) {
        return None;
    }
    if contents[0] >= 0x80 {
        return None;
    }
    let mut value: u64 = 0;
    let mut i: usize = 0;
    while i < contents.len()
        invariant
            0 <= i <= contents@.len(),
            value == big_endian(contents@.take(i as int)),
            value <= max,
            is_integer(contents@),
            contents@[0] < 0x80,
        decreases contents@.len() - i,
    {
        let octet: u8 = contents[i];
        proof {
            assert(contents@.take(i + 1).drop_last() =~= contents@.take(i as int));
            assert(contents@.take(i + 1).last() == octet);
            lemma_big_endian_prefix(contents@, i + 1);
        }
        if octet as u64 > max || value > (max - octet as u64) / 256 {
            return None;
        }
        value = value * 256 + octet as u64;
        i += 1;
    }
    proof {
        assert(contents@.take(contents@.len() as int) =~= contents@);
    }
    Some(value)
}

/// Reads the contents octets of a BIT STRING of at most 128 bits.
pub fn read_bit_string(contents: &[u8]) -> (r: Option<BitString>)
    ensures
        r == bit_string(contents@),
{
    if contents.len() == 0 || contents.len() > 17 {
        return None;
    }
    let unused: u8 = contents[0];
    let octets = slice_subrange(contents, 1, contents.len());
    assert(octets@ =~= contents@.skip(1));
    if unused > 7 || (octets.len() == 0 && unused != 0) {
        return None;
    }
    if octets.len() > 0 {
        let last: u8 = octets[octets.len() - 1];
        if ((last >> unused) << unused) != last {
            return None;
        }
    }
    let mut bits: u128 = 0;
    let mut i: usize = 0;
    while i < octets.len()
        invariant
            0 <= i <= octets@.len() <= 16,
            bits == left_aligned(octets@.take(i as int)),
        decreases octets@.len() - i,
    {
        let shift: u128 = (128 - 8 * (i + 1)) as u128;
        proof {
            assert(octets@.take(i + 1).drop_last() =~= octets@.take(i as int));
            assert(octets@.take(i + 1).last() == octets@[i as int]);
        }
        bits = bits | ((octets[i] as u128) << shift);
        i += 1;
    }
    proof {
        assert(octets@.take(octets@.len() as int) =~= octets@);
    }
    let length: u8 = (8 * octets.len() - unused as usize) as u8;
    Some(BitString { bits, length })
}

/// The octets that hold a number, the most significant first, the first of
/// them not zero; no octets for zero.
pub open spec fn octets_of(n: nat) -> Seq<u8>
    decreases n,
{
    if n == 0 {
        Seq::empty()
    } else {
        octets_of(n / 256).push((n % 256) as u8)
    }
}

/// The length octets of DER for a length: the length itself where it is less
/// than 128; else the number of the octets that hold it, with the top bit
/// set, and then these octets.
pub open spec fn length_encoding(n: nat) -> Seq<u8> {
    if n < 0x80 {
        seq![n as u8]
    } else {
        seq![(0x80 + octets_of(n).len()) as u8] + octets_of(n)
    }
}

/// The contents octets of DER for an INTEGER that is not negative: the
/// octets that hold it, after a zero octet where the first of them has its
/// top bit set; one zero octet for zero.
pub open spec fn unsigned_encoding(v: nat) -> Seq<u8> {
    if v == 0 {
        seq![0u8]
    } else if octets_of(v)[0] >= 0x80 {
        seq![0u8] + octets_of(v)
    } else {
        octets_of(v)
    }
}

/// The octets of a number hold that number, and start with an octet that is
/// not zero.
pub proof fn lemma_octets_of(n: nat)
    ensures
        big_endian(octets_of(n)) == n,
        n == 0 <==> octets_of(n).len() == 0,
        n > 0 ==> octets_of(n)[0] != 0,
    decreases n,
{
    if n > 0 {
        lemma_octets_of(n / 256);
        let init = octets_of(n / 256);
        let all = octets_of(n);
        assert(all.drop_last() =~= init);
        assert(all.last() == (n % 256) as u8);
        if n / 256 > 0 {
            assert(all[0] == init[0]);
        }
    }
}

/// Octets that start with an octet that is not zero hold a number that is
/// not zero, and are the octets of that number.
pub proof fn lemma_octets_of_big_endian(octets: Seq<u8>)
    requires
        octets.len() > 0,
        octets[0] != 0,
    ensures
        big_endian(octets) > 0,
        octets_of(big_endian(octets)) == octets,
    decreases octets.len(),
{
    let init = octets.drop_last();
    let n = big_endian(octets);
    assert(n == big_endian(init) * 256 + octets.last());
    if init.len() == 0 {
        assert(octets.last() == octets[0]);
        assert(big_endian(init) == 0);
        assert(n / 256 == 0);
        assert(octets_of(n / 256) =~= Seq::<u8>::empty());
        assert(octets_of(n) =~= octets);
    } else {
        assert(init[0] == octets[0]);
        lemma_octets_of_big_endian(init);
        assert(n / 256 == big_endian(init));
        assert(n % 256 == octets.last());
        assert(octets_of(n) =~= octets);
    }
}

/// What length octets are read as saying is what they are the length octets
/// of DER for.
proof fn lemma_length_octets_read(s: Seq<u8>, length: int, used: int)
    requires
        length_octets(s) == Some((length, used)),
    ensures
        0 <= length,
        used == length_encoding(length as nat).len(),
        used <= s.len(),
        s.take(used) == length_encoding(length as nat),
        octets_of(length as nat).len() <= 126,
{
    if s[0] < 0x80 {
        assert(s.take(1) =~= seq![s[0]]);
        assert(length == s[0]);
        assert(length_encoding(length as nat) == seq![s[0]]);
        lemma_octets_of(length as nat);
        if length > 0 {
            lemma_octets_of((length / 256) as nat);
        }
    } else {
        let count = s[0] - 0x80;
        let octets = s.subrange(1, 1 + count);
        assert(octets[0] == s[1]);
        lemma_octets_of_big_endian(octets);
        assert(length == big_endian(octets));
        assert(octets_of(length as nat) == octets);
        assert(used == 1 + count);
        assert(length_encoding(length as nat) == seq![(0x80 + count) as u8] + octets);
        assert(s.take(used) =~= seq![s[0]] + octets);
    }
}

/// The length octets of DER for a length are read as saying that length.
proof fn lemma_length_octets_written(s: Seq<u8>, length: nat)
    requires
        length_encoding(length).len() <= s.len(),
        s.take(length_encoding(length).len() as int) == length_encoding(length),
        octets_of(length).len() <= 126,
    ensures
        length_octets(s) == Some((length as int, length_encoding(length).len() as int)),
{
    let encoding = length_encoding(length);
    let used = encoding.len() as int;
    lemma_octets_of(length);
    assert(s[0] == s.take(used)[0]);
    if length >= 0x80 {
        let octets = octets_of(length);
        let count = octets.len() as int;
        assert(encoding[0] == (0x80 + count) as u8);
        assert(s[0] - 0x80 == count);
        assert(s.subrange(1, 1 + count) =~= octets) by {
            assert forall|i: int| 0 <= i < count implies s.subrange(1, 1 + count)[i]
                == octets[i] by {
                assert(s[i + 1] == s.take(used)[i + 1]);
                assert(encoding[i + 1] == octets[i]);
            }
        }
        assert(s[1] == s.take(used)[1]);
        assert(encoding[1] == octets[0]);
    }
}

/// Length octets are read as saying a length exactly where they are the
/// length octets of DER for that length.
pub proof fn lemma_length_octets(s: Seq<u8>, length: int, used: int)
    ensures
        length_octets(s) == Some((length, used)) <==> {
            &&& 0 <= length
            &&& used == length_encoding(length as nat).len()
            &&& used <= s.len()
            &&& s.take(used) == length_encoding(length as nat)
            &&& octets_of(length as nat).len() <= 126
        },
{
    if length_octets(s) == Some((length, used)) {
        lemma_length_octets_read(s, length, used);
    }
    if 0 <= length && used == length_encoding(length as nat).len() && used <= s.len() && s.take(
        used,
    ) == length_encoding(length as nat) && octets_of(length as nat).len() <= 126 {
        lemma_length_octets_written(s, length as nat);
    }
}

/// An encoded value is read at the start of octets exactly where these are
/// its identifier octet, the length octets of DER for its contents, its
/// contents, and what follows it.
pub proof fn lemma_element(s: Seq<u8>, e: Element)
    ensures
        element(s) == Some(e) <==> {
            &&& s == seq![e.tag] + length_encoding(e.contents.len()) + e.contents + e.rest
            &&& octets_of(e.contents.len()).len() <= 126
        },
{
    let n = e.contents.len();
    let encoding = length_encoding(n);
    let whole = seq![e.tag] + encoding + e.contents + e.rest;
    lemma_octets_of(n);
    if element(s) == Some(e) {
        let (length, used) = length_octets(s.skip(1)).unwrap();
        lemma_length_octets(s.skip(1), length, used);
        assert(length == n);
        assert(s.skip(1).take(used) == encoding);
        assert(s =~= whole) by {
            assert(s.len() == whole.len());
            assert forall|i: int| 0 <= i < s.len() implies s[i] == whole[i] by {
                if 1 <= i < 1 + used {
                    assert(s[i] == s.skip(1).take(used)[i - 1]);
                } else if 1 + used <= i < 1 + used + n {
                    assert(s[i] == e.contents[i - 1 - used]);
                } else if i >= 1 + used + n {
                    assert(s[i] == e.rest[i - 1 - used - n]);
                }
            }
        }
    }
    if s == whole && octets_of(n).len() <= 126 {
        let used = encoding.len() as int;
        assert(s.skip(1).take(used) =~= encoding);
        lemma_length_octets(s.skip(1), n as int, used);
        assert(s.subrange(1 + used, 1 + used + n) =~= e.contents);
        assert(s.skip(1 + used + n) =~= e.rest);
    }
}

/// Contents octets are read as an INTEGER from 0 to `max` exactly where they
/// are the contents octets of DER for such a number.
pub proof fn lemma_unsigned_integer(contents: Seq<u8>, max: nat, value: nat)
    ensures
        unsigned_integer(contents, max) == Some(value) <==> value <= max && contents
            == unsigned_encoding(value),
{
    lemma_octets_of(value);
    if unsigned_integer(contents, max) == Some(value) {
        if contents.len() == 1 {
            assert(contents.drop_last() =~= Seq::<u8>::empty());
            assert(big_endian(contents.drop_last()) == 0);
            if contents[0] != 0 {
                lemma_octets_of_big_endian(contents);
            } else {
                assert(contents =~= seq![0u8]);
            }
        } else if contents[0] == 0 {
            let rest = contents.skip(1);
            assert(rest[0] == contents[1]);
            lemma_octets_of_big_endian(rest);
            lemma_leading_zero(rest);
            assert(seq![0u8] + rest =~= contents);
        } else {
            lemma_octets_of_big_endian(contents);
        }
    }
    if value <= max && contents == unsigned_encoding(value) {
        if value == 0 {
            assert(contents.drop_last() =~= Seq::<u8>::empty());
            assert(big_endian(contents.drop_last()) == 0);
        } else if octets_of(value)[0] >= 0x80 {
            lemma_leading_zero(octets_of(value));
            assert(contents[1] == octets_of(value)[0]);
        } else {
            if contents.len() >= 2 {
                assert(contents[0] != 0);
            }
        }
    }
}

/// A zero octet before octets does not change the number that they hold.
proof fn lemma_leading_zero(octets: Seq<u8>)
    ensures
        big_endian(seq![0u8] + octets) == big_endian(octets),
    decreases octets.len(),
{
    let longer = seq![0u8] + octets;
    if octets.len() == 0 {
        assert(longer.drop_last() =~= Seq::<u8>::empty());
        assert(big_endian(longer.drop_last()) == 0);
    } else {
        lemma_leading_zero(octets.drop_last());
        assert(longer.drop_last() =~= seq![0u8] + octets.drop_last());
        assert(longer.last() == octets.last());
    }
}

/// The last `low` bits of `bits` are zero.
pub open spec fn low_bits_zero(bits: u128, low: int) -> bool {
    if low <= 0 {
        true
    } else if low >= 128 {
        bits == 0
    } else {
        (bits >> (low as u128)) << (low as u128) == bits
    }
}

/// Octets leave the bits after them zero.
proof fn lemma_left_aligned_low_bits(octets: Seq<u8>)
    requires
        octets.len() <= 16,
    ensures
        low_bits_zero(left_aligned(octets), 128 - 8 * octets.len()),
    decreases octets.len(),
{
    if octets.len() > 0 {
        let init = octets.drop_last();
        lemma_left_aligned_low_bits(init);
        let before: u128 = left_aligned(init);
        let last: u128 = octets.last() as u128;
        let shift: u128 = (128 - 8 * octets.len()) as u128;
        if octets.len() == 1 {
            assert(before == 0);
            assert((((0u128 | (last << shift)) >> shift) << shift) == (0u128 | (last << shift)))
                by (bit_vector)
                requires
                    shift == 120,
            ;
        } else {
            assert((((before | (last << shift)) >> shift) << shift) == (before | (last << shift)))
                by (bit_vector)
                requires
                    shift <= 112,
                    (before >> ((shift + 8) as u128)) << ((shift + 8) as u128) == before,
            ;
        }
    }
}

/// A bit string that is read holds at most 128 bits, and zeros after them.
pub proof fn lemma_bit_string_is_padded(contents: Seq<u8>)
    ensures
        bit_string(contents) matches Some(string) ==> string.length <= 128 && low_bits_zero(
            string.bits,
            128 - string.length,
        ),
{
    if let Some(string) = bit_string(contents) {
        let unused: u128 = contents[0] as u128;
        let octets = contents.skip(1);
        lemma_left_aligned_low_bits(octets);
        if octets.len() > 0 {
            let init = octets.drop_last();
            lemma_left_aligned_low_bits(init);
            let before: u128 = left_aligned(init);
            let last: u8 = octets.last();
            let wide: u128 = last as u128;
            let unused8: u8 = contents[0];
            let shift: u128 = (128 - 8 * octets.len()) as u128;
            let low: u128 = (shift + unused) as u128;
            assert(((wide >> unused) << unused) == wide) by (bit_vector)
                requires
                    ((last >> unused8) << unused8) == last,
                    wide == last as u128,
                    unused == unused8 as u128,
                    unused8 <= 7,
            ;
            let moved: u128 = wide << shift;
            assert(((moved >> low) << low) == moved) by (bit_vector)
                requires
                    moved == wide << shift,
                    shift <= 120,
                    unused <= 7,
                    low == shift + unused,
                    wide < 256,
                    ((wide >> unused) << unused) == wide,
            ;
            if octets.len() == 1 {
                assert(before == 0);
                assert((0u128 | moved) == moved) by (bit_vector);
            } else {
                let high: u128 = (shift + 8) as u128;
                assert(((before >> low) << low) == before) by (bit_vector)
                    requires
                        low <= high,
                        high <= 120,
                        (before >> high) << high == before,
                ;
                let mask: u128 = !(0xffff_ffff_ffff_ffff_ffff_ffff_ffff_ffffu128 << low);
                assert((before & mask) == 0) by (bit_vector)
                    requires
                        low < 128,
                        mask == !(0xffff_ffff_ffff_ffff_ffff_ffff_ffff_ffffu128 << low),
                        ((before >> low) << low) == before,
                ;
                assert((moved & mask) == 0) by (bit_vector)
                    requires
                        low < 128,
                        mask == !(0xffff_ffff_ffff_ffff_ffff_ffff_ffff_ffffu128 << low),
                        ((moved >> low) << low) == moved,
                ;
                assert(((before | moved) & mask) == 0) by (bit_vector)
                    requires
                        (before & mask) == 0,
                        (moved & mask) == 0,
                ;
                let joined: u128 = before | moved;
                assert(((joined >> low) << low) == joined) by (bit_vector)
                    requires
                        low < 128,
                        mask == !(0xffff_ffff_ffff_ffff_ffff_ffff_ffff_ffffu128 << low),
                        (joined & mask) == 0,
                ;
            }
        }
    }
}

} // verus!
