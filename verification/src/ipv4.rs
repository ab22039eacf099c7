//! IPv4 addresses as plain 32-bit values: dotted-decimal text, parsing of
//! canonical dotted-decimal text, and inference of a subnet mask from a
//! network/broadcast address pair by searching prefix lengths from the most
//! specific down.

use vstd::prelude::*;

verus! {

// ---------------------------------------------------------------------------
// Dotted-decimal text
// ---------------------------------------------------------------------------

/// The character for one decimal digit.
pub open spec fn dec_digit_char(v: int) -> char
    recommends
        0 <= v < 10,
{
    ((v + 48) as u8) as char
}

/// The decimal text of one octet, without leading zeros.
pub open spec fn octet_text(v: int) -> Seq<char>
    recommends
        0 <= v < 256,
{
    if v < 10 {
        seq![dec_digit_char(v)]
    } else if v < 100 {
        seq![dec_digit_char(v / 10), dec_digit_char(v % 10)]
    } else {
        seq![dec_digit_char(v / 100), dec_digit_char((v / 10) % 10), dec_digit_char(v % 10)]
    }
}

/// The dotted-decimal text of an IPv4 address given as four octets.
pub open spec fn ipv4_text(a: int, b: int, c: int, d: int) -> Seq<char>
    recommends
        0 <= a < 256 && 0 <= b < 256 && 0 <= c < 256 && 0 <= d < 256,
{
    octet_text(a) + seq!['.'] + octet_text(b) + seq!['.'] + octet_text(c) + seq!['.'] + octet_text(
        d,
    )
}

/// The dotted-decimal text of an IPv4 address given as one 32-bit value.
pub open spec fn u32_ipv4_text(m: u32) -> Seq<char> {
    ipv4_text((m >> 24) as int, ((m >> 16) & 0xFF) as int, ((m >> 8) & 0xFF) as int, (
    m & 0xFF) as int)
}

/// The 32-bit value of an IPv4 address given as four octets.
pub open spec fn u32_of_octets(a: u8, b: u8, c: u8, d: u8) -> u32 {
    ((a as u32) << 24u32) | ((b as u32) << 16u32) | ((c as u32) << 8u32) | (d as u32)
}

/// A character sequence is canonical dotted-decimal IPv4 text when it is the
/// text of some four octets.
pub open spec fn is_canonical_ipv4(s: Seq<char>) -> bool {
    exists|a: u8, b: u8, c: u8, d: u8|
        s == ipv4_text(a as int, b as int, c as int, d as int)
}

/// Appends the decimal text of one octet.
pub fn push_octet_text(out: &mut String, v: u8)
    ensures
        final(out)@ == old(out)@ + octet_text(v as int),
{
    if v < 10 {
        out.push((v + 48) as char);
        assert(out@ =~= old(out)@ + octet_text(v as int));
    } else if v < 100 {
        out.push((v / 10 + 48) as char);
        out.push((v % 10 + 48) as char);
        assert(out@ =~= old(out)@ + octet_text(v as int));
    } else {
        out.push((v / 100 + 48) as char);
        out.push(((v / 10) % 10 + 48) as char);
        out.push((v % 10 + 48) as char);
        assert(out@ =~= old(out)@ + octet_text(v as int));
    }
}

/// The dotted-decimal string of an IPv4 address given as four octets.
pub fn ipv4_string(a: u8, b: u8, c: u8, d: u8) -> (r: String)
    ensures
        r@ == ipv4_text(a as int, b as int, c as int, d as int),
{
    let mut s = String::new();
    push_octet_text(&mut s, a);
    s.push('.');
    push_octet_text(&mut s, b);
    s.push('.');
    push_octet_text(&mut s, c);
    s.push('.');
    push_octet_text(&mut s, d);
    assert(s@ =~= ipv4_text(a as int, b as int, c as int, d as int));
    s
}

/// The dotted-decimal string of an IPv4 address given as one 32-bit value.
pub fn u32_ipv4_string(m: u32) -> (r: String)
    ensures
        r@ == u32_ipv4_text(m),
{
    assert(m >> 24 < 256 && (m >> 16) & 0xFF < 256 && (m >> 8) & 0xFF < 256 && m & 0xFF < 256)
        by (bit_vector);
    let a = (m >> 24) as u8;
    let b = ((m >> 16) & 0xFF) as u8;
    let c = ((m >> 8) & 0xFF) as u8;
    let d = (m & 0xFF) as u8;
    ipv4_string(a, b, c, d)
}

} // verus!

verus! {

// ---------------------------------------------------------------------------
// Digit facts and uniqueness of canonical text
// ---------------------------------------------------------------------------

/// A decimal digit character.
pub open spec fn is_digit(c: char) -> bool {
    48 <= c as u32 <= 57
}

/// Every character of an octet's decimal text is a digit, and the length of
/// that text tells the octet's magnitude class.
pub proof fn lemma_octet_text_digits(v: int)
    requires
        0 <= v < 256,
    ensures
        1 <= octet_text(v).len() <= 3,
        forall|i: int| 0 <= i < octet_text(v).len() ==> is_digit(#[trigger] octet_text(v)[i]),
        (octet_text(v).len() == 1) <==> v < 10,
        (octet_text(v).len() == 2) <==> (10 <= v < 100),
        (octet_text(v).len() == 3) <==> v >= 100,
{
    if v < 10 {
        assert(octet_text(v)[0] == dec_digit_char(v));
    } else if v < 100 {
        assert(octet_text(v)[0] == dec_digit_char(v / 10));
        assert(octet_text(v)[1] == dec_digit_char(v % 10));
    } else {
        assert(octet_text(v)[0] == dec_digit_char(v / 100));
        assert(octet_text(v)[1] == dec_digit_char((v / 10) % 10));
        assert(octet_text(v)[2] == dec_digit_char(v % 10));
    }
}

/// An octet is recovered from its decimal text: equal texts mean equal octets.
pub proof fn lemma_octet_text_injective(v1: int, v2: int)
    requires
        0 <= v1 < 256,
        0 <= v2 < 256,
        octet_text(v1) == octet_text(v2),
    ensures
        v1 == v2,
{
    lemma_octet_text_digits(v1);
    lemma_octet_text_digits(v2);
    if v1 < 10 {
        assert(v2 < 10);
        assert(octet_text(v1)[0] == dec_digit_char(v1));
        assert(octet_text(v2)[0] == dec_digit_char(v2));
        assert(dec_digit_char(v1) == dec_digit_char(v2));
        assert(dec_digit_char(v1) as u32 == v1 + 48);
        assert(dec_digit_char(v2) as u32 == v2 + 48);
    } else if v1 < 100 {
        assert(10 <= v2 < 100);
        assert(octet_text(v1)[0] == dec_digit_char(v1 / 10));
        assert(octet_text(v2)[0] == dec_digit_char(v2 / 10));
        assert(octet_text(v1)[1] == dec_digit_char(v1 % 10));
        assert(octet_text(v2)[1] == dec_digit_char(v2 % 10));
        assert(dec_digit_char(v1 / 10) == dec_digit_char(v2 / 10));
        assert(dec_digit_char(v1 % 10) == dec_digit_char(v2 % 10));
        assert(dec_digit_char(v1 / 10) as u32 == v1 / 10 + 48);
        assert(dec_digit_char(v2 / 10) as u32 == v2 / 10 + 48);
        assert(dec_digit_char(v1 % 10) as u32 == v1 % 10 + 48);
        assert(dec_digit_char(v2 % 10) as u32 == v2 % 10 + 48);
        assert(v1 == 10 * (v1 / 10) + v1 % 10);
        assert(v2 == 10 * (v2 / 10) + v2 % 10);
    } else {
        assert(v2 >= 100);
        assert(octet_text(v1)[0] == dec_digit_char(v1 / 100));
        assert(octet_text(v2)[0] == dec_digit_char(v2 / 100));
        assert(octet_text(v1)[1] == dec_digit_char((v1 / 10) % 10));
        assert(octet_text(v2)[1] == dec_digit_char((v2 / 10) % 10));
        assert(octet_text(v1)[2] == dec_digit_char(v1 % 10));
        assert(octet_text(v2)[2] == dec_digit_char(v2 % 10));
        assert(dec_digit_char(v1 / 100) == dec_digit_char(v2 / 100));
        assert(dec_digit_char((v1 / 10) % 10) == dec_digit_char((v2 / 10) % 10));
        assert(dec_digit_char(v1 % 10) == dec_digit_char(v2 % 10));
        assert(dec_digit_char(v1 / 100) as u32 == v1 / 100 + 48);
        assert(dec_digit_char(v2 / 100) as u32 == v2 / 100 + 48);
        assert(dec_digit_char((v1 / 10) % 10) as u32 == (v1 / 10) % 10 + 48);
        assert(dec_digit_char((v2 / 10) % 10) as u32 == (v2 / 10) % 10 + 48);
        assert(dec_digit_char(v1 % 10) as u32 == v1 % 10 + 48);
        assert(dec_digit_char(v2 % 10) as u32 == v2 % 10 + 48);
        vstd::arithmetic::div_mod::lemma_div_denominator(v1, 10, 10);
        vstd::arithmetic::div_mod::lemma_div_denominator(v2, 10, 10);
        assert(v1 / 10 == 10 * ((v1 / 10) / 10) + (v1 / 10) % 10);
        assert(v2 / 10 == 10 * ((v2 / 10) / 10) + (v2 / 10) % 10);
        assert(v1 == 10 * (v1 / 10) + v1 % 10);
        assert(v2 == 10 * (v2 / 10) + v2 % 10);
    }
}

/// The decimal text of one octet stands in `s` at position `start`, followed
/// by a dot or the end of `s`.
pub open spec fn octet_at(s: Seq<char>, start: int, v: u8) -> bool {
    let t = octet_text(v as int);
    &&& 0 <= start
    &&& start + t.len() <= s.len()
    &&& s.subrange(start, start + t.len()) == t
    &&& (start + t.len() == s.len() || s[start + t.len()] == '.')
}

/// At one position of one text there is only one octet.
pub proof fn lemma_octet_at_unique(s: Seq<char>, start: int, v1: u8, v2: u8)
    requires
        octet_at(s, start, v1),
        octet_at(s, start, v2),
    ensures
        v1 == v2,
{
    lemma_octet_text_digits(v1 as int);
    lemma_octet_text_digits(v2 as int);
    let t1 = octet_text(v1 as int);
    let t2 = octet_text(v2 as int);
    if t1.len() < t2.len() {
        assert(s[start + t1.len()] == t2[t1.len() as int]);
        assert(is_digit(t2[t1.len() as int]));
        assert(false);
    } else if t2.len() < t1.len() {
        assert(s[start + t2.len()] == t1[t2.len() as int]);
        assert(is_digit(t1[t2.len() as int]));
        assert(false);
    } else {
        assert(t1 =~= t2);
        lemma_octet_text_injective(v1 as int, v2 as int);
    }
}

/// Where each of the four octets stands inside dotted-decimal text.
pub proof fn lemma_ipv4_text_octet_at(a: u8, b: u8, c: u8, d: u8)
    ensures
        ({
            let s = ipv4_text(a as int, b as int, c as int, d as int);
            let p1 = octet_text(a as int).len() as int + 1;
            let p2 = p1 + octet_text(b as int).len() + 1;
            let p3 = p2 + octet_text(c as int).len() + 1;
            &&& octet_at(s, 0, a)
            &&& s[p1 - 1] == '.'
            &&& octet_at(s, p1, b)
            &&& s[p2 - 1] == '.'
            &&& octet_at(s, p2, c)
            &&& s[p3 - 1] == '.'
            &&& octet_at(s, p3, d)
            &&& p3 + octet_text(d as int).len() == s.len()
        }),
{
    let s = ipv4_text(a as int, b as int, c as int, d as int);
    let ta = octet_text(a as int);
    let tb = octet_text(b as int);
    let tc = octet_text(c as int);
    let td = octet_text(d as int);
    let p1 = ta.len() as int + 1;
    let p2 = p1 + tb.len() + 1;
    let p3 = p2 + tc.len() + 1;
    lemma_octet_text_digits(a as int);
    lemma_octet_text_digits(b as int);
    lemma_octet_text_digits(c as int);
    lemma_octet_text_digits(d as int);
    assert(s.subrange(0, ta.len() as int) =~= ta);
    assert(s.subrange(p1 as int, p1 + tb.len()) =~= tb);
    assert(s.subrange(p2 as int, p2 + tc.len()) =~= tc);
    assert(s.subrange(p3 as int, p3 + td.len()) =~= td);
}

/// Law: canonical dotted-decimal text determines its address. Formatting four
/// octets and parsing the text back yields the same four octets, and two
/// addresses with the same text are the same address.
pub proof fn lemma_canonical_ipv4_unique(a1: u8, b1: u8, c1: u8, d1: u8, a2: u8, b2: u8, c2: u8, d2: u8)
    requires
        ipv4_text(a1 as int, b1 as int, c1 as int, d1 as int) == ipv4_text(
            a2 as int,
            b2 as int,
            c2 as int,
            d2 as int,
        ),
    ensures
        a1 == a2 && b1 == b2 && c1 == c2 && d1 == d2,
{
    let s = ipv4_text(a1 as int, b1 as int, c1 as int, d1 as int);
    lemma_ipv4_text_octet_at(a1, b1, c1, d1);
    lemma_ipv4_text_octet_at(a2, b2, c2, d2);
    lemma_octet_at_unique(s, 0, a1, a2);
    let p1 = octet_text(a1 as int).len() as int + 1;
    lemma_octet_at_unique(s, p1, b1, b2);
    let p2 = p1 + octet_text(b1 as int).len() + 1;
    lemma_octet_at_unique(s, p2, c1, c2);
    let p3 = p2 + octet_text(c1 as int).len() + 1;
    lemma_octet_at_unique(s, p3, d1, d2);
}

/// The four octets whose dotted-decimal text a canonical sequence is.
pub open spec fn spec_octets_of(s: Seq<char>) -> (u8, u8, u8, u8)
    recommends
        is_canonical_ipv4(s),
{
    choose|t: (u8, u8, u8, u8)|
        s == ipv4_text(t.0 as int, t.1 as int, t.2 as int, t.3 as int)
}

/// The 32-bit address whose dotted-decimal text a canonical sequence is.
pub open spec fn spec_u32_of_text(s: Seq<char>) -> u32 {
    let t = spec_octets_of(s);
    u32_of_octets(t.0, t.1, t.2, t.3)
}

/// The octets of an address's own text are that address's octets.
pub proof fn lemma_octets_of_text(a: u8, b: u8, c: u8, d: u8)
    ensures
        spec_octets_of(ipv4_text(a as int, b as int, c as int, d as int)) == (a, b, c, d),
{
    let s = ipv4_text(a as int, b as int, c as int, d as int);
    let w = (a, b, c, d);
    assert(s == ipv4_text(w.0 as int, w.1 as int, w.2 as int, w.3 as int));
    assert(exists|t: (u8, u8, u8, u8)|
        s == ipv4_text(t.0 as int, t.1 as int, t.2 as int, t.3 as int));
    let t = choose|t: (u8, u8, u8, u8)|
        s == ipv4_text(t.0 as int, t.1 as int, t.2 as int, t.3 as int);
    assert(s == ipv4_text(t.0 as int, t.1 as int, t.2 as int, t.3 as int));
    lemma_canonical_ipv4_unique(t.0, t.1, t.2, t.3, a, b, c, d);
}

} // verus!

verus! {

// ---------------------------------------------------------------------------
// Parsing canonical dotted-decimal text
// ---------------------------------------------------------------------------

/// Reads one octet of canonical dotted-decimal text at `start`.
fn parse_octet(s: &str, start: usize) -> (r: (u8, usize))
    requires
        exists|v: u8| octet_at(s@, start as int, v),
    ensures
        octet_at(s@, start as int, r.0),
        r.1 == start + octet_text(r.0 as int).len(),
{
    let ghost v = choose|v: u8| octet_at(s@, start as int, v);
    let ghost t = octet_text(v as int);
    proof {
        lemma_octet_text_digits(v as int);
        assert(s@[start as int] == t[0]) by {
            assert(s@.subrange(start as int, start as int + t.len())[0] == t[0]);
        }
    }
    let n = s.unicode_len();
    let c0 = s.get_char(start);
    let x0 = c0 as u32;
    if start + 1 < n {
        let c1 = s.get_char(start + 1);
        let x1 = c1 as u32;
        if 48 <= x1 && x1 <= 57 {
            proof {
                assert(t.len() >= 2) by {
                    if t.len() == 1 {
                        assert(start as int + 1 == s@.len() || s@[start as int + 1] == '.');
                    }
                }
                assert(s@[start as int + 1] == t[1]) by {
                    assert(s@.subrange(start as int, start as int + t.len())[1] == t[1]);
                }
            }
            if start + 2 < n {
                let c2 = s.get_char(start + 2);
                let x2 = c2 as u32;
                if 48 <= x2 && x2 <= 57 {
                    proof {
                        assert(t.len() == 3) by {
                            if t.len() == 2 {
                                assert(start as int + 2 == s@.len() || s@[start as int + 2]
                                    == '.');
                            }
                        }
                        assert(s@[start as int + 2] == t[2]) by {
                            assert(s@.subrange(start as int, start as int + t.len())[2] == t[2]);
                        }
                        assert(t[0] == dec_digit_char(v as int / 100));
                        assert(t[1] == dec_digit_char((v as int / 10) % 10));
                        assert(t[2] == dec_digit_char(v as int % 10));
                        vstd::arithmetic::div_mod::lemma_div_denominator(v as int, 10, 10);
                        assert(v as int / 10 == 10 * ((v as int / 10) / 10) + (v as int / 10)
                            % 10);
                        assert(v as int == 10 * (v as int / 10) + v as int % 10);
                    }
                    let val = (x0 - 48) * 100 + (x1 - 48) * 10 + (x2 - 48);
                    assert(val == v);
                    return (val as u8, start + 3);
                }
            }
            proof {
                assert(t.len() == 2) by {
                    if t.len() == 3 {
                        assert(s@[start as int + 2] == t[2]) by {
                            assert(s@.subrange(start as int, start as int + t.len())[2] == t[2]);
                        }
                        assert(is_digit(t[2]));
                    }
                }
                assert(t[0] == dec_digit_char(v as int / 10));
                assert(t[1] == dec_digit_char(v as int % 10));
                assert(v as int == 10 * (v as int / 10) + v as int % 10);
            }
            let val = (x0 - 48) * 10 + (x1 - 48);
            assert(val == v);
            return (val as u8, start + 2);
        }
    }
    proof {
        assert(t.len() == 1) by {
            if t.len() >= 2 {
                assert(s@[start as int + 1] == t[1]) by {
                    assert(s@.subrange(start as int, start as int + t.len())[1] == t[1]);
                }
                assert(is_digit(t[1]));
            }
        }
        assert(t[0] == dec_digit_char(v as int));
    }
    assert(x0 - 48 == v);
    ((x0 - 48) as u8, start + 1)
}

/// Parses canonical dotted-decimal IPv4 text into its four octets. The text
/// round-trips: formatting the returned octets yields the input again.
pub fn parse_ipv4(s: &str) -> (r: (u8, u8, u8, u8))
    requires
        is_canonical_ipv4(s@),
    ensures
        s@ == ipv4_text(r.0 as int, r.1 as int, r.2 as int, r.3 as int),
{
    let ghost (ga, gb, gc, gd) = choose|a: u8, b: u8, c: u8, d: u8|
        s@ == ipv4_text(a as int, b as int, c as int, d as int);
    proof {
        lemma_ipv4_text_octet_at(ga, gb, gc, gd);
    }
    let n = s.unicode_len();
    assert(exists|v: u8| octet_at(s@, 0, v)) by {
        assert(octet_at(s@, 0, ga));
    }
    let (o0, p1) = parse_octet(s, 0);
    proof {
        lemma_octet_at_unique(s@, 0, o0, ga);
    }
    let ghost q_p1 = p1 as int + 1;
    assert(exists|v: u8| octet_at(s@, q_p1, v)) by {
        assert(octet_at(s@, q_p1, gb));
    }
    let (o1, p2) = parse_octet(s, p1 + 1);
    proof {
        lemma_octet_at_unique(s@, p1 as int + 1, o1, gb);
    }
    let ghost q_p2 = p2 as int + 1;
    assert(exists|v: u8| octet_at(s@, q_p2, v)) by {
        assert(octet_at(s@, q_p2, gc));
    }
    let (o2, p3) = parse_octet(s, p2 + 1);
    proof {
        lemma_octet_at_unique(s@, p2 as int + 1, o2, gc);
    }
    let ghost q_p3 = p3 as int + 1;
    assert(exists|v: u8| octet_at(s@, q_p3, v)) by {
        assert(octet_at(s@, q_p3, gd));
    }
    let (o3, _p4) = parse_octet(s, p3 + 1);
    proof {
        lemma_octet_at_unique(s@, p3 as int + 1, o3, gd);
    }
    (o0, o1, o2, o3)
}

} // verus!

verus! {

// ---------------------------------------------------------------------------
// Subnet inference
// ---------------------------------------------------------------------------

/// The host-bits mask of a prefix length: the low `32 - l` bits set.
pub open spec fn spec_hostmask(l: u32) -> u32
    recommends
        l <= 32,
{
    if l == 32 {
        0u32
    } else {
        0xFFFF_FFFFu32 >> l
    }
}

/// The netmask of a prefix length: the high `l` bits set.
pub open spec fn spec_netmask(l: u32) -> u32 {
    !spec_hostmask(l)
}

/// The broadcast address of the network that `n` lies in at prefix length
/// `l`: all host bits set.
pub open spec fn spec_broadcast(n: u32, l: u32) -> u32 {
    n | spec_hostmask(l)
}

/// The longest prefix length at most `l` whose broadcast of `n` is `b`.
pub open spec fn find_prefix_from(n: u32, b: u32, l: int) -> Option<u32>
    recommends
        l <= 32,
    decreases l + 1,
{
    if l < 0 {
        None
    } else if spec_broadcast(n, l as u32) == b {
        Some(l as u32)
    } else {
        find_prefix_from(n, b, l - 1)
    }
}

/// The longest prefix length in 0..=32 whose broadcast of `n` is `b`, if any.
pub open spec fn matching_prefix(n: u32, b: u32) -> Option<u32> {
    find_prefix_from(n, b, 32)
}

/// The host-bits mask of a prefix length.
fn hostmask(l: u32) -> (r: u32)
    requires
        l <= 32,
    ensures
        r == spec_hostmask(l),
{
    if l == 32 {
        0
    } else {
        0xFFFF_FFFFu32 >> l
    }
}

/// Searches prefix lengths from 32 down to 0 for one whose broadcast of `n`
/// is `b`; the first hit is the longest (most specific) match.
pub fn infer_prefix(n: u32, b: u32) -> (r: Option<u32>)
    ensures
        r == matching_prefix(n, b),
{
    let mut i: u32 = 33;
    while i > 0
        invariant
            i <= 33,
            matching_prefix(n, b) == find_prefix_from(n, b, i as int - 1),
        decreases i,
    {
        let l = i - 1;
        if (n | hostmask(l)) == b {
            return Some(l);
        }
        i = l;
    }
    None
}

/// The 32-bit value of an IPv4 address given as four octets.
pub fn u32_of(a: u8, b: u8, c: u8, d: u8) -> (r: u32)
    ensures
        r == u32_of_octets(a, b, c, d),
{
    ((a as u32) << 24u32) | ((b as u32) << 16u32) | ((c as u32) << 8u32) | (d as u32)
}

/// Infers an adapter's subnet mask from a network address and a broadcast
/// candidate, both in dotted-decimal text. Prefix lengths are searched from
/// the most specific (32) down; the first length whose broadcast of the
/// network address equals the candidate wins, and its netmask is returned in
/// dotted-decimal text. If no length from 0 to 32 matches, there is no mask.
pub fn calculate_subnet_info(network: &String, broadcast: &String) -> (r: Option<String>)
    requires
        is_canonical_ipv4(network@),
        is_canonical_ipv4(broadcast@),
    ensures
        match matching_prefix(spec_u32_of_text(network@), spec_u32_of_text(broadcast@)) {
            Some(l) => r matches Some(m) && m@ == u32_ipv4_text(spec_netmask(l)),
            None => r is None,
        },
{
    let (na, nb, nc, nd) = parse_ipv4(network.as_str());
    let (ba, bb, bc, bd) = parse_ipv4(broadcast.as_str());
    proof {
        lemma_octets_of_text(na, nb, nc, nd);
        lemma_octets_of_text(ba, bb, bc, bd);
    }
    let n = u32_of(na, nb, nc, nd);
    let b = u32_of(ba, bb, bc, bd);
    match infer_prefix(n, b) {
        Some(l) => {
            assert(l <= 32) by {
                lemma_matching_prefix_range(n, b, 32);
            }
            Some(u32_ipv4_string(!hostmask(l)))
        },
        None => None,
    }
}

/// A found prefix length lies in the searched range.
pub proof fn lemma_matching_prefix_range(n: u32, b: u32, l: int)
    requires
        l <= 32,
    ensures
        find_prefix_from(n, b, l) matches Some(p) ==> p <= l,
    decreases l + 1,
{
    if l >= 0 && spec_broadcast(n, l as u32) != b {
        lemma_matching_prefix_range(n, b, l - 1);
    }
}

/// Law: feeding a network address and the broadcast address that some prefix
/// length yields back into the search returns exactly that prefix length,
/// provided no more specific (longer) prefix yields the same broadcast — the
/// search answers the longest matching prefix.
pub proof fn lemma_subnet_inference_finds_prefix(n: u32, l: u32)
    requires
        l <= 32,
        forall|l2: u32| l < l2 <= 32 ==> spec_broadcast(n, l2) != spec_broadcast(n, l),
    ensures
        matching_prefix(n, spec_broadcast(n, l)) == Some(l),
{
    lemma_find_prefix_down(n, l, 32);
}

proof fn lemma_find_prefix_down(n: u32, l: u32, k: int)
    requires
        l <= 32,
        l as int <= k <= 32,
        forall|l2: u32| l < l2 <= 32 ==> spec_broadcast(n, l2) != spec_broadcast(n, l),
    ensures
        find_prefix_from(n, spec_broadcast(n, l), k) == Some(l),
    decreases k,
{
    if k > l {
        assert(spec_broadcast(n, k as u32) != spec_broadcast(n, l));
        lemma_find_prefix_down(n, l, k - 1);
    }
}

} // verus!

