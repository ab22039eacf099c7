//! Decoding of the platform's two text encodings into owned strings: byte
//! strings that are expected to be ASCII (adapter identifiers) and
//! null-stripped wide-character (UTF-16) strings (adapter names and
//! descriptions). Ill-formed input is reported, never replaced silently.

use vstd::pervasive::unreached;
use vstd::prelude::*;

verus! {

/// Every byte is ASCII.
pub open spec fn ascii_ok(bytes: Seq<u8>) -> bool {
    forall|j: int| 0 <= j < bytes.len() ==> bytes[j] < 128
}

/// The characters of an ASCII byte string.
pub open spec fn ascii_chars(bytes: Seq<u8>) -> Seq<char> {
    Seq::new(bytes.len(), |i: int| bytes[i] as char)
}

/// Decodes an ASCII byte string; a non-ASCII byte is a decoding fault.
pub fn ascii_string(bytes: &Vec<u8>) -> (r: Option<String>)
    ensures
        match r {
            Some(s) => ascii_ok(bytes@) && s@ == ascii_chars(bytes@),
            None => !ascii_ok(bytes@),
        },
{
    let mut out = String::new();
    let mut i: usize = 0;
    while i < bytes.len()
        invariant
            i <= bytes@.len(),
            forall|j: int| 0 <= j < i ==> bytes@[j] < 128,
            out@.len() == i,
            forall|j: int| 0 <= j < i ==> out@[j] == (bytes@[j] as char),
        decreases bytes@.len() - i,
    {
        let b = bytes[i];
        if b >= 128 {
            return None;
        }
        out.push(b as char);
        i = i + 1;
    }
    assert(out@ =~= ascii_chars(bytes@));
    Some(out)
}

/// A code unit that stands for a character of the Basic Multilingual Plane.
pub open spec fn is_bmp(u: u16) -> bool {
    u < 0xD800 || u >= 0xE000
}

/// The first unit of a surrogate pair.
pub open spec fn is_high_surrogate(u: u16) -> bool {
    0xD800 <= u < 0xDC00
}

/// The second unit of a surrogate pair.
pub open spec fn is_low_surrogate(u: u16) -> bool {
    0xDC00 <= u < 0xE000
}

/// The scalar value of a surrogate pair.
pub open spec fn surrogate_pair_scalar(hi: u16, lo: u16) -> u32
    recommends
        is_high_surrogate(hi),
        is_low_surrogate(lo),
{
    (0x10000 + (hi - 0xD800) * 0x400 + (lo - 0xDC00)) as u32
}

/// The characters of a well-formed UTF-16 code-unit sequence, or nothing
/// where the sequence is ill-formed (a lone or misordered surrogate).
pub open spec fn utf16_chars(units: Seq<u16>) -> Option<Seq<char>>
    decreases units.len(),
{
    if units.len() == 0 {
        Some(Seq::empty())
    } else if is_bmp(units[0]) {
        match utf16_chars(units.skip(1)) {
            Some(rest) => Some(seq![(units[0] as u32) as char] + rest),
            None => None,
        }
    } else if is_high_surrogate(units[0]) && units.len() >= 2 && is_low_surrogate(units[1]) {
        match utf16_chars(units.skip(2)) {
            Some(rest) => Some(seq![surrogate_pair_scalar(units[0], units[1]) as char] + rest),
            None => None,
        }
    } else {
        None
    }
}

/// The decoded prefix `acc` of the first `i` units accounts for the whole:
/// the sequence decodes exactly when the rest decodes, to `acc` followed by
/// the rest's characters.
pub open spec fn utf16_partial(units: Seq<u16>, i: int, acc: Seq<char>) -> bool {
    utf16_chars(units) == match utf16_chars(units.skip(i)) {
        Some(rest) => Some(acc + rest),
        None => None::<Seq<char>>,
    }
}

/// Decodes a wide-character (UTF-16) string; a lone or misordered surrogate
/// is a decoding fault.
pub fn utf16_string(units: &Vec<u16>) -> (r: Option<String>)
    ensures
        match r {
            Some(s) => utf16_chars(units@) == Some(s@),
            None => utf16_chars(units@) is None,
        },
{
    let mut out = String::new();
    let mut i: usize = 0;
    proof {
        assert(units@.skip(0) =~= units@);
        match utf16_chars(units@) {
            Some(cs) => {
                assert(Seq::<char>::empty() + cs =~= cs);
            },
            None => {},
        }
    }
    while i < units.len()
        invariant
            i <= units@.len(),
            utf16_partial(units@, i as int, out@),
        decreases units@.len() - i,
    {
        let u = units[i];
        let ghost tail = units@.skip(i as int);
        proof {
            assert(tail.len() == units@.len() - i);
            assert(tail[0] == units@[i as int]);
        }
        if u < 0xD800 || u >= 0xE000 {
            let c = match char::from_u32(u as u32) {
                Some(c) => c,
                None => unreached(),
            };
            let ghost before = out@;
            out.push(c);
            proof {
                vstd::utf8::char_u32_cast(c, u as u32);
                assert((u as u32) as char == c);
                assert(tail.skip(1) =~= units@.skip(i as int + 1));
                match utf16_chars(units@.skip(i as int + 1)) {
                    Some(rest) => {
                        assert(before + (seq![c] + rest) =~= out@ + rest);
                    },
                    None => {},
                }
            }
            i = i + 1;
        } else if u < 0xDC00 && i + 1 < units.len() {
            let u2 = units[i + 1];
            proof {
                assert(tail[1] == units@[i as int + 1]);
            }
            if 0xDC00 <= u2 && u2 < 0xE000 {
                let x: u32 = 0x10000 + ((u - 0xD800) as u32) * 0x400 + ((u2 - 0xDC00) as u32);
                assert(x == surrogate_pair_scalar(u, u2));
                let c = match char::from_u32(x) {
                    Some(c) => c,
                    None => unreached(),
                };
                let ghost before = out@;
                out.push(c);
                proof {
                    vstd::utf8::char_u32_cast(c, x);
                    assert(x as char == c);
                    assert(tail.skip(2) =~= units@.skip(i as int + 2));
                    match utf16_chars(units@.skip(i as int + 2)) {
                        Some(rest) => {
                            assert(before + (seq![c] + rest) =~= out@ + rest);
                        },
                        None => {},
                    }
                }
                i = i + 2;
            } else {
                proof {
                    assert(utf16_chars(tail) is None);
                }
                return None;
            }
        } else {
            proof {
                assert(utf16_chars(tail) is None);
            }
            return None;
        }
    }
    proof {
        assert(units@.skip(i as int) =~= Seq::<u16>::empty());
        match utf16_chars(units@) {
            Some(cs) => {
                assert(out@ + Seq::<char>::empty() =~= out@);
            },
            None => {},
        }
    }
    Some(out)
}

} // verus!
