//! UTF-8 decoding of byte strings, as `std::str::from_utf8` accepts them:
//! well-formed sequences of one to four bytes (Unicode's table of
//! well-formed byte sequences: no overlong forms, no surrogates, nothing
//! above U+10FFFF).

use vstd::prelude::*;

verus! {

/// `char::from_u32` gives the character with scalar value `i`, or none when
/// `i` is a surrogate or above U+10FFFF (std documents it as returning
/// `None` exactly when the value is not a valid `char`).
pub assume_specification[ core::char::from_u32 ](i: u32) -> (r: Option<char>)
    ensures
        r == (if i <= 0xD7FF || (0xE000 <= i && i <= 0x10FFFF) { Some(i as char) } else { None::<char> }),
;

/// Whether `x` is a continuation byte (`10xxxxxx`).
pub open spec fn is_cont(x: u8) -> bool {
    0x80 <= x && x <= 0xBF
}

/// The scalar value of the well-formed UTF-8 sequence that starts at `i`,
/// with its length in bytes; none when the bytes there are not one.
pub open spec fn utf8_at(b: Seq<u8>, i: int) -> Option<(u32, int)> {
    let n = b.len();
    if i < 0 || i >= n {
        None
    } else {
        let b0 = b[i] as int;
        if b0 <= 0x7F {
            Some((b0 as u32, 1))
        } else if 0xC2 <= b0 && b0 <= 0xDF {
            if i + 1 < n && is_cont(b[i + 1]) {
                Some((((b0 - 0xC0) * 64 + (b[i + 1] - 0x80)) as u32, 2))
            } else {
                None
            }
        } else if 0xE0 <= b0 && b0 <= 0xEF {
            let lo: int = if b0 == 0xE0 { 0xA0 } else { 0x80 };
            let hi: int = if b0 == 0xED { 0x9F } else { 0xBF };
            if i + 2 < n && lo <= b[i + 1] && b[i + 1] <= hi && is_cont(b[i + 2]) {
                Some((((b0 - 0xE0) * 4096 + (b[i + 1] - 0x80) * 64 + (b[i + 2] - 0x80)) as u32, 3))
            } else {
                None
            }
        } else if 0xF0 <= b0 && b0 <= 0xF4 {
            let lo: int = if b0 == 0xF0 { 0x90 } else { 0x80 };
            let hi: int = if b0 == 0xF4 { 0x8F } else { 0xBF };
            if i + 3 < n && lo <= b[i + 1] && b[i + 1] <= hi && is_cont(b[i + 2]) && is_cont(b[i + 3]) {
                Some((((b0 - 0xF0) * 262144 + (b[i + 1] - 0x80) * 4096 + (b[i + 2] - 0x80) * 64
                    + (b[i + 3] - 0x80)) as u32, 4))
            } else {
                None
            }
        } else {
            None
        }
    }
}

/// The characters that the bytes of `b` from `i` on decode to; none when
/// they are not well-formed UTF-8.
pub open spec fn utf8_decode_from(b: Seq<u8>, i: int) -> Option<Seq<char>>
    decreases b.len() - i,
{
    if i < 0 || i >= b.len() {
        Some(Seq::empty())
    } else {
        match utf8_at(b, i) {
            None => None,
            Some((v, k)) => if 1 <= k {
                match utf8_decode_from(b, i + k) {
                    Some(rest) => Some(seq![v as char] + rest),
                    None => None,
                }
            } else {
                None
            },
        }
    }
}

/// The text that the bytes `b` decode to as UTF-8; none when they are not
/// well-formed UTF-8.
pub open spec fn utf8_decode(b: Seq<u8>) -> Option<Seq<char>> {
    utf8_decode_from(b, 0)
}

/// The sequence at `i` (see [`utf8_at`]).
fn decode_at(b: &[u8], i: usize) -> (r: Option<(char, usize)>)
    requires
        i < b@.len(),
    ensures
        match utf8_at(b@, i as int) {
            Some((v, k)) => r == Some((v as char, k as usize)) && 1 <= k <= 4,
            None => r is None,
        },
{
    let n = b.len();
    let b0 = b[i] as u32;
    let v: u32;
    let k: usize;
    if b0 <= 0x7F {
        v = b0;
        k = 1;
    } else if 0xC2 <= b0 && b0 <= 0xDF {
        if n - i > 1 && 0x80 <= b[i + 1] && b[i + 1] <= 0xBF {
            v = (b0 - 0xC0) * 64 + (b[i + 1] as u32 - 0x80);
            k = 2;
        } else {
            return None;
        }
    } else if 0xE0 <= b0 && b0 <= 0xEF {
        let lo: u8 = if b0 == 0xE0 { 0xA0 } else { 0x80 };
        let hi: u8 = if b0 == 0xED { 0x9F } else { 0xBF };
        if n - i > 2 && lo <= b[i + 1] && b[i + 1] <= hi && 0x80 <= b[i + 2] && b[i + 2] <= 0xBF {
            v = (b0 - 0xE0) * 4096 + (b[i + 1] as u32 - 0x80) * 64 + (b[i + 2] as u32 - 0x80);
            k = 3;
        } else {
            return None;
        }
    } else if 0xF0 <= b0 && b0 <= 0xF4 {
        let lo: u8 = if b0 == 0xF0 { 0x90 } else { 0x80 };
        let hi: u8 = if b0 == 0xF4 { 0x8F } else { 0xBF };
        if n - i > 3 && lo <= b[i + 1] && b[i + 1] <= hi && 0x80 <= b[i + 2] && b[i + 2] <= 0xBF
            && 0x80 <= b[i + 3] && b[i + 3] <= 0xBF {
            v = (b0 - 0xF0) * 262144 + (b[i + 1] as u32 - 0x80) * 4096 + (b[i + 2] as u32 - 0x80) * 64
                + (b[i + 3] as u32 - 0x80);
            k = 4;
        } else {
            return None;
        }
    } else {
        return None;
    }
    assert(v <= 0xD7FF || (0xE000 <= v && v <= 0x10FFFF));
    match core::char::from_u32(v) {
        Some(c) => Some((c, k)),
        None => None,
    }
}

/// Decodes UTF-8 bytes into text (see [`utf8_decode`]).
pub fn decode_utf8(b: &[u8]) -> (r: Option<String>)
    ensures
        match r {
            Some(t) => utf8_decode(b@) == Some(t@),
            None => utf8_decode(b@) is None,
        },
{
    let mut out = String::new();
    let mut i: usize = 0;
    proof {
        assert(out@ =~= Seq::<char>::empty());
        assert(utf8_decode_from(b@, 0) == match utf8_decode_from(b@, 0) {
            Some(rest) => Some(Seq::<char>::empty() + rest),
            None => None::<Seq<char>>,
        }) by {
            match utf8_decode_from(b@, 0) {
                Some(rest) => assert(Seq::<char>::empty() + rest =~= rest),
                None => {},
            }
        }
    }
    while i < b.len()
        invariant
            0 <= i <= b@.len(),
            utf8_decode(b@) == match utf8_decode_from(b@, i as int) {
                Some(rest) => Some(out@ + rest),
                None => None::<Seq<char>>,
            },
        decreases b@.len() - i,
    {
        match decode_at(b, i) {
            None => {
                return None;
            },
            Some((c, k)) => {
                proof {
                    match utf8_decode_from(b@, i + k) {
                        Some(rest) => {
                            assert(out@.push(c) + rest =~= out@ + (seq![c] + rest));
                        },
                        None => {},
                    }
                }
                out.push(c);
                i = i + k;
            },
        }
    }
    proof {
        assert(out@ + Seq::<char>::empty() =~= out@);
    }
    Some(out)
}

} // verus!
