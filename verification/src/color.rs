//! Colours.

use crate::text::{chars_of, is_white_space, strip_start, trim_end, trim_start, white_space};
use vstd::prelude::*;

verus! {

/// An 8-bit sRGB colour with alpha.
#[derive(Clone, Copy, Debug, PartialEq, Eq, Structural, Hash)]
pub struct Rgba8 {
    pub r: u8,
    pub g: u8,
    pub b: u8,
    pub a: u8,
}

/// The lower-case hexadecimal digit for `n`.
pub open spec fn hex_digit(n: int) -> char {
    if n < 10 {
        (n + 48) as char
    } else {
        (n + 87) as char
    }
}

/// A byte as two lower-case hexadecimal digits.
pub open spec fn hex_byte(v: u8) -> Seq<char> {
    seq![hex_digit(v as int / 16), hex_digit(v as int % 16)]
}

/// Lower-case `#rrggbb`.
pub open spec fn hex_form(c: Rgba8) -> Seq<char> {
    seq!['#'] + hex_byte(c.r) + hex_byte(c.g) + hex_byte(c.b)
}

/// The value of a hexadecimal digit, in either case.
pub open spec fn hex_value(c: char) -> Option<u8> {
    if '0' <= c <= '9' {
        Some((c as u32 - 48) as u8)
    } else if 'a' <= c <= 'f' {
        Some((c as u32 - 87) as u8)
    } else if 'A' <= c <= 'F' {
        Some((c as u32 - 55) as u8)
    } else {
        None
    }
}

/// The digits of a colour as typed: surrounding white space and any number of
/// leading `#` are dropped.
pub open spec fn bare_digits(s: Seq<char>) -> Seq<char> {
    strip_start(trim_end(trim_start(s)), '#')
}

pub open spec fn all_hex(h: Seq<char>) -> bool {
    forall|i: int| 0 <= i < h.len() ==> hex_value(#[trigger] h[i]) is Some
}

/// The byte that two hexadecimal digits stand for.
pub open spec fn byte_of(hi: char, lo: char) -> u8 {
    (hex_value(hi)->0 * 16 + hex_value(lo)->0) as u8
}

/// What a string of digits means as a colour: six digits are two per channel,
/// three are one per channel, doubled (`abc` is short for `aabbcc`).
pub open spec fn parsed_digits(h: Seq<char>) -> Option<Rgba8> {
    if !all_hex(h) {
        None
    } else if h.len() == 6 {
        Some(
            Rgba8 {
                r: byte_of(h[0], h[1]),
                g: byte_of(h[2], h[3]),
                b: byte_of(h[4], h[5]),
                a: 255,
            },
        )
    } else if h.len() == 3 {
        Some(
            Rgba8 {
                r: byte_of(h[0], h[0]),
                g: byte_of(h[1], h[1]),
                b: byte_of(h[2], h[2]),
                a: 255,
            },
        )
    } else {
        None
    }
}

impl Rgba8 {
    /// The colour of unpainted pixels: every channel, alpha too, is zero.
    #[verifier::allow_in_spec]
    pub fn transparent() -> Self
        returns
            (Rgba8 { r: 0, g: 0, b: 0, a: 0 }),
    {
        Rgba8 { r: 0, g: 0, b: 0, a: 0 }
    }

    pub fn new(r: u8, g: u8, b: u8, a: u8) -> (c: Self)
        ensures
            c == (Rgba8 { r, g, b, a }),
    {
        Rgba8 { r, g, b, a }
    }

    pub fn opaque(r: u8, g: u8, b: u8) -> (c: Self)
        ensures
            c == (Rgba8 { r, g, b, a: 255 }),
    {
        Rgba8 { r, g, b, a: 255 }
    }

    /// Lowercase `#rrggbb`. Alpha is emitted separately as `fill-opacity` so
    /// that the SVG stays readable in editors that dislike 8-digit hex.
    pub fn to_hex(self) -> (s: String)
        ensures
            s@ == hex_form(self),
    {
        let mut s: String = String::new();
        s.push('#');
        push_hex(&mut s, self.r);
        push_hex(&mut s, self.g);
        push_hex(&mut s, self.b);
        assert(s@ =~= hex_form(self));
        s
    }

    /// Parse `#rrggbb` or `#rgb`, with or without the `#`, in either case. The
    /// result is always opaque. Inverse of [`Rgba8::to_hex`].
    pub fn from_hex(s: &str) -> (c: Option<Self>)
        ensures
            c == parsed_digits(bare_digits(s@)),
    {
        let v: Vec<char> = chars_of(s);
        let mut lo: usize = 0;
        assert(v@.skip(0) =~= v@);
        while lo < v.len() && is_white_space(v[lo])
            invariant
                lo <= v@.len(),
                v@ == s@,
                trim_start(v@.skip(lo as int)) == trim_start(v@),
            decreases v@.len() - lo,
        {
            assert(v@.skip(lo as int).skip(1) =~= v@.skip(lo + 1));
            lo = lo + 1;
        }
        let mut hi: usize = v.len();
        assert(trim_start(v@) == v@.skip(lo as int));
        assert(v@.skip(lo as int) =~= v@.subrange(lo as int, hi as int));
        while hi > lo && is_white_space(v[hi - 1])
            invariant
                lo <= hi <= v@.len(),
                trim_end(v@.subrange(lo as int, hi as int)) == trim_end(v@.skip(lo as int)),
            decreases hi,
        {
            assert(v@.subrange(lo as int, hi as int).drop_last() =~= v@.subrange(
                lo as int,
                hi - 1,
            ));
            hi = hi - 1;
        }
        let ghost trimmed = v@.subrange(lo as int, hi as int);
        assert(trim_end(trim_start(v@)) == trimmed);
        assert(trimmed =~= v@.subrange(lo as int, hi as int));
        while lo < hi && v[lo] == '#'
            invariant
                lo <= hi <= v@.len(),
                strip_start(v@.subrange(lo as int, hi as int), '#') == strip_start(trimmed, '#'),
            decreases hi - lo,
        {
            assert(v@.subrange(lo as int, hi as int).skip(1) =~= v@.subrange(lo + 1, hi as int));
            lo = lo + 1;
        }
        let ghost h = v@.subrange(lo as int, hi as int);
        assert(bare_digits(s@) == h);
        let mut vals: Vec<u8> = Vec::new();
        let mut i: usize = lo;
        while i < hi
            invariant
                lo <= i <= hi <= v@.len(),
                h == v@.subrange(lo as int, hi as int),
                bare_digits(s@) == h,
                vals@.len() == i - lo,
                forall|k: int|
                    0 <= k < vals@.len() ==> hex_value(#[trigger] h[k]) == Some(vals@[k])
                        && vals@[k] < 16,
            decreases hi - i,
        {
            assert(h[i - lo] == v@[i as int]);
            match digit_value(v[i]) {
                Some(d) => {
                    vals.push(d);
                },
                None => {
                    assert(hex_value(h[i - lo]) is None);
                    return None;
                },
            }
            i = i + 1;
        }
        assert forall|k: int| 0 <= k < h.len() implies hex_value(#[trigger] h[k]) is Some by {
            assert(hex_value(h[k]) == Some(vals@[k]));
        }
        if vals.len() == 6 {
            assert(hex_value(h[0]) is Some && hex_value(h[1]) is Some && hex_value(h[2]) is Some
                && hex_value(h[3]) is Some && hex_value(h[4]) is Some && hex_value(h[5]) is Some);
            Some(
                Rgba8::opaque(
                    vals[0] * 16 + vals[1],
                    vals[2] * 16 + vals[3],
                    vals[4] * 16 + vals[5],
                ),
            )
        } else if vals.len() == 3 {
            assert(hex_value(h[0]) is Some && hex_value(h[1]) is Some && hex_value(h[2]) is Some);
            Some(Rgba8::opaque(vals[0] * 17, vals[1] * 17, vals[2] * 17))
        } else {
            None
        }
    }
}

fn digit_value(c: char) -> (v: Option<u8>)
    ensures
        v == hex_value(c),
        v matches Some(d) ==> d < 16,
{
    if '0' <= c && c <= '9' {
        Some((c as u32 - 48) as u8)
    } else if 'a' <= c && c <= 'f' {
        Some((c as u32 - 87) as u8)
    } else if 'A' <= c && c <= 'F' {
        Some((c as u32 - 55) as u8)
    } else {
        None
    }
}

fn push_hex(s: &mut String, v: u8)
    ensures
        final(s)@ == old(s)@ + hex_byte(v),
{
    let ghost s0 = s@;
    let hi: u8 = v / 16;
    let lo: u8 = v % 16;
    let a: char = if hi < 10 {
        (hi + 48) as char
    } else {
        (hi + 87) as char
    };
    let b: char = if lo < 10 {
        (lo + 48) as char
    } else {
        (lo + 87) as char
    };
    s.push(a);
    s.push(b);
    assert(s@ =~= s0 + hex_byte(v));
}

/// Reading back what [`Rgba8::to_hex`] writes gives the colour, made opaque.
pub proof fn law_hex_round_trips(c: Rgba8)
    ensures
        parsed_digits(bare_digits(hex_form(c))) == Some(Rgba8 { a: 255, ..c }),
{
    let s = hex_form(c);
    let h = hex_byte(c.r) + hex_byte(c.g) + hex_byte(c.b);
    assert(s.len() == 7);
    assert(trim_start(s) == s);
    assert(s.last() == hex_digit(c.b as int % 16));
    assert(!white_space(s.last()));
    assert(trim_end(s) == s);
    assert(s[0] == '#');
    assert(s.skip(1) =~= h);
    assert(h[0] == hex_digit(c.r as int / 16));
    assert(strip_start(h, '#') == h);
    assert(strip_start(s, '#') == h);
    assert forall|n: int| 0 <= n < 16 implies hex_value(#[trigger] hex_digit(n)) == Some(
        n as u8,
    ) by {
    }
    assert(h[1] == hex_digit(c.r as int % 16));
    assert(h[2] == hex_digit(c.g as int / 16));
    assert(h[3] == hex_digit(c.g as int % 16));
    assert(h[4] == hex_digit(c.b as int / 16));
    assert(h[5] == hex_digit(c.b as int % 16));
    assert(all_hex(h));
}

/// The hexadecimal form of a colour does not depend on its alpha, and tells
/// colours apart that differ in any other channel.
pub proof fn law_hex_is_faithful(a: Rgba8, b: Rgba8)
    requires
        hex_form(a) == hex_form(b),
    ensures
        a.r == b.r,
        a.g == b.g,
        a.b == b.b,
{
    law_hex_round_trips(a);
    law_hex_round_trips(b);
}

} // verus!
