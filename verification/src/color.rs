//! Packed RGB / RGBA color values in the sRGB color set.

use vstd::prelude::*;

verus! {

/// Why a color literal such as `"#55FF55"` was rejected.
#[derive(Copy, Clone, Eq, PartialEq, Debug, Structural)]
pub enum ParseColorError {
    /// String did not have required length. 7 bytes for Rgb, 9 bytes for Rgba.
    TooShort,
    /// String did not start with a hash.
    NoHash,
    /// Non hex characters in body of string.
    NotHex,
}

/// A 24-bit color, packed as `(r << 16) | (g << 8) | b`.
#[derive(Copy, Clone, Eq, PartialEq, Debug, Hash, Structural)]
pub struct Rgb(u32);

impl Rgb {
    /// The packed value; always below `1 << 24`.
    pub closed spec fn value(self) -> u32 {
        self.0
    }

    /// The packing invariant: nothing is stored in the high byte.
    pub open spec fn wf(self) -> bool {
        self.value() < 0x1000000
    }

    /// The red component, as recorded in bits 16 to 23.
    pub open spec fn spec_r(self) -> u8 {
        ((self.value() >> 16) & 0xFF) as u8
    }

    /// The green component, as recorded in bits 8 to 15.
    pub open spec fn spec_g(self) -> u8 {
        ((self.value() >> 8) & 0xFF) as u8
    }

    /// The blue component, as recorded in bits 0 to 7.
    pub open spec fn spec_b(self) -> u8 {
        (self.value() & 0xFF) as u8
    }

    /// Creates a new RGB value, where the values are in the sRGB color set.
    /// The provided integer should be in the format `(r << 16) | (g << 8) | b`;
    /// bits above the low 24 are discarded.
    pub fn from_rgb(rgb: u32) -> (c: Self)
        ensures
            c.value() == rgb & 0x00FFFFFF,
            c.wf(),
    {
        proof {
            assert(rgb & 0x00FFFFFF < 0x1000000) by (bit_vector);
        }
        Rgb(rgb & 0x00FFFFFF)
    }

    /// Creates a new RGB value, where the values are in the sRGB color set.
    pub fn new(r: u8, g: u8, b: u8) -> (c: Self)
        ensures
            c.wf(),
            c.spec_r() == r,
            c.spec_g() == g,
            c.spec_b() == b,
    {
        let packed: u32 = ((r as u32) << 16) | ((g as u32) << 8) | (b as u32);
        proof {
            let r32 = r as u32;
            let g32 = g as u32;
            let b32 = b as u32;
            assert((r32 < 0x100 && g32 < 0x100 && b32 < 0x100) ==> {
                let p = (r32 << 16) | (g32 << 8) | b32;
                p < 0x1000000 && ((p >> 16) & 0xFF) == r32 && ((p >> 8) & 0xFF) == g32 && (p
                    & 0xFF) == b32
            }) by (bit_vector);
        }
        Rgb(packed)
    }

    /// The red component.
    pub fn r(&self) -> (r: u8)
        ensures
            r == self.spec_r(),
    {
        ((self.0 >> 16) & 0xFF) as u8
    }

    /// The green component.
    pub fn g(&self) -> (g: u8)
        ensures
            g == self.spec_g(),
    {
        ((self.0 >> 8) & 0xFF) as u8
    }

    /// The blue component.
    pub fn b(&self) -> (b: u8)
        ensures
            b == self.spec_b(),
    {
        (self.0 & 0xFF) as u8
    }

    /// Returns an integer with the format `(r << 16) | (g << 8) | b`.
    pub fn rgb(&self) -> (v: u32)
        ensures
            v == self.value(),
    {
        self.0
    }

    /// Attaches an alpha component, giving `(a << 24) | (r << 16) | (g << 8) | b`.
    pub fn to_rgba(&self, alpha: u8) -> (c: Rgba)
        requires
            self.wf(),
        ensures
            c.spec_r() == self.spec_r(),
            c.spec_g() == self.spec_g(),
            c.spec_b() == self.spec_b(),
            c.spec_a() == alpha,
    {
        let packed: u32 = self.0 | ((alpha as u32) << 24);
        proof {
            let v = self.0;
            let a32 = alpha as u32;
            assert((v < 0x1000000 && a32 < 0x100) ==> {
                let p = v | (a32 << 24);
                ((p >> 16) & 0xFF) == ((v >> 16) & 0xFF) && ((p >> 8) & 0xFF) == ((v >> 8) & 0xFF)
                    && (p & 0xFF) == (v & 0xFF) && ((p >> 24) & 0xFF) == a32
            }) by (bit_vector);
        }
        Rgba(packed)
    }
}

/// A 32-bit color with alpha, packed as `(a << 24) | (r << 16) | (g << 8) | b`.
#[derive(Copy, Clone, Eq, PartialEq, Debug, Hash, Structural)]
pub struct Rgba(u32);

impl Rgba {
    /// The packed value.
    pub closed spec fn value(self) -> u32 {
        self.0
    }

    /// The red component, as recorded in bits 16 to 23.
    pub open spec fn spec_r(self) -> u8 {
        ((self.value() >> 16) & 0xFF) as u8
    }

    /// The green component, as recorded in bits 8 to 15.
    pub open spec fn spec_g(self) -> u8 {
        ((self.value() >> 8) & 0xFF) as u8
    }

    /// The blue component, as recorded in bits 0 to 7.
    pub open spec fn spec_b(self) -> u8 {
        (self.value() & 0xFF) as u8
    }

    /// The alpha component, as recorded in bits 24 to 31.
    pub open spec fn spec_a(self) -> u8 {
        ((self.value() >> 24) & 0xFF) as u8
    }

    /// Creates a new RGBA value, where the values are in the sRGB color set.
    pub fn new(r: u8, g: u8, b: u8, a: u8) -> (c: Self)
        ensures
            c.spec_r() == r,
            c.spec_g() == g,
            c.spec_b() == b,
            c.spec_a() == a,
    {
        let packed: u32 = ((a as u32) << 24) | ((r as u32) << 16) | ((g as u32) << 8) | (b as u32);
        proof {
            let r32 = r as u32;
            let g32 = g as u32;
            let b32 = b as u32;
            let a32 = a as u32;
            assert((r32 < 0x100 && g32 < 0x100 && b32 < 0x100 && a32 < 0x100) ==> {
                let p = (a32 << 24) | (r32 << 16) | (g32 << 8) | b32;
                ((p >> 16) & 0xFF) == r32 && ((p >> 8) & 0xFF) == g32 && (p & 0xFF) == b32 && ((p
                    >> 24) & 0xFF) == a32
            }) by (bit_vector);
        }
        Rgba(packed)
    }

    /// The red component.
    pub fn r(&self) -> (r: u8)
        ensures
            r == self.spec_r(),
    {
        ((self.0 >> 16) & 0xFF) as u8
    }

    /// The green component.
    pub fn g(&self) -> (g: u8)
        ensures
            g == self.spec_g(),
    {
        ((self.0 >> 8) & 0xFF) as u8
    }

    /// The blue component.
    pub fn b(&self) -> (b: u8)
        ensures
            b == self.spec_b(),
    {
        (self.0 & 0xFF) as u8
    }

    /// The alpha component.
    pub fn a(&self) -> (a: u8)
        ensures
            a == self.spec_a(),
    {
        ((self.0 >> 24) & 0xFF) as u8
    }

    /// Returns an integer with the format `(a << 24) | (r << 16) | (g << 8) | b`.
    pub fn rgba(&self) -> (v: u32)
        ensures
            v == self.value(),
    {
        self.0
    }

    /// Discards the alpha component.
    pub fn to_rgb(&self) -> (c: Rgb)
        ensures
            c.wf(),
            c.spec_r() == self.spec_r(),
            c.spec_g() == self.spec_g(),
            c.spec_b() == self.spec_b(),
    {
        let packed: u32 = self.0 & 0xFFFFFF;
        proof {
            let v = self.0;
            assert({
                let p = v & 0xFFFFFF;
                p < 0x1000000 && ((p >> 16) & 0xFF) == ((v >> 16) & 0xFF) && ((p >> 8) & 0xFF) == ((
                v >> 8) & 0xFF) && (p & 0xFF) == (v & 0xFF)
            }) by (bit_vector);
        }
        Rgb(packed)
    }
}


/// Whether `c` is a hexadecimal digit.
pub open spec fn is_hex_digit(c: char) -> bool {
    ('0' <= c && c <= '9') || ('a' <= c && c <= 'f') || ('A' <= c && c <= 'F')
}

/// The value of a hexadecimal digit.
pub open spec fn hex_digit_val(c: char) -> int {
    if '0' <= c && c <= '9' {
        c as int - '0' as int
    } else if 'a' <= c && c <= 'f' {
        c as int - 'a' as int + 10
    } else {
        c as int - 'A' as int + 10
    }
}

/// The value of the hexadecimal digits `cs[i..j]`.
pub open spec fn hex_val(cs: Seq<char>, i: int, j: int) -> int
    decreases j - i,
{
    if j <= i {
        0
    } else {
        hex_val(cs, i, j - 1) * 16 + hex_digit_val(cs[j - 1])
    }
}

/// What parsing the digit half of a color literal yields: the numeric value
/// of the hexadecimal digits after an optional leading `+`, if they are
/// digits throughout, there is at least one, and the value fits in 32 bits.
pub open spec fn spec_parse_hex(cs: Seq<char>) -> Option<u32> {
    let start: int = if cs.len() > 0 && cs[0] == '+' {
        1
    } else {
        0
    };
    if cs.len() > start && (forall|m: int| start <= m < cs.len() ==> is_hex_digit(cs[m])) && hex_val(
        cs,
        start,
        cs.len() as int,
    ) <= u32::MAX {
        Some(hex_val(cs, start, cs.len() as int) as u32)
    } else {
        None
    }
}

/// The value of a hex digit run is not negative.
proof fn lemma_hex_val_nonneg(cs: Seq<char>, i: int, j: int)
    requires
        forall|m: int| i <= m < j ==> is_hex_digit(cs[m]),
    ensures
        hex_val(cs, i, j) >= 0,
    decreases j - i,
{
    if j > i {
        lemma_hex_val_nonneg(cs, i, j - 1);
        assert(is_hex_digit(cs[j - 1]));
    }
}

/// Reading more hex digits never shrinks the value.
proof fn lemma_hex_val_mono(cs: Seq<char>, i: int, j: int, k: int)
    requires
        i <= j <= k,
        forall|m: int| i <= m < k ==> is_hex_digit(cs[m]),
    ensures
        hex_val(cs, i, j) <= hex_val(cs, i, k),
    decreases k - j,
{
    if j < k {
        lemma_hex_val_mono(cs, i, j, k - 1);
        lemma_hex_val_nonneg(cs, i, k - 1);
        assert(is_hex_digit(cs[k - 1]));
    }
}

/// Parses the part of a color literal after the hash: hexadecimal digits
/// after an optional leading `+`, fitting in 32 bits.
fn parse_hex(s: &str, start: usize) -> (r: Option<u32>)
    requires
        start <= s@.len(),
    ensures
        r == spec_parse_hex(s@.subrange(start as int, s@.len() as int)),
{
    let ghost cs = s@.subrange(start as int, s@.len() as int);
    let len = s.unicode_len();
    let mut i = start;
    if i < len && s.get_char(i) == '+' {
        i = i + 1;
    }
    let ghost dstart: int = i - start;
    proof {
        if cs.len() > 0 {
            assert(cs[0] == s@[start as int]);
        }
    }
    if i >= len {
        proof {
            assert(spec_parse_hex(cs) is None);
        }
        return None;
    }
    let mut acc: u64 = 0;
    let mut k = i;
    loop
        invariant_except_break
            start <= i <= k <= len,
            len == s@.len(),
            cs == s@.subrange(start as int, s@.len() as int),
            dstart == i - start,
            (cs.len() > 0 && cs[0] == '+') ==> dstart == 1,
            !(cs.len() > 0 && cs[0] == '+') ==> dstart == 0,
            i < len,
            forall|m: int| i <= m < k ==> is_hex_digit(s@[m]),
            acc == hex_val(s@, i as int, k as int),
            acc <= u32::MAX,
        ensures
            acc <= u32::MAX,
            Some(acc as u32) == spec_parse_hex(cs),
        decreases len - k,
    {
        proof {
            assert forall|m: int| 0 <= m < cs.len() implies cs[m] == s@[start + m] by {}
        }
        if k >= len {
            proof {
                lemma_hex_val_offset(s@, cs, start as int, i as int, len as int);
                assert(cs.len() > dstart);
                assert forall|m: int| dstart <= m < cs.len() implies is_hex_digit(cs[m]) by {
                    assert(cs[m] == s@[start + m]);
                    assert(i <= start + m < len);
                }
                assert(hex_val(cs, dstart, cs.len() as int) == hex_val(s@, i as int, len as int));
                assert(spec_parse_hex(cs) == Some(acc as u32));
            }
            break ;
        }
        let c = s.get_char(k);
        let v: u32 = c as u32;
        let d: u64 = if v >= 48 && v <= 57 {
            (v - 48) as u64
        } else if v >= 97 && v <= 102 {
            (v - 87) as u64
        } else if v >= 65 && v <= 70 {
            (v - 55) as u64
        } else {
            proof {
                assert(!is_hex_digit(s@[k as int]));
                assert(cs[k - start] == s@[k as int]);
                assert(dstart <= k - start < cs.len());
                assert(spec_parse_hex(cs) is None);
            }
            return None;
        };
        let next: u64 = acc * 16 + d;
        if next > 0xFFFF_FFFF {
            proof {
                assert(is_hex_digit(s@[k as int]));
                assert(hex_digit_val(s@[k as int]) == d as int);
                assert(hex_val(s@, i as int, k as int + 1) == next as int);
                if forall|m: int| dstart <= m < cs.len() ==> is_hex_digit(cs[m]) {
                    assert forall|m: int| i <= m < len implies is_hex_digit(s@[m]) by {
                        assert(cs[m - start] == s@[m]);
                        assert(dstart <= m - start < cs.len());
                        assert(is_hex_digit(cs[m - start]));
                    }
                    lemma_hex_val_mono(s@, i as int, k as int + 1, len as int);
                    lemma_hex_val_offset(s@, cs, start as int, i as int, len as int);
                    assert(hex_val(cs, dstart, cs.len() as int) > u32::MAX);
                }
                assert(spec_parse_hex(cs) is None);
            }
            return None;
        }
        proof {
            assert(is_hex_digit(s@[k as int]));
            assert(hex_digit_val(s@[k as int]) == d as int);
            assert(hex_val(s@, i as int, k as int + 1) == next as int);
        }
        acc = next;
        k = k + 1;
    }
    Some(acc as u32)
}

/// The digit run reads the same through the tail view of the string.
pub open spec fn hex_val_shift(s: Seq<char>, cs: Seq<char>, start: int, i: int, j: int) -> bool {
    hex_val(s, i, j) == hex_val(cs, i - start, j - start)
}

/// Shifting the window leaves a hex value unchanged.
proof fn lemma_hex_val_offset(s: Seq<char>, cs: Seq<char>, start: int, i: int, j: int)
    requires
        0 <= start <= i <= j <= s.len(),
        cs == s.subrange(start, s.len() as int),
    ensures
        hex_val_shift(s, cs, start, i, j),
    decreases j - i,
{
    if j > i {
        lemma_hex_val_offset(s, cs, start, i, j - 1);
        assert(cs[j - 1 - start] == s[j - 1]);
    }
}

impl Rgb {
    /// Parses a `#RRGGBB` color literal: a hash, then the hexadecimal value,
    /// at least seven bytes in all. The value is stored as parsed.
    pub fn from_str(s: &str) -> (r: Result<Self, ParseColorError>)
        ensures
            ({
                let bytes = vstd::utf8::encode_utf8(s@).len();
                if bytes < 7 {
                    r == Err::<Rgb, ParseColorError>(ParseColorError::TooShort)
                } else if s@[0] != '#' {
                    r == Err::<Rgb, ParseColorError>(ParseColorError::NoHash)
                } else {
                    match spec_parse_hex(s@.subrange(1, s@.len() as int)) {
                        Some(v) => r matches Ok(c) && c.value() == v,
                        None => r == Err::<Rgb, ParseColorError>(ParseColorError::NotHex),
                    }
                }
            }),
    {
        let bytes = s.as_bytes().len();
        proof {
            broadcast use vstd::slice::axiom_spec_len;

        }
        if bytes < 7 {
            Err(ParseColorError::TooShort)
        } else if s.get_char(0) != '#' {
            proof {
                crate::chars::lemma_char_utf8_len_bounds(s@[0]);
                if s@.len() == 0 {
                    assert(vstd::utf8::encode_utf8(s@).len() == 0);
                }
            }
            Err(ParseColorError::NoHash)
        } else {
            match Self::hex_tail(s) {
                Some(v) => Ok(Rgb(v)),
                None => Err(ParseColorError::NotHex),
            }
        }
    }

    /// Parses the digits after the hash.
    fn hex_tail(s: &str) -> (r: Option<u32>)
        requires
            s@.len() >= 1,
        ensures
            r == spec_parse_hex(s@.subrange(1, s@.len() as int)),
    {
        parse_hex(s, 1)
    }
}

impl Rgba {
    /// Parses a `#AARRGGBB` color literal: a hash, then the hexadecimal
    /// value, at least nine bytes in all. The value is stored as parsed.
    pub fn from_str(s: &str) -> (r: Result<Self, ParseColorError>)
        ensures
            ({
                let bytes = vstd::utf8::encode_utf8(s@).len();
                if bytes < 9 {
                    r == Err::<Rgba, ParseColorError>(ParseColorError::TooShort)
                } else if s@[0] != '#' {
                    r == Err::<Rgba, ParseColorError>(ParseColorError::NoHash)
                } else {
                    match spec_parse_hex(s@.subrange(1, s@.len() as int)) {
                        Some(v) => r matches Ok(c) && c.value() == v,
                        None => r == Err::<Rgba, ParseColorError>(ParseColorError::NotHex),
                    }
                }
            }),
    {
        let bytes = s.as_bytes().len();
        proof {
            broadcast use vstd::slice::axiom_spec_len;

        }
        if bytes < 9 {
            Err(ParseColorError::TooShort)
        } else if s.get_char(0) != '#' {
            Err(ParseColorError::NoHash)
        } else {
            match parse_hex(s, 1) {
                Some(v) => Ok(Rgba(v)),
                None => Err(ParseColorError::NotHex),
            }
        }
    }
}

} // verus!
