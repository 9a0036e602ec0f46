use vstd::prelude::*;
use vstd::string::StringSliceAdditionalSpecFns;

verus! {

/// A color with three 8-bit channels.
#[derive(Debug, Clone, Copy, PartialEq, Eq, Structural)]
pub struct RGB {
    /// The red channel.
    pub r: u8,
    /// The green channel.
    pub g: u8,
    /// The blue channel.
    pub b: u8,
}

/// The lowercase hexadecimal digit for `d`.
pub open spec fn hex_char(d: u8) -> char {
    if d < 10 {
        (('0' as u8) + d) as char
    } else {
        (('a' as u8) + d - 10) as char
    }
}

/// The two lowercase hexadecimal digits of a byte.
pub open spec fn hex_pair(v: u8) -> Seq<char> {
    seq![hex_char(v / 16), hex_char(v % 16)]
}

/// `#rrggbb` in lowercase hexadecimal.
pub open spec fn hex_code(r: u8, g: u8, b: u8) -> Seq<char> {
    seq!['#'] + hex_pair(r) + hex_pair(g) + hex_pair(b)
}

/// The value of a hexadecimal digit, in either case.
pub open spec fn hex_value(c: u8) -> Option<u8> {
    if 48 <= c <= 57 {
        Some((c - 48) as u8)
    } else if 97 <= c <= 102 {
        Some((c - 87) as u8)
    } else if 65 <= c <= 70 {
        Some((c - 55) as u8)
    } else {
        None
    }
}

/// The byte written by two hexadecimal digits.
pub open spec fn hex_byte(hi: u8, lo: u8) -> Option<u8> {
    match (hex_value(hi), hex_value(lo)) {
        (Some(h), Some(l)) => Some((h * 16 + l) as u8),
        _ => None,
    }
}

/// The number of leading `#` bytes.
pub open spec fn hash_prefix_len(s: Seq<u8>) -> nat
    decreases s.len(),
{
    if s.len() > 0 && s[0] == 35 {
        1 + hash_prefix_len(s.drop_first())
    } else {
        0
    }
}

/// The color that `s` writes as six hexadecimal digits after any number of
/// leading `#`, or none.
pub open spec fn parse_hex(s: Seq<u8>) -> Option<RGB> {
    let d = s.skip(hash_prefix_len(s) as int);
    if d.len() != 6 {
        None
    } else {
        match (hex_byte(d[0], d[1]), hex_byte(d[2], d[3]), hex_byte(d[4], d[5])) {
            (Some(r), Some(g), Some(b)) => Some(RGB { r, g, b }),
            _ => None,
        }
    }
}

fn digit_str(d: u8) -> (s: &'static str)
    requires
        d < 16,
    ensures
        s@ == seq![hex_char(d)],
{
    proof {
        reveal_strlit("0");
        reveal_strlit("1");
        reveal_strlit("2");
        reveal_strlit("3");
        reveal_strlit("4");
        reveal_strlit("5");
        reveal_strlit("6");
        reveal_strlit("7");
        reveal_strlit("8");
        reveal_strlit("9");
        reveal_strlit("a");
        reveal_strlit("b");
        reveal_strlit("c");
        reveal_strlit("d");
        reveal_strlit("e");
        reveal_strlit("f");
    }
    match d {
        0 => "0",
        1 => "1",
        2 => "2",
        3 => "3",
        4 => "4",
        5 => "5",
        6 => "6",
        7 => "7",
        8 => "8",
        9 => "9",
        10 => "a",
        11 => "b",
        12 => "c",
        13 => "d",
        14 => "e",
        _ => "f",
    }
}

fn digit_value(c: u8) -> (v: Option<u8>)
    ensures
        v == hex_value(c),
{
    if 48 <= c && c <= 57 {
        Some(c - 48)
    } else if 97 <= c && c <= 102 {
        Some(c - 87)
    } else if 65 <= c && c <= 70 {
        Some(c - 55)
    } else {
        None
    }
}

fn byte_value(hi: u8, lo: u8) -> (v: Option<u8>)
    ensures
        v == hex_byte(hi, lo),
{
    match (digit_value(hi), digit_value(lo)) {
        (Some(h), Some(l)) => Some(h * 16 + l),
        _ => None,
    }
}

/// Writes `#rrggbb` in lowercase hexadecimal.
pub fn hex_string(r: u8, g: u8, b: u8) -> (s: String)
    ensures
        s@ == hex_code(r, g, b),
{
    proof {
        reveal_strlit("#");
    }
    let mut s = String::from_str("#");
    s.append(digit_str(r / 16));
    s.append(digit_str(r % 16));
    s.append(digit_str(g / 16));
    s.append(digit_str(g % 16));
    s.append(digit_str(b / 16));
    s.append(digit_str(b % 16));
    proof {
        assert(s@ =~= hex_code(r, g, b));
    }
    s
}

/// Reads a color written as six hexadecimal digits, in either case, after
/// any number of leading `#`.
pub fn parse_hex_color(hex: &str) -> (c: Option<RGB>)
    ensures
        c == parse_hex(hex.spec_bytes()),
{
    let bytes = hex.as_bytes();
    let mut start: usize = 0;
    proof {
        assert(bytes@.skip(0) =~= bytes@);
    }
    while start < bytes.len() && bytes[start] == 35
        invariant
            start <= bytes@.len(),
            bytes@ == hex.spec_bytes(),
            forall|t: int| 0 <= t < start ==> bytes@[t] == 35,
            hash_prefix_len(bytes@) == start + hash_prefix_len(bytes@.skip(start as int)),
        decreases bytes@.len() - start,
    {
        proof {
            assert(bytes@.skip(start as int).drop_first() =~= bytes@.skip(start as int + 1));
        }
        start = start + 1;
    }
    proof {
        assert(hash_prefix_len(bytes@.skip(start as int)) == 0);
    }
    if bytes.len() - start != 6 {
        return None;
    }
    let r = byte_value(bytes[start], bytes[start + 1]);
    let g = byte_value(bytes[start + 2], bytes[start + 3]);
    let b = byte_value(bytes[start + 4], bytes[start + 5]);
    match (r, g, b) {
        (Some(r), Some(g), Some(b)) => Some(RGB { r, g, b }),
        _ => None,
    }
}

impl RGB {
    /// Creates a color from its three channels.
    pub fn new(r: u8, g: u8, b: u8) -> (c: RGB)
        ensures
            c == (RGB { r, g, b }),
    {
        RGB { r, g, b }
    }

    /// The smallest channel value.
    pub fn min_value() -> (v: u8)
        ensures
            v == 0,
    {
        0
    }

    /// The largest channel value.
    pub fn max_value() -> (v: u8)
        ensures
            v == 255,
    {
        255
    }

    /// The red channel.
    pub fn r(&self) -> (v: u8)
        ensures
            v == self.r,
    {
        self.r
    }

    /// The green channel.
    pub fn g(&self) -> (v: u8)
        ensures
            v == self.g,
    {
        self.g
    }

    /// The blue channel.
    pub fn b(&self) -> (v: u8)
        ensures
            v == self.b,
    {
        self.b
    }

    /// This color as `#rrggbb` in lowercase hexadecimal.
    pub fn to_hex_string(&self) -> (s: String)
        ensures
            s@ == hex_code(self.r, self.g, self.b),
    {
        hex_string(self.r, self.g, self.b)
    }
}

} // verus!
