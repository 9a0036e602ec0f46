use vstd::prelude::*;
use vstd::string::{StringExecFns, StrSliceExecFns, StringSliceAdditionalSpecFns};
use crate::color::{RGB, hex_code, hex_string, parse_hex, parse_hex_color};

verus! {

/// An operation on one entry of a list of colors.
#[derive(Debug, Clone, Copy, PartialEq, Eq, Structural)]
pub enum VecOp {
    MoveUp,
    MoveDown,
    MoveTop,
    MoveBottom,
    Duplicate,
    Delete,
}

/// A named color.
#[derive(Debug, Clone, PartialEq, Eq)]
pub struct ColorItem {
    /// The name.
    pub name: String,
    /// The red channel.
    pub r: u8,
    /// The green channel.
    pub g: u8,
    /// The blue channel.
    pub b: u8,
}

impl ColorItem {
    /// Creates a named color from its channels.
    pub fn new(name: String, r: u8, g: u8, b: u8) -> (c: ColorItem)
        ensures
            c.name@ == name@,
            c.r == r && c.g == g && c.b == b,
    {
        ColorItem { name, r, g, b }
    }

    /// The color as `#rrggbb` in lowercase hexadecimal.
    pub fn get_hex(&self) -> (s: String)
        ensures
            s@ == hex_code(self.r, self.g, self.b),
    {
        hex_string(self.r, self.g, self.b)
    }

    /// Reads a named color from six hexadecimal digits, with or without
    /// leading `#`; none when the text is not such a color.
    pub fn from_hex(hex: &str, name: String) -> (c: Option<ColorItem>)
        ensures
            c is Some <==> parse_hex(hex.spec_bytes()) is Some,
            c matches Some(item) ==> item.name@ == name@ && parse_hex(hex.spec_bytes())
                == Some(RGB { r: item.r, g: item.g, b: item.b }),
    {
        match parse_hex_color(hex) {
            Some(rgb) => Some(ColorItem { name, r: rgb.r, g: rgb.g, b: rgb.b }),
            None => None,
        }
    }
}


/// The decimal digit character for `d`.
pub open spec fn decimal_char(d: nat) -> char {
    (('0' as u8) + d) as char
}

/// The decimal writing of `v`, without leading zeros.
pub open spec fn decimal(v: nat) -> Seq<char>
    decreases v,
{
    if v < 10 {
        seq![decimal_char(v)]
    } else {
        decimal(v / 10).push(decimal_char(v % 10))
    }
}

/// `c` is an ASCII decimal digit.
pub open spec fn is_digit(c: char) -> bool {
    '0' <= c <= '9'
}

/// The number of ASCII digits at the end of `s`.
pub open spec fn trailing_digits(s: Seq<char>) -> nat
    decreases s.len(),
{
    if s.len() > 0 && is_digit(s.last()) {
        1 + trailing_digits(s.drop_last())
    } else {
        0
    }
}

/// The value of a sequence of ASCII digits.
pub open spec fn digits_value(s: Seq<char>) -> nat
    decreases s.len(),
{
    if s.len() == 0 {
        0
    } else {
        digits_value(s.drop_last()) * 10 + ((s.last() as u32 - '0' as u32) as nat)
    }
}

/// The name of a copy of an entry named `s`: a name that ends in ` #n`,
/// `n` a decimal number below the largest `u32`, gets `n + 1` in its place;
/// any other name gets ` #1` appended.
pub open spec fn copy_name(s: Seq<char>) -> Seq<char> {
    let k = trailing_digits(s);
    let digits = s.subrange(s.len() - k, s.len() as int);
    if k > 0 && s.len() >= k + 2 && s[s.len() - k - 1] == '#' && s[s.len() - k - 2] == ' '
        && digits_value(digits) < u32::MAX {
        s.subrange(0, s.len() - k) + decimal(digits_value(digits) + 1)
    } else {
        s + seq![' ', '#', '1']
    }
}

fn decimal_str(d: u32) -> (s: &'static str)
    requires
        d < 10,
    ensures
        s@ == seq![decimal_char(d as nat)],
{
    proof {
        reveal_strlit("0");
        reveal_strlit("1");
        reveal_strlit("2");
        reveal_strlit("3");
        reveal_strlit("4");
        reveal_strlit("5");
        reveal_strlit("6");
        reveal_strlit("7");
        reveal_strlit("8");
        reveal_strlit("9");
    }
    match d {
        0 => "0",
        1 => "1",
        2 => "2",
        3 => "3",
        4 => "4",
        5 => "5",
        6 => "6",
        7 => "7",
        8 => "8",
        _ => "9",
    }
}

/// Appends the decimal writing of `v` to `s`.
fn append_decimal(s: &mut String, v: u32)
    ensures
        final(s)@ == old(s)@ + decimal(v as nat),
    decreases v,
{
    if v >= 10 {
        append_decimal(s, v / 10);
    }
    s.append(decimal_str(v % 10));
    proof {
        if v >= 10 {
            assert(old(s)@ + decimal((v / 10) as nat) + seq![decimal_char((v % 10) as nat)]
                =~= old(s)@ + decimal(v as nat));
        } else {
            assert(v % 10 == v);
        }
    }
}

proof fn lemma_trailing_digits(s: Seq<char>)
    ensures
        trailing_digits(s) <= s.len(),
        forall|i: int| s.len() - trailing_digits(s) <= i < s.len() ==> is_digit(#[trigger] s[i]),
        trailing_digits(s) < s.len() ==> !is_digit(s[s.len() - trailing_digits(s) - 1]),
    decreases s.len(),
{
    if s.len() > 0 && is_digit(s.last()) {
        lemma_trailing_digits(s.drop_last());
        assert forall|i: int| s.len() - trailing_digits(s) <= i < s.len() implies is_digit(#[trigger] s[i]) by {
            if i < s.len() - 1 {
                assert(s[i] == s.drop_last()[i]);
            }
        }
        if trailing_digits(s) < s.len() {
            assert(s[s.len() - trailing_digits(s) - 1] == s.drop_last()[s.len() - trailing_digits(s) - 1]);
        }
    }
}

proof fn lemma_trailing_digits_of_prefix(s: Seq<char>, j: int)
    requires
        0 <= j <= s.len(),
        forall|i: int| j <= i < s.len() ==> is_digit(#[trigger] s[i]),
        j == 0 || !is_digit(s[j - 1]),
    ensures
        trailing_digits(s) == s.len() - j,
    decreases s.len(),
{
    if s.len() > j {
        assert(s.drop_last().len() == s.len() - 1);
        assert forall|i: int| j <= i < s.drop_last().len() implies is_digit(#[trigger] s.drop_last()[i]) by {
            assert(s.drop_last()[i] == s[i]);
        }
        if j > 0 {
            assert(s.drop_last()[j - 1] == s[j - 1]);
        }
        lemma_trailing_digits_of_prefix(s.drop_last(), j);
    }
}

/// Whether character `i` of `s` is an ASCII digit.
fn digit_at(s: &str, i: usize) -> (b: bool)
    requires
        i < s@.len(),
    ensures
        b == is_digit(s@[i as int]),
{
    let c = s.get_char(i);
    '0' <= c && c <= '9'
}

/// The name for a copy of an entry named `origin`.
pub fn get_copy_name(origin: &str) -> (r: String)
    ensures
        r@ == copy_name(origin@),
{
    let n = origin.unicode_len();
    let mut j = n;
    while j > 0 && digit_at(origin, j - 1)
        invariant
            j <= n,
            n == origin@.len(),
            forall|i: int| j <= i < n ==> is_digit(#[trigger] origin@[i]),
        decreases j,
    {
        j = j - 1;
    }
    proof {
        lemma_trailing_digits_of_prefix(origin@, j as int);
    }
    let ghost s = origin@;
    let ghost k = n - j;
    if j < n && j >= 2 && origin.get_char(j - 1) == '#' && origin.get_char(j - 2) == ' ' {
        let mut value: u64 = 0;
        let mut t = j;
        let mut fits = true;
        while t < n
            invariant
                j <= t <= n,
                n == s.len(),
                s == origin@,
                forall|i: int| j <= i < n ==> is_digit(#[trigger] s[i]),
                fits ==> value == digits_value(s.subrange(j as int, t as int)) && value <= u32::MAX,
                !fits ==> digits_value(s.subrange(j as int, t as int)) > u32::MAX,
            decreases n - t,
        {
            let c = origin.get_char(t);
            let d = (c as u32) - ('0' as u32);
            proof {
                assert(is_digit(s[t as int]));
                assert(s.subrange(j as int, t as int + 1).drop_last() =~= s.subrange(j as int, t as int));
                assert(s.subrange(j as int, t as int + 1).last() == s[t as int]);
            }
            if fits {
                let next = value * 10 + d as u64;
                if next > 0xFFFF_FFFF {
                    fits = false;
                } else {
                    value = next;
                }
            } else {
                proof {
                    let prev = digits_value(s.subrange(j as int, t as int));
                    assert(prev * 10 >= prev) by (nonlinear_arith)
                        requires
                            prev >= 0,
                    ;
                }
            }
            t = t + 1;
        }
        proof {
            assert(s.subrange(j as int, n as int) == s.subrange(s.len() - k, s.len() as int));
        }
        if fits && value < 0xFFFF_FFFF {
            let mut r = String::from_str(origin.substring_char(0, j));
            append_decimal(&mut r, (value + 1) as u32);
            return r;
        }
    }
    proof {
        reveal_strlit(" #1");
    }
    let mut r = String::from_str(origin);
    r.append(" #1");
    proof {
        assert(r@ =~= copy_name(origin@));
    }
    r
}

impl VecOp {
    /// Applies this operation to entry `index` of `colors`: moves it one
    /// place up or down, to the top or the bottom (where there is room),
    /// inserts before it a copy under the name `get_copy_name` gives, or
    /// deletes it.
    pub fn apply(&self, colors: &mut Vec<ColorItem>, index: usize)
        requires
            index < old(colors).len(),
        ensures
            ({
                let o = old(colors)@;
                let f = final(colors)@;
                let i = index as int;
                match *self {
                    VecOp::MoveUp => f == if i > 0 { o.update(i, o[i - 1]).update(i - 1, o[i]) } else { o },
                    VecOp::MoveDown => f == if i + 1 < o.len() { o.update(i, o[i + 1]).update(i + 1, o[i]) } else { o },
                    VecOp::MoveTop => f == if i > 0 { seq![o[i]] + o.remove(i) } else { o },
                    VecOp::MoveBottom => f == if i + 1 < o.len() { o.remove(i).push(o[i]) } else { o },
                    VecOp::Duplicate => f.len() == o.len() + 1 && f.remove(i) == o && f[i].name@ == copy_name(o[i].name@)
                        && f[i].r == o[i].r && f[i].g == o[i].g && f[i].b == o[i].b,
                    VecOp::Delete => f == o.remove(i),
                }
            }),
    {
        let ghost o = colors@;
        match self {
            VecOp::MoveUp => {
                if index > 0 {
                    swap_entries(colors, index, index - 1);
                }
            },
            VecOp::MoveDown => {
                if index + 1 < colors.len() {
                    swap_entries(colors, index, index + 1);
                }
            },
            VecOp::MoveTop => {
                if index > 0 {
                    let color = colors.remove(index);
                    colors.insert(0, color);
                    proof {
                        assert(colors@ =~= seq![o[index as int]] + o.remove(index as int));
                    }
                }
            },
            VecOp::MoveBottom => {
                if index + 1 < colors.len() {
                    let color = colors.remove(index);
                    colors.push(color);
                }
            },
            VecOp::Duplicate => {
                let source = &colors[index];
                let copy = ColorItem {
                    name: get_copy_name(source.name.as_str()),
                    r: source.r,
                    g: source.g,
                    b: source.b,
                };
                colors.insert(index, copy);
                proof {
                    assert(colors@.remove(index as int) =~= o);
                }
            },
            VecOp::Delete => {
                colors.remove(index);
            },
        }
    }
}

/// Exchanges entries `a` and `b`.
fn swap_entries(colors: &mut Vec<ColorItem>, a: usize, b: usize)
    requires
        a < old(colors).len(),
        b < old(colors).len(),
        a != b,
    ensures
        final(colors)@ == old(colors)@.update(a as int, old(colors)@[b as int]).update(b as int, old(colors)@[a as int]),
{
    let mut slot = ColorItem { name: String::new(), r: 0, g: 0, b: 0 };
    colors.set_and_swap(a, &mut slot);
    colors.set_and_swap(b, &mut slot);
    colors.set_and_swap(a, &mut slot);
}

} // verus!
