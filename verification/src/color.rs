//! RGB colors rendered as the protocol's `#rrggbb` strings: a `#`
//! followed by six lowercase hex digits, always exactly seven
//! characters.

use vstd::prelude::*;

verus! {

/// The lowercase hexadecimal digit character for `n` in `0..=15`.
pub open spec fn hex_char(n: int) -> char {
    if n == 0 { '0' }
    else if n == 1 { '1' }
    else if n == 2 { '2' }
    else if n == 3 { '3' }
    else if n == 4 { '4' }
    else if n == 5 { '5' }
    else if n == 6 { '6' }
    else if n == 7 { '7' }
    else if n == 8 { '8' }
    else if n == 9 { '9' }
    else if n == 10 { 'a' }
    else if n == 11 { 'b' }
    else if n == 12 { 'c' }
    else if n == 13 { 'd' }
    else if n == 14 { 'e' }
    else if n == 15 { 'f' }
    else { '?' }
}

/// Two lowercase hex digits for one byte.
pub open spec fn hex2(n: nat) -> Seq<char> {
    seq![hex_char((n / 16) as int), hex_char((n % 16) as int)]
}

/// The `#rrggbb` rendering of an RGB triple.
pub open spec fn color_text(r: nat, g: nat, b: nat) -> Seq<char> {
    seq!['#'] + hex2(r) + hex2(g) + hex2(b)
}

/// The rendering of white, the default block color.
pub open spec fn white_text() -> Seq<char> {
    color_text(0xff, 0xff, 0xff)
}

/// The rendering of red, the over-threshold block color.
pub open spec fn red_text() -> Seq<char> {
    color_text(0xff, 0x00, 0x00)
}

/// Red and white render differently, so a block's color names its
/// threshold verdict unambiguously.
pub proof fn lemma_red_ne_white()
    ensures
        red_text() != white_text(),
{
    assert(red_text()[3] == '0');
    assert(white_text()[3] == 'f');
}

/// An RGB color.
pub struct Color {
    pub r: u8,
    pub g: u8,
    pub b: u8,
}

/// Builds a `Color` from its three channels.
pub fn color(r: u8, g: u8, b: u8) -> (c: Color)
    ensures
        c.r == r,
        c.g == g,
        c.b == b,
{
    Color { r, g, b }
}

/// The single-character string for one lowercase hex digit.
fn hex_str(d: u8) -> (r: &'static str)
    requires
        d < 16,
    ensures
        r@ =~= seq![hex_char(d as int)],
{
    proof {
        reveal_strlit("0");
        reveal_strlit("1");
        reveal_strlit("2");
        reveal_strlit("3");
        reveal_strlit("4");
        reveal_strlit("5");
        reveal_strlit("6");
        reveal_strlit("7");
        reveal_strlit("8");
        reveal_strlit("9");
        reveal_strlit("a");
        reveal_strlit("b");
        reveal_strlit("c");
        reveal_strlit("d");
        reveal_strlit("e");
        reveal_strlit("f");
    }
    match d {
        0 => "0",
        1 => "1",
        2 => "2",
        3 => "3",
        4 => "4",
        5 => "5",
        6 => "6",
        7 => "7",
        8 => "8",
        9 => "9",
        10 => "a",
        11 => "b",
        12 => "c",
        13 => "d",
        14 => "e",
        _ => "f",
    }
}

impl Color {
    /// Renders the color as `#rrggbb`: `#` then six lowercase hex
    /// digits, seven characters in all.
    pub fn to_string(&self) -> (s: String)
        ensures
            s@ == color_text(self.r as nat, self.g as nat, self.b as nat),
            s@.len() == 7,
    {
        proof {
            reveal_strlit("#");
        }
        let mut s = String::from_str("#");
        s.append(hex_str(self.r / 16));
        s.append(hex_str(self.r % 16));
        s.append(hex_str(self.g / 16));
        s.append(hex_str(self.g % 16));
        s.append(hex_str(self.b / 16));
        s.append(hex_str(self.b % 16));
        proof {
            assert(s@ =~= color_text(self.r as nat, self.g as nat, self.b as nat));
        }
        s
    }
}

} // verus!
