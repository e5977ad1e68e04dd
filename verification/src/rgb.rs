//! The color value type: three 8-bit channels and hex formatting.

use vstd::prelude::*;
use vstd::string::StringExecFns;

verus! {

/// An immutable color value: red, green and blue channels, each in `[0, 255]`.
///
/// Equality is field-wise; ordering is lexicographic over `(r, g, b)`.
#[derive(Debug, Copy, Clone, PartialEq, Eq, Structural, PartialOrd, Ord, Hash)]
pub struct Rgb(pub u8, pub u8, pub u8);

/// The uppercase hexadecimal digit for a value in `[0, 15]`.
pub open spec fn hex_char(v: int) -> char {
    if v == 0 {
        '0'
    } else if v == 1 {
        '1'
    } else if v == 2 {
        '2'
    } else if v == 3 {
        '3'
    } else if v == 4 {
        '4'
    } else if v == 5 {
        '5'
    } else if v == 6 {
        '6'
    } else if v == 7 {
        '7'
    } else if v == 8 {
        '8'
    } else if v == 9 {
        '9'
    } else if v == 10 {
        'A'
    } else if v == 11 {
        'B'
    } else if v == 12 {
        'C'
    } else if v == 13 {
        'D'
    } else if v == 14 {
        'E'
    } else {
        'F'
    }
}

/// The seven characters of a color's hex form: `#` then two uppercase
/// digits for each of the three channels.
pub open spec fn hex_seq(c: Rgb) -> Seq<char> {
    seq![
        '#',
        hex_char(c.0 as int / 16),
        hex_char(c.0 as int % 16),
        hex_char(c.1 as int / 16),
        hex_char(c.1 as int % 16),
        hex_char(c.2 as int / 16),
        hex_char(c.2 as int % 16),
    ]
}

/// A one-character string holding the uppercase hex digit of `v`.
fn hex_digit_str(v: u8) -> (r: &'static str)
    requires
        v < 16,
    ensures
        r@.len() == 1,
        r@[0] == hex_char(v as int),
{
    if v == 0 {
        proof {
            reveal_strlit("0");
        }
        "0"
    } else if v == 1 {
        proof {
            reveal_strlit("1");
        }
        "1"
    } else if v == 2 {
        proof {
            reveal_strlit("2");
        }
        "2"
    } else if v == 3 {
        proof {
            reveal_strlit("3");
        }
        "3"
    } else if v == 4 {
        proof {
            reveal_strlit("4");
        }
        "4"
    } else if v == 5 {
        proof {
            reveal_strlit("5");
        }
        "5"
    } else if v == 6 {
        proof {
            reveal_strlit("6");
        }
        "6"
    } else if v == 7 {
        proof {
            reveal_strlit("7");
        }
        "7"
    } else if v == 8 {
        proof {
            reveal_strlit("8");
        }
        "8"
    } else if v == 9 {
        proof {
            reveal_strlit("9");
        }
        "9"
    } else if v == 10 {
        proof {
            reveal_strlit("A");
        }
        "A"
    } else if v == 11 {
        proof {
            reveal_strlit("B");
        }
        "B"
    } else if v == 12 {
        proof {
            reveal_strlit("C");
        }
        "C"
    } else if v == 13 {
        proof {
            reveal_strlit("D");
        }
        "D"
    } else if v == 14 {
        proof {
            reveal_strlit("E");
        }
        "E"
    } else {
        proof {
            reveal_strlit("F");
        }
        "F"
    }
}

/// Appends the two uppercase hex digits of one channel value.
fn append_hex_byte(s: &mut String, v: u8)
    ensures
        final(s)@ == old(s)@ + seq![hex_char(v as int / 16), hex_char(v as int % 16)],
{
    let hi = hex_digit_str(v / 16);
    let lo = hex_digit_str(v % 16);
    s.append(hi);
    s.append(lo);
    proof {
        assert(final(s)@ =~= old(s)@ + seq![hex_char(v as int / 16), hex_char(v as int % 16)]);
    }
}

/// The square of an integer.
pub open spec fn sq(x: int) -> int {
    x * x
}

/// Squared Euclidean distance between two colors in (r, g, b) space.
///
/// Squared distances order pairs of colors exactly as the real-valued
/// Euclidean distance does, so every nearest-color decision in the library
/// is made on this integer quantity.
pub open spec fn dist_sq(a: Rgb, b: Rgb) -> int {
    sq(a.0 - b.0) + sq(a.1 - b.1) + sq(a.2 - b.2)
}

/// Computes the squared Euclidean distance between two colors.
pub fn dist_sq_exec(a: &Rgb, b: &Rgb) -> (r: u32)
    ensures
        r as int == dist_sq(*a, *b),
{
    let dr: i32 = a.0 as i32 - b.0 as i32;
    let dg: i32 = a.1 as i32 - b.1 as i32;
    let db: i32 = a.2 as i32 - b.2 as i32;
    proof {
        assert(0 <= dr * dr <= 65025 && 0 <= dg * dg <= 65025 && 0 <= db * db <= 65025)
            by (nonlinear_arith)
            requires
                -255 <= dr <= 255,
                -255 <= dg <= 255,
                -255 <= db <= 255,
        ;
    }
    (dr * dr + dg * dg + db * db) as u32
}

impl Rgb {
    /// Formats the color as `#RRGGBB` with uppercase hex digits.
    pub fn to_hex(&self) -> (r: String)
        ensures
            r@ == hex_seq(*self),
    {
        let mut s = String::new();
        proof {
            reveal_strlit("#");
        }
        s.append("#");
        append_hex_byte(&mut s, self.0);
        append_hex_byte(&mut s, self.1);
        append_hex_byte(&mut s, self.2);
        proof {
            assert(s@ =~= hex_seq(*self));
        }
        s
    }
}

} // verus!
