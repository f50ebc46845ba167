//! Color types, hex parsing, and exact color distance.

use vstd::prelude::*;

verus! {

/// An RGB color with byte-valued channels.  All pixel math in this crate is
/// stated over these bytes; a "normalized" channel is the byte divided by 255.
#[derive(Clone, Copy, PartialEq, Eq, Structural, Debug)]
pub struct RgbColor {
    pub r: u8,
    pub g: u8,
    pub b: u8,
}

/// An RGBA color with byte-valued channels.
#[derive(Clone, Copy, PartialEq, Eq, Structural, Debug)]
pub struct RgbaColor {
    pub r: u8,
    pub g: u8,
    pub b: u8,
    pub a: u8,
}

/// A foreground color request: either fixed by the caller or left for the
/// deduction pass to resolve.
#[derive(Clone, Copy, PartialEq, Eq, Structural, Debug)]
pub enum ForegroundColorSpec {
    /// A color given by the caller, kept verbatim.
    Known(RgbColor),
    /// A slot to be filled from the image's own color content.
    Unknown,
}

/// The channel a hex parse failure was detected in.
#[derive(Clone, Copy, PartialEq, Eq, Structural, Debug)]
pub enum ColorComponent {
    Red,
    Green,
    Blue,
}

/// Why a hex color string was rejected.
#[derive(Clone, Copy, PartialEq, Eq, Structural, Debug)]
pub enum ParseColorError {
    /// After the optional leading `#` is removed, the string must hold
    /// exactly 3 or 6 characters; this carries the length that was found.
    InvalidLength(usize),
    /// The named component held a character that is not a hex digit.
    InvalidComponent(ColorComponent),
}

pub open spec fn is_hex_digit(c: char) -> bool {
    ('0' <= c && c <= '9') || ('a' <= c && c <= 'f') || ('A' <= c && c <= 'F')
}

pub open spec fn hex_digit_val(c: char) -> int {
    if '0' <= c && c <= '9' {
        c as int - '0' as int
    } else if 'a' <= c && c <= 'f' {
        c as int - 'a' as int + 10
    } else {
        c as int - 'A' as int + 10
    }
}

/// The characters of `s` after one optional leading `#`.
pub open spec fn strip_hash_prefix(s: Seq<char>) -> Seq<char> {
    if s.len() > 0 && s[0] == '#' {
        s.drop_first()
    } else {
        s
    }
}

/// What a well-formed shorthand hex triple (`f00`) denotes.
pub open spec fn spec_hex3_color(h: Seq<char>) -> RgbColor {
    (RgbColor {
        r: (17 * hex_digit_val(h[0])) as u8,
        g: (17 * hex_digit_val(h[1])) as u8,
        b: (17 * hex_digit_val(h[2])) as u8,
    })
}

/// What a well-formed full hex triple (`ff0000`) denotes.
pub open spec fn spec_hex6_color(h: Seq<char>) -> RgbColor {
    (RgbColor {
        r: (16 * hex_digit_val(h[0]) + hex_digit_val(h[1])) as u8,
        g: (16 * hex_digit_val(h[2]) + hex_digit_val(h[3])) as u8,
        b: (16 * hex_digit_val(h[4]) + hex_digit_val(h[5])) as u8,
    })
}

/// What parsing a hex color string yields, as a function of its characters.
pub open spec fn spec_parse_hex_color(s: Seq<char>) -> Result<RgbColor, ParseColorError> {
    let h = strip_hash_prefix(s);
    if h.len() == 3 {
        if !is_hex_digit(h[0]) {
            Err(ParseColorError::InvalidComponent(ColorComponent::Red))
        } else if !is_hex_digit(h[1]) {
            Err(ParseColorError::InvalidComponent(ColorComponent::Green))
        } else if !is_hex_digit(h[2]) {
            Err(ParseColorError::InvalidComponent(ColorComponent::Blue))
        } else {
            Ok(spec_hex3_color(h))
        }
    } else if h.len() == 6 {
        if !(is_hex_digit(h[0]) && is_hex_digit(h[1])) {
            Err(ParseColorError::InvalidComponent(ColorComponent::Red))
        } else if !(is_hex_digit(h[2]) && is_hex_digit(h[3])) {
            Err(ParseColorError::InvalidComponent(ColorComponent::Green))
        } else if !(is_hex_digit(h[4]) && is_hex_digit(h[5])) {
            Err(ParseColorError::InvalidComponent(ColorComponent::Blue))
        } else {
            Ok(spec_hex6_color(h))
        }
    } else {
        Err(ParseColorError::InvalidLength(h.len() as usize))
    }
}

/// What parsing one foreground request yields.
pub open spec fn spec_parse_foreground_spec(s: Seq<char>) -> Result<
    ForegroundColorSpec,
    ParseColorError,
> {
    if s == "auto"@ {
        Ok(ForegroundColorSpec::Unknown)
    } else {
        match spec_parse_hex_color(s) {
            Ok(c) => Ok(ForegroundColorSpec::Known(c)),
            Err(e) => Err(e),
        }
    }
}

/// The value of one hex digit, or `None` if `c` is not a hex digit.
fn hex_digit_value(c: char) -> (r: Option<u8>)
    ensures
        r is Some <==> is_hex_digit(c),
        r is Some ==> r->0 == hex_digit_val(c) && r->0 <= 15,
{
    if '0' <= c && c <= '9' {
        Some((c as u32 - '0' as u32) as u8)
    } else if 'a' <= c && c <= 'f' {
        Some((c as u32 - 'a' as u32 + 10) as u8)
    } else if 'A' <= c && c <= 'F' {
        Some((c as u32 - 'A' as u32 + 10) as u8)
    } else {
        None
    }
}

/// Parse a hex color string into an [`RgbColor`].
///
/// One optional leading `#` is ignored; the remainder must be a 3-character
/// shorthand (each digit doubled, `f00` meaning `ff0000`) or a 6-character
/// full form.  The error names the offending component or the bad length.
pub fn parse_hex_color(hex: &str) -> (r: Result<RgbColor, ParseColorError>)
    ensures
        r == spec_parse_hex_color(hex@),
        ({
            let h = strip_hash_prefix(hex@);
            match r {
                Ok(c) => {
                    ||| (h.len() == 3 && is_hex_digit(h[0]) && is_hex_digit(h[1])
                        && is_hex_digit(h[2]) && c == spec_hex3_color(h))
                    ||| (h.len() == 6 && is_hex_digit(h[0]) && is_hex_digit(h[1])
                        && is_hex_digit(h[2]) && is_hex_digit(h[3]) && is_hex_digit(h[4])
                        && is_hex_digit(h[5]) && c == spec_hex6_color(h))
                },
                Err(ParseColorError::InvalidLength(l)) => l == h.len() && h.len() != 3
                    && h.len() != 6,
                Err(ParseColorError::InvalidComponent(comp)) => {
                    ||| (h.len() == 3 && match comp {
                        ColorComponent::Red => !is_hex_digit(h[0]),
                        ColorComponent::Green => is_hex_digit(h[0]) && !is_hex_digit(h[1]),
                        ColorComponent::Blue => is_hex_digit(h[0]) && is_hex_digit(h[1])
                            && !is_hex_digit(h[2]),
                    })
                    ||| (h.len() == 6 && match comp {
                        ColorComponent::Red => !(is_hex_digit(h[0]) && is_hex_digit(h[1])),
                        ColorComponent::Green => is_hex_digit(h[0]) && is_hex_digit(h[1])
                            && !(is_hex_digit(h[2]) && is_hex_digit(h[3])),
                        ColorComponent::Blue => is_hex_digit(h[0]) && is_hex_digit(h[1])
                            && is_hex_digit(h[2]) && is_hex_digit(h[3])
                            && !(is_hex_digit(h[4]) && is_hex_digit(h[5])),
                    })
                },
            }
        }),
{
    let n = hex.unicode_len();
    let mut i: usize = 0;
    if n > 0 && hex.get_char(0) == '#' {
        i = 1;
        proof {
            assert(strip_hash_prefix(hex@) =~= hex@.skip(1));
        }
    } else {
        proof {
            assert(strip_hash_prefix(hex@) =~= hex@.skip(0));
        }
    }
    let ghost h = strip_hash_prefix(hex@);
    proof {
        assert(h =~= hex@.skip(i as int));
    }
    let rem = n - i;
    if rem == 3 {
        proof {
            assert(h[0] == hex@[i as int]);
            assert(h[1] == hex@[i + 1]);
            assert(h[2] == hex@[i + 2]);
        }
        let d0 = match hex_digit_value(hex.get_char(i)) {
            Some(v) => v,
            None => {
                return Err(ParseColorError::InvalidComponent(ColorComponent::Red));
            },
        };
        let d1 = match hex_digit_value(hex.get_char(i + 1)) {
            Some(v) => v,
            None => {
                return Err(ParseColorError::InvalidComponent(ColorComponent::Green));
            },
        };
        let d2 = match hex_digit_value(hex.get_char(i + 2)) {
            Some(v) => v,
            None => {
                return Err(ParseColorError::InvalidComponent(ColorComponent::Blue));
            },
        };
        Ok(RgbColor { r: 17 * d0, g: 17 * d1, b: 17 * d2 })
    } else if rem == 6 {
        proof {
            assert forall|j: int| 0 <= j < 6 implies h[j] == hex@[i + j] by {}
        }
        let d0 = match hex_digit_value(hex.get_char(i)) {
            Some(v) => v,
            None => {
                return Err(ParseColorError::InvalidComponent(ColorComponent::Red));
            },
        };
        let d1 = match hex_digit_value(hex.get_char(i + 1)) {
            Some(v) => v,
            None => {
                return Err(ParseColorError::InvalidComponent(ColorComponent::Red));
            },
        };
        let d2 = match hex_digit_value(hex.get_char(i + 2)) {
            Some(v) => v,
            None => {
                return Err(ParseColorError::InvalidComponent(ColorComponent::Green));
            },
        };
        let d3 = match hex_digit_value(hex.get_char(i + 3)) {
            Some(v) => v,
            None => {
                return Err(ParseColorError::InvalidComponent(ColorComponent::Green));
            },
        };
        let d4 = match hex_digit_value(hex.get_char(i + 4)) {
            Some(v) => v,
            None => {
                return Err(ParseColorError::InvalidComponent(ColorComponent::Blue));
            },
        };
        let d5 = match hex_digit_value(hex.get_char(i + 5)) {
            Some(v) => v,
            None => {
                return Err(ParseColorError::InvalidComponent(ColorComponent::Blue));
            },
        };
        Ok(RgbColor { r: 16 * d0 + d1, g: 16 * d2 + d3, b: 16 * d4 + d5 })
    } else {
        Err(ParseColorError::InvalidLength(rem))
    }
}

/// Parse one foreground request: the token `auto` asks for deduction, any
/// other string must be a hex color.
pub fn parse_foreground_spec(spec: &str) -> (r: Result<ForegroundColorSpec, ParseColorError>)
    ensures
        r == spec_parse_foreground_spec(spec@),
        spec@ == "auto"@ ==> r == Ok::<_, ParseColorError>(ForegroundColorSpec::Unknown),
        spec@ != "auto"@ ==> match r {
            Ok(ForegroundColorSpec::Known(c)) => parse_hex_spec_ok(spec@, c),
            Ok(ForegroundColorSpec::Unknown) => false,
            Err(e) => parse_hex_spec_err(spec@, e),
        },
{
    let n = spec.unicode_len();
    if n == 4 && spec.get_char(0) == 'a' && spec.get_char(1) == 'u' && spec.get_char(2) == 't'
        && spec.get_char(3) == 'o' {
        proof {
            reveal_strlit("auto");
            assert(spec@ =~= "auto"@);
        }
        Ok(ForegroundColorSpec::Unknown)
    } else {
        proof {
            reveal_strlit("auto");
        }
        match parse_hex_color(spec) {
            Ok(c) => Ok(ForegroundColorSpec::Known(c)),
            Err(e) => Err(e),
        }
    }
}

/// The successful-parse condition of [`parse_hex_color`], shared with
/// [`parse_foreground_spec`].
pub open spec fn parse_hex_spec_ok(s: Seq<char>, c: RgbColor) -> bool {
    let h = strip_hash_prefix(s);
    ||| (h.len() == 3 && is_hex_digit(h[0]) && is_hex_digit(h[1]) && is_hex_digit(h[2])
        && c == spec_hex3_color(h))
    ||| (h.len() == 6 && is_hex_digit(h[0]) && is_hex_digit(h[1]) && is_hex_digit(h[2])
        && is_hex_digit(h[3]) && is_hex_digit(h[4]) && is_hex_digit(h[5])
        && c == spec_hex6_color(h))
}

/// The failed-parse condition of [`parse_hex_color`], shared with
/// [`parse_foreground_spec`].
pub open spec fn parse_hex_spec_err(s: Seq<char>, e: ParseColorError) -> bool {
    let h = strip_hash_prefix(s);
    match e {
        ParseColorError::InvalidLength(l) => l == h.len() && h.len() != 3 && h.len() != 6,
        ParseColorError::InvalidComponent(comp) => {
            ||| (h.len() == 3 && match comp {
                ColorComponent::Red => !is_hex_digit(h[0]),
                ColorComponent::Green => is_hex_digit(h[0]) && !is_hex_digit(h[1]),
                ColorComponent::Blue => is_hex_digit(h[0]) && is_hex_digit(h[1])
                    && !is_hex_digit(h[2]),
            })
            ||| (h.len() == 6 && match comp {
                ColorComponent::Red => !(is_hex_digit(h[0]) && is_hex_digit(h[1])),
                ColorComponent::Green => is_hex_digit(h[0]) && is_hex_digit(h[1])
                    && !(is_hex_digit(h[2]) && is_hex_digit(h[3])),
                ColorComponent::Blue => is_hex_digit(h[0]) && is_hex_digit(h[1])
                    && is_hex_digit(h[2]) && is_hex_digit(h[3])
                    && !(is_hex_digit(h[4]) && is_hex_digit(h[5])),
            })
        },
    }
}

/// The square of an integer.
pub open spec fn sq(x: int) -> int {
    x * x
}

/// Squared Euclidean distance between two colors, in byte units.
pub open spec fn dist2(c1: RgbColor, c2: RgbColor) -> int {
    sq(c1.r - c2.r) + sq(c1.g - c2.g) + sq(c1.b - c2.b)
}

/// The square of the difference of two bytes.
fn sq_diff(a: u8, b: u8) -> (s: u32)
    ensures
        s == sq(a - b),
        s <= 65025,
{
    let d: i32 = a as i32 - b as i32;
    proof {
        assert(d * d == sq(a - b) && 0 <= d * d <= 65025) by (nonlinear_arith)
            requires
                -255 <= d <= 255,
                d == a - b,
        ;
    }
    (d * d) as u32
}

/// Squared Euclidean distance between two colors, in byte units.
pub fn color_dist2(c1: &RgbColor, c2: &RgbColor) -> (d: u32)
    ensures
        d == dist2(*c1, *c2),
        d <= 195075,
{
    sq_diff(c1.r, c2.r) + sq_diff(c1.g, c2.g) + sq_diff(c1.b, c2.b)
}

/// Whether two colors lie strictly within a closeness threshold, given in
/// thousandths of a normalized unit: the test is
/// `sqrt(dist2) / 255 < threshold_milli / 1000`, squared so that it is exact.
pub open spec fn within_threshold(d2: int, threshold_milli: int) -> bool {
    d2 * 1000000 < threshold_milli * threshold_milli * 65025
}

/// Exact form of the strict closeness test on squared byte distance.
pub fn dist2_below_threshold(d2: u32, threshold_milli: u32) -> (r: bool)
    requires
        d2 <= 195075,
        threshold_milli <= 1000,
    ensures
        r == within_threshold(d2 as int, threshold_milli as int),
{
    proof {
        assert(0 <= (threshold_milli as int) * (threshold_milli as int) <= 1000000)
            by (nonlinear_arith)
            requires
                0 <= threshold_milli <= 1000,
        ;
    }
    let lhs: u64 = d2 as u64 * 1000000;
    let rhs: u64 = threshold_milli as u64 * threshold_milli as u64 * 65025;
    lhs < rhs
}

} // verus!
