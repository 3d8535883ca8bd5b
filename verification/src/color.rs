//! Small color utilities on RGB triples: distances, similarity tests,
//! averages, hex notation and quantized color counts.
use vstd::prelude::*;
use crate::text::push_char;

verus! {

/// |a - b| on bytes.
pub open spec fn spec_abs_diff(a: u8, b: u8) -> int {
    if a >= b { a - b } else { b - a }
}

/// Squared euclidean distance of two colors.
pub open spec fn spec_distance_sq(a: [u8; 3], b: [u8; 3]) -> int {
    spec_abs_diff(a[0], b[0]) * spec_abs_diff(a[0], b[0])
        + spec_abs_diff(a[1], b[1]) * spec_abs_diff(a[1], b[1])
        + spec_abs_diff(a[2], b[2]) * spec_abs_diff(a[2], b[2])
}

pub fn abs_diff(a: u8, b: u8) -> (r: u32)
    ensures
        r == spec_abs_diff(a, b),
        r <= 255,
{
    if a >= b {
        (a - b) as u32
    } else {
        (b - a) as u32
    }
}

proof fn lemma_sq_bound(d: int)
    requires
        0 <= d <= 255,
    ensures
        0 <= d * d <= 65025,
{
    assert(0 <= d * d <= 65025) by (nonlinear_arith)
        requires
            0 <= d <= 255,
    ;
}

/// Squared euclidean distance of two colors, in integers.
pub fn color_distance_int(a: &[u8; 3], b: &[u8; 3]) -> (r: u32)
    ensures
        r == spec_distance_sq(*a, *b),
        r <= 195075,
{
    let dr = abs_diff(a[0], b[0]);
    let dg = abs_diff(a[1], b[1]);
    let db = abs_diff(a[2], b[2]);
    proof {
        lemma_sq_bound(dr as int);
        lemma_sq_bound(dg as int);
        lemma_sq_bound(db as int);
    }
    dr * dr + dg * dg + db * db
}

/// Whether each channel differs by less than `threshold`.
pub open spec fn spec_channels_close(a: [u8; 3], b: [u8; 3], threshold: u32) -> bool {
    &&& spec_abs_diff(a[0], b[0]) < threshold
    &&& spec_abs_diff(a[1], b[1]) < threshold
    &&& spec_abs_diff(a[2], b[2]) < threshold
}

/// Whether two colors differ by less than `threshold` in every channel.
pub fn is_similar_color(a: &[u8; 3], b: &[u8; 3], threshold: u32) -> (r: bool)
    ensures
        r == spec_channels_close(*a, *b, threshold),
{
    abs_diff(a[0], b[0]) < threshold && abs_diff(a[1], b[1]) < threshold && abs_diff(a[2], b[2]) < threshold
}

/// Whether the euclidean distance of two colors, rounded down, is below
/// `threshold`. For a whole threshold `t`, `floor(sqrt(d)) < t` holds exactly
/// when `d < t * t`; a correctly rounded square root of a whole number below
/// 2^53 never reaches the next whole number, so the floating-point form of
/// this test gives the same answer on every input.
pub fn is_within_distance(a: &[u8; 3], b: &[u8; 3], threshold: u32) -> (r: bool)
    ensures
        r == (spec_distance_sq(*a, *b) < threshold as int * threshold as int),
{
    let d = color_distance_int(a, b) as u64;
    let t = threshold as u64;
    assert(t * t <= 0xffff_fffe_0000_0001) by (nonlinear_arith)
        requires
            t <= 0xffff_ffff,
    ;
    d < t * t
}

/// Whether two colors lie within euclidean distance 100 of each other
/// (the square root is below 100 exactly when its square is below 10000).
pub fn colors_are_similar(c1: &[u8; 3], c2: &[u8; 3]) -> (r: bool)
    ensures
        r == (spec_distance_sq(*c1, *c2) < 10000),
{
    color_distance_int(c1, c2) < 10000
}

pub open spec fn spec_max3(c: [u8; 3]) -> u8 {
    if c[0] >= c[1] && c[0] >= c[2] {
        c[0]
    } else if c[1] >= c[2] {
        c[1]
    } else {
        c[2]
    }
}

pub open spec fn spec_min3(c: [u8; 3]) -> u8 {
    if c[0] <= c[1] && c[0] <= c[2] {
        c[0]
    } else if c[1] <= c[2] {
        c[1]
    } else {
        c[2]
    }
}

/// Saturation `(max - min) / max` above 0.3, for colors whose brightest
/// channel reaches 10. With whole channels the ratio lies at least 1/2550
/// away from 0.3 unless it equals 0.3, so comparing `10 * (max - min)` with
/// `3 * max` gives the answer of the floating-point comparison.
pub open spec fn spec_high_saturation(c: [u8; 3]) -> bool {
    spec_max3(c) >= 10 && 10 * (spec_max3(c) - spec_min3(c)) > 3 * spec_max3(c)
}

pub fn max3(c: &[u8; 3]) -> (r: u8)
    ensures
        r == spec_max3(*c),
{
    if c[0] >= c[1] && c[0] >= c[2] {
        c[0]
    } else if c[1] >= c[2] {
        c[1]
    } else {
        c[2]
    }
}

pub fn min3(c: &[u8; 3]) -> (r: u8)
    ensures
        r == spec_min3(*c),
{
    if c[0] <= c[1] && c[0] <= c[2] {
        c[0]
    } else if c[1] <= c[2] {
        c[1]
    } else {
        c[2]
    }
}

/// Whether a color is strongly saturated.
pub fn is_high_saturation(color: &[u8; 3]) -> (r: bool)
    ensures
        r == spec_high_saturation(*color),
{
    let max = max3(color) as u32;
    let min = min3(color) as u32;
    if max < 10 {
        return false;
    }
    10 * (max - min) > 3 * max
}

/// The channel sums of a list of colors.
pub open spec fn channel_sum(colors: Seq<[u8; 3]>, ch: int) -> int
    decreases colors.len(),
{
    if colors.len() == 0 {
        0
    } else {
        channel_sum(colors.drop_last(), ch) + colors.last()[ch]
    }
}

proof fn lemma_channel_sum_bound(colors: Seq<[u8; 3]>, ch: int)
    requires
        0 <= ch < 3,
    ensures
        0 <= channel_sum(colors, ch) <= 255 * colors.len(),
    decreases colors.len(),
{
    if colors.len() > 0 {
        lemma_channel_sum_bound(colors.drop_last(), ch);
    }
}

/// The channel-wise mean of the colors, rounded down; mid grey for none.
pub open spec fn spec_average_color(colors: Seq<[u8; 3]>) -> [u8; 3] {
    if colors.len() == 0 {
        [128u8, 128u8, 128u8]
    } else {
        [
            (channel_sum(colors, 0) / colors.len() as int) as u8,
            (channel_sum(colors, 1) / colors.len() as int) as u8,
            (channel_sum(colors, 2) / colors.len() as int) as u8,
        ]
    }
}

/// The average color of a list.
pub fn average_color(colors: &[[u8; 3]]) -> (r: [u8; 3])
    requires
        255 * colors@.len() <= u32::MAX,
    ensures
        r == spec_average_color(colors@),
{
    if colors.len() == 0 {
        return [128, 128, 128];
    }
    let mut s0: u32 = 0;
    let mut s1: u32 = 0;
    let mut s2: u32 = 0;
    let mut i: usize = 0;
    while i < colors.len()
        invariant
            0 <= i <= colors@.len(),
            255 * colors@.len() <= u32::MAX,
            s0 == channel_sum(colors@.take(i as int), 0),
            s1 == channel_sum(colors@.take(i as int), 1),
            s2 == channel_sum(colors@.take(i as int), 2),
        decreases colors@.len() - i,
    {
        proof {
            assert(colors@.take(i + 1).drop_last() =~= colors@.take(i as int));
            lemma_channel_sum_bound(colors@.take(i + 1), 0);
            lemma_channel_sum_bound(colors@.take(i + 1), 1);
            lemma_channel_sum_bound(colors@.take(i + 1), 2);
        }
        let c = colors[i];
        s0 = s0 + c[0] as u32;
        s1 = s1 + c[1] as u32;
        s2 = s2 + c[2] as u32;
        i = i + 1;
    }
    proof {
        assert(colors@.take(colors@.len() as int) =~= colors@);
        lemma_channel_sum_bound(colors@, 0);
        lemma_channel_sum_bound(colors@, 1);
        lemma_channel_sum_bound(colors@, 2);
    }
    let n = colors.len() as u32;
    proof {
        assert(s0 / n <= 255) by (nonlinear_arith)
            requires
                s0 <= 255 * n,
                n > 0,
        ;
        assert(s1 / n <= 255) by (nonlinear_arith)
            requires
                s1 <= 255 * n,
                n > 0,
        ;
        assert(s2 / n <= 255) by (nonlinear_arith)
            requires
                s2 <= 255 * n,
                n > 0,
        ;
    }
    [(s0 / n) as u8, (s1 / n) as u8, (s2 / n) as u8]
}

/// The upper-case hexadecimal digit of `d`.
pub open spec fn hex_digit(d: int) -> char {
    if d < 10 {
        (('0' as int) + d) as char
    } else {
        (('A' as int) + d - 10) as char
    }
}

/// Two upper-case hexadecimal digits of a byte.
pub open spec fn hex_byte(b: u8) -> Seq<char> {
    seq![hex_digit(b as int / 16), hex_digit(b as int % 16)]
}

/// `RRGGBB` in upper-case hexadecimal.
pub open spec fn spec_hex(c: [u8; 3]) -> Seq<char> {
    hex_byte(c[0]) + hex_byte(c[1]) + hex_byte(c[2])
}

fn hex_char(d: u8) -> (r: char)
    requires
        d < 16,
    ensures
        r == hex_digit(d as int),
{
    match d {
        0 => '0',
        1 => '1',
        2 => '2',
        3 => '3',
        4 => '4',
        5 => '5',
        6 => '6',
        7 => '7',
        8 => '8',
        9 => '9',
        10 => 'A',
        11 => 'B',
        12 => 'C',
        13 => 'D',
        14 => 'E',
        _ => 'F',
    }
}

/// Appends the two hexadecimal digits of a byte.
pub fn push_hex_byte(s: &mut String, b: u8)
    ensures
        final(s)@ == old(s)@ + hex_byte(b),
{
    push_char(s, hex_char(b / 16));
    push_char(s, hex_char(b % 16));
    proof {
        assert(s@ =~= old(s)@ + hex_byte(b));
    }
}

/// A color as `RRGGBB`.
pub fn color_to_hex(color: &[u8; 3]) -> (r: String)
    ensures
        r@ == spec_hex(*color),
{
    let mut s = String::new();
    push_hex_byte(&mut s, color[0]);
    push_hex_byte(&mut s, color[1]);
    push_hex_byte(&mut s, color[2]);
    proof {
        assert(s@ =~= spec_hex(*color));
    }
    s
}

} // verus!
