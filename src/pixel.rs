//! Colours, their gradients and their averages.
use vstd::prelude::*;

verus! {

/// Number of colour channels of a pixel.
pub const CHANNELS: usize = 4;

/// Largest square gradient between two pixels: four channels, each
/// differing by at most 255.
pub const MAX_SQUARE_GRADIENT: u32 = 260100;

/// The squared difference of two channel values.
pub open spec fn square_diff(a: u8, b: u8) -> int {
    (a as int - b as int) * (a as int - b as int)
}

/// Sum over the channels of the squared differences of two pixels.
pub open spec fn square_gradient_spec(p: [u8; 4], q: [u8; 4]) -> int {
    square_diff(p[0], q[0]) + square_diff(p[1], q[1]) + square_diff(p[2], q[2]) + square_diff(
        p[3],
        q[3],
    )
}

/// The floor of the mean of two channel values.
pub open spec fn channel_average(a: u8, b: u8) -> int {
    (a as int + b as int) / 2
}

proof fn lemma_square_diff_bounds(a: u8, b: u8)
    ensures
        0 <= square_diff(a, b) <= 65025,
{
    let d = a as int - b as int;
    assert(-255 <= d <= 255);
    assert(0 <= d * d <= 65025) by (nonlinear_arith)
        requires
            -255 <= d <= 255,
    ;
}

/// A square gradient lies between 0 and four times 255 squared.
pub proof fn lemma_square_gradient_bounds(p: [u8; 4], q: [u8; 4])
    ensures
        0 <= square_gradient_spec(p, q) <= MAX_SQUARE_GRADIENT,
{
    lemma_square_diff_bounds(p[0], q[0]);
    lemma_square_diff_bounds(p[1], q[1]);
    lemma_square_diff_bounds(p[2], q[2]);
    lemma_square_diff_bounds(p[3], q[3]);
}

fn channel_square_diff(a: u8, b: u8) -> (r: u32)
    ensures
        r as int == square_diff(a, b),
{
    proof {
        lemma_square_diff_bounds(a, b);
    }
    let d: u32 = if a >= b {
        (a - b) as u32
    } else {
        (b - a) as u32
    };
    assert(d * d == square_diff(a, b)) by (nonlinear_arith)
        requires
            d == a as int - b as int || d == b as int - a as int,
    ;
    d * d
}

/// Sum over the channels of the squared absolute differences of two pixels.
pub fn square_gradient(p: &[u8; 4], q: &[u8; 4]) -> (r: u32)
    ensures
        r as int == square_gradient_spec(*p, *q),
        r <= MAX_SQUARE_GRADIENT,
{
    proof {
        lemma_square_gradient_bounds(*p, *q);
    }
    let mut sum: u32 = 0;
    let mut i: usize = 0;
    while i < CHANNELS
        invariant
            0 <= i <= 4,
            sum as int == (if i > 0 { square_diff(p[0], q[0]) } else { 0 }) + (if i > 1 {
                square_diff(p[1], q[1])
            } else {
                0
            }) + (if i > 2 { square_diff(p[2], q[2]) } else { 0 }) + (if i > 3 {
                square_diff(p[3], q[3])
            } else {
                0
            }),
        decreases 4 - i,
    {
        proof {
            lemma_square_diff_bounds(p[i as int], q[i as int]);
            lemma_square_diff_bounds(p[0], q[0]);
            lemma_square_diff_bounds(p[1], q[1]);
            lemma_square_diff_bounds(p[2], q[2]);
        }
        sum = sum + channel_square_diff(p[i], q[i]);
        i = i + 1;
    }
    sum
}

/// The channel-wise average of two pixels, each channel rounded down.
pub fn average_pixels(pixel1: &[u8; 4], pixel2: &[u8; 4]) -> (r: [u8; 4])
    ensures
        forall|i: int| 0 <= i < 4 ==> r[i] as int == channel_average(#[trigger] pixel1[i], pixel2[i]),
{
    let r: [u8; 4] = [
        ((pixel1[0] as u16 + pixel2[0] as u16) / 2) as u8,
        ((pixel1[1] as u16 + pixel2[1] as u16) / 2) as u8,
        ((pixel1[2] as u16 + pixel2[2] as u16) / 2) as u8,
        ((pixel1[3] as u16 + pixel2[3] as u16) / 2) as u8,
    ];
    assert forall|i: int| 0 <= i < 4 implies r[i] as int == channel_average(
        #[trigger] pixel1[i],
        pixel2[i],
    ) by {
        if i == 0 {
        } else if i == 1 {
        } else if i == 2 {
        } else {
        }
    }
    r
}

} // verus!
