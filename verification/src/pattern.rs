//! The integer hashes behind the board's decorations: which faint noise
//! dots are drawn, how strongly each lit text cell shimmers, and how bright
//! each speckle glows.

use vstd::prelude::*;

verus! {

/// `v & mask` for a non-negative mask stays between 0 and the mask.
proof fn lemma_and_range(v: i32, mask: i32)
    requires
        mask == 255 || mask == 15 || mask == 7,
    ensures
        0 <= v & mask <= mask,
{
    assert(0 <= v & 255 <= 255) by (bit_vector);
    assert(0 <= v & 15 <= 15) by (bit_vector);
    assert(0 <= v & 7 <= 7) by (bit_vector);
}

/// Noise hash of the board position `(x, y)`.
pub open spec fn noise_hash(x: i32, y: i32) -> i32 {
    ((x * 37 + y * 101) as i32) & 255
}

/// Below this hash a noise dot is drawn.
pub const NOISE_THRESHOLD: i32 = 22;

/// The noise level of the dot at `(x, y)`, or `None` when no dot is drawn
/// there.
pub fn noise_level(x: i32, y: i32) -> (r: Option<i32>)
    requires
        i32::MIN <= x * 37 <= i32::MAX,
        i32::MIN <= y * 101 <= i32::MAX,
        i32::MIN <= x * 37 + y * 101 <= i32::MAX,
    ensures
        noise_hash(x, y) < NOISE_THRESHOLD ==> r == Some(noise_hash(x, y)),
        noise_hash(x, y) >= NOISE_THRESHOLD ==> r is None,
        r matches Some(h) ==> 0 <= h < NOISE_THRESHOLD,
{
    let h = (x * 37 + y * 101) & 255;
    proof {
        lemma_and_range((x * 37 + y * 101) as i32, 255);
    }
    if h < NOISE_THRESHOLD {
        Some(h)
    } else {
        None
    }
}

/// Shimmer hash of the cell drawn at `(x, y)`.
pub open spec fn shimmer_hash(x: i32, y: i32) -> i32 {
    ((x * 29 + y * 91) as i32) & 255
}

/// The shimmer level, 0 to 255, of the cell drawn at `(x, y)`.
pub fn shimmer_level(x: i32, y: i32) -> (r: i32)
    requires
        i32::MIN <= x * 29 <= i32::MAX,
        i32::MIN <= y * 91 <= i32::MAX,
        i32::MIN <= x * 29 + y * 91 <= i32::MAX,
    ensures
        r == shimmer_hash(x, y),
        0 <= r <= 255,
{
    proof {
        lemma_and_range((x * 29 + y * 91) as i32, 255);
    }
    (x * 29 + y * 91) & 255
}

/// How a speckle glows: the first three dimly, the next three brighter, the
/// rest brightest, each with a level from its position.
#[derive(Clone, Copy, Debug, PartialEq, Eq, Structural)]
pub enum Glow {
    /// Level 0 to 15.
    Dim(i32),
    /// Level 0 to 15.
    Mid(i32),
    /// Level 0 to 7.
    Bright(i32),
}

/// The glow of the `i`-th speckle, at (`row`, `col`).
pub open spec fn glow_of(i: int, row: i32, col: i32) -> Glow {
    if i < 3 {
        Glow::Dim(((row * 13 + col * 7) as i32) & 15)
    } else if i < 6 {
        Glow::Mid(((row * 23 + col * 11) as i32) & 15)
    } else {
        Glow::Bright(((row * 31 + col * 17) as i32) & 7)
    }
}

/// The glow of the `i`-th speckle.
pub fn speckle_glow(i: usize, row: i32, col: i32) -> (r: Glow)
    requires
        i < 3 ==> i32::MIN <= row * 13 <= i32::MAX && i32::MIN <= col * 7 <= i32::MAX
            && i32::MIN <= row * 13 + col * 7 <= i32::MAX,
        3 <= i < 6 ==> i32::MIN <= row * 23 <= i32::MAX && i32::MIN <= col * 11 <= i32::MAX
            && i32::MIN <= row * 23 + col * 11 <= i32::MAX,
        6 <= i ==> i32::MIN <= row * 31 <= i32::MAX && i32::MIN <= col * 17 <= i32::MAX
            && i32::MIN <= row * 31 + col * 17 <= i32::MAX,
    ensures
        r == glow_of(i as int, row, col),
{
    if i < 3 {
        Glow::Dim((row * 13 + col * 7) & 15)
    } else if i < 6 {
        Glow::Mid((row * 23 + col * 11) & 15)
    } else {
        Glow::Bright((row * 31 + col * 17) & 7)
    }
}

} // verus!
