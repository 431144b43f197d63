//! Window icons: size check of the raw RGBA data and rounding of the corners.

use vstd::prelude::*;

verus! {

/// Why icon data was refused.
#[derive(Clone, Copy, Debug, PartialEq, Eq, Structural)]
pub enum IconError {
    /// The data holds `got` bytes where `expected` were needed.
    InvalidSize { expected: usize, got: usize },
}

/// Accepts raw icon data of exactly `expected` bytes.
pub fn icon_from_bytes(data: Vec<u8>, expected: usize) -> (r: Result<Vec<u8>, IconError>)
    ensures
        data.len() == expected ==> r == Ok::<Vec<u8>, IconError>(data),
        data.len() != expected ==> r == Err::<Vec<u8>, IconError>(
            IconError::InvalidSize { expected, got: data.len() },
        ),
{
    let got = data.len();
    if got == expected {
        Ok(data)
    } else {
        Err(IconError::InvalidSize { expected, got })
    }
}

/// Pixel `(x, y)` lies in one of the four `r` by `r` corner squares of a
/// `dim` by `dim` image.
pub open spec fn in_corner(x: int, y: int, dim: int, r: int) -> bool {
    (x < r || x >= dim - r) && (y < r || y >= dim - r)
}

/// The centre coordinate of the rounding circle for coordinate `v`.
pub open spec fn corner_center(v: int, dim: int, r: int) -> int {
    if v < r {
        r
    } else {
        dim - 1 - r
    }
}

/// Pixel `(x, y)` is cut away by corners rounded with radius `r`: it lies in
/// a corner square, farther than `r` from that corner's circle centre.
pub open spec fn cut_away(x: int, y: int, dim: int, r: int) -> bool {
    let dx = x - corner_center(x, dim, r);
    let dy = y - corner_center(y, dim, r);
    in_corner(x, y, dim, r) && dx * dx + dy * dy > r * r
}

/// Byte `i` of RGBA data of width `dim` is the alpha byte of a pixel of
/// the `dim` by `dim` image that rounding cuts away.
pub open spec fn alpha_cut(i: int, dim: int, r: int) -> bool {
    i % 4 == 3 && i / 4 < dim * dim && cut_away((i / 4) % dim, (i / 4) / dim, dim, r)
}

/// RGBA data of width `dim` with the corners rounded with radius `r`.
pub open spec fn rounded(data: Seq<u8>, dim: int, r: int) -> Seq<u8> {
    Seq::new(data.len(), |i: int| if alpha_cut(i, dim, r) { 0u8 } else { data[i] })
}

/// Rounding the corners twice is rounding them once.
pub proof fn lemma_rounding_idempotent(data: Seq<u8>, dim: int, r: int)
    ensures
        rounded(rounded(data, dim, r), dim, r) == rounded(data, dim, r),
{
    assert(rounded(rounded(data, dim, r), dim, r) =~= rounded(data, dim, r));
}

/// Rounding changes nothing but alpha bytes.
pub proof fn lemma_rounding_keeps_colour(data: Seq<u8>, dim: int, r: int)
    ensures
        forall|i: int|
            0 <= i < data.len() && i % 4 != 3 ==> #[trigger] rounded(data, dim, r)[i] == data[i],
{
}

/// The corners are rounded alike: when the corner squares do not overlap,
/// the pixels cut away are the same after mirroring the image left to right
/// or top to bottom, and the alpha byte of pixel `(x, y)` is cut exactly
/// when the pixel is.
pub proof fn lemma_rounding_symmetric(dim: int, r: int, x: int, y: int)
    requires
        0 <= r,
        2 * r <= dim,
        0 <= x < dim,
        0 <= y < dim,
    ensures
        alpha_cut((y * dim + x) * 4 + 3, dim, r) == cut_away(x, y, dim, r),
        cut_away(dim - 1 - x, y, dim, r) == cut_away(x, y, dim, r),
        cut_away(x, dim - 1 - y, dim, r) == cut_away(x, y, dim, r),
{
    let p = y * dim + x;
    assert(p < dim * dim) by (nonlinear_arith)
        requires
            0 <= y < dim,
            0 <= x < dim,
            p == y * dim + x,
    ;
    vstd::arithmetic::div_mod::lemma_fundamental_div_mod_converse(p, dim, y, x);
    vstd::arithmetic::div_mod::lemma_fundamental_div_mod_converse(p * 4 + 3, 4, p, 3);
    let mx = dim - 1 - x;
    let my = dim - 1 - y;
    if x < r || x >= dim - r {
        assert(mx - corner_center(mx, dim, r) == -(x - corner_center(x, dim, r)));
        assert((mx - corner_center(mx, dim, r)) * (mx - corner_center(mx, dim, r)) == (x
            - corner_center(x, dim, r)) * (x - corner_center(x, dim, r))) by (nonlinear_arith)
            requires
                mx - corner_center(mx, dim, r) == -(x - corner_center(x, dim, r)),
        {
        }
    }
    if y < r || y >= dim - r {
        assert(my - corner_center(my, dim, r) == -(y - corner_center(y, dim, r)));
        assert((my - corner_center(my, dim, r)) * (my - corner_center(my, dim, r)) == (y
            - corner_center(y, dim, r)) * (y - corner_center(y, dim, r))) by (nonlinear_arith)
            requires
                my - corner_center(my, dim, r) == -(y - corner_center(y, dim, r)),
        {
        }
    }
}

/// Rounding cuts a pixel `(x, y)` exactly when it lies in one of the four
/// `r` by `r` corner squares and its squared Euclidean distance from that
/// corner's circle centre (`r` from the corner's two sides) exceeds `r * r`:
/// its alpha byte becomes 0, and every pixel on or inside a corner circle
/// keeps its alpha.
pub proof fn lemma_rounding_circle(data: Seq<u8>, dim: int, r: int, x: int, y: int)
    requires
        0 <= r,
        0 <= x < dim,
        0 <= y < dim,
        data.len() >= dim * dim * 4,
    ensures
        ({
            let i = (y * dim + x) * 4 + 3;
            let cx = if x < r {
                r
            } else {
                dim - 1 - r
            };
            let cy = if y < r {
                r
            } else {
                dim - 1 - r
            };
            &&& 0 <= i < data.len()
            &&& rounded(data, dim, r)[i] == if (x < r || x >= dim - r) && (y < r || y >= dim - r)
                && (x - cx) * (x - cx) + (y - cy) * (y - cy) > r * r {
                0u8
            } else {
                data[i]
            }
        }),
{
    let p = y * dim + x;
    assert(0 <= p < dim * dim) by (nonlinear_arith)
        requires
            0 <= y < dim,
            0 <= x < dim,
            p == y * dim + x,
    ;
    vstd::arithmetic::div_mod::lemma_fundamental_div_mod_converse(p, dim, y, x);
    vstd::arithmetic::div_mod::lemma_fundamental_div_mod_converse(p * 4 + 3, 4, p, 3);
}

proof fn lemma_sq_bound(d: int, r: int, dim: int)
    requires
        0 <= d <= r <= dim,
        dim * dim * 4 <= u32::MAX,
    ensures
        0 <= d * d <= r * r <= dim * dim,
{
    assert(0 <= d * d <= r * r <= dim * dim) by (nonlinear_arith)
        requires
            0 <= d <= r <= dim,
    ;
}

/// Makes the corners of a square RGBA image of side `dim` transparent
/// outside circles of radius `r`: the alpha byte of each cut-away pixel
/// becomes 0 and every other byte keeps its value, bytes after the image
/// included.
pub fn round_icon_corners(data: &mut Vec<u8>, dim: u32, r: u32)
    requires
        old(data).len() >= dim * dim * 4,
        dim * dim * 4 <= u32::MAX,
        r <= dim,
    ensures
        final(data).len() == old(data).len(),
        final(data)@ == rounded(old(data)@, dim as int, r as int),
        forall|i: int|
            0 <= i < old(data).len() ==> #[trigger] final(data)@[i] == if alpha_cut(
                i,
                dim as int,
                r as int,
            ) {
                0u8
            } else {
                old(data)@[i]
            },
{
    let ghost orig = data@;
    let ghost d = dim as int;
    let ghost rr = r as int;
    proof {
        assert(dim * dim <= dim * dim * 4) by (nonlinear_arith);
    }
    let mut y: u32 = 0;
    while y < dim
        invariant
            y <= dim,
            data@.len() == orig.len(),
            orig.len() >= d * d * 4,
            d == dim,
            rr == r,
            r <= dim,
            dim * dim * 4 <= u32::MAX,
            forall|i: int|
                0 <= i < orig.len() ==> #[trigger] data@[i] == if alpha_cut(i, d, rr) && i / 4
                    < y * d {
                    0u8
                } else {
                    orig[i]
                },
        decreases dim - y,
    {
        let mut x: u32 = 0;
        while x < dim
            invariant
                y < dim,
                x <= dim,
                data@.len() == orig.len(),
                orig.len() >= d * d * 4,
                d == dim,
                rr == r,
                r <= dim,
                dim * dim * 4 <= u32::MAX,
                forall|i: int|
                    0 <= i < orig.len() ==> #[trigger] data@[i] == if alpha_cut(i, d, rr) && i
                        / 4 < y * d + x {
                        0u8
                    } else {
                        orig[i]
                    },
            decreases dim - x,
        {
            let ghost p = y * d + x;
            proof {
                assert(y * d + x < d * d) by (nonlinear_arith)
                    requires
                        y < d,
                        x < d,
                ;
                assert(p * 4 + 3 < d * d * 4) by (nonlinear_arith)
                    requires
                        p < d * d,
                ;
                vstd::arithmetic::div_mod::lemma_fundamental_div_mod_converse(
                    p,
                    d,
                    y as int,
                    x as int,
                );
                vstd::arithmetic::div_mod::lemma_fundamental_div_mod_converse(
                    p * 4 + 3,
                    4,
                    p,
                    3,
                );
            }
            let in_corner = (x < r || x >= dim - r) && (y < r || y >= dim - r);
            let mut cut = false;
            if in_corner {
                let cx = if x < r {
                    r
                } else {
                    dim - 1 - r
                };
                let cy = if y < r {
                    r
                } else {
                    dim - 1 - r
                };
                let dx = if x >= cx {
                    x - cx
                } else {
                    cx - x
                };
                let dy = if y >= cy {
                    y - cy
                } else {
                    cy - y
                };
                proof {
                    lemma_sq_bound(dx as int, rr, d);
                    lemma_sq_bound(dy as int, rr, d);
                    assert((x - cx) * (x - cx) == dx * dx) by (nonlinear_arith)
                        requires
                            dx == if x >= cx {
                                x - cx
                            } else {
                                cx - x
                            },
                    ;
                    assert((y - cy) * (y - cy) == dy * dy) by (nonlinear_arith)
                        requires
                            dy == if y >= cy {
                                y - cy
                            } else {
                                cy - y
                            },
                    ;
                }
                let dist2: u64 = (dx as u64) * (dx as u64) + (dy as u64) * (dy as u64);
                let r2: u64 = (r as u64) * (r as u64);
                cut = dist2 > r2;
            }
            assert(cut == cut_away(x as int, y as int, d, rr));
            let idx = ((y * dim + x) * 4 + 3) as usize;
            if cut {
                data.set(idx, 0);
            }
            proof {
                assert forall|i: int| 0 <= i < orig.len() implies #[trigger] data@[i] == if alpha_cut(
                    i,
                    d,
                    rr,
                ) && i / 4 < y * d + x + 1 {
                    0u8
                } else {
                    orig[i]
                } by {
                    if i / 4 == p {
                        vstd::arithmetic::div_mod::lemma_fundamental_div_mod(i, 4);
                        if i % 4 == 3 {
                            assert(i == idx);
                        } else {
                            assert(i != idx);
                        }
                    } else if i / 4 > p {
                        vstd::arithmetic::div_mod::lemma_fundamental_div_mod(i, 4);
                        assert(i != idx);
                    } else {
                        vstd::arithmetic::div_mod::lemma_fundamental_div_mod(i, 4);
                        assert(i != idx);
                    }
                }
            }
            x = x + 1;
        }
        assert((y + 1) * d == y * d + d) by (nonlinear_arith);
        y = y + 1;
    }
    assert(y * d == d * d);
    assert(data@ =~= rounded(orig, d, rr));
}

} // verus!
