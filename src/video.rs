//! Frame sizes, positions and the fit of one size into another.
use vstd::prelude::*;

verus! {

/// A YUV colour.
#[derive(Debug, Clone, Copy, PartialEq, Eq, Structural)]
pub struct YuvColor {
    pub y: u8,
    pub u: u8,
    pub v: u8,
}

impl YuvColor {
    pub fn black() -> (r: Self)
        ensures
            r == (YuvColor { y: 16, u: 128, v: 128 }),
    {
        Self { y: 16, u: 128, v: 128 }
    }

    pub fn red() -> (r: Self)
        ensures
            r == (YuvColor { y: 81, u: 90, v: 240 }),
    {
        Self { y: 81, u: 90, v: 240 }
    }

    pub fn green() -> (r: Self)
        ensures
            r == (YuvColor { y: 145, u: 54, v: 34 }),
    {
        Self { y: 145, u: 54, v: 34 }
    }

    pub fn blue() -> (r: Self)
        ensures
            r == (YuvColor { y: 41, u: 240, v: 110 }),
    {
        Self { y: 41, u: 240, v: 110 }
    }
}

#[derive(Debug, Default, Clone, Copy, PartialEq, Eq, Structural, PartialOrd, Ord)]
pub struct VideoSize {
    pub width: u32,
    pub height: u32,
}

#[derive(Debug, Default, Clone, Copy, PartialEq, Eq, Structural, PartialOrd, Ord)]
pub struct Point {
    pub x: u32,
    pub y: u32,
}

impl Point {
    pub fn new(x: u32, y: u32) -> (r: Self)
        ensures
            r == (Point { x, y }),
    {
        Self { x, y }
    }

    /// The point moved by `delta`.
    pub fn add(&self, delta: &Self) -> (r: Self)
        requires
            self.x + delta.x <= u32::MAX,
            self.y + delta.y <= u32::MAX,
        ensures
            r == (Point { x: (self.x + delta.x) as u32, y: (self.y + delta.y) as u32 }),
    {
        Self { x: self.x + delta.x, y: self.y + delta.y }
    }
}

/// Where a frame of `sw` by `sh` goes, and at what size, when scaled to fit
/// `lw` by `lh` keeping its proportions: full width and centred vertically
/// when that height fits, else full height and centred horizontally.
pub open spec fn scale_fit_spec(sw: nat, sh: nat, lw: nat, lh: nat) -> (Point, VideoSize) {
    let dh = lw * sh / sw;
    if dh <= lh {
        (Point { x: 0, y: ((lh - dh) / 2) as u32 }, VideoSize { width: lw as u32, height: dh as u32 })
    } else {
        let dw = lh * sw / sh;
        (Point { x: ((lw - dw) / 2) as u32, y: 0 }, VideoSize { width: dw as u32, height: lh as u32 })
    }
}

/// See `scale_fit_spec`; the source sides must not be zero.
pub fn scale_fit(src_width: u32, src_height: u32, limit_width: u32, limit_height: u32) -> (r: (Point, VideoSize))
    requires
        src_width > 0,
        src_height > 0,
    ensures
        r == scale_fit_spec(src_width as nat, src_height as nat, limit_width as nat, limit_height as nat),
{
    let sw = src_width as u64;
    let sh = src_height as u64;
    let lw = limit_width as u64;
    let lh = limit_height as u64;
    proof {
        assert(lw * sh <= 0xFFFF_FFFF * 0xFFFF_FFFF) by (nonlinear_arith)
            requires
                lw <= 0xFFFF_FFFF,
                sh <= 0xFFFF_FFFF,
        ;
        assert(lh * sw <= 0xFFFF_FFFF * 0xFFFF_FFFF) by (nonlinear_arith)
            requires
                lh <= 0xFFFF_FFFF,
                sw <= 0xFFFF_FFFF,
        ;
    }
    let dst_height = lw * sh / sw;
    if dst_height <= lh {
        (Point::new(0, ((lh - dst_height) / 2) as u32), VideoSize::new(limit_width, dst_height as u32))
    } else {
        let dst_width = lh * sw / sh;
        proof {
            let (a, b, c, d) = (lw as int, sh as int, sw as int, lh as int);
            let q = a * b / c;
            vstd::arithmetic::div_mod::lemma_fundamental_div_mod(a * b, c);
            assert(q >= d + 1);
            assert(q * c <= a * b) by {
                vstd::arithmetic::div_mod::lemma_mod_pos_bound(a * b, c);
            }
            assert((d + 1) * c <= q * c) by (nonlinear_arith)
                requires
                    q >= d + 1,
                    c > 0,
            ;
            assert(d * c < a * b) by (nonlinear_arith)
                requires
                    (d + 1) * c <= a * b,
                    c > 0,
            ;
            let w = d * c / b;
            vstd::arithmetic::div_mod::lemma_fundamental_div_mod(d * c, b);
            vstd::arithmetic::div_mod::lemma_mod_pos_bound(d * c, b);
            assert(w * b <= d * c);
            assert(w < a) by (nonlinear_arith)
                requires
                    w * b <= d * c,
                    d * c < a * b,
                    b > 0,
            ;
        }
        (Point::new(((lw - dst_width) / 2) as u32, 0), VideoSize::new(dst_width as u32, limit_height))
    }
}

impl VideoSize {
    pub fn new(w: u32, h: u32) -> (r: Self)
        ensures
            r == (VideoSize { width: w, height: h }),
    {
        Self { width: w, height: h }
    }

    /// This size fitted into `limit`; see `scale_fit`.
    pub fn scale_fit(&self, limit: &Self) -> (r: (Point, VideoSize))
        requires
            self.width > 0,
            self.height > 0,
        ensures
            r == scale_fit_spec(self.width as nat, self.height as nat, limit.width as nat, limit.height as nat),
    {
        scale_fit(self.width, self.height, limit.width, limit.height)
    }
}

} // verus!
