//! Borrowed ARGB pixel-buffer canvas for widget rendering.
//!
//! [`Canvas`] wraps a caller-owned `&mut [u32]` slice and exposes drawing
//! primitives that never write outside it. Pixels are stored row-major in
//! `0xAARRGGBB` format: the pixel `(x, y)` stands at `y * width + x`.
//!
//! Translucent drawing takes the blend operator of the compositor as a function
//! from a source pixel (with alpha) and a destination pixel to the blended pixel.

use vstd::prelude::*;

use crate::geometry::Rect;

verus! {

/// Errors produced by [`Canvas::new`].
#[derive(Debug, Clone, Copy, PartialEq, Eq, Structural)]
pub enum CanvasError {
    /// The supplied pixel slice does not have the expected length
    /// (`width * height` pixels).
    InvalidSize,
}

impl CanvasError {
    /// The message shown to a user.
    pub fn message(&self) -> (r: &'static str)
        ensures
            r@ == "nexacore-ui canvas: pixel slice length does not match width * height"@,
    {
        "nexacore-ui canvas: pixel slice length does not match width * height"
    }
}

/// Pixels with every pixel `(x, y)` of value `p` changed to `f(x, y, p)`.
pub open spec fn repainted(s: Seq<u32>, w: int, f: spec_fn(int, int, u32) -> u32) -> Seq<u32> {
    Seq::new(s.len(), |i: int| f(i % w, i / w, s[i]))
}

/// Pixels with one colour painted wherever `on` holds.
pub open spec fn painted(s: Seq<u32>, w: int, on: spec_fn(int, int) -> bool, color: u32) -> Seq<
    u32,
> {
    repainted(
        s,
        w,
        |x: int, y: int, p: u32|
            if on(x, y) {
                color
            } else {
                p
            },
    )
}

/// The colour of `src` made opaque.
pub open spec fn opaque(src: u32) -> u32 {
    0xFF00_0000 | (src & 0x00FF_FFFF)
}

/// The colour of `src` with the given alpha.
pub open spec fn with_alpha(src: u32, alpha: u8) -> u32 {
    ((alpha as u32) << 24) | (src & 0x00FF_FFFF)
}

/// Whether `r` is a source colour over `dst` by a coverage: nothing at 0, the opaque colour at
/// 255, and in between what the blend operator makes of the colour with the coverage as alpha.
pub open spec fn composited<B: Fn(u32, u32) -> u32>(
    blend: B,
    dst: u32,
    src: u32,
    coverage: u8,
    r: u32,
) -> bool {
    if coverage == 0 {
        r == dst
    } else if coverage == 0xFF {
        r == opaque(src)
    } else {
        call_ensures(blend, (with_alpha(src, coverage), dst), r)
    }
}

/// Alpha-over composite: paints the colour of `src` over an opaque destination `dst` by
/// `coverage` (`0` keeps `dst`, `255` replaces it), through the blend operator in between.
pub fn composite<B: Fn(u32, u32) -> u32>(dst: u32, src: u32, coverage: u8, blend: &B) -> (r: u32)
    requires
        forall|s: u32, d: u32| call_requires(*blend, (s, d)),
    ensures
        composited(*blend, dst, src, coverage, r),
{
    if coverage == 0 {
        return dst;
    }
    if coverage == 0xFF {
        return 0xFF00_0000 | (src & 0x00FF_FFFF);
    }
    let argb: u32 = ((coverage as u32) << 24) | (src & 0x00FF_FFFF);
    blend(argb, dst)
}

/// A row-major position belongs to one column and one row.
pub proof fn lemma_position(x: int, y: int, w: int, h: int)
    requires
        0 <= x < w,
        0 <= y < h,
    ensures
        0 <= y * w + x < w * h,
        (y * w + x) % w == x,
        (y * w + x) / w == y,
{
    vstd::arithmetic::div_mod::lemma_fundamental_div_mod_converse(y * w + x, w, y, x);
    assert(y * w + x < w * h) by (nonlinear_arith)
        requires
            0 <= x < w,
            0 <= y < h,
    ;
    assert(0 <= y * w) by (nonlinear_arith)
        requires
            0 <= y,
            0 < w,
    ;
}

/// The column and the row of a row-major position.
pub proof fn lemma_coordinates(i: int, w: int, h: int)
    requires
        0 <= i < w * h,
        0 <= w,
        0 <= h,
    ensures
        w > 0,
        0 <= i % w < w,
        0 <= i / w < h,
        i == (i / w) * w + i % w,
{
    assert(w > 0) by (nonlinear_arith)
        requires
            0 <= i < w * h,
            0 <= w,
            0 <= h,
    ;
    vstd::arithmetic::div_mod::lemma_fundamental_div_mod(i, w);
    vstd::arithmetic::div_mod::lemma_mod_bound(i, w);
    assert(w * (i / w) == (i / w) * w) by (nonlinear_arith);
    assert(0 <= i / w) by (nonlinear_arith)
        requires
            0 <= i,
            w > 0,
    ;
    assert(i / w < h) by (nonlinear_arith)
        requires
            i < w * h,
            w > 0,
            i == (i / w) * w + i % w,
            0 <= i % w,
    ;
}

/// A borrowed ARGB pixel canvas.
pub struct Canvas<'a> {
    /// The caller-owned pixel buffer.
    pixels: &'a mut [u32],
    /// Width of the canvas in pixels.
    width: u32,
    /// Height of the canvas in pixels.
    height: u32,
}

impl<'a> Canvas<'a> {
    /// The pixels, row by row.
    pub closed spec fn pix(&self) -> Seq<u32> {
        self.pixels@
    }

    /// The buffer that is borrowed.
    pub closed spec fn buffer(&self) -> &'a mut [u32] {
        self.pixels
    }

    /// The width.
    pub closed spec fn w(&self) -> int {
        self.width as int
    }

    /// The height.
    pub closed spec fn h(&self) -> int {
        self.height as int
    }

    /// There is one pixel for each position.
    pub open spec fn wf(&self) -> bool {
        &&& 0 <= self.w() <= u32::MAX
        &&& 0 <= self.h() <= u32::MAX
        &&& self.pix().len() == self.w() * self.h()
    }

    /// The pixel at a position.
    pub open spec fn at(&self, x: int, y: int) -> u32 {
        self.pix()[y * self.w() + x]
    }

    /// Creates a new [`Canvas`] backed by `pixels`.
    ///
    /// Both `width` and `height` may be zero (an empty canvas accepts all drawing
    /// calls as no-ops).
    ///
    /// # Errors
    ///
    /// Returns [`CanvasError::InvalidSize`] when `pixels.len()` does not equal
    /// `width * height`.
    pub fn new(pixels: &'a mut [u32], width: u32, height: u32) -> (r: Result<Self, CanvasError>)
        ensures
            match r {
                Ok(c) => old(pixels)@.len() == width * height && c.wf() && c.w() == width && c.h()
                    == height && c.pix() == old(pixels)@ && final(c.buffer())@ == final(pixels)@,
                Err(e) => old(pixels)@.len() != width * height && e == CanvasError::InvalidSize
                    && final(pixels)@ == old(pixels)@,
            },
    {
        assert(width * height <= 0xFFFF_FFFF * 0xFFFF_FFFF) by (nonlinear_arith)
            requires
                width <= 0xFFFF_FFFF,
                height <= 0xFFFF_FFFF,
        ;
        assert(0 <= width * height) by (nonlinear_arith);
        if pixels.len() as u64 != width as u64 * height as u64 {
            return Err(CanvasError::InvalidSize);
        }
        Ok(Canvas { pixels, width, height })
    }

    /// The canvas width in pixels.
    pub fn width(&self) -> (r: u32)
        ensures
            r == self.w(),
    {
        self.width
    }

    /// The canvas height in pixels.
    pub fn height(&self) -> (r: u32)
        ensures
            r == self.h(),
    {
        self.height
    }

    /// The position of a pixel.
    fn index(&self, x: u32, y: u32) -> (r: usize)
        requires
            self.wf(),
            x < self.w(),
            y < self.h(),
        ensures
            r == y * self.w() + x,
            r < self.pix().len(),
            (r as int) % self.w() == x,
            (r as int) / self.w() == y,
    {
        proof {
            lemma_position(x as int, y as int, self.w(), self.h());
            assert(self.pixels.len() == self.pixels@.len());
            assert(0 <= y * self.w()) by (nonlinear_arith)
                requires
                    0 <= y,
                    0 < self.w(),
            ;
            assert(y * self.width <= y * self.width + x);
        }
        (y as usize) * (self.width as usize) + (x as usize)
    }

    /// Fills the entire canvas with `color`.
    pub fn fill(&mut self, color: u32)
        requires
            old(self).wf(),
        ensures
            final(self).wf(),
            final(self).w() == old(self).w(),
            final(self).h() == old(self).h(),
            final(final(self).buffer())@ == final(old(self).buffer())@,
            final(self).pix() == Seq::new(old(self).pix().len(), |i: int| color),
    {
        let n: usize = self.pixels.len();
        let mut i: usize = 0;
        while i < n
            invariant
                i <= n == self.pixels@.len(),
                self.wf(),
                self.width == old(self).width,
                self.height == old(self).height,
                n == old(self).pixels@.len(),
                final(self.pixels)@ == final(old(self).pixels)@,
                forall|j: int| 0 <= j < i ==> self.pixels@[j] == color,
            decreases n - i,
        {
            self.pixels[i] = color;
            i = i + 1;
        }
        assert(self.pix() =~= Seq::new(old(self).pix().len(), |i: int| color));
    }

    /// Fills the pixels from `(x0, y0)` up to, but not including, `(x1, y1)`.
    fn fill_block(&mut self, x0: i64, y0: i64, x1: i64, y1: i64, color: u32)
        requires
            old(self).wf(),
        ensures
            final(self).wf(),
            final(self).w() == old(self).w(),
            final(self).h() == old(self).h(),
            final(final(self).buffer())@ == final(old(self).buffer())@,
            final(self).pix() == painted(
                old(self).pix(),
                old(self).w(),
                |x: int, y: int| x0 <= x < x1 && y0 <= y < y1,
                color,
            ),
    {
        let w: i64 = self.width as i64;
        let h: i64 = self.height as i64;
        let left: i64 = if x0 < 0 {
            0
        } else {
            x0
        };
        let top: i64 = if y0 < 0 {
            0
        } else {
            y0
        };
        let right: i64 = if x1 < w {
            x1
        } else {
            w
        };
        let bottom: i64 = if y1 < h {
            y1
        } else {
            h
        };
        let ghost before = self.pix();
        let ghost on = |x: int, y: int| x0 <= x < x1 && y0 <= y < y1;
        let mut row: i64 = top;
        while row < bottom
            invariant
                self.wf(),
                self.width == old(self).width,
                self.height == old(self).height,
                final(self.pixels)@ == final(old(self).pixels)@,
                before == old(self).pix(),
                before.len() == self.pix().len(),
                w == self.width,
                h == self.height,
                left == (if x0 < 0 {
                    0
                } else {
                    x0
                }),
                top == (if y0 < 0 {
                    0
                } else {
                    y0
                }),
                right == (if x1 < w {
                    x1
                } else {
                    w
                }),
                bottom == (if y1 < h {
                    y1
                } else {
                    h
                }),
                top <= row,
                row <= bottom || row == top,
                forall|i: int|
                    0 <= i < before.len() ==> #[trigger] self.pix()[i] == (if left <= i % (w as int)
                        < right && top <= i / (w as int) < row {
                        color
                    } else {
                        before[i]
                    }),
            decreases bottom - row,
        {
            let mut col: i64 = left;
            while col < right
                invariant
                    self.wf(),
                    self.width == old(self).width,
                    self.height == old(self).height,
                    final(self.pixels)@ == final(old(self).pixels)@,
                    before == old(self).pix(),
                    before.len() == self.pix().len(),
                    w == self.width,
                    h == self.height,
                    0 <= left <= col,
                    col <= right || col == left,
                    right <= w,
                    0 <= top <= row < bottom <= h,
                    forall|i: int|
                        0 <= i < before.len() ==> #[trigger] self.pix()[i] == (if left <= i % (
                        w as int) < right && top <= i / (w as int) < row || (i / (w as int) == row
                            && left <= i % (w as int) < col) {
                            color
                        } else {
                            before[i]
                        }),
                decreases right - col,
            {
                let idx: usize = self.index(col as u32, row as u32);
                let ghost mid = self.pix();
                self.pixels[idx] = color;
                proof {
                    assert forall|i: int| 0 <= i < before.len() implies #[trigger] self.pix()[i]
                        == (if left <= i % (w as int) < right && top <= i / (w as int) < row || (i
                        / (w as int) == row && left <= i % (w as int) < col + 1) {
                        color
                    } else {
                        before[i]
                    }) by {
                        lemma_coordinates(i, w as int, h as int);
                        if i != idx {
                            assert(self.pix()[i] == mid[i]);
                        }
                    }
                }
                col = col + 1;
            }
            row = row + 1;
        }
        proof {
            let goal = painted(before, w as int, on, color);
            assert forall|i: int| 0 <= i < before.len() implies self.pix()[i] == goal[i] by {
                lemma_coordinates(i, w as int, h as int);
            }
            assert(self.pix() =~= goal);
        }
    }

    /// Fills the pixels that fall within `rect` with `color`.
    ///
    /// Coordinates outside the canvas bounds are silently clipped.
    pub fn fill_rect(&mut self, rect: &Rect, color: u32)
        requires
            old(self).wf(),
        ensures
            final(self).wf(),
            final(self).w() == old(self).w(),
            final(self).h() == old(self).h(),
            final(final(self).buffer())@ == final(old(self).buffer())@,
            final(self).pix() == painted(
                old(self).pix(),
                old(self).w(),
                |x: int, y: int| rect.has(x, y),
                color,
            ),
    {
        let (x0, y0) = (rect.x as i64, rect.y as i64);
        let (x1, y1) = (x0 + rect.w as i64, y0 + rect.h as i64);
        let ghost before = self.pix();
        self.fill_block(x0, y0, x1, y1, color);
        assert(self.pix() =~= painted(
            before,
            self.w(),
            |x: int, y: int| rect.has(x, y),
            color,
        ));
    }

    /// Sets a single pixel at `(x, y)` to `color`.
    ///
    /// If `(x, y)` is outside the canvas, the call is a no-op.
    pub fn put_pixel(&mut self, x: u32, y: u32, color: u32)
        requires
            old(self).wf(),
        ensures
            final(self).wf(),
            final(self).w() == old(self).w(),
            final(self).h() == old(self).h(),
            final(final(self).buffer())@ == final(old(self).buffer())@,
            final(self).pix() == (if x < old(self).w() && y < old(self).h() {
                old(self).pix().update(y * old(self).w() + x, color)
            } else {
                old(self).pix()
            }),
    {
        if x < self.width && y < self.height {
            let idx: usize = self.index(x, y);
            self.pixels[idx] = color;
        }
    }

    /// Draws one 8×8 glyph at `(x, y)`, integer-scaled by `scale`.
    ///
    /// The `glyph` parameter is an 8-byte row array where bit 0 (LSB) of each byte
    /// is the leftmost pixel of that row. Each lit source pixel is expanded to a
    /// `scale × scale` block of `color`. Pixels that fall outside the canvas are
    /// silently skipped. A `scale` of 0 is treated as 1.
    pub fn blit_glyph(&mut self, x: i32, y: i32, glyph: [u8; 8], color: u32, scale: u32)
        requires
            old(self).wf(),
        ensures
            final(self).wf(),
            final(self).w() == old(self).w(),
            final(self).h() == old(self).h(),
            final(final(self).buffer())@ == final(old(self).buffer())@,
            final(self).pix() == stamped(
                old(self).pix(),
                old(self).w(),
                x as int,
                y as int,
                glyph@,
                color,
                at_least_one(scale),
            ),
    {
        self.stamp_glyph(x as i64, y as i64, &glyph, color, scale);
    }

    /// Draws one glyph at a position that may lie far outside the canvas.
    pub(crate) fn stamp_glyph(&mut self, x: i64, y: i64, glyph: &[u8; 8], color: u32, scale: u32)
        requires
            old(self).wf(),
            -0x10_0000_0000 <= x <= 0x10_0000_0000,
            -0x10_0000_0000 <= y <= 0x10_0000_0000,
        ensures
            final(self).wf(),
            final(self).w() == old(self).w(),
            final(self).h() == old(self).h(),
            final(final(self).buffer())@ == final(old(self).buffer())@,
            final(self).pix() == stamped(
                old(self).pix(),
                old(self).w(),
                x as int,
                y as int,
                glyph@,
                color,
                at_least_one(scale),
            ),
    {
        let k: i64 = if scale == 0 {
            1
        } else {
            scale as i64
        };
        let ghost before = self.pix();
        let ghost w = self.w();
        let mut row: i64 = 0;
        proof {
            assert(self.pix() =~= partly_stamped(before, w, x as int, y as int, glyph@, color, k as int, 0, 0));
        }
        while row < 8
            invariant
                0 <= row <= 8,
                1 <= k <= 0xFFFF_FFFF,
                k == at_least_one(scale),
                -0x10_0000_0000 <= x <= 0x10_0000_0000,
                -0x10_0000_0000 <= y <= 0x10_0000_0000,
                self.wf(),
                self.w() == old(self).w(),
                self.h() == old(self).h(),
                w == self.w(),
                before == old(self).pix(),
                final(self.buffer())@ == final(old(self).buffer())@,
                self.pix() == partly_stamped(
                    before,
                    w,
                    x as int,
                    y as int,
                    glyph@,
                    color,
                    k as int,
                    row as int,
                    0,
                ),
            decreases 8 - row,
        {
            let bits: u8 = glyph[row as usize];
            let mut col: i64 = 0;
            while col < 8
                invariant
                    0 <= row < 8,
                    0 <= col <= 8,
                    bits == glyph@[row as int],
                    1 <= k <= 0xFFFF_FFFF,
                    k == at_least_one(scale),
                    -0x10_0000_0000 <= x <= 0x10_0000_0000,
                    -0x10_0000_0000 <= y <= 0x10_0000_0000,
                    self.wf(),
                    self.w() == old(self).w(),
                    self.h() == old(self).h(),
                    w == self.w(),
                    before == old(self).pix(),
                    final(self.buffer())@ == final(old(self).buffer())@,
                    self.pix() == partly_stamped(
                        before,
                        w,
                        x as int,
                        y as int,
                        glyph@,
                        color,
                        k as int,
                        row as int,
                        col as int,
                    ),
                decreases 8 - col,
            {
                let ghost mid = self.pix();
                proof {
                    lemma_block_bounds(row as int, col as int, k as int);
                }
                let bx: i64 = x + col * k;
                let by: i64 = y + row * k;
                if (bits >> (col as u8)) & 1 != 0 {
                    self.fill_block(bx, by, bx + k, by + k, color);
                }
                proof {
                    lemma_stamp_step(
                        before,
                        mid,
                        self.pix(),
                        w,
                        x as int,
                        y as int,
                        glyph@,
                        color,
                        k as int,
                        row as int,
                        col as int,
                    );
                }
                col = col + 1;
            }
            proof {
                lemma_stamp_row(
                    before,
                    w,
                    x as int,
                    y as int,
                    glyph@,
                    color,
                    k as int,
                    row as int,
                );
            }
            row = row + 1;
        }
        proof {
            lemma_stamp_done(before, w, x as int, y as int, glyph@, color, k as int);
        }
    }

    /// Draws a rectangular border of `thickness` pixels inside `rect`.
    ///
    /// If `thickness` is 0 or the rect is empty the call is a no-op.
    pub fn draw_rect_border(&mut self, rect: &Rect, color: u32, thickness: u32)
        requires
            old(self).wf(),
        ensures
            final(self).wf(),
            final(self).w() == old(self).w(),
            final(self).h() == old(self).h(),
            final(final(self).buffer())@ == final(old(self).buffer())@,
            final(self).pix() == painted(
                old(self).pix(),
                old(self).w(),
                |x: int, y: int| on_border(*rect, thickness as int, x, y),
                color,
            ),
    {
        let ghost before = self.pix();
        let ghost w = self.w();
        let ghost goal = painted(
            before,
            w,
            |x: int, y: int| on_border(*rect, thickness as int, x, y),
            color,
        );
        if thickness == 0 || rect.is_empty() {
            assert(self.pix() =~= goal);
            return;
        }
        let (x0, y0) = (rect.x as i64, rect.y as i64);
        let (x1, y1) = (x0 + rect.w as i64, y0 + rect.h as i64);
        let t: i64 = thickness as i64;
        let tx: i64 = if t < rect.w as i64 {
            t
        } else {
            rect.w as i64
        };
        let ty: i64 = if t < rect.h as i64 {
            t
        } else {
            rect.h as i64
        };
        // Top, bottom, left and right strips.
        self.fill_block(x0, y0, x1, y0 + ty, color);
        self.fill_block(x0, y1 - ty, x1, y1, color);
        self.fill_block(x0, y0, x0 + tx, y1, color);
        self.fill_block(x1 - tx, y0, x1, y1, color);
        assert(self.pix() =~= goal);
    }

    /// Alpha-blends `color` onto pixel `(x, y)` by `coverage` (`0`..=`255`), the
    /// anti-aliased over-operator. Out-of-bounds pixels are skipped.
    pub fn blend_pixel<B: Fn(u32, u32) -> u32>(
        &mut self,
        x: i32,
        y: i32,
        color: u32,
        coverage: u8,
        blend: &B,
    )
        requires
            old(self).wf(),
            forall|s: u32, d: u32| call_requires(*blend, (s, d)),
        ensures
            final(self).wf(),
            final(self).w() == old(self).w(),
            final(self).h() == old(self).h(),
            final(final(self).buffer())@ == final(old(self).buffer())@,
            final(self).pix().len() == old(self).pix().len(),
            forall|i: int|
                0 <= i < old(self).pix().len() ==> if i % old(self).w() == x && i / old(self).w()
                    == y {
                    composited(
                        *blend,
                        old(self).pix()[i],
                        color,
                        coverage,
                        #[trigger] final(self).pix()[i],
                    )
                } else {
                    final(self).pix()[i] == old(self).pix()[i]
                },
    {
        self.blend_at(x as i64, y as i64, color, coverage, blend);
    }

    fn blend_at<B: Fn(u32, u32) -> u32>(
        &mut self,
        x: i64,
        y: i64,
        color: u32,
        coverage: u8,
        blend: &B,
    )
        requires
            old(self).wf(),
            forall|s: u32, d: u32| call_requires(*blend, (s, d)),
        ensures
            final(self).wf(),
            final(self).w() == old(self).w(),
            final(self).h() == old(self).h(),
            final(final(self).buffer())@ == final(old(self).buffer())@,
            final(self).pix().len() == old(self).pix().len(),
            forall|i: int|
                0 <= i < old(self).pix().len() ==> if i % old(self).w() == x && i / old(self).w()
                    == y {
                    composited(
                        *blend,
                        old(self).pix()[i],
                        color,
                        coverage,
                        #[trigger] final(self).pix()[i],
                    )
                } else {
                    final(self).pix()[i] == old(self).pix()[i]
                },
    {
        let ghost before = self.pix();
        let ghost w = self.w();
        let ghost h = self.h();
        proof {
            assert forall|i: int| 0 <= i < before.len() implies 0 <= #[trigger] (i % w) < w && 0
                <= i / w < h && i == (i / w) * w + i % w by {
                lemma_coordinates(i, w, h);
            }
        }
        if x < 0 || y < 0 || x >= self.width as i64 || y >= self.height as i64 {
            assert forall|i: int| 0 <= i < before.len() implies !(#[trigger] (i % w) == x && i / w == y) by {
                assert(0 <= i % w < w);
            }
            return;
        }
        let idx: usize = self.index(x as u32, y as u32);
        let p: u32 = self.pixels[idx];
        let q: u32 = composite(p, color, coverage, blend);
        self.pixels[idx] = q;
        assert forall|i: int| 0 <= i < before.len() implies if i % w == x && i / w == y {
            composited(*blend, before[i], color, coverage, #[trigger] self.pix()[i])
        } else {
            self.pix()[i] == before[i]
        } by {
            assert(0 <= i % w < w);
            if i % w == x && i / w == y {
                assert(i == idx);
            }
        }
    }

    /// Paints `color` over the pixels of `area` by the coverage that `coverage` gives for each
    /// position. This is how anti-aliased rounded rectangles and soft shadows reach the canvas:
    /// the compositor tells the coverage of a shape at a pixel.
    fn blend_area<C: Fn(i32, i32) -> u8, B: Fn(u32, u32) -> u32>(
        &mut self,
        area: &Rect,
        coverage: &C,
        color: u32,
        blend: &B,
    )
        requires
            old(self).wf(),
            forall|s: u32, d: u32| call_requires(*blend, (s, d)),
            forall|x: i32, y: i32| call_requires(*coverage, (x, y)),
        ensures
            final(self).wf(),
            final(self).w() == old(self).w(),
            final(self).h() == old(self).h(),
            final(final(self).buffer())@ == final(old(self).buffer())@,
            blended_area(
                old(self).pix(),
                final(self).pix(),
                old(self).w(),
                *area,
                *coverage,
                color,
                *blend,
            ),
    {
        let limit: i64 = 0x8000_0000;
        let (x0, y0) = (area.x as i64, area.y as i64);
        let (x1, y1) = (x0 + area.w as i64, y0 + area.h as i64);
        let w: i64 = self.width as i64;
        let h: i64 = self.height as i64;
        let left: i64 = if x0 < 0 {
            0
        } else {
            x0
        };
        let top: i64 = if y0 < 0 {
            0
        } else {
            y0
        };
        let r0: i64 = if x1 < w {
            x1
        } else {
            w
        };
        let right: i64 = if r0 < limit {
            r0
        } else {
            limit
        };
        let b0: i64 = if y1 < h {
            y1
        } else {
            h
        };
        let bottom: i64 = if b0 < limit {
            b0
        } else {
            limit
        };
        let ghost before = self.pix();
        let ghost wi = w as int;
        let mut row: i64 = top;
        while row < bottom
            invariant
                self.wf(),
                self.w() == old(self).w(),
                self.h() == old(self).h(),
                wi == w == self.w(),
                h == self.h(),
                before == old(self).pix(),
                before.len() == self.pix().len(),
                final(self.buffer())@ == final(old(self).buffer())@,
                forall|s: u32, d: u32| call_requires(*blend, (s, d)),
                forall|x: i32, y: i32| call_requires(*coverage, (x, y)),
                0 <= left,
                0 <= top <= row,
                row <= bottom || row == top,
                right <= w,
                right <= limit,
                bottom <= h,
                bottom <= limit,
                limit == 0x8000_0000,
                forall|i: int|
                    0 <= i < before.len() ==> if left <= i % wi < right && top <= i / wi < row {
                        covered(
                            *coverage,
                            *blend,
                            before[i],
                            color,
                            (i % wi) as i32,
                            (i / wi) as i32,
                            #[trigger] self.pix()[i],
                        )
                    } else {
                        self.pix()[i] == before[i]
                    },
            decreases bottom - row,
        {
            let mut col: i64 = left;
            while col < right
                invariant
                    self.wf(),
                    self.w() == old(self).w(),
                    self.h() == old(self).h(),
                    wi == w == self.w(),
                    h == self.h(),
                    before == old(self).pix(),
                    before.len() == self.pix().len(),
                    final(self.buffer())@ == final(old(self).buffer())@,
                    forall|s: u32, d: u32| call_requires(*blend, (s, d)),
                    forall|x: i32, y: i32| call_requires(*coverage, (x, y)),
                    0 <= left <= col,
                    col <= right || col == left,
                    0 <= top <= row < bottom,
                    right <= w,
                    right <= limit,
                    bottom <= h,
                    bottom <= limit,
                    limit == 0x8000_0000,
                    forall|i: int|
                        0 <= i < before.len() ==> if left <= i % wi < right && top <= i / wi < row
                            || (i / wi == row && left <= i % wi < col) {
                            covered(
                                *coverage,
                                *blend,
                                before[i],
                                color,
                                (i % wi) as i32,
                                (i / wi) as i32,
                                #[trigger] self.pix()[i],
                            )
                        } else {
                            self.pix()[i] == before[i]
                        },
                decreases right - col,
            {
                let cov: u8 = coverage(col as i32, row as i32);
                let ghost mid = self.pix();
                if cov != 0 {
                    self.blend_at(col, row, color, cov, blend);
                }
                proof {
                    assert forall|i: int| 0 <= i < before.len() implies if left <= i % wi < right
                        && top <= i / wi < row || (i / wi == row && left <= i % wi < col + 1) {
                        covered(
                            *coverage,
                            *blend,
                            before[i],
                            color,
                            (i % wi) as i32,
                            (i / wi) as i32,
                            #[trigger] self.pix()[i],
                        )
                    } else {
                        self.pix()[i] == before[i]
                    } by {
                        let q = self.pix()[i];
                        let m = mid[i];
                        if i % wi == col && i / wi == row {
                            assert(m == before[i]);
                            assert(composited(*blend, before[i], color, cov, q));
                            assert(call_ensures(*coverage, ((i % wi) as i32, (i / wi) as i32), cov));
                        } else {
                            assert(q == m);
                        }
                    }
                }
                col = col + 1;
            }
            row = row + 1;
        }
        proof {
            assert forall|i: int| 0 <= i < before.len() implies if area.has(i % wi, i / wi) && i
                % wi <= i32::MAX && i / wi <= i32::MAX {
                covered(
                    *coverage,
                    *blend,
                    before[i],
                    color,
                    (i % wi) as i32,
                    (i / wi) as i32,
                    #[trigger] self.pix()[i],
                )
            } else {
                self.pix()[i] == before[i]
            } by {
                lemma_coordinates(i, wi, h as int);
                let q = self.pix()[i];
            }
        }
    }

    /// Fills a rounded rectangle with anti-aliased corners in `color` (elevation
    /// surfaces, cards, buttons). `coverage_at` gives the coverage of the rounded
    /// shape at a pixel: partial at the corners, full in the interior.
    pub fn fill_rounded_rect<C: Fn(i32, i32) -> u8, B: Fn(u32, u32) -> u32>(
        &mut self,
        rect: &Rect,
        coverage_at: &C,
        color: u32,
        blend: &B,
    )
        requires
            old(self).wf(),
            forall|s: u32, d: u32| call_requires(*blend, (s, d)),
            forall|x: i32, y: i32| call_requires(*coverage_at, (x, y)),
        ensures
            final(self).wf(),
            final(self).w() == old(self).w(),
            final(self).h() == old(self).h(),
            final(final(self).buffer())@ == final(old(self).buffer())@,
            blended_area(
                old(self).pix(),
                final(self).pix(),
                old(self).w(),
                *rect,
                *coverage_at,
                color,
                *blend,
            ),
    {
        self.blend_area(rect, coverage_at, color, blend);
    }

    /// Paints a soft drop shadow of the given colour within `bounds`. `alpha_at`
    /// gives the shadow's opacity at a pixel. Call this before painting the surface
    /// so the surface sits over its shadow.
    pub fn draw_shadow<C: Fn(i32, i32) -> u8, B: Fn(u32, u32) -> u32>(
        &mut self,
        bounds: &Rect,
        alpha_at: &C,
        color: u32,
        blend: &B,
    )
        requires
            old(self).wf(),
            forall|s: u32, d: u32| call_requires(*blend, (s, d)),
            forall|x: i32, y: i32| call_requires(*alpha_at, (x, y)),
        ensures
            final(self).wf(),
            final(self).w() == old(self).w(),
            final(self).h() == old(self).h(),
            final(final(self).buffer())@ == final(old(self).buffer())@,
            blended_area(
                old(self).pix(),
                final(self).pix(),
                old(self).w(),
                *bounds,
                *alpha_at,
                color,
                *blend,
            ),
    {
        self.blend_area(bounds, alpha_at, color, blend);
    }

    /// Blits an anti-aliased coverage bitmap (`w * h`, row-major, `0..=255` alpha) in
    /// `color`, top-left at `(x, y)`. Coverage entries beyond the slice are treated
    /// as `0`.
    pub fn blit_coverage<B: Fn(u32, u32) -> u32>(
        &mut self,
        x: i32,
        y: i32,
        coverage: &[u8],
        w: u32,
        h: u32,
        color: u32,
        blend: &B,
    )
        requires
            old(self).wf(),
            forall|s: u32, d: u32| call_requires(*blend, (s, d)),
        ensures
            final(self).wf(),
            final(self).w() == old(self).w(),
            final(self).h() == old(self).h(),
            final(final(self).buffer())@ == final(old(self).buffer())@,
            final(self).pix().len() == old(self).pix().len(),
            forall|i: int|
                0 <= i < old(self).pix().len() ==> composited(
                    *blend,
                    old(self).pix()[i],
                    color,
                    bitmap_at(
                        coverage@,
                        w as int,
                        h as int,
                        i % old(self).w() - x,
                        i / old(self).w() - y,
                    ),
                    #[trigger] final(self).pix()[i],
                ),
    {
        let ghost before = self.pix();
        let ghost cw = self.w();
        let ghost ch = self.h();
        let ghost bw = w as int;
        let ghost bh = h as int;
        let mut row: u32 = 0;
        while row < h
            invariant
                row <= h,
                bw == w,
                bh == h,
                self.wf(),
                self.w() == old(self).w(),
                self.h() == old(self).h(),
                cw == self.w(),
                ch == self.h(),
                before == old(self).pix(),
                before.len() == self.pix().len(),
                final(self.buffer())@ == final(old(self).buffer())@,
                forall|s: u32, d: u32| call_requires(*blend, (s, d)),
                forall|i: int|
                    0 <= i < before.len() ==> if i / cw - y < row {
                        composited(
                            *blend,
                            before[i],
                            color,
                            bitmap_at(coverage@, bw, bh, i % cw - x, i / cw - y),
                            #[trigger] self.pix()[i],
                        )
                    } else {
                        self.pix()[i] == before[i]
                    },
            decreases h - row,
        {
            let mut col: u32 = 0;
            while col < w
                invariant
                    row < h,
                    col <= w,
                    bw == w,
                    bh == h,
                    self.wf(),
                    self.w() == old(self).w(),
                    self.h() == old(self).h(),
                    cw == self.w(),
                    ch == self.h(),
                    before == old(self).pix(),
                    before.len() == self.pix().len(),
                    final(self.buffer())@ == final(old(self).buffer())@,
                    forall|s: u32, d: u32| call_requires(*blend, (s, d)),
                    forall|i: int|
                        0 <= i < before.len() ==> if i / cw - y < row || (i / cw - y == row && i
                            % cw - x < col) {
                            composited(
                                *blend,
                                before[i],
                                color,
                                bitmap_at(coverage@, bw, bh, i % cw - x, i / cw - y),
                                #[trigger] self.pix()[i],
                            )
                        } else {
                            self.pix()[i] == before[i]
                        },
                decreases w - col,
            {
                proof {
                    assert(row * w + col <= 0xFFFF_FFFF * 0xFFFF_FFFF + 0xFFFF_FFFF)
                        by (nonlinear_arith)
                        requires
                            row <= 0xFFFF_FFFF,
                            w <= 0xFFFF_FFFF,
                            col <= 0xFFFF_FFFF,
                    ;
                    assert(0 <= row * w) by (nonlinear_arith);
                }
                let place: u64 = row as u64 * w as u64 + col as u64;
                let cov: u8 = if place < coverage.len() as u64 {
                    coverage[place as usize]
                } else {
                    0
                };
                assert(cov == bitmap_at(coverage@, bw, bh, col as int, row as int));
                let ghost mid = self.pix();
                if cov != 0 {
                    self.blend_at(x as i64 + col as i64, y as i64 + row as i64, color, cov, blend);
                }
                proof {
                    assert forall|i: int| 0 <= i < before.len() implies if i / cw - y < row || (i
                        / cw - y == row && i % cw - x < col + 1) {
                        composited(
                            *blend,
                            before[i],
                            color,
                            bitmap_at(coverage@, bw, bh, i % cw - x, i / cw - y),
                            #[trigger] self.pix()[i],
                        )
                    } else {
                        self.pix()[i] == before[i]
                    } by {
                        let q = self.pix()[i];
                        let m = mid[i];
                    }
                }
                col = col + 1;
            }
            proof {
                assert forall|i: int| 0 <= i < before.len() implies if i / cw - y < row + 1 {
                    composited(
                        *blend,
                        before[i],
                        color,
                        bitmap_at(coverage@, bw, bh, i % cw - x, i / cw - y),
                        #[trigger] self.pix()[i],
                    )
                } else {
                    self.pix()[i] == before[i]
                } by {
                    let q = self.pix()[i];
                }
            }
            row = row + 1;
        }
        proof {
            assert forall|i: int| 0 <= i < before.len() implies composited(
                *blend,
                before[i],
                color,
                bitmap_at(coverage@, bw, bh, i % cw - x, i / cw - y),
                #[trigger] self.pix()[i],
            ) by {
                let q = self.pix()[i];
            }
        }
    }
}

/// Whether `after` is `before` with a colour over the pixels of an area by the coverage that is
/// given for each of them, and nothing else changed.
pub open spec fn blended_area<C: Fn(i32, i32) -> u8, B: Fn(u32, u32) -> u32>(
    before: Seq<u32>,
    after: Seq<u32>,
    w: int,
    area: Rect,
    coverage: C,
    color: u32,
    blend: B,
) -> bool {
    &&& after.len() == before.len()
    &&& forall|i: int|
        0 <= i < before.len() ==> if area.has(i % w, i / w) && i % w <= i32::MAX && i / w
            <= i32::MAX {
            covered(
                coverage,
                blend,
                before[i],
                color,
                (i % w) as i32,
                (i / w) as i32,
                #[trigger] after[i],
            )
        } else {
            after[i] == before[i]
        }
}

/// Whether `r` is a colour over `dst` by some coverage that is given for the position.
pub open spec fn covered<C: Fn(i32, i32) -> u8, B: Fn(u32, u32) -> u32>(
    coverage: C,
    blend: B,
    dst: u32,
    color: u32,
    x: i32,
    y: i32,
    r: u32,
) -> bool {
    exists|cov: u8| #[trigger]
        call_ensures(coverage, (x, y), cov) && composited(blend, dst, color, cov, r)
}

/// The entry of a row-major bitmap, 0 outside it and beyond its end.
pub open spec fn bitmap_at(b: Seq<u8>, w: int, h: int, x: int, y: int) -> u8 {
    if 0 <= x < w && 0 <= y < h && y * w + x < b.len() {
        b[y * w + x]
    } else {
        0
    }
}

/// Whether a pixel belongs to the border of a rectangle.
pub open spec fn on_border(rect: Rect, thickness: int, x: int, y: int) -> bool {
    &&& thickness > 0
    &&& rect.has(x, y)
    &&& (x < rect.x + thickness || x >= rect.x + rect.w - thickness || y < rect.y + thickness || y
        >= rect.y + rect.h - thickness)
}

/// A scale, with 0 counted as 1.
pub open spec fn at_least_one(scale: u32) -> int {
    if scale == 0 {
        1
    } else {
        scale as int
    }
}

/// Whether a glyph has its bit set at a column and a row.
pub open spec fn lit(glyph: Seq<u8>, col: int, row: int) -> bool {
    0 <= col < 8 && 0 <= row < 8 && (glyph[row] >> (col as u8)) & 1u8 != 0u8
}

/// Whether a glyph at `(x, y)`, magnified by `k`, inks a pixel.
pub open spec fn inks(glyph: Seq<u8>, x: int, y: int, k: int, px: int, py: int) -> bool {
    &&& x <= px < x + 8 * k
    &&& y <= py < y + 8 * k
    &&& lit(glyph, (px - x) / k, (py - y) / k)
}

/// Pixels with a glyph drawn on them.
pub open spec fn stamped(
    s: Seq<u32>,
    w: int,
    x: int,
    y: int,
    glyph: Seq<u8>,
    color: u32,
    k: int,
) -> Seq<u32> {
    painted(s, w, |px: int, py: int| inks(glyph, x, y, k, px, py), color)
}

/// Pixels with the glyph bits before a row and column drawn on them.
spec fn partly_stamped(
    s: Seq<u32>,
    w: int,
    x: int,
    y: int,
    glyph: Seq<u8>,
    color: u32,
    k: int,
    row: int,
    col: int,
) -> Seq<u32> {
    painted(
        s,
        w,
        |px: int, py: int|
            inks(glyph, x, y, k, px, py) && ((py - y) / k < row || ((py - y) / k == row && (px - x)
                / k < col)),
        color,
    )
}

proof fn lemma_block_bounds(row: int, col: int, k: int)
    requires
        0 <= row < 8,
        0 <= col < 8,
        1 <= k <= 0xFFFF_FFFF,
    ensures
        0 <= col * k <= 7 * 0xFFFF_FFFF,
        0 <= row * k <= 7 * 0xFFFF_FFFF,
{
    assert(0 <= col * k <= 7 * 0xFFFF_FFFF) by (nonlinear_arith)
        requires
            0 <= col <= 7,
            1 <= k <= 0xFFFF_FFFF,
    ;
    assert(0 <= row * k <= 7 * 0xFFFF_FFFF) by (nonlinear_arith)
        requires
            0 <= row <= 7,
            1 <= k <= 0xFFFF_FFFF,
    ;
}

/// The pixels of one magnified glyph bit.
proof fn lemma_block(d: int, n: int, k: int)
    requires
        1 <= k,
        0 <= n < 8,
    ensures
        n * k <= d < n * k + k <==> 0 <= d < 8 * k && d / k == n,
{
    assert(n * k <= d < n * k + k ==> d / k == n) by {
        if n * k <= d < n * k + k {
            vstd::arithmetic::div_mod::lemma_fundamental_div_mod_converse(d, k, n, d - n * k);
        }
    }
    assert(n * k <= d < n * k + k ==> 0 <= d < 8 * k) by (nonlinear_arith)
        requires
            1 <= k,
            0 <= n <= 7,
    ;
    assert(d / k == n ==> n * k <= d < n * k + k) by {
        vstd::arithmetic::div_mod::lemma_fundamental_div_mod(d, k);
        vstd::arithmetic::div_mod::lemma_mod_bound(d, k);
        assert(k * (d / k) == (d / k) * k) by (nonlinear_arith);
    }
}

proof fn lemma_stamp_step(
    before: Seq<u32>,
    mid: Seq<u32>,
    after: Seq<u32>,
    w: int,
    x: int,
    y: int,
    glyph: Seq<u8>,
    color: u32,
    k: int,
    row: int,
    col: int,
)
    requires
        1 <= k,
        0 <= row < 8,
        0 <= col < 8,
        mid == partly_stamped(before, w, x, y, glyph, color, k, row, col),
        if lit(glyph, col, row) {
            after == painted(
                mid,
                w,
                |px: int, py: int|
                    x + col * k <= px < x + col * k + k && y + row * k <= py < y + row * k + k,
                color,
            )
        } else {
            after == mid
        },
    ensures
        after == partly_stamped(before, w, x, y, glyph, color, k, row, col + 1),
{
    let goal = partly_stamped(before, w, x, y, glyph, color, k, row, col + 1);
    assert forall|i: int| 0 <= i < before.len() implies after[i] == goal[i] by {
        let px = i % w;
        let py = i / w;
        lemma_block(px - x, col, k);
        lemma_block(py - y, row, k);
    }
    assert(after =~= goal);
}

proof fn lemma_stamp_row(
    before: Seq<u32>,
    w: int,
    x: int,
    y: int,
    glyph: Seq<u8>,
    color: u32,
    k: int,
    row: int,
)
    requires
        1 <= k,
    ensures
        partly_stamped(before, w, x, y, glyph, color, k, row, 8) == partly_stamped(
            before,
            w,
            x,
            y,
            glyph,
            color,
            k,
            row + 1,
            0,
        ),
{
    let a = partly_stamped(before, w, x, y, glyph, color, k, row, 8);
    let b = partly_stamped(before, w, x, y, glyph, color, k, row + 1, 0);
    assert forall|i: int| 0 <= i < before.len() implies a[i] == b[i] by {
        let px = i % w;
        let py = i / w;
        if inks(glyph, x, y, k, px, py) {
            assert(0 <= (px - x) / k < 8);
        }
    }
    assert(a =~= b);
}

proof fn lemma_stamp_done(
    before: Seq<u32>,
    w: int,
    x: int,
    y: int,
    glyph: Seq<u8>,
    color: u32,
    k: int,
)
    requires
        1 <= k,
    ensures
        partly_stamped(before, w, x, y, glyph, color, k, 8, 0) == stamped(
            before,
            w,
            x,
            y,
            glyph,
            color,
            k,
        ),
{
    let a = partly_stamped(before, w, x, y, glyph, color, k, 8, 0);
    let b = stamped(before, w, x, y, glyph, color, k);
    assert(a =~= b);
}

/// What is painted only where `on` holds leaves every other pixel as it was.
pub proof fn law_painting_stays_inside(
    s: Seq<u32>,
    w: int,
    h: int,
    on: spec_fn(int, int) -> bool,
    color: u32,
    x: int,
    y: int,
)
    requires
        s.len() == w * h,
        0 <= x < w,
        0 <= y < h,
    ensures
        painted(s, w, on, color).len() == s.len(),
        painted(s, w, on, color)[y * w + x] == (if on(x, y) {
            color
        } else {
            s[y * w + x]
        }),
{
    lemma_position(x, y, w, h);
}

/// A border is as thick on every side: a pixel of a rectangle belongs to it exactly where fewer than
/// `thickness` pixels of the rectangle lie between it and an edge.
pub proof fn law_borders_are_equally_thick(rect: Rect, thickness: int, x: int, y: int)
    requires
        thickness >= 0,
        rect.has(x, y),
    ensures
        on_border(rect, thickness, x, y) <==> exists|k: int|
            0 <= k < thickness && !(#[trigger] rect.has(x - k - 1, y) && rect.has(x + k + 1, y)
                && rect.has(x, y - k - 1) && rect.has(x, y + k + 1)),
{
    if on_border(rect, thickness, x, y) {
        let k = thickness - 1;
        assert(!(rect.has(x - k - 1, y) && rect.has(x + k + 1, y) && rect.has(x, y - k - 1)
            && rect.has(x, y + k + 1)));
    }
}

/// A source pixel is given its coverage for opacity, or full opacity, and keeps its colour.
pub proof fn law_coverage_becomes_opacity(src: u32, coverage: u8)
    ensures
        with_alpha(src, coverage) == 0x100_0000 * coverage + src % 0x100_0000,
        opaque(src) == 0x100_0000 * 0xFF + src % 0x100_0000,
{
    let a = coverage as u32;
    assert((a << 24) | (src & 0x00FF_FFFF) == 0x100_0000 * a + src % 0x100_0000) by (bit_vector)
        requires
            a <= 0xFF,
    ;
    assert(0xFF00_0000 | (src & 0x00FF_FFFF) == 0x100_0000 * 0xFF + src % 0x100_0000)
        by (bit_vector);
}

} // verus!
