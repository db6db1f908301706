//! Translucency materials and sidebar vibrancy rendering.
//!
//! Rendering a material blurs a backdrop and composites the tint of the material over it; the
//! sidebar vibrancy variant mixes a context tint into the material before compositing. Pixels are
//! `0xAARRGGBB`. The blend operator of the compositor is a parameter.

use vstd::prelude::*;

use crate::tokens::Material;

verus! {

/// The alpha channel of a pixel.
pub open spec fn alpha(p: u32) -> int {
    (p / 0x100_0000) as int
}

/// The red channel of a pixel.
pub open spec fn red(p: u32) -> int {
    (p / 0x1_0000 % 0x100) as int
}

/// The green channel of a pixel.
pub open spec fn green(p: u32) -> int {
    (p / 0x100 % 0x100) as int
}

/// The blue channel of a pixel.
pub open spec fn blue(p: u32) -> int {
    (p % 0x100) as int
}

/// The pixel with the given channels.
pub open spec fn pixel(a: int, r: int, g: int, b: int) -> u32 {
    (a * 0x100_0000 + r * 0x1_0000 + g * 0x100 + b) as u32
}

/// The sum of a channel over the entries `lo ..= hi` of the line of pixels that starts at `start`
/// and goes on by `step`.
pub open spec fn channel_sum(
    src: Seq<u32>,
    start: int,
    step: int,
    lo: int,
    hi: int,
    channel: spec_fn(u32) -> int,
) -> int
    decreases hi - lo + 1,
{
    if hi < lo {
        0
    } else {
        channel_sum(src, start, step, lo, hi - 1, channel) + channel(src[start + hi * step])
    }
}

/// The first entry of a window of the given radius around entry `i`.
pub open spec fn window_lo(i: int, radius: int) -> int {
    if i < radius {
        0
    } else {
        i - radius
    }
}

/// The last entry of a window of the given radius around entry `i` of `n`.
pub open spec fn window_hi(i: int, n: int, radius: int) -> int {
    if i + radius < n {
        i + radius
    } else {
        n - 1
    }
}

/// The mean of a channel over a window, rounded down.
pub open spec fn channel_mean(
    src: Seq<u32>,
    start: int,
    step: int,
    lo: int,
    hi: int,
    channel: spec_fn(u32) -> int,
) -> int {
    channel_sum(src, start, step, lo, hi, channel) / (hi - lo + 1)
}

/// The pixel whose channels are the means over a window.
pub open spec fn mean_pixel(src: Seq<u32>, start: int, step: int, lo: int, hi: int) -> u32 {
    pixel(
        channel_mean(src, start, step, lo, hi, |p: u32| alpha(p)),
        channel_mean(src, start, step, lo, hi, |p: u32| red(p)),
        channel_mean(src, start, step, lo, hi, |p: u32| green(p)),
        channel_mean(src, start, step, lo, hi, |p: u32| blue(p)),
    )
}

/// Pixels blurred along the rows.
pub open spec fn row_blur(src: Seq<u32>, w: int, radius: int) -> Seq<u32> {
    Seq::new(
        src.len(),
        |i: int|
            mean_pixel(
                src,
                i / w * w,
                1,
                window_lo(i % w, radius),
                window_hi(i % w, w, radius),
            ),
    )
}

/// Pixels blurred along the columns.
pub open spec fn column_blur(src: Seq<u32>, w: int, h: int, radius: int) -> Seq<u32> {
    Seq::new(
        src.len(),
        |i: int|
            mean_pixel(
                src,
                i % w,
                w,
                window_lo(i / w, radius),
                window_hi(i / w, h, radius),
            ),
    )
}

/// Pixels blurred along the rows and then along the columns.
pub open spec fn blurred(src: Seq<u32>, w: int, h: int, radius: int) -> Seq<u32> {
    if radius == 0 || w == 0 || h == 0 {
        src
    } else {
        column_blur(row_blur(src, w, radius), w, h, radius)
    }
}

proof fn lemma_channel_sum(
    src: Seq<u32>,
    start: int,
    step: int,
    lo: int,
    hi: int,
    channel: spec_fn(u32) -> int,
)
    requires
        forall|p: u32| 0 <= #[trigger] channel(p) <= 255,
        lo <= hi + 1,
    ensures
        0 <= channel_sum(src, start, step, lo, hi, channel) <= 255 * (hi - lo + 1),
    decreases hi - lo + 1,
{
    if lo <= hi {
        lemma_channel_sum(src, start, step, lo, hi - 1, channel);
    }
}

proof fn lemma_mean(sum: int, n: int)
    requires
        n > 0,
        0 <= sum <= 255 * n,
    ensures
        0 <= sum / n <= 255,
{
    assert(0 <= sum / n <= 255) by (nonlinear_arith)
        requires
            n > 0,
            0 <= sum <= 255 * n,
    ;
}

/// The mean pixel of a window.
fn mean(src: &[u32], start: usize, step: usize, lo: usize, hi: usize) -> (r: u32)
    requires
        lo <= hi < 0xFFFF_FFFF,
        hi - lo <= 0x2_0000,
        forall|k: int| lo <= k <= hi ==> 0 <= #[trigger] (start + k * step) < src@.len(),
    ensures
        r == mean_pixel(src@, start as int, step as int, lo as int, hi as int),
{
    let ghost fa = |p: u32| alpha(p);
    let ghost fr = |p: u32| red(p);
    let ghost fg = |p: u32| green(p);
    let ghost fb = |p: u32| blue(p);
    let ghost (s, d, first) = (start as int, step as int, lo as int);
    let mut sa: u32 = 0;
    let mut sr: u32 = 0;
    let mut sg: u32 = 0;
    let mut sb: u32 = 0;
    let mut k: usize = lo;
    let len: usize = src.len();
    while k <= hi
        invariant
            len == src@.len(),
            lo <= k <= hi + 1,
            hi < 0xFFFF_FFFF,
            hi - lo <= 0x2_0000,
            s == start && d == step && first == lo,
            fa == (|p: u32| alpha(p)),
            fr == (|p: u32| red(p)),
            fg == (|p: u32| green(p)),
            fb == (|p: u32| blue(p)),
            forall|k: int| lo <= k <= hi ==> 0 <= #[trigger] (start + k * step) < src@.len(),
            sa == channel_sum(src@, s, d, first, k - 1, fa),
            sr == channel_sum(src@, s, d, first, k - 1, fr),
            sg == channel_sum(src@, s, d, first, k - 1, fg),
            sb == channel_sum(src@, s, d, first, k - 1, fb),
            sa <= 255 * (k - lo),
            sr <= 255 * (k - lo),
            sg <= 255 * (k - lo),
            sb <= 255 * (k - lo),
        decreases hi + 1 - k,
    {
        proof {
            assert(0 <= start + k * step < src@.len());
            assert(0 <= k * step) by (nonlinear_arith)
                requires
                    0 <= k,
                    0 <= step,
            ;
        }
        let p: u32 = src[start + k * step];
        sa = sa + p / 0x100_0000;
        sr = sr + p / 0x1_0000 % 0x100;
        sg = sg + p / 0x100 % 0x100;
        sb = sb + p % 0x100;
        k = k + 1;
    }
    let n: u32 = (hi - lo) as u32 + 1;
    proof {
        lemma_mean(sa as int, n as int);
        lemma_mean(sr as int, n as int);
        lemma_mean(sg as int, n as int);
        lemma_mean(sb as int, n as int);
    }
    sa / n * 0x100_0000 + sr / n * 0x1_0000 + sg / n * 0x100 + sb / n
}

/// Which axis a 1-D blur pass runs along.
#[derive(Clone, Copy, PartialEq, Eq, Structural)]
enum Axis {
    Horizontal,
    Vertical,
}

/// One separable blur pass averaging a `2*radius+1` window along `axis`.
fn blur_axis(src: &[u32], width: u32, height: u32, radius: u16, axis: Axis) -> (r: Vec<u32>)
    requires
        src@.len() == width * height,
        width > 0,
        height > 0,
    ensures
        r@ == (match axis {
            Axis::Horizontal => row_blur(src@, width as int, radius as int),
            Axis::Vertical => column_blur(src@, width as int, height as int, radius as int),
        }),
{
    let w: usize = width as usize;
    let h: usize = height as usize;
    let rad: usize = radius as usize;
    let ghost goal = match axis {
        Axis::Horizontal => row_blur(src@, w as int, rad as int),
        Axis::Vertical => column_blur(src@, w as int, h as int, rad as int),
    };
    let mut out: Vec<u32> = Vec::new();
    let mut i: usize = 0;
    while i < src.len()
        invariant
            i <= src@.len(),
            src@.len() == w * h,
            0 < w <= 0xFFFF_FFFF,
            0 < h <= 0xFFFF_FFFF,
            rad <= 0xFFFF,
            goal == (match axis {
                Axis::Horizontal => row_blur(src@, w as int, rad as int),
                Axis::Vertical => column_blur(src@, w as int, h as int, rad as int),
            }),
            out@ == goal.take(i as int),
            goal.len() == src@.len(),
        decreases src@.len() - i,
    {
        let x: usize = i % w;
        let y: usize = i / w;
        proof {
            crate::canvas::lemma_coordinates(i as int, w as int, h as int);
        }
        let (start, step, n, at) = match axis {
            Axis::Horizontal => (i - x, 1usize, w, x),
            Axis::Vertical => (x, w, h, y),
        };
        let lo: usize = if at < rad {
            0
        } else {
            at - rad
        };
        let hi: usize = if n - at <= rad {
            n - 1
        } else {
            at + rad
        };
        proof {
            assert forall|k: int| lo <= k <= hi implies 0 <= #[trigger] (start + k * step)
                < src@.len() by {
                match axis {
                    Axis::Horizontal => {
                        assert(k * 1 == k);
                        crate::canvas::lemma_position(k, y as int, w as int, h as int);
                    },
                    Axis::Vertical => {
                        crate::canvas::lemma_position(x as int, k, w as int, h as int);
                    },
                }
            }
        }
        out.push(mean(src, start, step, lo, hi));
        assert(goal.take(i + 1) =~= goal.take(i as int).push(goal[i as int]));
        i = i + 1;
    }
    assert(goal.take(i as int) =~= goal);
    out
}

fn copy_pixels(src: &[u32]) -> (r: Vec<u32>)
    ensures
        r@ == src@,
{
    let mut out: Vec<u32> = Vec::new();
    let mut i: usize = 0;
    while i < src.len()
        invariant
            i <= src@.len(),
            out@ == src@.take(i as int),
        decreases src@.len() - i,
    {
        out.push(src[i]);
        i = i + 1;
        assert(src@.take(i as int) =~= src@.take(i - 1).push(src@[i - 1]));
    }
    assert(src@.take(i as int) =~= src@);
    out
}

/// Separable box blur of an ARGB8888 backdrop with the given `radius` (in px).
///
/// `radius == 0` returns the input unchanged. Channels are averaged independently (straight
/// alpha); windows are cut off at the edges.
///
/// Returns `None` if `src.len() != width * height`.
pub fn box_blur(src: &[u32], width: u32, height: u32, radius: u16) -> (r: Option<Vec<u32>>)
    ensures
        match r {
            Some(v) => src@.len() == width * height && v@ == blurred(
                src@,
                width as int,
                height as int,
                radius as int,
            ),
            None => src@.len() != width * height,
        },
{
    proof {
        assert(width * height <= 0xFFFF_FFFF * 0xFFFF_FFFF) by (nonlinear_arith)
            requires
                0 <= width <= 0xFFFF_FFFF,
                0 <= height <= 0xFFFF_FFFF,
        ;
    }
    let area: u64 = width as u64 * height as u64;
    if src.len() as u64 != area {
        return None;
    }
    if radius == 0 || width == 0 || height == 0 {
        return Some(copy_pixels(src));
    }
    let horizontal = blur_axis(src, width, height, radius, Axis::Horizontal);
    Some(blur_axis(horizontal.as_slice(), width, height, radius, Axis::Vertical))
}

/// Whether `out` is a backdrop with a tint composited over each pixel.
pub open spec fn tinted<B: Fn(u32, u32) -> u32>(
    backdrop: Seq<u32>,
    tint: u32,
    blend: B,
    out: Seq<u32>,
) -> bool {
    out.len() == backdrop.len() && forall|i: int|
        0 <= i < out.len() ==> call_ensures(blend, (tint, backdrop[i]), #[trigger] out[i])
}

/// Composite an `0xAA_RR_GG_BB` tint over each pixel of `backdrop`.
fn tint_over<B: Fn(u32, u32) -> u32>(backdrop: &[u32], tint: u32, blend: &B) -> (r: Vec<u32>)
    requires
        forall|s: u32, d: u32| call_requires(*blend, (s, d)),
    ensures
        tinted(backdrop@, tint, *blend, r@),
{
    let mut out: Vec<u32> = Vec::new();
    let mut i: usize = 0;
    while i < backdrop.len()
        invariant
            i <= backdrop@.len(),
            out@.len() == i,
            forall|s: u32, d: u32| call_requires(*blend, (s, d)),
            forall|j: int|
                0 <= j < i ==> call_ensures(*blend, (tint, backdrop@[j]), #[trigger] out@[j]),
        decreases backdrop@.len() - i,
    {
        out.push(blend(tint, backdrop[i]));
        i = i + 1;
    }
    out
}

/// Render a translucency [`Material`] over `backdrop`.
///
/// Blurs the backdrop by `material.blur` then composites `material.tint` over it with the blend
/// operator.
///
/// Returns `None` if `backdrop.len() != width * height`.
pub fn render_material<B: Fn(u32, u32) -> u32>(
    backdrop: &[u32],
    width: u32,
    height: u32,
    material: Material,
    blend: &B,
) -> (r: Option<Vec<u32>>)
    requires
        forall|s: u32, d: u32| call_requires(*blend, (s, d)),
    ensures
        match r {
            Some(v) => backdrop@.len() == width * height && tinted(
                blurred(backdrop@, width as int, height as int, material.blur as int),
                material.tint,
                *blend,
                v@,
            ),
            None => backdrop@.len() != width * height,
        },
{
    match box_blur(backdrop, width, height, material.blur) {
        Some(v) => Some(tint_over(v.as_slice(), material.tint, blend)),
        None => None,
    }
}

/// Whether `out` is a backdrop with a tint composited over each pixel into which a context tint was
/// mixed.
pub open spec fn vibrant<B: Fn(u32, u32) -> u32>(
    backdrop: Seq<u32>,
    context: u32,
    tint: u32,
    blend: B,
    out: Seq<u32>,
) -> bool {
    exists|mixed: u32| #[trigger]
        tinted(backdrop, mixed, blend, out) && call_ensures(blend, (context, tint), mixed)
}

/// Render sidebar vibrancy over `backdrop`.
///
/// Like [`render_material`] but the base material tint is first blended with a `context_tint` (the
/// dominant color behind the sidebar) so the surface picks up its surroundings.
///
/// Returns `None` if `backdrop.len() != width * height`.
pub fn render_vibrancy<B: Fn(u32, u32) -> u32>(
    backdrop: &[u32],
    width: u32,
    height: u32,
    material: Material,
    context_tint: u32,
    blend: &B,
) -> (r: Option<Vec<u32>>)
    requires
        forall|s: u32, d: u32| call_requires(*blend, (s, d)),
    ensures
        match r {
            Some(v) => backdrop@.len() == width * height && vibrant(
                blurred(backdrop@, width as int, height as int, material.blur as int),
                context_tint,
                material.tint,
                *blend,
                v@,
            ),
            None => backdrop@.len() != width * height,
        },
{
    match box_blur(backdrop, width, height, material.blur) {
        Some(v) => {
            let mixed: u32 = blend(context_tint, material.tint);
            let out = tint_over(v.as_slice(), mixed, blend);
            assert(tinted(v@, mixed, *blend, out@));
            Some(out)
        },
        None => None,
    }
}

proof fn lemma_flat_sum(
    src: Seq<u32>,
    start: int,
    step: int,
    lo: int,
    hi: int,
    channel: spec_fn(u32) -> int,
    color: u32,
)
    requires
        lo <= hi + 1,
        forall|k: int| lo <= k <= hi ==> #[trigger] src[start + k * step] == color,
    ensures
        channel_sum(src, start, step, lo, hi, channel) == (hi - lo + 1) * channel(color),
    decreases hi - lo + 1,
{
    if lo <= hi {
        lemma_flat_sum(src, start, step, lo, hi - 1, channel, color);
        assert(src[start + hi * step] == color);
        let c = channel(color);
        assert((hi - lo + 1) * c == (hi - lo) * c + c) by (nonlinear_arith);
    } else {
        assert((hi - lo + 1) * channel(color) == 0) by (nonlinear_arith)
            requires
                hi - lo + 1 == 0,
        ;
    }
}

proof fn lemma_flat_mean(src: Seq<u32>, start: int, step: int, lo: int, hi: int, color: u32)
    requires
        lo <= hi,
        forall|k: int| lo <= k <= hi ==> #[trigger] src[start + k * step] == color,
    ensures
        mean_pixel(src, start, step, lo, hi) == color,
{
    let n = hi - lo + 1;
    lemma_flat_sum(src, start, step, lo, hi, |p: u32| alpha(p), color);
    lemma_flat_sum(src, start, step, lo, hi, |p: u32| red(p), color);
    lemma_flat_sum(src, start, step, lo, hi, |p: u32| green(p), color);
    lemma_flat_sum(src, start, step, lo, hi, |p: u32| blue(p), color);
    vstd::arithmetic::div_mod::lemma_div_multiples_vanish(alpha(color), n);
    vstd::arithmetic::div_mod::lemma_div_multiples_vanish(red(color), n);
    vstd::arithmetic::div_mod::lemma_div_multiples_vanish(green(color), n);
    vstd::arithmetic::div_mod::lemma_div_multiples_vanish(blue(color), n);
}

/// Blurring keeps the number of pixels and leaves an area of one colour as it is.
pub proof fn law_blur_keeps_a_flat_area(src: Seq<u32>, w: int, h: int, radius: int, color: u32)
    requires
        0 <= w,
        0 <= h,
        0 <= radius,
        src.len() == w * h,
        forall|i: int| 0 <= i < src.len() ==> src[i] == color,
    ensures
        blurred(src, w, h, radius) == src,
{
    if radius != 0 && w != 0 && h != 0 {
        let rows = row_blur(src, w, radius);
        assert forall|i: int| 0 <= i < src.len() implies #[trigger] rows[i] == color by {
            crate::canvas::lemma_coordinates(i, w, h);
            let (lo, hi) = (window_lo(i % w, radius), window_hi(i % w, w, radius));
            assert forall|k: int| lo <= k <= hi implies #[trigger] src[i / w * w + k * 1]
                == color by {
                crate::canvas::lemma_position(k, i / w, w, h);
            }
            lemma_flat_mean(src, i / w * w, 1, lo, hi, color);
        }
        let all = column_blur(rows, w, h, radius);
        assert forall|i: int| 0 <= i < src.len() implies #[trigger] all[i] == color by {
            crate::canvas::lemma_coordinates(i, w, h);
            let (lo, hi) = (window_lo(i / w, radius), window_hi(i / w, h, radius));
            assert forall|k: int| lo <= k <= hi implies #[trigger] rows[i % w + k * w]
                == color by {
                crate::canvas::lemma_position(i % w, k, w, h);
            }
            lemma_flat_mean(rows, i % w, w, lo, hi, color);
        }
        assert(all =~= src);
    }
}

/// The numbers of a line that lie within the radius of entry `i`, on both sides.
pub open spec fn neighbours(line: Seq<int>, i: int, radius: int) -> Seq<int> {
    line.subrange(
        vstd::math::max(0, i - radius),
        vstd::math::min(line.len() as int, i + radius + 1),
    )
}

/// The mean of a line around entry `i`, rounded down.
pub open spec fn mean_around(line: Seq<int>, i: int, radius: int) -> int {
    crate::lists::total(neighbours(line, i, radius)) / (neighbours(line, i, radius).len() as int)
}

/// A channel along row `y` of an image.
pub open spec fn row_of(src: Seq<u32>, w: int, y: int, channel: spec_fn(u32) -> int) -> Seq<int> {
    Seq::new(w as nat, |x: int| channel(src[y * w + x]))
}

/// The means of a channel around column `x`, one for each row of an image.
pub open spec fn row_means(
    src: Seq<u32>,
    w: int,
    h: int,
    x: int,
    radius: int,
    channel: spec_fn(u32) -> int,
) -> Seq<int> {
    Seq::new(h as nat, |y: int| mean_around(row_of(src, w, y, channel), x, radius))
}

/// A channel of some pixels.
pub open spec fn channel_of(pixels: Seq<u32>, channel: spec_fn(u32) -> int) -> Seq<int> {
    Seq::new(pixels.len(), |i: int| channel(pixels[i]))
}

proof fn lemma_total_window(
    src: Seq<u32>,
    start: int,
    step: int,
    lo: int,
    hi: int,
    channel: spec_fn(u32) -> int,
    line: Seq<int>,
)
    requires
        0 <= lo <= hi + 1 <= line.len(),
        forall|k: int| lo <= k <= hi ==> line[k] == channel(#[trigger] src[start + k * step]),
    ensures
        channel_sum(src, start, step, lo, hi, channel) == crate::lists::total(line.subrange(lo, hi + 1)),
    decreases hi - lo + 1,
{
    let s = line.subrange(lo, hi + 1);
    if lo <= hi {
        lemma_total_window(src, start, step, lo, hi - 1, channel, line);
        assert(s.drop_last() =~= line.subrange(lo, hi));
        assert(s.last() == channel(src[start + hi * step]));
        reveal_with_fuel(Seq::fold_left, 2);
    } else {
        assert(s =~= Seq::empty());
    }
}

proof fn lemma_channels(a: int, r: int, g: int, b: int)
    requires
        0 <= a <= 255,
        0 <= r <= 255,
        0 <= g <= 255,
        0 <= b <= 255,
    ensures
        alpha(pixel(a, r, g, b)) == a,
        red(pixel(a, r, g, b)) == r,
        green(pixel(a, r, g, b)) == g,
        blue(pixel(a, r, g, b)) == b,
{
}

/// Whether `channel` is one of the four channels of a pixel.
pub open spec fn is_channel(channel: spec_fn(u32) -> int) -> bool {
    ||| channel == (|p: u32| alpha(p))
    ||| channel == (|p: u32| red(p))
    ||| channel == (|p: u32| green(p))
    ||| channel == (|p: u32| blue(p))
}

proof fn lemma_mean_pixel(
    src: Seq<u32>,
    start: int,
    step: int,
    lo: int,
    hi: int,
    channel: spec_fn(u32) -> int,
)
    requires
        lo <= hi,
        is_channel(channel),
    ensures
        channel(mean_pixel(src, start, step, lo, hi)) == channel_mean(
            src,
            start,
            step,
            lo,
            hi,
            channel,
        ),
{
    let fa = |p: u32| alpha(p);
    let fr = |p: u32| red(p);
    let fg = |p: u32| green(p);
    let fb = |p: u32| blue(p);
    let n = hi - lo + 1;
    lemma_channel_sum(src, start, step, lo, hi, fa);
    lemma_channel_sum(src, start, step, lo, hi, fr);
    lemma_channel_sum(src, start, step, lo, hi, fg);
    lemma_channel_sum(src, start, step, lo, hi, fb);
    lemma_mean(channel_sum(src, start, step, lo, hi, fa), n);
    lemma_mean(channel_sum(src, start, step, lo, hi, fr), n);
    lemma_mean(channel_sum(src, start, step, lo, hi, fg), n);
    lemma_mean(channel_sum(src, start, step, lo, hi, fb), n);
    lemma_channels(
        channel_mean(src, start, step, lo, hi, fa),
        channel_mean(src, start, step, lo, hi, fr),
        channel_mean(src, start, step, lo, hi, fg),
        channel_mean(src, start, step, lo, hi, fb),
    );
}

/// The mean pixel of a window has the mean of the line around its middle.
proof fn lemma_mean_around(
    src: Seq<u32>,
    start: int,
    step: int,
    at: int,
    n: int,
    radius: int,
    channel: spec_fn(u32) -> int,
    line: Seq<int>,
)
    requires
        is_channel(channel),
        0 <= at < n,
        0 <= radius,
        line.len() == n,
        forall|k: int| 0 <= k < n ==> line[k] == channel(#[trigger] src[start + k * step]),
    ensures
        channel(
            mean_pixel(src, start, step, window_lo(at, radius), window_hi(at, n, radius)),
        ) == mean_around(line, at, radius),
{
    let (lo, hi) = (window_lo(at, radius), window_hi(at, n, radius));
    lemma_mean_pixel(src, start, step, lo, hi, channel);
    lemma_total_window(src, start, step, lo, hi, channel, line);
    assert(neighbours(line, at, radius) == line.subrange(lo, hi + 1));
}

proof fn lemma_sole(line: Seq<int>, i: int)
    requires
        0 <= i < line.len(),
    ensures
        mean_around(line, i, 0) == line[i],
{
    let s = neighbours(line, i, 0);
    assert(s =~= seq![line[i]]);
    assert(s.drop_last() =~= Seq::empty());
    reveal_with_fuel(Seq::fold_left, 2);
}

/// The blur is a box on both axes: each channel of a blurred pixel is the mean, over the rows within
/// the radius, of the means over the columns within the radius. Pixels outside the image count for
/// nothing.
pub proof fn law_blur_averages_both_axes(
    src: Seq<u32>,
    w: int,
    h: int,
    radius: int,
    x: int,
    y: int,
    channel: spec_fn(u32) -> int,
)
    requires
        0 <= x < w,
        0 <= y < h,
        0 <= radius,
        src.len() == w * h,
        is_channel(channel),
    ensures
        blurred(src, w, h, radius).len() == src.len(),
        channel(blurred(src, w, h, radius)[y * w + x]) == mean_around(
            row_means(src, w, h, x, radius, channel),
            y,
            radius,
        ),
{
    crate::canvas::lemma_position(x, y, w, h);
    let means = row_means(src, w, h, x, radius, channel);
    if radius == 0 {
        lemma_sole(means, y);
        lemma_sole(row_of(src, w, y, channel), x);
    } else {
        let rows = row_blur(src, w, radius);
        assert forall|k: int| 0 <= k < h implies means[k] == channel(
            #[trigger] rows[x + k * w],
        ) by {
            crate::canvas::lemma_position(x, k, w, h);
            let line = row_of(src, w, k, channel);
            assert forall|c: int| 0 <= c < w implies line[c] == channel(
                #[trigger] src[k * w + c * 1],
            ) by {}
            lemma_mean_around(src, k * w, 1, x, w, radius, channel, line);
        }
        lemma_mean_around(rows, x, w, y, h, radius, channel, means);
    }
}

proof fn lemma_flat_line(line: Seq<int>, i: int, radius: int, value: int)
    requires
        0 <= i < line.len(),
        0 <= radius,
        forall|k: int| 0 <= k < line.len() ==> line[k] == value,
    ensures
        mean_around(line, i, radius) == value,
{
    let s = neighbours(line, i, radius);
    assert forall|k: int| 0 <= k < s.len() implies s[k] == value by {}
    lemma_flat_total(s, value);
    vstd::arithmetic::div_mod::lemma_div_multiples_vanish(value, s.len() as int);
}

proof fn lemma_flat_total(s: Seq<int>, value: int)
    requires
        forall|k: int| 0 <= k < s.len() ==> s[k] == value,
    ensures
        crate::lists::total(s) == s.len() * value,
    decreases s.len(),
{
    let n = s.len() as int;
    if n > 0 {
        lemma_flat_total(s.drop_last(), value);
        assert(n * value == (n - 1) * value + value) by (nonlinear_arith);
        reveal_with_fuel(Seq::fold_left, 2);
    } else {
        assert(n * value == 0) by (nonlinear_arith)
            requires
                n == 0,
        ;
    }
}

/// The blur treats both axes alike. Where all pixels of each row are equal, a blurred pixel has the
/// mean over the rows within the radius.
pub proof fn law_blur_averages_rows(
    src: Seq<u32>,
    w: int,
    h: int,
    radius: int,
    x: int,
    y: int,
    channel: spec_fn(u32) -> int,
    rows: Seq<u32>,
)
    requires
        0 <= x < w,
        0 <= y < h,
        0 <= radius,
        src.len() == w * h,
        is_channel(channel),
        rows.len() == h,
        forall|i: int, j: int|
            0 <= i < w && 0 <= j < h ==> #[trigger] src[j * w + i] == rows[j],
    ensures
        channel(blurred(src, w, h, radius)[y * w + x]) == mean_around(
            channel_of(rows, channel),
            y,
            radius,
        ),
{
    law_blur_averages_both_axes(src, w, h, radius, x, y, channel);
    let means = row_means(src, w, h, x, radius, channel);
    assert forall|j: int| 0 <= j < h implies means[j] == channel_of(rows, channel)[j] by {
        let line = row_of(src, w, j, channel);
        assert forall|i: int| 0 <= i < line.len() implies line[i] == channel(rows[j]) by {
            assert(src[j * w + i] == rows[j]);
        }
        lemma_flat_line(line, x, radius, channel(rows[j]));
    }
    assert(means =~= channel_of(rows, channel));
}

/// The blur treats both axes alike. Where all pixels of each column are equal, a blurred pixel has
/// the mean over the columns within the radius.
pub proof fn law_blur_averages_columns(
    src: Seq<u32>,
    w: int,
    h: int,
    radius: int,
    x: int,
    y: int,
    channel: spec_fn(u32) -> int,
    columns: Seq<u32>,
)
    requires
        0 <= x < w,
        0 <= y < h,
        0 <= radius,
        src.len() == w * h,
        is_channel(channel),
        columns.len() == w,
        forall|i: int, j: int|
            0 <= i < w && 0 <= j < h ==> #[trigger] src[j * w + i] == columns[i],
    ensures
        channel(blurred(src, w, h, radius)[y * w + x]) == mean_around(
            channel_of(columns, channel),
            x,
            radius,
        ),
{
    law_blur_averages_both_axes(src, w, h, radius, x, y, channel);
    let means = row_means(src, w, h, x, radius, channel);
    let line = channel_of(columns, channel);
    assert forall|j: int| 0 <= j < means.len() implies means[j] == mean_around(
        line,
        x,
        radius,
    ) by {
        assert forall|i: int| 0 <= i < w implies row_of(src, w, j, channel)[i] == line[i] by {
            assert(src[j * w + i] == columns[i]);
        }
        assert(row_of(src, w, j, channel) =~= line);
    }
    lemma_flat_line(means, y, radius, mean_around(line, x, radius));
}

} // verus!
