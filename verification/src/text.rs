//! Text measurement and rasterization with 8×8 bitmap glyphs.
//!
//! Measurement and drawing go by Unicode scalar values, not bytes: a multibyte
//! character counts as one glyph. Codepoints outside ASCII are drawn as a visible
//! "unknown box", so that text never renders as a blank gap.

use vstd::prelude::*;

use crate::canvas::Canvas;
use crate::strings::to_chars;

verus! {

/// Width of one glyph in pixels.
pub const GLYPH_W: u32 = 8;

/// Height of one glyph in pixels.
pub const GLYPH_H: u32 = 8;

/// The rows of the bitmap of an ASCII character, from `0` to `127`.
pub uninterp spec fn basic_glyph(code: int) -> Seq<u8>;

/// The rows of the "unknown box": a filled border.
pub open spec fn fallback_glyph() -> Seq<u8> {
    seq![0xFFu8, 0x81, 0x81, 0x81, 0x81, 0x81, 0x81, 0xFF]
}

/// The rows of the bitmap of a character.
pub open spec fn glyph(c: char) -> Seq<u8> {
    if (c as u32) < 128 {
        basic_glyph(c as int)
    } else {
        fallback_glyph()
    }
}

/// `font8x8::legacy::BASIC_LEGACY` is a constant table of 128 bitmaps of eight rows, one for each
/// of the codes `0` to `127`.
#[verifier::external_body]
fn legacy_glyph(code: usize) -> (r: [u8; 8])
    requires
        code < 128,
    ensures
        r@ == basic_glyph(code as int),
{
    font8x8::legacy::BASIC_LEGACY[code]
}

/// The 8×8 glyph for `ch`.
///
/// ASCII characters have their own glyph; all other codepoints get the "unknown
/// box".
pub fn glyph_for(ch: char) -> (r: [u8; 8])
    ensures
        r@ == glyph(ch),
{
    let code: u32 = ch as u32;
    if code < 128 {
        legacy_glyph(code as usize)
    } else {
        let box_glyph: [u8; 8] = [0xFF, 0x81, 0x81, 0x81, 0x81, 0x81, 0x81, 0xFF];
        assert(box_glyph@ =~= fallback_glyph());
        box_glyph
    }
}

/// `n`, but at most the largest `u32`.
pub open spec fn saturated(n: int) -> u32 {
    if n > u32::MAX {
        u32::MAX
    } else {
        n as u32
    }
}

/// The width of `n` glyphs at a magnification.
pub open spec fn text_width(n: nat, scale: u32) -> u32 {
    saturated(8 * n * crate::canvas::at_least_one(scale))
}

/// Pixels with a text drawn on them, its first glyph at `(x, y)`. Glyphs that start past the right
/// edge are left out.
pub open spec fn lettered(
    s: Seq<u32>,
    w: int,
    x: int,
    y: int,
    text: Seq<char>,
    color: u32,
    k: int,
) -> Seq<u32>
    decreases text.len(),
{
    if text.len() == 0 || x >= w {
        s
    } else {
        lettered(
            crate::canvas::stamped(s, w, x, y, glyph(text[0]), color, k),
            w,
            x + 8 * k,
            y,
            text.drop_first(),
            color,
            k,
        )
    }
}

/// The width of `n` glyphs at a magnification.
fn advance(n: usize, scale: u32) -> (r: u32)
    ensures
        r == text_width(n as nat, scale),
{
    let k: u128 = if scale == 0 {
        1
    } else {
        scale as u128
    };
    proof {
        assert(0 <= 8 * n * k <= 8 * 0xFFFF_FFFF_FFFF_FFFF * 0xFFFF_FFFF) by (nonlinear_arith)
            requires
                0 <= n <= 0xFFFF_FFFF_FFFF_FFFF,
                1 <= k <= 0xFFFF_FFFF,
        ;
        assert(8 * n * k == (8 * n) * k);
    }
    let total: u128 = (8 * n as u128) * k;
    if total > u32::MAX as u128 {
        u32::MAX
    } else {
        total as u32
    }
}

/// The pixel dimensions `(width, height)` of `s` rendered at `scale`.
///
/// Width is the number of Unicode scalar values in `s` times [`GLYPH_W`] times
/// `scale`; height is [`GLYPH_H`] times `scale`. Both saturate. A `scale` of 0 is
/// treated as 1.
pub fn measure_text(s: &str, scale: u32) -> (r: (u32, u32))
    ensures
        r.0 == text_width(s@.len(), scale),
        r.1 == text_width(1, scale),
{
    (advance(s.unicode_len(), scale), advance(1, scale))
}

/// Draws `s` onto `canvas` at position `(x, y)` in `color` at `scale`.
///
/// Glyphs that would start entirely past the right canvas edge are skipped; no
/// glyph write ever leaves the canvas. Returns the total advance width in pixels,
/// which is the width that [`measure_text`] gives for the same string and scale. A
/// `scale` of 0 is treated as 1.
pub fn draw_text(canvas: &mut Canvas<'_>, x: i32, y: i32, s: &str, color: u32, scale: u32) -> (r:
    u32)
    requires
        old(canvas).wf(),
    ensures
        final(canvas).wf(),
        final(canvas).w() == old(canvas).w(),
        final(canvas).h() == old(canvas).h(),
        final(final(canvas).buffer())@ == final(old(canvas).buffer())@,
        final(canvas).pix() == lettered(
            old(canvas).pix(),
            old(canvas).w(),
            x as int,
            y as int,
            s@,
            color,
            crate::canvas::at_least_one(scale),
        ),
        r == text_width(s@.len(), scale),
{
    let v = to_chars(s);
    let k: i64 = if scale == 0 {
        1
    } else {
        scale as i64
    };
    let w: i64 = canvas.width() as i64;
    let mut cursor: i64 = x as i64;
    let mut i: usize = 0;
    assert(v@.skip(0) == v@);
    while i < v.len() && cursor < w
        invariant
            i <= v@.len(),
            v@ == s@,
            canvas.wf(),
            canvas.w() == old(canvas).w(),
            canvas.h() == old(canvas).h(),
            w == canvas.w(),
            1 <= k <= 0xFFFF_FFFF,
            k == crate::canvas::at_least_one(scale),
            -0x8000_0000 <= cursor <= 0x10_0000_0000,
            final(canvas.buffer())@ == final(old(canvas).buffer())@,
            lettered(canvas.pix(), w as int, cursor as int, y as int, v@.skip(i as int), color, k as int)
                == lettered(old(canvas).pix(), w as int, x as int, y as int, s@, color, k as int),
        decreases v@.len() - i,
    {
        let g = glyph_for(v[i]);
        proof {
            let rest = v@.skip(i as int);
            assert(rest[0] == v@[i as int]);
            assert(rest.drop_first() == v@.skip(i + 1));
        }
        canvas.stamp_glyph(cursor, y as i64, &g, color, scale);
        cursor = cursor + 8 * k;
        i = i + 1;
    }
    advance(v.len(), scale)
}

/// Whether a text with its first glyph at `(x, y)` inks a pixel: glyph `i` stands in the `8 * k`
/// columns from `x + 8 * k * i` on, each bit of its rows is a square of `k` by `k` pixels, and the
/// least significant bit of a row is on the left.
pub open spec fn text_inks(text: Seq<char>, x: int, y: int, k: int, px: int, py: int) -> bool {
    exists|i: int|
        {
            let left = x + 8 * k * i;
            &&& 0 <= i < text.len()
            &&& left <= px < left + 8 * k
            &&& y <= py < y + 8 * k
            &&& bit_is_set((#[trigger] glyph(text[i]))[(py - y) / k], (px - left) / k)
        }
}

/// Whether a row of a glyph has the bit of a column, the one with the value `2^col`.
pub open spec fn bit_is_set(row: u8, col: int) -> bool {
    (row as int / vstd::arithmetic::power2::pow2(col as nat) as int) % 2 == 1
}

proof fn lemma_bit(row: u8, col: int)
    requires
        0 <= col < 8,
    ensures
        ((row >> (col as u8)) & 1u8 != 0u8) == bit_is_set(row, col),
{
    let c = col as u8;
    vstd::arithmetic::power2::lemma2_to64();
    assert((row >> 0u8) & 1u8 == (row / 1) % 2 && (row >> 1u8) & 1u8 == (row / 2) % 2 && (row
        >> 2u8) & 1u8 == (row / 4) % 2 && (row >> 3u8) & 1u8 == (row / 8) % 2 && (row >> 4u8) & 1u8
        == (row / 16) % 2 && (row >> 5u8) & 1u8 == (row / 32) % 2 && (row >> 6u8) & 1u8 == (row
        / 64) % 2 && (row >> 7u8) & 1u8 == (row / 128) % 2) by (bit_vector);
    assert(c == 0 || c == 1 || c == 2 || c == 3 || c == 4 || c == 5 || c == 6 || c == 7);
}

proof fn lemma_next_column(x: int, k: int, i: int)
    ensures
        x + 8 * k + 8 * k * i == x + 8 * k * (i + 1),
{
    assert(x + 8 * k + 8 * k * i == x + 8 * k * (i + 1)) by (nonlinear_arith);
}

/// Text is drawn glyph by glyph, side by side: a pixel takes the colour exactly if the glyph whose
/// columns and rows it lies in has its bit set there, and every other pixel stays as it was.
pub proof fn law_text_inks_its_glyphs(
    s: Seq<u32>,
    w: int,
    x: int,
    y: int,
    text: Seq<char>,
    color: u32,
    k: int,
    px: int,
    py: int,
)
    requires
        k >= 1,
        0 <= px < w,
        0 <= py,
        py * w + px < s.len(),
    ensures
        lettered(s, w, x, y, text, color, k).len() == s.len(),
        lettered(s, w, x, y, text, color, k)[py * w + px] == (if text_inks(
            text,
            x,
            y,
            k,
            px,
            py,
        ) {
            color
        } else {
            s[py * w + px]
        }),
    decreases text.len(),
{
    if text.len() == 0 {
    } else if x >= w {
        if text_inks(text, x, y, k, px, py) {
            let i = choose|i: int|
                {
                    let left = x + 8 * k * i;
                    &&& 0 <= i < text.len()
                    &&& left <= px < left + 8 * k
                    &&& y <= py < y + 8 * k
                    &&& bit_is_set((#[trigger] glyph(text[i]))[(py - y) / k], (px - left) / k)
                };
            assert(0 <= 8 * k * i) by (nonlinear_arith)
                requires
                    0 <= i,
                    k >= 1,
            ;
        }
        assert(!text_inks(text, x, y, k, px, py));
    } else {
        let g = glyph(text[0]);
        let s1 = crate::canvas::stamped(s, w, x, y, g, color, k);
        let rest = text.drop_first();
        let x1 = x + 8 * k;
        law_text_inks_its_glyphs(s1, w, x1, y, rest, color, k, px, py);
        let here = x <= px < x + 8 * k && y <= py < y + 8 * k && bit_is_set(
            g[(py - y) / k],
            (px - x) / k,
        );
        let at = py * w + px;
        assert(at % w == px && at / w == py && 0 <= at) by {
            vstd::arithmetic::div_mod::lemma_fundamental_div_mod_converse(at, w, py, px);
            assert(0 <= py * w) by (nonlinear_arith)
                requires
                    0 <= py,
                    0 <= w,
            ;
        }
        assert(crate::canvas::inks(g, x, y, k, px, py) == here) by {
            if x <= px < x + 8 * k && y <= py < y + 8 * k {
                lemma_cell(px - x, k);
                lemma_cell(py - y, k);
                lemma_bit(g[(py - y) / k], (px - x) / k);
            }
        }
        assert(s1[at] == if here {
            color
        } else {
            s[at]
        });
        assert(8 * k * 0 == 0);
        if here {
            assert(glyph(text[0])[(py - y) / k] == g[(py - y) / k]);
            assert(text_inks(text, x, y, k, px, py));
        }
        if text_inks(rest, x1, y, k, px, py) {
            let i = choose|i: int|
                {
                    let left = x1 + 8 * k * i;
                    &&& 0 <= i < rest.len()
                    &&& left <= px < left + 8 * k
                    &&& y <= py < y + 8 * k
                    &&& bit_is_set((#[trigger] glyph(rest[i]))[(py - y) / k], (px - left) / k)
                };
            lemma_next_column(x, k, i);
            assert(rest[i] == text[i + 1]);
            assert(glyph(text[i + 1]) == glyph(rest[i]));
            assert(text_inks(text, x, y, k, px, py));
        }
        if text_inks(text, x, y, k, px, py) && !here {
            let i = choose|i: int|
                {
                    let left = x + 8 * k * i;
                    &&& 0 <= i < text.len()
                    &&& left <= px < left + 8 * k
                    &&& y <= py < y + 8 * k
                    &&& bit_is_set((#[trigger] glyph(text[i]))[(py - y) / k], (px - left) / k)
                };
            assert(i > 0);
            lemma_next_column(x, k, i - 1);
            assert(rest[i - 1] == text[i]);
            assert(glyph(rest[i - 1]) == glyph(text[i]));
            assert(text_inks(rest, x1, y, k, px, py));
        }
    }
}

proof fn lemma_cell(d: int, k: int)
    requires
        0 <= d < 8 * k,
        k >= 1,
    ensures
        0 <= d / k < 8,
{
    assert(0 <= d / k < 8) by (nonlinear_arith)
        requires
            0 <= d < 8 * k,
            k >= 1,
    ;
}

/// Drawing one text behind another is drawing both at once: the second begins where the measured
/// width of the first ends, as long as that width does not saturate.
pub proof fn law_text_is_drawn_side_by_side(
    s: Seq<u32>,
    w: int,
    x: int,
    y: int,
    a: Seq<char>,
    b: Seq<char>,
    color: u32,
    scale: u32,
)
    requires
        8 * a.len() * crate::canvas::at_least_one(scale) <= u32::MAX,
    ensures
        ({
            let k = crate::canvas::at_least_one(scale);
            lettered(s, w, x, y, a + b, color, k) == lettered(
                lettered(s, w, x, y, a, color, k),
                w,
                x + text_width(a.len(), scale),
                y,
                b,
                color,
                k,
            )
        }),
{
    let k = crate::canvas::at_least_one(scale);
    let n = a.len() as int;
    assert(8 * n * k == 8 * k * n) by (nonlinear_arith);
    assert(0 <= 8 * n * k) by (nonlinear_arith)
        requires
            0 <= n,
            1 <= k,
    ;
    lemma_lettered_concat(s, w, x, y, a, b, color, k);
}

proof fn lemma_lettered_concat(
    s: Seq<u32>,
    w: int,
    x: int,
    y: int,
    a: Seq<char>,
    b: Seq<char>,
    color: u32,
    k: int,
)
    requires
        k >= 1,
    ensures
        lettered(s, w, x, y, a + b, color, k) == lettered(
            lettered(s, w, x, y, a, color, k),
            w,
            x + 8 * k * a.len(),
            y,
            b,
            color,
            k,
        ),
    decreases a.len(),
{
    let n = a.len() as int;
    if n == 0 {
        assert(a + b == b);
        assert(8 * k * n == 0) by (nonlinear_arith)
            requires
                n == 0,
        ;
    } else if x >= w {
        assert(0 <= 8 * k * n) by (nonlinear_arith)
            requires
                0 <= n,
                k >= 1,
        ;
    } else {
        let s1 = crate::canvas::stamped(s, w, x, y, glyph(a[0]), color, k);
        lemma_lettered_concat(s1, w, x + 8 * k, y, a.drop_first(), b, color, k);
        lemma_next_column(x, k, n - 1);
        assert((a + b)[0] == a[0]);
        assert((a + b).drop_first() == a.drop_first() + b);
    }
}

/// The width of a text is the sum of the widths of its parts, and every glyph is as wide as it is
/// high, as long as nothing saturates.
pub proof fn law_widths_add_up(m: nat, n: nat, scale: u32)
    requires
        8 * (m + n) * crate::canvas::at_least_one(scale) <= u32::MAX,
    ensures
        text_width(m + n, scale) == text_width(m, scale) + text_width(n, scale),
        text_width(m, scale) == m * (GLYPH_W * crate::canvas::at_least_one(scale)),
{
    let k = crate::canvas::at_least_one(scale);
    let (a, b) = (m as int, n as int);
    assert(8 * (a + b) * k == 8 * a * k + 8 * b * k && 0 <= 8 * a * k && 0 <= 8 * b * k && 8 * a * k
        == a * (8 * k)) by (nonlinear_arith)
        requires
            0 <= a,
            0 <= b,
            1 <= k,
    ;
}

} // verus!
