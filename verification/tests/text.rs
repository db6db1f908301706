//! Bitmap text and canvas bounds.

use nexacore_ui::canvas::Canvas;
use nexacore_ui::color::CHARCOAL;
use nexacore_ui::geometry::Rect;
use nexacore_ui::text::{draw_text, glyph_for, measure_text};

/// A light background.
const CREAM: u32 = 0xFFF4_EBD0;

// FNV-1a constants declared at module scope to avoid items-after-statements.
const FNV_OFFSET_BASIS: u32 = 0x811C_9DC5;
const FNV_PRIME: u32 = 0x0100_0193;

/// FNV-1a 32-bit hash over a byte slice.
///
/// This is the standard FNV-1a algorithm: `hash = (hash ^ byte) * FNV_PRIME_32` for each
/// byte.  It is deterministic and platform-independent.
///
/// The purpose is purely to pin pixel-buffer contents in the golden render
/// test — not cryptographic security.
fn fnv1a_32(data: &[u8]) -> u32 {
    let mut hash = FNV_OFFSET_BASIS;
    for &b in data {
        hash ^= u32::from(b);
        hash = hash.wrapping_mul(FNV_PRIME);
    }
    hash
}

/// Convenience: hash a `&[u32]` pixel buffer by viewing it as bytes.
fn hash_pixels(pixels: &[u32]) -> u32 {
    // Interpret the u32 slice as a byte slice for hashing.
    // Each u32 contributes 4 bytes (little-endian on x86).
    let mut hash: u32 = FNV_OFFSET_BASIS;
    for &px in pixels {
        let bytes = px.to_le_bytes();
        for &b in &bytes {
            hash ^= u32::from(b);
            hash = hash.wrapping_mul(FNV_PRIME);
        }
    }
    hash
}

#[test]
fn utf8_measurement_codepoints_not_bytes() {
    // "café" is 4 codepoints but 5 UTF-8 bytes.
    let (w, h) = measure_text("café", 1);
    assert_eq!(w, 4 * 8, "width must count codepoints (4), not bytes (5)");
    assert_eq!(h, 8, "height must be GLYPH_H * scale");

    // scale 2.
    let (w2, h2) = measure_text("hello", 2);
    assert_eq!(w2, 5 * 8 * 2, "5-char string at scale 2");
    assert_eq!(h2, 8 * 2, "height at scale 2");

    // Empty string.
    let (we, he) = measure_text("", 1);
    assert_eq!(we, 0, "empty string width must be 0");
    assert_eq!(he, 8, "empty string height must still be GLYPH_H");

    // Emoji — counts as 1 codepoint regardless of byte length.
    let (wx, _) = measure_text("x🦀", 1);
    assert_eq!(wx, 2 * 8, "emoji counts as 1 glyph");

    // CJK character — also 1 codepoint.
    let (wk, _) = measure_text("中", 1);
    assert_eq!(wk, 8, "CJK char counts as 1 glyph (width = 8)");

    // Scale 0 is treated as 1.
    let (ws, hs) = measure_text("A", 0);
    assert_eq!(ws, 8, "scale 0 treated as 1");
    assert_eq!(hs, 8, "scale 0 treated as 1 height");
}

/// Canvas size for the golden render test.
/// 8 chars × 8 px/char = 64 px wide; 8 px tall.  Keep a small buffer.
const GOLDEN_W: u32 = 64;
const GOLDEN_H: u32 = 16;

/// The expected FNV-1a hash of the pixel buffer after rendering "NexaCore" at
/// scale 1, charcoal (`0xFF1F2421`) on black (`0x00000000`), at position (0, 0),
/// into a `64 × 16` canvas.
///
/// This constant PINS the raster output of the text renderer.  If the font
/// data, bit ordering, glyph lookup, or the FNV-1a implementation changes,
/// this value will change — the failing test is the signal to review the diff.
/// Update it only after deliberate review.
const GOLDEN_HASH: u32 = 0x82AD_7102;

#[test]
fn golden_render_hash() {
    let mut pixels = vec![0u32; (GOLDEN_W * GOLDEN_H) as usize];
    let mut canvas = Canvas::new(&mut pixels, GOLDEN_W, GOLDEN_H).unwrap();
    draw_text(&mut canvas, 0, 0, "NexaCore", CHARCOAL, 1);

    // The rendered region must be non-blank (some pixels are the text colour).
    assert!(
        pixels.iter().any(|&p| p == CHARCOAL),
        "rendered text region must contain at least one text-colour pixel"
    );

    // The background (pixels not set by the glyph) must still be 0 (unchanged).
    // There must be more background pixels than text pixels for a sparse glyph.
    let text_pixels = pixels.iter().filter(|&&p| p == CHARCOAL).count();
    let bg_pixels = pixels.iter().filter(|&&p| p == 0).count();
    assert!(
        bg_pixels > text_pixels,
        "sparse glyph: more background pixels ({bg_pixels}) than text pixels ({text_pixels})"
    );

    // Compute the hash of the buffer and assert it matches the pinned value.
    let hash = hash_pixels(&pixels);
    assert_eq!(
        hash, GOLDEN_HASH,
        "golden pixel hash mismatch (got 0x{hash:08X}, expected 0x{GOLDEN_HASH:08X}); \
         raster output has changed — update GOLDEN_HASH after deliberate review"
    );
}

/// Verifies the golden hash infrastructure: recomputes the hash and checks it
/// against `GOLDEN_HASH`.  This is a redundant check that the hash function
/// itself is deterministic across test runs.
#[test]
fn golden_hash_is_deterministic() {
    let mut pixels_a = vec![0u32; (GOLDEN_W * GOLDEN_H) as usize];
    let mut canvas_a = Canvas::new(&mut pixels_a, GOLDEN_W, GOLDEN_H).unwrap();
    draw_text(&mut canvas_a, 0, 0, "NexaCore", CHARCOAL, 1);
    let hash_a = hash_pixels(&pixels_a);

    let mut pixels_b = vec![0u32; (GOLDEN_W * GOLDEN_H) as usize];
    let mut canvas_b = Canvas::new(&mut pixels_b, GOLDEN_W, GOLDEN_H).unwrap();
    draw_text(&mut canvas_b, 0, 0, "NexaCore", CHARCOAL, 1);
    let hash_b = hash_pixels(&pixels_b);

    assert_eq!(hash_a, hash_b, "hash must be deterministic across renders");
    assert_eq!(hash_a, GOLDEN_HASH, "hash must match the pinned constant");
}

#[test]
fn blit_glyph_off_canvas_does_not_panic() {
    let mut pixels = vec![0u32; 16 * 16];
    let mut canvas = Canvas::new(&mut pixels, 16, 16).unwrap();
    let g = glyph_for('A');

    // Fully off-canvas (negative coordinates).
    canvas.blit_glyph(-100, -100, g, CHARCOAL, 1);
    // Partially off the right/bottom edge.
    canvas.blit_glyph(14, 14, g, CHARCOAL, 1);
    // Fully past the right/bottom edge.
    canvas.blit_glyph(1000, 1000, g, CHARCOAL, 1);
    // Scale that would overflow if unchecked.
    canvas.blit_glyph(0, 0, g, CHARCOAL, 1000);
    // None of these should have written outside the 16*16 buffer.
    // (If they did, we'd have UB — the bounds-checked get_mut prevents that.)
    assert_eq!(pixels.len(), 16 * 16, "buffer length must be unchanged");
}

#[test]
fn draw_text_off_canvas_does_not_panic() {
    let mut pixels = vec![0u32; 32 * 8];
    let mut canvas = Canvas::new(&mut pixels, 32, 8).unwrap();

    // Start position before the left edge.
    draw_text(&mut canvas, -200, 0, "HELLO", CHARCOAL, 1);
    // Start position past the right edge.
    draw_text(&mut canvas, 10000, 0, "HELLO", CHARCOAL, 1);
    // Negative y.
    draw_text(&mut canvas, 0, -100, "HELLO", CHARCOAL, 1);
    // Partially off-canvas (text wider than canvas).
    draw_text(&mut canvas, 28, 0, "HELLO", CHARCOAL, 1);

    // Buffer length must be unchanged.
    assert_eq!(pixels.len(), 32 * 8, "buffer length must be unchanged");
}

#[test]
fn fill_rect_outside_canvas_does_not_panic() {
    let mut pixels = vec![CREAM; 8 * 8];
    let mut canvas = Canvas::new(&mut pixels, 8, 8).unwrap();
    let outside = Rect {
        x: 100,
        y: 100,
        w: 10,
        h: 10,
    };
    canvas.fill_rect(&outside, CHARCOAL);
    // All pixels should still be CREAM.
    assert!(
        pixels.iter().all(|&p| p == CREAM),
        "fill_rect outside canvas must not modify any pixel"
    );
}

#[test]
fn fnv1a_known_vector() {
    // FNV-1a 32 of the empty string is the offset basis by definition.
    assert_eq!(fnv1a_32(&[]), 0x811C_9DC5);
    // FNV-1a 32 of b"a": (0x811C9DC5 ^ 0x61) * 0x01000193 = 0xE40C292C.
    // Computed independently; matches the FNV reference test vectors.
    assert_eq!(fnv1a_32(b"a"), 0xE40C_292C);
}

#[test]
fn glyphs_come_from_the_font() {
    assert_eq!(glyph_for(' '), [0u8; 8]);
    assert_eq!(
        glyph_for('A'),
        [0x0C, 0x1E, 0x33, 0x33, 0x3F, 0x33, 0x33, 0x00]
    );
    // A character beyond ASCII shows as a box.
    let boxed = [0xFF, 0x81, 0x81, 0x81, 0x81, 0x81, 0x81, 0xFF];
    assert_eq!(glyph_for('é'), boxed);
    assert_eq!(glyph_for('🦀'), boxed);
}
