//! Drawing plans: what a surface draws, as a list of operations in painting order, and the painter
//! that carries one out on a canvas.
//!
//! The painter takes the anti-aliasing and blending primitives of the compositor as functions.

use vstd::prelude::*;

use crate::canvas::Canvas;
use crate::geometry::Rect;
use crate::text::draw_text;
use crate::theme::Shadow;

verus! {

/// One drawing operation.
#[derive(Debug, Clone, PartialEq, Eq)]
pub enum DrawOp {
    /// The soft drop shadow of a rectangle.
    Shadow {
        /// What casts the shadow.
        rect: Rect,
        /// How it falls.
        shadow: Shadow,
    },
    /// A rectangle with anti-aliased round corners.
    RoundedRect {
        /// The rectangle.
        rect: Rect,
        /// The corner radius.
        radius: u32,
        /// Its colour.
        color: u32,
    },
    /// A solid rectangle.
    FillRect {
        /// The rectangle.
        rect: Rect,
        /// Its colour.
        color: u32,
    },
    /// A line of bitmap text.
    Text {
        /// Left edge of the first glyph.
        x: i32,
        /// Top edge.
        y: i32,
        /// The text.
        text: String,
        /// Its colour.
        color: u32,
        /// Its magnification.
        scale: u32,
    },
}

/// What an operation draws.
pub enum Ink {
    /// A drop shadow.
    Shadow(Rect, Shadow),
    /// A rectangle with round corners: its radius and colour.
    Rounded(Rect, u32, u32),
    /// A solid rectangle in a colour.
    Fill(Rect, u32),
    /// A text at a position, in a colour and at a magnification.
    Text(int, int, Seq<char>, u32, u32),
}

impl View for DrawOp {
    type V = Ink;

    open spec fn view(&self) -> Ink {
        match self {
            DrawOp::Shadow { rect, shadow } => Ink::Shadow(*rect, *shadow),
            DrawOp::RoundedRect { rect, radius, color } => Ink::Rounded(*rect, *radius, *color),
            DrawOp::FillRect { rect, color } => Ink::Fill(*rect, *color),
            DrawOp::Text { x, y, text, color, scale } => Ink::Text(
                *x as int,
                *y as int,
                text@,
                *color,
                *scale,
            ),
        }
    }
}

/// What the operations of a list draw.
pub open spec fn inks_of(ops: Seq<DrawOp>) -> Seq<Ink> {
    ops.map_values(|o: DrawOp| o@)
}

/// The compositor's primitives.
pub struct Effects<C, G, A, B> {
    /// How much of a pixel a rectangle with round corners covers, by rectangle, radius and
    /// position.
    pub coverage: C,
    /// The area that the shadow of a rectangle falls on.
    pub bounds: G,
    /// The opacity of the shadow of a rectangle at a position.
    pub alpha: A,
    /// The blend operator: a source pixel with alpha over a destination pixel.
    pub blend: B,
}

impl<
    C: Fn(Rect, u32, i32, i32) -> u8,
    G: Fn(Rect, Shadow) -> Rect,
    A: Fn(Rect, Shadow, i32, i32) -> u8,
    B: Fn(u32, u32) -> u32,
> Effects<C, G, A, B> {
    /// Whether the primitives take every argument.
    pub open spec fn total(&self) -> bool {
        &&& forall|r: Rect, k: u32, x: i32, y: i32| call_requires(self.coverage, (r, k, x, y))
        &&& forall|r: Rect, s: Shadow| call_requires(self.bounds, (r, s))
        &&& forall|r: Rect, s: Shadow, x: i32, y: i32| call_requires(self.alpha, (r, s, x, y))
        &&& forall|s: u32, d: u32| call_requires(self.blend, (s, d))
    }

    /// The opacities that the shadow of a rectangle may have at a position.
    pub open spec fn shade(&self, rect: Rect, shadow: Shadow) -> spec_fn(i32, i32, u8) -> bool {
        |x: i32, y: i32, a: u8| call_ensures(self.alpha, (rect, shadow, x, y), a)
    }

    /// The coverages that a rectangle with round corners may have at a position.
    pub open spec fn cover(&self, rect: Rect, radius: u32) -> spec_fn(i32, i32, u8) -> bool {
        |x: i32, y: i32, a: u8| call_ensures(self.coverage, (rect, radius, x, y), a)
    }

    /// Whether `after` is `before` with the shadow of a rectangle drawn over an area that it falls on.
    pub open spec fn shaded(
        &self,
        before: Seq<u32>,
        after: Seq<u32>,
        w: int,
        rect: Rect,
        shadow: Shadow,
        area: Rect,
    ) -> bool {
        call_ensures(self.bounds, (rect, shadow), area) && spread(
            before,
            after,
            w,
            area,
            self.shade(rect, shadow),
            shadow.color,
            self.blend,
        )
    }

    /// Whether `after` is `before` with the shadow of a rectangle drawn on it.
    pub open spec fn shadow_drawn(
        &self,
        before: Seq<u32>,
        after: Seq<u32>,
        w: int,
        rect: Rect,
        shadow: Shadow,
    ) -> bool {
        exists|area: Rect| #[trigger] self.shaded(before, after, w, rect, shadow, area)
    }

    /// Whether `after` is `before` with one operation drawn on it.
    pub open spec fn drawn(&self, before: Seq<u32>, after: Seq<u32>, w: int, ink: Ink) -> bool {
        match ink {
            Ink::Shadow(rect, shadow) => self.shadow_drawn(before, after, w, rect, shadow),
            Ink::Rounded(rect, radius, color) => spread(
                before,
                after,
                w,
                rect,
                self.cover(rect, radius),
                color,
                self.blend,
            ),
            Ink::Fill(rect, color) => after == crate::canvas::painted(
                before,
                w,
                |x: int, y: int| rect.has(x, y),
                color,
            ),
            Ink::Text(x, y, text, color, scale) => after == crate::text::lettered(
                before,
                w,
                x,
                y,
                text,
                color,
                crate::canvas::at_least_one(scale),
            ),
        }
    }

    /// Whether `after` is `before` with some operations drawn on it, one after the other.
    pub open spec fn all_drawn(
        &self,
        before: Seq<u32>,
        after: Seq<u32>,
        w: int,
        plan: Seq<Ink>,
    ) -> bool
        decreases plan.len(),
    {
        if plan.len() == 0 {
            after == before
        } else {
            exists|mid: Seq<u32>|
                self.all_drawn(before, mid, w, plan.drop_last()) && #[trigger] self.drawn(
                    mid,
                    after,
                    w,
                    plan.last(),
                )
        }
    }
}

/// Whether `after` is `before` with a colour over the pixels of an area, each by a coverage that is
/// allowed for it, and nothing else changed.
pub open spec fn spread<B: Fn(u32, u32) -> u32>(
    before: Seq<u32>,
    after: Seq<u32>,
    w: int,
    area: Rect,
    allowed: spec_fn(i32, i32, u8) -> bool,
    color: u32,
    blend: B,
) -> bool {
    &&& after.len() == before.len()
    &&& forall|i: int|
        0 <= i < before.len() ==> if area.has(i % w, i / w) && i % w <= i32::MAX && i / w
            <= i32::MAX {
            one_of(allowed, (i % w) as i32, (i / w) as i32, blend, before[i], color, #[trigger]
                after[i])
        } else {
            after[i] == before[i]
        }
}

/// Whether `r` is a colour over `dst` by some coverage that is allowed for the position.
pub open spec fn one_of<B: Fn(u32, u32) -> u32>(
    allowed: spec_fn(i32, i32, u8) -> bool,
    x: i32,
    y: i32,
    blend: B,
    dst: u32,
    color: u32,
    r: u32,
) -> bool {
    exists|cov: u8| #[trigger]
        allowed(x, y, cov) && crate::canvas::composited(blend, dst, color, cov, r)
}

proof fn lemma_spread<C: Fn(i32, i32) -> u8, B: Fn(u32, u32) -> u32>(
    before: Seq<u32>,
    after: Seq<u32>,
    w: int,
    area: Rect,
    coverage: C,
    allowed: spec_fn(i32, i32, u8) -> bool,
    color: u32,
    blend: B,
)
    requires
        crate::canvas::blended_area(before, after, w, area, coverage, color, blend),
        forall|x: i32, y: i32, a: u8|
            call_ensures(coverage, (x, y), a) ==> #[trigger] allowed(x, y, a),
    ensures
        spread(before, after, w, area, allowed, color, blend),
{
    assert forall|i: int| 0 <= i < before.len() implies if area.has(i % w, i / w) && i % w
        <= i32::MAX && i / w <= i32::MAX {
        one_of(allowed, (i % w) as i32, (i / w) as i32, blend, before[i], color, #[trigger]
            after[i])
    } else {
        after[i] == before[i]
    } by {
        let (x, y) = ((i % w) as i32, (i / w) as i32);
        if area.has(i % w, i / w) && i % w <= i32::MAX && i / w <= i32::MAX {
            assert(crate::canvas::covered(coverage, blend, before[i], color, x, y, after[i]));
            let cov = choose|cov: u8| #[trigger]
                call_ensures(coverage, (x, y), cov) && crate::canvas::composited(
                    blend,
                    before[i],
                    color,
                    cov,
                    after[i],
                );
            assert(allowed(x, y, cov));
        }
    }
}

/// Carries out one operation.
pub fn paint_op<
    C: Fn(Rect, u32, i32, i32) -> u8,
    G: Fn(Rect, Shadow) -> Rect,
    A: Fn(Rect, Shadow, i32, i32) -> u8,
    B: Fn(u32, u32) -> u32,
>(canvas: &mut Canvas<'_>, op: &DrawOp, fx: &Effects<C, G, A, B>)
    requires
        old(canvas).wf(),
        fx.total(),
    ensures
        final(canvas).wf(),
        final(canvas).w() == old(canvas).w(),
        final(canvas).h() == old(canvas).h(),
        final(final(canvas).buffer())@ == final(old(canvas).buffer())@,
        fx.drawn(old(canvas).pix(), final(canvas).pix(), old(canvas).w(), op@),
{
    match op {
        DrawOp::Shadow { rect, shadow } => {
            let r = *rect;
            let s = *shadow;
            let area = (fx.bounds)(r, s);
            let alpha = |x: i32, y: i32| -> (a: u8)
                ensures
                    call_ensures(fx.alpha, (r, s, x, y), a),
                { (fx.alpha)(r, s, x, y) };
            canvas.draw_shadow(&area, &alpha, s.color, &fx.blend);
            proof {
                lemma_spread(
                    old(canvas).pix(),
                    canvas.pix(),
                    old(canvas).w(),
                    area,
                    alpha,
                    fx.shade(r, s),
                    s.color,
                    fx.blend,
                );
                assert(fx.shaded(old(canvas).pix(), canvas.pix(), old(canvas).w(), r, s, area));
            }
        },
        DrawOp::RoundedRect { rect, radius, color } => {
            let r = *rect;
            let k: u32 = *radius;
            let cover = |x: i32, y: i32| -> (a: u8)
                ensures
                    call_ensures(fx.coverage, (r, k, x, y), a),
                { (fx.coverage)(r, k, x, y) };
            canvas.fill_rounded_rect(&r, &cover, *color, &fx.blend);
            proof {
                lemma_spread(
                    old(canvas).pix(),
                    canvas.pix(),
                    old(canvas).w(),
                    r,
                    cover,
                    fx.cover(r, k),
                    *color,
                    fx.blend,
                );
            }
        },
        DrawOp::FillRect { rect, color } => {
            canvas.fill_rect(rect, *color);
        },
        DrawOp::Text { x, y, text, color, scale } => {
            draw_text(canvas, *x, *y, text.as_str(), *color, *scale);
        },
    }
}

/// Carries out the operations of a plan, in order.
pub fn paint<
    C: Fn(Rect, u32, i32, i32) -> u8,
    G: Fn(Rect, Shadow) -> Rect,
    A: Fn(Rect, Shadow, i32, i32) -> u8,
    B: Fn(u32, u32) -> u32,
>(canvas: &mut Canvas<'_>, ops: &[DrawOp], fx: &Effects<C, G, A, B>)
    requires
        old(canvas).wf(),
        fx.total(),
    ensures
        final(canvas).wf(),
        final(canvas).w() == old(canvas).w(),
        final(canvas).h() == old(canvas).h(),
        final(final(canvas).buffer())@ == final(old(canvas).buffer())@,
        fx.all_drawn(old(canvas).pix(), final(canvas).pix(), old(canvas).w(), inks_of(ops@)),
{
    let ghost plan = inks_of(ops@);
    let mut i: usize = 0;
    while i < ops.len()
        invariant
            i <= ops@.len(),
            plan == inks_of(ops@),
            fx.total(),
            canvas.wf(),
            canvas.w() == old(canvas).w(),
            canvas.h() == old(canvas).h(),
            final(canvas.buffer())@ == final(old(canvas).buffer())@,
            fx.all_drawn(old(canvas).pix(), canvas.pix(), old(canvas).w(), plan.take(i as int)),
        decreases ops@.len() - i,
    {
        let ghost mid = canvas.pix();
        paint_op(canvas, &ops[i], fx);
        proof {
            let next = plan.take(i + 1);
            assert(next.drop_last() == plan.take(i as int));
            assert(next.last() == ops@[i as int]@);
            assert(fx.all_drawn(old(canvas).pix(), mid, old(canvas).w(), next.drop_last()));
            assert(fx.drawn(mid, canvas.pix(), old(canvas).w(), next.last()));
            assert(fx.all_drawn(old(canvas).pix(), canvas.pix(), old(canvas).w(), next));
        }
        i = i + 1;
    }
    assert(plan.take(i as int) == plan);
}

/// A plan is painted in order: what some operations and then others leave is what the others leave
/// on what the first ones left.
pub proof fn law_plans_are_painted_in_order<
    C: Fn(Rect, u32, i32, i32) -> u8,
    G: Fn(Rect, Shadow) -> Rect,
    A: Fn(Rect, Shadow, i32, i32) -> u8,
    B: Fn(u32, u32) -> u32,
>(fx: Effects<C, G, A, B>, before: Seq<u32>, after: Seq<u32>, w: int, a: Seq<Ink>, b: Seq<Ink>)
    ensures
        fx.all_drawn(before, after, w, a + b) <==> exists|mid: Seq<u32>| #[trigger]
            fx.all_drawn(before, mid, w, a) && fx.all_drawn(mid, after, w, b),
    decreases b.len(),
{
    if b.len() == 0 {
        assert(a + b =~= a);
        if fx.all_drawn(before, after, w, a) {
            assert(fx.all_drawn(after, after, w, b));
        }
    } else {
        let head = b.drop_last();
        let last = b.last();
        assert((a + b).drop_last() =~= a + head);
        assert((a + b).last() == last);
        if fx.all_drawn(before, after, w, a + b) {
            let m = choose|m: Seq<u32>|
                fx.all_drawn(before, m, w, a + head) && #[trigger] fx.drawn(m, after, w, last);
            law_plans_are_painted_in_order(fx, before, m, w, a, head);
            let mid = choose|mid: Seq<u32>| #[trigger]
                fx.all_drawn(before, mid, w, a) && fx.all_drawn(mid, m, w, head);
            assert(fx.drawn(m, after, w, last));
            assert(fx.all_drawn(mid, after, w, b));
        }
        if exists|mid: Seq<u32>| #[trigger]
            fx.all_drawn(before, mid, w, a) && fx.all_drawn(mid, after, w, b) {
            let mid = choose|mid: Seq<u32>| #[trigger]
                fx.all_drawn(before, mid, w, a) && fx.all_drawn(mid, after, w, b);
            let m = choose|m: Seq<u32>|
                fx.all_drawn(mid, m, w, head) && #[trigger] fx.drawn(m, after, w, last);
            law_plans_are_painted_in_order(fx, before, m, w, a, head);
            assert(fx.all_drawn(before, m, w, a + head));
            assert(fx.drawn(m, after, w, last));
        }
    }
}

} // verus!
