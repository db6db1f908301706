//! Pointer cursors: bitmaps, hotspots, and frame animation.
//!
//! A [`Cursor`] is an ARGB8888 image plus a hotspot — the pixel that tracks the pointer position. An
//! [`AnimatedCursor`] is a looping sequence of frames with per-frame timing.

use vstd::prelude::*;

verus! {

/// A pointer cursor image with its hotspot.
#[derive(Debug, Clone, PartialEq, Eq)]
pub struct Cursor {
    width: u32,
    height: u32,
    hotspot_x: u32,
    hotspot_y: u32,
    pixels: Vec<u32>,
}

/// What a cursor shows.
pub struct Sprite {
    /// Width in pixels.
    pub w: u32,
    /// Height in pixels.
    pub h: u32,
    /// Hotspot column.
    pub hot_x: u32,
    /// Hotspot row.
    pub hot_y: u32,
    /// The pixels, row by row.
    pub pixels: Seq<u32>,
}

impl View for Cursor {
    type V = Sprite;

    closed spec fn view(&self) -> Sprite {
        Sprite {
            w: self.width,
            h: self.height,
            hot_x: self.hotspot_x,
            hot_y: self.hotspot_y,
            pixels: self.pixels@,
        }
    }
}

impl Sprite {
    /// Whether the image is not empty, has one pixel for each position, and holds its hotspot.
    pub open spec fn valid(self) -> bool {
        &&& self.w > 0
        &&& self.h > 0
        &&& self.pixels.len() == self.w * self.h
        &&& self.hot_x < self.w
        &&& self.hot_y < self.h
    }
}

impl Cursor {
    /// Build a cursor from an ARGB8888 `pixels` buffer (row-major, `width × height`).
    ///
    /// Returns `None` if `pixels.len() != width * height`, if either dimension is `0`, or if the
    /// hotspot lies outside the image.
    pub fn new(
        width: u32,
        height: u32,
        hotspot_x: u32,
        hotspot_y: u32,
        pixels: Vec<u32>,
    ) -> (r: Option<Self>)
        ensures
            ({
                let sprite = Sprite {
                    w: width,
                    h: height,
                    hot_x: hotspot_x,
                    hot_y: hotspot_y,
                    pixels: pixels@,
                };
                match r {
                    Some(c) => sprite.valid() && c@ == sprite,
                    None => !sprite.valid(),
                }
            }),
    {
        if width == 0 || height == 0 {
            return None;
        }
        proof {
            assert(width * height <= 0xFFFF_FFFF * 0xFFFF_FFFF) by (nonlinear_arith)
                requires
                    0 <= width <= 0xFFFF_FFFF,
                    0 <= height <= 0xFFFF_FFFF,
            ;
        }
        let area: u64 = width as u64 * height as u64;
        if pixels.len() as u64 != area || hotspot_x >= width || hotspot_y >= height {
            return None;
        }
        Some(Cursor { width, height, hotspot_x, hotspot_y, pixels })
    }

    /// Image width in pixels.
    pub fn width(&self) -> (r: u32)
        ensures
            r == self@.w,
    {
        self.width
    }

    /// Image height in pixels.
    pub fn height(&self) -> (r: u32)
        ensures
            r == self@.h,
    {
        self.height
    }

    /// Hotspot column (the pixel aligned to the pointer position).
    pub fn hotspot_x(&self) -> (r: u32)
        ensures
            r == self@.hot_x,
    {
        self.hotspot_x
    }

    /// Hotspot row.
    pub fn hotspot_y(&self) -> (r: u32)
        ensures
            r == self@.hot_y,
    {
        self.hotspot_y
    }

    /// The ARGB8888 pixel buffer (row-major).
    pub fn pixels(&self) -> (r: &[u32])
        ensures
            r@ == self@.pixels,
    {
        self.pixels.as_slice()
    }

    /// The ARGB8888 pixel at `(x, y)`, or `None` if out of bounds.
    pub fn pixel(&self, x: u32, y: u32) -> (r: Option<u32>)
        requires
            self@.valid(),
        ensures
            r == (if x < self@.w && y < self@.h {
                Some(self@.pixels[y * self@.w + x])
            } else {
                None
            }),
    {
        if x >= self.width || y >= self.height {
            return None;
        }
        proof {
            crate::canvas::lemma_position(
                x as int,
                y as int,
                self.width as int,
                self.height as int,
            );
            assert(0 <= y * self.width) by (nonlinear_arith)
                requires
                    0 <= y,
                    0 <= self.width,
            ;
        }
        let len: usize = self.pixels.len();
        assert(y * self.width + x < len);
        let idx: usize = y as usize * self.width as usize + x as usize;
        Some(self.pixels[idx])
    }
}

/// One animation frame: a cursor image and how long to display it.
#[derive(Debug, Clone, PartialEq, Eq)]
pub struct CursorFrame {
    /// The frame image.
    pub cursor: Cursor,
    /// How long this frame is shown, in milliseconds (must be > 0).
    pub duration_ms: u32,
}

/// A looping animated cursor: a non-empty sequence of timed frames.
#[derive(Debug, Clone, PartialEq, Eq)]
pub struct AnimatedCursor {
    frames: Vec<CursorFrame>,
    total_ms: u32,
}

/// How long some frames take.
pub open spec fn duration(frames: Seq<CursorFrame>) -> nat
    decreases frames.len(),
{
    if frames.len() == 0 {
        0
    } else {
        frames[0].duration_ms as nat + duration(frames.drop_first())
    }
}

/// Whether some frames can be shown in a loop: there is one, each is shown for some time, and the
/// loop can be measured.
pub open spec fn loops(frames: Seq<CursorFrame>) -> bool {
    &&& frames.len() > 0
    &&& forall|i: int| 0 <= i < frames.len() ==> (#[trigger] frames[i]).duration_ms > 0
    &&& duration(frames) <= u32::MAX
}

/// The position of the frame that is shown at a time.
pub open spec fn frame_index(frames: Seq<CursorFrame>, t: int) -> nat
    decreases frames.len(),
{
    if frames.len() == 0 || t < frames[0].duration_ms {
        0
    } else {
        1 + frame_index(frames.drop_first(), t - frames[0].duration_ms)
    }
}

proof fn lemma_frame_index(frames: Seq<CursorFrame>, t: int)
    requires
        0 <= t < duration(frames),
    ensures
        frame_index(frames, t) < frames.len(),
    decreases frames.len(),
{
    if t >= frames[0].duration_ms {
        lemma_frame_index(frames.drop_first(), t - frames[0].duration_ms);
    }
}

proof fn lemma_duration_split(frames: Seq<CursorFrame>, i: int)
    requires
        0 <= i < frames.len(),
    ensures
        duration(frames.take(i)) + frames[i].duration_ms == duration(frames.take(i + 1)),
        duration(frames.take(i + 1)) <= duration(frames),
    decreases frames.len(),
{
    let rest = frames.drop_first();
    if i > 0 {
        lemma_duration_split(rest, i - 1);
        assert(frames.take(i).drop_first() =~= rest.take(i - 1));
        assert(frames.take(i + 1).drop_first() =~= rest.take(i));
        assert(rest[i - 1] == frames[i]);
    } else {
        assert(frames.take(1).drop_first() =~= Seq::empty());
        assert(frames.take(0) =~= Seq::empty());
    }
}

impl AnimatedCursor {
    /// The frames.
    pub closed spec fn cells(&self) -> Seq<CursorFrame> {
        self.frames@
    }

    /// Whether the frames can be shown in a loop, whose duration is known.
    pub closed spec fn wf(&self) -> bool {
        loops(self.frames@) && self.total_ms == duration(self.frames@)
    }

    /// Build an animated cursor from `frames`.
    ///
    /// Returns `None` if `frames` is empty, if any frame has `duration_ms == 0`, or if the total
    /// duration overflows `u32`.
    pub fn new(frames: Vec<CursorFrame>) -> (r: Option<Self>)
        ensures
            match r {
                Some(a) => loops(frames@) && a.cells() == frames@ && a.wf(),
                None => !loops(frames@),
            },
    {
        if frames.len() == 0 {
            return None;
        }
        let mut total_ms: u32 = 0;
        let mut i: usize = 0;
        assert(frames@.take(0) =~= Seq::empty());
        while i < frames.len()
            invariant
                i <= frames@.len(),
                total_ms == duration(frames@.take(i as int)),
                forall|j: int| 0 <= j < i ==> (#[trigger] frames@[j]).duration_ms > 0,
            decreases frames@.len() - i,
        {
            let d: u32 = frames[i].duration_ms;
            if d == 0 {
                assert(frames@[i as int].duration_ms == 0);
                return None;
            }
            proof {
                lemma_duration_split(frames@, i as int);
            }
            match total_ms.checked_add(d) {
                Some(t) => {
                    total_ms = t;
                },
                None => {
                    return None;
                },
            }
            i = i + 1;
        }
        assert(frames@.take(i as int) =~= frames@);
        Some(AnimatedCursor { frames, total_ms })
    }

    /// Total loop duration in milliseconds.
    pub fn total_duration_ms(&self) -> (r: u32)
        requires
            self.wf(),
        ensures
            r == duration(self.cells()),
    {
        self.total_ms
    }

    /// Number of frames.
    pub fn frame_count(&self) -> (r: usize)
        ensures
            r == self.cells().len(),
    {
        self.frames.len()
    }

    /// The cursor to display at `time_ms` since the animation started; the sequence loops, so any
    /// time maps to a frame.
    pub fn frame_at(&self, time_ms: u32) -> (r: &Cursor)
        requires
            self.wf(),
        ensures
            *r == self.cells()[frame_index(
                self.cells(),
                time_ms as int % duration(self.cells()) as int,
            ) as int].cursor,
    {
        let ghost frames = self.frames@;
        proof {
            assert(frames[0].duration_ms > 0);
        }
        let mut t: u32 = time_ms % self.total_ms;
        let ghost goal = frame_index(frames, t as int);
        proof {
            lemma_frame_index(frames, t as int);
            assert(frames.skip(0) == frames);
        }
        let mut i: usize = 0;
        let len: usize = self.frames.len();
        while t >= self.frames[i].duration_ms
            invariant
                i < len,
                len == self.frames@.len(),
                frames == self.frames@,
                i + frame_index(frames.skip(i as int), t as int) == goal,
                goal < frames.len(),
                t < duration(frames.skip(i as int)),
            decreases self.frames@.len() - i,
        {
            proof {
                let rest = frames.skip(i as int);
                assert(rest[0] == frames[i as int]);
                assert(rest.drop_first() == frames.skip(i + 1));
                if i + 1 == frames.len() {
                    assert(frames.skip(i + 1).len() == 0);
                }
            }
            t = t - self.frames[i].duration_ms;
            i = i + 1;
        }
        assert(frames.skip(i as int)[0] == frames[i as int]);
        &self.frames[i].cursor
    }
}

/// An animation repeats after its duration, whenever it is looked at.
pub proof fn law_animation_loops(frames: Seq<CursorFrame>, t: int)
    requires
        loops(frames),
        0 <= t,
    ensures
        frame_index(frames, (t + duration(frames)) % duration(frames) as int) == frame_index(
            frames,
            t % duration(frames) as int,
        ),
        frame_index(frames, t % duration(frames) as int) < frames.len(),
{
    assert(frames[0].duration_ms > 0);
    let n = duration(frames) as int;
    vstd::arithmetic::div_mod::lemma_mod_add_multiples_vanish(t, n);
    vstd::arithmetic::div_mod::lemma_mod_bound(t, n);
    lemma_frame_index(frames, t % n);
}

/// How long each frame is shown.
pub open spec fn durations(frames: Seq<CursorFrame>) -> Seq<int> {
    Seq::new(frames.len(), |i: int| frames[i].duration_ms as int)
}

/// The loop takes as long as its frames together.
pub proof fn law_loop_takes_all_frames(frames: Seq<CursorFrame>)
    ensures
        duration(frames) == crate::lists::total(durations(frames)),
    decreases frames.len(),
{
    if frames.len() == 0 {
        assert(durations(frames) =~= Seq::empty());
    } else {
        let rest = frames.drop_first();
        law_loop_takes_all_frames(rest);
        let first = frames[0].duration_ms as int;
        assert(durations(frames) =~= seq![first] + durations(rest));
        crate::lists::lemma_total_concat(seq![first], durations(rest));
        crate::lists::lemma_total_one(first);
    }
}

/// The frames are shown one after the other, each for its own time: the frame shown at a time is
/// the one that begins when those before it have been shown, and ends before that time plus its
/// own.
pub proof fn law_frames_are_shown_in_turn(frames: Seq<CursorFrame>, t: int)
    requires
        0 <= t < duration(frames),
    ensures
        ({
            let i = frame_index(frames, t) as int;
            &&& 0 <= i < frames.len()
            &&& crate::lists::total(durations(frames.take(i))) <= t
            &&& t < crate::lists::total(durations(frames.take(i))) + frames[i].duration_ms
        }),
    decreases frames.len(),
{
    lemma_frame_index(frames, t);
    let i = frame_index(frames, t) as int;
    law_loop_takes_all_frames(frames.take(i));
    if t >= frames[0].duration_ms {
        let rest = frames.drop_first();
        law_frames_are_shown_in_turn(rest, t - frames[0].duration_ms);
        law_loop_takes_all_frames(rest.take(i - 1));
        assert(frames.take(i).drop_first() =~= rest.take(i - 1));
        assert(frames.take(i)[0] == frames[0]);
        assert(rest[i - 1] == frames[i]);
    } else {
        assert(frames.take(0) =~= Seq::empty());
    }
}

} // verus!
