//! Encodings of the display messages.

use vstd::prelude::*;

use crate::codec::ByteReader;
use crate::display_channel::DisplayInputEvent;
use crate::display_protocol::{ClientRequest, CompositorEvent, Rect};
use crate::wire::{put_varint, take_varint, Wire};

verus! {

impl DisplayInputEvent {
    /// The number of the variant.
    pub open spec fn tag(&self) -> nat {
        match self {
            DisplayInputEvent::Key { .. } => 0,
            DisplayInputEvent::Pointer { .. } => 1,
        }
    }

    /// The encoding of what the variant holds.
    pub open spec fn payload(&self) -> Seq<u8> {
        match self {
            DisplayInputEvent::Key { code, pressed } => (*code, *pressed).bytes(),
            DisplayInputEvent::Pointer { x, y, buttons } => (*x, (*y, *buttons)).bytes(),
        }
    }
}

impl Wire for DisplayInputEvent {
    open spec fn bytes(&self) -> Seq<u8> {
        crate::wire::varint(self.tag()) + self.payload()
    }

    open spec fn same(&self, other: &Self) -> bool {
        match (self, other) {
            (
                DisplayInputEvent::Key { code, pressed },
                DisplayInputEvent::Key { code: code_, pressed: pressed_ },
            ) => {
                code.same(code_) && pressed.same(pressed_)
            },
            (
                DisplayInputEvent::Pointer { x, y, buttons },
                DisplayInputEvent::Pointer { x: x_, y: y_, buttons: buttons_ },
            ) => {
                x.same(x_) && y.same(y_) && buttons.same(buttons_)
            },
            _ => false,
        }
    }

    proof fn prefix_free(&self, other: &Self, b: Seq<u8>) {
        crate::wire::lemma_tags(b, self.tag(), self.payload(), other.tag(), other.payload());
        let c = b.skip(crate::wire::varint(self.tag()).len() as int);
        match (self, other) {
            (
                DisplayInputEvent::Key { code, pressed },
                DisplayInputEvent::Key { code: code_, pressed: pressed_ },
            ) => {
                (*code, *pressed).prefix_free(&(*code_, *pressed_), c);
            },
            (
                DisplayInputEvent::Pointer { x, y, buttons },
                DisplayInputEvent::Pointer { x: x_, y: y_, buttons: buttons_ },
            ) => {
                (*x, (*y, *buttons)).prefix_free(&(*x_, (*y_, *buttons_)), c);
            },
            _ => {},
        }
    }

    fn put(&self, out: &mut Vec<u8>) {
        let ghost start = out@;
        match self {
            DisplayInputEvent::Key { code, pressed } => {
                put_varint(out, 0);
                code.put(out);
                pressed.put(out);
                assert(out@ =~= start + self.bytes());
            },
            DisplayInputEvent::Pointer { x, y, buttons } => {
                put_varint(out, 1);
                x.put(out);
                y.put(out);
                buttons.put(out);
                assert(out@ =~= start + self.bytes());
            },
        }
    }

    fn take(r: &mut ByteReader) -> (v: Option<Self>) {
        let ghost rest = r.rest();
        let n: u64 = match take_varint(r, 1) {
            Some(n) => n,
            None => {
                proof {
                    assert forall|x: Self| !crate::wire::starts(rest, #[trigger] x.bytes()) by {
                        crate::wire::lemma_starts_both(rest, crate::wire::varint(x.tag()), x.payload());
                    }
                }
                return None;
            },
        };
        let ghost rest1 = r.rest();
        proof {
            assert forall|x: Self| crate::wire::starts(rest, #[trigger] x.bytes()) implies x.tag() == n
                && crate::wire::starts(rest1, x.payload()) by {
                crate::wire::lemma_tag(rest, n as nat, rest1, x.tag(), x.payload());
            }
        }
        match n {
            0 => match <(u8, bool)>::take(r) {
                Some((code, pressed)) => {
                    let v = DisplayInputEvent::Key { code, pressed };
                    proof {
                        crate::lists::lemma_assoc(crate::wire::varint(0), v.payload(), r.rest());
                    }
                    Some(v)
                },
                None => None,
            },
            _ => match <(u32, (u32, u8))>::take(r) {
                Some((x, (y, buttons))) => {
                    let v = DisplayInputEvent::Pointer { x, y, buttons };
                    proof {
                        crate::lists::lemma_assoc(crate::wire::varint(1), v.payload(), r.rest());
                    }
                    Some(v)
                },
                None => None,
            },
        }
    }
}

impl Rect {
    /// The fields in the order in which they are sent.
    pub open spec fn sent(&self) -> (i32, (i32, (u32, u32))) {
        (self.x, (self.y, (self.w, self.h)))
    }
}

impl Wire for Rect {
    open spec fn bytes(&self) -> Seq<u8> {
        self.sent().bytes()
    }

    open spec fn same(&self, other: &Self) -> bool {
        self.sent().same(&other.sent())
    }

    proof fn prefix_free(&self, other: &Self, b: Seq<u8>) {
        self.sent().prefix_free(&other.sent(), b);
    }

    fn put(&self, out: &mut Vec<u8>) {
        let ghost start = out@;
        self.x.put(out);
        self.y.put(out);
        self.w.put(out);
        self.h.put(out);
        assert(out@ =~= start + self.bytes());
    }

    fn take(r: &mut ByteReader) -> (v: Option<Self>) {
        match <(i32, (i32, (u32, u32)))>::take(r) {
            Some((x, (y, (w, h)))) => Some(Rect { x, y, w, h }),
            None => None,
        }
    }
}

impl ClientRequest {
    /// The number of the variant.
    pub open spec fn tag(&self) -> nat {
        match self {
            ClientRequest::CreateSurface { .. } => 0,
            ClientRequest::Commit { .. } => 1,
            ClientRequest::Destroy { .. } => 2,
            ClientRequest::Move { .. } => 3,
        }
    }

    /// The encoding of what the variant holds.
    pub open spec fn payload(&self) -> Seq<u8> {
        match self {
            ClientRequest::CreateSurface { width, height } => (*width, *height).bytes(),
            ClientRequest::Commit { surface_id, damage } => (*surface_id, *damage).bytes(),
            ClientRequest::Destroy { surface_id } => surface_id.bytes(),
            ClientRequest::Move { surface_id, x, y } => (*surface_id, (*x, *y)).bytes(),
        }
    }
}

impl Wire for ClientRequest {
    open spec fn bytes(&self) -> Seq<u8> {
        crate::wire::varint(self.tag()) + self.payload()
    }

    open spec fn same(&self, other: &Self) -> bool {
        match (self, other) {
            (
                ClientRequest::CreateSurface { width, height },
                ClientRequest::CreateSurface { width: width_, height: height_ },
            ) => {
                width.same(width_) && height.same(height_)
            },
            (
                ClientRequest::Commit { surface_id, damage },
                ClientRequest::Commit { surface_id: surface_id_, damage: damage_ },
            ) => {
                surface_id.same(surface_id_) && damage.same(damage_)
            },
            (
                ClientRequest::Destroy { surface_id },
                ClientRequest::Destroy { surface_id: surface_id_ },
            ) => {
                surface_id.same(surface_id_)
            },
            (
                ClientRequest::Move { surface_id, x, y },
                ClientRequest::Move { surface_id: surface_id_, x: x_, y: y_ },
            ) => {
                surface_id.same(surface_id_) && x.same(x_) && y.same(y_)
            },
            _ => false,
        }
    }

    proof fn prefix_free(&self, other: &Self, b: Seq<u8>) {
        crate::wire::lemma_tags(b, self.tag(), self.payload(), other.tag(), other.payload());
        let c = b.skip(crate::wire::varint(self.tag()).len() as int);
        match (self, other) {
            (
                ClientRequest::CreateSurface { width, height },
                ClientRequest::CreateSurface { width: width_, height: height_ },
            ) => {
                (*width, *height).prefix_free(&(*width_, *height_), c);
            },
            (
                ClientRequest::Commit { surface_id, damage },
                ClientRequest::Commit { surface_id: surface_id_, damage: damage_ },
            ) => {
                (*surface_id, *damage).prefix_free(&(*surface_id_, *damage_), c);
            },
            (
                ClientRequest::Destroy { surface_id },
                ClientRequest::Destroy { surface_id: surface_id_ },
            ) => {
                surface_id.prefix_free(surface_id_, c);
            },
            (
                ClientRequest::Move { surface_id, x, y },
                ClientRequest::Move { surface_id: surface_id_, x: x_, y: y_ },
            ) => {
                (*surface_id, (*x, *y)).prefix_free(&(*surface_id_, (*x_, *y_)), c);
            },
            _ => {},
        }
    }

    fn put(&self, out: &mut Vec<u8>) {
        let ghost start = out@;
        match self {
            ClientRequest::CreateSurface { width, height } => {
                put_varint(out, 0);
                width.put(out);
                height.put(out);
                assert(out@ =~= start + self.bytes());
            },
            ClientRequest::Commit { surface_id, damage } => {
                put_varint(out, 1);
                surface_id.put(out);
                damage.put(out);
                assert(out@ =~= start + self.bytes());
            },
            ClientRequest::Destroy { surface_id } => {
                put_varint(out, 2);
                surface_id.put(out);
                assert(out@ =~= start + self.bytes());
            },
            ClientRequest::Move { surface_id, x, y } => {
                put_varint(out, 3);
                surface_id.put(out);
                x.put(out);
                y.put(out);
                assert(out@ =~= start + self.bytes());
            },
        }
    }

    fn take(r: &mut ByteReader) -> (v: Option<Self>) {
        let ghost rest = r.rest();
        let n: u64 = match take_varint(r, 3) {
            Some(n) => n,
            None => {
                proof {
                    assert forall|x: Self| !crate::wire::starts(rest, #[trigger] x.bytes()) by {
                        crate::wire::lemma_starts_both(rest, crate::wire::varint(x.tag()), x.payload());
                    }
                }
                return None;
            },
        };
        let ghost rest1 = r.rest();
        proof {
            assert forall|x: Self| crate::wire::starts(rest, #[trigger] x.bytes()) implies x.tag() == n
                && crate::wire::starts(rest1, x.payload()) by {
                crate::wire::lemma_tag(rest, n as nat, rest1, x.tag(), x.payload());
            }
        }
        match n {
            0 => match <(u32, u32)>::take(r) {
                Some((width, height)) => {
                    let v = ClientRequest::CreateSurface { width, height };
                    proof {
                        crate::lists::lemma_assoc(crate::wire::varint(0), v.payload(), r.rest());
                    }
                    Some(v)
                },
                None => None,
            },
            1 => match <(u32, Vec<Rect>)>::take(r) {
                Some((surface_id, damage)) => {
                    let v = ClientRequest::Commit { surface_id, damage };
                    proof {
                        crate::lists::lemma_assoc(crate::wire::varint(1), v.payload(), r.rest());
                    }
                    Some(v)
                },
                None => None,
            },
            2 => match u32::take(r) {
                Some(surface_id) => {
                    let v = ClientRequest::Destroy { surface_id };
                    proof {
                        crate::lists::lemma_assoc(crate::wire::varint(2), v.payload(), r.rest());
                    }
                    Some(v)
                },
                None => None,
            },
            _ => match <(u32, (i32, i32))>::take(r) {
                Some((surface_id, (x, y))) => {
                    let v = ClientRequest::Move { surface_id, x, y };
                    proof {
                        crate::lists::lemma_assoc(crate::wire::varint(3), v.payload(), r.rest());
                    }
                    Some(v)
                },
                None => None,
            },
        }
    }
}

impl CompositorEvent {
    /// The number of the variant.
    pub open spec fn tag(&self) -> nat {
        match self {
            CompositorEvent::SurfaceCreated { .. } => 0,
            CompositorEvent::Input(..) => 1,
            CompositorEvent::Closed { .. } => 2,
            CompositorEvent::Configure { .. } => 3,
        }
    }

    /// The encoding of what the variant holds.
    pub open spec fn payload(&self) -> Seq<u8> {
        match self {
            CompositorEvent::SurfaceCreated { surface_id } => surface_id.bytes(),
            CompositorEvent::Input(event) => event.bytes(),
            CompositorEvent::Closed { surface_id } => surface_id.bytes(),
            CompositorEvent::Configure { surface_id, width, height } => (*surface_id, (*width, *height)).bytes(),
        }
    }
}

impl Wire for CompositorEvent {
    open spec fn bytes(&self) -> Seq<u8> {
        crate::wire::varint(self.tag()) + self.payload()
    }

    open spec fn same(&self, other: &Self) -> bool {
        match (self, other) {
            (
                CompositorEvent::SurfaceCreated { surface_id },
                CompositorEvent::SurfaceCreated { surface_id: surface_id_ },
            ) => {
                surface_id.same(surface_id_)
            },
            (CompositorEvent::Input(event), CompositorEvent::Input(event_)) => {
                event.same(event_)
            },
            (
                CompositorEvent::Closed { surface_id },
                CompositorEvent::Closed { surface_id: surface_id_ },
            ) => {
                surface_id.same(surface_id_)
            },
            (
                CompositorEvent::Configure { surface_id, width, height },
                CompositorEvent::Configure { surface_id: surface_id_, width: width_, height: height_ },
            ) => {
                surface_id.same(surface_id_) && width.same(width_) && height.same(height_)
            },
            _ => false,
        }
    }

    proof fn prefix_free(&self, other: &Self, b: Seq<u8>) {
        crate::wire::lemma_tags(b, self.tag(), self.payload(), other.tag(), other.payload());
        let c = b.skip(crate::wire::varint(self.tag()).len() as int);
        match (self, other) {
            (
                CompositorEvent::SurfaceCreated { surface_id },
                CompositorEvent::SurfaceCreated { surface_id: surface_id_ },
            ) => {
                surface_id.prefix_free(surface_id_, c);
            },
            (CompositorEvent::Input(event), CompositorEvent::Input(event_)) => {
                event.prefix_free(event_, c);
            },
            (
                CompositorEvent::Closed { surface_id },
                CompositorEvent::Closed { surface_id: surface_id_ },
            ) => {
                surface_id.prefix_free(surface_id_, c);
            },
            (
                CompositorEvent::Configure { surface_id, width, height },
                CompositorEvent::Configure { surface_id: surface_id_, width: width_, height: height_ },
            ) => {
                (*surface_id, (*width, *height)).prefix_free(&(*surface_id_, (*width_, *height_)), c);
            },
            _ => {},
        }
    }

    fn put(&self, out: &mut Vec<u8>) {
        let ghost start = out@;
        match self {
            CompositorEvent::SurfaceCreated { surface_id } => {
                put_varint(out, 0);
                surface_id.put(out);
                assert(out@ =~= start + self.bytes());
            },
            CompositorEvent::Input(event) => {
                put_varint(out, 1);
                event.put(out);
                assert(out@ =~= start + self.bytes());
            },
            CompositorEvent::Closed { surface_id } => {
                put_varint(out, 2);
                surface_id.put(out);
                assert(out@ =~= start + self.bytes());
            },
            CompositorEvent::Configure { surface_id, width, height } => {
                put_varint(out, 3);
                surface_id.put(out);
                width.put(out);
                height.put(out);
                assert(out@ =~= start + self.bytes());
            },
        }
    }

    fn take(r: &mut ByteReader) -> (v: Option<Self>) {
        let ghost rest = r.rest();
        let n: u64 = match take_varint(r, 3) {
            Some(n) => n,
            None => {
                proof {
                    assert forall|x: Self| !crate::wire::starts(rest, #[trigger] x.bytes()) by {
                        crate::wire::lemma_starts_both(rest, crate::wire::varint(x.tag()), x.payload());
                    }
                }
                return None;
            },
        };
        let ghost rest1 = r.rest();
        proof {
            assert forall|x: Self| crate::wire::starts(rest, #[trigger] x.bytes()) implies x.tag() == n
                && crate::wire::starts(rest1, x.payload()) by {
                crate::wire::lemma_tag(rest, n as nat, rest1, x.tag(), x.payload());
            }
        }
        match n {
            0 => match u32::take(r) {
                Some(surface_id) => {
                    let v = CompositorEvent::SurfaceCreated { surface_id };
                    proof {
                        crate::lists::lemma_assoc(crate::wire::varint(0), v.payload(), r.rest());
                    }
                    Some(v)
                },
                None => None,
            },
            1 => match DisplayInputEvent::take(r) {
                Some(event) => {
                    let v = CompositorEvent::Input(event);
                    proof {
                        crate::lists::lemma_assoc(crate::wire::varint(1), v.payload(), r.rest());
                    }
                    Some(v)
                },
                None => None,
            },
            2 => match u32::take(r) {
                Some(surface_id) => {
                    let v = CompositorEvent::Closed { surface_id };
                    proof {
                        crate::lists::lemma_assoc(crate::wire::varint(2), v.payload(), r.rest());
                    }
                    Some(v)
                },
                None => None,
            },
            _ => match <(u32, (u32, u32))>::take(r) {
                Some((surface_id, (width, height))) => {
                    let v = CompositorEvent::Configure { surface_id, width, height };
                    proof {
                        crate::lists::lemma_assoc(crate::wire::varint(3), v.payload(), r.rest());
                    }
                    Some(v)
                },
                None => None,
            },
        }
    }
}

/// Every input event fits the buffer of the input channel.
pub proof fn law_input_events_fit(e: DisplayInputEvent)
    ensures
        e.bytes().len() <= crate::display_channel::MAX_EVENT_BYTES,
{
    crate::wire::lemma_varint_sizes();
}

/// Every compositor event fits the buffer of the compositor channel.
pub proof fn law_compositor_events_fit(e: CompositorEvent)
    ensures
        e.bytes().len() <= crate::display_protocol::MAX_COMPOSITOR_EVENT_BYTES,
{
    crate::wire::lemma_varint_sizes();
    if let CompositorEvent::Input(i) = e {
        law_input_events_fit(i);
    }
}

/// A client request with no more damage than the protocol allows fits the buffer of the
/// compositor channel.
pub proof fn law_client_requests_fit(q: ClientRequest)
    requires
        q matches ClientRequest::Commit { damage, .. } ==> damage@.len()
            <= crate::display_protocol::MAX_DAMAGE_RECTS,
    ensures
        q.bytes().len() <= crate::display_protocol::MAX_CLIENT_REQUEST_BYTES,
{
    crate::wire::lemma_varint_sizes();
    if let ClientRequest::Commit { damage, .. } = q {
        crate::wire::lemma_all_bytes_len(damage@, 20);
    }
}

} // verus!
