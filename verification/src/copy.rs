//! Copying a rectangle of pixels from one framebuffer to another.

use crate::error::{ErrorView, WieError};
use crate::framebuffer::{
    lemma_plain_row, lemma_read_keeps, placed, shape_error, FrameBuffer, Layout, WIPICFramebuffer,
};
use crate::guest_memory::{
    admits, byte_at, call_within, failure, known, stored, within, Bytes, Call, Guest, WIPICContext,
};
use vstd::prelude::*;

verus! {

/// The part of a framebuffer that may be drawn to.
#[derive(Clone, Copy, Debug, PartialEq, Eq, Structural)]
pub struct Clip {
    pub x: i32,
    pub y: i32,
    pub width: u32,
    pub height: u32,
}

/// A rectangle in a source and in a destination.
#[derive(Clone, Copy, Debug, PartialEq, Eq, Structural)]
pub struct Area {
    pub source_x: u32,
    pub source_y: u32,
    pub x: u32,
    pub y: u32,
    pub width: u32,
    pub height: u32,
}

/// How a rectangle is copied.
#[derive(Clone, Copy, Debug, PartialEq, Eq, Structural)]
pub enum CopyPlan {
    /// No pixel is visible.
    Nothing,
    /// Within one framebuffer, by its canvas.
    CopyArea(Area),
    /// Byte by byte, from one place in memory to another.
    Rows(Area),
    /// By the destination's canvas, from a snapshot of the source rectangle.
    Draw(Area),
}

/// One axis of a copy: which pixels are asked for, and which there are.
pub struct Axis {
    pub extent: int,
    pub position: int,
    pub source_position: int,
    pub source_extent: int,
    pub extent_there: int,
    pub clip_start: int,
    pub clip_extent: int,
}

pub open spec fn larger(a: int, b: int) -> int {
    if a < b {
        b
    } else {
        a
    }
}

pub open spec fn smaller(a: int, b: int) -> int {
    if b < a {
        b
    } else {
        a
    }
}

impl Axis {
    /// Whether the `i`th pixel is asked for, is in the source, in the
    /// destination and within the clip.
    pub open spec fn shows(self, i: int) -> bool {
        &&& 0 <= i < self.extent
        &&& 0 <= self.source_position + i < self.source_extent
        &&& 0 <= self.position + i < self.extent_there
        &&& self.clip_start <= self.position + i < self.clip_start + self.clip_extent
    }

    /// The first pixel that may show.
    pub open spec fn start(self) -> int {
        larger(
            larger(larger(0, -self.position), -self.source_position),
            self.clip_start - self.position,
        )
    }

    /// The end of the pixels that may show.
    pub open spec fn end(self) -> int {
        smaller(
            smaller(
                smaller(self.extent, self.source_extent - self.source_position),
                self.extent_there - self.position,
            ),
            self.clip_start + self.clip_extent - self.position,
        )
    }
}

/// The pixels that show are those from the start to the end.
pub proof fn law_visible_span(axis: Axis, i: int)
    ensures
        axis.shows(i) == (axis.start() <= i < axis.end()),
{
}

/// What is asked to be copied.
#[derive(Clone, Copy, Debug, PartialEq, Eq, Structural)]
pub struct CopyRequest {
    pub x: i32,
    pub y: i32,
    pub width: u32,
    pub height: u32,
    pub source_x: i32,
    pub source_y: i32,
    pub clip: Clip,
}

/// The columns of a copy.
pub open spec fn columns(
    request: CopyRequest,
    source: WIPICFramebuffer,
    destination: WIPICFramebuffer,
) -> Axis {
    Axis {
        extent: request.width as int,
        position: request.x as int,
        source_position: request.source_x as int,
        source_extent: source.width as int,
        extent_there: destination.width as int,
        clip_start: request.clip.x as int,
        clip_extent: request.clip.width as int,
    }
}

/// The rows of a copy.
pub open spec fn rows(
    request: CopyRequest,
    source: WIPICFramebuffer,
    destination: WIPICFramebuffer,
) -> Axis {
    Axis {
        extent: request.height as int,
        position: request.y as int,
        source_position: request.source_y as int,
        source_extent: source.height as int,
        extent_there: destination.height as int,
        clip_start: request.clip.y as int,
        clip_extent: request.clip.height as int,
    }
}

/// The rectangle that shows, if one does.
pub open spec fn visible_area(
    request: CopyRequest,
    source: WIPICFramebuffer,
    destination: WIPICFramebuffer,
) -> Option<Area> {
    let across = columns(request, source, destination);
    let down = rows(request, source, destination);
    if across.start() >= across.end() || down.start() >= down.end() {
        None
    } else {
        Some(
            Area {
                source_x: (request.source_x + across.start()) as u32,
                source_y: (request.source_y + down.start()) as u32,
                x: (request.x + across.start()) as u32,
                y: (request.y + down.start()) as u32,
                width: (across.end() - across.start()) as u32,
                height: (down.end() - down.start()) as u32,
            },
        )
    }
}

/// Whether two places in memory have no byte in common.
pub open spec fn disjoint(a: Layout, b: Layout) -> bool {
    a.address + a.size <= b.address || b.address + b.size <= a.address
}

/// Whether an area lies within both framebuffers.
pub open spec fn area_fits(
    area: Area,
    source: WIPICFramebuffer,
    destination: WIPICFramebuffer,
) -> bool {
    &&& area.source_x + area.width <= source.width
    &&& area.source_y + area.height <= source.height
    &&& area.x + area.width <= destination.width
    &&& area.y + area.height <= destination.height
    &&& 0 < area.width
    &&& 0 < area.height
}

/// A visible rectangle lies within both framebuffers and within the clip.
pub proof fn law_visible_area_fits(
    request: CopyRequest,
    source: WIPICFramebuffer,
    destination: WIPICFramebuffer,
)
    requires
        visible_area(request, source, destination) is Some,
    ensures
        ({
            let area = visible_area(request, source, destination)->0;
            &&& area_fits(area, source, destination)
            &&& request.clip.x <= area.x && area.x + area.width <= request.clip.x
                + request.clip.width
            &&& request.clip.y <= area.y && area.y + area.height <= request.clip.y
                + request.clip.height
            &&& area.x - request.x == area.source_x - request.source_x
            &&& area.y - request.y == area.source_y - request.source_y
        }),
{
    let across = columns(request, source, destination);
    let down = rows(request, source, destination);
    law_visible_span(across, across.start());
    law_visible_span(across, across.end() - 1);
    law_visible_span(down, down.start());
    law_visible_span(down, down.end() - 1);
}

/// How a copy is done. Sixteen-bit pixels are opaque and keep every bit of
/// their colour, so they may be copied as they are.
pub open spec fn planned(
    request: CopyRequest,
    source: WIPICFramebuffer,
    source_layout: Layout,
    destination: WIPICFramebuffer,
    destination_layout: Layout,
) -> CopyPlan {
    match visible_area(request, source, destination) {
        None => CopyPlan::Nothing,
        Some(area) => if source.bpp == 16 && destination.bpp == 16 {
            if source_layout.address == destination_layout.address && source.width
                == destination.width && source.height == destination.height && source.bpl
                == destination.bpl {
                CopyPlan::CopyArea(area)
            } else if disjoint(source_layout, destination_layout) {
                CopyPlan::Rows(area)
            } else {
                CopyPlan::Draw(area)
            }
        } else {
            CopyPlan::Draw(area)
        },
    }
}

/// The first pixel and the end of those that may show along one axis.
fn visible_span(
    extent: u32,
    position: i32,
    source_position: i32,
    source_extent: u32,
    extent_there: u32,
    clip_start: i32,
    clip_extent: u32,
) -> (span: (i64, i64))
    ensures
        ({
            let axis = Axis {
                extent: extent as int,
                position: position as int,
                source_position: source_position as int,
                source_extent: source_extent as int,
                extent_there: extent_there as int,
                clip_start: clip_start as int,
                clip_extent: clip_extent as int,
            };
            span.0 == axis.start() && span.1 == axis.end()
        }),
{
    let mut start: i64 = 0;
    if start < -(position as i64) {
        start = -(position as i64);
    }
    if start < -(source_position as i64) {
        start = -(source_position as i64);
    }
    if start < clip_start as i64 - position as i64 {
        start = clip_start as i64 - position as i64;
    }
    let mut end: i64 = extent as i64;
    if source_extent as i64 - (source_position as i64) < end {
        end = source_extent as i64 - source_position as i64;
    }
    if extent_there as i64 - (position as i64) < end {
        end = extent_there as i64 - position as i64;
    }
    if clip_start as i64 + clip_extent as i64 - (position as i64) < end {
        end = clip_start as i64 + clip_extent as i64 - position as i64;
    }
    (start, end)
}

/// How a copy is done.
pub fn plan(
    request: CopyRequest,
    source: &FrameBuffer,
    source_layout: Layout,
    destination: &FrameBuffer,
    destination_layout: Layout,
) -> (plan: CopyPlan)
    ensures
        plan == planned(request, source.0, source_layout, destination.0, destination_layout),
{
    let clip = request.clip;
    let across = visible_span(
        request.width,
        request.x,
        request.source_x,
        source.0.width,
        destination.0.width,
        clip.x,
        clip.width,
    );
    let down = visible_span(
        request.height,
        request.y,
        request.source_y,
        source.0.height,
        destination.0.height,
        clip.y,
        clip.height,
    );
    if across.0 >= across.1 || down.0 >= down.1 {
        return CopyPlan::Nothing;
    }
    proof {
        law_visible_area_fits(request, source.0, destination.0);
    }
    let area = Area {
        source_x: (request.source_x as i64 + across.0) as u32,
        source_y: (request.source_y as i64 + down.0) as u32,
        x: (request.x as i64 + across.0) as u32,
        y: (request.y as i64 + down.0) as u32,
        width: (across.1 - across.0) as u32,
        height: (down.1 - down.0) as u32,
    };
    if source.0.bpp == 16 && destination.0.bpp == 16 {
        if source_layout.address == destination_layout.address && source.0.width
            == destination.0.width && source.0.height == destination.0.height && source.0.bpl
            == destination.0.bpl {
            return CopyPlan::CopyArea(area);
        }
        if source_layout.address as u64 + source_layout.size as u64
            <= destination_layout.address as u64 || destination_layout.address as u64
            + destination_layout.size as u64 <= source_layout.address as u64 {
            return CopyPlan::Rows(area);
        }
    }
    CopyPlan::Draw(area)
}

/// The address of a byte of a row of sixteen-bit pixels.
pub open spec fn row_byte(
    layout: Layout,
    buffer: WIPICFramebuffer,
    left: int,
    top: int,
    row: int,
    byte: int,
) -> int {
    layout.address + (top + row) * buffer.bpl + left * 2 + byte
}

/// The address of a byte of the source rectangle.
pub open spec fn source_byte(
    layout: Layout,
    buffer: WIPICFramebuffer,
    area: Area,
    row: int,
    byte: int,
) -> int {
    row_byte(layout, buffer, area.source_x as int, area.source_y as int, row, byte)
}

/// The address of a byte of the destination rectangle.
pub open spec fn target_byte(
    layout: Layout,
    buffer: WIPICFramebuffer,
    area: Area,
    row: int,
    byte: int,
) -> int {
    row_byte(layout, buffer, area.x as int, area.y as int, row, byte)
}

/// Whether an address lies in the destination rectangle.
pub open spec fn in_target(
    layout: Layout,
    buffer: WIPICFramebuffer,
    area: Area,
    at: int,
) -> bool {
    exists|row: int, byte: int|
        0 <= row < area.height && 0 <= byte < area.width * 2 && at == #[trigger] target_byte(
            layout,
            buffer,
            area,
            row,
            byte,
        )
}

/// Whether the first `rows` rows, and `bytes` bytes of the next, are the same in
/// the destination rectangle as in the source rectangle, as far as is known.
pub open spec fn copied(
    known: Bytes,
    source_layout: Layout,
    source: WIPICFramebuffer,
    destination_layout: Layout,
    destination: WIPICFramebuffer,
    area: Area,
    rows: int,
    bytes: int,
) -> bool {
    forall|row: int, byte: int|
        #![trigger target_byte(destination_layout, destination, area, row, byte)]
        0 <= row < area.height && 0 <= byte < area.width * 2 && (row < rows || row == rows && byte
            < bytes) ==> {
            let found = byte_at(known, source_byte(source_layout, source, area, row, byte));
            &&& found is Some
            &&& byte_at(known, target_byte(destination_layout, destination, area, row, byte))
                == found
        }
}

/// Whether the calls after `before` read the source and write the destination,
/// and nothing else.
pub open spec fn copy_calls(
    before: Seq<Call>,
    after: Seq<Call>,
    source_layout: Layout,
    destination_layout: Layout,
) -> bool {
    &&& before.len() <= after.len()
    &&& after.take(before.len() as int) == before
    &&& forall|i: int|
        before.len() <= i < after.len() ==> match #[trigger] after[i] {
            Call::Read { .. } => call_within(
                after[i],
                source_layout.address as int,
                source_layout.size as nat,
            ),
            Call::Write { .. } => call_within(
                after[i],
                destination_layout.address as int,
                destination_layout.size as nat,
            ),
            _ => false,
        }
}

/// Whether everything that was known outside the destination rectangle still is.
pub open spec fn keeps_outside(
    before: Bytes,
    after: Bytes,
    layout: Layout,
    buffer: WIPICFramebuffer,
    area: Area,
) -> bool {
    forall|at: int| #[trigger]
        before.dom().contains(at) && !in_target(layout, buffer, area, at) ==> after.dom().contains(at)
            && after[at] == before[at]
}

proof fn lemma_row_byte_in(
    layout: Layout,
    buffer: WIPICFramebuffer,
    left: int,
    top: int,
    width: int,
    height: int,
    row: int,
    byte: int,
)
    requires
        layout.size == buffer.bpl * buffer.height,
        0 <= left,
        0 <= top,
        left * 2 + width * 2 <= buffer.bpl,
        top + height <= buffer.height,
        0 <= row < height,
        0 <= byte < width * 2,
    ensures
        layout.address <= row_byte(layout, buffer, left, top, row, byte) < layout.address
            + layout.size,
        0 <= (top + row) * buffer.bpl,
        (top + row) * buffer.bpl + buffer.bpl <= layout.size,
{
    let bpl = buffer.bpl as int;
    let rows = buffer.height as int;
    let line = top + row;
    assert(0 <= line * bpl && line * bpl + bpl <= bpl * rows) by (nonlinear_arith)
        requires
            0 <= line < rows,
            0 <= bpl,
    ;
}

proof fn lemma_row_byte_unique(
    layout: Layout,
    buffer: WIPICFramebuffer,
    left: int,
    top: int,
    row: int,
    byte: int,
    other_row: int,
    other_byte: int,
)
    requires
        0 <= left,
        0 <= byte,
        0 <= other_byte,
        left * 2 + byte < buffer.bpl,
        left * 2 + other_byte < buffer.bpl,
        row_byte(layout, buffer, left, top, row, byte) == row_byte(
            layout,
            buffer,
            left,
            top,
            other_row,
            other_byte,
        ),
    ensures
        row == other_row,
        byte == other_byte,
{
    let bpl = buffer.bpl as int;
    let a = top + row;
    let b = top + other_row;
    let u = left * 2 + byte;
    let v = left * 2 + other_byte;
    assert(a == b) by (nonlinear_arith)
        requires
            a * bpl + u == b * bpl + v,
            0 <= u < bpl,
            0 <= v < bpl,
    ;
}

/// One chunk of a row, read and then written.
proof fn lemma_chunk_copied(
    known: Bytes,
    source_layout: Layout,
    source: WIPICFramebuffer,
    destination_layout: Layout,
    destination: WIPICFramebuffer,
    area: Area,
    row: int,
    from: int,
    chunk: Seq<u8>,
    start: Bytes,
)
    requires
        source_layout.size == source.bpl * source.height,
        destination_layout.size == destination.bpl * destination.height,
        area_fits(area, source, destination),
        source.width * 2 <= source.bpl,
        destination.width * 2 <= destination.bpl,
        disjoint(source_layout, destination_layout),
        0 <= row < area.height,
        0 <= from,
        from + chunk.len() <= area.width * 2,
        copied(
            known,
            source_layout,
            source,
            destination_layout,
            destination,
            area,
            row,
            from,
        ),
        keeps_outside(start, known, destination_layout, destination, area),
        admits(known, source_byte(source_layout, source, area, row, from), chunk),
    ensures
        ({
            let read = stored(known, source_byte(source_layout, source, area, row, from), chunk);
            let now = stored(
                read,
                target_byte(destination_layout, destination, area, row, from),
                chunk,
            );
            &&& copied(
                now,
                source_layout,
                source,
                destination_layout,
                destination,
                area,
                row,
                from + chunk.len(),
            )
            &&& keeps_outside(start, now, destination_layout, destination, area)
        }),
{
    let from_at = source_byte(source_layout, source, area, row, from);
    let to_at = target_byte(destination_layout, destination, area, row, from);
    let read = stored(known, from_at, chunk);
    let now = stored(read, to_at, chunk);
    lemma_read_keeps(known, from_at, chunk);
    assert forall|r: int, k: int|
        #![trigger target_byte(destination_layout, destination, area, r, k)]
        0 <= r < area.height && 0 <= k < area.width * 2 && (r < row || r == row && k < from
            + chunk.len()) implies {
        let found = byte_at(now, source_byte(source_layout, source, area, r, k));
        &&& found is Some
        &&& byte_at(now, target_byte(destination_layout, destination, area, r, k)) == found
    } by {
        let s = source_byte(source_layout, source, area, r, k);
        let d = target_byte(destination_layout, destination, area, r, k);
        lemma_row_byte_in(
            source_layout,
            source,
            area.source_x as int,
            area.source_y as int,
            area.width as int,
            area.height as int,
            r,
            k,
        );
        lemma_row_byte_in(
            destination_layout,
            destination,
            area.x as int,
            area.y as int,
            area.width as int,
            area.height as int,
            r,
            k,
        );
        if chunk.len() > 0 {
            lemma_row_byte_in(
                destination_layout,
                destination,
                area.x as int,
                area.y as int,
                area.width as int,
                area.height as int,
                row,
                from,
            );
            lemma_row_byte_in(
                destination_layout,
                destination,
                area.x as int,
                area.y as int,
                area.width as int,
                area.height as int,
                row,
                from + chunk.len() - 1,
            );
        }
        assert(!within(s, to_at, chunk.len()));
        if r == row && k >= from {
            assert(d == to_at + (k - from));
            assert(s == from_at + (k - from));
        } else {
            if within(d, to_at, chunk.len()) {
                lemma_row_byte_unique(
                    destination_layout,
                    destination,
                    area.x as int,
                    area.y as int,
                    r,
                    k,
                    row,
                    from + (d - to_at),
                );
            }
            assert(byte_at(known, s) is Some);
            assert(byte_at(known, d) == byte_at(known, s));
            assert(known.dom().contains(s) && known.dom().contains(d));
            assert(read.dom().contains(s) && read[s] == known[s]);
            assert(read.dom().contains(d) && read[d] == known[d]);
        }
    }
    assert forall|at: int| #[trigger]
        start.dom().contains(at) && !in_target(
            destination_layout,
            destination,
            area,
            at,
        ) implies now.dom().contains(at) && now[at] == start[at] by {
        assert(known.dom().contains(at));
        assert(read.dom().contains(at) && read[at] == known[at]);
        if within(at, to_at, chunk.len()) {
            assert(at == target_byte(destination_layout, destination, area, row, from + (at - to_at)));
        }
    }
}

/// Whether `done` is what copying a rectangle byte by byte gives, with the
/// calls that it makes and what they tell.
pub open spec fn is_row_copy<C: WIPICContext>(
    done: Result<(), WieError>,
    before: &Guest<C>,
    calls: Seq<Call>,
    after: &Guest<C>,
    source_layout: Layout,
    source: WIPICFramebuffer,
    destination_layout: Layout,
    destination: WIPICFramebuffer,
    area: Area,
) -> bool {
    &&& after.initial() == before.initial()
    &&& copy_calls(calls, after.calls(), source_layout, destination_layout)
    &&& match done {
        Ok(()) => after.consistent() ==> {
            &&& copied(
                after.known(),
                source_layout,
                source,
                destination_layout,
                destination,
                area,
                area.height as int,
                0,
            )
            &&& keeps_outside(
                before.known(),
                after.known(),
                destination_layout,
                destination,
                area,
            )
        },
        Err(error) => after.calls().len() > calls.len() && failure(after.calls().last()) == Some(
            error@,
        ),
    }
}

proof fn lemma_copy_calls_push(
    before: Seq<Call>,
    after: Seq<Call>,
    call: Call,
    source_layout: Layout,
    destination_layout: Layout,
)
    requires
        copy_calls(before, after, source_layout, destination_layout),
        match call {
            Call::Read { .. } => call_within(
                call,
                source_layout.address as int,
                source_layout.size as nat,
            ),
            Call::Write { .. } => call_within(
                call,
                destination_layout.address as int,
                destination_layout.size as nat,
            ),
            _ => false,
        },
    ensures
        copy_calls(before, after.push(call), source_layout, destination_layout),
{
    assert(after.push(call).take(before.len() as int) =~= after.take(before.len() as int));
}

/// Copies a rectangle of sixteen-bit pixels byte by byte, row by row, between
/// two places in memory that have no byte in common.
fn copy_rows<C: WIPICContext>(
    guest: &mut Guest<C>,
    source: &FrameBuffer,
    source_layout: Layout,
    destination: &FrameBuffer,
    destination_layout: Layout,
    area: Area,
) -> (done: Result<(), WieError>)
    requires
        shape_error(source.0) is None,
        shape_error(destination.0) is None,
        placed(source.0, source_layout.address) == Ok::<Layout, ErrorView>(source_layout),
        placed(destination.0, destination_layout.address) == Ok::<Layout, ErrorView>(
            destination_layout,
        ),
        source.0.bpp == 16,
        destination.0.bpp == 16,
        area_fits(area, source.0, destination.0),
        disjoint(source_layout, destination_layout),
    ensures
        is_row_copy(
            done,
            old(guest),
            old(guest).calls(),
            final(guest),
            source_layout,
            source.0,
            destination_layout,
            destination.0,
            area,
        ),
{
    let ghost calls = guest.calls();
    let ghost start = guest.known();
    proof {
        lemma_plain_row(source.0);
        lemma_plain_row(destination.0);
        assert(calls.take(calls.len() as int) =~= calls);
    }
    let row_bytes: u32 = area.width * 2;
    let mut row: u32 = 0;
    while row < area.height
        invariant
            row <= area.height,
            row_bytes == area.width * 2,
            calls == old(guest).calls(),
            guest.initial() == old(guest).initial(),
            start == old(guest).known(),
            source_layout.size == source.0.bpl * source.0.height,
            destination_layout.size == destination.0.bpl * destination.0.height,
            source_layout.address + source_layout.size <= 0x1_0000_0000,
            destination_layout.address + destination_layout.size <= 0x1_0000_0000,
            source.0.width * 2 <= source.0.bpl,
            destination.0.width * 2 <= destination.0.bpl,
            area_fits(area, source.0, destination.0),
            disjoint(source_layout, destination_layout),
            copy_calls(calls, guest.calls(), source_layout, destination_layout),
            guest.consistent() ==> copied(
                guest.known(),
                source_layout,
                source.0,
                destination_layout,
                destination.0,
                area,
                row as int,
                0,
            ) && keeps_outside(start, guest.known(), destination_layout, destination.0, area),
        decreases area.height - row,
    {
        proof {
            lemma_row_byte_in(
                source_layout,
                source.0,
                area.source_x as int,
                area.source_y as int,
                area.width as int,
                area.height as int,
                row as int,
                0,
            );
            lemma_row_byte_in(
                destination_layout,
                destination.0,
                area.x as int,
                area.y as int,
                area.width as int,
                area.height as int,
                row as int,
                0,
            );
        }
        let from: u32 = source_layout.address + (area.source_y + row) * source.0.bpl + area.source_x
            * 2;
        let to: u32 = destination_layout.address + (area.y + row) * destination.0.bpl + area.x * 2;
        let mut offset: u32 = 0;
        while offset < row_bytes
            invariant
                offset <= row_bytes,
                row < area.height,
                row_bytes == area.width * 2,
                from == source_byte(source_layout, source.0, area, row as int, 0),
                to == target_byte(destination_layout, destination.0, area, row as int, 0),
                calls == old(guest).calls(),
                guest.initial() == old(guest).initial(),
                start == old(guest).known(),
                source_layout.size == source.0.bpl * source.0.height,
                destination_layout.size == destination.0.bpl * destination.0.height,
                source_layout.address + source_layout.size <= 0x1_0000_0000,
                destination_layout.address + destination_layout.size <= 0x1_0000_0000,
                source.0.width * 2 <= source.0.bpl,
                destination.0.width * 2 <= destination.0.bpl,
                area_fits(area, source.0, destination.0),
                disjoint(source_layout, destination_layout),
                copy_calls(calls, guest.calls(), source_layout, destination_layout),
                guest.consistent() ==> copied(
                    guest.known(),
                    source_layout,
                    source.0,
                    destination_layout,
                    destination.0,
                    area,
                    row as int,
                    offset as int,
                ) && keeps_outside(start, guest.known(), destination_layout, destination.0, area),
            decreases row_bytes - offset,
        {
            let len: u32 = if row_bytes - offset < 256 {
                row_bytes - offset
            } else {
                256
            };
            proof {
                lemma_row_byte_in(
                    source_layout,
                    source.0,
                    area.source_x as int,
                    area.source_y as int,
                    area.width as int,
                    area.height as int,
                    row as int,
                    offset as int,
                );
                lemma_row_byte_in(
                    source_layout,
                    source.0,
                    area.source_x as int,
                    area.source_y as int,
                    area.width as int,
                    area.height as int,
                    row as int,
                    offset + len - 1,
                );
                lemma_row_byte_in(
                    destination_layout,
                    destination.0,
                    area.x as int,
                    area.y as int,
                    area.width as int,
                    area.height as int,
                    row as int,
                    offset as int,
                );
                lemma_row_byte_in(
                    destination_layout,
                    destination.0,
                    area.x as int,
                    area.y as int,
                    area.width as int,
                    area.height as int,
                    row as int,
                    offset + len - 1,
                );
            }
            let ghost known_before = guest.known();
            let ghost calls_before = guest.calls();
            let chunk = guest.read_bytes(from + offset, len as usize);
            proof {
                lemma_copy_calls_push(
                    calls,
                    calls_before,
                    guest.calls().last(),
                    source_layout,
                    destination_layout,
                );
            }
            let chunk = match chunk {
                Ok(chunk) => chunk,
                Err(error) => return Err(error),
            };
            let ghost calls_read = guest.calls();
            let written = guest.write_bytes(to + offset, chunk.as_slice());
            proof {
                lemma_copy_calls_push(
                    calls,
                    calls_read,
                    guest.calls().last(),
                    source_layout,
                    destination_layout,
                );
            }
            match written {
                Ok(()) => {},
                Err(error) => return Err(error),
            }
            proof {
                if guest.consistent() {
                    lemma_chunk_copied(
                        known_before,
                        source_layout,
                        source.0,
                        destination_layout,
                        destination.0,
                        area,
                        row as int,
                        offset as int,
                        chunk@,
                        start,
                    );
                }
            }
            offset += len;
        }
        row += 1;
    }
    Ok(())
}

/// What is left to do of a copy.
#[derive(Clone, Copy, Debug, PartialEq, Eq, Structural)]
pub enum CopyRest {
    /// The copy is done.
    Done,
    /// The destination's canvas copies the area within itself.
    CopyArea(Area),
    /// The destination's canvas draws a snapshot of the source area.
    Draw(Area),
}

/// What a plan leaves to the canvas.
pub open spec fn rest_of(plan: CopyPlan) -> CopyRest {
    match plan {
        CopyPlan::Nothing => CopyRest::Done,
        CopyPlan::Rows(_) => CopyRest::Done,
        CopyPlan::CopyArea(area) => CopyRest::CopyArea(area),
        CopyPlan::Draw(area) => CopyRest::Draw(area),
    }
}

/// Whether `rest` is what a copy comes to, once both framebuffers were located,
/// with the calls that it makes and what they tell.
pub open spec fn is_copy<C: WIPICContext>(
    rest: Result<CopyRest, WieError>,
    before: &Guest<C>,
    calls: Seq<Call>,
    after: &Guest<C>,
    request: CopyRequest,
    source_layout: Layout,
    source: WIPICFramebuffer,
    destination_layout: Layout,
    destination: WIPICFramebuffer,
) -> bool {
    let plan = planned(request, source, source_layout, destination, destination_layout);
    match plan {
        CopyPlan::Rows(area) => {
            &&& rest is Ok ==> rest->Ok_0 == CopyRest::Done
            &&& is_row_copy(
                match rest {
                    Ok(_) => Ok(()),
                    Err(error) => Err(error),
                },
                before,
                calls,
                after,
                source_layout,
                source,
                destination_layout,
                destination,
                area,
            )
        },
        _ => rest == Ok::<CopyRest, WieError>(rest_of(plan)) && after.calls() == calls,
    }
}

/// Copies the visible part of a rectangle from one framebuffer to another.
/// Sixteen-bit framebuffers without a byte in common are copied here; the rest
/// is left to the destination's canvas.
pub fn framebuffer<C: WIPICContext>(
    guest: &mut Guest<C>,
    destination: &FrameBuffer,
    source: &FrameBuffer,
    request: CopyRequest,
) -> (rest: Result<CopyRest, WieError>)
    ensures
        final(guest).initial() == old(guest).initial(),
        match shape_error(source.0) {
            Some(error) => {
                &&& rest is Err
                &&& rest->Err_0@ == error
                &&& final(guest).calls() == old(guest).calls()
            },
            None => {
                let n = old(guest).calls().len() as int;
                let calls = final(guest).calls();
                &&& calls.len() > n
                &&& calls.take(n) == old(guest).calls()
                &&& calls[n] matches Call::Locate { pointer, located } && pointer == source.0.buf
                    && match located_layout(source.0, located) {
                    Err(error) => rest is Err && rest->Err_0@ == error && calls.len() == n + 1,
                    Ok(source_layout) => match shape_error(destination.0) {
                        Some(error) => rest is Err && rest->Err_0@ == error && calls.len() == n + 1,
                        None => {
                            &&& calls.len() > n + 1
                            &&& calls[n + 1] matches Call::Locate {
                                pointer: to,
                                located: there,
                            } && to == destination.0.buf && match located_layout(
                                destination.0,
                                there,
                            ) {
                                Err(error) => rest is Err && rest->Err_0@ == error && calls.len() == n
                                    + 2,
                                Ok(destination_layout) => is_copy(
                                    rest,
                                    old(guest),
                                    calls.take(n + 2),
                                    final(guest),
                                    request,
                                    source_layout,
                                    source.0,
                                    destination_layout,
                                    destination.0,
                                ),
                            }
                        },
                    },
                }
            },
        },
{
    let ghost n = guest.calls().len() as int;
    let ghost calls = guest.calls();
    let source_layout = match source.layout(guest) {
        Ok(layout) => layout,
        Err(error) => {
            proof {
                if shape_error(source.0) is None {
                    assert(guest.calls().take(n) =~= calls);
                }
            }
            return Err(error);
        },
    };
    let ghost first = guest.calls();
    assert(first.take(n) =~= calls);
    let destination_layout = match destination.layout(guest) {
        Ok(layout) => layout,
        Err(error) => {
            proof {
                assert(guest.calls().take(n) =~= calls);
            }
            return Err(error);
        },
    };
    let ghost second = guest.calls();
    assert(second.take(n) =~= calls);
    assert(second.take(n + 2) =~= second);
    match plan(request, source, source_layout, destination, destination_layout) {
        CopyPlan::Nothing => Ok(CopyRest::Done),
        CopyPlan::CopyArea(area) => Ok(CopyRest::CopyArea(area)),
        CopyPlan::Draw(area) => Ok(CopyRest::Draw(area)),
        CopyPlan::Rows(area) => {
            proof {
                law_visible_area_fits(request, source.0, destination.0);
            }
            let done = copy_rows(
                guest,
                source,
                source_layout,
                destination,
                destination_layout,
                area,
            );
            proof {
                assert(guest.calls().take(n + 2) =~= second);
                assert(guest.calls().take(n) =~= second.take(n));
                assert(guest.calls()[n] == guest.calls().take(n + 2)[n]);
                assert(guest.calls()[n + 1] == guest.calls().take(n + 2)[n + 1]);
            }
            match done {
                Ok(()) => Ok(CopyRest::Done),
                Err(error) => Err(error),
            }
        },
    }
}

/// Where a framebuffer lies, by what the context answered.
pub open spec fn located_layout(
    buffer: WIPICFramebuffer,
    located: Result<u32, ErrorView>,
) -> Result<Layout, ErrorView> {
    match located {
        Ok(address) => placed(buffer, address),
        Err(error) => Err(error),
    }
}

/// A copy has nothing to do exactly where no pixel of the request lies in the
/// source, in the destination and within the clip at once, whatever the depths of
/// the pixels are.
pub proof fn law_a_copy_is_nothing_where_nothing_shows(
    request: CopyRequest,
    source: WIPICFramebuffer,
    source_layout: Layout,
    destination: WIPICFramebuffer,
    destination_layout: Layout,
)
    ensures
        (planned(request, source, source_layout, destination, destination_layout)
            == CopyPlan::Nothing) == !(exists|i: int, j: int|
            #![trigger request.x + i, request.y + j]
            {
                &&& 0 <= i < request.width && 0 <= j < request.height
                &&& 0 <= request.source_x + i < source.width
                &&& 0 <= request.source_y + j < source.height
                &&& 0 <= request.x + i < destination.width
                &&& 0 <= request.y + j < destination.height
                &&& request.clip.x <= request.x + i < request.clip.x + request.clip.width
                &&& request.clip.y <= request.y + j < request.clip.y + request.clip.height
            }),
{
    let across = columns(request, source, destination);
    let down = rows(request, source, destination);
    if across.start() < across.end() && down.start() < down.end() {
        let i = across.start();
        let j = down.start();
        law_visible_span(across, i);
        law_visible_span(down, j);
        assert(0 <= request.x + i && 0 <= request.y + j);
    }
}

/// The pixels that a plan carries are those that show: a pixel of the destination
/// lies in the planned rectangle exactly where it belongs to the request, to the
/// destination and to the clip and stands for a pixel of the source. It is copied
/// from the pixel at the same place of the request.
pub proof fn law_a_plan_carries_the_visible_pixels(
    request: CopyRequest,
    source: WIPICFramebuffer,
    source_layout: Layout,
    destination: WIPICFramebuffer,
    destination_layout: Layout,
    i: int,
    j: int,
)
    ensures
        ({
            let shows = {
                &&& 0 <= i < request.width && 0 <= j < request.height
                &&& 0 <= request.source_x + i < source.width
                &&& 0 <= request.source_y + j < source.height
                &&& 0 <= request.x + i < destination.width
                &&& 0 <= request.y + j < destination.height
                &&& request.clip.x <= request.x + i < request.clip.x + request.clip.width
                &&& request.clip.y <= request.y + j < request.clip.y + request.clip.height
            };
            match planned(request, source, source_layout, destination, destination_layout) {
                CopyPlan::Nothing => !shows,
                CopyPlan::CopyArea(area) | CopyPlan::Rows(area) | CopyPlan::Draw(area) => {
                    &&& shows == (area.x <= request.x + i < area.x + area.width && area.y
                        <= request.y + j < area.y + area.height)
                    &&& shows == (area.source_x <= request.source_x + i < area.source_x + area.width
                        && area.source_y <= request.source_y + j < area.source_y + area.height)
                    &&& area.source_x - area.x == request.source_x - request.x
                    &&& area.source_y - area.y == request.source_y - request.y
                },
            }
        }),
{
    let across = columns(request, source, destination);
    let down = rows(request, source, destination);
    law_visible_span(across, i);
    law_visible_span(down, j);
    if visible_area(request, source, destination) is Some {
        law_visible_area_fits(request, source, destination);
        law_visible_span(across, across.start());
        law_visible_span(across, across.end() - 1);
        law_visible_span(down, down.start());
        law_visible_span(down, down.end() - 1);
    }
}

/// Bytes are copied as they are exactly between sixteen-bit framebuffers that share
/// no byte, and a canvas copies within itself exactly where both are the same
/// sixteen-bit framebuffer. Every other copy is drawn from a snapshot.
pub proof fn law_a_plan_suits_its_framebuffers(
    request: CopyRequest,
    source: WIPICFramebuffer,
    source_layout: Layout,
    destination: WIPICFramebuffer,
    destination_layout: Layout,
)
    requires
        planned(request, source, source_layout, destination, destination_layout)
            != CopyPlan::Nothing,
        source_layout.size > 0,
        destination_layout.size > 0,
    ensures
        ({
            let plan = planned(request, source, source_layout, destination, destination_layout);
            let short = source.bpp == 16 && destination.bpp == 16;
            let same = source_layout.address == destination_layout.address && source.width
                == destination.width && source.height == destination.height && source.bpl
                == destination.bpl;
            let share = exists|at: int|
                #[trigger] within(at, source_layout.address as int, source_layout.size as nat)
                    && within(at, destination_layout.address as int, destination_layout.size as nat);
            &&& plan is CopyArea == (short && same)
            &&& plan is Rows == (short && !same && !share)
            &&& plan is Draw == (!short || !same && share)
        }),
{
    let a = source_layout;
    let b = destination_layout;
    let at = larger(a.address as int, b.address as int);
    if !disjoint(a, b) {
        assert(within(at, a.address as int, a.size as nat) && within(
            at,
            b.address as int,
            b.size as nat,
        ));
    }
}

/// A copy that is done with put every visible pixel in its place: between
/// sixteen-bit framebuffers the destination's two bytes are those that the source's
/// pixel had. Otherwise the copy is not done with yet: a canvas is asked for a
/// rectangle that holds the pixel, from where it stands in the source.
pub proof fn law_a_copy_reaches_every_visible_pixel<C: WIPICContext>(
    rest: Result<CopyRest, WieError>,
    before: &Guest<C>,
    calls: Seq<Call>,
    after: &Guest<C>,
    request: CopyRequest,
    source_layout: Layout,
    source: WIPICFramebuffer,
    destination_layout: Layout,
    destination: WIPICFramebuffer,
    i: int,
    j: int,
    k: int,
)
    requires
        is_copy(
            rest,
            before,
            calls,
            after,
            request,
            source_layout,
            source,
            destination_layout,
            destination,
        ),
        rest is Ok,
        source_layout.size == source.bpl * source.height,
        destination_layout.size == destination.bpl * destination.height,
        source.bpp == 16 ==> source.width * 2 <= source.bpl,
        destination.bpp == 16 ==> destination.width * 2 <= destination.bpl,
        0 <= i < request.width,
        0 <= j < request.height,
        0 <= request.source_x + i < source.width,
        0 <= request.source_y + j < source.height,
        0 <= request.x + i < destination.width,
        0 <= request.y + j < destination.height,
        request.clip.x <= request.x + i < request.clip.x + request.clip.width,
        request.clip.y <= request.y + j < request.clip.y + request.clip.height,
        0 <= k < 2,
    ensures
        match rest->Ok_0 {
            CopyRest::Done => {
                let from = source_layout.address + (request.source_y + j) * source.bpl + (
                request.source_x + i) * 2 + k;
                let to = destination_layout.address + (request.y + j) * destination.bpl + (request.x
                    + i) * 2 + k;
                &&& source.bpp == 16 && destination.bpp == 16
                &&& after.consistent() ==> byte_at(after.known(), to) is Some && byte_at(
                    after.known(),
                    to,
                ) == byte_at(after.known(), from)
                &&& after.consistent() && byte_at(before.known(), from) is Some ==> byte_at(
                    after.known(),
                    to,
                ) == byte_at(before.known(), from)
            },
            CopyRest::CopyArea(area) | CopyRest::Draw(area) => {
                &&& area.x <= request.x + i < area.x + area.width
                &&& area.y <= request.y + j < area.y + area.height
                &&& area.source_x - area.x == request.source_x - request.x
                &&& area.source_y - area.y == request.source_y - request.y
            },
        },
{
    law_a_plan_carries_the_visible_pixels(
        request,
        source,
        source_layout,
        destination,
        destination_layout,
        i,
        j,
    );
    if let CopyPlan::Rows(area) = planned(
        request,
        source,
        source_layout,
        destination,
        destination_layout,
    ) {
        let row = request.y + j - area.y;
        let byte = (request.x + i - area.x) * 2 + k;
        let from = source_byte(source_layout, source, area, row, byte);
        let to = target_byte(destination_layout, destination, area, row, byte);
        assert(area.y + row == request.y + j && area.source_y + row == request.source_y + j);
        assert(to == destination_layout.address + (request.y + j) * destination.bpl + (request.x
            + i) * 2 + k);
        assert(from == source_layout.address + (request.source_y + j) * source.bpl + (
        request.source_x + i) * 2 + k);
        if after.consistent() && before.known().dom().contains(from) {
            law_visible_area_fits(request, source, destination);
            lemma_row_byte_in(
                source_layout,
                source,
                area.source_x as int,
                area.source_y as int,
                area.width as int,
                area.height as int,
                row,
                byte,
            );
            if in_target(destination_layout, destination, area, from) {
                let (r, b) = choose|r: int, b: int|
                    0 <= r < area.height && 0 <= b < area.width * 2 && from
                        == #[trigger] target_byte(destination_layout, destination, area, r, b);
                lemma_row_byte_in(
                    destination_layout,
                    destination,
                    area.x as int,
                    area.y as int,
                    area.width as int,
                    area.height as int,
                    r,
                    b,
                );
            }
        }
    }
}

/// A copy that is done with changed nothing else: a byte that belongs to no visible
/// pixel of the destination is as it was.
pub proof fn law_a_copy_leaves_the_rest<C: WIPICContext>(
    rest: Result<CopyRest, WieError>,
    before: &Guest<C>,
    calls: Seq<Call>,
    after: &Guest<C>,
    request: CopyRequest,
    source_layout: Layout,
    source: WIPICFramebuffer,
    destination_layout: Layout,
    destination: WIPICFramebuffer,
    at: int,
)
    requires
        is_copy(
            rest,
            before,
            calls,
            after,
            request,
            source_layout,
            source,
            destination_layout,
            destination,
        ),
        rest is Ok,
        after.initial() == before.initial(),
        known(before.initial(), calls) == before.known(),
        after.consistent(),
        before.known().dom().contains(at),
        forall|i: int, j: int, k: int|
            #![trigger request.x + i, request.y + j, 2 * k]
            {
                &&& 0 <= k < 2
                &&& 0 <= i < request.width && 0 <= j < request.height
                &&& 0 <= request.source_x + i < source.width
                &&& 0 <= request.source_y + j < source.height
                &&& 0 <= request.x + i < destination.width
                &&& 0 <= request.y + j < destination.height
                &&& request.clip.x <= request.x + i < request.clip.x + request.clip.width
                &&& request.clip.y <= request.y + j < request.clip.y + request.clip.height
            } ==> at != destination_layout.address + (request.y + j) * destination.bpl + (request.x
                + i) * 2 + k,
    ensures
        byte_at(after.known(), at) == Some(before.known()[at]),
{
    if let CopyPlan::Rows(area) = planned(
        request,
        source,
        source_layout,
        destination,
        destination_layout,
    ) {
        if in_target(destination_layout, destination, area, at) {
            let (r, b) = choose|r: int, b: int|
                0 <= r < area.height && 0 <= b < area.width * 2 && at == #[trigger] target_byte(
                    destination_layout,
                    destination,
                    area,
                    r,
                    b,
                );
            let i = area.x + b / 2 - request.x;
            let j = area.y + r - request.y;
            let k = b % 2;
            assert(b == (b / 2) * 2 + k);
            law_a_plan_carries_the_visible_pixels(
                request,
                source,
                source_layout,
                destination,
                destination_layout,
                i,
                j,
            );
            assert(area.y + r == request.y + j);
            assert(at == destination_layout.address + (request.y + j) * destination.bpl + (request.x
                + i) * 2 + k);
            assert(2 * k >= 0);
        }
    }
}

/// What a plan has to do, for the framebuffers as they are: nothing exactly where no
/// pixel shows, and otherwise just the rectangle of the pixels that show.
pub proof fn law_planning_finds_the_visible_pixels(
    request: CopyRequest,
    source: &FrameBuffer,
    source_layout: Layout,
    destination: &FrameBuffer,
    destination_layout: Layout,
    found: CopyPlan,
    i: int,
    j: int,
)
    requires
        call_ensures(
            plan,
            (request, source, source_layout, destination, destination_layout),
            found,
        ),
        0 <= i < request.width,
        0 <= j < request.height,
        0 <= request.source_x + i < source.0.width,
        0 <= request.source_y + j < source.0.height,
        0 <= request.x + i < destination.0.width,
        0 <= request.y + j < destination.0.height,
        request.clip.x <= request.x + i < request.clip.x + request.clip.width,
        request.clip.y <= request.y + j < request.clip.y + request.clip.height,
    ensures
        match found {
            CopyPlan::Nothing => false,
            CopyPlan::CopyArea(area) | CopyPlan::Rows(area) | CopyPlan::Draw(area) => {
                &&& area.x <= request.x + i < area.x + area.width
                &&& area.y <= request.y + j < area.y + area.height
                &&& area.source_x <= request.source_x + i < area.source_x + area.width
                &&& area.source_y <= request.source_y + j < area.source_y + area.height
                &&& area.source_x - area.x == request.source_x - request.x
                &&& area.source_y - area.y == request.source_y - request.y
                &&& area.x + area.width <= destination.0.width
                &&& area.y + area.height <= destination.0.height
                &&& area.source_x + area.width <= source.0.width
                &&& area.source_y + area.height <= source.0.height
            },
        },
        found is Rows || found is CopyArea ==> source.0.bpp == 16 && destination.0.bpp == 16,
        source.0.bpp != 16 || destination.0.bpp != 16 ==> found is Draw,
{
    law_a_plan_carries_the_visible_pixels(
        request,
        source.0,
        source_layout,
        destination.0,
        destination_layout,
        i,
        j,
    );
    law_visible_area_fits(request, source.0, destination.0);
}

/// A copy with something to show is not done with before it was copied: only between
/// sixteen-bit framebuffers it can be done with at once. Otherwise a canvas is asked for
/// a rectangle that holds every pixel that shows.
pub proof fn law_copying_drops_no_pixel<C: WIPICContext>(
    guest: &mut Guest<C>,
    destination: &FrameBuffer,
    source: &FrameBuffer,
    request: CopyRequest,
    rest: Result<CopyRest, WieError>,
    i: int,
    j: int,
)
    requires
        call_ensures(framebuffer::<C>, (guest, destination, source, request), rest),
        rest is Ok,
        0 <= i < request.width,
        0 <= j < request.height,
        0 <= request.source_x + i < source.0.width,
        0 <= request.source_y + j < source.0.height,
        0 <= request.x + i < destination.0.width,
        0 <= request.y + j < destination.0.height,
        request.clip.x <= request.x + i < request.clip.x + request.clip.width,
        request.clip.y <= request.y + j < request.clip.y + request.clip.height,
    ensures
        match rest->Ok_0 {
            CopyRest::Done => source.0.bpp == 16 && destination.0.bpp == 16,
            CopyRest::CopyArea(area) | CopyRest::Draw(area) => {
                &&& area.x <= request.x + i < area.x + area.width
                &&& area.y <= request.y + j < area.y + area.height
                &&& area.source_x - area.x == request.source_x - request.x
                &&& area.source_y - area.y == request.source_y - request.y
            },
        },
{
    let n = old(guest).calls().len() as int;
    let calls = final(guest).calls();
    if let Call::Locate { located, .. } = calls[n] {
        if let Call::Locate { located: there, .. } = calls[n + 1] {
            let source_layout = located_layout(source.0, located)->Ok_0;
            let destination_layout = located_layout(destination.0, there)->Ok_0;
            law_a_plan_carries_the_visible_pixels(
                request,
                source.0,
                source_layout,
                destination.0,
                destination_layout,
                i,
                j,
            );
        }
    }
}

/// A copy fails only where a framebuffer cannot be used, the context does not tell where it
/// lies, it does not end within memory, or a read or write of the context fails: where none
/// of this happens, it succeeds.
pub proof fn law_copies_fail_only_with_their_calls<C: WIPICContext>(
    guest: &mut Guest<C>,
    destination: &FrameBuffer,
    source: &FrameBuffer,
    request: CopyRequest,
    rest: Result<CopyRest, WieError>,
)
    requires
        call_ensures(framebuffer::<C>, (guest, destination, source, request), rest),
        rest is Err,
    ensures
        ({
            let n = old(guest).calls().len() as int;
            let calls = final(guest).calls();
            ||| shape_error(source.0) is Some
            ||| shape_error(destination.0) is Some
            ||| calls[n] matches Call::Locate { located, .. } && match located {
                Err(_) => true,
                Ok(address) => address + source.0.bpl * source.0.height > 0x1_0000_0000,
            }
            ||| calls[n + 1] matches Call::Locate { located, .. } && match located {
                Err(_) => true,
                Ok(address) => address + destination.0.bpl * destination.0.height > 0x1_0000_0000,
            }
            ||| calls.len() > n + 2 && failure(calls.last()) == Some(rest->Err_0@)
        }),
{
}

} // verus!
