//! Framebuffers in guest memory.

use crate::error::{ErrorView, WieError};
use crate::guest_memory::{
    admits, byte_at, holds, read_answer, result_view, stored, Bytes, Call, Guest, WIPICContext,
    WIPICIndirectPtr,
};
use crate::number::{decimal, decimal_chars};
use crate::pixel_format::{
    argb_color, law_rgb565_round_trip, rgb565_color, rgb565_word, Color, Rgb565Pixel, Rgb8Pixel,
};
use crate::pixels::keeps;
use crate::text::{append_chars, chars_of, string_of};
use vstd::prelude::*;

verus! {

/// The most bytes that a framebuffer may have.
pub const MAX_FRAMEBUFFER_BYTES: u32 = 0x1000_0000;

/// A framebuffer as the guest describes it.
#[derive(Clone, Copy, Debug, PartialEq, Eq, Structural)]
pub struct WIPICFramebuffer {
    pub width: u32,
    pub height: u32,
    /// Bytes from one row to the next.
    pub bpl: u32,
    /// Bits per pixel.
    pub bpp: u32,
    pub buf: WIPICIndirectPtr,
}

/// A framebuffer.
pub struct FrameBuffer(pub WIPICFramebuffer);

/// An image with rows of bytes that follow each other without a gap.
pub struct RawImage {
    pub width: u32,
    pub height: u32,
    pub bytes_per_pixel: u32,
    pub raw: Vec<u8>,
}

/// The size of a buffer and of one row in it.
pub struct BufferSize {
    pub size: u32,
    pub bpl: u32,
}

/// Where a framebuffer lies.
#[derive(Clone, Copy, Debug, PartialEq, Eq, Structural)]
pub struct Layout {
    pub address: u32,
    /// The bytes of all rows, padding with them.
    pub size: u32,
    /// The bytes of one row without its padding.
    pub row_bytes: u32,
}

/// The size of a buffer whose rows are not padded, if it is allowed.
pub open spec fn plain_size(width: u32, height: u32, bytes_per_pixel: u32) -> Option<BufferSize> {
    let bpl = width * bytes_per_pixel;
    let size = bpl * height;
    if bpl <= u32::MAX && size <= MAX_FRAMEBUFFER_BYTES {
        Some(BufferSize { size: size as u32, bpl: bpl as u32 })
    } else {
        None
    }
}

/// The size of a buffer whose rows are not padded. It must be allowed.
pub fn buffer_size(width: u32, height: u32, bytes_per_pixel: u32) -> (size: Result<
    BufferSize,
    WieError,
>)
    ensures
        match plain_size(width, height, bytes_per_pixel) {
            Some(plain) => size == Ok::<BufferSize, WieError>(plain),
            None => size is Err && size->Err_0@ == ErrorView::AllocationFailure,
        },
{
    let bpl: u32 = match width.checked_mul(bytes_per_pixel) {
        Some(bpl) => bpl,
        None => return Err(WieError::AllocationFailure),
    };
    let size: u32 = match bpl.checked_mul(height) {
        Some(size) => size,
        None => return Err(WieError::AllocationFailure),
    };
    if size > MAX_FRAMEBUFFER_BYTES {
        return Err(WieError::AllocationFailure);
    }
    Ok(BufferSize { size, bpl })
}

/// The error for a number of bits per pixel that is not supported.
pub open spec fn unsupported_format(bpp: u32) -> ErrorView {
    ErrorView::FatalError("Unsupported pixel format: "@ + decimal(bpp as nat))
}

/// Why a framebuffer cannot be used, wherever it lies.
pub open spec fn shape_error(buffer: WIPICFramebuffer) -> Option<ErrorView> {
    let plain = plain_size(buffer.width, buffer.height, (buffer.bpp / 8) as u32);
    if buffer.bpp != 16 && buffer.bpp != 32 {
        Some(unsupported_format(buffer.bpp))
    } else if plain is None || buffer.bpl * buffer.height > MAX_FRAMEBUFFER_BYTES || buffer.bpl
        < plain->0.bpl || buffer.width > i32::MAX || buffer.height > i32::MAX {
        Some(ErrorView::AllocationFailure)
    } else {
        None
    }
}

/// Where a framebuffer of a usable shape lies, once its address is known. It
/// must end within the address space.
pub open spec fn placed(buffer: WIPICFramebuffer, address: u32) -> Result<Layout, ErrorView> {
    let size = buffer.bpl * buffer.height;
    if address + size > 0x1_0000_0000 {
        Err(ErrorView::InvalidMemoryAccess(address))
    } else {
        Ok(
            Layout {
                address,
                size: size as u32,
                row_bytes: (buffer.width * (buffer.bpp / 8)) as u32,
            },
        )
    }
}

/// The last call found the place of a buffer.
pub open spec fn is_location(
    before: Seq<Call>,
    after: Seq<Call>,
    buffer: WIPICIndirectPtr,
    located: Result<u32, ErrorView>,
) -> bool {
    after == before.push(Call::Locate { pointer: buffer, located })
}

/// A read that agrees with what is known keeps it.
pub proof fn lemma_read_keeps(known: Bytes, address: int, bytes: Seq<u8>)
    requires
        admits(known, address, bytes),
    ensures
        keeps(known, stored(known, address, bytes)),
        holds(stored(known, address, bytes), address, bytes),
{
    let after = stored(known, address, bytes);
    assert forall|at: int| #[trigger] known.dom().contains(at) implies after.dom().contains(at)
        && after[at] == known[at] by {
        if address <= at < address + bytes.len() {
            assert(known.dom().contains(address + (at - address)));
            assert(known[address + (at - address)] == bytes[at - address]);
        }
    }
}

/// What was known to stand somewhere is still known where everything is kept.
pub proof fn lemma_holds_kept(before: Bytes, after: Bytes, address: int, bytes: Seq<u8>)
    requires
        holds(before, address, bytes),
        keeps(before, after),
    ensures
        holds(after, address, bytes),
{
    assert forall|i: int|
        #![trigger bytes[i]]
        0 <= i < bytes.len() implies byte_at(after, address + i) == Some(bytes[i]) by {
        assert(byte_at(before, address + i) == Some(bytes[i]));
        assert(before.dom().contains(address + i));
    }
}

impl FrameBuffer {
    /// A framebuffer without pixels.
    pub fn empty() -> (framebuffer: FrameBuffer)
        ensures
            framebuffer.0 == (WIPICFramebuffer {
                width: 0,
                height: 0,
                bpl: 0,
                bpp: 0,
                buf: WIPICIndirectPtr(0),
            }),
    {
        FrameBuffer(
            WIPICFramebuffer { width: 0, height: 0, bpl: 0, bpp: 0, buf: WIPICIndirectPtr(0) },
        )
    }

    /// A new framebuffer, whose memory is allocated. `bpp` is rounded down to
    /// whole bytes.
    pub fn new<C: WIPICContext>(
        guest: &mut Guest<C>,
        width: u32,
        height: u32,
        bpp: u32,
    ) -> (framebuffer: Result<FrameBuffer, WieError>)
        ensures
            final(guest).initial() == old(guest).initial(),
            match plain_size(width, height, (bpp / 8) as u32) {
                None => {
                    &&& framebuffer is Err
                    &&& framebuffer->Err_0@ == ErrorView::AllocationFailure
                    &&& final(guest).calls() == old(guest).calls()
                },
                Some(plain) => {
                    &&& final(guest).calls().len() == old(guest).calls().len() + 1
                    &&& final(guest).calls().last() matches Call::Allocate { size, buffer } && {
                        &&& final(guest).calls() == old(guest).calls().push(
                            final(guest).calls().last(),
                        )
                        &&& size == plain.size
                        &&& match buffer {
                            Err(error) => framebuffer is Err && framebuffer->Err_0@ == error,
                            Ok(buf) => framebuffer is Ok && framebuffer->Ok_0.0
                                == (WIPICFramebuffer {
                                width,
                                height,
                                bpl: plain.bpl,
                                bpp: (bpp / 8 * 8) as u32,
                                buf,
                            }),
                        }
                    }
                },
            },
    {
        let bytes_per_pixel: u32 = bpp / 8;
        let plain = match buffer_size(width, height, bytes_per_pixel) {
            Ok(plain) => plain,
            Err(error) => return Err(error),
        };
        match guest.allocate(plain.size) {
            Ok(buf) => Ok(
                FrameBuffer(
                    WIPICFramebuffer {
                        width,
                        height,
                        bpl: plain.bpl,
                        bpp: bytes_per_pixel * 8,
                        buf,
                    },
                ),
            ),
            Err(error) => Err(error),
        }
    }

    /// Whether the framebuffer can be used, wherever it lies.
    fn check_shape(&self) -> (checked: Result<(), WieError>)
        ensures
            match shape_error(self.0) {
                Some(error) => checked is Err && checked->Err_0@ == error,
                None => checked is Ok,
            },
    {
        let bpp: u32 = self.0.bpp;
        if bpp != 16 && bpp != 32 {
            let mut text = chars_of("Unsupported pixel format: ");
            append_chars(&mut text, &decimal_chars(bpp));
            return Err(WieError::FatalError(string_of(&text)));
        }
        let plain = match buffer_size(self.0.width, self.0.height, bpp / 8) {
            Ok(plain) => plain,
            Err(error) => return Err(error),
        };
        match self.0.bpl.checked_mul(self.0.height) {
            None => Err(WieError::AllocationFailure),
            Some(size) => {
                if self.0.bpl < plain.bpl || size > MAX_FRAMEBUFFER_BYTES || self.0.width
                    > 0x7fff_ffff || self.0.height > 0x7fff_ffff {
                    Err(WieError::AllocationFailure)
                } else {
                    Ok(())
                }
            },
        }
    }

    /// Where the framebuffer lies, once its address is known.
    pub fn place(&self, address: u32) -> (layout: Result<Layout, WieError>)
        requires
            shape_error(self.0) is None,
        ensures
            result_view(layout) == placed(self.0, address),
    {
        proof {
            lemma_plain_row(self.0);
        }
        let size: u32 = self.0.bpl * self.0.height;
        if address as u64 + size as u64 > 0x1_0000_0000 {
            return Err(WieError::InvalidMemoryAccess(address));
        }
        Ok(Layout { address, size, row_bytes: self.0.width * (self.0.bpp / 8) })
    }

    /// Where the framebuffer lies. A shape that cannot be used is refused before
    /// the context is asked.
    pub fn layout<C: WIPICContext>(&self, guest: &mut Guest<C>) -> (layout: Result<Layout, WieError>)
        ensures
            final(guest).initial() == old(guest).initial(),
            final(guest).known() == old(guest).known(),
            final(guest).consistent() == old(guest).consistent(),
            match shape_error(self.0) {
                Some(error) => {
                    &&& layout is Err
                    &&& layout->Err_0@ == error
                    &&& final(guest).calls() == old(guest).calls()
                },
                None => exists|located: Result<u32, ErrorView>|
                    {
                        &&& #[trigger] is_location(
                            old(guest).calls(),
                            final(guest).calls(),
                            self.0.buf,
                            located,
                        )
                        &&& result_view(layout) == match located {
                            Ok(address) => placed(self.0, address),
                            Err(error) => Err(error),
                        }
                    },
            },
    {
        match self.check_shape() {
            Ok(()) => {},
            Err(error) => return Err(error),
        }
        let ghost before = guest.calls();
        let located = guest.data_ptr(self.0.buf);
        assert(is_location(before, guest.calls(), self.0.buf, result_view(located)));
        match located {
            Ok(address) => self.place(address),
            Err(error) => Err(error),
        }
    }
}

/// Whether `after` is `before` and then reads of the first `rows` rows.
pub open spec fn rows_read(
    before: Seq<Call>,
    after: Seq<Call>,
    buffer: WIPICFramebuffer,
    layout: Layout,
    rows: nat,
) -> bool {
    &&& after.len() == before.len() + rows
    &&& after.take(before.len() as int) == before
    &&& forall|y: int|
        #![trigger after[before.len() + y]]
        0 <= y < rows ==> (after[before.len() + y] matches Call::Read { address, len, .. } && address
            == layout.address + y * buffer.bpl && len == layout.row_bytes)
}

/// The bytes of one row of an image.
pub open spec fn row_of(raw: Seq<u8>, row_bytes: nat, y: int) -> Seq<u8> {
    raw.subrange(y * row_bytes, y * row_bytes + row_bytes)
}

/// Whether the first `rows` rows of a framebuffer are known to hold `raw`.
pub open spec fn rows_held(
    known: Bytes,
    buffer: WIPICFramebuffer,
    layout: Layout,
    raw: Seq<u8>,
    rows: nat,
) -> bool {
    forall|y: int|
        0 <= y < rows ==> holds(
            known,
            layout.address + y * buffer.bpl,
            #[trigger] row_of(raw, layout.row_bytes as nat, y),
        )
}

/// Whether `bytes` is what reading all rows of a framebuffer gives, with the
/// calls that it makes and what they tell.
pub open spec fn is_snapshot<C: WIPICContext>(
    bytes: Result<Vec<u8>, WieError>,
    before: &Guest<C>,
    calls: Seq<Call>,
    after: &Guest<C>,
    buffer: WIPICFramebuffer,
    layout: Layout,
) -> bool {
    &&& after.initial() == before.initial()
    &&& match bytes {
        Ok(bytes) => {
            &&& bytes@.len() == layout.row_bytes * buffer.height
            &&& rows_read(
                calls,
                after.calls(),
                buffer,
                layout,
                if layout.row_bytes == 0 {
                    0
                } else {
                    buffer.height as nat
                },
            )
            &&& after.consistent() ==> keeps(before.known(), after.known()) && rows_held(
                after.known(),
                buffer,
                layout,
                bytes@,
                buffer.height as nat,
            )
        },
        Err(error) => {
            &&& calls.len() < after.calls().len() <= calls.len() + buffer.height
            &&& rows_read(
                calls,
                after.calls(),
                buffer,
                layout,
                (after.calls().len() - calls.len()) as nat,
            )
            &&& read_answer(after.calls().last()) == Err::<Seq<u8>, ErrorView>(error@)
        },
    }
}

impl FrameBuffer {
    /// The bytes of all rows, without padding.
    fn rows<C: WIPICContext>(&self, guest: &mut Guest<C>, layout: Layout) -> (bytes: Result<
        Vec<u8>,
        WieError,
    >)
        requires
            shape_error(self.0) is None,
            placed(self.0, layout.address) == Ok::<Layout, ErrorView>(layout),
        ensures
            is_snapshot(bytes, old(guest), old(guest).calls(), final(guest), self.0, layout),
    {
        let mut bytes: Vec<u8> = Vec::new();
        let ghost calls = guest.calls();
        let ghost memory = guest.known();
        let ghost row_bytes = layout.row_bytes as nat;
        let ghost buffer = self.0;
        proof {
            lemma_plain_row(self.0);
            assert(calls.take(calls.len() as int) =~= calls);
        }
        if layout.row_bytes == 0 {
            assert(0 * self.0.height == 0) by (nonlinear_arith);
            assert(rows_held(guest.known(), buffer, layout, bytes@, buffer.height as nat)) by {
                assert forall|y: int| 0 <= y < buffer.height implies holds(
                    guest.known(),
                    layout.address + y * buffer.bpl,
                    #[trigger] row_of(bytes@, row_bytes, y),
                ) by {
                    assert(y * 0 == 0) by (nonlinear_arith);
                    assert(row_of(bytes@, 0, y).len() == 0);
                }
            }
            return Ok(bytes);
        }
        let mut y: u32 = 0;
        let mut start: u32 = 0;
        assert(0 * row_bytes == 0) by (nonlinear_arith);
        while y < self.0.height
            invariant
                y <= self.0.height,
                buffer == self.0,
                calls == old(guest).calls(),
                guest.initial() == old(guest).initial(),
                memory == old(guest).known(),
                row_bytes == layout.row_bytes,
                row_bytes > 0,
                row_bytes <= self.0.bpl,
                layout.address + self.0.bpl * self.0.height <= 0x1_0000_0000,
                bytes@.len() == y * row_bytes,
                y < self.0.height ==> start == y * self.0.bpl,
                rows_read(calls, guest.calls(), buffer, layout, y as nat),
                guest.consistent() ==> keeps(memory, guest.known()) && rows_held(
                    guest.known(),
                    buffer,
                    layout,
                    bytes@,
                    y as nat,
                ),
            decreases self.0.height - y,
        {
            let ghost before = guest.known();
            let ghost calls_before = guest.calls();
            let ghost first = bytes@;
            assert(y * self.0.bpl + self.0.bpl <= self.0.bpl * self.0.height) by (nonlinear_arith)
                requires
                    y < self.0.height,
                    0 <= self.0.bpl,
            ;
            assert(0 <= y * self.0.bpl) by (nonlinear_arith)
                requires
                    0 <= self.0.bpl,
                    0 <= y,
            ;
            assert((y + 1) * self.0.bpl == y * self.0.bpl + self.0.bpl) by (nonlinear_arith);
            assert((y + 1) * row_bytes == y * row_bytes + row_bytes) by (nonlinear_arith);
            let address: u32 = layout.address + start;
            let row = guest.read_bytes(address, layout.row_bytes as usize);
            proof {
                assert(guest.calls().take(calls.len() as int) =~= calls_before.take(
                    calls.len() as int,
                ));
                assert forall|k: int|
                    #![trigger guest.calls()[calls.len() + k]]
                    0 <= k < y + 1 implies (guest.calls()[calls.len() + k] matches Call::Read {
                    address,
                    len,
                    ..
                } && address == layout.address + k * buffer.bpl && len == layout.row_bytes) by {
                    if k < y {
                        assert(guest.calls()[calls.len() + k] == calls_before[calls.len() + k]);
                    }
                }
            }
            let mut row = match row {
                Ok(row) => row,
                Err(error) => return Err(error),
            };
            let ghost read = row@;
            bytes.append(&mut row);
            proof {
                let now = guest.known();
                assert(bytes@ == first + read);
                if guest.consistent() {
                    lemma_read_keeps(before, address as int, read);
                    assert forall|k: int| 0 <= k < y + 1 implies holds(
                        now,
                        layout.address + k * buffer.bpl,
                        #[trigger] row_of(bytes@, row_bytes, k),
                    ) by {
                        if k < y {
                            assert(k * row_bytes + row_bytes <= y * row_bytes) by (nonlinear_arith)
                                requires
                                    k < y,
                                    0 <= row_bytes,
                            ;
                            assert(0 <= k * row_bytes) by (nonlinear_arith)
                                requires
                                    0 <= k,
                                    0 <= row_bytes,
                            ;
                            assert(row_of(bytes@, row_bytes, k) =~= row_of(first, row_bytes, k));
                            lemma_holds_kept(
                                before,
                                now,
                                layout.address + k * buffer.bpl,
                                row_of(first, row_bytes, k),
                            );
                        } else {
                            assert(row_of(bytes@, row_bytes, k) =~= read);
                        }
                    }
                    assert forall|at: int| #[trigger] memory.dom().contains(at) implies now.dom().contains(
                    at) && now[at] == memory[at] by {
                        assert(before.dom().contains(at));
                    }
                }
            }
            y += 1;
            if y < self.0.height {
                assert(y * self.0.bpl + self.0.bpl <= self.0.bpl * self.0.height) by (nonlinear_arith)
                    requires
                        y < self.0.height,
                        0 <= self.0.bpl,
                ;
                start = start + self.0.bpl;
            }
        }
        assert(layout.row_bytes * self.0.height == self.0.height * row_bytes) by (nonlinear_arith)
            requires
                row_bytes == layout.row_bytes,
        ;
        Ok(bytes)
    }

    /// The bytes of all rows, without padding.
    pub fn data<C: WIPICContext>(&self, guest: &mut Guest<C>) -> (bytes: Result<Vec<u8>, WieError>)
        ensures
            is_data(bytes, old(guest), final(guest), self.0),
    {
        let ghost before = guest.calls();
        let layout = match self.layout(guest) {
            Ok(layout) => layout,
            Err(error) => {
                proof {
                    if shape_error(self.0) is None {
                        assert(guest.calls().take(before.len() as int) =~= before);
                    }
                }
                return Err(error);
            },
        };
        let ghost located = guest.calls();
        let bytes = self.rows(guest, layout);
        proof {
            assert(guest.calls().take(before.len() as int) =~= located.take(before.len() as int));
            assert(located.take(before.len() as int) =~= before);
            assert(guest.calls()[before.len() as int] == guest.calls().take(
                located.len() as int,
            )[before.len() as int]);
            assert(located =~= before.push(guest.calls()[before.len() as int]));
        }
        bytes
    }

    /// A copy of the framebuffer's pixels.
    pub fn image<C: WIPICContext>(&self, guest: &mut Guest<C>) -> (image: Result<RawImage, WieError>)
        ensures
            image is Ok ==> {
                &&& image->Ok_0.width == self.0.width
                &&& image->Ok_0.height == self.0.height
                &&& image->Ok_0.bytes_per_pixel == self.0.bpp / 8
                &&& is_data(Ok(image->Ok_0.raw), old(guest), final(guest), self.0)
            },
            image is Err ==> is_data(Err(image->Err_0), old(guest), final(guest), self.0),
    {
        match self.data(guest) {
            Ok(raw) => Ok(
                RawImage {
                    width: self.0.width,
                    height: self.0.height,
                    bytes_per_pixel: self.0.bpp / 8,
                    raw,
                },
            ),
            Err(error) => Err(error),
        }
    }

    /// Stores bytes from the framebuffer's address on.
    pub fn write<C: WIPICContext>(&self, guest: &mut Guest<C>, data: &[u8]) -> (done: Result<
        (),
        WieError,
    >)
        ensures
            final(guest).initial() == old(guest).initial(),
            is_store(old(guest).calls(), final(guest).calls(), self.0.buf, data@, result_view(done)),
            final(guest).consistent() == old(guest).consistent(),
            done is Ok ==> final(guest).known() == stored(
                old(guest).known(),
                located_at(final(guest).calls()[old(guest).calls().len() as int]),
                data@,
            ),
    {
        match guest.data_ptr(self.0.buf) {
            Ok(address) => guest.write_bytes(address, data),
            Err(error) => Err(error),
        }
    }

    /// A framebuffer that holds a copy of `image`.
    pub fn from_image<C: WIPICContext>(guest: &mut Guest<C>, image: &RawImage) -> (framebuffer: Result<
        FrameBuffer,
        WieError,
    >)
        requires
            plain_size(image.width, image.height, image.bytes_per_pixel) is Some
                ==> image.bytes_per_pixel * 8 <= u32::MAX,
        ensures
            final(guest).initial() == old(guest).initial(),
            match plain_size(image.width, image.height, image.bytes_per_pixel) {
                None => {
                    &&& framebuffer is Err
                    &&& framebuffer->Err_0@ == ErrorView::AllocationFailure
                    &&& final(guest).calls() == old(guest).calls()
                },
                Some(plain) => {
                    let calls = final(guest).calls();
                    let n = old(guest).calls().len() as int;
                    &&& calls.len() > n
                    &&& calls.take(n) == old(guest).calls()
                    &&& calls[n] matches Call::Allocate { size, buffer } && size == plain.size
                        && match buffer {
                        Err(error) => calls.len() == n + 1 && framebuffer is Err
                            && framebuffer->Err_0@ == error,
                        Ok(buf) => {
                            &&& is_store(
                                calls.take(n + 1),
                                calls,
                                buf,
                                image.raw@,
                                match framebuffer {
                                    Ok(_) => Ok(()),
                                    Err(error) => Err(error@),
                                },
                            )
                            &&& framebuffer is Ok ==> framebuffer->Ok_0.0 == (WIPICFramebuffer {
                                width: image.width,
                                height: image.height,
                                bpl: plain.bpl,
                                bpp: (image.bytes_per_pixel * 8) as u32,
                                buf,
                            })
                        },
                    }
                },
            },
    {
        let ghost before = guest.calls();
        let plain = match buffer_size(image.width, image.height, image.bytes_per_pixel) {
            Ok(plain) => plain,
            Err(error) => return Err(error),
        };
        let buf = match guest.allocate(plain.size) {
            Ok(buf) => buf,
            Err(error) => {
                assert(guest.calls().take(before.len() as int) =~= before);
                return Err(error);
            },
        };
        let ghost allocated = guest.calls();
        let framebuffer = FrameBuffer(
            WIPICFramebuffer {
                width: image.width,
                height: image.height,
                bpl: plain.bpl,
                bpp: image.bytes_per_pixel * 8,
                buf,
            },
        );
        let done = framebuffer.write(guest, image.raw.as_slice());
        proof {
            let n = before.len() as int;
            assert(guest.calls().take(n + 1) =~= allocated);
            assert(guest.calls().take(n) =~= before);
        }
        match done {
            Ok(()) => Ok(framebuffer),
            Err(error) => Err(error),
        }
    }

    /// The colour of a pixel's word.
    pub fn pixel_to_color(&self, pixel: u32) -> (color: Color)
        ensures
            color == (if self.0.bpp == 16 {
                rgb565_color((pixel % 0x1_0000) as u16)
            } else {
                Color { a: 255, ..argb_color(pixel) }
            }),
    {
        if self.0.bpp == 16 {
            Rgb565Pixel::to_color((pixel % 0x1_0000) as u16)
        } else {
            Rgb8Pixel::to_color(pixel)
        }
    }
}

/// A framebuffer without padding that is known to hold `raw` is read as `raw`:
/// what was written is what an image of it shows.
pub proof fn law_image_shows_what_was_written(
    known: Bytes,
    buffer: WIPICFramebuffer,
    layout: Layout,
    raw: Seq<u8>,
    seen: Seq<u8>,
)
    requires
        buffer.bpl == layout.row_bytes,
        raw.len() == layout.row_bytes * buffer.height,
        seen.len() == raw.len(),
        holds(known, layout.address as int, raw),
        rows_held(known, buffer, layout, seen, buffer.height as nat),
    ensures
        seen == raw,
{
    let row = layout.row_bytes as int;
    let height = buffer.height as int;
    assert forall|i: int| 0 <= i < raw.len() implies seen[i] == raw[i] by {
        let y = i / row;
        let x = i % row;
        assert(row > 0 && 0 <= y < height && 0 <= x < row && i == y * row + x && y * row + row <= row
            * height && 0 <= y * row) by (nonlinear_arith)
            requires
                0 <= row,
                0 <= i < row * height,
                y == i / row,
                x == i % row,
        ;
        let line = row_of(seen, row as nat, y);
        assert(holds(known, layout.address + y * buffer.bpl, line));
        assert(byte_at(known, layout.address + y * buffer.bpl + x) == Some(line[x]));
        assert(line[x] == seen[i]);
        assert(byte_at(known, layout.address + i) == Some(raw[i]));
    }
    assert(seen =~= raw);
}

/// The address that a call found.
pub open spec fn located_at(call: Call) -> int {
    match call {
        Call::Locate { located: Ok(address), .. } => address as int,
        _ => 0,
    }
}

/// Whether `after` is `before`, then a call for the place of `buffer`, then a
/// write of `data` there, which ends as `done`. Where the place is not found
/// there is no write.
pub open spec fn is_store(
    before: Seq<Call>,
    after: Seq<Call>,
    buffer: WIPICIndirectPtr,
    data: Seq<u8>,
    done: Result<(), ErrorView>,
) -> bool {
    let n = before.len() as int;
    &&& after.len() > n
    &&& after[n] matches Call::Locate { pointer, located } && pointer == buffer && match located {
        Ok(address) => after == before.push(after[n]).push(Call::Write { address, data, done }),
        Err(error) => after == before.push(after[n]) && done == Err::<(), ErrorView>(error),
    }
}

/// Whether `bytes` is the content of a framebuffer, with the calls that reading
/// it makes and what they tell.
pub open spec fn is_data<C: WIPICContext>(
    bytes: Result<Vec<u8>, WieError>,
    before: &Guest<C>,
    after: &Guest<C>,
    buffer: WIPICFramebuffer,
) -> bool {
    let n = before.calls().len() as int;
    &&& after.initial() == before.initial()
    &&& match shape_error(buffer) {
        Some(error) => bytes is Err && bytes->Err_0@ == error && after.calls() == before.calls(),
        None => {
            &&& after.calls().len() > n
            &&& after.calls().take(n) == before.calls()
            &&& after.calls()[n] matches Call::Locate { pointer, located } && pointer == buffer.buf
                && match located {
                Err(error) => bytes is Err && bytes->Err_0@ == error && after.calls().len() == n
                    + 1,
                Ok(address) => match placed(buffer, address) {
                    Err(error) => bytes is Err && bytes->Err_0@ == error && after.calls().len()
                        == n + 1,
                    Ok(layout) => is_snapshot(
                        bytes,
                        before,
                        before.calls().push(after.calls()[n]),
                        after,
                        buffer,
                        layout,
                    ),
                },
            }
        },
    }
}

/// The sizes of a framebuffer of a usable shape.
pub proof fn lemma_plain_row(buffer: WIPICFramebuffer)
    requires
        shape_error(buffer) is None,
    ensures
        buffer.bpp == 16 || buffer.bpp == 32,
        0 <= buffer.width * (buffer.bpp / 8) <= buffer.bpl,
        0 <= buffer.bpl * buffer.height <= MAX_FRAMEBUFFER_BYTES,
        0 <= (buffer.width * (buffer.bpp / 8)) * buffer.height <= buffer.bpl * buffer.height,
        buffer.width <= i32::MAX,
        buffer.height <= i32::MAX,
{
    let row = buffer.width * (buffer.bpp / 8);
    assert(0 <= row * buffer.height <= buffer.bpl * buffer.height) by (nonlinear_arith)
        requires
            0 <= row <= buffer.bpl,
            0 <= buffer.height,
    ;
}

/// A buffer without padding is allowed exactly where a row fits 32 bits and all of it
/// is at most 256 MiB. It then has as many bytes as its pixels together, and a row as
/// many as the pixels of a row.
pub proof fn law_buffers_hold_their_pixels(width: u32, height: u32, bytes_per_pixel: u32)
    ensures
        plain_size(width, height, bytes_per_pixel) is Some == (width * bytes_per_pixel
            < 0x1_0000_0000 && (width * height) * bytes_per_pixel <= 268_435_456),
        plain_size(width, height, bytes_per_pixel) matches Some(plain) ==> plain.size == (width
            * height) * bytes_per_pixel && plain.bpl == width * bytes_per_pixel,
{
    assert((width * bytes_per_pixel) * height == (width * height) * bytes_per_pixel)
        by (nonlinear_arith);
}

/// A framebuffer can be used exactly where its pixels have 16 or 32 bits, its rows hold
/// their pixels, all its bytes are at most 256 MiB, and its width and height fit 31
/// bits. Another depth is named in the error.
pub proof fn law_usable_framebuffers_hold_their_pixels(buffer: WIPICFramebuffer)
    ensures
        (buffer.bpp == 16 || buffer.bpp == 32) ==> (shape_error(buffer) is None == {
            &&& 8 * buffer.bpl >= buffer.width * buffer.bpp
            &&& buffer.bpl * buffer.height <= 268_435_456
            &&& (buffer.width * (buffer.bpp as int / 8)) * buffer.height <= 268_435_456
            &&& buffer.width < 0x8000_0000
            &&& buffer.height < 0x8000_0000
        }),
        (buffer.bpp == 16 || buffer.bpp == 32) && shape_error(buffer) is Some ==> shape_error(buffer)
            == Some(ErrorView::AllocationFailure),
        buffer.bpp != 16 && buffer.bpp != 32 ==> (shape_error(buffer) matches Some(
            ErrorView::FatalError(text),
        ) && text == "Unsupported pixel format: "@ + decimal(buffer.bpp as nat)),
{
    if buffer.bpp == 16 || buffer.bpp == 32 {
        let bytes = (buffer.bpp / 8) as u32;
        assert(buffer.bpp == 8 * bytes);
        assert(buffer.width * buffer.bpp == 8 * (buffer.width * bytes)) by (nonlinear_arith)
            requires
                buffer.bpp == 8 * bytes,
        ;
    }
}

/// A framebuffer lies where its bytes begin and must end within 32 bits of addresses: its
/// size is that of all its rows, and a row has the bytes of its pixels.
pub proof fn law_framebuffers_end_within_memory(buffer: WIPICFramebuffer, address: u32)
    requires
        shape_error(buffer) is None,
    ensures
        placed(buffer, address) is Ok == (address + buffer.bpl * buffer.height <= 0x1_0000_0000),
        placed(buffer, address) matches Ok(layout) ==> layout.address == address && layout.size
            == buffer.bpl * buffer.height && 8 * layout.row_bytes == buffer.width * buffer.bpp,
        placed(buffer, address) matches Err(error) ==> error == ErrorView::InvalidMemoryAccess(
            address,
        ),
{
    lemma_plain_row(buffer);
    let bytes = (buffer.bpp / 8) as u32;
    assert(buffer.width * buffer.bpp == 8 * (buffer.width * bytes)) by (nonlinear_arith)
        requires
            buffer.bpp == 8 * bytes,
    ;
}

/// A framebuffer is made exactly where its size is allowed and the memory for all its pixels
/// could be allocated: one call asks for just that many bytes. Its rows hold their pixels
/// without padding.
pub proof fn law_new_framebuffers_hold_their_pixels<C: WIPICContext>(
    guest: &mut Guest<C>,
    width: u32,
    height: u32,
    bpp: u32,
    made: Result<FrameBuffer, WieError>,
)
    requires
        call_ensures(FrameBuffer::new::<C>, (guest, width, height, bpp), made),
    ensures
        made matches Ok(buffer) ==> {
            &&& buffer.0.width == width
            &&& buffer.0.height == height
            &&& buffer.0.bpp == bpp - bpp % 8
            &&& 8 * buffer.0.bpl == width * buffer.0.bpp
            &&& final(guest).calls().len() == old(guest).calls().len() + 1
            &&& final(guest).calls().last() matches Call::Allocate { size, buffer: got } && 8 * size
                == (width * height) * buffer.0.bpp && got == Ok::<WIPICIndirectPtr, ErrorView>(
                buffer.0.buf,
            )
        },
        (width * (bpp as int / 8) >= 0x1_0000_0000 || (width * height) * (bpp as int / 8)
            > 268_435_456) ==> made is Err && final(guest).calls() == old(guest).calls(),
{
    law_buffers_hold_their_pixels(width, height, (bpp / 8) as u32);
    let bytes = (bpp / 8) as u32;
    assert(bpp - bpp % 8 == 8 * bytes);
    let area = width * height;
    assert(width * (8 * bytes) == 8 * (width * bytes)) by (nonlinear_arith);
    assert(area * (8 * bytes) == 8 * (area * bytes)) by (nonlinear_arith);
}

/// An image becomes a framebuffer of its own size and depth, whose bytes from its address on
/// are those of the image.
pub proof fn law_images_are_stored_whole<C: WIPICContext>(
    guest: &mut Guest<C>,
    image: &RawImage,
    made: Result<FrameBuffer, WieError>,
)
    requires
        plain_size(image.width, image.height, image.bytes_per_pixel) is Some
            ==> image.bytes_per_pixel * 8 <= u32::MAX,
        call_ensures(FrameBuffer::from_image::<C>, (guest, image), made),
    ensures
        made matches Ok(buffer) ==> {
            &&& buffer.0.width == image.width
            &&& buffer.0.height == image.height
            &&& buffer.0.bpp == 8 * image.bytes_per_pixel
            &&& buffer.0.bpl == image.width * image.bytes_per_pixel
            &&& final(guest).calls().last() matches Call::Write { data, done, .. } && data
                == image.raw@ && done == Ok::<(), ErrorView>(())
        },
        (image.width * image.bytes_per_pixel >= 0x1_0000_0000 || (image.width * image.height)
            * image.bytes_per_pixel > 268_435_456) ==> made is Err && final(guest).calls() == old(
            guest,
        ).calls(),
{
    law_buffers_hold_their_pixels(image.width, image.height, image.bytes_per_pixel);
}

/// A copy of a framebuffer has its size and depth and the bytes of all its rows.
pub proof fn law_images_have_all_rows<C: WIPICContext>(
    framebuffer: &FrameBuffer,
    guest: &mut Guest<C>,
    image: Result<RawImage, WieError>,
)
    requires
        call_ensures(FrameBuffer::image::<C>, (framebuffer, guest), image),
        image is Ok,
    ensures
        ({
            let copy = image->Ok_0;
            let buffer = framebuffer.0;
            let n = old(guest).calls().len() as int;
            &&& copy.width == buffer.width && copy.height == buffer.height
            &&& 8 * copy.bytes_per_pixel == buffer.bpp
            &&& buffer.bpp == 16 || buffer.bpp == 32
            &&& copy.raw@.len() == (copy.width * copy.bytes_per_pixel) * copy.height
            &&& final(guest).consistent() ==> (final(guest).calls()[n] matches Call::Locate {
                located: Ok(address),
                ..
            } && forall|y: int, b: int|
                #![trigger copy.raw@[y * (copy.width * copy.bytes_per_pixel) + b]]
                0 <= y < copy.height && 0 <= b < copy.width * copy.bytes_per_pixel ==> byte_at(
                    final(guest).known(),
                    address + y * buffer.bpl + b,
                ) == Some(copy.raw@[y * (copy.width * copy.bytes_per_pixel) + b]))
        }),
{
    let copy = image->Ok_0;
    let buffer = framebuffer.0;
    let n = old(guest).calls().len() as int;
    lemma_plain_row(buffer);
    if let Call::Locate { located: Ok(address), .. } = final(guest).calls()[n] {
        let layout = placed(buffer, address)->Ok_0;
        let width = (copy.width * copy.bytes_per_pixel) as nat;
        assert(width == layout.row_bytes);
        if final(guest).consistent() {
            assert forall|y: int, b: int|
                #![trigger copy.raw@[y * (copy.width * copy.bytes_per_pixel) + b]]
                0 <= y < copy.height && 0 <= b < copy.width * copy.bytes_per_pixel implies byte_at(
                final(guest).known(),
                address + y * buffer.bpl + b,
            ) == Some(copy.raw@[y * (copy.width * copy.bytes_per_pixel) + b]) by {
                let height = copy.height as int;
                assert(0 <= y * width && y * width + width <= width * height) by (nonlinear_arith)
                    requires
                        0 <= y < height,
                        0 <= width,
                ;
                let row = row_of(copy.raw@, layout.row_bytes as nat, y);
                assert(holds(final(guest).known(), layout.address + y * buffer.bpl, row));
                assert(row[b] == copy.raw@[y * width + b]);
            }
        }
    }
}

/// Bytes are stored from the framebuffer's address on, all of them in one call, once the
/// context has told the address. A place that cannot be told fails the store.
pub proof fn law_stores_go_to_the_framebuffer<C: WIPICContext>(
    framebuffer: &FrameBuffer,
    guest: &mut Guest<C>,
    data: &[u8],
    done: Result<(), WieError>,
)
    requires
        call_ensures(FrameBuffer::write::<C>, (framebuffer, guest, data), done),
    ensures
        ({
            let n = old(guest).calls().len() as int;
            let calls = final(guest).calls();
            &&& calls.len() > n
            &&& calls[n] matches Call::Locate { pointer, located } && pointer == framebuffer.0.buf
                && match located {
                Ok(address) => {
                    &&& calls.len() == n + 2
                    &&& calls[n + 1] matches Call::Write { address: at, data: bytes, .. } && at
                        == address && bytes == data@
                    &&& done is Ok ==> forall|i: int|
                        0 <= i < data@.len() ==> byte_at(final(guest).known(), address + i) == Some(
                            #[trigger] data@[i],
                        )
                },
                Err(error) => calls.len() == n + 1 && done is Err && done->Err_0@ == error,
            }
        }),
{
    let n = old(guest).calls().len() as int;
    if let Call::Locate { located: Ok(address), .. } = final(guest).calls()[n] {
        if done is Ok {
            let known = final(guest).known();
            assert(known == stored(old(guest).known(), address as int, data@));
            assert forall|i: int| 0 <= i < data@.len() implies byte_at(known, address + i) == Some(
                #[trigger] data@[i],
            ) by {
                assert(known.dom().contains(address + i));
            }
        }
    }
}

/// A pixel's word is shown as sixteen bits where the framebuffer has so many, whatever stands
/// above them, and otherwise as three bytes of an opaque colour.
pub proof fn law_words_are_shown_by_depth(framebuffer: &FrameBuffer, pixel: u32, color: Color)
    requires
        call_ensures(FrameBuffer::pixel_to_color, (framebuffer, pixel), color),
    ensures
        color.a == 255,
        framebuffer.0.bpp == 16 ==> rgb565_word(color) == pixel % 65_536,
        framebuffer.0.bpp != 16 ==> 65_536 * color.r + 256 * color.g + color.b == pixel
            % 16_777_216,
{
    if framebuffer.0.bpp == 16 {
        law_rgb565_round_trip((pixel % 65_536) as u16);
    } else {
        lemma_low_bytes(pixel as int);
    }
}

proof fn lemma_low_bytes(n: int)
    requires
        0 <= n,
    ensures
        65_536 * (n / 65_536 % 256) + 256 * (n / 256 % 256) + n % 256 == n % 16_777_216,
{
}

/// A framebuffer can be located exactly where its shape is usable, the context tells its
/// address and it ends within memory. The context is not asked about an unusable shape.
pub proof fn law_usable_framebuffers_are_located<C: WIPICContext>(
    framebuffer: &FrameBuffer,
    guest: &mut Guest<C>,
    layout: Result<Layout, WieError>,
)
    requires
        call_ensures(FrameBuffer::layout::<C>, (framebuffer, guest), layout),
    ensures
        layout matches Ok(layout) ==> {
            &&& framebuffer.0.bpp == 16 || framebuffer.0.bpp == 32
            &&& layout.size == framebuffer.0.bpl * framebuffer.0.height
            &&& 8 * layout.row_bytes == framebuffer.0.width * framebuffer.0.bpp
            &&& layout.row_bytes <= framebuffer.0.bpl
            &&& layout.address + layout.size <= 0x1_0000_0000
            &&& final(guest).calls() == old(guest).calls().push(
                Call::Locate { pointer: framebuffer.0.buf, located: Ok(layout.address) },
            )
        },
        framebuffer.0.bpp != 16 && framebuffer.0.bpp != 32 ==> layout is Err && final(guest).calls()
            == old(guest).calls(),
        final(guest).known() == old(guest).known(),
{
    law_usable_framebuffers_hold_their_pixels(framebuffer.0);
    if shape_error(framebuffer.0) is None {
        lemma_plain_row(framebuffer.0);
        let located = choose|located: Result<u32, ErrorView>|
            {
                &&& #[trigger] is_location(
                    old(guest).calls(),
                    final(guest).calls(),
                    framebuffer.0.buf,
                    located,
                )
                &&& result_view(layout) == match located {
                    Ok(address) => placed(framebuffer.0, address),
                    Err(error) => Err(error),
                }
            };
        if let Ok(address) = located {
            law_framebuffers_end_within_memory(framebuffer.0, address);
        }
    }
}

/// A framebuffer is made wherever its size is allowed and the context gives the memory, and
/// located wherever its shape is usable and the context tells a place that ends within
/// memory.
pub proof fn law_framebuffers_fail_only_with_the_context<C: WIPICContext>(
    guest: &mut Guest<C>,
    width: u32,
    height: u32,
    bpp: u32,
    made: Result<FrameBuffer, WieError>,
    framebuffer: &FrameBuffer,
    finder: &mut Guest<C>,
    layout: Result<Layout, WieError>,
)
    requires
        call_ensures(FrameBuffer::new::<C>, (guest, width, height, bpp), made),
        call_ensures(FrameBuffer::layout::<C>, (framebuffer, finder), layout),
    ensures
        width * (bpp as int / 8) < 0x1_0000_0000 && (width * height) * (bpp as int / 8)
            <= 268_435_456 ==> (final(guest).calls().last() matches Call::Allocate { buffer, .. }
            && (buffer is Ok ==> made is Ok) && (made matches Err(error) ==> buffer == Err::<
            WIPICIndirectPtr,
            ErrorView,
        >(error@))),
        (framebuffer.0.bpp == 16 || framebuffer.0.bpp == 32) && 8 * framebuffer.0.bpl
            >= framebuffer.0.width * framebuffer.0.bpp && framebuffer.0.bpl * framebuffer.0.height
            <= 268_435_456 && framebuffer.0.width < 0x8000_0000 && framebuffer.0.height < 0x8000_0000
            ==> (final(finder).calls().last() matches Call::Locate { located, .. } && match located {
            Ok(address) => layout is Ok == (address + framebuffer.0.bpl * framebuffer.0.height
                <= 0x1_0000_0000),
            Err(error) => layout is Err && layout->Err_0@ == error,
        }),
{
    law_buffers_hold_their_pixels(width, height, (bpp / 8) as u32);
    let buffer = framebuffer.0;
    law_usable_framebuffers_hold_their_pixels(buffer);
    if (buffer.bpp == 16 || buffer.bpp == 32) && 8 * buffer.bpl >= buffer.width * buffer.bpp
        && buffer.bpl * buffer.height <= 268_435_456 {
        let bytes = buffer.bpp as int / 8;
        let row = buffer.width * bytes;
        assert(buffer.width * buffer.bpp == 8 * row) by (nonlinear_arith)
            requires
                buffer.bpp == 8 * bytes,
                row == buffer.width * bytes,
        ;
        assert(row * buffer.height <= buffer.bpl * buffer.height) by (nonlinear_arith)
            requires
                row <= buffer.bpl,
        ;
        if buffer.width < 0x8000_0000 && buffer.height < 0x8000_0000 {
            let located = choose|located: Result<u32, ErrorView>|
                {
                    &&& #[trigger] is_location(
                        old(finder).calls(),
                        final(finder).calls(),
                        buffer.buf,
                        located,
                    )
                    &&& result_view(layout) == match located {
                        Ok(address) => placed(buffer, address),
                        Err(error) => Err(error),
                    }
                };
            if let Ok(address) = located {
                law_framebuffers_end_within_memory(buffer, address);
            }
        }
    }
}

/// A copy of a framebuffer fails only where it cannot be located or a read of the context
/// fails.
pub proof fn law_images_fail_only_with_the_context<C: WIPICContext>(
    framebuffer: &FrameBuffer,
    guest: &mut Guest<C>,
    image: Result<RawImage, WieError>,
)
    requires
        call_ensures(FrameBuffer::image::<C>, (framebuffer, guest), image),
        image is Err,
    ensures
        ({
            let n = old(guest).calls().len() as int;
            let calls = final(guest).calls();
            let buffer = framebuffer.0;
            ||| shape_error(buffer) is Some && calls == old(guest).calls()
            ||| calls[n] matches Call::Locate { located, .. } && match located {
                Err(_) => true,
                Ok(address) => address + buffer.bpl * buffer.height > 0x1_0000_0000,
            }
            ||| calls.last() matches Call::Read { len, bytes, .. } && match bytes {
                Err(_) => true,
                Ok(found) => found.len() != len,
            }
        }),
{
    let n = old(guest).calls().len() as int;
    let calls = final(guest).calls();
    if let Call::Locate { located: Ok(address), .. } = calls[n] {
        if placed(framebuffer.0, address) is Ok {
            let located = old(guest).calls().push(calls[n]);
            let rows = calls.len() - located.len();
            assert(calls[located.len() + (rows - 1)] == calls.last());
        }
    }
}

/// An image becomes a framebuffer, and bytes are stored in one, wherever the size is allowed
/// and no call of the context fails: what fails is the last call, and its failure is given.
pub proof fn law_stores_fail_only_with_the_context<C: WIPICContext>(
    guest: &mut Guest<C>,
    image: &RawImage,
    made: Result<FrameBuffer, WieError>,
    framebuffer: &FrameBuffer,
    writer: &mut Guest<C>,
    data: &[u8],
    done: Result<(), WieError>,
)
    requires
        plain_size(image.width, image.height, image.bytes_per_pixel) is Some
            ==> image.bytes_per_pixel * 8 <= u32::MAX,
        call_ensures(FrameBuffer::from_image::<C>, (guest, image), made),
        call_ensures(FrameBuffer::write::<C>, (framebuffer, writer, data), done),
    ensures
        image.width * image.bytes_per_pixel < 0x1_0000_0000 && (image.width * image.height)
            * image.bytes_per_pixel <= 268_435_456 ==> match final(guest).calls().last() {
            Call::Allocate { buffer, .. } => made is Err && buffer == Err::<
                WIPICIndirectPtr,
                ErrorView,
            >(made->Err_0@),
            Call::Locate { located, .. } => made is Err && located == Err::<u32, ErrorView>(
                made->Err_0@,
            ),
            Call::Write { done, .. } => made is Ok == done is Ok,
            _ => false,
        },
        match final(writer).calls().last() {
            Call::Locate { located, .. } => done is Err && located == Err::<u32, ErrorView>(
                done->Err_0@,
            ),
            Call::Write { done: answer, .. } => answer is Ok == done is Ok && (done is Err
                ==> answer == Err::<(), ErrorView>(done->Err_0@)),
            _ => false,
        },
{
    law_buffers_hold_their_pixels(image.width, image.height, image.bytes_per_pixel);
}

} // verus!
