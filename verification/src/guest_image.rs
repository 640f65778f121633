//! Drawing straight into a framebuffer in guest memory.

use crate::error::{ErrorView, WieError};
use crate::framebuffer::{
    is_location, lemma_holds_kept, lemma_plain_row, placed, row_of, shape_error, FrameBuffer,
};
use crate::guest_memory::{
    admits, byte_at, calls_within, failure, holds, is_caused, law_calls_within_leave_the_rest,
    lemma_calls_within_none,
    lemma_calls_within_trans,
    lemma_consistent_before, result_view, stored, within, Bytes, Call, Guest, WIPICContext,
};
use crate::pixel_format::{
    argb_color, argb_word, bytes_of, law_argb_color_round_trip, law_le_round_trip,
    law_rgb565_keeps_the_high_bits, law_xor_turns_the_bits_of_the_color, law_xor_twice_restores,
    le_bytes, le_value, rgb565_color, rgb565_word, rgb_word,
    word_of, ArgbPixel, Color, Rgb565Pixel,
};
use crate::pixels::{is_cut, keeps, window, Pixels};
use crate::raster::law_laid_colors_show;
use vstd::prelude::*;

verus! {

/// The pixels of a framebuffer, for drawing.
pub struct GuestImage {
    width: u32,
    height: u32,
    stride: usize,
    bpp: usize,
    pixels: Pixels,
}

/// The colour of a pixel's word, by the bytes that a pixel has.
pub open spec fn word_color(word: nat, bpp: nat) -> Color {
    if bpp == 2 {
        rgb565_color(word as u16)
    } else {
        argb_color(word as u32)
    }
}

/// The word of a pixel of this colour, by the bytes that a pixel has.
pub open spec fn color_word(color: Color, bpp: nat) -> nat {
    if bpp == 2 {
        rgb565_word(color) as nat
    } else {
        argb_word(color) as nat
    }
}

/// The word of a pixel after a colour was drawn over it in exclusive-or mode.
pub open spec fn mixed_word(word: nat, color: Color, bpp: nat) -> nat {
    if bpp == 2 {
        ((word as u16) ^ rgb565_word(color)) as nat
    } else {
        ((word as u32) ^ rgb_word(color)) as nat
    }
}

/// The bytes that `content` holds from `offset` on.
pub open spec fn bytes_at(content: Bytes, offset: int, len: nat) -> Seq<u8> {
    Seq::new(len, |i: int| content[offset + i])
}

/// Whether `color` is the colour of bytes of a read that broke off.
pub open spec fn is_cut_color(
    content: Bytes,
    consistent: bool,
    offset: int,
    bpp: nat,
    color: Color,
) -> bool {
    exists|bytes: Seq<u8>|
        {
            &&& #[trigger] is_cut(content, consistent, offset, bytes)
            &&& bytes.len() == bpp
            &&& color == word_color(le_value(bytes), bpp)
        }
}

impl GuestImage {
    /// The number of pixels in a row.
    pub closed spec fn columns(&self) -> u32 {
        self.width
    }

    /// The number of rows.
    pub closed spec fn rows(&self) -> u32 {
        self.height
    }

    /// The bytes from one row to the next.
    pub closed spec fn pitch(&self) -> usize {
        self.stride
    }

    /// The bytes of a pixel.
    pub closed spec fn depth(&self) -> usize {
        self.bpp
    }

    /// The address of the first pixel.
    pub closed spec fn address(&self) -> u32 {
        self.pixels.address()
    }

    /// The bytes of all rows, padding with them.
    pub closed spec fn size(&self) -> usize {
        self.pixels.size()
    }

    /// The first failure of the context, which stops all drawing.
    pub closed spec fn error(&self) -> Option<ErrorView> {
        self.pixels.error()
    }

    /// What is known of the bytes of the framebuffer, by offset.
    pub closed spec fn content<C: WIPICContext>(&self, guest: &Guest<C>) -> Bytes {
        self.pixels.content(guest.known())
    }

    /// Whether the rows fit the bytes that the image has.
    pub open spec fn framed(&self) -> bool {
        &&& self.depth() == 2 || self.depth() == 4
        &&& self.columns() * self.depth() <= self.pitch()
        &&& self.pitch() * self.rows() == self.size()
        &&& self.columns() <= i32::MAX
        &&& self.rows() <= i32::MAX
    }

    /// Whether the cached bytes fit what is known of the guest's memory.
    pub closed spec fn cache_fits<C: WIPICContext>(&self, guest: &Guest<C>) -> bool {
        self.pixels.valid(guest)
    }

    /// Whether the image fits what is known of the guest's memory.
    pub open spec fn valid<C: WIPICContext>(&self, guest: &Guest<C>) -> bool {
        self.framed() && self.cache_fits(guest)
    }

    /// Whether the image has the same shape and place as another.
    pub open spec fn same_frame(&self, other: &GuestImage) -> bool {
        &&& self.columns() == other.columns()
        &&& self.rows() == other.rows()
        &&& self.pitch() == other.pitch()
        &&& self.depth() == other.depth()
        &&& self.address() == other.address()
        &&& self.size() == other.size()
    }

    /// Whether there is a pixel in this column and row.
    pub open spec fn has_pixel(&self, x: int, y: int) -> bool {
        0 <= x < self.columns() && 0 <= y < self.rows()
    }

    /// Where the bytes of a pixel start.
    pub open spec fn offset_of(&self, x: int, y: int) -> int {
        y * self.pitch() + x * self.depth()
    }

    /// The colour of a pixel, as far as its bytes are known.
    pub open spec fn color_at(&self, content: Bytes, x: int, y: int) -> Color {
        word_color(
            le_value(bytes_at(content, self.offset_of(x, y), self.depth() as nat)),
            self.depth() as nat,
        )
    }

    /// Whether all bytes of a pixel are known.
    pub open spec fn knows_pixel(&self, content: Bytes, x: int, y: int) -> bool {
        forall|i: int|
            0 <= i < self.depth() ==> content.dom().contains(#[trigger] (self.offset_of(x, y) + i))
    }

    /// `content` after a pixel was given a word.
    pub open spec fn with_word(&self, content: Bytes, x: int, y: int, word: nat) -> Bytes {
        stored(content, self.offset_of(x, y), le_bytes(word, self.depth() as nat))
    }

    /// The bytes of a pixel lie in its row, and the row in the framebuffer.
    pub proof fn lemma_pixel_fits(&self, x: int, y: int)
        requires
            self.framed(),
            self.has_pixel(x, y),
        ensures
            0 <= self.offset_of(x, y),
            self.offset_of(x, y) + self.depth() <= self.size(),
            0 <= y * self.pitch(),
            0 <= x * self.depth() <= self.pitch(),
            y * self.pitch() + self.pitch() <= self.size(),
            self.offset_of(x, y) + self.depth() <= y * self.pitch() + self.pitch(),
    {
        let stride = self.stride as int;
        let bpp = self.bpp as int;
        let height = self.height as int;
        let width = self.width as int;
        assert(0 <= y * stride && y * stride + stride <= stride * height) by (nonlinear_arith)
            requires
                0 <= y < height,
                0 <= stride,
        ;
        assert(0 <= x * bpp && x * bpp + bpp <= width * bpp) by (nonlinear_arith)
            requires
                0 <= x < width,
                0 < bpp,
        ;
    }

    /// The number of pixels in a row.
    pub fn width(&self) -> (width: u32)
        ensures
            width == self.columns(),
    {
        self.width
    }

    /// The number of rows.
    pub fn height(&self) -> (height: u32)
        ensures
            height == self.rows(),
    {
        self.height
    }

    /// The bytes of a pixel.
    pub fn bytes_per_pixel(&self) -> (bytes: usize)
        ensures
            bytes == self.depth(),
    {
        self.bpp
    }

    /// Where the bytes of a pixel start, if there is such a pixel.
    fn offset(&self, x: i32, y: i32) -> (offset: Option<usize>)
        requires
            self.framed(),
        ensures
            offset is Some == self.has_pixel(x as int, y as int),
            offset is Some ==> offset->0 == self.offset_of(x as int, y as int) && offset->0
                + self.depth() <= self.size(),
    {
        if x < 0 || y < 0 || x as u32 >= self.width || y as u32 >= self.height {
            return None;
        }
        proof {
            self.lemma_pixel_fits(x as int, y as int);
        }
        Some(y as usize * self.stride + x as usize * self.bpp)
    }

    /// The colour of the bytes of a pixel.
    fn decode(&self, bytes: &Vec<u8>) -> (color: Color)
        requires
            self.framed(),
            bytes@.len() == self.depth(),
        ensures
            color == word_color(le_value(bytes@), self.depth() as nat),
    {
        let word: u32 = word_of(bytes);
        if self.bpp == 2 {
            Rgb565Pixel::to_color(word as u16)
        } else {
            ArgbPixel::to_color(word)
        }
    }

    /// The colour of a pixel. Outside the image, and once the context has
    /// failed, it is the colour of zero bytes.
    pub fn get_pixel<C: WIPICContext>(&mut self, guest: &mut Guest<C>, x: i32, y: i32) -> (color: Color)
        requires
            old(self).valid(old(guest)),
        ensures
            final(self).valid(final(guest)),
            final(self).same_frame(old(self)),
            final(guest).initial() == old(guest).initial(),
            calls_within(
                old(guest).calls(),
                final(guest).calls(),
                old(self).address() as int,
                old(self).size() as nat,
            ),
            is_caused(
                old(self).error(),
                final(self).error(),
                old(guest).calls(),
                final(guest).calls(),
            ),
            !old(self).has_pixel(x as int, y as int) ==> {
                &&& *final(self) == *old(self)
                &&& final(guest).calls() == old(guest).calls()
                &&& color == word_color(0, old(self).depth() as nat)
            },
            old(self).error() is Some ==> {
                &&& *final(self) == *old(self)
                &&& final(guest).calls() == old(guest).calls()
                &&& color == word_color(0, old(self).depth() as nat)
            },
            old(self).has_pixel(x as int, y as int) && old(self).error() is None
                && final(self).error() is None && final(guest).consistent() ==> {
                &&& keeps(old(self).content(old(guest)), final(self).content(final(guest)))
                &&& final(self).knows_pixel(final(self).content(final(guest)), x as int, y as int)
                &&& color == final(self).color_at(
                    final(self).content(final(guest)),
                    x as int,
                    y as int,
                )
            },
            old(self).error() is None && final(self).error() is Some ==> {
                &&& final(guest).consistent() ==> keeps(
                    old(self).content(old(guest)),
                    final(self).content(final(guest)),
                )
                &&& is_cut_color(
                    final(self).content(final(guest)),
                    final(guest).consistent(),
                    old(self).offset_of(x as int, y as int),
                    old(self).depth() as nat,
                    color,
                )
            },
    {
        proof {
            lemma_calls_within_none(guest.calls(), self.address() as int, self.size() as nat);
        }
        match self.offset(x, y) {
            Some(offset) => {
                let bytes = self.pixels.read(guest, offset, self.bpp);
                proof {
                    if self.error() is None && guest.consistent() && old(self).error() is None {
                        let content = self.content(guest);
                        assert forall|i: int| 0 <= i < bytes@.len() implies content.dom().contains(
                            #[trigger] (offset + i),
                        ) by {
                            assert(byte_at(content, offset + i) == Some(bytes@[i]));
                        }
                        assert(bytes@ =~= bytes_at(content, offset as int, self.bpp as nat)) by {
                            assert forall|i: int| 0 <= i < bytes@.len() implies bytes@[i]
                                == content[offset + i] by {
                                assert(byte_at(content, offset + i) == Some(bytes@[i]));
                            }
                        }
                    }
                    if old(self).error() is Some {
                        lemma_zero_value(bytes@);
                    }
                    if old(self).error() is None && self.error() is Some {
                        assert(is_cut(
                            self.content(guest),
                            guest.consistent(),
                            offset as int,
                            bytes@,
                        ));
                        assert(is_cut_color(
                            self.content(guest),
                            guest.consistent(),
                            offset as int,
                            self.bpp as nat,
                            word_color(le_value(bytes@), self.bpp as nat),
                        ));
                    }
                }
                self.decode(&bytes)
            },
            None => {
                let mut bytes: Vec<u8> = Vec::new();
                bytes.resize(self.bpp, 0);
                proof {
                    lemma_zero_value(bytes@);
                }
                self.decode(&bytes)
            },
        }
    }

    /// Gives a pixel a colour. Outside the image nothing happens.
    pub fn put_pixel<C: WIPICContext>(&mut self, guest: &mut Guest<C>, x: i32, y: i32, color: Color)
        requires
            old(self).valid(old(guest)),
        ensures
            final(self).valid(final(guest)),
            final(self).same_frame(old(self)),
            final(guest).initial() == old(guest).initial(),
            calls_within(
                old(guest).calls(),
                final(guest).calls(),
                old(self).address() as int,
                old(self).size() as nat,
            ),
            is_caused(
                old(self).error(),
                final(self).error(),
                old(guest).calls(),
                final(guest).calls(),
            ),
            !old(self).has_pixel(x as int, y as int) || old(self).error() is Some ==> *final(self)
                == *old(self) && final(guest).calls() == old(guest).calls(),
            old(self).has_pixel(x as int, y as int) && final(self).error() is None
                && final(guest).consistent() ==> keeps(
                old(self).with_word(
                    old(self).content(old(guest)),
                    x as int,
                    y as int,
                    color_word(color, old(self).depth() as nat),
                ),
                final(self).content(final(guest)),
            ),
    {
        proof {
            lemma_calls_within_none(guest.calls(), self.address() as int, self.size() as nat);
        }
        if let Some(offset) = self.offset(x, y) {
            let word: u32 = if self.bpp == 2 {
                Rgb565Pixel::from_color(color) as u32
            } else {
                ArgbPixel::from_color(color)
            };
            let bytes = bytes_of(word, self.bpp);
            proof {
                law_le_round_trip(word as nat, self.bpp as nat);
            }
            self.pixels.write(guest, offset, bytes.as_slice());
        }
    }

    /// Draws a colour over a pixel in exclusive-or mode. Outside the image
    /// nothing happens.
    pub fn xor_pixel<C: WIPICContext>(&mut self, guest: &mut Guest<C>, x: i32, y: i32, color: Color)
        requires
            old(self).valid(old(guest)),
        ensures
            final(self).valid(final(guest)),
            final(self).same_frame(old(self)),
            final(guest).initial() == old(guest).initial(),
            calls_within(
                old(guest).calls(),
                final(guest).calls(),
                old(self).address() as int,
                old(self).size() as nat,
            ),
            is_caused(
                old(self).error(),
                final(self).error(),
                old(guest).calls(),
                final(guest).calls(),
            ),
            !old(self).has_pixel(x as int, y as int) || old(self).error() is Some ==> *final(self)
                == *old(self) && final(guest).calls() == old(guest).calls(),
            old(self).has_pixel(x as int, y as int) && old(self).error() is None
                && final(self).error() is None && final(guest).consistent() ==> exists|word: nat|
                {
                    &&& #[trigger] is_word_at(
                        old(self).content(old(guest)),
                        old(self).offset_of(x as int, y as int),
                        old(self).depth() as nat,
                        word,
                    )
                    &&& keeps(
                        old(self).with_word(
                            old(self).content(old(guest)),
                            x as int,
                            y as int,
                            mixed_word(word, color, old(self).depth() as nat),
                        ),
                        final(self).content(final(guest)),
                    )
                },
    {
        let ghost calls = guest.calls();
        let ghost before = self.content(guest);
        proof {
            lemma_calls_within_none(calls, self.address() as int, self.size() as nat);
        }
        if let Some(offset) = self.offset(x, y) {
            let bytes = self.pixels.read(guest, offset, self.bpp);
            let ghost calls_read = guest.calls();
            let ghost after = self.content(guest);
            let word: u32 = word_of(&bytes);
            let mixed: u32 = if self.bpp == 2 {
                Rgb565Pixel::xor_color(word as u16, color) as u32
            } else {
                ArgbPixel::xor_color(word, color)
            };
            let output = bytes_of(mixed, self.bpp);
            proof {
                law_le_round_trip(mixed as nat, self.bpp as nat);
            }
            self.pixels.write(guest, offset, output.as_slice());
            proof {
                lemma_calls_within_trans(
                    calls,
                    calls_read,
                    guest.calls(),
                    self.address() as int,
                    self.size() as nat,
                );
                if old(self).error() is None && self.error() is None && guest.consistent() {
                    lemma_consistent_before(guest.initial(), calls_read, guest.calls());
                    assert(is_word_at(before, offset as int, self.bpp as nat, word as nat)) by {
                        assert forall|i: int|
                            #![trigger bytes@[i]]
                            0 <= i < bytes@.len() && before.dom().contains(
                                offset + i,
                            ) implies before[offset + i] == bytes@[i] by {
                            assert(byte_at(after, offset + i) == Some(bytes@[i]));
                            assert(after.dom().contains(offset + i));
                        }
                        assert(admits(before, offset as int, bytes@));
                    }
                    let wanted = stored(before, offset as int, output@);
                    let mid = stored(after, offset as int, output@);
                    let now = self.content(guest);
                    assert forall|at: int| #[trigger]
                            wanted.dom().contains(at) implies now.dom().contains(at) && now[at] == wanted[at] by {
                        if !within(at, offset as int, output@.len()) {
                            assert(before.dom().contains(at));
                        }
                        assert(mid.dom().contains(at));
                    }
                }
            }
        }
    }
}

/// Rows of colours, `width` in each, laid on an image with the first at a place.
pub struct Patch {
    pub x: int,
    pub y: int,
    pub width: nat,
    pub colors: Seq<Color>,
}

impl Patch {
    /// The column that a colour falls on.
    pub open spec fn column(self, index: int) -> int {
        self.x + index % (self.width as int)
    }

    /// The row that a colour falls on.
    pub open spec fn row(self, index: int) -> int {
        self.y + index / (self.width as int)
    }
}

impl GuestImage {
    /// `content` after the first `count` colours were put on their pixels, as
    /// far as there are such pixels.
    pub open spec fn patched(&self, content: Bytes, patch: Patch, count: nat) -> Bytes
        decreases count,
    {
        if count == 0 {
            content
        } else {
            let index = count - 1;
            let before = self.patched(content, patch, index as nat);
            if self.has_pixel(patch.column(index), patch.row(index)) {
                self.with_word(
                    before,
                    patch.column(index),
                    patch.row(index),
                    color_word(patch.colors[index], self.depth() as nat),
                )
            } else {
                before
            }
        }
    }

    proof fn lemma_patched_skips(&self, content: Bytes, patch: Patch, from: nat, to: nat)
        requires
            from <= to,
            forall|k: int|
                from <= k < to ==> !self.has_pixel(#[trigger] patch.column(k), patch.row(k)),
        ensures
            self.patched(content, patch, to) == self.patched(content, patch, from),
        decreases to,
    {
        if from < to {
            assert(!self.has_pixel(patch.column(to - 1), patch.row(to - 1)));
            self.lemma_patched_skips(content, patch, from, (to - 1) as nat);
        }
    }

    /// Puts rows of colours, `width` in each, with the first at a place.
    /// Colours that fall outside the image are left out.
    pub fn put_pixels<C: WIPICContext>(
        &mut self,
        guest: &mut Guest<C>,
        x: i32,
        y: i32,
        width: u32,
        colors: &[Color],
    )
        requires
            old(self).valid(old(guest)),
        ensures
            final(self).valid(final(guest)),
            final(self).same_frame(old(self)),
            final(guest).initial() == old(guest).initial(),
            calls_within(
                old(guest).calls(),
                final(guest).calls(),
                old(self).address() as int,
                old(self).size() as nat,
            ),
            is_caused(
                old(self).error(),
                final(self).error(),
                old(guest).calls(),
                final(guest).calls(),
            ),
            width == 0 || old(self).error() is Some ==> {
                &&& *final(self) == *old(self)
                &&& final(guest).calls() == old(guest).calls()
            },
            width > 0 && final(self).error() is None && final(guest).consistent() ==> keeps(
                old(self).patched(
                    old(self).content(old(guest)),
                    Patch { x: x as int, y: y as int, width: width as nat, colors: colors@ },
                    colors@.len(),
                ),
                final(self).content(final(guest)),
            ),
    {
        let ghost calls = guest.calls();
        let ghost before = self.content(guest);
        let ghost patch = Patch {
            x: x as int,
            y: y as int,
            width: width as nat,
            colors: colors@,
        };
        let ghost frame = *self;
        proof {
            lemma_calls_within_none(calls, self.address() as int, self.size() as nat);
        }
        if width == 0 {
            return;
        }
        let mut start: usize = 0;
        let mut row: i64 = 0;
        assert(0 * width == 0) by (nonlinear_arith);
        while start < colors.len()
            invariant_except_break
                start < colors@.len() ==> start == row * width,
            invariant
                0 <= row <= 0x1_0000_0000,
                start <= colors.len(),
                0 < width,
                frame == *old(self),
                before == old(self).content(old(guest)),
                calls == old(guest).calls(),
                guest.initial() == old(guest).initial(),
                patch == (Patch { x: x as int, y: y as int, width: width as nat, colors: colors@ }),
                self.valid(guest),
                self.same_frame(&frame),
                calls_within(calls, guest.calls(), self.address() as int, self.size() as nat),
                is_caused(frame.error(), self.error(), calls, guest.calls()),
                frame.error() is Some ==> *self == frame && guest.calls() == calls,
                self.error() is None && guest.consistent() ==> keeps(
                    frame.patched(before, patch, start as nat),
                    self.content(guest),
                ),
            ensures
                self.error() is None && guest.consistent() ==> keeps(
                    frame.patched(before, patch, colors@.len()),
                    self.content(guest),
                ),
            decreases colors@.len() - start,
        {
            let rest: usize = colors.len() - start;
            let len: usize = if rest < width as usize {
                rest
            } else {
                width as usize
            };
            let py: i64 = y as i64 + row;
            proof {
                assert forall|k: int| start <= k < start + len implies #[trigger] patch.column(k)
                    == x + (k - start) && patch.row(k) == py by {
                    vstd::arithmetic::div_mod::lemma_fundamental_div_mod_converse(
                        k,
                        width as int,
                        row as int,
                        k - start,
                    );
                }
            }
            if py >= self.height as i64 {
                proof {
                    assert forall|k: int| start <= k < colors@.len() implies !frame.has_pixel(
                        #[trigger] patch.column(k),
                        patch.row(k),
                    ) by {
                        assert(k / (width as int) >= row) by (nonlinear_arith)
                            requires
                                k >= row * width,
                                width > 0,
                        ;
                    }
                    frame.lemma_patched_skips(before, patch, start as nat, colors@.len());
                }
                break;
            }
            let mut low: usize = 0;
            let mut high: usize = 0;
            if py >= 0 {
                let left: i64 = -(x as i64);
                let right: i64 = self.width as i64 - x as i64;
                low =
                if left <= 0 {
                    0
                } else if left as u64 >= len as u64 {
                    len
                } else {
                    left as usize
                };
                high =
                if right <= 0 {
                    0
                } else if right as u64 >= len as u64 {
                    len
                } else {
                    right as usize
                };
                if high < low {
                    high = low;
                }
            }
            let mut k: usize = low;
            proof {
                assert forall|i: int| start <= i < start + low implies !frame.has_pixel(
                    #[trigger] patch.column(i),
                    patch.row(i),
                ) by {}
                frame.lemma_patched_skips(before, patch, start as nat, (start + low) as nat);
            }
            while k < high
                invariant
                    low <= k <= high <= len,
                    start + len <= colors.len(),
                    py < self.height,
                    k < high ==> 0 <= x + k && 0 <= py,
                    k < high ==> x + high <= frame.columns(),
                    x + k <= i32::MAX || k == high,
                    frame == *old(self),
                    before == old(self).content(old(guest)),
                    calls == old(guest).calls(),
                    guest.initial() == old(guest).initial(),
                    patch.colors == colors@,
                    frame.columns() <= i32::MAX,
                    frame.rows() <= i32::MAX,
                    forall|i: int| start <= i < start + len ==> #[trigger] patch.column(i) == x + (i
                        - start) && patch.row(i) == py,
                    self.valid(guest),
                    self.same_frame(&frame),
                    calls_within(calls, guest.calls(), self.address() as int, self.size() as nat),
                    is_caused(frame.error(), self.error(), calls, guest.calls()),
                    frame.error() is Some ==> *self == frame && guest.calls() == calls,
                    self.error() is None && guest.consistent() ==> keeps(
                        frame.patched(before, patch, (start + k) as nat),
                        self.content(guest),
                    ),
                decreases high - k,
            {
                let ghost calls_before = guest.calls();
                let ghost was = self.content(guest);
                let color = colors[start + k];
                let ghost shown = *self;
                self.put_pixel(guest, (x as i64 + k as i64) as i32, py as i32, color);
                proof {
                    lemma_calls_within_trans(
                        calls,
                        calls_before,
                        guest.calls(),
                        self.address() as int,
                        self.size() as nat,
                    );
                    let index = start + k;
                    assert(start <= index < start + len);
                    assert(patch.column(index) == x + k);
                    assert(patch.row(index) == py);
                    if self.error() is None && guest.consistent() {
                        lemma_consistent_before(guest.initial(), calls_before, guest.calls());
                        let wanted = frame.patched(before, patch, (start + k + 1) as nat);
                        let prior = frame.patched(before, patch, (start + k) as nat);
                        let word = color_word(color, frame.depth() as nat);
                        let mid = shown.with_word(was, x + k, py as int, word);
                        assert(wanted == frame.with_word(prior, x + k, py as int, word));
                        assert forall|at: int| #[trigger] wanted.dom().contains(at) implies self.content(
                        guest).dom().contains(at) && self.content(guest)[at] == wanted[at] by {
                            assert(prior.dom().contains(at) ==> was.dom().contains(at));
                            assert(mid.dom().contains(at));
                        }
                    }
                }
                k += 1;
            }
            proof {
                assert forall|i: int| start + high <= i < start + len implies !frame.has_pixel(
                    #[trigger] patch.column(i),
                    patch.row(i),
                ) by {}
                frame.lemma_patched_skips(
                    before,
                    patch,
                    (start + high) as nat,
                    (start + len) as nat,
                );
                assert((row + 1) * width == row * width + width) by (nonlinear_arith);
            }
            start += len;
            row += 1;
        }
    }
}

impl GuestImage {
    /// Whether the first `count` rows are known to hold `raw`.
    pub open spec fn holds_rows(&self, content: Bytes, raw: Seq<u8>, count: int) -> bool {
        forall|y: int|
            0 <= y < count ==> holds(
                content,
                y * self.pitch(),
                #[trigger] row_of(raw, (self.columns() * self.depth()) as nat, y),
            )
    }

    /// Whether `raw` is what the rows give once a read broke off: rows that are
    /// known, one that was cut, and then zeros.
    pub open spec fn is_cut_raw(&self, content: Bytes, consistent: bool, raw: Seq<u8>) -> bool {
        let width = (self.columns() * self.depth()) as nat;
        exists|row: int|
            {
                &&& 0 <= row
                &&& (row + 1) * width <= raw.len()
                &&& consistent ==> self.holds_rows(content, raw, row)
                &&& is_cut(
                    content,
                    consistent,
                    row * self.pitch(),
                    #[trigger] row_of(raw, width, row),
                )
                &&& forall|i: int| (row + 1) * width <= i < raw.len() ==> #[trigger] raw[i] == 0
            }
    }

    /// The bytes of all rows, without padding. Once the context has failed, the
    /// bytes that were not read are zero.
    pub fn raw<C: WIPICContext>(&mut self, guest: &mut Guest<C>) -> (bytes: Vec<u8>)
        requires
            old(self).valid(old(guest)),
        ensures
            final(self).valid(final(guest)),
            final(self).same_frame(old(self)),
            final(guest).initial() == old(guest).initial(),
            calls_within(
                old(guest).calls(),
                final(guest).calls(),
                old(self).address() as int,
                old(self).size() as nat,
            ),
            is_caused(
                old(self).error(),
                final(self).error(),
                old(guest).calls(),
                final(guest).calls(),
            ),
            bytes@.len() == (old(self).columns() * old(self).depth()) * old(self).rows(),
            old(self).error() is None && final(self).error() is None && final(guest).consistent()
                ==> {
                &&& keeps(old(self).content(old(guest)), final(self).content(final(guest)))
                &&& final(self).holds_rows(
                    final(self).content(final(guest)),
                    bytes@,
                    old(self).rows() as int,
                )
            },
            old(self).error() is None && final(self).error() is Some ==> {
                &&& final(guest).consistent() ==> keeps(
                    old(self).content(old(guest)),
                    final(self).content(final(guest)),
                )
                &&& final(self).is_cut_raw(
                    final(self).content(final(guest)),
                    final(guest).consistent(),
                    bytes@,
                )
            },
            old(self).error() is Some ==> {
                &&& *final(self) == *old(self)
                &&& final(guest).calls() == old(guest).calls()
                &&& forall|i: int| 0 <= i < bytes@.len() ==> #[trigger] bytes@[i] == 0
            },
    {
        let ghost calls = guest.calls();
        let ghost before = self.content(guest);
        let ghost frame = *self;
        let mut bytes: Vec<u8> = Vec::new();
        proof {
            lemma_calls_within_none(calls, self.address() as int, self.size() as nat);
            self.lemma_rows_fit();
        }
        let row_bytes: usize = self.width as usize * self.bpp;
        let ghost width = row_bytes as nat;
        let mut y: usize = 0;
        assert(0 * width == 0) by (nonlinear_arith);
        while y < self.height as usize
            invariant
                y <= self.height,
                frame == *old(self),
                before == old(self).content(old(guest)),
                calls == old(guest).calls(),
                guest.initial() == old(guest).initial(),
                width == row_bytes,
                row_bytes == frame.columns() * frame.depth(),
                row_bytes <= frame.pitch(),
                self.valid(guest),
                self.same_frame(&frame),
                calls_within(calls, guest.calls(), self.address() as int, self.size() as nat),
                is_caused(frame.error(), self.error(), calls, guest.calls()),
                bytes@.len() == y * width,
                frame.error() is Some ==> {
                    &&& *self == frame
                    &&& guest.calls() == calls
                    &&& forall|i: int| 0 <= i < bytes@.len() ==> #[trigger] bytes@[i] == 0
                },
                frame.error() is None && guest.consistent() ==> keeps(before, self.content(guest)),
                self.error() is None && guest.consistent() ==> self.holds_rows(
                    self.content(guest),
                    bytes@,
                    y as int,
                ),
                frame.error() is None && self.error() is Some ==> self.is_cut_raw(
                    self.content(guest),
                    guest.consistent(),
                    bytes@,
                ),
            decreases self.height - y,
        {
            let ghost calls_before = guest.calls();
            let ghost was = self.content(guest);
            let ghost first = bytes@;
            let ghost shown = *self;
            assert(0 <= y * self.stride && y * self.stride + self.stride <= self.stride
                * self.height) by (nonlinear_arith)
                requires
                    y < self.height,
                    0 <= self.stride,
                    0 <= y,
            ;
            assert((y + 1) * width == y * width + width) by (nonlinear_arith);
            let mut row = self.pixels.read(guest, y * self.stride, row_bytes);
            let ghost read = row@;
            bytes.append(&mut row);
            proof {
                lemma_calls_within_trans(
                    calls,
                    calls_before,
                    guest.calls(),
                    self.address() as int,
                    self.size() as nat,
                );
                let now = self.content(guest);
                assert(width == (self.columns() * self.depth()) as nat);
                assert(bytes@ =~= first + read);
                if frame.error() is None && guest.consistent() {
                    lemma_consistent_before(guest.initial(), calls_before, guest.calls());
                    assert forall|at: int| #[trigger]
                            before.dom().contains(at) implies now.dom().contains(at) && now[at] == before[at] by {
                        assert(was.dom().contains(at));
                    }
                    if shown.error() is None {
                        assert(shown.holds_rows(was, first, y as int));
                        self.lemma_rows_kept(was, now, first, read, y as int);
                    }
                }
                assert(row_of(bytes@, width, y as int) =~= read);
                if shown.error() is None && self.error() is None && guest.consistent() {
                    assert forall|k: int| 0 <= k < y + 1 implies holds(
                        now,
                        k * self.pitch(),
                        #[trigger] row_of(bytes@, width, k),
                    ) by {}
                }
                if frame.error() is None && self.error() is Some {
                    if shown.error() is None {
                        assert(is_cut(
                            now,
                            guest.consistent(),
                            y * self.pitch(),
                            row_of(bytes@, width, y as int),
                        ));
                    } else {
                        let row = choose|row: int|
                            {
                                &&& 0 <= row
                                &&& (row + 1) * width <= first.len()
                                &&& guest.consistent() ==> self.holds_rows(was, first, row)
                                &&& is_cut(
                                    was,
                                    guest.consistent(),
                                    row * self.pitch(),
                                    #[trigger] row_of(first, width, row),
                                )
                                &&& forall|i: int|
                                    (row + 1) * width <= i < first.len() ==> #[trigger] first[i] == 0
                            };
                        assert((row + 1) * width == row * width + width) by (nonlinear_arith);
                        assert(0 <= row * width) by (nonlinear_arith)
                            requires
                                0 <= row,
                                0 <= width,
                        ;
                        assert(row_of(bytes@, width, row) =~= row_of(first, width, row));
                        if guest.consistent() {
                            self.lemma_rows_kept(was, now, first, read, row);
                        }
                        assert(is_cut(
                            now,
                            guest.consistent(),
                            row * self.pitch(),
                            row_of(bytes@, width, row),
                        ));
                    }
                }
            }
            y += 1;
        }
        assert(bytes@.len() == width * frame.rows()) by (nonlinear_arith)
            requires
                bytes@.len() == frame.rows() * width,
        ;
        bytes
    }

    /// Rows that are known stay known behind more bytes.
    proof fn lemma_rows_kept(
        &self,
        was: Bytes,
        now: Bytes,
        first: Seq<u8>,
        more: Seq<u8>,
        count: int,
    )
        requires
            self.holds_rows(was, first, count),
            keeps(was, now),
            count * ((self.columns() * self.depth()) as nat) <= first.len(),
        ensures
            self.holds_rows(now, first + more, count),
    {
        let width = (self.columns() * self.depth()) as nat;
        assert forall|k: int| 0 <= k < count implies holds(
            now,
            k * self.pitch(),
            #[trigger] row_of(first + more, width, k),
        ) by {
            assert(0 <= k * width && k * width + width <= count * width) by (nonlinear_arith)
                requires
                    0 <= k < count,
                    0 <= width,
            ;
            assert(row_of(first + more, width, k) =~= row_of(first, width, k));
            lemma_holds_kept(was, now, k * self.pitch(), row_of(first, width, k));
        }
    }

    proof fn lemma_rows_fit(&self)
        requires
            self.framed(),
        ensures
            0 <= self.width * self.bpp <= self.stride,
            self.width * self.bpp <= usize::MAX,
            0 <= self.width * self.height <= self.size(),
    {
        let width = self.width as int;
        let height = self.height as int;
        let bpp = self.bpp as int;
        let stride = self.stride as int;
        assert(0 <= width * height <= stride * height && 0 <= width * bpp) by (nonlinear_arith)
            requires
                0 <= width,
                0 <= height,
                1 <= bpp,
                width * bpp <= stride,
        ;
    }

    /// The colours of all pixels, row by row. Once the context has failed, those
    /// that were not read are the colour of zero bytes.
    pub fn colors<C: WIPICContext>(&mut self, guest: &mut Guest<C>) -> (colors: Vec<Color>)
        requires
            old(self).valid(old(guest)),
        ensures
            final(self).valid(final(guest)),
            final(self).same_frame(old(self)),
            final(guest).initial() == old(guest).initial(),
            calls_within(
                old(guest).calls(),
                final(guest).calls(),
                old(self).address() as int,
                old(self).size() as nat,
            ),
            is_caused(
                old(self).error(),
                final(self).error(),
                old(guest).calls(),
                final(guest).calls(),
            ),
            colors@.len() == old(self).columns() * old(self).rows(),
            old(self).error() is None && final(self).error() is None && final(guest).consistent()
                ==> {
                &&& keeps(old(self).content(old(guest)), final(self).content(final(guest)))
                &&& forall|x: int, y: int| #[trigger]
                    old(self).has_pixel(x, y) ==> colors@[y * old(self).columns() + x]
                        == final(self).color_at(final(self).content(final(guest)), x, y)
            },
            old(self).error() is None && final(self).error() is Some ==> {
                &&& final(guest).consistent() ==> keeps(
                    old(self).content(old(guest)),
                    final(self).content(final(guest)),
                )
                &&& final(self).are_cut_colors(
                    final(self).content(final(guest)),
                    final(guest).consistent(),
                    colors@,
                )
            },
            old(self).error() is Some ==> {
                &&& *final(self) == *old(self)
                &&& final(guest).calls() == old(guest).calls()
                &&& forall|i: int|
                    0 <= i < colors@.len() ==> #[trigger] colors@[i] == word_color(
                        0,
                        old(self).depth() as nat,
                    )
            },
    {
        let ghost calls = guest.calls();
        let ghost before = self.content(guest);
        let ghost frame = *self;
        let mut colors: Vec<Color> = Vec::new();
        proof {
            lemma_calls_within_none(calls, self.address() as int, self.size() as nat);
        }
        let ghost width = self.width as int;
        let mut y: u32 = 0;
        assert(0 * width == 0) by (nonlinear_arith);
        while y < self.height
            invariant
                y <= self.height,
                frame == *old(self),
                width == frame.columns(),
                before == old(self).content(old(guest)),
                calls == old(guest).calls(),
                guest.initial() == old(guest).initial(),
                self.valid(guest),
                self.same_frame(&frame),
                calls_within(calls, guest.calls(), self.address() as int, self.size() as nat),
                is_caused(frame.error(), self.error(), calls, guest.calls()),
                colors@.len() == y * width,
                frame.error() is Some ==> {
                    &&& *self == frame
                    &&& guest.calls() == calls
                    &&& forall|i: int|
                        0 <= i < colors@.len() ==> #[trigger] colors@[i] == word_color(
                            0,
                            frame.depth() as nat,
                        )
                },
                frame.error() is None && guest.consistent() ==> keeps(before, self.content(guest)),
                self.error() is None && guest.consistent() ==> self.shows(
                    self.content(guest),
                    colors@,
                    y as int,
                    0,
                ),
                frame.error() is None && self.error() is Some ==> self.are_cut_colors(
                    self.content(guest),
                    guest.consistent(),
                    colors@,
                ),
            decreases self.height - y,
        {
            let mut x: u32 = 0;
            while x < self.width
                invariant
                    x <= self.width,
                    y < self.height,
                    frame == *old(self),
                    width == frame.columns(),
                    before == old(self).content(old(guest)),
                    calls == old(guest).calls(),
                    guest.initial() == old(guest).initial(),
                    self.valid(guest),
                    self.same_frame(&frame),
                    calls_within(calls, guest.calls(), self.address() as int, self.size() as nat),
                    is_caused(frame.error(), self.error(), calls, guest.calls()),
                    colors@.len() == y * width + x,
                    frame.error() is Some ==> {
                        &&& *self == frame
                        &&& guest.calls() == calls
                        &&& forall|i: int|
                            0 <= i < colors@.len() ==> #[trigger] colors@[i] == word_color(
                                0,
                                frame.depth() as nat,
                            )
                    },
                    frame.error() is None && guest.consistent() ==> keeps(before, self.content(guest)),
                    self.error() is None && guest.consistent() ==> self.shows(
                        self.content(guest),
                        colors@,
                        y as int,
                        x as int,
                    ),
                    frame.error() is None && self.error() is Some ==> self.are_cut_colors(
                        self.content(guest),
                        guest.consistent(),
                        colors@,
                    ),
                decreases self.width - x,
            {
                let ghost calls_before = guest.calls();
                let ghost was = self.content(guest);
                let ghost first = colors@;
                let ghost shown = *self;
                let color = self.get_pixel(guest, x as i32, y as i32);
                colors.push(color);
                proof {
                    lemma_calls_within_trans(
                        calls,
                        calls_before,
                        guest.calls(),
                        self.address() as int,
                        self.size() as nat,
                    );
                    let now = self.content(guest);
                    if frame.error() is None && guest.consistent() {
                        lemma_consistent_before(guest.initial(), calls_before, guest.calls());
                        assert forall|at: int| #[trigger]
                            before.dom().contains(at) implies now.dom().contains(at) && now[at] == before[at] by {
                            assert(was.dom().contains(at));
                        }
                        if self.error() is None {
                            self.lemma_shows_next(&shown, was, now, first, color, y as int, x as int);
                        }
                    }
                    assert(self.has_pixel(x as int, y as int));
                    if frame.error() is None && self.error() is Some {
                        if shown.error() is None {
                            if guest.consistent() {
                                self.lemma_shows_kept(&shown, was, now, first, color, y as int, x as int);
                            }
                            assert(self.is_cut_from(
                                now,
                                guest.consistent(),
                                colors@,
                                x as int,
                                y as int,
                            ));
                        } else {
                            let (column, row) = choose|column: int, row: int| #[trigger]
                                self.is_cut_from(was, guest.consistent(), first, column, row);
                            if guest.consistent() {
                                self.lemma_shows_kept(&shown, was, now, first, color, row, column);
                            }
                            assert(self.is_cut_from(
                                now,
                                guest.consistent(),
                                colors@,
                                column,
                                row,
                            ));
                        }
                    }
                }
                x += 1;
            }
            proof {
                assert((y + 1) * width == y * width + width) by (nonlinear_arith);
                if self.error() is None && guest.consistent() {
                    let now = self.content(guest);
                    assert forall|i: int, j: int| #[trigger]
                        self.has_pixel(i, j) && j < y + 1 implies self.knows_pixel(now, i, j)
                        && colors@[j * self.columns() + i] == self.color_at(now, i, j) by {
                    }
                }
            }
            y += 1;
        }
        assert(width * frame.rows() == frame.rows() * width) by (nonlinear_arith);
        proof {
            if old(self).error() is None && self.error() is None && guest.consistent() {
                let now = self.content(guest);
                assert forall|x: int, y: int| #[trigger]
                    old(self).has_pixel(x, y) implies colors@[y * old(self).columns() + x]
                    == self.color_at(now, x, y) by {
                    assert(self.has_pixel(x, y));
                }
            }
        }
        colors
    }

    /// Whether `colors` is what the pixels give once a read broke off.
    pub open spec fn are_cut_colors(
        &self,
        content: Bytes,
        consistent: bool,
        colors: Seq<Color>,
    ) -> bool {
        exists|x: int, y: int| #[trigger] self.is_cut_from(content, consistent, colors, x, y)
    }

    /// Whether `colors` is what the pixels give once a read broke off at a pixel:
    /// the colours before it are known, and those behind it are those of zero bytes.
    pub open spec fn is_cut_from(
        &self,
        content: Bytes,
        consistent: bool,
        colors: Seq<Color>,
        x: int,
        y: int,
    ) -> bool {
        let cut = y * self.columns() + x;
        &&& self.has_pixel(x, y)
        &&& cut < colors.len()
        &&& consistent ==> self.shows(content, colors, y, x)
        &&& is_cut_color(
            content,
            consistent,
            self.offset_of(x, y),
            self.depth() as nat,
            colors[cut],
        )
        &&& forall|i: int|
            cut < i < colors.len() ==> #[trigger] colors[i] == word_color(0, self.depth() as nat)
    }

    /// Whether the colours of the rows before `row`, and of the pixels before
    /// `column` in it, are those of known bytes.
    pub open spec fn shows(&self, content: Bytes, colors: Seq<Color>, row: int, column: int) -> bool {
        forall|x: int, y: int| #[trigger]
            self.has_pixel(x, y) && (y < row || y == row && x < column) ==> self.knows_pixel(
                content,
                x,
                y,
            ) && colors[y * self.columns() + x] == self.color_at(content, x, y)
    }

    /// Colours that are known stay known behind one more.
    proof fn lemma_shows_kept(
        &self,
        before: &GuestImage,
        was: Bytes,
        now: Bytes,
        colors: Seq<Color>,
        color: Color,
        row: int,
        column: int,
    )
        requires
            self.same_frame(before),
            before.shows(was, colors, row, column),
            keeps(was, now),
            self.has_pixel(column, row),
            colors.len() >= row * self.columns() + column,
        ensures
            self.shows(now, colors.push(color), row, column),
    {
        let next = colors.push(color);
        assert forall|x: int, y: int| #[trigger]
            self.has_pixel(x, y) && (y < row || y == row && x < column) implies self.knows_pixel(
            now,
            x,
            y,
        ) && next[y * self.columns() + x] == self.color_at(now, x, y) by {
            assert(before.has_pixel(x, y));
            assert(before.knows_pixel(was, x, y));
            let at = self.offset_of(x, y);
            let width = self.columns() as int;
            assert(0 <= y * width + x < row * width + column) by (nonlinear_arith)
                requires
                    0 <= x < width,
                    0 <= y,
                    y < row || y == row && x < column,
                    0 <= column,
            ;
            assert forall|i: int| 0 <= i < self.depth() implies now.dom().contains(
                #[trigger] (self.offset_of(x, y) + i),
            ) && now[at + i] == was[at + i] by {
                assert(was.dom().contains(before.offset_of(x, y) + i));
            }
            assert(bytes_at(was, at, self.depth() as nat) =~= bytes_at(
                now,
                at,
                self.depth() as nat,
            ));
        }
    }

    proof fn lemma_shows_next(
        &self,
        before: &GuestImage,
        was: Bytes,
        now: Bytes,
        colors: Seq<Color>,
        color: Color,
        row: int,
        column: int,
    )
        requires
            self.same_frame(before),
            before.shows(was, colors, row, column),
            keeps(was, now),
            self.has_pixel(column, row),
            self.knows_pixel(now, column, row),
            color == self.color_at(now, column, row),
            colors.len() == row * self.columns() + column,
        ensures
            self.shows(now, colors.push(color), row, column + 1),
    {
        let next = colors.push(color);
        self.lemma_shows_kept(before, was, now, colors, color, row, column);
        assert forall|x: int, y: int| #[trigger]
            self.has_pixel(x, y) && (y < row || y == row && x < column
                + 1) implies self.knows_pixel(now, x, y) && next[y * self.columns() + x]
            == self.color_at(now, x, y) by {}
    }

    /// Stores everything that was drawn, or reports the first failure.
    pub fn finish<C: WIPICContext>(self, guest: &mut Guest<C>) -> (done: Result<(), WieError>)
        requires
            self.valid(old(guest)),
        ensures
            is_flush(&self, old(guest), final(guest), done),
    {
        let mut pixels = self.pixels;
        pixels.finish(guest)
    }
}

/// Whether `done` is what storing an image gives, with the calls that it makes
/// and what they tell: once it succeeds, the memory holds what was drawn.
pub open spec fn is_flush<C: WIPICContext>(
    image: &GuestImage,
    before: &Guest<C>,
    after: &Guest<C>,
    done: Result<(), WieError>,
) -> bool {
    &&& after.initial() == before.initial()
    &&& calls_within(
        before.calls(),
        after.calls(),
        image.address() as int,
        image.size() as nat,
    )
    &&& image.error() is Some ==> done is Err && done->Err_0@ == image.error()->0 && after.calls()
        == before.calls()
    &&& image.error() is None ==> after.calls().len() <= before.calls().len() + 1
    &&& image.error() is None && after.calls() == before.calls() ==> done is Ok
    &&& image.error() is None && after.calls().len() > before.calls().len() ==> (
    after.calls().last() matches Call::Write { done: answer, .. } && answer == result_view(done))
    &&& done is Ok && after.consistent() ==> forall|offset: int| #[trigger]
        image.content(before).dom().contains(offset) ==> byte_at(
            after.known(),
            image.address() + offset,
        ) == Some(image.content(before)[offset])
}

/// A framebuffer that is being drawn to.
pub struct FramebufferCanvas {
    pub image: GuestImage,
}

impl FrameBuffer {
    /// A canvas over the framebuffer.
    pub fn canvas<C: WIPICContext>(&self, guest: &mut Guest<C>) -> (canvas: Result<
        FramebufferCanvas,
        WieError,
    >)
        ensures
            is_opening(canvas, self, old(guest), final(guest)),
    {
        FramebufferCanvas::new(self, guest)
    }
}

/// Whether `canvas` is what opening a canvas gives, with the call that it makes:
/// a shape that cannot be used is refused before the context is asked.
pub open spec fn is_opening<C: WIPICContext>(
    canvas: Result<FramebufferCanvas, WieError>,
    framebuffer: &FrameBuffer,
    before: &Guest<C>,
    after: &Guest<C>,
) -> bool {
    &&& after.initial() == before.initial()
    &&& after.known() == before.known()
    &&& after.consistent() == before.consistent()
    &&& match shape_error(framebuffer.0) {
        Some(error) => {
            &&& canvas is Err
            &&& canvas->Err_0@ == error
            &&& after.calls() == before.calls()
        },
        None => exists|located: Result<u32, ErrorView>|
            {
                &&& #[trigger] is_location(
                    before.calls(),
                    after.calls(),
                    framebuffer.0.buf,
                    located,
                )
                &&& is_canvas(canvas, framebuffer, after, located)
            },
    }
}

impl FramebufferCanvas {
    /// A canvas over a framebuffer.
    pub fn new<C: WIPICContext>(framebuffer: &FrameBuffer, guest: &mut Guest<C>) -> (canvas: Result<
        FramebufferCanvas,
        WieError,
    >)
        ensures
            is_opening(canvas, framebuffer, old(guest), final(guest)),
    {
        let layout = match framebuffer.layout(guest) {
            Ok(layout) => layout,
            Err(error) => return Err(error),
        };
        proof {
            lemma_plain_row(framebuffer.0);
        }
        let canvas = FramebufferCanvas {
            image: GuestImage {
                width: framebuffer.0.width,
                height: framebuffer.0.height,
                stride: framebuffer.0.bpl as usize,
                bpp: (framebuffer.0.bpp / 8) as usize,
                pixels: Pixels::new(layout.address, layout.size as usize, guest),
            },
        };
        Ok(canvas)
    }

    /// Stores everything that was drawn, or reports the first failure.
    pub fn flush<C: WIPICContext>(self, guest: &mut Guest<C>) -> (done: Result<(), WieError>)
        requires
            self.image.valid(old(guest)),
        ensures
            is_flush(&self.image, old(guest), final(guest), done),
    {
        self.image.finish(guest)
    }
}

/// Whether `canvas` is a canvas over a framebuffer at the place that was found.
pub open spec fn is_canvas<C: WIPICContext>(
    canvas: Result<FramebufferCanvas, WieError>,
    framebuffer: &FrameBuffer,
    guest: &Guest<C>,
    located: Result<u32, ErrorView>,
) -> bool {
    match located {
        Err(error) => canvas is Err && canvas->Err_0@ == error,
        Ok(address) => match placed(framebuffer.0, address) {
            Err(error) => canvas is Err && canvas->Err_0@ == error,
            Ok(layout) => {
                &&& canvas is Ok
                &&& canvas->Ok_0.image.valid(guest)
                &&& canvas->Ok_0.image.error() is None
                &&& canvas->Ok_0.image.columns() == framebuffer.0.width
                &&& canvas->Ok_0.image.rows() == framebuffer.0.height
                &&& canvas->Ok_0.image.pitch() == framebuffer.0.bpl
                &&& canvas->Ok_0.image.depth() == framebuffer.0.bpp / 8
                &&& canvas->Ok_0.image.address() == layout.address
                &&& canvas->Ok_0.image.size() == layout.size
                &&& canvas->Ok_0.image.content(guest) == window(
                    guest.known(),
                    layout.address as int,
                    layout.size as nat,
                )
            },
        },
    }
}

/// A pixel that was given a colour shows that colour, as far as its bytes hold
/// it: with four bytes it is the same colour.
pub proof fn law_put_pixel_shows(
    image: &GuestImage,
    before: Bytes,
    after: Bytes,
    x: int,
    y: int,
    color: Color,
)
    requires
        image.framed(),
        keeps(
            image.with_word(before, x, y, color_word(color, image.depth() as nat)),
            after,
        ),
    ensures
        image.knows_pixel(after, x, y),
        image.color_at(after, x, y) == word_color(
            color_word(color, image.depth() as nat),
            image.depth() as nat,
        ),
        image.depth() == 4 ==> image.color_at(after, x, y) == color,
{
    let bpp = image.depth() as nat;
    let word = color_word(color, bpp);
    let bytes = le_bytes(word, bpp);
    let at = image.offset_of(x, y);
    let put = image.with_word(before, x, y, word);
    law_le_round_trip(word, bpp);
    law_argb_color_round_trip(color);
    assert forall|i: int| 0 <= i < bpp implies after.dom().contains(
        #[trigger] (image.offset_of(x, y) + i),
    ) && after[at + i] == bytes[i] by {
        assert(put.dom().contains(at + i));
    }
    assert(bytes_at(after, at, bpp) =~= bytes);
}

/// What was drawn reaches the guest's memory: once a canvas is stored, a pixel
/// that was put has its new bytes, and every other byte that was known of the
/// framebuffer, padding included, is as it was.
pub proof fn law_drawing_reaches_memory<C: WIPICContext>(
    image: &GuestImage,
    content: Bytes,
    drawn: &GuestImage,
    guest: &Guest<C>,
    after: &Guest<C>,
    done: Result<(), WieError>,
    x: int,
    y: int,
    word: nat,
    at: int,
)
    requires
        drawn.same_frame(image),
        keeps(image.with_word(content, x, y, word), drawn.content(guest)),
        is_flush(drawn, guest, after, done),
        done is Ok,
        after.consistent(),
        within(at, image.offset_of(x, y), le_bytes(word, image.depth() as nat).len())
            || content.dom().contains(at),
    ensures
        byte_at(after.known(), image.address() + at) == Some(
            if within(at, image.offset_of(x, y), le_bytes(word, image.depth() as nat).len()) {
                le_bytes(word, image.depth() as nat)[at - image.offset_of(x, y)]
            } else {
                content[at]
            },
        ),
{
    assert(image.with_word(content, x, y, word).dom().contains(at));
    assert(drawn.content(guest).dom().contains(at));
}

/// The bytes of different pixels are different bytes, so putting one pixel
/// keeps all others.
pub proof fn law_pixels_are_separate(image: &GuestImage, x: int, y: int, u: int, v: int, at: int)
    requires
        image.framed(),
        image.has_pixel(x, y),
        image.has_pixel(u, v),
        within(at, image.offset_of(x, y), image.depth() as nat),
        within(at, image.offset_of(u, v), image.depth() as nat),
    ensures
        x == u && y == v,
{
    let stride = image.stride as int;
    let bpp = image.bpp as int;
    image.lemma_pixel_fits(x, y);
    image.lemma_pixel_fits(u, v);
    assert(y == v) by (nonlinear_arith)
        requires
            0 <= stride,
            y * stride <= at < y * stride + stride,
            v * stride <= at < v * stride + stride,
    ;
    assert(x == u) by (nonlinear_arith)
        requires
            0 < bpp,
            y == v,
            y * stride + x * bpp <= at < y * stride + x * bpp + bpp,
            v * stride + u * bpp <= at < v * stride + u * bpp + bpp,
    ;
}

/// Whether the bytes of a pixel may stand for `word`: those that are known agree
/// with it.
pub open spec fn is_word_at(content: Bytes, offset: int, bpp: nat, word: nat) -> bool {
    exists|bytes: Seq<u8>| #[trigger]
        admits(content, offset, bytes) && bytes.len() == bpp && le_value(bytes)
            == word
}

proof fn lemma_zero_value(bytes: Seq<u8>)
    requires
        forall|i: int| 0 <= i < bytes.len() ==> #[trigger] bytes[i] == 0,
    ensures
        le_value(bytes) == 0,
    decreases bytes.len(),
{
    if bytes.len() > 0 {
        let rest = bytes.drop_first();
        assert forall|i: int| 0 <= i < rest.len() implies #[trigger] rest[i] == 0 by {
            assert(rest[i] == bytes[i + 1]);
        }
        lemma_zero_value(rest);
    }
}

/// A pixel shows the colour that it was given: with four bytes the very same, with two
/// bytes an opaque one with the high bits of each channel.
pub proof fn law_pixels_show_the_colors_they_are_given(color: Color)
    ensures
        word_color(color_word(color, 4), 4) == color,
        ({
            let shown = word_color(color_word(color, 2), 2);
            &&& shown.a == 255
            &&& shown.r as int / 8 == color.r as int / 8
            &&& shown.g as int / 4 == color.g as int / 4
            &&& shown.b as int / 8 == color.b as int / 8
        }),
        color_word(color, 2) < 0x1_0000,
        color_word(color, 4) < 0x1_0000_0000,
{
    law_argb_color_round_trip(color);
    law_rgb565_keeps_the_high_bits(color);
}

/// Drawing a colour over a pixel twice in exclusive-or mode restores it, drawing over
/// zero shows the colour without its opacity, and black changes nothing. A pixel of four
/// bytes keeps its opacity.
pub proof fn law_mixing_turns_bits(short: u16, word: u32, color: Color)
    ensures
        mixed_word(mixed_word(short as nat, color, 2), color, 2) == short,
        mixed_word(mixed_word(word as nat, color, 4), color, 4) == word,
        mixed_word(0, color, 2) == color_word(color, 2),
        mixed_word(0, color, 4) == color_word(Color { a: 0, ..color }, 4),
        word_color(mixed_word(word as nat, color, 4), 4).a == word_color(word as nat, 4).a,
        color.r == 0 && color.g == 0 && color.b == 0 ==> mixed_word(short as nat, color, 2) == short
            && mixed_word(word as nat, color, 4) == word,
{
    law_xor_twice_restores(short, word, color);
    law_xor_turns_the_bits_of_the_color(short, word, color);
}

/// A pixel's bytes stand in its row, one behind the other from the left, and the rows one
/// pitch apart from the top.
pub proof fn law_pixels_stand_in_their_rows(image: &GuestImage, x: int, y: int)
    ensures
        image.offset_of(0, 0) == 0,
        image.offset_of(x + 1, y) == image.offset_of(x, y) + image.depth(),
        image.offset_of(x, y + 1) == image.offset_of(x, y) + image.pitch(),
{
    let pitch = image.pitch() as int;
    let depth = image.depth() as int;
    assert((y + 1) * pitch == y * pitch + pitch) by (nonlinear_arith);
    assert((x + 1) * depth == x * depth + depth) by (nonlinear_arith);
    assert(0 * pitch == 0 && 0 * depth == 0) by (nonlinear_arith);
}

/// A pixel that was given a colour shows it: looked at again it has that very colour with
/// four bytes, and its high bits with two.
pub proof fn law_drawn_pixels_are_seen<C: WIPICContext>(
    image: &mut GuestImage,
    guest: &mut Guest<C>,
    x: i32,
    y: i32,
    color: Color,
    next: &mut GuestImage,
    next_guest: &mut Guest<C>,
    seen: Color,
)
    requires
        old(image).valid(old(guest)),
        call_ensures(GuestImage::put_pixel::<C>, (image, guest, x, y, color), ()),
        *old(next) == *final(image),
        *old(next_guest) == *final(guest),
        call_ensures(GuestImage::get_pixel::<C>, (next, next_guest, x, y), seen),
        final(next).error() is None,
        final(next_guest).consistent(),
    ensures
        0 <= x < old(image).columns() && 0 <= y < old(image).rows() ==> {
            &&& old(image).depth() == 4 ==> seen == color
            &&& old(image).depth() == 2 ==> seen.a == 255 && seen.r as int / 8 == color.r as int / 8
                && seen.g as int / 4 == color.g as int / 4 && seen.b as int / 8 == color.b as int
                / 8
        },
{
    if 0 <= x < old(image).columns() && 0 <= y < old(image).rows() {
        lemma_consistent_before(
            final(next_guest).initial(),
            final(guest).calls(),
            final(next_guest).calls(),
        );
        let word = color_word(color, old(image).depth() as nat);
        let put = old(image).with_word(old(image).content(old(guest)), x as int, y as int, word);
        let mid = final(image).content(final(guest));
        let end = final(next).content(final(next_guest));
        assert forall|at: int| #[trigger] put.dom().contains(at) implies end.dom().contains(at)
            && end[at] == put[at] by {
            assert(mid.dom().contains(at));
        }
        law_put_pixel_shows(
            old(image),
            old(image).content(old(guest)),
            end,
            x as int,
            y as int,
            color,
        );
        law_pixels_show_the_colors_they_are_given(color);
    }
}

/// Giving one pixel a colour, or drawing over it, leaves every other pixel as it was, and
/// every byte that belongs to no pixel.
pub proof fn law_other_pixels_stay<C: WIPICContext>(
    image: &mut GuestImage,
    guest: &mut Guest<C>,
    x: i32,
    y: i32,
    color: Color,
    u: int,
    v: int,
)
    requires
        old(image).valid(old(guest)),
        call_ensures(GuestImage::put_pixel::<C>, (image, guest, x, y, color), ()) || call_ensures(
            GuestImage::xor_pixel::<C>,
            (image, guest, x, y, color),
            (),
        ),
        final(image).error() is None,
        final(guest).consistent(),
        old(image).has_pixel(u, v),
        u != x || v != y,
        old(image).knows_pixel(old(image).content(old(guest)), u, v),
    ensures
        final(image).knows_pixel(final(image).content(final(guest)), u, v),
        final(image).color_at(final(image).content(final(guest)), u, v) == old(image).color_at(
            old(image).content(old(guest)),
            u,
            v,
        ),
{
    let before = old(image).content(old(guest));
    let after = final(image).content(final(guest));
    let depth = old(image).depth() as nat;
    let start = old(image).offset_of(u, v);
    let here = old(image).offset_of(x as int, y as int);
    assert(final(image).offset_of(u, v) == start);
    assert forall|i: int| 0 <= i < depth implies after.dom().contains(#[trigger] (start + i))
        && after[start + i] == before[start + i] by {
        assert(before.dom().contains(old(image).offset_of(u, v) + i));
        if old(image).has_pixel(x as int, y as int) {
            if within(start + i, here, depth) {
                law_pixels_are_separate(old(image), x as int, y as int, u, v, start + i);
            }
            if call_ensures(GuestImage::put_pixel::<C>, (image, guest, x, y, color), ()) {
                let word = color_word(color, depth);
                law_le_round_trip(word, depth);
                let put = old(image).with_word(before, x as int, y as int, word);
                assert(put.dom().contains(start + i));
            } else {
                let word = choose|word: nat|
                    {
                        &&& #[trigger] is_word_at(before, here, depth, word)
                        &&& keeps(
                            old(image).with_word(
                                before,
                                x as int,
                                y as int,
                                mixed_word(word, color, depth),
                            ),
                            after,
                        )
                    };
                law_le_round_trip(mixed_word(word, color, depth), depth);
                let put = old(image).with_word(
                    before,
                    x as int,
                    y as int,
                    mixed_word(word, color, depth),
                );
                assert(put.dom().contains(start + i));
            }
        }
    }
    assert forall|i: int| 0 <= i < final(image).depth() implies after.dom().contains(
        #[trigger] (final(image).offset_of(u, v) + i),
    ) by {
        assert(after.dom().contains(start + i));
    }
    assert(bytes_at(after, start, depth) =~= bytes_at(before, start, depth));
}

/// Rows of colours are put as they are: each colour that falls on a pixel of the image shows
/// there, `width` of them in a row.
pub proof fn law_rows_of_colors_are_seen<C: WIPICContext>(
    image: &mut GuestImage,
    guest: &mut Guest<C>,
    x: i32,
    y: i32,
    width: u32,
    colors: &[Color],
    column: int,
    row: int,
)
    requires
        old(image).valid(old(guest)),
        call_ensures(GuestImage::put_pixels::<C>, (image, guest, x, y, width, colors), ()),
        final(image).error() is None,
        final(guest).consistent(),
        0 <= column < width,
        0 <= row,
        row * width + column < colors@.len(),
        0 <= x + column < old(image).columns(),
        0 <= y + row < old(image).rows(),
    ensures
        ({
            let color = colors@[row * width + column];
            let seen = final(image).color_at(
                final(image).content(final(guest)),
                x + column,
                y + row,
            );
            &&& final(image).knows_pixel(final(image).content(final(guest)), x + column, y + row)
            &&& old(image).depth() == 4 ==> seen == color
            &&& old(image).depth() == 2 ==> seen.a == 255 && seen.r as int / 8 == color.r as int / 8
                && seen.g as int / 4 == color.g as int / 4 && seen.b as int / 8 == color.b as int
                / 8
        }),
{
    let k = row * width + column;
    assert(0 <= row * width) by (nonlinear_arith)
        requires
            0 <= row,
            0 <= width,
    ;
    let patch = Patch { x: x as int, y: y as int, width: width as nat, colors: colors@ };
    vstd::arithmetic::div_mod::lemma_fundamental_div_mod_converse(k, width as int, row, column);
    assert(patch.column(k) == x + column && patch.row(k) == y + row);
    let after = final(image).content(final(guest));
    law_laid_colors_show(
        old(image),
        old(image).content(old(guest)),
        after,
        patch,
        k,
    );
    law_pixels_show_the_colors_they_are_given(colors@[k]);
    assert(final(image).offset_of(x + column, y + row) == old(image).offset_of(
        x + column,
        y + row,
    ));
    assert forall|i: int| 0 <= i < final(image).depth() implies after.dom().contains(
        #[trigger] (final(image).offset_of(x + column, y + row) + i),
    ) by {
        assert(after.dom().contains(old(image).offset_of(x + column, y + row) + i));
    }
}

/// What was drawn is in the guest's memory once the canvas was stored without a failure, at
/// the framebuffer's address, and nothing outside the framebuffer was touched.
pub proof fn law_stored_drawings_are_in_memory<C: WIPICContext>(
    canvas: FramebufferCanvas,
    guest: &mut Guest<C>,
    done: Result<(), WieError>,
    offset: int,
    at: int,
)
    requires
        canvas.image.valid(old(guest)),
        call_ensures(FramebufferCanvas::flush::<C>, (canvas, guest), done),
        done is Ok,
        final(guest).consistent(),
    ensures
        canvas.image.error() is None,
        canvas.image.content(old(guest)).dom().contains(offset) ==> byte_at(
            final(guest).known(),
            canvas.image.address() + offset,
        ) == Some(canvas.image.content(old(guest))[offset]),
        !within(at, canvas.image.address() as int, canvas.image.size() as nat) ==> byte_at(
            final(guest).known(),
            at,
        ) == byte_at(old(guest).known(), at),
{
    if !within(at, canvas.image.address() as int, canvas.image.size() as nat) {
        law_calls_within_leave_the_rest(
            final(guest).initial(),
            old(guest).calls(),
            final(guest).calls(),
            canvas.image.address() as int,
            canvas.image.size() as nat,
            at,
        );
    }
}

/// A fresh canvas has the size, the depth and the place of its framebuffer and shows what the
/// guest's memory holds there.
pub proof fn law_fresh_canvases_show_the_memory<C: WIPICContext>(
    framebuffer: &FrameBuffer,
    guest: &mut Guest<C>,
    canvas: Result<FramebufferCanvas, WieError>,
    offset: int,
)
    requires
        call_ensures(FramebufferCanvas::new::<C>, (framebuffer, guest), canvas),
        canvas is Ok,
    ensures
        ({
            let image = canvas->Ok_0.image;
            &&& image.valid(final(guest))
            &&& image.error() is None
            &&& image.columns() == framebuffer.0.width
            &&& image.rows() == framebuffer.0.height
            &&& image.pitch() == framebuffer.0.bpl
            &&& 8 * image.depth() == framebuffer.0.bpp
            &&& image.size() == framebuffer.0.bpl * framebuffer.0.height
            &&& 0 <= offset < image.size() ==> byte_at(image.content(final(guest)), offset)
                == byte_at(final(guest).known(), image.address() + offset)
            &&& final(guest).known() == old(guest).known()
        }),
{
    lemma_plain_row(framebuffer.0);
}

/// Drawing over a pixel in exclusive-or mode turns just the bits of the colour's word: over
/// zero the colour shows, and the pixel's opacity stays.
pub proof fn law_pixels_are_drawn_over<C: WIPICContext>(
    image: &mut GuestImage,
    guest: &mut Guest<C>,
    x: i32,
    y: i32,
    color: Color,
    word: nat,
)
    requires
        old(image).valid(old(guest)),
        call_ensures(GuestImage::xor_pixel::<C>, (image, guest, x, y, color), ()),
        final(image).error() is None,
        final(guest).consistent(),
        old(image).has_pixel(x as int, y as int),
        old(image).knows_pixel(old(image).content(old(guest)), x as int, y as int),
        word == le_value(
            bytes_at(
                old(image).content(old(guest)),
                old(image).offset_of(x as int, y as int),
                old(image).depth() as nat,
            ),
        ),
    ensures
        final(image).knows_pixel(final(image).content(final(guest)), x as int, y as int),
        le_value(
            bytes_at(
                final(image).content(final(guest)),
                old(image).offset_of(x as int, y as int),
                old(image).depth() as nat,
            ),
        ) == mixed_word(word, color, old(image).depth() as nat),
{
    let before = old(image).content(old(guest));
    let after = final(image).content(final(guest));
    let depth = old(image).depth() as nat;
    let here = old(image).offset_of(x as int, y as int);
    let found = choose|found: nat|
        {
            &&& #[trigger] is_word_at(before, here, depth, found)
            &&& keeps(
                old(image).with_word(before, x as int, y as int, mixed_word(found, color, depth)),
                after,
            )
        };
    let bytes = choose|bytes: Seq<u8>| #[trigger]
        admits(before, here, bytes) && bytes.len() == depth && le_value(bytes) == found;
    assert forall|i: int| 0 <= i < depth implies #[trigger] bytes[i] == before[here + i] by {
        assert(before.dom().contains(old(image).offset_of(x as int, y as int) + i));
    }
    assert(bytes =~= bytes_at(before, here, depth));
    let mixed = mixed_word(found, color, depth);
    let put = le_bytes(mixed, depth);
    law_le_round_trip(mixed, depth);
    let wanted = old(image).with_word(before, x as int, y as int, mixed);
    assert forall|i: int| 0 <= i < depth implies after.dom().contains(#[trigger] (here + i))
        && after[here + i] == put[i] by {
        assert(wanted.dom().contains(here + i));
    }
    assert(bytes_at(after, here, depth) =~= put);
    assert forall|i: int| 0 <= i < final(image).depth() implies after.dom().contains(
        #[trigger] (final(image).offset_of(x as int, y as int) + i),
    ) by {
        assert(after.dom().contains(here + i));
    }
}

/// All colours are those of the pixels, row by row from the top and from the left.
pub proof fn law_colors_are_those_of_the_pixels<C: WIPICContext>(
    image: &mut GuestImage,
    guest: &mut Guest<C>,
    colors: Vec<Color>,
    x: int,
    y: int,
)
    requires
        old(image).valid(old(guest)),
        call_ensures(GuestImage::colors::<C>, (image, guest), colors),
        final(image).error() is None,
        final(guest).consistent(),
        0 <= x < old(image).columns(),
        0 <= y < old(image).rows(),
        old(image).knows_pixel(old(image).content(old(guest)), x, y),
    ensures
        colors@.len() == old(image).columns() * old(image).rows(),
        colors@[y * old(image).columns() + x] == old(image).color_at(
            old(image).content(old(guest)),
            x,
            y,
        ),
{
    let before = old(image).content(old(guest));
    let after = final(image).content(final(guest));
    let depth = old(image).depth() as nat;
    let start = old(image).offset_of(x, y);
    assert(old(image).has_pixel(x, y));
    assert forall|i: int| 0 <= i < depth implies after[#[trigger] (start + i)] == before[start
        + i] by {
        assert(before.dom().contains(old(image).offset_of(x, y) + i));
    }
    assert(bytes_at(after, start, depth) =~= bytes_at(before, start, depth));
}

/// The bytes of all rows are those that are known, row by row and without the padding.
pub proof fn law_rows_are_read_without_padding<C: WIPICContext>(
    image: &mut GuestImage,
    guest: &mut Guest<C>,
    raw: Vec<u8>,
    y: int,
    b: int,
)
    requires
        old(image).valid(old(guest)),
        call_ensures(GuestImage::raw::<C>, (image, guest), raw),
        final(image).error() is None,
        final(guest).consistent(),
        0 <= y < old(image).rows(),
        0 <= b < old(image).columns() * old(image).depth(),
    ensures
        raw@.len() == (old(image).columns() * old(image).depth()) * old(image).rows(),
        byte_at(old(image).content(old(guest)), y * old(image).pitch() + b) matches Some(byte)
            ==> raw@[y * (old(image).columns() * old(image).depth()) + b] == byte,
{
    let width = (old(image).columns() * old(image).depth()) as nat;
    let rows = old(image).rows() as int;
    let at = y * old(image).pitch() + b;
    let after = final(image).content(final(guest));
    assert(0 <= y * width && y * width + width <= width * rows) by (nonlinear_arith)
        requires
            0 <= y < rows,
            0 <= width,
    ;
    let row = row_of(raw@, width, y);
    assert(holds(after, y * final(image).pitch(), row));
    assert(row[b] == raw@[y * width + b]);
    if old(image).content(old(guest)).dom().contains(at) {
        assert(after.dom().contains(at));
    }
}

/// An image fails only with a call of the context, and keeps its first failure: where no call
/// failed, every pixel can be looked at and drawn to.
pub proof fn law_images_fail_only_with_their_calls<C: WIPICContext>(
    image: &mut GuestImage,
    guest: &mut Guest<C>,
    x: i32,
    y: i32,
    color: Color,
)
    requires
        old(image).valid(old(guest)),
        call_ensures(GuestImage::get_pixel::<C>, (image, guest, x, y), color) || call_ensures(
            GuestImage::put_pixel::<C>,
            (image, guest, x, y, color),
            (),
        ) || call_ensures(GuestImage::xor_pixel::<C>, (image, guest, x, y, color), ()),
    ensures
        old(image).error() is Some ==> final(image).error() == old(image).error()
            && final(guest).calls() == old(guest).calls(),
        old(image).error() is None && final(image).error() is Some ==> final(guest).calls().len()
            > old(guest).calls().len() && failure(final(guest).calls().last())
            == final(image).error(),
        !old(image).has_pixel(x as int, y as int) ==> *final(image) == *old(image)
            && final(guest).calls() == old(guest).calls(),
        final(image).valid(final(guest)),
        final(image).same_frame(old(image)),
{
}

/// A canvas is opened wherever its framebuffer can be used and located.
pub proof fn law_canvases_fail_only_with_the_context<C: WIPICContext>(
    framebuffer: &FrameBuffer,
    guest: &mut Guest<C>,
    canvas: Result<FramebufferCanvas, WieError>,
    drawn: &mut Guest<C>,
    other: Result<FramebufferCanvas, WieError>,
)
    requires
        call_ensures(FramebufferCanvas::new::<C>, (framebuffer, guest), canvas),
        call_ensures(FrameBuffer::canvas::<C>, (framebuffer, drawn), other),
        shape_error(framebuffer.0) is None,
    ensures
        final(guest).calls().last() matches Call::Locate { located, .. } && match located {
            Ok(address) => canvas is Ok == (address + framebuffer.0.bpl * framebuffer.0.height
                <= 0x1_0000_0000),
            Err(error) => canvas is Err && canvas->Err_0@ == error,
        },
        final(drawn).calls().last() matches Call::Locate { located, .. } && match located {
            Ok(address) => other is Ok == (address + framebuffer.0.bpl * framebuffer.0.height
                <= 0x1_0000_0000),
            Err(error) => other is Err && other->Err_0@ == error,
        },
{
}

} // verus!
