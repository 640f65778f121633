//! Drawing on a framebuffer in guest memory, held against drawing on a plain
//! picture of words.

use crate::error::WieError;
use crate::framebuffer::row_of;
use crate::guest_image::{
    bytes_at, color_word, is_flush, is_word_at, law_pixels_are_separate, mixed_word, word_color,
    GuestImage, Patch,
};
use crate::guest_memory::{admits, byte_at, holds, within, Bytes, Guest, WIPICContext};
use crate::pixel_format::{law_le_round_trip, le_bytes, le_value, Color};
use crate::pixels::{keeps, window};
use vstd::prelude::*;

verus! {

/// A picture: the word of each pixel, by column and row.
pub type Raster = Map<(int, int), nat>;

/// One use of an image.
pub enum Stroke {
    /// A pixel is given a colour.
    Put { x: int, y: int, color: Color },
    /// A colour is drawn over a pixel in exclusive-or mode.
    Mix { x: int, y: int, color: Color },
    /// Rows of colours are put.
    Lay(Patch),
    /// A pixel is looked at, and shows this colour.
    Look { x: int, y: int, color: Color },
}

/// The picture that the bytes of an image show.
pub open spec fn raster_of(image: &GuestImage, content: Bytes) -> Raster {
    Map::new(
        |at: (int, int)| image.has_pixel(at.0, at.1),
        |at: (int, int)|
            le_value(bytes_at(content, image.offset_of(at.0, at.1), image.depth() as nat)),
    )
}

/// A picture with one pixel changed, as far as there is such a pixel.
pub open spec fn dotted(image: &GuestImage, raster: Raster, x: int, y: int, word: nat) -> Raster {
    if image.has_pixel(x, y) {
        raster.insert((x, y), word)
    } else {
        raster
    }
}

/// A picture with the first `count` colours of a patch put on their pixels.
pub open spec fn laid(image: &GuestImage, raster: Raster, patch: Patch, count: nat) -> Raster
    decreases count,
{
    if count == 0 {
        raster
    } else {
        let index = count - 1;
        dotted(
            image,
            laid(image, raster, patch, index as nat),
            patch.column(index),
            patch.row(index),
            color_word(patch.colors[index], image.depth() as nat),
        )
    }
}

/// A picture after a stroke.
pub open spec fn drawn(image: &GuestImage, raster: Raster, stroke: Stroke) -> Raster {
    let depth = image.depth() as nat;
    match stroke {
        Stroke::Put { x, y, color } => dotted(image, raster, x, y, color_word(color, depth)),
        Stroke::Mix { x, y, color } => dotted(
            image,
            raster,
            x,
            y,
            mixed_word(raster[(x, y)], color, depth),
        ),
        Stroke::Lay(patch) => if patch.width == 0 {
            raster
        } else {
            laid(image, raster, patch, patch.colors.len())
        },
        Stroke::Look { .. } => raster,
    }
}

/// A picture after the first `count` strokes.
pub open spec fn drawing(
    image: &GuestImage,
    raster: Raster,
    strokes: Seq<Stroke>,
    count: nat,
) -> Raster
    decreases count,
{
    if count == 0 {
        raster
    } else {
        drawn(
            image,
            drawing(image, raster, strokes, (count - 1) as nat),
            strokes[count - 1],
        )
    }
}

/// Whether a stroke turns the bytes of an image from `before` to `after`, as
/// `put_pixel`, `xor_pixel`, `put_pixels` and `get_pixel` do while the context
/// does not fail.
pub open spec fn is_stroke(
    image: &GuestImage,
    before: Bytes,
    after: Bytes,
    stroke: Stroke,
) -> bool {
    let depth = image.depth() as nat;
    match stroke {
        Stroke::Put { x, y, color } => if image.has_pixel(x, y) {
            keeps(image.with_word(before, x, y, color_word(color, depth)), after)
        } else {
            after == before
        },
        Stroke::Mix { x, y, color } => if image.has_pixel(x, y) {
            exists|word: nat|
                {
                    &&& #[trigger] is_word_at(before, image.offset_of(x, y), depth, word)
                    &&& keeps(
                        image.with_word(before, x, y, mixed_word(word, color, depth)),
                        after,
                    )
                }
        } else {
            after == before
        },
        Stroke::Lay(patch) => if patch.width == 0 {
            after == before
        } else {
            keeps(image.patched(before, patch, patch.colors.len()), after)
        },
        Stroke::Look { x, y, color } => if image.has_pixel(x, y) {
            keeps(before, after) && color == image.color_at(after, x, y)
        } else {
            after == before && color == word_color(0, depth)
        },
    }
}

/// Whether `contents` are the bytes of an image before, between and after
/// `strokes`.
pub open spec fn is_session(
    image: &GuestImage,
    contents: Seq<Bytes>,
    strokes: Seq<Stroke>,
) -> bool {
    &&& contents.len() == strokes.len() + 1
    &&& forall|i: int|
        0 <= i < strokes.len() ==> is_stroke(
            image,
            #[trigger] contents[i],
            contents[i + 1],
            strokes[i],
        )
}

/// Whether a byte of the framebuffer belongs to no pixel.
pub open spec fn is_padding(image: &GuestImage, at: int) -> bool {
    &&& 0 <= at < image.size()
    &&& forall|x: int, y: int| #[trigger]
        image.has_pixel(x, y) ==> !within(at, image.offset_of(x, y), image.depth() as nat)
}

/// Whether the bytes of an image show a picture, with the padding of `initial`.
pub open spec fn depicts(
    image: &GuestImage,
    content: Bytes,
    raster: Raster,
    initial: Bytes,
) -> bool {
    &&& forall|x: int, y: int| #[trigger]
        image.has_pixel(x, y) ==> {
            &&& image.knows_pixel(content, x, y)
            &&& raster[(x, y)] == le_value(
                bytes_at(content, image.offset_of(x, y), image.depth() as nat),
            )
        }
    &&& forall|at: int| #[trigger]
        is_padding(image, at) ==> byte_at(content, at) == byte_at(initial, at)
}

/// What is kept of bytes that show a picture shows it too.
proof fn lemma_depicts_kept(
    image: &GuestImage,
    before: Bytes,
    after: Bytes,
    raster: Raster,
    initial: Bytes,
)
    requires
        depicts(image, before, raster, initial),
        keeps(before, after),
        forall|at: int| #[trigger] is_padding(image, at) ==> initial.dom().contains(at),
    ensures
        depicts(image, after, raster, initial),
{
    let depth = image.depth() as nat;
    assert forall|x: int, y: int| #[trigger] image.has_pixel(x, y) implies image.knows_pixel(
        after,
        x,
        y,
    ) && raster[(x, y)] == le_value(bytes_at(after, image.offset_of(x, y), depth)) by {
        let start = image.offset_of(x, y);
        assert(image.knows_pixel(before, x, y));
        assert forall|i: int| 0 <= i < depth implies after.dom().contains(
            #[trigger] (image.offset_of(x, y) + i),
        ) && after[start + i] == before[start + i] by {
            assert(before.dom().contains(image.offset_of(x, y) + i));
        }
        assert(bytes_at(after, start, depth) =~= bytes_at(before, start, depth));
    }
    assert forall|at: int| #[trigger] is_padding(image, at) implies byte_at(after, at) == byte_at(
        initial,
        at,
    ) by {
        assert(byte_at(before, at) == byte_at(initial, at));
        assert(before.dom().contains(at));
    }
}

/// Giving a pixel a word changes that pixel of the picture and nothing else.
proof fn lemma_depicts_dot(
    image: &GuestImage,
    content: Bytes,
    raster: Raster,
    initial: Bytes,
    x: int,
    y: int,
    word: nat,
)
    requires
        image.framed(),
        depicts(image, content, raster, initial),
        image.has_pixel(x, y),
        image.depth() == 2 ==> word < 0x1_0000,
        word < 0x1_0000_0000,
    ensures
        depicts(
            image,
            image.with_word(content, x, y, word),
            dotted(image, raster, x, y, word),
            initial,
        ),
{
    let depth = image.depth() as nat;
    let after = image.with_word(content, x, y, word);
    let next = dotted(image, raster, x, y, word);
    let bytes = le_bytes(word, depth);
    let here = image.offset_of(x, y);
    law_le_round_trip(word, depth);
    assert forall|u: int, v: int| #[trigger] image.has_pixel(u, v) implies image.knows_pixel(
        after,
        u,
        v,
    ) && next[(u, v)] == le_value(bytes_at(after, image.offset_of(u, v), depth)) by {
        let start = image.offset_of(u, v);
        assert(image.knows_pixel(content, u, v));
        assert forall|i: int| 0 <= i < depth implies after.dom().contains(
            #[trigger] (image.offset_of(u, v) + i),
        ) by {
            assert(content.dom().contains(image.offset_of(u, v) + i));
        }
        if u == x && v == y {
            assert(bytes_at(after, start, depth) =~= bytes);
        } else {
            assert forall|i: int| 0 <= i < depth implies after[#[trigger] (start + i)]
                == content[start + i] by {
                assert(content.dom().contains(image.offset_of(u, v) + i));
                if within(start + i, here, depth) {
                    law_pixels_are_separate(image, x, y, u, v, start + i);
                }
            }
            assert(bytes_at(after, start, depth) =~= bytes_at(content, start, depth));
        }
    }
    assert forall|at: int| #[trigger] is_padding(image, at) implies byte_at(after, at) == byte_at(
        initial,
        at,
    ) by {
        assert(!within(at, here, depth));
        assert(byte_at(content, at) == byte_at(initial, at));
    }
}

/// Putting rows of colours does to the bytes what it does to the picture.
proof fn lemma_depicts_laid(
    image: &GuestImage,
    content: Bytes,
    raster: Raster,
    initial: Bytes,
    patch: Patch,
    count: nat,
)
    requires
        image.framed(),
        depicts(image, content, raster, initial),
    ensures
        depicts(
            image,
            image.patched(content, patch, count),
            laid(image, raster, patch, count),
            initial,
        ),
    decreases count,
{
    if count > 0 {
        let index = count - 1;
        lemma_depicts_laid(image, content, raster, initial, patch, index as nat);
        if image.has_pixel(patch.column(index), patch.row(index)) {
            lemma_depicts_dot(
                image,
                image.patched(content, patch, index as nat),
                laid(image, raster, patch, index as nat),
                initial,
                patch.column(index),
                patch.row(index),
                color_word(patch.colors[index], image.depth() as nat),
            );
        }
    }
}

/// The word that the known bytes of a pixel stand for is its word in the picture.
proof fn lemma_word_is_drawn(
    image: &GuestImage,
    content: Bytes,
    raster: Raster,
    initial: Bytes,
    x: int,
    y: int,
    word: nat,
)
    requires
        depicts(image, content, raster, initial),
        image.has_pixel(x, y),
        is_word_at(content, image.offset_of(x, y), image.depth() as nat, word),
    ensures
        word == raster[(x, y)],
{
    let start = image.offset_of(x, y);
    let depth = image.depth() as nat;
    let bytes = choose|bytes: Seq<u8>| #[trigger]
        admits(content, start, bytes) && bytes.len() == depth && le_value(bytes) == word;
    assert(image.knows_pixel(content, x, y));
    assert forall|i: int| 0 <= i < depth implies #[trigger] bytes[i] == content[start + i] by {
        assert(content.dom().contains(image.offset_of(x, y) + i));
    }
    assert(bytes =~= bytes_at(content, start, depth));
}

/// A stroke does to the bytes what it does to the picture.
proof fn lemma_depicts_stroke(
    image: &GuestImage,
    before: Bytes,
    after: Bytes,
    raster: Raster,
    initial: Bytes,
    stroke: Stroke,
)
    requires
        image.framed(),
        depicts(image, before, raster, initial),
        is_stroke(image, before, after, stroke),
        forall|at: int| #[trigger] is_padding(image, at) ==> initial.dom().contains(at),
    ensures
        depicts(image, after, drawn(image, raster, stroke), initial),
{
    let depth = image.depth() as nat;
    let next = drawn(image, raster, stroke);
    match stroke {
        Stroke::Put { x, y, color } => {
            if image.has_pixel(x, y) {
                let word = color_word(color, depth);
                lemma_depicts_dot(image, before, raster, initial, x, y, word);
                lemma_depicts_kept(
                    image,
                    image.with_word(before, x, y, word),
                    after,
                    next,
                    initial,
                );
            }
        },
        Stroke::Mix { x, y, color } => {
            if image.has_pixel(x, y) {
                let word = choose|word: nat|
                    {
                        &&& #[trigger] is_word_at(before, image.offset_of(x, y), depth, word)
                        &&& keeps(
                            image.with_word(before, x, y, mixed_word(word, color, depth)),
                            after,
                        )
                    };
                lemma_word_is_drawn(image, before, raster, initial, x, y, word);
                let mixed = mixed_word(word, color, depth);
                lemma_depicts_dot(image, before, raster, initial, x, y, mixed);
                lemma_depicts_kept(
                    image,
                    image.with_word(before, x, y, mixed),
                    after,
                    next,
                    initial,
                );
            }
        },
        Stroke::Lay(patch) => {
            if patch.width > 0 {
                lemma_depicts_laid(image, before, raster, initial, patch, patch.colors.len());
                lemma_depicts_kept(
                    image,
                    image.patched(before, patch, patch.colors.len()),
                    after,
                    next,
                    initial,
                );
            }
        },
        Stroke::Look { x, y, .. } => {
            if image.has_pixel(x, y) {
                lemma_depicts_kept(image, before, after, raster, initial);
            }
        },
    }
}

/// Bytes that are all known show their own picture.
proof fn lemma_depicts_itself(image: &GuestImage, content: Bytes)
    requires
        image.framed(),
        forall|at: int| 0 <= at < image.size() ==> #[trigger] content.dom().contains(at),
    ensures
        depicts(image, content, raster_of(image, content), content),
{
    let raster = raster_of(image, content);
    assert forall|x: int, y: int| #[trigger] image.has_pixel(x, y) implies image.knows_pixel(
        content,
        x,
        y,
    ) && raster[(x, y)] == le_value(
        bytes_at(content, image.offset_of(x, y), image.depth() as nat),
    ) by {
        image.lemma_pixel_fits(x, y);
        assert(raster.dom().contains((x, y)));
    }
}

/// Drawing on a framebuffer is drawing on a picture: after any strokes its bytes
/// show the picture with the same strokes drawn on it, its padding is as it was,
/// and every pixel that was looked at on the way showed its colour in the picture.
pub proof fn law_drawing_matches_a_raster(
    image: &GuestImage,
    contents: Seq<Bytes>,
    strokes: Seq<Stroke>,
    count: nat,
)
    requires
        image.framed(),
        is_session(image, contents, strokes),
        count <= strokes.len(),
        forall|at: int| 0 <= at < image.size() ==> #[trigger] contents[0].dom().contains(at),
    ensures
        depicts(
            image,
            contents[count as int],
            drawing(image, raster_of(image, contents[0]), strokes, count),
            contents[0],
        ),
        forall|i: int|
            #![trigger strokes[i]]
            0 <= i < count ==> (strokes[i] matches Stroke::Look { x, y, color } ==> color
                == if image.has_pixel(x, y) {
                word_color(
                    drawing(image, raster_of(image, contents[0]), strokes, i as nat)[(x, y)],
                    image.depth() as nat,
                )
            } else {
                word_color(0, image.depth() as nat)
            }),
    decreases count,
{
    let initial = contents[0];
    let raster = raster_of(image, initial);
    if count == 0 {
        lemma_depicts_itself(image, initial);
    } else {
        let n = count - 1;
        law_drawing_matches_a_raster(image, contents, strokes, n as nat);
        let before = contents[n];
        let after = contents[n + 1];
        assert(is_stroke(image, before, after, strokes[n]));
        lemma_depicts_stroke(
            image,
            before,
            after,
            drawing(image, raster, strokes, n as nat),
            initial,
            strokes[n],
        );
        assert forall|i: int|
            #![trigger strokes[i]]
            0 <= i < count implies (strokes[i] matches Stroke::Look { x, y, color } ==> color
            == if image.has_pixel(x, y) {
            word_color(drawing(image, raster, strokes, i as nat)[(x, y)], image.depth() as nat)
        } else {
            word_color(0, image.depth() as nat)
        }) by {
            if i == n {
                if let Stroke::Look { x, y, color } = strokes[n] {
                    if image.has_pixel(x, y) {
                        assert(depicts(
                            image,
                            after,
                            drawing(image, raster, strokes, count),
                            initial,
                        ));
                    }
                }
            }
        }
    }
}

/// What was drawn on a fresh canvas reaches the guest's memory once it is stored:
/// each pixel then has its word in the picture with the same strokes drawn on it,
/// and every byte of padding is as it was.
pub proof fn law_a_stored_drawing_is_its_raster<C: WIPICContext>(
    image: &GuestImage,
    memory: Bytes,
    contents: Seq<Bytes>,
    strokes: Seq<Stroke>,
    end: &GuestImage,
    guest: &Guest<C>,
    after: &Guest<C>,
    done: Result<(), WieError>,
)
    requires
        image.framed(),
        is_session(image, contents, strokes),
        contents[0] == window(memory, image.address() as int, image.size() as nat),
        forall|at: int|
            image.address() <= at < image.address() + image.size()
                ==> #[trigger] memory.dom().contains(at),
        end.same_frame(image),
        end.content(guest) == contents.last(),
        is_flush(end, guest, after, done),
        done is Ok,
        after.consistent(),
    ensures
        stores(
            image,
            after.known(),
            drawing(image, raster_of(image, contents[0]), strokes, strokes.len()),
        ),
        forall|at: int| #[trigger]
            is_padding(image, at) ==> byte_at(after.known(), image.address() + at) == Some(
                memory[image.address() + at],
            ),
{
    let n = strokes.len();
    let raster = drawing(image, raster_of(image, contents[0]), strokes, n);
    let shown = contents.last();
    let depth = image.depth() as nat;
    assert forall|at: int| 0 <= at < image.size() implies #[trigger] contents[0].dom().contains(
        at,
    ) by {
        assert(memory.dom().contains(image.address() + at));
    }
    law_drawing_matches_a_raster(image, contents, strokes, n);
    assert(depicts(image, shown, raster, contents[0]));
    assert forall|x: int, y: int| #[trigger] image.has_pixel(x, y) implies {
        let at = image.address() + image.offset_of(x, y);
        &&& forall|i: int| 0 <= i < image.depth() ==> after.known().dom().contains(#[trigger] (at + i))
        &&& raster[(x, y)] == le_value(bytes_at(after.known(), at, depth))
    } by {
        let start = image.offset_of(x, y);
        let at = image.address() + start;
        assert(image.knows_pixel(shown, x, y));
        assert forall|i: int| 0 <= i < depth implies after.known().dom().contains(
            #[trigger] (at + i),
        ) && after.known()[at + i] == shown[start + i] by {
            assert(shown.dom().contains(image.offset_of(x, y) + i));
            assert(byte_at(after.known(), image.address() + (start + i)) == Some(
                shown[start + i],
            ));
        }
        assert(bytes_at(after.known(), at, depth) =~= bytes_at(shown, start, depth));
    }
    assert forall|at: int| #[trigger] is_padding(image, at) implies byte_at(
        after.known(),
        image.address() + at,
    ) == Some(memory[image.address() + at]) by {
        assert(contents[0].dom().contains(at));
        assert(byte_at(shown, at) == byte_at(contents[0], at));
        assert(shown.dom().contains(at));
    }
}

/// Whether memory is known to show a picture at the place of an image.
pub open spec fn stores(image: &GuestImage, memory: Bytes, raster: Raster) -> bool {
    forall|x: int, y: int| #[trigger]
        image.has_pixel(x, y) ==> {
            let at = image.address() + image.offset_of(x, y);
            &&& forall|i: int| 0 <= i < image.depth() ==> memory.dom().contains(#[trigger] (at + i))
            &&& raster[(x, y)] == le_value(bytes_at(memory, at, image.depth() as nat))
        }
}

/// The bytes of all rows, read from memory that shows a picture, are the words of
/// that picture, row by row.
pub proof fn law_snapshots_show_the_raster(
    image: &GuestImage,
    memory: Bytes,
    read: Bytes,
    raster: Raster,
    raw: Seq<u8>,
    x: int,
    y: int,
)
    requires
        image.framed(),
        stores(image, memory, raster),
        keeps(memory, read),
        raw.len() == (image.columns() * image.depth()) * image.rows(),
        forall|row: int|
            0 <= row < image.rows() ==> holds(
                read,
                image.address() + row * image.pitch(),
                #[trigger] row_of(raw, (image.columns() * image.depth()) as nat, row),
            ),
        image.has_pixel(x, y),
    ensures
        raster[(x, y)] == le_value(
            raw.subrange(
                (y * image.columns() + x) * image.depth(),
                (y * image.columns() + x) * image.depth() + image.depth(),
            ),
        ),
{
    let depth = image.depth() as int;
    let columns = image.columns() as int;
    let rows = image.rows() as int;
    let width = columns * depth;
    let at = image.address() + image.offset_of(x, y);
    let start = (y * columns + x) * depth;
    let row = row_of(raw, width as nat, y);
    assert(start == y * width + x * depth) by (nonlinear_arith)
        requires
            start == (y * columns + x) * depth,
            width == columns * depth,
    ;
    assert(0 <= x * depth && x * depth + depth <= width) by (nonlinear_arith)
        requires
            0 <= x < columns,
            0 < depth,
            width == columns * depth,
    ;
    assert(0 <= y * width && y * width + width <= width * rows) by (nonlinear_arith)
        requires
            0 <= y < rows,
            0 <= width,
    ;
    let pixel = raw.subrange(start, start + depth);
    assert forall|i: int| 0 <= i < depth implies #[trigger] pixel[i] == memory[at + i] by {
        assert(pixel[i] == row[x * depth + i]);
        assert(byte_at(read, image.address() + y * image.pitch() + (x * depth + i)) == Some(
            row[x * depth + i],
        ));
        assert(memory.dom().contains(at + i));
    }
    assert(pixel =~= bytes_at(memory, at, depth as nat));
}

/// Two colours of a patch fall on different pixels.
proof fn lemma_patch_places(patch: Patch, j: int, k: int)
    requires
        patch.width > 0,
        0 <= j,
        0 <= k,
        patch.column(j) == patch.column(k),
        patch.row(j) == patch.row(k),
    ensures
        j == k,
{
    vstd::arithmetic::div_mod::lemma_fundamental_div_mod(j, patch.width as int);
    vstd::arithmetic::div_mod::lemma_fundamental_div_mod(k, patch.width as int);
}

/// Rows of colours that were put show: each colour that falls on a pixel of the
/// image has that pixel's bytes, as `put_pixel` would give them.
pub proof fn law_laid_colors_show(
    image: &GuestImage,
    before: Bytes,
    after: Bytes,
    patch: Patch,
    k: int,
)
    requires
        image.framed(),
        patch.width > 0,
        0 <= k < patch.colors.len(),
        image.has_pixel(patch.column(k), patch.row(k)),
        keeps(image.patched(before, patch, patch.colors.len()), after),
    ensures
        image.knows_pixel(after, patch.column(k), patch.row(k)),
        bytes_at(
            after,
            image.offset_of(patch.column(k), patch.row(k)),
            image.depth() as nat,
        ) == le_bytes(color_word(patch.colors[k], image.depth() as nat), image.depth() as nat),
        image.color_at(after, patch.column(k), patch.row(k)) == word_color(
            color_word(patch.colors[k], image.depth() as nat),
            image.depth() as nat,
        ),
{
    let depth = image.depth() as nat;
    let x = patch.column(k);
    let y = patch.row(k);
    let start = image.offset_of(x, y);
    let word = color_word(patch.colors[k], depth);
    let bytes = le_bytes(word, depth);
    law_le_round_trip(word, depth);
    let put = image.patched(before, patch, patch.colors.len());
    lemma_laid_color_stays(image, before, patch, k, patch.colors.len());
    assert forall|i: int| 0 <= i < depth implies after.dom().contains(
        #[trigger] (image.offset_of(x, y) + i),
    ) && after[start + i] == bytes[i] by {
        assert(byte_at(put, start + i) == Some(bytes[i]));
        assert(put.dom().contains(start + i));
    }
    assert(bytes_at(after, start, depth) =~= bytes);
}

/// The colours behind one leave its pixel alone.
proof fn lemma_laid_color_stays(
    image: &GuestImage,
    content: Bytes,
    patch: Patch,
    k: int,
    count: nat,
)
    requires
        image.framed(),
        patch.width > 0,
        0 <= k < count,
        image.has_pixel(patch.column(k), patch.row(k)),
    ensures
        ({
            let bytes = le_bytes(
                color_word(patch.colors[k], image.depth() as nat),
                image.depth() as nat,
            );
            forall|i: int|
                #![trigger bytes[i]]
                0 <= i < image.depth() ==> byte_at(
                    image.patched(content, patch, count),
                    image.offset_of(patch.column(k), patch.row(k)) + i,
                ) == Some(bytes[i])
        }),
    decreases count,
{
    let depth = image.depth() as nat;
    let start = image.offset_of(patch.column(k), patch.row(k));
    let bytes = le_bytes(color_word(patch.colors[k], depth), depth);
    let last = count - 1;
    law_le_round_trip(color_word(patch.colors[k], depth), depth);
    if k < last {
        lemma_laid_color_stays(image, content, patch, k, last as nat);
        let word = color_word(patch.colors[last], depth);
        law_le_round_trip(word, depth);
        assert forall|i: int|
            #![trigger bytes[i]]
            0 <= i < depth implies byte_at(image.patched(content, patch, count), start + i) == Some(
            bytes[i],
        ) by {
            assert(byte_at(image.patched(content, patch, last as nat), start + i) == Some(
                bytes[i],
            ));
            if image.has_pixel(patch.column(last), patch.row(last)) && within(
                start + i,
                image.offset_of(patch.column(last), patch.row(last)),
                depth,
            ) {
                law_pixels_are_separate(
                    image,
                    patch.column(k),
                    patch.row(k),
                    patch.column(last),
                    patch.row(last),
                    start + i,
                );
                lemma_patch_places(patch, k, last);
            }
        }
    }
}

/// Rows of colours that were put change nothing else: every byte that belongs to
/// no pixel they fall on is as it was, padding included.
pub proof fn law_laid_colors_leave_the_rest(
    image: &GuestImage,
    before: Bytes,
    after: Bytes,
    patch: Patch,
    at: int,
)
    requires
        keeps(image.patched(before, patch, patch.colors.len()), after),
        before.dom().contains(at),
        forall|k: int|
            0 <= k < patch.colors.len() && image.has_pixel(
                #[trigger] patch.column(k),
                patch.row(k),
            ) ==> !within(
                at,
                image.offset_of(patch.column(k), patch.row(k)),
                image.depth() as nat,
            ),
    ensures
        byte_at(after, at) == Some(before[at]),
{
    lemma_laid_colors_miss(image, before, patch, at, patch.colors.len());
    assert(image.patched(before, patch, patch.colors.len()).dom().contains(at));
}

proof fn lemma_laid_colors_miss(
    image: &GuestImage,
    content: Bytes,
    patch: Patch,
    at: int,
    count: nat,
)
    requires
        content.dom().contains(at),
        forall|k: int|
            0 <= k < count && image.has_pixel(#[trigger] patch.column(k), patch.row(k))
                ==> !within(
                at,
                image.offset_of(patch.column(k), patch.row(k)),
                image.depth() as nat,
            ),
    ensures
        byte_at(image.patched(content, patch, count), at) == Some(content[at]),
    decreases count,
{
    if count > 0 {
        let last = count - 1;
        lemma_laid_colors_miss(image, content, patch, at, last as nat);
        let depth = image.depth() as nat;
        law_le_round_trip(color_word(patch.colors[last], depth), depth);
        assert(image.has_pixel(patch.column(last), patch.row(last)) ==> !within(
            at,
            image.offset_of(patch.column(last), patch.row(last)),
            depth,
        ));
    }
}

} // verus!
