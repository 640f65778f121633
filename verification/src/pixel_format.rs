//! Colours and the words that stand for them in a framebuffer.
//!
//! How a channel of five or six bits is widened to eight is this module's own
//! choice: its high bits are repeated below it, so that none stays none and full
//! stays full. So is that the exclusive-or mode leaves the opacity alone.

use vstd::prelude::*;

verus! {

/// A colour with its opacity.
#[derive(Clone, Copy, Debug, PartialEq, Eq, Structural)]
pub struct Color {
    pub a: u8,
    pub r: u8,
    pub g: u8,
    pub b: u8,
}

/// Sixteen bits per pixel: five of red, six of green, five of blue.
pub struct Rgb565Pixel;

/// Thirty-two bits per pixel: eight unused, then eight each of red, green and blue.
pub struct Rgb8Pixel;

/// Thirty-two bits per pixel: eight each of opacity, red, green and blue.
pub struct ArgbPixel;

/// The colour of a sixteen-bit word. Each channel is widened by repeating its
/// high bits, and the colour is opaque.
pub open spec fn rgb565_color(word: u16) -> Color {
    let r = word / 2048;
    let g = word / 32 % 64;
    let b = word % 32;
    Color {
        a: 255,
        r: (r * 8 + r / 4) as u8,
        g: (g * 4 + g / 16) as u8,
        b: (b * 8 + b / 4) as u8,
    }
}

/// The sixteen-bit word of a colour: the high bits of each channel.
pub open spec fn rgb565_word(color: Color) -> u16 {
    ((color.r / 8) * 2048 + (color.g / 4) * 32 + color.b / 8) as u16
}

/// The colour of a word with opacity.
pub open spec fn argb_color(word: u32) -> Color {
    Color {
        a: (word / 0x100_0000) as u8,
        r: (word / 0x1_0000 % 256) as u8,
        g: (word / 0x100 % 256) as u8,
        b: (word % 256) as u8,
    }
}

/// The word of a colour with its opacity.
pub open spec fn argb_word(color: Color) -> u32 {
    (color.a * 0x100_0000 + color.r * 0x1_0000 + color.g * 0x100 + color.b) as u32
}

/// The word of a colour without its opacity.
pub open spec fn rgb_word(color: Color) -> u32 {
    argb_word(Color { a: 0, ..color })
}

/// A sixteen-bit word stands for an opaque colour, and the colour's word is the
/// same again: every bit is preserved.
pub proof fn law_rgb565_round_trip(word: u16)
    ensures
        rgb565_color(word).a == 255,
        rgb565_word(rgb565_color(word)) == word,
{
}

/// A word with opacity is the word of its colour.
pub proof fn law_argb_round_trip(word: u32)
    ensures
        argb_word(argb_color(word)) == word,
{
}

/// A colour is the colour of its word with opacity.
pub proof fn law_argb_color_round_trip(color: Color)
    ensures
        argb_color(argb_word(color)) == color,
{
    let a = color.a as int;
    let r = color.r as int;
    let g = color.g as int;
    let b = color.b as int;
    let word = a * 0x100_0000 + r * 0x1_0000 + g * 0x100 + b;
    assert(argb_word(color) == word);
    assert(word / 0x100 == a * 0x1_0000 + r * 0x100 + g);
    assert(word / 0x1_0000 == a * 0x100 + r);
    assert(word / 0x100_0000 == a);
    assert(word % 256 == b);
    assert((a * 0x1_0000 + r * 0x100 + g) % 256 == g);
    assert((a * 0x100 + r) % 256 == r);
}

/// Drawing the same colour twice in exclusive-or mode changes nothing, and
/// drawing it once keeps the opacity.
pub proof fn law_xor_twice_restores(short: u16, word: u32, color: Color)
    ensures
        (short ^ rgb565_word(color)) ^ rgb565_word(color) == short,
        (word ^ rgb_word(color)) ^ rgb_word(color) == word,
        argb_color(word ^ rgb_word(color)).a == argb_color(word).a,
{
    let a = rgb565_word(color);
    let b = rgb_word(color);
    assert((short ^ a) ^ a == short) by (bit_vector);
    assert((word ^ b) ^ b == word) by (bit_vector);
    assert(b < 0x100_0000);
    assert((word ^ b) / 0x100_0000 == word / 0x100_0000) by (bit_vector)
        requires
            b < 0x100_0000,
    ;
}

impl Rgb565Pixel {
    /// The colour of a word.
    pub fn to_color(word: u16) -> (color: Color)
        ensures
            color == rgb565_color(word),
    {
        let r: u16 = word / 2048;
        let g: u16 = word / 32 % 64;
        let b: u16 = word % 32;
        Color {
            a: 255,
            r: (r * 8 + r / 4) as u8,
            g: (g * 4 + g / 16) as u8,
            b: (b * 8 + b / 4) as u8,
        }
    }

    /// The word of a colour.
    pub fn from_color(color: Color) -> (word: u16)
        ensures
            word == rgb565_word(color),
    {
        (color.r / 8) as u16 * 2048 + (color.g / 4) as u16 * 32 + (color.b / 8) as u16
    }

    /// A word with a colour drawn over it in exclusive-or mode.
    pub fn xor_color(word: u16, color: Color) -> (mixed: u16)
        ensures
            mixed == word ^ rgb565_word(color),
    {
        word ^ Rgb565Pixel::from_color(color)
    }
}

impl Rgb8Pixel {
    /// The colour of a word: opaque, whatever its high bits are.
    pub fn to_color(word: u32) -> (color: Color)
        ensures
            color == (Color { a: 255, ..argb_color(word) }),
    {
        Color {
            a: 255,
            r: (word / 0x1_0000 % 256) as u8,
            g: (word / 0x100 % 256) as u8,
            b: (word % 256) as u8,
        }
    }
}

impl ArgbPixel {
    /// The colour of a word.
    pub fn to_color(word: u32) -> (color: Color)
        ensures
            color == argb_color(word),
    {
        Color {
            a: (word / 0x100_0000) as u8,
            r: (word / 0x1_0000 % 256) as u8,
            g: (word / 0x100 % 256) as u8,
            b: (word % 256) as u8,
        }
    }

    /// The word of a colour.
    pub fn from_color(color: Color) -> (word: u32)
        ensures
            word == argb_word(color),
    {
        color.a as u32 * 0x100_0000 + color.r as u32 * 0x1_0000 + color.g as u32 * 0x100
            + color.b as u32
    }

    /// A word with a colour drawn over it in exclusive-or mode. The opacity stays.
    pub fn xor_color(word: u32, color: Color) -> (mixed: u32)
        ensures
            mixed == word ^ rgb_word(color),
    {
        word ^ (color.r as u32 * 0x1_0000 + color.g as u32 * 0x100 + color.b as u32)
    }
}

/// The number that bytes stand for, low byte first.
pub open spec fn le_value(bytes: Seq<u8>) -> nat
    decreases bytes.len(),
{
    if bytes.len() == 0 {
        0
    } else {
        bytes[0] as nat + 256 * le_value(bytes.drop_first())
    }
}

/// The `len` low bytes of a word, low byte first.
pub open spec fn le_bytes(word: nat, len: nat) -> Seq<u8>
    decreases len,
{
    if len == 0 {
        Seq::empty()
    } else {
        seq![(word % 256) as u8] + le_bytes(word / 256, (len - 1) as nat)
    }
}

/// Bytes give back the word that they were made of, as far as they hold it.
pub proof fn law_le_round_trip(word: nat, len: nat)
    ensures
        le_bytes(word, len).len() == len,
        len == 2 && word < 0x1_0000 ==> le_value(le_bytes(word, len)) == word,
        len == 4 && word < 0x1_0000_0000 ==> le_value(le_bytes(word, len)) == word,
    decreases len,
{
    reveal_with_fuel(le_bytes, 5);
    reveal_with_fuel(le_value, 5);
    lemma_le_bytes_len(word, len);
    if len == 2 {
        let bytes = le_bytes(word, 2);
        assert(bytes.drop_first() =~= le_bytes(word / 256, 1));
        assert(bytes.drop_first().drop_first() =~= Seq::<u8>::empty());
    }
    if len == 4 {
        let bytes = le_bytes(word, 4);
        let second = le_bytes(word / 256, 3);
        let third = le_bytes(word / 256 / 256, 2);
        let fourth = le_bytes(word / 256 / 256 / 256, 1);
        assert(bytes.drop_first() =~= second);
        assert(second.drop_first() =~= third);
        assert(third.drop_first() =~= fourth);
        assert(fourth.drop_first() =~= Seq::<u8>::empty());
    }
}

proof fn lemma_le_bytes_len(word: nat, len: nat)
    ensures
        le_bytes(word, len).len() == len,
    decreases len,
{
    if len > 0 {
        lemma_le_bytes_len(word / 256, (len - 1) as nat);
    }
}

/// The word that two or four bytes stand for.
pub fn word_of(bytes: &Vec<u8>) -> (word: u32)
    requires
        bytes@.len() == 2 || bytes@.len() == 4,
    ensures
        word == le_value(bytes@),
        bytes@.len() == 2 ==> word < 0x1_0000,
{
    proof {
        reveal_with_fuel(le_value, 5);
    }
    if bytes.len() == 2 {
        assert(bytes@.drop_first().drop_first() =~= Seq::<u8>::empty());
        bytes[0] as u32 + 0x100 * bytes[1] as u32
    } else {
        assert(bytes@.drop_first().drop_first().drop_first().drop_first() =~= Seq::<u8>::empty());
        bytes[0] as u32 + 0x100 * bytes[1] as u32 + 0x1_0000 * bytes[2] as u32 + 0x100_0000
            * bytes[3] as u32
    }
}

/// The two or four bytes of a word.
pub fn bytes_of(word: u32, len: usize) -> (bytes: Vec<u8>)
    requires
        len == 2 || len == 4,
    ensures
        bytes@ == le_bytes(word as nat, len as nat),
{
    let mut bytes: Vec<u8> = Vec::new();
    let mut rest: u32 = word;
    let mut i: usize = 0;
    assert(bytes@ + le_bytes(rest as nat, len as nat) =~= le_bytes(word as nat, len as nat));
    while i < len
        invariant
            i <= len,
            bytes@ + le_bytes(rest as nat, (len - i) as nat) == le_bytes(word as nat, len as nat),
        decreases len - i,
    {
        let ghost before = bytes@;
        let low: u8 = (rest % 256) as u8;
        bytes.push(low);
        assert(before + (seq![low] + le_bytes((rest / 256) as nat, (len - i - 1) as nat)) =~= bytes@
            + le_bytes((rest / 256) as nat, (len - i - 1) as nat));
        rest = rest / 256;
        i += 1;
    }
    assert(bytes@ + Seq::<u8>::empty() =~= bytes@);
    bytes
}

/// A colour loses only the low bits of its channels in sixteen bits: five bits of red,
/// six of green and five of blue are kept, in this order from the top, and none stays
/// none and full stays full.
pub proof fn law_rgb565_keeps_the_high_bits(color: Color)
    ensures
        ({
            let word = rgb565_word(color);
            let shown = rgb565_color(word);
            &&& word as int / 2048 == color.r as int / 8
            &&& word as int / 32 % 64 == color.g as int / 4
            &&& word as int % 32 == color.b as int / 8
            &&& shown.a == 255
            &&& shown.r as int / 8 == color.r as int / 8
            &&& shown.g as int / 4 == color.g as int / 4
            &&& shown.b as int / 8 == color.b as int / 8
            &&& color.r == 255 ==> shown.r == 255
            &&& color.g == 255 ==> shown.g == 255
            &&& color.b == 255 ==> shown.b == 255
            &&& color.r == 0 ==> shown.r == 0
            &&& color.g == 0 ==> shown.g == 0
            &&& color.b == 0 ==> shown.b == 0
        }),
{
    let r = color.r as int / 8;
    let g = color.g as int / 4;
    let b = color.b as int / 8;
    let word = r * 2048 + g * 32 + b;
    assert(rgb565_word(color) == word);
    assert(word / 2048 == r);
    assert(word / 32 == r * 64 + g);
    assert((r * 64 + g) % 64 == g);
    assert(word % 32 == b);
}

/// A word of 32 bits has opacity, red, green and blue in its bytes, from the top.
pub proof fn law_argb_words_have_a_byte_per_channel(color: Color)
    ensures
        le_bytes(argb_word(color) as nat, 4) == seq![color.b, color.g, color.r, color.a],
        le_bytes(rgb_word(color) as nat, 4) == seq![color.b, color.g, color.r, 0u8],
{
    lemma_argb_bytes(color);
    lemma_argb_bytes(Color { a: 0, ..color });
}

proof fn lemma_argb_bytes(color: Color)
    ensures
        le_bytes(argb_word(color) as nat, 4) == seq![color.b, color.g, color.r, color.a],
{
    let a = color.a as int;
    let r = color.r as int;
    let g = color.g as int;
    let b = color.b as int;
    let word = argb_word(color) as nat;
    reveal_with_fuel(le_bytes, 5);
    assert(word == a * 0x100_0000 + r * 0x1_0000 + g * 0x100 + b);
    assert(word % 256 == b);
    assert(word / 256 == a * 0x1_0000 + r * 0x100 + g);
    assert((word / 256) % 256 == g);
    assert(word / 256 / 256 == a * 0x100 + r);
    assert((word / 256 / 256) % 256 == r);
    assert(word / 256 / 256 / 256 == a);
    assert(a % 256 == a);
    assert(le_bytes(word, 4) =~= seq![color.b, color.g, color.r, color.a]);
}

/// Drawing in exclusive-or mode turns exactly the bits that the colour's word has: over
/// nothing it shows that word, and black changes nothing.
pub proof fn law_xor_turns_the_bits_of_the_color(short: u16, word: u32, color: Color)
    ensures
        (0u16 ^ rgb565_word(color)) == rgb565_word(color),
        (0u32 ^ rgb_word(color)) == argb_word(Color { a: 0, ..color }),
        color.r == 0 && color.g == 0 && color.b == 0 ==> (short ^ rgb565_word(color)) == short && (
        word ^ rgb_word(color)) == word,
{
    let a = rgb565_word(color);
    let b = rgb_word(color);
    assert(0u16 ^ a == a) by (bit_vector);
    assert(0u32 ^ b == b) by (bit_vector);
    assert(short ^ 0u16 == short) by (bit_vector);
    assert(word ^ 0u32 == word) by (bit_vector);
}

/// Reading a word and writing its colour gives the word back in sixteen bits, and writing a
/// colour and reading it gives the colour back in 32. Without opacity a colour is opaque.
pub proof fn law_words_and_colors_are_converted_back(
    short: u16,
    word: u32,
    color: Color,
    shown: Color,
    again: u16,
    written: u32,
    read: Color,
    plain: Color,
    wide: Color,
)
    requires
        call_ensures(Rgb565Pixel::to_color, (short,), shown),
        call_ensures(Rgb565Pixel::from_color, (shown,), again),
        call_ensures(ArgbPixel::from_color, (color,), written),
        call_ensures(ArgbPixel::to_color, (written,), read),
        call_ensures(Rgb8Pixel::to_color, (word,), plain),
        call_ensures(ArgbPixel::to_color, (word,), wide),
    ensures
        again == short,
        shown.a == 255,
        read == color,
        plain == (Color { a: 255, ..wide }),
        le_bytes(written as nat, 4) == seq![color.b, color.g, color.r, color.a],
{
    law_rgb565_round_trip(short);
    law_argb_color_round_trip(color);
    law_argb_words_have_a_byte_per_channel(color);
}

/// Drawing the same colour twice in exclusive-or mode restores a word, once over zero shows
/// the colour, and the opacity of a word of 32 bits stays.
pub proof fn law_drawing_twice_restores(
    short: u16,
    word: u32,
    color: Color,
    once: u16,
    twice: u16,
    over: u16,
    shown: u16,
    wide: u32,
    restored: u32,
)
    requires
        call_ensures(Rgb565Pixel::xor_color, (short, color), once),
        call_ensures(Rgb565Pixel::xor_color, (once, color), twice),
        call_ensures(Rgb565Pixel::xor_color, (0, color), over),
        call_ensures(Rgb565Pixel::from_color, (color,), shown),
        call_ensures(ArgbPixel::xor_color, (word, color), wide),
        call_ensures(ArgbPixel::xor_color, (wide, color), restored),
    ensures
        twice == short,
        over == shown,
        restored == word,
        wide as int / 0x100_0000 == word as int / 0x100_0000,
{
    law_xor_twice_restores(short, word, color);
    law_xor_turns_the_bits_of_the_color(short, word, color);
    assert(argb_color(wide).a == argb_color(word).a);
    assert(argb_color(wide).a == wide / 0x100_0000);
    assert(argb_color(word).a == word / 0x100_0000);
}

} // verus!
