use wie::copy::{framebuffer, plan, Area, Clip, CopyPlan, CopyRequest, CopyRest};
use wie::error::WieError;
use wie::framebuffer::{buffer_size, FrameBuffer, Layout, RawImage, WIPICFramebuffer};
use wie::guest_image::{FramebufferCanvas, GuestImage};
use wie::guest_memory::{Guest, WIPICContext, WIPICIndirectPtr};
use wie::pixel_format::{bytes_of, word_of, ArgbPixel, Color, Rgb565Pixel, Rgb8Pixel};
use wie::pixels::Pixels;

const BASE: u32 = 0x1000;

struct TestContext {
    memory: Vec<u8>,
    failing_writes: bool,
}

impl TestContext {
    fn new() -> Self {
        Self {
            memory: Vec::new(),
            failing_writes: false,
        }
    }
}

impl WIPICContext for TestContext {
    fn allocate(&mut self, size: u32) -> Result<WIPICIndirectPtr, WieError> {
        let at = BASE + self.memory.len() as u32;
        self.memory.resize(self.memory.len() + size as usize, 0);
        Ok(WIPICIndirectPtr(at))
    }

    fn data_ptr(&mut self, buffer: WIPICIndirectPtr) -> Result<u32, WieError> {
        Ok(buffer.0)
    }

    fn read_bytes(&mut self, address: u32, len: usize) -> Result<Vec<u8>, WieError> {
        let start = address.checked_sub(BASE).ok_or(WieError::InvalidMemoryAccess(address))? as usize;
        let start = start.min(self.memory.len());
        let end = (start + len).min(self.memory.len());
        Ok(self.memory[start..end].to_vec())
    }

    fn write_bytes(&mut self, address: u32, data: &[u8]) -> Result<(), WieError> {
        if self.failing_writes {
            return Err(WieError::FatalError("write".into()));
        }
        let start = address.checked_sub(BASE).ok_or(WieError::InvalidMemoryAccess(address))? as usize;
        if start + data.len() > self.memory.len() {
            return Err(WieError::InvalidMemoryAccess(address));
        }
        self.memory[start..start + data.len()].copy_from_slice(data);
        Ok(())
    }
}

fn guest() -> Guest<TestContext> {
    Guest::new(TestContext::new())
}

#[test]
fn test_new_overflow_returns_error() {
    let mut context = guest();

    assert!(matches!(
        FrameBuffer::new(&mut context, 0x10000, 0x10000, 32),
        Err(WieError::AllocationFailure)
    ));
}

#[test]
fn test_new_over_heap_limit_returns_error() {
    let mut context = guest();

    assert!(matches!(
        FrameBuffer::new(&mut context, 0x4000, 0x4000, 32),
        Err(WieError::AllocationFailure)
    ));
}

#[test]
fn test_new_zero_height_bpl_overflow_returns_error() {
    let mut context = guest();

    assert!(matches!(
        FrameBuffer::new(&mut context, 0xffff_ffff, 0, 32),
        Err(WieError::AllocationFailure)
    ));
}

#[test]
fn test_new_normal_size_ok() {
    let mut context = guest();

    for bpp in [16, 32] {
        let framebuffer = FrameBuffer::new(&mut context, 100, 100, bpp).ok().unwrap();
        assert_eq!(framebuffer.0.width, 100);
        assert_eq!(framebuffer.0.height, 100);
        assert_eq!(framebuffer.0.bpl, 100 * bpp / 8);
        assert_eq!(framebuffer.0.bpp, bpp);
        let pixels = (0..100 * 100 * bpp / 8).map(|i| i as u8).collect::<Vec<_>>();
        framebuffer.write(&mut context, &pixels).unwrap();
        assert_eq!(framebuffer.image(&mut context).ok().unwrap().raw, pixels);
        let mut canvas = FramebufferCanvas::new(&framebuffer, &mut context).ok().unwrap();
        assert_eq!(canvas.image.raw(&mut context), pixels);
        canvas.flush(&mut context).unwrap();
        assert_eq!(framebuffer.image(&mut context).ok().unwrap().raw, pixels);
    }
}

/// A surface that pixels are drawn on one by one.
trait Surface {
    fn get(&mut self, x: i32, y: i32) -> Color;
    fn put(&mut self, x: i32, y: i32, color: Color);
    fn xor(&mut self, x: i32, y: i32, color: Color);
}

struct GuestSurface<'a> {
    image: &'a mut GuestImage,
    guest: &'a mut Guest<TestContext>,
}

impl Surface for GuestSurface<'_> {
    fn get(&mut self, x: i32, y: i32) -> Color {
        self.image.get_pixel(self.guest, x, y)
    }

    fn put(&mut self, x: i32, y: i32, color: Color) {
        self.image.put_pixel(self.guest, x, y, color);
    }

    fn xor(&mut self, x: i32, y: i32, color: Color) {
        self.image.xor_pixel(self.guest, x, y, color);
    }
}

struct Snapshot {
    width: i32,
    height: i32,
    bpp: usize,
    words: Vec<u32>,
}

impl Snapshot {
    fn new(width: i32, height: i32, bpp: usize) -> Self {
        Self { width, height, bpp, words: vec![0; (width * height) as usize] }
    }

    fn at(&self, x: i32, y: i32) -> Option<usize> {
        (0 <= x && x < self.width && 0 <= y && y < self.height).then_some((y * self.width + x) as usize)
    }

    fn raw(&self) -> Vec<u8> {
        self.words.iter().flat_map(|word| word.to_le_bytes()[..self.bpp].to_vec()).collect()
    }
}

impl Surface for Snapshot {
    fn get(&mut self, x: i32, y: i32) -> Color {
        let word = self.at(x, y).map_or(0, |at| self.words[at]);
        if self.bpp == 2 {
            Rgb565Pixel::to_color(word as u16)
        } else {
            ArgbPixel::to_color(word)
        }
    }

    fn put(&mut self, x: i32, y: i32, color: Color) {
        if let Some(at) = self.at(x, y) {
            self.words[at] = if self.bpp == 2 {
                Rgb565Pixel::from_color(color) as u32
            } else {
                ArgbPixel::from_color(color)
            };
        }
    }

    fn xor(&mut self, x: i32, y: i32, color: Color) {
        if let Some(at) = self.at(x, y) {
            self.words[at] = if self.bpp == 2 {
                Rgb565Pixel::xor_color(self.words[at] as u16, color) as u32
            } else {
                ArgbPixel::xor_color(self.words[at], color)
            };
        }
    }
}

fn blend(source: u8, alpha: u8, below: u8) -> u8 {
    ((source as u32 * alpha as u32 + below as u32 * (255 - alpha as u32)) / 255) as u8
}

fn draw(surface: &mut dyn Surface) {
    let color = Color { a: 255, r: 231, g: 123, b: 67 };
    for y in -1..4 {
        for x in -1..69 {
            surface.put(x, y, color);
        }
    }
    for x in 0..65 {
        surface.put(x, 2 - x * 2 / 64, Color { a: 255, r: 0, g: 0, b: 0 });
    }
    for y in 1..3 {
        for x in 62..65 {
            surface.xor(x, y, color);
        }
    }
    for (index, word) in [0x80123456u32, 0xfffedcba].into_iter().enumerate() {
        let source = ArgbPixel::to_color(word);
        let x = 63 + index as i32;
        let below = surface.get(x, 1);
        surface.put(
            x,
            1,
            Color {
                a: 255,
                r: blend(source.r, source.a, below.r),
                g: blend(source.g, source.a, below.g),
                b: blend(source.b, source.a, below.b),
            },
        );
    }
    for y in (0..2).rev() {
        for x in (0..64).rev() {
            let moved = surface.get(x, y);
            surface.put(x + 1, y + 1, moved);
        }
    }
    surface.put(64, 2, color);
}

#[test]
fn guest_canvas_matches_snapshot_rasterization_with_padded_rows() {
    for bpp in [16, 32] {
        let mut context = TestContext::new();
        let row_bytes = 65 * bpp / 8;
        let stride = row_bytes + 1;
        let buf = context.allocate(stride * 3).unwrap();
        let address = context.data_ptr(buf).unwrap();
        context.write_bytes(address, &vec![0; (stride * 3) as usize]).unwrap();
        for y in 0..3 {
            context.write_bytes(address + y * stride + row_bytes, &[0xa5]).unwrap();
        }
        let framebuffer = FrameBuffer(WIPICFramebuffer { width: 65, height: 3, bpl: stride, bpp, buf });
        let mut reference = Snapshot::new(65, 3, (bpp / 8) as usize);
        draw(&mut reference);
        let mut guest = Guest::new(context);
        let mut canvas = FramebufferCanvas::new(&framebuffer, &mut guest).ok().unwrap();
        draw(&mut GuestSurface { image: &mut canvas.image, guest: &mut guest });
        canvas.flush(&mut guest).unwrap();
        assert_eq!(framebuffer.image(&mut guest).ok().unwrap().raw, reference.raw());
        let mut context = guest.into_inner();
        for y in 0..3 {
            assert_eq!(context.read_bytes(address + y * stride + row_bytes, 1).unwrap(), [0xa5]);
        }
    }
}

#[test]
fn rows_of_colors_are_clipped_to_the_image() {
    let mut context = guest();
    let framebuffer = FrameBuffer::new(&mut context, 3, 2, 32).ok().unwrap();
    let mut canvas = FramebufferCanvas::new(&framebuffer, &mut context).ok().unwrap();
    let shade = |value: u8| Color { a: 255, r: value, g: 0, b: 0 };
    let colors: Vec<Color> = (1..=9).map(shade).collect();
    canvas.image.put_pixels(&mut context, -1, -1, 3, &colors);
    let shown: Vec<u8> = canvas.image.colors(&mut context).iter().map(|color| color.r).collect();
    assert_eq!(shown, vec![5, 6, 0, 8, 9, 0]);
    canvas.image.put_pixels(&mut context, 2, 1, 2, &colors[..5]);
    canvas.image.put_pixels(&mut context, 0, 0, 0, &colors);
    let shown: Vec<u8> = canvas.image.colors(&mut context).iter().map(|color| color.r).collect();
    assert_eq!(shown, vec![5, 6, 0, 8, 9, 1]);
    assert_eq!(canvas.image.get_pixel(&mut context, 3, 0), ArgbPixel::to_color(0));
    assert_eq!(canvas.image.get_pixel(&mut context, -1, 0), ArgbPixel::to_color(0));
    canvas.flush(&mut context).unwrap();
    let raw = framebuffer.data(&mut context).unwrap();
    assert_eq!(raw[..4], [0, 0, 5, 255]);
}

#[test]
fn reads_that_break_off_end_in_zeros() {
    let mut context = guest();
    let buf = context.allocate(300).unwrap();
    let address = context.data_ptr(buf).unwrap();
    context.write_bytes(address, &[7; 300]).unwrap();
    // The rows reach beyond the memory that there is.
    let framebuffer = FrameBuffer(WIPICFramebuffer { width: 64, height: 2, bpl: 257, bpp: 32, buf });
    let open = |context: &mut Guest<TestContext>| FramebufferCanvas::new(&framebuffer, context).ok().unwrap();
    let mut expected = vec![7; 256];
    expected.resize(512, 0);
    let mut canvas = open(&mut context);
    assert_eq!(canvas.image.raw(&mut context), expected);
    assert_eq!(canvas.flush(&mut context), Err(WieError::InvalidMemoryAccess(address + 256)));
    let mut canvas = open(&mut context);
    let colors = canvas.image.colors(&mut context);
    assert_eq!(colors[..64], [ArgbPixel::to_color(0x0707_0707); 64]);
    assert_eq!(colors[64..], [ArgbPixel::to_color(0); 64]);

    // A pixel across two blocks, of which the second cannot be read.
    let cut = FrameBuffer(WIPICFramebuffer { width: 1, height: 2, bpl: 254, bpp: 32, buf });
    let mut canvas = FramebufferCanvas::new(&cut, &mut context).ok().unwrap();
    assert_eq!(canvas.image.get_pixel(&mut context, 0, 0), ArgbPixel::to_color(0x0707_0707));
    assert_eq!(canvas.image.get_pixel(&mut context, 0, 1), ArgbPixel::to_color(0x0000_0707));
    assert_eq!(canvas.image.get_pixel(&mut context, 0, 0), ArgbPixel::to_color(0));
    assert_eq!(canvas.flush(&mut context), Err(WieError::InvalidMemoryAccess(address + 256)));
}

#[test]
fn reads_show_the_memory_with_all_writes() {
    let mut context = guest();
    let buf = context.allocate(1000).unwrap();
    let address = context.data_ptr(buf).unwrap();
    let mut expected: Vec<u8> = (0..1000).map(|i| i as u8).collect();
    context.write_bytes(address, &expected).unwrap();
    let mut pixels = Pixels::new(address, 1000, &context);
    for (offset, len) in [(250, 20), (900, 100), (255, 2), (10, 600), (511, 3)] {
        let data: Vec<u8> = (0..len).map(|i| (offset + 3 * i) as u8).collect();
        pixels.write(&mut context, offset, &data);
        expected[offset..offset + len].copy_from_slice(&data);
        assert_eq!(pixels.read(&mut context, 100, 700), expected[100..800]);
    }
    pixels.finish(&mut context).unwrap();
    assert_eq!(context.read_bytes(address, 1000).unwrap(), expected);
}

#[test]
fn failures_stop_drawing_and_are_reported() {
    let mut context = guest();
    let framebuffer = FrameBuffer::new(&mut context, 100, 4, 32).ok().unwrap();
    let mut inner = context.into_inner();
    inner.failing_writes = true;
    let mut context = Guest::new(inner);
    let mut canvas = FramebufferCanvas::new(&framebuffer, &mut context).ok().unwrap();
    let white = Color { a: 255, r: 255, g: 255, b: 255 };
    canvas.image.put_pixel(&mut context, 0, 0, white);
    assert_eq!(canvas.image.get_pixel(&mut context, 0, 0), white);
    canvas.image.put_pixel(&mut context, 0, 3, white);
    assert_eq!(canvas.image.get_pixel(&mut context, 0, 0), ArgbPixel::to_color(0));
    assert_eq!(canvas.image.raw(&mut context), vec![0; 1600]);
    assert_eq!(canvas.flush(&mut context), Err(WieError::FatalError("write".into())));

    let short = FrameBuffer(WIPICFramebuffer {
        width: 4,
        height: 1,
        bpl: 8,
        bpp: 16,
        buf: WIPICIndirectPtr(BASE + 1600 - 4),
    });
    assert_eq!(
        short.data(&mut context),
        Err(WieError::InvalidMemoryAccess(BASE + 1600 - 4))
    );
}

#[test]
fn shapes_are_checked_before_the_memory_is_asked() {
    let buffer = |width: u32, height: u32, bpl: u32, bpp: u32, at: u32| {
        FrameBuffer(WIPICFramebuffer { width, height, bpl, bpp, buf: WIPICIndirectPtr(at) })
    };
    let mut context = guest();
    assert_eq!(
        buffer(1, 1, 3, 24, 0).layout(&mut context),
        Err(WieError::FatalError("Unsupported pixel format: 24".into()))
    );
    for refused in [
        buffer(2, 1, 3, 16, 0),
        buffer(0x8000_0000, 0, u32::MAX, 16, 0),
        buffer(0, 0x8000_0000, 0, 16, 0),
        buffer(1, 0x1_0000, 0x1_0000, 16, 0),
    ] {
        assert_eq!(refused.layout(&mut context), Err(WieError::AllocationFailure));
    }
    assert_eq!(
        buffer(4, 1, 8, 16, 0xffff_fffc).layout(&mut context),
        Err(WieError::InvalidMemoryAccess(0xffff_fffc))
    );
    assert_eq!(
        buffer(4, 2, 9, 16, 0x4000).layout(&mut context),
        Ok(Layout { address: 0x4000, size: 18, row_bytes: 8 })
    );
    assert_eq!(buffer_size(10, 3, 2).ok().map(|plain| (plain.size, plain.bpl)), Some((60, 20)));
    let empty = FrameBuffer::empty();
    assert_eq!((empty.0.width, empty.0.bpp, empty.0.buf), (0, 0, WIPICIndirectPtr(0)));
}

#[test]
fn images_become_framebuffers() {
    let mut context = guest();
    let image = RawImage { width: 2, height: 2, bytes_per_pixel: 2, raw: (1..=8).collect() };
    let framebuffer = FrameBuffer::from_image(&mut context, &image).ok().unwrap();
    assert_eq!((framebuffer.0.bpl, framebuffer.0.bpp), (4, 16));
    let copy = framebuffer.image(&mut context).ok().unwrap();
    assert_eq!((copy.width, copy.height, copy.bytes_per_pixel), (2, 2, 2));
    assert_eq!(copy.raw, image.raw);
    let large = RawImage { width: 0x4000, height: 0x4000, bytes_per_pixel: 4, raw: Vec::new() };
    let deep = RawImage { width: 1, height: 1, bytes_per_pixel: 0x2000_0000, raw: Vec::new() };
    for refused in [large, deep] {
        assert_eq!(
            FrameBuffer::from_image(&mut context, &refused).err(),
            Some(WieError::AllocationFailure)
        );
    }
}

#[test]
fn colors_and_words_are_converted() {
    assert_eq!(Rgb565Pixel::to_color(0xf800), Color { a: 255, r: 255, g: 0, b: 0 });
    assert_eq!(Rgb565Pixel::to_color(0x07e0), Color { a: 255, r: 0, g: 255, b: 0 });
    assert_eq!(Rgb565Pixel::to_color(0x0861), Color { a: 255, r: 8, g: 12, b: 8 });
    for word in [0u16, 1, 0x1234, 0xfedc, 0xffff] {
        assert_eq!(Rgb565Pixel::from_color(Rgb565Pixel::to_color(word)), word);
    }
    assert_eq!(ArgbPixel::to_color(0x80123456), Color { a: 0x80, r: 0x12, g: 0x34, b: 0x56 });
    assert_eq!(Rgb8Pixel::to_color(0x80123456), Color { a: 255, r: 0x12, g: 0x34, b: 0x56 });
    let color = Color { a: 1, r: 2, g: 3, b: 4 };
    assert_eq!(ArgbPixel::from_color(color), 0x01020304);
    assert_eq!(ArgbPixel::xor_color(0xff00_00ff, color), 0xff02_03fb);
    assert_eq!(Rgb565Pixel::xor_color(0xffff, Rgb565Pixel::to_color(0x1234)), 0xedcb);
    assert_eq!(word_of(&vec![0x34, 0x12]), 0x1234);
    assert_eq!(word_of(&vec![1, 2, 3, 4]), 0x0403_0201);
    assert_eq!(bytes_of(0x0403_0201, 4), vec![1, 2, 3, 4]);
    assert_eq!(bytes_of(0x1234, 2), vec![0x34, 0x12]);
    let wide = FrameBuffer(WIPICFramebuffer { bpp: 32, ..FrameBuffer::empty().0 });
    let narrow = FrameBuffer(WIPICFramebuffer { bpp: 16, ..FrameBuffer::empty().0 });
    assert_eq!(wide.pixel_to_color(0x0001_f800), Color { a: 255, r: 1, g: 0xf8, b: 0 });
    assert_eq!(narrow.pixel_to_color(0x0001_f800), Color { a: 255, r: 255, g: 0, b: 0 });
}

fn everywhere() -> Clip {
    Clip { x: 0, y: 0, width: 1000, height: 1000 }
}

#[test]
fn disjoint_sixteen_bit_rectangles_are_copied() {
    let mut context = guest();
    let source = FrameBuffer::new(&mut context, 200, 3, 16).ok().unwrap();
    let destination = FrameBuffer::new(&mut context, 150, 4, 16).ok().unwrap();
    let pixels: Vec<u8> = (0..1200).map(|i| (i % 251) as u8).collect();
    source.write(&mut context, &pixels).unwrap();
    let request = CopyRequest {
        x: -10,
        y: 1,
        width: 190,
        height: 9,
        source_x: 5,
        source_y: 0,
        clip: everywhere(),
    };
    assert_eq!(framebuffer(&mut context, &destination, &source, request), Ok(CopyRest::Done));
    let copied = destination.data(&mut context).unwrap();
    assert_eq!(copied[..300], vec![0; 300]);
    for row in 0..3 {
        assert_eq!(
            copied[(row + 1) * 300..(row + 2) * 300],
            pixels[row * 400 + 30..row * 400 + 330]
        );
    }
    assert_eq!(source.data(&mut context).unwrap(), pixels);
}

#[test]
fn copies_are_planned_by_what_shows_and_overlaps() {
    let buffer = |width: u32, height: u32, bpp: u32| {
        FrameBuffer(WIPICFramebuffer {
            width,
            height,
            bpl: width * bpp / 8,
            bpp,
            buf: WIPICIndirectPtr(0),
        })
    };
    let at = |address: u32, size: u32| Layout { address, size, row_bytes: 0 };
    let request = CopyRequest {
        x: 4,
        y: -2,
        width: 6,
        height: 6,
        source_x: -1,
        source_y: 0,
        clip: Clip { x: 0, y: 0, width: 8, height: 8 },
    };
    let area = Area { source_x: 0, source_y: 2, x: 5, y: 0, width: 3, height: 4 };
    let small = buffer(10, 10, 16);
    assert_eq!(
        plan(request, &small, at(0, 200), &small, at(0, 200)),
        CopyPlan::CopyArea(area)
    );
    assert_eq!(
        plan(request, &small, at(0, 200), &small, at(200, 200)),
        CopyPlan::Rows(area)
    );
    assert_eq!(
        plan(request, &small, at(0, 200), &small, at(100, 200)),
        CopyPlan::Draw(area)
    );
    let deep = buffer(10, 10, 32);
    assert_eq!(plan(request, &deep, at(0, 400), &small, at(400, 200)), CopyPlan::Draw(area));
    let outside = CopyRequest { x: 8, ..request };
    assert_eq!(
        plan(outside, &small, at(0, 200), &small, at(200, 200)),
        CopyPlan::Nothing
    );
    let mut context = guest();
    let framed = FrameBuffer::new(&mut context, 10, 10, 16).ok().unwrap();
    assert_eq!(
        framebuffer(&mut context, &framed, &framed, request),
        Ok(CopyRest::CopyArea(area))
    );
    assert_eq!(
        framebuffer(&mut context, &framed, &buffer(1, 1, 24), request),
        Err(WieError::FatalError("Unsupported pixel format: 24".into()))
    );
}
