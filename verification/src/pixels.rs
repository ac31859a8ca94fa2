//! Pixel buffers of packed `0xRRGGBB00` colours and the byte frames that
//! are handed to a screen.

use vstd::prelude::*;
use byteorder::{BigEndian, ByteOrder};

verus! {

/// The colour whose red, green and blue bytes are `r`, `g` and `b`,
/// packed as `0xRRGGBB00`.
pub open spec fn rgb_spec(r: u8, g: u8, b: u8) -> u32 {
    (r as u32) << 24u32 | (g as u32) << 16u32 | (b as u32) << 8u32
}

/// Packs three channel bytes into one colour word.
pub fn from_rgb(r: u8, g: u8, b: u8) -> (c: u32)
    ensures
        c == rgb_spec(r, g, b),
        c as int == r as int * 0x100_0000 + g as int * 0x1_0000 + b as int * 0x100,
{
    let c = (r as u32) << 24u32 | (g as u32) << 16u32 | (b as u32) << 8u32;
    assert(((r as u32) << 24u32 | (g as u32) << 16u32 | (b as u32) << 8u32) as int == r as int
        * 0x100_0000 + g as int * 0x1_0000 + b as int * 0x100) by (bit_vector);
    c
}

/// The red byte of a packed colour.
pub open spec fn red_spec(c: u32) -> u8 {
    ((c & (0xffu32 << 24u32)) >> 24u32) as u8
}

/// The green byte of a packed colour.
pub open spec fn green_spec(c: u32) -> u8 {
    ((c & (0xffu32 << 16u32)) >> 16u32) as u8
}

/// The blue byte of a packed colour.
pub open spec fn blue_spec(c: u32) -> u8 {
    ((c & (0xffu32 << 8u32)) >> 8u32) as u8
}

/// Reading the channels of a packed colour.
pub trait RgbExt {
    fn r(&self) -> u8;

    fn g(&self) -> u8;

    fn b(&self) -> u8;
}

impl RgbExt for u32 {
    fn r(&self) -> (v: u8)
        ensures
            v == red_spec(*self),
            v as int == *self as int / 0x100_0000,
    {
        let c = *self;
        assert(((c & (0xffu32 << 24u32)) >> 24u32) as u8 as int == c as int / 0x100_0000)
            by (bit_vector);
        ((c & (0xffu32 << 24u32)) >> 24u32) as u8
    }

    fn g(&self) -> (v: u8)
        ensures
            v == green_spec(*self),
            v as int == (*self as int / 0x1_0000) % 0x100,
    {
        let c = *self;
        assert(((c & (0xffu32 << 16u32)) >> 16u32) as u8 as int == (c as int / 0x1_0000) % 0x100)
            by (bit_vector);
        ((c & (0xffu32 << 16u32)) >> 16u32) as u8
    }

    fn b(&self) -> (v: u8)
        ensures
            v == blue_spec(*self),
            v as int == (*self as int / 0x100) % 0x100,
    {
        let c = *self;
        assert(((c & (0xffu32 << 8u32)) >> 8u32) as u8 as int == (c as int / 0x100) % 0x100)
            by (bit_vector);
        ((c & (0xffu32 << 8u32)) >> 8u32) as u8
    }
}

/// Reading back the channels of a packed colour gives the bytes it was packed from.
pub proof fn lemma_channels_of_rgb(r: u8, g: u8, b: u8)
    ensures
        red_spec(rgb_spec(r, g, b)) == r,
        green_spec(rgb_spec(r, g, b)) == g,
        blue_spec(rgb_spec(r, g, b)) == b,
{
    assert(red_spec(rgb_spec(r, g, b)) == r) by (bit_vector);
    assert(green_spec(rgb_spec(r, g, b)) == g) by (bit_vector);
    assert(blue_spec(rgb_spec(r, g, b)) == b) by (bit_vector);
}

/// Packing the channels of a colour gives back the colour with its low byte cleared.
pub proof fn lemma_rgb_of_channels(c: u32)
    ensures
        rgb_spec(red_spec(c), green_spec(c), blue_spec(c)) == c & 0xffff_ff00u32,
{
    assert(rgb_spec(red_spec(c), green_spec(c), blue_spec(c)) == c & 0xffff_ff00u32)
        by (bit_vector);
}

/// The four bytes of `n`, most significant first.
pub open spec fn be_bytes_u32(n: u32) -> Seq<u8> {
    seq![(n >> 24u32) as u8, (n >> 16u32) as u8, (n >> 8u32) as u8, n as u8]
}

/// Calls `byteorder`'s `BigEndian::write_u32` on the part of `buf` that starts at
/// `offset`. Its contract claims that the four bytes of `n`, most significant first,
/// replace the bytes at `offset .. offset + 4` and that nothing else changes; the
/// crate writes `n.to_be_bytes()` into `buf[..4]` and panics when fewer than four
/// bytes are left, which `requires` rules out.
#[verifier::external_body]
fn write_u32_be(buf: &mut [u8], offset: usize, n: u32)
    requires
        offset + 4 <= old(buf)@.len(),
    ensures
        final(buf)@ == old(buf)@.take(offset as int) + be_bytes_u32(n) + old(buf)@.skip(
            offset + 4,
        ),
{
    BigEndian::write_u32(&mut buf[offset..], n)
}

/// The bytes of a sequence of words, each one big endian.
pub open spec fn frame_bytes(words: Seq<u32>) -> Seq<u8>
    decreases words.len(),
{
    if words.len() == 0 {
        Seq::empty()
    } else {
        frame_bytes(words.drop_last()) + be_bytes_u32(words.last())
    }
}

/// Each word of `words` with the bits outside `mask` cleared.
pub open spec fn masked(words: Seq<u32>, mask: u32) -> Seq<u32> {
    words.map_values(|w: u32| w & mask)
}

/// What a screen of `len` bytes shows after the words of `words`, masked, are
/// written into its whole four-byte groups; a trailing partial group keeps its bytes.
pub open spec fn frame_after(words: Seq<u32>, mask: u32, screen: Seq<u8>) -> Seq<u8> {
    let n = screen.len() / 4;
    frame_bytes(masked(words.take(n as int), mask)) + screen.skip((4 * n) as int)
}

proof fn lemma_frame_bytes_len(words: Seq<u32>)
    ensures
        frame_bytes(words).len() == 4 * words.len(),
    decreases words.len(),
{
    if words.len() > 0 {
        lemma_frame_bytes_len(words.drop_last());
    }
}

/// Writes the masked words into the whole four-byte groups of `screen`.
fn write_frame(words: &Vec<u32>, mask: u32, screen: &mut [u8])
    requires
        words.len() >= old(screen)@.len() / 4,
    ensures
        final(screen)@ == frame_after(words@, mask, old(screen)@),
{
    let len = screen.len();
    let n = len / 4;
    let ghost start = screen@;
    let mut count: usize = 0;
    while count < n
        invariant
            n == start.len() / 4,
            len == start.len(),
            count <= n,
            words.len() >= n,
            screen@.len() == start.len(),
            screen@ == frame_bytes(masked(words@.take(count as int), mask)) + start.skip(
                4 * count,
            ),
        decreases n - count,
    {
        let val = words[count] & mask;
        assert(4 * count + 4 <= start.len());
        proof {
            lemma_frame_bytes_len(masked(words@.take(count as int), mask));
        }
        write_u32_be(screen, 4 * count, val);
        proof {
            let prev = masked(words@.take(count as int), mask);
            let next = masked(words@.take(count + 1), mask);
            assert(next.drop_last() =~= prev);
            assert(next.last() == val);
            lemma_frame_bytes_len(prev);
            assert(screen@ =~= frame_bytes(next) + start.skip(4 * (count + 1)));
        }
        count = count + 1;
    }
}

/// An image of `width` by `height` packed colours, stored row by row.
pub struct Image {
    pub buffer: Vec<u32>,
    pub width: usize,
    pub height: usize,
}

impl Image {
    /// The buffer holds exactly one colour per pixel.
    pub open spec fn wf(&self) -> bool {
        self.buffer.len() == self.width * self.height
    }

    /// The index of pixel `(x, y)` in the buffer.
    pub open spec fn index_of(&self, x: int, y: int) -> int {
        y * self.width + x
    }

    /// A black image of the given size.
    pub fn new(width: usize, height: usize) -> (img: Image)
        requires
            width * height <= usize::MAX,
        ensures
            img.wf(),
            img.width == width,
            img.height == height,
            forall|i: int| 0 <= i < img.buffer.len() ==> img.buffer[i] == 0,
    {
        let mut buffer: Vec<u32> = Vec::new();
        let total = width * height;
        while buffer.len() < total
            invariant
                buffer.len() <= total,
                forall|i: int| 0 <= i < buffer.len() ==> buffer[i] == 0,
            decreases total - buffer.len(),
        {
            buffer.push(0);
        }
        Image { buffer, width, height }
    }

    /// Sets pixel `(x, y)` to `color` when it lies inside the image; does nothing
    /// otherwise.
    pub fn put_pixel(&mut self, x: usize, y: usize, color: u32)
        requires
            old(self).wf(),
        ensures
            final(self).wf(),
            final(self).width == old(self).width,
            final(self).height == old(self).height,
            (x < old(self).width && y < old(self).height) ==> final(self).buffer@
                == old(self).buffer@.update(old(self).index_of(x as int, y as int), color),
            !(x < old(self).width && y < old(self).height) ==> final(self).buffer@ == old(
                self,
            ).buffer@,
    {
        if x >= self.width || y >= self.height {
            return;
        }
        proof {
            vstd::arithmetic::mul::lemma_mul_inequality(y as int + 1, self.height as int, self.width as int);
            vstd::arithmetic::mul::lemma_mul_is_distributive_add_other_way(self.width as int, y as int, 1);
            vstd::arithmetic::mul::lemma_mul_is_commutative(self.width as int, self.height as int);
        }
        let ind = y * self.width + x;
        self.buffer.set(ind, color);
    }
}


/// Writes the colours of `image` into the whole four-byte groups of `screen`, each
/// colour big endian, one pixel per group; a trailing partial group is left as it was.
pub fn draw(image: &Image, screen: &mut [u8])
    requires
        image.buffer.len() >= old(screen)@.len() / 4,
    ensures
        final(screen)@ == frame_bytes(image.buffer@.take((old(screen)@.len() / 4) as int)) + old(
            screen,
        )@.skip((4 * (old(screen)@.len() / 4)) as int),
{
    let ghost start = screen@;
    write_frame(&image.buffer, 0xffff_ffffu32, screen);
    proof {
        let words = image.buffer@.take((start.len() / 4) as int);
        assert forall|i: int| 0 <= i < words.len() implies #[trigger] masked(words, 0xffff_ffffu32)[i]
            == words[i] by {
            let w = words[i];
            assert(w & 0xffff_ffffu32 == w) by (bit_vector);
        }
        assert(masked(words, 0xffff_ffffu32) =~= words);
    }
}

/// The channel value `v` scaled by 0.95, rounded down.
pub open spec fn faded(v: u8) -> u8 {
    (v as int * 19 / 20) as u8
}

/// A colour with each channel scaled by 0.95, rounded down.
pub open spec fn faded_color(c: u32) -> u32 {
    rgb_spec(faded(red_spec(c)), faded(green_spec(c)), faded(blue_spec(c)))
}

/// The background colour of buffer position `i` in an image `width` pixels wide:
/// a gradient down the rows.
pub open spec fn background_color(i: int, width: int) -> u32 {
    let y = (i / width) as u32;
    rgb_spec((y % 255) as u8, ((y / 2) % 255) as u8, ((y / 4) % 255) as u8)
}

/// Scales a channel by 0.95, rounding down.
pub fn fade_channel(v: u8) -> (f: u8)
    ensures
        f == faded(v),
{
    ((v as u32 * 19) / 20) as u8
}

/// Fading a colour scales each of its red, green and blue bytes by 19/20,
/// rounded down, and leaves the low byte zero.
pub proof fn law_fade_channels(c: u32)
    ensures
        red_spec(faded_color(c)) as int == red_spec(c) as int * 19 / 20,
        green_spec(faded_color(c)) as int == green_spec(c) as int * 19 / 20,
        blue_spec(faded_color(c)) as int == blue_spec(c) as int * 19 / 20,
        faded_color(c) & 0xffu32 == 0,
{
    let r = red_spec(c);
    let g = green_spec(c);
    let b = blue_spec(c);
    lemma_faded_value(r);
    lemma_faded_value(g);
    lemma_faded_value(b);
    lemma_channels_of_rgb(faded(r), faded(g), faded(b));
    let fr = faded(r);
    let fg = faded(g);
    let fb = faded(b);
    assert(rgb_spec(fr, fg, fb) & 0xffu32 == 0) by (bit_vector);
}

proof fn lemma_faded_value(v: u8)
    ensures
        faded(v) as int == v as int * 19 / 20,
{
    assert(0 <= v as int * 19 / 20 <= 255) by (nonlinear_arith)
        requires
            0 <= v <= 255,
    ;
}

impl Image {
    /// Dims every pixel: each channel is scaled by 0.95, rounded down.
    pub fn fade(&mut self)
        requires
            old(self).wf(),
        ensures
            final(self).wf(),
            final(self).width == old(self).width,
            final(self).height == old(self).height,
            final(self).buffer@ == old(self).buffer@.map_values(|c: u32| faded_color(c)),
            forall|i: int|
                0 <= i < old(self).buffer.len() ==> {
                    &&& red_spec(#[trigger] final(self).buffer@[i]) as int == red_spec(old(self).buffer@[i]) as int * 19 / 20
                    &&& green_spec(final(self).buffer@[i]) as int == green_spec(old(self).buffer@[i]) as int * 19 / 20
                    &&& blue_spec(final(self).buffer@[i]) as int == blue_spec(old(self).buffer@[i]) as int * 19 / 20
                },
    {
        let n = self.buffer.len();
        let ghost start = self.buffer@;
        let ghost w0 = self.width;
        let ghost h0 = self.height;
        let mut i: usize = 0;
        while i < n
            invariant
                self.width == w0,
                self.height == h0,
                n == start.len(),
                self.buffer@.len() == n,
                self.wf(),
                i <= n,
                forall|j: int| 0 <= j < i ==> self.buffer@[j] == faded_color(start[j]),
                forall|j: int| i <= j < n ==> self.buffer@[j] == start[j],
            decreases n - i,
        {
            let c = self.buffer[i];
            let r = fade_channel(c.r());
            let g = fade_channel(c.g());
            let b = fade_channel(c.b());
            let faded = from_rgb(r, g, b);
            self.buffer.set(i, faded);
            i = i + 1;
        }
        assert(self.buffer@ =~= start.map_values(|c: u32| faded_color(c)));
        assert forall|i: int| 0 <= i < n implies {
            &&& red_spec(#[trigger] self.buffer@[i]) as int == red_spec(start[i]) as int * 19 / 20
            &&& green_spec(self.buffer@[i]) as int == green_spec(start[i]) as int * 19 / 20
            &&& blue_spec(self.buffer@[i]) as int == blue_spec(start[i]) as int * 19 / 20
        } by {
            law_fade_channels(start[i]);
        }
    }

    /// Paints the background gradient: the pixel at buffer position `i` becomes
    /// `background_color(i, width)`.
    pub fn draw_background(&mut self)
        requires
            old(self).width > 0 || old(self).buffer.len() == 0,
        ensures
            final(self).width == old(self).width,
            final(self).height == old(self).height,
            final(self).buffer.len() == old(self).buffer.len(),
            forall|i: int|
                0 <= i < final(self).buffer.len() ==> #[trigger] final(self).buffer@[i]
                    == background_color(i, old(self).width as int),
    {
        let n = self.buffer.len();
        let ghost w0 = self.width;
        let ghost h0 = self.height;
        let mut count: usize = 0;
        while count < n
            invariant
                self.width == w0,
                self.height == h0,
                n == self.buffer.len(),
                count <= n,
                self.width > 0 || n == 0,
                forall|i: int|
                    0 <= i < count ==> #[trigger] self.buffer@[i] == background_color(
                        i,
                        self.width as int,
                    ),
            decreases n - count,
        {
            let y = (count / self.width) as u32;
            let r = y % 0xff;
            let g = (y / 2) % 0xff;
            let b = (y / 4) % 0xff;
            let pixel = r << 24u32 | g << 16u32 | b << 8u32;
            assert(pixel == rgb_spec(r as u8, g as u8, b as u8)) by (bit_vector)
                requires
                    r < 255,
                    g < 255,
                    b < 255,
                    pixel == r << 24u32 | g << 16u32 | b << 8u32,
            ;
            self.buffer.set(count, pixel);
            count = count + 1;
        }
    }

    /// Writes the colours into the whole four-byte groups of `screen`, each colour
    /// big endian and reduced to the top five bits of every byte; a trailing
    /// partial group is left as it was.
    pub fn render(&self, screen: &mut [u8], _frame_count: u32)
        requires
            self.buffer.len() >= old(screen)@.len() / 4,
        ensures
            final(screen)@ == frame_after(self.buffer@, 0xf8f8_f8f8u32, old(screen)@),
    {
        write_frame(&self.buffer, 0xf8f8_f8f8u32, screen);
    }
}

/// The colour given to plotted column `col_ind`.
pub open spec fn column_color_spec(col_ind: int) -> u32 {
    rgb_spec(
        ((col_ind * 30) % 256) as u8,
        ((255 - col_ind * 20) % 256) as u8,
        ((50 + col_ind * 10) % 256) as u8,
    )
}

/// The colour of plotted column `col_ind`; the green channel `255 - 20 * col_ind`
/// must not go below zero.
pub fn column_color(col_ind: usize) -> (c: u32)
    requires
        col_ind <= 12,
    ensures
        c == column_color_spec(col_ind as int),
{
    from_rgb(((col_ind * 30) % 256) as u8, (255 - (col_ind * 20)) as u8, (50 + col_ind * 10) as u8)
}

/// The colour of the zero line under each plotted column.
pub fn axis_color() -> (c: u32)
    ensures
        c == rgb_spec(128, 128, 128),
{
    from_rgb(128, 128, 128)
}

/// The file to plot: the first argument after the program's name, or
/// `data.csv` when there is none.
pub fn filename_from_args(args: &Vec<String>) -> (filename: String)
    ensures
        args.len() > 1 ==> filename@ == args[1]@,
        args.len() <= 1 ==> filename@ == "data.csv"@,
{
    if args.len() > 1 {
        args[1].clone()
    } else {
        String::from_str("data.csv")
    }
}

} // verus!
