//! The pixel buffer: a row-major grid of RGB triples, read and written by
//! position.

use vstd::prelude::*;

verus! {

/// An RGB triple: red, green, blue.
pub type Color = [u8; 3];

/// A pixel position: column, then row.
pub type Point = [u32; 2];

/// One proposed write: the position and the colour to put there.
pub type Change = (Point, Color);

/// Row-major index of the pixel in column `x` of row `y`.
pub open spec fn pixel_index(width: int, x: int, y: int) -> int {
    y * width + x
}

/// A position inside a `width` by `height` grid has an index inside the buffer.
pub proof fn lemma_pixel_index_in_range(width: int, height: int, x: int, y: int)
    requires
        0 <= x < width,
        0 <= y < height,
    ensures
        0 <= pixel_index(width, x, y) < width * height,
{
    assert(y * width + width <= height * width) by (nonlinear_arith)
        requires
            0 <= y < height,
            0 <= width,
    ;
    assert(0 <= y * width) by (nonlinear_arith)
        requires
            0 <= y,
            0 <= width,
    ;
    assert(height * width == width * height) by (nonlinear_arith);
}

/// Row `y` of a `width` by `height` grid starts at index `y * width`, and
/// ends where the next row starts, inside the buffer.
pub proof fn lemma_row_bounds(width: int, height: int, y: int)
    requires
        0 <= width,
        0 <= y < height,
    ensures
        0 <= y * width,
        y * width + width <= width * height,
        (y + 1) * width == y * width + width,
{
    assert(0 <= y * width && y * width + width <= width * height && (y + 1) * width == y * width
        + width) by (nonlinear_arith)
        requires
            0 <= width,
            0 <= y < height,
    ;
}

/// Two positions of one grid share an index only if they are the same position.
pub proof fn lemma_pixel_index_injective(width: int, x1: int, y1: int, x2: int, y2: int)
    requires
        0 <= x1 < width,
        0 <= x2 < width,
        pixel_index(width, x1, y1) == pixel_index(width, x2, y2),
    ensures
        x1 == x2,
        y1 == y2,
{
    if y1 < y2 {
        assert(y1 * width + width <= y2 * width) by (nonlinear_arith)
            requires
                y1 < y2,
                0 <= width,
        ;
    } else if y2 < y1 {
        assert(y2 * width + width <= y1 * width) by (nonlinear_arith)
            requires
                y2 < y1,
                0 <= width,
        ;
    }
}

/// Black: all three channels 0.
pub open spec fn black() -> Color {
    [0u8, 0u8, 0u8]
}

/// The colours as one run of bytes: red, green, blue of the first pixel,
/// then of the second, and so on.
pub open spec fn raw_bytes(pixels: Seq<Color>) -> Seq<u8> {
    Seq::new(3 * pixels.len(), |i: int| pixels[i / 3][i % 3])
}

/// An image: `width * height` colours, row by row from the top.
#[derive(Clone, Debug, PartialEq, Eq)]
pub struct Image {
    width: u32,
    height: u32,
    pixels: Vec<Color>,
}

impl View for Image {
    type V = Seq<Color>;

    /// The colours in row-major order.
    closed spec fn view(&self) -> Seq<Color> {
        self.pixels@
    }
}

impl Image {
    /// Number of columns.
    pub closed spec fn spec_width(&self) -> u32 {
        self.width
    }

    /// Number of rows.
    pub closed spec fn spec_height(&self) -> u32 {
        self.height
    }

    /// The buffer holds exactly one colour per position, and its three bytes
    /// per colour can be counted in a `usize`.
    pub open spec fn wf(&self) -> bool {
        &&& self@.len() == self.spec_width() * self.spec_height()
        &&& 3 * self@.len() <= usize::MAX
    }

    /// Whether column `x`, row `y` lies inside the image.
    pub open spec fn contains(&self, x: int, y: int) -> bool {
        0 <= x < self.spec_width() && 0 <= y < self.spec_height()
    }

    /// The colour in column `x` of row `y`.
    pub open spec fn pixel(&self, x: int, y: int) -> Color {
        self@[pixel_index(self.spec_width() as int, x, y)]
    }

    /// Whether both images have the same number of columns and of rows.
    pub open spec fn same_size(&self, other: &Image) -> bool {
        self.spec_width() == other.spec_width() && self.spec_height() == other.spec_height()
    }

    /// A black image of the given size.
    pub fn blank(width: u32, height: u32) -> (image: Image)
        requires
            3 * (width * height) <= usize::MAX,
        ensures
            image.wf(),
            image.spec_width() == width,
            image.spec_height() == height,
            forall|i: int| 0 <= i < image@.len() ==> image@[i] == black(),
    {
        assert(0 <= width * height) by (nonlinear_arith);
        let count: usize = width as usize * height as usize;
        let mut pixels: Vec<Color> = Vec::new();
        let mut i: usize = 0;
        while i < count
            invariant
                i <= count,
                pixels@.len() == i,
                forall|j: int| 0 <= j < i ==> pixels@[j] == black(),
            decreases count - i,
        {
            pixels.push([0, 0, 0]);
            i = i + 1;
        }
        Image { width, height, pixels }
    }

    /// The image of the given size whose colours are `bytes`, read three at a
    /// time, row by row: red, green, blue of each pixel. There is one exactly
    /// when `bytes` holds three bytes per pixel.
    pub fn from_raw(width: u32, height: u32, bytes: &[u8]) -> (image: Option<Image>)
        ensures
            image is Some <==> bytes@.len() == 3 * (width * height),
            image matches Some(img) ==> {
                &&& img.wf()
                &&& img.spec_width() == width
                &&& img.spec_height() == height
                &&& raw_bytes(img@) == bytes@
            },
    {
        assert(0 <= width * height <= 0xffff_ffff * 0xffff_ffff) by (nonlinear_arith);
        let wanted: u128 = 3 * (width as u128 * height as u128);
        if bytes.len() as u128 != wanted {
            return None;
        }
        let count: usize = width as usize * height as usize;
        assert(3 * count == bytes.len());
        let mut pixels: Vec<Color> = Vec::new();
        let mut i: usize = 0;
        while i < count
            invariant
                bytes@.len() == 3 * count,
                3 * count <= usize::MAX,
                i <= count,
                pixels@.len() == i,
                forall|j: int, k: int|
                    0 <= j < i && 0 <= k < 3 ==> (#[trigger] pixels@[j][k]) == bytes@[3 * j + k],
            decreases count - i,
        {
            pixels.push([bytes[3 * i], bytes[3 * i + 1], bytes[3 * i + 2]]);
            i = i + 1;
        }
        assert(raw_bytes(pixels@) =~= bytes@);
        Some(Image { width, height, pixels })
    }

    /// The colours as one run of bytes, as `from_raw` reads them.
    pub fn to_bytes(&self) -> (bytes: Vec<u8>)
        requires
            self.wf(),
        ensures
            bytes@ == raw_bytes(self@),
    {
        let mut bytes: Vec<u8> = Vec::new();
        let mut i: usize = 0;
        while i < self.pixels.len()
            invariant
                i <= self.pixels@.len(),
                bytes@.len() == 3 * i,
                forall|j: int| 0 <= j < 3 * i ==> bytes@[j] == self.pixels@[j / 3][j % 3],
            decreases self.pixels@.len() - i,
        {
            let c: Color = self.pixels[i];
            bytes.push(c[0]);
            bytes.push(c[1]);
            bytes.push(c[2]);
            i = i + 1;
        }
        assert(bytes@ =~= raw_bytes(self@));
        bytes
    }

    /// Number of columns.
    #[verifier::when_used_as_spec(spec_width)]
    pub fn width(&self) -> (w: u32)
        ensures
            w == self.spec_width(),
    {
        self.width
    }

    /// Number of rows.
    #[verifier::when_used_as_spec(spec_height)]
    pub fn height(&self) -> (h: u32)
        ensures
            h == self.spec_height(),
    {
        self.height
    }

    /// Index into the buffer of a position inside the image.
    fn offset(&self, point: Point) -> (i: usize)
        requires
            self.wf(),
            self.contains(point[0] as int, point[1] as int),
        ensures
            i == pixel_index(self.spec_width() as int, point[0] as int, point[1] as int),
            i < self@.len(),
    {
        proof {
            lemma_pixel_index_in_range(
                self.width as int,
                self.height as int,
                point[0] as int,
                point[1] as int,
            );
        }
        let row: usize = point[1] as usize;
        let stride: usize = self.width as usize;
        assert(0 <= row * stride) by (nonlinear_arith);
        row * stride + point[0] as usize
    }

    /// The position in column `x` of row `y`, if it lies inside the image.
    pub fn locate(&self, x: isize, y: isize) -> (point: Option<Point>)
        ensures
            point is Some <==> self.contains(x as int, y as int),
            point matches Some(p) ==> p[0] == x && p[1] == y,
    {
        if x >= 0 && y >= 0 && (x as u64) < (self.width as u64) && (y as u64) < (self.height
            as u64) {
            Some([x as u32, y as u32])
        } else {
            None
        }
    }

    /// The colour at `point`, which must lie inside the image.
    pub fn color_at(&self, point: Point) -> (color: Color)
        requires
            self.wf(),
            self.contains(point[0] as int, point[1] as int),
        ensures
            color == self.pixel(point[0] as int, point[1] as int),
    {
        let i: usize = self.offset(point);
        self.pixels[i]
    }

    /// A handle on the colour at `point`, which must lie inside the image:
    /// what is written through it is the only thing that changes.
    pub fn color_at_mut(&mut self, point: Point) -> (color: &mut Color)
        requires
            old(self).wf(),
            old(self).contains(point[0] as int, point[1] as int),
        ensures
            *color == old(self).pixel(point[0] as int, point[1] as int),
            final(self)@ == old(self)@.update(
                pixel_index(old(self).spec_width() as int, point[0] as int, point[1] as int),
                *final(color),
            ),
            final(self).same_size(old(self)),
            final(self).wf(),
    {
        let i: usize = self.offset(point);
        &mut self.pixels[i]
    }

    /// Writes `color` at `point`, which must lie inside the image.
    pub fn set_color_at(&mut self, point: Point, color: Color)
        requires
            old(self).wf(),
            old(self).contains(point[0] as int, point[1] as int),
        ensures
            final(self)@ == old(self)@.update(
                pixel_index(old(self).spec_width() as int, point[0] as int, point[1] as int),
                color,
            ),
            final(self).same_size(old(self)),
            final(self).wf(),
    {
        *self.color_at_mut(point) = color;
    }
}

} // verus!
