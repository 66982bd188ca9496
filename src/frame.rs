use vstd::prelude::*;

verus! {

/// An RGBA color with eight bits per channel; equal when every channel is.
#[derive(Clone, Copy, Debug, PartialEq, Eq, Structural)]
pub struct Color {
    pub r: u8,
    pub g: u8,
    pub b: u8,
    pub a: u8,
}

impl Color {
    /// The color with channels red, green, blue and alpha, in that order.
    pub fn from_channels(c: [u8; 4]) -> (r: Color)
        ensures
            r == (Color { r: c[0], g: c[1], b: c[2], a: c[3] }),
    {
        Color { r: c[0], g: c[1], b: c[2], a: c[3] }
    }

    /// The channels red, green, blue and alpha, in that order.
    pub fn channels(&self) -> (r: [u8; 4])
        ensures
            r@ == seq![self.r, self.g, self.b, self.a],
    {
        let r = [self.r, self.g, self.b, self.a];
        assert(r@ =~= seq![self.r, self.g, self.b, self.a]);
        r
    }
}

/// The pixels, row by row, that nearest-neighbour resampling of a
/// `width` by `height` image with these pixels to `new_width` by
/// `new_height` yields.
pub uninterp spec fn nearest_resized(
    pixels: Seq<Color>,
    width: nat,
    height: nat,
    new_width: nat,
    new_height: nat,
) -> Seq<Color>;

/// Relies on image::imageops::resize with FilterType::Nearest: the result
/// has exactly the requested size, and its pixels depend on the input's size
/// and pixels and on the requested size alone.
#[verifier::external_body]
fn resize_nearest(img: &Frame, new_width: u32, new_height: u32) -> (r: Frame)
    requires
        img.wf(),
    ensures
        r.wf(),
        r.width == new_width,
        r.height == new_height,
        r.pixels@ == nearest_resized(
            img.pixels@,
            img.width as nat,
            img.height as nat,
            new_width as nat,
            new_height as nat,
        ),
{
    let source = image::RgbaImage::from_fn(img.width, img.height, |x, y| image::Rgba(img.rgba_at(x, y)));
    let out = image::imageops::resize(&source, new_width, new_height, image::imageops::FilterType::Nearest);
    let pixels = out.pixels().map(|p| Color::from_channels(p.0)).collect();
    Frame { width: new_width, height: new_height, pixels }
}

/// One raster: `width * height` colors, stored row by row.
pub struct Frame {
    width: u32,
    height: u32,
    pixels: Vec<Color>,
}

impl Frame {
    pub closed spec fn width_spec(&self) -> nat {
        self.width as nat
    }

    pub closed spec fn height_spec(&self) -> nat {
        self.height as nat
    }

    /// The pixels, row by row.
    pub closed spec fn pixels_spec(&self) -> Seq<Color> {
        self.pixels@
    }

    /// The color at column `x` of row `y`.
    pub closed spec fn at(&self, x: int, y: int) -> Color {
        self.pixels@[y * self.width + x]
    }

    /// Every pixel is stored, and nothing else.
    pub closed spec fn wf(&self) -> bool {
        self.pixels@.len() == self.width * self.height
    }

    /// A frame of the given size from its pixels, row by row; `None` when
    /// their number is not `width * height`.
    pub fn new(width: u32, height: u32, pixels: Vec<Color>) -> (r: Option<Frame>)
        ensures
            r.is_some() == (pixels@.len() == width as int * height as int),
            r matches Some(f) ==> {
                &&& f.wf()
                &&& f.width_spec() == width
                &&& f.height_spec() == height
                &&& forall|x: int, y: int|
                    0 <= x < width && 0 <= y < height ==> #[trigger] f.at(x, y) == pixels@[y
                        * width + x]
            },
    {
        let w = width as u64;
        let h = height as u64;
        assert(w * h <= u32::MAX * u32::MAX) by (nonlinear_arith)
            requires
                w <= u32::MAX,
                h <= u32::MAX,
        ;
        if pixels.len() as u64 == w * h {
            Some(Frame { width, height, pixels })
        } else {
            None
        }
    }

    pub fn width(&self) -> (r: u32)
        ensures
            r == self.width_spec(),
    {
        self.width
    }

    pub fn height(&self) -> (r: u32)
        ensures
            r == self.height_spec(),
    {
        self.height
    }

    /// The color at column `x` of row `y`.
    pub fn pixel(&self, x: u32, y: u32) -> (r: Color)
        requires
            self.wf(),
            x < self.width_spec(),
            y < self.height_spec(),
        ensures
            r == self.at(x as int, y as int),
    {
        let w = self.width as usize;
        let len = self.pixels.len();
        assert((y as int) * (w as int) + (x as int) < len) by (nonlinear_arith)
            requires
                len == (w as int) * (self.height as int),
                x < w,
                y < self.height,
        ;
        assert((y as int) * (w as int) <= len) by (nonlinear_arith)
            requires
                len == (w as int) * (self.height as int),
                y < self.height,
        ;
        self.pixels[(y as usize) * w + (x as usize)]
    }

    /// The channels of the color at column `x` of row `y`.
    pub fn rgba_at(&self, x: u32, y: u32) -> (r: [u8; 4])
        requires
            self.wf(),
            x < self.width_spec(),
            y < self.height_spec(),
        ensures
            r@ == seq![
                self.at(x as int, y as int).r,
                self.at(x as int, y as int).g,
                self.at(x as int, y as int).b,
                self.at(x as int, y as int).a,
            ],
    {
        self.pixel(x, y).channels()
    }

    /// The frame shrunk by `stride` in both directions (sizes rounded down),
    /// by nearest-neighbour resampling.
    pub fn downscale(&self, stride: u32) -> (r: Frame)
        requires
            self.wf(),
            stride >= 1,
        ensures
            r.wf(),
            r.width_spec() == self.width_spec() / (stride as nat),
            r.height_spec() == self.height_spec() / (stride as nat),
            r.pixels_spec() == nearest_resized(
                self.pixels_spec(),
                self.width_spec(),
                self.height_spec(),
                r.width_spec(),
                r.height_spec(),
            ),
    {
        resize_nearest(self, self.width / stride, self.height / stride)
    }
}

} // verus!
