use vstd::arithmetic::mul::*;
use vstd::prelude::*;

verus! {

/// Position `i` held inside `0..n`: positions past the end read the last one.
pub open spec fn clamp_to(i: int, n: int) -> int {
    if i >= n {
        n - 1
    } else {
        i
    }
}

/// A decoded image: `height` scanlines of `width` pixels, each pixel
/// `components` bytes of which the first three are red, green and blue.
pub struct ImageData {
    data: Vec<u8>,
    components: u32,
    width: u32,
    height: u32,
}

impl ImageData {
    pub closed spec fn bytes(self) -> Seq<u8> {
        self.data@
    }

    pub closed spec fn spec_components(self) -> int {
        self.components as int
    }

    pub closed spec fn spec_width(self) -> int {
        self.width as int
    }

    pub closed spec fn spec_height(self) -> int {
        self.height as int
    }

    pub open spec fn wf(self) -> bool {
        &&& self.spec_components() >= 3
        &&& self.bytes().len() == self.spec_width() * self.spec_height() * self.spec_components()
    }

    /// Where pixel `(i, j)` starts: `j` scanlines of `width · components` bytes,
    /// then `i` pixels.
    pub open spec fn offset(self, i: int, j: int) -> int {
        j * (self.spec_width() * self.spec_components()) + i * self.spec_components()
    }

    /// The colour of pixel `(i, j)`, each coordinate held inside the image.
    pub open spec fn spec_texel(self, i: int, j: int) -> (u8, u8, u8) {
        let o = self.offset(clamp_to(i, self.spec_width()), clamp_to(j, self.spec_height()));
        (self.bytes()[o], self.bytes()[o + 1], self.bytes()[o + 2])
    }

    /// An image from its decoded bytes; `None` unless each pixel has at least
    /// the three colour bytes and `data` holds exactly `width × height`
    /// pixels.
    pub fn new(data: Vec<u8>, components: u32, width: u32, height: u32) -> (r: Option<ImageData>)
        ensures
            r is Some <==> (components >= 3 && data@.len() == width * height * components),
            r matches Some(img) ==> {
                &&& img.wf()
                &&& img.bytes() == data@
                &&& img.spec_components() == components
                &&& img.spec_width() == width
                &&& img.spec_height() == height
            },
    {
        if components < 3 {
            return None;
        }
        let len = data.len() as u128;
        proof {
            lemma_mul_upper_bound(width as int, u32::MAX as int, height as int, u32::MAX as int);
            lemma_mul_upper_bound(
                width * height,
                u32::MAX * u32::MAX,
                components as int,
                u32::MAX as int,
            );
        }
        if len != width as u128 * height as u128 * components as u128 {
            return None;
        }
        Some(ImageData { data, components, width, height })
    }

    pub fn width(&self) -> (r: u32)
        ensures
            r == self.spec_width(),
    {
        self.width
    }

    pub fn height(&self) -> (r: u32)
        ensures
            r == self.spec_height(),
    {
        self.height
    }

    pub fn is_empty(&self) -> (r: bool)
        ensures
            r == (self.bytes().len() == 0),
    {
        self.data.len() == 0
    }

    /// The red, green and blue bytes of the pixel nearest to `(i, j)`: a
    /// coordinate past the edge reads the last column or row. `None` for an
    /// image with no pixels.
    pub fn texel(&self, i: u32, j: u32) -> (r: Option<(u8, u8, u8)>)
        requires
            self.wf(),
        ensures
            r is None <==> self.bytes().len() == 0,
            r matches Some(rgb) ==> rgb == self.spec_texel(i as int, j as int),
    {
        if self.data.len() == 0 {
            return None;
        }
        let w = self.width;
        let h = self.height;
        let c = self.components;
        proof {
            if w == 0 || h == 0 {
                lemma_mul_basics(h as int);
                lemma_mul_basics(c as int);
                lemma_mul_basics(w as int);
                lemma_mul_is_associative(w as int, h as int, c as int);
            }
        }
        let ci = if i >= w {
            w - 1
        } else {
            i
        };
        let cj = if j >= h {
            h - 1
        } else {
            j
        };
        proof {
            lemma_texel_in_bounds(w as int, h as int, c as int, ci as int, cj as int);
        }
        let row = w as usize * c as usize;
        let o = cj as usize * row + ci as usize * c as usize;
        Some((self.data[o], self.data[o + 1], self.data[o + 2]))
    }
}

/// The three colour bytes of a pixel inside the image lie inside its data.
proof fn lemma_texel_in_bounds(w: int, h: int, c: int, i: int, j: int)
    requires
        c >= 3,
        0 <= i < w,
        0 <= j < h,
    ensures
        0 <= w * c <= w * h * c,
        0 <= j * (w * c) <= (h - 1) * (w * c),
        0 <= i * c <= (w - 1) * c,
        j * (w * c) + i * c + 2 < w * h * c,
{
    assert(0 <= w * c <= w * h * c) by (nonlinear_arith)
        requires
            c >= 3,
            w >= 1,
            h >= 1,
    ;
    assert(0 <= j * (w * c) <= (h - 1) * (w * c)) by (nonlinear_arith)
        requires
            0 <= j <= h - 1,
            w * c >= 0,
    ;
    assert(0 <= i * c <= (w - 1) * c) by (nonlinear_arith)
        requires
            0 <= i <= w - 1,
            c >= 0,
    ;
    assert((h - 1) * (w * c) + (w - 1) * c + 2 < w * h * c) by (nonlinear_arith)
        requires
            c >= 3,
            w >= 1,
            h >= 1,
    ;
}

} // verus!
