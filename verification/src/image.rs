//! The pixel buffer: raw RGBA byte storage with bounds-checked
//! coordinate-to-offset mapping, and the 3x3 neighborhood sampler.

use vstd::prelude::*;

verus! {

/// An 8-bit RGBA color. A pixel is opaque exactly when `a == 255`; any
/// smaller alpha counts as transparent for fill eligibility.
#[derive(Debug, Clone, Copy, PartialEq, Eq, Structural)]
pub struct Color {
    pub r: u8,
    pub g: u8,
    pub b: u8,
    pub a: u8,
}

/// A widened color used as scratch while summing neighbor channels: a `u16`
/// holds the sum of up to eight values of range `[0, 255]` without overflow.
#[derive(Debug, Clone, Copy, PartialEq, Eq, Structural)]
pub struct Color16 {
    pub r: u16,
    pub g: u16,
    pub b: u16,
    pub a: u16,
}

/// A coordinate. Signed, so that neighbor computation can represent
/// out-of-frame positions before bounds-checking.
#[derive(Debug, Clone, Copy, PartialEq, Eq, Structural)]
pub struct Pixel(pub i64, pub i64);

/// A pixel write proposed during a scan but not yet applied.
#[derive(Debug, Clone, Copy, PartialEq, Eq, Structural)]
pub struct Change {
    pub loc: Pixel,
    pub col: Color,
}

/// An RGBA raster: `width * height` pixels of four bytes each (order
/// R, G, B, A), row-major, origin top-left.
#[verifier::ext_equal]
pub struct Image {
    pub data: Vec<u8>,
    pub width: u32,
    pub height: u32,
}

impl Image {
    /// The buffer holds exactly four bytes for every pixel.
    pub open spec fn wf(&self) -> bool {
        self.data@.len() == self.width as int * self.height as int * 4
    }

    pub open spec fn in_bounds(&self, x: int, y: int) -> bool {
        0 <= x < self.width as int && 0 <= y < self.height as int
    }

    /// Byte offset of the 4-byte slot of the pixel at `(x, y)`.
    pub open spec fn offset_of(&self, x: int, y: int) -> int {
        (y * self.width as int + x) * 4
    }

    pub open spec fn color_at(&self, x: int, y: int) -> Color {
        Color {
            r: self.data@[self.offset_of(x, y)],
            g: self.data@[self.offset_of(x, y) + 1],
            b: self.data@[self.offset_of(x, y) + 2],
            a: self.data@[self.offset_of(x, y) + 3],
        }
    }

    pub open spec fn opaque_at(&self, x: int, y: int) -> bool {
        self.data@[self.offset_of(x, y) + 3] == 255
    }

    /// One slot of a sampled neighborhood: the widened color at `(x, y)`,
    /// or absent when the coordinate lies outside the frame.
    pub open spec fn slot_at(&self, x: int, y: int) -> Option<Color16> {
        if self.in_bounds(x, y) {
            Some(Color16 {
                r: self.color_at(x, y).r as u16,
                g: self.color_at(x, y).g as u16,
                b: self.color_at(x, y).b as u16,
                a: self.color_at(x, y).a as u16,
            })
        } else {
            None
        }
    }

    /// The sampled 3x3 neighborhood around `(cx, cy)`: nine optional widened
    /// colors, slot index `(dx + 1) + (dy + 1) * 3` for `dx, dy` in
    /// `{-1, 0, 1}`; index 4 is the center itself.
    pub open spec fn kernel_at(&self, cx: int, cy: int) -> Seq<Option<Color16>> {
        Seq::new(9, |i: int| self.slot_at(cx - 1 + i % 3, cy - 1 + i / 3))
    }
}

/// `data` with the 4-byte slot at `off` overwritten by `c`.
pub open spec fn written(data: Seq<u8>, off: int, c: Color) -> Seq<u8> {
    data.update(off, c.r).update(off + 1, c.g).update(off + 2, c.b).update(off + 3, c.a)
}

/// An in-bounds coordinate maps to a 4-byte slot that lies inside the buffer.
pub proof fn lemma_offset_bound(x: int, y: int, w: int, h: int)
    requires
        0 <= x < w,
        0 <= y < h,
    ensures
        0 <= y * w + x,
        y * w + x < w * h,
        (y * w + x) * 4 + 4 <= w * h * 4,
{
    assert(0 <= y * w + x && y * w + x < w * h) by (nonlinear_arith)
        requires
            0 <= x < w,
            0 <= y < h,
    {}
}

/// At the top-left corner only three neighbor slots can exist, not eight:
/// the five slots reaching above or to the left of the frame are always
/// absent, and in a frame of at least 2 x 2 pixels the right, lower and
/// lower-right neighbors are present.
pub proof fn lemma_corner_kernel(img: Image)
    ensures
        img.kernel_at(0, 0)[0] is None,
        img.kernel_at(0, 0)[1] is None,
        img.kernel_at(0, 0)[2] is None,
        img.kernel_at(0, 0)[3] is None,
        img.kernel_at(0, 0)[6] is None,
        img.width >= 1 && img.height >= 1 ==> img.kernel_at(0, 0)[4] is Some,
        img.width >= 2 && img.height >= 2 ==> img.kernel_at(0, 0)[5] is Some
            && img.kernel_at(0, 0)[7] is Some && img.kernel_at(0, 0)[8] is Some,
{
    assert(img.kernel_at(0, 0)[0] == img.slot_at(-1, -1));
    assert(img.kernel_at(0, 0)[1] == img.slot_at(0, -1));
    assert(img.kernel_at(0, 0)[2] == img.slot_at(1, -1));
    assert(img.kernel_at(0, 0)[3] == img.slot_at(-1, 0));
    assert(img.kernel_at(0, 0)[4] == img.slot_at(0, 0));
    assert(img.kernel_at(0, 0)[5] == img.slot_at(1, 0));
    assert(img.kernel_at(0, 0)[6] == img.slot_at(-1, 1));
    assert(img.kernel_at(0, 0)[7] == img.slot_at(0, 1));
    assert(img.kernel_at(0, 0)[8] == img.slot_at(1, 1));
}

/// In a single-column frame no neighbor exists off the column: every slot
/// of the left and right kernel columns is absent, whatever the center row.
/// Out-of-frame slots are the designed representation of missing data, not
/// a fault.
pub proof fn lemma_single_column_kernel(img: Image, y: int)
    requires
        img.width == 1,
    ensures
        forall|i: int| 0 <= i < 9 && i % 3 != 1 ==> img.kernel_at(0, y)[i] is None,
{
    assert forall|i: int| 0 <= i < 9 && i % 3 != 1 implies img.kernel_at(0, y)[i] is None by {
        assert(img.kernel_at(0, y)[i] == img.slot_at(-1 + i % 3, y - 1 + i / 3));
    }
}

/// In a single-row frame no neighbor exists off the row: every slot of the
/// top and bottom kernel rows is absent, whatever the center column.
pub proof fn lemma_single_row_kernel(img: Image, x: int)
    requires
        img.height == 1,
    ensures
        forall|i: int| 0 <= i < 9 && i / 3 != 1 ==> img.kernel_at(x, 0)[i] is None,
{
    assert forall|i: int| 0 <= i < 9 && i / 3 != 1 implies img.kernel_at(x, 0)[i] is None by {
        assert(img.kernel_at(x, 0)[i] == img.slot_at(x - 1 + i % 3, -1 + i / 3));
    }
}

impl Image {
    /// True exactly when the pixel at `p` is opaque.
    pub fn test_pixel(&self, p: &Pixel) -> (r: bool)
        requires
            self.wf(),
            self.in_bounds(p.0 as int, p.1 as int),
        ensures
            r == self.opaque_at(p.0 as int, p.1 as int),
    {
        let x = p.0 as usize;
        let y = p.1 as usize;
        let w = self.width as usize;
        let n = self.data.len();
        proof {
            lemma_offset_bound(x as int, y as int, w as int, self.height as int);
            assert(w as int * self.height as int <= n as int);
        }
        let pos: usize = (y * w + x) * 4;
        self.data[pos + 3] == 255
    }

    /// Writes the color `c` into the 4-byte slot of the pixel at `p`,
    /// leaving every other byte of the buffer unchanged.
    pub fn set_pixel(&mut self, p: &Pixel, c: &Color)
        requires
            old(self).wf(),
            old(self).in_bounds(p.0 as int, p.1 as int),
        ensures
            final(self).wf(),
            final(self).width == old(self).width,
            final(self).height == old(self).height,
            final(self).data@ == written(
                old(self).data@,
                old(self).offset_of(p.0 as int, p.1 as int),
                *c,
            ),
    {
        let x = p.0 as usize;
        let y = p.1 as usize;
        let w = self.width as usize;
        let n = self.data.len();
        proof {
            lemma_offset_bound(x as int, y as int, w as int, self.height as int);
            assert(w as int * self.height as int <= n as int);
        }
        let pos: usize = (y * w + x) * 4;
        self.data.set(pos, c.r);
        self.data.set(pos + 1, c.g);
        self.data.set(pos + 2, c.b);
        self.data.set(pos + 3, c.a);
    }

    /// Samples the 3x3 neighborhood around `p` in row-major order (top row
    /// first), reading the widened color of each in-frame coordinate and
    /// marking out-of-frame coordinates absent.
    pub fn get_kernel(&self, p: &Pixel) -> (kern: Vec<Option<Color16>>)
        requires
            self.wf(),
            i64::MIN + 1 <= p.0 <= i64::MAX - 2,
            i64::MIN + 1 <= p.1 <= i64::MAX - 2,
        ensures
            kern@ == self.kernel_at(p.0 as int, p.1 as int),
            kern@.len() == 9,
    {
        let mut kern: Vec<Option<Color16>> = Vec::new();
        let mut dy: i64 = 0;
        while dy < 3
            invariant
                self.wf(),
                i64::MIN + 1 <= p.0 <= i64::MAX - 2,
                i64::MIN + 1 <= p.1 <= i64::MAX - 2,
                0 <= dy <= 3,
                kern@.len() == dy * 3,
                forall|j: int| 0 <= j < kern@.len() ==> kern@[j] == self.slot_at(
                    p.0 as int - 1 + j % 3,
                    p.1 as int - 1 + j / 3,
                ),
            decreases 3 - dy,
        {
            let mut dx: i64 = 0;
            while dx < 3
                invariant
                    self.wf(),
                    i64::MIN + 1 <= p.0 <= i64::MAX - 2,
                    i64::MIN + 1 <= p.1 <= i64::MAX - 2,
                    0 <= dy < 3,
                    0 <= dx <= 3,
                    kern@.len() == dy * 3 + dx,
                    forall|j: int| 0 <= j < kern@.len() ==> kern@[j] == self.slot_at(
                        p.0 as int - 1 + j % 3,
                        p.1 as int - 1 + j / 3,
                    ),
                decreases 3 - dx,
            {
                let x = p.0 - 1 + dx;
                let y = p.1 - 1 + dy;
                proof {
                    assert((dy * 3 + dx) % 3 == dx && (dy * 3 + dx) / 3 == dy) by (nonlinear_arith)
                        requires
                            0 <= dx < 3,
                            0 <= dy,
                    {}
                }
                if x < 0 || y < 0 || x >= self.width as i64 || y >= self.height as i64 {
                    kern.push(None);
                } else {
                    let xu = x as usize;
                    let yu = y as usize;
                    let w = self.width as usize;
                    let n = self.data.len();
                    proof {
                        lemma_offset_bound(xu as int, yu as int, w as int, self.height as int);
                        assert(w as int * self.height as int <= n as int);
                    }
                    let pos: usize = (yu * w + xu) * 4;
                    kern.push(Some(Color16 {
                        r: self.data[pos] as u16,
                        g: self.data[pos + 1] as u16,
                        b: self.data[pos + 2] as u16,
                        a: self.data[pos + 3] as u16,
                    }));
                }
                dx = dx + 1;
            }
            dy = dy + 1;
        }
        proof {
            assert(kern@ =~= self.kernel_at(p.0 as int, p.1 as int));
        }
        kern
    }
}

} // verus!
