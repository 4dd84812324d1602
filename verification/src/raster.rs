//! The picture of a partition, painted into a `visioncortex::ColorImage`.
//!
//! The image type belongs to `visioncortex` and is opaque here. What it holds
//! is named by three functions, and the two calls that make and fill an image
//! are believed to do to those what their source shows; nothing of this file's
//! first half is proved. The second half is the model of the picture and of
//! the stages of painting it, with its proofs.

use vstd::prelude::*;
use visioncortex::ColorImage;
use crate::color::Color;
use crate::partition::Partition;

verus! {

/// `visioncortex::ColorImage`, an image with four bytes per pixel.
#[verifier::external_type_specification]
#[verifier::external_body]
pub struct ExColorImage(visioncortex::ColorImage);

/// The field `pixels` of a `ColorImage`: its bytes, four per pixel in the
/// order red, green, blue, alpha, the pixels row by row.
pub uninterp spec fn image_pixels(image: ColorImage) -> Seq<u8>;

/// The field `width` of a `ColorImage`: the number of pixels in a row.
pub uninterp spec fn image_width(image: ColorImage) -> nat;

/// The field `height` of a `ColorImage`: the number of rows.
pub uninterp spec fn image_height(image: ColorImage) -> nat;

/// Calls `ColorImage::new_w_h`. Believed: the image has the given width and
/// height and `width * height * 4` bytes, all zero. The product is required
/// to fit a `usize`, since the call computes it.
#[verifier::external_body]
pub(crate) fn blank_image(width: usize, height: usize) -> (image: ColorImage)
    requires
        width * height * 4 <= usize::MAX,
    ensures
        image_width(image) == width,
        image_height(image) == height,
        image_pixels(image) == Seq::new((width * height * 4) as nat, |i: int| 0u8),
{
    ColorImage::new_w_h(width, height)
}

/// The bytes `bytes` with the four from offset `at` on replaced by the red,
/// green, blue and alpha of `color`.
pub open spec fn stamped(bytes: Seq<u8>, at: int, color: Color) -> Seq<u8> {
    bytes.update(at, color.r).update(at + 1, color.g).update(at + 2, color.b).update(
        at + 3,
        color.a,
    )
}

/// Calls `ColorImage::set_pixel` with the color as a `visioncortex::Color`.
/// Believed: the four bytes of pixel `y * width + x` become the red, green,
/// blue and alpha of the color, and nothing else changes. Those four bytes
/// are required to exist, since the call indexes them.
#[verifier::external_body]
pub(crate) fn paint(image: &mut ColorImage, x: usize, y: usize, color: Color)
    requires
        4 * (y * image_width(*old(image)) + x) + 4 <= image_pixels(*old(image)).len(),
    ensures
        image_width(*final(image)) == image_width(*old(image)),
        image_height(*final(image)) == image_height(*old(image)),
        image_pixels(*final(image)) == stamped(
            image_pixels(*old(image)),
            4 * (y * image_width(*old(image)) + x),
            color,
        ),
{
    image.set_pixel(x, y, &visioncortex::Color::new_rgba(color.r, color.g, color.b, color.a))
}

impl Partition {
    /// The bytes of the picture of the partition: four for every pixel, those
    /// of the color of the aggregate that owns it.
    pub open spec fn raster(self) -> Seq<u8> {
        Seq::new(
            (4 * self.owner.len()) as nat,
            |i: int| self.colors[self.owner[i / 4] as int].bytes()[i % 4],
        )
    }

    /// Whether pixel `p` is painted once the aggregates before `a` and the
    /// first `k` pixels of aggregate `a` are.
    pub open spec fn is_painted(self, p: int, a: int, k: int) -> bool {
        self.owner[p] < a || (self.owner[p] == a && self.pixels[a].take(k).contains(p as u32))
    }

    /// The picture once the aggregates before `a` and the first `k` pixels of
    /// aggregate `a` are painted on a blank raster.
    pub open spec fn painted(self, a: int, k: int) -> Seq<u8> {
        Seq::new(
            (4 * self.owner.len()) as nat,
            |i: int|
                if self.is_painted(i / 4, a, k) {
                    self.colors[self.owner[i / 4] as int].bytes()[i % 4]
                } else {
                    0u8
                },
        )
    }

    /// With nothing painted the raster is blank.
    pub proof fn lemma_painted_nothing(self)
        requires
            self.wf(),
        ensures
            self.painted(0, 0) =~= Seq::new((4 * self.owner.len()) as nat, |i: int| 0u8),
    {
        assert forall|i: int| 0 <= i < 4 * self.owner.len() implies #[trigger] self.painted(0, 0)[i]
            == 0u8 by {
            assert(self.owner[i / 4] > 0);
        }
    }

    /// Painting pixel `k` of aggregate `a` in the color of `a` is the next
    /// stage of the picture.
    pub proof fn lemma_painted_pixel(self, a: int, k: int)
        requires
            self.wf(),
            0 <= a < self.len(),
            0 <= k < self.pixels[a].len(),
        ensures
            self.painted(a, k + 1) =~= stamped(
                self.painted(a, k),
                4 * (self.pixels[a][k] as int),
                self.colors[a],
            ),
    {
        let v = self.pixels[a][k];
        let at = 4 * (v as int);
        let color = self.colors[a];
        let next = stamped(self.painted(a, k), at, color);
        let done = self.pixels[a].take(k);
        let more = self.pixels[a].take(k + 1);
        assert(more =~= done.push(v));
        assert((v as int) < self.owner.len() && self.owner[v as int] == a);
        assert forall|i: int| 0 <= i < 4 * self.owner.len() implies #[trigger] self.painted(
            a,
            k + 1,
        )[i] == next[i] by {
            let p = i / 4;
            if p == v as int {
                assert(more[k] == v);
                assert(more.contains(p as u32));
                assert(color.bytes()[0] == color.r);
                assert(color.bytes()[1] == color.g);
                assert(color.bytes()[2] == color.b);
                assert(color.bytes()[3] == color.a);
            } else {
                if done.contains(p as u32) {
                    let j = choose|j: int| 0 <= j < done.len() && done[j] == p as u32;
                    assert(more[j] == p as u32);
                }
                if more.contains(p as u32) {
                    let j = choose|j: int| 0 <= j < more.len() && more[j] == p as u32;
                    assert(done[j] == p as u32);
                }
            }
        }
    }

    /// With every pixel of aggregate `a` painted, the picture is at the start
    /// of aggregate `a + 1`.
    pub proof fn lemma_painted_aggregate(self, a: int)
        requires
            self.wf(),
            0 <= a < self.len(),
        ensures
            self.painted(a, self.pixels[a].len() as int) =~= self.painted(a + 1, 0),
    {
        let all = self.pixels[a].take(self.pixels[a].len() as int);
        assert(all =~= self.pixels[a]);
        assert forall|i: int| 0 <= i < 4 * self.owner.len() implies #[trigger] self.painted(
            a,
            self.pixels[a].len() as int,
        )[i] == self.painted(a + 1, 0)[i] by {
            let p = i / 4;
            assert(self.pixels[self.owner[p] as int].contains(p as u32));
            let none = self.pixels[a + 1].take(0);
            if none.contains(p as u32) {
                let j = choose|j: int| 0 <= j < none.len() && none[j] == p as u32;
            }
        }
    }

    /// With every aggregate painted, the picture is the raster.
    pub proof fn lemma_painted_all(self)
        requires
            self.wf(),
        ensures
            self.painted(self.len() as int, 0) =~= self.raster(),
    {
        assert forall|i: int| 0 <= i < 4 * self.owner.len() implies #[trigger] self.painted(
            self.len() as int,
            0,
        )[i] == self.raster()[i] by {
            assert(self.owner[i / 4] < self.len());
        }
    }
}

} // verus!
