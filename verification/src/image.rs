//! The final image: a dense grid of RGBA pixels, written once by a renderer
//! and handed to display or encoding collaborators as a flat byte buffer.

use vstd::prelude::*;

verus! {

/// One RGBA pixel.
#[derive(Clone, Copy, PartialEq, Eq, Structural, Debug)]
pub struct Pix {
    pub r: u8,
    pub g: u8,
    pub b: u8,
    pub alpha: u8,
}

impl Default for Pix {
    /// The fully transparent black pixel that a fresh image is filled with.
    fn default() -> (p: Pix)
        ensures
            p == (Pix { r: 0, g: 0, b: 0, alpha: 0 }),
    {
        Pix { r: 0, g: 0, b: 0, alpha: 0 }
    }
}

/// A `width` by `height` pixel grid stored row-major: pixel `(x, y)` lives at
/// index `x + y * width`.
pub struct Image {
    pub width: usize,
    pub height: usize,
    pub pixels: Vec<Pix>,
}

impl Image {
    /// The storage matches the advertised dimensions.
    pub open spec fn wf(self) -> bool {
        self.pixels.len() == self.width * self.height
    }

    pub open spec fn pixel_index(self, x: int, y: int) -> int {
        x + y * self.width
    }

    /// A fresh image of the given dimensions, every pixel transparent black.
    pub fn new(width: usize, height: usize) -> (img: Image)
        requires
            width * height <= usize::MAX,
        ensures
            img.wf(),
            img.width == width,
            img.height == height,
            forall|i: int| 0 <= i < img.pixels.len() ==> img.pixels[i] == (Pix {
                r: 0,
                g: 0,
                b: 0,
                alpha: 0,
            }),
    {
        let n = width * height;
        let mut pixels_vec: Vec<Pix> = Vec::new();
        let mut i: usize = 0;
        while i < n
            invariant
                i <= n,
                pixels_vec.len() == i,
                forall|j: int| 0 <= j < i ==> pixels_vec[j] == (Pix {
                    r: 0,
                    g: 0,
                    b: 0,
                    alpha: 0,
                }),
            decreases n - i,
        {
            pixels_vec.push(Pix { r: 0, g: 0, b: 0, alpha: 0 });
            i = i + 1;
        }
        Image { width, height, pixels: pixels_vec }
    }

    /// Overwrite the pixel at `(x, y)`; every other pixel is untouched.
    pub fn set_pixel(&mut self, x: usize, y: usize, pix: Pix)
        requires
            old(self).wf(),
            x < old(self).width,
            y < old(self).height,
        ensures
            final(self).wf(),
            final(self).width == old(self).width,
            final(self).height == old(self).height,
            final(self).pixels@ == old(self).pixels@.update(
                old(self).pixel_index(x as int, y as int),
                pix,
            ),
    {
        proof {
            assert(x + y * self.width < self.width * self.height) by (nonlinear_arith)
                requires
                    x < self.width,
                    y < self.height,
            ;
        }
        let idx = x + y * self.width;
        self.pixels.set(idx, pix);
    }

    /// Serialize the pixels into `frame` as RGBA byte quads, pixel `i` into
    /// bytes `4*i .. 4*i + 4`; any tail shorter than a quad is left as it was.
    pub fn draw(&self, frame: &mut Vec<u8>)
        requires
            self.wf(),
            old(frame).len() / 4 <= self.pixels.len(),
        ensures
            final(frame).len() == old(frame).len(),
            forall|i: int| 0 <= i < old(frame).len() / 4 ==> {
                &&& final(frame)[4 * i] == self.pixels[i].r
                &&& final(frame)[4 * i + 1] == self.pixels[i].g
                &&& final(frame)[4 * i + 2] == self.pixels[i].b
                &&& final(frame)[4 * i + 3] == self.pixels[i].alpha
            },
            forall|j: int|
                4 * (old(frame).len() / 4) <= j < old(frame).len()
                    ==> final(frame)[j] == old(frame)[j],
    {
        let chunks = frame.len() / 4;
        let mut i: usize = 0;
        while i < chunks
            invariant
                i <= chunks,
                chunks == frame.len() / 4,
                chunks <= self.pixels.len(),
                self.wf(),
                frame.len() == old(frame).len(),
                forall|k: int| 0 <= k < i ==> {
                    &&& frame[4 * k] == self.pixels[k].r
                    &&& frame[4 * k + 1] == self.pixels[k].g
                    &&& frame[4 * k + 2] == self.pixels[k].b
                    &&& frame[4 * k + 3] == self.pixels[k].alpha
                },
                forall|j: int| 4 * i <= j < frame.len() ==> frame[j] == old(frame)[j],
            decreases chunks - i,
        {
            let pix = self.pixels[i];
            frame.set(4 * i, pix.r);
            frame.set(4 * i + 1, pix.g);
            frame.set(4 * i + 2, pix.b);
            frame.set(4 * i + 3, pix.alpha);
            i = i + 1;
        }
    }
}

} // verus!
