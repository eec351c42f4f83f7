//! The pixel surface that shapes are drawn into.

use vstd::prelude::*;
use crate::bmp::{bmp_image, encode_bmp};
use crate::color::Color;
use crate::geometry::lemma_row_major;
use crate::surface::Surface;

verus! {

/// A `width` x `height` grid of colors stored row by row, with a background
/// color used by `clear` and a current color used by every drawing
/// operation.
pub struct Framebuffer {
    width: u32,
    height: u32,
    buffer: Vec<Color>,
    background_color: Color,
    current_color: Color,
}

impl View for Framebuffer {
    type V = Surface;

    closed spec fn view(&self) -> Surface {
        Surface {
            width: self.width as int,
            height: self.height as int,
            pixels: Map::new(
                |p: (int, int)| 0 <= p.0 < self.width && 0 <= p.1 < self.height,
                |p: (int, int)| self.buffer@[p.1 * self.width + p.0],
            ),
            background: self.background_color,
            current: self.current_color,
        }
    }
}

/// The model of a framebuffer holds a color for exactly the coordinates
/// inside its width and height.
pub proof fn lemma_view_well_formed(fb: Framebuffer)
    ensures
        fb@.well_formed(),
{
    assert(fb@.pixels.dom() =~= fb@.extent());
}

impl Framebuffer {
    #[verifier::type_invariant]
    spec fn storage_matches_size(&self) -> bool {
        &&& self.buffer@.len() == self.width * self.height
        &&& self.width * self.height <= usize::MAX
    }

    /// Creates a surface of the given size, all black, with black as both
    /// background and current color.
    pub fn new(width: u32, height: u32) -> (fb: Framebuffer)
        requires
            width * height <= usize::MAX,
        ensures
            fb@ == Surface::blank(width as int, height as int),
    {
        let background_color = Color::new(0, 0, 0);
        let current_color = Color::new(0, 0, 0);
        assert(0 <= width * height) by (nonlinear_arith)
            requires
                0 <= width,
                0 <= height,
        ;
        let buffer_size = width as usize * height as usize;
        let fb = Framebuffer {
            width,
            height,
            buffer: vec![background_color; buffer_size],
            background_color,
            current_color,
        };
        proof {
            assert forall|p: (int, int)| 0 <= p.0 < width && 0 <= p.1 < height implies
                fb.buffer@[p.1 * width + p.0] == background_color by {
                lemma_row_major(width as int, height as int, p.0, p.1);
            }
            assert(fb@.pixels =~= Surface::blank(width as int, height as int).pixels);
        }
        fb
    }

    /// Selects the color that `clear` fills with. No pixel changes.
    pub fn set_background_color(&mut self, hex: u32)
        ensures
            final(self)@ == (Surface { background: Color::unpacked(hex), ..old(self)@ }),
    {
        proof {
            use_type_invariant(&*self);
        }
        self.background_color = Color::from_hex(hex);
    }

    /// Selects the color that drawing operations write. No pixel changes.
    pub fn set_current_color(&mut self, hex: u32)
        ensures
            final(self)@ == (Surface { current: Color::unpacked(hex), ..old(self)@ }),
    {
        proof {
            use_type_invariant(&*self);
        }
        self.current_color = Color::from_hex(hex);
    }

    /// Sets every pixel to the background color.
    pub fn clear(&mut self)
        ensures
            final(self)@ == old(self)@.cleared(),
    {
        proof {
            use_type_invariant(&*self);
        }
        let n = self.buffer.len();
        let mut i: usize = 0;
        while i < n
            invariant
                i <= n,
                n == self.buffer@.len(),
                n == self.width * self.height,
                self.width == old(self).width,
                self.height == old(self).height,
                self.background_color == old(self).background_color,
                self.current_color == old(self).current_color,
                forall|k: int| 0 <= k < i ==> self.buffer@[k] == self.background_color,
            decreases n - i,
        {
            self.buffer[i] = self.background_color;
            i += 1;
        }
        proof {
            assert forall|p: (int, int)| 0 <= p.0 < self.width && 0 <= p.1 < self.height implies
                self.buffer@[p.1 * self.width + p.0] == self.background_color by {
                lemma_row_major(self.width as int, self.height as int, p.0, p.1);
            }
            assert(self@.pixels =~= old(self)@.cleared().pixels);
        }
    }

    /// Writes the current color at `(x, y)`; does nothing when the
    /// coordinate lies outside the surface.
    pub fn point(&mut self, x: u32, y: u32)
        ensures
            final(self)@ == old(self)@.paint(set![(x as int, y as int)]),
    {
        self.plot(x as usize, y as usize);
    }

    /// `point` for coordinates of any size: a coordinate that does not fit
    /// the surface is outside it, and is ignored like any other.
    pub fn plot(&mut self, x: usize, y: usize)
        ensures
            final(self)@ == old(self)@.paint(set![(x as int, y as int)]),
    {
        proof {
            use_type_invariant(&*self);
        }
        if x < self.width as usize && y < self.height as usize {
            proof {
                lemma_row_major(self.width as int, self.height as int, x as int, y as int);
            }
            let index = y * (self.width as usize) + x;
            self.buffer[index] = self.current_color;
            proof {
                assert forall|p: (int, int)|
                    0 <= p.0 < self.width && 0 <= p.1 < self.height implies self.buffer@[p.1
                    * self.width + p.0] == (if p == (x as int, y as int) {
                    self.current_color
                } else {
                    old(self).buffer@[p.1 * self.width + p.0]
                }) by {
                    lemma_row_major(self.width as int, self.height as int, p.0, p.1);
                }
            }
        }
        assert(self@.pixels =~= old(self)@.paint(set![(x as int, y as int)]).pixels);
    }

    /// Encodes the surface as an uncompressed bitmap image. The size of
    /// the image has to fit the 32-bit size field of its header.
    pub fn render_buffer(&self) -> (bytes: Vec<u8>)
        requires
            54 + 4 * (self@.width * self@.height) <= u32::MAX,
        ensures
            bytes@ == bmp_image(self@),
    {
        proof {
            use_type_invariant(self);
            assert forall|i: int| 0 <= i < self.width * self.height implies self.buffer@[i]
                == self@.row_major()[i] by {
                let w = self.width as int;
                assert(w > 0) by (nonlinear_arith)
                    requires
                        0 <= i < w * self.height,
                        0 <= w,
                ;
                vstd::arithmetic::div_mod::lemma_fundamental_div_mod(i, w);
                vstd::arithmetic::div_mod::lemma_mod_bound(i, w);
                assert(0 <= i / w < self.height) by (nonlinear_arith)
                    requires
                        0 <= i < w * self.height,
                        i == w * (i / w) + i % w,
                        0 <= i % w < w,
                ;
                assert((i / w) * w == w * (i / w)) by (nonlinear_arith);
            }
            assert(self.buffer@ =~= self@.row_major());
        }
        encode_bmp(self.buffer.as_slice(), self.width, self.height)
    }

    pub fn width(&self) -> (w: u32)
        ensures
            w == self@.width,
    {
        self.width
    }

    pub fn height(&self) -> (h: u32)
        ensures
            h == self@.height,
    {
        self.height
    }

    /// The color stored at `(x, y)`, or `None` outside the surface.
    pub fn color_at(&self, x: u32, y: u32) -> (c: Option<Color>)
        ensures
            c == if self@.contains(x as int, y as int) {
                Some(self@.pixel(x as int, y as int))
            } else {
                None
            },
    {
        proof {
            use_type_invariant(self);
        }
        if x < self.width && y < self.height {
            proof {
                lemma_row_major(self.width as int, self.height as int, x as int, y as int);
            }
            let index = y as usize * (self.width as usize) + x as usize;
            Some(self.buffer[index])
        } else {
            None
        }
    }
}

} // verus!
