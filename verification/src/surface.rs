//! The mathematical model of a pixel surface.

use vstd::prelude::*;
use crate::color::Color;

verus! {

/// An abstract pixel surface: a `width` x `height` grid of colors together
/// with the two colors that drawing operations use.
///
/// `pixels` is defined exactly on the coordinates `(x, y)` with
/// `0 <= x < width` and `0 <= y < height`; `x` grows to the right and `y`
/// grows downwards.
#[verifier::ext_equal]
pub struct Surface {
    pub width: int,
    pub height: int,
    pub pixels: Map<(int, int), Color>,
    pub background: Color,
    pub current: Color,
}

impl Surface {
    /// Whether `(x, y)` is a pixel of the surface.
    pub open spec fn contains(self, x: int, y: int) -> bool {
        0 <= x < self.width && 0 <= y < self.height
    }

    /// The set of all coordinates of the surface.
    pub open spec fn extent(self) -> Set<(int, int)> {
        Set::new(|p: (int, int)| self.contains(p.0, p.1))
    }

    /// Whether the surface holds a color for its own coordinates and for
    /// no others.
    pub open spec fn well_formed(self) -> bool {
        &&& 0 <= self.width
        &&& 0 <= self.height
        &&& self.pixels.dom() == self.extent()
    }

    /// The color at `(x, y)`; meaningful only inside the surface.
    pub open spec fn pixel(self, x: int, y: int) -> Color
        recommends
            self.contains(x, y),
    {
        self.pixels[(x, y)]
    }

    /// The colors of the surface row by row, from the top row down and in
    /// each row from left to right.
    pub open spec fn row_major(self) -> Seq<Color> {
        Seq::new(
            (self.width * self.height) as nat,
            |i: int| self.pixel(i % self.width, i / self.width),
        )
    }

    /// A surface of the given size on which every pixel, the background
    /// color and the current color are black.
    pub open spec fn blank(width: int, height: int) -> Surface {
        Surface {
            width,
            height,
            pixels: Map::new(
                |p: (int, int)| 0 <= p.0 < width && 0 <= p.1 < height,
                |p: (int, int)| Color { r: 0, g: 0, b: 0 },
            ),
            background: Color { r: 0, g: 0, b: 0 },
            current: Color { r: 0, g: 0, b: 0 },
        }
    }

    /// The surface after writing the current color to every coordinate of
    /// `region`. Coordinates of `region` outside the surface are ignored:
    /// this is the only clipping there is.
    pub open spec fn paint(self, region: Set<(int, int)>) -> Surface {
        Surface {
            pixels: Map::new(
                |p: (int, int)| self.pixels.dom().contains(p),
                |p: (int, int)|
                    if region.contains(p) {
                        self.current
                    } else {
                        self.pixels[p]
                    },
            ),
            ..self
        }
    }

    /// The surface with every pixel set to the background color.
    pub open spec fn cleared(self) -> Surface {
        Surface {
            pixels: Map::new(
                |p: (int, int)| self.pixels.dom().contains(p),
                |p: (int, int)| self.background,
            ),
            ..self
        }
    }
}

/// Painting and clearing keep the size of a surface and leave it well
/// formed.
pub proof fn lemma_drawing_keeps_shape(s: Surface, region: Set<(int, int)>)
    requires
        s.well_formed(),
    ensures
        s.paint(region).well_formed(),
        s.cleared().well_formed(),
        s.paint(region).width == s.width && s.paint(region).height == s.height,
        s.cleared().width == s.width && s.cleared().height == s.height,
{
    assert(s.paint(region).pixels.dom() =~= s.pixels.dom());
    assert(s.paint(region).extent() =~= s.extent());
    assert(s.cleared().pixels.dom() =~= s.pixels.dom());
    assert(s.cleared().extent() =~= s.extent());
}

/// Painting nothing changes nothing.
pub proof fn lemma_paint_empty(s: Surface)
    ensures
        s.paint(Set::empty()) == s,
{
    assert(s.paint(Set::empty()).pixels =~= s.pixels);
}

/// Painting two regions in turn, with the same current color, is painting
/// their union.
pub proof fn lemma_paint_union(s: Surface, a: Set<(int, int)>, b: Set<(int, int)>)
    ensures
        s.paint(a).paint(b) == s.paint(a.union(b)),
{
    assert(s.paint(a).paint(b).pixels =~= s.paint(a.union(b)).pixels);
}

} // verus!
