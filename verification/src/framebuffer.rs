use vstd::prelude::*;

verus! {

/// A pixel buffer of `width * height` colours in `0xRRGGBB` form, laid out
/// row by row, with a current drawing colour.
pub struct Framebuffer {
    pub width: usize,
    pub height: usize,
    pub buffer: Vec<u32>,
    pub background_color: u32,
    pub current_color: u32,
}

impl Framebuffer {
    /// The buffer holds exactly one colour per pixel.
    pub open spec fn wf(&self) -> bool {
        self.buffer@.len() == self.width * self.height
    }

    /// Index of pixel `(x, y)` in the buffer.
    pub open spec fn index_of(&self, x: int, y: int) -> int {
        y * self.width + x
    }

    /// Whether `(x, y)` lies on the buffer.
    pub open spec fn on_screen(&self, x: int, y: int) -> bool {
        0 <= x < self.width && 0 <= y < self.height
    }

    /// Colour of pixel `(x, y)`.
    pub open spec fn pixel(&self, x: int, y: int) -> u32 {
        self.buffer@[self.index_of(x, y)]
    }

    /// `after` is this buffer with the pixels of `region` that lie on the
    /// buffer painted `color`, and every other pixel as it was.
    pub open spec fn painted(&self, after: &Framebuffer, region: spec_fn(int, int) -> bool, color: u32) -> bool {
        &&& self.wf()
        &&& after.wf()
        &&& after.width == self.width
        &&& after.height == self.height
        &&& after.background_color == self.background_color
        &&& forall|x: int, y: int|
            #![trigger after.pixel(x, y)]
            self.on_screen(x, y) ==> after.pixel(x, y) == if region(x, y) {
                color
            } else {
                self.pixel(x, y)
            }
    }

    /// A black buffer of the given size; the drawing colour starts white.
    pub fn new(width: usize, height: usize) -> (fb: Framebuffer)
        requires
            width * height <= usize::MAX,
        ensures
            fb.wf(),
            fb.width == width,
            fb.height == height,
            forall|i: int| 0 <= i < fb.buffer@.len() ==> fb.buffer@[i] == 0,
            fb.background_color == 0,
            fb.current_color == 0xFFFFFF,
    {
        let n: usize = width * height;
        let mut buffer: Vec<u32> = Vec::new();
        while buffer.len() < n
            invariant
                buffer@.len() <= n,
                forall|i: int| 0 <= i < buffer@.len() ==> buffer@[i] == 0,
            decreases n - buffer@.len(),
        {
            buffer.push(0);
        }
        Framebuffer { width, height, buffer, background_color: 0, current_color: 0xFFFFFF }
    }

    /// Fills the whole buffer with the background colour.
    pub fn clear(&mut self)
        requires
            old(self).wf(),
        ensures
            final(self).wf(),
            final(self).width == old(self).width,
            final(self).height == old(self).height,
            final(self).background_color == old(self).background_color,
            final(self).current_color == old(self).current_color,
            final(self).buffer@.len() == old(self).buffer@.len(),
            forall|i: int|
                0 <= i < final(self).buffer@.len() ==> final(self).buffer@[i]
                    == old(self).background_color,
    {
        let n = self.buffer.len();
        let mut i: usize = 0;
        while i < n
            invariant
                n == self.buffer@.len(),
                self.wf(),
                self.width == old(self).width,
                self.height == old(self).height,
                self.background_color == old(self).background_color,
                self.current_color == old(self).current_color,
                n == old(self).buffer@.len(),
                i <= n,
                forall|j: int| 0 <= j < i ==> self.buffer@[j] == self.background_color,
            decreases n - i,
        {
            let c = self.background_color;
            self.buffer.set(i, c);
            i = i + 1;
        }
    }

    pub fn set_background_color(&mut self, color: u32)
        ensures
            *final(self) == (Framebuffer { background_color: color, ..*old(self) }),
    {
        self.background_color = color;
    }

    pub fn set_current_color(&mut self, color: u32)
        ensures
            *final(self) == (Framebuffer { current_color: color, ..*old(self) }),
    {
        self.current_color = color;
    }

    /// Paints pixel `(x, y)` with the current colour; a point off the buffer
    /// changes nothing.
    pub fn point(&mut self, x: usize, y: usize)
        requires
            old(self).wf(),
        ensures
            final(self).wf(),
            final(self).width == old(self).width,
            final(self).height == old(self).height,
            final(self).background_color == old(self).background_color,
            final(self).current_color == old(self).current_color,
            final(self).buffer@ == if old(self).on_screen(x as int, y as int) {
                old(self).buffer@.update(old(self).index_of(x as int, y as int), old(self).current_color)
            } else {
                old(self).buffer@
            },
            old(self).painted(&*final(self), |a: int, b: int| a == x && b == y, old(self).current_color),
    {
        if x < self.width && y < self.height {
            let len = self.buffer.len();
            proof {
                lemma_index_in_range(self.width as int, self.height as int, x as int, y as int);
            }
            assert(y * self.width + x < len);
            let c = self.current_color;
            self.buffer.set(y * self.width + x, c);
        }
        proof {
            let ghost o = *old(self);
            assert forall|a: int, b: int|
                #![trigger self.pixel(a, b)]
                o.on_screen(a, b) implies self.pixel(a, b) == if a == x && b == y {
                    o.current_color
                } else {
                    o.pixel(a, b)
                } by {
                lemma_index_in_range(o.width as int, o.height as int, a, b);
                if o.on_screen(x as int, y as int) && !(a == x && b == y) {
                    lemma_index_injective(o.width as int, a, b, x as int, y as int);
                }
            }
        }
    }

    /// Paints, in the current colour, every pixel `(x, y)` with
    /// `x0 <= x < x1` and `y0 <= y < y1` that lies on the buffer.
    pub fn fill_rect(&mut self, x0: usize, x1: usize, y0: usize, y1: usize)
        requires
            old(self).wf(),
        ensures
            final(self).current_color == old(self).current_color,
            old(self).painted(
                &*final(self),
                |a: int, b: int| x0 <= a < x1 && y0 <= b < y1,
                old(self).current_color,
            ),
    {
        let ghost o = *self;
        let ghost c = self.current_color;
        let mut y = y0;
        while y < y1
            invariant
                y0 <= y,
                y == y0 || y <= y1,
                self.current_color == c,
                o.painted(&*self, |a: int, b: int| x0 <= a < x1 && y0 <= b < y, c),
            decreases y1 - y,
        {
            let mut x = x0;
            while x < x1
                invariant
                    y0 <= y < y1,
                    x0 <= x,
                    x == x0 || x <= x1,
                    self.current_color == c,
                    o.painted(
                        &*self,
                        |a: int, b: int| (x0 <= a < x1 && y0 <= b < y) || (b == y && x0 <= a < x),
                        c,
                    ),
                decreases x1 - x,
            {
                let ghost before = *self;
                self.point(x, y);
                proof {
                    lemma_painted_compose(
                        o,
                        before,
                        *self,
                        |a: int, b: int| (x0 <= a < x1 && y0 <= b < y) || (b == y && x0 <= a < x),
                        |a: int, b: int| a == x && b == y,
                        |a: int, b: int| (x0 <= a < x1 && y0 <= b < y) || (b == y && x0 <= a < x + 1),
                        c,
                    );
                }
                x = x + 1;
            }
            proof {
                lemma_painted_same_region(
                    o,
                    *self,
                    |a: int, b: int| (x0 <= a < x1 && y0 <= b < y) || (b == y && x0 <= a < x),
                    |a: int, b: int| x0 <= a < x1 && y0 <= b < y + 1,
                    c,
                );
            }
            y = y + 1;
        }
        proof {
            lemma_painted_same_region(
                o,
                *self,
                |a: int, b: int| x0 <= a < x1 && y0 <= b < y,
                |a: int, b: int| x0 <= a < x1 && y0 <= b < y1,
                c,
            );
        }
    }
}

/// Two pixels of a buffer of the given width that share an index are the
/// same pixel.
pub proof fn lemma_index_injective(width: int, x1: int, y1: int, x2: int, y2: int)
    requires
        0 <= x1 < width,
        0 <= x2 < width,
        0 <= y1,
        0 <= y2,
        !(x1 == x2 && y1 == y2),
    ensures
        y1 * width + x1 != y2 * width + x2,
{
    if y1 == y2 {
    } else if y1 < y2 {
        assert(y1 * width + width <= y2 * width) by (nonlinear_arith)
            requires y1 < y2, 0 <= width;
    } else {
        assert(y2 * width + width <= y1 * width) by (nonlinear_arith)
            requires y2 < y1, 0 <= width;
    }
}

/// Painting `r1` and then `r2` in one colour paints their union `r`.
pub proof fn lemma_painted_compose(
    a: Framebuffer,
    b: Framebuffer,
    c: Framebuffer,
    r1: spec_fn(int, int) -> bool,
    r2: spec_fn(int, int) -> bool,
    r: spec_fn(int, int) -> bool,
    color: u32,
)
    requires
        a.painted(&b, r1, color),
        b.painted(&c, r2, color),
        forall|x: int, y: int| a.on_screen(x, y) ==> r(x, y) == (r1(x, y) || r2(x, y)),
    ensures
        a.painted(&c, r, color),
{
    assert forall|x: int, y: int|
        #![trigger c.pixel(x, y)]
        a.on_screen(x, y) implies c.pixel(x, y) == if r(x, y) {
            color
        } else {
            a.pixel(x, y)
        } by {
        assert(b.on_screen(x, y));
        assert(b.pixel(x, y) == if r1(x, y) { color } else { a.pixel(x, y) });
    }
}

/// Regions that agree on every pixel of the buffer paint alike.
pub proof fn lemma_painted_same_region(
    a: Framebuffer,
    b: Framebuffer,
    r1: spec_fn(int, int) -> bool,
    r2: spec_fn(int, int) -> bool,
    color: u32,
)
    requires
        a.painted(&b, r1, color),
        forall|x: int, y: int| a.on_screen(x, y) ==> r1(x, y) == r2(x, y),
    ensures
        a.painted(&b, r2, color),
{
    assert forall|x: int, y: int|
        #![trigger b.pixel(x, y)]
        a.on_screen(x, y) implies b.pixel(x, y) == if r2(x, y) { color } else { a.pixel(x, y) } by {
        assert(r1(x, y) == r2(x, y));
    }
}

/// A pixel on a `width * height` buffer has an index inside the buffer.
pub proof fn lemma_index_in_range(width: int, height: int, x: int, y: int)
    requires
        0 <= x < width,
        0 <= y < height,
    ensures
        0 <= y * width + x < width * height,
{
    assert(y * width + x < width * height) by (nonlinear_arith)
        requires 0 <= x < width, 0 <= y < height;
    assert(0 <= y * width) by (nonlinear_arith)
        requires 0 <= y, 0 <= width;
}

} // verus!
