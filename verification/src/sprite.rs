use vstd::prelude::*;

verus! {

/// One frame of a sprite: a small image whose pixels are a colour or
/// transparent (`None`), row by row.
pub struct SpriteFrame {
    width: usize,
    height: usize,
    pixels: Vec<Option<u32>>,
}

impl SpriteFrame {
    pub closed spec fn frame_width(&self) -> int {
        self.width as int
    }

    pub closed spec fn frame_height(&self) -> int {
        self.height as int
    }

    /// Pixel `(x, y)` of the frame.
    pub closed spec fn pixel_at(&self, x: int, y: int) -> Option<u32> {
        self.pixels@[y * self.width + x]
    }

    /// Every frame is non-empty and has one pixel per position.
    #[verifier::type_invariant]
    spec fn wf(&self) -> bool {
        &&& self.width > 0
        &&& self.height > 0
        &&& self.pixels@.len() == self.width * self.height
    }

    /// A frame of `width * height` pixels given row by row; `None` when the
    /// pixel count does not match or the frame would be empty.
    pub fn new(width: usize, height: usize, pixels: Vec<Option<u32>>) -> (f: Option<SpriteFrame>)
        ensures
            f is Some <==> (width > 0 && height > 0 && pixels@.len() == width * height),
            f matches Some(f) ==> {
                &&& f.frame_width() == width
                &&& f.frame_height() == height
                &&& forall|x: int, y: int|
                    0 <= x < width && 0 <= y < height ==> #[trigger] f.pixel_at(x, y) == pixels@[y * width + x]
            },
    {
        if width == 0 || height == 0 || pixels.len() / width != height || pixels.len() % width != 0 {
            proof {
                if width > 0 && height > 0 && pixels@.len() == width * height {
                    vstd::arithmetic::div_mod::lemma_div_multiples_vanish(height as int, width as int);
                    vstd::arithmetic::div_mod::lemma_mod_multiples_basic(height as int, width as int);
                    assert(width * height == height * width) by (nonlinear_arith);
                }
            }
            return None;
        }
        proof {
            vstd::arithmetic::div_mod::lemma_fundamental_div_mod(pixels@.len() as int, width as int);
            assert(width * height == height * width) by (nonlinear_arith);
        }
        Some(SpriteFrame { width, height, pixels })
    }

    /// Width of the frame, at least one pixel.
    pub fn width(&self) -> (w: usize)
        ensures
            w == self.frame_width(),
            w > 0,
    {
        proof {
            use_type_invariant(self);
        }
        self.width
    }

    /// Height of the frame, at least one pixel.
    pub fn height(&self) -> (h: usize)
        ensures
            h == self.frame_height(),
            h > 0,
    {
        proof {
            use_type_invariant(self);
        }
        self.height
    }

    /// Pixel `(x, y)` of the frame; `None` is transparent.
    pub fn pixel(&self, x: usize, y: usize) -> (p: Option<u32>)
        requires
            x < self.frame_width(),
            y < self.frame_height(),
        ensures
            p == self.pixel_at(x as int, y as int),
    {
        proof {
            use_type_invariant(self);
        }
        let len = self.pixels.len();
        proof {
            crate::framebuffer::lemma_index_in_range(self.width as int, self.height as int, x as int, y as int);
        }
        assert(y * self.width + x < len);
        self.pixels[y * self.width + x]
    }
}

/// Side of a chest frame, in pixels.
pub const CHEST_SIZE: usize = 24;
/// Transparent border around the chest.
pub const CHEST_MARGIN: usize = 3;
pub const LID_COLOR: u32 = 0x8B5A2B;
pub const BODY_COLOR: u32 = 0x5C3A1E;
pub const TRIM_COLOR: u32 = 0xD4AF37;
pub const LOCK_COLOR: u32 = 0x3A2412;
pub const GLINT_COLOR: u32 = 0xFFF6D0;

/// Where the glint of chest frame `frame` sits, as `(x, y)`: top left on
/// the first frame, top right on the third, none on the others.
pub open spec fn chest_glint(frame: int) -> Option<(int, int)> {
    if frame == 0 {
        Some((5, 2))
    } else if frame == 2 {
        Some((18, 3))
    } else {
        None
    }
}

/// The chest's box: a lid over a golden band over the body, inside a
/// transparent 3-pixel margin.
pub open spec fn chest_body(x: int, y: int) -> Option<u32> {
    if 3 <= x < 21 && 3 <= y < 21 {
        Some(
            if y < 11 {
                LID_COLOR
            } else if y < 13 {
                TRIM_COLOR
            } else {
                BODY_COLOR
            },
        )
    } else {
        None
    }
}

/// The box with a 3x3 lock drawn over the band.
pub open spec fn chest_without_glint(x: int, y: int) -> Option<u32> {
    if 11 <= x < 14 && 11 <= y < 14 {
        Some(LOCK_COLOR)
    } else {
        chest_body(x, y)
    }
}

/// Pixel `(x, y)` of chest frame `frame`: the box with its lock, and a
/// three-pixel glint (its pixel and the ones right of and below it) drawn
/// over it, which moves between frames.
pub open spec fn chest_pixel(frame: int, x: int, y: int) -> Option<u32> {
    if chest_glint(frame) matches Some((gx, gy)) && ((x == gx && y == gy) || (x == gx + 1 && y == gy) || (x
        == gx && y == gy + 1)) {
        Some(GLINT_COLOR)
    } else {
        chest_without_glint(x, y)
    }
}

/// Pixel `(x, y)` of a 24x24 image stored row by row.
spec fn at24(pixels: Seq<Option<u32>>, x: int, y: int) -> Option<u32> {
    pixels[y * 24 + x]
}

proof fn lemma_index24(x: int, y: int)
    requires
        0 <= x < 24,
        0 <= y < 24,
    ensures
        0 <= y * 24 + x < 576,
{
}

/// Sets pixel `(x, y)` of a 24x24 image.
fn put24(pixels: &mut Vec<Option<u32>>, x: usize, y: usize, color: u32)
    requires
        old(pixels)@.len() == 576,
        x < 24,
        y < 24,
    ensures
        final(pixels)@.len() == 576,
        forall|a: int, b: int|
            0 <= a < 24 && 0 <= b < 24 ==> #[trigger] at24(final(pixels)@, a, b) == if a == x && b == y {
                Some(color)
            } else {
                at24(old(pixels)@, a, b)
            },
{
    proof {
        lemma_index24(x as int, y as int);
    }
    let ghost before = pixels@;
    pixels.set(y * CHEST_SIZE + x, Some(color));
    proof {
        assert forall|a: int, b: int| 0 <= a < 24 && 0 <= b < 24 implies #[trigger] at24(pixels@, a, b) == if a == x
            && b == y {
            Some(color)
        } else {
            at24(before, a, b)
        } by {
            lemma_index24(a, b);
            if !(a == x && b == y) {
                crate::framebuffer::lemma_index_injective(24, a, b, x as int, y as int);
            }
        }
    }
}

/// One chest frame with its glint at `glint`.
fn chest_frame(glint: Option<(usize, usize)>, frame: Ghost<int>) -> (f: SpriteFrame)
    requires
        glint matches Some((gx, gy)) ==> chest_glint(frame@) == Some((gx as int, gy as int)),
        glint is None ==> chest_glint(frame@) is None,
    ensures
        f.frame_width() == 24,
        f.frame_height() == 24,
        forall|x: int, y: int| 0 <= x < 24 && 0 <= y < 24 ==> #[trigger] f.pixel_at(x, y) == chest_pixel(frame@, x, y),
{
    let mut pixels: Vec<Option<u32>> = Vec::new();
    while pixels.len() < CHEST_SIZE * CHEST_SIZE
        invariant
            pixels@.len() <= 576,
            forall|i: int| 0 <= i < pixels@.len() ==> pixels@[i] is None,
        decreases 576 - pixels@.len(),
    {
        pixels.push(None);
    }
    proof {
        assert forall|a: int, b: int| 0 <= a < 24 && 0 <= b < 24 implies #[trigger] at24(pixels@, a, b) is None by {
            lemma_index24(a, b);
        }
    }
    let mut y = CHEST_MARGIN;
    while y < CHEST_SIZE - CHEST_MARGIN
        invariant
            3 <= y <= 21,
            pixels@.len() == 576,
            forall|a: int, b: int|
                0 <= a < 24 && 0 <= b < 24 ==> #[trigger] at24(pixels@, a, b) == if b < y {
                    chest_body(a, b)
                } else {
                    None
                },
        decreases 21 - y,
    {
        let color = if y < CHEST_MARGIN + 8 {
            LID_COLOR
        } else if y < CHEST_MARGIN + 10 {
            TRIM_COLOR
        } else {
            BODY_COLOR
        };
        let mut x = CHEST_MARGIN;
        while x < CHEST_SIZE - CHEST_MARGIN
            invariant
                3 <= y < 21,
                3 <= x <= 21,
                pixels@.len() == 576,
                color == (if y < 11 { LID_COLOR } else if y < 13 { TRIM_COLOR } else { BODY_COLOR }),
                forall|a: int, b: int|
                    0 <= a < 24 && 0 <= b < 24 ==> #[trigger] at24(pixels@, a, b) == if b < y || (b == y && a < x) {
                        chest_body(a, b)
                    } else {
                        None
                    },
            decreases 21 - x,
        {
            put24(&mut pixels, x, y, color);
            x = x + 1;
        }
        y = y + 1;
    }
    let lock_size: usize = 3;
    let lock_x0 = CHEST_SIZE / 2 - lock_size / 2;
    let lock_y0 = CHEST_MARGIN + 8;
    let mut ly: usize = 0;
    while ly < lock_size
        invariant
            ly <= 3,
            lock_size == 3,
            lock_x0 == 11,
            lock_y0 == 11,
            pixels@.len() == 576,
            forall|a: int, b: int|
                0 <= a < 24 && 0 <= b < 24 ==> #[trigger] at24(pixels@, a, b) == if 11 <= a < 14 && 11 <= b < 11 + ly {
                    Some(LOCK_COLOR)
                } else {
                    chest_body(a, b)
                },
        decreases 3 - ly,
    {
        let mut lx: usize = 0;
        while lx < lock_size
            invariant
                ly < 3,
                lx <= 3,
                lock_size == 3,
                lock_x0 == 11,
                lock_y0 == 11,
                pixels@.len() == 576,
                forall|a: int, b: int|
                    0 <= a < 24 && 0 <= b < 24 ==> #[trigger] at24(pixels@, a, b) == if (11 <= a < 14 && 11 <= b < 11
                        + ly) || (b == 11 + ly && 11 <= a < 11 + lx) {
                        Some(LOCK_COLOR)
                    } else {
                        chest_body(a, b)
                    },
            decreases 3 - lx,
        {
            put24(&mut pixels, lock_x0 + lx, lock_y0 + ly, LOCK_COLOR);
            lx = lx + 1;
        }
        ly = ly + 1;
    }
    proof {
        assert forall|a: int, b: int| 0 <= a < 24 && 0 <= b < 24 implies #[trigger] at24(pixels@, a, b)
            == chest_without_glint(a, b) by {}
    }
    if let Some((gx, gy)) = glint {
        put24(&mut pixels, gx, gy, GLINT_COLOR);
        if gx + 1 < CHEST_SIZE {
            put24(&mut pixels, gx + 1, gy, GLINT_COLOR);
        }
        if gy + 1 < CHEST_SIZE {
            put24(&mut pixels, gx, gy + 1, GLINT_COLOR);
        }
    }
    let f = SpriteFrame { width: CHEST_SIZE, height: CHEST_SIZE, pixels };
    proof {
        assert forall|x: int, y: int| 0 <= x < 24 && 0 <= y < 24 implies #[trigger] f.pixel_at(x, y) == chest_pixel(
            frame@,
            x,
            y,
        ) by {
            assert(f.pixel_at(x, y) == at24(f.pixels@, x, y));
        }
    }
    f
}

/// The frames of the chest that marks the goal: four 24x24 frames that
/// differ only in where the glint is (see `chest_pixel`).
pub fn generate_chest_frames() -> (frames: Vec<SpriteFrame>)
    ensures
        frames@.len() == 4,
        forall|k: int|
            0 <= k < 4 ==> {
                &&& (#[trigger] frames@[k]).frame_width() == 24
                &&& frames@[k].frame_height() == 24
                &&& forall|x: int, y: int|
                    0 <= x < 24 && 0 <= y < 24 ==> #[trigger] frames@[k].pixel_at(x, y) == chest_pixel(k, x, y)
            },
{
    let mut frames: Vec<SpriteFrame> = Vec::new();
    frames.push(chest_frame(Some((CHEST_MARGIN + 2, 2)), Ghost(0)));
    frames.push(chest_frame(None, Ghost(1)));
    frames.push(chest_frame(Some((CHEST_SIZE - CHEST_MARGIN - 3, 3)), Ghost(2)));
    frames.push(chest_frame(None, Ghost(3)));
    frames
}

/// The frames of an animated sprite and the index of the one on show.
pub struct Animation {
    frames: Vec<SpriteFrame>,
    current: usize,
}

impl Animation {
    pub closed spec fn frame_count(&self) -> int {
        self.frames@.len() as int
    }

    /// Index of the frame on show.
    pub closed spec fn shown(&self) -> int {
        self.current as int
    }

    pub closed spec fn frame(&self, i: int) -> SpriteFrame {
        self.frames@[i]
    }

    /// There is a frame, and the one on show exists.
    #[verifier::type_invariant]
    spec fn wf(&self) -> bool {
        0 <= self.current < self.frames@.len()
    }

    /// An animation over `frames`, showing the first.
    pub fn new(frames: Vec<SpriteFrame>) -> (a: Animation)
        requires
            frames@.len() > 0,
        ensures
            0 <= a.shown() < a.frame_count(),
            a.shown() == 0,
            a.frame_count() == frames@.len(),
            forall|i: int| 0 <= i < frames@.len() ==> a.frame(i) == frames@[i],
    {
        Animation { frames, current: 0 }
    }

    /// Moves to the next frame, back to the first after the last.
    pub fn advance(&mut self)
        ensures
            0 <= final(self).shown() < final(self).frame_count(),
            final(self).frame_count() == old(self).frame_count(),
            forall|i: int| 0 <= i < old(self).frame_count() ==> final(self).frame(i) == old(self).frame(i),
            final(self).shown() == (old(self).shown() + 1) % old(self).frame_count(),
    {
        proof {
            use_type_invariant(&*self);
        }
        let len = self.frames.len();
        self.current = (self.current + 1) % len;
    }

    /// Index of the frame on show.
    pub fn current(&self) -> (i: usize)
        ensures
            i == self.shown(),
            0 <= i < self.frame_count(),
    {
        proof {
            use_type_invariant(self);
        }
        self.current
    }

    /// The frame on show.
    pub fn current_frame(&self) -> (f: &SpriteFrame)
        ensures
            *f == self.frame(self.shown()),
    {
        proof {
            use_type_invariant(self);
        }
        &self.frames[self.current]
    }
}

/// The frame index after `n` calls of `advance` from frame `i` of an
/// animation of `len` frames.
pub open spec fn advanced(i: int, n: nat, len: int) -> int
    decreases n,
{
    if n == 0 {
        i
    } else {
        (advanced(i, (n - 1) as nat, len) + 1) % len
    }
}

/// Animations loop: after `n` advances frame `i` of `len` frames has become
/// frame `(i + n) % len`, so after `len` advances the animation is back on
/// the frame it started from.
pub proof fn lemma_animation_loops(i: int, n: nat, len: int)
    requires
        0 <= i < len,
    ensures
        advanced(i, n, len) == (i + n) % len,
        advanced(i, len as nat, len) == i,
{
    lemma_advanced_is_mod(i, n, len);
    lemma_advanced_full_cycle(i, len);
}

proof fn lemma_advanced_full_cycle(i: int, len: int)
    requires
        0 <= i < len,
    ensures
        advanced(i, len as nat, len) == i,
    decreases len,
{
    lemma_advanced_is_mod(i, len as nat, len);
    vstd::arithmetic::div_mod::lemma_mod_add_multiples_vanish(i, len);
    assert(i + len == len + i);
    vstd::arithmetic::div_mod::lemma_small_mod(i as nat, len as nat);
}

proof fn lemma_advanced_is_mod(i: int, n: nat, len: int)
    requires
        0 <= i < len,
    ensures
        advanced(i, n, len) == (i + n) % len,
    decreases n,
{
    if n > 0 {
        lemma_advanced_is_mod(i, (n - 1) as nat, len);
        vstd::arithmetic::div_mod::lemma_add_mod_noop_right(1, i + n - 1, len);
    } else {
        vstd::arithmetic::div_mod::lemma_small_mod(i as nat, len as nat);
    }
}

} // verus!
