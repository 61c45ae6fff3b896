use vstd::prelude::*;
use std::collections::HashMap;

verus! {

/// `0xRRGGBB` from the three channel values.
pub open spec fn pack_rgb(r: u8, g: u8, b: u8) -> u32 {
    (r * 65536 + g * 256 + b) as u32
}

/// The colour of a pixel as the framebuffer holds it.
pub fn rgb(r: u8, g: u8, b: u8) -> (c: u32)
    ensures
        c == pack_rgb(r, g, b),
        c == r * 65536 + g * 256 + b,
{
    let c = ((r as u32) << 16) | ((g as u32) << 8) | (b as u32);
    assert(((r as u32) << 16) | ((g as u32) << 8) | (b as u32) == r * 65536 + g * 256 + b) by (bit_vector);
    c
}

/// A decoded image in the framebuffer's colour format, kept in memory so
/// that it can be sampled pixel by pixel.
pub struct Texture {
    width: u32,
    height: u32,
    pixels: Vec<u32>,
}

impl Texture {
    pub closed spec fn tex_width(&self) -> u32 {
        self.width
    }

    pub closed spec fn tex_height(&self) -> u32 {
        self.height
    }

    /// Every texture has one colour per pixel.
    #[verifier::type_invariant]
    spec fn wf(&self) -> bool {
        self.pixels@.len() == self.width * self.height
    }

    /// Colour of pixel `(x, y)`.
    pub closed spec fn texel_at(&self, x: int, y: int) -> u32 {
        self.pixels@[y * self.width + x]
    }

    /// A texture from 8-bit RGBA data, four bytes per pixel row by row (as
    /// an image decoder hands it out); the alpha byte is dropped. `None`
    /// when the data does not hold exactly `width * height` pixels.
    pub fn from_rgba8(width: u32, height: u32, rgba: &Vec<u8>) -> (t: Option<Texture>)
        ensures
            t is Some <==> rgba@.len() == 4 * width * height,
            t matches Some(t) ==> {
                &&& t.tex_width() == width
                &&& t.tex_height() == height
                &&& forall|x: int, y: int|
                    0 <= x < width && 0 <= y < height ==> #[trigger] t.texel_at(x, y) == pack_rgb(
                        rgba@[4 * (y * width + x)],
                        rgba@[4 * (y * width + x) + 1],
                        rgba@[4 * (y * width + x) + 2],
                    )
            },
    {
        let n = rgba.len();
        let w = width as usize;
        let h = height as usize;
        let count = match w.checked_mul(h) {
            Some(n) => n,
            None => {
                proof {
                    assert(w * h <= 4 * w * h) by (nonlinear_arith) requires w >= 0, h >= 0;
                }
                return None;
            },
        };
        if n % 4 != 0 || n / 4 != count {
            proof {
                assert(4 * w * h == 4 * (w * h)) by (nonlinear_arith);
            }
            return None;
        }
        proof {
            assert(4 * w * h == 4 * (w * h)) by (nonlinear_arith);
        }
        let mut pixels: Vec<u32> = Vec::new();
        let mut i: usize = 0;
        while i < count
            invariant
                i <= count,
                count == w * h,
                n == rgba@.len(),
                rgba@.len() == 4 * count,
                pixels@.len() == i,
                forall|k: int|
                    0 <= k < i ==> #[trigger] pixels@[k] == pack_rgb(rgba@[4 * k], rgba@[4 * k + 1], rgba@[4 * k + 2]),
            decreases count - i,
        {
            let c = rgb(rgba[4 * i], rgba[4 * i + 1], rgba[4 * i + 2]);
            pixels.push(c);
            i = i + 1;
        }
        let t = Texture { width, height, pixels };
        proof {
            assert forall|x: int, y: int| 0 <= x < width && 0 <= y < height implies #[trigger] t.texel_at(x, y)
                == pack_rgb(
                rgba@[4 * (y * width + x)],
                rgba@[4 * (y * width + x) + 1],
                rgba@[4 * (y * width + x) + 2],
            ) by {
                crate::framebuffer::lemma_index_in_range(width as int, height as int, x, y);
            }
        }
        Some(t)
    }

    /// Colour of pixel `(x, y)`.
    pub fn texel(&self, x: u32, y: u32) -> (c: u32)
        requires
            x < self.tex_width(),
            y < self.tex_height(),
            y * self.tex_width() + x <= u32::MAX,
        ensures
            c == self.texel_at(x as int, y as int),
    {
        proof {
            use_type_invariant(self);
            crate::framebuffer::lemma_index_in_range(self.width as int, self.height as int, x as int, y as int);
        }
        self.pixels[(y * self.width + x) as usize]
    }

    /// Width of the texture in pixels.
    pub fn width(&self) -> (w: u32)
        ensures
            w == self.tex_width(),
    {
        self.width
    }

    /// Height of the texture in pixels.
    pub fn height(&self) -> (h: u32)
        ensures
            h == self.tex_height(),
    {
        self.height
    }
}

/// The wall materials that can have a texture, in the order they are
/// loaded.
pub fn wall_materials() -> (m: [char; 4])
    ensures
        m@ == seq!['1', '2', '3', '4'],
{
    let m = ['1', '2', '3', '4'];
    assert(m@ =~= seq!['1', '2', '3', '4']);
    m
}

/// Wall material to texture. A material whose texture file could not be
/// read has no entry, and is drawn in its plain fallback colour instead.
pub struct TextureAtlas {
    by_wall_char: HashMap<u32, Texture>,
}

impl TextureAtlas {
    /// The texture of each material that has one, keyed by the material's
    /// code point.
    pub closed spec fn textures(&self) -> Map<u32, Texture> {
        self.by_wall_char@
    }

    /// An atlas with no texture.
    pub fn new() -> (atlas: TextureAtlas)
        ensures
            atlas.textures() == Map::<u32, Texture>::empty(),
    {
        TextureAtlas { by_wall_char: HashMap::new() }
    }

    /// Gives `wall_char` the texture `texture`, replacing any it had.
    pub fn insert(&mut self, wall_char: char, texture: Texture)
        ensures
            final(self).textures() == old(self).textures().insert(wall_char as u32, texture),
    {
        self.by_wall_char.insert(wall_char as u32, texture);
    }

    /// The texture of `wall_char`, if it has one.
    pub fn get(&self, wall_char: char) -> (t: Option<&Texture>)
        ensures
            match t {
                Some(t) => self.textures().contains_key(wall_char as u32) && *t == self.textures()[wall_char as u32],
                None => !self.textures().contains_key(wall_char as u32),
            },
    {
        let key = wall_char as u32;
        self.by_wall_char.get(&key)
    }
}

/// A texture read back after it was stored: after `insert(c, t)` the atlas
/// gives `t` for `c`, and for every other material what it gave before.
pub proof fn lemma_atlas_get_after_insert(before: Map<u32, Texture>, c: char, t: Texture, k: u32)
    ensures
        before.insert(c as u32, t).contains_key(c as u32),
        before.insert(c as u32, t)[c as u32] == t,
        k != c as u32 ==> (before.insert(c as u32, t).contains_key(k) == before.contains_key(k)),
        k != c as u32 && before.contains_key(k) ==> before.insert(c as u32, t)[k] == before[k],
{
}

} // verus!
