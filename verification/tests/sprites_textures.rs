use raycasting::sprite::{generate_chest_frames, Animation, SpriteFrame};
use raycasting::textures::{rgb, wall_materials, Texture, TextureAtlas};

const LID: u32 = 0x8B5A2B;
const BODY: u32 = 0x5C3A1E;
const TRIM: u32 = 0xD4AF37;
const LOCK: u32 = 0x3A2412;
const GLINT: u32 = 0xFFF6D0;

#[test]
fn chest_has_four_frames_of_24_by_24() {
    let frames = generate_chest_frames();
    assert_eq!(frames.len(), 4);
    for f in &frames {
        assert_eq!(f.width(), 24);
        assert_eq!(f.height(), 24);
    }
}

#[test]
fn chest_layers() {
    let frames = generate_chest_frames();
    let f = &frames[1];
    assert_eq!(f.pixel(0, 0), None);
    assert_eq!(f.pixel(2, 10), None);
    assert_eq!(f.pixel(21, 10), None);
    assert_eq!(f.pixel(3, 3), Some(LID));
    assert_eq!(f.pixel(20, 10), Some(LID));
    assert_eq!(f.pixel(5, 11), Some(TRIM));
    assert_eq!(f.pixel(5, 12), Some(TRIM));
    assert_eq!(f.pixel(5, 13), Some(BODY));
    assert_eq!(f.pixel(20, 20), Some(BODY));
    assert_eq!(f.pixel(10, 21), None);
    for y in 11..14 {
        for x in 11..14 {
            assert_eq!(f.pixel(x, y), Some(LOCK));
        }
    }
    assert_eq!(f.pixel(10, 11), Some(TRIM));
}

#[test]
fn chest_glint_moves() {
    let frames = generate_chest_frames();
    assert_eq!(frames[0].pixel(5, 2), Some(GLINT));
    assert_eq!(frames[0].pixel(6, 2), Some(GLINT));
    assert_eq!(frames[0].pixel(5, 3), Some(GLINT));
    assert_eq!(frames[0].pixel(6, 3), Some(LID));
    assert_eq!(frames[2].pixel(18, 3), Some(GLINT));
    assert_eq!(frames[2].pixel(19, 3), Some(GLINT));
    assert_eq!(frames[2].pixel(18, 4), Some(GLINT));
    assert_eq!(frames[2].pixel(5, 2), None);
    assert_eq!(frames[1].pixel(5, 2), None);
    assert_eq!(frames[3].pixel(18, 3), Some(LID));
}

#[test]
fn frames_without_glint_are_equal() {
    let frames = generate_chest_frames();
    for y in 0..24 {
        for x in 0..24 {
            assert_eq!(frames[1].pixel(x, y), frames[3].pixel(x, y));
        }
    }
}

#[test]
fn sprite_frame_checks_its_size() {
    assert!(SpriteFrame::new(2, 2, vec![None; 3]).is_none());
    assert!(SpriteFrame::new(0, 0, vec![]).is_none());
    let f = SpriteFrame::new(2, 3, vec![None, Some(1), Some(2), None, None, Some(5)]).unwrap();
    assert_eq!(f.pixel(1, 0), Some(1));
    assert_eq!(f.pixel(0, 1), Some(2));
    assert_eq!(f.pixel(1, 2), Some(5));
}

#[test]
fn animation_loops_back() {
    let mut a = Animation::new(generate_chest_frames());
    assert_eq!(a.current(), 0);
    a.advance();
    assert_eq!(a.current(), 1);
    assert_eq!(a.current_frame().pixel(5, 2), None);
    a.advance();
    a.advance();
    assert_eq!(a.current(), 3);
    a.advance();
    assert_eq!(a.current(), 0);
    assert_eq!(a.current_frame().pixel(5, 2), Some(GLINT));
}

#[test]
fn rgb_packs_channels() {
    assert_eq!(rgb(0x12, 0x34, 0x56), 0x123456);
    assert_eq!(rgb(255, 255, 255), 0xFFFFFF);
    assert_eq!(rgb(0, 0, 0), 0);
}

#[test]
fn texture_from_rgba_drops_alpha() {
    let data = vec![
        1, 2, 3, 255, 4, 5, 6, 0, //
        7, 8, 9, 9, 10, 11, 12, 128,
    ];
    let t = Texture::from_rgba8(2, 2, &data).unwrap();
    assert_eq!(t.width(), 2);
    assert_eq!(t.height(), 2);
    assert_eq!(t.texel(0, 0), 0x010203);
    assert_eq!(t.texel(1, 0), 0x040506);
    assert_eq!(t.texel(0, 1), 0x070809);
    assert_eq!(t.texel(1, 1), 0x0A0B0C);
}

#[test]
fn texture_from_rgba_rejects_wrong_length() {
    assert!(Texture::from_rgba8(2, 2, &vec![0; 15]).is_none());
    assert!(Texture::from_rgba8(2, 2, &vec![0; 20]).is_none());
    assert!(Texture::from_rgba8(0, 5, &vec![]).is_some());
    assert!(Texture::from_rgba8(u32::MAX, u32::MAX, &vec![0; 4]).is_none());
}

#[test]
fn atlas_gives_back_what_was_stored() {
    let mut atlas = TextureAtlas::new();
    assert!(atlas.get('1').is_none());
    atlas.insert('2', Texture::from_rgba8(1, 1, &vec![9, 9, 9, 9]).unwrap());
    assert!(atlas.get('1').is_none());
    assert_eq!(atlas.get('2').unwrap().texel(0, 0), 0x090909);
    atlas.insert('2', Texture::from_rgba8(1, 1, &vec![1, 1, 1, 1]).unwrap());
    assert_eq!(atlas.get('2').unwrap().texel(0, 0), 0x010101);
}

#[test]
fn wall_materials_are_one_to_four() {
    assert_eq!(wall_materials(), ['1', '2', '3', '4']);
}
