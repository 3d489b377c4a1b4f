use tic_alloc::options::{
    Flip, FontOptions, MapOptions, MouseInput, MusicOptions, PrintOptions, Rotate, SfxOptions,
    SpriteOptions, TextureSource,
};

#[test]
fn option_defaults() {
    let m = MusicOptions::default();
    assert_eq!((m.frame, m.row, m.repeat, m.sustain, m.tempo, m.speed), (-1, -1, true, false, -1, -1));
    let s = SfxOptions::default();
    assert_eq!(
        (s.note, s.octave, s.duration, s.channel, s.volume_left, s.volume_right, s.speed),
        (-1, -1, -1, 0, 15, 15, 0)
    );
    let map = MapOptions::default();
    assert_eq!((map.x, map.y, map.w, map.h, map.sx, map.sy, map.scale), (0, 0, 30, 17, 0, 0, 1));
    assert!(map.transparent.is_empty());
    let spr = SpriteOptions::default();
    assert_eq!((spr.scale, spr.w, spr.h), (1, 1, 1));
    assert_eq!(spr.flip, Flip::Neither);
    assert_eq!(spr.rotate, Rotate::By0);
    assert!(spr.transparent.is_empty());
    let p = PrintOptions::default();
    assert_eq!((p.color, p.fixed, p.scale, p.small_font), (15, false, 1, false));
    let f = FontOptions::default();
    assert_eq!((f.char_width, f.char_height, f.fixed, f.scale, f.alt_font), (8, 8, false, 1, false));
    assert!(f.transparent.is_empty());
    let mouse = MouseInput::default();
    assert_eq!((mouse.x, mouse.y, mouse.scroll_x, mouse.scroll_y), (0, 0, 0, 0));
    assert!(!mouse.left && !mouse.middle && !mouse.right);
}

#[test]
fn call_codes() {
    assert_eq!(Flip::Neither.code(), 0);
    assert_eq!(Flip::Horizontal.code(), 1);
    assert_eq!(Flip::Vertical.code(), 2);
    assert_eq!(Flip::Both.code(), 3);
    assert_eq!(Rotate::By0.code(), 0);
    assert_eq!(Rotate::By90.code(), 1);
    assert_eq!(Rotate::By180.code(), 2);
    assert_eq!(Rotate::By270.code(), 3);
    assert_eq!(TextureSource::Tiles.code(), 0);
    assert_eq!(TextureSource::TileMap.code(), 1);
    assert_eq!(TextureSource::VBank1.code(), 2);
}

#[test]
fn options_with_transparent_colors() {
    let colors = [0u8, 14];
    let spr = SpriteOptions { transparent: &colors, w: 2, h: 2, scale: 3, ..Default::default() };
    assert_eq!(spr.transparent, &[0, 14]);
    assert_eq!((spr.w, spr.h, spr.scale), (2, 2, 3));
}
