//! Option records for the console's drawing, sound and input calls, with
//! the defaults the console documents and the integer codes its calls take.

use vstd::prelude::*;

verus! {

/// Mouse position, scroll and buttons.
#[derive(Clone, Copy, Debug, PartialEq, Eq)]
pub struct MouseInput {
    pub x: i16,
    pub y: i16,
    pub scroll_x: i8,
    pub scroll_y: i8,
    pub left: bool,
    pub middle: bool,
    pub right: bool,
}

impl Default for MouseInput {
    fn default() -> (r: Self)
        ensures
            r.x == 0 && r.y == 0 && r.scroll_x == 0 && r.scroll_y == 0,
            !r.left && !r.middle && !r.right,
    {
        MouseInput { x: 0, y: 0, scroll_x: 0, scroll_y: 0, left: false, middle: false, right: false }
    }
}

/// How a music track is played; -1 leaves a setting to the track.
#[derive(Clone, Copy, Debug, PartialEq, Eq)]
pub struct MusicOptions {
    pub frame: i32,
    pub row: i32,
    pub repeat: bool,
    pub sustain: bool,
    pub tempo: i32,
    pub speed: i32,
}

impl Default for MusicOptions {
    fn default() -> (r: Self)
        ensures
            r.frame == -1 && r.row == -1 && r.tempo == -1 && r.speed == -1,
            r.repeat && !r.sustain,
    {
        MusicOptions { frame: -1, row: -1, repeat: true, sustain: false, tempo: -1, speed: -1 }
    }
}

/// How a sound effect is played; -1 leaves a setting to the effect.
#[derive(Clone, Copy, Debug, PartialEq, Eq)]
pub struct SfxOptions {
    pub note: i32,
    pub octave: i32,
    pub duration: i32,
    pub channel: i32,
    pub volume_left: i32,
    pub volume_right: i32,
    pub speed: i32,
}

impl Default for SfxOptions {
    fn default() -> (r: Self)
        ensures
            r.note == -1 && r.octave == -1 && r.duration == -1,
            r.channel == 0 && r.volume_left == 15 && r.volume_right == 15 && r.speed == 0,
    {
        SfxOptions {
            note: -1,
            octave: -1,
            duration: -1,
            channel: 0,
            volume_left: 15,
            volume_right: 15,
            speed: 0,
        }
    }
}

/// Where a textured triangle takes its texture from.
#[derive(Clone, Copy, Debug, PartialEq, Eq)]
pub enum TextureSource {
    Tiles,
    TileMap,
    VBank1,
}

impl TextureSource {
    pub open spec fn spec_code(self) -> i32 {
        match self {
            TextureSource::Tiles => 0,
            TextureSource::TileMap => 1,
            TextureSource::VBank1 => 2,
        }
    }

    /// The code the console's call takes.
    pub fn code(&self) -> (r: i32)
        ensures
            r == self.spec_code(),
    {
        match self {
            TextureSource::Tiles => 0,
            TextureSource::TileMap => 1,
            TextureSource::VBank1 => 2,
        }
    }
}

/// Which part of the map is drawn, and where.
#[derive(Clone, Copy, Debug, PartialEq, Eq)]
pub struct MapOptions<'a> {
    pub x: i32,
    pub y: i32,
    pub w: i32,
    pub h: i32,
    pub sx: i32,
    pub sy: i32,
    pub transparent: &'a [u8],
    pub scale: i8,
}

impl<'a> Default for MapOptions<'a> {
    fn default() -> (r: Self)
        ensures
            r.x == 0 && r.y == 0 && r.w == 30 && r.h == 17 && r.sx == 0 && r.sy == 0,
            r.transparent@.len() == 0,
            r.scale == 1,
    {
        MapOptions { x: 0, y: 0, w: 30, h: 17, sx: 0, sy: 0, transparent: &[], scale: 1 }
    }
}

/// Mirroring of a sprite.
#[derive(Clone, Copy, Debug, PartialEq, Eq)]
pub enum Flip {
    Neither,
    Horizontal,
    Vertical,
    Both,
}

impl Flip {
    pub open spec fn spec_code(self) -> i32 {
        match self {
            Flip::Neither => 0,
            Flip::Horizontal => 1,
            Flip::Vertical => 2,
            Flip::Both => 3,
        }
    }

    /// The code the console's call takes.
    pub fn code(&self) -> (r: i32)
        ensures
            r == self.spec_code(),
    {
        match self {
            Flip::Neither => 0,
            Flip::Horizontal => 1,
            Flip::Vertical => 2,
            Flip::Both => 3,
        }
    }
}

/// Rotation of a sprite, clockwise.
#[derive(Clone, Copy, Debug, PartialEq, Eq)]
pub enum Rotate {
    By0,
    By90,
    By180,
    By270,
}

impl Rotate {
    pub open spec fn spec_code(self) -> i32 {
        match self {
            Rotate::By0 => 0,
            Rotate::By90 => 1,
            Rotate::By180 => 2,
            Rotate::By270 => 3,
        }
    }

    /// The code the console's call takes.
    pub fn code(&self) -> (r: i32)
        ensures
            r == self.spec_code(),
    {
        match self {
            Rotate::By0 => 0,
            Rotate::By90 => 1,
            Rotate::By180 => 2,
            Rotate::By270 => 3,
        }
    }
}

/// How a sprite is drawn.
#[derive(Clone, Copy, Debug, PartialEq, Eq)]
pub struct SpriteOptions<'a> {
    pub transparent: &'a [u8],
    pub scale: i32,
    pub flip: Flip,
    pub rotate: Rotate,
    pub w: i32,
    pub h: i32,
}

impl<'a> Default for SpriteOptions<'a> {
    fn default() -> (r: Self)
        ensures
            r.transparent@.len() == 0,
            r.scale == 1 && r.w == 1 && r.h == 1,
            r.flip == Flip::Neither && r.rotate == Rotate::By0,
    {
        SpriteOptions {
            transparent: &[],
            scale: 1,
            flip: Flip::Neither,
            rotate: Rotate::By0,
            w: 1,
            h: 1,
        }
    }
}

/// How text is printed with the system font.
#[derive(Clone, Copy, Debug, PartialEq, Eq)]
pub struct PrintOptions {
    pub color: i32,
    pub fixed: bool,
    pub scale: i32,
    pub small_font: bool,
}

impl Default for PrintOptions {
    fn default() -> (r: Self)
        ensures
            r.color == 15 && !r.fixed && r.scale == 1 && !r.small_font,
    {
        PrintOptions { color: 15, fixed: false, scale: 1, small_font: false }
    }
}

/// How text is printed with the sprite font.
#[derive(Clone, Copy, Debug, PartialEq, Eq)]
pub struct FontOptions<'a> {
    pub transparent: &'a [u8],
    pub char_width: i8,
    pub char_height: i8,
    pub fixed: bool,
    pub scale: i32,
    pub alt_font: bool,
}

impl<'a> Default for FontOptions<'a> {
    fn default() -> (r: Self)
        ensures
            r.transparent@.len() == 0,
            r.char_width == 8 && r.char_height == 8,
            !r.fixed && r.scale == 1 && !r.alt_font,
    {
        FontOptions {
            transparent: &[],
            char_width: 8,
            char_height: 8,
            fixed: false,
            scale: 1,
            alt_font: false,
        }
    }
}

} // verus!
