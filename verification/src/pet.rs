//! A pet: its spritesheet, the grid of frames on it, and its animation states.

use vstd::prelude::*;
use crate::animation_set::AnimationSet;
use crate::catalog::{
    load_animations, loaded_states, custom_view, AnimationError, CustomAnimation, FRAME_COLUMNS,
    FRAME_HEIGHT, FRAME_WIDTH, V1_ROWS, V2_ROWS,
};
use crate::codec::{encode_png, is_trim_of, lanczos3_resize_of, png_encoding, resize_lanczos3, trim};
use crate::sixel::{sixel_image, sixel_images};

verus! {

/// The grid of frames on a spritesheet: the size of one frame and the number of
/// columns and rows.
#[derive(Clone, Copy, Debug, PartialEq, Eq)]
pub struct FrameSpec {
    pub width: u32,
    pub height: u32,
    pub columns: u32,
    pub rows: u32,
}

/// Why a spritesheet cannot be used.
#[derive(Clone, Copy, Debug, PartialEq, Eq)]
pub enum LayoutError {
    /// The frames are not 192 by 208 pixels in 8 columns.
    FrameSize,
    /// The sheet is neither 1536 by 1872 pixels (version 1) nor 1536 by 2288 (version 2).
    SheetSize,
}

/// The frames are the size and in the number of columns that Codex pets use.
pub open spec fn frame_size_ok(frame: FrameSpec) -> bool {
    frame.width == FRAME_WIDTH && frame.height == FRAME_HEIGHT && frame.columns == FRAME_COLUMNS
}

/// The grid fits a Codex spritesheet of `width` by `height` pixels, version 1 or 2.
pub open spec fn sheet_ok(frame: FrameSpec, width: u32, height: u32) -> bool {
    &&& frame_size_ok(frame)
    &&& (frame.rows == V1_ROWS || frame.rows == V2_ROWS)
    &&& width == FRAME_WIDTH * FRAME_COLUMNS
    &&& height == FRAME_HEIGHT * frame.rows
}

/// Checks that a grid of frames fits a Codex spritesheet of `width` by `height` pixels.
pub fn validate_frame_spec(frame: FrameSpec, width: u32, height: u32) -> (result: Result<(), LayoutError>)
    ensures
        !frame_size_ok(frame) ==> result == Err::<(), LayoutError>(LayoutError::FrameSize),
        frame_size_ok(frame) && !sheet_ok(frame, width, height) ==> result == Err::<(), LayoutError>(
            LayoutError::SheetSize,
        ),
        sheet_ok(frame, width, height) ==> result == Ok::<(), LayoutError>(()),
{
    if frame.width != FRAME_WIDTH || frame.height != FRAME_HEIGHT || frame.columns != FRAME_COLUMNS {
        return Err(LayoutError::FrameSize);
    }
    if !(frame.rows == V1_ROWS || frame.rows == V2_ROWS) || width != FRAME_WIDTH * FRAME_COLUMNS
        || height != FRAME_HEIGHT * frame.rows {
        return Err(LayoutError::SheetSize);
    }
    Ok(())
}

/// The grid a manifest declares, or else the Codex grid with as many rows as fit a
/// sheet `image_height` pixels high.
pub open spec fn sheet_grid(declared: Option<FrameSpec>, image_height: u32) -> FrameSpec {
    match declared {
        Some(frame) => frame,
        None => FrameSpec {
            width: FRAME_WIDTH,
            height: FRAME_HEIGHT,
            columns: FRAME_COLUMNS,
            rows: (image_height / FRAME_HEIGHT) as u32,
        },
    }
}

/// The grid of a spritesheet `image_height` pixels high: the declared one, or else the
/// Codex grid with as many rows as fit.
pub fn frame_grid(declared: Option<FrameSpec>, image_height: u32) -> (frame: FrameSpec)
    ensures
        frame == sheet_grid(declared, image_height),
{
    match declared {
        Some(frame) => frame,
        None => FrameSpec {
            width: FRAME_WIDTH,
            height: FRAME_HEIGHT,
            columns: FRAME_COLUMNS,
            rows: image_height / FRAME_HEIGHT,
        },
    }
}

/// The spritesheet file a manifest names, without surrounding whitespace, or
/// `spritesheet.webp` when it names none or only whitespace.
pub fn spritesheet_name(declared: Option<&str>) -> (name: String)
    ensures
        match declared {
            Some(value) => (exists|t: Seq<char>| is_trim_of(value@, t) && t.len() > 0 && name@ == t)
                || (forall|t: Seq<char>| is_trim_of(value@, t) ==> t.len() == 0) && name@
                == "spritesheet.webp"@,
            None => name@ == "spritesheet.webp"@,
        },
{
    if let Some(value) = declared {
        let trimmed = trim(value);
        if !trimmed.is_empty() {
            return trimmed.to_owned();
        }
        proof {
            assert forall|t: Seq<char>| is_trim_of(value@, t) implies t.len() == 0 by {
                lemma_trim_unique(value@, t, trimmed@);
            }
        }
    }
    "spritesheet.webp".to_owned()
}

/// A string has one trimmed form.
pub proof fn lemma_trim_unique(s: Seq<char>, t: Seq<char>, u: Seq<char>)
    requires
        is_trim_of(s, t),
        is_trim_of(s, u),
    ensures
        t.len() == 0 <==> u.len() == 0,
{
    let (i, j) = choose|i: int, j: int|
        0 <= i <= j <= s.len() && t == s.subrange(i, j) && (forall|k: int|
            0 <= k < i ==> crate::codec::is_unicode_whitespace(#[trigger] s[k])) && (forall|k: int|
            j <= k < s.len() ==> crate::codec::is_unicode_whitespace(#[trigger] s[k])) && (i < j
            ==> !crate::codec::is_unicode_whitespace(s[i]) && !crate::codec::is_unicode_whitespace(s[j - 1]));
    let (a, b) = choose|a: int, b: int|
        0 <= a <= b <= s.len() && u == s.subrange(a, b) && (forall|k: int|
            0 <= k < a ==> crate::codec::is_unicode_whitespace(#[trigger] s[k])) && (forall|k: int|
            b <= k < s.len() ==> crate::codec::is_unicode_whitespace(#[trigger] s[k])) && (a < b
            ==> !crate::codec::is_unicode_whitespace(s[a]) && !crate::codec::is_unicode_whitespace(s[b - 1]));
    if i < j && a == b {
        if i < a {
            assert(crate::codec::is_unicode_whitespace(s[i]));
        } else {
            assert(crate::codec::is_unicode_whitespace(s[i]));
        }
    }
    if a < b && i == j {
        assert(crate::codec::is_unicode_whitespace(s[a]));
    }
}

/// Where a crop along one axis starts: at `at`, but no further than the image extends.
pub open spec fn crop_origin(extent: int, at: int) -> int {
    if at < extent {
        at
    } else {
        extent
    }
}

/// How far a crop along one axis reaches: `span`, but no further than the image extends.
pub open spec fn crop_span(extent: int, at: int, span: int) -> int {
    let origin = crop_origin(extent, at);
    if span < extent - origin {
        span
    } else {
        extent - origin
    }
}

/// The first `n` rows, top to bottom, of the `width`-pixel-wide box at column `x` and
/// row `y` of an RGBA image `image_width` pixels wide.
pub open spec fn crop_rows(pixels: Seq<u8>, image_width: int, x: int, y: int, width: int, n: nat) -> Seq<u8>
    decreases n,
{
    if n == 0 {
        Seq::empty()
    } else {
        let row = y + n - 1;
        crop_rows(pixels, image_width, x, y, width, (n - 1) as nat) + pixels.subrange(
            (row * image_width + x) * 4,
            (row * image_width + x + width) * 4,
        )
    }
}

/// The pixels of the box at column `x` and row `y`, `width` by `height` pixels and cut
/// back to the image, of an RGBA image `image_width` by `image_height` pixels.
pub open spec fn cropped_pixels(
    pixels: Seq<u8>,
    image_width: int,
    image_height: int,
    x: int,
    y: int,
    width: int,
    height: int,
) -> Seq<u8> {
    crop_rows(
        pixels,
        image_width,
        crop_origin(image_width, x),
        crop_origin(image_height, y),
        crop_span(image_width, x, width),
        crop_span(image_height, y, height) as nat,
    )
}

/// An RGBA image held in memory, row by row.
#[derive(Debug)]
pub struct FrameImage {
    pub pixels: Vec<u8>,
    pub width: u32,
    pub height: u32,
}

/// Copies out the box at column `x` and row `y`, `width` by `height` pixels, of an
/// RGBA image; the box is cut back to the image where it reaches past it.
pub fn crop(pixels: &[u8], image_width: u32, image_height: u32, x: u32, y: u32, width: u32, height: u32) -> (image: FrameImage)
    requires
        pixels@.len() == image_width * image_height * 4,
    ensures
        image.width == crop_span(image_width as int, x as int, width as int),
        image.height == crop_span(image_height as int, y as int, height as int),
        image.pixels@ == cropped_pixels(
            pixels@,
            image_width as int,
            image_height as int,
            x as int,
            y as int,
            width as int,
            height as int,
        ),
        image.pixels@.len() == image.width * image.height * 4,
{
    let x0: u32 = if x < image_width { x } else { image_width };
    let y0: u32 = if y < image_height { y } else { image_height };
    let w: u32 = if width < image_width - x0 { width } else { image_width - x0 };
    let h: u32 = if height < image_height - y0 { height } else { image_height - y0 };
    let len = pixels.len();
    assert(pixels@.len() == len);
    let mut out: Vec<u8> = Vec::new();
    let mut r: u32 = 0;
    while r < h
        invariant
            r <= h,
            y0 + h <= image_height,
            x0 + w <= image_width,
            pixels@.len() == image_width * image_height * 4,
            len == pixels@.len(),
            out@ == crop_rows(pixels@, image_width as int, x0 as int, y0 as int, w as int, r as nat),
            out@.len() == r * w * 4,
        decreases h - r,
    {
        assert(((y0 + r) * image_width + x0 + w) * 4 <= pixels@.len()
            && ((y0 + r) * image_width + x0) * 4 >= 0) by (nonlinear_arith)
            requires y0 + r < image_height, x0 + w <= image_width, pixels@.len() == image_width * image_height * 4;
        let start: usize = (((y0 as u64 + r as u64) * image_width as u64 + x0 as u64) * 4) as usize;
        let end: usize = start + (w as usize) * 4;
        let ghost before = out@;
        let mut k: usize = start;
        while k < end
            invariant
                start <= k <= end,
                end <= pixels@.len(),
                out@ == before + pixels@.subrange(start as int, k as int),
            decreases end - k,
        {
            out.push(pixels[k]);
            k = k + 1;
            assert(out@ =~= before + pixels@.subrange(start as int, k as int));
        }
        assert(out@.len() == (r + 1) * w * 4) by (nonlinear_arith)
            requires out@.len() == r * w * 4 + (end - start), end - start == w * 4;
        r = r + 1;
    }
    assert(out@.len() == w * h * 4) by (nonlinear_arith)
        requires out@.len() == r * w * 4, r == h;
    FrameImage { pixels: out, width: w, height: h }
}

/// Why a pet cannot be loaded.
#[derive(Debug, PartialEq, Eq)]
pub enum PetError {
    /// The spritesheet does not have a Codex layout.
    Layout(LayoutError),
    /// A custom animation state of the manifest cannot be used.
    Animation(AnimationError),
}

/// Why a frame cannot be produced.
#[derive(Clone, Copy, Debug, PartialEq, Eq)]
pub enum FrameError {
    /// There is no frame of that index on the spritesheet.
    OutOfRange { index: usize, count: usize },
    /// The frame could not be encoded as PNG.
    PngEncoding { index: usize },
}

/// The number of frames of a grid.
pub open spec fn grid_frames(frame: FrameSpec) -> nat {
    (frame.columns * frame.rows) as nat
}

/// The pixels of frame `index` of a spritesheet `width` pixels wide and `height` high,
/// in reading order of the grid.
pub open spec fn frame_pixels(pixels: Seq<u8>, width: u32, height: u32, frame: FrameSpec, index: int) -> Seq<u8> {
    cropped_pixels(
        pixels,
        width as int,
        height as int,
        index % frame.columns as int * frame.width,
        index / frame.columns as int * frame.height,
        frame.width as int,
        frame.height as int,
    )
}

/// The width of a frame scaled to `height` pixels high, at least one pixel.
pub open spec fn scaled_width(frame: FrameSpec, height: u16) -> u32 {
    let w = frame.width * height / frame.height as int;
    if w < 1 {
        1
    } else {
        w as u32
    }
}

/// The width of a frame of the grid scaled to `height` pixels high, at least one pixel.
pub fn scaled_width_of(frame: FrameSpec, height: u16) -> (width: u32)
    requires
        frame.height > 0,
        frame.width * height / frame.height as int <= u32::MAX,
    ensures
        width == scaled_width(frame, height),
{
    assert(frame.width * height <= u32::MAX * u16::MAX) by (nonlinear_arith)
        requires frame.width <= u32::MAX, height <= u16::MAX;
    let scaled: u64 = frame.width as u64 * height as u64 / frame.height as u64;
    if scaled < 1 {
        1
    } else {
        scaled as u32
    }
}

/// A pet: its RGBA spritesheet, the grid of frames on it and its animation states.
#[derive(Debug)]
pub struct Pet {
    pixels: Vec<u8>,
    width: u32,
    height: u32,
    frame: FrameSpec,
    animations: AnimationSet,
}

impl Pet {
    #[verifier::type_invariant]
    spec fn well_formed(self) -> bool {
        &&& self.pixels@.len() == self.width * self.height * 4
        &&& sheet_ok(self.frame, self.width, self.height)
    }

    /// The spritesheet's pixels, width and height.
    pub closed spec fn sheet(&self) -> (Seq<u8>, u32, u32) {
        (self.pixels@, self.width, self.height)
    }

    /// The grid of frames.
    pub closed spec fn grid(&self) -> FrameSpec {
        self.frame
    }

    /// The animation states.
    pub closed spec fn states(&self) -> Map<Seq<char>, crate::animation_set::AnimationView> {
        self.animations@
    }

    /// The pixels of frame `index`.
    pub open spec fn frame_view(&self, index: int) -> Seq<u8> {
        frame_pixels(self.sheet().0, self.sheet().1, self.sheet().2, self.grid(), index)
    }

    /// A pet from its decoded RGBA spritesheet of `width` by `height` pixels, the grid its
    /// manifest declares if any, and its manifest's custom animation states: the grid is
    /// checked against the sheet, then the states are loaded on top of the defaults.
    pub fn from_sheet(
        pixels: Vec<u8>,
        width: u32,
        height: u32,
        declared: Option<FrameSpec>,
        customs: &Vec<CustomAnimation>,
    ) -> (result: Result<Pet, PetError>)
        requires
            pixels@.len() == width * height * 4,
        ensures
            !frame_size_ok(sheet_grid(declared, height)) ==> result == Err::<Pet, PetError>(
                PetError::Layout(LayoutError::FrameSize),
            ),
            frame_size_ok(sheet_grid(declared, height)) && !sheet_ok(sheet_grid(declared, height), width, height)
                ==> result == Err::<Pet, PetError>(PetError::Layout(LayoutError::SheetSize)),
            sheet_ok(sheet_grid(declared, height), width, height) ==> match loaded_states(
                customs@.map_values(|c: CustomAnimation| custom_view(c)),
                sheet_grid(declared, height).rows,
                grid_frames(sheet_grid(declared, height)),
                customs@.len(),
            ) {
                Ok(states) => result matches Ok(pet) && pet.sheet() == (pixels@, width, height)
                    && pet.grid() == sheet_grid(declared, height) && pet.states() == states,
                Err((k, problem)) => result matches Err(PetError::Animation(e)) && e.name@ == customs@[k].name@
                    && e.problem == problem,
            },
    {
        let frame = frame_grid(declared, height);
        match validate_frame_spec(frame, width, height) {
            Ok(()) => {},
            Err(e) => {
                return Err(PetError::Layout(e));
            },
        }
        assert(sheet_ok(frame, width, height));
        assert(frame.columns * frame.rows <= 88) by (nonlinear_arith)
            requires frame.columns == 8, frame.rows <= 11;
        let frame_count: usize = (frame.columns * frame.rows) as usize;
        match load_animations(customs, frame.rows, frame_count) {
            Ok(animations) => Ok(Pet { pixels, width, height, frame, animations }),
            Err(e) => Err(PetError::Animation(e)),
        }
    }

    /// The grid of frames.
    pub fn frame(&self) -> (frame: FrameSpec)
        ensures
            frame == self.grid(),
            sheet_ok(self.grid(), self.sheet().1, self.sheet().2),
    {
        proof {
            use_type_invariant(self);
        }
        self.frame
    }

    /// The animation states.
    pub fn animations(&self) -> (animations: &AnimationSet)
        ensures
            animations@ == self.states(),
    {
        &self.animations
    }

    /// The number of frames on the spritesheet.
    pub fn frame_count(&self) -> (count: usize)
        ensures
            count == grid_frames(self.grid()),
    {
        proof {
            use_type_invariant(self);
        }
        (self.frame.columns * self.frame.rows) as usize
    }

    /// Frame `index` of the spritesheet, in reading order of the grid.
    pub fn frame_image(&self, index: usize) -> (result: Result<FrameImage, FrameError>)
        ensures
            index >= grid_frames(self.grid()) ==> result == Err::<FrameImage, FrameError>(
                FrameError::OutOfRange { index, count: grid_frames(self.grid()) as usize },
            ),
            index < grid_frames(self.grid()) ==> (result matches Ok(image) && image.pixels@
                == self.frame_view(index as int) && image.width == self.grid().width
                && image.height == self.grid().height && image.pixels@.len() == image.width
                * image.height * 4),
    {
        proof {
            use_type_invariant(self);
        }
        let count = self.frame_count();
        if index >= count {
            return Err(FrameError::OutOfRange { index, count });
        }
        assert(grid_frames(self.grid()) <= 88) by (nonlinear_arith)
            requires self.frame.columns == 8, self.frame.rows <= 11, grid_frames(self.grid()) == self.frame.columns * self.frame.rows;
        let cell: u32 = index as u32;
        assert(cell % self.frame.columns * self.frame.width <= 7 * 192 && cell / self.frame.columns * self.frame.height <= 10 * 208) by (nonlinear_arith)
            requires cell < 88, self.frame.columns == 8, self.frame.width == 192, self.frame.height == 208;
        let x: u32 = cell % self.frame.columns * self.frame.width;
        let y: u32 = cell / self.frame.columns * self.frame.height;
        assert(x + self.frame.width <= self.width && y + self.frame.height <= self.height) by (nonlinear_arith)
            requires
                cell < self.frame.columns * self.frame.rows,
                self.frame.columns == 8,
                self.frame.width == 192,
                self.frame.height == 208,
                self.width == 1536,
                self.height == 208 * self.frame.rows,
                x == cell % self.frame.columns * self.frame.width,
                y == cell / self.frame.columns * self.frame.height;
        Ok(crop(&self.pixels, self.width, self.height, x, y, self.frame.width, self.frame.height))
    }

    /// Frame `index` of the spritesheet encoded as PNG.
    pub fn frame_png(&self, index: usize) -> (result: Result<Vec<u8>, FrameError>)
        ensures
            index >= grid_frames(self.grid()) ==> result == Err::<Vec<u8>, FrameError>(
                FrameError::OutOfRange { index, count: grid_frames(self.grid()) as usize },
            ),
            index < grid_frames(self.grid()) ==> match png_encoding(
                self.grid().width,
                self.grid().height,
                self.frame_view(index as int),
            ) {
                Some(bytes) => result matches Ok(png) && png@ == bytes,
                None => result == Err::<Vec<u8>, FrameError>(FrameError::PngEncoding { index }),
            },
    {
        let image = match self.frame_image(index) {
            Ok(image) => image,
            Err(e) => {
                return Err(e);
            },
        };
        match encode_png(image.width, image.height, &image.pixels) {
            Ok(png) => Ok(png),
            Err(_) => Err(FrameError::PngEncoding { index }),
        }
    }

    /// Every frame of the spritesheet encoded as PNG, in order; fails on the first frame
    /// that cannot be encoded.
    pub fn png_frames(&self) -> (result: Result<Vec<Vec<u8>>, FrameError>)
        ensures
            result matches Ok(frames) ==> (frames@.len() == grid_frames(self.grid()) && forall|i: int|
                0 <= i < frames@.len() ==> png_encoding(
                    self.grid().width,
                    self.grid().height,
                    self.frame_view(i),
                ) == Some(#[trigger] frames@[i]@)),
            result matches Err(e) ==> (e matches FrameError::PngEncoding { index } && index
                < grid_frames(self.grid()) && png_encoding(
                self.grid().width,
                self.grid().height,
                self.frame_view(index as int),
            ) is None && forall|i: int| 0 <= i < index ==> #[trigger] png_encoding(
                self.grid().width,
                self.grid().height,
                self.frame_view(i),
            ) is Some),
    {
        let count = self.frame_count();
        let mut frames: Vec<Vec<u8>> = Vec::new();
        let mut i: usize = 0;
        while i < count
            invariant
                i <= count,
                count == grid_frames(self.grid()),
                frames@.len() == i,
                forall|k: int| 0 <= k < i ==> png_encoding(
                    self.grid().width,
                    self.grid().height,
                    self.frame_view(k),
                ) == Some(#[trigger] frames@[k]@),
            decreases count - i,
        {
            let png = match self.frame_png(i) {
                Ok(png) => png,
                Err(e) => {
                    assert forall|k: int| 0 <= k < i implies #[trigger] png_encoding(
                        self.grid().width,
                        self.grid().height,
                        self.frame_view(k),
                    ) is Some by {
                        assert(png_encoding(self.grid().width, self.grid().height, self.frame_view(k)) == Some(frames@[k]@));
                    }
                    return Err(e);
                },
            };
            frames.push(png);
            i = i + 1;
        }
        Ok(frames)
    }

    /// `sixels` are the frames of the spritesheet, in order, each resampled by the Lanczos
    /// filter into the matching entry of `resized`, `height` pixels high and as wide as
    /// keeps its aspect ratio, and encoded as a Sixel image.
    pub open spec fn frames_from_resized(&self, height: u16, sixels: Seq<Vec<u8>>, resized: Seq<Seq<u8>>) -> bool {
        let width = scaled_width(self.grid(), height);
        &&& sixels.len() == grid_frames(self.grid())
        &&& resized.len() == sixels.len()
        &&& forall|i: int|
            0 <= i < sixels.len() ==> {
                &&& lanczos3_resize_of(
                    self.frame_view(i),
                    self.grid().width,
                    self.grid().height,
                    width,
                    height as u32,
                    #[trigger] resized[i],
                )
                &&& resized[i].len() == width * height * 4
                &&& sixels[i]@ == sixel_image(resized[i], width as nat, height as nat)
            }
    }

    /// Every frame of the spritesheet scaled to `height` pixels high, keeping its aspect
    /// ratio, with the Lanczos filter, and encoded as a Sixel image, in order. Which pixels
    /// the filter computes is not stated, only that frame `i` is the encoding of a
    /// resampling of spritesheet frame `i`.
    pub fn sixel_frames(&self, height: u16) -> (frames: Vec<Vec<u8>>)
        requires
            height >= 1,
            scaled_width(self.grid(), height) * height * 4 <= usize::MAX,
        ensures
            frames@.len() == grid_frames(self.grid()),
            exists|resized: Seq<Seq<u8>>|
                #[trigger] self.frames_from_resized(height, frames@, resized),
    {
        proof {
            use_type_invariant(self);
        }
        let count = self.frame_count();
        let fw = self.frame.width;
        let fh = self.frame.height;
        assert(fw * height / fh as int <= u32::MAX) by (nonlinear_arith)
            requires fw == 192, fh == 208, height <= u16::MAX;
        let width = scaled_width_of(self.frame, height);
        let mut resized: Vec<Vec<u8>> = Vec::new();
        let mut i: usize = 0;
        while i < count
            invariant
                i <= count,
                count == grid_frames(self.grid()),
                fw == self.grid().width,
                fh == self.grid().height,
                width == scaled_width(self.grid(), height),
                width >= 1,
                height >= 1,
                width * height * 4 <= usize::MAX,
                resized@.len() == i,
                forall|k: int| 0 <= k < i ==> #[trigger] resized@[k]@.len() == width * height * 4,
                forall|k: int|
                    0 <= k < i ==> lanczos3_resize_of(
                        self.frame_view(k),
                        fw,
                        fh,
                        width,
                        height as u32,
                        #[trigger] resized@[k]@,
                    ),
            decreases count - i,
        {
            let image = self.frame_image(i).unwrap();
            resized.push(resize_lanczos3(&image.pixels, fw, fh, width, height as u32));
            i = i + 1;
        }
        let frames = sixel_images(&resized, width, height as u32);
        let ghost r = resized@.map_values(|v: Vec<u8>| v@);
        assert(self.frames_from_resized(height, frames@, r));
        frames
    }
}

} // verus!
