//! Compact Sixel encoder for RGBA pixel buffers, using a fixed RGB 3-3-2 palette.

use vstd::prelude::*;
use crate::bytes::{decimal, digits_value, is_digit, lemma_decimal_digits, push_all, push_decimal};

verus! {

/// Rows of pixels that one Sixel band covers.
pub const BAND_HEIGHT: u32 = 6;

/// Number of entries of the RGB 3-3-2 palette.
pub const PALETTE_SIZE: usize = 256;

/// Pixels whose alpha is below this value are transparent.
pub const ALPHA_THRESHOLD: u8 = 128;

/// The palette index of a colour: the top three bits of red and of green and the
/// top two bits of blue.
pub open spec fn rgb332_index(red: u8, green: u8, blue: u8) -> u8 {
    ((red / 32) * 32 + (green / 32) * 4 + blue / 64) as u8
}

/// The colour that a palette index stands for, each channel scaled back to 0..=255.
pub open spec fn rgb332_rgb(index: u8) -> (u8, u8, u8) {
    (
        ((index / 32) * 255 / 7) as u8,
        (((index / 4) % 8) * 255 / 7) as u8,
        ((index % 4) * 255 / 3) as u8,
    )
}

/// The palette index of pixel number `p` of an RGBA buffer, or `None` when the pixel is
/// transparent.
pub open spec fn pixel_color(rgba: Seq<u8>, p: int) -> Option<u8> {
    if rgba[4 * p + 3] < ALPHA_THRESHOLD {
        None
    } else {
        Some(rgb332_index(rgba[4 * p], rgba[4 * p + 1], rgba[4 * p + 2]))
    }
}

/// Some pixel numbered from `lo` up to, not including, `hi` has palette index `color`.
pub open spec fn color_in(rgba: Seq<u8>, lo: int, hi: int, color: u8) -> bool {
    exists|q: int| lo <= q < hi && #[trigger] pixel_color(rgba, q) == Some(color)
}

/// Some whole pixel of the buffer has palette index `color`.
pub open spec fn palette_has(rgba: Seq<u8>, color: u8) -> bool {
    color_in(rgba, 0, (rgba.len() / 4) as int, color)
}

/// The palette indices below `n` for which `keep` holds, in ascending order.
pub open spec fn colors_where(keep: spec_fn(u8) -> bool, n: nat) -> Seq<u8>
    decreases n,
{
    if n == 0 {
        Seq::empty()
    } else {
        let rest = colors_where(keep, (n - 1) as nat);
        if keep((n - 1) as u8) {
            rest.push((n - 1) as u8)
        } else {
            rest
        }
    }
}

/// The colours that occur in the buffer, in ascending order.
pub open spec fn palette_colors(rgba: Seq<u8>) -> Seq<u8> {
    colors_where(|c: u8| palette_has(rgba, c), 256)
}

/// A channel value as a percentage, rounded down.
pub open spec fn percent(value: u8) -> nat {
    (value * 100 / 255) as nat
}

/// The Sixel colour definition of one palette index: `#index;2;r;g;b`, in percent.
pub open spec fn color_definition(index: u8) -> Seq<u8> {
    let (r, g, b) = rgb332_rgb(index);
    seq![35u8] + decimal(index as nat) + seq![59u8, 50u8, 59u8] + decimal(percent(r))
        + seq![59u8] + decimal(percent(g)) + seq![59u8] + decimal(percent(b))
}

/// The colour definitions of a list of palette indices, in order.
pub open spec fn color_definitions(colors: Seq<u8>) -> Seq<u8>
    decreases colors.len(),
{
    if colors.len() == 0 {
        Seq::empty()
    } else {
        color_definitions(colors.drop_last()) + color_definition(colors.last())
    }
}

/// The last row of the band that starts at row `top`, plus one.
pub open spec fn band_end(height: int, top: int) -> int {
    if top + BAND_HEIGHT < height {
        top + BAND_HEIGHT
    } else {
        height
    }
}

/// Some pixel of the band that starts at row `top` has palette index `color`.
pub open spec fn band_has(rgba: Seq<u8>, width: int, height: int, top: int, color: u8) -> bool {
    color_in(rgba, top * width, band_end(height, top) * width, color)
}

/// The colours of the band that starts at row `top`, in ascending order: those
/// that the palette holds and some pixel of the band has.
pub open spec fn band_colors(rgba: Seq<u8>, width: int, height: int, top: int) -> Seq<u8> {
    colors_where(|c: u8| palette_has(rgba, c) && band_has(rgba, width, height, top, c), 256)
}

/// The weight of bit `n`: two to the power `n`.
pub open spec fn bit_weight(n: nat) -> nat
    decreases n,
{
    if n == 0 {
        1
    } else {
        2 * bit_weight((n - 1) as nat)
    }
}

/// The six-pixel column at `x` of the band that starts at row `top` as a bit mask of
/// the rows, among the first `n`, whose pixel has palette index `color`; bit `k` stands
/// for row `top + k`.
pub open spec fn column_bits(
    rgba: Seq<u8>,
    width: int,
    height: int,
    top: int,
    x: int,
    color: u8,
    n: nat,
) -> nat
    decreases n,
{
    if n == 0 {
        0
    } else {
        let k = (n - 1) as nat;
        column_bits(rgba, width, height, top, x, color, k) + if top + k < height
            && pixel_color(rgba, (top + k) * width + x) == Some(color) {
            bit_weight(k)
        } else {
            0
        }
    }
}

/// The Sixel data byte of the column at `x` of a band for one colour.
pub open spec fn sixel_byte(
    rgba: Seq<u8>,
    width: int,
    height: int,
    top: int,
    x: int,
    color: u8,
) -> u8 {
    (63 + column_bits(rgba, width, height, top, x, color, BAND_HEIGHT as nat)) as u8
}

/// The Sixel data bytes of every column of a band for one colour, left to right.
pub open spec fn sixel_row(rgba: Seq<u8>, width: int, height: int, top: int, color: u8) -> Seq<u8> {
    Seq::new(width as nat, |x: int| sixel_byte(rgba, width, height, top, x, color))
}

/// The maximal runs of equal bytes of `s`, left to right, each as its byte and length.
pub open spec fn runs(s: Seq<u8>) -> Seq<(u8, nat)>
    decreases s.len(),
{
    if s.len() == 0 {
        Seq::empty()
    } else {
        let prev = runs(s.drop_last());
        if prev.len() > 0 && prev.last().0 == s.last() {
            prev.update(prev.len() - 1, (s.last(), prev.last().1 + 1))
        } else {
            prev.push((s.last(), 1nat))
        }
    }
}

/// The encoding of one run: `!` with the count and the byte when it is longer than
/// three, else the byte repeated.
pub open spec fn run_bytes(byte: u8, length: nat) -> Seq<u8> {
    if length > 3 {
        seq![33u8] + decimal(length) + seq![byte]
    } else {
        Seq::new(length, |i: int| byte)
    }
}

/// The encodings of a list of runs, in order.
pub open spec fn runs_bytes(rs: Seq<(u8, nat)>) -> Seq<u8>
    decreases rs.len(),
{
    if rs.len() == 0 {
        Seq::empty()
    } else {
        runs_bytes(rs.drop_last()) + run_bytes(rs.last().0, rs.last().1)
    }
}

/// The Sixel run-length encoding of a sequence of data bytes.
pub open spec fn run_length_encoded(s: Seq<u8>) -> Seq<u8> {
    runs_bytes(runs(s))
}

/// Appending a byte to a sequence extends its last run or starts a new one.
pub proof fn lemma_runs_push(s: Seq<u8>, b: u8)
    ensures
        runs(s.push(b)) == (if runs(s).len() > 0 && runs(s).last().0 == b {
            runs(s).update(runs(s).len() - 1, (b, runs(s).last().1 + 1))
        } else {
            runs(s).push((b, 1nat))
        }),
        runs(s.push(b)).len() > 0,
        runs(s.push(b)).last().0 == b,
{
    assert(s.push(b).drop_last() =~= s);
}

/// A nonempty sequence has runs, and its last run is no longer than the sequence.
pub proof fn lemma_runs_last(s: Seq<u8>)
    requires
        s.len() > 0,
    ensures
        runs(s).len() > 0,
        runs(s).last().0 == s.last(),
        1 <= runs(s).last().1 <= s.len(),
    decreases s.len(),
{
    if s.len() > 1 {
        lemma_runs_last(s.drop_last());
    } else {
        assert(s.drop_last().len() == 0);
        assert(runs(s.drop_last()) =~= Seq::<(u8, nat)>::empty());
    }
}

/// One colour of a band: `#`, the colour's index, then its run-length encoded data.
pub open spec fn color_section(rgba: Seq<u8>, width: int, height: int, top: int, color: u8) -> Seq<u8> {
    seq![35u8] + decimal(color as nat) + run_length_encoded(sixel_row(rgba, width, height, top, color))
}

/// The first `k` colour sections of a band whose colours are `colors`; each but the
/// last colour of the band is followed by `$`, which returns to the band's first column.
pub open spec fn band_sections(
    rgba: Seq<u8>,
    width: int,
    height: int,
    top: int,
    colors: Seq<u8>,
    k: nat,
) -> Seq<u8>
    decreases k,
{
    if k == 0 {
        Seq::empty()
    } else {
        band_sections(rgba, width, height, top, colors, (k - 1) as nat) + color_section(
            rgba,
            width,
            height,
            top,
            colors[k - 1],
        ) + if k < colors.len() {
            seq![36u8]
        } else {
            Seq::empty()
        }
    }
}

/// What ends a band: nothing after the last band; `-` (next band) after a band without
/// colours; `$-` after any other band.
pub open spec fn band_terminator(height: int, top: int, no_colors: bool) -> Seq<u8> {
    if top + BAND_HEIGHT < height {
        if no_colors {
            seq![45u8]
        } else {
            seq![36u8, 45u8]
        }
    } else {
        Seq::empty()
    }
}

/// The Sixel data of the band that starts at row `top`.
pub open spec fn band_bytes(rgba: Seq<u8>, width: int, height: int, top: int) -> Seq<u8> {
    let colors = band_colors(rgba, width, height, top);
    band_sections(rgba, width, height, top, colors, colors.len()) + band_terminator(
        height,
        top,
        colors.len() == 0,
    )
}

/// The Sixel data of the first `n` bands, top to bottom.
pub open spec fn bands_bytes(rgba: Seq<u8>, width: int, height: int, n: nat) -> Seq<u8>
    decreases n,
{
    if n == 0 {
        Seq::empty()
    } else {
        bands_bytes(rgba, width, height, (n - 1) as nat) + band_bytes(
            rgba,
            width,
            height,
            BAND_HEIGHT * (n - 1),
        )
    }
}

/// The number of bands of an image `height` rows high.
pub open spec fn band_count(height: int) -> nat {
    ((height + BAND_HEIGHT - 1) / BAND_HEIGHT as int) as nat
}

/// The introducer of a Sixel image with square pixels and its raster attributes:
/// `ESC P 9;1;0 q "1;1;width;height`.
pub open spec fn sixel_header(width: nat, height: nat) -> Seq<u8> {
    seq![27u8, 80u8, 57u8, 59u8, 49u8, 59u8, 48u8, 113u8, 34u8, 49u8, 59u8, 49u8, 59u8]
        + decimal(width) + seq![59u8] + decimal(height)
}

/// The string terminator `ESC \` that ends a Sixel image.
pub open spec fn string_terminator() -> Seq<u8> {
    seq![27u8, 92u8]
}

/// The complete Sixel image of an RGBA buffer of `width` by `height` pixels.
pub open spec fn sixel_image(rgba: Seq<u8>, width: nat, height: nat) -> Seq<u8> {
    sixel_header(width, height) + color_definitions(palette_colors(rgba)) + bands_bytes(
        rgba,
        width as int,
        height as int,
        band_count(height as int),
    ) + string_terminator()
}

/// Maps a colour to its RGB 3-3-2 palette index.
pub fn rgb332(red: u8, green: u8, blue: u8) -> (index: u8)
    ensures
        index == rgb332_index(red, green, blue),
{
    let index: u8 = (red >> 5) << 5 | (green >> 5) << 2 | (blue >> 6);
    assert(((red >> 5) << 5 | (green >> 5) << 2 | (blue >> 6)) == ((red / 32) * 32 + (green / 32) * 4 + blue / 64) as u8) by (bit_vector);
    index
}

/// The colour that a palette index stands for.
pub fn rgb332_color(index: u8) -> (rgb: (u8, u8, u8))
    ensures
        rgb == rgb332_rgb(index),
{
    let red: u16 = ((index >> 5) as u16) * 255 / 7;
    let green: u16 = (((index >> 2) & 7) as u16) * 255 / 7;
    let blue: u16 = ((index & 3) as u16) * 255 / 3;
    assert((index >> 5) == index / 32 && ((index >> 2) & 7) == (index / 4) % 8 && (index & 3) == index % 4) by (bit_vector);
    (red as u8, green as u8, blue as u8)
}

/// The palette index of the pixel at column `x` and row `y`, or `None` when it is
/// transparent.
pub fn color_at(rgba: &[u8], width: u32, x: u32, y: u32) -> (color: Option<u8>)
    requires
        (y * width + x) * 4 + 3 < rgba@.len(),
    ensures
        color == pixel_color(rgba@, y * width + x),
{
    let len = rgba.len();
    proof {
        assert(y * width + x >= 0 && (y * width + x) * 4 + 3 < usize::MAX) by (nonlinear_arith)
            requires (y * width + x) * 4 + 3 < rgba@.len(), rgba@.len() == len, len <= usize::MAX;
    }
    let offset: usize = ((y as u64 * width as u64 + x as u64) * 4) as usize;
    if rgba[offset + 3] < ALPHA_THRESHOLD {
        return None;
    }
    Some(rgb332(rgba[offset], rgba[offset + 1], rgba[offset + 2]))
}

/// The Sixel data byte of column `x` of the band that starts at row `band_top` for one
/// colour: `?` plus one bit for each of the band's rows whose pixel has that colour;
/// just `?` for a band that starts at or past the last row.
pub fn sixel_column(rgba: &[u8], width: u32, height: u32, band_top: u32, x: u32, color: u8) -> (byte: u8)
    requires
        rgba@.len() == width * height * 4,
        x < width,
        band_top + BAND_HEIGHT - 1 <= u32::MAX,
    ensures
        byte == sixel_byte(rgba@, width as int, height as int, band_top as int, x as int, color),
        band_top >= height ==> byte == 63,
{
    let mut mask: u8 = 0;
    let mut weight: u8 = 1;
    let mut bit: u32 = 0;
    while bit < BAND_HEIGHT
        invariant
            bit <= BAND_HEIGHT,
            band_top >= height ==> mask == 0,
            x < width,
            rgba@.len() == width * height * 4,
            weight == bit_weight(bit as nat),
            bit == 0 ==> weight == 1,
            bit == 1 ==> weight == 2,
            bit == 2 ==> weight == 4,
            bit == 3 ==> weight == 8,
            bit == 4 ==> weight == 16,
            bit == 5 ==> weight == 32,
            bit == 6 ==> weight == 64,
            mask == column_bits(rgba@, width as int, height as int, band_top as int, x as int, color, bit as nat),
            mask < weight,
        decreases BAND_HEIGHT - bit,
    {
        let y: u64 = band_top as u64 + bit as u64;
        if y < height as u64 {
            let yy: u32 = y as u32;
            assert((yy * width + x) * 4 + 3 < rgba@.len()) by (nonlinear_arith)
                requires yy < height, x < width, rgba@.len() == width * height * 4;
            if color_at(rgba, width, x, yy) == Some(color) {
                mask = mask + weight;
            }
        }
        weight = weight * 2;
        bit = bit + 1;
    }
    63 + mask
}

/// The colours that occur in the band that starts at row `band_top`, restricted to
/// the palette, in ascending order.
pub fn active_colors(rgba: &[u8], width: u32, height: u32, band_top: u32, palette: &Palette) -> (colors: Vec<u8>)
    requires
        rgba@.len() == width * height * 4,
        band_top < height,
        palette.wf(),
    ensures
        colors@ == colors_where(
            |c: u8| palette@[c as int] && band_has(rgba@, width as int, height as int, band_top as int, c),
            256,
        ),
{
    let end: u32 = if band_top as u64 + BAND_HEIGHT as u64 <= height as u64 {
        band_top + BAND_HEIGHT
    } else {
        height
    };
    assert(end == band_end(height as int, band_top as int));
    let len = rgba.len();
    assert(band_top * width <= end * width && end * width * 4 <= rgba@.len()) by (nonlinear_arith)
        requires band_top < end <= height, rgba@.len() == width * height * 4;
    assert(rgba@.len() == len && len <= u64::MAX);
    let first: u64 = band_top as u64 * width as u64;
    let last: u64 = end as u64 * width as u64;
    let mut active: Vec<bool> = vec![false; PALETTE_SIZE];
    let mut p: u64 = first;
    while p < last
        invariant
            first <= p <= last,
            last * 4 <= rgba@.len(),
            rgba@.len() == len,
            active@.len() == PALETTE_SIZE,
            forall|c: u8| #[trigger] active@[c as int] == color_in(rgba@, first as int, p as int, c),
        decreases last - p,
    {
        let offset: usize = (4 * p) as usize;
        if rgba[offset + 3] >= ALPHA_THRESHOLD {
            let color = rgb332(rgba[offset], rgba[offset + 1], rgba[offset + 2]);
            active.set(color as usize, true);
            assert(pixel_color(rgba@, p as int) == Some(color));
        } else {
            assert(pixel_color(rgba@, p as int) is None);
        }
        assert forall|c: u8| #[trigger] active@[c as int] == color_in(rgba@, first as int, p + 1, c) by {
            if color_in(rgba@, first as int, p + 1, c) {
                let q = choose|q: int| first <= q < p + 1 && #[trigger] pixel_color(rgba@, q) == Some(c);
                if q < p {
                    assert(color_in(rgba@, first as int, p as int, c));
                }
            }
            if color_in(rgba@, first as int, p as int, c) {
                let q = choose|q: int| first <= q < p && #[trigger] pixel_color(rgba@, q) == Some(c);
                assert(first <= q < p + 1);
            }
        }
        p = p + 1;
    }
    let ghost keep = |c: u8| palette@[c as int] && band_has(rgba@, width as int, height as int, band_top as int, c);
    let mut colors: Vec<u8> = Vec::new();
    let mut i: usize = 0;
    while i < PALETTE_SIZE
        invariant
            i <= PALETTE_SIZE,
            palette.wf(),
            active@.len() == PALETTE_SIZE,
            forall|c: u8| #[trigger] active@[c as int] == band_has(rgba@, width as int, height as int, band_top as int, c),
            keep == (|c: u8| palette@[c as int] && band_has(rgba@, width as int, height as int, band_top as int, c)),
            colors@ == colors_where(keep, i as nat),
        decreases PALETTE_SIZE - i,
    {
        assert(active@[(i as u8) as int] == active@[i as int]);
        if palette.used[i] && active[i] {
            colors.push(i as u8);
        }
        i = i + 1;
    }
    colors
}

/// The state of a run-length encoder: the open run's byte, if a run is open, its length,
/// and the output so far.
pub type RunState = (Option<u8>, nat, Seq<u8>);

/// The encoder state after one more byte: the open run grows when the byte is its byte;
/// otherwise the open run is closed and one of the new byte is opened.
pub open spec fn push_step(state: RunState, byte: u8) -> RunState {
    if state.0 == Some(byte) {
        (state.0, state.1 + 1, state.2)
    } else {
        (Some(byte), 1, state.2 + open_run_bytes(state.0, state.1))
    }
}

/// The encoder state after every byte of `bytes`, in order.
pub open spec fn push_steps(state: RunState, bytes: Seq<u8>) -> RunState
    decreases bytes.len(),
{
    if bytes.len() == 0 {
        state
    } else {
        push_step(push_steps(state, bytes.drop_last()), bytes.last())
    }
}

/// The encoder state once the open run is closed.
pub open spec fn flush_step(state: RunState) -> RunState {
    (None, if state.0 is Some { 0 } else { state.1 }, state.2 + open_run_bytes(state.0, state.1))
}

/// Adds one column byte to the open run, or closes the open run and opens a new one.
pub fn push_run(run: &mut Option<u8>, length: &mut usize, output: &mut Vec<u8>, byte: u8)
    requires
        *old(run) == Some(byte) ==> *old(length) < usize::MAX,
    ensures
        (*final(run), *final(length) as nat, final(output)@) == push_step(
            (*old(run), *old(length) as nat, old(output)@),
            byte,
        ),
        (match *old(run) {
            Some(current) if current == byte => {
                &&& *final(run) == *old(run)
                &&& *final(length) == *old(length) + 1
                &&& final(output)@ == old(output)@
            },
            _ => {
                &&& *final(run) == Some(byte)
                &&& *final(length) == 1
                &&& final(output)@ == old(output)@ + open_run_bytes(*old(run), *old(length) as nat)
            },
        }),
{
    match *run {
        Some(current) if current == byte => {
            *length = *length + 1;
        },
        _ => {
            flush_run(run, length, output);
            *run = Some(byte);
            *length = 1;
        },
    }
}

/// The encoding of the open run, if there is one.
pub open spec fn open_run_bytes(run: Option<u8>, length: nat) -> Seq<u8> {
    match run {
        Some(byte) => run_bytes(byte, length),
        None => Seq::empty(),
    }
}

/// Closes the open run, if there is one, and appends its encoding.
pub fn flush_run(run: &mut Option<u8>, length: &mut usize, output: &mut Vec<u8>)
    ensures
        (*final(run), *final(length) as nat, final(output)@) == flush_step(
            (*old(run), *old(length) as nat, old(output)@),
        ),
        *final(run) == None::<u8>,
        (*old(run)).is_some() ==> *final(length) == 0,
        (*old(run)).is_none() ==> *final(length) == *old(length),
        final(output)@ == old(output)@ + open_run_bytes(*old(run), *old(length) as nat),
{
    let taken = run.take();
    let byte = match taken {
        Some(byte) => byte,
        None => {
            return;
        },
    };
    if *length > 3 {
        output.push(33u8);
        push_decimal(output, *length as u64);
        output.push(byte);
        assert(output@ =~= old(output)@ + run_bytes(byte, *old(length) as nat));
    } else {
        let mut i: usize = 0;
        while i < *length
            invariant
                i <= *length,
                *length <= 3,
                *length == *old(length),
                output@ =~= old(output)@ + Seq::new(i as nat, |j: int| byte),
            decreases *length - i,
        {
            output.push(byte);
            i = i + 1;
            assert(output@ =~= old(output)@ + Seq::new(i as nat, |j: int| byte));
        }
    }
    *length = 0;
}

/// Pushing a sequence of bytes, one by one, into an empty encoder over `output`, then
/// closing the open run, leaves the encoder empty and appends the run-length encoding of
/// the sequence; when the bytes are Sixel data, expanding that encoding gives the bytes
/// back.
pub proof fn lemma_push_flush_encodes(output: Seq<u8>, bytes: Seq<u8>)
    ensures
        flush_step(push_steps((None, 0, output), bytes)) == (None::<u8>, 0nat, output
            + run_length_encoded(bytes)),
        (forall|i: int| 0 <= i < bytes.len() ==> is_sixel_data(#[trigger] bytes[i])) ==> sixel_expand(
            run_length_encoded(bytes),
        ) == bytes,
{
    lemma_push_steps_runs(output, bytes);
    if bytes.len() > 0 {
        let rs = runs(bytes);
        assert(runs_bytes(rs) == runs_bytes(rs.drop_last()) + run_bytes(rs.last().0, rs.last().1));
    } else {
        assert(runs(bytes) =~= Seq::<(u8, nat)>::empty());
    }
    if forall|i: int| 0 <= i < bytes.len() ==> is_sixel_data(#[trigger] bytes[i]) {
        lemma_run_length_round_trip(bytes);
    }
}

/// After pushing a nonempty sequence into an empty encoder, the open run is the last run
/// of the sequence and the output holds the encodings of the runs before it.
proof fn lemma_push_steps_runs(output: Seq<u8>, bytes: Seq<u8>)
    ensures
        bytes.len() == 0 ==> push_steps((None, 0, output), bytes) == (None::<u8>, 0nat, output),
        bytes.len() > 0 ==> ({
            let rs = runs(bytes);
            &&& rs.len() > 0
            &&& push_steps((None, 0, output), bytes) == (Some(rs.last().0), rs.last().1, output
                + runs_bytes(rs.drop_last()))
        }),
    decreases bytes.len(),
{
    if bytes.len() > 0 {
        let prefix = bytes.drop_last();
        let byte = bytes.last();
        assert(prefix.push(byte) =~= bytes);
        lemma_push_steps_runs(output, prefix);
        lemma_runs_push(prefix, byte);
        lemma_runs_last(bytes);
        if prefix.len() > 0 {
            lemma_runs_last(prefix);
            let rs = runs(prefix);
            if rs.last().0 != byte {
                assert(runs(bytes).drop_last() =~= rs);
                assert(runs_bytes(rs) == runs_bytes(rs.drop_last()) + run_bytes(rs.last().0, rs.last().1));
            } else {
                assert(runs(bytes).drop_last() =~= rs.drop_last());
            }
        } else {
            assert(runs(prefix) =~= Seq::<(u8, nat)>::empty());
            assert(runs(bytes).drop_last() =~= Seq::<(u8, nat)>::empty());
            assert(output + runs_bytes(Seq::<(u8, nat)>::empty()) =~= output);
        }
    }
}

/// Appends the run-length encoded Sixel data bytes of one colour of a band.
pub fn encode_color_row(rgba: &[u8], width: u32, height: u32, band_top: u32, color: u8, output: &mut Vec<u8>)
    requires
        rgba@.len() == width * height * 4,
        band_top < height,
        band_top + BAND_HEIGHT <= u32::MAX,
    ensures
        final(output)@ == old(output)@ + run_length_encoded(
            sixel_row(rgba@, width as int, height as int, band_top as int, color),
        ),
{
    let ghost row = sixel_row(rgba@, width as int, height as int, band_top as int, color);
    let mut run: Option<u8> = None;
    let mut length: usize = 0;
    let mut x: u32 = 0;
    while x < width
        invariant
            x <= width,
            band_top < height,
            band_top + BAND_HEIGHT <= u32::MAX,
            rgba@.len() == width * height * 4,
            row == sixel_row(rgba@, width as int, height as int, band_top as int, color),
            x == 0 ==> run is None && length == 0 && output@ == old(output)@,
            x > 0 ==> {
                let rs = runs(row.subrange(0, x as int));
                &&& rs.len() > 0
                &&& run == Some(rs.last().0)
                &&& length == rs.last().1
                &&& 1 <= length <= x
                &&& output@ == old(output)@ + runs_bytes(rs.drop_last())
            },
        decreases width - x,
    {
        let byte = sixel_column(rgba, width, height, band_top, x, color);
        let ghost prefix = row.subrange(0, x as int);
        assert(row.subrange(0, x + 1) =~= prefix.push(byte));
        proof {
            lemma_runs_push(prefix, byte);
            lemma_runs_last(prefix.push(byte));
            if x > 0 {
                lemma_runs_last(prefix);
                let rs = runs(prefix);
                if rs.last().0 != byte {
                    assert(runs(prefix.push(byte)).drop_last() =~= rs);
                    assert(runs_bytes(rs) == runs_bytes(rs.drop_last()) + run_bytes(rs.last().0, rs.last().1));
                } else {
                    assert(runs(prefix.push(byte)).drop_last() =~= rs.drop_last());
                }
            } else {
                assert(prefix =~= Seq::<u8>::empty());
                assert(runs(prefix.push(byte)).drop_last() =~= Seq::<(u8, nat)>::empty());
            }
        }
        push_run(&mut run, &mut length, output, byte);
        x = x + 1;
    }
    let ghost before = output@;
    flush_run(&mut run, &mut length, output);
    proof {
        assert(row.subrange(0, x as int) =~= row);
        if x > 0 {
            let rs = runs(row);
            assert(runs_bytes(rs) == runs_bytes(rs.drop_last()) + run_bytes(rs.last().0, rs.last().1));
        } else {
            assert(row =~= Seq::<u8>::empty());
        }
    }
}

/// Why an RGBA buffer cannot be encoded.
#[derive(Debug, Clone, Copy, PartialEq, Eq)]
pub enum SixelError {
    /// The width or the height is zero.
    EmptyImage,
    /// The byte count of the image does not fit in `usize`.
    SizeOverflow,
    /// The buffer does not hold four bytes per pixel.
    BufferLength { actual: usize, expected: usize },
}

/// Encodes an RGBA buffer of `width` by `height` pixels, row by row, as a Sixel image.
/// Pixels whose alpha is below 128 are left transparent; the others are drawn in the
/// RGB 3-3-2 palette.
pub fn encode_rgba(rgba: &[u8], width: u32, height: u32) -> (result: Result<Vec<u8>, SixelError>)
    requires
        width * height * 4 <= u64::MAX,
        rgba@.len() == width * height * 4 ==> height <= u32::MAX - 3,
    ensures
        width == 0 || height == 0 ==> result == Err::<Vec<u8>, SixelError>(SixelError::EmptyImage),
        width > 0 && height > 0 && width * height * 4 > usize::MAX ==> result == Err::<
            Vec<u8>,
            SixelError,
        >(SixelError::SizeOverflow),
        width > 0 && height > 0 && width * height * 4 <= usize::MAX && rgba@.len() != width
            * height * 4 ==> result == Err::<Vec<u8>, SixelError>(
            SixelError::BufferLength {
                actual: rgba@.len() as usize,
                expected: (width * height * 4) as usize,
            },
        ),
        width > 0 && height > 0 && rgba@.len() == width * height * 4 ==> (result matches Ok(
            bytes,
        ) && bytes@ == sixel_image(rgba@, width as nat, height as nat)),
{
    let len = rgba.len();
    assert(rgba@.len() == len);
    if width == 0 || height == 0 {
        return Err(SixelError::EmptyImage);
    }
    let expected64: u64 = width as u64 * height as u64 * 4;
    if expected64 > usize::MAX as u64 {
        return Err(SixelError::SizeOverflow);
    }
    let expected: usize = expected64 as usize;
    if rgba.len() != expected {
        return Err(SixelError::BufferLength { actual: rgba.len(), expected });
    }
    let palette = Palette::from_rgba(rgba);
    let mut output: Vec<u8> = Vec::new();
    push_all(&mut output, &[27u8, 80u8, 57u8, 59u8, 49u8, 59u8, 48u8, 113u8, 34u8, 49u8, 59u8, 49u8, 59u8]);
    push_decimal(&mut output, width as u64);
    output.push(59u8);
    push_decimal(&mut output, height as u64);
    assert(output@ =~= sixel_header(width as nat, height as nat));
    palette.write_definitions(&mut output);
    let ghost keep = |c: u8| palette@[c as int];
    assert(keep =~= (|c: u8| palette_has(rgba@, c)));
    let ghost prefix = output@;
    assert(prefix == sixel_header(width as nat, height as nat) + color_definitions(palette_colors(rgba@)));
    let mut band_top: u32 = 0;
    let ghost mut n: nat = 0;
    while band_top < height
        invariant
            rgba@.len() == width * height * 4,
            height <= u32::MAX - 3,
            palette.wf(),
            forall|c: u8| #[trigger] palette@[c as int] == palette_has(rgba@, c),
            band_top == BAND_HEIGHT * n,
            n > 0 ==> BAND_HEIGHT * (n - 1) < height,
            output@ == prefix + bands_bytes(rgba@, width as int, height as int, n),
        decreases height + BAND_HEIGHT - band_top,
    {
        assert(band_top + BAND_HEIGHT <= u32::MAX - 3) by (nonlinear_arith)
            requires band_top == BAND_HEIGHT * n, band_top < height, height <= u32::MAX - 3, BAND_HEIGHT == 6;
        encode_band(rgba, width, height, band_top, &palette, &mut output);
        band_top = band_top + BAND_HEIGHT;
        proof {
            n = n + 1;
        }
    }
    assert(n == band_count(height as int));
    output.push(27u8);
    output.push(92u8);
    assert(output@ =~= sixel_image(rgba@, width as nat, height as nat));
    Ok(output)
}

/// Encodes RGBA buffers of `width` by `height` pixels each as Sixel images, in order.
pub fn sixel_images(rgba: &Vec<Vec<u8>>, width: u32, height: u32) -> (images: Vec<Vec<u8>>)
    requires
        width >= 1,
        height >= 1,
        height <= u32::MAX - 3,
        forall|i: int| 0 <= i < rgba@.len() ==> #[trigger] rgba@[i]@.len() == width * height * 4,
    ensures
        images@.len() == rgba@.len(),
        forall|i: int|
            0 <= i < images@.len() ==> #[trigger] images@[i]@ == sixel_image(
                rgba@[i]@,
                width as nat,
                height as nat,
            ),
{
    let mut images: Vec<Vec<u8>> = Vec::new();
    let mut i: usize = 0;
    while i < rgba.len()
        invariant
            i <= rgba@.len(),
            width >= 1,
            height >= 1,
            height <= u32::MAX - 3,
            forall|k: int| 0 <= k < rgba@.len() ==> #[trigger] rgba@[k]@.len() == width * height * 4,
            images@.len() == i,
            forall|k: int|
                0 <= k < i ==> #[trigger] images@[k]@ == sixel_image(rgba@[k]@, width as nat, height as nat),
        decreases rgba@.len() - i,
    {
        let buffer = &rgba[i];
        let len: usize = buffer.len();
        assert(buffer@.len() == width * height * 4 && len <= u64::MAX);
        let image = encode_rgba(buffer.as_slice(), width, height).unwrap();
        images.push(image);
        i = i + 1;
    }
    images
}

/// Appends the Sixel data of the band that starts at row `band_top`.
fn encode_band(rgba: &[u8], width: u32, height: u32, band_top: u32, palette: &Palette, output: &mut Vec<u8>)
    requires
        rgba@.len() == width * height * 4,
        band_top < height,
        band_top + BAND_HEIGHT <= u32::MAX,
        palette.wf(),
        forall|c: u8| #[trigger] palette@[c as int] == palette_has(rgba@, c),
    ensures
        final(output)@ == old(output)@ + band_bytes(rgba@, width as int, height as int, band_top as int),
{
    let colors = active_colors(rgba, width, height, band_top, palette);
    let ghost keep = |c: u8| palette@[c as int] && band_has(rgba@, width as int, height as int, band_top as int, c);
    assert(keep =~= (|c: u8| palette_has(rgba@, c) && band_has(rgba@, width as int, height as int, band_top as int, c)));
    assert(colors@ == band_colors(rgba@, width as int, height as int, band_top as int));
    let mut k: usize = 0;
    while k < colors.len()
        invariant
            k <= colors@.len(),
            rgba@.len() == width * height * 4,
            band_top < height,
            band_top + BAND_HEIGHT <= u32::MAX,
            output@ == old(output)@ + band_sections(rgba@, width as int, height as int, band_top as int, colors@, k as nat),
        decreases colors@.len() - k,
    {
        let color = colors[k];
        output.push(35u8);
        push_decimal(output, color as u64);
        encode_color_row(rgba, width, height, band_top, color, output);
        if k + 1 < colors.len() {
            output.push(36u8);
        }
        k = k + 1;
        assert(output@ =~= old(output)@ + band_sections(rgba@, width as int, height as int, band_top as int, colors@, k as nat));
    }
    if band_top + BAND_HEIGHT < height {
        if colors.len() == 0 {
            output.push(45u8);
        } else {
            output.push(36u8);
            output.push(45u8);
        }
    }
    assert(output@ =~= old(output)@ + band_bytes(rgba@, width as int, height as int, band_top as int));
}

/// The set of palette indices that an image uses.
pub struct Palette {
    used: Vec<bool>,
}

impl View for Palette {
    type V = Seq<bool>;

    closed spec fn view(&self) -> Seq<bool> {
        self.used@
    }
}

impl Palette {
    /// Every palette index has an entry.
    pub closed spec fn wf(&self) -> bool {
        self.used@.len() == PALETTE_SIZE
    }

    /// The palette of the opaque pixels of an RGBA buffer; trailing bytes that do not
    /// make a whole pixel are ignored.
    pub fn from_rgba(rgba: &[u8]) -> (palette: Palette)
        ensures
            palette.wf(),
            palette@.len() == PALETTE_SIZE,
            forall|c: u8| #[trigger] palette@[c as int] == palette_has(rgba@, c),
    {
        let mut used: Vec<bool> = vec![false; PALETTE_SIZE];
        let len = rgba.len();
        let pixels: usize = len / 4;
        let mut p: usize = 0;
        while p < pixels
            invariant
                pixels == rgba@.len() / 4,
                len == rgba@.len(),
                p <= pixels,
                used@.len() == PALETTE_SIZE,
                forall|c: u8| #[trigger] used@[c as int] == color_in(rgba@, 0, p as int, c),
            decreases pixels - p,
        {
            assert(4 * p + 3 < rgba@.len()) by (nonlinear_arith)
                requires p < pixels, pixels == len / 4, len == rgba@.len(), len <= usize::MAX;
            let alpha = rgba[4 * p + 3];
            if alpha >= ALPHA_THRESHOLD {
                let color = rgb332(rgba[4 * p], rgba[4 * p + 1], rgba[4 * p + 2]);
                used.set(color as usize, true);
                assert(pixel_color(rgba@, p as int) == Some(color));
            } else {
                assert(pixel_color(rgba@, p as int) is None);
            }
            assert forall|c: u8| #[trigger] used@[c as int] == color_in(rgba@, 0, p + 1, c) by {
                if color_in(rgba@, 0, p + 1, c) {
                    let q = choose|q: int| 0 <= q < p + 1 && #[trigger] pixel_color(rgba@, q) == Some(c);
                    if q < p {
                        assert(color_in(rgba@, 0, p as int, c));
                    }
                }
                if color_in(rgba@, 0, p as int, c) {
                    let q = choose|q: int| 0 <= q < p && #[trigger] pixel_color(rgba@, q) == Some(c);
                    assert(0 <= q < p + 1);
                }
            }
            p = p + 1;
        }
        Palette { used }
    }

    /// The palette indices in use, in ascending order.
    pub fn indices(&self) -> (colors: Vec<u8>)
        requires
            self.wf(),
        ensures
            colors@ == colors_where(|c: u8| self@[c as int], 256),
    {
        let ghost keep = |c: u8| self@[c as int];
        let mut colors: Vec<u8> = Vec::new();
        let mut i: usize = 0;
        while i < PALETTE_SIZE
            invariant
                i <= PALETTE_SIZE,
                self.wf(),
                keep == (|c: u8| self@[c as int]),
                colors@ == colors_where(keep, i as nat),
            decreases PALETTE_SIZE - i,
        {
            if self.used[i] {
                colors.push(i as u8);
            }
            i = i + 1;
        }
        colors
    }

    /// Appends the Sixel colour definition of every palette index in use, in
    /// ascending order of index.
    pub fn write_definitions(&self, output: &mut Vec<u8>)
        requires
            self.wf(),
        ensures
            final(output)@ == old(output)@ + color_definitions(
                colors_where(|c: u8| self@[c as int], 256),
            ),
    {
        let colors = self.indices();
        let mut k: usize = 0;
        while k < colors.len()
            invariant
                k <= colors@.len(),
                output@ == old(output)@ + color_definitions(colors@.subrange(0, k as int)),
            decreases colors@.len() - k,
        {
            push_color_definition(output, colors[k]);
            assert(colors@.subrange(0, k + 1).drop_last() =~= colors@.subrange(0, k as int));
            k = k + 1;
            assert(output@ =~= old(output)@ + color_definitions(colors@.subrange(0, k as int)));
        }
        assert(colors@.subrange(0, k as int) =~= colors@);
    }
}

/// Appends the definition `#index;2;r;g;b` of one palette index.
fn push_color_definition(output: &mut Vec<u8>, index: u8)
    ensures
        final(output)@ == old(output)@ + color_definition(index),
{
    let (red, green, blue) = rgb332_color(index);
    output.push(35u8);
    push_decimal(output, index as u64);
    push_all(output, &[59u8, 50u8, 59u8]);
    push_decimal(output, ((red as u16) * 100 / 255) as u64);
    output.push(59u8);
    push_decimal(output, ((green as u16) * 100 / 255) as u64);
    output.push(59u8);
    push_decimal(output, ((blue as u16) * 100 / 255) as u64);
    assert(output@ =~= old(output)@ + color_definition(index));
}

/// The colour definition of a palette index defines the palette colour itself: after
/// `#index;2;` come its red, green and blue, each as the percentage of 255 rounded down,
/// and each channel is the index's level of that channel (out of 7, 7 and 3) scaled to
/// 255 and rounded down.
pub proof fn lemma_color_definition_percentages(index: u8)
    ensures
        ({
            let (red, green, blue) = rgb332_rgb(index);
            &&& color_definition(index) == seq![35u8] + decimal(index as nat) + seq![59u8, 50u8, 59u8]
                + decimal(percent(red)) + seq![59u8] + decimal(percent(green)) + seq![59u8] + decimal(
                percent(blue),
            )
            &&& percent(red) * 255 <= red * 100 < (percent(red) + 1) * 255
            &&& percent(green) * 255 <= green * 100 < (percent(green) + 1) * 255
            &&& percent(blue) * 255 <= blue * 100 < (percent(blue) + 1) * 255
            &&& red * 7 <= (index / 32) * 255 < red * 7 + 7
            &&& green * 7 <= ((index / 4) % 8) * 255 < green * 7 + 7
            &&& blue * 3 <= (index % 4) * 255 < blue * 3 + 3
        }),
{
    let (red, green, blue) = rgb332_rgb(index);
    assert forall|v: u8| #[trigger] percent(v) * 255 <= v * 100 < (percent(v) + 1) * 255 by {
        assert((v * 100 / 255) * 255 <= v * 100 < (v * 100 / 255 + 1) * 255) by (nonlinear_arith);
    }
    assert(percent(red) * 255 <= red * 100 < (percent(red) + 1) * 255);
    assert(percent(green) * 255 <= green * 100 < (percent(green) + 1) * 255);
    assert(percent(blue) * 255 <= blue * 100 < (percent(blue) + 1) * 255);
    let r = index / 32;
    let g = (index / 4) % 8;
    let b = index % 4;
    assert(r <= 7 && g <= 7 && b <= 3);
    assert((r * 255 / 7) * 7 <= r * 255 < (r * 255 / 7) * 7 + 7 && r * 255 / 7 <= 255) by (nonlinear_arith)
        requires r <= 7;
    assert((g * 255 / 7) * 7 <= g * 255 < (g * 255 / 7) * 7 + 7 && g * 255 / 7 <= 255) by (nonlinear_arith)
        requires g <= 7;
    assert((b * 255 / 3) * 3 <= b * 255 < (b * 255 / 3) * 3 + 3 && b * 255 / 3 <= 255) by (nonlinear_arith)
        requires b <= 3;
}

/// Two colours share a palette index exactly when they agree in the top three bits of
/// red, the top three bits of green and the top two bits of blue.
pub proof fn lemma_same_index_same_top_bits(r1: u8, g1: u8, b1: u8, r2: u8, g2: u8, b2: u8)
    ensures
        rgb332_index(r1, g1, b1) == rgb332_index(r2, g2, b2) <==> (r1 / 32 == r2 / 32 && g1 / 32 == g2
            / 32 && b1 / 64 == b2 / 64),
{
    assert(r1 / 32 < 8 && g1 / 32 < 8 && b1 / 64 < 4 && r2 / 32 < 8 && g2 / 32 < 8 && b2 / 64 < 4);
}

/// The colour a palette index stands for maps back to that index: every colour
/// definition the encoder writes is the colour its index draws.
pub proof fn lemma_palette_round_trip(index: u8)
    ensures
        ({
            let (r, g, b) = rgb332_rgb(index);
            rgb332_index(r, g, b) == index
        }),
{
    let a = index / 32;
    let m = (index / 4) % 8;
    let c = index % 4;
    assert(index == a * 32 + m * 4 + c);
    assert(a < 8 && m < 8 && c < 4);
    assert(((a * 255 / 7) as u8) / 32 == a) by {
        assert(a == 0 || a == 1 || a == 2 || a == 3 || a == 4 || a == 5 || a == 6 || a == 7);
    }
    assert(((m * 255 / 7) as u8) / 32 == m) by {
        assert(m == 0 || m == 1 || m == 2 || m == 3 || m == 4 || m == 5 || m == 6 || m == 7);
    }
    assert(((c * 255 / 3) as u8) / 64 == c) by {
        assert(c == 0 || c == 1 || c == 2 || c == 3);
    }
}

/// The run lengths, expanded back into bytes.
pub open spec fn expand_runs(rs: Seq<(u8, nat)>) -> Seq<u8>
    decreases rs.len(),
{
    if rs.len() == 0 {
        Seq::empty()
    } else {
        expand_runs(rs.drop_last()) + Seq::new(rs.last().1, |i: int| rs.last().0)
    }
}

/// Runs are maximal: each is at least one byte long, and neighbouring runs repeat
/// different bytes.
pub open spec fn runs_maximal(rs: Seq<(u8, nat)>) -> bool {
    &&& forall|i: int| 0 <= i < rs.len() ==> #[trigger] rs[i].1 >= 1
    &&& forall|i: int| 0 < i < rs.len() ==> #[trigger] rs[i].0 != rs[i - 1].0
}

/// Run-length encoding loses nothing: the runs of a sequence expand back to it, and
/// they are maximal.
pub proof fn lemma_runs_round_trip(s: Seq<u8>)
    ensures
        expand_runs(runs(s)) == s,
        runs_maximal(runs(s)),
    decreases s.len(),
{
    if s.len() > 0 {
        let prev = s.drop_last();
        lemma_runs_round_trip(prev);
        let rp = runs(prev);
        let b = s.last();
        assert(prev.push(b) =~= s);
        lemma_runs_push(prev, b);
        if rp.len() > 0 && rp.last().0 == b {
            let rs = runs(s);
            assert(rs.drop_last() =~= rp.drop_last());
            assert(expand_runs(rp) == expand_runs(rp.drop_last()) + Seq::new(rp.last().1, |i: int| rp.last().0));
            assert(Seq::new(rp.last().1 + 1, |i: int| b) =~= Seq::new(rp.last().1, |i: int| b).push(b));
            assert(expand_runs(rs) =~= s);
            assert forall|i: int| 0 < i < rs.len() implies #[trigger] rs[i].0 != rs[i - 1].0 by {
                if i == rs.len() - 1 {
                    assert(rs[i].0 == rp[i].0);
                }
            }
        } else {
            let rs = runs(s);
            assert(rs.drop_last() =~= rp);
            assert(Seq::new(1, |i: int| b) =~= seq![b]);
            assert(expand_runs(rs) =~= s);
            if rp.len() == 0 {
                assert(rs.len() == 1);
            }
        }
    } else {
        assert(runs(s) =~= Seq::<(u8, nat)>::empty());
    }
}

/// Every column of a band has at most six rows set, so its Sixel data byte is a
/// printable character from `?` to `~`.
pub proof fn lemma_sixel_byte_range(rgba: Seq<u8>, width: int, height: int, top: int, x: int, color: u8)
    ensures
        63 <= sixel_byte(rgba, width, height, top, x, color) <= 126,
{
    lemma_column_bits_bound(rgba, width, height, top, x, color, BAND_HEIGHT as nat);
    assert(bit_weight(6) == 64) by {
        reveal_with_fuel(bit_weight, 7);
    }
}

/// The mask of the first `n` rows of a column is below two to the power `n`.
pub proof fn lemma_column_bits_bound(rgba: Seq<u8>, width: int, height: int, top: int, x: int, color: u8, n: nat)
    ensures
        column_bits(rgba, width, height, top, x, color, n) < bit_weight(n),
    decreases n,
{
    if n > 0 {
        lemma_column_bits_bound(rgba, width, height, top, x, color, (n - 1) as nat);
    }
}

/// Bit `k` of the mask of the first `n` rows of a column is set exactly when row `k` of
/// the band is inside the image and its pixel has the colour.
pub proof fn lemma_column_bit(rgba: Seq<u8>, width: int, height: int, top: int, x: int, color: u8, n: nat, k: nat)
    requires
        k < n,
    ensures
        (column_bits(rgba, width, height, top, x, color, n) / bit_weight(k)) % 2 == if top + k
            < height && pixel_color(rgba, (top + k) * width + x) == Some(color) {
            1int
        } else {
            0int
        },
    decreases n,
{
    let prev = column_bits(rgba, width, height, top, x, color, (n - 1) as nat);
    let on = top + (n - 1) < height && pixel_color(rgba, (top + n - 1) * width + x) == Some(color);
    lemma_column_bits_bound(rgba, width, height, top, x, color, (n - 1) as nat);
    lemma_bit_weight_positive(k);
    if k < n - 1 {
        lemma_column_bit(rgba, width, height, top, x, color, (n - 1) as nat, k);
        if on {
            lemma_bit_weight_split(k, (n - 1) as nat);
            let q = bit_weight((n - 1) as nat) / bit_weight(k);
            assert(bit_weight((n - 1) as nat) == q * bit_weight(k)) by (nonlinear_arith)
                requires bit_weight((n - 1) as nat) % bit_weight(k) == 0, bit_weight(k) > 0,
                    q == bit_weight((n - 1) as nat) / bit_weight(k);
            assert(q % 2 == 0);
            assert((prev + q * bit_weight(k)) / bit_weight(k) == prev / bit_weight(k) + q) by (nonlinear_arith)
                requires bit_weight(k) > 0;
            assert((prev / bit_weight(k) + q) % 2 == (prev / bit_weight(k)) % 2) by (nonlinear_arith)
                requires q % 2 == 0, prev / bit_weight(k) >= 0;
        }
    } else {
        assert(k == n - 1);
        assert(prev / bit_weight(k) == 0) by (nonlinear_arith)
            requires prev < bit_weight(k), prev >= 0;
        if on {
            assert((prev + bit_weight(k)) / bit_weight(k) == 1) by (nonlinear_arith)
                requires prev < bit_weight(k), prev >= 0, bit_weight(k) > 0;
        }
    }
}

/// Two to any power is positive.
pub proof fn lemma_bit_weight_positive(k: nat)
    ensures
        bit_weight(k) >= 1,
    decreases k,
{
    if k > 0 {
        lemma_bit_weight_positive((k - 1) as nat);
    }
}

/// A higher power of two is an even multiple of a lower one.
pub proof fn lemma_bit_weight_split(k: nat, m: nat)
    requires
        k < m,
    ensures
        bit_weight(m) % bit_weight(k) == 0,
        (bit_weight(m) / bit_weight(k)) % 2 == 0,
    decreases m,
{
    lemma_bit_weight_positive(k);
    lemma_bit_weight_positive((m - 1) as nat);
    if k < m - 1 {
        lemma_bit_weight_split(k, (m - 1) as nat);
        let q = bit_weight((m - 1) as nat) / bit_weight(k);
        assert(bit_weight((m - 1) as nat) == q * bit_weight(k)) by (nonlinear_arith)
            requires bit_weight((m - 1) as nat) % bit_weight(k) == 0, bit_weight(k) > 0, q == bit_weight((m - 1) as nat) / bit_weight(k);
        assert(bit_weight(m) == (2 * q) * bit_weight(k)) by (nonlinear_arith)
            requires bit_weight(m) == 2 * bit_weight((m - 1) as nat), bit_weight((m - 1) as nat) == q * bit_weight(k);
        assert(bit_weight(m) % bit_weight(k) == 0 && bit_weight(m) / bit_weight(k) == 2 * q) by (nonlinear_arith)
            requires bit_weight(m) == (2 * q) * bit_weight(k), bit_weight(k) > 0;
    } else {
        assert(bit_weight(m) == 2 * bit_weight(k));
        assert(bit_weight(m) % bit_weight(k) == 0 && bit_weight(m) / bit_weight(k) == 2) by (nonlinear_arith)
            requires bit_weight(m) == 2 * bit_weight(k), bit_weight(k) > 0;
    }
}

/// The indices below `n` that `keep` holds of are listed.
pub proof fn lemma_colors_where_contains(keep: spec_fn(u8) -> bool, n: nat, c: u8)
    requires
        c < n <= 256,
        keep(c),
    ensures
        colors_where(keep, n).contains(c),
    decreases n,
{
    if c < n - 1 {
        lemma_colors_where_contains(keep, (n - 1) as nat, c);
        let rest = colors_where(keep, (n - 1) as nat);
        let i = choose|i: int| 0 <= i < rest.len() && rest[i] == c;
        if keep((n - 1) as u8) {
            assert(rest.push((n - 1) as u8)[i] == c);
        }
    } else {
        assert(colors_where(keep, n).last() == c);
    }
}

/// Every pixel is drawn as it is: in the band that covers its row, the column of the
/// pixel has the bit of its row set for the pixel's colour and for no other, and that
/// colour is among the band's colours; a transparent pixel has the bit set for no
/// colour.
pub proof fn lemma_pixel_drawn(rgba: Seq<u8>, width: nat, height: nat, x: nat, y: nat, color: u8)
    requires
        rgba.len() == width * height * 4,
        x < width,
        y < height,
    ensures
        ({
            let top = BAND_HEIGHT * (y / BAND_HEIGHT as nat);
            let bit = (y - top) as nat;
            &&& top < height
            &&& (y / (BAND_HEIGHT as nat)) < band_count(height as int)
            &&& bit < BAND_HEIGHT
            &&& (column_bits(rgba, width as int, height as int, top, x as int, color, BAND_HEIGHT as nat) / bit_weight(bit)) % 2
                == 1 <==> pixel_color(rgba, (y * width + x) as int) == Some(color)
            &&& pixel_color(rgba, (y * width + x) as int) == Some(color) ==> band_colors(
                rgba,
                width as int,
                height as int,
                top,
            ).contains(color)
        }),
{
    let top = BAND_HEIGHT * (y / BAND_HEIGHT as nat);
    let bit = (y - top) as nat;
    assert(top <= y < top + BAND_HEIGHT);
    lemma_column_bit(rgba, width as int, height as int, top, x as int, color, BAND_HEIGHT as nat, bit);
    assert(top + bit == y);
    let p = (y * width + x) as int;
    if pixel_color(rgba, p) == Some(color) {
        let end = band_end(height as int, top);
        assert(top * width <= p < end * width && p < rgba.len() / 4) by (nonlinear_arith)
            requires
                top <= y < end,
                end <= height,
                x < width,
                p == y * width + x,
                rgba.len() == width * height * 4;
        assert(band_has(rgba, width as int, height as int, top, color));
        assert(palette_has(rgba, color));
        lemma_colors_where_contains(
            |c: u8| palette_has(rgba, c) && band_has(rgba, width as int, height as int, top, c),
            256,
            color,
        );
    }
}

/// A Sixel data byte: `?` to `~`, six pixels of one column.
pub open spec fn is_sixel_data(b: u8) -> bool {
    63 <= b <= 126
}

/// The number of decimal digits that lead a byte string.
pub open spec fn leading_digits(s: Seq<u8>) -> nat
    decreases s.len(),
{
    if s.len() > 0 && is_digit(s[0]) {
        1 + leading_digits(s.drop_first())
    } else {
        0
    }
}

/// What a Sixel reader makes of colour data: a data byte stands for itself, and `!`
/// with a count and a data byte for that many copies of the byte.
pub open spec fn sixel_expand(s: Seq<u8>) -> Seq<u8>
    decreases s.len(),
{
    if s.len() == 0 {
        Seq::empty()
    } else if s[0] != 33 {
        seq![s[0]] + sixel_expand(s.drop_first())
    } else {
        let n = leading_digits(s.drop_first()) as int;
        if 1 + n < s.len() {
            Seq::new(digits_value(s.subrange(1, 1 + n)), |i: int| s[1 + n]) + sixel_expand(
                s.skip(2 + n),
            )
        } else {
            Seq::empty()
        }
    }
}

/// Digits followed by a non-digit lead with exactly those digits.
pub proof fn lemma_leading_digits(digits: Seq<u8>, rest: Seq<u8>)
    requires
        forall|i: int| 0 <= i < digits.len() ==> is_digit(#[trigger] digits[i]),
        rest.len() > 0,
        !is_digit(rest[0]),
    ensures
        leading_digits(digits + rest) == digits.len(),
    decreases digits.len(),
{
    if digits.len() > 0 {
        assert((digits + rest).drop_first() =~= digits.drop_first() + rest);
        lemma_leading_digits(digits.drop_first(), rest);
    }
}

/// A Sixel reader expands the encoding of one run back into the run.
pub proof fn lemma_expand_run(b: u8, n: nat, rest: Seq<u8>)
    requires
        is_sixel_data(b),
    ensures
        sixel_expand(run_bytes(b, n) + rest) == Seq::new(n, |i: int| b) + sixel_expand(rest),
    decreases n,
{
    if n > 3 {
        let digits = decimal(n);
        lemma_decimal_digits(n);
        let s = run_bytes(b, n) + rest;
        assert(s =~= seq![33u8] + (digits + (seq![b] + rest)));
        assert(s.drop_first() =~= digits + (seq![b] + rest));
        lemma_leading_digits(digits, seq![b] + rest);
        let k = digits.len() as int;
        assert(s.subrange(1, 1 + k) =~= digits);
        assert(s[1 + k] == b);
        assert(s.skip(2 + k) =~= rest);
    } else if n == 0 {
        assert(run_bytes(b, n) + rest =~= rest);
        assert(Seq::new(0, |i: int| b) + sixel_expand(rest) =~= sixel_expand(rest));
    } else {
        lemma_expand_run(b, (n - 1) as nat, rest);
        let s = run_bytes(b, n) + rest;
        assert(s[0] == b);
        assert(s.drop_first() =~= run_bytes(b, (n - 1) as nat) + rest);
        assert(Seq::new(n, |i: int| b) =~= seq![b] + Seq::new((n - 1) as nat, |i: int| b));
    }
}

/// A Sixel reader expands the encodings of runs back into the runs.
pub proof fn lemma_expand_runs(rs: Seq<(u8, nat)>, rest: Seq<u8>)
    requires
        forall|i: int| 0 <= i < rs.len() ==> is_sixel_data(#[trigger] rs[i].0),
    ensures
        sixel_expand(runs_bytes(rs) + rest) == expand_runs(rs) + sixel_expand(rest),
    decreases rs.len(),
{
    if rs.len() > 0 {
        let last = rs.last();
        assert(is_sixel_data(rs[rs.len() - 1].0));
        lemma_expand_run(last.0, last.1, rest);
        lemma_expand_runs(rs.drop_last(), run_bytes(last.0, last.1) + rest);
        assert(runs_bytes(rs) + rest =~= runs_bytes(rs.drop_last()) + (run_bytes(last.0, last.1) + rest));
        assert(expand_runs(rs) + sixel_expand(rest) =~= expand_runs(rs.drop_last()) + (Seq::new(
            last.1,
            |i: int| last.0,
        ) + sixel_expand(rest)));
    } else {
        assert(runs_bytes(rs) + rest =~= rest);
        assert(expand_runs(rs) + sixel_expand(rest) =~= sixel_expand(rest));
    }
}

/// The runs of a sequence repeat only bytes of the sequence.
pub proof fn lemma_runs_bytes_from(s: Seq<u8>)
    requires
        forall|i: int| 0 <= i < s.len() ==> is_sixel_data(#[trigger] s[i]),
    ensures
        forall|i: int| 0 <= i < runs(s).len() ==> is_sixel_data(#[trigger] runs(s)[i].0),
    decreases s.len(),
{
    if s.len() > 0 {
        let prev = s.drop_last();
        assert forall|i: int| 0 <= i < prev.len() implies is_sixel_data(#[trigger] prev[i]) by {
            assert(prev[i] == s[i]);
        }
        lemma_runs_bytes_from(prev);
        assert(prev.push(s.last()) =~= s);
        lemma_runs_push(prev, s.last());
        assert(is_sixel_data(s[s.len() - 1]));
    }
}

/// Run-length encoding is undone by a Sixel reader: the encoding of a row of Sixel data
/// bytes expands back into the row.
pub proof fn lemma_run_length_round_trip(s: Seq<u8>)
    requires
        forall|i: int| 0 <= i < s.len() ==> is_sixel_data(#[trigger] s[i]),
    ensures
        sixel_expand(run_length_encoded(s)) == s,
{
    lemma_runs_bytes_from(s);
    lemma_runs_round_trip(s);
    lemma_expand_runs(runs(s), Seq::empty());
    assert(runs_bytes(runs(s)) + Seq::<u8>::empty() =~= runs_bytes(runs(s)));
    assert(sixel_expand(Seq::<u8>::empty()) =~= Seq::<u8>::empty());
    assert(expand_runs(runs(s)) + Seq::<u8>::empty() =~= s);
}

/// Every column byte of a band's colour row is Sixel data, so the row's encoding
/// expands back into the row.
pub proof fn lemma_color_row_round_trip(rgba: Seq<u8>, width: int, height: int, top: int, color: u8)
    ensures
        sixel_expand(run_length_encoded(sixel_row(rgba, width, height, top, color))) == sixel_row(
            rgba,
            width,
            height,
            top,
            color,
        ),
{
    let row = sixel_row(rgba, width, height, top, color);
    assert forall|i: int| 0 <= i < row.len() implies is_sixel_data(#[trigger] row[i]) by {
        lemma_sixel_byte_range(rgba, width, height, top, i, color);
    }
    lemma_run_length_round_trip(row);
}


/// Two RGBA buffers whose first `pixels` pixels have the same palette index, or are both
/// transparent.
pub open spec fn same_pixel_colors(a: Seq<u8>, b: Seq<u8>, pixels: int) -> bool {
    forall|p: int| 0 <= p < pixels ==> #[trigger] pixel_color(a, p) == pixel_color(b, p)
}

/// Whether some pixel in a range has a colour depends on the pixels' colours alone.
proof fn lemma_color_in_same(a: Seq<u8>, b: Seq<u8>, pixels: int, lo: int, hi: int, color: u8)
    requires
        same_pixel_colors(a, b, pixels),
        0 <= lo,
        hi <= pixels,
    ensures
        color_in(a, lo, hi, color) == color_in(b, lo, hi, color),
{
    if color_in(a, lo, hi, color) {
        let q = choose|q: int| lo <= q < hi && #[trigger] pixel_color(a, q) == Some(color);
        assert(pixel_color(b, q) == Some(color));
    }
    if color_in(b, lo, hi, color) {
        let q = choose|q: int| lo <= q < hi && #[trigger] pixel_color(b, q) == Some(color);
        assert(pixel_color(a, q) == Some(color));
    }
}

/// A column byte depends on the pixels' colours alone.
proof fn lemma_column_bits_same(
    a: Seq<u8>,
    b: Seq<u8>,
    width: nat,
    height: nat,
    top: nat,
    x: nat,
    color: u8,
    n: nat,
)
    requires
        same_pixel_colors(a, b, (width * height) as int),
        x < width,
    ensures
        column_bits(a, width as int, height as int, top as int, x as int, color, n) == column_bits(
            b,
            width as int,
            height as int,
            top as int,
            x as int,
            color,
            n,
        ),
    decreases n,
{
    if n > 0 {
        let k = (n - 1) as nat;
        lemma_column_bits_same(a, b, width, height, top, x, color, k);
        if top + k < height {
            assert(0 <= (top + k) * width + x < width * height) by (nonlinear_arith)
                requires top + k < height, x < width;
            assert(pixel_color(a, ((top + k) * width + x) as int) == pixel_color(b, ((top + k) * width + x) as int));
        }
    }
}

/// The colour sections of a band depend on the pixels' colours alone.
proof fn lemma_band_sections_same(
    a: Seq<u8>,
    b: Seq<u8>,
    width: nat,
    height: nat,
    top: nat,
    colors: Seq<u8>,
    k: nat,
)
    requires
        same_pixel_colors(a, b, (width * height) as int),
    ensures
        band_sections(a, width as int, height as int, top as int, colors, k) == band_sections(
            b,
            width as int,
            height as int,
            top as int,
            colors,
            k,
        ),
    decreases k,
{
    if k > 0 {
        lemma_band_sections_same(a, b, width, height, top, colors, (k - 1) as nat);
        let color = colors[k - 1];
        assert forall|x: int| 0 <= x < width implies #[trigger] sixel_byte(
            a,
            width as int,
            height as int,
            top as int,
            x,
            color,
        ) == sixel_byte(b, width as int, height as int, top as int, x, color) by {
            lemma_column_bits_same(a, b, width, height, top, x as nat, color, BAND_HEIGHT as nat);
        }
        assert(sixel_row(a, width as int, height as int, top as int, color) =~= sixel_row(
            b,
            width as int,
            height as int,
            top as int,
            color,
        ));
    }
}

/// The bands of an image depend on the pixels' colours alone.
proof fn lemma_bands_same(a: Seq<u8>, b: Seq<u8>, width: nat, height: nat, n: nat)
    requires
        a.len() == width * height * 4,
        b.len() == width * height * 4,
        same_pixel_colors(a, b, (width * height) as int),
    ensures
        bands_bytes(a, width as int, height as int, n) == bands_bytes(b, width as int, height as int, n),
    decreases n,
{
    if n > 0 {
        lemma_bands_same(a, b, width, height, (n - 1) as nat);
        let top = (BAND_HEIGHT * (n - 1)) as nat;
        let end = band_end(height as int, top as int);
        assert(end * width <= width * height) by (nonlinear_arith)
            requires end == (if top + 6 < height { (top + 6) as int } else { height as int });
        assert forall|c: u8| #[trigger] palette_has(a, c) == palette_has(b, c)
            && band_has(a, width as int, height as int, top as int, c) == band_has(
            b,
            width as int,
            height as int,
            top as int,
            c,
        ) by {
            assert((a.len() / 4) as int == width * height && (b.len() / 4) as int == width * height) by (nonlinear_arith)
                requires a.len() == b.len(), a.len() == width * height * 4;
            lemma_color_in_same(a, b, (width * height) as int, 0, (width * height) as int, c);
            if top * width <= end * width {
                lemma_color_in_same(a, b, (width * height) as int, (top * width) as int, end * width, c);
            } else {
                assert(!color_in(a, (top * width) as int, end * width, c));
                assert(!color_in(b, (top * width) as int, end * width, c));
            }
        }
        let colors = band_colors(a, width as int, height as int, top as int);
        assert((|c: u8| palette_has(a, c) && band_has(a, width as int, height as int, top as int, c)) =~= (
        |c: u8| palette_has(b, c) && band_has(b, width as int, height as int, top as int, c)));
        lemma_band_sections_same(a, b, width, height, top, colors, colors.len());
    }
}

/// The Sixel image of a buffer depends only on whether each pixel is transparent and, if
/// it is not, on its RGB 3-3-2 palette index: the exact alpha, the colour of transparent
/// pixels, and the low bits of each channel never change it.
pub proof fn lemma_image_depends_on_pixel_colors(a: Seq<u8>, b: Seq<u8>, width: nat, height: nat)
    requires
        a.len() == width * height * 4,
        b.len() == width * height * 4,
        same_pixel_colors(a, b, (width * height) as int),
    ensures
        sixel_image(a, width, height) == sixel_image(b, width, height),
{
    assert((a.len() / 4) as int == width * height) by (nonlinear_arith)
        requires a.len() == width * height * 4;
    assert forall|c: u8| #[trigger] palette_has(a, c) == palette_has(b, c) by {
        lemma_color_in_same(a, b, (width * height) as int, 0, (width * height) as int, c);
    }
    assert((|c: u8| palette_has(a, c)) =~= (|c: u8| palette_has(b, c)));
    lemma_bands_same(a, b, width, height, band_count(height as int));
}

} // verus!
