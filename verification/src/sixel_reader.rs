//! How a Sixel reader paints the images that the encoder writes: a model of a reader,
//! and the law that it paints back each opaque pixel of the encoded image, in its colour.

use vstd::prelude::*;
use crate::bytes::{decimal, digits_value, is_digit, lemma_decimal_digits};
use crate::sixel::{
    color_definition, color_definitions, lemma_column_bit, lemma_column_bits_bound, lemma_pixel_drawn,
    pixel_color, sixel_byte, sixel_header, sixel_image, string_terminator, band_bytes, band_colors, band_count, band_sections, bands_bytes, bit_weight, color_section,
    expand_runs, is_sixel_data, leading_digits, lemma_leading_digits,
    lemma_runs_bytes_from, lemma_runs_round_trip, lemma_sixel_byte_range, run_bytes,
    run_length_encoded, runs, runs_bytes, sixel_row, BAND_HEIGHT,
};

verus! {

/// A painted pixel: its column, its row and its palette index.
pub type Pixel = (int, int, nat);

/// Bit `k` of a Sixel data byte, which stands for row `k` of the band.
pub open spec fn data_bit(byte: u8, k: nat) -> bool {
    ((byte - 63) / (bit_weight(k) as int)) % 2 == 1
}

/// The pixels that the data bytes `data` paint in colour `color`, from column `x` on, in
/// the band `band`: column `x + i` takes the rows of the band whose bits `data[i]` sets.
pub open spec fn paint_columns(data: Seq<u8>, band: nat, x: nat, color: nat) -> Set<Pixel> {
    Set::new(
        |p: Pixel|
            x <= p.0 < x + data.len() && p.2 == color && BAND_HEIGHT * band <= p.1 < BAND_HEIGHT
                * band + BAND_HEIGHT && data_bit(data[p.0 - x], (p.1 - BAND_HEIGHT * band) as nat),
    )
}

/// The pixels that a Sixel reader paints as it reads `s`, starting in band `band` at
/// column `x` with colour `color` selected. `#` and a number selects a colour (the
/// parameters of a colour definition paint nothing); a data byte paints one column and
/// moves right; `!`, a count and a data byte paint that many columns; `$` returns to the
/// first column; `-` moves to the first column of the next band; `ESC` ends the image;
/// anything else paints nothing.
pub open spec fn read_sixel(s: Seq<u8>, band: nat, x: nat, color: nat) -> Set<Pixel>
    decreases s.len(),
{
    if s.len() == 0 || s[0] == 27 {
        Set::empty()
    } else if s[0] == 35 || s[0] == 33 {
        let n = leading_digits(s.drop_first()) as int;
        let value = digits_value(s.subrange(1, 1 + n));
        if 1 + n > s.len() {
            Set::empty()
        } else if s[0] == 35 {
            read_sixel(s.skip(1 + n), band, x, value)
        } else if 1 + n < s.len() && is_sixel_data(s[1 + n]) {
            paint_columns(Seq::new(value, |i: int| s[1 + n]), band, x, color).union(
                read_sixel(s.skip(2 + n), band, x + value, color),
            )
        } else {
            read_sixel(s.skip(1 + n), band, x, color)
        }
    } else if s[0] == 36 {
        read_sixel(s.drop_first(), band, 0, color)
    } else if s[0] == 45 {
        read_sixel(s.drop_first(), band + 1, 0, color)
    } else if is_sixel_data(s[0]) {
        paint_columns(seq![s[0]], band, x, color).union(read_sixel(s.drop_first(), band, x + 1, color))
    } else {
        read_sixel(s.drop_first(), band, x, color)
    }
}

/// A byte that a reader passes over without effect: a digit, `;` or `"`.
pub open spec fn is_plain(b: u8) -> bool {
    is_digit(b) || b == 59 || b == 34
}

/// Plain bytes change nothing.
proof fn lemma_read_plain(p: Seq<u8>, r: Seq<u8>, band: nat, x: nat, color: nat)
    requires
        forall|i: int| 0 <= i < p.len() ==> is_plain(#[trigger] p[i]),
    ensures
        read_sixel(p + r, band, x, color) == read_sixel(r, band, x, color),
    decreases p.len(),
{
    if p.len() > 0 {
        assert((p + r)[0] == p[0]);
        assert((p + r).drop_first() =~= p.drop_first() + r);
        lemma_read_plain(p.drop_first(), r, band, x, color);
    } else {
        assert(p + r =~= r);
    }
}

/// Columns painted side by side.
proof fn lemma_paint_concat(a: Seq<u8>, b: Seq<u8>, band: nat, x: nat, color: nat)
    ensures
        paint_columns(a + b, band, x, color) == paint_columns(a, band, x, color).union(
            paint_columns(b, band, x + a.len(), color),
        ),
{
    assert forall|p: Pixel| #[trigger] paint_columns(a + b, band, x, color).contains(p) <==> paint_columns(
        a,
        band,
        x,
        color,
    ).union(paint_columns(b, band, x + a.len(), color)).contains(p) by {
        if x <= p.0 < x + a.len() {
            assert((a + b)[p.0 - x] == a[p.0 - x]);
        } else if x + a.len() <= p.0 < x + a.len() + b.len() {
            assert((a + b)[p.0 - x] == b[p.0 - (x + a.len())]);
        }
    }
    assert(paint_columns(a + b, band, x, color) =~= paint_columns(a, band, x, color).union(
        paint_columns(b, band, x + a.len(), color),
    ));
}

/// Reading one run of a data byte paints its columns and moves past them.
proof fn lemma_read_run(byte: u8, length: nat, r: Seq<u8>, band: nat, x: nat, color: nat)
    requires
        is_sixel_data(byte),
    ensures
        read_sixel(run_bytes(byte, length) + r, band, x, color) == paint_columns(
            Seq::new(length, |i: int| byte),
            band,
            x,
            color,
        ).union(read_sixel(r, band, x + length, color)),
    decreases length,
{
    let s = run_bytes(byte, length) + r;
    if length > 3 {
        let digits = decimal(length);
        lemma_decimal_digits(length);
        assert(s =~= seq![33u8] + (digits + (seq![byte] + r)));
        assert(s.drop_first() =~= digits + (seq![byte] + r));
        lemma_leading_digits(digits, seq![byte] + r);
        let n = digits.len() as int;
        assert(s.subrange(1, 1 + n) =~= digits);
        assert(s[1 + n] == byte);
        assert(s.skip(2 + n) =~= r);
        assert(Seq::new(length, |i: int| s[1 + n]) =~= Seq::new(length, |i: int| byte));
    } else if length == 0 {
        assert(s =~= r);
        assert(paint_columns(Seq::new(0, |i: int| byte), band, x, color) =~= Set::<Pixel>::empty());
        assert(Set::<Pixel>::empty().union(read_sixel(r, band, x, color)) =~= read_sixel(r, band, x, color));
    } else {
        let rest = (length - 1) as nat;
        assert(run_bytes(byte, length) =~= seq![byte] + run_bytes(byte, rest));
        assert(s[0] == byte);
        assert(s.drop_first() =~= run_bytes(byte, rest) + r);
        lemma_read_run(byte, rest, r, band, x + 1, color);
        lemma_paint_concat(seq![byte], Seq::new(rest, |i: int| byte), band, x, color);
        assert(seq![byte] + Seq::new(rest, |i: int| byte) =~= Seq::new(length, |i: int| byte));
        assert(paint_columns(seq![byte], band, x, color).union(
            paint_columns(Seq::new(rest, |i: int| byte), band, x + 1, color).union(
                read_sixel(r, band, x + length, color),
            ),
        ) =~= paint_columns(Seq::new(length, |i: int| byte), band, x, color).union(
            read_sixel(r, band, x + length, color),
        ));
    }
}


/// Reading the encodings of runs of data bytes paints the bytes they expand to and moves
/// past them.
proof fn lemma_read_runs(rs: Seq<(u8, nat)>, r: Seq<u8>, band: nat, x: nat, color: nat)
    requires
        forall|i: int| 0 <= i < rs.len() ==> is_sixel_data(#[trigger] rs[i].0),
    ensures
        read_sixel(runs_bytes(rs) + r, band, x, color) == paint_columns(expand_runs(rs), band, x, color).union(
            read_sixel(r, band, x + expand_runs(rs).len(), color),
        ),
    decreases rs.len(),
{
    if rs.len() == 0 {
        assert(runs_bytes(rs) + r =~= r);
        assert(paint_columns(expand_runs(rs), band, x, color) =~= Set::<Pixel>::empty());
        assert(Set::<Pixel>::empty().union(read_sixel(r, band, x, color)) =~= read_sixel(r, band, x, color));
    } else {
        let prev = rs.drop_last();
        let (byte, length) = rs.last();
        assert(is_sixel_data(rs[rs.len() - 1].0));
        let tail = run_bytes(byte, length) + r;
        assert(runs_bytes(rs) + r =~= runs_bytes(prev) + tail);
        assert forall|i: int| 0 <= i < prev.len() implies is_sixel_data(#[trigger] prev[i].0) by {
            assert(prev[i] == rs[i]);
        }
        lemma_read_runs(prev, tail, band, x, color);
        let e = expand_runs(prev);
        lemma_read_run(byte, length, r, band, x + e.len(), color);
        lemma_paint_concat(e, Seq::new(length, |i: int| byte), band, x, color);
        assert(expand_runs(rs) == e + Seq::new(length, |i: int| byte));
        assert(paint_columns(e, band, x, color).union(
            paint_columns(Seq::new(length, |i: int| byte), band, x + e.len(), color).union(
                read_sixel(r, band, x + e.len() + length, color),
            ),
        ) =~= paint_columns(expand_runs(rs), band, x, color).union(
            read_sixel(r, band, x + expand_runs(rs).len(), color),
        ));
    }
}

/// The encoding of runs of data bytes, each at least one byte long, starts with `!` or a
/// data byte, never with a digit.
proof fn lemma_runs_bytes_start(rs: Seq<(u8, nat)>)
    requires
        rs.len() > 0,
        forall|i: int| 0 <= i < rs.len() ==> is_sixel_data(#[trigger] rs[i].0) && rs[i].1 >= 1,
    ensures
        runs_bytes(rs).len() > 0,
        !is_digit(runs_bytes(rs)[0]),
    decreases rs.len(),
{
    let prev = rs.drop_last();
    assert(is_sixel_data(rs[rs.len() - 1].0) && rs[rs.len() - 1].1 >= 1);
    if prev.len() == 0 {
        assert(runs_bytes(prev) =~= Seq::<u8>::empty());
        assert(runs_bytes(rs) =~= run_bytes(rs.last().0, rs.last().1));
    } else {
        assert forall|i: int| 0 <= i < prev.len() implies is_sixel_data(#[trigger] prev[i].0) && prev[i].1 >= 1 by {
            assert(prev[i] == rs[i]);
        }
        lemma_runs_bytes_start(prev);
        assert(runs_bytes(rs)[0] == runs_bytes(prev)[0]);
    }
}


/// Reading the section of one colour of a band selects the colour and paints the band's
/// column bytes for it, moving past the width of the image.
proof fn lemma_read_section(
    rgba: Seq<u8>,
    width: nat,
    height: nat,
    top: nat,
    color: u8,
    r: Seq<u8>,
    band: nat,
    x: nat,
    selected: nat,
)
    requires
        width > 0,
    ensures
        read_sixel(color_section(rgba, width as int, height as int, top as int, color) + r, band, x, selected)
            == paint_columns(sixel_row(rgba, width as int, height as int, top as int, color), band, x, color as nat).union(
            read_sixel(r, band, x + width, color as nat),
        ),
{
    let row = sixel_row(rgba, width as int, height as int, top as int, color);
    assert forall|i: int| 0 <= i < row.len() implies is_sixel_data(#[trigger] row[i]) by {
        lemma_sixel_byte_range(rgba, width as int, height as int, top as int, i, color);
    }
    lemma_runs_bytes_from(row);
    lemma_runs_round_trip(row);
    let rs = runs(row);
    assert(row.len() > 0);
    if rs.len() == 0 {
        assert(expand_runs(rs) =~= Seq::<u8>::empty());
    }
    assert forall|i: int| 0 <= i < rs.len() implies is_sixel_data(#[trigger] rs[i].0) && rs[i].1 >= 1 by {}
    lemma_runs_bytes_start(rs);
    let encoded = run_length_encoded(row);
    let digits = decimal(color as nat);
    lemma_decimal_digits(color as nat);
    let s = color_section(rgba, width as int, height as int, top as int, color) + r;
    assert(s =~= seq![35u8] + (digits + (encoded + r)));
    assert(s.drop_first() =~= digits + (encoded + r));
    assert((encoded + r)[0] == encoded[0]);
    lemma_leading_digits(digits, encoded + r);
    let n = digits.len() as int;
    assert(s.subrange(1, 1 + n) =~= digits);
    assert(s.skip(1 + n) =~= encoded + r);
    lemma_read_runs(rs, r, band, x, color as nat);
}


/// The pixels that the first `k` colour sections of a band paint, the band being band
/// number `band` of the image.
pub open spec fn sections_paint(
    rgba: Seq<u8>,
    width: nat,
    height: nat,
    colors: Seq<u8>,
    band: nat,
    k: nat,
) -> Set<Pixel>
    decreases k,
{
    if k == 0 {
        Set::empty()
    } else {
        sections_paint(rgba, width, height, colors, band, (k - 1) as nat).union(
            paint_columns(
                sixel_row(rgba, width as int, height as int, (BAND_HEIGHT * band) as int, colors[k - 1]),
                band,
                0,
                colors[k - 1] as nat,
            ),
        )
    }
}

/// The pixels that band number `band` of the encoding paints.
pub open spec fn band_paint(rgba: Seq<u8>, width: nat, height: nat, band: nat) -> Set<Pixel> {
    let colors = band_colors(rgba, width as int, height as int, (BAND_HEIGHT * band) as int);
    sections_paint(rgba, width, height, colors, band, colors.len())
}

/// The pixels that the first `n` bands of the encoding paint.
pub open spec fn bands_paint(rgba: Seq<u8>, width: nat, height: nat, n: nat) -> Set<Pixel>
    decreases n,
{
    if n == 0 {
        Set::empty()
    } else {
        bands_paint(rgba, width, height, (n - 1) as nat).union(band_paint(rgba, width, height, (n - 1) as nat))
    }
}

/// Reading the first `k` colour sections of a band, from its first column, paints them;
/// the reader is then at the first column again, after a `$`, or past the last column
/// after the band's last section.
proof fn lemma_read_sections(
    rgba: Seq<u8>,
    width: nat,
    height: nat,
    colors: Seq<u8>,
    band: nat,
    k: nat,
    r: Seq<u8>,
    selected: nat,
)
    requires
        width > 0,
        1 <= k <= colors.len(),
    ensures
        read_sixel(
            band_sections(rgba, width as int, height as int, (BAND_HEIGHT * band) as int, colors, k) + r,
            band,
            0,
            selected,
        ) == sections_paint(rgba, width, height, colors, band, k).union(
            read_sixel(r, band, if k < colors.len() { 0 } else { width }, colors[k - 1] as nat),
        ),
    decreases k,
{
    let top = (BAND_HEIGHT * band) as nat;
    let color = colors[k - 1];
    let section = crate::sixel::color_section(rgba, width as int, height as int, top as int, color);
    let sep: Seq<u8> = if k < colors.len() { seq![36u8] } else { Seq::empty() };
    let prev = band_sections(rgba, width as int, height as int, top as int, colors, (k - 1) as nat);
    assert(band_sections(rgba, width as int, height as int, top as int, colors, k) + r =~= prev + (section + (sep
        + r)));
    let after = if k < colors.len() { 0 } else { width };
    lemma_read_section(rgba, width, height, top, color, sep + r, band, 0, selected);
    lemma_read_section(rgba, width, height, top, color, sep + r, band, 0, colors[k - 2] as nat);
    if k < colors.len() {
        assert((sep + r)[0] == 36u8);
        assert((sep + r).drop_first() =~= r);
    } else {
        assert(sep + r =~= r);
    }
    let row_paint = paint_columns(
        sixel_row(rgba, width as int, height as int, top as int, color),
        band,
        0,
        color as nat,
    );
    assert(read_sixel(section + (sep + r), band, 0, selected) == row_paint.union(
        read_sixel(r, band, after, color as nat),
    ));
    if k == 1 {
        assert(prev =~= Seq::<u8>::empty());
        assert(prev + (section + (sep + r)) =~= section + (sep + r));
        assert(sections_paint(rgba, width, height, colors, band, 0) =~= Set::<Pixel>::empty());
        assert(sections_paint(rgba, width, height, colors, band, 1) =~= row_paint);
    } else {
        lemma_read_sections(rgba, width, height, colors, band, (k - 1) as nat, section + (sep + r), selected);
        assert(sections_paint(rgba, width, height, colors, band, (k - 1) as nat).union(
            row_paint.union(read_sixel(r, band, after, color as nat)),
        ) =~= sections_paint(rgba, width, height, colors, band, k).union(
            read_sixel(r, band, after, color as nat),
        ));
    }
}


/// Reading a band of the encoding from its first column paints the band; the reader is
/// then at the first column of the next band, unless this is the last band.
proof fn lemma_read_band(rgba: Seq<u8>, width: nat, height: nat, band: nat, r: Seq<u8>, selected: nat)
    requires
        width > 0,
    ensures
        BAND_HEIGHT * band + BAND_HEIGHT < height ==> exists|c: nat|
            #![trigger read_sixel(r, band + 1, 0, c)]
            read_sixel(band_bytes(rgba, width as int, height as int, (BAND_HEIGHT * band) as int) + r, band, 0, selected)
                == band_paint(rgba, width, height, band).union(read_sixel(r, band + 1, 0, c)),
        BAND_HEIGHT * band + BAND_HEIGHT >= height ==> exists|x: nat, c: nat|
            #![trigger read_sixel(r, band, x, c)]
            read_sixel(band_bytes(rgba, width as int, height as int, (BAND_HEIGHT * band) as int) + r, band, 0, selected)
                == band_paint(rgba, width, height, band).union(read_sixel(r, band, x, c)),
{
    let top = (BAND_HEIGHT * band) as int;
    let colors = band_colors(rgba, width as int, height as int, top);
    let sections = band_sections(rgba, width as int, height as int, top, colors, colors.len());
    let term = crate::sixel::band_terminator(height as int, top, colors.len() == 0);
    let paint = band_paint(rgba, width, height, band);
    assert(band_bytes(rgba, width as int, height as int, top) + r =~= sections + (term + r));
    if colors.len() == 0 {
        assert(sections =~= Seq::<u8>::empty());
        assert(sections + (term + r) =~= term + r);
        assert(paint =~= Set::<Pixel>::empty());
        if top + BAND_HEIGHT < height {
            assert((term + r)[0] == 45u8);
            assert((term + r).drop_first() =~= r);
            assert(paint.union(read_sixel(r, band + 1, 0, selected)) =~= read_sixel(r, band + 1, 0, selected));
        } else {
            assert(term + r =~= r);
            assert(paint.union(read_sixel(r, band, 0, selected)) =~= read_sixel(r, band, 0, selected));
        }
    } else {
        let last = colors[colors.len() - 1] as nat;
        lemma_read_sections(rgba, width, height, colors, band, colors.len(), term + r, selected);
        if top + BAND_HEIGHT < height {
            let t = term + r;
            assert(t[0] == 36u8);
            assert(t.drop_first()[0] == 45u8);
            assert(t.drop_first().drop_first() =~= r);
            assert(read_sixel(t, band, width, last) == read_sixel(t.drop_first(), band, 0, last));
            assert(read_sixel(t.drop_first(), band, 0, last) == read_sixel(
                t.drop_first().drop_first(),
                band + 1,
                0,
                last,
            ));
            assert(read_sixel(t, band, width, last) == read_sixel(r, band + 1, 0, last));
        } else {
            assert(term + r =~= r);
        }
    }
}

/// Reading the first `n` bands of the encoding, none of them the last, paints them; the
/// reader is then at the first column of band `n`.
proof fn lemma_read_bands(rgba: Seq<u8>, width: nat, height: nat, n: nat, r: Seq<u8>, selected: nat)
    requires
        width > 0,
        BAND_HEIGHT * n < height,
    ensures
        exists|c: nat|
            #![trigger read_sixel(r, n, 0, c)]
            read_sixel(bands_bytes(rgba, width as int, height as int, n) + r, 0, 0, selected)
                == bands_paint(rgba, width, height, n).union(read_sixel(r, n, 0, c)),
    decreases n,
{
    if n == 0 {
        assert(bands_bytes(rgba, width as int, height as int, 0) + r =~= r);
        assert(bands_paint(rgba, width, height, 0) =~= Set::<Pixel>::empty());
        assert(bands_paint(rgba, width, height, 0).union(read_sixel(r, 0, 0, selected)) =~= read_sixel(r, 0, 0, selected));
    } else {
        let m = (n - 1) as nat;
        let band = band_bytes(rgba, width as int, height as int, (BAND_HEIGHT * m) as int);
        assert(bands_bytes(rgba, width as int, height as int, n) + r =~= bands_bytes(rgba, width as int, height as int, m)
            + (band + r));
        lemma_read_bands(rgba, width, height, m, band + r, selected);
        let c1 = choose|c: nat|
            #![trigger read_sixel(band + r, m, 0, c)]
            read_sixel(bands_bytes(rgba, width as int, height as int, m) + (band + r), 0, 0, selected)
                == bands_paint(rgba, width, height, m).union(read_sixel(band + r, m, 0, c));
        lemma_read_band(rgba, width, height, m, r, c1);
        let c2 = choose|c: nat|
            #![trigger read_sixel(r, m + 1, 0, c)]
            read_sixel(band + r, m, 0, c1) == band_paint(rgba, width, height, m).union(read_sixel(r, m + 1, 0, c));
        assert(bands_paint(rgba, width, height, m).union(
            band_paint(rgba, width, height, m).union(read_sixel(r, n, 0, c2)),
        ) =~= bands_paint(rgba, width, height, n).union(read_sixel(r, n, 0, c2)));
    }
}


/// The column bytes of one colour of a band paint exactly the pixels of the band, within
/// the image, that have that colour.
proof fn lemma_row_paint(rgba: Seq<u8>, width: nat, height: nat, band: nat, color: u8, p: Pixel)
    ensures
        paint_columns(
            sixel_row(rgba, width as int, height as int, (BAND_HEIGHT * band) as int, color),
            band,
            0,
            color as nat,
        ).contains(p) <==> (0 <= p.0 < width && p.2 == color as nat && BAND_HEIGHT * band <= p.1
            < BAND_HEIGHT * band + BAND_HEIGHT && p.1 < height && pixel_color(rgba, p.1 * width + p.0)
            == Some(color)),
{
    let top = (BAND_HEIGHT * band) as int;
    if 0 <= p.0 < width && top <= p.1 < top + BAND_HEIGHT {
        let k = (p.1 - top) as nat;
        let bits = crate::sixel::column_bits(rgba, width as int, height as int, top, p.0, color, BAND_HEIGHT as nat);
        lemma_column_bits_bound(rgba, width as int, height as int, top, p.0, color, BAND_HEIGHT as nat);
        assert(bit_weight(6) == 64) by {
            reveal_with_fuel(bit_weight, 7);
        }
        let byte = sixel_byte(rgba, width as int, height as int, top, p.0, color);
        assert(byte - 63 == bits);
        assert(sixel_row(rgba, width as int, height as int, top, color)[p.0 - 0] == byte);
        lemma_column_bit(rgba, width as int, height as int, top, p.0, color, BAND_HEIGHT as nat, k);
        assert(top + k == p.1);
    }
}

/// A pixel is painted by one of the first `k` colour sections of a band exactly when one
/// of them paints it.
proof fn lemma_sections_paint(
    rgba: Seq<u8>,
    width: nat,
    height: nat,
    colors: Seq<u8>,
    band: nat,
    k: nat,
    p: Pixel,
)
    ensures
        sections_paint(rgba, width, height, colors, band, k).contains(p) <==> exists|i: int|
            0 <= i < k && #[trigger] paint_columns(
                sixel_row(rgba, width as int, height as int, (BAND_HEIGHT * band) as int, colors[i]),
                band,
                0,
                colors[i] as nat,
            ).contains(p),
    decreases k,
{
    if k > 0 {
        lemma_sections_paint(rgba, width, height, colors, band, (k - 1) as nat, p);
    }
}

/// Band number `band` of the encoding paints exactly the opaque pixels of its rows, each
/// in its palette index.
proof fn lemma_band_paint(rgba: Seq<u8>, width: nat, height: nat, band: nat, p: Pixel)
    requires
        rgba.len() == width * height * 4,
    ensures
        band_paint(rgba, width, height, band).contains(p) <==> (0 <= p.0 < width && BAND_HEIGHT * band
            <= p.1 < BAND_HEIGHT * band + BAND_HEIGHT && p.1 < height && p.2 < 256 && pixel_color(
            rgba,
            p.1 * width + p.0,
        ) == Some(p.2 as u8)),
{
    let top = (BAND_HEIGHT * band) as int;
    let colors = band_colors(rgba, width as int, height as int, top);
    lemma_sections_paint(rgba, width, height, colors, band, colors.len(), p);
    if band_paint(rgba, width, height, band).contains(p) {
        let i = choose|i: int|
            0 <= i < colors.len() && #[trigger] paint_columns(
                sixel_row(rgba, width as int, height as int, top, colors[i]),
                band,
                0,
                colors[i] as nat,
            ).contains(p);
        lemma_row_paint(rgba, width, height, band, colors[i], p);
    }
    if 0 <= p.0 < width && top <= p.1 < top + BAND_HEIGHT && p.1 < height && p.2 < 256 && pixel_color(
        rgba,
        p.1 * width + p.0,
    ) == Some(p.2 as u8) {
        let color = p.2 as u8;
        lemma_pixel_drawn(rgba, width, height, p.0 as nat, p.1 as nat, color);
        assert(p.1 / 6 == band) by (nonlinear_arith)
            requires 6 * band <= p.1 < 6 * band + 6;
        let i = choose|i: int| 0 <= i < colors.len() && colors[i] == color;
        lemma_row_paint(rgba, width, height, band, colors[i], p);
        assert(paint_columns(
            sixel_row(rgba, width as int, height as int, top, colors[i]),
            band,
            0,
            colors[i] as nat,
        ).contains(p));
    }
}

/// The first `n` bands of the encoding paint exactly the opaque pixels of their rows.
proof fn lemma_bands_paint(rgba: Seq<u8>, width: nat, height: nat, n: nat, p: Pixel)
    requires
        rgba.len() == width * height * 4,
    ensures
        bands_paint(rgba, width, height, n).contains(p) <==> (0 <= p.0 < width && 0 <= p.1 < BAND_HEIGHT
            * n && p.1 < height && p.2 < 256 && pixel_color(rgba, p.1 * width + p.0) == Some(p.2 as u8)),
    decreases n,
{
    if n > 0 {
        lemma_bands_paint(rgba, width, height, (n - 1) as nat, p);
        lemma_band_paint(rgba, width, height, (n - 1) as nat, p);
    }
}

/// The pixels of an RGBA image of `width` by `height` pixels that are not transparent,
/// each with its RGB 3-3-2 palette index.
pub open spec fn opaque_pixels(rgba: Seq<u8>, width: nat, height: nat) -> Set<Pixel> {
    Set::new(
        |p: Pixel|
            0 <= p.0 < width && 0 <= p.1 < height && p.2 < 256 && pixel_color(rgba, p.1 * width + p.0)
                == Some(p.2 as u8),
    )
}

/// The introducer of a Sixel image, `ESC P 9;1;0 q`, after which its data begins.
pub open spec fn sixel_introducer() -> Seq<u8> {
    seq![27u8, 80u8, 57u8, 59u8, 49u8, 59u8, 48u8, 113u8]
}

/// Reading colour definitions paints nothing and leaves the last colour defined selected.
proof fn lemma_read_definitions(colors: Seq<u8>, r: Seq<u8>, band: nat, x: nat, selected: nat)
    ensures
        read_sixel(color_definitions(colors) + r, band, x, selected) == read_sixel(
            r,
            band,
            x,
            if colors.len() == 0 { selected } else { colors.last() as nat },
        ),
    decreases colors.len(),
{
    if colors.len() == 0 {
        assert(color_definitions(colors) + r =~= r);
    } else {
        let index = colors.last();
        let definition = color_definition(index);
        let (red, green, blue) = crate::sixel::rgb332_rgb(index);
        let digits = decimal(index as nat);
        let params = seq![59u8, 50u8, 59u8] + decimal(crate::sixel::percent(red)) + seq![59u8] + decimal(
            crate::sixel::percent(green),
        ) + seq![59u8] + decimal(crate::sixel::percent(blue));
        lemma_decimal_digits(index as nat);
        lemma_decimal_digits(crate::sixel::percent(red));
        lemma_decimal_digits(crate::sixel::percent(green));
        lemma_decimal_digits(crate::sixel::percent(blue));
        assert forall|i: int| 0 <= i < params.len() implies is_plain(#[trigger] params[i]) by {
            let a = decimal(crate::sixel::percent(red));
            let b = decimal(crate::sixel::percent(green));
            let c = decimal(crate::sixel::percent(blue));
            if i < 3 {
            } else if i < 3 + a.len() {
                assert(params[i] == a[i - 3]);
            } else if i == 3 + a.len() {
            } else if i < 4 + a.len() + b.len() {
                assert(params[i] == b[i - 4 - a.len()]);
            } else if i == 4 + a.len() + b.len() {
            } else {
                assert(params[i] == c[i - 5 - a.len() - b.len()]);
            }
        }
        let s = definition + r;
        assert(s =~= seq![35u8] + (digits + (params + r)));
        assert(s.drop_first() =~= digits + (params + r));
        lemma_leading_digits(digits, params + r);
        let n = digits.len() as int;
        assert(s.subrange(1, 1 + n) =~= digits);
        assert(s.skip(1 + n) =~= params + r);
        lemma_read_plain(params, r, band, x, index as nat);
        let prev = colors.drop_last();
        assert(color_definitions(colors) + r =~= color_definitions(prev) + s);
        lemma_read_definitions(prev, s, band, x, selected);
    }
}

/// The raster attributes of an image, `"1;1;width;height`, which a reader passes over.
pub open spec fn raster_attributes(width: nat, height: nat) -> Seq<u8> {
    seq![34u8, 49u8, 59u8, 49u8, 59u8] + decimal(width) + seq![59u8] + decimal(height)
}

/// An image is its introducer, its raster attributes, its colour definitions, its bands
/// and its terminator; reading past the raster attributes changes nothing.
proof fn lemma_image_layout(rgba: Seq<u8>, width: nat, height: nat)
    ensures
        sixel_image(rgba, width, height) == sixel_introducer() + (raster_attributes(width, height) + (
        color_definitions(crate::sixel::palette_colors(rgba)) + (bands_bytes(
            rgba,
            width as int,
            height as int,
            band_count(height as int),
        ) + string_terminator()))),
        read_sixel(sixel_image(rgba, width, height).skip(8), 0, 0, 0) == read_sixel(
            color_definitions(crate::sixel::palette_colors(rgba)) + (bands_bytes(
                rgba,
                width as int,
                height as int,
                band_count(height as int),
            ) + string_terminator()),
            0,
            0,
            0,
        ),
{
    let image = sixel_image(rgba, width, height);
    let raster = raster_attributes(width, height);
    let rest = color_definitions(crate::sixel::palette_colors(rgba)) + (bands_bytes(
        rgba,
        width as int,
        height as int,
        band_count(height as int),
    ) + string_terminator());
    assert(image =~= sixel_introducer() + (raster + rest));
    assert(image.skip(8) =~= raster + rest);
    lemma_decimal_digits(width);
    lemma_decimal_digits(height);
    assert forall|i: int| 0 <= i < raster.len() implies is_plain(#[trigger] raster[i]) by {
        let a = decimal(width);
        let b = decimal(height);
        if i < 5 {
        } else if i < 5 + a.len() {
            assert(raster[i] == a[i - 5]);
        } else if i == 5 + a.len() {
        } else {
            assert(raster[i] == b[i - 6 - a.len()]);
        }
    }
    lemma_read_plain(raster, rest, 0, 0, 0);
}

/// Reading every band of an image, then its terminator, paints the bands.
proof fn lemma_read_all_bands(rgba: Seq<u8>, width: nat, height: nat, selected: nat)
    requires
        width > 0,
        height > 0,
    ensures
        read_sixel(
            bands_bytes(rgba, width as int, height as int, band_count(height as int)) + string_terminator(),
            0,
            0,
            selected,
        ) == bands_paint(rgba, width, height, band_count(height as int)),
{
    let n = band_count(height as int);
    let st = string_terminator();
    assert(n >= 1 && BAND_HEIGHT * (n - 1) < height && BAND_HEIGHT * (n - 1) + BAND_HEIGHT >= height) by (nonlinear_arith)
        requires n == (height + 5) / 6, height > 0;
    let m = (n - 1) as nat;
    let last = band_bytes(rgba, width as int, height as int, (BAND_HEIGHT * m) as int);
    assert(bands_bytes(rgba, width as int, height as int, n) + st =~= bands_bytes(
        rgba,
        width as int,
        height as int,
        m,
    ) + (last + st));
    lemma_read_bands(rgba, width, height, m, last + st, selected);
    let c1 = choose|c: nat|
        #![trigger read_sixel(last + st, m, 0, c)]
        read_sixel(bands_bytes(rgba, width as int, height as int, m) + (last + st), 0, 0, selected)
            == bands_paint(rgba, width, height, m).union(read_sixel(last + st, m, 0, c));
    lemma_read_band(rgba, width, height, m, st, c1);
    let (x2, c2) = choose|x: nat, c: nat|
        #![trigger read_sixel(st, m, x, c)]
        read_sixel(last + st, m, 0, c1) == band_paint(rgba, width, height, m).union(read_sixel(st, m, x, c));
    assert(read_sixel(st, m, x2, c2) == Set::<Pixel>::empty());
    assert(bands_paint(rgba, width, height, m).union(
        band_paint(rgba, width, height, m).union(Set::<Pixel>::empty()),
    ) =~= bands_paint(rgba, width, height, n));
}

/// A Sixel reader paints back exactly the opaque pixels of the encoded image, each in its
/// RGB 3-3-2 palette index: reading the image's data, from after its introducer, paints
/// each pixel that is not transparent, in its colour, and nothing else.
pub proof fn lemma_sixel_reads_back(rgba: Seq<u8>, width: nat, height: nat)
    requires
        width > 0,
        height > 0,
        rgba.len() == width * height * 4,
    ensures
        sixel_image(rgba, width, height).take(8) == sixel_introducer(),
        read_sixel(sixel_image(rgba, width, height).skip(8), 0, 0, 0) == opaque_pixels(rgba, width, height),
{
    let n = band_count(height as int);
    let bands = bands_bytes(rgba, width as int, height as int, n);
    lemma_image_layout(rgba, width, height);
    assert(sixel_image(rgba, width, height).take(8) =~= sixel_introducer());
    lemma_read_definitions(crate::sixel::palette_colors(rgba), bands + string_terminator(), 0, 0, 0);
    let c0: nat = if crate::sixel::palette_colors(rgba).len() == 0 {
        0
    } else {
        crate::sixel::palette_colors(rgba).last() as nat
    };
    lemma_read_all_bands(rgba, width, height, c0);
    assert forall|p: Pixel| #[trigger] bands_paint(rgba, width, height, n).contains(p) <==> opaque_pixels(
        rgba,
        width,
        height,
    ).contains(p) by {
        lemma_bands_paint(rgba, width, height, n, p);
        if 0 <= p.1 < height {
            assert(p.1 < BAND_HEIGHT * n) by (nonlinear_arith)
                requires n == (height + 5) / 6, p.1 < height;
        }
    }
    assert(bands_paint(rgba, width, height, n) =~= opaque_pixels(rgba, width, height));
}

} // verus!
