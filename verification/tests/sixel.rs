use terminal_sprite_pet::sixel::{
    active_colors, color_at, encode_rgba, flush_run, push_run, rgb332, rgb332_color, sixel_column,
    sixel_images, Palette, SixelError,
};

#[test]
fn encodes_a_transparent_background() {
    let sixel = String::from_utf8(encode_rgba(&[255, 0, 0, 255], 1, 1).unwrap()).unwrap();
    assert_eq!(sixel, "\x1bP9;1;0q\"1;1;1;1#224;2;100;0;0#224@\x1b\\");
}

#[test]
fn rejects_empty_dimensions() {
    assert_eq!(encode_rgba(&[], 0, 3), Err(SixelError::EmptyImage));
    assert_eq!(encode_rgba(&[], 3, 0), Err(SixelError::EmptyImage));
}

#[test]
fn rejects_a_buffer_of_the_wrong_length() {
    assert_eq!(
        encode_rgba(&[0, 0, 0], 1, 1),
        Err(SixelError::BufferLength { actual: 3, expected: 4 })
    );
}

#[test]
fn leaves_transparent_pixels_undrawn() {
    let sixel = encode_rgba(&[255, 255, 255, 127], 1, 1).unwrap();
    assert_eq!(sixel, b"\x1bP9;1;0q\"1;1;1;1\x1b\\".to_vec());
}

#[test]
fn run_length_encodes_long_runs() {
    let rgba: Vec<u8> = [255u8, 0, 0, 255].repeat(5);
    let sixel = String::from_utf8(encode_rgba(&rgba, 5, 1).unwrap()).unwrap();
    assert_eq!(sixel, "\x1bP9;1;0q\"1;1;5;1#224;2;100;0;0#224!5@\x1b\\");
    let rgba: Vec<u8> = [0u8, 0, 255, 255].repeat(3);
    let sixel = String::from_utf8(encode_rgba(&rgba, 3, 1).unwrap()).unwrap();
    assert_eq!(sixel, "\x1bP9;1;0q\"1;1;3;1#3;2;0;0;100#3@@@\x1b\\");
}

#[test]
fn separates_colors_and_bands() {
    // Two columns, seven rows: red on the left, green on the right, all opaque.
    let mut rgba = Vec::new();
    for _ in 0..7 {
        rgba.extend_from_slice(&[255, 0, 0, 255]);
        rgba.extend_from_slice(&[0, 255, 0, 255]);
    }
    let sixel = String::from_utf8(encode_rgba(&rgba, 2, 7).unwrap()).unwrap();
    assert_eq!(
        sixel,
        "\x1bP9;1;0q\"1;1;2;7#28;2;0;100;0#224;2;100;0;0#28?~$#224~?$-#28?@$#224@?\x1b\\"
    );
}

#[test]
fn maps_colors_to_the_332_palette() {
    assert_eq!(rgb332(255, 0, 0), 224);
    assert_eq!(rgb332(0, 255, 0), 28);
    assert_eq!(rgb332(0, 0, 255), 3);
    assert_eq!(rgb332(255, 255, 255), 255);
    assert_eq!(rgb332_color(224), (255, 0, 0));
    assert_eq!(rgb332_color(0b010_011_01), (72, 109, 85));
}

#[test]
fn palette_colors_map_back_to_their_index() {
    for index in 0..=255u8 {
        let (r, g, b) = rgb332_color(index);
        assert_eq!(rgb332(r, g, b), index);
    }
}

#[test]
fn finds_pixel_colors() {
    let rgba = [0, 0, 0, 0, 255, 255, 255, 200];
    assert_eq!(color_at(&rgba, 2, 0, 0), None);
    assert_eq!(color_at(&rgba, 2, 1, 0), Some(255));
}

#[test]
fn builds_the_palette_of_opaque_pixels() {
    let rgba = [255, 0, 0, 255, 0, 255, 0, 10, 0, 0, 255, 128, 9];
    let palette = Palette::from_rgba(&rgba);
    assert_eq!(palette.indices(), vec![3, 224]);
    let mut defs = Vec::new();
    palette.write_definitions(&mut defs);
    assert_eq!(defs, b"#3;2;0;0;100#224;2;100;0;0".to_vec());
}

#[test]
fn sets_one_bit_per_matching_row() {
    // One column, three rows: red, transparent, red.
    let rgba = [255, 0, 0, 255, 0, 0, 0, 0, 255, 0, 0, 255];
    assert_eq!(sixel_column(&rgba, 1, 3, 0, 0, 224), b'?' + 0b101);
    assert_eq!(sixel_column(&rgba, 1, 3, 0, 0, 3), b'?');
    let palette = Palette::from_rgba(&rgba);
    assert_eq!(active_colors(&rgba, 1, 3, 0, &palette), vec![224]);
}

#[test]
fn every_pixel_is_drawn_in_its_band() {
    // Three rows: red, green, blue; each is set in the column byte of its own colour only.
    let rgba = [255, 0, 0, 255, 0, 255, 0, 255, 0, 0, 255, 255];
    assert_eq!(sixel_column(&rgba, 1, 3, 0, 0, 224), b'?' + 1);
    assert_eq!(sixel_column(&rgba, 1, 3, 0, 0, 28), b'?' + 2);
    assert_eq!(sixel_column(&rgba, 1, 3, 0, 0, 3), b'?' + 4);
}

#[test]
fn runs_are_flushed_with_counts() {
    let mut run = None;
    let mut length = 0usize;
    let mut out = Vec::new();
    for byte in [b'A', b'A', b'A', b'A', b'A', b'B', b'C', b'C'] {
        push_run(&mut run, &mut length, &mut out, byte);
    }
    flush_run(&mut run, &mut length, &mut out);
    assert_eq!(out, b"!5ABCC".to_vec());
    assert_eq!(run, None);
    assert_eq!(length, 0);
}

/// Expands Sixel repeat introducers, as a Sixel reader does.
fn expand(bytes: &[u8]) -> Vec<u8> {
    let mut out = Vec::new();
    let mut i = 0;
    while i < bytes.len() {
        if bytes[i] == b'!' {
            let mut j = i + 1;
            while bytes[j].is_ascii_digit() {
                j += 1;
            }
            let count: usize = std::str::from_utf8(&bytes[i + 1..j]).unwrap().parse().unwrap();
            out.extend(std::iter::repeat(bytes[j]).take(count));
            i = j + 1;
        } else {
            out.push(bytes[i]);
            i += 1;
        }
    }
    out
}

#[test]
fn run_length_encoding_expands_back() {
    let row = b"???????~~@@@@@@@@@@@@AB?".to_vec();
    let mut run = None;
    let mut length = 0usize;
    let mut out = Vec::new();
    for byte in &row {
        push_run(&mut run, &mut length, &mut out, *byte);
    }
    flush_run(&mut run, &mut length, &mut out);
    assert_eq!(out, b"!7?~~!12@AB?".to_vec());
    assert_eq!(expand(&out), row);
}

#[test]
fn a_band_past_the_last_row_is_blank() {
    let rgba = [255, 0, 0, 255, 0, 255, 0, 255, 0, 0, 255, 255];
    assert_eq!(sixel_column(&rgba, 1, 3, 3, 0, 224), b'?');
    assert_eq!(sixel_column(&rgba, 1, 3, 12, 0, 224), b'?');
}

#[test]
fn a_run_of_length_zero_closes_to_nothing() {
    let mut run = Some(b'A');
    let mut length = 0usize;
    let mut out = Vec::new();
    push_run(&mut run, &mut length, &mut out, b'B');
    assert_eq!((run, length, out.clone()), (Some(b'B'), 1, Vec::new()));
    let mut run = Some(b'A');
    let mut length = usize::MAX;
    let mut out = Vec::new();
    push_run(&mut run, &mut length, &mut out, b'B');
    assert_eq!(out, format!("!{}A", usize::MAX).into_bytes());
}

#[test]
fn encodes_each_buffer_in_turn() {
    let red = vec![255, 0, 0, 255];
    let clear = vec![0, 0, 0, 0];
    let images = sixel_images(&vec![red.clone(), clear.clone()], 1, 1);
    assert_eq!(images, vec![encode_rgba(&red, 1, 1).unwrap(), encode_rgba(&clear, 1, 1).unwrap()]);
    assert!(sixel_images(&Vec::new(), 2, 2).is_empty());
}

/// Paints a Sixel image's data as a reader does: the pixels set, with their colours.
fn read_back(image: &[u8]) -> std::collections::BTreeSet<(usize, usize, usize)> {
    let mut painted = std::collections::BTreeSet::new();
    let (mut band, mut x, mut color) = (0usize, 0usize, 0usize);
    let mut i = 8;
    let number = |i: &mut usize| {
        let mut value = 0usize;
        while *i < image.len() && image[*i].is_ascii_digit() {
            value = value * 10 + (image[*i] - b'0') as usize;
            *i += 1;
        }
        value
    };
    while i < image.len() && image[i] != 0x1b {
        let b = image[i];
        i += 1;
        let (byte, count) = match b {
            b'#' => {
                color = number(&mut i);
                continue;
            }
            b'!' => {
                let count = number(&mut i);
                let byte = image[i];
                i += 1;
                (byte, count)
            }
            b'$' => {
                x = 0;
                continue;
            }
            b'-' => {
                band += 1;
                x = 0;
                continue;
            }
            63..=126 => (b, 1),
            _ => continue,
        };
        for column in x..x + count {
            for k in 0..6 {
                if (byte - 63) >> k & 1 == 1 {
                    painted.insert((column, 6 * band + k, color));
                }
            }
        }
        x += count;
    }
    painted
}

#[test]
fn a_reader_paints_back_the_opaque_pixels() {
    // Five columns and eight rows (two bands): a red bar, a green dot, a blue column.
    let (width, height) = (5usize, 8usize);
    let mut rgba = vec![0u8; width * height * 4];
    let mut set = |x: usize, y: usize, rgb: [u8; 3]| {
        let p = (y * width + x) * 4;
        rgba[p..p + 4].copy_from_slice(&[rgb[0], rgb[1], rgb[2], 255]);
    };
    for x in 0..5 {
        set(x, 1, [255, 0, 0]);
    }
    set(2, 7, [0, 255, 0]);
    for y in 0..8 {
        set(4, y, [0, 0, 255]);
    }
    let image = encode_rgba(&rgba, width as u32, height as u32).unwrap();
    assert_eq!(&image[..8], b"\x1bP9;1;0q");
    let mut expected = std::collections::BTreeSet::new();
    for y in 0..height {
        for x in 0..width {
            let p = (y * width + x) * 4;
            if rgba[p + 3] >= 128 {
                expected.insert((x, y, rgb332(rgba[p], rgba[p + 1], rgba[p + 2]) as usize));
            }
        }
    }
    assert_eq!(read_back(&image), expected);
}

#[test]
fn only_transparency_and_palette_index_matter() {
    // Same palette indices and transparency, different low bits, alpha and hidden colour.
    let a = [255, 0, 0, 255, 10, 20, 30, 0, 0, 255, 0, 128];
    let b = [250, 31, 63, 200, 99, 99, 99, 127, 16, 240, 40, 255];
    assert_eq!(encode_rgba(&a, 3, 1).unwrap(), encode_rgba(&b, 3, 1).unwrap());
}
