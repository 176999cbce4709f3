use terminal_sprite_pet::pet::{
    crop, frame_grid, spritesheet_name, validate_frame_spec, FrameError, FrameSpec, LayoutError, Pet,
    PetError,
};
use terminal_sprite_pet::catalog::{AnimationProblem, CustomAnimation};

fn grid(rows: u32) -> FrameSpec {
    FrameSpec { width: 192, height: 208, columns: 8, rows }
}

#[test]
fn validates_the_codex_layout() {
    assert_eq!(validate_frame_spec(grid(9), 1536, 1872), Ok(()));
    assert_eq!(validate_frame_spec(grid(11), 1536, 2288), Ok(()));
    assert_eq!(validate_frame_spec(FrameSpec { width: 100, ..grid(9) }, 1536, 1872), Err(LayoutError::FrameSize));
    assert_eq!(validate_frame_spec(grid(10), 1536, 2080), Err(LayoutError::SheetSize));
    assert_eq!(validate_frame_spec(grid(9), 1536, 2288), Err(LayoutError::SheetSize));
    assert_eq!(validate_frame_spec(grid(9), 1535, 1872), Err(LayoutError::SheetSize));
}

#[test]
fn defaults_the_grid_from_the_sheet_height() {
    assert_eq!(frame_grid(None, 2288), grid(11));
    assert_eq!(frame_grid(None, 1900), grid(9));
    assert_eq!(frame_grid(Some(grid(3)), 2288), grid(3));
}

#[test]
fn names_the_spritesheet() {
    assert_eq!(spritesheet_name(Some("  sheet.png \n")), "sheet.png");
    assert_eq!(spritesheet_name(Some(" \t ")), "spritesheet.webp");
    assert_eq!(spritesheet_name(None), "spritesheet.webp");
    assert_eq!(spritesheet_name(Some("\u{3000}a b\u{a0}")), "a b");
}

#[test]
fn crops_within_the_image() {
    // A 3 by 2 image whose pixels hold their own index.
    let pixels: Vec<u8> = (0..6u8).flat_map(|p| [p, p, p, p]).collect();
    let inside = crop(&pixels, 3, 2, 1, 0, 2, 2);
    assert_eq!((inside.width, inside.height), (2, 2));
    assert_eq!(inside.pixels, vec![1, 1, 1, 1, 2, 2, 2, 2, 4, 4, 4, 4, 5, 5, 5, 5]);
    let clamped = crop(&pixels, 3, 2, 2, 1, 5, 5);
    assert_eq!((clamped.width, clamped.height), (1, 1));
    assert_eq!(clamped.pixels, vec![5, 5, 5, 5]);
    let outside = crop(&pixels, 3, 2, 9, 9, 5, 5);
    assert_eq!((outside.width, outside.height), (0, 0));
    assert!(outside.pixels.is_empty());
}

#[test]
fn refuses_sheets_without_the_codex_layout() {
    let none: Vec<CustomAnimation> = Vec::new();
    let result = Pet::from_sheet(vec![0; 4], 1, 1, Some(FrameSpec { width: 1, ..grid(9) }), &none);
    assert_eq!(result.err(), Some(PetError::Layout(LayoutError::FrameSize)));
    let result = Pet::from_sheet(vec![0; 4], 1, 1, None, &none);
    assert_eq!(result.err(), Some(PetError::Layout(LayoutError::SheetSize)));
}

#[test]
fn loads_a_v1_sheet_and_cuts_its_frames() {
    let (width, height) = (1536u32, 1872u32);
    let mut pixels = vec![0u8; (width * height * 4) as usize];
    // Mark the top-left pixel of frame 8 (second row, first column) opaque red.
    let offset = ((208 * width) * 4) as usize;
    pixels[offset..offset + 4].copy_from_slice(&[255, 0, 0, 255]);
    let customs = vec![CustomAnimation {
        name: "wiggle".to_string(),
        frames: vec![71],
        frame_nanos: Some(100_000_000),
        loop_animation: None,
    }];
    let pet = Pet::from_sheet(pixels, width, height, None, &customs).unwrap();
    assert_eq!(pet.frame(), grid(9));
    assert_eq!(pet.frame_count(), 72);
    assert!(pet.animations().contains_key("wiggle"));
    assert!(!pet.animations().contains_key("look-up"));
    let frame = pet.frame_image(8).unwrap();
    assert_eq!((frame.width, frame.height), (192, 208));
    assert_eq!(&frame.pixels[..4], &[255, 0, 0, 255]);
    assert_eq!(pet.frame_image(72).err(), Some(FrameError::OutOfRange { index: 72, count: 72 }));
    let png = pet.frame_png(8).unwrap();
    assert_eq!(&png[..8], &[0x89, b'P', b'N', b'G', 0x0d, 0x0a, 0x1a, 0x0a]);
    assert_eq!(pet.frame_png(80).err(), Some(FrameError::OutOfRange { index: 80, count: 72 }));
    let sixels = pet.sixel_frames(1);
    assert_eq!(sixels.len(), 72);
    assert_eq!(sixels[0], b"\x1bP9;1;0q\"1;1;1;1\x1b\\".to_vec());
}

#[test]
fn refuses_a_custom_state_outside_the_sheet() {
    let pixels = vec![0u8; 1536 * 1872 * 4];
    let customs = vec![CustomAnimation {
        name: "far".to_string(),
        frames: vec![72],
        frame_nanos: Some(1),
        loop_animation: None,
    }];
    match Pet::from_sheet(pixels, 1536, 1872, None, &customs) {
        Err(PetError::Animation(e)) => {
            assert_eq!(e.name, "far");
            assert_eq!(e.problem, AnimationProblem::FrameOutOfRange);
        }
        other => panic!("unexpected {:?}", other.map(|_| ())),
    }
}

#[test]
fn loads_a_codex_v2_pet_package() {
    // A blank version 2 sheet and a manifest that declares neither a grid nor states.
    let (width, height) = (192 * 8u32, 208 * 11u32);
    let pixels = vec![0u8; (width * height * 4) as usize];
    let none: Vec<CustomAnimation> = Vec::new();
    let pet = Pet::from_sheet(pixels, width, height, None, &none).unwrap();
    assert_eq!(pet.frame().rows, 11);
    assert!(pet.animations().contains_key("look-up"));
}
