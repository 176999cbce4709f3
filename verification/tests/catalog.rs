use terminal_sprite_pet::catalog::{
    custom_animation, default_animations, load_animations, single_frame_animation, state_animation,
    AnimationProblem, CustomAnimation, FRAME_COLUMNS, V1_ROWS, V2_ROWS,
};

#[test]
fn v2_default_look_states_use_extended_rows() {
    let animations = default_animations(V2_ROWS);
    assert_eq!(
        animations.get("look-left").unwrap().frames()[0].sprite_index,
        ((V1_ROWS + 1) * FRAME_COLUMNS + 4) as usize
    );
    assert!(!default_animations(V1_ROWS).contains_key("look-left"));
}

#[test]
fn default_states_are_sorted_by_name() {
    let names = default_animations(V1_ROWS).keys();
    assert_eq!(
        names,
        vec!["failed", "idle", "jumping", "review", "running", "running-left", "running-right", "waiting", "waving"]
    );
    assert_eq!(default_animations(V2_ROWS).len(), 17);
}

#[test]
fn state_animations_play_their_row_three_times_then_idle() {
    let waving = state_animation(3, 4, 140, 280);
    let frames = waving.frames();
    assert_eq!(frames.len(), 3 * 4 + 6);
    assert_eq!(waving.loop_start(), Some(12));
    let cells: Vec<usize> = frames.iter().map(|f| f.sprite_index).collect();
    assert_eq!(cells, vec![24, 25, 26, 27, 24, 25, 26, 27, 24, 25, 26, 27, 0, 1, 2, 3, 4, 5]);
    assert_eq!(frames[2].duration_nanos, 140_000_000);
    assert_eq!(frames[3].duration_nanos, 280_000_000);
    let single = single_frame_animation(80);
    assert_eq!(single.frames().len(), 1);
    assert_eq!(single.frames()[0].duration_nanos, 1_000_000_000);
}

fn custom(name: &str, frames: Vec<usize>, frame_nanos: Option<u128>, loop_animation: Option<bool>) -> CustomAnimation {
    CustomAnimation { name: name.to_string(), frames, frame_nanos, loop_animation }
}

#[test]
fn reports_each_animation_problem() {
    assert_eq!(custom_animation(&vec![], 72, Some(1), None).err(), Some(AnimationProblem::NoFrames));
    assert_eq!(custom_animation(&vec![1, 72], 72, Some(1), None).err(), Some(AnimationProblem::FrameOutOfRange));
    assert_eq!(custom_animation(&vec![1], 72, None, None).err(), Some(AnimationProblem::InvalidFps));
    // Two frames of 10^28 ns each load, though together they last too long to be played.
    let long = custom_animation(&vec![1, 2], 72, Some(10u128.pow(28)), None).unwrap();
    assert!(!long.playable());
    assert!(custom_animation(&vec![1, 2], 72, Some(10u128.pow(27)), None).unwrap().playable());
    let ok = custom_animation(&vec![1, 2], 72, Some(125_000_000), Some(false)).unwrap();
    assert_eq!(ok.loop_start(), None);
    assert_eq!(ok.total_duration(), 250_000_000);
}

#[test]
fn custom_states_replace_defaults_and_fail_on_the_first_problem() {
    let customs = vec![
        custom("dance", vec![9, 10], Some(125_000_000), None),
        custom("idle", vec![7], Some(62_500_000), Some(true)),
    ];
    let animations = load_animations(&customs, V1_ROWS, 72).unwrap();
    assert_eq!(animations.len(), 10);
    assert_eq!(animations.get("idle").unwrap().frames()[0].sprite_index, 7);
    assert_eq!(animations.get("dance").unwrap().loop_start(), Some(0));
    assert!(animations.contains_key("waving"));

    let bad = vec![
        custom("a", vec![1], Some(1), None),
        custom("b", vec![], Some(1), None),
        custom("c", vec![99], Some(1), None),
    ];
    let error = load_animations(&bad, V1_ROWS, 72).unwrap_err();
    assert_eq!(error.name, "b");
    assert_eq!(error.problem, AnimationProblem::NoFrames);
}
