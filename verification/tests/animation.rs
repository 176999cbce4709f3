use terminal_sprite_pet::animation::{duration_from_nanos, Animation, AnimationFrame};
use terminal_sprite_pet::catalog::idle_animation;

const MS: u128 = 1_000_000;

fn frame(sprite_index: usize, millis: u128) -> AnimationFrame {
    AnimationFrame { sprite_index, duration_nanos: millis * MS }
}

#[test]
fn shows_frames_in_turn() {
    let idle = idle_animation();
    let (f, next) = idle.current_frame(0);
    assert_eq!((f.sprite_index, next), (0, Some(1680 * MS)));
    let (f, next) = idle.current_frame(1680 * MS);
    assert_eq!((f.sprite_index, next), (1, Some(660 * MS)));
    let (f, next) = idle.current_frame(1700 * MS);
    assert_eq!((f.sprite_index, next), (1, Some(640 * MS)));
}

#[test]
fn totals_the_frame_durations() {
    assert_eq!(idle_animation().total_duration(), 6600 * MS);
}

#[test]
fn a_looping_animation_repeats_its_loop() {
    let animation = Animation::new(vec![frame(0, 100), frame(1, 200), frame(2, 300)], Some(1)).unwrap();
    // Total 600 ms; the loop is frames 1 and 2, 500 ms long.
    let at = |ms: u128| {
        let (f, next) = animation.current_frame(ms * MS);
        (f.sprite_index, next)
    };
    assert_eq!(at(50), (0, Some(50 * MS)));
    assert_eq!(at(650), (1, Some(150 * MS)));
    assert_eq!(at(650 + 500), at(650));
    assert_eq!(at(900), (2, Some(200 * MS)));
    for ms in (600..3000).step_by(37) {
        assert!(at(ms).0 >= 1);
        assert!(at(ms).1.is_some());
        assert_eq!(at(ms + 500), at(ms));
    }
}

#[test]
fn an_animation_played_once_stays_on_its_last_frame() {
    let animation = Animation::new(vec![frame(4, 100), frame(5, 100)], None).unwrap();
    let (f, next) = animation.current_frame(150 * MS);
    assert_eq!((f.sprite_index, next), (5, Some(50 * MS)));
    let (f, next) = animation.current_frame(200 * MS);
    assert_eq!((f.sprite_index, next), (5, None));
    let (f, next) = animation.current_frame(10_000 * MS);
    assert_eq!((f.sprite_index, next), (5, None));
}

#[test]
fn a_frame_without_duration_lasts_a_nanosecond() {
    let animation = Animation::new(vec![frame(0, 0), frame(1, 1)], None).unwrap();
    let (f, next) = animation.current_frame(0);
    assert_eq!((f.sprite_index, next), (0, Some(1)));
    let (f, next) = animation.current_frame(1);
    assert_eq!((f.sprite_index, next), (1, Some(MS)));
}

#[test]
fn a_loop_without_duration_plays_once() {
    let animation = Animation::new(vec![frame(0, 10), frame(1, 0)], Some(1)).unwrap();
    let (f, next) = animation.current_frame(20 * MS);
    assert_eq!((f.sprite_index, next), (1, None));
}

#[test]
fn rejects_invalid_animations() {
    assert!(Animation::new(vec![], Some(0)).is_none());
    assert!(Animation::new(vec![frame(0, 10)], Some(2)).is_none());
    assert!(Animation::new(vec![frame(0, 10)], Some(1)).is_some());
}

#[test]
fn only_animations_of_representable_length_can_be_played() {
    let huge = AnimationFrame { sprite_index: 0, duration_nanos: u128::MAX / 2 };
    let animation = Animation::new(vec![huge], None).unwrap();
    assert!(!animation.playable());
    let max = AnimationFrame { sprite_index: 0, duration_nanos: 18_446_744_073_709_551_615_999_999_999 };
    assert!(Animation::new(vec![max], None).unwrap().playable());
    let one = AnimationFrame { sprite_index: 0, duration_nanos: 1 };
    assert!(!Animation::new(vec![max, one], None).unwrap().playable());
}

#[test]
fn caps_delays_at_u64_nanoseconds() {
    assert_eq!(duration_from_nanos(5), 5);
    assert_eq!(duration_from_nanos(u64::MAX as u128 + 1), u64::MAX as u128);
    let long = AnimationFrame { sprite_index: 3, duration_nanos: u64::MAX as u128 * 4 };
    let animation = Animation::new(vec![long], None).unwrap();
    assert_eq!(animation.current_frame(0).1, Some(u64::MAX as u128));
}
