use terminal_sprite_pet::animation::{Animation, AnimationFrame};
use terminal_sprite_pet::catalog::idle_animation;
use terminal_sprite_pet::playback::{next_tick, Tick, IDLE_DELAY_NANOS};

const MS: u128 = 1_000_000;

#[test]
fn stops_at_the_limit() {
    let idle = idle_animation();
    assert_eq!(next_tick(&idle, 5 * MS, Some(5 * MS)), Tick::Stop);
    assert_eq!(next_tick(&idle, 0, None), Tick::Show { sprite_index: 0, sleep_nanos: 1680 * MS });
}

#[test]
fn never_sleeps_past_the_limit() {
    let idle = idle_animation();
    assert_eq!(next_tick(&idle, 0, Some(100 * MS)), Tick::Show { sprite_index: 0, sleep_nanos: 100 * MS });
    for elapsed in (0..10_000).step_by(97) {
        if let Tick::Show { sleep_nanos, .. } = next_tick(&idle, elapsed * MS, Some(7_000 * MS)) {
            assert!(elapsed * MS + sleep_nanos <= 7_000 * MS);
        }
    }
}

#[test]
fn waits_a_quarter_second_after_the_end() {
    let once = Animation::new(vec![AnimationFrame { sprite_index: 2, duration_nanos: MS }], None).unwrap();
    assert_eq!(next_tick(&once, 5 * MS, None), Tick::Show { sprite_index: 2, sleep_nanos: IDLE_DELAY_NANOS });
}
