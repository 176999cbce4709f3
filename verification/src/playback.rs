//! The decisions of the playback loop: when to stop, which frame to draw, how long to
//! wait before the next one.

use vstd::prelude::*;
use crate::animation::{fits_duration, frame_at, Animation, AnimationFrame};

verus! {

/// How long to wait when the animation has no next frame due, in nanoseconds.
pub const IDLE_DELAY_NANOS: u128 = 250_000_000;

/// What the playback loop does next.
#[derive(Clone, Copy, Debug, PartialEq, Eq)]
pub enum Tick {
    /// The time limit is reached: clear the pet and stop.
    Stop,
    /// Draw a spritesheet cell, then sleep.
    Show { sprite_index: usize, sleep_nanos: u128 },
}

/// What the playback loop does `elapsed` nanoseconds after it started, under an optional
/// time limit: stop once the limit is reached; else draw the frame on screen and sleep
/// until the next frame is due (a quarter second when none is), but not past the limit.
pub open spec fn tick_at(animation: (Seq<crate::animation::AnimationFrame>, Option<usize>), elapsed: nat, limit: Option<u128>) -> Tick {
    match limit {
        Some(l) if elapsed >= l => Tick::Stop,
        _ => {
            let (index, next) = frame_at(animation.0, animation.1, elapsed);
            let delay: nat = match next {
                Some(d) => d,
                None => IDLE_DELAY_NANOS as nat,
            };
            let sleep: nat = match limit {
                Some(l) => if delay < l - elapsed {
                    delay
                } else {
                    (l - elapsed) as nat
                },
                None => delay,
            };
            Tick::Show { sprite_index: animation.0[index].sprite_index, sleep_nanos: sleep as u128 }
        },
    }
}

/// What the playback loop does `elapsed` nanoseconds after it started.
pub fn next_tick(animation: &Animation, elapsed: u128, limit: Option<u128>) -> (tick: Tick)
    requires
        fits_duration(animation@.0),
    ensures
        tick == tick_at(animation@, elapsed as nat, limit),
        limit is Some ==> (tick matches Tick::Show { sleep_nanos, .. } ==> elapsed + sleep_nanos
            <= limit->0),
{
    if let Some(l) = limit {
        if elapsed >= l {
            return Tick::Stop;
        }
    }
    let (frame, next) = animation.current_frame(elapsed);
    let delay: u128 = match next {
        Some(d) => d,
        None => IDLE_DELAY_NANOS,
    };
    let sleep: u128 = match limit {
        Some(l) => if delay < l - elapsed {
            delay
        } else {
            l - elapsed
        },
        None => delay,
    };
    Tick::Show { sprite_index: frame.sprite_index, sleep_nanos: sleep }
}


/// Each step of the playback loop stops exactly once the time limit is reached; otherwise
/// it draws the frame on screen at that moment and sleeps until the next frame is due (a
/// quarter second when none is), but never past the limit: the sleep is the shorter of
/// the two.
pub proof fn lemma_tick_sleeps_until_next_frame(
    animation: (Seq<AnimationFrame>, Option<usize>),
    elapsed: nat,
    limit: Option<u128>,
)
    ensures
        (tick_at(animation, elapsed, limit) is Stop) <==> (limit matches Some(l) && elapsed >= l),
        tick_at(animation, elapsed, limit) matches Tick::Show { sprite_index, sleep_nanos } ==> {
            let (index, next) = frame_at(animation.0, animation.1, elapsed);
            let delay: nat = match next {
                Some(d) => d,
                None => 250_000_000,
            };
            &&& sprite_index == animation.0[index].sprite_index
            &&& sleep_nanos <= delay
            &&& limit is None ==> sleep_nanos == delay
            &&& limit matches Some(l) ==> {
                &&& elapsed < l
                &&& elapsed + sleep_nanos <= l
                &&& (sleep_nanos == delay || elapsed + sleep_nanos == l)
            }
        },
{
    let next = frame_at(animation.0, animation.1, elapsed).1;
    match next {
        Some(d) => {
            assert(d <= u64::MAX);
        },
        None => {},
    }
}

} // verus!
