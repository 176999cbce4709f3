//! The default animation states of a Codex pet, and the custom ones its manifest adds.

use vstd::prelude::*;
use crate::animation::{
    frame_at, lemma_loop_never_ends, lemma_play_once_ends, all_positive, animation_ok, fits_duration, lemma_total_bound, total_nanos, Animation,
    AnimationFrame, NANOS_PER_MILLI, NANOS_PER_SECOND,
};
use crate::animation_set::{AnimationSet, AnimationView};

verus! {

/// Width of one spritesheet cell, in pixels.
pub const FRAME_WIDTH: u32 = 192;

/// Height of one spritesheet cell, in pixels.
pub const FRAME_HEIGHT: u32 = 208;

/// Cells per spritesheet row.
pub const FRAME_COLUMNS: u32 = 8;

/// Rows of a version 1 spritesheet.
pub const V1_ROWS: u32 = 9;

/// Rows of a version 2 spritesheet, which adds the looking-around states.
pub const V2_ROWS: u32 = 11;

/// A frame of `millis` milliseconds showing spritesheet cell `sprite_index`.
pub open spec fn frame_ms(sprite_index: usize, millis: nat) -> AnimationFrame {
    AnimationFrame { sprite_index, duration_nanos: (millis * 1_000_000) as u128 }
}

/// The frames of the idle state: the first six cells of the spritesheet.
pub open spec fn idle_frames() -> Seq<AnimationFrame> {
    seq![
        frame_ms(0, 1680),
        frame_ms(1, 660),
        frame_ms(2, 660),
        frame_ms(3, 840),
        frame_ms(4, 840),
        frame_ms(5, 1920),
    ]
}

/// One pass through spritesheet row `row`: `count` cells of `millis` milliseconds each,
/// the last of which lasts `final_millis` instead.
pub open spec fn row_frames(row: nat, count: nat, millis: nat, final_millis: nat) -> Seq<AnimationFrame> {
    Seq::new(
        count,
        |c: int|
            frame_ms(
                (row * FRAME_COLUMNS + c) as usize,
                if c + 1 == count {
                    final_millis
                } else {
                    millis
                },
            ),
    )
}

/// A state animation: three passes through its row, then the idle frames, looping from
/// the idle frames on.
pub open spec fn state_view(row: nat, count: nat, millis: nat, final_millis: nat) -> AnimationView {
    let pass = row_frames(row, count, millis, final_millis);
    (pass + pass + pass + idle_frames(), Some((3 * count) as usize))
}

/// An animation of one cell held for a second, looping.
pub open spec fn single_view(sprite_index: usize) -> AnimationView {
    (seq![AnimationFrame { sprite_index, duration_nanos: 1_000_000_000 }], Some(0usize))
}

/// The looking-around states of a version 2 spritesheet and the cell each shows.
pub open spec fn look_states() -> Seq<(Seq<char>, usize)> {
    seq![
        ("look-up"@, 72usize),
        ("look-up-right"@, 74usize),
        ("look-right"@, 76usize),
        ("look-down-right"@, 78usize),
        ("look-down"@, 80usize),
        ("look-down-left"@, 82usize),
        ("look-left"@, 84usize),
        ("look-up-left"@, 86usize),
    ]
}

/// The default states of every pet.
pub open spec fn base_states() -> Map<Seq<char>, AnimationView> {
    Map::empty().insert("idle"@, (idle_frames(), Some(0usize))).insert(
        "running-right"@,
        state_view(1, 8, 120, 220),
    ).insert("running-left"@, state_view(2, 8, 120, 220)).insert(
        "waving"@,
        state_view(3, 4, 140, 280),
    ).insert("jumping"@, state_view(4, 5, 140, 280)).insert(
        "failed"@,
        state_view(5, 8, 140, 240),
    ).insert("waiting"@, state_view(6, 6, 150, 260)).insert(
        "running"@,
        state_view(7, 6, 120, 220),
    ).insert("review"@, state_view(8, 6, 150, 280))
}

/// The first `n` looking-around states added to `states`.
pub open spec fn with_look_states(states: Map<Seq<char>, AnimationView>, n: nat) -> Map<Seq<char>, AnimationView>
    decreases n,
{
    if n == 0 {
        states
    } else {
        let (name, cell) = look_states()[n - 1];
        with_look_states(states, (n - 1) as nat).insert(name, single_view(cell))
    }
}

/// The default states of a pet whose spritesheet has `rows` rows: the base states, and
/// on a version 2 spritesheet also the looking-around states.
pub open spec fn default_states(rows: u32) -> Map<Seq<char>, AnimationView> {
    if rows == V2_ROWS {
        with_look_states(base_states(), 8)
    } else {
        base_states()
    }
}

/// The idle animation: six frames of the first spritesheet row, looping.
pub fn idle_animation() -> (animation: Animation)
    ensures
        animation@ == (idle_frames(), Some(0usize)),
{
    let mut frames: Vec<AnimationFrame> = Vec::new();
    frames.push(AnimationFrame { sprite_index: 0, duration_nanos: 1680 * NANOS_PER_MILLI });
    frames.push(AnimationFrame { sprite_index: 1, duration_nanos: 660 * NANOS_PER_MILLI });
    frames.push(AnimationFrame { sprite_index: 2, duration_nanos: 660 * NANOS_PER_MILLI });
    frames.push(AnimationFrame { sprite_index: 3, duration_nanos: 840 * NANOS_PER_MILLI });
    frames.push(AnimationFrame { sprite_index: 4, duration_nanos: 840 * NANOS_PER_MILLI });
    frames.push(AnimationFrame { sprite_index: 5, duration_nanos: 1920 * NANOS_PER_MILLI });
    assert(frames@ =~= idle_frames());
    Animation::from_parts(frames, Some(0))
}

/// A state animation for spritesheet row `row`: three passes through its first `count`
/// cells, each shown `millis` milliseconds but the last shown `final_millis`, then the
/// idle animation; it loops from the idle frames on.
pub fn state_animation(row: usize, count: usize, millis: u64, final_millis: u64) -> (animation: Animation)
    requires
        count == 0 || row * FRAME_COLUMNS + count - 1 <= usize::MAX,
        3 * count <= usize::MAX,
    ensures
        animation@ == state_view(row as nat, count as nat, millis as nat, final_millis as nat),
{
    let ghost pass = row_frames(row as nat, count as nat, millis as nat, final_millis as nat);
    let mut primary: Vec<AnimationFrame> = Vec::new();
    let mut c: usize = 0;
    while c < count
        invariant
            c <= count,
            count == 0 || row * FRAME_COLUMNS + count - 1 <= usize::MAX,
            pass == row_frames(row as nat, count as nat, millis as nat, final_millis as nat),
            primary@ == pass.take(c as int),
        decreases count - c,
    {
        let ms: u64 = if c + 1 == count {
            final_millis
        } else {
            millis
        };
        primary.push(AnimationFrame { sprite_index: row * 8 + c, duration_nanos: ms as u128 * NANOS_PER_MILLI });
        c = c + 1;
        assert(primary@ =~= pass.take(c as int));
    }
    assert(primary@ =~= pass);
    let idle = idle_animation();
    let mut frames: Vec<AnimationFrame> = Vec::new();
    let mut k: usize = 0;
    while k < 3
        invariant
            k <= 3,
            primary@ == pass,
            frames@ == if k == 0 {
                Seq::<AnimationFrame>::empty()
            } else if k == 1 {
                pass
            } else if k == 2 {
                pass + pass
            } else {
                pass + pass + pass
            },
        decreases 3 - k,
    {
        let mut j: usize = 0;
        let ghost start = frames@;
        while j < primary.len()
            invariant
                j <= primary@.len(),
                frames@ == start + primary@.take(j as int),
            decreases primary@.len() - j,
        {
            frames.push(primary[j]);
            j = j + 1;
            assert(frames@ =~= start + primary@.take(j as int));
        }
        assert(primary@.take(j as int) =~= primary@);
        k = k + 1;
    }
    let idle_frames_vec = idle.frames();
    let ghost start = frames@;
    let mut j: usize = 0;
    while j < idle_frames_vec.len()
        invariant
            j <= idle_frames_vec@.len(),
            idle_frames_vec@ == idle_frames(),
            frames@ == start + idle_frames().take(j as int),
        decreases idle_frames_vec@.len() - j,
    {
        frames.push(idle_frames_vec[j]);
        j = j + 1;
        assert(frames@ =~= start + idle_frames().take(j as int));
    }
    assert(idle_frames().take(6) =~= idle_frames());
    assert(frames@ =~= pass + pass + pass + idle_frames());
    Animation::from_parts(frames, Some(3 * count))
}

/// An animation that holds one spritesheet cell for a second, looping.
pub fn single_frame_animation(sprite_index: usize) -> (animation: Animation)
    ensures
        animation@ == single_view(sprite_index),
{
    let mut frames: Vec<AnimationFrame> = Vec::new();
    frames.push(AnimationFrame { sprite_index, duration_nanos: NANOS_PER_SECOND });
    assert(frames@ =~= single_view(sprite_index).0);
    assert(frames@.drop_last() =~= Seq::<AnimationFrame>::empty());
    assert(crate::animation::total_nanos(Seq::<AnimationFrame>::empty()) == 0);
    Animation::from_parts(frames, Some(0))
}

/// The default animation states of a pet whose spritesheet has `rows` rows.
pub fn default_animations(rows: u32) -> (animations: AnimationSet)
    ensures
        animations@ == default_states(rows),
{
    let mut animations = AnimationSet::new();
    animations.insert("idle".to_owned(), idle_animation());
    animations.insert("running-right".to_owned(), state_animation(1, 8, 120, 220));
    animations.insert("running-left".to_owned(), state_animation(2, 8, 120, 220));
    animations.insert("waving".to_owned(), state_animation(3, 4, 140, 280));
    animations.insert("jumping".to_owned(), state_animation(4, 5, 140, 280));
    animations.insert("failed".to_owned(), state_animation(5, 8, 140, 240));
    animations.insert("waiting".to_owned(), state_animation(6, 6, 150, 260));
    animations.insert("running".to_owned(), state_animation(7, 6, 120, 220));
    animations.insert("review".to_owned(), state_animation(8, 6, 150, 280));
    assert(animations@ == base_states());
    if rows == V2_ROWS {
        animations.insert("look-up".to_owned(), single_frame_animation(72));
        animations.insert("look-up-right".to_owned(), single_frame_animation(74));
        animations.insert("look-right".to_owned(), single_frame_animation(76));
        animations.insert("look-down-right".to_owned(), single_frame_animation(78));
        animations.insert("look-down".to_owned(), single_frame_animation(80));
        animations.insert("look-down-left".to_owned(), single_frame_animation(82));
        animations.insert("look-left".to_owned(), single_frame_animation(84));
        animations.insert("look-up-left".to_owned(), single_frame_animation(86));
        proof {
            reveal_with_fuel(with_look_states, 9);
        }
    }
    animations
}

/// An animation state that a pet manifest defines.
#[derive(Debug)]
pub struct CustomAnimation {
    /// The state's name.
    pub name: String,
    /// The spritesheet cells to show, in order.
    pub frames: Vec<usize>,
    /// How long each frame lasts, in nanoseconds: one second divided by the frame rate;
    /// `None` when the frame rate is not a finite number above 0 and at most 60.
    pub frame_nanos: Option<u128>,
    /// Whether the animation loops; it does unless this says otherwise.
    pub loop_animation: Option<bool>,
}

/// A custom animation state as values: its name, cells, frame duration and loop flag.
pub type CustomView = (Seq<char>, Seq<usize>, Option<u128>, Option<bool>);

/// The value of a custom animation state.
pub open spec fn custom_view(custom: CustomAnimation) -> CustomView {
    (custom.name@, custom.frames@, custom.frame_nanos, custom.loop_animation)
}

/// What is wrong with a custom animation state.
#[derive(Clone, Copy, Debug, PartialEq, Eq)]
pub enum AnimationProblem {
    /// It has no frames.
    NoFrames,
    /// One of its frames is not a cell of the spritesheet.
    FrameOutOfRange,
    /// Its frame rate is not finite, or not above 0 and at most 60.
    InvalidFps,
}

/// A custom animation state that cannot be used, and why.
#[derive(Debug, PartialEq, Eq)]
pub struct AnimationError {
    pub name: String,
    pub problem: AnimationProblem,
}

/// What is wrong with a custom animation of these cells and frame duration, on a
/// spritesheet of `frame_count` cells; the first problem found, in the order listed.
pub open spec fn custom_problem(frames: Seq<usize>, frame_count: nat, frame_nanos: Option<u128>) -> Option<AnimationProblem> {
    if frames.len() == 0 {
        Some(AnimationProblem::NoFrames)
    } else if exists|i: int| 0 <= i < frames.len() && #[trigger] frames[i] >= frame_count {
        Some(AnimationProblem::FrameOutOfRange)
    } else if frame_nanos is None {
        Some(AnimationProblem::InvalidFps)
    } else {
        None
    }
}

/// The animation of these cells, each lasting `nanos` nanoseconds, looping from its
/// first frame unless `loop_animation` is `Some(false)`.
pub open spec fn custom_animation_view(frames: Seq<usize>, nanos: u128, loop_animation: Option<bool>) -> AnimationView {
    (
        frames.map_values(|i: usize| AnimationFrame { sprite_index: i, duration_nanos: nanos }),
        if loop_animation == Some(false) {
            None
        } else {
            Some(0usize)
        },
    )
}

/// The states after the default states of a `rows`-row spritesheet and the first `n`
/// custom states, each custom state replacing any state of its name; or the position and
/// problem of the first custom state that cannot be used.
pub open spec fn loaded_states(customs: Seq<CustomView>, rows: u32, frame_count: nat, n: nat) -> Result<Map<Seq<char>, AnimationView>, (int, AnimationProblem)>
    decreases n,
{
    if n == 0 {
        Ok(default_states(rows))
    } else {
        match loaded_states(customs, rows, frame_count, (n - 1) as nat) {
            Err(e) => Err(e),
            Ok(states) => {
                let (name, frames, nanos, looping) = customs[n - 1];
                match custom_problem(frames, frame_count, nanos) {
                    Some(problem) => Err(((n - 1) as int, problem)),
                    None => Ok(states.insert(name, custom_animation_view(frames, nanos->0, looping))),
                }
            },
        }
    }
}

/// The animation a manifest defines with these cells, frame duration and loop flag, on a
/// spritesheet of `frame_count` cells, or what is wrong with it.
pub fn custom_animation(frames: &Vec<usize>, frame_count: usize, frame_nanos: Option<u128>, loop_animation: Option<bool>) -> (result: Result<Animation, AnimationProblem>)
    ensures
        match custom_problem(frames@, frame_count as nat, frame_nanos) {
            Some(problem) => result == Err::<Animation, AnimationProblem>(problem),
            None => result matches Ok(a) && a@ == custom_animation_view(frames@, frame_nanos->0, loop_animation),
        },
{
    if frames.len() == 0 {
        return Err(AnimationProblem::NoFrames);
    }
    let mut i: usize = 0;
    while i < frames.len()
        invariant
            i <= frames@.len(),
            forall|k: int| 0 <= k < i ==> #[trigger] frames@[k] < frame_count,
        decreases frames@.len() - i,
    {
        if frames[i] >= frame_count {
            return Err(AnimationProblem::FrameOutOfRange);
        }
        i = i + 1;
    }
    let nanos = match frame_nanos {
        Some(nanos) => nanos,
        None => {
            return Err(AnimationProblem::InvalidFps);
        },
    };
    let mut built: Vec<AnimationFrame> = Vec::new();
    let mut j: usize = 0;
    let ghost view = custom_animation_view(frames@, nanos, loop_animation);
    while j < frames.len()
        invariant
            j <= frames@.len(),
            view == custom_animation_view(frames@, nanos, loop_animation),
            built@ == view.0.take(j as int),
        decreases frames@.len() - j,
    {
        built.push(AnimationFrame { sprite_index: frames[j], duration_nanos: nanos });
        j = j + 1;
        assert(built@ =~= view.0.take(j as int));
    }
    assert(built@ =~= view.0);
    let loop_start: Option<usize> = match loop_animation {
        Some(false) => None,
        _ => Some(0),
    };
    Ok(Animation::from_parts(built, loop_start))
}

/// The animation states of a pet: the defaults for a spritesheet of `rows` rows, then
/// each custom state in order, replacing any state of its name; fails on the first
/// custom state that cannot be used on a spritesheet of `frame_count` cells.
pub fn load_animations(customs: &Vec<CustomAnimation>, rows: u32, frame_count: usize) -> (result: Result<AnimationSet, AnimationError>)
    ensures
        match loaded_states(customs@.map_values(|c: CustomAnimation| custom_view(c)), rows, frame_count as nat, customs@.len()) {
            Ok(states) => result matches Ok(set) && set@ == states,
            Err((k, problem)) => result matches Err(e) && e.name@ == customs@[k].name@ && e.problem == problem,
        },
{
    let ghost views = customs@.map_values(|c: CustomAnimation| custom_view(c));
    let mut animations = default_animations(rows);
    let mut i: usize = 0;
    while i < customs.len()
        invariant
            i <= customs@.len(),
            views == customs@.map_values(|c: CustomAnimation| custom_view(c)),
            loaded_states(views, rows, frame_count as nat, i as nat) == Ok::<Map<Seq<char>, AnimationView>, (int, AnimationProblem)>(animations@),
        decreases customs@.len() - i,
    {
        let custom = &customs[i];
        assert(views[i as int] == custom_view(*custom));
        match custom_animation(&custom.frames, frame_count, custom.frame_nanos, custom.loop_animation) {
            Ok(animation) => {
                animations.insert(custom.name.clone(), animation);
            },
            Err(problem) => {
                proof {
                    lemma_loaded_error_sticks(views, rows, frame_count as nat, (i + 1) as nat, customs@.len());
                }
                return Err(AnimationError { name: custom.name.clone(), problem });
            },
        }
        i = i + 1;
    }
    Ok(animations)
}

/// Once a custom state fails, loading more custom states fails the same way.
pub proof fn lemma_loaded_error_sticks(customs: Seq<CustomView>, rows: u32, frame_count: nat, n: nat, m: nat)
    requires
        n <= m,
        loaded_states(customs, rows, frame_count, n) is Err,
    ensures
        loaded_states(customs, rows, frame_count, m) == loaded_states(customs, rows, frame_count, n),
    decreases m - n,
{
    if n < m {
        lemma_loaded_error_sticks(customs, rows, frame_count, n, (m - 1) as nat);
    }
}

/// Custom states never take a default state away: every default state is still a
/// state once any custom states have loaded.
pub proof fn lemma_defaults_kept(customs: Seq<CustomView>, rows: u32, frame_count: nat, n: nat)
    ensures
        loaded_states(customs, rows, frame_count, n) matches Ok(states) ==> default_states(rows).dom().subset_of(
            states.dom(),
        ),
    decreases n,
{
    if n > 0 {
        lemma_defaults_kept(customs, rows, frame_count, (n - 1) as nat);
    }
}

/// The idle frames are valid, all last a while, loop, and can be played.
proof fn lemma_idle_keeps_playing()
    ensures
        animation_ok(idle_frames(), Some(0usize)),
        all_positive(idle_frames()),
        total_nanos(idle_frames()) > 0,
        fits_duration(idle_frames()),
{
    reveal_with_fuel(total_nanos, 7);
    assert(idle_frames().drop_last().drop_last().drop_last().drop_last().drop_last().drop_last() =~= Seq::<AnimationFrame>::empty());
}

/// A state animation of a row with frames that last a while is valid, all its frames
/// last a while, its loop, the idle frames, is not empty, and it can be played.
proof fn lemma_state_keeps_playing(row: nat, count: nat, millis: nat, final_millis: nat)
    requires
        1 <= row <= 8,
        1 <= count <= 8,
        1 <= millis <= 1000,
        1 <= final_millis <= 1000,
    ensures
        animation_ok(state_view(row, count, millis, final_millis).0, state_view(row, count, millis, final_millis).1),
        all_positive(state_view(row, count, millis, final_millis).0),
        total_nanos(state_view(row, count, millis, final_millis).0.skip((3 * count) as int)) > 0,
        fits_duration(state_view(row, count, millis, final_millis).0),
{
    lemma_idle_keeps_playing();
    let pass = row_frames(row, count, millis, final_millis);
    let frames = state_view(row, count, millis, final_millis).0;
    assert(frames.skip((3 * count) as int) =~= idle_frames());
    assert forall|i: int| 0 <= i < frames.len() implies #[trigger] frames[i].duration_nanos <= 1920 * 1_000_000
        && frames[i].duration_nanos > 0 by {
        let n = count as int;
        if i < n {
            assert(frames[i] == pass[i]);
        } else if i < 2 * n {
            assert(frames[i] == pass[i - n]);
        } else if i < 3 * n {
            assert(frames[i] == pass[i - 2 * n]);
        } else {
            assert(frames[i] == idle_frames()[i - 3 * n]);
        }
    }
    lemma_total_bound(frames, 1920 * 1_000_000);
}

/// A single-cell animation is valid, its frame lasts a while, it loops, and it can be
/// played.
proof fn lemma_single_keeps_playing(sprite_index: usize)
    ensures
        animation_ok(single_view(sprite_index).0, single_view(sprite_index).1),
        all_positive(single_view(sprite_index).0),
        total_nanos(single_view(sprite_index).0.skip(0)) > 0,
        fits_duration(single_view(sprite_index).0),
{
    let frames = single_view(sprite_index).0;
    assert(frames.skip(0) =~= frames);
    assert(frames.drop_last() =~= Seq::<AnimationFrame>::empty());
    assert(total_nanos(Seq::<AnimationFrame>::empty()) == 0);
    assert(total_nanos(frames) == 1_000_000_000);
}

/// Every default state can be played and loops, over frames that all last a while: by
/// `lemma_loop_never_ends` a default state never runs out of frames.
pub proof fn lemma_default_states_keep_playing(rows: u32, name: Seq<char>)
    requires
        default_states(rows).dom().contains(name),
    ensures
        ({
            let (frames, loop_start) = default_states(rows)[name];
            &&& animation_ok(frames, loop_start)
            &&& all_positive(frames)
            &&& loop_start is Some
            &&& total_nanos(frames.skip(loop_start->0 as int)) > 0
            &&& fits_duration(frames)
        }),
{
    lemma_idle_keeps_playing();
    assert(idle_frames().skip(0) =~= idle_frames());
    lemma_state_keeps_playing(1, 8, 120, 220);
    lemma_state_keeps_playing(2, 8, 120, 220);
    lemma_state_keeps_playing(3, 4, 140, 280);
    lemma_state_keeps_playing(4, 5, 140, 280);
    lemma_state_keeps_playing(5, 8, 140, 240);
    lemma_state_keeps_playing(6, 6, 150, 260);
    lemma_state_keeps_playing(7, 6, 120, 220);
    lemma_state_keeps_playing(8, 6, 150, 280);
    lemma_single_keeps_playing(72);
    lemma_single_keeps_playing(74);
    lemma_single_keeps_playing(76);
    lemma_single_keeps_playing(78);
    lemma_single_keeps_playing(80);
    lemma_single_keeps_playing(82);
    lemma_single_keeps_playing(84);
    lemma_single_keeps_playing(86);
    reveal_with_fuel(with_look_states, 9);
}


/// A custom state shows its cells in order, each for the frame duration. Unless its
/// manifest says `loop: false`, it plays over again from its first frame for ever: what
/// it shows depends only on the time since the last full pass began, and a next frame is
/// always due. With `loop: false` it plays once and then stays on its last cell, with no
/// next frame due.
pub proof fn lemma_custom_state_loops(frames: Seq<usize>, nanos: u128, loop_animation: Option<bool>, elapsed: nat)
    requires
        frames.len() > 0,
        nanos > 0,
    ensures
        ({
            let (shown, loop_start) = custom_animation_view(frames, nanos, loop_animation);
            &&& shown.len() == frames.len()
            &&& forall|i: int| 0 <= i < frames.len() ==> #[trigger] shown[i] == AnimationFrame {
                sprite_index: frames[i],
                duration_nanos: nanos,
            }
            &&& total_nanos(shown) > 0
            &&& loop_animation != Some(false) ==> {
                &&& frame_at(shown, loop_start, elapsed) == frame_at(shown, loop_start, elapsed % total_nanos(shown))
                &&& frame_at(shown, loop_start, elapsed).1 is Some
            }
            &&& loop_animation == Some(false) && elapsed >= total_nanos(shown) ==> frame_at(
                shown,
                loop_start,
                elapsed,
            ) == (frames.len() - 1, None::<nat>)
        }),
{
    let (shown, loop_start) = custom_animation_view(frames, nanos, loop_animation);
    assert(all_positive(shown));
    assert(total_nanos(shown) >= shown.last().duration_nanos);
    let total = total_nanos(shown);
    if loop_animation != Some(false) {
        assert(shown.take(0) =~= Seq::<AnimationFrame>::empty());
        assert(shown.skip(0) =~= shown);
        assert(total_nanos(Seq::<AnimationFrame>::empty()) == 0);
        lemma_loop_never_ends(shown, loop_start, elapsed);
        if elapsed < total {
            assert(elapsed % total == elapsed) by (nonlinear_arith)
                requires elapsed < total;
        } else {
            assert(elapsed % total < total) by (nonlinear_arith)
                requires total > 0;
        }
    } else if elapsed >= total {
        lemma_play_once_ends(shown, elapsed);
    }
}

} // verus!
