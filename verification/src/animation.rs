//! Sprite animations: frames with durations, looping, and which frame to show when.

use vstd::prelude::*;

verus! {

/// Nanoseconds in one millisecond.
pub const NANOS_PER_MILLI: u128 = 1_000_000;

/// Nanoseconds in one second.
pub const NANOS_PER_SECOND: u128 = 1_000_000_000;

/// The longest time span that can be represented: `u64::MAX` seconds and 999999999
/// nanoseconds.
pub const MAX_DURATION_NANOS: u128 = 18_446_744_073_709_551_615_999_999_999;

/// One frame of an animation: a cell of the spritesheet and how long it stays on
/// screen, in nanoseconds.
#[derive(Clone, Copy, Debug, PartialEq, Eq)]
pub struct AnimationFrame {
    pub sprite_index: usize,
    pub duration_nanos: u128,
}

/// The total duration of a list of frames, in nanoseconds.
pub open spec fn total_nanos(frames: Seq<AnimationFrame>) -> nat
    decreases frames.len(),
{
    if frames.len() == 0 {
        0
    } else {
        total_nanos(frames.drop_last()) + frames.last().duration_nanos as nat
    }
}

/// How long a frame holds the screen while the animation is walked: its duration, but
/// at least one nanosecond.
pub open spec fn slot_nanos(frame: AnimationFrame) -> nat {
    if frame.duration_nanos == 0 {
        1
    } else {
        frame.duration_nanos as nat
    }
}

/// The frame, from frame `i` on, that is on screen `remaining` nanoseconds after
/// frame `i` began, and the nanoseconds until it ends; `None` when the frames from
/// `i` on are over by then.
pub open spec fn locate_from(frames: Seq<AnimationFrame>, i: int, remaining: nat) -> Option<(int, nat)>
    decreases frames.len() - i,
{
    if i < 0 || i >= frames.len() {
        None
    } else {
        let slot = slot_nanos(frames[i]);
        if remaining < slot {
            Some((i, (slot - remaining) as nat))
        } else {
            locate_from(frames, i + 1, (remaining - slot) as nat)
        }
    }
}

/// Where in the frames the animation stands after `elapsed` nanoseconds: the elapsed
/// time itself, or, once a looping animation has played through, the start of its loop
/// plus the time elapsed since then modulo the length of the loop.
pub open spec fn effective_elapsed(frames: Seq<AnimationFrame>, loop_start: Option<usize>, elapsed: nat) -> nat {
    match loop_start {
        Some(start) => {
            let prefix = total_nanos(frames.take(start as int));
            let looped = total_nanos(frames.skip(start as int));
            if elapsed >= total_nanos(frames) && looped > 0 {
                prefix + (elapsed - prefix) as nat % looped
            } else {
                elapsed
            }
        },
        None => elapsed,
    }
}

/// A time span in nanoseconds, capped at `u64::MAX` nanoseconds.
pub open spec fn capped_nanos(nanos: nat) -> nat {
    if nanos > u64::MAX {
        u64::MAX as nat
    } else {
        nanos
    }
}

/// The frame on screen `elapsed` nanoseconds after the animation started, and how long
/// until the next frame is due (capped at `u64::MAX` nanoseconds); once an animation
/// that does not loop has played through, its last frame and no delay.
pub open spec fn frame_at(frames: Seq<AnimationFrame>, loop_start: Option<usize>, elapsed: nat) -> (int, Option<nat>) {
    match locate_from(frames, 0, effective_elapsed(frames, loop_start, elapsed)) {
        Some((i, left)) => (i, Some(capped_nanos(left))),
        None => (frames.len() - 1, None),
    }
}

/// What every animation satisfies: it has frames, and its loop starts within them.
pub open spec fn animation_ok(frames: Seq<AnimationFrame>, loop_start: Option<usize>) -> bool {
    &&& frames.len() > 0
    &&& match loop_start {
        Some(start) => start <= frames.len(),
        None => true,
    }
}

/// The total duration of the frames can be represented as a time span, so that the
/// animation can be played.
pub open spec fn fits_duration(frames: Seq<AnimationFrame>) -> bool {
    total_nanos(frames) <= MAX_DURATION_NANOS
}

/// Every frame lasts at least one nanosecond.
pub open spec fn all_positive(frames: Seq<AnimationFrame>) -> bool {
    forall|i: int| 0 <= i < frames.len() ==> #[trigger] frames[i].duration_nanos > 0
}

/// The total duration splits at any frame.
pub proof fn lemma_total_split(frames: Seq<AnimationFrame>, k: int)
    requires
        0 <= k <= frames.len(),
    ensures
        total_nanos(frames) == total_nanos(frames.take(k)) + total_nanos(frames.skip(k)),
    decreases frames.len(),
{
    if k == frames.len() {
        assert(frames.take(k) =~= frames);
        assert(frames.skip(k) =~= Seq::<AnimationFrame>::empty());
    } else {
        let rest = frames.drop_last();
        lemma_total_split(rest, k);
        assert(rest.take(k) =~= frames.take(k));
        assert(frames.skip(k).drop_last() =~= rest.skip(k));
    }
}

/// The duration of any run of consecutive frames is at most the total duration.
pub proof fn lemma_total_range(frames: Seq<AnimationFrame>, lo: int, hi: int)
    requires
        0 <= lo <= hi <= frames.len(),
    ensures
        total_nanos(frames.subrange(lo, hi)) <= total_nanos(frames),
        total_nanos(frames.subrange(lo, hi)) == total_nanos(frames.subrange(lo, hi - 1)) + (if hi > lo {
            frames[hi - 1].duration_nanos as nat
        } else {
            0
        }) || hi == lo,
{
    lemma_total_split(frames, lo);
    let tail = frames.skip(lo);
    lemma_total_split(tail, hi - lo);
    assert(tail.take(hi - lo) =~= frames.subrange(lo, hi));
    if hi > lo {
        assert(frames.subrange(lo, hi).drop_last() =~= frames.subrange(lo, hi - 1));
    }
}

/// A located frame lies at or after the frame the walk started from, within the
/// frames, and is on screen for at least one more nanosecond.
pub proof fn lemma_locate_range(frames: Seq<AnimationFrame>, i: int, remaining: nat)
    ensures
        locate_from(frames, i, remaining) matches Some((j, left)) ==> i <= j < frames.len()
            && left >= 1,
    decreases frames.len() - i,
{
    if 0 <= i < frames.len() && remaining >= slot_nanos(frames[i]) {
        lemma_locate_range(frames, i + 1, (remaining - slot_nanos(frames[i])) as nat);
    }
}

/// The duration of a run of frames is its first frame's duration plus that of the rest.
pub proof fn lemma_total_front(frames: Seq<AnimationFrame>, i: int, k: int)
    requires
        0 <= i < k <= frames.len(),
    ensures
        total_nanos(frames.subrange(i, k)) == frames[i].duration_nanos + total_nanos(
            frames.subrange(i + 1, k),
        ),
{
    let run = frames.subrange(i, k);
    lemma_total_split(run, 1);
    assert(run.take(1).drop_last() =~= Seq::<AnimationFrame>::empty());
    assert(total_nanos(Seq::<AnimationFrame>::empty()) == 0);
    assert(total_nanos(run.take(1)) == run[0].duration_nanos);
    assert(run.skip(1) =~= frames.subrange(i + 1, k));
}

/// With positive durations, walking from frame `i` past frames `i` up to `k` uses up
/// exactly their duration.
pub proof fn lemma_locate_skip(frames: Seq<AnimationFrame>, i: int, k: int, remaining: nat)
    requires
        all_positive(frames),
        0 <= i <= k <= frames.len(),
    ensures
        locate_from(frames, i, total_nanos(frames.subrange(i, k)) + remaining) == locate_from(
            frames,
            k,
            remaining,
        ),
    decreases k - i,
{
    if i == k {
        assert(frames.subrange(i, k) =~= Seq::<AnimationFrame>::empty());
    } else {
        lemma_total_front(frames, i, k);
        assert(frames[i].duration_nanos > 0);
        lemma_locate_skip(frames, i + 1, k, remaining);
    }
}

/// With positive durations, the walk from frame `i` finds a frame exactly when less
/// time than the remaining frames last has passed.
pub proof fn lemma_locate_some(frames: Seq<AnimationFrame>, i: int, remaining: nat)
    requires
        all_positive(frames),
        0 <= i <= frames.len(),
    ensures
        locate_from(frames, i, remaining) is Some <==> remaining < total_nanos(frames.skip(i)),
    decreases frames.len() - i,
{
    if i == frames.len() {
        assert(frames.skip(i) =~= Seq::<AnimationFrame>::empty());
    } else {
        lemma_total_front(frames, i, frames.len() as int);
        assert(frames[i].duration_nanos > 0);
        assert(frames.skip(i + 1) =~= frames.subrange(i + 1, frames.len() as int));
        if remaining >= frames[i].duration_nanos {
            lemma_locate_some(frames, i + 1, (remaining - frames[i].duration_nanos) as nat);
        }
    }
}

/// The frame shown is always one of the animation's frames, and a delay, when there is
/// one, is at least one nanosecond.
pub proof fn lemma_frame_in_range(frames: Seq<AnimationFrame>, loop_start: Option<usize>, elapsed: nat)
    requires
        animation_ok(frames, loop_start),
    ensures
        0 <= frame_at(frames, loop_start, elapsed).0 < frames.len(),
        frame_at(frames, loop_start, elapsed).1 matches Some(delay) ==> delay >= 1,
{
    lemma_locate_range(frames, 0, effective_elapsed(frames, loop_start, elapsed));
}

/// Once a looping animation has played through, what it shows repeats with the length
/// of its loop: the frame and the delay at `elapsed` and at `elapsed` plus one loop are
/// the same.
pub proof fn lemma_loop_repeats(frames: Seq<AnimationFrame>, loop_start: Option<usize>, elapsed: nat)
    requires
        animation_ok(frames, loop_start),
        loop_start is Some,
        total_nanos(frames.skip(loop_start->0 as int)) > 0,
        elapsed >= total_nanos(frames),
    ensures
        frame_at(frames, loop_start, elapsed + total_nanos(frames.skip(loop_start->0 as int)))
            == frame_at(frames, loop_start, elapsed),
{
    let start = loop_start->0 as int;
    let looped = total_nanos(frames.skip(start));
    let prefix = total_nanos(frames.take(start));
    lemma_total_split(frames, start);
    vstd::arithmetic::div_mod::lemma_mod_add_multiples_vanish((elapsed - prefix) as int, looped as int);
    assert(effective_elapsed(frames, loop_start, elapsed + looped) == effective_elapsed(
        frames,
        loop_start,
        elapsed,
    ));
}

/// A looping animation whose frames all last a while never runs out: there is always
/// a next frame due.
pub proof fn lemma_loop_never_ends(frames: Seq<AnimationFrame>, loop_start: Option<usize>, elapsed: nat)
    requires
        animation_ok(frames, loop_start),
        all_positive(frames),
        loop_start is Some,
        total_nanos(frames.skip(loop_start->0 as int)) > 0,
    ensures
        frame_at(frames, loop_start, elapsed).1 is Some,
{
    let start = loop_start->0 as int;
    let looped = total_nanos(frames.skip(start));
    let prefix = total_nanos(frames.take(start));
    lemma_total_split(frames, start);
    if elapsed >= total_nanos(frames) {
        vstd::arithmetic::div_mod::lemma_mod_pos_bound((elapsed - prefix) as int, looped as int);
    }
    assert(effective_elapsed(frames, loop_start, elapsed) < total_nanos(frames));
    assert(frames.skip(0) =~= frames);
    lemma_locate_some(frames, 0, effective_elapsed(frames, loop_start, elapsed));
}

/// Once a looping animation whose frames all last a while has played through, it only
/// shows frames of its loop.
pub proof fn lemma_loop_stays_in_loop(frames: Seq<AnimationFrame>, loop_start: Option<usize>, elapsed: nat)
    requires
        animation_ok(frames, loop_start),
        all_positive(frames),
        loop_start is Some,
        total_nanos(frames.skip(loop_start->0 as int)) > 0,
        elapsed >= total_nanos(frames),
    ensures
        frame_at(frames, loop_start, elapsed).0 >= loop_start->0,
{
    let start = loop_start->0 as int;
    let looped = total_nanos(frames.skip(start));
    let prefix = total_nanos(frames.take(start));
    lemma_total_split(frames, start);
    let offset = ((elapsed - prefix) as nat % looped) as nat;
    vstd::arithmetic::div_mod::lemma_mod_pos_bound((elapsed - prefix) as int, looped as int);
    assert(frames.subrange(0, start) =~= frames.take(start));
    lemma_locate_skip(frames, 0, start, offset);
    lemma_locate_some(frames, start, offset);
    lemma_locate_range(frames, start, offset);
}

/// An animation that does not loop and whose frames all last a while ends on its last
/// frame, with no next frame due, once it has played through.
pub proof fn lemma_play_once_ends(frames: Seq<AnimationFrame>, elapsed: nat)
    requires
        animation_ok(frames, None),
        all_positive(frames),
        elapsed >= total_nanos(frames),
    ensures
        frame_at(frames, None, elapsed) == (frames.len() - 1, None::<nat>),
{
    assert(frames.skip(0) =~= frames);
    lemma_locate_some(frames, 0, elapsed);
}

/// Frames that each last at most `bound` nanoseconds last at most their number times
/// `bound` together.
pub proof fn lemma_total_bound(frames: Seq<AnimationFrame>, bound: nat)
    requires
        forall|i: int| 0 <= i < frames.len() ==> #[trigger] frames[i].duration_nanos <= bound,
    ensures
        total_nanos(frames) <= frames.len() * bound,
    decreases frames.len(),
{
    if frames.len() > 0 {
        let prev = frames.drop_last();
        assert forall|i: int| 0 <= i < prev.len() implies #[trigger] prev[i].duration_nanos <= bound by {
            assert(prev[i] == frames[i]);
        }
        lemma_total_bound(prev, bound);
        assert(frames.len() * bound == prev.len() * bound + bound) by (nonlinear_arith)
            requires frames.len() == prev.len() + 1;
    }
}

/// A time span in nanoseconds, capped at `u64::MAX` nanoseconds, the longest span
/// that a nanosecond count can give.
pub fn duration_from_nanos(nanos: u128) -> (capped: u128)
    ensures
        capped == capped_nanos(nanos as nat),
{
    if nanos > u64::MAX as u128 {
        u64::MAX as u128
    } else {
        nanos
    }
}

/// A sequence of frames, optionally looping from one of them once it has played
/// through.
#[derive(Debug)]
pub struct Animation {
    frames: Vec<AnimationFrame>,
    loop_start: Option<usize>,
}

impl View for Animation {
    type V = (Seq<AnimationFrame>, Option<usize>);

    closed spec fn view(&self) -> (Seq<AnimationFrame>, Option<usize>) {
        (self.frames@, self.loop_start)
    }
}

impl Animation {
    #[verifier::type_invariant]
    spec fn well_formed(self) -> bool {
        animation_ok(self.frames@, self.loop_start)
    }

    /// An animation of these frames, looping from frame `loop_start` if it is given;
    /// `None` when there are no frames or the loop starts past the last frame.
    pub fn new(frames: Vec<AnimationFrame>, loop_start: Option<usize>) -> (animation: Option<Animation>)
        ensures
            animation is Some <==> animation_ok(frames@, loop_start),
            animation matches Some(a) ==> a@ == (frames@, loop_start),
    {
        if frames.len() == 0 {
            return None;
        }
        if let Some(start) = loop_start {
            if start > frames.len() {
                return None;
            }
        }
        Some(Animation { frames, loop_start })
    }

    /// Whether the total duration of the frames can be represented as a time span, which
    /// playing the animation needs.
    pub fn playable(&self) -> (ok: bool)
        ensures
            ok == fits_duration(self@.0),
    {
        let mut total: u128 = 0;
        let mut i: usize = 0;
        while i < self.frames.len()
            invariant
                i <= self.frames@.len(),
                total == total_nanos(self.frames@.take(i as int)),
                total <= MAX_DURATION_NANOS,
            decreases self.frames@.len() - i,
        {
            assert(self.frames@.take(i + 1).drop_last() =~= self.frames@.take(i as int));
            if self.frames[i].duration_nanos > MAX_DURATION_NANOS - total {
                proof {
                    lemma_total_split(self.frames@, i + 1);
                }
                return false;
            }
            total = total + self.frames[i].duration_nanos;
            i = i + 1;
        }
        assert(self.frames@.take(i as int) =~= self.frames@);
        true
    }

    /// Builds an animation from parts already known to be valid.
    pub(crate) fn from_parts(frames: Vec<AnimationFrame>, loop_start: Option<usize>) -> (animation: Animation)
        requires
            animation_ok(frames@, loop_start),
        ensures
            animation@ == (frames@, loop_start),
    {
        Animation { frames, loop_start }
    }

    /// The frames, in order.
    pub fn frames(&self) -> (frames: &Vec<AnimationFrame>)
        ensures
            frames@ == self@.0,
            animation_ok(self@.0, self@.1),
    {
        proof {
            use_type_invariant(self);
        }
        &self.frames
    }

    /// The frame the animation loops back to, if it loops.
    pub fn loop_start(&self) -> (start: Option<usize>)
        ensures
            start == self@.1,
    {
        self.loop_start
    }

    /// The total duration of the frames from `lo` up to, not including, `hi`.
    fn duration_between(&self, lo: usize, hi: usize) -> (nanos: u128)
        requires
            lo <= hi <= self@.0.len(),
            fits_duration(self@.0),
        ensures
            nanos == total_nanos(self@.0.subrange(lo as int, hi as int)),
    {
        proof {
            use_type_invariant(self);
        }
        let mut sum: u128 = 0;
        let mut j: usize = lo;
        while j < hi
            invariant
                lo <= j <= hi,
                hi <= self.frames@.len(),
                total_nanos(self.frames@) <= MAX_DURATION_NANOS,
                sum == total_nanos(self.frames@.subrange(lo as int, j as int)),
            decreases hi - j,
        {
            proof {
                lemma_total_range(self.frames@, lo as int, j + 1);
            }
            sum = sum + self.frames[j].duration_nanos;
            j = j + 1;
        }
        sum
    }

    /// The total duration of the animation, in nanoseconds.
    pub fn total_duration(&self) -> (nanos: u128)
        requires
            fits_duration(self@.0),
        ensures
            nanos == total_nanos(self@.0),
    {
        let nanos = self.duration_between(0, self.frames.len());
        assert(self.frames@.subrange(0, self.frames@.len() as int) =~= self.frames@);
        nanos
    }

    /// The frame on screen `elapsed` nanoseconds after the animation started, and how
    /// long until the next frame is due; a looping animation that has played through
    /// repeats its loop, and one that does not loop stays on its last frame with no
    /// next frame due.
    pub fn current_frame(&self, elapsed: u128) -> (shown: (&AnimationFrame, Option<u128>))
        requires
            fits_duration(self@.0),
        ensures
            0 <= frame_at(self@.0, self@.1, elapsed as nat).0 < self@.0.len(),
            *shown.0 == self@.0[frame_at(self@.0, self@.1, elapsed as nat).0],
            shown.1 matches Some(d) ==> frame_at(self@.0, self@.1, elapsed as nat).1 == Some(d as nat),
            shown.1 is None ==> frame_at(self@.0, self@.1, elapsed as nat).1 is None,
    {
        proof {
            use_type_invariant(self);
        }
        let ghost frames = self.frames@;
        let total = self.total_duration();
        let mut remaining: u128 = elapsed;
        if let Some(start) = self.loop_start {
            let prefix = self.duration_between(0, start);
            let looped = self.duration_between(start, self.frames.len());
            proof {
                lemma_total_split(frames, start as int);
                assert(frames.subrange(0, start as int) =~= frames.take(start as int));
                assert(frames.subrange(start as int, frames.len() as int) =~= frames.skip(start as int));
            }
            if elapsed >= total && looped > 0 {
                let offset: u128 = (elapsed - prefix) % looped;
                remaining = prefix + offset;
            }
        }
        assert(remaining == effective_elapsed(frames, self.loop_start, elapsed as nat));
        let ghost target = effective_elapsed(frames, self.loop_start, elapsed as nat);
        let mut i: usize = 0;
        while i < self.frames.len()
            invariant
                frames == self.frames@,
                target == effective_elapsed(frames, self.loop_start, elapsed as nat),
                i <= frames.len(),
                locate_from(frames, 0, target) == locate_from(frames, i as int, remaining as nat),
            decreases frames.len() - i,
        {
            let frame = &self.frames[i];
            let slot: u128 = if frame.duration_nanos == 0 {
                1
            } else {
                frame.duration_nanos
            };
            if remaining < slot {
                assert(slot == slot_nanos(frames[i as int]));
                assert(locate_from(frames, i as int, remaining as nat) == Some(
                    (i as int, (slot - remaining) as nat),
                ));
                let delay = duration_from_nanos(slot - remaining);
                return (frame, Some(delay));
            }
            remaining = remaining - slot;
            i = i + 1;
        }
        let last = self.frames.len() - 1;
        assert(locate_from(frames, i as int, remaining as nat) is None);
        (&self.frames[last], None)
    }
}

} // verus!
