//! How an animated property moves from its old value to its new one.
//!
//! Time is counted in milliseconds by a clock outside the library. An
//! animation of `duration` milliseconds runs `loop_count` times, at least
//! once; an animation without a positive duration is over at once.

use vstd::prelude::*;
use crate::eval::quotient;
use crate::items::{EasingCurve, PropertyAnimation};

verus! {

/// The time that the animation takes in all.
pub open spec fn total_duration(a: PropertyAnimation) -> int {
    if a.duration <= 0 {
        0
    } else if a.loop_count <= 1 {
        a.duration as int
    } else {
        a.duration * a.loop_count
    }
}

/// Whether the animation is over after `elapsed` milliseconds.
pub open spec fn finished(a: PropertyAnimation, elapsed: int) -> bool {
    elapsed >= total_duration(a)
}

/// How far the animation has come within its current run, as a fraction
/// with the given numerator and denominator: between nothing and all.
pub open spec fn progress(a: PropertyAnimation, elapsed: int) -> (int, int) {
    let d = a.duration as int;
    let t = elapsed % d;
    match a.easing {
        EasingCurve::Linear => (t, d),
        EasingCurve::EaseIn => (t * t, d * d),
        EasingCurve::EaseOut => (d * d - (d - t) * (d - t), d * d),
    }
}

/// The value of a property `elapsed` milliseconds after `to` was written
/// over `from`: `to` once the animation is over, and before that `from`
/// moved towards `to` by the progress of the animation, rounded towards
/// `from`.
pub open spec fn animated_value(from: int, to: int, a: PropertyAnimation, elapsed: int) -> int {
    if elapsed < 0 {
        from
    } else if finished(a, elapsed) {
        to
    } else {
        from + quotient((to - from) * progress(a, elapsed).0, progress(a, elapsed).1)
    }
}

/// Once the animation is over the property has the value that was written.
pub proof fn lemma_finished_reaches_target(from: int, to: int, a: PropertyAnimation, elapsed: int)
    requires
        elapsed >= 0,
        finished(a, elapsed),
    ensures
        animated_value(from, to, a, elapsed) == to,
{
}

/// A part of a whole lies between nothing and the whole.
pub proof fn lemma_part(diff: int, num: int, den: int)
    requires
        0 <= num <= den,
        0 < den,
    ensures
        diff >= 0 ==> 0 <= quotient(diff * num, den) <= diff,
        diff <= 0 ==> diff <= quotient(diff * num, den) <= 0,
        diff >= 0 ==> diff * num >= 0,
        diff <= 0 ==> diff * num <= 0,
{
    if diff >= 0 {
        assert(0 <= diff * num <= diff * den) by (nonlinear_arith)
            requires
                0 <= num <= den,
                diff >= 0,
        ;
        assert((diff * num) / den <= diff) by (nonlinear_arith)
            requires
                0 <= diff * num <= diff * den,
                0 < den,
        ;
        assert(0 <= (diff * num) / den) by (nonlinear_arith)
            requires
                0 <= diff * num,
                0 < den,
        ;
    } else {
        let pos = -diff;
        assert(0 <= pos * num <= pos * den) by (nonlinear_arith)
            requires
                0 <= num <= den,
                pos >= 0,
        ;
        assert(-(diff * num) == pos * num) by (nonlinear_arith)
            requires
                pos == -diff,
        ;
        assert((pos * num) / den <= pos) by (nonlinear_arith)
            requires
                0 <= pos * num <= pos * den,
                0 < den,
        ;
        assert(0 <= (pos * num) / den) by (nonlinear_arith)
            requires
                0 <= pos * num,
                0 < den,
        ;
    }
}

/// The progress of a running animation is a fraction between nothing and
/// all.
pub proof fn lemma_progress(a: PropertyAnimation, elapsed: int)
    requires
        a.duration > 0,
        elapsed >= 0,
    ensures
        0 <= progress(a, elapsed).0 <= progress(a, elapsed).1,
        0 < progress(a, elapsed).1,
        progress(a, elapsed).1 <= 0x4000_0000_0000_0000,
{
    let d = a.duration as int;
    let t = elapsed % d;
    assert(0 <= t < d);
    assert(0 <= t * t <= d * d && 0 < d * d && 0 <= (d - t) * (d - t) <= d * d) by (nonlinear_arith)
        requires
            0 <= t < d,
    ;
    assert(d * d <= 0x4000_0000_0000_0000) by (nonlinear_arith)
        requires
            0 < d <= 0x7fff_ffff,
    ;
}

/// An animated value never leaves the stretch between the old value and the
/// new one.
pub proof fn lemma_animated_value_between(from: int, to: int, a: PropertyAnimation, elapsed: int)
    ensures
        from <= to ==> from <= animated_value(from, to, a, elapsed) <= to,
        to <= from ==> to <= animated_value(from, to, a, elapsed) <= from,
{
    if elapsed >= 0 && !finished(a, elapsed) {
        lemma_progress(a, elapsed);
        lemma_part(to - from, progress(a, elapsed).0, progress(a, elapsed).1);
    }
}

/// The progress of a running animation is never all: the whole is only
/// reached when the run is over.
pub proof fn lemma_progress_is_partial(a: PropertyAnimation, elapsed: int)
    requires
        a.duration > 0,
        elapsed >= 0,
    ensures
        progress(a, elapsed).0 < progress(a, elapsed).1,
{
    let d = a.duration as int;
    let t = elapsed % d;
    assert(0 <= t < d);
    assert(t * t < d * d && 0 < (d - t) * (d - t)) by (nonlinear_arith)
        requires
            0 <= t < d,
    ;
}

/// While an animation is in progress, whatever its curve and however often
/// it runs, the value is never the new one, and it differs from the old
/// one exactly when the progress amounts to one whole step of the value:
/// from then on the value lies strictly between the old value and the new
/// one.
pub proof fn lemma_strictly_between(from: int, to: int, a: PropertyAnimation, elapsed: int)
    requires
        a.duration > 0,
        elapsed >= 0,
        !finished(a, elapsed),
        from != to,
    ensures
        animated_value(from, to, a, elapsed) != to,
        from < to ==> (from < animated_value(from, to, a, elapsed) < to <==> (to - from)
            * progress(a, elapsed).0 >= progress(a, elapsed).1),
        to < from ==> (to < animated_value(from, to, a, elapsed) < from <==> (from - to)
            * progress(a, elapsed).0 >= progress(a, elapsed).1),
{
    lemma_progress(a, elapsed);
    lemma_progress_is_partial(a, elapsed);
    let num = progress(a, elapsed).0;
    let den = progress(a, elapsed).1;
    let diff = if from < to {
        to - from
    } else {
        from - to
    };
    assert(0 <= diff * num < diff * den) by (nonlinear_arith)
        requires
            0 < diff,
            0 <= num < den,
    ;
    assert((diff * num) / den < diff && 0 <= (diff * num) / den && ((diff * num) / den >= 1 <==> diff
        * num >= den)) by (nonlinear_arith)
        requires
            0 <= diff * num < diff * den,
            0 < den,
    ;
    if to < from {
        assert(-((to - from) * num) == diff * num && (to - from) * num <= 0) by (nonlinear_arith)
            requires
                diff == from - to,
                0 <= num,
                0 < diff,
        ;
        if (to - from) * num == 0 {
            assert(diff * num == 0);
        }
    }
}

/// While a linear animation that runs once is in progress, the value lies
/// strictly between the old value and the new one, as soon as the time that
/// has passed amounts to one step of the value.
pub proof fn lemma_linear_strictly_between(from: int, to: int, a: PropertyAnimation, elapsed: int)
    requires
        a.easing == EasingCurve::Linear,
        a.loop_count <= 1,
        0 < elapsed < a.duration,
        from < to ==> (to - from) * elapsed >= a.duration,
        to < from ==> (from - to) * elapsed >= a.duration,
        from != to,
    ensures
        from < to ==> from < animated_value(from, to, a, elapsed) < to,
        to < from ==> to < animated_value(from, to, a, elapsed) < from,
{
    let d = a.duration as int;
    assert(elapsed % d == elapsed) by (nonlinear_arith)
        requires
            0 < elapsed < d,
    ;
    if from < to {
        let diff = to - from;
        assert(diff * elapsed < diff * d) by (nonlinear_arith)
            requires
                0 < diff,
                elapsed < d,
        ;
        assert(1 <= (diff * elapsed) / d < diff) by (nonlinear_arith)
            requires
                d <= diff * elapsed < diff * d,
                0 < d,
        ;
    } else {
        let diff = from - to;
        assert(diff * elapsed < diff * d) by (nonlinear_arith)
            requires
                0 < diff,
                elapsed < d,
        ;
        assert(1 <= (diff * elapsed) / d < diff) by (nonlinear_arith)
            requires
                d <= diff * elapsed < diff * d,
                0 < d,
        ;
        assert(-((to - from) * elapsed) == diff * elapsed) by (nonlinear_arith)
            requires
                diff == from - to,
        ;
        assert((to - from) * elapsed < 0) by (nonlinear_arith)
            requires
                to - from < 0,
                elapsed > 0,
        ;
    }
}

/// Whether the animation is over after `elapsed` milliseconds.
pub fn is_finished(a: PropertyAnimation, elapsed: u64) -> (over: bool)
    ensures
        over == finished(a, elapsed as int),
{
    if a.duration <= 0 {
        true
    } else if a.loop_count <= 1 {
        elapsed >= a.duration as u64
    } else {
        assert((a.duration as u64) * (a.loop_count as u64) <= 0x4000_0000_0000_0000)
            by (nonlinear_arith)
            requires
                0 < a.duration <= 0x7fff_ffff,
                1 < a.loop_count <= 0x7fff_ffff,
        ;
        let total: u64 = (a.duration as u64) * (a.loop_count as u64);
        elapsed >= total
    }
}

/// The value of an animated property `elapsed` milliseconds after `to` was
/// written over `from`.
pub fn value_at(from: i64, to: i64, a: PropertyAnimation, elapsed: u64) -> (v: i64)
    ensures
        v == animated_value(from as int, to as int, a, elapsed as int),
{
    if is_finished(a, elapsed) {
        return to;
    }
    let d: i128 = a.duration as i128;
    let t: i128 = (elapsed % (a.duration as u64)) as i128;
    let diff: i128 = to as i128 - from as i128;
    proof {
        lemma_progress(a, elapsed as int);
        lemma_part(diff as int, progress(a, elapsed as int).0, progress(a, elapsed as int).1);
        assert(0 <= t < d);
        assert(0 <= t * t <= d * d && 0 <= (d - t) * (d - t) <= d * d) by (nonlinear_arith)
            requires
                0 <= t < d,
        ;
    }
    let (num, den): (i128, i128) = match a.easing {
        EasingCurve::Linear => (t, d),
        EasingCurve::EaseIn => (t * t, d * d),
        EasingCurve::EaseOut => (d * d - (d - t) * (d - t), d * d),
    };
    assert(num == progress(a, elapsed as int).0 && den == progress(a, elapsed as int).1);
    proof {
        assert(-0x1_0000_0000_0000_0000 <= diff <= 0x1_0000_0000_0000_0000);
        assert(-0x4000_0000_0000_0000_0000_0000_0000_0000 <= diff * num
            <= 0x4000_0000_0000_0000_0000_0000_0000_0000) by (nonlinear_arith)
            requires
                -0x1_0000_0000_0000_0000 <= diff <= 0x1_0000_0000_0000_0000,
                0 <= num <= 0x4000_0000_0000_0000,
        ;
    }
    let scaled: i128 = diff * num;
    let step: i128 = if scaled >= 0 {
        scaled / den
    } else {
        -((-scaled) / den)
    };
    assert(step == quotient(scaled as int, den as int));
    (from as i128 + step) as i64
}

} // verus!
