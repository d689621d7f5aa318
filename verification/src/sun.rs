use crate::numtext::MAX_ABS_TENTH_MILLI;
use vstd::arithmetic::div_mod::{
    lemma_add_mod_noop, lemma_fundamental_div_mod, lemma_mod_bound, lemma_mod_multiples_vanish,
};
use vstd::prelude::*;

verus! {

/// A wall-clock time of day at minute granularity.
#[derive(Clone, Copy, Debug)]
pub struct TimeOfDay {
    pub hour: u8,
    pub minute: u8,
}

impl TimeOfDay {
    /// A valid time of day has an hour below 24 and a minute below 60.
    pub open spec fn wf(self) -> bool {
        self.hour < 24 && self.minute < 60
    }

    pub fn new(hour: u8, minute: u8) -> (t: TimeOfDay)
        requires
            hour < 24,
            minute < 60,
        ensures
            t.wf(),
            t.hour == hour,
            t.minute == minute,
    {
        TimeOfDay { hour, minute }
    }
}

/// The sun angle, in thousandths of a degree, for a time of day: the minutes
/// elapsed since one o'clock in the afternoon, wrapped forward into one day,
/// at a quarter of a degree per minute, re-centred onto the half-open range
/// from -180 to 180 degrees.
pub open spec fn spec_sun_angle_milli(hour: int, minute: int) -> int {
    let total = hour * 60 + minute;
    let offset = (total - 780) % 1440;
    ((offset * 250 + 180000) % 360000) - 180000
}

/// Converts a time of day to the sun angle the server stores for it.
pub fn sun_angle_milli(t: &TimeOfDay) -> (a: i64)
    requires
        t.wf(),
    ensures
        a == spec_sun_angle_milli(t.hour as int, t.minute as int),
        -180000 <= a < 180000,
{
    let total: u32 = (t.hour as u32) * 60 + (t.minute as u32);
    let offset: u32 = (total + 660) % 1440;
    proof {
        lemma_mod_multiples_vanish(1, total as int - 780, 1440);
        assert(1440 * 1 + (total as int - 780) == total as int + 660);
        lemma_mod_bound(total as int - 780, 1440);
    }
    let milli: u32 = offset * 250;
    let rec: u32 = (milli + 180000) % 360000;
    proof {
        lemma_mod_bound(milli as int + 180000, 360000);
    }
    (rec as i64) - 180000
}

/// The shortest signed angular difference, in ten-thousandths of a degree,
/// that moves the stored angle onto the computed one, wraparound-aware.
pub open spec fn spec_wrap_diff(new_tenth: int, old_tenth: int) -> int {
    ((new_tenth - old_tenth + 1_800_000) % 3_600_000) - 1_800_000
}

/// Computes the wraparound-aware difference between the computed angle and
/// the stored one, both in ten-thousandths of a degree.
pub fn wrap_diff_tenth_milli(new_tenth: i64, old_tenth: i64) -> (d: i64)
    requires
        -1_800_000 <= new_tenth < 1_800_000,
        -MAX_ABS_TENTH_MILLI <= old_tenth <= MAX_ABS_TENTH_MILLI,
    ensures
        d == spec_wrap_diff(new_tenth as int, old_tenth as int),
        -1_800_000 <= d < 1_800_000,
{
    let shifted: i64 = new_tenth - old_tenth + 1_800_000;
    let adjusted: i64 = shifted + 1_080_000_000_000_000;
    let r: i64 = ((adjusted as u64) % 3_600_000u64) as i64;
    proof {
        lemma_mod_multiples_vanish(300_000_000, shifted as int, 3_600_000);
        assert(3_600_000 * 300_000_000 + shifted as int == adjusted as int);
        lemma_mod_bound(adjusted as int, 3_600_000);
    }
    r - 1_800_000
}

/// One o'clock in the afternoon maps to an angle of exactly zero.
pub proof fn lemma_sun_angle_reference()
    ensures
        spec_sun_angle_milli(13, 0) == 0,
{
}

/// Folding the minute offset by one day before scaling it to thousandths of
/// a degree comes to the same as folding the scaled value by a full circle.
proof fn lemma_fold_day_scales(x: int)
    ensures
        ((x % 1440) * 250 + 180000) % 360000 == (x * 250 + 180000) % 360000,
{
    lemma_fundamental_div_mod(x, 1440);
    let k = x / 1440;
    assert((x % 1440) * 250 + 180000 == 360000 * (-k) + (x * 250 + 180000));
    lemma_mod_multiples_vanish(-k, x * 250 + 180000, 360000);
}

/// Stepping the clock forward one hour (wrapping midnight) turns the sun
/// fifteen degrees forward, re-centred into the half-open range from -180 to
/// 180 degrees.
pub proof fn lemma_sun_angle_hour_step(hour: int, minute: int)
    requires
        0 <= hour < 24,
        0 <= minute < 60,
    ensures
        spec_sun_angle_milli(
            if hour == 23 {
                0
            } else {
                hour + 1
            },
            minute,
        ) == ((spec_sun_angle_milli(hour, minute) + 15000 + 180000) % 360000) - 180000,
{
    let x = hour * 60 + minute - 780;
    let x2 = (if hour == 23 {
        0
    } else {
        hour + 1
    }) * 60 + minute - 780;
    lemma_fold_day_scales(x);
    lemma_fold_day_scales(x2);
    let a = spec_sun_angle_milli(hour, minute);
    assert(a + 180000 == (x * 250 + 180000) % 360000);
    // Either way of stepping the hour, the scaled offset moves ahead by
    // fifteen degrees, up to a full circle.
    assert(x2 * 250 + 180000 == (x * 250 + 180000) + 15000 - (if hour == 23 {
        360000int
    } else {
        0int
    }));
    assert((x2 * 250 + 180000) % 360000 == (x * 250 + 195000) % 360000) by {
        if hour == 23 {
            lemma_mod_multiples_vanish(1, x2 * 250 + 180000, 360000);
            assert(360000 * 1 + (x2 * 250 + 180000) == x * 250 + 195000);
        }
    }
    // Re-centring and stepping commute.
    assert(((a + 180000) + 15000) % 360000 == (x * 250 + 195000) % 360000) by {
        lemma_add_mod_noop((x * 250 + 180000) % 360000, 15000, 360000);
        lemma_add_mod_noop(x * 250 + 180000, 15000, 360000);
        lemma_mod_bound(x * 250 + 180000, 360000);
        lemma_mod_multiples_vanish(0, (x * 250 + 180000) % 360000, 360000);
        assert(15000int % 360000 == 15000);
    }
}

} // verus!
