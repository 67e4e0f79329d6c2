//! The wind schedule: hourly observations and the wind between them.

use vstd::prelude::*;
use crate::units::{FULL_TURN, SCALE};

verus! {

/// One hourly wind observation.
#[derive(Debug, Clone, Copy, PartialEq, Eq, Structural)]
pub struct WindCondition {
    /// Whole hours since the start of the race.
    pub time: u32,
    /// True wind speed, in thousandths of a knot.
    pub wind_speed: i64,
    /// Direction the wind blows from, in thousandths of a degree.
    pub wind_angle: i64,
}

/// The wind at one moment.
#[derive(Debug, Clone, Copy, PartialEq, Eq, Structural)]
pub struct Wind {
    /// True wind speed, in thousandths of a knot.
    pub wind_speed: i64,
    /// Direction the wind blows from, in thousandths of a degree.
    pub wind_angle: i64,
}

/// The wind observations of a race, in order of time.
#[derive(Debug, Clone)]
pub struct WindData {
    pub conditions: Vec<WindCondition>,
}

/// The moment of an observation, in thousandths of an hour.
pub open spec fn sample_time(condition: WindCondition) -> int {
    condition.time as int * SCALE as int
}

/// The wind of an observation.
pub open spec fn sample_wind(condition: WindCondition) -> Wind {
    Wind { wind_speed: condition.wind_speed, wind_angle: condition.wind_angle }
}

/// The value reached after `elapsed` out of `span` on the straight line from
/// `from` to `to`, rounded toward `from`.
pub open spec fn interpolate(from: int, to: int, elapsed: int, span: int) -> int {
    if to >= from {
        from + ((to - from) * elapsed) / span
    } else {
        from - ((from - to) * elapsed) / span
    }
}

/// `idx` is the position of the first observation made at or after `time`.
pub open spec fn is_first_at_or_after(conditions: Seq<WindCondition>, time: int, idx: int) -> bool {
    &&& 0 <= idx < conditions.len()
    &&& sample_time(conditions[idx]) >= time
    &&& forall|j: int| 0 <= j < idx ==> sample_time(#[trigger] conditions[j]) < time
}

/// The position of the first observation made at or after `time`.
pub open spec fn first_at_or_after(conditions: Seq<WindCondition>, time: int) -> int {
    choose|idx: int| is_first_at_or_after(conditions, time, idx)
}

/// At most one observation is the first at or after a moment.
pub proof fn lemma_first_at_or_after_unique(conditions: Seq<WindCondition>, time: int, i: int, k: int)
    requires
        is_first_at_or_after(conditions, time, i),
        is_first_at_or_after(conditions, time, k),
    ensures
        i == k,
{
    if i < k {
        assert(sample_time(conditions[i]) < time);
    } else if k < i {
        assert(sample_time(conditions[k]) < time);
    }
}

/// The wind at `time`. At or before the first observation it is the first
/// observation, at or after the last it is the last; in between it lies on
/// the straight line between the first observation at or after `time` and the
/// one before it. An empty schedule has no wind.
pub open spec fn wind_at(conditions: Seq<WindCondition>, time: int) -> Option<Wind> {
    if conditions.len() == 0 {
        None
    } else if time <= sample_time(conditions.first()) {
        Some(sample_wind(conditions.first()))
    } else if time >= sample_time(conditions.last()) {
        Some(sample_wind(conditions.last()))
    } else {
        let next = first_at_or_after(conditions, time);
        let before = conditions[next - 1];
        let after = conditions[next];
        let elapsed = time - sample_time(before);
        let span = sample_time(after) - sample_time(before);
        Some(
            Wind {
                wind_speed: interpolate(before.wind_speed as int, after.wind_speed as int, elapsed, span) as i64,
                wind_angle: interpolate(before.wind_angle as int, after.wind_angle as int, elapsed, span) as i64,
            },
        )
    }
}

/// `idx` is the position of the first observation made at hour `hour`.
pub open spec fn is_first_at_hour(conditions: Seq<WindCondition>, hour: u32, idx: int) -> bool {
    &&& 0 <= idx < conditions.len()
    &&& conditions[idx].time == hour
    &&& forall|j: int| 0 <= j < idx ==> (#[trigger] conditions[j]).time != hour
}

/// An interpolated value lies between the two values it was taken from, and
/// is the second one where the whole span has elapsed.
pub proof fn lemma_interpolate_between(from: int, to: int, elapsed: int, span: int)
    requires
        0 <= elapsed <= span,
        0 < span,
    ensures
        from <= to ==> from <= interpolate(from, to, elapsed, span) <= to,
        to <= from ==> to <= interpolate(from, to, elapsed, span) <= from,
        elapsed == span ==> interpolate(from, to, elapsed, span) == to,
        elapsed == 0 ==> interpolate(from, to, elapsed, span) == from,
{
    let rise = if to >= from { to - from } else { from - to };
    assert(0 <= (rise * elapsed) / span <= rise) by (nonlinear_arith)
        requires
            0 <= rise,
            0 <= elapsed <= span,
            0 < span,
    ;
    assert(elapsed == span ==> (rise * elapsed) / span == rise) by (nonlinear_arith)
        requires
            0 <= rise,
            0 < span,
    ;
    assert(elapsed == 0 ==> (rise * elapsed) / span == 0) by (nonlinear_arith)
        requires
            0 < span,
    ;
}

/// Interpolates between two fixed-point values without leaving their range.
pub fn interpolate_between(from: i64, to: i64, elapsed: i64, span: i64) -> (value: i64)
    requires
        0 <= elapsed <= span,
        0 < span,
    ensures
        value == interpolate(from as int, to as int, elapsed as int, span as int),
{
    proof {
        lemma_interpolate_between(from as int, to as int, elapsed as int, span as int);
    }
    if to >= from {
        let rise: u128 = (to as i128 - from as i128) as u128;
        assert(rise * elapsed <= 0x1_0000_0000_0000_0000 * 0x8000_0000_0000_0000) by (nonlinear_arith)
            requires
                0 <= rise < 0x1_0000_0000_0000_0000,
                0 <= elapsed < 0x8000_0000_0000_0000,
        ;
        let part: u128 = (rise * (elapsed as u128)) / (span as u128);
        (from as i128 + part as i128) as i64
    } else {
        let fall: u128 = (from as i128 - to as i128) as u128;
        assert(fall * elapsed <= 0x1_0000_0000_0000_0000 * 0x8000_0000_0000_0000) by (nonlinear_arith)
            requires
                0 <= fall < 0x1_0000_0000_0000_0000,
                0 <= elapsed < 0x8000_0000_0000_0000,
        ;
        let part: u128 = (fall * (elapsed as u128)) / (span as u128);
        (from as i128 - part as i128) as i64
    }
}

impl WindData {
    /// The observations are in strictly increasing order of time and every
    /// wind direction lies within one full turn.
    pub open spec fn wf(&self) -> bool {
        &&& forall|i: int, j: int| 0 <= i < j < self.conditions@.len() ==> (#[trigger] self.conditions@[i]).time < (#[trigger] self.conditions@[j]).time
        &&& forall|i: int| 0 <= i < self.conditions@.len() ==> 0 <= (#[trigger] self.conditions@[i]).wind_angle <= FULL_TURN
    }

    /// Whether the observations are in strictly increasing order of time and
    /// every wind direction lies within one full turn.
    pub fn is_valid(&self) -> (valid: bool)
        ensures
            valid == self.wf(),
    {
        let mut idx: usize = 0;
        while idx < self.conditions.len()
            invariant
                idx <= self.conditions@.len(),
                forall|i: int, j: int|
                    0 <= i < j < idx ==> (#[trigger] self.conditions@[i]).time < (#[trigger] self.conditions@[j]).time,
                forall|i: int| 0 <= i < idx ==> 0 <= (#[trigger] self.conditions@[i]).wind_angle <= FULL_TURN,
            decreases self.conditions@.len() - idx,
        {
            let condition = self.conditions[idx];
            if condition.wind_angle < 0 || condition.wind_angle > FULL_TURN {
                return false;
            }
            if idx > 0 && self.conditions[idx - 1].time >= condition.time {
                assert(!(self.conditions@[idx - 1].time < self.conditions@[idx as int].time));
                return false;
            }
            idx = idx + 1;
        }
        true
    }

    /// A schedule without observations.
    pub fn new() -> (schedule: Self)
        ensures
            schedule.conditions@.len() == 0,
            schedule.wf(),
    {
        WindData { conditions: Vec::new() }
    }

    /// All observations, in order.
    pub fn get_all_conditions(&self) -> (conditions: &Vec<WindCondition>)
        ensures
            conditions == &self.conditions,
    {
        &self.conditions
    }

    /// The first observation made at exactly `hour`, if there is one.
    pub fn get_wind_at_hour(&self, hour: u32) -> (found: Option<&WindCondition>)
        ensures
            found is None <==> forall|j: int| 0 <= j < self.conditions@.len() ==> (#[trigger] self.conditions@[j]).time != hour,
            found matches Some(condition) ==> exists|idx: int| is_first_at_hour(self.conditions@, hour, idx) && *condition == self.conditions@[idx],
    {
        let mut idx: usize = 0;
        while idx < self.conditions.len()
            invariant
                idx <= self.conditions@.len(),
                forall|j: int| 0 <= j < idx ==> (#[trigger] self.conditions@[j]).time != hour,
            decreases self.conditions@.len() - idx,
        {
            if self.conditions[idx].time == hour {
                assert(is_first_at_hour(self.conditions@, hour, idx as int));
                return Some(&self.conditions[idx]);
            }
            idx = idx + 1;
        }
        None
    }

    /// The wind at `time`, in thousandths of an hour since the start of the
    /// race: interpolated between the two observations around `time`, and
    /// the nearest observation outside the observed range.
    pub fn get_wind_at_time(&self, time: i64) -> (wind: Option<Wind>)
        ensures
            wind == wind_at(self.conditions@, time as int),
            wind is Some <==> self.conditions@.len() > 0,
            self.conditions@.len() > 0 && time <= sample_time(self.conditions@.first()) ==> wind == Some(
                sample_wind(self.conditions@.first()),
            ),
            self.wf() && self.conditions@.len() > 0 && time >= sample_time(self.conditions@.last()) ==> wind
                == Some(sample_wind(self.conditions@.last())),
            self.wf() ==> (wind matches Some(w) ==> 0 <= w.wind_angle <= FULL_TURN),
    {
        let count = self.conditions.len();
        if count == 0 {
            return None;
        }
        let first = self.conditions[0];
        let last = self.conditions[count - 1];
        if time <= first.time as i64 * SCALE {
            assert(self.wf() && time >= sample_time(last) ==> count == 1);
            return Some(Wind { wind_speed: first.wind_speed, wind_angle: first.wind_angle });
        }
        if time >= last.time as i64 * SCALE {
            return Some(Wind { wind_speed: last.wind_speed, wind_angle: last.wind_angle });
        }
        let mut next: usize = 1;
        while self.conditions[next].time as i64 * SCALE < time
            invariant
                1 <= next < count,
                count == self.conditions@.len(),
                time < sample_time(self.conditions@.last()),
                forall|j: int| 0 <= j < next ==> sample_time(#[trigger] self.conditions@[j]) < time,
            decreases count - next,
        {
            next = next + 1;
        }
        proof {
            assert(is_first_at_or_after(self.conditions@, time as int, next as int));
            lemma_first_at_or_after_unique(
                self.conditions@,
                time as int,
                next as int,
                first_at_or_after(self.conditions@, time as int),
            );
        }
        let before = self.conditions[next - 1];
        let after = self.conditions[next];
        let start: i64 = before.time as i64 * SCALE;
        let elapsed: i64 = time - start;
        let span: i64 = after.time as i64 * SCALE - start;
        proof {
            lemma_interpolate_between(before.wind_speed as int, after.wind_speed as int, elapsed as int, span as int);
            lemma_interpolate_between(before.wind_angle as int, after.wind_angle as int, elapsed as int, span as int);
        }
        let wind_speed = interpolate_between(before.wind_speed, after.wind_speed, elapsed, span);
        let wind_angle = interpolate_between(before.wind_angle, after.wind_angle, elapsed, span);
        Some(Wind { wind_speed, wind_angle })
    }
}

} // verus!
