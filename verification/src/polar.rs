//! The boat's polar table: boat speed by true wind angle and true wind speed.

use vstd::prelude::*;
use crate::units::{gap, gap_between};

verus! {

/// Polar performance data of a boat.
///
/// `boat_speeds[a][s]` is the boat speed at true wind angle `wind_angles[a]`
/// in a wind of `wind_speeds[s]`.
#[derive(Debug, Clone)]
pub struct PolarData {
    /// True wind speeds, in thousandths of a knot.
    pub wind_speeds: Vec<i64>,
    /// True wind angles, in thousandths of a degree.
    pub wind_angles: Vec<i64>,
    /// Boat speeds in thousandths of a knot, one row per wind angle.
    pub boat_speeds: Vec<Vec<i64>>,
}

/// `idx` is the position of the entry of `values` nearest to `target`; among
/// equally near entries it is the first.
pub open spec fn is_closest_index(values: Seq<i64>, target: int, idx: int) -> bool {
    &&& 0 <= idx < values.len()
    &&& forall|j: int| 0 <= j < values.len() ==> gap(values[idx] as int, target) <= gap(#[trigger] values[j] as int, target)
    &&& forall|j: int| 0 <= j < idx ==> gap(values[idx] as int, target) < gap(#[trigger] values[j] as int, target)
}

/// The position of the entry of `values` nearest to `target`.
pub open spec fn closest_index(values: Seq<i64>, target: int) -> int {
    choose|idx: int| is_closest_index(values, target, idx)
}

/// At most one position is the closest one.
pub proof fn lemma_closest_index_unique(values: Seq<i64>, target: int, i: int, k: int)
    requires
        is_closest_index(values, target, i),
        is_closest_index(values, target, k),
    ensures
        i == k,
{
    if i < k {
        assert(gap(values[k] as int, target) < gap(values[i] as int, target));
    } else if k < i {
        assert(gap(values[i] as int, target) < gap(values[k] as int, target));
    }
}

/// Finds the entry of `values` nearest to `target` by a single scan.
pub fn find_closest_index(values: &Vec<i64>, target: i64) -> (found: Option<usize>)
    ensures
        found is None <==> values@.len() == 0,
        found matches Some(idx) ==> is_closest_index(values@, target as int, idx as int)
            && idx as int == closest_index(values@, target as int),
{
    if values.len() == 0 {
        return None;
    }
    let mut closest_idx: usize = 0;
    let mut closest_diff: u64 = gap_between(values[0], target);
    let mut idx: usize = 1;
    while idx < values.len()
        invariant
            1 <= idx <= values@.len(),
            closest_idx < idx,
            closest_diff == gap(values@[closest_idx as int] as int, target as int),
            is_closest_index(values@.take(idx as int), target as int, closest_idx as int),
        decreases values@.len() - idx,
    {
        let diff: u64 = gap_between(values[idx], target);
        let ghost before = values@.take(idx as int);
        let ghost after = values@.take(idx + 1);
        assert(forall|j: int| 0 <= j < idx ==> before[j] == after[j]);
        if diff < closest_diff {
            closest_diff = diff;
            closest_idx = idx;
        }
        idx = idx + 1;
        assert(is_closest_index(after, target as int, closest_idx as int));
    }
    assert(values@.take(idx as int) =~= values@);
    proof {
        let c = closest_index(values@, target as int);
        lemma_closest_index_unique(values@, target as int, closest_idx as int, c);
    }
    Some(closest_idx)
}

impl PolarData {
    /// Every row of the table has one boat speed per wind speed, and there is
    /// one row per wind angle.
    pub open spec fn wf(&self) -> bool {
        &&& self.boat_speeds@.len() == self.wind_angles@.len()
        &&& forall|a: int| 0 <= a < self.boat_speeds@.len() ==> (#[trigger] self.boat_speeds@[a])@.len() == self.wind_speeds@.len()
    }

    /// The table has at least one wind angle and one wind speed.
    pub open spec fn is_populated(&self) -> bool {
        self.wind_angles@.len() > 0 && self.wind_speeds@.len() > 0
    }

    /// The boat speed the table gives for a wind angle and a wind speed: the
    /// cell at the nearest wind angle and the nearest wind speed, with no
    /// interpolation between cells.
    pub open spec fn speed_at(&self, wind_angle: int, wind_speed: int) -> Option<i64> {
        if self.wind_angles@.len() == 0 || self.wind_speeds@.len() == 0 {
            None
        } else {
            let a = closest_index(self.wind_angles@, wind_angle);
            let s = closest_index(self.wind_speeds@, wind_speed);
            if a < self.boat_speeds@.len() && s < self.boat_speeds@[a]@.len() {
                Some(self.boat_speeds@[a]@[s])
            } else {
                None
            }
        }
    }

    /// Whether the table can be queried: it is rectangular and has at least
    /// one wind angle and one wind speed.
    pub fn is_valid(&self) -> (valid: bool)
        ensures
            valid == (self.wf() && self.is_populated()),
    {
        if self.wind_angles.len() == 0 || self.wind_speeds.len() == 0 {
            return false;
        }
        if self.boat_speeds.len() != self.wind_angles.len() {
            return false;
        }
        let mut row: usize = 0;
        while row < self.boat_speeds.len()
            invariant
                row <= self.boat_speeds@.len(),
                forall|a: int| 0 <= a < row ==> (#[trigger] self.boat_speeds@[a])@.len() == self.wind_speeds@.len(),
            decreases self.boat_speeds@.len() - row,
        {
            if self.boat_speeds[row].len() != self.wind_speeds.len() {
                return false;
            }
            row = row + 1;
        }
        true
    }

    /// An empty table.
    pub fn new() -> (table: Self)
        ensures
            table.wind_speeds@.len() == 0,
            table.wind_angles@.len() == 0,
            table.boat_speeds@.len() == 0,
            table.wf(),
    {
        PolarData { wind_speeds: Vec::new(), wind_angles: Vec::new(), boat_speeds: Vec::new() }
    }

    /// Boat speed for a true wind angle and a true wind speed, read from the
    /// nearest cell of the table.
    pub fn get_boat_speed(&self, wind_angle: i64, wind_speed: i64) -> (speed: Option<i64>)
        ensures
            speed == self.speed_at(wind_angle as int, wind_speed as int),
            self.wf() && self.is_populated() ==> speed is Some,
    {
        let angle_idx = match find_closest_index(&self.wind_angles, wind_angle) {
            Some(idx) => idx,
            None => {
                return None;
            },
        };
        let speed_idx = match find_closest_index(&self.wind_speeds, wind_speed) {
            Some(idx) => idx,
            None => {
                return None;
            },
        };
        if angle_idx < self.boat_speeds.len() {
            let row = &self.boat_speeds[angle_idx];
            if speed_idx < row.len() {
                return Some(row[speed_idx]);
            }
        }
        None
    }
}

/// Two queries whose nearest wind angle and nearest wind speed coincide read
/// the same cell of the table.
pub proof fn lemma_speed_depends_on_nearest_entries(
    table: PolarData,
    angle_a: int,
    speed_a: int,
    angle_b: int,
    speed_b: int,
)
    requires
        closest_index(table.wind_angles@, angle_a) == closest_index(table.wind_angles@, angle_b),
        closest_index(table.wind_speeds@, speed_a) == closest_index(table.wind_speeds@, speed_b),
    ensures
        table.speed_at(angle_a, speed_a) == table.speed_at(angle_b, speed_b),
{
}

} // verus!
