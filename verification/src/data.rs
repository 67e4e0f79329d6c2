//! The tables of a race: buoys, start lines, legs, polar table, wind schedule
//! and course bearings.

use vstd::prelude::*;
use crate::coordinates::{chars_of, coordinate_of, parse_coordinate_chars, CoordinateError};
use crate::polar::PolarData;
use crate::units::{HALF_TURN, MAX_DISTANCE};
use crate::wind::WindData;

verus! {

/// A buoy of the course.
#[derive(Debug, Clone)]
pub struct Boei {
    /// Name of the buoy; start lines and legs refer to buoys by name.
    pub name: String,
    /// Kind of mark, where the table gives one.
    pub buoy_type: Option<String>,
    /// Free description, where the table gives one.
    pub description: Option<String>,
    /// Latitude as written in degrees, minutes and seconds.
    pub lat_min_sec: Option<String>,
    /// Longitude as written in degrees, minutes and seconds.
    pub long_min_sec: Option<String>,
    /// Latitude as written in degrees and decimal minutes.
    pub lat_min: Option<String>,
    /// Longitude as written in degrees and decimal minutes.
    pub long_min: Option<String>,
    /// Latitude in millionths of a degree, once resolved.
    pub lat: Option<i64>,
    /// Longitude in millionths of a degree, once resolved.
    pub long: Option<i64>,
}

/// A start line, sailed only from `from` to `to`.
#[derive(Debug, Clone)]
pub struct Start {
    pub from: String,
    pub to: String,
    /// Length in thousandths of a nautical mile.
    pub distance: i64,
    /// How often the start line may be sailed in one route.
    pub max_number: u32,
}

/// A leg between two buoys, sailed in either direction.
#[derive(Debug, Clone)]
pub struct Rak {
    pub from: String,
    pub to: String,
    /// Length in thousandths of a nautical mile.
    pub distance: i64,
    /// How often the leg may be sailed in one route, both directions together.
    pub max_number: u32,
}

/// Everything known about one race.
#[derive(Debug, Clone)]
pub struct RegattaData {
    pub boeien: Vec<Boei>,
    pub starts: Vec<Start>,
    pub rakken: Vec<Rak>,
    pub polar_data: PolarData,
    pub wind_data: WindData,
    /// `bearings[from][to]` is the initial great-circle bearing from buoy
    /// `from` to buoy `to`, in thousandths of a degree between minus and plus
    /// half a turn. It is meaningful where both buoys have coordinates.
    pub bearings: Vec<Vec<i64>>,
}

/// Something that is found by its name.
pub trait Named {
    /// The characters of the name.
    spec fn name_view(&self) -> Seq<char>;

    /// The name.
    fn name_ref(&self) -> (name: &String)
        ensures
            name@ == self.name_view(),
    ;
}

impl Named for Boei {
    open spec fn name_view(&self) -> Seq<char> {
        self.name@
    }

    fn name_ref(&self) -> (name: &String) {
        &self.name
    }
}

impl Named for String {
    open spec fn name_view(&self) -> Seq<char> {
        self@
    }

    fn name_ref(&self) -> (name: &String) {
        self
    }
}

/// The index of the buoy that a name refers to: the last one of that name.
pub open spec fn buoy_index<T: Named>(boeien: Seq<T>, name: Seq<char>) -> Option<int>
    decreases boeien.len(),
{
    if boeien.len() == 0 {
        None
    } else if boeien.last().name_view() == name {
        Some(boeien.len() - 1)
    } else {
        buoy_index(boeien.drop_last(), name)
    }
}

/// A name resolves to a buoy of that name after which no buoy has it, and to
/// nothing where no buoy has it.
pub proof fn lemma_buoy_index<T: Named>(boeien: Seq<T>, name: Seq<char>)
    ensures
        buoy_index(boeien, name) is None <==> forall|j: int|
            0 <= j < boeien.len() ==> (#[trigger] boeien[j]).name_view() != name,
        buoy_index(boeien, name) matches Some(idx) ==> {
            &&& 0 <= idx < boeien.len()
            &&& boeien[idx].name_view() == name
            &&& forall|j: int| idx < j < boeien.len() ==> (#[trigger] boeien[j]).name_view() != name
        },
    decreases boeien.len(),
{
    if boeien.len() == 0 {
    } else if boeien.last().name_view() == name {
        assert(boeien[boeien.len() - 1].name_view() == name);
    } else {
        let shorter = boeien.drop_last();
        lemma_buoy_index(shorter, name);
        assert(buoy_index(boeien, name) == buoy_index(shorter, name));
        assert(forall|j: int| 0 <= j < shorter.len() ==> #[trigger] shorter[j] == boeien[j]);
        match buoy_index(shorter, name) {
            None => {
                assert forall|j: int| 0 <= j < boeien.len() implies (#[trigger] boeien[j]).name_view() != name by {
                    if j < shorter.len() {
                        assert(shorter[j].name_view() != name);
                    }
                }
            },
            Some(idx) => {
                assert(shorter[idx].name_view() == name);
                assert(boeien[idx].name_view() == name);
                assert forall|j: int| idx < j < boeien.len() implies (#[trigger] boeien[j]).name_view() != name by {
                    if j < shorter.len() {
                        assert(shorter[j].name_view() != name);
                    }
                }
            },
        }
    }
}

/// Two lists that hold the same names in the same places resolve every name
/// alike.
pub proof fn lemma_same_names<S: Named, T: Named>(names: Seq<S>, boeien: Seq<T>, name: Seq<char>)
    requires
        names.len() == boeien.len(),
        forall|i: int| 0 <= i < names.len() ==> (#[trigger] names[i]).name_view() == boeien[i].name_view(),
    ensures
        buoy_index(names, name) == buoy_index(boeien, name),
    decreases names.len(),
{
    if names.len() > 0 {
        assert(names.last().name_view() == boeien.last().name_view());
        if names.last().name_view() != name {
            let fewer = names.drop_last();
            let shorter = boeien.drop_last();
            assert forall|i: int| 0 <= i < fewer.len() implies (#[trigger] fewer[i]).name_view()
                == shorter[i].name_view() by {
                assert(fewer[i] == names[i]);
            }
            lemma_same_names(fewer, shorter, name);
        }
    }
}

/// Whether a buoy is of the given kind.
pub open spec fn is_of_type(boei: Boei, buoy_type: Seq<char>) -> bool {
    match boei.buoy_type {
        Some(kind) => kind@ == buoy_type,
        None => false,
    }
}

/// Looks a buoy up by name, scanning from the last one to the first.
pub fn find_buoy_index<T: Named>(boeien: &Vec<T>, name: &String) -> (found: Option<usize>)
    ensures
        found is None <==> buoy_index(boeien@, name@) is None,
        found matches Some(idx) ==> buoy_index(boeien@, name@) == Some(idx as int),
{
    let mut remaining: usize = boeien.len();
    assert(boeien@.take(remaining as int) =~= boeien@);
    while remaining > 0
        invariant
            remaining <= boeien@.len(),
            buoy_index(boeien@, name@) == buoy_index(boeien@.take(remaining as int), name@),
        decreases remaining,
    {
        let ghost prefix = boeien@.take(remaining as int);
        assert(prefix.last() == boeien@[remaining - 1]);
        assert(prefix.drop_last() =~= boeien@.take(remaining - 1));
        if *boeien[remaining - 1].name_ref() == *name {
            return Some(remaining - 1);
        }
        remaining = remaining - 1;
    }
    None
}

/// What a coordinate becomes when it is resolved: the value that its written
/// form gives, or what was known before where nothing is written.
pub open spec fn resolve(written: Option<String>, known: Option<i64>) -> Result<Option<i64>, CoordinateError> {
    match written {
        None => Ok(known),
        Some(text) => match coordinate_of(text@) {
            Ok(value) => Ok(Some(value as i64)),
            Err(error) => Err(error),
        },
    }
}

impl Boei {
    /// Resolves latitude and longitude from their written forms in degrees
    /// and decimal minutes, the latitude first. The first written form that
    /// is not a position ends the work with its error; a latitude resolved
    /// before that stays.
    pub fn parse_coordinates(&mut self) -> (result: Result<(), CoordinateError>)
        ensures
            match (resolve(old(self).lat_min, old(self).lat), resolve(old(self).long_min, old(self).long)) {
                (Err(error), _) => result == Err::<(), CoordinateError>(error) && *final(self) == *old(self),
                (Ok(lat), Err(error)) => result == Err::<(), CoordinateError>(error) && *final(self) == (Boei {
                    lat,
                    ..*old(self)
                }),
                (Ok(lat), Ok(long)) => result == Ok::<(), CoordinateError>(()) && *final(self) == (Boei {
                    lat,
                    long,
                    ..*old(self)
                }),
            },
    {
        match &self.lat_min {
            Some(lat_str) => {
                match Self::parse_coordinate_string(lat_str.as_str()) {
                    Ok(lat) => {
                        self.lat = Some(lat);
                    },
                    Err(error) => {
                        return Err(error);
                    },
                }
            },
            None => {},
        }
        match &self.long_min {
            Some(long_str) => {
                match Self::parse_coordinate_string(long_str.as_str()) {
                    Ok(long) => {
                        self.long = Some(long);
                    },
                    Err(error) => {
                        return Err(error);
                    },
                }
            },
            None => {},
        }
        Ok(())
    }

    /// Reads a position such as `53° 5,020'` (degrees and decimal minutes)
    /// or `5° 20' 17.64'` (degrees, minutes and seconds) into millionths of
    /// a degree.
    pub fn parse_coordinate_string(coord_str: &str) -> (value: Result<i64, CoordinateError>)
        ensures
            match value {
                Ok(v) => coordinate_of(coord_str@) == Ok::<int, CoordinateError>(v as int),
                Err(error) => coordinate_of(coord_str@) == Err::<int, CoordinateError>(error),
            },
    {
        let text = chars_of(coord_str);
        parse_coordinate_chars(&text)
    }

    /// Latitude and longitude, where both are resolved.
    pub fn coordinates(&self) -> (position: Option<(i64, i64)>)
        ensures
            position == match (self.lat, self.long) {
                (Some(lat), Some(long)) => Some((lat, long)),
                _ => None,
            },
    {
        match (self.lat, self.long) {
            (Some(lat), Some(long)) => Some((lat, long)),
            _ => None,
        }
    }

    /// Whether both latitude and longitude are resolved.
    pub open spec fn resolved(&self) -> bool {
        self.lat is Some && self.long is Some
    }

    /// Whether both latitude and longitude are resolved.
    pub fn has_coordinates(&self) -> (resolved: bool)
        ensures
            resolved == self.resolved(),
    {
        self.lat.is_some() && self.long.is_some()
    }
}

impl RegattaData {
    /// The bearing table has one row per buoy and one entry per buoy in each
    /// row, and every entry lies between minus and plus half a turn.
    pub open spec fn bearings_wf(&self) -> bool {
        &&& self.bearings@.len() == self.boeien@.len()
        &&& forall|from: int| 0 <= from < self.bearings@.len() ==> (#[trigger] self.bearings@[from])@.len() == self.boeien@.len()
        &&& forall|from: int, to: int|
            0 <= from < self.bearings@.len() && 0 <= to < self.bearings@[from]@.len() ==> -HALF_TURN <= #[trigger] self.bearings@[from]@[to] <= HALF_TURN
    }

    /// The tables from which the speed on a leg is estimated are usable: the
    /// polar table is rectangular and not empty, the wind schedule is ordered
    /// and not empty, and the bearing table is complete.
    pub open spec fn tables_wf(&self) -> bool {
        &&& self.polar_data.wf()
        &&& self.polar_data.is_populated()
        &&& self.wind_data.wf()
        &&& self.wind_data.conditions@.len() > 0
        &&& self.bearings_wf()
    }

    /// Both names are names of buoys, and both buoys have coordinates.
    pub open spec fn ends_resolved(&self, from: Seq<char>, to: Seq<char>) -> bool {
        match (buoy_index(self.boeien@, from), buoy_index(self.boeien@, to)) {
            (Some(a), Some(b)) => self.boeien@[a].resolved() && self.boeien@[b].resolved(),
            _ => false,
        }
    }

    /// The course can be laid out as a graph and sailed: the numbers of
    /// buoys and of edges fit the graph's 32-bit indices, every distance is
    /// positive and at most [`MAX_DISTANCE`], and every start line and leg
    /// names two buoys that have coordinates.
    pub open spec fn course_wf(&self) -> bool {
        &&& self.boeien@.len() < u32::MAX
        &&& self.starts@.len() + 2 * self.rakken@.len() < u32::MAX
        &&& forall|i: int|
            0 <= i < self.starts@.len() ==> 0 < (#[trigger] self.starts@[i]).distance <= MAX_DISTANCE
                && self.ends_resolved(self.starts@[i].from@, self.starts@[i].to@)
        &&& forall|i: int|
            0 <= i < self.rakken@.len() ==> 0 < (#[trigger] self.rakken@[i]).distance <= MAX_DISTANCE
                && self.ends_resolved(self.rakken@[i].from@, self.rakken@[i].to@)
    }

    /// The whole data set is consistent.
    pub open spec fn wf(&self) -> bool {
        self.tables_wf() && self.course_wf()
    }

    /// Whether the bearing table is complete and every entry lies between
    /// minus and plus half a turn.
    pub fn bearings_valid(&self) -> (valid: bool)
        ensures
            valid == self.bearings_wf(),
    {
        let count = self.boeien.len();
        if self.bearings.len() != count {
            return false;
        }
        let mut from: usize = 0;
        while from < count
            invariant
                from <= count,
                count == self.boeien@.len(),
                count == self.bearings@.len(),
                forall|f: int| 0 <= f < from ==> (#[trigger] self.bearings@[f])@.len() == count,
                forall|f: int, t: int|
                    0 <= f < from && 0 <= t < self.bearings@[f]@.len() ==> -HALF_TURN <= #[trigger] self.bearings@[f]@[t]
                        <= HALF_TURN,
            decreases count - from,
        {
            let row = &self.bearings[from];
            if row.len() != count {
                return false;
            }
            let mut to: usize = 0;
            while to < count
                invariant
                    to <= count,
                    from < count,
                    count == self.bearings@.len(),
                    row == &self.bearings@[from as int],
                    row@.len() == count,
                    forall|t: int| 0 <= t < to ==> -HALF_TURN <= #[trigger] row@[t] <= HALF_TURN,
                decreases count - to,
            {
                if row[to] < -HALF_TURN || row[to] > HALF_TURN {
                    assert(!(-HALF_TURN <= self.bearings@[from as int]@[to as int] <= HALF_TURN));
                    return false;
                }
                to = to + 1;
            }
            from = from + 1;
        }
        true
    }

    /// Whether the tables from which the speed on a leg is estimated are
    /// usable.
    pub fn tables_valid(&self) -> (valid: bool)
        ensures
            valid == self.tables_wf(),
    {
        self.polar_data.is_valid() && self.wind_data.is_valid() && self.wind_data.conditions.len() > 0
            && self.bearings_valid()
    }

    /// Whether both names are names of buoys with coordinates.
    fn ends_valid(&self, from: &String, to: &String) -> (valid: bool)
        ensures
            valid == self.ends_resolved(from@, to@),
    {
        proof {
            lemma_buoy_index(self.boeien@, from@);
            lemma_buoy_index(self.boeien@, to@);
        }
        match (find_buoy_index(&self.boeien, from), find_buoy_index(&self.boeien, to)) {
            (Some(a), Some(b)) => self.boeien[a].has_coordinates() && self.boeien[b].has_coordinates(),
            _ => false,
        }
    }

    /// Whether the course can be laid out as a graph and sailed.
    pub fn course_valid(&self) -> (valid: bool)
        ensures
            valid == self.course_wf(),
    {
        let limit: usize = 0xFFFF_FFFF;
        if self.boeien.len() >= limit || self.starts.len() >= limit || self.rakken.len() >= limit {
            return false;
        }
        if self.starts.len() as u64 + 2 * (self.rakken.len() as u64) >= limit as u64 {
            return false;
        }
        let mut i: usize = 0;
        while i < self.starts.len()
            invariant
                i <= self.starts@.len(),
                forall|k: int|
                    0 <= k < i ==> 0 < (#[trigger] self.starts@[k]).distance <= MAX_DISTANCE && self.ends_resolved(
                        self.starts@[k].from@,
                        self.starts@[k].to@,
                    ),
            decreases self.starts@.len() - i,
        {
            let start = &self.starts[i];
            if start.distance <= 0 || start.distance > MAX_DISTANCE || !self.ends_valid(&start.from, &start.to) {
                return false;
            }
            i = i + 1;
        }
        let mut i: usize = 0;
        while i < self.rakken.len()
            invariant
                i <= self.rakken@.len(),
                forall|k: int|
                    0 <= k < i ==> 0 < (#[trigger] self.rakken@[k]).distance <= MAX_DISTANCE && self.ends_resolved(
                        self.rakken@[k].from@,
                        self.rakken@[k].to@,
                    ),
            decreases self.rakken@.len() - i,
        {
            let rak = &self.rakken[i];
            if rak.distance <= 0 || rak.distance > MAX_DISTANCE || !self.ends_valid(&rak.from, &rak.to) {
                return false;
            }
            i = i + 1;
        }
        true
    }

    /// Whether the whole data set is consistent.
    pub fn is_valid(&self) -> (valid: bool)
        ensures
            valid == self.wf(),
    {
        self.tables_valid() && self.course_valid()
    }

    /// A data set without buoys, start lines, legs, polar entries or wind.
    pub fn new() -> (data: Self)
        ensures
            data.boeien@.len() == 0,
            data.starts@.len() == 0,
            data.rakken@.len() == 0,
            data.bearings@.len() == 0,
            data.polar_data.wind_angles@.len() == 0,
            data.polar_data.wind_speeds@.len() == 0,
            data.polar_data.boat_speeds@.len() == 0,
            data.wind_data.conditions@.len() == 0,
    {
        RegattaData {
            boeien: Vec::new(),
            starts: Vec::new(),
            rakken: Vec::new(),
            polar_data: PolarData::new(),
            wind_data: WindData::new(),
            bearings: Vec::new(),
        }
    }

    /// The index of the buoy with the given name.
    pub fn get_boei_index(&self, name: &str) -> (found: Option<usize>)
        ensures
            found is None <==> buoy_index(self.boeien@, name@) is None,
            found matches Some(idx) ==> buoy_index(self.boeien@, name@) == Some(idx as int),
    {
        let wanted: String = name.to_owned();
        find_buoy_index(&self.boeien, &wanted)
    }

    /// The buoy with the given name.
    pub fn get_boei(&self, name: &str) -> (found: Option<&Boei>)
        ensures
            found is Some <==> buoy_index(self.boeien@, name@) is Some,
            found matches Some(boei) ==> *boei == self.boeien@[buoy_index(self.boeien@, name@).unwrap()],
    {
        proof {
            lemma_buoy_index(self.boeien@, name@);
        }
        match self.get_boei_index(name) {
            Some(idx) => Some(&self.boeien[idx]),
            None => None,
        }
    }

    /// All buoys of the given kind, in table order.
    pub fn get_boeien_by_type(&self, buoy_type: &str) -> (found: Vec<&Boei>)
        ensures
            found@.map_values(|boei: &Boei| *boei) == self.boeien@.filter(|boei: Boei| is_of_type(boei, buoy_type@)),
    {
        let wanted: String = buoy_type.to_owned();
        let ghost kind = |boei: Boei| is_of_type(boei, buoy_type@);
        let mut found: Vec<&Boei> = Vec::new();
        let mut i: usize = 0;
        proof {
            reveal(Seq::filter);
            assert(found@.map_values(|boei: &Boei| *boei) =~= self.boeien@.take(0).filter(kind));
        }
        while i < self.boeien.len()
            invariant
                i <= self.boeien@.len(),
                wanted@ == buoy_type@,
                kind == (|boei: Boei| is_of_type(boei, buoy_type@)),
                found@.map_values(|boei: &Boei| *boei) == self.boeien@.take(i as int).filter(kind),
            decreases self.boeien@.len() - i,
        {
            let boei = &self.boeien[i];
            let matches = match &boei.buoy_type {
                Some(kind_name) => *kind_name == wanted,
                None => false,
            };
            let ghost before = found@.map_values(|boei: &Boei| *boei);
            if matches {
                found.push(boei);
            }
            proof {
                reveal(Seq::filter);
                let longer = self.boeien@.take(i + 1);
                assert(longer.drop_last() =~= self.boeien@.take(i as int));
                assert(longer.last() == *boei);
                assert(kind(*boei) == matches);
                if matches {
                    assert(found@.map_values(|boei: &Boei| *boei) =~= before.push(*boei));
                }
            }
            i = i + 1;
        }
        assert(self.boeien@.take(i as int) =~= self.boeien@);
        found
    }

    /// All start lines.
    pub fn get_starts(&self) -> (starts: &Vec<Start>)
        ensures
            starts == &self.starts,
    {
        &self.starts
    }

    /// All legs.
    pub fn get_rakken(&self) -> (rakken: &Vec<Rak>)
        ensures
            rakken == &self.rakken,
    {
        &self.rakken
    }

    /// The polar table.
    pub fn get_polar_data(&self) -> (polar_data: &PolarData)
        ensures
            polar_data == &self.polar_data,
    {
        &self.polar_data
    }

    /// The wind schedule.
    pub fn get_wind_data(&self) -> (wind_data: &WindData)
        ensures
            wind_data == &self.wind_data,
    {
        &self.wind_data
    }
}

} // verus!
