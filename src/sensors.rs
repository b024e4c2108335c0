//! Snapshot model: named readings of one sensor, and the set of registered sensors.
use vstd::prelude::*;

verus! {

/// Mathematical value of one reading: its name, the IEEE-754 binary32 bit
/// pattern of its value, and its unit.
pub struct ReadingView {
    pub name: Seq<char>,
    pub value: u32,
    pub unit: Seq<char>,
}

/// Mathematical value of one sensor snapshot.
pub struct SnapshotView {
    pub name: Seq<char>,
    pub types: Seq<Seq<char>>,
    pub location: Seq<char>,
    pub readings: Seq<ReadingView>,
}

/// One named reading of a sensor.
///
/// The value is the bit pattern of an IEEE-754 binary32 number
/// (`f32::to_bits`), so that the library carries it exactly.
#[derive(Debug)]
pub struct SensorValue {
    pub value_name: String,
    pub value: u32,
    pub unit: String,
}

impl View for SensorValue {
    type V = ReadingView;

    open spec fn view(&self) -> ReadingView {
        ReadingView { name: self.value_name@, value: self.value, unit: self.unit@ }
    }
}

impl Clone for SensorValue {
    fn clone(&self) -> (r: Self)
        ensures
            r@ == self@,
    {
        SensorValue { value_name: self.value_name.clone(), value: self.value, unit: self.unit.clone() }
    }
}

pub open spec fn readings_view(vs: Seq<SensorValue>) -> Seq<ReadingView> {
    vs.map_values(|v: SensorValue| v@)
}

pub open spec fn strings_view(ss: Seq<String>) -> Seq<Seq<char>> {
    ss.map_values(|s: String| s@)
}

/// No two readings share a name.
pub open spec fn names_unique(rs: Seq<ReadingView>) -> bool {
    forall|i: int, j: int| 0 <= i < rs.len() && 0 <= j < rs.len() && i != j ==> rs[i].name != rs[j].name
}

pub open spec fn has_reading(rs: Seq<ReadingView>, name: Seq<char>) -> bool {
    exists|i: int| 0 <= i < rs.len() && rs[i].name == name
}

pub open spec fn reading_names(rs: Seq<ReadingView>) -> Seq<Seq<char>> {
    rs.map_values(|r: ReadingView| r.name)
}

/// The readings after storing `value` under `name`: the reading of that name
/// takes the new value and keeps its unit; a new name is appended.
pub open spec fn upsert(rs: Seq<ReadingView>, name: Seq<char>, value: u32, unit: Seq<char>) -> Seq<ReadingView> {
    if has_reading(rs, name) {
        let i = choose|i: int| 0 <= i < rs.len() && rs[i].name == name;
        rs.update(i, ReadingView { value: value, ..rs[i] })
    } else {
        rs.push(ReadingView { name: name, value: value, unit: unit })
    }
}

/// The snapshot of one sensor: its identity and its readings, keyed by name.
#[derive(Debug)]
pub struct SensorData {
    name: String,
    sensor_type: Vec<String>,
    location: String,
    values: Vec<SensorValue>,
}

impl View for SensorData {
    type V = SnapshotView;

    closed spec fn view(&self) -> SnapshotView {
        SnapshotView {
            name: self.name@,
            types: strings_view(self.sensor_type@),
            location: self.location@,
            readings: readings_view(self.values@),
        }
    }
}

impl SensorData {
    pub open spec fn wf(&self) -> bool {
        names_unique(self@.readings)
    }

    /// A snapshot with the given identity and no readings.
    pub fn new(sensor_name: &str, sensor_type: Vec<String>, sensor_location: String) -> (r: Self)
        ensures
            r.wf(),
            r@.name == sensor_name@,
            r@.types == strings_view(sensor_type@),
            r@.location == sensor_location@,
            r@.readings == Seq::<ReadingView>::empty(),
    {
        let r = SensorData {
            name: sensor_name.to_owned(),
            sensor_type,
            location: sensor_location,
            values: Vec::new(),
        };
        assert(r@.readings =~= Seq::<ReadingView>::empty());
        r
    }

    /// Stores a reading: an existing reading of that name takes the new value,
    /// otherwise the reading is appended.
    pub fn push_value(&mut self, name: &str, value: u32, unit: &str)
        requires
            old(self).wf(),
        ensures
            final(self).wf(),
            final(self)@.name == old(self)@.name,
            final(self)@.types == old(self)@.types,
            final(self)@.location == old(self)@.location,
            final(self)@.readings == upsert(old(self)@.readings, name@, value, unit@),
    {
        let key = name.to_owned();
        let n = self.values.len();
        let mut i: usize = 0;
        while i < n
            invariant
                n == self.values.len(),
                *self == *old(self),
                old(self).wf(),
                0 <= i <= n,
                key@ == name@,
                forall|k: int| 0 <= k < i ==> self.values@[k].value_name@ != name@,
            decreases n - i,
        {
            if self.values[i].value_name == key {
                let ghost rs = old(self)@.readings;
                proof {
                    assert(rs[i as int] == self.values@[i as int]@);
                    assert(rs[i as int].name == name@);
                    let j = choose|j: int| 0 <= j < rs.len() && rs[j].name == name@;
                    assert(rs[j] == self.values@[j]@);
                    assert(names_unique(rs));
                    if j != i as int {
                        assert(rs[j].name != rs[i as int].name);
                    }
                    assert(j == i as int);
                }
                self.values[i].value = value;
                proof {
                    assert(readings_view(self.values@) =~= upsert(rs, name@, value, unit@));
                }
                return;
            }
            i = i + 1;
        }
        let ghost rs = old(self)@.readings;
        self.values.push(SensorValue { value_name: key, value, unit: unit.to_owned() });
        proof {
            assert forall|k: int| 0 <= k < rs.len() implies rs[k].name != name@ by {
                assert(rs[k] == old(self).values@[k]@);
            }
            assert(!has_reading(rs, name@));
            assert(readings_view(self.values@) =~= upsert(rs, name@, value, unit@));
        }
    }

    pub fn set_name(&mut self, name: String)
        ensures
            final(self)@ == (SnapshotView { name: name@, ..old(self)@ }),
    {
        self.name = name;
    }

    pub fn add_type(&mut self, sensor_type: String)
        ensures
            final(self)@ == (SnapshotView { types: old(self)@.types.push(sensor_type@), ..old(self)@ }),
    {
        self.sensor_type.push(sensor_type);
        assert(strings_view(self.sensor_type@) =~= old(self)@.types.push(sensor_type@));
    }

    pub fn set_location(&mut self, location: String)
        ensures
            final(self)@ == (SnapshotView { location: location@, ..old(self)@ }),
    {
        self.location = location;
    }

    /// The readings, in the order in which their names were first stored.
    pub fn get_values(&self) -> (r: &Vec<SensorValue>)
        ensures
            readings_view(r@) == self@.readings,
    {
        &self.values
    }

    pub fn get_name(&self) -> (r: &String)
        ensures
            r@ == self@.name,
    {
        &self.name
    }

    pub fn get_types(&self) -> (r: &Vec<String>)
        ensures
            strings_view(r@) == self@.types,
    {
        &self.sensor_type
    }

    pub fn get_location(&self) -> (r: &String)
        ensures
            r@ == self@.location,
    {
        &self.location
    }
}

impl Clone for SensorData {
    fn clone(&self) -> (r: Self)
        ensures
            r@ == self@,
    {
        let mut types: Vec<String> = Vec::new();
        let mut i: usize = 0;
        while i < self.sensor_type.len()
            invariant
                0 <= i <= self.sensor_type.len(),
                types@.len() == i,
                forall|k: int| 0 <= k < i ==> #[trigger] types@[k]@ == self.sensor_type@[k]@,
            decreases self.sensor_type.len() - i,
        {
            types.push(self.sensor_type[i].clone());
            i = i + 1;
        }
        let mut values: Vec<SensorValue> = Vec::new();
        let mut j: usize = 0;
        while j < self.values.len()
            invariant
                0 <= j <= self.values.len(),
                values@.len() == j,
                forall|k: int| 0 <= k < j ==> #[trigger] values@[k]@ == self.values@[k]@,
            decreases self.values.len() - j,
        {
            values.push(self.values[j].clone());
            j = j + 1;
        }
        assert(strings_view(types@) =~= strings_view(self.sensor_type@));
        assert(readings_view(values@) =~= readings_view(self.values@));
        SensorData { name: self.name.clone(), sensor_type: types, location: self.location.clone(), values }
    }
}

/// Sensor type whose presence makes a sampling cycle fit for publication.
pub const REFERENCE_TYPE: &'static str = "illuminance";

pub open spec fn snapshots_view(ss: Seq<SensorData>) -> Seq<SnapshotView> {
    ss.map_values(|s: SensorData| s@)
}

pub open spec fn all_wf(ss: Seq<SensorData>) -> bool {
    forall|i: int| 0 <= i < ss.len() ==> #[trigger] ss[i].wf()
}

pub open spec fn is_of_type(s: SnapshotView, sensor_type: Seq<char>) -> bool {
    s.types.contains(sensor_type)
}

pub open spec fn is_reference(s: SnapshotView) -> bool {
    is_of_type(s, REFERENCE_TYPE@)
}

pub open spec fn has_reference(ss: Seq<SnapshotView>) -> bool {
    exists|i: int| 0 <= i < ss.len() && is_reference(#[trigger] ss[i])
}

pub open spec fn reference_values_of(ss: Seq<SnapshotView>) -> Seq<u32>
    decreases ss.len(),
{
    if ss.len() == 0 {
        Seq::empty()
    } else {
        let rest = reference_values_of(ss.drop_last());
        let s = ss.last();
        if is_reference(s) && s.readings.len() > 0 {
            rest.push(s.readings[0].value)
        } else {
            rest
        }
    }
}

/// The registered sensors, in registration order, and the sampling period.
pub struct SensorManager {
    sensors: Vec<SensorData>,
    poll_interval_ms: u64,
}

pub struct ManagerView {
    pub sensors: Seq<SnapshotView>,
    pub poll_interval_ms: u64,
}

impl View for SensorManager {
    type V = ManagerView;

    closed spec fn view(&self) -> ManagerView {
        ManagerView { sensors: snapshots_view(self.sensors@), poll_interval_ms: self.poll_interval_ms }
    }
}

impl SensorManager {
    pub closed spec fn wf(&self) -> bool {
        self.poll_interval_ms > 0 && all_wf(self.sensors@)
    }

    /// A manager with no sensors; `None` when the period is zero.
    pub fn new(poll_interval_ms: u64) -> (r: Option<Self>)
        ensures
            r is Some <==> poll_interval_ms > 0,
            r matches Some(m) ==> m.wf() && m@.sensors == Seq::<SnapshotView>::empty()
                && m@.poll_interval_ms == poll_interval_ms,
    {
        if poll_interval_ms == 0 {
            return None;
        }
        let m = SensorManager { sensors: Vec::new(), poll_interval_ms };
        assert(m@.sensors =~= Seq::<SnapshotView>::empty());
        Some(m)
    }

    /// Registers a sensor after those already registered.
    pub fn add_sensor(&mut self, sensor: SensorData)
        requires
            old(self).wf(),
            sensor.wf(),
        ensures
            final(self).wf(),
            final(self)@.sensors == old(self)@.sensors.push(sensor@),
            final(self)@.poll_interval_ms == old(self)@.poll_interval_ms,
    {
        self.sensors.push(sensor);
        assert(snapshots_view(self.sensors@) =~= snapshots_view(old(self).sensors@).push(sensor@));
    }

    /// Stores a reading on the sensor registered at `index`.
    pub fn push_value(&mut self, index: usize, name: &str, value: u32, unit: &str)
        requires
            old(self).wf(),
            index < old(self)@.sensors.len(),
        ensures
            final(self).wf(),
            final(self)@.poll_interval_ms == old(self)@.poll_interval_ms,
            final(self)@.sensors.len() == old(self)@.sensors.len(),
            forall|i: int| 0 <= i < old(self)@.sensors.len() && i != index ==>
                #[trigger] final(self)@.sensors[i] == old(self)@.sensors[i],
            final(self)@.sensors[index as int].name == old(self)@.sensors[index as int].name,
            final(self)@.sensors[index as int].types == old(self)@.sensors[index as int].types,
            final(self)@.sensors[index as int].location == old(self)@.sensors[index as int].location,
            final(self)@.sensors[index as int].readings
                == upsert(old(self)@.sensors[index as int].readings, name@, value, unit@),
    {
        assert(self.sensors@[index as int].wf());
        let mut s = self.sensors.remove(index);
        s.push_value(name, value, unit);
        self.sensors.insert(index, s);
        proof {
            assert forall|i: int| 0 <= i < self.sensors@.len() implies #[trigger] self.sensors@[i].wf() by {
                if i != index as int {
                    assert(self.sensors@[i] == old(self).sensors@[i]);
                }
            }
            assert forall|i: int| 0 <= i < old(self)@.sensors.len() && i != index implies
                #[trigger] self@.sensors[i] == old(self)@.sensors[i] by {
                assert(self.sensors@[i] == old(self).sensors@[i]);
            }
        }
    }

    /// Whether the snapshot lists `sensor_type` among its types.
    fn sensor_has_type(s: &SensorData, sensor_type: &String) -> (r: bool)
        ensures
            r == is_of_type(s@, sensor_type@),
    {
        let mut k: usize = 0;
        while k < s.sensor_type.len()
            invariant
                0 <= k <= s.sensor_type.len(),
                forall|m: int| 0 <= m < k ==> s.sensor_type@[m]@ != sensor_type@,
            decreases s.sensor_type.len() - k,
        {
            if s.sensor_type[k] == *sensor_type {
                assert(strings_view(s.sensor_type@)[k as int] == sensor_type@);
                return true;
            }
            k = k + 1;
        }
        assert forall|m: int| 0 <= m < s@.types.len() implies s@.types[m] != sensor_type@ by {
            assert(s@.types[m] == s.sensor_type@[m]@);
        }
        false
    }

    /// Positions, in registration order, of the sensors of the given type.
    pub fn get_sensors_by_type(&self, sensor_type: &str) -> (r: Vec<usize>)
        ensures
            forall|k: int| 0 <= k < r@.len() ==> #[trigger] r@[k] < self@.sensors.len()
                && is_of_type(self@.sensors[r@[k] as int], sensor_type@),
            forall|k: int, m: int| 0 <= k < m < r@.len() ==> r@[k] < r@[m],
            forall|i: int| 0 <= i < self@.sensors.len() && is_of_type(#[trigger] self@.sensors[i], sensor_type@)
                ==> r@.contains(i as usize),
    {
        let wanted = sensor_type.to_owned();
        let mut r: Vec<usize> = Vec::new();
        let mut i: usize = 0;
        while i < self.sensors.len()
            invariant
                0 <= i <= self.sensors.len(),
                wanted@ == sensor_type@,
                forall|k: int| 0 <= k < r@.len() ==> #[trigger] r@[k] < i
                    && is_of_type(self@.sensors[r@[k] as int], sensor_type@),
                forall|k: int, m: int| 0 <= k < m < r@.len() ==> r@[k] < r@[m],
                forall|j: int| 0 <= j < i && is_of_type(#[trigger] self@.sensors[j], sensor_type@)
                    ==> r@.contains(j as usize),
            decreases self.sensors.len() - i,
        {
            let found = Self::sensor_has_type(&self.sensors[i], &wanted);
            if found {
                let ghost before = r@;
                r.push(i);
                proof {
                    assert forall|j: int| 0 <= j < i + 1 && is_of_type(#[trigger] self@.sensors[j], sensor_type@)
                        implies r@.contains(j as usize) by {
                        if j < i {
                            let w = choose|w: int| 0 <= w < before.len() && before[w] == j as usize;
                            assert(r@[w] == j as usize);
                        } else {
                            assert(r@[before.len() as int] == i);
                        }
                    }
                }
            }
            i = i + 1;
        }
        r
    }

    /// Position of the first sensor with the given name.
    fn get_sensor(&self, sensor_name: &str) -> (r: Option<usize>)
        ensures
            r matches Some(i) ==> i < self@.sensors.len() && self@.sensors[i as int].name == sensor_name@
                && forall|j: int| 0 <= j < i ==> #[trigger] self@.sensors[j].name != sensor_name@,
            r is None ==> forall|j: int| 0 <= j < self@.sensors.len() ==> #[trigger] self@.sensors[j].name != sensor_name@,
    {
        let wanted = sensor_name.to_owned();
        let mut i: usize = 0;
        while i < self.sensors.len()
            invariant
                0 <= i <= self.sensors.len(),
                wanted@ == sensor_name@,
                forall|j: int| 0 <= j < i ==> #[trigger] self@.sensors[j].name != sensor_name@,
            decreases self.sensors.len() - i,
        {
            if self.sensors[i].name == wanted {
                return Some(i);
            }
            i = i + 1;
        }
        None
    }

    /// The snapshot of the first sensor with the given name.
    pub fn get_sensor_data(&self, sensor_name: &str) -> (r: Option<&SensorData>)
        ensures
            r matches Some(d) ==> exists|i: int| 0 <= i < self@.sensors.len() && self@.sensors[i] == d@
                && d@.name == sensor_name@ && forall|j: int| 0 <= j < i ==> #[trigger] self@.sensors[j].name != sensor_name@,
            r is None ==> forall|j: int| 0 <= j < self@.sensors.len() ==> #[trigger] self@.sensors[j].name != sensor_name@,
    {
        match self.get_sensor(sensor_name) {
            Some(i) => Some(&self.sensors[i]),
            None => None,
        }
    }

    /// The readings of the first sensor with the given name.
    pub fn get_sensor_values(&self, sensor_name: &str) -> (r: Option<&Vec<SensorValue>>)
        ensures
            r matches Some(vs) ==> exists|i: int| 0 <= i < self@.sensors.len() && self@.sensors[i].readings == readings_view(vs@)
                && self@.sensors[i].name == sensor_name@ && forall|j: int| 0 <= j < i ==> #[trigger] self@.sensors[j].name != sensor_name@,
            r is None ==> forall|j: int| 0 <= j < self@.sensors.len() ==> #[trigger] self@.sensors[j].name != sensor_name@,
    {
        match self.get_sensor(sensor_name) {
            Some(i) => Some(self.sensors[i].get_values()),
            None => None,
        }
    }

    /// Whether a reference sensor is registered: a cycle without one is not
    /// published.
    pub fn check_illuminance(&self) -> (r: bool)
        ensures
            r == has_reference(self@.sensors),
    {
        let refs = self.get_sensors_by_type(REFERENCE_TYPE);
        proof {
            if has_reference(self@.sensors) {
                let i = choose|i: int| 0 <= i < self@.sensors.len() && is_reference(#[trigger] self@.sensors[i]);
                assert(refs@.contains(i as usize));
            }
            if refs@.len() > 0 {
                assert(is_of_type(self@.sensors[refs@[0] as int], REFERENCE_TYPE@));
            }
        }
        refs.len() > 0
    }

    /// Value bits of the first reading of each reference sensor that has a
    /// reading, in registration order.
    pub fn reference_values(&self) -> (r: Vec<u32>)
        ensures
            r@ == reference_values_of(self@.sensors),
    {
        let mut r: Vec<u32> = Vec::new();
        let wanted = REFERENCE_TYPE.to_owned();
        let mut i: usize = 0;
        while i < self.sensors.len()
            invariant
                0 <= i <= self.sensors.len(),
                wanted@ == REFERENCE_TYPE@,
                r@ == reference_values_of(self@.sensors.take(i as int)),
            decreases self.sensors.len() - i,
        {
            let s = &self.sensors[i];
            let is_ref = Self::sensor_has_type(s, &wanted);
            assert(self@.sensors.take(i + 1).drop_last() =~= self@.sensors.take(i as int));
            if is_ref && s.values.len() > 0 {
                assert(s@.readings[0] == s.values@[0]@);
                r.push(s.values[0].value);
            }
            i = i + 1;
        }
        assert(self@.sensors.take(self.sensors.len() as int) =~= self@.sensors);
        r
    }

    /// Copies of all snapshots, in registration order.
    pub fn snapshot_batch(&self) -> (r: Vec<SensorData>)
        requires
            self.wf(),
        ensures
            snapshots_view(r@) == self@.sensors,
            all_wf(r@),
    {
        let mut r: Vec<SensorData> = Vec::new();
        let mut i: usize = 0;
        while i < self.sensors.len()
            invariant
                0 <= i <= self.sensors.len(),
                all_wf(self.sensors@),
                r@.len() == i,
                forall|k: int| 0 <= k < i ==> #[trigger] r@[k]@ == self.sensors@[k]@,
                all_wf(r@),
            decreases self.sensors.len() - i,
        {
            let c = self.sensors[i].clone();
            assert(self.sensors@[i as int].wf());
            assert(c.wf());
            let ghost before = r@;
            r.push(c);
            proof {
                assert forall|k: int| 0 <= k < r@.len() implies #[trigger] r@[k].wf() by {
                    if k < i {
                        assert(r@[k] == before[k]);
                    }
                }
            }
            i = i + 1;
        }
        assert(snapshots_view(r@) =~= self@.sensors);
        r
    }

    /// What one sampling cycle hands to the channel: every snapshot when a
    /// reference sensor is registered, nothing otherwise.
    pub fn cycle_publication(&self) -> (r: Option<Vec<SensorData>>)
        requires
            self.wf(),
        ensures
            r is Some <==> has_reference(self@.sensors),
            r matches Some(b) ==> snapshots_view(b@) == self@.sensors && all_wf(b@),
    {
        if self.check_illuminance() {
            Some(self.snapshot_batch())
        } else {
            None
        }
    }

    pub fn get_sensors(&self) -> (r: &Vec<SensorData>)
        ensures
            snapshots_view(r@) == self@.sensors,
    {
        &self.sensors
    }

    pub fn poll_interval_ms(&self) -> (r: u64)
        ensures
            r == self@.poll_interval_ms,
    {
        self.poll_interval_ms
    }
}

} // verus!
