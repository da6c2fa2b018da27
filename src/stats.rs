use vstd::prelude::*;

use crate::temperature::{TEMP_MAX, TEMP_MIN};

verus! {

/// Most readings one station may collect: with readings of at most 999 tenths in
/// magnitude, the running total then fits an `i64`.
pub const MAX_COUNT: u64 = 9_000_000_000_000;

/// What a station's statistics are, as mathematical values.
pub ghost struct StationModel {
    pub name: Seq<char>,
    pub min: int,
    pub max: int,
    pub total: int,
    pub count: int,
}

/// Statistics of one station after a first reading.
pub open spec fn first_reading(name: Seq<char>, t: int) -> StationModel {
    StationModel { name, min: t, max: t, total: t, count: 1 }
}

/// Statistics after one more reading; the name stays.
pub open spec fn add_reading(s: StationModel, t: int) -> StationModel {
    StationModel {
        name: s.name,
        min: if t < s.min { t } else { s.min },
        max: if t > s.max { t } else { s.max },
        total: s.total + t,
        count: s.count + 1,
    }
}

/// Statistics of two disjoint groups of readings; the first name stays.
pub open spec fn combine(a: StationModel, b: StationModel) -> StationModel {
    StationModel {
        name: a.name,
        min: if b.min < a.min { b.min } else { a.min },
        max: if b.max > a.max { b.max } else { a.max },
        total: a.total + b.total,
        count: a.count + b.count,
    }
}

/// Integer division that truncates toward zero.
pub open spec fn trunc_div(n: int, d: int) -> int {
    if n >= 0 {
        n / d
    } else {
        -((-n) / d)
    }
}

/// The mean reading in tenths, truncated toward zero.
pub open spec fn mean(s: StationModel) -> int {
    trunc_div(s.total, s.count)
}

pub open spec fn model_wf(s: StationModel) -> bool {
    &&& 1 <= s.count <= MAX_COUNT
    &&& TEMP_MIN <= s.min <= s.max <= TEMP_MAX
    &&& s.count * TEMP_MIN <= s.total <= s.count * TEMP_MAX
}

/// Minimum, maximum, total and count of the readings of one station.
#[derive(Debug)]
pub struct City {
    pub min: i32,
    pub max: i32,
    pub total: i64,
    pub count: u64,
    pub city: String,
}

impl View for City {
    type V = StationModel;

    open spec fn view(&self) -> StationModel {
        StationModel {
            name: self.city@,
            min: self.min as int,
            max: self.max as int,
            total: self.total as int,
            count: self.count as int,
        }
    }
}

impl City {
    /// A station has at least one reading, and its numbers are those of readings.
    pub open spec fn wf(&self) -> bool {
        model_wf(self@)
    }

    /// The statistics of a station whose first reading is `temp`.
    pub fn new(name: String, temp: i32) -> (r: City)
        requires
            TEMP_MIN <= temp <= TEMP_MAX,
        ensures
            r@ == first_reading(name@, temp as int),
            r.wf(),
    {
        City { min: temp, max: temp, total: temp as i64, count: 1, city: name }
    }

    /// Folds one more reading into the statistics.
    pub fn update(&mut self, temp: i32)
        requires
            old(self).wf(),
            TEMP_MIN <= temp <= TEMP_MAX,
            old(self).count < MAX_COUNT,
        ensures
            final(self)@ == add_reading(old(self)@, temp as int),
            final(self).wf(),
    {
        if temp < self.min {
            self.min = temp;
        }
        if temp > self.max {
            self.max = temp;
        }
        self.total = self.total + temp as i64;
        self.count = self.count + 1;
    }

    /// Folds the statistics of another group of readings into these.
    pub fn merge(&mut self, other: &Self)
        requires
            old(self).wf(),
            other.wf(),
            old(self).count + other.count <= MAX_COUNT,
        ensures
            final(self)@ == combine(old(self)@, other@),
            final(self).wf(),
    {
        if other.min < self.min {
            self.min = other.min;
        }
        if other.max > self.max {
            self.max = other.max;
        }
        self.total = self.total + other.total;
        self.count = self.count + other.count;
    }

    /// A copy of these statistics, name included.
    pub fn copy(&self) -> (r: City)
        ensures
            r@ == self@,
    {
        City {
            min: self.min,
            max: self.max,
            total: self.total,
            count: self.count,
            city: self.city.clone(),
        }
    }

    /// The mean reading in tenths, truncated toward zero.
    pub fn mean(&self) -> (r: i32)
        requires
            self.wf(),
        ensures
            r as int == mean(self@),
            TEMP_MIN <= r <= TEMP_MAX,
    {
        let c = self.count as i64;
        if self.total >= 0 {
            assert(self.total / c <= TEMP_MAX) by (nonlinear_arith)
                requires
                    self.total <= c * TEMP_MAX,
                    c >= 1,
            ;
            (self.total / c) as i32
        } else {
            let n = -self.total;
            assert(n / c <= -TEMP_MIN) by (nonlinear_arith)
                requires
                    n <= c * (-TEMP_MIN),
                    c >= 1,
            ;
            -((n / c) as i32)
        }
    }
}

} // verus!
