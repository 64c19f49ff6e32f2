//! Data models for the experiment store.
//!
//! Values that the underlying store records as floating-point numbers are
//! held as fixed-point integers: a metric value or float configuration value
//! of `v` is stored as `v * VALUE_SCALE` rounded to the nearest unit, so that
//! the chart and formatting logic is exact integer arithmetic. Timestamps are
//! microseconds since the Unix epoch.

use vstd::prelude::*;
use vstd::string::StrSliceExecFns;
use vstd::string::StringExecFns;

verus! {

/// Fixed-point units per 1.0 of a stored value.
pub const VALUE_SCALE: i64 = 10000;

/// Maximum characters to show in a run's display name before truncating.
pub const DISPLAY_NAME_MAX_LEN: usize = 8;

/// A project containing multiple runs; a read-only summary replaced wholesale
/// on each refresh.
#[derive(Debug, Clone)]
pub struct Project {
    pub name: String,
    pub run_count: usize,
    pub last_updated: Option<i64>,
}

/// An individual experiment run within a project. `id` is the only field
/// usable for cross-refresh identity comparisons; list position is not
/// stable.
#[derive(Debug, Clone)]
pub struct Run {
    pub id: String,
    pub project: String,
    pub created_at: Option<i64>,
    pub config: Vec<Config>,
    pub display_name: String,
}

impl Run {
    /// Create a new run with a display name derived from its id: ids longer
    /// than [`DISPLAY_NAME_MAX_LEN`] characters are truncated with an
    /// ellipsis.
    pub fn new(id: String, project: String, created_at: Option<i64>, config: Vec<Config>) -> (r:
        Run)
        ensures
            r.id@ == id@,
            r.project@ == project@,
            r.created_at == created_at,
            r.config@ == config@,
            id@.len() > DISPLAY_NAME_MAX_LEN ==> r.display_name@ == id@.subrange(
                0,
                DISPLAY_NAME_MAX_LEN as int,
            ) + "..."@,
            id@.len() <= DISPLAY_NAME_MAX_LEN ==> r.display_name@ == id@,
    {
        let display_name = if id.as_str().unicode_len() > DISPLAY_NAME_MAX_LEN {
            let mut d = id.as_str().substring_char(0, DISPLAY_NAME_MAX_LEN).to_owned();
            d.append("...");
            d
        } else {
            id.clone()
        };
        Run { id, project, created_at, config, display_name }
    }
}

/// A configuration key/value pair for a run.
#[derive(Debug, Clone)]
pub struct Config {
    pub key: String,
    pub value: ConfigValue,
}

/// Possible types for configuration values. `Float` holds the value in
/// fixed-point units of [`VALUE_SCALE`].
#[derive(Debug, Clone)]
pub enum ConfigValue {
    Int(i64),
    Float(i64),
    Str(String),
    Bool(bool),
    Null,
}

/// A named metric tracked during training.
#[derive(Debug)]
pub struct Metric {
    pub name: String,
    pub points: Vec<MetricPoint>,
}

impl Metric {
    /// An empty metric with the given name.
    pub fn new(name: String) -> (m: Metric)
        ensures
            m.name@ == name@,
            m.points@ == Seq::<MetricPoint>::empty(),
    {
        Metric { name, points: Vec::new() }
    }

    /// The mathematical content of this metric: its name and its points.
    pub open spec fn view_of(&self) -> MetricView {
        (self.name@, self.points@)
    }
}

impl Clone for Metric {
    /// A clone has the same name and the same points.
    fn clone(&self) -> (res: Self)
        ensures
            res.view_of() == self.view_of(),
    {
        let mut points: Vec<MetricPoint> = Vec::new();
        let n = self.points.len();
        let mut i: usize = 0;
        while i < n
            invariant
                i <= n,
                n == self.points@.len(),
                points@ == self.points@.take(i as int),
            decreases n - i,
        {
            points.push(self.points[i]);
            assert(points@ == self.points@.take(i + 1));
            i = i + 1;
        }
        assert(self.points@.take(n as int) == self.points@);
        Metric { name: self.name.clone(), points }
    }
}

/// The name and points of a metric, as mathematical values.
pub type MetricView = (Seq<char>, Seq<MetricPoint>);

/// The views of a sequence of metrics.
pub open spec fn metrics_view(ms: Seq<Metric>) -> Seq<MetricView> {
    ms.map(|i: int, m: Metric| m.view_of())
}

/// A single data point in a metric time series: the value is in fixed-point
/// units of [`VALUE_SCALE`].
#[derive(Debug, Clone, Copy, PartialEq, Eq, Structural)]
pub struct MetricPoint {
    pub step: i64,
    pub value: i64,
    pub timestamp: Option<i64>,
}

} // verus!
