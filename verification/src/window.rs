//! Metric slot selection state.
//!
//! Up to [`MAX_SLOTS`] metrics are shown in slots taken from a circular
//! sliding window over the full metric list. The user selects a slot, and the
//! visualization shows whichever metric currently occupies that slot. The
//! window can rotate while the slot selection stays fixed, so every metric is
//! reachable and each shift is the inverse of the opposite shift.

use crate::strings::contains_name;
use crate::strings::has_name;
use crate::strings::name_views;
use crate::strings::remove_name;
use vstd::prelude::*;

verus! {

/// Maximum number of slots displayed at once.
pub const MAX_SLOTS: usize = 9;

/// How many slots are visible when `num_metrics` metrics exist.
pub open spec fn spec_visible_slots(num_metrics: usize) -> int {
    if num_metrics < MAX_SLOTS {
        num_metrics as int
    } else {
        MAX_SLOTS as int
    }
}

/// Where `window_start` lands after one left rotation over `n` metrics.
pub open spec fn spec_shift_left(ws: int, n: int) -> int {
    if n <= MAX_SLOTS {
        ws
    } else {
        (ws + n - 1) % n
    }
}

/// Where `window_start` lands after one right rotation over `n` metrics.
pub open spec fn spec_shift_right(ws: int, n: int) -> int {
    if n <= MAX_SLOTS {
        ws
    } else {
        (ws + 1) % n
    }
}

/// Law: one right rotation followed by one left rotation restores
/// `window_start` exactly, for any metric count, from any valid window
/// position.
pub proof fn lemma_shift_round_trip(ws: int, n: int)
    requires
        0 <= ws,
        0 <= n,
        n <= MAX_SLOTS || ws < n,
    ensures
        spec_shift_left(spec_shift_right(ws, n), n) == ws,
{
    if n > MAX_SLOTS {
        if ws + 1 < n {
            vstd::arithmetic::div_mod::lemma_small_mod((ws + 1) as nat, n as nat);
            vstd::arithmetic::div_mod::lemma_mod_multiples_vanish(1, ws, n);
            vstd::arithmetic::div_mod::lemma_small_mod(ws as nat, n as nat);
        } else {
            vstd::arithmetic::div_mod::lemma_mod_self_0(n);
            vstd::arithmetic::div_mod::lemma_small_mod((n - 1) as nat, n as nat);
        }
    }
}

/// State for metric slot selection.
///
/// `selected_slot` carries the focus marker; `window_start` is the metric
/// index occupying slot 0; `selected_metrics` holds the names of metrics
/// chosen for overlay display.
#[derive(Debug, Clone)]
pub struct MetricSlotState {
    pub selected_slot: usize,
    pub window_start: usize,
    pub selected_metrics: Vec<String>,
}

impl Default for MetricSlotState {
    /// An empty state: slot 0, window at 0, no overlay selection.
    fn default() -> (s: Self)
        ensures
            s.selected_slot == 0,
            s.window_start == 0,
            s.selected_metrics@ == Seq::<String>::empty(),
    {
        MetricSlotState { selected_slot: 0, window_start: 0, selected_metrics: Vec::new() }
    }
}

impl MetricSlotState {
    /// Create a new state with default values.
    pub fn new() -> (s: Self)
        ensures
            s.selected_slot == 0,
            s.window_start == 0,
            s.selected_metrics@ == Seq::<String>::empty(),
    {
        Self::default()
    }

    /// The index of the currently visualized metric:
    /// `(window_start + selected_slot) % num_metrics`, or 0 when no metrics
    /// exist. For every positive `num_metrics` the result is a valid index.
    pub fn selected_metric(&self, num_metrics: usize) -> (idx: usize)
        requires
            self.window_start + self.selected_slot <= usize::MAX,
        ensures
            num_metrics == 0 ==> idx == 0,
            num_metrics > 0 ==> idx == (self.window_start + self.selected_slot) % (
            num_metrics as int),
            num_metrics > 0 ==> idx < num_metrics,
    {
        if num_metrics == 0 {
            return 0;
        }
        (self.window_start + self.selected_slot) % num_metrics
    }

    /// Select a slot. Slots outside the visible range are ignored: the call
    /// is then a no-op, never a clamp to something the user did not request.
    pub fn select_slot(&mut self, slot: usize, num_metrics: usize)
        ensures
            num_metrics > 0 && slot < spec_visible_slots(num_metrics) ==> final (
            self).selected_slot == slot,
            !(num_metrics > 0 && slot < spec_visible_slots(num_metrics)) ==> final (
            self).selected_slot == old(self).selected_slot,
            final (self).window_start == old(self).window_start,
            final (self).selected_metrics == old(self).selected_metrics,
    {
        if num_metrics == 0 {
            return ;
        }
        let num_visible = self.num_visible_slots(num_metrics);
        if slot < num_visible {
            self.selected_slot = slot;
        }
    }

    /// Rotate the window one step towards earlier metrics, wrapping
    /// circularly. No-op when every metric already fits in the slots.
    pub fn shift_left(&mut self, num_metrics: usize)
        requires
            num_metrics > MAX_SLOTS ==> old(self).window_start < num_metrics,
        ensures
            final (self).window_start == spec_shift_left(
                old(self).window_start as int,
                num_metrics as int,
            ),
            final (self).selected_slot == old(self).selected_slot,
            final (self).selected_metrics == old(self).selected_metrics,
    {
        if num_metrics <= MAX_SLOTS {
            return ;
        }
        let ws = self.window_start;
        self.window_start = if ws == 0 {
            num_metrics - 1
        } else {
            ws - 1
        };
        proof {
            let n = num_metrics as int;
            if ws == 0 {
                vstd::arithmetic::div_mod::lemma_small_mod((n - 1) as nat, n as nat);
            } else {
                vstd::arithmetic::div_mod::lemma_mod_multiples_vanish(1, ws - 1, n);
                vstd::arithmetic::div_mod::lemma_small_mod((ws - 1) as nat, n as nat);
            }
        }
    }

    /// Rotate the window one step towards later metrics, wrapping circularly.
    /// No-op when every metric already fits in the slots.
    pub fn shift_right(&mut self, num_metrics: usize)
        requires
            num_metrics > MAX_SLOTS ==> old(self).window_start < num_metrics,
        ensures
            final (self).window_start == spec_shift_right(
                old(self).window_start as int,
                num_metrics as int,
            ),
            final (self).selected_slot == old(self).selected_slot,
            final (self).selected_metrics == old(self).selected_metrics,
    {
        if num_metrics <= MAX_SLOTS {
            return ;
        }
        self.window_start = (self.window_start + 1) % num_metrics;
    }

    /// Reconcile the state after the metric list changed. With no metrics
    /// everything resets; otherwise `window_start` is normalized into range
    /// and an out-of-range `selected_slot` is reduced to the last visible
    /// slot.
    pub fn clamp(&mut self, num_metrics: usize)
        ensures
            num_metrics == 0 ==> final (self).selected_slot == 0 && final (self).window_start == 0
                && final (self).selected_metrics@ == Seq::<String>::empty(),
            num_metrics > 0 ==> {
                &&& final (self).window_start == old(self).window_start as int % (
                num_metrics as int)
                &&& final (self).selected_slot == (if old(self).selected_slot
                    >= spec_visible_slots(num_metrics) {
                    spec_visible_slots(num_metrics) - 1
                } else {
                    old(self).selected_slot as int
                })
                &&& final (self).selected_metrics == old(self).selected_metrics
            },
            num_metrics > 0 ==> final (self).window_start < num_metrics && final (
            self).selected_slot < spec_visible_slots(num_metrics),
    {
        if num_metrics == 0 {
            self.selected_slot = 0;
            self.window_start = 0;
            self.selected_metrics = Vec::new();
            return ;
        }
        self.window_start = self.window_start % num_metrics;
        let num_visible = self.num_visible_slots(num_metrics);
        if self.selected_slot >= num_visible {
            self.selected_slot = num_visible - 1;
        }
    }

    /// The number of visible slots: fewer than [`MAX_SLOTS`] when fewer
    /// metrics exist.
    pub fn num_visible_slots(&self, num_metrics: usize) -> (n: usize)
        ensures
            n == spec_visible_slots(num_metrics),
    {
        if num_metrics < MAX_SLOTS {
            num_metrics
        } else {
            MAX_SLOTS
        }
    }

    /// In the circular model there are more metrics in the left direction
    /// exactly when the window can rotate at all.
    pub fn has_more_left(&self, num_metrics: usize) -> (b: bool)
        ensures
            b == (num_metrics > MAX_SLOTS),
    {
        num_metrics > MAX_SLOTS
    }

    /// In the circular model there are more metrics in the right direction
    /// exactly when the window can rotate at all.
    pub fn has_more_right(&self, num_metrics: usize) -> (b: bool)
        ensures
            b == (num_metrics > MAX_SLOTS),
    {
        num_metrics > MAX_SLOTS
    }

    /// Toggle a metric name in or out of the overlay selection: every
    /// occurrence is removed when present, else the name is appended.
    pub fn toggle_metric(&mut self, metric_name: &str)
        ensures
            has_name(old(self).selected_metrics@, metric_name@) ==> final (
            self).selected_metrics@ == remove_name(old(self).selected_metrics@, metric_name@),
            !has_name(old(self).selected_metrics@, metric_name@) ==> name_views(
                final (self).selected_metrics@,
            ) == name_views(old(self).selected_metrics@).push(metric_name@),
            final (self).selected_slot == old(self).selected_slot,
            final (self).window_start == old(self).window_start,
    {
        if contains_name(&self.selected_metrics, metric_name) {
            let mut kept: Vec<String> = Vec::new();
            let n = self.selected_metrics.len();
            let mut i: usize = 0;
            while i < n
                invariant
                    i <= n,
                    n == self.selected_metrics@.len(),
                    kept@ == remove_name(self.selected_metrics@.take(i as int), metric_name@),
                decreases n - i,
            {
                let keep = !crate::strings::str_eq(
                    self.selected_metrics[i].as_str(),
                    metric_name,
                );
                assert(self.selected_metrics@.take(i + 1).drop_last() == self.selected_metrics@.take(
                    i as int,
                ));
                assert(self.selected_metrics@.take(i + 1).last() == self.selected_metrics@[
                i as int]);
                if keep {
                    kept.push(self.selected_metrics[i].clone());
                }
                i = i + 1;
            }
            assert(self.selected_metrics@.take(n as int) == self.selected_metrics@);
            self.selected_metrics = kept;
        } else {
            let owned = metric_name.to_owned();
            self.selected_metrics.push(owned);
            assert(name_views(self.selected_metrics@).drop_last() == name_views(
                old(self).selected_metrics@,
            ));
            assert(name_views(self.selected_metrics@) == name_views(
                old(self).selected_metrics@,
            ).push(metric_name@));
        }
    }

    /// Empty the overlay selection.
    pub fn clear_selection(&mut self)
        ensures
            final (self).selected_metrics@ == Seq::<String>::empty(),
            final (self).selected_slot == old(self).selected_slot,
            final (self).window_start == old(self).window_start,
    {
        self.selected_metrics = Vec::new();
    }

    /// The names selected for overlay display.
    pub fn selected_metric_names(&self) -> (names: &Vec<String>)
        ensures
            names == &self.selected_metrics,
    {
        &self.selected_metrics
    }
}

} // verus!
