//! Navigation and orchestration: the focus state machine and the application
//! state object.
//!
//! The state object owns the current snapshot of project, run and metric data
//! together with the long-lived selection states, and is updated by pure
//! functions: the host loop fetches data, hands plain values in, performs the
//! actions handed back, and draws from the resulting state. A fetch error
//! never corrupts state already applied: the host simply reports it and keeps
//! the prior snapshot.

use crate::comparison::ComparisonState;
use crate::config_text::config_line_chars;
use crate::config_text::config_lines;
use crate::models::Config;
use crate::models::Metric;
use crate::models::Project;
use crate::models::Run;
use crate::search::ConfigPanelState;
use crate::strings::has_name;
use crate::window::MetricSlotState;
use crate::window::spec_visible_slots;
use vstd::prelude::*;
use vstd::string::StrSliceExecFns;
use vstd::string::StringExecFns;

verus! {

/// Which panel is currently focused; focus cycles through the three panels.
#[derive(Debug, Clone, Copy, PartialEq, Eq, Structural)]
pub enum FocusedPanel {
    Projects,
    Runs,
    Config,
}

impl FocusedPanel {
    /// The next panel in the cycle.
    pub fn next(self) -> (r: Self)
        ensures
            r == (match self {
                FocusedPanel::Projects => FocusedPanel::Runs,
                FocusedPanel::Runs => FocusedPanel::Config,
                FocusedPanel::Config => FocusedPanel::Projects,
            }),
    {
        match self {
            FocusedPanel::Projects => FocusedPanel::Runs,
            FocusedPanel::Runs => FocusedPanel::Config,
            FocusedPanel::Config => FocusedPanel::Projects,
        }
    }

    /// The previous panel in the cycle; the inverse of `next`.
    pub fn prev(self) -> (r: Self)
        ensures
            r == (match self {
                FocusedPanel::Projects => FocusedPanel::Config,
                FocusedPanel::Runs => FocusedPanel::Projects,
                FocusedPanel::Config => FocusedPanel::Runs,
            }),
            r.spec_next() == self,
    {
        match self {
            FocusedPanel::Projects => FocusedPanel::Config,
            FocusedPanel::Runs => FocusedPanel::Projects,
            FocusedPanel::Config => FocusedPanel::Runs,
        }
    }

    /// The next panel, as a mathematical function.
    pub open spec fn spec_next(self) -> Self {
        match self {
            FocusedPanel::Projects => FocusedPanel::Runs,
            FocusedPanel::Runs => FocusedPanel::Config,
            FocusedPanel::Config => FocusedPanel::Projects,
        }
    }
}

/// A keyboard event, reduced to what the state machine decides on.
#[derive(Debug, Clone, Copy, PartialEq, Eq, Structural)]
pub enum Key {
    Char(char),
    F1,
    Up,
    Down,
    Left,
    Right,
    Esc,
    Enter,
    Backspace,
    Tab,
    BackTab,
}

/// What the host loop must do after a key was dispatched: nothing, quit, or
/// fetch data and apply it back.
#[derive(Debug)]
pub enum Action {
    Stay,
    Quit,
    LoadRuns,
    LoadMetrics,
    Refresh,
    LoadComparison(String),
}

/// The set of run ids in a run list.
pub open spec fn run_id_set(runs: Seq<Run>) -> Set<Seq<char>> {
    Set::new(|id: Seq<char>| exists|i: int| 0 <= i < runs.len() && (#[trigger] runs[i]).id@ == id)
}

/// Where a selection index lands after the list it points into is replaced:
/// kept when still in range, else clamped to the last entry (or 0 when the
/// list is empty).
pub open spec fn clamped_index(old_index: int, new_len: int) -> int {
    if old_index < new_len {
        old_index
    } else if new_len == 0 {
        0
    } else {
        new_len - 1
    }
}

/// The selected run's configuration entries; empty when no run is selected.
pub open spec fn spec_current_config(app: App) -> Seq<Config> {
    if app.selected_run < app.runs@.len() {
        app.runs@[app.selected_run as int].config@
    } else {
        Seq::empty()
    }
}

/// The rendered-line indices of the configuration entries whose lowercase
/// folding contains that of `query`, in order.
pub open spec fn config_matching_indices(config: Seq<Config>, query: Seq<char>) -> Seq<int>
    decreases config.len(),
{
    if config.len() == 0 {
        Seq::empty()
    } else {
        config_matching_indices(config.drop_last(), query) + (if crate::search::line_matches(
            config_line_chars(config.last()),
            query,
        ) {
            seq![config.len() - 1]
        } else {
            Seq::empty()
        })
    }
}

/// True when the match list is exactly the query's matches over the selected
/// run's rendered configuration lines, and empty for an empty query.
pub open spec fn search_reconciled(app: App, query: Seq<char>) -> bool {
    if query.len() == 0 {
        app.config_panel.match_indices@ == Seq::<usize>::empty()
    } else {
        let ms = config_matching_indices(spec_current_config(app), query);
        &&& app.config_panel.match_indices@.len() == ms.len()
        &&& forall|x: int|
            0 <= x < ms.len() ==> (#[trigger] app.config_panel.match_indices@[x]) as int == ms[x]
    }
}

/// Where the vertical scroll lands after one downward step over `config_len`
/// lines: bumped by one, capped at the last line and at the field's maximum.
pub open spec fn spec_scroll_down(v: int, config_len: int) -> int {
    if config_len == 0 {
        v
    } else {
        let limit = if config_len - 1 > 0xffff {
            0xffff
        } else {
            config_len - 1
        };
        let bumped = if v < 0xffff {
            v + 1
        } else {
            0xffff
        };
        if bumped < limit {
            bumped
        } else {
            limit
        }
    }
}

/// The number of configuration lines of the selected run.
pub open spec fn spec_config_len(app: App) -> int {
    spec_current_config(app).len() as int
}

/// Application state: the current data snapshot and every user-driven
/// selection state, reconciled against the snapshot after each replacement.
#[derive(Debug)]
pub struct App {
    pub projects: Vec<Project>,
    pub runs: Vec<Run>,
    pub metrics: Vec<Metric>,
    pub metric_names: Vec<String>,
    pub comparison: ComparisonState,
    pub focused: FocusedPanel,
    pub selected_project: usize,
    pub selected_run: usize,
    pub slots: MetricSlotState,
    pub config_panel: ConfigPanelState,
    pub show_help: bool,
    pub should_quit: bool,
    pub error_message: Option<String>,
}

impl App {
    /// Validity of the selection states against the current snapshot: every
    /// selection index is in range (or zero when its list is empty), the
    /// metric window is normalized, and the match cursor is in range.
    pub open spec fn selection_valid(&self) -> bool {
        &&& self.projects@.len() == 0 ==> self.selected_project == 0
        &&& self.projects@.len() > 0 ==> self.selected_project < self.projects@.len()
        &&& self.runs@.len() == 0 ==> self.selected_run == 0
        &&& self.runs@.len() > 0 ==> self.selected_run < self.runs@.len()
        &&& self.metric_names@.len() == 0 ==> self.slots.window_start == 0
            && self.slots.selected_slot == 0
        &&& self.metric_names@.len() > 0 ==> self.slots.window_start < self.metric_names@.len()
            && self.slots.selected_slot < spec_visible_slots(self.metric_names@.len() as usize)
        &&& self.config_panel.match_indices@.len() > 0 ==> self.config_panel.current_match
            < self.config_panel.match_indices@.len()
        &&& self.metric_names@.len() <= usize::MAX
    }

    /// A fresh application state: empty snapshot, default selections.
    pub fn new() -> (app: App)
        ensures
            app.projects@ == Seq::<Project>::empty(),
            app.runs@ == Seq::<Run>::empty(),
            app.metrics@ == Seq::<Metric>::empty(),
            app.metric_names@ == Seq::<String>::empty(),
            app.comparison.spec_marked() == Set::<Seq<char>>::empty(),
            app.focused == FocusedPanel::Projects,
            app.selected_project == 0,
            app.selected_run == 0,
            app.slots.window_start == 0,
            app.slots.selected_slot == 0,
            !app.show_help,
            !app.should_quit,
            app.error_message is None,
            app.config_panel.search@ == Seq::<char>::empty(),
            !app.config_panel.search_active,
            app.config_panel.match_indices@ == Seq::<usize>::empty(),
            app.config_panel.current_match == 0,
            app.selection_valid(),
    {
        App {
            projects: Vec::new(),
            runs: Vec::new(),
            metrics: Vec::new(),
            metric_names: Vec::new(),
            comparison: ComparisonState::new(),
            focused: FocusedPanel::Projects,
            selected_project: 0,
            selected_run: 0,
            slots: MetricSlotState::new(),
            config_panel: ConfigPanelState::new(),
            show_help: false,
            should_quit: false,
            error_message: None,
        }
    }

    /// Record a non-fatal error message to display.
    pub fn set_error(&mut self, message: String)
        ensures
            final (self).error_message == Some(message),
            *final (self) == (App { error_message: Some(message), ..*old(self) }),
    {
        self.error_message = Some(message);
    }

    /// Clear any error message, as on a successful refresh.
    pub fn clear_error(&mut self)
        ensures
            final (self).error_message is None,
            *final (self) == (App { error_message: None, ..*old(self) }),
    {
        self.error_message = None;
    }

    /// Select a project by index; out-of-range indices are ignored.
    pub fn select_project(&mut self, index: usize)
        ensures
            index < old(self).projects@.len() ==> final (self).selected_project == index,
            index >= old(self).projects@.len() ==> final (self).selected_project == old(
                self,
            ).selected_project,
            *final (self) == (App {
                selected_project: final (self).selected_project,
                ..*old(self)
            }),
            old(self).selection_valid() ==> final (self).selection_valid(),
    {
        if index < self.projects.len() {
            self.selected_project = index;
        }
    }

    /// The rendered `key: value` lines of the selected run's configuration,
    /// or no lines when no run is selected.
    pub fn config_lines_current(&self) -> (r: Vec<String>)
        ensures
            self.selected_run < self.runs@.len() ==> {
                &&& r@.len() == self.runs@[self.selected_run as int].config@.len()
                &&& forall|i: int|
                    0 <= i < r@.len() ==> (#[trigger] r@[i])@ == config_line_chars(
                        self.runs@[self.selected_run as int].config@[i],
                    )
            },
            self.selected_run >= self.runs@.len() ==> r@.len() == 0,
    {
        if self.selected_run < self.runs.len() {
            config_lines(&self.runs[self.selected_run].config)
        } else {
            Vec::new()
        }
    }

    /// Replace the project list and clamp the project selection into range.
    pub fn apply_projects(&mut self, projects: Vec<Project>)
        ensures
            final (self).projects == projects,
            final (self).selected_project as int == clamped_index(
                old(self).selected_project as int,
                projects@.len() as int,
            ),
            *final (self) == (App {
                projects,
                selected_project: final (self).selected_project,
                ..*old(self)
            }),
    {
        let len = projects.len();
        self.projects = projects;
        if self.selected_project >= len {
            self.selected_project = if len == 0 {
                0
            } else {
                len - 1
            };
        }
    }

    /// Replace the run list: clamp the run selection into range, then, on a
    /// same-project refresh, prune the comparison state against the new run
    /// id set; on a project change, clear it, since comparisons are
    /// meaningless across projects.
    pub fn apply_runs(&mut self, runs: Vec<Run>, same_project: bool)
        ensures
            final (self).runs == runs,
            final (self).selected_run as int == clamped_index(
                old(self).selected_run as int,
                runs@.len() as int,
            ),
            !same_project ==> final (self).comparison.spec_marked() == Set::<Seq<char>>::empty()
                && final (self).comparison.spec_cache() == Map::<
                Seq<char>,
                Seq<crate::models::MetricView>,
            >::empty(),
            same_project ==> final (self).comparison.spec_marked() == old(
                self,
            ).comparison.spec_marked().intersect(run_id_set(runs@)) && final (
            self).comparison.spec_cache() == old(self).comparison.spec_cache().restrict(
                run_id_set(runs@),
            ),
            final (self).projects == old(self).projects,
            final (self).metrics == old(self).metrics,
            final (self).metric_names == old(self).metric_names,
            final (self).focused == old(self).focused,
            final (self).selected_project == old(self).selected_project,
            final (self).slots == old(self).slots,
            final (self).config_panel == old(self).config_panel,
            final (self).show_help == old(self).show_help,
            final (self).should_quit == old(self).should_quit,
            final (self).error_message == old(self).error_message,
    {
        let len = runs.len();
        if same_project {
            let ids = run_ids_of(&runs);
            self.comparison.prune_invalid_runs(&ids);
            proof {
                assert(Set::new(|id: Seq<char>| has_name(ids@, id)) =~= run_id_set(runs@));
            }
        } else {
            self.comparison.clear();
        }
        self.runs = runs;
        if self.selected_run >= len {
            self.selected_run = if len == 0 {
                0
            } else {
                len - 1
            };
        }
    }

    /// Replace the metric snapshot: store the metrics, derive the name list,
    /// and reconcile the metric window against the new count.
    pub fn apply_metrics(&mut self, metrics: Vec<Metric>)
        ensures
            final (self).metrics == metrics,
            final (self).metric_names@.len() == metrics@.len(),
            forall|i: int|
                0 <= i < metrics@.len() ==> (#[trigger] final (self).metric_names@[i])@
                    == metrics@[i].name@,
            metrics@.len() == 0 ==> final (self).slots.window_start == 0 && final (
            self).slots.selected_slot == 0,
            metrics@.len() > 0 ==> final (self).slots.window_start < metrics@.len() && final (
            self).slots.selected_slot < spec_visible_slots(metrics@.len() as usize),
            final (self).projects == old(self).projects,
            final (self).runs == old(self).runs,
            final (self).comparison == old(self).comparison,
            final (self).focused == old(self).focused,
            final (self).selected_project == old(self).selected_project,
            final (self).selected_run == old(self).selected_run,
            final (self).config_panel == old(self).config_panel,
            final (self).show_help == old(self).show_help,
            final (self).should_quit == old(self).should_quit,
            final (self).error_message == old(self).error_message,
    {
        let mut names: Vec<String> = Vec::new();
        let n = metrics.len();
        let mut i: usize = 0;
        while i < n
            invariant
                i <= n,
                n == metrics@.len(),
                names@.len() == i,
                forall|x: int| 0 <= x < i ==> (#[trigger] names@[x])@ == metrics@[x].name@,
            decreases n - i,
        {
            names.push(metrics[i].name.clone());
            i = i + 1;
        }
        self.metrics = metrics;
        self.metric_names = names;
        let count = self.metric_names.len();
        self.slots.clamp(count);
    }

    /// Recompute the search matches against the selected run's configuration,
    /// as required after the configuration changed under an active search.
    pub fn reconcile_search(&mut self)
        ensures
            final (self).config_panel.search == old(self).config_panel.search,
            final (self).config_panel.search_active == old(self).config_panel.search_active,
            old(self).config_panel.search@.len() == 0 ==> final (
            self).config_panel.match_indices@ == Seq::<usize>::empty(),
            search_reconciled(*final (self), old(self).config_panel.search@),
            final (self).config_panel.current_match as int == (if old(
                self,
            ).config_panel.current_match >= final (self).config_panel.match_indices@.len() {
                0int
            } else {
                old(self).config_panel.current_match as int
            }),
            final (self).config_panel.match_indices@.len() > 0 ==> final (
            self).config_panel.current_match < final (self).config_panel.match_indices@.len(),
            final (self).projects == old(self).projects,
            final (self).runs == old(self).runs,
            final (self).metrics == old(self).metrics,
            final (self).metric_names == old(self).metric_names,
            final (self).comparison == old(self).comparison,
            final (self).focused == old(self).focused,
            final (self).selected_project == old(self).selected_project,
            final (self).selected_run == old(self).selected_run,
            final (self).slots == old(self).slots,
            final (self).show_help == old(self).show_help,
            final (self).should_quit == old(self).should_quit,
            final (self).error_message == old(self).error_message,
    {
        let lines = self.config_lines_current();
        self.config_panel.update_config_search_matches(&lines);
        proof {
            lemma_matching_indices_from_lines(
                lines@,
                spec_current_config(*self),
                old(self).config_panel.search@,
            );
        }
    }

    /// Dispatch one key. Search input is edited first when the search is
    /// active; global shortcuts come next; panel-specific navigation last.
    /// The returned action tells the host loop what to fetch or whether to
    /// quit; selection validity is preserved.
    #[verifier::rlimit(60)]
    pub fn handle_input(&mut self, key: Key) -> (action: Action)
        requires
            old(self).selection_valid(),
        ensures
            final (self).selection_valid(),
            action is Quit <==> (!old(self).config_panel.search_active && key == Key::Char('q')),
            final (self).should_quit == (old(self).should_quit || (action is Quit)),
            (!old(self).config_panel.search_active && key == Key::Char('r')) ==> (action
                is Refresh),
            (!old(self).config_panel.search_active && key == Key::Tab) ==> final (self).focused
                == old(self).focused.spec_next() && (action is Stay),
            (!old(self).config_panel.search_active && key == Key::BackTab) ==> old(
                self,
            ).focused == final (self).focused.spec_next() && (action is Stay),
            (old(self).config_panel.search_active && key == Key::Esc) ==> !final (
            self).config_panel.search_active && (action is Stay),
            (!old(self).config_panel.search_active && !old(self).show_help && key == Key::Char(
                'S',
            )) ==> final (self).comparison.spec_marked() == Set::<Seq<char>>::empty(),
            (!old(self).config_panel.search_active && !old(self).show_help && old(self).focused
                == FocusedPanel::Runs && key == Key::Char('s') && old(self).runs@.len() > 0) ==> {
                let id = old(self).runs@[old(self).selected_run as int].id@;
                &&& final (self).comparison.spec_marked()
                    == crate::comparison::toggle_marked(old(self).comparison.spec_marked(), id)
                &&& ((action is LoadComparison) <==> !old(self).comparison.spec_marked().contains(
                    id,
                ))
            },
            (!old(self).config_panel.search_active && !old(self).show_help && old(self).focused
                != FocusedPanel::Config && key == Key::Char(']')) ==> final (
            self).slots.window_start == crate::window::spec_shift_right(
                old(self).slots.window_start as int,
                old(self).metric_names@.len() as int,
            ),
            (!old(self).config_panel.search_active && !old(self).show_help && old(self).focused
                != FocusedPanel::Config && key == Key::Char('[')) ==> final (
            self).slots.window_start == crate::window::spec_shift_left(
                old(self).slots.window_start as int,
                old(self).metric_names@.len() as int,
            ),
            old(self).config_panel.search_active ==> (action is Stay),
            (key matches Key::Char(c) ==> (old(self).config_panel.search_active ==> final (
            self).config_panel.search@ == old(self).config_panel.search@.push(c) && final (
            self).config_panel.search_active && (search_reconciled(
                *final (self),
                old(self).config_panel.search@.push(c),
            )))),
            (old(self).config_panel.search_active && key == Key::Backspace) ==> {
                let q = if old(self).config_panel.search@.len() == 0 {
                    old(self).config_panel.search@
                } else {
                    old(self).config_panel.search@.drop_last()
                };
                &&& final (self).config_panel.search@ == q
                &&& (search_reconciled(*final (self), q))
            },
            (old(self).config_panel.search_active && key == Key::Enter) ==> !final (
            self).config_panel.search_active && final (self).config_panel.search == old(
                self,
            ).config_panel.search && final (self).config_panel.match_indices == old(
                self,
            ).config_panel.match_indices && (old(self).config_panel.match_indices@.len() > 0
                ==> final (self).config_panel.current_match == 0),
            (key matches Key::Char(c) ==> ((!old(self).config_panel.search_active && !old(
                self,
            ).show_help && old(self).focused != FocusedPanel::Config && '1' <= c && c <= '9') ==> {
                let slot = c as int - '1' as int;
                &&& (action is Stay)
                &&& final (self).slots.window_start == old(self).slots.window_start
                &&& (old(self).metric_names@.len() > 0 && slot < spec_visible_slots(
                    old(self).metric_names@.len() as usize,
                ) ==> final (self).slots.selected_slot as int == slot)
                &&& (!(old(self).metric_names@.len() > 0 && slot < spec_visible_slots(
                    old(self).metric_names@.len() as usize,
                )) ==> final (self).slots.selected_slot == old(self).slots.selected_slot)
            })),
            (!old(self).config_panel.search_active && !old(self).show_help && old(self).focused
                == FocusedPanel::Projects && (key == Key::Down || key == Key::Char('j')) && old(
                self,
            ).projects@.len() > 0) ==> (action is LoadRuns) && final (
            self).selected_project as int == (old(self).selected_project + 1) % (old(
                self,
            ).projects@.len() as int),
            (!old(self).config_panel.search_active && !old(self).show_help && old(self).focused
                == FocusedPanel::Projects && (key == Key::Up || key == Key::Char('k')) && old(
                self,
            ).projects@.len() > 0) ==> (action is LoadRuns) && final (
            self).selected_project as int == (if old(self).selected_project == 0 {
                old(self).projects@.len() - 1
            } else {
                old(self).selected_project as int - 1
            }),
            (!old(self).config_panel.search_active && !old(self).show_help && old(self).focused
                == FocusedPanel::Runs && (key == Key::Down || key == Key::Char('j')) && old(
                self,
            ).runs@.len() > 0) ==> (action is LoadMetrics) && final (self).selected_run as int == (
            old(self).selected_run + 1) % (old(self).runs@.len() as int),
            (!old(self).config_panel.search_active && !old(self).show_help && old(self).focused
                == FocusedPanel::Runs && (key == Key::Up || key == Key::Char('k')) && old(
                self,
            ).runs@.len() > 0) ==> (action is LoadMetrics) && final (self).selected_run as int == (
            if old(self).selected_run == 0 {
                old(self).runs@.len() - 1
            } else {
                old(self).selected_run as int - 1
            }),
            (!old(self).config_panel.search_active && !old(self).show_help && old(self).focused
                == FocusedPanel::Runs && key == Key::Esc) ==> final (self).focused
                == FocusedPanel::Projects && (action is Stay),
            (!old(self).config_panel.search_active && !old(self).show_help && old(self).focused
                == FocusedPanel::Config && (key == Key::Down || key == Key::Char('j'))) ==> final (
            self).config_panel.scroll_v as int == spec_scroll_down(
                old(self).config_panel.scroll_v as int,
                spec_config_len(*old(self)),
            ) && (action is Stay),
            (!old(self).config_panel.search_active && !old(self).show_help && old(self).focused
                == FocusedPanel::Config && (key == Key::Up || key == Key::Char('k'))) ==> final (
            self).config_panel.scroll_v as int == (if old(self).config_panel.scroll_v > 0 {
                old(self).config_panel.scroll_v as int - 1
            } else {
                0int
            }) && (action is Stay),
            (!old(self).config_panel.search_active && !old(self).show_help && old(self).focused
                == FocusedPanel::Config && (key == Key::Right || key == Key::Char('l'))) ==> final (
            self).config_panel.scroll_h as int == (if old(self).config_panel.scroll_h + 4
                <= 0xffff {
                old(self).config_panel.scroll_h + 4
            } else {
                0xffff
            }) && (action is Stay),
            (!old(self).config_panel.search_active && !old(self).show_help && old(self).focused
                == FocusedPanel::Config && (key == Key::Left || key == Key::Char('h'))) ==> final (
            self).config_panel.scroll_h as int == (if old(self).config_panel.scroll_h >= 4 {
                old(self).config_panel.scroll_h - 4
            } else {
                0int
            }) && (action is Stay),
            (!old(self).config_panel.search_active && !old(self).show_help && old(self).focused
                == FocusedPanel::Config && key == Key::Char('/')) ==> final (
            self).config_panel.search_active && final (self).config_panel.search@.len() == 0
                && final (self).config_panel.match_indices@.len() == 0 && final (
            self).config_panel.current_match == 0,
            (!old(self).config_panel.search_active && !old(self).show_help && old(self).focused
                == FocusedPanel::Config && key == Key::Char('c')) ==> final (
            self).config_panel.search@.len() == 0 && final (
            self).config_panel.match_indices@.len() == 0 && final (self).config_panel.current_match
                == 0,
            (!old(self).config_panel.search_active && !old(self).show_help && old(self).focused
                == FocusedPanel::Config && key == Key::Char('n') && old(
                self,
            ).config_panel.match_indices@.len() > 0) ==> final (
            self).config_panel.current_match as int == (old(self).config_panel.current_match + 1)
                % (old(self).config_panel.match_indices@.len() as int),
            (!old(self).config_panel.search_active && !old(self).show_help && old(self).focused
                == FocusedPanel::Config && key == Key::Char('N') && old(
                self,
            ).config_panel.match_indices@.len() > 0) ==> final (
            self).config_panel.current_match as int == (if old(self).config_panel.current_match
                == 0 {
                old(self).config_panel.match_indices@.len() - 1
            } else {
                old(self).config_panel.current_match as int - 1
            }),
            (!old(self).config_panel.search_active && !old(self).show_help && old(self).focused
                == FocusedPanel::Config && key == Key::Esc && old(self).config_panel.search@.len()
                == 0) ==> final (self).focused == FocusedPanel::Runs,
            (!old(self).config_panel.search_active && !old(self).show_help && old(self).focused
                == FocusedPanel::Config && key == Key::Esc && old(self).config_panel.search@.len()
                > 0) ==> final (self).focused == old(self).focused && final (
            self).config_panel.search@.len() == 0 && final (
            self).config_panel.match_indices@.len() == 0 && final (self).config_panel.current_match
                == 0,
            final (self).projects == old(self).projects,
            final (self).metrics == old(self).metrics,
            final (self).metric_names == old(self).metric_names,
    {
        if self.config_panel.search_active {
            return self.handle_search_input(key);
        }
        match key {
            Key::Char('q') => {
                self.should_quit = true;
                return Action::Quit;
            },
            Key::Char('?') => {
                self.show_help = !self.show_help;
                return Action::Stay;
            },
            Key::F1 => {
                self.show_help = !self.show_help;
                return Action::Stay;
            },
            Key::Char('h') => {
                if !matches!(self.focused, FocusedPanel::Config) {
                    self.show_help = !self.show_help;
                    return Action::Stay;
                }
            },
            Key::Esc => {
                if self.show_help {
                    self.show_help = false;
                    return Action::Stay;
                }
            },
            Key::Char('r') => {
                return Action::Refresh;
            },
            Key::Tab => {
                self.focused = self.focused.next();
                return Action::Stay;
            },
            Key::BackTab => {
                self.focused = self.focused.prev();
                return Action::Stay;
            },
            _ => {},
        }
        if self.show_help {
            return Action::Stay;
        }
        if !matches!(self.focused, FocusedPanel::Config) {
            match key {
                Key::Char(c) => {
                    if ('1' as u32) <= (c as u32) && (c as u32) <= ('9' as u32) {
                        let slot = ((c as u32) - ('1' as u32)) as usize;
                        let count = self.metric_names.len();
                        self.slots.select_slot(slot, count);
                        return Action::Stay;
                    }
                    if c == '[' {
                        let count = self.metric_names.len();
                        self.slots.shift_left(count);
                        return Action::Stay;
                    }
                    if c == ']' {
                        let count = self.metric_names.len();
                        self.slots.shift_right(count);
                        return Action::Stay;
                    }
                },
                _ => {},
            }
        }
        if key == Key::Char('S') {
            self.comparison.clear();
            return Action::Stay;
        }
        if key == Key::Char('s') && matches!(self.focused, FocusedPanel::Runs) {
            if self.selected_run < self.runs.len() {
                let run_id = self.runs[self.selected_run].id.clone();
                let now_marked = self.comparison.toggle_run(run_id.as_str());
                if now_marked {
                    return Action::LoadComparison(run_id);
                }
            }
            return Action::Stay;
        }
        match self.focused {
            FocusedPanel::Projects => self.handle_project_navigation(key),
            FocusedPanel::Runs => self.handle_run_navigation(key),
            FocusedPanel::Config => self.handle_config_navigation(key),
        }
    }

    /// Edit the active search query: escape leaves search entry, enter leaves
    /// it and jumps to the first match, backspace and characters edit the
    /// query and recompute matches.
    fn handle_search_input(&mut self, key: Key) -> (action: Action)
        requires
            old(self).selection_valid(),
            old(self).config_panel.search_active,
        ensures
            final (self).selection_valid(),
            !(action is Quit),
            action is Stay,
            final (self).should_quit == old(self).should_quit,
            key == Key::Esc ==> *final (self) == (App {
                config_panel: final (self).config_panel,
                ..*old(self)
            }) && final (self).config_panel == (ConfigPanelState {
                search_active: false,
                ..old(self).config_panel
            }),
            key == Key::Enter ==> !final (self).config_panel.search_active && final (
            self).config_panel.search == old(self).config_panel.search && final (
            self).config_panel.match_indices == old(self).config_panel.match_indices && (old(
                self,
            ).config_panel.match_indices@.len() > 0 ==> final (self).config_panel.current_match
                == 0 && final (self).config_panel.scroll_v == old(
                self,
            ).config_panel.match_indices@[0] as u16) && (old(
                self,
            ).config_panel.match_indices@.len() == 0 ==> final (self).config_panel.current_match
                == old(self).config_panel.current_match),
            key == Key::Backspace ==> {
                let q = if old(self).config_panel.search@.len() == 0 {
                    old(self).config_panel.search@
                } else {
                    old(self).config_panel.search@.drop_last()
                };
                &&& final (self).config_panel.search@ == q
                &&& final (self).config_panel.search_active
                &&& (search_reconciled(*final (self), q))
            },
            (key matches Key::Char(c) ==> final (self).config_panel.search@ == old(
                self,
            ).config_panel.search@.push(c) && final (self).config_panel.search_active && (
            search_reconciled(*final (self), old(self).config_panel.search@.push(c)))),
            !(key == Key::Esc || key == Key::Enter || key == Key::Backspace || (key
                matches Key::Char(_))) ==> *final (self) == *old(self),
            final (self).projects == old(self).projects,
            final (self).runs == old(self).runs,
            final (self).selected_run == old(self).selected_run,
            final (self).metrics == old(self).metrics,
            final (self).metric_names == old(self).metric_names,
    {
        match key {
            Key::Esc => {
                self.config_panel.search_active = false;
                Action::Stay
            },
            Key::Enter => {
                self.config_panel.search_active = false;
                if self.config_panel.match_indices.len() > 0 {
                    self.config_panel.current_match = 0;
                    self.config_panel.scroll_to_current_match();
                }
                Action::Stay
            },
            Key::Backspace => {
                let q = drop_last_char(&self.config_panel.search);
                self.config_panel.search = q;
                let lines = self.config_lines_current();
                self.config_panel.update_config_search_matches(&lines);
                proof {
                    lemma_matching_indices_from_lines(
                        lines@,
                        spec_current_config(*self),
                        self.config_panel.search@,
                    );
                }
                Action::Stay
            },
            Key::Char(c) => {
                push_char(&mut self.config_panel.search, c);
                let lines = self.config_lines_current();
                self.config_panel.update_config_search_matches(&lines);
                proof {
                    lemma_matching_indices_from_lines(
                        lines@,
                        spec_current_config(*self),
                        self.config_panel.search@,
                    );
                }
                Action::Stay
            },
            _ => Action::Stay,
        }
    }

    /// Move the project selection with wraparound; a selection change asks
    /// the host to load that project's runs.
    fn handle_project_navigation(&mut self, key: Key) -> (action: Action)
        requires
            old(self).selection_valid(),
        ensures
            final (self).selection_valid(),
            !(action is Quit),
            final (self).should_quit == old(self).should_quit,
            final (self).projects == old(self).projects,
            final (self).metrics == old(self).metrics,
            final (self).metric_names == old(self).metric_names,
            (key == Key::Down || key == Key::Char('j')) && old(self).projects@.len() > 0 ==> (
            action is LoadRuns) && final (self).selected_project as int == (old(
                self,
            ).selected_project + 1) % (old(self).projects@.len() as int) && final (
            self).config_panel.scroll_v == 0 && final (self).config_panel.scroll_h == 0,
            (key == Key::Up || key == Key::Char('k')) && old(self).projects@.len() > 0 ==> (
            action is LoadRuns) && final (self).selected_project as int == (if old(
                self,
            ).selected_project == 0 {
                old(self).projects@.len() - 1
            } else {
                old(self).selected_project as int - 1
            }) && final (self).config_panel.scroll_v == 0 && final (self).config_panel.scroll_h
                == 0,
            (key == Key::Down || key == Key::Up || key == Key::Char('j') || key == Key::Char('k'))
                && old(self).projects@.len() == 0 ==> *final (self) == *old(self) && (action
                is Stay),
            !(key == Key::Down || key == Key::Up || key == Key::Char('j') || key == Key::Char('k'))
                ==> *final (self) == *old(self) && (action is Stay),
    {
        let len = self.projects.len();
        match key {
            Key::Down => self.project_step(true),
            Key::Up => self.project_step(false),
            Key::Char('j') => self.project_step(true),
            Key::Char('k') => self.project_step(false),
            _ => Action::Stay,
        }
    }

    /// One step of project selection: down wraps forward, up wraps backward.
    fn project_step(&mut self, down: bool) -> (action: Action)
        requires
            old(self).selection_valid(),
        ensures
            final (self).selection_valid(),
            !(action is Quit),
            final (self).should_quit == old(self).should_quit,
            final (self).projects == old(self).projects,
            final (self).metrics == old(self).metrics,
            final (self).metric_names == old(self).metric_names,
            old(self).projects@.len() > 0 ==> (action is LoadRuns) && final (
            self).config_panel.scroll_v == 0 && final (self).config_panel.scroll_h == 0,
            old(self).projects@.len() > 0 && down ==> final (self).selected_project as int == (old(
                self,
            ).selected_project + 1) % (old(self).projects@.len() as int),
            old(self).projects@.len() > 0 && !down ==> final (self).selected_project as int == (if
                old(self).selected_project == 0 {
                old(self).projects@.len() - 1
            } else {
                old(self).selected_project as int - 1
            }),
            old(self).projects@.len() == 0 ==> *final (self) == *old(self) && (action is Stay),
    {
        let len = self.projects.len();
        if len == 0 {
            return Action::Stay;
        }
        self.selected_project = if down {
            (self.selected_project + 1) % len
        } else if self.selected_project == 0 {
            len - 1
        } else {
            self.selected_project - 1
        };
        self.config_panel.scroll_v = 0;
        self.config_panel.scroll_h = 0;
        Action::LoadRuns
    }

    /// Move the run selection with wraparound; a selection change asks the
    /// host to load that run's metrics. Escape returns focus to projects.
    fn handle_run_navigation(&mut self, key: Key) -> (action: Action)
        requires
            old(self).selection_valid(),
        ensures
            final (self).selection_valid(),
            !(action is Quit),
            final (self).should_quit == old(self).should_quit,
            final (self).projects == old(self).projects,
            final (self).metrics == old(self).metrics,
            final (self).metric_names == old(self).metric_names,
            key == Key::Esc ==> *final (self) == (App {
                focused: FocusedPanel::Projects,
                ..*old(self)
            }) && (action is Stay),
            (key == Key::Down || key == Key::Char('j')) && old(self).runs@.len() > 0 ==> (action
                is LoadMetrics) && final (self).selected_run as int == (old(self).selected_run + 1)
                % (old(self).runs@.len() as int) && final (self).config_panel.scroll_v == 0
                && final (self).config_panel.scroll_h == 0,
            (key == Key::Up || key == Key::Char('k')) && old(self).runs@.len() > 0 ==> (action
                is LoadMetrics) && final (self).selected_run as int == (if old(self).selected_run
                == 0 {
                old(self).runs@.len() - 1
            } else {
                old(self).selected_run as int - 1
            }) && final (self).config_panel.scroll_v == 0 && final (self).config_panel.scroll_h
                == 0,
            (key == Key::Down || key == Key::Up || key == Key::Char('j') || key == Key::Char('k'))
                && old(self).runs@.len() == 0 ==> *final (self) == *old(self) && (action is Stay),
            !(key == Key::Down || key == Key::Up || key == Key::Char('j') || key == Key::Char('k')
                || key == Key::Esc) ==> *final (self) == *old(self) && (action is Stay),
    {
        match key {
            Key::Down => self.run_step(true),
            Key::Up => self.run_step(false),
            Key::Char('j') => self.run_step(true),
            Key::Char('k') => self.run_step(false),
            Key::Esc => {
                self.focused = FocusedPanel::Projects;
                Action::Stay
            },
            _ => Action::Stay,
        }
    }

    /// One step of run selection: down wraps forward, up wraps backward.
    fn run_step(&mut self, down: bool) -> (action: Action)
        requires
            old(self).selection_valid(),
        ensures
            final (self).selection_valid(),
            !(action is Quit),
            final (self).should_quit == old(self).should_quit,
            final (self).projects == old(self).projects,
            final (self).metrics == old(self).metrics,
            final (self).metric_names == old(self).metric_names,
            old(self).runs@.len() > 0 ==> (action is LoadMetrics) && final (
            self).config_panel.scroll_v == 0 && final (self).config_panel.scroll_h == 0,
            old(self).runs@.len() > 0 && down ==> final (self).selected_run as int == (old(
                self,
            ).selected_run + 1) % (old(self).runs@.len() as int),
            old(self).runs@.len() > 0 && !down ==> final (self).selected_run as int == (if old(
                self,
            ).selected_run == 0 {
                old(self).runs@.len() - 1
            } else {
                old(self).selected_run as int - 1
            }),
            old(self).runs@.len() == 0 ==> *final (self) == *old(self) && (action is Stay),
    {
        let len = self.runs.len();
        if len == 0 {
            return Action::Stay;
        }
        self.selected_run = if down {
            (self.selected_run + 1) % len
        } else if self.selected_run == 0 {
            len - 1
        } else {
            self.selected_run - 1
        };
        self.config_panel.scroll_v = 0;
        self.config_panel.scroll_h = 0;
        Action::LoadMetrics
    }

    /// Configuration panel navigation: scrolling, search entry and match
    /// movement. Escape first clears an existing search, then returns focus
    /// to the runs panel.
    fn handle_config_navigation(&mut self, key: Key) -> (action: Action)
        requires
            old(self).selection_valid(),
        ensures
            final (self).selection_valid(),
            !(action is Quit),
            action is Stay,
            final (self).should_quit == old(self).should_quit,
            final (self).projects == old(self).projects,
            final (self).metrics == old(self).metrics,
            final (self).metric_names == old(self).metric_names,
            key == Key::Char('/') ==> *final (self) == (App {
                config_panel: final (self).config_panel,
                ..*old(self)
            }) && final (self).config_panel.search_active && final (
            self).config_panel.search@.len() == 0 && final (
            self).config_panel.match_indices@.len() == 0 && final (self).config_panel.current_match
                == 0,
            key == Key::Char('c') ==> *final (self) == (App {
                config_panel: final (self).config_panel,
                ..*old(self)
            }) && final (self).config_panel.search@.len() == 0 && final (
            self).config_panel.match_indices@.len() == 0 && final (self).config_panel.current_match
                == 0,
            (key == Key::Down || key == Key::Char('j')) ==> *final (self) == (App {
                config_panel: final (self).config_panel,
                ..*old(self)
            }) && final (self).config_panel == (ConfigPanelState {
                scroll_v: final (self).config_panel.scroll_v,
                ..old(self).config_panel
            }) && final (self).config_panel.scroll_v as int == spec_scroll_down(
                old(self).config_panel.scroll_v as int,
                spec_config_len(*old(self)),
            ),
            (key == Key::Up || key == Key::Char('k')) ==> *final (self) == (App {
                config_panel: final (self).config_panel,
                ..*old(self)
            }) && final (self).config_panel == (ConfigPanelState {
                scroll_v: final (self).config_panel.scroll_v,
                ..old(self).config_panel
            }) && final (self).config_panel.scroll_v as int == (if old(
                self,
            ).config_panel.scroll_v > 0 {
                old(self).config_panel.scroll_v as int - 1
            } else {
                0int
            }),
            (key == Key::Right || key == Key::Char('l')) ==> *final (self) == (App {
                config_panel: final (self).config_panel,
                ..*old(self)
            }) && final (self).config_panel == (ConfigPanelState {
                scroll_h: final (self).config_panel.scroll_h,
                ..old(self).config_panel
            }) && final (self).config_panel.scroll_h as int == (if old(
                self,
            ).config_panel.scroll_h + 4 <= 0xffff {
                old(self).config_panel.scroll_h + 4
            } else {
                0xffff
            }),
            (key == Key::Left || key == Key::Char('h')) ==> *final (self) == (App {
                config_panel: final (self).config_panel,
                ..*old(self)
            }) && final (self).config_panel == (ConfigPanelState {
                scroll_h: final (self).config_panel.scroll_h,
                ..old(self).config_panel
            }) && final (self).config_panel.scroll_h as int == (if old(
                self,
            ).config_panel.scroll_h >= 4 {
                old(self).config_panel.scroll_h - 4
            } else {
                0int
            }),
            key == Key::Char('n') && old(self).config_panel.match_indices@.len() == 0 ==> *final (
            self) == *old(self),
            key == Key::Char('n') && old(self).config_panel.match_indices@.len() > 0 ==> *final (
            self) == (App { config_panel: final (self).config_panel, ..*old(self) }) && final (
            self).config_panel == (ConfigPanelState {
                current_match: final (self).config_panel.current_match,
                scroll_v: final (self).config_panel.scroll_v,
                ..old(self).config_panel
            }) && final (self).config_panel.current_match as int == (old(
                self,
            ).config_panel.current_match + 1) % (old(self).config_panel.match_indices@.len() as int),
            key == Key::Char('N') && old(self).config_panel.match_indices@.len() == 0 ==> *final (
            self) == *old(self),
            key == Key::Char('N') && old(self).config_panel.match_indices@.len() > 0 ==> *final (
            self) == (App { config_panel: final (self).config_panel, ..*old(self) }) && final (
            self).config_panel == (ConfigPanelState {
                current_match: final (self).config_panel.current_match,
                scroll_v: final (self).config_panel.scroll_v,
                ..old(self).config_panel
            }) && final (self).config_panel.current_match as int == (if old(
                self,
            ).config_panel.current_match == 0 {
                old(self).config_panel.match_indices@.len() - 1
            } else {
                old(self).config_panel.current_match as int - 1
            }),
            key == Key::Esc && old(self).config_panel.search@.len() == 0 ==> *final (self) == (App {
                focused: FocusedPanel::Runs,
                ..*old(self)
            }),
            key == Key::Esc && old(self).config_panel.search@.len() > 0 ==> *final (self) == (App {
                config_panel: final (self).config_panel,
                ..*old(self)
            }) && final (self).config_panel.search@.len() == 0 && final (
            self).config_panel.match_indices@.len() == 0 && final (self).config_panel.current_match
                == 0,
            !(key == Key::Down || key == Key::Up || key == Key::Right || key == Key::Left || key
                == Key::Esc || key == Key::Char('j') || key == Key::Char('k') || key == Key::Char(
                'l',
            ) || key == Key::Char('h') || key == Key::Char('/') || key == Key::Char('n') || key
                == Key::Char('N') || key == Key::Char('c')) ==> *final (self) == *old(self),
    {
        let config_len = if self.selected_run < self.runs.len() {
            self.runs[self.selected_run].config.len()
        } else {
            0
        };
        match key {
            Key::Down => self.scroll_down(config_len),
            Key::Char('j') => self.scroll_down(config_len),
            Key::Up => {
                if self.config_panel.scroll_v > 0 {
                    self.config_panel.scroll_v = self.config_panel.scroll_v - 1;
                }
                Action::Stay
            },
            Key::Char('k') => {
                if self.config_panel.scroll_v > 0 {
                    self.config_panel.scroll_v = self.config_panel.scroll_v - 1;
                }
                Action::Stay
            },
            Key::Right => {
                self.scroll_right();
                Action::Stay
            },
            Key::Char('l') => {
                self.scroll_right();
                Action::Stay
            },
            Key::Left => {
                self.scroll_left();
                Action::Stay
            },
            Key::Char('h') => {
                self.scroll_left();
                Action::Stay
            },
            Key::Char('/') => {
                self.config_panel.search_active = true;
                self.config_panel.search = String::new();
                self.config_panel.match_indices = Vec::new();
                self.config_panel.current_match = 0;
                Action::Stay
            },
            Key::Char('n') => {
                self.config_panel.next_config_match();
                Action::Stay
            },
            Key::Char('N') => {
                self.config_panel.prev_config_match();
                Action::Stay
            },
            Key::Char('c') => {
                self.config_panel.search = String::new();
                self.config_panel.match_indices = Vec::new();
                self.config_panel.current_match = 0;
                Action::Stay
            },
            Key::Esc => {
                if self.config_panel.search.as_str().is_empty() {
                    self.focused = FocusedPanel::Runs;
                } else {
                    self.config_panel.search = String::new();
                    self.config_panel.match_indices = Vec::new();
                    self.config_panel.current_match = 0;
                }
                Action::Stay
            },
            _ => Action::Stay,
        }
    }

    /// Scroll the configuration panel down by one line, capped at the last
    /// line.
    fn scroll_down(&mut self, config_len: usize) -> (action: Action)
        requires
            old(self).selection_valid(),
        ensures
            final (self).selection_valid(),
            action is Stay,
            *final (self) == (App { config_panel: final (self).config_panel, ..*old(self) }),
            final (self).config_panel == (ConfigPanelState {
                scroll_v: final (self).config_panel.scroll_v,
                ..old(self).config_panel
            }),
            final (self).config_panel.scroll_v as int == spec_scroll_down(
                old(self).config_panel.scroll_v as int,
                config_len as int,
            ),
    {
        if config_len > 0 {
            let limit: u16 = if config_len - 1 > 0xffff {
                0xffff
            } else {
                (config_len - 1) as u16
            };
            let bumped: u16 = if self.config_panel.scroll_v < 0xffff {
                self.config_panel.scroll_v + 1
            } else {
                0xffff
            };
            self.config_panel.scroll_v = if bumped < limit {
                bumped
            } else {
                limit
            };
        }
        Action::Stay
    }

    /// Scroll the configuration panel right by four columns, saturating.
    fn scroll_right(&mut self)
        ensures
            *final (self) == (App { config_panel: final (self).config_panel, ..*old(self) }),
            final (self).config_panel == (ConfigPanelState {
                scroll_h: final (self).config_panel.scroll_h,
                ..old(self).config_panel
            }),
            final (self).config_panel.scroll_h as int == (if old(self).config_panel.scroll_h
                + 4 <= 0xffff {
                old(self).config_panel.scroll_h + 4
            } else {
                0xffff
            }),
    {
        self.config_panel.scroll_h = if self.config_panel.scroll_h <= 0xffff - 4 {
            self.config_panel.scroll_h + 4
        } else {
            0xffff
        };
    }

    /// Scroll the configuration panel left by four columns, saturating.
    fn scroll_left(&mut self)
        ensures
            *final (self) == (App { config_panel: final (self).config_panel, ..*old(self) }),
            final (self).config_panel == (ConfigPanelState {
                scroll_h: final (self).config_panel.scroll_h,
                ..old(self).config_panel
            }),
            final (self).config_panel.scroll_h as int == (if old(self).config_panel.scroll_h >= 4 {
                old(self).config_panel.scroll_h - 4
            } else {
                0
            }),
    {
        self.config_panel.scroll_h = if self.config_panel.scroll_h >= 4 {
            self.config_panel.scroll_h - 4
        } else {
            0
        };
    }
}

/// Matching over rendered line strings agrees with matching over the
/// configuration entries they render.
proof fn lemma_matching_indices_from_lines(lines: Seq<String>, config: Seq<Config>, q: Seq<char>)
    requires
        lines.len() == config.len(),
        forall|i: int|
            0 <= i < lines.len() ==> (#[trigger] lines[i])@ == config_line_chars(config[i]),
    ensures
        crate::search::matching_indices(lines, q) == config_matching_indices(config, q),
    decreases lines.len(),
{
    if lines.len() == 0 {
        assert(crate::search::matching_indices(lines, q) =~= config_matching_indices(config, q));
    } else {
        assert forall|i: int|
            0 <= i < lines.drop_last().len() implies (#[trigger] lines.drop_last()[i])@
            == config_line_chars(config.drop_last()[i]) by {
            assert(lines.drop_last()[i] == lines[i]);
            assert(config.drop_last()[i] == config[i]);
        }
        lemma_matching_indices_from_lines(lines.drop_last(), config.drop_last(), q);
        assert(lines.last()@ == config_line_chars(config.last()));
        assert(crate::search::matching_indices(lines, q) =~= config_matching_indices(config, q));
    }
}

/// The run ids of a run list, in order.
fn run_ids_of(runs: &Vec<Run>) -> (ids: Vec<String>)
    ensures
        ids@.len() == runs@.len(),
        forall|i: int| 0 <= i < runs@.len() ==> (#[trigger] ids@[i])@ == runs@[i].id@,
        forall|id: Seq<char>| has_name(ids@, id) == run_id_set(runs@).contains(id),
{
    let mut ids: Vec<String> = Vec::new();
    let n = runs.len();
    let mut i: usize = 0;
    while i < n
        invariant
            i <= n,
            n == runs@.len(),
            ids@.len() == i,
            forall|x: int| 0 <= x < i ==> (#[trigger] ids@[x])@ == runs@[x].id@,
        decreases n - i,
    {
        ids.push(runs[i].id.clone());
        i = i + 1;
    }
    proof {
        assert forall|id: Seq<char>|
            has_name(ids@, id) == run_id_set(runs@).contains(id) by {
            if has_name(ids@, id) {
                let x = choose|x: int| 0 <= x < ids@.len() && ids@[x]@ == id;
                assert(runs@[x].id@ == id);
            }
            if run_id_set(runs@).contains(id) {
                let x = choose|x: int| 0 <= x < runs@.len() && runs@[x].id@ == id;
                assert(ids@[x]@ == id);
            }
        }
    }
    ids
}

/// Relies on `String::push`: appends exactly the given character.
#[verifier::external_body]
fn push_char(s: &mut String, c: char)
    ensures
        final (s)@ == old(s)@.push(c),
{
    s.push(c);
}

/// The string with its last character removed; the empty string stays empty.
fn drop_last_char(s: &String) -> (r: String)
    ensures
        s@.len() == 0 ==> r@ == s@,
        s@.len() > 0 ==> r@ == s@.drop_last(),
{
    let n = s.as_str().unicode_len();
    if n == 0 {
        return String::new();
    }
    let prefix = s.as_str().substring_char(0, n - 1);
    proof {
        assert(s@.subrange(0, s@.len() - 1) =~= s@.drop_last());
    }
    prefix.to_owned()
}

/// Status bar content: the project name, or a non-fatal error message.
pub struct StatusBar<'a> {
    pub project: Option<&'a str>,
    pub error: Option<&'a str>,
}

impl<'a> StatusBar<'a> {
    /// Create a status bar for the given project and error.
    pub fn new(project: Option<&'a str>, error: Option<&'a str>) -> (r: StatusBar<'a>)
        ensures
            r.project == project,
            r.error == error,
    {
        StatusBar { project, error }
    }

    /// The status line text: an error when present, else the project name
    /// with the key hints.
    pub fn status_text(&self) -> (r: String)
        ensures
            self.error is Some ==> r@ == "Error: "@ + self.error.unwrap()@,
            self.error is None && self.project is Some ==> r@ == "trackio-tui: "@
                + self.project.unwrap()@ + " | [h] Help [q] Quit"@,
            self.error is None && self.project is None ==> r@ == "trackio-tui | [h] Help [q] Quit"@,
    {
        proof {
            reveal_strlit("Error: ");
            reveal_strlit("trackio-tui: ");
            reveal_strlit(" | [h] Help [q] Quit");
            reveal_strlit("trackio-tui | [h] Help [q] Quit");
        }
        match self.error {
            Some(e) => {
                let mut r = "Error: ".to_owned();
                r.append(e);
                r
            },
            None => {
                match self.project {
                    Some(p) => {
                        let mut r = "trackio-tui: ".to_owned();
                        r.append(p);
                        r.append(" | [h] Help [q] Quit");
                        r
                    },
                    None => { "trackio-tui | [h] Help [q] Quit".to_owned() },
                }
            },
        }
    }
}

} // verus!
