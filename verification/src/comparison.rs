//! Run comparison state management.
//!
//! Tracks which runs are marked for overlay comparison and caches their
//! fetched metrics, keyed by stable run identity rather than list position,
//! because a refresh can reorder or remove runs. The cache only ever holds
//! entries for marked runs; unmarking a run evicts its cache entry at once.

use crate::models::Metric;
use crate::models::MetricView;
use crate::models::metrics_view;
use crate::strings::contains_name;
use crate::strings::has_name;
use crate::strings::lemma_seq_char_le_refl;
use crate::strings::lemma_seq_char_le_total;
use crate::strings::lemma_seq_char_le_trans;
use crate::strings::seq_char_le;
use crate::strings::str_eq;
use crate::strings::str_le;
use vstd::prelude::*;

verus! {

/// The marked set after toggling `id`: removed when present, added when not.
pub open spec fn toggle_marked(marked: Set<Seq<char>>, id: Seq<char>) -> Set<Seq<char>> {
    if marked.contains(id) {
        marked.remove(id)
    } else {
        marked.insert(id)
    }
}

/// The cache after toggling `id` in a state whose marked set was `marked`:
/// unmarking evicts the entry, marking leaves the cache alone.
pub open spec fn toggle_cache(
    marked: Set<Seq<char>>,
    cache: Map<Seq<char>, Seq<MetricView>>,
    id: Seq<char>,
) -> Map<Seq<char>, Seq<MetricView>> {
    if marked.contains(id) {
        cache.remove(id)
    } else {
        cache
    }
}

/// True when some cache entry has key `id`.
pub open spec fn entries_have(entries: Seq<(String, Vec<Metric>)>, id: Seq<char>) -> bool {
    exists|i: int| 0 <= i < entries.len() && entries[i].0@ == id
}

/// The metrics of the cache entry with key `id`.
pub open spec fn entries_get(entries: Seq<(String, Vec<Metric>)>, id: Seq<char>) -> Vec<Metric> {
    entries[choose|i: int| 0 <= i < entries.len() && entries[i].0@ == id].1
}

/// True when cache entry keys are strictly sorted by run id.
pub open spec fn entries_sorted(entries: Seq<(String, Vec<Metric>)>) -> bool {
    forall|i: int, j: int|
        0 <= i < j < entries.len() ==> seq_char_le(
            #[trigger] entries[i].0@,
            #[trigger] entries[j].0@,
        ) && entries[i].0@ != entries[j].0@
}

/// The metric views in `pairs` that carry run id `id`, in order.
pub open spec fn pairs_for(pairs: Seq<(String, Metric)>, id: Seq<char>) -> Seq<MetricView>
    decreases pairs.len(),
{
    if pairs.len() == 0 {
        Seq::empty()
    } else {
        pairs_for(pairs.drop_last(), id) + (if pairs.last().0@ == id {
            seq![pairs.last().1.view_of()]
        } else {
            Seq::empty()
        })
    }
}

/// Law: toggling one run id twice returns the marked set to its original
/// value, leaves the cache without an entry for that id, and touches no other
/// cache entry. The hypothesis is the comparison-state invariant that the
/// cache only holds marked runs.
pub proof fn lemma_toggle_round_trip(
    marked: Set<Seq<char>>,
    cache: Map<Seq<char>, Seq<MetricView>>,
    id: Seq<char>,
)
    requires
        cache.dom() <= marked,
    ensures
        toggle_marked(toggle_marked(marked, id), id) == marked,
        toggle_cache(toggle_marked(marked, id), toggle_cache(marked, cache, id), id)
            == cache.remove(id),
        !toggle_cache(toggle_marked(marked, id), toggle_cache(marked, cache, id), id).dom().contains(
            id,
        ),
{
    if marked.contains(id) {
        assert(toggle_marked(toggle_marked(marked, id), id) =~= marked);
        assert(toggle_cache(toggle_marked(marked, id), toggle_cache(marked, cache, id), id)
            =~= cache.remove(id));
    } else {
        assert(!cache.dom().contains(id));
        assert(toggle_marked(toggle_marked(marked, id), id) =~= marked);
        assert(toggle_cache(toggle_marked(marked, id), toggle_cache(marked, cache, id), id)
            =~= cache.remove(id));
    }
}

/// Manages run comparison state and cached metrics.
#[derive(Debug)]
pub struct ComparisonState {
    /// Run ids marked for comparison, each id at most once.
    marked_runs: Vec<String>,
    /// Cached metrics keyed by run id, keys strictly sorted, every key
    /// marked.
    metrics_cache: Vec<(String, Vec<Metric>)>,
}

impl ComparisonState {
    /// Internal representation invariant: marked ids unique, cache keys
    /// strictly sorted by id, and every cache key marked.
    #[verifier::type_invariant]
    spec fn wf(&self) -> bool {
        &&& forall|i: int, j: int|
            0 <= i < j < self.marked_runs@.len() ==> (#[trigger] self.marked_runs@[i]@) != (
            #[trigger] self.marked_runs@[j]@)
        &&& entries_sorted(self.metrics_cache@)
        &&& forall|i: int|
            0 <= i < self.metrics_cache@.len() ==> has_name(
                self.marked_runs@,
                #[trigger] self.metrics_cache@[i].0@,
            )
    }

    /// The set of run ids marked for comparison.
    pub closed spec fn spec_marked(&self) -> Set<Seq<char>> {
        Set::new(|id: Seq<char>| has_name(self.marked_runs@, id))
    }

    /// The cached metrics by run id.
    pub closed spec fn spec_cache(&self) -> Map<Seq<char>, Seq<MetricView>> {
        Map::new(
            |id: Seq<char>| entries_have(self.metrics_cache@, id),
            |id: Seq<char>| metrics_view(entries_get(self.metrics_cache@, id)@),
        )
    }

    /// Invariant of the visible state: the cache never holds an unmarked
    /// run. The body only brings the representation invariant into scope, so
    /// a call is free of side effects.
    pub fn cache_subset_of_marked(&self)
        ensures
            self.spec_cache().dom() <= self.spec_marked(),
    {
        proof {
            use_type_invariant(self);
            assert forall|id: Seq<char>|
                self.spec_cache().dom().contains(id) implies self.spec_marked().contains(id) by {
                let i = choose|i: int|
                    0 <= i < self.metrics_cache@.len() && self.metrics_cache@[i].0@ == id;
                assert(has_name(self.marked_runs@, self.metrics_cache@[i].0@));
            }
        }
    }

    /// Create a new empty comparison state.
    pub fn new() -> (s: Self)
        ensures
            s.spec_marked() == Set::<Seq<char>>::empty(),
            s.spec_cache() == Map::<Seq<char>, Seq<MetricView>>::empty(),
    {
        let s = ComparisonState { marked_runs: Vec::new(), metrics_cache: Vec::new() };
        proof {
            assert(s.spec_marked() =~= Set::<Seq<char>>::empty());
            assert(s.spec_cache() =~= Map::<Seq<char>, Seq<MetricView>>::empty());
        }
        s
    }

    /// Toggle a run's comparison status; true when the run is now marked.
    /// Unmarking also evicts the run's cache entry, so stale data is never
    /// served after a future re-mark.
    pub fn toggle_run(&mut self, run_id: &str) -> (now_marked: bool)
        ensures
            now_marked == !old(self).spec_marked().contains(run_id@),
            final (self).spec_marked() == toggle_marked(old(self).spec_marked(), run_id@),
            final (self).spec_cache() == toggle_cache(
                old(self).spec_marked(),
                old(self).spec_cache(),
                run_id@,
            ),
    {
        proof {
            use_type_invariant(&*self);
        }
        if contains_name(&self.marked_runs, run_id) {
            self.remove_cached(run_id);
            proof {
                use_type_invariant(&*self);
            }
            self.remove_marked(run_id);
            proof {
                assert(self.spec_marked() =~= old(self).spec_marked().remove(run_id@));
                assert(self.spec_cache() =~= old(self).spec_cache().remove(run_id@));
            }
            false
        } else {
            let ghost marked0 = self.marked_runs@;
            let mut new_marked = clone_names(&self.marked_runs);
            new_marked.push(run_id.to_owned());
            proof {
                assert forall|id: Seq<char>|
                    has_name(new_marked@, id) == (has_name(marked0, id) || id == run_id@) by {
                    lemma_has_name_push(marked0, new_marked@.last(), id);
                }
                assert forall|a: int|
                    0 <= a < self.metrics_cache@.len() implies has_name(
                    new_marked@,
                    #[trigger] self.metrics_cache@[a].0@,
                ) by {
                    assert(has_name(marked0, self.metrics_cache@[a].0@));
                }
            }
            self.marked_runs = new_marked;
            proof {
                assert(self.spec_marked() =~= old(self).spec_marked().insert(run_id@));
                assert(self.spec_cache() =~= old(self).spec_cache());
            }
            true
        }
    }

    /// Drop `run_id` from the marked list, keeping everything else.
    fn remove_marked(&mut self, run_id: &str)
        requires
            old(self).wf(),
            !entries_have(old(self).metrics_cache@, run_id@),
        ensures
            final (self).metrics_cache == old(self).metrics_cache,
            forall|id: Seq<char>|
                has_name(final (self).marked_runs@, id) == (has_name(old(self).marked_runs@, id)
                    && id != run_id@),
    {
        let mut kept: Vec<String> = Vec::new();
        let n = self.marked_runs.len();
        let mut i: usize = 0;
        while i < n
            invariant
                i <= n,
                n == self.marked_runs@.len(),
                self == old(self),
                old(self).wf(),
                !entries_have(old(self).metrics_cache@, run_id@),
                forall|a: int, b: int|
                    0 <= a < b < kept@.len() ==> (#[trigger] kept@[a]@) != (#[trigger] kept@[b]@),
                forall|id: Seq<char>|
                    has_name(kept@, id) == (has_name(self.marked_runs@.take(i as int), id) && id
                        != run_id@),
            decreases n - i,
        {
            let keep = !str_eq(self.marked_runs[i].as_str(), run_id);
            let ghost kept0 = kept@;
            if keep {
                kept.push(self.marked_runs[i].clone());
            }
            proof {
                assert(self.marked_runs@.take(i + 1) == self.marked_runs@.take(i as int).push(
                    self.marked_runs@[i as int],
                ));
                assert forall|id: Seq<char>|
                    has_name(kept@, id) == (has_name(self.marked_runs@.take(i + 1), id) && id
                        != run_id@) by {
                    if keep {
                        lemma_has_name_push(kept0, kept@.last(), id);
                    }
                    lemma_has_name_push(
                        self.marked_runs@.take(i as int),
                        self.marked_runs@[i as int],
                        id,
                    );
                }
                if keep {
                    assert forall|a: int, b: int|
                        0 <= a < b < kept@.len() implies (#[trigger] kept@[a]@) != (
                    #[trigger] kept@[b]@) by {
                        if b == kept@.len() - 1 {
                            assert(has_name(kept0, kept@[a]@));
                            let x = choose|x: int|
                                0 <= x < self.marked_runs@.take(i as int).len()
                                    && self.marked_runs@.take(i as int)[x]@ == kept@[a]@;
                            assert(self.marked_runs@[x]@ != self.marked_runs@[i as int]@);
                        }
                    }
                }
            }
            i = i + 1;
        }
        proof {
            assert(self.marked_runs@.take(n as int) == self.marked_runs@);
        }
        self.marked_runs = kept;
    }

    /// Drop the cache entry for `run_id`, if any, keeping everything else.
    fn remove_cached(&mut self, run_id: &str)
        requires
            old(self).wf(),
        ensures
            final (self).marked_runs == old(self).marked_runs,
            entries_sorted(final (self).metrics_cache@),
            forall|id: Seq<char>|
                entries_have(final (self).metrics_cache@, id) == (entries_have(
                    old(self).metrics_cache@,
                    id,
                ) && id != run_id@),
            forall|id: Seq<char>|
                entries_have(final (self).metrics_cache@, id) ==> entries_get(
                    final (self).metrics_cache@,
                    id,
                ) == entries_get(old(self).metrics_cache@, id),
    {
        let mut source: Vec<(String, Vec<Metric>)> = Vec::new();
        core::mem::swap(&mut source, &mut self.metrics_cache);
        let ghost orig = source@;
        let total = source.len();
        proof {
            assert(orig.len() == total as int);
        }
        let mut kept: Vec<(String, Vec<Metric>)> = Vec::new();
        let mut i: usize = 0;
        while source.len() > 0
            invariant
                self.marked_runs == old(self).marked_runs,
                self.metrics_cache@.len() == 0,
                old(self).wf(),
                orig == old(self).metrics_cache@,
                orig.len() <= usize::MAX,
                i + source@.len() == orig.len(),
                source@ == orig.skip(i as int),
                forall|a: int|
                    0 <= a < kept@.len() ==> entries_have(
                        orig.take(i as int),
                        #[trigger] kept@[a].0@,
                    ),
                entries_sorted(kept@),
                forall|id: Seq<char>|
                    entries_have(kept@, id) == (entries_have(orig.take(i as int), id) && id
                        != run_id@),
                forall|id: Seq<char>|
                    entries_have(kept@, id) ==> entries_get(kept@, id) == entries_get(orig, id),
            decreases source@.len(),
        {
            let e = source.remove(0);
            proof {
                assert(e == orig[i as int]);
                assert(source@ =~= orig.skip(i + 1));
            }
            let keep = !str_eq(e.0.as_str(), run_id);
            let ghost kept0 = kept@;
            if keep {
                kept.push(e);
                proof {
                    lemma_keep_entry_step(kept0, kept@, orig, i as int);
                    assert forall|id: Seq<char>|
                        entries_have(kept@, id) == (entries_have(orig.take(i + 1), id) && id
                            != run_id@) by {
                        lemma_entries_have_push(kept0, kept@.last(), id);
                        lemma_entries_have_push(orig.take(i as int), orig[i as int], id);
                        assert(orig.take(i + 1) == orig.take(i as int).push(orig[i as int]));
                    }
                }
            } else {
                proof {
                    assert forall|id: Seq<char>|
                        entries_have(kept@, id) == (entries_have(orig.take(i + 1), id) && id
                            != run_id@) by {
                        lemma_entries_have_push(orig.take(i as int), orig[i as int], id);
                        assert(orig.take(i + 1) == orig.take(i as int).push(orig[i as int]));
                    }
                    assert forall|a: int|
                        0 <= a < kept@.len() implies entries_have(
                        orig.take(i + 1),
                        #[trigger] kept@[a].0@,
                    ) by {
                        lemma_entries_have_push(orig.take(i as int), orig[i as int], kept@[a].0@);
                        assert(orig.take(i + 1) == orig.take(i as int).push(orig[i as int]));
                    }
                }
            }
            i = i + 1;
        }
        proof {
            assert(orig.take(i as int) =~= orig);
            assert forall|a: int|
                0 <= a < kept@.len() implies has_name(
                old(self).marked_runs@,
                #[trigger] kept@[a].0@,
            ) by {
                let b = choose|b: int| 0 <= b < orig.len() && orig[b].0@ == kept@[a].0@;
                assert(has_name(old(self).marked_runs@, orig[b].0@));
            }
        }
        self.metrics_cache = kept;
    }

    /// Check whether a run is marked for comparison.
    pub fn is_marked(&self, run_id: &str) -> (b: bool)
        ensures
            b == self.spec_marked().contains(run_id@),
    {
        contains_name(&self.marked_runs, run_id)
    }

    /// The run ids marked for comparison, each exactly once.
    pub fn marked_run_ids(&self) -> (ids: &Vec<String>)
        ensures
            forall|id: Seq<char>| has_name(ids@, id) == self.spec_marked().contains(id),
            forall|i: int, j: int|
                0 <= i < j < ids@.len() ==> (#[trigger] ids@[i]@) != (#[trigger] ids@[j]@),
    {
        proof {
            use_type_invariant(self);
        }
        &self.marked_runs
    }

    /// Clear all comparison state: used on project change, where comparisons
    /// are meaningless, but not on a same-project refresh.
    pub fn clear(&mut self)
        ensures
            final (self).spec_marked() == Set::<Seq<char>>::empty(),
            final (self).spec_cache() == Map::<Seq<char>, Seq<MetricView>>::empty(),
    {
        proof {
            use_type_invariant(&*self);
        }
        self.metrics_cache = Vec::new();
        self.marked_runs = Vec::new();
        proof {
            assert(self.spec_marked() =~= Set::<Seq<char>>::empty());
            assert(self.spec_cache() =~= Map::<Seq<char>, Seq<MetricView>>::empty());
        }
    }

    /// Insert or overwrite the cached metric list for an already-marked run.
    pub fn cache_metrics(&mut self, run_id: &str, metrics: Vec<Metric>)
        requires
            old(self).spec_marked().contains(run_id@),
        ensures
            final (self).spec_marked() == old(self).spec_marked(),
            final (self).spec_cache() == old(self).spec_cache().insert(
                run_id@,
                metrics_view(metrics@),
            ),
    {
        proof {
            use_type_invariant(&*self);
        }
        self.remove_cached(run_id);
        proof {
            use_type_invariant(&*self);
        }
        let ghost mid = self.metrics_cache@;
        let pos = self.cache_insert_position(run_id);
        let mut entries: Vec<(String, Vec<Metric>)> = Vec::new();
        core::mem::swap(&mut entries, &mut self.metrics_cache);
        entries.insert(pos, (run_id.to_owned(), metrics));
        proof {
            let k = pos as int;
            let new = entries@;
            assert(new[k].0@ == run_id@);
            assert(forall|a: int| 0 <= a < k ==> #[trigger] new[a] == mid[a]);
            assert(forall|a: int| k < a < new.len() ==> #[trigger] new[a] == mid[a - 1]);
            assert forall|a: int, b: int| 0 <= a < b < new.len() implies seq_char_le(
                #[trigger] new[a].0@,
                #[trigger] new[b].0@,
            ) && new[a].0@ != new[b].0@ by {
                if a == k && b > k {
                    assert(seq_char_le(run_id@, mid[b - 1].0@) && mid[b - 1].0@ != run_id@);
                } else if b == k && a < k {
                    assert(seq_char_le(mid[a].0@, run_id@) && mid[a].0@ != run_id@);
                }
            }
            assert forall|id: Seq<char>| #[trigger]
                entries_have(new, id) implies (entries_have(mid, id) || id == run_id@) by {
                let x = choose|x: int| 0 <= x < new.len() && new[x].0@ == id;
                if x < k {
                    assert(mid[x].0@ == id);
                } else if x > k {
                    assert(mid[x - 1].0@ == id);
                }
            }
            assert forall|id: Seq<char>| entries_have(mid, id) implies entries_have(new, id) by {
                let x = choose|x: int| 0 <= x < mid.len() && mid[x].0@ == id;
                if x < k {
                    assert(new[x].0@ == id);
                } else {
                    assert(new[x + 1].0@ == id);
                }
            }
            assert(entries_have(new, run_id@));
            lemma_entries_unique_get(new, run_id@);
            assert(entries_get(new, run_id@) == new[k].1);
            assert forall|id: Seq<char>|
                entries_have(mid, id) && id != run_id@ implies entries_get(new, id) == entries_get(
                mid,
                id,
            ) by {
                let x = choose|x: int| 0 <= x < mid.len() && mid[x].0@ == id;
                lemma_entries_unique_get(new, id);
                lemma_entries_unique_get(mid, id);
                if x < k {
                    assert(new[x].0@ == id);
                    assert(entries_get(new, id) == new[x].1);
                } else {
                    assert(new[x + 1].0@ == id);
                    assert(entries_get(new, id) == new[x + 1].1);
                }
            }
            assert forall|a: int|
                0 <= a < new.len() implies has_name(
                self.marked_runs@,
                #[trigger] new[a].0@,
            ) by {
                if a != k {
                    assert(entries_have(mid, new[a].0@)) by {
                        if a < k {
                            assert(mid[a].0@ == new[a].0@);
                        } else {
                            assert(mid[a - 1].0@ == new[a].0@);
                        }
                    }
                    let x = choose|x: int| 0 <= x < mid.len() && mid[x].0@ == new[a].0@;
                    assert(has_name(self.marked_runs@, mid[x].0@));
                }
            }
        }
        self.metrics_cache = entries;
        proof {
            assert(self.spec_marked() =~= old(self).spec_marked());
            assert(self.spec_cache() =~= old(self).spec_cache().insert(
                run_id@,
                metrics_view(metrics@),
            ));
        }
    }

    /// The position where a (not currently cached) `run_id` belongs so that
    /// cache keys stay strictly sorted.
    fn cache_insert_position(&self, run_id: &str) -> (pos: usize)
        requires
            entries_sorted(self.metrics_cache@),
            !entries_have(self.metrics_cache@, run_id@),
        ensures
            pos <= self.metrics_cache@.len(),
            forall|a: int|
                0 <= a < pos ==> seq_char_le(#[trigger] self.metrics_cache@[a].0@, run_id@)
                    && self.metrics_cache@[a].0@ != run_id@,
            forall|a: int|
                pos <= a < self.metrics_cache@.len() ==> seq_char_le(
                    run_id@,
                    #[trigger] self.metrics_cache@[a].0@,
                ) && self.metrics_cache@[a].0@ != run_id@,
    {
        let n = self.metrics_cache.len();
        let mut pos: usize = 0;
        while pos < n
            invariant
                pos <= n,
                n == self.metrics_cache@.len(),
                entries_sorted(self.metrics_cache@),
                !entries_have(self.metrics_cache@, run_id@),
                forall|a: int|
                    0 <= a < pos ==> seq_char_le(#[trigger] self.metrics_cache@[a].0@, run_id@)
                        && self.metrics_cache@[a].0@ != run_id@,
            decreases n - pos,
        {
            proof {
                assert(self.metrics_cache@[pos as int].0@ != run_id@) by {
                    if self.metrics_cache@[pos as int].0@ == run_id@ {
                        assert(entries_have(self.metrics_cache@, run_id@));
                    }
                }
            }
            if str_le(run_id, self.metrics_cache[pos].0.as_str()) {
                proof {
                    assert forall|a: int|
                        pos <= a < self.metrics_cache@.len() implies seq_char_le(
                        run_id@,
                        #[trigger] self.metrics_cache@[a].0@,
                    ) && self.metrics_cache@[a].0@ != run_id@ by {
                        if a > pos {
                            lemma_seq_char_le_trans(
                                run_id@,
                                self.metrics_cache@[pos as int].0@,
                                self.metrics_cache@[a].0@,
                            );
                        }
                        if self.metrics_cache@[a].0@ == run_id@ {
                            assert(entries_have(self.metrics_cache@, run_id@));
                        }
                    }
                }
                return pos;
            }
            proof {
                lemma_seq_char_le_total(run_id@, self.metrics_cache@[pos as int].0@);
            }
            pos = pos + 1;
        }
        pos
    }

    /// The cached metrics for a run, if any.
    pub fn get_cached_metrics(&self, run_id: &str) -> (r: Option<&Vec<Metric>>)
        ensures
            r is Some <==> self.spec_cache().dom().contains(run_id@),
            r is Some ==> metrics_view(r.unwrap()@) == self.spec_cache()[run_id@],
    {
        proof {
            use_type_invariant(self);
        }
        let n = self.metrics_cache.len();
        let mut i: usize = 0;
        while i < n
            invariant
                i <= n,
                n == self.metrics_cache@.len(),
                entries_sorted(self.metrics_cache@),
                forall|j: int| 0 <= j < i ==> (#[trigger] self.metrics_cache@[j].0@) != run_id@,
            decreases n - i,
        {
            if str_eq(self.metrics_cache[i].0.as_str(), run_id) {
                proof {
                    lemma_entries_unique_get(self.metrics_cache@, run_id@);
                }
                return Some(&self.metrics_cache[i].1);
            }
            i = i + 1;
        }
        proof {
            assert(!entries_have(self.metrics_cache@, run_id@));
        }
        None
    }

    /// Check whether any runs are marked for comparison.
    pub fn has_comparisons(&self) -> (b: bool)
        ensures
            b <==> exists|id: Seq<char>| self.spec_marked().contains(id),
    {
        let b = self.marked_runs.len() > 0;
        proof {
            if self.marked_runs@.len() > 0 {
                assert(self.spec_marked().contains(self.marked_runs@[0]@));
            }
        }
        b
    }

    /// Remove from the marked set and the cache every run absent from
    /// `valid_run_ids`; valid runs and their cached metrics are untouched.
    pub fn prune_invalid_runs(&mut self, valid_run_ids: &Vec<String>)
        ensures
            final (self).spec_marked() == old(self).spec_marked().intersect(
                Set::new(|id: Seq<char>| has_name(valid_run_ids@, id)),
            ),
            final (self).spec_cache() == old(self).spec_cache().restrict(
                Set::new(|id: Seq<char>| has_name(valid_run_ids@, id)),
            ),
    {
        proof {
            use_type_invariant(&*self);
        }
        self.prune_cache(valid_run_ids);
        proof {
            use_type_invariant(&*self);
        }
        self.prune_marked(valid_run_ids);
        proof {
            let valid = Set::new(|id: Seq<char>| has_name(valid_run_ids@, id));
            assert forall|id: Seq<char>|
                self.spec_marked().contains(id) == old(self).spec_marked().intersect(
                    valid,
                ).contains(id) by {
                assert(self.spec_marked().contains(id) == has_name(self.marked_runs@, id));
                assert(old(self).spec_marked().contains(id) == has_name(
                    old(self).marked_runs@,
                    id,
                ));
                assert(valid.contains(id) == has_name(valid_run_ids@, id));
                assert(has_name(self.marked_runs@, id) == (has_name(old(self).marked_runs@, id)
                    && has_name(valid_run_ids@, id)));
                assert(old(self).spec_marked().intersect(valid).contains(id) == (old(
                    self,
                ).spec_marked().contains(id) && valid.contains(id)));
            }
            assert(self.spec_marked() =~= old(self).spec_marked().intersect(valid));
            assert(self.spec_cache() =~= old(self).spec_cache().restrict(valid));
        }
    }

    /// Keep only marked ids present in `valid_run_ids`.
    fn prune_marked(&mut self, valid_run_ids: &Vec<String>)
        requires
            old(self).wf(),
            forall|a: int|
                0 <= a < old(self).metrics_cache@.len() ==> has_name(
                    valid_run_ids@,
                    #[trigger] old(self).metrics_cache@[a].0@,
                ),
        ensures
            final (self).metrics_cache == old(self).metrics_cache,
            forall|id: Seq<char>|
                has_name(final (self).marked_runs@, id) == (has_name(old(self).marked_runs@, id)
                    && has_name(valid_run_ids@, id)),
    {
        let mut kept: Vec<String> = Vec::new();
        let n = self.marked_runs.len();
        let mut i: usize = 0;
        while i < n
            invariant
                i <= n,
                n == self.marked_runs@.len(),
                self == old(self),
                old(self).wf(),
                forall|a: int, b: int|
                    0 <= a < b < kept@.len() ==> (#[trigger] kept@[a]@) != (#[trigger] kept@[b]@),
                forall|id: Seq<char>|
                    has_name(kept@, id) == (has_name(self.marked_runs@.take(i as int), id)
                        && has_name(valid_run_ids@, id)),
            decreases n - i,
        {
            let keep = contains_name(valid_run_ids, self.marked_runs[i].as_str());
            let ghost kept0 = kept@;
            if keep {
                kept.push(self.marked_runs[i].clone());
            }
            proof {
                assert(self.marked_runs@.take(i + 1) == self.marked_runs@.take(i as int).push(
                    self.marked_runs@[i as int],
                ));
                assert forall|id: Seq<char>|
                    has_name(kept@, id) == (has_name(self.marked_runs@.take(i + 1), id) && has_name(
                        valid_run_ids@,
                        id,
                    )) by {
                    if keep {
                        lemma_has_name_push(kept0, kept@.last(), id);
                    }
                    lemma_has_name_push(
                        self.marked_runs@.take(i as int),
                        self.marked_runs@[i as int],
                        id,
                    );
                }
                if keep {
                    assert forall|a: int, b: int|
                        0 <= a < b < kept@.len() implies (#[trigger] kept@[a]@) != (
                    #[trigger] kept@[b]@) by {
                        if b == kept@.len() - 1 {
                            assert(has_name(kept0, kept@[a]@));
                            let x = choose|x: int|
                                0 <= x < self.marked_runs@.take(i as int).len()
                                    && self.marked_runs@.take(i as int)[x]@ == kept@[a]@;
                            assert(self.marked_runs@[x]@ != self.marked_runs@[i as int]@);
                        }
                    }
                }
            }
            i = i + 1;
        }
        proof {
            assert(self.marked_runs@.take(n as int) == self.marked_runs@);
        }
        self.marked_runs = kept;
    }

    /// Keep only cache entries whose key is present in `valid_run_ids`.
    fn prune_cache(&mut self, valid_run_ids: &Vec<String>)
        requires
            old(self).wf(),
        ensures
            final (self).marked_runs == old(self).marked_runs,
            entries_sorted(final (self).metrics_cache@),
            forall|a: int|
                0 <= a < final (self).metrics_cache@.len() ==> has_name(
                    valid_run_ids@,
                    #[trigger] final (self).metrics_cache@[a].0@,
                ),
            forall|id: Seq<char>|
                entries_have(final (self).metrics_cache@, id) == (entries_have(
                    old(self).metrics_cache@,
                    id,
                ) && has_name(valid_run_ids@, id)),
            forall|id: Seq<char>|
                entries_have(final (self).metrics_cache@, id) ==> entries_get(
                    final (self).metrics_cache@,
                    id,
                ) == entries_get(old(self).metrics_cache@, id),
    {
        let mut source: Vec<(String, Vec<Metric>)> = Vec::new();
        core::mem::swap(&mut source, &mut self.metrics_cache);
        let ghost orig = source@;
        let total = source.len();
        proof {
            assert(orig.len() == total as int);
        }
        let mut kept: Vec<(String, Vec<Metric>)> = Vec::new();
        let mut i: usize = 0;
        while source.len() > 0
            invariant
                self.marked_runs == old(self).marked_runs,
                self.metrics_cache@.len() == 0,
                old(self).wf(),
                orig == old(self).metrics_cache@,
                orig.len() <= usize::MAX,
                i + source@.len() == orig.len(),
                source@ == orig.skip(i as int),
                forall|a: int|
                    0 <= a < kept@.len() ==> entries_have(
                        orig.take(i as int),
                        #[trigger] kept@[a].0@,
                    ),
                entries_sorted(kept@),
                forall|a: int|
                    0 <= a < kept@.len() ==> has_name(valid_run_ids@, #[trigger] kept@[a].0@),
                forall|id: Seq<char>|
                    entries_have(kept@, id) == (entries_have(orig.take(i as int), id) && has_name(
                        valid_run_ids@,
                        id,
                    )),
                forall|id: Seq<char>|
                    entries_have(kept@, id) ==> entries_get(kept@, id) == entries_get(orig, id),
            decreases source@.len(),
        {
            let e = source.remove(0);
            proof {
                assert(e == orig[i as int]);
                assert(source@ =~= orig.skip(i + 1));
            }
            let keep = contains_name(valid_run_ids, e.0.as_str());
            let ghost kept0 = kept@;
            if keep {
                kept.push(e);
                proof {
                    lemma_keep_entry_step(kept0, kept@, orig, i as int);
                    assert forall|id: Seq<char>|
                        entries_have(kept@, id) == (entries_have(orig.take(i + 1), id) && has_name(
                            valid_run_ids@,
                            id,
                        )) by {
                        lemma_entries_have_push(kept0, kept@.last(), id);
                        lemma_entries_have_push(orig.take(i as int), orig[i as int], id);
                        assert(orig.take(i + 1) == orig.take(i as int).push(orig[i as int]));
                    }
                }
            } else {
                proof {
                    assert forall|id: Seq<char>|
                        entries_have(kept@, id) == (entries_have(orig.take(i + 1), id) && has_name(
                            valid_run_ids@,
                            id,
                        )) by {
                        lemma_entries_have_push(orig.take(i as int), orig[i as int], id);
                        assert(orig.take(i + 1) == orig.take(i as int).push(orig[i as int]));
                    }
                    assert forall|a: int|
                        0 <= a < kept@.len() implies entries_have(
                        orig.take(i + 1),
                        #[trigger] kept@[a].0@,
                    ) by {
                        lemma_entries_have_push(orig.take(i as int), orig[i as int], kept@[a].0@);
                        assert(orig.take(i + 1) == orig.take(i as int).push(orig[i as int]));
                    }
                }
            }
            i = i + 1;
        }
        proof {
            assert(orig.take(i as int) =~= orig);
            assert forall|a: int|
                0 <= a < kept@.len() implies has_name(
                old(self).marked_runs@,
                #[trigger] kept@[a].0@,
            ) by {
                let b = choose|b: int| 0 <= b < orig.len() && orig[b].0@ == kept@[a].0@;
                assert(has_name(old(self).marked_runs@, orig[b].0@));
            }
        }
        self.metrics_cache = kept;
    }

    /// The cached metrics of every marked run except the one excluded
    /// (normally the currently selected run, to avoid double-plotting), as
    /// (run id, metric) pairs sorted by run id.
    #[verifier::rlimit(60)]
    pub fn get_comparison_metrics(&self, selected_run_id: &str) -> (pairs: Vec<(String, Metric)>)
        ensures
            forall|i: int, j: int|
                0 <= i <= j < pairs@.len() ==> seq_char_le(
                    #[trigger] pairs@[i].0@,
                    #[trigger] pairs@[j].0@,
                ),
            forall|i: int|
                0 <= i < pairs@.len() ==> (#[trigger] pairs@[i].0@) != selected_run_id@
                    && self.spec_cache().dom().contains(pairs@[i].0@) && self.spec_marked(
                ).contains(pairs@[i].0@),
            forall|id: Seq<char>|
                self.spec_cache().dom().contains(id) && id != selected_run_id@
                    ==> #[trigger] pairs_for(pairs@, id) == self.spec_cache()[id],
            forall|id: Seq<char>|
                !(self.spec_cache().dom().contains(id) && id != selected_run_id@)
                    ==> #[trigger] pairs_for(pairs@, id) == Seq::<MetricView>::empty(),
    {
        proof {
            use_type_invariant(self);
        }
        let mut pairs: Vec<(String, Metric)> = Vec::new();
        let n = self.metrics_cache.len();
        let mut k: usize = 0;
        while k < n
            invariant
                k <= n,
                n == self.metrics_cache@.len(),
                self.wf(),
                forall|i: int|
                    0 <= i < pairs@.len() ==> entries_have(
                        self.metrics_cache@.take(k as int),
                        #[trigger] pairs@[i].0@,
                    ),
                forall|i: int|
                    0 <= i < pairs@.len() ==> (#[trigger] pairs@[i].0@) != selected_run_id@,
                forall|i: int, j: int|
                    0 <= i <= j < pairs@.len() ==> seq_char_le(
                        #[trigger] pairs@[i].0@,
                        #[trigger] pairs@[j].0@,
                    ),
                forall|id: Seq<char>|
                    entries_have(self.metrics_cache@.take(k as int), id) && id != selected_run_id@
                        ==> #[trigger] pairs_for(pairs@, id) == metrics_view(
                        entries_get(self.metrics_cache@, id)@,
                    ),
                forall|id: Seq<char>|
                    !(entries_have(self.metrics_cache@.take(k as int), id) && id
                        != selected_run_id@) ==> #[trigger] pairs_for(pairs@, id) == Seq::<
                        MetricView,
                    >::empty(),
            decreases n - k,
        {
            proof {
                assert(self.metrics_cache@.take(k + 1) == self.metrics_cache@.take(k as int).push(
                    self.metrics_cache@[k as int],
                ));
            }
            let entry_id = &self.metrics_cache[k].0;
            if !str_eq(entry_id.as_str(), selected_run_id) {
                let ghost pairs0 = pairs@;
                let metrics = &self.metrics_cache[k].1;
                push_group(&mut pairs, entry_id, metrics);
                proof {
                    let ghost views = metrics_view(self.metrics_cache@[k as int].1@);
                    assert(views.len() == self.metrics_cache@[k as int].1@.len());
                    assert(metrics@ == self.metrics_cache@[k as int].1@);
                    assert forall|i: int|
                        pairs0.len() <= i < pairs@.len() implies (#[trigger] pairs@[i].0@)
                        == entry_id@ && pairs@[i].1.view_of() == views[i - pairs0.len()] by {
                        assert((#[trigger] pairs@[i].0@) == entry_id@);
                        assert(pairs@[i].1.view_of() == metrics@[i - pairs0.len()].view_of());
                        assert(views[i - pairs0.len()] == self.metrics_cache@[k as int].1@[i
                            - pairs0.len()].view_of());
                    }
                    assert(pairs@.len() == pairs0.len() + views.len());
                    assert(forall|i: int|
                        0 <= i < pairs0.len() ==> #[trigger] pairs@[i] == pairs0[i]);
                    assert(forall|i: int|
                        pairs0.len() <= i < pairs@.len() ==> (#[trigger] pairs@[i].0@) == entry_id@
                            && pairs@[i].1.view_of() == views[i - pairs0.len()]);
                    lemma_pairs_group_append(pairs0, pairs@, entry_id@, views);
                    assert forall|i: int|
                        0 <= i < pairs@.len() implies entries_have(
                        self.metrics_cache@.take(k + 1),
                        #[trigger] pairs@[i].0@,
                    ) by {
                        if i < pairs0.len() {
                            lemma_entries_have_push(
                                self.metrics_cache@.take(k as int),
                                self.metrics_cache@[k as int],
                                pairs@[i].0@,
                            );
                        } else {
                            assert(self.metrics_cache@.take(k + 1)[k as int].0@ == pairs@[i].0@);
                        }
                    }
                    assert forall|i: int, j: int| 0 <= i <= j < pairs@.len() implies seq_char_le(
                        #[trigger] pairs@[i].0@,
                        #[trigger] pairs@[j].0@,
                    ) by {
                        if j >= pairs0.len() && i < pairs0.len() {
                            let b = choose|b: int|
                                0 <= b < k && self.metrics_cache@.take(k as int)[b].0@
                                    == pairs0[i].0@;
                            assert(seq_char_le(
                                self.metrics_cache@[b].0@,
                                self.metrics_cache@[k as int].0@,
                            ));
                        } else if i >= pairs0.len() {
                            lemma_seq_char_le_refl(pairs@[i].0@);
                        }
                    }
                    lemma_entries_unique_get(self.metrics_cache@, entry_id@);
                    assert forall|id: Seq<char>|
                        entries_have(self.metrics_cache@.take(k + 1), id) && id
                            != selected_run_id@ implies #[trigger] pairs_for(pairs@, id)
                        == metrics_view(entries_get(self.metrics_cache@, id)@) by {
                        lemma_entries_have_push(
                            self.metrics_cache@.take(k as int),
                            self.metrics_cache@[k as int],
                            id,
                        );
                    }
                    assert forall|id: Seq<char>|
                        !(entries_have(self.metrics_cache@.take(k + 1), id) && id
                            != selected_run_id@) implies #[trigger] pairs_for(pairs@, id) == Seq::<
                        MetricView,
                    >::empty() by {
                        lemma_entries_have_push(
                            self.metrics_cache@.take(k as int),
                            self.metrics_cache@[k as int],
                            id,
                        );
                    }
                }
            } else {
                proof {
                    assert forall|id: Seq<char>|
                        entries_have(self.metrics_cache@.take(k + 1), id) && id
                            != selected_run_id@ implies #[trigger] pairs_for(pairs@, id)
                        == metrics_view(entries_get(self.metrics_cache@, id)@) by {
                        lemma_entries_have_push(
                            self.metrics_cache@.take(k as int),
                            self.metrics_cache@[k as int],
                            id,
                        );
                    }
                    assert forall|id: Seq<char>|
                        !(entries_have(self.metrics_cache@.take(k + 1), id) && id
                            != selected_run_id@) implies #[trigger] pairs_for(pairs@, id) == Seq::<
                        MetricView,
                    >::empty() by {
                        lemma_entries_have_push(
                            self.metrics_cache@.take(k as int),
                            self.metrics_cache@[k as int],
                            id,
                        );
                    }
                    assert forall|i: int|
                        0 <= i < pairs@.len() implies entries_have(
                        self.metrics_cache@.take(k + 1),
                        #[trigger] pairs@[i].0@,
                    ) by {
                        lemma_entries_have_push(
                            self.metrics_cache@.take(k as int),
                            self.metrics_cache@[k as int],
                            pairs@[i].0@,
                        );
                    }
                }
            }
            k = k + 1;
        }
        proof {
            assert(self.metrics_cache@.take(n as int) == self.metrics_cache@);
            assert forall|i: int|
                0 <= i < pairs@.len() implies (#[trigger] pairs@[i].0@) != selected_run_id@
                && self.spec_cache().dom().contains(pairs@[i].0@) && self.spec_marked().contains(
                pairs@[i].0@,
            ) by {
                let b = choose|b: int|
                    0 <= b < n && self.metrics_cache@[b].0@ == pairs@[i].0@;
                assert(entries_have(self.metrics_cache@, pairs@[i].0@));
                assert(has_name(self.marked_runs@, self.metrics_cache@[b].0@));
            }
        }
        pairs
    }
}

/// Append one run's metrics to the pair list, tagging each with the run id.
fn push_group(pairs: &mut Vec<(String, Metric)>, entry_id: &String, metrics: &Vec<Metric>)
    ensures
        final (pairs)@.len() == old(pairs)@.len() + metrics@.len(),
        forall|i: int| 0 <= i < old(pairs)@.len() ==> #[trigger] final (pairs)@[i] == old(pairs)@[i],
        forall|i: int|
            old(pairs)@.len() <= i < final (pairs)@.len() ==> (#[trigger] final (pairs)@[i].0@)
                == entry_id@ && final (pairs)@[i].1.view_of() == metrics@[i - old(
                pairs,
            )@.len()].view_of(),
{
    let ghost pairs0 = pairs@;
    let m = metrics.len();
    let mut t: usize = 0;
    while t < m
        invariant
            t <= m,
            m == metrics@.len(),
            pairs@.len() == pairs0.len() + t,
            forall|i: int| 0 <= i < pairs0.len() ==> #[trigger] pairs@[i] == pairs0[i],
            forall|i: int|
                pairs0.len() <= i < pairs@.len() ==> (#[trigger] pairs@[i].0@) == entry_id@
                    && pairs@[i].1.view_of() == metrics@[i - pairs0.len()].view_of(),
        decreases m - t,
    {
        let ghost prev = pairs@;
        pairs.push((entry_id.clone(), metrics[t].clone()));
        proof {
            assert(forall|i: int| 0 <= i < prev.len() ==> #[trigger] pairs@[i] == prev[i]);
            assert(pairs@.last().0@ == entry_id@);
            assert(pairs@.last().1.view_of() == metrics@[t as int].view_of());
        }
        t = t + 1;
    }
}

/// Clone a list of names, preserving the sequence of values.
fn clone_names(names: &Vec<String>) -> (r: Vec<String>)
    ensures
        r@ == names@,
{
    let mut r: Vec<String> = Vec::new();
    let n = names.len();
    let mut i: usize = 0;
    while i < n
        invariant
            i <= n,
            n == names@.len(),
            r@ == names@.take(i as int),
        decreases n - i,
    {
        r.push(names[i].clone());
        proof {
            assert(r@ =~= names@.take(i + 1));
        }
        i = i + 1;
    }
    proof {
        assert(names@.take(n as int) == names@);
    }
    r
}

/// After a push, a name is present exactly when it was present before or it
/// is the pushed string's characters.
proof fn lemma_has_name_push(s: Seq<String>, x: String, id: Seq<char>)
    ensures
        has_name(s.push(x), id) == (has_name(s, id) || id == x@),
{
    if has_name(s, id) {
        let i = choose|i: int| 0 <= i < s.len() && s[i]@ == id;
        assert(s.push(x)[i]@ == id);
    }
    if id == x@ {
        assert(s.push(x)[s.len() as int]@ == id);
    }
    if has_name(s.push(x), id) {
        let i = choose|i: int| 0 <= i < s.push(x).len() && s.push(x)[i]@ == id;
        if i < s.len() {
            assert(s[i]@ == id);
        }
    }
}

/// After a push, a cache key is present exactly when it was present before or
/// it is the pushed entry's key.
proof fn lemma_entries_have_push(
    s: Seq<(String, Vec<Metric>)>,
    x: (String, Vec<Metric>),
    id: Seq<char>,
)
    ensures
        entries_have(s.push(x), id) == (entries_have(s, id) || id == x.0@),
{
    if entries_have(s, id) {
        let i = choose|i: int| 0 <= i < s.len() && s[i].0@ == id;
        assert(s.push(x)[i].0@ == id);
    }
    if id == x.0@ {
        assert(s.push(x)[s.len() as int].0@ == id);
    }
    if entries_have(s.push(x), id) {
        let i = choose|i: int| 0 <= i < s.push(x).len() && s.push(x)[i].0@ == id;
        if i < s.len() {
            assert(s[i].0@ == id);
        }
    }
}

/// With strictly sorted keys, the entry found for a present key is unique, so
/// `entries_get` agrees with any index whose key matches.
proof fn lemma_entries_unique_get(s: Seq<(String, Vec<Metric>)>, id: Seq<char>)
    requires
        entries_sorted(s),
    ensures
        forall|i: int|
            0 <= i < s.len() && (#[trigger] s[i].0@) == id ==> entries_get(s, id) == s[i].1,
{
    assert forall|i: int|
        0 <= i < s.len() && (#[trigger] s[i].0@) == id implies entries_get(s, id) == s[i].1 by {
        if entries_have(s, id) {
            let j = choose|j: int| 0 <= j < s.len() && s[j].0@ == id;
            if i < j {
                assert(s[i].0@ != s[j].0@);
            } else if j < i {
                assert(s[j].0@ != s[i].0@);
            }
        } else {
            assert(false);
        }
    }
}

/// One step of a drain over sorted entries that keeps entry `orig[i]`:
/// key membership, sortedness and lookups of the kept prefix are maintained.
proof fn lemma_keep_entry_step(
    kept0: Seq<(String, Vec<Metric>)>,
    kept: Seq<(String, Vec<Metric>)>,
    orig: Seq<(String, Vec<Metric>)>,
    i: int,
)
    requires
        0 <= i < orig.len(),
        kept == kept0.push(orig[i]),
        entries_sorted(orig),
        entries_sorted(kept0),
        forall|a: int|
            0 <= a < kept0.len() ==> entries_have(orig.take(i), #[trigger] kept0[a].0@),
        forall|id: Seq<char>|
            entries_have(kept0, id) ==> entries_get(kept0, id) == entries_get(orig, id),
    ensures
        entries_sorted(kept),
        forall|a: int|
            0 <= a < kept.len() ==> entries_have(orig.take(i + 1), #[trigger] kept[a].0@),
        forall|id: Seq<char>|
            entries_have(kept, id) ==> entries_get(kept, id) == entries_get(orig, id),
{
    assert(orig.take(i + 1) == orig.take(i).push(orig[i]));
    assert forall|a: int, b: int|
        0 <= a < b < kept.len() implies seq_char_le(#[trigger] kept[a].0@, #[trigger] kept[b].0@)
        && kept[a].0@ != kept[b].0@ by {
        if b == kept.len() - 1 {
            let x = choose|x: int|
                0 <= x < orig.take(i).len() && orig.take(i)[x].0@ == kept[a].0@;
            assert(seq_char_le(orig[x].0@, orig[i].0@) && orig[x].0@ != orig[i].0@);
        }
    }
    assert forall|a: int|
        0 <= a < kept.len() implies entries_have(orig.take(i + 1), #[trigger] kept[a].0@) by {
        if a < kept0.len() {
            let x = choose|x: int|
                0 <= x < orig.take(i).len() && orig.take(i)[x].0@ == kept0[a].0@;
            assert(orig.take(i + 1)[x].0@ == kept[a].0@);
        } else {
            assert(orig.take(i + 1)[i].0@ == kept[a].0@);
        }
    }
    assert forall|id: Seq<char>|
        entries_have(kept, id) implies entries_get(kept, id) == entries_get(orig, id) by {
        lemma_entries_unique_get(kept, id);
        if id == orig[i].0@ {
            assert(kept[kept.len() - 1].0@ == id);
            assert(entries_get(kept, id) == kept[kept.len() - 1].1);
            lemma_entries_unique_get(orig, id);
        } else {
            lemma_entries_have_push(kept0, orig[i], id);
            let k = choose|k: int| 0 <= k < kept0.len() && kept0[k].0@ == id;
            lemma_entries_unique_get(kept0, id);
            assert(kept[k].0@ == id);
            assert(entries_get(kept, id) == kept[k].1);
            assert(entries_get(kept0, id) == kept0[k].1);
        }
    }
}

/// Appending a block of pairs that all carry one id extends `pairs_for` with
/// that id's metric views and leaves every other id's views unchanged.
proof fn lemma_pairs_group_append(
    before: Seq<(String, Metric)>,
    after: Seq<(String, Metric)>,
    gid: Seq<char>,
    views: Seq<MetricView>,
)
    requires
        after.len() == before.len() + views.len(),
        forall|i: int| 0 <= i < before.len() ==> #[trigger] after[i] == before[i],
        forall|i: int|
            before.len() <= i < after.len() ==> (#[trigger] after[i].0@) == gid
                && after[i].1.view_of() == views[i - before.len()],
    ensures
        pairs_for(after, gid) == pairs_for(before, gid) + views,
        forall|id: Seq<char>|
            id != gid ==> #[trigger] pairs_for(after, id) == pairs_for(before, id),
    decreases after.len(),
{
    if after.len() == before.len() {
        assert(after =~= before);
        assert(views =~= Seq::<MetricView>::empty());
        assert(pairs_for(after, gid) =~= pairs_for(before, gid) + views);
    } else {
        let shorter = after.drop_last();
        let views_shorter = views.drop_last();
        assert forall|i: int| 0 <= i < before.len() implies #[trigger] shorter[i] == before[i] by {
            assert(after[i] == before[i]);
        }
        assert forall|i: int|
            before.len() <= i < shorter.len() implies (#[trigger] shorter[i].0@) == gid
            && shorter[i].1.view_of() == views_shorter[i - before.len()] by {
            assert(shorter[i] == after[i]);
            assert(views_shorter[i - before.len()] == views[i - before.len()]);
        }
        lemma_pairs_group_append(before, shorter, gid, views_shorter);
        assert(after.last().0@ == gid);
        assert(pairs_for(after, gid) == pairs_for(shorter, gid) + seq![after.last().1.view_of()]);
        assert(after.last().1.view_of() == views.last());
        assert(pairs_for(before, gid) + views =~= (pairs_for(before, gid) + views_shorter) + seq![
            views.last(),
        ]);
        assert forall|id: Seq<char>|
            id != gid implies #[trigger] pairs_for(after, id) == pairs_for(before, id) by {
            assert(pairs_for(after, id) == pairs_for(shorter, id) + Seq::<MetricView>::empty());
            assert(pairs_for(shorter, id) + Seq::<MetricView>::empty() =~= pairs_for(shorter, id));
        }
    }
}

} // verus!
