//! One clean-up run, from the directory listing to the steps to take.

use vstd::prelude::*;
use crate::boundary::{boundaries_of, supports_boundaries, RetentionBoundaries, BOUNDARY_COUNT};
use crate::candidate::{CandidateView, Entry, EntryView};
use crate::executor::{plan_actions, planned, Action, ActionView};
use crate::scanner::{
    admitted, lemma_scanned_distinct, lemma_scanned_holds_the_admitted, names_distinct, scan,
    scanned,
};
use crate::selector::{
    lemma_one_eviction_per_boundary, lemma_selection_parts_candidates,
    lemma_selection_sides_disjoint, select, selected, Partition, PartitionView, Selection,
    SelectionView,
};
use crate::sorting::newest_first;
use crate::timestamp::{clock_now, Timestamp};

verus! {

/// What a run declares that it clears.
#[derive(Clone, Debug, PartialEq, Eq)]
pub enum Intent {
    /// The files whose names start with this prefix.
    Prefixed(String),
    /// Every file of the directory. A run that declares this removes
    /// nothing.
    Everything,
}

/// What an [`Intent`] stands for.
#[verifier::ext_equal]
pub enum IntentView {
    Prefixed(Seq<char>),
    Everything,
}

impl View for Intent {
    type V = IntentView;

    open spec fn view(&self) -> IntentView {
        match self {
            Intent::Prefixed(prefix) => IntentView::Prefixed(prefix@),
            Intent::Everything => IntentView::Everything,
        }
    }
}

impl DeepView for Intent {
    type V = IntentView;

    open spec fn deep_view(&self) -> IntentView {
        self@
    }
}

/// The result of one run.
#[derive(Clone, Debug, PartialEq, Eq)]
pub struct Outcome {
    /// The instant that the boundaries were counted back from.
    pub now: Timestamp,
    /// What the run declares that it clears.
    pub intent: Intent,
    /// The files to keep and to remove, and the evictions behind that.
    pub selection: Selection,
    /// The steps that apply the decision.
    pub actions: Vec<Action>,
}

/// What an [`Outcome`] stands for.
#[verifier::ext_equal]
pub struct OutcomeView {
    pub now: Timestamp,
    pub intent: IntentView,
    pub selection: SelectionView,
    pub actions: Seq<ActionView>,
}

impl View for Outcome {
    type V = OutcomeView;

    open spec fn view(&self) -> OutcomeView {
        OutcomeView {
            now: self.now,
            intent: self.intent@,
            selection: self.selection@,
            actions: self.actions.deep_view(),
        }
    }
}

impl DeepView for Outcome {
    type V = OutcomeView;

    open spec fn deep_view(&self) -> OutcomeView {
        self@
    }
}

/// What a run with this prefix declares that it clears.
pub open spec fn declared(prefix: Option<Seq<char>>) -> IntentView {
    match prefix {
        Some(p) => IntentView::Prefixed(p),
        None => IntentView::Everything,
    }
}

/// The selection that keeps every candidate, as they were listed.
pub open spec fn all_kept(candidates: Seq<CandidateView>) -> SelectionView {
    SelectionView {
        partition: PartitionView { keep: candidates, remove: Seq::empty() },
        evictions: Seq::empty(),
    }
}

/// The selection of a run at `now`. Without a prefix no sweep takes place
/// and every file of the listing is kept.
pub open spec fn decided(
    directory: Seq<char>,
    entries: Seq<EntryView>,
    prefix: Option<Seq<char>>,
    now: Timestamp,
) -> SelectionView {
    let candidates = scanned(directory, entries, prefix);
    match prefix {
        Some(_) => selected(candidates, boundaries_of(now)),
        None => all_kept(candidates),
    }
}

/// The outcome of a run at `now`; `dry_run` only chooses the kind of step.
pub open spec fn cleared(
    directory: Seq<char>,
    entries: Seq<EntryView>,
    prefix: Option<Seq<char>>,
    dry_run: bool,
    now: Timestamp,
) -> OutcomeView {
    let selection = decided(directory, entries, prefix, now);
    OutcomeView {
        now,
        intent: declared(prefix),
        selection,
        actions: planned(selection.partition.remove, dry_run),
    }
}

/// Decides a run at the instant `now` over the listing `entries` of
/// `directory`, which is expected to end in a separator. `test` asks for a
/// dry run. Returns `None` where `now` does not support the boundaries.
pub fn clear_old_files_at(
    directory: &str,
    entries: &Vec<Entry>,
    prefix: &Option<String>,
    test: bool,
    now: Timestamp,
) -> (r: Option<Outcome>)
    ensures
        r is Some <==> supports_boundaries(now),
        r matches Some(o) ==> o@ == cleared(
            directory@,
            entries.deep_view(),
            prefix.deep_view(),
            test,
            now,
        ),
        r matches Some(o) ==> o@.selection.partition.remove.len() <= BOUNDARY_COUNT,
        r matches Some(o) ==> o@.actions.len() == o@.selection.partition.remove.len(),
        r matches Some(o) ==> (prefix is None ==> o@.selection.partition.remove.len() == 0),
{
    let boundaries = RetentionBoundaries::from_now(now)?;
    let candidates = scan(directory, entries, prefix);
    let (intent, selection) = match prefix {
        Some(p) => (Intent::Prefixed(p.clone()), select(candidates, &boundaries)),
        None => {
            let evictions = Vec::new();
            let remove = Vec::new();
            let partition = Partition { keep: candidates, remove };
            let selection = Selection { partition, evictions };
            assert(selection@.partition.remove =~= Seq::empty());
            assert(selection@.evictions =~= Seq::empty());
            (Intent::Everything, selection)
        },
    };
    let actions = plan_actions(&selection.partition.remove, test);
    Some(Outcome { now, intent, selection, actions })
}

/// Decides a run at the present instant, read from the system clock. The
/// present always supports the boundaries: the clock is read through
/// chrono, which gives no instant before 1970 and stops the program where
/// the system clock stands there.
pub fn clear_old_files(
    directory: &str,
    entries: &Vec<Entry>,
    prefix: &Option<String>,
    test: bool,
) -> (o: Outcome)
    ensures
        supports_boundaries(o@.now),
        o@ == cleared(directory@, entries.deep_view(), prefix.deep_view(), test, o@.now),
        o@.selection.partition.remove.len() <= BOUNDARY_COUNT,
        o@.actions.len() == o@.selection.partition.remove.len(),
        prefix is None ==> o@.selection.partition.remove.len() == 0,
{
    let now = clock_now();
    clear_old_files_at(directory, entries, prefix, test, now).unwrap()
}

/// The decision of a run does not depend on whether it is a dry run: only
/// the kind of the steps does.
pub proof fn lemma_dry_run_decides_alike(
    directory: Seq<char>,
    entries: Seq<EntryView>,
    prefix: Option<Seq<char>>,
    now: Timestamp,
)
    ensures
        cleared(directory, entries, prefix, true, now).intent == cleared(
            directory,
            entries,
            prefix,
            false,
            now,
        ).intent,
        cleared(directory, entries, prefix, true, now).selection == cleared(
            directory,
            entries,
            prefix,
            false,
            now,
        ).selection,
        forall|i: int|
            0 <= i < decided(directory, entries, prefix, now).partition.remove.len() ==> {
                let path = decided(directory, entries, prefix, now).partition.remove[i].path;
                &&& (#[trigger] cleared(directory, entries, prefix, true, now).actions[i])
                    == ActionView::Announce(path)
                &&& (#[trigger] cleared(directory, entries, prefix, false, now).actions[i])
                    == ActionView::Delete(path)
            },
        cleared(directory, entries, prefix, true, now).actions.len() == cleared(
            directory,
            entries,
            prefix,
            false,
            now,
        ).actions.len(),
{
}

/// Without a prefix a run declares that it clears everything and removes
/// nothing, whatever the listing holds.
pub proof fn lemma_no_prefix_removes_nothing(
    directory: Seq<char>,
    entries: Seq<EntryView>,
    dry_run: bool,
    now: Timestamp,
)
    ensures
        cleared(directory, entries, None, dry_run, now).intent == IntentView::Everything,
        cleared(directory, entries, None, dry_run, now).selection.partition.remove.len() == 0,
        cleared(directory, entries, None, dry_run, now).selection.evictions.len() == 0,
        cleared(directory, entries, None, dry_run, now).actions.len() == 0,
{
}

/// A run parts its candidates: KEEP and REMOVE together hold each candidate
/// as often as the scan gave it, REMOVE at most one file for each boundary.
pub proof fn lemma_run_parts_candidates(
    directory: Seq<char>,
    entries: Seq<EntryView>,
    prefix: Option<Seq<char>>,
    now: Timestamp,
)
    ensures
        decided(directory, entries, prefix, now).partition.keep.to_multiset().add(
            decided(directory, entries, prefix, now).partition.remove.to_multiset(),
        ) == scanned(directory, entries, prefix).to_multiset(),
        decided(directory, entries, prefix, now).partition.remove.len() <= BOUNDARY_COUNT,
{
    let candidates = scanned(directory, entries, prefix);
    match prefix {
        Some(_) => {
            lemma_selection_parts_candidates(candidates, boundaries_of(now));
            lemma_one_eviction_per_boundary(newest_first(candidates), boundaries_of(now));
        },
        None => {
            Seq::<CandidateView>::empty().to_multiset_ensures();
            assert(candidates.to_multiset().add(Seq::<CandidateView>::empty().to_multiset())
                =~= candidates.to_multiset());
        },
    }
}

/// Over a listing without a repeated name, no file stands on both sides of
/// a run's decision.
pub proof fn lemma_run_sides_disjoint(
    directory: Seq<char>,
    entries: Seq<EntryView>,
    prefix: Option<Seq<char>>,
    now: Timestamp,
    file: CandidateView,
)
    requires
        names_distinct(entries),
    ensures
        !(decided(directory, entries, prefix, now).partition.keep.contains(file) && decided(
            directory,
            entries,
            prefix,
            now,
        ).partition.remove.contains(file)),
{
    lemma_scanned_distinct(directory, entries, prefix);
    match prefix {
        Some(_) => {
            lemma_selection_sides_disjoint(
                scanned(directory, entries, prefix),
                boundaries_of(now),
                file,
            );
        },
        None => {},
    }
}

/// The files on the two sides of a run's decision are candidates of the
/// scan.
pub proof fn lemma_run_decides_on_candidates(
    directory: Seq<char>,
    entries: Seq<EntryView>,
    prefix: Option<Seq<char>>,
    now: Timestamp,
    file: CandidateView,
)
    requires
        decided(directory, entries, prefix, now).partition.keep.contains(file) || decided(
            directory,
            entries,
            prefix,
            now,
        ).partition.remove.contains(file),
    ensures
        scanned(directory, entries, prefix).contains(file),
{
    let partition = decided(directory, entries, prefix, now).partition;
    lemma_run_parts_candidates(directory, entries, prefix, now);
    vstd::seq_lib::to_multiset_contains(partition.keep, file);
    vstd::seq_lib::to_multiset_contains(partition.remove, file);
    vstd::seq_lib::to_multiset_contains(scanned(directory, entries, prefix), file);
    assert(scanned(directory, entries, prefix).to_multiset().count(file)
        == partition.keep.to_multiset().count(file) + partition.remove.to_multiset().count(file));
}

/// Over a listing without a repeated name, a file whose modification time
/// could not be read stands on neither side of a run's decision.
pub proof fn lemma_unreadable_on_neither_side(
    directory: Seq<char>,
    entries: Seq<EntryView>,
    prefix: Option<Seq<char>>,
    now: Timestamp,
    i: int,
    file: CandidateView,
)
    requires
        names_distinct(entries),
        0 <= i < entries.len(),
        entries[i].modified is None,
        file.path == directory + entries[i].name,
    ensures
        !decided(directory, entries, prefix, now).partition.keep.contains(file),
        !decided(directory, entries, prefix, now).partition.remove.contains(file),
{
    let partition = decided(directory, entries, prefix, now).partition;
    if partition.keep.contains(file) || partition.remove.contains(file) {
        lemma_run_decides_on_candidates(directory, entries, prefix, now, file);
        lemma_scanned_holds_the_admitted(directory, entries, prefix, file);
        let j = choose|j: int|
            0 <= j < entries.len() && #[trigger] admitted(directory, entries[j], prefix) == Some(
                file,
            );
        assert((directory + entries[i].name).skip(directory.len() as int) =~= entries[i].name);
        assert((directory + entries[j].name).skip(directory.len() as int) =~= entries[j].name);
        assert(entries[i].name == entries[j].name);
        assert(false);
    }
}

/// A run without candidates removes nothing and keeps nothing.
pub proof fn lemma_no_candidates_no_removal(
    directory: Seq<char>,
    entries: Seq<EntryView>,
    prefix: Option<Seq<char>>,
    now: Timestamp,
)
    requires
        scanned(directory, entries, prefix).len() == 0,
    ensures
        decided(directory, entries, prefix, now).partition.remove.len() == 0,
        decided(directory, entries, prefix, now).partition.keep.len() == 0,
        decided(directory, entries, prefix, now).evictions.len() == 0,
{
    let candidates = scanned(directory, entries, prefix);
    match prefix {
        Some(_) => {
            assert(candidates =~= Seq::<CandidateView>::empty());
            lemma_selection_parts_candidates(candidates, boundaries_of(now));
            crate::selector::lemma_no_files_no_evictions(boundaries_of(now));
        },
        None => {},
    }
}

} // verus!
