//! The retention sweep: which candidates a run evicts.
//!
//! The candidates are put most recent first. Each boundary then evicts the
//! first candidate in that order that is older than it, which is the most
//! recent file past the boundary. Every file that no boundary evicts is
//! kept, so one run removes at most one file per boundary.

use vstd::prelude::*;
use crate::boundary::{RetentionBoundaries, BOUNDARY_COUNT};
use crate::candidate::{Candidate, CandidateView};
use crate::sorting::{newest_first, sort_newest_first};
use crate::timestamp::Timestamp;

verus! {

/// What one boundary did, where it evicted a file.
#[derive(Clone, Debug, PartialEq, Eq)]
pub struct Eviction {
    /// The boundary that the file is older than.
    pub boundary: Timestamp,
    /// Position of the evicted file among the candidates, most recent first.
    pub position: usize,
    /// Path of the evicted file.
    pub path: String,
}

/// What an [`Eviction`] stands for.
#[verifier::ext_equal]
pub struct EvictionView {
    pub boundary: Timestamp,
    pub position: int,
    pub path: Seq<char>,
}

impl View for Eviction {
    type V = EvictionView;

    open spec fn view(&self) -> EvictionView {
        EvictionView {
            boundary: self.boundary,
            position: self.position as int,
            path: self.path@,
        }
    }
}

impl DeepView for Eviction {
    type V = EvictionView;

    open spec fn deep_view(&self) -> EvictionView {
        self@
    }
}

/// The two sides of a run's decision, each most recent first.
#[derive(Clone, Debug, PartialEq, Eq)]
pub struct Partition {
    /// The files that stay.
    pub keep: Vec<Candidate>,
    /// The files that a boundary evicts.
    pub remove: Vec<Candidate>,
}

/// What a [`Partition`] stands for.
#[verifier::ext_equal]
pub struct PartitionView {
    pub keep: Seq<CandidateView>,
    pub remove: Seq<CandidateView>,
}

impl View for Partition {
    type V = PartitionView;

    open spec fn view(&self) -> PartitionView {
        PartitionView { keep: self.keep.deep_view(), remove: self.remove.deep_view() }
    }
}

impl DeepView for Partition {
    type V = PartitionView;

    open spec fn deep_view(&self) -> PartitionView {
        self@
    }
}

/// A partition together with the evictions that led to it.
#[derive(Clone, Debug, PartialEq, Eq)]
pub struct Selection {
    /// The files to keep and the files to remove.
    pub partition: Partition,
    /// What each boundary evicted, boundary by boundary.
    pub evictions: Vec<Eviction>,
}

/// What a [`Selection`] stands for.
#[verifier::ext_equal]
pub struct SelectionView {
    pub partition: PartitionView,
    pub evictions: Seq<EvictionView>,
}

impl View for Selection {
    type V = SelectionView;

    open spec fn view(&self) -> SelectionView {
        SelectionView { partition: self.partition@, evictions: self.evictions.deep_view() }
    }
}

impl DeepView for Selection {
    type V = SelectionView;

    open spec fn deep_view(&self) -> SelectionView {
        self@
    }
}

/// `i` is the first position of `files` that holds a file older than
/// `boundary`.
pub open spec fn is_first_older_than(
    files: Seq<CandidateView>,
    boundary: Timestamp,
    i: int,
) -> bool {
    &&& 0 <= i < files.len()
    &&& files[i].modified_time.precedes(boundary)
    &&& forall|j: int| 0 <= j < i ==> !(#[trigger] files[j]).modified_time.precedes(boundary)
}

/// The position in `files` that `boundary` evicts, if it evicts any.
pub open spec fn evicted_by(files: Seq<CandidateView>, boundary: Timestamp) -> Option<int> {
    if exists|i: int| is_first_older_than(files, boundary, i) {
        Some(choose|i: int| is_first_older_than(files, boundary, i))
    } else {
        None
    }
}

/// Some boundary of `bounds` evicts position `i` of `files`.
pub open spec fn is_evicted(files: Seq<CandidateView>, bounds: Seq<Timestamp>, i: int) -> bool {
    exists|k: int| 0 <= k < bounds.len() && #[trigger] evicted_by(files, bounds[k]) == Some(i)
}

/// The marks that a sweep leaves, position by position: `true` where a
/// boundary evicts the file.
pub open spec fn eviction_marks(files: Seq<CandidateView>, bounds: Seq<Timestamp>) -> Seq<bool> {
    Seq::new(files.len(), |i: int| is_evicted(files, bounds, i))
}

/// Each file paired with its mark.
pub open spec fn paired(files: Seq<CandidateView>, marks: Seq<bool>) -> Seq<(CandidateView, bool)> {
    Seq::new(files.len(), |i: int| (files[i], marks[i]))
}

/// Each file with the mark that the sweep leaves on it.
pub open spec fn marked(files: Seq<CandidateView>, bounds: Seq<Timestamp>) -> Seq<
    (CandidateView, bool),
> {
    paired(files, eviction_marks(files, bounds))
}

/// The test for the mark `evicted`.
pub open spec fn has_mark(evicted: bool) -> spec_fn((CandidateView, bool)) -> bool {
    |m: (CandidateView, bool)| m.1 == evicted
}

/// The file of a marked file.
pub open spec fn file_of() -> spec_fn((CandidateView, bool)) -> CandidateView {
    |m: (CandidateView, bool)| m.0
}

/// The files that carry the mark `evicted`, in their order.
pub open spec fn with_mark(files: Seq<(CandidateView, bool)>, evicted: bool) -> Seq<CandidateView> {
    files.filter(has_mark(evicted)).map_values(file_of())
}

/// The outcome of a sweep over `files`, which are taken in their order.
pub open spec fn swept(files: Seq<CandidateView>, bounds: Seq<Timestamp>) -> PartitionView {
    PartitionView {
        keep: with_mark(marked(files, bounds), false),
        remove: with_mark(marked(files, bounds), true),
    }
}

/// The eviction that `boundary` makes, if it makes one.
pub open spec fn eviction_of(files: Seq<CandidateView>, boundary: Timestamp) -> Option<
    EvictionView,
> {
    match evicted_by(files, boundary) {
        Some(i) => Some(EvictionView { boundary, position: i, path: files[i].path }),
        None => None,
    }
}

/// The evictions of a sweep, boundary by boundary. A file that several
/// boundaries evict is listed once for each.
pub open spec fn eviction_log(files: Seq<CandidateView>, bounds: Seq<Timestamp>) -> Seq<
    EvictionView,
> {
    bounds.filter_map(|b: Timestamp| eviction_of(files, b))
}

/// The selection that `bounds` make among `candidates`.
pub open spec fn selected(candidates: Seq<CandidateView>, bounds: Seq<Timestamp>) -> SelectionView {
    let files = newest_first(candidates);
    SelectionView { partition: swept(files, bounds), evictions: eviction_log(files, bounds) }
}

/// Finds the position that `boundary` evicts: the first in `files` with a
/// file older than it.
pub fn find_first_older_than(files: &Vec<Candidate>, boundary: &Timestamp) -> (r: Option<usize>)
    ensures
        match r {
            Some(i) => evicted_by(files.deep_view(), *boundary) == Some(i as int),
            None => evicted_by(files.deep_view(), *boundary) is None,
        },
{
    let mut i: usize = 0;
    while i < files.len()
        invariant
            i <= files.len(),
            forall|j: int|
                0 <= j < i ==> !(#[trigger] files.deep_view()[j]).modified_time.precedes(
                    *boundary,
                ),
        decreases files.len() - i,
    {
        if files[i].modified_time.is_before(boundary) {
            proof {
                assert(is_first_older_than(files.deep_view(), *boundary, i as int));
                lemma_evicted_by_unique(files.deep_view(), *boundary, i as int);
            }
            return Some(i);
        }
        i += 1;
    }
    proof {
        lemma_evicted_by_none(files.deep_view(), *boundary);
    }
    None
}

/// Runs the boundaries over `files`, which are taken in their order: each
/// boundary marks the first file older than it. Returns the marks, position
/// by position, and the evictions, boundary by boundary.
pub fn sweep(files: &Vec<Candidate>, bounds: &Vec<Timestamp>) -> (r: (Vec<bool>, Vec<Eviction>))
    ensures
        r.0@ == eviction_marks(files.deep_view(), bounds@),
        r.1.deep_view() == eviction_log(files.deep_view(), bounds@),
{
    let ghost fv = files.deep_view();
    let ghost f = |b: Timestamp| eviction_of(fv, b);
    let mut marks: Vec<bool> = Vec::new();
    let mut n: usize = 0;
    while n < files.len()
        invariant
            n <= files.len(),
            marks@ == Seq::new(n as nat, |i: int| false),
        decreases files.len() - n,
    {
        marks.push(false);
        n += 1;
        assert(marks@ =~= Seq::new(n as nat, |i: int| false));
    }
    assert(marks@ =~= eviction_marks(fv, bounds@.take(0)));
    let mut log: Vec<Eviction> = Vec::new();
    assert(log.deep_view() =~= bounds@.take(0).filter_map(f));
    let mut k: usize = 0;
    while k < bounds.len()
        invariant
            k <= bounds.len(),
            fv == files.deep_view(),
            f == |b: Timestamp| eviction_of(fv, b),
            marks@ == eviction_marks(fv, bounds@.take(k as int)),
            log.deep_view() == bounds@.take(k as int).filter_map(f),
        decreases bounds.len() - k,
    {
        let boundary = bounds[k];
        proof {
            bounds@.lemma_filter_map_take_succ(f, k as int);
            assert(bounds@.take(k + 1) =~= bounds@.take(k as int).push(boundary));
            assert forall|i: int| 0 <= i < fv.len() implies (is_evicted(fv, bounds@.take(k + 1), i)
                <==> is_evicted(fv, bounds@.take(k as int), i) || evicted_by(fv, boundary) == Some(
                i,
            )) by {
                lemma_is_evicted_push(fv, bounds@.take(k as int), boundary, i);
            }
        }
        match find_first_older_than(files, &boundary) {
            Some(i) => {
                let ghost before = log.deep_view();
                let eviction = Eviction {
                    boundary,
                    position: i,
                    path: files[i].path.clone(),
                };
                marks.set(i, true);
                log.push(eviction);
                assert(log.deep_view() =~= before.push(eviction@));
                assert(eviction@ == eviction_of(fv, boundary).unwrap());
            },
            None => {},
        }
        assert(marks@ =~= eviction_marks(fv, bounds@.take(k + 1)));
        k += 1;
    }
    assert(bounds@.take(bounds.len() as int) =~= bounds@);
    (marks, log)
}

/// Parts the files by their marks, keeping the order on each side.
fn split(files: Vec<Candidate>, marks: &Vec<bool>) -> (p: Partition)
    requires
        marks@.len() == files@.len(),
    ensures
        p@.keep == with_mark(paired(files.deep_view(), marks@), false),
        p@.remove == with_mark(paired(files.deep_view(), marks@), true),
{
    let ghost all = paired(files.deep_view(), marks@);
    let ghost len = files@.len();
    let count: usize = files.len();
    let mut keep: Vec<Candidate> = Vec::new();
    let mut remove: Vec<Candidate> = Vec::new();
    let mut i: usize = 0;
    proof {
        lemma_with_mark_empty(all.take(0), false);
        lemma_with_mark_empty(all.take(0), true);
        assert(keep.deep_view() =~= Seq::<CandidateView>::empty());
        assert(remove.deep_view() =~= Seq::<CandidateView>::empty());
    }
    for file in it: files.into_iter()
        invariant
            i == it.index(),
            len == files@.len(),
            len == count,
            marks@.len() == len,
            all == paired(files.deep_view(), marks@),
            keep.deep_view() == with_mark(all.take(i as int), false),
            remove.deep_view() == with_mark(all.take(i as int), true),
    {
        proof {
            let m = (file@, marks@[i as int]);
            assert(all.take(i + 1) =~= all.take(i as int).push(m));
            lemma_with_mark_push(all.take(i as int), m, false);
            lemma_with_mark_push(all.take(i as int), m, true);
        }
        let ghost kept = keep.deep_view();
        let ghost removed = remove.deep_view();
        if marks[i] {
            remove.push(file);
            assert(remove.deep_view() =~= removed.push(file@));
        } else {
            keep.push(file);
            assert(keep.deep_view() =~= kept.push(file@));
        }
        assert(keep.deep_view() =~= with_mark(all.take(i + 1), false));
        assert(remove.deep_view() =~= with_mark(all.take(i + 1), true));
        i += 1;
    }
    assert(all.take(len as int) =~= all);
    Partition { keep, remove }
}

/// Decides a run: puts the candidates most recent first, lets each
/// boundary evict the first candidate older than it, and parts the
/// candidates into those to keep and those to remove.
pub fn select(candidates: Vec<Candidate>, boundaries: &RetentionBoundaries) -> (s: Selection)
    ensures
        s@ == selected(candidates.deep_view(), boundaries@),
        s@.partition.remove.len() <= BOUNDARY_COUNT,
{
    let files = sort_newest_first(candidates);
    let bounds = boundaries.marks();
    let (marks, evictions) = sweep(&files, bounds);
    proof {
        lemma_one_eviction_per_boundary(files.deep_view(), bounds@);
    }
    let partition = split(files, &marks);
    Selection { partition, evictions }
}

/// A boundary evicts at most one position: the first that holds an older
/// file.
pub proof fn lemma_evicted_by_unique(files: Seq<CandidateView>, boundary: Timestamp, i: int)
    ensures
        is_first_older_than(files, boundary, i) <==> evicted_by(files, boundary) == Some(i),
{
    if is_first_older_than(files, boundary, i) {
        let c = choose|c: int| is_first_older_than(files, boundary, c);
        assert(!(c < i));
        assert(!(i < c));
    }
}

/// No file is older than `boundary` exactly when the boundary evicts none.
pub proof fn lemma_evicted_by_none(files: Seq<CandidateView>, boundary: Timestamp)
    ensures
        evicted_by(files, boundary) is None <==> forall|j: int|
            0 <= j < files.len() ==> !(#[trigger] files[j]).modified_time.precedes(boundary),
{
    if exists|j: int|
        0 <= j < files.len() && (#[trigger] files[j]).modified_time.precedes(boundary) {
        let j = choose|j: int|
            0 <= j < files.len() && (#[trigger] files[j]).modified_time.precedes(boundary);
        lemma_first_older_exists(files, boundary, j);
    }
}

/// Where some file up to position `j` is older than `boundary`, a first
/// such position exists.
proof fn lemma_first_older_exists(files: Seq<CandidateView>, boundary: Timestamp, j: int)
    requires
        0 <= j < files.len(),
        files[j].modified_time.precedes(boundary),
    ensures
        exists|i: int| is_first_older_than(files, boundary, i),
    decreases j,
{
    if exists|h: int| 0 <= h < j && (#[trigger] files[h]).modified_time.precedes(boundary) {
        let h = choose|h: int| 0 <= h < j && (#[trigger] files[h]).modified_time.precedes(boundary);
        lemma_first_older_exists(files, boundary, h);
    } else {
        assert(is_first_older_than(files, boundary, j));
    }
}

/// Among files that stand most recent first, the file that a boundary
/// evicts is a most recent one of those older than the boundary.
pub proof fn lemma_evicted_is_most_recent_older(
    files: Seq<CandidateView>,
    boundary: Timestamp,
    i: int,
    j: int,
)
    requires
        crate::sorting::is_newest_first(files),
        evicted_by(files, boundary) == Some(i),
        0 <= j < files.len(),
        files[j].modified_time.precedes(boundary),
    ensures
        !files[i].modified_time.precedes(files[j].modified_time),
{
    lemma_evicted_by_unique(files, boundary, i);
}

/// Sorting neither adds nor loses a file.
proof fn lemma_newest_first_same_files(candidates: Seq<CandidateView>, file: CandidateView)
    ensures
        newest_first(candidates).contains(file) <==> candidates.contains(file),
{
    crate::sorting::lemma_newest_first_permutes(candidates);
    vstd::seq_lib::to_multiset_contains(candidates, file);
    vstd::seq_lib::to_multiset_contains(newest_first(candidates), file);
}

/// What a boundary evicts, said of the candidates as they were given: a
/// candidate that is older than the boundary, and as recent as any
/// candidate older than the boundary is.
pub proof fn lemma_evicts_most_recent_past_boundary(
    candidates: Seq<CandidateView>,
    boundary: Timestamp,
    i: int,
    other: CandidateView,
)
    requires
        evicted_by(newest_first(candidates), boundary) == Some(i),
        candidates.contains(other),
        other.modified_time.precedes(boundary),
    ensures
        candidates.contains(newest_first(candidates)[i]),
        newest_first(candidates)[i].modified_time.precedes(boundary),
        !newest_first(candidates)[i].modified_time.precedes(other.modified_time),
{
    let files = newest_first(candidates);
    lemma_evicted_by_unique(files, boundary, i);
    crate::sorting::lemma_newest_first_ordered(candidates);
    lemma_newest_first_same_files(candidates, files[i]);
    lemma_newest_first_same_files(candidates, other);
    let j = choose|j: int| 0 <= j < files.len() && files[j] == other;
    lemma_evicted_is_most_recent_older(files, boundary, i, j);
}

/// A boundary evicts nothing exactly when no candidate is older than it.
pub proof fn lemma_evicts_unless_none_older(candidates: Seq<CandidateView>, boundary: Timestamp)
    ensures
        evicted_by(newest_first(candidates), boundary) is None <==> forall|file: CandidateView|
            candidates.contains(file) ==> !file.modified_time.precedes(boundary),
{
    let files = newest_first(candidates);
    lemma_evicted_by_none(files, boundary);
    if evicted_by(files, boundary) is None {
        assert forall|file: CandidateView|
            candidates.contains(file) implies !file.modified_time.precedes(boundary) by {
            lemma_newest_first_same_files(candidates, file);
            let j = choose|j: int| 0 <= j < files.len() && files[j] == file;
            assert(!files[j].modified_time.precedes(boundary));
        }
    } else {
        let i = evicted_by(files, boundary).unwrap();
        lemma_evicted_by_unique(files, boundary, i);
        lemma_newest_first_same_files(candidates, files[i]);
    }
}

/// Adding a boundary evicts what was evicted before and what the new
/// boundary evicts.
proof fn lemma_is_evicted_push(
    files: Seq<CandidateView>,
    bounds: Seq<Timestamp>,
    b: Timestamp,
    i: int,
)
    ensures
        is_evicted(files, bounds.push(b), i) <==> is_evicted(files, bounds, i) || evicted_by(
            files,
            b,
        ) == Some(i),
{
    let more = bounds.push(b);
    if is_evicted(files, more, i) {
        let k = choose|k: int|
            0 <= k < more.len() && #[trigger] evicted_by(files, more[k]) == Some(i);
        if k < bounds.len() {
            assert(more[k] == bounds[k]);
        }
    }
    if is_evicted(files, bounds, i) {
        let k = choose|k: int|
            0 <= k < bounds.len() && #[trigger] evicted_by(files, bounds[k]) == Some(i);
        assert(more[k] == bounds[k]);
    }
    if evicted_by(files, b) == Some(i) {
        assert(more[bounds.len() as int] == b);
    }
}

/// The log of a sweep names the positions that are evicted, and no others.
pub proof fn lemma_log_names_the_evicted(files: Seq<CandidateView>, bounds: Seq<Timestamp>, i: int)
    ensures
        is_evicted(files, bounds, i) <==> exists|n: int|
            0 <= n < eviction_log(files, bounds).len() && (#[trigger] eviction_log(
                files,
                bounds,
            )[n]).position == i,
    decreases bounds.len(),
{
    let f = |b: Timestamp| eviction_of(files, b);
    if bounds.len() > 0 {
        let fewer = bounds.drop_last();
        let b = bounds.last();
        let log = eviction_log(files, bounds);
        let shorter = eviction_log(files, fewer);
        lemma_log_names_the_evicted(files, fewer, i);
        assert(fewer.push(b) =~= bounds);
        lemma_is_evicted_push(files, fewer, b, i);
        match evicted_by(files, b) {
            Some(h) => {
                assert(log =~= shorter.push(f(b).unwrap()));
                if is_evicted(files, bounds, i) {
                    if is_evicted(files, fewer, i) {
                        let n = choose|n: int|
                            0 <= n < shorter.len() && (#[trigger] shorter[n]).position == i;
                        assert(log[n].position == i);
                    } else {
                        assert(log[shorter.len() as int].position == i);
                    }
                }
                if exists|n: int| 0 <= n < log.len() && (#[trigger] log[n]).position == i {
                    let n = choose|n: int| 0 <= n < log.len() && (#[trigger] log[n]).position == i;
                    if n < shorter.len() {
                        assert(shorter[n].position == i);
                    }
                }
            },
            None => {
                assert(log =~= shorter);
            },
        }
    }
}

/// With no files to look at, no boundary evicts anything.
pub proof fn lemma_no_files_no_evictions(bounds: Seq<Timestamp>)
    ensures
        eviction_log(newest_first(Seq::<CandidateView>::empty()), bounds).len() == 0,
    decreases bounds.len(),
{
    let files = newest_first(Seq::<CandidateView>::empty());
    let f = |b: Timestamp| eviction_of(files, b);
    if bounds.len() > 0 {
        lemma_no_files_no_evictions(bounds.drop_last());
        assert(f(bounds.last()) is None);
    }
}

/// Marks that differ from others in one place at most put at most one file
/// more on the marked side.
proof fn lemma_one_more_mark(a: Seq<(CandidateView, bool)>, b: Seq<(CandidateView, bool)>, h: int)
    requires
        a.len() == b.len(),
        forall|i: int| 0 <= i < b.len() && i != h && b[i].1 ==> a[i].1,
    ensures
        with_mark(b, true).len() <= with_mark(a, true).len() + (if 0 <= h < b.len() {
            1int
        } else {
            0int
        }),
    decreases b.len(),
{
    reveal(Seq::filter);
    if b.len() > 0 {
        let last = b.len() - 1;
        assert(b[last].1 && last != h ==> a[last].1);
        let shorter_a = a.drop_last();
        let shorter_b = b.drop_last();
        assert forall|i: int|
            0 <= i < shorter_b.len() && i != h && shorter_b[i].1 implies shorter_a[i].1 by {
            assert(shorter_b[i] == b[i] && shorter_a[i] == a[i]);
        }
        lemma_one_more_mark(shorter_a, shorter_b, h);
    }
}

/// Where no file is marked, the marked side is empty.
proof fn lemma_unmarked_removes_nothing(a: Seq<(CandidateView, bool)>)
    requires
        forall|i: int| 0 <= i < a.len() ==> !a[i].1,
    ensures
        with_mark(a, true).len() == 0,
    decreases a.len(),
{
    reveal(Seq::filter);
    if a.len() > 0 {
        lemma_unmarked_removes_nothing(a.drop_last());
    }
}

/// A sweep removes at most one file for each boundary.
pub proof fn lemma_one_eviction_per_boundary(files: Seq<CandidateView>, bounds: Seq<Timestamp>)
    ensures
        swept(files, bounds).remove.len() <= bounds.len(),
    decreases bounds.len(),
{
    if bounds.len() == 0 {
        lemma_unmarked_removes_nothing(marked(files, bounds));
    } else {
        let fewer = bounds.drop_last();
        let b = bounds.last();
        let h = match evicted_by(files, b) {
            Some(i) => i,
            None => -1,
        };
        lemma_one_eviction_per_boundary(files, fewer);
        assert(fewer.push(b) =~= bounds);
        assert forall|i: int|
            0 <= i < files.len() && i != h && marked(files, bounds)[i].1 implies marked(
            files,
            fewer,
        )[i].1 by {
            lemma_is_evicted_push(files, fewer, b, i);
        }
        lemma_one_more_mark(marked(files, fewer), marked(files, bounds), h);
    }
}

/// No marked files, none on either side.
proof fn lemma_with_mark_empty(a: Seq<(CandidateView, bool)>, evicted: bool)
    requires
        a.len() == 0,
    ensures
        with_mark(a, evicted) == Seq::<CandidateView>::empty(),
{
    reveal(Seq::filter);
    assert(with_mark(a, evicted) =~= Seq::<CandidateView>::empty());
}

/// One more marked file goes to the end of its side.
proof fn lemma_with_mark_push(
    a: Seq<(CandidateView, bool)>,
    m: (CandidateView, bool),
    evicted: bool,
)
    ensures
        with_mark(a.push(m), evicted) == if m.1 == evicted {
            with_mark(a, evicted).push(m.0)
        } else {
            with_mark(a, evicted)
        },
{
    let marked = a.filter(has_mark(evicted));
    a.lemma_filter_push(m, has_mark(evicted));
    if m.1 == evicted {
        assert(marked.push(m).map_values(file_of()) =~= marked.map_values(file_of()).push(m.0));
    }
}

/// The two sides of marked files hold, between them, each file as often as
/// it is marked either way.
proof fn lemma_marks_part(a: Seq<(CandidateView, bool)>)
    ensures
        with_mark(a, false).to_multiset().add(with_mark(a, true).to_multiset()) == a.map_values(
            file_of(),
        ).to_multiset(),
        with_mark(a, false).len() + with_mark(a, true).len() == a.len(),
    decreases a.len(),
{
    broadcast use vstd::seq_lib::to_multiset_build;

    if a.len() == 0 {
        lemma_with_mark_empty(a, false);
        lemma_with_mark_empty(a, true);
        assert(a.map_values(file_of()) =~= Seq::empty());
        let none = Seq::<CandidateView>::empty();
        none.to_multiset_ensures();
        assert(none.to_multiset().add(none.to_multiset()) =~= none.to_multiset());
    } else {
        let rest = a.drop_last();
        let last = a.last();
        lemma_marks_part(rest);
        assert(rest.push(last) =~= a);
        assert(a.map_values(file_of()) =~= rest.map_values(file_of()).push(last.0));
        lemma_with_mark_push(rest, last, false);
        lemma_with_mark_push(rest, last, true);
        let files = rest.map_values(file_of());
        assert(with_mark(a, false).to_multiset().add(with_mark(a, true).to_multiset())
            =~= files.to_multiset().insert(last.0));
    }
}

/// A sweep parts the files: the two sides together hold each file as often
/// as it was given, and none besides.
pub proof fn lemma_sweep_parts_files(files: Seq<CandidateView>, bounds: Seq<Timestamp>)
    ensures
        swept(files, bounds).keep.to_multiset().add(swept(files, bounds).remove.to_multiset())
            == files.to_multiset(),
        swept(files, bounds).keep.len() + swept(files, bounds).remove.len() == files.len(),
{
    lemma_marks_part(marked(files, bounds));
    assert(marked(files, bounds).map_values(file_of()) =~= files);
}

/// A selection parts the candidates: KEEP and REMOVE together hold each
/// candidate as often as it was given, and none besides.
pub proof fn lemma_selection_parts_candidates(
    candidates: Seq<CandidateView>,
    bounds: Seq<Timestamp>,
)
    ensures
        selected(candidates, bounds).partition.keep.to_multiset().add(
            selected(candidates, bounds).partition.remove.to_multiset(),
        ) == candidates.to_multiset(),
        selected(candidates, bounds).partition.keep.len() + selected(
            candidates,
            bounds,
        ).partition.remove.len() == candidates.len(),
{
    crate::sorting::lemma_newest_first_permutes(candidates);
    lemma_sweep_parts_files(newest_first(candidates), bounds);
}

/// Where no candidate is given twice, no file stands on both sides of a
/// selection.
pub proof fn lemma_selection_sides_disjoint(
    candidates: Seq<CandidateView>,
    bounds: Seq<Timestamp>,
    file: CandidateView,
)
    requires
        candidates.no_duplicates(),
    ensures
        !(selected(candidates, bounds).partition.keep.contains(file) && selected(
            candidates,
            bounds,
        ).partition.remove.contains(file)),
{
    broadcast use vstd::seq_lib::to_multiset_contains;

    let p = selected(candidates, bounds).partition;
    lemma_selection_parts_candidates(candidates, bounds);
    candidates.lemma_multiset_has_no_duplicates();
    assert(candidates.to_multiset().count(file) == p.keep.to_multiset().count(file)
        + p.remove.to_multiset().count(file));
}

} // verus!
