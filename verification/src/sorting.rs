//! The order in which a run looks at its candidates: most recently modified
//! first, files of equal age in the order they were listed.

use vstd::prelude::*;
use crate::candidate::{Candidate, CandidateView};
use crate::timestamp::Timestamp;

verus! {

/// `file` put behind every file of `sorted` that is not older than it.
pub open spec fn insert_by_age(sorted: Seq<CandidateView>, file: CandidateView) -> Seq<
    CandidateView,
>
    decreases sorted.len(),
{
    if sorted.len() > 0 && sorted.last().modified_time.precedes(file.modified_time) {
        insert_by_age(sorted.drop_last(), file).push(sorted.last())
    } else {
        sorted.push(file)
    }
}

/// The files most recent first, files of equal age in their given order.
pub open spec fn newest_first(files: Seq<CandidateView>) -> Seq<CandidateView>
    decreases files.len(),
{
    if files.len() == 0 {
        files
    } else {
        insert_by_age(newest_first(files.drop_last()), files.last())
    }
}

/// No file of `files` is older than one in front of it.
pub open spec fn is_newest_first(files: Seq<CandidateView>) -> bool {
    forall|i: int, j: int|
        0 <= i < j < files.len() ==> !files[i].modified_time.precedes(files[j].modified_time)
}

/// The files of `files` last modified at `t`, in their order.
pub open spec fn modified_at(files: Seq<CandidateView>, t: Timestamp) -> Seq<CandidateView> {
    files.filter(|f: CandidateView| f.modified_time == t)
}

/// Two lists merged from their ends: of the two last files the older goes
/// last, and of two of one age the file of `right`.
spec fn merged(left: Seq<CandidateView>, right: Seq<CandidateView>) -> Seq<CandidateView>
    decreases left.len() + right.len(),
{
    if left.len() == 0 {
        right
    } else if right.len() == 0 {
        left
    } else if left.last().modified_time.precedes(right.last().modified_time) {
        merged(left.drop_last(), right).push(left.last())
    } else {
        merged(left, right.drop_last()).push(right.last())
    }
}

/// Sorts the candidates most recent first and keeps files of equal age in
/// their given order. A merge sort: the two halves are sorted each for
/// itself and then merged.
pub fn sort_newest_first(files: Vec<Candidate>) -> (out: Vec<Candidate>)
    ensures
        out.deep_view() == newest_first(files.deep_view()),
    decreases files@.len(),
{
    let count: usize = files.len();
    if count < 2 {
        proof {
            reveal_with_fuel(newest_first, 2);
            reveal_with_fuel(insert_by_age, 2);
            if count == 1 {
                assert(files.deep_view().drop_last().len() == 0);
                assert(newest_first(files.deep_view()) =~= files.deep_view());
            }
        }
        return files;
    }
    let ghost given = files.deep_view();
    let mut left = files;
    let right = left.split_off(count / 2);
    let ghost first_half = left.deep_view();
    let ghost second_half = right.deep_view();
    assert(first_half + second_half =~= given);
    let left = sort_newest_first(left);
    let right = sort_newest_first(right);
    proof {
        lemma_merged_sorts(first_half, second_half);
    }
    merge(left, right)
}

/// Merges two lists from their ends.
fn merge(left: Vec<Candidate>, right: Vec<Candidate>) -> (out: Vec<Candidate>)
    ensures
        out.deep_view() == merged(left.deep_view(), right.deep_view()),
{
    let ghost whole = merged(left.deep_view(), right.deep_view());
    let mut left = left;
    let mut right = right;
    // The end of the result, its last file first.
    let mut tail: Vec<Candidate> = Vec::new();
    assert(merged(left.deep_view(), right.deep_view()) + tail.deep_view().reverse() =~= whole);
    while left.len() > 0 && right.len() > 0
        invariant
            whole == merged(left.deep_view(), right.deep_view()) + tail.deep_view().reverse(),
        decreases left.len() + right.len(),
    {
        let ghost ends = tail.deep_view();
        let ghost before_left = left.deep_view();
        let ghost before_right = right.deep_view();
        let from_left = left[left.len() - 1].modified_time.is_before(
            &right[right.len() - 1].modified_time,
        );
        let file = if from_left {
            let file = left.pop().unwrap();
            assert(left.deep_view() =~= before_left.drop_last());
            file
        } else {
            let file = right.pop().unwrap();
            assert(right.deep_view() =~= before_right.drop_last());
            file
        };
        tail.push(file);
        assert(tail.deep_view() =~= ends.push(file@));
        assert(ends.push(file@).reverse() =~= seq![file@] + ends.reverse());
        assert(merged(left.deep_view(), right.deep_view()).push(file@) + ends.reverse()
            =~= merged(left.deep_view(), right.deep_view()) + (seq![file@] + ends.reverse()));
    }
    let mut out = if left.len() == 0 {
        right
    } else {
        left
    };
    while tail.len() > 0
        invariant
            whole == out.deep_view() + tail.deep_view().reverse(),
        decreases tail.len(),
    {
        let ghost ends = tail.deep_view();
        let ghost front = out.deep_view();
        let file = tail.pop().unwrap();
        assert(tail.deep_view() =~= ends.drop_last());
        out.push(file);
        assert(out.deep_view() =~= front.push(file@));
        assert(ends.reverse() =~= seq![file@] + ends.drop_last().reverse());
        assert(front.push(file@) + ends.drop_last().reverse() =~= front + ends.reverse());
    }
    assert(out.deep_view() + tail.deep_view().reverse() =~= out.deep_view());
    out
}

/// Sorting keeps the files: each occurs as often after it as before.
pub proof fn lemma_newest_first_permutes(files: Seq<CandidateView>)
    ensures
        newest_first(files).to_multiset() == files.to_multiset(),
        newest_first(files).len() == files.len(),
    decreases files.len(),
{
    if files.len() > 0 {
        let rest = newest_first(files.drop_last());
        lemma_newest_first_permutes(files.drop_last());
        lemma_insert_by_age_inserts(rest, files.last());
        vstd::seq_lib::to_multiset_insert(rest, insert_index(rest, files.last()), files.last());
        vstd::seq_lib::to_multiset_build(files.drop_last(), files.last());
        assert(files.drop_last().push(files.last()) =~= files);
    }
}

/// Sorting puts the files in order: none is older than one in front of it.
pub proof fn lemma_newest_first_ordered(files: Seq<CandidateView>)
    ensures
        is_newest_first(newest_first(files)),
    decreases files.len(),
{
    if files.len() > 0 {
        let rest = newest_first(files.drop_last());
        let file = files.last();
        let at = insert_index(rest, file);
        let out = rest.insert(at, file);
        lemma_newest_first_ordered(files.drop_last());
        lemma_insert_by_age_inserts(rest, file);
        assert forall|i: int, j: int| 0 <= i < j < out.len() implies !out[i].modified_time.precedes(
            out[j].modified_time,
        ) by {
            if j < at {
                assert(out[i] == rest[i] && out[j] == rest[j]);
            } else if j == at {
                assert(out[i] == rest[i]);
                if i < at - 1 {
                    assert(!rest[i].modified_time.precedes(rest[at - 1].modified_time));
                }
            } else if i < at {
                assert(out[i] == rest[i] && out[j] == rest[j - 1]);
            } else if i == at {
                assert(out[j] == rest[j - 1]);
            } else {
                assert(out[i] == rest[i - 1] && out[j] == rest[j - 1]);
            }
        }
    }
}

/// Sorting is stable: the files last modified at one instant stand in the
/// order in which they were given.
pub proof fn lemma_newest_first_stable(files: Seq<CandidateView>, t: Timestamp)
    ensures
        modified_at(newest_first(files), t) == modified_at(files, t),
    decreases files.len(),
{
    broadcast use Seq::filter_distributes_over_add;

    let at_t = |f: CandidateView| f.modified_time == t;
    if files.len() > 0 {
        let rest = newest_first(files.drop_last());
        let file = files.last();
        let at = insert_index(rest, file);
        lemma_newest_first_stable(files.drop_last(), t);
        lemma_insert_by_age_inserts(rest, file);
        let front = rest.take(at);
        let back = rest.skip(at);
        assert(rest =~= front + back);
        assert(rest.insert(at, file) =~= front.push(file) + back);
        assert(files.drop_last().push(file) =~= files);
        files.drop_last().lemma_filter_push(file, at_t);
        front.lemma_filter_push(file, at_t);
        if file.modified_time == t {
            assert forall|j: int| 0 <= j < back.len() implies !at_t(back[j]) by {
                assert(back[j] == rest[at + j]);
            }
            lemma_filter_none(back, at_t);
            assert(front.filter(at_t) =~= rest.filter(at_t));
            assert(front.push(file).filter(at_t) + back.filter(at_t) =~= rest.filter(at_t).push(
                file,
            ));
        }
    }
}

/// Order and stability fix the list: two lists that both stand most recent
/// first, and that hold the same files in the same order for each instant,
/// are one list.
pub proof fn lemma_order_and_stability_fix_the_list(a: Seq<CandidateView>, b: Seq<CandidateView>)
    requires
        is_newest_first(a),
        is_newest_first(b),
        forall|t: Timestamp| #[trigger] modified_at(a, t) == modified_at(b, t),
    ensures
        a == b,
    decreases a.len(),
{
    if a.len() == 0 {
        if b.len() > 0 {
            let t = b.last().modified_time;
            lemma_modified_at_last(b, t);
            assert(modified_at(a, t) == modified_at(b, t));
            assert(modified_at(a, t).len() == 0) by {
                reveal(Seq::filter);
            }
        }
        assert(a =~= b);
    } else {
        let x = a.last();
        let t0 = x.modified_time;
        lemma_modified_at_last(a, t0);
        assert(modified_at(a, t0) == modified_at(b, t0));
        assert(modified_at(b, t0).last() == x);
        assert(b.len() > 0) by {
            reveal(Seq::filter);
        }
        let y = b.last();
        let t1 = y.modified_time;
        lemma_modified_at_last(b, t1);
        lemma_modified_at_last(b, t0);
        if t1 != t0 {
            assert(modified_at(a, t1) == modified_at(b, t1));
            assert(modified_at(a, t1).contains(y)) by {
                assert(modified_at(b, t1).last() == y);
            }
            lemma_modified_at_is_of_the_list(a, t1, y);
            let i = choose|i: int| 0 <= i < a.len() && a[i] == y;
            assert(i < a.len() - 1);
            assert(!a[i].modified_time.precedes(a[a.len() - 1].modified_time));
            assert(modified_at(b, t0).contains(x)) by {
                assert(modified_at(b, t0)[modified_at(b, t0).len() - 1] == x);
            }
            lemma_modified_at_is_of_the_list(b, t0, x);
            let j = choose|j: int| 0 <= j < b.len() && b[j] == x;
            assert(j < b.len() - 1);
            assert(!b[j].modified_time.precedes(b[b.len() - 1].modified_time));
            assert(false);
        }
        assert(y == x);
        let shorter_a = a.drop_last();
        let shorter_b = b.drop_last();
        assert forall|t: Timestamp| #[trigger]
            modified_at(shorter_a, t) == modified_at(shorter_b, t) by {
            lemma_modified_at_last(a, t);
            lemma_modified_at_last(b, t);
            assert(modified_at(a, t) == modified_at(b, t));
            if t == t0 {
                assert(modified_at(shorter_a, t).push(x).drop_last() =~= modified_at(
                    shorter_a,
                    t,
                ));
                assert(modified_at(shorter_b, t).push(x).drop_last() =~= modified_at(
                    shorter_b,
                    t,
                ));
            }
        }
        assert(is_newest_first(shorter_a)) by {
            assert forall|i: int, j: int|
                0 <= i < j < shorter_a.len() implies !shorter_a[i].modified_time.precedes(
                shorter_a[j].modified_time,
            ) by {
                assert(shorter_a[i] == a[i] && shorter_a[j] == a[j]);
            }
        }
        assert(is_newest_first(shorter_b)) by {
            assert forall|i: int, j: int|
                0 <= i < j < shorter_b.len() implies !shorter_b[i].modified_time.precedes(
                shorter_b[j].modified_time,
            ) by {
                assert(shorter_b[i] == b[i] && shorter_b[j] == b[j]);
            }
        }
        lemma_order_and_stability_fix_the_list(shorter_a, shorter_b);
        assert(a =~= shorter_a.push(x));
        assert(b =~= shorter_b.push(y));
    }
}

/// `newest_first` is the one stable sort: a list that stands most recent
/// first and holds, for each instant, the files of `files` in their order
/// is `newest_first(files)`.
pub proof fn lemma_newest_first_unique(files: Seq<CandidateView>, out: Seq<CandidateView>)
    requires
        is_newest_first(out),
        forall|t: Timestamp| #[trigger] modified_at(out, t) == modified_at(files, t),
    ensures
        out == newest_first(files),
{
    lemma_newest_first_ordered(files);
    assert forall|t: Timestamp| #[trigger]
        modified_at(out, t) == modified_at(newest_first(files), t) by {
        lemma_newest_first_stable(files, t);
        assert(modified_at(out, t) == modified_at(files, t));
    }
    lemma_order_and_stability_fix_the_list(out, newest_first(files));
}

/// Two lists that stand most recent first merge into one that does.
proof fn lemma_merged_ordered(left: Seq<CandidateView>, right: Seq<CandidateView>)
    requires
        is_newest_first(left),
        is_newest_first(right),
    ensures
        is_newest_first(merged(left, right)),
    decreases left.len() + right.len(),
{
    if left.len() > 0 && right.len() > 0 {
        lemma_newest_first_drop_last(left);
        lemma_newest_first_drop_last(right);
        if left.last().modified_time.precedes(right.last().modified_time) {
            let t = left.last().modified_time;
            assert(none_older(right, t));
            lemma_merged_ordered(left.drop_last(), right);
            lemma_merged_none_older(left.drop_last(), right, t);
            lemma_newest_first_push(merged(left.drop_last(), right), left.last());
        } else {
            let t = right.last().modified_time;
            assert(none_older(left, t));
            lemma_merged_ordered(left, right.drop_last());
            lemma_merged_none_older(left, right.drop_last(), t);
            lemma_newest_first_push(merged(left, right.drop_last()), right.last());
        }
    }
}

/// Merging keeps, for each instant, the files of `left` in front of those
/// of `right`, each in their order.
proof fn lemma_merged_stable(left: Seq<CandidateView>, right: Seq<CandidateView>, t: Timestamp)
    requires
        is_newest_first(right),
    ensures
        modified_at(merged(left, right), t) == modified_at(left, t) + modified_at(right, t),
    decreases left.len() + right.len(),
{
    if left.len() == 0 {
        assert(modified_at(left, t) =~= Seq::<CandidateView>::empty()) by {
            reveal(Seq::filter);
        }
        assert(modified_at(left, t) + modified_at(right, t) =~= modified_at(right, t));
    } else if right.len() == 0 {
        assert(modified_at(right, t) =~= Seq::<CandidateView>::empty()) by {
            reveal(Seq::filter);
        }
        assert(modified_at(left, t) + modified_at(right, t) =~= modified_at(left, t));
    } else if left.last().modified_time.precedes(right.last().modified_time) {
        let file = left.last();
        lemma_merged_stable(left.drop_last(), right, t);
        lemma_modified_at_last(left, t);
        lemma_modified_at_last(merged(left, right), t);
        assert(merged(left, right).drop_last() =~= merged(left.drop_last(), right));
        if file.modified_time == t {
            lemma_newest_first_drop_last(right);
            lemma_filter_none(right, |f: CandidateView| f.modified_time == t);
            assert(modified_at(left.drop_last(), t).push(file) + modified_at(right, t) =~= (
            modified_at(left.drop_last(), t) + modified_at(right, t)).push(file));
        }
    } else {
        let file = right.last();
        lemma_newest_first_drop_last(right);
        lemma_merged_stable(left, right.drop_last(), t);
        lemma_modified_at_last(right, t);
        lemma_modified_at_last(merged(left, right), t);
        assert(merged(left, right).drop_last() =~= merged(left, right.drop_last()));
        if file.modified_time == t {
            assert(modified_at(left, t) + modified_at(right.drop_last(), t).push(file) =~= (
            modified_at(left, t) + modified_at(right.drop_last(), t)).push(file));
        }
    }
}

/// Merging the two sorted halves of a list sorts the list.
proof fn lemma_merged_sorts(left: Seq<CandidateView>, right: Seq<CandidateView>)
    ensures
        merged(newest_first(left), newest_first(right)) == newest_first(left + right),
{
    broadcast use Seq::filter_distributes_over_add;

    let out = merged(newest_first(left), newest_first(right));
    lemma_newest_first_ordered(left);
    lemma_newest_first_ordered(right);
    lemma_merged_ordered(newest_first(left), newest_first(right));
    assert forall|t: Timestamp| #[trigger] modified_at(out, t) == modified_at(left + right, t) by {
        lemma_merged_stable(newest_first(left), newest_first(right), t);
        lemma_newest_first_stable(left, t);
        lemma_newest_first_stable(right, t);
    }
    lemma_newest_first_unique(left + right, out);
}

/// The index at which `insert_by_age` puts `file`: behind the last file of
/// `sorted` that is not older than it.
spec fn insert_index(sorted: Seq<CandidateView>, file: CandidateView) -> int
    decreases sorted.len(),
{
    if sorted.len() > 0 && sorted.last().modified_time.precedes(file.modified_time) {
        insert_index(sorted.drop_last(), file)
    } else {
        sorted.len() as int
    }
}

/// `insert_by_age` is an insertion at `insert_index`, which has only older
/// files from it on and a file that is not older right in front.
proof fn lemma_insert_by_age_inserts(sorted: Seq<CandidateView>, file: CandidateView)
    ensures
        0 <= insert_index(sorted, file) <= sorted.len(),
        insert_by_age(sorted, file) == sorted.insert(insert_index(sorted, file), file),
        forall|j: int|
            insert_index(sorted, file) <= j < sorted.len() ==> sorted[j].modified_time.precedes(
                file.modified_time,
            ),
        insert_index(sorted, file) > 0 ==> !sorted[insert_index(sorted, file)
            - 1].modified_time.precedes(file.modified_time),
    decreases sorted.len(),
{
    let at = insert_index(sorted, file);
    if sorted.len() > 0 && sorted.last().modified_time.precedes(file.modified_time) {
        lemma_insert_by_age_inserts(sorted.drop_last(), file);
        assert(sorted.drop_last().insert(at, file).push(sorted.last()) =~= sorted.insert(
            at,
            file,
        ));
        assert forall|j: int| at <= j < sorted.len() implies sorted[j].modified_time.precedes(
            file.modified_time,
        ) by {
            if j < sorted.len() - 1 {
                assert(sorted[j] == sorted.drop_last()[j]);
            }
        }
    } else {
        assert(sorted.insert(at, file) =~= sorted.push(file));
    }
}

/// A filter that no element passes leaves nothing.
proof fn lemma_filter_none(s: Seq<CandidateView>, pred: spec_fn(CandidateView) -> bool)
    requires
        forall|j: int| 0 <= j < s.len() ==> !pred(s[j]),
    ensures
        s.filter(pred) == Seq::<CandidateView>::empty(),
    decreases s.len(),
{
    reveal(Seq::filter);
    if s.len() > 0 {
        lemma_filter_none(s.drop_last(), pred);
    }
}

/// At the end of a list stands the last of the files modified at its time.
proof fn lemma_modified_at_last(files: Seq<CandidateView>, t: Timestamp)
    requires
        files.len() > 0,
    ensures
        modified_at(files, t) == if files.last().modified_time == t {
            modified_at(files.drop_last(), t).push(files.last())
        } else {
            modified_at(files.drop_last(), t)
        },
{
    reveal(Seq::filter);
}

/// A file among those modified at `t` is a file of the list, modified at
/// `t`.
proof fn lemma_modified_at_is_of_the_list(
    files: Seq<CandidateView>,
    t: Timestamp,
    file: CandidateView,
)
    requires
        modified_at(files, t).contains(file),
    ensures
        files.contains(file),
        file.modified_time == t,
{
    let at_t = |f: CandidateView| f.modified_time == t;
    files.lemma_filter_contains_rev(at_t, file);
    let n = choose|n: int| 0 <= n < files.filter(at_t).len() && files.filter(at_t)[n] == file;
    files.lemma_filter_pred(at_t, n);
}

/// No file of `files` is older than `t`.
spec fn none_older(files: Seq<CandidateView>, t: Timestamp) -> bool {
    forall|i: int| 0 <= i < files.len() ==> !(#[trigger] files[i]).modified_time.precedes(t)
}

/// A list that stands most recent first still does without its last file,
/// and none of its files is older than the last.
proof fn lemma_newest_first_drop_last(files: Seq<CandidateView>)
    requires
        is_newest_first(files),
        files.len() > 0,
    ensures
        is_newest_first(files.drop_last()),
        none_older(files, files.last().modified_time),
        none_older(files.drop_last(), files.last().modified_time),
{
    let shorter = files.drop_last();
    assert forall|i: int, j: int|
        0 <= i < j < shorter.len() implies !shorter[i].modified_time.precedes(
        shorter[j].modified_time,
    ) by {
        assert(shorter[i] == files[i] && shorter[j] == files[j]);
    }
    assert forall|i: int|
        0 <= i < shorter.len() implies !(#[trigger] shorter[i]).modified_time.precedes(
        files.last().modified_time,
    ) by {
        assert(shorter[i] == files[i]);
    }
}

/// Merging brings in no file older than those of the two lists.
proof fn lemma_merged_none_older(left: Seq<CandidateView>, right: Seq<CandidateView>, t: Timestamp)
    requires
        none_older(left, t),
        none_older(right, t),
    ensures
        none_older(merged(left, right), t),
    decreases left.len() + right.len(),
{
    if left.len() > 0 && right.len() > 0 {
        let out = merged(left, right);
        if left.last().modified_time.precedes(right.last().modified_time) {
            let rest = left.drop_last();
            assert forall|i: int|
                0 <= i < rest.len() implies !(#[trigger] rest[i]).modified_time.precedes(t) by {
                assert(rest[i] == left[i]);
            }
            lemma_merged_none_older(rest, right, t);
            assert forall|i: int|
                0 <= i < out.len() implies !(#[trigger] out[i]).modified_time.precedes(t) by {
                if i < out.len() - 1 {
                    assert(out[i] == merged(rest, right)[i]);
                } else {
                    assert(out[i] == left[left.len() - 1]);
                }
            }
        } else {
            let rest = right.drop_last();
            assert forall|i: int|
                0 <= i < rest.len() implies !(#[trigger] rest[i]).modified_time.precedes(t) by {
                assert(rest[i] == right[i]);
            }
            lemma_merged_none_older(left, rest, t);
            assert forall|i: int|
                0 <= i < out.len() implies !(#[trigger] out[i]).modified_time.precedes(t) by {
                if i < out.len() - 1 {
                    assert(out[i] == merged(left, rest)[i]);
                } else {
                    assert(out[i] == right[right.len() - 1]);
                }
            }
        }
    }
}

/// A file that is older than none of a list may follow it.
proof fn lemma_newest_first_push(files: Seq<CandidateView>, file: CandidateView)
    requires
        is_newest_first(files),
        none_older(files, file.modified_time),
    ensures
        is_newest_first(files.push(file)),
{
    let out = files.push(file);
    assert forall|i: int, j: int| 0 <= i < j < out.len() implies !out[i].modified_time.precedes(
        out[j].modified_time,
    ) by {
        assert(out[i] == files[i]);
        if j < files.len() {
            assert(out[j] == files[j]);
        }
    }
}

} // verus!
