//! From a directory listing to the candidate files of one run.

use vstd::prelude::*;
use vstd::std_specs::iter::IteratorSpec;
use vstd::string::StringExecFns;
use crate::candidate::{Candidate, CandidateView, Entry, EntryView};

verus! {

/// How the scanner judges one directory entry.
#[derive(Clone, Copy, Debug, PartialEq, Eq, Structural)]
pub enum Verdict {
    /// The entry becomes a candidate.
    Include,
    /// The name does not start with the prefix asked for.
    Exclude,
    /// The name qualifies but the modification time could not be read.
    Unreadable,
}

/// The verdict on `entry` under an optional name prefix. The prefix is
/// looked at first, as the name is known before any metadata.
pub open spec fn verdict_of(entry: EntryView, prefix: Option<Seq<char>>) -> Verdict {
    match prefix {
        Some(p) if !p.is_prefix_of(entry.name) => Verdict::Exclude,
        _ => match entry.modified {
            Some(_) => Verdict::Include,
            None => Verdict::Unreadable,
        },
    }
}

/// The candidate that an included entry of `directory` becomes.
pub open spec fn admitted(directory: Seq<char>, entry: EntryView, prefix: Option<Seq<char>>)
    -> Option<CandidateView> {
    match (verdict_of(entry, prefix), entry.modified) {
        (Verdict::Include, Some(t)) => Some(
            CandidateView { modified_time: t, path: directory + entry.name },
        ),
        _ => None,
    }
}

/// The candidates of a listing, in listing order.
pub open spec fn scanned(
    directory: Seq<char>,
    entries: Seq<EntryView>,
    prefix: Option<Seq<char>>,
) -> Seq<CandidateView> {
    entries.filter_map(|e: EntryView| admitted(directory, e, prefix))
}

/// The scan holds the candidates of the admitted entries, and no others.
pub proof fn lemma_scanned_holds_the_admitted(
    directory: Seq<char>,
    entries: Seq<EntryView>,
    prefix: Option<Seq<char>>,
    file: CandidateView,
)
    ensures
        scanned(directory, entries, prefix).contains(file) <==> exists|i: int|
            0 <= i < entries.len() && #[trigger] admitted(directory, entries[i], prefix) == Some(
                file,
            ),
    decreases entries.len(),
{
    if entries.len() > 0 {
        let rest = entries.drop_last();
        let found = scanned(directory, entries, prefix);
        let before = scanned(directory, rest, prefix);
        lemma_scanned_holds_the_admitted(directory, rest, prefix, file);
        if found.contains(file) {
            let n = choose|n: int| 0 <= n < found.len() && found[n] == file;
            if n < before.len() {
                assert(before[n] == file);
                let i = choose|i: int|
                    0 <= i < rest.len() && #[trigger] admitted(directory, rest[i], prefix) == Some(
                        file,
                    );
                assert(entries[i] == rest[i]);
            } else {
                assert(admitted(directory, entries[entries.len() - 1], prefix) == Some(file));
            }
        }
        if exists|i: int|
            0 <= i < entries.len() && #[trigger] admitted(directory, entries[i], prefix) == Some(
                file,
            ) {
            let i = choose|i: int|
                0 <= i < entries.len() && #[trigger] admitted(directory, entries[i], prefix)
                    == Some(file);
            if i < rest.len() {
                assert(rest[i] == entries[i]);
                let n = choose|n: int| 0 <= n < before.len() && before[n] == file;
                assert(found[n] == file);
            } else {
                assert(found[found.len() - 1] == file);
            }
        }
    }
}

/// No two entries of the listing share a name.
pub open spec fn names_distinct(entries: Seq<EntryView>) -> bool {
    forall|i: int, j: int|
        0 <= i < j < entries.len() ==> (#[trigger] entries[i]).name != (#[trigger] entries[j]).name
}

/// A listing without a repeated name gives no candidate twice.
pub proof fn lemma_scanned_distinct(
    directory: Seq<char>,
    entries: Seq<EntryView>,
    prefix: Option<Seq<char>>,
)
    requires
        names_distinct(entries),
    ensures
        scanned(directory, entries, prefix).no_duplicates(),
    decreases entries.len(),
{
    if entries.len() > 0 {
        let rest = entries.drop_last();
        let last = entries.last();
        let before = scanned(directory, rest, prefix);
        assert(names_distinct(rest)) by {
            assert forall|i: int, j: int| 0 <= i < j < rest.len() implies (#[trigger] rest[i]).name
                != (#[trigger] rest[j]).name by {
                assert(rest[i] == entries[i] && rest[j] == entries[j]);
            }
        }
        lemma_scanned_distinct(directory, rest, prefix);
        match admitted(directory, last, prefix) {
            Some(file) => {
                assert(scanned(directory, entries, prefix) =~= before.push(file));
                if before.contains(file) {
                    lemma_scanned_holds_the_admitted(directory, rest, prefix, file);
                    let i = choose|i: int|
                        0 <= i < rest.len() && #[trigger] admitted(directory, rest[i], prefix)
                            == Some(file);
                    assert(rest[i] == entries[i]);
                    assert((directory + entries[i].name).skip(directory.len() as int)
                        =~= entries[i].name);
                    assert((directory + last.name).skip(directory.len() as int) =~= last.name);
                    assert(entries[i].name != entries[entries.len() - 1].name);
                    assert(false);
                }
                assert forall|i: int, j: int|
                    0 <= i < before.push(file).len() && 0 <= j < before.push(file).len() && i
                        != j implies before.push(file)[i] != before.push(file)[j] by {
                    if i < before.len() && j < before.len() {
                        assert(before[i] != before[j]);
                    } else if i < before.len() {
                        assert(before.contains(before[i]));
                    } else {
                        assert(before.contains(before[j]));
                    }
                }
            },
            None => {
                assert(scanned(directory, entries, prefix) =~= before);
            },
        }
    }
}

/// An entry whose modification time could not be read gives no candidate.
pub proof fn lemma_unreadable_is_not_admitted(
    directory: Seq<char>,
    entry: EntryView,
    prefix: Option<Seq<char>>,
)
    requires
        entry.modified is None,
    ensures
        admitted(directory, entry, prefix) is None,
{
}

/// Whether the characters of `prefix` open `name`.
fn starts_with(name: &str, prefix: &str) -> (r: bool)
    ensures
        r == prefix@.is_prefix_of(name@),
{
    broadcast use vstd::string::group_string_axioms;

    let mut rest = name.chars();
    let mut wanted = prefix.chars();
    let ghost mut matched: int = 0;
    loop
        invariant
            0 <= matched <= name@.len(),
            matched <= prefix@.len(),
            rest.remaining() == name@.skip(matched),
            wanted.remaining() == prefix@.skip(matched),
            prefix@.take(matched) == name@.take(matched),
        decreases prefix@.len() - matched,
    {
        match wanted.next() {
            None => {
                assert(prefix@.take(matched) =~= prefix@);
                assert(name@.take(matched) =~= name@.subrange(0, prefix@.len() as int));
                return true;
            },
            Some(c) => {
                assert(c == prefix@[matched]);
                match rest.next() {
                    Some(d) => {
                        assert(d == name@[matched]);
                        if c != d {
                            assert(!prefix@.is_prefix_of(name@)) by {
                                if prefix@.is_prefix_of(name@) {
                                    assert(name@.subrange(0, prefix@.len() as int)[matched]
                                        == prefix@[matched]);
                                }
                            }
                            return false;
                        }
                        proof {
                            assert(prefix@.take(matched + 1) =~= prefix@.take(matched).push(c));
                            assert(name@.take(matched + 1) =~= name@.take(matched).push(d));
                            assert(name@.skip(matched).drop_first() =~= name@.skip(matched + 1));
                            assert(prefix@.skip(matched).drop_first() =~= prefix@.skip(
                                matched + 1,
                            ));
                            matched = matched + 1;
                        }
                    },
                    None => {
                        return false;
                    },
                }
            },
        }
    }
}

/// Whether `text` ends in the character `tail`.
fn ends_with_char(text: &str, tail: char) -> (r: bool)
    ensures
        r == (text@.len() > 0 && text@.last() == tail),
{
    broadcast use vstd::string::group_string_axioms;

    let mut rest = text.chars();
    let mut last: Option<char> = None;
    let ghost mut seen: int = 0;
    loop
        invariant
            0 <= seen <= text@.len(),
            rest.remaining() == text@.skip(seen),
            last == if seen == 0 {
                None
            } else {
                Some(text@[seen - 1])
            },
        decreases text@.len() - seen,
    {
        match rest.next() {
            Some(c) => {
                proof {
                    assert(c == text@[seen]);
                    assert(text@.skip(seen).drop_first() =~= text@.skip(seen + 1));
                    seen = seen + 1;
                }
                last = Some(c);
            },
            None => {
                return match last {
                    Some(c) => c == tail,
                    None => false,
                };
            },
        }
    }
}

/// Judges one entry.
pub fn classify(entry: &Entry, prefix: &Option<String>) -> (v: Verdict)
    ensures
        v == verdict_of(entry@, prefix.deep_view()),
{
    match prefix {
        Some(p) if !starts_with(entry.name.as_str(), p.as_str()) => Verdict::Exclude,
        _ => match entry.modified {
            Some(_) => Verdict::Include,
            None => Verdict::Unreadable,
        },
    }
}

/// The path of the file `name` in `directory`, which is expected to end in
/// a separator already.
pub fn candidate_path(directory: &str, name: &str) -> (path: String)
    ensures
        path@ == directory@ + name@,
{
    String::from_str(directory).concat(name)
}

/// Collects the candidates of a listing: every entry whose name starts with
/// `prefix` (every entry, where there is none) and whose modification time
/// is known, in listing order. Entries without a modification time are
/// passed over in silence.
pub fn scan(directory: &str, entries: &Vec<Entry>, prefix: &Option<String>) -> (out: Vec<
    Candidate,
>)
    ensures
        out.deep_view() == scanned(directory@, entries.deep_view(), prefix.deep_view()),
{
    let ghost f = |e: EntryView| admitted(directory@, e, prefix.deep_view());
    let mut out: Vec<Candidate> = Vec::new();
    let mut i: usize = 0;
    while i < entries.len()
        invariant
            i <= entries.len(),
            f == |e: EntryView| admitted(directory@, e, prefix.deep_view()),
            out.deep_view() == entries.deep_view().take(i as int).filter_map(f),
        decreases entries.len() - i,
    {
        let entry = &entries[i];
        proof {
            entries.deep_view().lemma_filter_map_take_succ(f, i as int);
        }
        let ghost before = out.deep_view();
        match (classify(entry, prefix), entry.modified) {
            (Verdict::Include, Some(t)) => {
                let c = Candidate {
                    modified_time: t,
                    path: candidate_path(directory, entry.name.as_str()),
                };
                out.push(c);
                assert(out.deep_view() =~= before.push(c@));
            },
            _ => {},
        }
        i += 1;
    }
    assert(entries.deep_view().take(entries.len() as int) =~= entries.deep_view());
    out
}

/// The directory to work on, as the paths are built from it: the current
/// directory where none is given, and with a separator appended where the
/// given one does not end in one.
pub open spec fn normalized(directory: Option<Seq<char>>) -> Seq<char> {
    match directory {
        None => seq!['.', '/'],
        Some(d) => if d.len() > 0 && d.last() == '/' {
            d
        } else {
            d.push('/')
        },
    }
}

/// Brings the directory argument into the form that paths are built from.
pub fn normalize_directory(directory: Option<String>) -> (out: String)
    ensures
        out@ == normalized(directory.deep_view()),
{
    proof {
        reveal_strlit("./");
        reveal_strlit("/");
    }
    match directory {
        None => {
            let out = String::from_str("./");
            assert(out@ =~= seq!['.', '/']);
            out
        },
        Some(d) => {
            if ends_with_char(d.as_str(), '/') {
                d
            } else {
                let ghost before = d@;
                let out = d.concat("/");
                assert(out@ =~= before.push('/'));
                out
            }
        },
    }
}

} // verus!
