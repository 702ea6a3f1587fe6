//! Links between directories and fingerprints, and sorted lists of them.
//!
//! A link `(directory, fingerprint)` says that the directory holds a file with
//! that fingerprint. Both inverted indexes are lists of links without
//! repetition: one sorted fingerprint first, the other directory first.

use vstd::prelude::*;
use crate::order::lemma_nothing_before_empty;
use crate::order::lemma_path_lt_asymmetric;
use crate::order::lemma_path_lt_irreflexive;
use crate::order::lemma_path_lt_total;
use crate::order::lemma_path_lt_transitive;
use crate::order::path_lt;
use crate::order::Place;
use crate::order::place_of;
use crate::overlap::increasing;

verus! {

/// A directory path and the fingerprint of a file in it.
pub type Link = (Seq<char>, u64);

/// A link as the indexes store it.
#[derive(Clone, Debug, PartialEq, Eq)]
pub struct Entry {
    pub directory: String,
    pub fingerprint: u64,
}

impl View for Entry {
    type V = Link;

    open spec fn view(&self) -> Link {
        (self.directory@, self.fingerprint)
    }
}

/// The links that a list of entries stands for, in the list's order.
pub open spec fn links_of(entries: Seq<Entry>) -> Seq<Link> {
    entries.map_values(|e: Entry| e@)
}

/// Link `a` sorts strictly before link `b`: by directory and then by
/// fingerprint where `by_dir` holds, by fingerprint and then by directory
/// where it does not.
pub open spec fn link_lt(by_dir: bool, a: Link, b: Link) -> bool {
    if by_dir {
        path_lt(a.0, b.0) || (a.0 == b.0 && a.1 < b.1)
    } else {
        a.1 < b.1 || (a.1 == b.1 && path_lt(a.0, b.0))
    }
}

/// Where link `a` stands relative to link `b`.
pub open spec fn link_place(by_dir: bool, a: Link, b: Link) -> Place {
    if a == b {
        Place::Same
    } else if link_lt(by_dir, a, b) {
        Place::Before
    } else {
        Place::After
    }
}

/// The list is strictly increasing, so it holds no link twice.
pub open spec fn sorted(links: Seq<Link>, by_dir: bool) -> bool {
    forall|i: int, j: int| 0 <= i < j < links.len() ==> link_lt(by_dir, links[i], links[j])
}

/// No link sorts before itself.
pub proof fn lemma_link_lt_irreflexive(by_dir: bool, a: Link)
    ensures
        !link_lt(by_dir, a, a),
{
    lemma_path_lt_irreflexive(a.0);
}

/// The link order is transitive.
pub proof fn lemma_link_lt_transitive(by_dir: bool, a: Link, b: Link, c: Link)
    requires
        link_lt(by_dir, a, b),
        link_lt(by_dir, b, c),
    ensures
        link_lt(by_dir, a, c),
{
    if path_lt(a.0, b.0) && path_lt(b.0, c.0) {
        lemma_path_lt_transitive(a.0, b.0, c.0);
    }
}

/// The link order never holds both ways.
pub proof fn lemma_link_lt_asymmetric(by_dir: bool, a: Link, b: Link)
    requires
        link_lt(by_dir, a, b),
    ensures
        !link_lt(by_dir, b, a),
{
    if link_lt(by_dir, b, a) {
        lemma_link_lt_transitive(by_dir, a, b, a);
        lemma_link_lt_irreflexive(by_dir, a);
    }
}

/// Two different links are ordered one way or the other.
pub proof fn lemma_link_lt_total(by_dir: bool, a: Link, b: Link)
    requires
        a != b,
    ensures
        link_lt(by_dir, a, b) || link_lt(by_dir, b, a),
{
    if a.0 != b.0 {
        lemma_path_lt_total(a.0, b.0);
    }
}

/// In a sorted list, a link that sorts before another also stands before it.
pub proof fn lemma_sorted_positions(links: Seq<Link>, by_dir: bool, i: int, j: int)
    requires
        sorted(links, by_dir),
        0 <= i < links.len(),
        0 <= j < links.len(),
        link_lt(by_dir, links[i], links[j]),
    ensures
        i < j,
{
    if j < i {
        lemma_link_lt_asymmetric(by_dir, links[j], links[i]);
    } else if i == j {
        lemma_link_lt_irreflexive(by_dir, links[i]);
    }
}

/// In a sorted list, a link is held exactly when it stands at the first
/// position whose link does not sort before it.
pub proof fn lemma_found_at_bound(links: Seq<Link>, by_dir: bool, pos: int, link: Link)
    requires
        sorted(links, by_dir),
        0 <= pos <= links.len(),
        forall|i: int| 0 <= i < pos ==> link_lt(by_dir, #[trigger] links[i], link),
        forall|i: int| pos <= i < links.len() ==> !link_lt(by_dir, #[trigger] links[i], link),
    ensures
        links.contains(link) <==> (pos < links.len() && links[pos] == link),
        links.to_set().contains(link) <==> (pos < links.len() && links[pos] == link),
        !links.contains(link) ==> forall|i: int|
            pos <= i < links.len() ==> link_lt(by_dir, link, #[trigger] links[i]),
{
    lemma_link_lt_irreflexive(by_dir, link);
    if links.contains(link) {
        let i = choose|i: int| 0 <= i < links.len() && links[i] == link;
        if i > pos {
            assert(link_lt(by_dir, links[pos], links[i]));
        }
    } else {
        assert forall|i: int| pos <= i < links.len() implies link_lt(
            by_dir,
            link,
            #[trigger] links[i],
        ) by {
            lemma_link_lt_total(by_dir, link, links[i]);
        }
    }
}

/// Putting a link where the order wants it keeps a list sorted and adds
/// exactly that link to what the list holds.
pub proof fn lemma_insert_sorted(links: Seq<Link>, by_dir: bool, pos: int, link: Link)
    requires
        sorted(links, by_dir),
        0 <= pos <= links.len(),
        forall|i: int| 0 <= i < pos ==> link_lt(by_dir, links[i], link),
        forall|i: int| pos <= i < links.len() ==> link_lt(by_dir, link, links[i]),
    ensures
        sorted(links.insert(pos, link), by_dir),
        links.insert(pos, link).to_set() == links.to_set().insert(link),
{
    let grown = links.insert(pos, link);
    assert forall|i: int, j: int| 0 <= i < j < grown.len() implies link_lt(
        by_dir,
        grown[i],
        grown[j],
    ) by {
        if i < pos && j > pos {
            assert(grown[i] == links[i] && grown[j] == links[j - 1]);
        }
    }
    assert forall|l: Link| grown.to_set().contains(l) <==> (l == link || links.to_set().contains(
        l,
    )) by {
        if links.contains(l) {
            let i = choose|i: int| 0 <= i < links.len() && links[i] == l;
            if i < pos {
                assert(grown[i] == l);
            } else {
                assert(grown[i + 1] == l);
            }
        }
        if l == link {
            assert(grown[pos] == l);
        }
        if grown.contains(l) {
            let i = choose|i: int| 0 <= i < grown.len() && grown[i] == l;
            if i < pos {
                assert(links[i] == l);
            } else if i > pos {
                assert(links[i - 1] == l);
            }
        }
    }
    assert(grown.to_set() =~= links.to_set().insert(link));
}

/// Compares the link `(directory, fingerprint)` with a stored entry.
pub fn entry_place(by_dir: bool, directory: &str, fingerprint: u64, entry: &Entry) -> (r: Place)
    ensures
        r == link_place(by_dir, (directory@, fingerprint), entry@),
{
    let dirs = place_of(directory, entry.directory.as_str());
    let prints = if fingerprint < entry.fingerprint {
        Place::Before
    } else if fingerprint > entry.fingerprint {
        Place::After
    } else {
        Place::Same
    };
    proof {
        if directory@ != entry.directory@ {
            lemma_path_lt_total(directory@, entry.directory@);
            if path_lt(directory@, entry.directory@) {
                lemma_path_lt_asymmetric(directory@, entry.directory@);
            }
        } else {
            lemma_path_lt_irreflexive(directory@);
        }
    }
    if by_dir {
        match dirs {
            Place::Same => prints,
            _ => dirs,
        }
    } else {
        match prints {
            Place::Same => dirs,
            _ => prints,
        }
    }
}

/// The first position in a sorted list whose entry does not sort before the
/// link `(directory, fingerprint)`: where the link stands, or where it would
/// have to be put.
pub fn lower_bound(entries: &Vec<Entry>, by_dir: bool, directory: &str, fingerprint: u64) -> (pos:
    usize)
    requires
        sorted(links_of(entries@), by_dir),
    ensures
        pos <= entries@.len(),
        forall|i: int|
            0 <= i < pos ==> link_lt(by_dir, #[trigger] links_of(entries@)[i], (directory@, fingerprint)),
        forall|i: int|
            pos <= i < entries@.len() ==> !link_lt(
                by_dir,
                #[trigger] links_of(entries@)[i],
                (directory@, fingerprint),
            ),
{
    let ghost links = links_of(entries@);
    let ghost key = (directory@, fingerprint);
    let mut lo: usize = 0;
    let mut hi: usize = entries.len();
    while lo < hi
        invariant
            lo <= hi <= entries@.len(),
            links == links_of(entries@),
            key == (directory@, fingerprint),
            sorted(links, by_dir),
            forall|i: int| 0 <= i < lo ==> link_lt(by_dir, #[trigger] links[i], key),
            forall|i: int| hi <= i < entries@.len() ==> !link_lt(by_dir, #[trigger] links[i], key),
        decreases hi - lo,
    {
        let mid = lo + (hi - lo) / 2;
        let place = entry_place(by_dir, directory, fingerprint, &entries[mid]);
        assert(links[mid as int] == entries@[mid as int]@);
        match place {
            Place::After => {
                proof {
                    lemma_link_lt_total(by_dir, key, links[mid as int]);
                    assert forall|i: int| 0 <= i < mid + 1 implies link_lt(
                        by_dir,
                        #[trigger] links[i],
                        key,
                    ) by {
                        if i < mid {
                            lemma_link_lt_transitive(by_dir, links[i], links[mid as int], key);
                        }
                    }
                }
                lo = mid + 1;
            },
            _ => {
                proof {
                    if place == Place::Before {
                        lemma_link_lt_asymmetric(by_dir, key, links[mid as int]);
                    } else {
                        lemma_link_lt_irreflexive(by_dir, key);
                    }
                    assert forall|i: int| mid <= i < entries@.len() implies !link_lt(
                        by_dir,
                        #[trigger] links[i],
                        key,
                    ) by {
                        if i > mid && link_lt(by_dir, links[i], key) {
                            lemma_link_lt_transitive(by_dir, links[mid as int], links[i], key);
                        }
                    }
                }
                hi = mid;
            },
        }
    }
    lo
}

/// The fingerprints of the links at positions `lo` to `hi - 1`, in order.
pub open spec fn prints_between(links: Seq<Link>, lo: int, hi: int) -> Seq<u64> {
    Seq::new((hi - lo) as nat, |k: int| links[lo + k].1)
}

/// The directories of the links at positions `lo` to `hi - 1`, in order.
pub open spec fn dirs_between(links: Seq<Link>, lo: int, hi: int) -> Seq<Seq<char>> {
    Seq::new((hi - lo) as nat, |k: int| links[lo + k].0)
}

/// Positions `lo` to `hi - 1` are exactly those whose link has `directory`.
pub open spec fn is_dir_run(links: Seq<Link>, directory: Seq<char>, lo: int, hi: int) -> bool {
    &&& 0 <= lo <= hi <= links.len()
    &&& forall|i: int|
        0 <= i < links.len() ==> ((lo <= i < hi) <==> (#[trigger] links[i]).0 == directory)
}

/// Positions `lo` to `hi - 1` are exactly those whose link has `fingerprint`.
pub open spec fn is_print_run(links: Seq<Link>, fingerprint: u64, lo: int, hi: int) -> bool {
    &&& 0 <= lo <= hi <= links.len()
    &&& forall|i: int|
        0 <= i < links.len() ==> ((lo <= i < hi) <==> (#[trigger] links[i]).1 == fingerprint)
}

/// In a list sorted by directory, the fingerprints of one directory's run
/// increase, and they are the fingerprints linked to that directory.
pub proof fn lemma_dir_run_prints(links: Seq<Link>, directory: Seq<char>, lo: int, hi: int)
    requires
        sorted(links, true),
        is_dir_run(links, directory, lo, hi),
    ensures
        increasing(prints_between(links, lo, hi)),
        prints_between(links, lo, hi).to_set() == Set::new(
            |f: u64| links.to_set().contains((directory, f)),
        ),
{
    let prints = prints_between(links, lo, hi);
    lemma_path_lt_irreflexive(directory);
    assert forall|i: int, j: int| 0 <= i < j < prints.len() implies prints[i] < prints[j] by {
        assert(link_lt(true, links[lo + i], links[lo + j]));
    }
    assert forall|f: u64| prints.to_set().contains(f) <==> links.to_set().contains(
        (directory, f),
    ) by {
        if prints.contains(f) {
            let k = choose|k: int| 0 <= k < prints.len() && prints[k] == f;
            assert(links[lo + k] == (directory, f));
        }
        if links.contains((directory, f)) {
            let i = choose|i: int| 0 <= i < links.len() && links[i] == (directory, f);
            assert(prints[i - lo] == f);
        }
    }
    assert(prints.to_set() =~= Set::new(|f: u64| links.to_set().contains((directory, f))));
}

/// In a list sorted by fingerprint, the directories of one fingerprint's run
/// increase in the path order, and they are the directories linked to that
/// fingerprint.
pub proof fn lemma_print_run_dirs(links: Seq<Link>, fingerprint: u64, lo: int, hi: int)
    requires
        sorted(links, false),
        is_print_run(links, fingerprint, lo, hi),
    ensures
        forall|i: int, j: int|
            0 <= i < j < hi - lo ==> path_lt(
                #[trigger] dirs_between(links, lo, hi)[i],
                #[trigger] dirs_between(links, lo, hi)[j],
            ),
        dirs_between(links, lo, hi).to_set() == Set::new(
            |d: Seq<char>| links.to_set().contains((d, fingerprint)),
        ),
{
    let dirs = dirs_between(links, lo, hi);
    assert forall|i: int, j: int| 0 <= i < j < hi - lo implies path_lt(
        #[trigger] dirs[i],
        #[trigger] dirs[j],
    ) by {
        assert(link_lt(false, links[lo + i], links[lo + j]));
    }
    assert forall|d: Seq<char>| dirs.to_set().contains(d) <==> links.to_set().contains(
        (d, fingerprint),
    ) by {
        if dirs.contains(d) {
            let k = choose|k: int| 0 <= k < dirs.len() && dirs[k] == d;
            assert(links[lo + k] == (d, fingerprint));
        }
        if links.contains((d, fingerprint)) {
            let i = choose|i: int| 0 <= i < links.len() && links[i] == (d, fingerprint);
            assert(dirs[i - lo] == d);
        }
    }
    assert(dirs.to_set() =~= Set::new(|d: Seq<char>| links.to_set().contains((d, fingerprint))));
}

/// The positions, in a list sorted by directory, of the links of `directory`.
pub fn dir_run(entries: &Vec<Entry>, directory: &str) -> (run: (usize, usize))
    requires
        sorted(links_of(entries@), true),
    ensures
        is_dir_run(links_of(entries@), directory@, run.0 as int, run.1 as int),
{
    let lo = lower_bound(entries, true, directory, 0);
    let top = lower_bound(entries, true, directory, u64::MAX);
    let hi = if top < entries.len() && entry_place(true, directory, u64::MAX, &entries[top])
        == Place::Same {
        top + 1
    } else {
        top
    };
    proof {
        let links = links_of(entries@);
        let first = (directory@, 0u64);
        let last = (directory@, u64::MAX);
        lemma_path_lt_irreflexive(directory@);
        lemma_found_at_bound(links, true, top as int, last);
        if lo > top {
            assert(link_lt(true, links[top as int], first));
        }
        assert forall|i: int| 0 <= i < links.len() implies ((lo <= i < hi) <==> (
        #[trigger] links[i]).0 == directory@) by {
            let l = links[i];
            if l.0 != directory@ {
                lemma_path_lt_total(l.0, directory@);
                if path_lt(l.0, directory@) {
                    lemma_path_lt_asymmetric(l.0, directory@);
                }
            }
            if i >= hi && i > top {
                assert(link_lt(true, links[top as int], links[i]));
            }
        }
    }
    (lo, hi)
}

/// The positions, in a list sorted by fingerprint, of the links of
/// `fingerprint`.
pub fn print_run(entries: &Vec<Entry>, fingerprint: u64) -> (run: (usize, usize))
    requires
        sorted(links_of(entries@), false),
    ensures
        is_print_run(links_of(entries@), fingerprint, run.0 as int, run.1 as int),
{
    let none = "";
    proof {
        reveal_strlit("");
        assert(none@ =~= Seq::<char>::empty());
    }
    let lo = lower_bound(entries, false, none, fingerprint);
    let hi = if fingerprint == u64::MAX {
        entries.len()
    } else {
        lower_bound(entries, false, none, fingerprint + 1)
    };
    proof {
        let links = links_of(entries@);
        if fingerprint < u64::MAX && lo > hi {
            assert(link_lt(false, links[hi as int], (none@, fingerprint)));
        }
        assert forall|i: int| 0 <= i < links.len() implies ((lo <= i < hi) <==> (
        #[trigger] links[i]).1 == fingerprint) by {
            lemma_nothing_before_empty(links[i].0);
        }
    }
    (lo, hi)
}

} // verus!
