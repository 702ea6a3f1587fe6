//! The pair matcher: from the two indexes to the directory pairs that share
//! files.
//!
//! Two directories become a candidate pair when they are neighbours among the
//! directories filed under some fingerprint, these taken in the path order.
//! Each candidate pair is reported once, however many fingerprints the two
//! share, with the full size of the overlap of their fingerprint sets.

use vstd::prelude::*;
use crate::index::hash_index_of;
use crate::index::Index;
use crate::index::members;
use crate::index::shared;
use crate::links::lemma_sorted_positions;
use crate::links::Link;
use crate::links::link_lt;
use crate::links::links_of;
use crate::links::sorted;
use crate::order::lemma_path_lt_asymmetric;
use crate::order::lemma_path_lt_irreflexive;
use crate::order::lemma_path_lt_total;
use crate::order::lemma_path_lt_transitive;
use crate::order::path_lt;
use crate::order::Place;
use crate::order::place_of;

verus! {

/// Two directories that share files: the directories in the path order,
/// the number of fingerprints of each, and the number they have in common.
#[derive(Clone, Debug, PartialEq, Eq)]
pub struct DuplicatePair {
    pub dir_a: String,
    pub dir_b: String,
    pub count_a: usize,
    pub count_b: usize,
    pub intersection: usize,
}

/// The two directories of a pair, first the one that sorts first.
pub type PairKey = (Seq<char>, Seq<char>);

/// What a pair says, with its directories as plain paths.
pub struct PairView {
    pub dir_a: Seq<char>,
    pub dir_b: Seq<char>,
    pub count_a: usize,
    pub count_b: usize,
    pub intersection: usize,
}

impl View for DuplicatePair {
    type V = PairView;

    open spec fn view(&self) -> PairView {
        PairView {
            dir_a: self.dir_a@,
            dir_b: self.dir_b@,
            count_a: self.count_a,
            count_b: self.count_b,
            intersection: self.intersection,
        }
    }
}

impl DuplicatePair {
    /// The two directories of this pair.
    pub open spec fn key(&self) -> PairKey {
        (self.dir_a@, self.dir_b@)
    }
}

/// Key `a` sorts strictly before key `b`: by first directory, then by second.
pub open spec fn key_lt(a: PairKey, b: PairKey) -> bool {
    path_lt(a.0, b.0) || (a.0 == b.0 && path_lt(a.1, b.1))
}

/// Where key `a` stands relative to key `b`.
pub open spec fn key_place(a: PairKey, b: PairKey) -> Place {
    if a == b {
        Place::Same
    } else if key_lt(a, b) {
        Place::Before
    } else {
        Place::After
    }
}

/// The keys of a list of pairs, in the list's order.
pub open spec fn keys_of(pairs: Seq<DuplicatePair>) -> Seq<PairKey> {
    pairs.map_values(|p: DuplicatePair| p.key())
}

/// The keys strictly increase, so no key occurs twice.
pub open spec fn keys_increase(keys: Seq<PairKey>) -> bool {
    forall|i: int, j: int| 0 <= i < j < keys.len() ==> key_lt(keys[i], keys[j])
}

/// `a` and `b` are neighbours in a set of directories: both belong to it, `a`
/// sorts before `b`, and no directory of the set lies between them.
pub open spec fn neighbours(dirs: Set<Seq<char>>, a: Seq<char>, b: Seq<char>) -> bool {
    &&& dirs.contains(a)
    &&& dirs.contains(b)
    &&& path_lt(a, b)
    &&& forall|c: Seq<char>| dirs.contains(c) ==> !(path_lt(a, c) && path_lt(c, b))
}

/// `a` and `b` are a candidate pair: neighbours among the directories filed
/// under at least one fingerprint.
pub open spec fn candidate(hash_index: Map<u64, Set<Seq<char>>>, a: Seq<char>, b: Seq<char>) -> bool {
    exists|f: u64| hash_index.contains_key(f) && neighbours(#[trigger] hash_index[f], a, b)
}

/// The pair reports a candidate pair of the indexes with its true counts.
pub open spec fn describes(
    pair: DuplicatePair,
    hash_index: Map<u64, Set<Seq<char>>>,
    dir_index: Map<Seq<char>, Set<u64>>,
) -> bool {
    &&& candidate(hash_index, pair.dir_a@, pair.dir_b@)
    &&& pair.count_a == members(dir_index, pair.dir_a@).len()
    &&& pair.count_b == members(dir_index, pair.dir_b@).len()
    &&& pair.intersection == shared(dir_index, pair.dir_a@, pair.dir_b@)
}

/// No key sorts before itself.
pub proof fn lemma_key_lt_irreflexive(a: PairKey)
    ensures
        !key_lt(a, a),
{
    lemma_path_lt_irreflexive(a.0);
    lemma_path_lt_irreflexive(a.1);
}

/// The key order is transitive.
pub proof fn lemma_key_lt_transitive(a: PairKey, b: PairKey, c: PairKey)
    requires
        key_lt(a, b),
        key_lt(b, c),
    ensures
        key_lt(a, c),
{
    if path_lt(a.0, b.0) && path_lt(b.0, c.0) {
        lemma_path_lt_transitive(a.0, b.0, c.0);
    }
    if path_lt(a.1, b.1) && path_lt(b.1, c.1) {
        lemma_path_lt_transitive(a.1, b.1, c.1);
    }
}

/// The key order never holds both ways.
pub proof fn lemma_key_lt_asymmetric(a: PairKey, b: PairKey)
    requires
        key_lt(a, b),
    ensures
        !key_lt(b, a),
{
    if key_lt(b, a) {
        lemma_key_lt_transitive(a, b, a);
        lemma_key_lt_irreflexive(a);
    }
}

/// Two different keys are ordered one way or the other.
pub proof fn lemma_key_lt_total(a: PairKey, b: PairKey)
    requires
        a != b,
    ensures
        key_lt(a, b) || key_lt(b, a),
{
    if a.0 != b.0 {
        lemma_path_lt_total(a.0, b.0);
    } else {
        lemma_path_lt_total(a.1, b.1);
    }
}

/// Compares the key `(a, b)` with the key of a pair.
pub fn key_place_of(a: &str, b: &str, pair: &DuplicatePair) -> (r: Place)
    ensures
        r == key_place((a@, b@), pair.key()),
{
    let first = place_of(a, pair.dir_a.as_str());
    proof {
        if a@ != pair.dir_a@ {
            lemma_path_lt_total(a@, pair.dir_a@);
            if path_lt(a@, pair.dir_a@) {
                lemma_path_lt_asymmetric(a@, pair.dir_a@);
            }
        } else {
            lemma_path_lt_irreflexive(a@);
        }
    }
    match first {
        Place::Same => place_of(b, pair.dir_b.as_str()),
        _ => first,
    }
}

/// The first position, in a list of pairs with increasing keys, whose key
/// does not sort before `(a, b)`.
pub fn key_lower_bound(pairs: &Vec<DuplicatePair>, a: &str, b: &str) -> (pos: usize)
    requires
        keys_increase(keys_of(pairs@)),
    ensures
        pos <= pairs@.len(),
        forall|i: int| 0 <= i < pos ==> key_lt(#[trigger] keys_of(pairs@)[i], (a@, b@)),
        forall|i: int| pos <= i < pairs@.len() ==> !key_lt(#[trigger] keys_of(pairs@)[i], (a@, b@)),
{
    let ghost keys = keys_of(pairs@);
    let ghost key = (a@, b@);
    let mut lo: usize = 0;
    let mut hi: usize = pairs.len();
    while lo < hi
        invariant
            lo <= hi <= pairs@.len(),
            keys == keys_of(pairs@),
            key == (a@, b@),
            keys_increase(keys),
            forall|i: int| 0 <= i < lo ==> key_lt(#[trigger] keys[i], key),
            forall|i: int| hi <= i < pairs@.len() ==> !key_lt(#[trigger] keys[i], key),
        decreases hi - lo,
    {
        let mid = lo + (hi - lo) / 2;
        let place = key_place_of(a, b, &pairs[mid]);
        assert(keys[mid as int] == pairs@[mid as int].key());
        match place {
            Place::After => {
                proof {
                    lemma_key_lt_total(key, keys[mid as int]);
                    assert forall|i: int| 0 <= i < mid + 1 implies key_lt(
                        #[trigger] keys[i],
                        key,
                    ) by {
                        if i < mid {
                            lemma_key_lt_transitive(keys[i], keys[mid as int], key);
                        }
                    }
                }
                lo = mid + 1;
            },
            _ => {
                proof {
                    if place == Place::Before {
                        lemma_key_lt_asymmetric(key, keys[mid as int]);
                    } else {
                        lemma_key_lt_irreflexive(key);
                    }
                    assert forall|i: int| mid <= i < pairs@.len() implies !key_lt(
                        #[trigger] keys[i],
                        key,
                    ) by {
                        if i > mid && key_lt(keys[i], key) {
                            lemma_key_lt_transitive(keys[mid as int], keys[i], key);
                        }
                    }
                }
                hi = mid;
            },
        }
    }
    lo
}

/// In a list with increasing keys, a key is held exactly when it stands at
/// the first position whose key does not sort before it; where it is not
/// held, it sorts before everything from that position on.
pub proof fn lemma_key_found_at_bound(keys: Seq<PairKey>, pos: int, key: PairKey)
    requires
        keys_increase(keys),
        0 <= pos <= keys.len(),
        forall|i: int| 0 <= i < pos ==> key_lt(#[trigger] keys[i], key),
        forall|i: int| pos <= i < keys.len() ==> !key_lt(#[trigger] keys[i], key),
    ensures
        keys.contains(key) <==> (pos < keys.len() && keys[pos] == key),
        !keys.contains(key) ==> forall|i: int|
            pos <= i < keys.len() ==> key_lt(key, #[trigger] keys[i]),
{
    lemma_key_lt_irreflexive(key);
    if keys.contains(key) {
        let i = choose|i: int| 0 <= i < keys.len() && keys[i] == key;
        if i > pos {
            assert(key_lt(keys[pos], keys[i]));
        }
    } else {
        assert forall|i: int| pos <= i < keys.len() implies key_lt(key, #[trigger] keys[i]) by {
            lemma_key_lt_total(key, keys[i]);
        }
    }
}

/// Putting a key where the order wants it keeps the keys increasing, keeps
/// every key that was held, and adds the new one.
pub proof fn lemma_keys_insert(keys: Seq<PairKey>, pos: int, key: PairKey)
    requires
        keys_increase(keys),
        0 <= pos <= keys.len(),
        forall|i: int| 0 <= i < pos ==> key_lt(#[trigger] keys[i], key),
        forall|i: int| pos <= i < keys.len() ==> key_lt(key, #[trigger] keys[i]),
    ensures
        keys_increase(keys.insert(pos, key)),
        keys.insert(pos, key).contains(key),
        forall|other: PairKey| keys.contains(other) ==> keys.insert(pos, key).contains(other),
{
    let grown = keys.insert(pos, key);
    assert forall|i: int, j: int| 0 <= i < j < grown.len() implies key_lt(grown[i], grown[j]) by {
        if i < pos && j > pos {
            assert(grown[i] == keys[i] && grown[j] == keys[j - 1]);
        }
    }
    assert(grown[pos] == key);
    assert forall|other: PairKey| keys.contains(other) implies grown.contains(other) by {
        let i = choose|i: int| 0 <= i < keys.len() && keys[i] == other;
        if i < pos {
            assert(grown[i] == other);
        } else {
            assert(grown[i + 1] == other);
        }
    }
}

/// The links at positions `k - 1` and `k` have the same fingerprint.
pub open spec fn side_by_side(links: Seq<Link>, k: int) -> bool {
    0 < k < links.len() && links[k - 1].1 == links[k].1
}

/// The directories of the links at positions `k - 1` and `k`.
pub open spec fn key_at(links: Seq<Link>, k: int) -> PairKey {
    (links[k - 1].0, links[k].0)
}

/// Two links that stand side by side in the list sorted by fingerprint, with
/// one fingerprint, name a candidate pair.
pub proof fn lemma_adjacent_is_candidate(links: Seq<Link>, k: int)
    requires
        sorted(links, false),
        side_by_side(links, k),
    ensures
        candidate(hash_index_of(links.to_set()), key_at(links, k).0, key_at(links, k).1),
{
    let index = hash_index_of(links.to_set());
    let f = links[k].1;
    let a = links[k - 1].0;
    let b = links[k].0;
    assert(links.contains((a, f)));
    assert(links.contains((b, f)));
    assert(link_lt(false, links[k - 1], links[k]));
    assert(links.to_set().contains((a, f)));
    assert(index.contains_key(f));
    assert forall|c: Seq<char>| index[f].contains(c) implies !(path_lt(a, c) && path_lt(c, b)) by {
        if path_lt(a, c) && path_lt(c, b) {
            let m = choose|m: int| 0 <= m < links.len() && links[m] == (c, f);
            lemma_sorted_positions(links, false, k - 1, m);
            lemma_sorted_positions(links, false, m, k);
        }
    }
    assert(neighbours(index[f], a, b));
}

/// Every candidate pair stands side by side somewhere in the list sorted by
/// fingerprint.
pub proof fn lemma_candidate_is_adjacent(links: Seq<Link>, a: Seq<char>, b: Seq<char>) -> (k: int)
    requires
        sorted(links, false),
        candidate(hash_index_of(links.to_set()), a, b),
    ensures
        side_by_side(links, k),
        key_at(links, k) == (a, b),
{
    let index = hash_index_of(links.to_set());
    let f = choose|f: u64| index.contains_key(f) && neighbours(#[trigger] index[f], a, b);
    let i = choose|i: int| 0 <= i < links.len() && links[i] == (a, f);
    let j = choose|j: int| 0 <= j < links.len() && links[j] == (b, f);
    lemma_sorted_positions(links, false, i, j);
    if j > i + 1 {
        let between = links[i + 1];
        assert(link_lt(false, links[i], between));
        assert(link_lt(false, between, links[j]));
        assert(between.1 == f);
        assert(links.contains(between));
        assert(index[f].contains(between.0));
    }
    j
}

/// The candidate pairs of an index, each once, in the order of their keys,
/// with the number of fingerprints of either directory and the number that
/// the two have in common.
pub fn find_pairs(index: &Index) -> (pairs: Vec<DuplicatePair>)
    requires
        index.wf(),
    ensures
        keys_increase(keys_of(pairs@)),
        forall|i: int|
            0 <= i < pairs@.len() ==> describes(
                #[trigger] pairs@[i],
                index.hash_index(),
                index.dir_index(),
            ),
        forall|a: Seq<char>, b: Seq<char>|
            candidate(index.hash_index(), a, b) ==> keys_of(pairs@).contains((a, b)),
{
    let entries = index.fingerprint_links();
    let ghost links = index.by_fingerprint();
    let mut pairs: Vec<DuplicatePair> = Vec::new();
    let mut k: usize = 1;
    while k < entries.len()
        invariant
            index.wf(),
            1 <= k,
            links == links_of(entries@),
            links == index.by_fingerprint(),
            keys_increase(keys_of(pairs@)),
            forall|i: int|
                0 <= i < pairs@.len() ==> describes(
                    #[trigger] pairs@[i],
                    index.hash_index(),
                    index.dir_index(),
                ),
            forall|m: int|
                1 <= m < k && #[trigger] side_by_side(links, m) ==> keys_of(pairs@).contains(
                    key_at(links, m),
                ),
        decreases entries@.len() - k,
    {
        assert(links[k - 1] == entries@[k - 1]@ && links[k as int] == entries@[k as int]@);
        if entries[k - 1].fingerprint == entries[k].fingerprint {
            let a = entries[k - 1].directory.as_str();
            let b = entries[k].directory.as_str();
            let at = key_lower_bound(&pairs, a, b);
            let seen = at < pairs.len() && key_place_of(a, b, &pairs[at]) == Place::Same;
            proof {
                assert(at < pairs@.len() ==> keys_of(pairs@)[at as int] == pairs@[at as int].key());
                lemma_key_found_at_bound(keys_of(pairs@), at as int, (a@, b@));
            }
            if !seen {
                let pair = DuplicatePair {
                    dir_a: a.to_owned(),
                    dir_b: b.to_owned(),
                    count_a: index.fingerprint_count(a),
                    count_b: index.fingerprint_count(b),
                    intersection: index.intersection(a, b),
                };
                proof {
                    lemma_adjacent_is_candidate(links, k as int);
                    lemma_keys_insert(keys_of(pairs@), at as int, (a@, b@));
                }
                let ghost before = pairs@;
                pairs.insert(at, pair);
                proof {
                    assert(keys_of(pairs@) =~= keys_of(before).insert(at as int, (a@, b@)));
                    assert forall|i: int| 0 <= i < pairs@.len() implies describes(
                        #[trigger] pairs@[i],
                        index.hash_index(),
                        index.dir_index(),
                    ) by {
                        if i < at {
                            assert(pairs@[i] == before[i]);
                        } else if i > at {
                            assert(pairs@[i] == before[i - 1]);
                        }
                    }
                    assert(keys_of(pairs@).contains(key_at(links, k as int)));
                }
            } else {
                assert(keys_of(pairs@).contains(key_at(links, k as int)));
            }
        }
        k += 1;
    }
    proof {
        assert forall|a: Seq<char>, b: Seq<char>|
            candidate(index.hash_index(), a, b) implies keys_of(pairs@).contains((a, b)) by {
            let m = lemma_candidate_is_adjacent(links, a, b);
            assert(side_by_side(links, m));
        }
    }
    pairs
}

} // verus!
