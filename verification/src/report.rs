//! The report: the candidate pairs that share enough, ranked.

use vstd::prelude::*;
use vstd::string::StringExecFns;
use crate::config::Config;
use crate::index::dir_index_of;
use crate::index::hash_index_of;
use crate::index::Index;
use crate::index::links_after;
use crate::index::load_files_info;
use crate::index::shared;
use crate::links::Link;
use crate::matcher::candidate;
use crate::matcher::describes;
use crate::matcher::DuplicatePair;
use crate::matcher::find_pairs;
use crate::matcher::key_lt;
use crate::matcher::keys_of;
use crate::matcher::lemma_key_lt_asymmetric;
use crate::matcher::lemma_key_lt_irreflexive;
use crate::matcher::PairKey;
use crate::matcher::PairView;
use crate::rank::is_ranking;
use crate::rank::rank;
use crate::record::ScannedFile;

verus! {

/// Pair `p` is reported before pair `q`: it has the larger overlap, or the
/// same overlap and the key that sorts first.
pub open spec fn comes_first(p: DuplicatePair, q: DuplicatePair) -> bool {
    ||| p.intersection > q.intersection
    ||| (p.intersection == q.intersection && key_lt(p.key(), q.key()))
}

/// `report` is the report of the indexes at the threshold
/// `min_intersection`: every entry is a candidate pair with its true counts
/// and an overlap that reaches the threshold; every candidate pair whose
/// overlap reaches the threshold has an entry; no pair has two entries; and
/// the entries are in reporting order.
pub open spec fn is_report(
    report: Seq<DuplicatePair>,
    hash_index: Map<u64, Set<Seq<char>>>,
    dir_index: Map<Seq<char>, Set<u64>>,
    min_intersection: nat,
) -> bool {
    &&& forall|i: int|
        0 <= i < report.len() ==> {
            &&& describes(#[trigger] report[i], hash_index, dir_index)
            &&& report[i].intersection >= min_intersection
        }
    &&& forall|a: Seq<char>, b: Seq<char>|
        candidate(hash_index, a, b) && shared(dir_index, a, b) >= min_intersection ==> keys_of(
            report,
        ).contains((a, b))
    &&& forall|i: int, j: int|
        0 <= i < j < report.len() ==> (#[trigger] report[i]).key() != (#[trigger] report[j]).key()
    &&& forall|i: int, j: int|
        0 <= i < j < report.len() ==> comes_first(#[trigger] report[i], #[trigger] report[j])
}

/// The directory pairs of an index to report at the threshold
/// `min_intersection`, most overlap first.
pub fn find_duplicates(index: &Index, min_intersection: usize) -> (report: Vec<DuplicatePair>)
    requires
        index.wf(),
    ensures
        is_report(report@, index.hash_index(), index.dir_index(), min_intersection as nat),
{
    let pairs = find_pairs(index);
    let ghost found = pairs@;
    let report = rank(pairs, min_intersection);
    proof {
        let origin = choose|origin: Seq<int>|
            is_ranking(report@, found, min_intersection as nat, origin);
        let keys = keys_of(found);
        assert forall|i: int| 0 <= i < report@.len() implies {
            &&& describes(#[trigger] report@[i], index.hash_index(), index.dir_index())
            &&& report@[i].intersection >= min_intersection
        } by {
            assert(report@[i] == found[origin[i]]);
        }
        assert forall|a: Seq<char>, b: Seq<char>|
            candidate(index.hash_index(), a, b) && shared(index.dir_index(), a, b)
                >= min_intersection implies keys_of(report@).contains((a, b)) by {
            let m = choose|m: int| 0 <= m < keys.len() && keys[m] == (a, b);
            assert(found[m].key() == (a, b));
            assert(describes(found[m], index.hash_index(), index.dir_index()));
            let i = choose|i: int| 0 <= i < origin.len() && origin[i] == m;
            assert(report@[i] == found[origin[i]]);
            assert(keys_of(report@)[i] == (a, b));
        }
        assert forall|i: int, j: int| 0 <= i < j < report@.len() implies comes_first(
            #[trigger] report@[i],
            #[trigger] report@[j],
        ) by {
            assert(report@[i] == found[origin[i]] && report@[j] == found[origin[j]]);
            if origin[i] < origin[j] {
                assert(key_lt(keys[origin[i]], keys[origin[j]]));
            }
        }
        assert forall|i: int, j: int| 0 <= i < j < report@.len() implies (
        #[trigger] report@[i]).key() != (#[trigger] report@[j]).key() by {
            lemma_key_lt_irreflexive(report@[i].key());
        }
    }
    report
}

/// The links that a scan under a configuration gives, starting from none.
pub open spec fn links_among(files: Seq<ScannedFile>, config: Config) -> Set<Link> {
    links_after(Set::<Link>::empty(), config.min_size as nat, config.head_bytes as nat, files)
}

/// The whole engine on the files of a scan: the files that were read and are
/// large enough are indexed by directory and fingerprint, and the directory
/// pairs to report are drawn from the indexes and ranked.
pub fn duplicates_among(files: &Vec<ScannedFile>, config: &Config) -> (report: Vec<DuplicatePair>)
    requires
        forall|i: int|
            0 <= i < files@.len() ==> (#[trigger] files@[i]).record.size + u32::MAX <= u64::MAX,
    ensures
        is_report(
            report@,
            hash_index_of(links_among(files@, *config)),
            dir_index_of(links_among(files@, *config)),
            config.min_intersection as nat,
        ),
{
    let mut index = Index::new(config.min_size);
    assert(index.links() =~= Set::<Link>::empty());
    load_files_info(files, config.head_bytes, &mut index);
    find_duplicates(&index, config.min_intersection)
}

/// The character that stands for the digit `d`.
pub open spec fn digit(d: nat) -> char {
    if d == 0 {
        '0'
    } else if d == 1 {
        '1'
    } else if d == 2 {
        '2'
    } else if d == 3 {
        '3'
    } else if d == 4 {
        '4'
    } else if d == 5 {
        '5'
    } else if d == 6 {
        '6'
    } else if d == 7 {
        '7'
    } else if d == 8 {
        '8'
    } else {
        '9'
    }
}

/// The number `n` in decimal, without leading zeros.
pub open spec fn decimal(n: nat) -> Seq<char>
    decreases n,
{
    if n < 10 {
        seq![digit(n)]
    } else {
        decimal(n / 10).push(digit(n % 10))
    }
}

/// The line that reports a pair: each directory with the number of its
/// fingerprints, then the number of fingerprints that the two share.
pub open spec fn line_of(pair: PairView) -> Seq<char> {
    pair.dir_a + seq![':', ' '] + decimal(pair.count_a as nat) + seq![' ', '-', ' '] + pair.dir_b
        + seq![':', ' '] + decimal(pair.count_b as nat) + seq![' ', '|', ' '] + decimal(
        pair.intersection as nat,
    )
}

/// The text of one digit.
fn digit_text(d: usize) -> (text: &'static str)
    requires
        d < 10,
    ensures
        text@ == seq![digit(d as nat)],
{
    proof {
        reveal_strlit("0");
        reveal_strlit("1");
        reveal_strlit("2");
        reveal_strlit("3");
        reveal_strlit("4");
        reveal_strlit("5");
        reveal_strlit("6");
        reveal_strlit("7");
        reveal_strlit("8");
        reveal_strlit("9");
    }
    let text = if d == 0 {
        "0"
    } else if d == 1 {
        "1"
    } else if d == 2 {
        "2"
    } else if d == 3 {
        "3"
    } else if d == 4 {
        "4"
    } else if d == 5 {
        "5"
    } else if d == 6 {
        "6"
    } else if d == 7 {
        "7"
    } else if d == 8 {
        "8"
    } else {
        "9"
    };
    assert(text@ =~= seq![digit(d as nat)]);
    text
}

/// The number `n` in decimal.
pub fn decimal_text(n: usize) -> (text: String)
    ensures
        text@ == decimal(n as nat),
    decreases n,
{
    if n < 10 {
        digit_text(n).to_owned()
    } else {
        let mut text = decimal_text(n / 10);
        text.append(digit_text(n % 10));
        assert(text@ =~= decimal(n as nat));
        text
    }
}

impl DuplicatePair {
    /// The line that reports this pair.
    pub fn render(&self) -> (line: String)
        ensures
            line@ == line_of(self@),
    {
        proof {
            reveal_strlit(": ");
            reveal_strlit(" - ");
            reveal_strlit(" | ");
            assert(": "@ =~= seq![':', ' ']);
            assert(" - "@ =~= seq![' ', '-', ' ']);
            assert(" | "@ =~= seq![' ', '|', ' ']);
        }
        let mut line = self.dir_a.clone();
        line.append(": ");
        line.append(decimal_text(self.count_a).as_str());
        line.append(" - ");
        line.append(self.dir_b.as_str());
        line.append(": ");
        line.append(decimal_text(self.count_b).as_str());
        line.append(" | ");
        line.append(decimal_text(self.intersection).as_str());
        line
    }
}

/// What the entries of a report say, in the report's order.
pub open spec fn views_of(report: Seq<DuplicatePair>) -> Seq<PairView> {
    report.map_values(|p: DuplicatePair| p@)
}

/// Key `a` is reported before key `b` under an index: its directories share
/// more, or as much and it sorts first.
pub open spec fn key_comes_first(dir_index: Map<Seq<char>, Set<u64>>, a: PairKey, b: PairKey) -> bool {
    ||| shared(dir_index, a.0, a.1) > shared(dir_index, b.0, b.1)
    ||| (shared(dir_index, a.0, a.1) == shared(dir_index, b.0, b.1) && key_lt(a, b))
}

/// The keys are in reporting order.
pub open spec fn keys_in_order(dir_index: Map<Seq<char>, Set<u64>>, keys: Seq<PairKey>) -> bool {
    forall|i: int, j: int|
        0 <= i < j < keys.len() ==> key_comes_first(dir_index, keys[i], keys[j])
}

/// Two lists of keys in reporting order that hold the same keys are the same
/// list.
pub proof fn lemma_keys_in_order_unique(
    dir_index: Map<Seq<char>, Set<u64>>,
    first: Seq<PairKey>,
    second: Seq<PairKey>,
)
    requires
        keys_in_order(dir_index, first),
        keys_in_order(dir_index, second),
        forall|key: PairKey| first.contains(key) <==> second.contains(key),
    ensures
        first == second,
    decreases first.len(),
{
    if first.len() == 0 {
        if second.len() > 0 {
            assert(second.contains(second[0]));
        }
        assert(first =~= second);
    } else {
        assert(first.contains(first[0]));
        let j = choose|j: int| 0 <= j < second.len() && second[j] == first[0];
        assert(second.contains(second[0]));
        let i = choose|i: int| 0 <= i < first.len() && first[i] == second[0];
        if j > 0 {
            assert(key_comes_first(dir_index, second[0], second[j]));
            if i > 0 {
                assert(key_comes_first(dir_index, first[0], first[i]));
                if key_lt(first[0], first[i]) {
                    lemma_key_lt_asymmetric(first[0], first[i]);
                }
            } else {
                lemma_key_lt_irreflexive(first[0]);
            }
        }
        assert(first[0] == second[0]);
        let rest = first.drop_first();
        let others = second.drop_first();
        assert forall|key: PairKey| rest.contains(key) <==> others.contains(key) by {
            lemma_key_lt_irreflexive(key);
            if rest.contains(key) {
                let m = choose|m: int| 0 <= m < rest.len() && rest[m] == key;
                assert(first[m + 1] == key);
                assert(key_comes_first(dir_index, first[0], first[m + 1]));
                assert(first.contains(key));
                let n = choose|n: int| 0 <= n < second.len() && second[n] == key;
                assert(others[n - 1] == key);
            }
            if others.contains(key) {
                let m = choose|m: int| 0 <= m < others.len() && others[m] == key;
                assert(second[m + 1] == key);
                assert(key_comes_first(dir_index, second[0], second[m + 1]));
                assert(second.contains(key));
                let n = choose|n: int| 0 <= n < first.len() && first[n] == key;
                assert(rest[n - 1] == key);
            }
        }
        assert forall|i: int, j: int| 0 <= i < j < rest.len() implies key_comes_first(
            dir_index,
            rest[i],
            rest[j],
        ) by {
            assert(rest[i] == first[i + 1] && rest[j] == first[j + 1]);
        }
        assert forall|i: int, j: int| 0 <= i < j < others.len() implies key_comes_first(
            dir_index,
            others[i],
            others[j],
        ) by {
            assert(others[i] == second[i + 1] && others[j] == second[j + 1]);
        }
        lemma_keys_in_order_unique(dir_index, rest, others);
        assert(first =~= seq![first[0]] + rest);
        assert(second =~= seq![second[0]] + others);
    }
}

/// The indexes and the threshold determine the report: two reports of the
/// same indexes at the same threshold say the same, entry by entry.
pub proof fn lemma_report_unique(
    first: Seq<DuplicatePair>,
    second: Seq<DuplicatePair>,
    hash_index: Map<u64, Set<Seq<char>>>,
    dir_index: Map<Seq<char>, Set<u64>>,
    min_intersection: nat,
)
    requires
        is_report(first, hash_index, dir_index, min_intersection),
        is_report(second, hash_index, dir_index, min_intersection),
    ensures
        views_of(first) == views_of(second),
{
    let ours = keys_of(first);
    let theirs = keys_of(second);
    assert forall|key: PairKey| ours.contains(key) <==> theirs.contains(key) by {
        if ours.contains(key) {
            let i = choose|i: int| 0 <= i < ours.len() && ours[i] == key;
            assert(describes(first[i], hash_index, dir_index));
        }
        if theirs.contains(key) {
            let i = choose|i: int| 0 <= i < theirs.len() && theirs[i] == key;
            assert(describes(second[i], hash_index, dir_index));
        }
    }
    assert forall|i: int, j: int| 0 <= i < j < ours.len() implies key_comes_first(
        dir_index,
        ours[i],
        ours[j],
    ) by {
        assert(describes(first[i], hash_index, dir_index));
        assert(describes(first[j], hash_index, dir_index));
        assert(comes_first(first[i], first[j]));
    }
    assert forall|i: int, j: int| 0 <= i < j < theirs.len() implies key_comes_first(
        dir_index,
        theirs[i],
        theirs[j],
    ) by {
        assert(describes(second[i], hash_index, dir_index));
        assert(describes(second[j], hash_index, dir_index));
        assert(comes_first(second[i], second[j]));
    }
    lemma_keys_in_order_unique(dir_index, ours, theirs);
    assert forall|i: int| 0 <= i < first.len() implies first[i]@ == second[i]@ by {
        assert(ours[i] == theirs[i]);
        assert(describes(first[i], hash_index, dir_index));
        assert(describes(second[i], hash_index, dir_index));
    }
    assert(views_of(first) =~= views_of(second));
}

} // verus!
