//! Counting what two increasing lists of fingerprints have in common.

use vstd::prelude::*;

verus! {

/// The list is strictly increasing.
pub open spec fn increasing(prints: Seq<u64>) -> bool {
    forall|i: int, j: int| 0 <= i < j < prints.len() ==> prints[i] < prints[j]
}

/// The number of matches that walking two lists in step finds: the smaller
/// head is dropped, and equal heads count once and are both dropped.
pub open spec fn common_count(a: Seq<u64>, b: Seq<u64>) -> nat
    decreases a.len() + b.len(),
{
    if a.len() == 0 || b.len() == 0 {
        0
    } else if a[0] < b[0] {
        common_count(a.drop_first(), b)
    } else if a[0] > b[0] {
        common_count(a, b.drop_first())
    } else {
        1 + common_count(a.drop_first(), b.drop_first())
    }
}

/// An increasing list has as many items as the set of its items.
pub proof fn lemma_increasing_len(prints: Seq<u64>)
    requires
        increasing(prints),
    ensures
        prints.no_duplicates(),
        prints.to_set().finite(),
        prints.to_set().len() == prints.len(),
{
    prints.unique_seq_to_set();
}

/// The rest of an increasing list is increasing, lies above the head, and
/// with the head makes up the list.
pub proof fn lemma_increasing_rest(prints: Seq<u64>)
    requires
        increasing(prints),
        prints.len() > 0,
    ensures
        increasing(prints.drop_first()),
        !prints.drop_first().to_set().contains(prints[0]),
        prints.to_set() == prints.drop_first().to_set().insert(prints[0]),
        forall|x: u64| prints.drop_first().to_set().contains(x) ==> prints[0] < x,
{
    let rest = prints.drop_first();
    assert forall|i: int, j: int| 0 <= i < j < rest.len() implies rest[i] < rest[j] by {
        assert(rest[i] == prints[i + 1] && rest[j] == prints[j + 1]);
    }
    assert forall|x: u64| rest.to_set().contains(x) implies prints[0] < x by {
        let i = choose|i: int| 0 <= i < rest.len() && rest[i] == x;
        assert(rest[i] == prints[i + 1]);
    }
    assert forall|x: u64| prints.to_set().contains(x) <==> rest.to_set().insert(
        prints[0],
    ).contains(x) by {
        if prints.contains(x) {
            let i = choose|i: int| 0 <= i < prints.len() && prints[i] == x;
            if i > 0 {
                assert(rest[i - 1] == x);
            }
        }
        if rest.contains(x) {
            let i = choose|i: int| 0 <= i < rest.len() && rest[i] == x;
            assert(prints[i + 1] == x);
        }
        if x == prints[0] {
            assert(prints[0] == x);
        }
    }
    assert(prints.to_set() =~= rest.to_set().insert(prints[0]));
}

/// Walking two increasing lists in step counts exactly the fingerprints that
/// occur in both.
pub proof fn lemma_common_count(a: Seq<u64>, b: Seq<u64>)
    requires
        increasing(a),
        increasing(b),
    ensures
        common_count(a, b) == a.to_set().intersect(b.to_set()).len(),
    decreases a.len() + b.len(),
{
    let both = a.to_set().intersect(b.to_set());
    if a.len() == 0 || b.len() == 0 {
        assert(both =~= Set::<u64>::empty());
    } else {
        lemma_increasing_rest(a);
        lemma_increasing_rest(b);
        assert(b.to_set().contains(b[0]));
        assert(a.to_set().contains(a[0]));
        if a[0] < b[0] {
            lemma_common_count(a.drop_first(), b);
            assert(both =~= a.drop_first().to_set().intersect(b.to_set()));
        } else if a[0] > b[0] {
            lemma_common_count(a, b.drop_first());
            assert(both =~= a.to_set().intersect(b.drop_first().to_set()));
        } else {
            lemma_common_count(a.drop_first(), b.drop_first());
            let rest = a.drop_first().to_set().intersect(b.drop_first().to_set());
            assert(both =~= rest.insert(a[0]));
            assert(rest.finite());
        }
    }
}

} // verus!
