//! The two inverted indexes: fingerprint to directories, and directory to
//! fingerprints.
//!
//! Each index is a list of links without repetition, the first sorted by
//! fingerprint and then directory, the second by directory and then
//! fingerprint. The two lists always hold the same links, so a directory is
//! listed under a fingerprint exactly when the fingerprint is listed under the
//! directory.

use vstd::prelude::*;
use crate::checksum::crc32;
use crate::checksum::fingerprint;
use crate::checksum::fingerprint_of;
use crate::checksum::get_crc32_checksum;
use crate::checksum::head_prefix;
use crate::links::dir_run;
use crate::links::dirs_between;
use crate::links::Entry;
use crate::links::entry_place;
use crate::links::lemma_dir_run_prints;
use crate::links::lemma_found_at_bound;
use crate::links::lemma_insert_sorted;
use crate::links::lemma_print_run_dirs;
use crate::links::Link;
use crate::links::links_of;
use crate::links::lower_bound;
use crate::links::print_run;
use crate::links::prints_between;
use crate::links::sorted;
use crate::order::path_lt;
use crate::order::Place;
use crate::overlap::common_count;
use crate::overlap::increasing;
use crate::overlap::lemma_common_count;
use crate::overlap::lemma_increasing_len;
use crate::record::FileRecord;
use crate::record::ScannedFile;

verus! {

/// The set filed under `key` in an index, empty where the key is absent.
pub open spec fn members<K, V>(index: Map<K, Set<V>>, key: K) -> Set<V> {
    if index.contains_key(key) {
        index[key]
    } else {
        Set::empty()
    }
}

/// The index with `member` added to the set filed under `key`; the entry is
/// created where the key was absent.
pub open spec fn with_member<K, V>(index: Map<K, Set<V>>, key: K, member: V) -> Map<K, Set<V>> {
    index.insert(key, members(index, key).insert(member))
}

/// The links grouped by fingerprint: each fingerprint that occurs, with the
/// directories linked to it.
pub open spec fn hash_index_of(links: Set<Link>) -> Map<u64, Set<Seq<char>>> {
    Map::new(
        |f: u64| exists|d: Seq<char>| links.contains((d, f)),
        |f: u64| Set::new(|d: Seq<char>| links.contains((d, f))),
    )
}

/// The links grouped by directory: each directory that occurs, with the
/// fingerprints linked to it.
pub open spec fn dir_index_of(links: Set<Link>) -> Map<Seq<char>, Set<u64>> {
    Map::new(
        |d: Seq<char>| exists|f: u64| links.contains((d, f)),
        |d: Seq<char>| Set::new(|f: u64| links.contains((d, f))),
    )
}

/// A directory is filed under a fingerprint, and the fingerprint under the
/// directory, exactly when the two are linked.
pub proof fn lemma_members_are_links(links: Set<Link>, directory: Seq<char>, fingerprint: u64)
    ensures
        members(hash_index_of(links), fingerprint).contains(directory) <==> links.contains(
            (directory, fingerprint),
        ),
        members(dir_index_of(links), directory).contains(fingerprint) <==> links.contains(
            (directory, fingerprint),
        ),
{
}

/// What is filed under a fingerprint is the set of directories linked to it,
/// and what is filed under a directory is the set of fingerprints linked to
/// it.
pub proof fn lemma_members_of_indexes(links: Set<Link>, directory: Seq<char>, fingerprint: u64)
    ensures
        members(hash_index_of(links), fingerprint) == Set::new(
            |d: Seq<char>| links.contains((d, fingerprint)),
        ),
        members(dir_index_of(links), directory) == Set::new(
            |f: u64| links.contains((directory, f)),
        ),
{
    assert(members(hash_index_of(links), fingerprint) =~= Set::new(
        |d: Seq<char>| links.contains((d, fingerprint)),
    ));
    assert(members(dir_index_of(links), directory) =~= Set::new(
        |f: u64| links.contains((directory, f)),
    ));
}

/// The number of fingerprints that two directories of an index share.
pub open spec fn shared(index: Map<Seq<char>, Set<u64>>, a: Seq<char>, b: Seq<char>) -> nat {
    members(index, a).intersect(members(index, b)).len()
}

/// The paths that a list of strings holds, in the list's order.
pub open spec fn paths_of(names: Seq<String>) -> Seq<Seq<char>> {
    names.map_values(|s: String| s@)
}

/// The number of fingerprints that two directories share does not depend on
/// the order in which the two are named.
pub proof fn lemma_shared_symmetric(index: Map<Seq<char>, Set<u64>>, a: Seq<char>, b: Seq<char>)
    ensures
        shared(index, a, b) == shared(index, b, a),
{
    assert(members(index, a).intersect(members(index, b)) =~= members(index, b).intersect(
        members(index, a),
    ));
}

/// Adding a link adds the directory under the fingerprint.
pub proof fn lemma_hash_index_insert(links: Set<Link>, directory: Seq<char>, fingerprint: u64)
    ensures
        hash_index_of(links.insert((directory, fingerprint))) == with_member(
            hash_index_of(links),
            fingerprint,
            directory,
        ),
{
    let before = hash_index_of(links);
    let after = hash_index_of(links.insert((directory, fingerprint)));
    let wanted = with_member(before, fingerprint, directory);
    assert(links.insert((directory, fingerprint)).contains((directory, fingerprint)));
    assert forall|f: u64| after.contains_key(f) <==> wanted.contains_key(f) by {
        if before.contains_key(f) {
            let d = choose|d: Seq<char>| links.contains((d, f));
            assert(links.insert((directory, fingerprint)).contains((d, f)));
        }
    }
    assert forall|f: u64| after.contains_key(f) implies after[f] =~= wanted[f] by {}
    assert(after =~= wanted);
}

/// Adding a link adds the fingerprint under the directory.
pub proof fn lemma_dir_index_insert(links: Set<Link>, directory: Seq<char>, fingerprint: u64)
    ensures
        dir_index_of(links.insert((directory, fingerprint))) == with_member(
            dir_index_of(links),
            directory,
            fingerprint,
        ),
{
    let before = dir_index_of(links);
    let after = dir_index_of(links.insert((directory, fingerprint)));
    let wanted = with_member(before, directory, fingerprint);
    assert(links.insert((directory, fingerprint)).contains((directory, fingerprint)));
    assert forall|d: Seq<char>| after.contains_key(d) <==> wanted.contains_key(d) by {
        if before.contains_key(d) {
            let f = choose|f: u64| links.contains((d, f));
            assert(links.insert((directory, fingerprint)).contains((d, f)));
        }
    }
    assert forall|d: Seq<char>| after.contains_key(d) implies after[d] =~= wanted[d] by {}
    assert(after =~= wanted);
}

/// The links after a file of `size` bytes in `directory`, with this
/// `checksum`, was offered: a file smaller than `min_size` leaves them as they
/// are, any other file adds the link of its directory and its fingerprint.
pub open spec fn offered(
    links: Set<Link>,
    min_size: nat,
    directory: Seq<char>,
    size: nat,
    checksum: u32,
) -> Set<Link> {
    if size < min_size {
        links
    } else {
        links.insert((directory, fingerprint_of(checksum, size) as u64))
    }
}

/// The link that a scanned file adds to the links: that of its directory and
/// its fingerprint, the checksum being taken over the head of its content. A
/// file that could not be read, or is smaller than `min_size`, adds none.
pub open spec fn link_from(file: ScannedFile, min_size: nat, head: nat) -> Option<Link> {
    match file.content {
        Some(content) => if file.record.size >= min_size {
            Some(
                (
                    file.record.directory@,
                    fingerprint_of(crc32(head_prefix(content@, head)), file.record.size as nat) as u64,
                ),
            )
        } else {
            None
        },
        None => None,
    }
}

/// The links after the files of a scan were offered in turn.
pub open spec fn links_after(
    links: Set<Link>,
    min_size: nat,
    head: nat,
    files: Seq<ScannedFile>,
) -> Set<Link>
    decreases files.len(),
{
    if files.len() == 0 {
        links
    } else {
        let before = links_after(links, min_size, head, files.drop_last());
        match link_from(files.last(), min_size, head) {
            Some(link) => before.insert(link),
            None => before,
        }
    }
}

/// A scan adds to the links exactly the links of its files, whatever the
/// order in which the files come: a link is held after the scan when it was
/// held before, or some file of the scan adds it. So a file that is smaller
/// than `min_size`, or could not be read, contributes nothing.
pub proof fn lemma_links_after(
    links: Set<Link>,
    min_size: nat,
    head: nat,
    files: Seq<ScannedFile>,
    link: Link,
)
    ensures
        links_after(links, min_size, head, files).contains(link) <==> (links.contains(link)
            || exists|i: int|
            0 <= i < files.len() && link_from(#[trigger] files[i], min_size, head) == Some(link)),
    decreases files.len(),
{
    if files.len() > 0 {
        let rest = files.drop_last();
        lemma_links_after(links, min_size, head, rest, link);
        if exists|i: int| 0 <= i < rest.len() && link_from(#[trigger] rest[i], min_size, head) == Some(link) {
            let i = choose|i: int|
                0 <= i < rest.len() && link_from(#[trigger] rest[i], min_size, head) == Some(link);
            assert(files[i] == rest[i]);
        }
        if exists|i: int|
            0 <= i < files.len() && link_from(#[trigger] files[i], min_size, head) == Some(link) {
            let i = choose|i: int|
                0 <= i < files.len() && link_from(#[trigger] files[i], min_size, head) == Some(
                    link,
                );
            if i < rest.len() {
                assert(files[i] == rest[i]);
            }
        }
        assert(files[files.len() - 1] == files.last());
    }
}

/// The order of the files of a scan does not matter, nor how often a file
/// comes: two scans that hold the same files give the same links.
pub proof fn lemma_scan_order_irrelevant(
    links: Set<Link>,
    min_size: nat,
    head: nat,
    first: Seq<ScannedFile>,
    second: Seq<ScannedFile>,
)
    requires
        forall|file: ScannedFile| first.contains(file) <==> second.contains(file),
    ensures
        links_after(links, min_size, head, first) == links_after(links, min_size, head, second),
{
    let ours = links_after(links, min_size, head, first);
    let theirs = links_after(links, min_size, head, second);
    assert forall|link: Link| ours.contains(link) <==> theirs.contains(link) by {
        lemma_links_after(links, min_size, head, first, link);
        lemma_links_after(links, min_size, head, second, link);
        if exists|i: int|
            0 <= i < first.len() && link_from(#[trigger] first[i], min_size, head) == Some(link) {
            let i = choose|i: int|
                0 <= i < first.len() && link_from(#[trigger] first[i], min_size, head) == Some(
                    link,
                );
            assert(first.contains(first[i]));
            let j = choose|j: int| 0 <= j < second.len() && second[j] == first[i];
            assert(link_from(second[j], min_size, head) == Some(link));
        }
        if exists|i: int|
            0 <= i < second.len() && link_from(#[trigger] second[i], min_size, head) == Some(link) {
            let i = choose|i: int|
                0 <= i < second.len() && link_from(#[trigger] second[i], min_size, head) == Some(
                    link,
                );
            assert(second.contains(second[i]));
            let j = choose|j: int| 0 <= j < first.len() && first[j] == second[i];
            assert(link_from(first[j], min_size, head) == Some(link));
        }
    }
    assert(ours =~= theirs);
}

/// The index builder's state: both inverted indexes, and the size below which
/// files are left out.
pub struct Index {
    min_size: usize,
    fingerprint_entries: Vec<Entry>,
    directory_entries: Vec<Entry>,
}

impl Index {
    /// The links of the fingerprint-to-directories index, sorted by
    /// fingerprint and then directory.
    pub closed spec fn by_fingerprint(&self) -> Seq<Link> {
        links_of(self.fingerprint_entries@)
    }

    /// The links of the directory-to-fingerprints index, sorted by directory
    /// and then fingerprint.
    pub closed spec fn by_directory(&self) -> Seq<Link> {
        links_of(self.directory_entries@)
    }

    /// The size below which files are left out.
    pub closed spec fn threshold(&self) -> usize {
        self.min_size
    }

    /// Both lists are sorted without repetition and hold the same links.
    pub open spec fn wf(&self) -> bool {
        &&& sorted(self.by_fingerprint(), false)
        &&& sorted(self.by_directory(), true)
        &&& self.by_fingerprint().to_set() == self.by_directory().to_set()
    }

    /// The links held: the pairs of a directory and a fingerprint found in
    /// it.
    pub open spec fn links(&self) -> Set<Link> {
        self.by_fingerprint().to_set()
    }

    /// The fingerprint-to-directories index.
    pub open spec fn hash_index(&self) -> Map<u64, Set<Seq<char>>> {
        hash_index_of(self.by_fingerprint().to_set())
    }

    /// The directory-to-fingerprints index.
    pub open spec fn dir_index(&self) -> Map<Seq<char>, Set<u64>> {
        dir_index_of(self.by_directory().to_set())
    }

    /// An empty index that leaves out files smaller than `min_size`.
    pub fn new(min_size: usize) -> (index: Index)
        ensures
            index.wf(),
            index.threshold() == min_size,
            index.by_fingerprint() == Seq::<Link>::empty(),
            index.by_directory() == Seq::<Link>::empty(),
            index.hash_index() == Map::<u64, Set<Seq<char>>>::empty(),
            index.dir_index() == Map::<Seq<char>, Set<u64>>::empty(),
    {
        let index = Index {
            min_size,
            fingerprint_entries: Vec::new(),
            directory_entries: Vec::new(),
        };
        proof {
            assert(index.by_fingerprint() =~= Seq::<Link>::empty());
            assert(index.by_directory() =~= Seq::<Link>::empty());
            assert(index.hash_index() =~= Map::<u64, Set<Seq<char>>>::empty());
            assert(index.dir_index() =~= Map::<Seq<char>, Set<u64>>::empty());
        }
        index
    }

    /// The size below which files are left out.
    pub fn min_size(&self) -> (n: usize)
        ensures
            n == self.threshold(),
    {
        self.min_size
    }

    /// Whether `directory` is linked to `fingerprint`.
    pub fn contains(&self, directory: &str, fingerprint: u64) -> (found: bool)
        requires
            self.wf(),
        ensures
            found == self.links().contains((directory@, fingerprint)),
            found == members(self.hash_index(), fingerprint).contains(directory@),
            found == members(self.dir_index(), directory@).contains(fingerprint),
    {
        let pos = lower_bound(&self.fingerprint_entries, false, directory, fingerprint);
        let found = pos < self.fingerprint_entries.len() && entry_place(
            false,
            directory,
            fingerprint,
            &self.fingerprint_entries[pos],
        ) == Place::Same;
        proof {
            lemma_found_at_bound(self.by_fingerprint(), false, pos as int, (directory@, fingerprint));
            lemma_members_are_links(self.by_fingerprint().to_set(), directory@, fingerprint);
        }
        found
    }

    /// The two indexes mirror each other: a directory is filed under a
    /// fingerprint exactly when the fingerprint is filed under the directory.
    pub proof fn lemma_indexes_mirror(&self, directory: Seq<char>, fingerprint: u64)
        requires
            self.wf(),
        ensures
            (self.hash_index().contains_key(fingerprint) && self.hash_index()[fingerprint].contains(
                directory,
            )) <==> (self.dir_index().contains_key(directory)
                && self.dir_index()[directory].contains(fingerprint)),
    {
        lemma_members_are_links(self.by_fingerprint().to_set(), directory, fingerprint);
    }

    /// No entry of either index is empty.
    pub proof fn lemma_entries_not_empty(&self, directory: Seq<char>, fingerprint: u64)
        ensures
            self.hash_index().contains_key(fingerprint) ==> exists|d: Seq<char>|
                self.hash_index()[fingerprint].contains(d),
            self.dir_index().contains_key(directory) ==> exists|f: u64|
                self.dir_index()[directory].contains(f),
    {
        if self.hash_index().contains_key(fingerprint) {
            let d = choose|d: Seq<char>| self.by_fingerprint().to_set().contains((d, fingerprint));
            assert(self.hash_index()[fingerprint].contains(d));
        }
        if self.dir_index().contains_key(directory) {
            let f = choose|f: u64| self.by_directory().to_set().contains((directory, f));
            assert(self.dir_index()[directory].contains(f));
        }
    }

    /// The entries of the fingerprint-to-directories index, in their order.
    pub fn fingerprint_links(&self) -> (entries: &Vec<Entry>)
        ensures
            links_of(entries@) == self.by_fingerprint(),
    {
        &self.fingerprint_entries
    }

    /// The number of links held: of pairs of a directory and a fingerprint
    /// found in it.
    pub fn len(&self) -> (n: usize)
        requires
            self.wf(),
        ensures
            n == self.links().len(),
            n == self.by_fingerprint().len(),
            n == self.by_directory().len(),
    {
        proof {
            self.lemma_lists_agree();
        }
        self.fingerprint_entries.len()
    }

    /// The two lists have the same length: that of the set of links.
    pub proof fn lemma_lists_agree(&self)
        requires
            self.wf(),
        ensures
            self.by_fingerprint().len() == self.by_directory().len(),
            self.by_fingerprint().len() == self.by_fingerprint().to_set().len(),
    {
        let first = self.by_fingerprint();
        let second = self.by_directory();
        assert forall|i: int, j: int| 0 <= i < j < first.len() implies first[i] != first[j] by {
            crate::links::lemma_link_lt_irreflexive(false, first[i]);
        }
        assert forall|i: int, j: int| 0 <= i < j < second.len() implies second[i] != second[j] by {
            crate::links::lemma_link_lt_irreflexive(true, second[i]);
        }
        first.unique_seq_to_set();
        second.unique_seq_to_set();
    }

    /// The directories filed under `fingerprint`, in the path order.
    pub fn directories_with(&self, fingerprint: u64) -> (dirs: Vec<String>)
        requires
            self.wf(),
        ensures
            paths_of(dirs@).to_set() == members(self.hash_index(), fingerprint),
            dirs@.len() == members(self.hash_index(), fingerprint).len(),
            forall|i: int, j: int|
                0 <= i < j < dirs@.len() ==> path_lt(
                    #[trigger] paths_of(dirs@)[i],
                    #[trigger] paths_of(dirs@)[j],
                ),
    {
        let (lo, hi) = print_run(&self.fingerprint_entries, fingerprint);
        let ghost links = self.by_fingerprint();
        let ghost run = dirs_between(links, lo as int, hi as int);
        let mut dirs: Vec<String> = Vec::new();
        let mut k: usize = lo;
        while k < hi
            invariant
                lo <= k <= hi <= self.fingerprint_entries@.len(),
                links == links_of(self.fingerprint_entries@),
                run == dirs_between(links, lo as int, hi as int),
                paths_of(dirs@) == run.take(k - lo),
            decreases hi - k,
        {
            dirs.push(self.fingerprint_entries[k].directory.clone());
            proof {
                assert(links[k as int] == self.fingerprint_entries@[k as int]@);
                assert(paths_of(dirs@) =~= run.take(k - lo).push(run[k - lo]));
                assert(run.take(k - lo).push(run[k - lo]) =~= run.take(k - lo + 1));
            }
            k += 1;
        }
        proof {
            assert(run.take(hi - lo) =~= run);
            lemma_print_run_dirs(links, fingerprint, lo as int, hi as int);
            lemma_members_of_indexes(links.to_set(), Seq::<char>::empty(), fingerprint);
            assert forall|i: int, j: int| 0 <= i < j < run.len() implies run[i] != run[j] by {
                crate::order::lemma_path_lt_irreflexive(run[i]);
            }
            run.unique_seq_to_set();
        }
        dirs
    }

    /// The fingerprints filed under `directory`, in increasing order.
    pub fn fingerprints_in(&self, directory: &str) -> (prints: Vec<u64>)
        requires
            self.wf(),
        ensures
            prints@.to_set() == members(self.dir_index(), directory@),
            prints@.len() == members(self.dir_index(), directory@).len(),
            increasing(prints@),
    {
        let (lo, hi) = dir_run(&self.directory_entries, directory);
        let ghost links = self.by_directory();
        let ghost run = prints_between(links, lo as int, hi as int);
        let mut prints: Vec<u64> = Vec::new();
        let mut k: usize = lo;
        while k < hi
            invariant
                lo <= k <= hi <= self.directory_entries@.len(),
                links == links_of(self.directory_entries@),
                run == prints_between(links, lo as int, hi as int),
                prints@ == run.take(k - lo),
            decreases hi - k,
        {
            prints.push(self.directory_entries[k].fingerprint);
            proof {
                assert(links[k as int] == self.directory_entries@[k as int]@);
                assert(prints@ =~= run.take(k - lo).push(run[k - lo]));
                assert(run.take(k - lo).push(run[k - lo]) =~= run.take(k - lo + 1));
            }
            k += 1;
        }
        proof {
            assert(run.take(hi - lo) =~= run);
            lemma_dir_run_prints(links, directory@, lo as int, hi as int);
            lemma_members_of_indexes(links.to_set(), directory@, 0);
            lemma_increasing_len(run);
        }
        prints
    }

    /// The number of fingerprints filed under `directory`; zero where the
    /// directory is absent.
    pub fn fingerprint_count(&self, directory: &str) -> (n: usize)
        requires
            self.wf(),
        ensures
            n == members(self.dir_index(), directory@).len(),
    {
        let (lo, hi) = dir_run(&self.directory_entries, directory);
        proof {
            let links = self.by_directory();
            lemma_dir_run_prints(links, directory@, lo as int, hi as int);
            lemma_members_of_indexes(links.to_set(), directory@, 0);
            lemma_increasing_len(prints_between(links, lo as int, hi as int));
        }
        hi - lo
    }

    /// The number of fingerprints filed under both directories. It is taken
    /// from the whole of the two directories' sets.
    pub fn intersection(&self, a: &str, b: &str) -> (n: usize)
        requires
            self.wf(),
        ensures
            n == shared(self.dir_index(), a@, b@),
    {
        let (a_lo, a_hi) = dir_run(&self.directory_entries, a);
        let (b_lo, b_hi) = dir_run(&self.directory_entries, b);
        let ghost links = self.by_directory();
        let ghost ours = prints_between(links, a_lo as int, a_hi as int);
        let ghost theirs = prints_between(links, b_lo as int, b_hi as int);
        let mut i: usize = a_lo;
        let mut j: usize = b_lo;
        let mut n: usize = 0;
        proof {
            assert(ours.skip(0) =~= ours);
            assert(theirs.skip(0) =~= theirs);
        }
        while i < a_hi && j < b_hi
            invariant
                a_lo <= i <= a_hi <= self.directory_entries@.len(),
                b_lo <= j <= b_hi <= self.directory_entries@.len(),
                links == links_of(self.directory_entries@),
                ours == prints_between(links, a_lo as int, a_hi as int),
                theirs == prints_between(links, b_lo as int, b_hi as int),
                n <= i - a_lo,
                n + common_count(ours.skip(i - a_lo), theirs.skip(j - b_lo)) == common_count(
                    ours,
                    theirs,
                ),
            decreases (a_hi - i) + (b_hi - j),
        {
            let x = self.directory_entries[i].fingerprint;
            let y = self.directory_entries[j].fingerprint;
            proof {
                let left = ours.skip(i - a_lo);
                let right = theirs.skip(j - b_lo);
                assert(links[i as int] == self.directory_entries@[i as int]@);
                assert(links[j as int] == self.directory_entries@[j as int]@);
                assert(left[0] == x && right[0] == y);
                assert(left.drop_first() =~= ours.skip(i - a_lo + 1));
                assert(right.drop_first() =~= theirs.skip(j - b_lo + 1));
            }
            if x < y {
                i += 1;
            } else if x > y {
                j += 1;
            } else {
                n += 1;
                i += 1;
                j += 1;
            }
        }
        proof {
            lemma_dir_run_prints(links, a@, a_lo as int, a_hi as int);
            lemma_dir_run_prints(links, b@, b_lo as int, b_hi as int);
            lemma_members_of_indexes(links.to_set(), a@, 0);
            lemma_members_of_indexes(links.to_set(), b@, 0);
            lemma_common_count(ours, theirs);
        }
        n
    }

    /// Records that `directory` holds a file of `size` bytes with this
    /// `fingerprint`: the directory is filed under the fingerprint and the
    /// fingerprint under the directory, each entry being created where it was
    /// absent. A link that is already there changes nothing.
    pub fn insert(&mut self, directory: &str, size: usize, fingerprint: u64)
        requires
            old(self).wf(),
            size >= old(self).threshold(),
        ensures
            final(self).wf(),
            final(self).threshold() == old(self).threshold(),
            final(self).hash_index() == with_member(
                old(self).hash_index(),
                fingerprint,
                directory@,
            ),
            final(self).dir_index() == with_member(old(self).dir_index(), directory@, fingerprint),
            final(self).links() == old(self).links().insert((directory@, fingerprint)),
    {
        let ghost key = (directory@, fingerprint);
        let ghost links = self.by_fingerprint().to_set();
        let at = lower_bound(&self.fingerprint_entries, false, directory, fingerprint);
        let known = at < self.fingerprint_entries.len() && entry_place(
            false,
            directory,
            fingerprint,
            &self.fingerprint_entries[at],
        ) == Place::Same;
        proof {
            lemma_hash_index_insert(links, directory@, fingerprint);
            lemma_dir_index_insert(links, directory@, fingerprint);
            lemma_found_at_bound(self.by_fingerprint(), false, at as int, key);
        }
        if known {
            proof {
                assert(links.insert(key) =~= links);
            }
            return ;
        }
        let to = lower_bound(&self.directory_entries, true, directory, fingerprint);
        proof {
            lemma_found_at_bound(self.by_directory(), true, to as int, key);
            lemma_insert_sorted(self.by_fingerprint(), false, at as int, key);
            lemma_insert_sorted(self.by_directory(), true, to as int, key);
        }
        let ghost before = *self;
        self.fingerprint_entries.insert(
            at,
            Entry { directory: directory.to_owned(), fingerprint },
        );
        self.directory_entries.insert(to, Entry { directory: directory.to_owned(), fingerprint });
        proof {
            assert(self.by_fingerprint() =~= before.by_fingerprint().insert(at as int, key));
            assert(self.by_directory() =~= before.by_directory().insert(to as int, key));
        }
    }

    /// Offers a discovered file with the checksum of its head. A file smaller
    /// than the minimum size is left out and changes nothing; any other file
    /// is recorded under its directory with its fingerprint. The result says
    /// whether the file was recorded.
    pub fn add_file(&mut self, record: &FileRecord, checksum: u32) -> (indexed: bool)
        requires
            old(self).wf(),
            fingerprint_of(checksum, record.size as nat) <= u64::MAX,
        ensures
            final(self).wf(),
            final(self).threshold() == old(self).threshold(),
            indexed == (record.size >= old(self).threshold()),
            !indexed ==> final(self).hash_index() == old(self).hash_index(),
            !indexed ==> final(self).dir_index() == old(self).dir_index(),
            indexed ==> final(self).hash_index() == with_member(
                old(self).hash_index(),
                fingerprint_of(checksum, record.size as nat) as u64,
                record.directory@,
            ),
            indexed ==> final(self).dir_index() == with_member(
                old(self).dir_index(),
                record.directory@,
                fingerprint_of(checksum, record.size as nat) as u64,
            ),
            final(self).links() == offered(
                old(self).links(),
                old(self).threshold() as nat,
                record.directory@,
                record.size as nat,
                checksum,
            ),
    {
        if record.size < self.min_size {
            return false;
        }
        let print = fingerprint(checksum, record.size);
        self.insert(record.directory.as_str(), record.size, print);
        true
    }
}

/// Offers the files of a scan to the index in turn. For each file that was
/// read and is not smaller than the index's minimum size, the checksum of the
/// first `head` bytes of its content (of all of it when `head` is zero) is
/// combined with its size, and the file's directory is linked to that
/// fingerprint. Other files are skipped.
pub fn load_files_info(files: &Vec<ScannedFile>, head: usize, index: &mut Index)
    requires
        old(index).wf(),
        forall|i: int|
            0 <= i < files@.len() ==> (#[trigger] files@[i]).record.size + u32::MAX <= u64::MAX,
    ensures
        final(index).wf(),
        final(index).threshold() == old(index).threshold(),
        final(index).links() == links_after(
            old(index).links(),
            old(index).threshold() as nat,
            head as nat,
            files@,
        ),
{
    let mut i: usize = 0;
    while i < files.len()
        invariant
            i <= files@.len(),
            index.wf(),
            index.threshold() == old(index).threshold(),
            forall|i: int|
                0 <= i < files@.len() ==> (#[trigger] files@[i]).record.size + u32::MAX
                    <= u64::MAX,
            index.links() == links_after(
                old(index).links(),
                old(index).threshold() as nat,
                head as nat,
                files@.take(i as int),
            ),
        decreases files@.len() - i,
    {
        let file = &files[i];
        proof {
            assert(files@.take(i + 1).drop_last() =~= files@.take(i as int));
            assert(files@.take(i + 1).last() == files@[i as int]);
        }
        match &file.content {
            Some(content) => {
                if file.record.size >= index.min_size() {
                    let checksum = get_crc32_checksum(content.as_slice(), head);
                    index.add_file(&file.record, checksum);
                }
            },
            None => {},
        }
        i += 1;
    }
    proof {
        assert(files@.take(files@.len() as int) =~= files@);
    }
}

} // verus!
