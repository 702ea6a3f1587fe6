//! File fingerprints: a CRC-32 checksum of a file's leading bytes, combined
//! with the file's size.
//!
//! The checksum itself is computed by the `crc32fast` crate. What this module
//! assumes of that crate's hasher is stated on the three
//! `assume_specification` items below; everything else here is proved from
//! them.

use vstd::prelude::*;
use vstd::slice::slice_subrange;
use crc32fast::Hasher;

verus! {

/// The size of the buffer through which a file is read.
pub const BUF_SIZE: usize = 1024;

/// `crc32fast::Hasher`, an in-progress CRC-32 computation. Nothing of its
/// inside is known here but what the two names below stand for.
#[verifier::external_type_specification]
#[verifier::external_body]
pub struct ExHasher(crc32fast::Hasher);

/// The CRC-32 (IEEE) checksum of a byte string, as `crc32fast` computes it.
pub uninterp spec fn crc32(bytes: Seq<u8>) -> u32;

/// The checksum that a hasher holds.
pub uninterp spec fn hasher_sum(hasher: Hasher) -> u32;

/// The number of bytes that a hasher has counted.
pub uninterp spec fn hasher_len(hasher: Hasher) -> u64;

/// `crc32fast::Hasher::new`: a fresh hasher holds the checksum of the empty
/// byte string and has counted nothing.
pub assume_specification[ Hasher::new ]() -> (hasher: Hasher)
    ensures
        hasher_sum(hasher) == crc32(Seq::<u8>::empty()),
        hasher_len(hasher) == 0,
;

/// `crc32fast::Hasher::update`: a hasher that held the checksum of some byte
/// string holds, after processing `buf`, the checksum of that string followed
/// by `buf`. It adds the length of `buf` to its count, which is a `u64`: the
/// sum must fit in one.
pub assume_specification[ Hasher::update ](hasher: &mut Hasher, buf: &[u8])
    requires
        hasher_len(*old(hasher)) + buf@.len() <= u64::MAX,
    ensures
        hasher_len(*final(hasher)) == hasher_len(*old(hasher)) + buf@.len(),
        forall|before: Seq<u8>|
            hasher_sum(*old(hasher)) == #[trigger] crc32(before) ==> hasher_sum(*final(hasher))
                == crc32(before + buf@),
;

/// `crc32fast::Hasher::finalize`: the result is the checksum that the hasher
/// holds.
pub assume_specification[ Hasher::finalize ](hasher: Hasher) -> (sum: u32)
    ensures
        sum == hasher_sum(hasher),
;

/// The number of leading bytes of a stream that a head budget admits: `head`
/// itself, or, when `head` is zero, as many as a hasher can count.
pub open spec fn head_limit(head: nat) -> nat {
    if head == 0 {
        u64::MAX as nat
    } else {
        head
    }
}

/// The first `n` bytes of `content`, or all of it when it is shorter.
pub open spec fn leading(content: Seq<u8>, n: nat) -> Seq<u8> {
    if content.len() <= n {
        content
    } else {
        content.take(n as int)
    }
}

/// The leading bytes of `content` that count towards its checksum under the
/// head budget `head`: the first `head` bytes, or all of them when `head` is
/// zero or the content is shorter.
pub open spec fn head_prefix(content: Seq<u8>, head: nat) -> Seq<u8> {
    leading(content, head_limit(head))
}

/// The number of bytes to read next when `room` bytes may still be hashed: a
/// buffer's worth, or the room where that is less.
pub open spec fn next_read(room: nat) -> nat {
    if room < BUF_SIZE as nat {
        room
    } else {
        BUF_SIZE as nat
    }
}

/// The fingerprint of a file: its checksum widened, plus its size.
pub open spec fn fingerprint_of(checksum: u32, filesize: nat) -> nat {
    checksum as nat + filesize
}

/// An in-progress checksum of the head of one stream, fed chunk by chunk.
pub struct Checksummer {
    hasher: Hasher,
    budget: usize,
    taken: u64,
    consumed: Ghost<Seq<u8>>,
}

impl Checksummer {
    /// The bytes hashed so far.
    pub closed spec fn consumed(&self) -> Seq<u8> {
        self.consumed@
    }

    /// The head budget this checksummer was made with; zero means no budget.
    pub closed spec fn budget(&self) -> nat {
        self.budget as nat
    }

    /// The number of bytes that may still be hashed.
    pub open spec fn room(&self) -> nat {
        (head_limit(self.budget()) - self.consumed().len()) as nat
    }

    /// The hasher holds the checksum of what was hashed, the counters agree
    /// with it, and the budget was not exceeded.
    pub closed spec fn wf(&self) -> bool {
        &&& hasher_sum(self.hasher) == crc32(self.consumed@)
        &&& hasher_len(self.hasher) == self.taken
        &&& self.taken as nat == self.consumed@.len()
        &&& self.taken as nat <= head_limit(self.budget as nat)
    }

    /// Starts a checksum that covers at most `budget` bytes, or the whole
    /// stream when `budget` is zero.
    pub fn new(budget: usize) -> (ck: Checksummer)
        ensures
            ck.wf(),
            ck.budget() == budget as nat,
            ck.consumed() == Seq::<u8>::empty(),
    {
        Checksummer { hasher: Hasher::new(), budget, taken: 0, consumed: Ghost(Seq::empty()) }
    }

    /// The number of bytes to ask the stream for next: a buffer's worth, or
    /// less when the budget is nearly used up. Zero means the checksum needs
    /// no more input.
    pub fn wanted(&self) -> (n: usize)
        requires
            self.wf(),
        ensures
            n as nat == next_read(self.room()),
    {
        let limit: u64 = if self.budget == 0 {
            u64::MAX
        } else {
            self.budget as u64
        };
        let room: u64 = limit - self.taken;
        if room < BUF_SIZE as u64 {
            room as usize
        } else {
            BUF_SIZE
        }
    }

    /// Hashes the next chunk of the stream, as far as the budget allows: the
    /// first `room()` bytes of it at most.
    pub fn feed(&mut self, chunk: &[u8])
        requires
            old(self).wf(),
        ensures
            final(self).wf(),
            final(self).budget() == old(self).budget(),
            final(self).consumed() == old(self).consumed() + leading(chunk@, old(self).room()),
    {
        let limit: u64 = if self.budget == 0 {
            u64::MAX
        } else {
            self.budget as u64
        };
        let room: u64 = limit - self.taken;
        if chunk.len() as u64 <= room {
            self.hasher.update(chunk);
            self.taken = self.taken + chunk.len() as u64;
            self.consumed = Ghost(self.consumed@ + chunk@);
        } else {
            let part = slice_subrange(chunk, 0, room as usize);
            self.hasher.update(part);
            self.taken = limit;
            self.consumed = Ghost(self.consumed@ + part@);
        }
    }

    /// Ends the checksum.
    pub fn finish(self) -> (sum: u32)
        requires
            self.wf(),
        ensures
            sum == crc32(self.consumed()),
    {
        self.hasher.finalize()
    }
}

/// Feeding a stream in two parts hashes the same bytes as feeding it whole:
/// what the budget admits of `first`, followed by what the remaining room
/// admits of `second`, is what the budget admits of the two joined.
pub proof fn lemma_head_prefix_append(first: Seq<u8>, second: Seq<u8>, head: nat)
    ensures
        head_prefix(first + second, head) == head_prefix(first, head) + leading(
            second,
            (head_limit(head) - head_prefix(first, head).len()) as nat,
        ),
{
    let limit = head_limit(head) as int;
    let whole = first + second;
    if first.len() >= limit {
        assert(whole.take(limit) =~= first.take(limit));
        assert(leading(second, 0) =~= Seq::<u8>::empty());
        assert(head_prefix(first, head) + Seq::<u8>::empty() =~= head_prefix(first, head));
    } else if whole.len() > limit {
        assert(whole.take(limit) =~= first + second.take(limit - first.len()));
    }
}

/// The checksum of the head of `content`: of its first `read_first_bytes`
/// bytes, or of all of it when `read_first_bytes` is zero. The content is
/// hashed a buffer at a time.
pub fn get_crc32_checksum(content: &[u8], read_first_bytes: usize) -> (sum: u32)
    ensures
        sum == crc32(head_prefix(content@, read_first_bytes as nat)),
{
    let mut ck = Checksummer::new(read_first_bytes);
    let mut pos: usize = 0;
    loop
        invariant
            ck.wf(),
            ck.budget() == read_first_bytes as nat,
            pos <= content@.len(),
            ck.consumed() == head_prefix(content@.take(pos as int), read_first_bytes as nat),
        ensures
            ck.wf(),
            ck.consumed() == head_prefix(content@, read_first_bytes as nat),
        decreases content@.len() - pos,
    {
        let want = ck.wanted();
        let left = content.len() - pos;
        let n = if left < want {
            left
        } else {
            want
        };
        if n == 0 {
            proof {
                lemma_head_prefix_append(
                    content@.take(pos as int),
                    content@.skip(pos as int),
                    read_first_bytes as nat,
                );
                assert(content@.take(pos as int) + content@.skip(pos as int) =~= content@);
                if left == 0 {
                    assert(content@.skip(pos as int) =~= Seq::<u8>::empty());
                }
            }
            break ;
        }
        let chunk = slice_subrange(content, pos, pos + n);
        proof {
            lemma_head_prefix_append(content@.take(pos as int), chunk@, read_first_bytes as nat);
            assert(content@.take(pos as int) + chunk@ =~= content@.take(pos + n));
        }
        ck.feed(chunk);
        pos = pos + n;
    }
    ck.finish()
}

/// Combines a checksum with a file's size into the file's fingerprint.
pub fn fingerprint(checksum: u32, filesize: usize) -> (print: u64)
    requires
        fingerprint_of(checksum, filesize as nat) <= u64::MAX,
    ensures
        print as nat == fingerprint_of(checksum, filesize as nat),
{
    checksum as u64 + filesize as u64
}

/// The fingerprint of a file of `filesize` bytes whose content begins with
/// `content`: the checksum of the first `read_first_bytes` bytes of the
/// content (of all of it when `read_first_bytes` is zero), plus `filesize`.
pub fn get_hash(content: &[u8], filesize: usize, read_first_bytes: usize) -> (print: u64)
    requires
        filesize + u32::MAX <= u64::MAX,
    ensures
        print as nat == fingerprint_of(
            crc32(head_prefix(content@, read_first_bytes as nat)),
            filesize as nat,
        ),
{
    let checksum = get_crc32_checksum(content, read_first_bytes);
    fingerprint(checksum, filesize)
}

/// Two contents that agree on their first `head` bytes have the same
/// checksum under the head budget `head`, whatever follows those bytes; with
/// equal sizes, the two files have the same fingerprint.
pub proof fn lemma_same_head_same_fingerprint(
    first: Seq<u8>,
    second: Seq<u8>,
    head: nat,
    filesize: nat,
)
    requires
        0 < head <= first.len(),
        head <= second.len(),
        first.take(head as int) == second.take(head as int),
    ensures
        head_prefix(first, head) == head_prefix(second, head),
        crc32(head_prefix(first, head)) == crc32(head_prefix(second, head)),
        fingerprint_of(crc32(head_prefix(first, head)), filesize) == fingerprint_of(
            crc32(head_prefix(second, head)),
            filesize,
        ),
{
    assert(first.len() == head ==> first =~= first.take(head as int));
    assert(second.len() == head ==> second =~= second.take(head as int));
}

} // verus!
