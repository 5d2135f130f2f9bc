//! The state that the pool keeps.

use crate::bytes::be_value;
use crate::bytes::digest_eq;
use crate::bytes::is_zero;
use crate::bytes::lemma_be_zero;
use crate::bytes::zero_bytes;
use crate::groth16::VerifyingKey;
use vstd::prelude::*;

verus! {

/// Number of recent Merkle roots retained, so that a proof made against a
/// slightly stale tree still verifies.
pub const ROOT_HISTORY_SIZE: usize = 32;

#[derive(Clone, Debug, PartialEq, Eq)]
pub struct Pool {
    /// The key of the account that set the pool up.
    pub authority: [u8; 32],
    /// Fixed deposit and withdrawal amount in lamports, the same for all notes.
    pub denomination: u64,
    /// Next leaf index to be written, also the count of inserted commitments.
    pub next_leaf_index: u32,
    /// Ring-buffer cursor into `roots`.
    pub root_index: u8,
    /// Most recently computed root, the same as `roots[root_index]`.
    pub current_root: [u8; 32],
    /// Ring buffer of recent roots.
    pub roots: [[u8; 32]; ROOT_HISTORY_SIZE],
    /// Groth16 verifying key for withdrawal proofs.
    pub verifying_key: VerifyingKey,
    pub vault_bump: u8,
    pub bump: u8,
}

impl Pool {
    /// The bytes that a stored pool takes.
    pub const SIZE: usize = 32 + 8 + 4 + 1 + 32 + (32 * ROOT_HISTORY_SIZE) + VerifyingKey::SIZE + 1
        + 1;

    /// `self` is `pre` with `root` pushed into the ring buffer.
    pub open spec fn is_push(self, pre: Pool, root: [u8; 32]) -> bool {
        let cursor = (pre.root_index + 1) % (ROOT_HISTORY_SIZE as int);
        &&& self.roots@ == pre.roots@.update(cursor, root)
        &&& self == (Pool {
            root_index: cursor as u8,
            roots: self.roots,
            current_root: root,
            ..pre
        })
    }

    /// `root` is in the ring buffer and is not the all-zero filler of a slot that
    /// was never written.
    pub open spec fn knows(self, root: Seq<u8>) -> bool {
        &&& root != zero_bytes(32)
        &&& exists|i: int| 0 <= i < ROOT_HISTORY_SIZE && #[trigger] self.roots@[i]@ == root
    }

    /// How many pushes ago slot `i` was last written, if it was written at all.
    pub open spec fn age(self, i: int) -> int {
        (self.root_index - i) % (ROOT_HISTORY_SIZE as int)
    }

    /// The ring buffer holds the newest roots of `history`, which lists all roots
    /// since the pool was set up, oldest first; a slot that was never written
    /// holds zeros.
    pub open spec fn tracks(self, history: Seq<Seq<u8>>) -> bool {
        &&& history.len() > 0
        &&& self.root_index == (history.len() - 1) % (ROOT_HISTORY_SIZE as int)
        &&& self.current_root@ == history.last()
        &&& forall|i: int|
            #![trigger self.roots@[i]]
            0 <= i < ROOT_HISTORY_SIZE ==> self.roots@[i]@ == if self.age(i) < history.len() {
                history[history.len() - 1 - self.age(i)]
            } else {
                zero_bytes(32)
            }
    }

    /// Pushes a freshly computed root into the ring buffer.
    pub fn push_root(&mut self, root: [u8; 32])
        ensures
            final(self).is_push(*old(self), root),
            final(self).root_index == (old(self).root_index + 1) % 32,
            final(self).roots@ == old(self).roots@.update(final(self).root_index as int, root),
            final(self).current_root == root,
            forall|history: Seq<Seq<u8>>| #[trigger]
                old(self).tracks(history) ==> final(self).tracks(history.push(root@)),
    {
        self.root_index = ((self.root_index as usize + 1) % ROOT_HISTORY_SIZE) as u8;
        self.roots[self.root_index as usize] = root;
        self.current_root = root;
        proof {
            assert forall|history: Seq<Seq<u8>>| #[trigger] old(self).tracks(history) implies
                self.tracks(history.push(root@)) by {
                law_push_tracks(*old(self), *self, history, root);
            }
        }
    }

    /// Is `root` one of the recent roots that proofs are still accepted against?
    pub fn is_known_root(&self, root: &[u8; 32]) -> (known: bool)
        ensures
            known == self.knows(root@),
            known <==> {
                &&& be_value(root@) != 0
                &&& exists|i: int| 0 <= i < ROOT_HISTORY_SIZE && #[trigger] self.roots@[i] == *root
            },
    {
        proof {
            law_known_root_is_in_a_slot(*self, *root);
        }
        if is_zero(root) {
            return false;
        }
        let mut i: usize = 0;
        while i < ROOT_HISTORY_SIZE
            invariant
                i <= ROOT_HISTORY_SIZE,
                root@ != zero_bytes(32),
                forall|j: int| 0 <= j < i ==> #[trigger] self.roots@[j]@ != root@,
            decreases ROOT_HISTORY_SIZE - i,
        {
            if digest_eq(&self.roots[i], root) {
                proof {
                    assert(self.roots@[i as int]@ == root@);
                    law_known_root_is_in_a_slot(*self, *root);
                }
                return true;
            }
            i += 1;
        }
        false
    }
}

/// One push moves the cursor on by one, and makes every other slot older by one.
proof fn lemma_ages(count: int, cursor: int, next: int, i: int)
    requires
        0 <= count,
        cursor == count % 32,
        next == (cursor + 1) % 32,
        0 <= i < 32,
    ensures
        next == (count + 1) % 32,
        i == next ==> (next - i) % 32 == 0,
        i != next ==> (next - i) % 32 == (cursor - i) % 32 + 1,
{
}

/// Law: a push adds the newest root and keeps the order of the others.
pub proof fn law_push_tracks(pre: Pool, post: Pool, history: Seq<Seq<u8>>, root: [u8; 32])
    requires
        pre.tracks(history),
        post.is_push(pre, root),
    ensures
        post.tracks(history.push(root@)),
{
    let all = history.push(root@);
    let n = history.len() as int;
    let cursor = pre.root_index as int;
    let next = post.root_index as int;
    lemma_ages(n - 1, cursor, next, 0);
    assert forall|i: int|
        #![trigger post.roots@[i]]
        0 <= i < ROOT_HISTORY_SIZE implies post.roots@[i]@ == if post.age(i) < all.len() {
        all[all.len() - 1 - post.age(i)]
    } else {
        zero_bytes(32)
    } by {
        lemma_ages(n - 1, cursor, next, i);
        if i == next {
            assert(post.roots@[i] == root);
            assert(post.age(i) == 0);
        } else {
            assert(post.roots@[i] == pre.roots@[i]);
            assert(post.age(i) == pre.age(i) + 1);
        }
    }
}

/// Law: a push moves the cursor on by one, wrapping at the end, writes the root
/// there and as the current root, and leaves every other slot and all other fields
/// as they are.
pub proof fn law_push_writes_one_slot(pre: Pool, post: Pool, root: [u8; 32], i: int)
    requires
        post.is_push(pre, root),
        0 <= i < ROOT_HISTORY_SIZE,
    ensures
        post.root_index < ROOT_HISTORY_SIZE,
        (post.root_index - pre.root_index - 1) % (ROOT_HISTORY_SIZE as int) == 0,
        i == post.root_index ==> post.roots@[i] == root,
        i != post.root_index ==> post.roots@[i] == pre.roots@[i],
        post.current_root == root,
        post.authority == pre.authority,
        post.denomination == pre.denomination,
        post.next_leaf_index == pre.next_leaf_index,
        post.verifying_key == pre.verifying_key,
        post.vault_bump == pre.vault_bump,
        post.bump == pre.bump,
{
}

/// Law: the pool knows a root in every slot but an all-zero one, and no root that is
/// in none.
pub proof fn law_slots_are_known(pool: Pool, root: Seq<u8>)
    ensures
        be_value(root) == 0 && root.len() == 32 ==> !pool.knows(root),
        forall|i: int|
            0 <= i < ROOT_HISTORY_SIZE && be_value(root) != 0 && #[trigger] pool.roots@[i]@ == root
                ==> pool.knows(root),
        (forall|i: int| 0 <= i < ROOT_HISTORY_SIZE ==> #[trigger] pool.roots@[i]@ != root)
            ==> !pool.knows(root),
{
    lemma_be_zero(root);
    lemma_be_zero(zero_bytes(32));
}

/// Law: a root is known exactly if it is not zero and stands in one of the slots.
pub proof fn law_known_root_is_in_a_slot(pool: Pool, root: [u8; 32])
    ensures
        pool.knows(root@) <==> {
            &&& be_value(root@) != 0
            &&& exists|i: int| 0 <= i < ROOT_HISTORY_SIZE && #[trigger] pool.roots@[i] == root
        },
{
    law_slots_are_known(pool, root@);
    if pool.knows(root@) {
        let i = choose|i: int|
            0 <= i < ROOT_HISTORY_SIZE && #[trigger] pool.roots@[i]@ == root@;
        assert(pool.roots@[i] =~= root);
        lemma_be_zero(root@);
    }
}

/// Law: the current root is the one at the cursor.
pub proof fn law_current_root_at_cursor(pool: Pool, history: Seq<Seq<u8>>)
    requires
        pool.tracks(history),
    ensures
        pool.root_index < ROOT_HISTORY_SIZE,
        pool.current_root == pool.roots@[pool.root_index as int],
{
    let cursor = pool.root_index as int;
    assert(pool.roots@[cursor]@ == history.last());
    assert(pool.current_root =~= pool.roots@[cursor]);
}

/// Law: the known roots are the newest `ROOT_HISTORY_SIZE` roots of the history,
/// without the all-zero one. Older roots have expired.
pub proof fn law_known_roots(pool: Pool, history: Seq<Seq<u8>>, root: Seq<u8>)
    requires
        pool.tracks(history),
    ensures
        pool.knows(root) <==> {
            &&& root != zero_bytes(32)
            &&& exists|n: int|
                history.len() - ROOT_HISTORY_SIZE <= n < history.len() && 0 <= n
                    && #[trigger] history[n] == root
        },
{
    let count = history.len() as int;
    if pool.knows(root) {
        let i = choose|i: int| 0 <= i < ROOT_HISTORY_SIZE && #[trigger] pool.roots@[i]@ == root;
        assert(pool.roots@[i]@ == root);
        assert(pool.age(i) < count);
        assert(history[count - 1 - pool.age(i)] == root);
    }
    if root != zero_bytes(32) && exists|n: int|
        count - ROOT_HISTORY_SIZE <= n < count && 0 <= n && #[trigger] history[n] == root {
        let n = choose|n: int|
            count - ROOT_HISTORY_SIZE <= n < count && 0 <= n && #[trigger] history[n] == root;
        let i = n % 32;
        lemma_slot_age(count - 1, n);
        assert(pool.age(i) == count - 1 - n);
        assert(pool.roots@[i]@ == root);
    }
}

/// The slot of push `n` is as old as the push, while it has not been overwritten.
proof fn lemma_slot_age(newest: int, n: int)
    requires
        0 <= n <= newest,
        newest - n < 32,
    ensures
        (newest % 32 - n % 32) % 32 == newest - n,
{
}

/// A spent-note marker. Its mere existence under the nullifier hash shows that
/// the note was already withdrawn.
#[derive(Clone, Debug, PartialEq, Eq)]
pub struct Nullifier {
    pub hash: [u8; 32],
    pub spent: bool,
}

impl Nullifier {
    /// The bytes that a stored marker takes.
    pub const SIZE: usize = 32 + 1;
}

} // verus!
