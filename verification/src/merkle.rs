//! The incremental Merkle tree of note commitments.

use crate::bytes::join_bytes;
use crate::errors::ShieldedError;
use crate::keccak::keccak256;
use crate::keccak::keccak256_digest;
use vstd::arithmetic::div_mod::lemma_div_denominator;
use vstd::arithmetic::power2::lemma2_to64;
use vstd::arithmetic::power2::lemma_pow2_pos;
use vstd::arithmetic::power2::lemma_pow2_unfold;
use vstd::arithmetic::power2::pow2;
use vstd::prelude::*;

verus! {

/// Tree depth. 20 levels hold up to 2^20 (1,048,576) notes.
pub const TREE_DEPTH: usize = 20;

/// The number of leaves of a tree of depth `TREE_DEPTH`.
pub const MAX_LEAVES: u64 = 1_048_576;

/// The bytes of `shielded_pool:zero`, whose hash is the empty leaf.
pub const ZERO_LEAF_TAG: [u8; 18] = [
    0x73, 0x68, 0x69, 0x65, 0x6c, 0x64, 0x65, 0x64, 0x5f, 0x70, 0x6f, 0x6f, 0x6c, 0x3a,
    0x7a, 0x65, 0x72, 0x6f,
];

/// The value of an empty leaf.
pub open spec fn zero_leaf_digest() -> Seq<u8> {
    keccak256_digest(ZERO_LEAF_TAG@)
}

/// The digest of an inner node with children `left` and `right`.
pub open spec fn pair_digest(left: Seq<u8>, right: Seq<u8>) -> Seq<u8> {
    keccak256_digest(left + right)
}

/// The node that lies `level` levels above leaf `leaf`.
pub open spec fn ancestor(leaf: nat, level: nat) -> nat
    decreases level,
{
    if level == 0 {
        leaf
    } else {
        ancestor(leaf, (level - 1) as nat) / 2
    }
}

/// The digest of node `index` of level `level` in the tree whose first leaves
/// are `leaves` and whose other leaves are empty. Level 0 holds the leaves.
pub open spec fn node(leaves: Seq<Seq<u8>>, level: nat, index: nat) -> Seq<u8>
    decreases level,
{
    if level == 0 {
        if index < leaves.len() {
            leaves[index as int]
        } else {
            zero_leaf_digest()
        }
    } else {
        pair_digest(
            node(leaves, (level - 1) as nat, 2 * index),
            node(leaves, (level - 1) as nat, 2 * index + 1),
        )
    }
}

/// The root of the tree whose first leaves are `leaves` and whose other leaves
/// are empty.
pub open spec fn merkle_root(leaves: Seq<Seq<u8>>) -> Seq<u8> {
    node(leaves, TREE_DEPTH as nat, 0)
}

/// The root of an empty subtree of height `level`.
pub open spec fn empty_subtree(level: nat) -> Seq<u8> {
    node(Seq::empty(), level, 0)
}

/// The left child on level `level` that the newest of `count` leaves lies under
/// or beside.
pub open spec fn newest_left(count: nat, level: nat) -> nat {
    if count == 0 {
        0
    } else {
        2 * ancestor((count - 1) as nat, level + 1)
    }
}

/// An incremental (append-only) Merkle tree.
///
/// It stores, of each level, only the left node that the next leaf may need as
/// a sibling, so an insertion takes time and space in the order of the depth.
#[derive(Clone, Debug, PartialEq, Eq)]
pub struct MerkleTree {
    pub next_index: u32,
    pub filled_subtrees: [[u8; 32]; TREE_DEPTH],
    pub zeros: [[u8; 32]; TREE_DEPTH],
    pub root: [u8; 32],
}

impl MerkleTree {
    /// The bytes that a stored tree takes.
    pub const SIZE: usize = 4 + (32 * TREE_DEPTH) + (32 * TREE_DEPTH) + 32;

    /// This is the tree of exactly `leaves`, in the order of their insertion.
    pub open spec fn represents(self, leaves: Seq<Seq<u8>>) -> bool {
        &&& leaves.len() <= MAX_LEAVES
        &&& self.next_index == leaves.len()
        &&& self.root@ == merkle_root(leaves)
        &&& forall|level: int|
            #![trigger self.zeros@[level]]
            0 <= level < TREE_DEPTH ==> self.zeros@[level]@ == empty_subtree(level as nat)
        &&& forall|level: int|
            #![trigger self.filled_subtrees@[level]]
            0 <= level < TREE_DEPTH ==> self.filled_subtrees@[level]@ == node(
                leaves,
                level as nat,
                newest_left(leaves.len(), level as nat),
            )
    }

    /// The digest on level `level` of the path from `leaf`, put at the next
    /// index, to the root. A left child is paired with an empty subtree, a right
    /// child with the stored left sibling.
    pub open spec fn path_digest(self, leaf: Seq<u8>, level: nat) -> Seq<u8>
        decreases level,
    {
        if level == 0 {
            leaf
        } else {
            let below = (level - 1) as nat;
            let digest = self.path_digest(leaf, below);
            if ancestor(self.next_index as nat, below) % 2 == 0 {
                pair_digest(digest, self.zeros@[below as int]@)
            } else {
                pair_digest(self.filled_subtrees@[below as int]@, digest)
            }
        }
    }

    /// `self` is `pre` after the insertion of `leaf`.
    pub open spec fn is_insertion(self, pre: MerkleTree, leaf: Seq<u8>) -> bool {
        &&& self.next_index == pre.next_index + 1
        &&& self.zeros == pre.zeros
        &&& self.root@ == pre.path_digest(leaf, TREE_DEPTH as nat)
        &&& forall|level: int|
            #![trigger self.filled_subtrees@[level]]
            0 <= level < TREE_DEPTH ==> self.filled_subtrees@[level]@ == if ancestor(
                pre.next_index as nat,
                level as nat,
            ) % 2 == 0 {
                pre.path_digest(leaf, level as nat)
            } else {
                pre.filled_subtrees@[level]@
            }
    }

    /// Makes this the empty tree.
    pub fn init(&mut self)
        ensures
            final(self).represents(Seq::empty()),
    {
        let mut current = zero_leaf();
        let mut level: usize = 0;
        while level < TREE_DEPTH
            invariant
                level <= TREE_DEPTH,
                current@ == empty_subtree(level as nat),
                forall|l: int|
                    #![trigger self.zeros@[l]]
                    0 <= l < level ==> self.zeros@[l]@ == empty_subtree(l as nat),
                forall|l: int|
                    #![trigger self.filled_subtrees@[l]]
                    0 <= l < level ==> self.filled_subtrees@[l]@ == empty_subtree(l as nat),
            decreases TREE_DEPTH - level,
        {
            self.zeros[level] = current;
            self.filled_subtrees[level] = current;
            current = hash_pair(&current, &current);
            proof {
                lemma_empty_node(Seq::empty(), level as nat, 1);
            }
            level += 1;
        }
        self.next_index = 0;
        self.root = current;
    }

    /// The root of the tree.
    pub fn current_root(&self) -> (root: [u8; 32])
        ensures
            root == self.root,
    {
        self.root
    }

    /// The two children, left and right, of the node over node `index` of level
    /// `level`, where that node holds `digest`: a left child still has an empty
    /// subtree to its right, and a right child the stored node to its left.
    pub fn children(&self, level: usize, index: u32, digest: [u8; 32]) -> (pair: (
        [u8; 32],
        [u8; 32],
    ))
        requires
            level < TREE_DEPTH,
        ensures
            pair == if index % 2 == 0 {
                (digest, self.zeros@[level as int])
            } else {
                (self.filled_subtrees@[level as int], digest)
            },
    {
        if index % 2 == 0 {
            (digest, self.zeros[level])
        } else {
            (self.filled_subtrees[level], digest)
        }
    }

    /// Appends a leaf and returns its index. A full tree refuses it and stays as
    /// it is.
    pub fn insert(&mut self, leaf: [u8; 32]) -> (index: Result<u64, ShieldedError>)
        ensures
            match index {
                Ok(i) => {
                    &&& old(self).next_index < MAX_LEAVES
                    &&& i == old(self).next_index
                    &&& final(self).is_insertion(*old(self), leaf@)
                },
                Err(e) => {
                    &&& old(self).next_index >= MAX_LEAVES
                    &&& e == ShieldedError::TreeFull
                    &&& *final(self) == *old(self)
                },
            },
            forall|leaves: Seq<Seq<u8>>| #[trigger]
                old(self).represents(leaves) && index is Ok ==> final(self).represents(
                    leaves.push(leaf@),
                ),
    {
        let index = self.next_index;
        if index as u64 >= MAX_LEAVES {
            return Err(ShieldedError::TreeFull);
        }
        let mut current_index: u32 = index;
        let mut current_hash = leaf;
        let mut level: usize = 0;
        while level < TREE_DEPTH
            invariant
                level <= TREE_DEPTH,
                index < MAX_LEAVES,
                self.next_index == index,
                index == old(self).next_index,
                self.root == old(self).root,
                self.zeros == old(self).zeros,
                current_index == ancestor(index as nat, level as nat),
                current_hash@ == old(self).path_digest(leaf@, level as nat),
                forall|l: int|
                    #![trigger self.filled_subtrees@[l]]
                    0 <= l < level ==> self.filled_subtrees@[l]@ == if ancestor(
                        index as nat,
                        l as nat,
                    ) % 2 == 0 {
                        old(self).path_digest(leaf@, l as nat)
                    } else {
                        old(self).filled_subtrees@[l]@
                    },
                forall|l: int|
                    #![trigger self.filled_subtrees@[l]]
                    level <= l < TREE_DEPTH ==> self.filled_subtrees@[l] == old(
                        self,
                    ).filled_subtrees@[l],
            decreases TREE_DEPTH - level,
        {
            let (left, right) = self.children(level, current_index, current_hash);
            if current_index % 2 == 0 {
                self.filled_subtrees[level] = current_hash;
            }
            current_hash = hash_pair(&left, &right);
            current_index = current_index / 2;
            level += 1;
        }
        self.root = current_hash;
        self.next_index = index + 1;
        proof {
            assert forall|leaves: Seq<Seq<u8>>| #[trigger] old(self).represents(leaves) implies
                self.represents(leaves.push(leaf@)) by {
                law_insertion_appends(*old(self), *self, leaves, leaf@);
            }
        }
        Ok(index as u64)
    }
}

/// A node to the right of the one over the newest leaf is an empty subtree.
proof fn lemma_empty_node(leaves: Seq<Seq<u8>>, level: nat, index: nat)
    requires
        leaves.len() == 0 || index > ancestor((leaves.len() - 1) as nat, level),
    ensures
        node(leaves, level, index) == empty_subtree(level),
    decreases level,
{
    if level > 0 {
        let below = (level - 1) as nat;
        lemma_empty_node(leaves, below, 2 * index);
        lemma_empty_node(leaves, below, 2 * index + 1);
        lemma_empty_node(Seq::empty(), below, 1);
    }
}

/// A new leaf changes only the nodes over it.
proof fn lemma_other_node(leaves: Seq<Seq<u8>>, leaf: Seq<u8>, level: nat, index: nat)
    requires
        index != ancestor(leaves.len(), level),
    ensures
        node(leaves.push(leaf), level, index) == node(leaves, level, index),
    decreases level,
{
    if level > 0 {
        let below = (level - 1) as nat;
        lemma_other_node(leaves, leaf, below, 2 * index);
        lemma_other_node(leaves, leaf, below, 2 * index + 1);
    }
}

/// Neighbouring leaves have the same or neighbouring nodes over them.
proof fn lemma_neighbours(leaf: nat, level: nat)
    requires
        leaf > 0,
    ensures
        ({
            let left = ancestor((leaf - 1) as nat, level);
            let right = ancestor(leaf, level);
            left == right || left + 1 == right
        }),
    decreases level,
{
    if level > 0 {
        lemma_neighbours(leaf, (level - 1) as nat);
    }
}

/// Every leaf of the tree lies under the root.
proof fn lemma_root_over_all(leaf: nat)
    requires
        leaf < MAX_LEAVES,
    ensures
        ancestor(leaf, TREE_DEPTH as nat) == 0,
{
    reveal_with_fuel(ancestor, 21);
}

proof fn lemma_ancestor_of_first(level: nat)
    ensures
        ancestor(0, level) == 0,
    decreases level,
{
    if level > 0 {
        lemma_ancestor_of_first((level - 1) as nat);
    }
}

/// In the tree of `leaves`, the path of an insertion holds the nodes over the
/// new leaf.
proof fn lemma_path_is_nodes(
    pre: MerkleTree,
    leaves: Seq<Seq<u8>>,
    leaf: Seq<u8>,
    level: nat,
)
    requires
        pre.represents(leaves),
        level <= TREE_DEPTH,
    ensures
        pre.path_digest(leaf, level) == node(
            leaves.push(leaf),
            level,
            ancestor(leaves.len(), level),
        ),
    decreases level,
{
    if level > 0 {
        let below = (level - 1) as nat;
        let n = leaves.len();
        let index = ancestor(n, below);
        lemma_path_is_nodes(pre, leaves, leaf, below);
        assert(pre.zeros@[below as int]@ == empty_subtree(below));
        assert(pre.filled_subtrees@[below as int]@ == node(leaves, below, newest_left(n, below)));
        if index % 2 == 0 {
            lemma_empty_node(leaves.push(leaf), below, index + 1);
        } else {
            if n == 0 {
                lemma_ancestor_of_first(below);
            }
            lemma_neighbours(n, below);
            assert(newest_left(n, below) == index - 1);
            lemma_other_node(leaves, leaf, below, (index - 1) as nat);
        }
    }
}

/// Law: the tree is append-only. An insertion into the tree of `leaves` gives the
/// tree of `leaves` followed by the new leaf.
pub proof fn law_insertion_appends(
    pre: MerkleTree,
    post: MerkleTree,
    leaves: Seq<Seq<u8>>,
    leaf: Seq<u8>,
)
    requires
        pre.represents(leaves),
        leaves.len() < MAX_LEAVES,
        post.is_insertion(pre, leaf),
    ensures
        post.represents(leaves.push(leaf)),
{
    let n = leaves.len();
    let all = leaves.push(leaf);
    lemma_path_is_nodes(pre, leaves, leaf, TREE_DEPTH as nat);
    lemma_root_over_all(n);
    assert forall|level: int|
        #![trigger post.filled_subtrees@[level]]
        0 <= level < TREE_DEPTH implies post.filled_subtrees@[level]@ == node(
        all,
        level as nat,
        newest_left(all.len(), level as nat),
    ) by {
        let l = level as nat;
        let index = ancestor(n, l);
        assert(ancestor(n, l + 1) == index / 2);
        lemma_path_is_nodes(pre, leaves, leaf, l);
        assert(pre.filled_subtrees@[level]@ == node(leaves, l, newest_left(n, l)));
        if index % 2 != 0 {
            if n == 0 {
                lemma_ancestor_of_first(l);
            }
            lemma_neighbours(n, l);
            assert(newest_left(n, l) == index - 1);
            lemma_other_node(leaves, leaf, l, (index - 1) as nat);
        }
    }
}

/// Law: the stored nodes and the root are determined by the leaves and their
/// order.
pub proof fn law_tree_is_determined(a: MerkleTree, b: MerkleTree, leaves: Seq<Seq<u8>>)
    requires
        a.represents(leaves),
        b.represents(leaves),
    ensures
        a == b,
{
    assert forall|level: int| 0 <= level < TREE_DEPTH implies a.zeros@[level] == b.zeros@[level]
        && a.filled_subtrees@[level] == b.filled_subtrees@[level] by {
        assert(a.zeros@[level]@ == b.zeros@[level]@);
        assert(a.zeros@[level] =~= b.zeros@[level]);
        assert(a.filled_subtrees@[level]@ == b.filled_subtrees@[level]@);
        assert(a.filled_subtrees@[level] =~= b.filled_subtrees@[level]);
    }
    assert(a.zeros =~= b.zeros);
    assert(a.filled_subtrees =~= b.filled_subtrees);
    assert(a.root =~= b.root);
}

/// Law: a tree of depth `TREE_DEPTH`, which is 20, has `2^TREE_DEPTH` leaves.
pub proof fn law_capacity()
    ensures
        TREE_DEPTH == 20,
        MAX_LEAVES == pow2(TREE_DEPTH as nat),
{
    lemma2_to64();
}

/// Law: the tag of the empty leaf spells `shielded_pool:zero`, one byte to a
/// character.
pub proof fn law_tag_spells_its_name(i: int)
    requires
        0 <= i < 18,
    ensures
        "shielded_pool:zero"@.len() == ZERO_LEAF_TAG@.len(),
        ZERO_LEAF_TAG@[i] == "shielded_pool:zero"@[i] as int,
{
    reveal_strlit("shielded_pool:zero");
}

/// Law: the node over leaf `leaf` on level `level` is the quotient of the leaf's
/// index and `2^level`.
pub proof fn law_ancestor_is_quotient(leaf: nat, level: nat)
    ensures
        ancestor(leaf, level) as int == leaf as int / pow2(level) as int,
    decreases level,
{
    if level == 0 {
        lemma2_to64();
        assert(leaf as int / 1 == leaf as int);
    } else {
        let below = (level - 1) as nat;
        let half = pow2(below) as int;
        law_ancestor_is_quotient(leaf, below);
        lemma_pow2_unfold(level);
        lemma_pow2_pos(below);
        lemma_div_denominator(leaf as int, half, 2);
        assert(half * 2 == pow2(level) as int);
        assert(ancestor(leaf, level) as int == (leaf as int / half) / 2);
    }
}

/// Law: the leaves come first on level 0, in their order, and the rest of it is
/// empty leaves; every node above is the Keccak-256 digest of the node to its lower
/// left followed by the node to its lower right.
pub proof fn law_nodes_hash_their_children(leaves: Seq<Seq<u8>>, level: nat, index: nat)
    ensures
        level == 0 && index < leaves.len() ==> node(leaves, level, index) == leaves[index as int],
        level == 0 && index >= leaves.len() ==> node(leaves, level, index) == keccak256_digest(
            ZERO_LEAF_TAG@,
        ),
        node(leaves, level + 1, index) == keccak256_digest(
            node(leaves, level, 2 * index) + node(leaves, level, 2 * index + 1),
        ),
{
}

/// Law: in the empty tree each level's filler is the digest of two fillers of the
/// level below, from the digest of the tag up to the root.
pub proof fn law_empty_tree(tree: MerkleTree)
    requires
        tree.represents(Seq::empty()),
    ensures
        tree.next_index == 0,
        tree.filled_subtrees == tree.zeros,
        tree.zeros@[0]@ == keccak256_digest(ZERO_LEAF_TAG@),
        forall|level: int|
            #![trigger tree.zeros@[level]]
            1 <= level < TREE_DEPTH ==> tree.zeros@[level]@ == keccak256_digest(
                tree.zeros@[level - 1]@ + tree.zeros@[level - 1]@,
            ),
        tree.root@ == keccak256_digest(
            tree.zeros@[TREE_DEPTH - 1]@ + tree.zeros@[TREE_DEPTH - 1]@,
        ),
{
    let none = Seq::<Seq<u8>>::empty();
    assert forall|level: int|
        #![trigger tree.zeros@[level]]
        0 <= level < TREE_DEPTH implies tree.filled_subtrees@[level] == tree.zeros@[level] by {
        assert(tree.filled_subtrees@[level]@ == tree.zeros@[level]@);
        assert(tree.filled_subtrees@[level] =~= tree.zeros@[level]);
    }
    assert(tree.filled_subtrees =~= tree.zeros);
    assert forall|level: int|
        #![trigger tree.zeros@[level]]
        1 <= level < TREE_DEPTH implies tree.zeros@[level]@ == keccak256_digest(
        tree.zeros@[level - 1]@ + tree.zeros@[level - 1]@,
    ) by {
        let below = (level - 1) as nat;
        assert(tree.zeros@[level - 1]@ == empty_subtree(below));
        lemma_empty_node(none, below, 1);
    }
    assert(tree.zeros@[0]@ == empty_subtree(0));
    let top = (TREE_DEPTH - 1) as nat;
    assert(tree.zeros@[top as int]@ == empty_subtree(top));
    lemma_empty_node(none, top, 1);
}

/// Law: an insertion hashes its way from the leaf to the root. Let `path` start with
/// the leaf and go on, level by level, with the digest of the pair that the path
/// passes through, in which bit `level` of the leaf's index decides between the
/// filler to the right and the stored node to the left. Then the root is where the
/// path ends, and each level stores the path where it runs on the left.
pub proof fn law_insertion_hashes_its_path(
    pre: MerkleTree,
    post: MerkleTree,
    leaf: Seq<u8>,
    path: Seq<Seq<u8>>,
)
    requires
        post.is_insertion(pre, leaf),
        path.len() == TREE_DEPTH + 1,
        path[0] == leaf,
        forall|level: int|
            #![trigger pre.zeros@[level]]
            0 <= level < TREE_DEPTH ==> path[level + 1] == if (pre.next_index as int / pow2(
                level as nat,
            ) as int) % 2 == 0 {
                keccak256_digest(path[level] + pre.zeros@[level]@)
            } else {
                keccak256_digest(pre.filled_subtrees@[level]@ + path[level])
            },
    ensures
        post.root@ == path[TREE_DEPTH as int],
        post.next_index == pre.next_index + 1,
        post.zeros == pre.zeros,
        forall|level: int|
            #![trigger post.filled_subtrees@[level]]
            0 <= level < TREE_DEPTH ==> post.filled_subtrees@[level]@ == if (pre.next_index as int
                / pow2(level as nat) as int) % 2 == 0 {
                path[level]
            } else {
                pre.filled_subtrees@[level]@
            },
{
    assert forall|level: int| 0 <= level < TREE_DEPTH implies #[trigger] follows(
        pre,
        path,
        level,
    ) by {
        let filler = pre.zeros@[level];
        law_ancestor_is_quotient(pre.next_index as nat, level as nat);
    }
    lemma_path_follows(pre, leaf, path, TREE_DEPTH as nat);
    assert forall|level: int|
        #![trigger post.filled_subtrees@[level]]
        0 <= level < TREE_DEPTH implies post.filled_subtrees@[level]@ == if (
    pre.next_index as int / pow2(level as nat) as int) % 2 == 0 {
        path[level]
    } else {
        pre.filled_subtrees@[level]@
    } by {
        lemma_path_follows(pre, leaf, path, level as nat);
        law_ancestor_is_quotient(pre.next_index as nat, level as nat);
    }
}

/// `path` goes from level `level` to the next as an insertion does.
spec fn follows(pre: MerkleTree, path: Seq<Seq<u8>>, level: int) -> bool {
    path[level + 1] == if ancestor(pre.next_index as nat, level as nat) % 2 == 0 {
        pair_digest(path[level], pre.zeros@[level]@)
    } else {
        pair_digest(pre.filled_subtrees@[level]@, path[level])
    }
}

proof fn lemma_path_follows(pre: MerkleTree, leaf: Seq<u8>, path: Seq<Seq<u8>>, level: nat)
    requires
        level <= TREE_DEPTH,
        path.len() == TREE_DEPTH + 1,
        path[0] == leaf,
        forall|l: int| 0 <= l < TREE_DEPTH ==> #[trigger] follows(pre, path, l),
    ensures
        pre.path_digest(leaf, level) == path[level as int],
    decreases level,
{
    if level > 0 {
        lemma_path_follows(pre, leaf, path, (level - 1) as nat);
        assert(follows(pre, path, level - 1));
    }
}

/// The digest that one reaches on level `level` from `leaf`, put at `index`, with
/// the siblings that `path` lists from the bottom up.
pub open spec fn climb(leaf: Seq<u8>, index: nat, path: Seq<Seq<u8>>, level: nat) -> Seq<u8>
    decreases level,
{
    if level == 0 {
        leaf
    } else {
        let below = (level - 1) as nat;
        let digest = climb(leaf, index, path, below);
        if ancestor(index, below) % 2 == 0 {
            pair_digest(digest, path[below as int])
        } else {
            pair_digest(path[below as int], digest)
        }
    }
}

/// The siblings of the nodes over leaf `index`, from the bottom up.
pub open spec fn siblings(leaves: Seq<Seq<u8>>, index: nat) -> Seq<Seq<u8>> {
    Seq::new(
        TREE_DEPTH as nat,
        |level: int|
            {
                let at = ancestor(index, level as nat);
                node(
                    leaves,
                    level as nat,
                    if at % 2 == 0 {
                        at + 1
                    } else {
                        (at - 1) as nat
                    },
                )
            },
    )
}

proof fn lemma_climb_is_node(leaves: Seq<Seq<u8>>, index: nat, level: nat)
    requires
        index < leaves.len(),
        level <= TREE_DEPTH,
    ensures
        climb(leaves[index as int], index, siblings(leaves, index), level) == node(
            leaves,
            level,
            ancestor(index, level),
        ),
    decreases level,
{
    if level > 0 {
        let below = (level - 1) as nat;
        lemma_climb_is_node(leaves, index, below);
        let at = ancestor(index, below);
        assert(siblings(leaves, index)[below as int] == node(
            leaves,
            below,
            if at % 2 == 0 {
                at + 1
            } else {
                (at - 1) as nat
            },
        ));
    }
}

/// Law: every inserted leaf stays under the root. Its siblings lead from it, at
/// its index, to the root of the tree.
pub proof fn law_leaf_is_under_root(tree: MerkleTree, leaves: Seq<Seq<u8>>, index: nat)
    requires
        tree.represents(leaves),
        index < leaves.len(),
    ensures
        climb(leaves[index as int], index, siblings(leaves, index), TREE_DEPTH as nat)
            == tree.root@,
{
    lemma_climb_is_node(leaves, index, TREE_DEPTH as nat);
    lemma_root_over_all(index);
}

/// The value of an empty leaf: the Keccak-256 digest of `shielded_pool:zero`.
pub fn zero_leaf() -> (digest: [u8; 32])
    ensures
        digest@ == zero_leaf_digest(),
        digest@ == keccak256_digest(ZERO_LEAF_TAG@),
{
    keccak256(&ZERO_LEAF_TAG)
}

/// The digest of an inner node: the Keccak-256 digest of its two children.
pub fn hash_pair(left: &[u8; 32], right: &[u8; 32]) -> (digest: [u8; 32])
    ensures
        digest@ == pair_digest(left@, right@),
        digest@ == keccak256_digest(left@ + right@),
{
    let buf = join_bytes(left, right);
    keccak256(&buf)
}

} // verus!
