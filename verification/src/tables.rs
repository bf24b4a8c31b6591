//! The trie compactor and the compacted width tables.
//!
//! The compactor flattens a trie into two arrays: a value table of decoded
//! width codes and an index table of block references. Blocks are 64 entries
//! wide. Value blocks 0 and 1 (positions 0-127) hold the root's ASCII
//! halves, the block at position 2 (logical index 0) is the reusable
//! all-default block. Index blocks at positions 0-2 are reserved so that the
//! root's dispatch row sits at position 3, flat offsets 192-255: a lead byte
//! then addresses the row directly. A stored block reference `l` points at
//! flat offset `(l + 2) * 64`, matching the 0x80 base of continuation bytes.
//! Structurally identical blocks are merged by exact content comparison.

use vstd::prelude::*;
use vstd::utf8::encode_scalar;

use crate::codes::decode;
use crate::codes::decode_code;
use crate::trie::lemma_char_bytes;
use crate::trie::node_all_zero;
use crate::trie::node_wf;
use crate::trie::slot_levels;
use crate::trie::subtree_lookup;
use crate::trie::Node;
use crate::trie::Trie;

verus! {

/// Low six bits of a byte always form a block offset.
pub proof fn lemma_low6(b: u8)
    by (bit_vector)
    ensures
        (b & 0x3F) < 64,
{
}

/// The 64-entry value block with logical index `l`.
pub open(crate) spec fn vblock(v: Seq<i8>, l: int) -> Seq<i8> {
    v.subrange((l + 2) * 64, (l + 3) * 64)
}

/// The 64-entry index block with logical index `l`.
pub open(crate) spec fn irow(ix: Seq<u64>, l: int) -> Seq<u64> {
    ix.subrange((l + 2) * 64, (l + 3) * 64)
}

/// How many value blocks carry a logical index.
pub open(crate) spec fn vcount(v: Seq<i8>) -> int {
    v.len() / 64 - 2
}

/// How many index blocks carry a logical index.
pub open(crate) spec fn icount(ix: Seq<u64>) -> int {
    ix.len() / 64 - 2
}

/// A walk of the flat tables from block reference `l` over the given
/// continuation bytes stays within both arrays. Reference 1 never occurs on
/// an index step: position 3 is the root's own dispatch row.
pub open(crate) spec fn walk_ok(v: Seq<i8>, ix: Seq<u64>, l: int, bytes: Seq<u8>) -> bool
    decreases bytes.len(),
{
    if bytes.len() <= 1 {
        0 <= l && (l + 3) * 64 <= v.len()
    } else {
        &&& l == 0 || l >= 2
        &&& (l + 3) * 64 <= ix.len()
        &&& walk_ok(v, ix, ix[(l + 2) * 64 + (bytes[0] & 0x3F)] as int, bytes.drop_first())
    }
}

/// The width code the flat tables resolve from block reference `l` over the
/// given continuation bytes: each byte's low six bits offset into the
/// current block, the last read coming from the value table.
pub open(crate) spec fn walk(v: Seq<i8>, ix: Seq<u64>, l: int, bytes: Seq<u8>) -> i8
    decreases bytes.len(),
{
    if bytes.len() <= 1 {
        v[(l + 2) * 64 + (bytes[0] & 0x3F)]
    } else {
        walk(v, ix, ix[(l + 2) * 64 + (bytes[0] & 0x3F)] as int, bytes.drop_first())
    }
}

/// Invariant of the growing tables: whole blocks only, the reserved regions
/// in place (decoded default 1 at positions 128-191 of the value table,
/// zeros before the root row of the index table), every value a width code,
/// and no two blocks of a table with equal content, so that a block index
/// determines its content and equal content determines the block index.
pub open(crate) spec fn tables_wf(v: Seq<i8>, ix: Seq<u64>) -> bool {
    &&& v.len() % 64 == 0
    &&& v.len() >= 192
    &&& (forall|i: int| 0 <= i < v.len() ==> -1 <= #[trigger] v[i] <= 2)
    &&& (forall|i: int| 128 <= i < 192 ==> #[trigger] v[i] == 1)
    &&& ix.len() % 64 == 0
    &&& ix.len() >= 256
    &&& (forall|i: int| 0 <= i < 192 ==> #[trigger] ix[i] == 0)
    &&& (forall|l1: int, l2: int|
        0 <= l1 < l2 < vcount(v) ==> #[trigger] vblock(v, l1) != #[trigger] vblock(v, l2))
    &&& (forall|l1: int, l2: int|
        0 <= l1 < l2 < icount(ix) && l1 != 1 && l2 != 1 ==> #[trigger] irow(ix, l1)
            != #[trigger] irow(ix, l2))
}

/// Growing either table at its end, or rewriting the root row region
/// (positions 192-255 of the index table), changes no walk: a walk reads the
/// reserved zero region or blocks at positions 256 and up.
pub proof fn lemma_walk_grow(v1: Seq<i8>, ix1: Seq<u64>, v2: Seq<i8>, ix2: Seq<u64>, l: int, bytes: Seq<u8>)
    requires
        walk_ok(v1, ix1, l, bytes),
        v1.len() <= v2.len(),
        forall|i: int| 0 <= i < v1.len() ==> v2[i] == v1[i],
        ix1.len() <= ix2.len(),
        forall|i: int| 0 <= i < ix1.len() && !(192 <= i < 256) ==> ix2[i] == ix1[i],
    ensures
        walk_ok(v2, ix2, l, bytes),
        walk(v2, ix2, l, bytes) == walk(v1, ix1, l, bytes),
    decreases bytes.len(),
{
    lemma_low6(bytes[0]);
    if bytes.len() <= 1 {
    } else {
        let pos = (l + 2) * 64 + (bytes[0] & 0x3F);
        assert(ix2[pos] == ix1[pos]);
        lemma_walk_grow(v1, ix1, v2, ix2, ix1[pos] as int, bytes.drop_first());
    }
}

/// A walk from block reference 0 stays in the reserved regions and resolves
/// the default width 1, whatever the bytes.
pub proof fn lemma_walk_zero(v: Seq<i8>, ix: Seq<u64>, bytes: Seq<u8>)
    requires
        tables_wf(v, ix),
        bytes.len() >= 1,
    ensures
        walk_ok(v, ix, 0, bytes),
        walk(v, ix, 0, bytes) == 1i8,
    decreases bytes.len(),
{
    lemma_low6(bytes[0]);
    if bytes.len() <= 1 {
    } else {
        let pos = (2) * 64 + (bytes[0] & 0x3F);
        assert(ix[pos] == 0);
        lemma_walk_zero(v, ix, bytes.drop_first());
    }
}

/// A block reference `entry` resolves one byte path exactly as the optional
/// subtree assigns it (the decoded default for an absent subtree).
pub open(crate) spec fn walk_matches(
    v: Seq<i8>,
    ix: Seq<u64>,
    entry: u64,
    c: Option<Node>,
    bytes: Seq<u8>,
) -> bool {
    &&& walk_ok(v, ix, entry as int, bytes)
    &&& walk(v, ix, entry as int, bytes) == decode_code(
        match c {
            Some(cn) => subtree_lookup(cn, bytes),
            None => 0u64,
        },
    )
}

/// A block reference `entry` resolves, over every byte path of length
/// `sublevels`, exactly the width codes that the optional subtree assigns
/// (the decoded default for an absent subtree).
pub open(crate) spec fn slot_ok(
    v: Seq<i8>,
    ix: Seq<u64>,
    entry: u64,
    c: Option<Node>,
    sublevels: int,
) -> bool {
    &&& (sublevels >= 2 ==> (entry == 0 || entry >= 2))
    &&& (sublevels == 1 ==> (entry as int + 3) * 64 <= v.len())
    &&& (sublevels >= 2 ==> (entry as int + 3) * 64 <= ix.len())
    &&& (forall|bytes: Seq<u8>|
        bytes.len() == sublevels ==> #[trigger] walk_matches(v, ix, entry, c, bytes))
}

/// Growing the tables preserves what a block reference resolves.
pub proof fn lemma_slot_ok_grow(
    v1: Seq<i8>,
    ix1: Seq<u64>,
    v2: Seq<i8>,
    ix2: Seq<u64>,
    entry: u64,
    c: Option<Node>,
    sublevels: int,
)
    requires
        slot_ok(v1, ix1, entry, c, sublevels),
        v1.len() <= v2.len(),
        forall|i: int| 0 <= i < v1.len() ==> v2[i] == v1[i],
        ix1.len() <= ix2.len(),
        forall|i: int| 0 <= i < ix1.len() && !(192 <= i < 256) ==> ix2[i] == ix1[i],
    ensures
        slot_ok(v2, ix2, entry, c, sublevels),
{
    assert forall|bytes: Seq<u8>| bytes.len() == sublevels implies #[trigger] walk_matches(
        v2,
        ix2,
        entry,
        c,
        bytes,
    ) by {
        assert(walk_matches(v1, ix1, entry, c, bytes));
        lemma_walk_grow(v1, ix1, v2, ix2, entry as int, bytes);
    }
}

/// What a block reference known to resolve a subtree gives for one
/// particular byte path.
pub proof fn lemma_slot_ok_use(
    v: Seq<i8>,
    ix: Seq<u64>,
    entry: u64,
    c: Option<Node>,
    sublevels: int,
    bytes: Seq<u8>,
)
    requires
        slot_ok(v, ix, entry, c, sublevels),
        bytes.len() == sublevels,
    ensures
        walk_ok(v, ix, entry as int, bytes),
        walk(v, ix, entry as int, bytes) == decode_code(
            match c {
                Some(cn) => subtree_lookup(cn, bytes),
                None => 0u64,
            },
        ),
{
    assert(walk_matches(v, ix, entry, c, bytes));
}

/// The decoded value block a leaf stands for.
pub open(crate) spec fn leaf_block_of(n: Node) -> Seq<i8> {
    Seq::new(64, |i: int| decode_code(n.values->Some_0@[i]))
}

/// The growing pair of flat tables, shared by every subtree the compactor
/// lowers into them.
pub struct Builder {
    pub values: Vec<i8>,
    pub index: Vec<u64>,
}

impl Builder {
    /// The tables of this builder are well formed.
    pub open spec fn wf(self) -> bool {
        tables_wf(self.values@, self.index@)
    }

    /// Finds the logical index of an existing value block with exactly the
    /// candidate's content, if any block has it.
    fn find_vblock(&self, cand: &Vec<i8>) -> (r: Option<usize>)
        requires
            self.wf(),
            cand.len() == 64,
        ensures
            match r {
                Some(l) => 0 <= l < vcount(self.values@) && (l + 2) * 64 + 64
                    <= self.values@.len() && vblock(self.values@, l as int) == cand@,
                None => forall|l: int|
                    0 <= l < vcount(self.values@) ==> vblock(self.values@, l) != cand@,
            },
    {
        let n = self.values.len() / 64 - 2;
        let mut l: usize = 0;
        while l < n
            invariant
                self.wf(),
                cand.len() == 64,
                n == vcount(self.values@),
                l <= n,
                forall|k: int| 0 <= k < l ==> vblock(self.values@, k) != cand@,
            decreases n - l,
        {
            proof {
                vstd::arithmetic::div_mod::lemma_fundamental_div_mod(
                    self.values@.len() as int,
                    64,
                );
                assert((l + 2) * 64 + 64 <= self.values.len());
            }
            let mut j: usize = 0;
            let mut eq = true;
            while j < 64
                invariant
                    self.wf(),
                    cand.len() == 64,
                    n == vcount(self.values@),
                    (l + 2) * 64 + 64 <= self.values.len(),
                    l < n,
                    j <= 64,
                    eq <==> (forall|i: int|
                        0 <= i < j ==> self.values@[(l + 2) * 64 + i] == cand@[i]),
                decreases 64 - j,
            {
                if self.values[(l + 2) * 64 + j] != cand[j] {
                    eq = false;
                }
                j += 1;
            }
            if eq {
                proof {
                    assert(vblock(self.values@, l as int) =~= cand@);
                }
                return Some(l);
            }
            proof {
                assert(vblock(self.values@, l as int)[0] == self.values@[(l + 2) * 64]);
                assert(vblock(self.values@, l as int) != cand@) by {
                    let k = choose|i: int|
                        0 <= i < 64 && self.values@[(l + 2) * 64 + i] != cand@[i];
                    assert(vblock(self.values@, l as int)[k] != cand@[k]);
                }
            }
            l += 1;
        }
        None
    }

    /// Appends the candidate as a fresh value block, giving it the next
    /// logical index; the caller has checked that no block matches it.
    fn append_vblock(&mut self, cand: &Vec<i8>) -> (l: usize)
        requires
            old(self).wf(),
            cand.len() == 64,
            forall|i: int| 0 <= i < 64 ==> -1 <= #[trigger] cand@[i] <= 2,
            forall|k: int| 0 <= k < vcount(old(self).values@) ==> vblock(old(self).values@, k) != cand@,
        ensures
            final(self).wf(),
            final(self).index@ == old(self).index@,
            final(self).values@ == old(self).values@ + cand@,
            l == vcount(old(self).values@),
            vcount(final(self).values@) == l + 1,
            (l + 2) * 64 + 64 <= final(self).values@.len(),
            vblock(final(self).values@, l as int) == cand@,
    {
        let l = self.values.len() / 64 - 2;
        proof {
            vstd::arithmetic::div_mod::lemma_fundamental_div_mod(self.values@.len() as int, 64);
        }
        let mut j: usize = 0;
        while j < 64
            invariant
                cand.len() == 64,
                j <= 64,
                self.values@ == old(self).values@ + cand@.subrange(0, j as int),
                self.index@ == old(self).index@,
            decreases 64 - j,
        {
            self.values.push(cand[j]);
            proof {
                assert(self.values@ =~= old(self).values@ + cand@.subrange(0, j + 1 as int));
            }
            j += 1;
        }
        proof {
            assert(self.values@ =~= old(self).values@ + cand@);
            assert(vblock(self.values@, l as int) =~= cand@);
            assert forall|k: int| 0 <= k < vcount(old(self).values@) implies vblock(
                self.values@,
                k,
            ) == vblock(old(self).values@, k) by {
                assert(vblock(self.values@, k) =~= vblock(old(self).values@, k));
            }
            assert(self.wf());
        }
        l
    }

    /// Finds the logical index of an existing index block with exactly the
    /// candidate's content. Index 1 is the root's reserved row and is never
    /// offered for reuse.
    fn find_irow(&self, cand: &Vec<u64>) -> (r: Option<usize>)
        requires
            self.wf(),
            cand.len() == 64,
        ensures
            match r {
                Some(l) => 0 <= l < icount(self.index@) && l != 1 && (l + 2) * 64 + 64
                    <= self.index@.len() && irow(self.index@, l as int) == cand@,
                None => forall|l: int|
                    0 <= l < icount(self.index@) && l != 1 ==> irow(self.index@, l) != cand@,
            },
    {
        let n = self.index.len() / 64 - 2;
        let mut l: usize = 0;
        while l < n
            invariant
                self.wf(),
                cand.len() == 64,
                n == icount(self.index@),
                l <= n,
                forall|k: int| 0 <= k < l && k != 1 ==> irow(self.index@, k) != cand@,
            decreases n - l,
        {
            if l != 1 {
                proof {
                    vstd::arithmetic::div_mod::lemma_fundamental_div_mod(
                        self.index@.len() as int,
                        64,
                    );
                    assert((l + 2) * 64 + 64 <= self.index.len());
                }
                let mut j: usize = 0;
                let mut eq = true;
                while j < 64
                    invariant
                        self.wf(),
                        cand.len() == 64,
                        n == icount(self.index@),
                        (l + 2) * 64 + 64 <= self.index.len(),
                        l < n,
                        j <= 64,
                        eq <==> (forall|i: int|
                            0 <= i < j ==> self.index@[(l + 2) * 64 + i] == cand@[i]),
                    decreases 64 - j,
                {
                    if self.index[(l + 2) * 64 + j] != cand[j] {
                        eq = false;
                    }
                    j += 1;
                }
                if eq {
                    proof {
                        assert(irow(self.index@, l as int) =~= cand@);
                    }
                    return Some(l);
                }
                proof {
                    assert(irow(self.index@, l as int) != cand@) by {
                        let k = choose|i: int|
                            0 <= i < 64 && self.index@[(l + 2) * 64 + i] != cand@[i];
                        assert(irow(self.index@, l as int)[k] != cand@[k]);
                    }
                }
            }
            l += 1;
        }
        None
    }

    /// Appends the candidate as a fresh index block, giving it the next
    /// logical index; the caller has checked that no block matches it.
    fn append_irow(&mut self, cand: &Vec<u64>) -> (l: usize)
        requires
            old(self).wf(),
            cand.len() == 64,
            forall|k: int|
                0 <= k < icount(old(self).index@) && k != 1 ==> irow(old(self).index@, k)
                    != cand@,
        ensures
            final(self).wf(),
            final(self).values@ == old(self).values@,
            final(self).index@ == old(self).index@ + cand@,
            l == icount(old(self).index@),
            l >= 2,
            icount(final(self).index@) == l + 1,
            (l + 2) * 64 + 64 <= final(self).index@.len(),
            irow(final(self).index@, l as int) == cand@,
    {
        let l = self.index.len() / 64 - 2;
        proof {
            vstd::arithmetic::div_mod::lemma_fundamental_div_mod(self.index@.len() as int, 64);
        }
        let mut j: usize = 0;
        while j < 64
            invariant
                cand.len() == 64,
                j <= 64,
                self.index@ == old(self).index@ + cand@.subrange(0, j as int),
                self.values@ == old(self).values@,
            decreases 64 - j,
        {
            self.index.push(cand[j]);
            proof {
                assert(self.index@ =~= old(self).index@ + cand@.subrange(0, j + 1 as int));
            }
            j += 1;
        }
        proof {
            assert(self.index@ =~= old(self).index@ + cand@);
            assert(irow(self.index@, l as int) =~= cand@);
            assert forall|k: int| 0 <= k < icount(old(self).index@) implies irow(
                self.index@,
                k,
            ) == irow(old(self).index@, k) by {
                assert(irow(self.index@, k) =~= irow(old(self).index@, k));
            }
            assert(self.wf());
        }
        l
    }

    /// Lowers one subtree into the flat tables, post order, and returns the
    /// block reference that resolves it: a leaf becomes (or reuses) a value
    /// block holding its decoded codes, an internal node becomes (or reuses)
    /// an index block over its children's references. An all-zero subtree of
    /// any depth reuses reference 0, the reserved default block, and adds
    /// nothing.
    pub fn compute_offsets(&mut self, n: &Node, levels: u8) -> (l: usize)
        requires
            old(self).wf(),
            node_wf(*n, levels as int),
            1 <= levels <= 3,
        ensures
            final(self).wf(),
            old(self).values@.len() <= final(self).values@.len(),
            forall|i: int|
                0 <= i < old(self).values@.len() ==> final(self).values@[i] == old(
                    self,
                ).values@[i],
            old(self).index@.len() <= final(self).index@.len(),
            forall|i: int|
                0 <= i < old(self).index@.len() ==> final(self).index@[i] == old(self).index@[i],
            slot_ok(final(self).values@, final(self).index@, l as u64, Some(*n), levels as int),
            levels == 1 ==> 0 <= l < vcount(final(self).values@) && vblock(
                final(self).values@,
                l as int,
            ) == leaf_block_of(*n),
            node_all_zero(*n, levels as int) ==> l == 0 && final(self).values@ == old(
                self,
            ).values@ && final(self).index@ == old(self).index@,
        decreases levels,
    {
        proof {
            reveal_with_fuel(node_wf, 4);
        }
        if levels == 1 {
            match &n.values {
                Some(vs) => {
                    let mut cand: Vec<i8> = Vec::new();
                    let mut j: usize = 0;
                    while j < 64
                        invariant
                            node_wf(*n, 1),
                            n.values == Some(*vs),
                            j <= 64,
                            cand@.len() == j,
                            forall|i: int|
                                0 <= i < j ==> cand@[i] == decode_code(vs@[i]) && -1
                                    <= #[trigger] cand@[i] <= 2,
                        decreases 64 - j,
                    {
                        proof {
                            reveal_with_fuel(node_wf, 2);
                            assert(vs@[j as int] < 4);
                        }
                        cand.push(decode(vs[j]));
                        j += 1;
                    }
                    let found = self.find_vblock(&cand);
                    let l: usize = match found {
                        Some(l) => l,
                        None => self.append_vblock(&cand),
                    };
                    proof {
                        assert(vblock(self.values@, l as int) == cand@);
                        assert(cand@ =~= leaf_block_of(*n));
                        assert((l + 2) * 64 + 64 <= self.values@.len());
                        assert(l as u64 as int == l as int);
                        assert forall|bytes: Seq<u8>| bytes.len() == 1 implies
                            #[trigger] walk_matches(
                            self.values@,
                            self.index@,
                            l as u64,
                            Some(*n),
                            bytes,
                        ) by {
                            lemma_low6(bytes[0]);
                            let off = (bytes[0] & 0x3F) as int;
                            assert(self.values@[(l + 2) * 64 + off] == vblock(
                                self.values@,
                                l as int,
                            )[off]);
                            assert(subtree_lookup(*n, bytes) == vs@[off]);
                            assert(walk_ok(self.values@, self.index@, l as int, bytes));
                            assert(walk(self.values@, self.index@, l as int, bytes)
                                == self.values@[(l + 2) * 64 + off]);
                        }
                        assert(slot_ok(
                            self.values@,
                            self.index@,
                            l as u64,
                            Some(*n),
                            1,
                        ));
                        if node_all_zero(*n, 1) {
                            assert(vblock(self.values@, 0) =~= cand@);
                            if l != 0 {
                                assert(vblock(self.values@, 0) == vblock(self.values@, l as int));
                                assert(false);
                            }
                        }
                    }
                    l
                },
                None => {
                    proof {
                        assert(false);
                    }
                    0
                },
            }
        } else {
            match &n.children {
                Some(ch) => {
                    let mut row: Vec<u64> = Vec::new();
                    let mut s: usize = 0;
                    while s < 64
                        invariant
                            self.wf(),
                            node_wf(*n, levels as int),
                            2 <= levels <= 3,
                            n.children == Some(*ch),
                            ch.len() == 64,
                            s <= 64,
                            row@.len() == s,
                            old(self).values@.len() <= self.values@.len(),
                            forall|i: int|
                                0 <= i < old(self).values@.len() ==> self.values@[i] == old(
                                    self,
                                ).values@[i],
                            old(self).index@.len() <= self.index@.len(),
                            forall|i: int|
                                0 <= i < old(self).index@.len() ==> self.index@[i] == old(
                                    self,
                                ).index@[i],
                            forall|k: int|
                                0 <= k < s ==> #[trigger] slot_ok(
                                    self.values@,
                                    self.index@,
                                    row@[k],
                                    ch@[k],
                                    levels as int - 1,
                                ),
                            (forall|k: int|
                                0 <= k < s ==> match #[trigger] ch@[k] {
                                    Some(cn) => node_all_zero(cn, levels as int - 1),
                                    None => true,
                                }) ==> (self.values@ == old(self).values@ && self.index@ == old(
                                self,
                            ).index@ && forall|k: int| 0 <= k < s ==> row@[k] == 0),
                        decreases 64 - s,
                    {
                        let ghost pv = self.values@;
                        let ghost pix = self.index@;
                        let cslot: &Option<Node> = &ch[s];
                        let entry: u64 = match cslot {
                            Some(cn) => {
                                proof {
                                    reveal_with_fuel(node_wf, 4);
                                    assert(node_wf(*cn, levels as int - 1));
                                }
                                let lc = self.compute_offsets(cn, levels - 1);
                                lc as u64
                            },
                            None => 0u64,
                        };
                        proof {
                            assert forall|k: int| 0 <= k < s implies #[trigger] slot_ok(
                                self.values@,
                                self.index@,
                                row@[k],
                                ch@[k],
                                levels as int - 1,
                            ) by {
                                lemma_slot_ok_grow(
                                    pv,
                                    pix,
                                    self.values@,
                                    self.index@,
                                    row@[k],
                                    ch@[k],
                                    levels as int - 1,
                                );
                            }
                            if cslot is None {
                                assert forall|bytes: Seq<u8>|
                                    bytes.len() == levels as int - 1 implies #[trigger] walk_ok(
                                    self.values@,
                                    self.index@,
                                    0,
                                    bytes,
                                ) && walk(self.values@, self.index@, 0, bytes) == decode_code(
                                    0u64,
                                ) by {
                                    lemma_walk_zero(self.values@, self.index@, bytes);
                                }
                                assert(slot_ok(
                                    self.values@,
                                    self.index@,
                                    0u64,
                                    ch@[s as int],
                                    levels as int - 1,
                                ));
                            }
                        }
                        row.push(entry);
                        s += 1;
                    }
                    let found = self.find_irow(&row);
                    let ghost pv = self.values@;
                    let ghost pix = self.index@;
                    let l: usize = match found {
                        Some(l) => l,
                        None => self.append_irow(&row),
                    };
                    proof {
                        assert forall|k: int| 0 <= k < 64 implies #[trigger] slot_ok(
                            self.values@,
                            self.index@,
                            row@[k],
                            ch@[k],
                            levels as int - 1,
                        ) by {
                            lemma_slot_ok_grow(
                                pv,
                                pix,
                                self.values@,
                                self.index@,
                                row@[k],
                                ch@[k],
                                levels as int - 1,
                            );
                        }
                        assert(irow(self.index@, l as int) == row@);
                        assert((l + 2) * 64 + 64 <= self.index@.len());
                        assert(l == 0 || l >= 2);
                        assert forall|bytes: Seq<u8>|
                            bytes.len() == levels as int implies walk_ok(
                            self.values@,
                            self.index@,
                            l as int,
                            bytes,
                        ) && walk(self.values@, self.index@, l as int, bytes) == decode_code(
                            subtree_lookup(*n, bytes),
                        ) by {
                            lemma_low6(bytes[0]);
                            let off = (bytes[0] & 0x3F) as int;
                            assert(self.index@[(l + 2) * 64 + off] == irow(
                                self.index@,
                                l as int,
                            )[off]);
                            assert(self.index@[(l + 2) * 64 + off] == row@[off]);
                            assert(slot_ok(
                                self.values@,
                                self.index@,
                                row@[off],
                                ch@[off],
                                levels as int - 1,
                            ));
                            let rest = bytes.drop_first();
                            assert(rest.len() == levels as int - 1);
                            lemma_slot_ok_use(
                                self.values@,
                                self.index@,
                                row@[off],
                                ch@[off],
                                levels as int - 1,
                                rest,
                            );
                            assert(subtree_lookup(*n, bytes) == match ch@[off] {
                                Some(cn) => subtree_lookup(cn, rest),
                                None => 0u64,
                            });
                            assert(walk_ok(self.values@, self.index@, l as int, bytes));
                            assert(walk(self.values@, self.index@, l as int, bytes) == walk(
                                self.values@,
                                self.index@,
                                row@[off] as int,
                                rest,
                            ));
                        }
                        assert(l as u64 as int == l as int);
                        assert forall|bytes: Seq<u8>|
                            bytes.len() == levels as int implies #[trigger] walk_matches(
                            self.values@,
                            self.index@,
                            l as u64,
                            Some(*n),
                            bytes,
                        ) by {
                            assert(walk_ok(self.values@, self.index@, l as int, bytes));
                        }
                        assert(slot_ok(
                            self.values@,
                            self.index@,
                            l as u64,
                            Some(*n),
                            levels as int,
                        ));
                        if node_all_zero(*n, levels as int) {
                            assert forall|k: int| 0 <= k < 64 implies match #[trigger] ch@[k] {
                                Some(cn) => node_all_zero(cn, levels as int - 1),
                                None => true,
                            } by {
                                reveal_with_fuel(crate::trie::node_all_zero, 2);
                            }
                            assert(pv == old(self).values@ && pix == old(self).index@);
                            assert(forall|k: int| 0 <= k < 64 ==> row@[k] == 0);
                            assert(irow(pix, 0) =~= row@);
                            if found is None {
                                assert(false);
                            }
                            if l != 0 {
                                assert(irow(self.index@, 0) == irow(self.index@, l as int));
                                assert(false);
                            }
                        }
                    }
                    l
                },
                None => {
                    proof {
                        assert(false);
                    }
                    0
                },
            }
        }
    }
}

/// The larger of two encoded values.
pub open spec fn max_u64(a: u64, b: u64) -> u64 {
    if a > b {
        a
    } else {
        b
    }
}

/// The largest value in a sequence, 0 when empty.
pub open spec fn seq_max(s: Seq<u64>) -> u64
    decreases s.len(),
{
    if s.len() == 0 {
        0u64
    } else {
        max_u64(seq_max(s.drop_last()), s.last())
    }
}

/// The largest encoded value stored in a row of subtrees.
pub open(crate) spec fn row_max(ch: Seq<Option<Node>>, levels: int) -> u64
    decreases levels, ch.len(), 0int,
{
    if ch.len() == 0 {
        0u64
    } else {
        max_u64(
            row_max(ch.drop_last(), levels),
            match ch.last() {
                Some(cn) => node_max(cn, levels),
                None => 0u64,
            },
        )
    }
}

/// The largest encoded value stored anywhere in a subtree.
pub open(crate) spec fn node_max(n: Node, levels: int) -> u64
    decreases levels, 0int, 1int,
{
    max_u64(
        match n.values {
            Some(vs) => seq_max(vs@),
            None => 0u64,
        },
        match n.children {
            Some(ch) => if levels >= 1 {
                row_max(ch@, levels - 1)
            } else {
                0u64
            },
            None => 0u64,
        },
    )
}

/// The largest encoded value a whole trie stores, over the ASCII array and
/// every subtree.
pub open(crate) spec fn trie_max(t: Trie) -> u64 {
    max_u64(seq_max(t.ascii@), root_max(t.root@))
}

/// The largest encoded value under the root's dispatch slots.
pub open(crate) spec fn root_max(root: Seq<Option<Node>>) -> u64
    decreases root.len(),
{
    if root.len() == 0 {
        0u64
    } else {
        max_u64(
            root_max(root.drop_last()),
            match root.last() {
                Some(cn) => node_max(cn, slot_levels(root.len() - 1)),
                None => 0u64,
            },
        )
    }
}

/// The largest encoded value in a subtree, folded onto a running maximum.
pub fn max_value(n: &Node, levels: u8, seed: u64) -> (r: u64)
    requires
        node_wf(*n, levels as int),
        1 <= levels <= 3,
    ensures
        r == max_u64(seed, node_max(*n, levels as int)),
    decreases levels,
{
    proof {
        reveal_with_fuel(node_wf, 4);
    }
    let mut m = seed;
    match &n.values {
        Some(vs) => {
            let mut j: usize = 0;
            while j < 64
                invariant
                    n.values == Some(*vs),
                    vs.len() == 64,
                    j <= 64,
                    m == max_u64(seed, seq_max(vs@.take(j as int))),
                decreases 64 - j,
            {
                proof {
                    assert(vs@.take(j + 1 as int).drop_last() =~= vs@.take(j as int));
                    assert(vs@.take(j + 1 as int).last() == vs@[j as int]);
                }
                if vs[j] > m {
                    m = vs[j];
                }
                j += 1;
            }
            proof {
                assert(vs@.take(64) =~= vs@);
            }
        },
        None => {},
    }
    match &n.children {
        Some(ch) => {
            let mut s: usize = 0;
            while s < 64
                invariant
                    node_wf(*n, levels as int),
                    1 <= levels <= 3,
                    n.children == Some(*ch),
                    ch.len() == 64,
                    s <= 64,
                    m == max_u64(
                        max_u64(
                            seed,
                            match n.values {
                                Some(vs) => seq_max(vs@),
                                None => 0u64,
                            },
                        ),
                        row_max(ch@.take(s as int), levels as int - 1),
                    ),
                decreases 64 - s,
            {
                proof {
                    reveal_with_fuel(node_wf, 4);
                    assert(ch@.take(s + 1 as int).drop_last() =~= ch@.take(s as int));
                    assert(ch@.take(s + 1 as int).last() == ch@[s as int]);
                }
                let cslot: &Option<Node> = &ch[s];
                match cslot {
                    Some(cn) => {
                        m = max_value(cn, levels - 1, m);
                    },
                    None => {},
                }
                s += 1;
            }
            proof {
                assert(ch@.take(64) =~= ch@);
            }
        },
        None => {},
    }
    m
}

/// The name of the narrowest unsigned integer type that holds `v`.
pub open spec fn int_type_name(v: u64) -> Seq<char> {
    if v < 0x100 {
        "u8"@
    } else if v < 0x10000 {
        "u16"@
    } else if v < 0x100000000 {
        "u32"@
    } else {
        "u64"@
    }
}

/// Picks the narrowest unsigned integer type that can hold `v`.
pub fn get_int_type(v: u64) -> (r: &'static str)
    ensures
        r@ == int_type_name(v),
{
    if v < 0x100 {
        "u8"
    } else if v < 0x10000 {
        "u16"
    } else if v < 0x100000000 {
        "u32"
    } else {
        "u64"
    }
}

/// The compacted artifact: a flat table of decoded width codes, a flat
/// table of block references, and the narrowest integer type chosen for
/// each. Once built the tables are never mutated.
pub struct Tables {
    pub(crate) values: Vec<i8>,
    pub(crate) index: Vec<u64>,
    pub(crate) value_type: &'static str,
    pub(crate) index_type: &'static str,
}

impl Tables {
    /// The flat value table.
    pub open(crate) spec fn values_seq(self) -> Seq<i8> {
        self.values@
    }

    /// The flat index table.
    pub open(crate) spec fn index_seq(self) -> Seq<u64> {
        self.index@
    }

    /// The width code these tables resolve for the UTF-8 encoding of one
    /// character: an ASCII byte reads the value table directly, a lead byte
    /// selects a block reference from the root row and the walk refines it
    /// once per continuation byte.
    pub open(crate) spec fn lookup(self, bytes: Seq<u8>) -> i8 {
        if bytes.len() <= 1 {
            self.values@[bytes[0] as int]
        } else {
            walk(
                self.values@,
                self.index@,
                self.index@[bytes[0] as int] as int,
                bytes.drop_first(),
            )
        }
    }

    /// The resolution of `lookup` stays within both tables.
    pub open(crate) spec fn lookup_ok(self, bytes: Seq<u8>) -> bool {
        if bytes.len() <= 1 {
            0 <= bytes[0] < self.values@.len()
        } else {
            bytes[0] < self.index@.len() && walk_ok(
                self.values@,
                self.index@,
                self.index@[bytes[0] as int] as int,
                bytes.drop_first(),
            )
        }
    }

    /// The width code resolved for a character.
    pub open(crate) spec fn lookup_char(self, c: char) -> i8 {
        self.lookup(encode_scalar(c as u32))
    }

    /// The resolution for a character stays within both tables.
    pub open(crate) spec fn char_lookup_ok(self, c: char) -> bool {
        self.lookup_ok(encode_scalar(c as u32))
    }

    /// Well-formedness: the underlying tables are well formed, every stored
    /// value is a width code, and every character's lookup is in bounds.
    pub open(crate) spec fn wf(self) -> bool {
        &&& tables_wf(self.values@, self.index@)
        &&& forall|c: char| #[trigger] self.char_lookup_ok(c)
    }

    /// The flat value table, for rendering.
    pub fn value_table(&self) -> (r: &Vec<i8>)
        ensures
            r@ == self.values_seq(),
    {
        &self.values
    }

    /// The flat index table, for rendering.
    pub fn index_table(&self) -> (r: &Vec<u64>)
        ensures
            r@ == self.index_seq(),
    {
        &self.index
    }

    /// The name of the element type chosen for the value table.
    pub closed spec fn value_type_spec(self) -> Seq<char> {
        self.value_type@
    }

    /// The name of the element type chosen for the index table.
    pub closed spec fn index_type_spec(self) -> Seq<char> {
        self.index_type@
    }

    /// The element type chosen for the value table.
    pub fn value_type(&self) -> (r: &'static str)
        ensures
            r@ == self.value_type_spec(),
    {
        self.value_type
    }

    /// The element type chosen for the index table.
    pub fn index_type(&self) -> (r: &'static str)
        ensures
            r@ == self.index_type_spec(),
    {
        self.index_type
    }
}

impl Trie {
    /// Compacts this trie into its two flat width tables. Every character
    /// then resolves through the tables to exactly the decoded form of the
    /// value the trie assigned it.
    pub fn write_width_tables(self) -> (t: Tables)
        requires
            self.wf(),
        ensures
            t.wf(),
            forall|c: char| #[trigger] t.lookup_char(c) == decode_code(self.value_of(c)),
            t.value_type_spec() == int_type_name(trie_max(self)),
            t.index_type_spec() == int_type_name(max_u64(1, seq_max(t.index_seq()))),
    {
        let mut values: Vec<i8> = Vec::new();
        let mut i: usize = 0;
        while i < 128
            invariant
                self.wf(),
                i <= 128,
                values@.len() == i,
                forall|k: int|
                    0 <= k < i ==> values@[k] == decode_code(self.ascii@[k]) && -1
                        <= #[trigger] values@[k] <= 2,
            decreases 128 - i,
        {
            values.push(decode(self.ascii[i]));
            i += 1;
        }
        while values.len() < 192
            invariant
                self.wf(),
                128 <= values@.len() <= 192,
                forall|k: int|
                    0 <= k < 128 ==> values@[k] == decode_code(self.ascii@[k]) && -1
                        <= #[trigger] values@[k] <= 2,
                forall|k: int| 128 <= k < values@.len() ==> #[trigger] values@[k] == 1,
            decreases 192 - values@.len(),
        {
            values.push(1);
        }
        let mut index: Vec<u64> = Vec::new();
        while index.len() < 256
            invariant
                index@.len() <= 256,
                forall|k: int| 0 <= k < index@.len() ==> #[trigger] index@[k] == 0,
            decreases 256 - index@.len(),
        {
            index.push(0);
        }
        let mut b = Builder { values, index };
        proof {
            assert(b.wf());
        }
        let mut s: usize = 0;
        while s < 64
            invariant
                self.wf(),
                b.wf(),
                s <= 64,
                b.values@.len() >= 192,
                b.index@.len() >= 256,
                forall|k: int|
                    0 <= k < 128 ==> b.values@[k] == decode_code(self.ascii@[k]),
                forall|k: int| s <= k < 64 ==> #[trigger] b.index@[192 + k] == 0,
                forall|k: int|
                    0 <= k < s ==> match #[trigger] self.root@[k] {
                        Some(cn) => slot_ok(
                            b.values@,
                            b.index@,
                            b.index@[192 + k],
                            Some(cn),
                            slot_levels(k),
                        ),
                        None => b.index@[192 + k] == 0,
                    },
            decreases 64 - s,
        {
            let ghost pv = b.values@;
            let ghost pix = b.index@;
            let slot: &Option<Node> = &self.root[s];
            match slot {
                Some(cn) => {
                    let levels: u8 = if s < 32 {
                        1
                    } else if s < 48 {
                        2
                    } else {
                        3
                    };
                    proof {
                        assert(slot_levels(s as int) >= 1);
                        assert(levels as int == slot_levels(s as int));
                        assert(node_wf(*cn, levels as int));
                    }
                    let lc = b.compute_offsets(cn, levels);
                    let ghost pv2 = b.values@;
                    let ghost pix2 = b.index@;
                    proof {
                        assert((192 + s) < b.index@.len());
                    }
                    b.index.set(192 + s, lc as u64);
                    proof {
                        assert(b.index@ == pix2.update(192 + s as int, lc as u64));
                        assert(b.index@[192 + s as int] == lc as u64);
                        assert(b.wf()) by {
                            assert forall|l1: int, l2: int|
                                0 <= l1 < l2 < icount(b.index@) && l1 != 1 && l2 != 1 implies
                                #[trigger] irow(b.index@, l1) != #[trigger] irow(
                                b.index@,
                                l2,
                            ) by {
                                assert(irow(b.index@, l1) =~= irow(pix2, l1));
                                assert(irow(b.index@, l2) =~= irow(pix2, l2));
                            }
                        }
                        lemma_slot_ok_grow(
                            pv2,
                            pix2,
                            b.values@,
                            b.index@,
                            lc as u64,
                            Some(*cn),
                            levels as int,
                        );
                    }
                },
                None => {},
            }
            proof {
                assert forall|k: int| 0 <= k < s implies match #[trigger] self.root@[k] {
                    Some(cn) => slot_ok(
                        b.values@,
                        b.index@,
                        b.index@[192 + k],
                        Some(cn),
                        slot_levels(k),
                    ),
                    None => b.index@[192 + k] == 0,
                } by {
                    assert(192 + k < pix.len());
                    assert(b.index@[192 + k] == pix[192 + k]);
                    match self.root@[k] {
                        Some(cn) => {
                            lemma_slot_ok_grow(
                                pv,
                                pix,
                                b.values@,
                                b.index@,
                                pix[192 + k],
                                Some(cn),
                                slot_levels(k),
                            );
                        },
                        None => {},
                    }
                }
            }
            s += 1;
        }
        let mut vmax: u64 = 0;
        let mut i: usize = 0;
        while i < 128
            invariant
                self.wf(),
                i <= 128,
                vmax == seq_max(self.ascii@.take(i as int)),
            decreases 128 - i,
        {
            proof {
                assert(self.ascii@.take(i + 1 as int).drop_last() =~= self.ascii@.take(i as int));
                assert(self.ascii@.take(i + 1 as int).last() == self.ascii@[i as int]);
            }
            if self.ascii[i] > vmax {
                vmax = self.ascii[i];
            }
            i += 1;
        }
        proof {
            assert(self.ascii@.take(128) =~= self.ascii@);
        }
        let mut s2: usize = 0;
        while s2 < 64
            invariant
                self.wf(),
                s2 <= 64,
                vmax == max_u64(seq_max(self.ascii@), root_max(self.root@.take(s2 as int))),
            decreases 64 - s2,
        {
            proof {
                assert(self.root@.take(s2 + 1 as int).drop_last() =~= self.root@.take(s2 as int));
                assert(self.root@.take(s2 + 1 as int).last() == self.root@[s2 as int]);
            }
            let slot: &Option<Node> = &self.root[s2];
            match slot {
                Some(cn) => {
                    let levels: u8 = if s2 < 32 {
                        1
                    } else if s2 < 48 {
                        2
                    } else {
                        3
                    };
                    proof {
                        assert(levels as int == slot_levels(s2 as int));
                    }
                    vmax = max_value(cn, levels, vmax);
                },
                None => {},
            }
            s2 += 1;
        }
        proof {
            assert(self.root@.take(64) =~= self.root@);
        }
        let mut imax: u64 = 1;
        let mut i: usize = 0;
        while i < b.index.len()
            invariant
                i <= b.index@.len(),
                imax == max_u64(1, seq_max(b.index@.take(i as int))),
            decreases b.index@.len() - i,
        {
            proof {
                assert(b.index@.take(i + 1 as int).drop_last() =~= b.index@.take(i as int));
                assert(b.index@.take(i + 1 as int).last() == b.index@[i as int]);
            }
            if b.index[i] > imax {
                imax = b.index[i];
            }
            i += 1;
        }
        proof {
            assert(b.index@.take(b.index@.len() as int) =~= b.index@);
        }
        let t = Tables {
            values: b.values,
            index: b.index,
            value_type: get_int_type(vmax),
            index_type: get_int_type(imax),
        };
        proof {
            assert forall|c: char| #[trigger] t.lookup_char(c) == decode_code(self.value_of(c))
                && t.char_lookup_ok(c) by {
                lemma_char_bytes(c);
                let u = c as u32;
                let bs = encode_scalar(u);
                if u < 0x80 {
                    assert(t.lookup(bs) == t.values@[u as int]);
                } else {
                    let s0 = (bs[0] & 0x3F) as int;
                    assert(bs[0] as int == 192 + s0);
                    assert(2 <= s0 < 56);
                    let entry = t.index@[192 + s0];
                    match self.root@[s0] {
                        Some(cn) => {
                            assert(slot_ok(t.values@, t.index@, entry, Some(cn), slot_levels(s0)));
                            assert(bs.drop_first().len() == slot_levels(s0));
                            lemma_slot_ok_use(
                                t.values@,
                                t.index@,
                                entry,
                                Some(cn),
                                slot_levels(s0),
                                bs.drop_first(),
                            );
                        },
                        None => {
                            assert(entry == 0);
                            lemma_walk_zero(t.values@, t.index@, bs.drop_first());
                        },
                    }
                }
            }
            assert forall|c: char| #[trigger] t.char_lookup_ok(c) by {
                assert(t.lookup_char(c) == decode_code(self.value_of(c)) && t.char_lookup_ok(c));
            }
            assert(t.wf());
        }
        t
    }
}

/// A walk within bounds reads a stored width code.
pub proof fn lemma_walk_in_range(v: Seq<i8>, ix: Seq<u64>, l: int, bytes: Seq<u8>)
    requires
        tables_wf(v, ix),
        walk_ok(v, ix, l, bytes),
        bytes.len() >= 1,
    ensures
        -1 <= walk(v, ix, l, bytes) <= 2,
    decreases bytes.len(),
{
    lemma_low6(bytes[0]);
    if bytes.len() <= 1 {
    } else {
        lemma_walk_in_range(v, ix, ix[(l + 2) * 64 + (bytes[0] & 0x3F)] as int, bytes.drop_first());
    }
}

/// Every character's lookup lands on a stored width code.
pub proof fn lemma_lookup_char_in_range(t: Tables, c: char)
    requires
        t.wf(),
    ensures
        -1 <= t.lookup_char(c) <= 2,
{
    assert(t.char_lookup_ok(c));
    let bs = encode_scalar(c as u32);
    lemma_char_bytes(c);
    if bs.len() <= 1 {
    } else {
        lemma_walk_in_range(
            t.values@,
            t.index@,
            t.index@[bs[0] as int] as int,
            bs.drop_first(),
        );
    }
}

/// In a well-formed pair of tables no two value blocks hold the same
/// content: two leaf blocks with identical 64 entries are necessarily
/// served by one shared block index.
pub proof fn lemma_value_blocks_distinct(t: Tables, l1: int, l2: int)
    requires
        t.wf(),
        0 <= l1 < vcount(t.values_seq()),
        0 <= l2 < vcount(t.values_seq()),
        l1 != l2,
    ensures
        vblock(t.values_seq(), l1) != vblock(t.values_seq(), l2),
{
}

/// Dedup correctness at build time: two leaves lowered to identical
/// 64-entry decoded content necessarily received one shared block index,
/// because a well-formed table pair never holds two equal blocks.
pub proof fn lemma_leaf_dedup(v: Seq<i8>, ix: Seq<u64>, l1: int, l2: int)
    requires
        tables_wf(v, ix),
        0 <= l1 < vcount(v),
        0 <= l2 < vcount(v),
        vblock(v, l1) == vblock(v, l2),
    ensures
        l1 == l2,
{
}

/// Two tries that assign the same value to every character compact to
/// tables with identical lookup behaviour for every character, whatever
/// insertion order produced the tries.
pub proof fn lemma_order_independence(t1: Trie, t2: Trie, tb1: Tables, tb2: Tables)
    requires
        forall|c: char| #[trigger] t1.value_of(c) == t2.value_of(c),
        forall|c: char| #[trigger] tb1.lookup_char(c) == decode_code(t1.value_of(c)),
        forall|c: char| #[trigger] tb2.lookup_char(c) == decode_code(t2.value_of(c)),
    ensures
        forall|c: char| #[trigger] tb1.lookup_char(c) == tb2.lookup_char(c),
{
}

} // verus!
