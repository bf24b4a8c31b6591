//! The per-codepoint trie, keyed by UTF-8 byte structure.
//!
//! The root holds a value array for the ASCII range and, for each possible
//! low-six-bit pattern of a lead byte, an optional subtree. Every other node
//! is either an internal node (64 child slots, one per continuation-byte
//! pattern) or a leaf (64 encoded width values). A two-byte character's
//! subtree is a single leaf, a three-byte character's a node over leaves,
//! a four-byte character's one level deeper.

use vstd::prelude::*;
use vstd::utf8::encode_scalar;

verus! {

broadcast use vstd::utf8::char_is_scalar;

/// The structural failures that trie construction guards against.
/// For tries reached only through `Trie::new` and `Trie::insert` they are
/// proven never to occur: `insert` ensures an `Ok` result.
#[derive(Clone, Copy, Debug, PartialEq, Eq, Structural)]
pub enum WidthError {
    /// A byte prefix was asked to continue below an existing leaf, which
    /// only overlapping or out-of-order range input could cause.
    InvalidRangeOrdering,
    /// A node holding child blocks was asked to hold a value block.
    BlockKindMismatch,
}

/// A non-root trie node: child slots for an internal node, encoded width
/// values for a leaf, at most one of the two present.
pub struct Node {
    pub(crate) children: Option<Vec<Option<Node>>>,
    pub(crate) values: Option<Vec<u64>>,
}

/// The intermediate trie mapping every codepoint to an encoded width value.
pub struct Trie {
    pub(crate) ascii: Vec<u64>,
    pub(crate) root: Vec<Option<Node>>,
}

/// How many levels of nodes stand below the root for a given root slot:
/// lead bytes of two-byte characters map to slots 2-31 (a leaf), three-byte
/// lead bytes to 32-47 (a node over leaves), four-byte lead bytes to 48-55.
pub open spec fn slot_levels(s: int) -> int {
    if 2 <= s < 32 {
        1
    } else if 32 <= s < 48 {
        2
    } else if 48 <= s < 56 {
        3
    } else {
        0
    }
}

/// Well-formedness of a subtree expected to be `levels` nodes deep:
/// leaves exactly at the bottom, internal nodes above, every block 64 wide,
/// every stored value in the two-bit encoded domain.
pub open(crate) spec fn node_wf(n: Node, levels: int) -> bool
    decreases levels,
{
    if levels <= 1 {
        &&& n.children is None
        &&& match n.values {
            Some(vs) => vs.len() == 64 && (forall|i: int| 0 <= i < 64 ==> vs[i] < 4),
            None => false,
        }
    } else {
        &&& n.values is None
        &&& match n.children {
            Some(ch) => ch.len() == 64 && (forall|s: int|
                0 <= s < 64 ==> match #[trigger] ch[s] {
                    Some(cn) => node_wf(cn, levels - 1),
                    None => true,
                }),
            None => false,
        }
    }
}

/// The value a subtree assigns to a sequence of continuation bytes, each
/// byte selecting a slot by its low six bits; absent paths give 0.
pub open(crate) spec fn subtree_lookup(n: Node, bytes: Seq<u8>) -> u64
    decreases bytes.len(),
{
    if bytes.len() <= 1 {
        match n.values {
            Some(vs) => if bytes.len() == 1 && (bytes[0] & 0x3F) < vs.len() {
                vs[(bytes[0] & 0x3F) as int]
            } else {
                0
            },
            None => 0,
        }
    } else {
        match n.children {
            Some(ch) => if (bytes[0] & 0x3F) < ch.len() {
                match ch[(bytes[0] & 0x3F) as int] {
                    Some(cn) => subtree_lookup(cn, bytes.drop_first()),
                    None => 0,
                }
            } else {
                0
            },
            None => 0,
        }
    }
}

/// True when a subtree assigns 0 everywhere.
pub open(crate) spec fn node_all_zero(n: Node, levels: int) -> bool
    decreases levels,
{
    if levels <= 1 {
        match n.values {
            Some(vs) => forall|i: int| 0 <= i < vs.len() ==> vs[i] == 0,
            None => true,
        }
    } else {
        match n.children {
            Some(ch) => forall|s: int|
                0 <= s < ch.len() ==> match #[trigger] ch[s] {
                    Some(cn) => node_all_zero(cn, levels - 1),
                    None => true,
                },
            None => true,
        }
    }
}

impl Trie {
    /// Structural invariant: the ASCII array spans the full single-byte
    /// range, the dispatch row has one slot per lead-byte pattern, and each
    /// subtree is exactly as deep as its lead byte's UTF-8 class demands.
    pub open(crate) spec fn wf(self) -> bool {
        &&& self.ascii.len() == 0x80
        &&& (forall|i: int| 0 <= i < 0x80 ==> self.ascii[i] < 4)
        &&& self.root.len() == 64
        &&& (forall|s: int|
            0 <= s < 64 ==> match #[trigger] self.root[s] {
                Some(n) => slot_levels(s) >= 1 && node_wf(n, slot_levels(s)),
                None => true,
            })
    }

    /// The encoded width value the trie assigns to a character: the entry
    /// written by the last `insert` of that character, or 0 if none was.
    pub open(crate) spec fn value_of(self, c: char) -> u64 {
        let bs = encode_scalar(c as u32);
        if bs.len() == 1 {
            if 0 <= bs[0] < self.ascii.len() {
                self.ascii[bs[0] as int]
            } else {
                0
            }
        } else {
            if (bs[0] & 0x3F) < self.root.len() {
                match self.root[(bs[0] & 0x3F) as int] {
                    Some(n) => subtree_lookup(n, bs.drop_first()),
                    None => 0,
                }
            } else {
                0
            }
        }
    }

    /// A trie that assigns 0 to every character.
    pub fn new() -> (t: Trie)
        ensures
            t.wf(),
            forall|c: char| t.value_of(c) == 0,
    {
        let mut ascii: Vec<u64> = Vec::new();
        while ascii.len() < 0x80
            invariant
                ascii.len() <= 0x80,
                forall|i: int| 0 <= i < ascii.len() ==> ascii[i] == 0,
            decreases 0x80 - ascii.len(),
        {
            ascii.push(0);
        }
        let mut root: Vec<Option<Node>> = Vec::new();
        while root.len() < 64
            invariant
                root.len() <= 64,
                forall|s: int| 0 <= s < root.len() ==> root[s] is None,
            decreases 64 - root.len(),
        {
            root.push(None);
        }
        let t = Trie { ascii, root };
        proof {
            assert forall|c: char| t.value_of(c) == 0 by {
                lemma_char_bytes(c);
            }
        }
        t
    }
}

/// Removing an element and inserting another at the same position updates
/// that position and leaves the rest of the sequence alone.
pub proof fn lemma_remove_insert_update<A>(s: Seq<A>, i: int, x: A)
    requires
        0 <= i < s.len(),
    ensures
        s.remove(i).insert(i, x) =~= s.update(i, x),
{
}

impl Trie {
    /// Associates `value` (in encoded form) with the character `r`; a zero
    /// value is the default and leaves the trie unchanged. Inserting into a
    /// well-formed trie always succeeds: the structural error returns guard
    /// conflicts that no sequence of inserts can produce.
    #[verifier::rlimit(100)]
    pub fn insert(&mut self, r: char, value: u64) -> (res: Result<(), WidthError>)
        requires
            old(self).wf(),
            value < 4,
        ensures
            final(self).wf(),
            res is Ok,
            final(self).value_of(r) == if value == 0 {
                old(self).value_of(r)
            } else {
                value
            },
            forall|c2: char| c2 != r ==> final(self).value_of(c2) == old(self).value_of(c2),
    {
        if value == 0 {
            return Ok(());
        }
        let u = r as u32;
        proof {
            lemma_char_bytes(r);
        }
        if u < 0x80 {
            self.ascii.set(u as usize, value);
            proof {
                assert(self.value_of(r) == value);
                assert forall|c2: char| c2 != r implies self.value_of(c2) == old(
                    self,
                ).value_of(c2) by {
                    lemma_char_bytes(c2);
                    let u2 = c2 as u32;
                    if u2 < 0x80 && u2 == u {
                        assert(encode_scalar(c2 as u32) == encode_scalar(r as u32));
                        lemma_encode_scalar_injective(c2, r);
                    }
                }
            }
            return Ok(());
        }
        if u < 0x800 {
            let s0: usize = (u >> 6) as usize;
            let sl: usize = (u & 0x3F) as usize;
            proof {
                lemma_bits2(u);
            }
            let taken: Option<Node> = self.root.remove(s0);
            let mut vs: Vec<u64> = match taken {
                Some(nd) => {
                    let Node { children, values } = nd;
                    if children.is_some() {
                        proof {
                            reveal_with_fuel(node_wf, 4);
                            assert(false);
                        }
                        self.root.insert(s0, Some(Node { children, values }));
                        return Err(WidthError::BlockKindMismatch);
                    }
                    match values {
                        Some(v) => v,
                        None => zero_block(),
                    }
                },
                None => zero_block(),
            };
            proof {
                reveal_with_fuel(node_wf, 4);
                assert(vs.len() == 64);
            }
            proof {
            reveal_with_fuel(node_wf, 4);
            assert(vs.len() == 64);
        }
        vs.set(sl, value);
            self.root.insert(s0, Some(Node { children: None, values: Some(vs) }));
            proof {
                reveal_with_fuel(subtree_lookup, 3);
                reveal_with_fuel(node_wf, 4);
                lemma_remove_insert_update(
                    old(self).root@,
                    s0 as int,
                    self.root@[s0 as int],
                );
                assert(self.root@ =~= old(self).root@.update(s0 as int, self.root@[s0 as int]));
                assert(node_wf(self.root@[s0 as int]->Some_0, 1));
                assert(self.wf());
                assert(self.value_of(r) == value);
                assert forall|c2: char| c2 != r implies self.value_of(c2) == old(
                    self,
                ).value_of(c2) by {
                    lemma_char_bytes(c2);
                    let u2 = c2 as u32;
                    if 0x80 <= u2 < 0x800 {
                        lemma_bits2(u2);
                        if (u2 >> 6) == (u >> 6) && (u2 & 0x3F) == (u & 0x3F) {
                            assert(u2 == u);
                            vstd::utf8::char_u32_cast(c2, u2);
                            vstd::utf8::char_u32_cast(r, u);
                            assert(false);
                        }
                    }
                }
            }
            return Ok(());
        }
        if u < 0x10000 {
            let s0: usize = (32 + (u >> 12)) as usize;
            let s1: usize = ((u >> 6) & 0x3F) as usize;
            let sl: usize = (u & 0x3F) as usize;
            proof {
                lemma_bits3(u);
            }
            let taken: Option<Node> = self.root.remove(s0);
            let mut ch: Vec<Option<Node>> = match taken {
                Some(nd) => {
                    let Node { children, values } = nd;
                    if values.is_some() {
                        proof {
                            reveal_with_fuel(node_wf, 4);
                            assert(false);
                        }
                        self.root.insert(s0, Some(Node { children, values }));
                        return Err(WidthError::InvalidRangeOrdering);
                    }
                    match children {
                        Some(c) => c,
                        None => empty_row(),
                    }
                },
                None => empty_row(),
            };
            proof {
                reveal_with_fuel(node_wf, 4);
                assert(ch.len() == 64);
            }
            proof {
            reveal_with_fuel(node_wf, 4);
            assert(ch.len() == 64);
        }
        let taken1: Option<Node> = ch.remove(s1);
            let mut vs: Vec<u64> = match taken1 {
                Some(nd) => {
                    let Node { children, values } = nd;
                    if children.is_some() {
                        proof {
                            reveal_with_fuel(node_wf, 4);
                            assert(false);
                        }
                        ch.insert(s1, Some(Node { children, values }));
                        self.root.insert(s0, Some(Node { children: Some(ch), values: None }));
                        return Err(WidthError::BlockKindMismatch);
                    }
                    match values {
                        Some(v) => v,
                        None => zero_block(),
                    }
                },
                None => zero_block(),
            };
            proof {
                reveal_with_fuel(node_wf, 4);
                assert(vs.len() == 64);
            }
            proof {
            reveal_with_fuel(node_wf, 4);
            assert(vs.len() == 64);
        }
        vs.set(sl, value);
            ch.insert(s1, Some(Node { children: None, values: Some(vs) }));
            self.root.insert(s0, Some(Node { children: Some(ch), values: None }));
            proof {
                reveal_with_fuel(subtree_lookup, 3);
                reveal_with_fuel(node_wf, 4);
                lemma_remove_insert_update(
                    old(self).root@,
                    s0 as int,
                    self.root@[s0 as int],
                );
                assert(self.root@ =~= old(self).root@.update(s0 as int, self.root@[s0 as int]));
                let newch = self.root@[s0 as int]->Some_0.children->Some_0;
                let ghost oldch: Seq<Option<Node>> = match old(self).root@[s0 as int] {
                    Some(nd) => match nd.children {
                        Some(c) => c@,
                        None => newch@,
                    },
                    None => newch@,
                };
                lemma_remove_insert_update(oldch, s1 as int, newch@[s1 as int]);
                assert(newch@ =~= oldch.update(s1 as int, newch@[s1 as int]));
                assert(node_wf(self.root@[s0 as int]->Some_0, 2));
                assert(self.wf());
                assert(self.value_of(r) == value);
                assert forall|c2: char| c2 != r implies self.value_of(c2) == old(
                    self,
                ).value_of(c2) by {
                    lemma_char_bytes(c2);
                    let u2 = c2 as u32;
                    if 0x800 <= u2 < 0x10000 {
                        lemma_bits3(u2);
                        if (u2 >> 12) == (u >> 12) && ((u2 >> 6) & 0x3F) == ((u >> 6) & 0x3F)
                            && (u2 & 0x3F) == (u & 0x3F) {
                            assert(u2 == u);
                            vstd::utf8::char_u32_cast(c2, u2);
                            vstd::utf8::char_u32_cast(r, u);
                            assert(false);
                        }
                    }
                }
            }
            return Ok(());
        }
        let s0: usize = (48 + (u >> 18)) as usize;
        let s1: usize = ((u >> 12) & 0x3F) as usize;
        let s2: usize = ((u >> 6) & 0x3F) as usize;
        let sl: usize = (u & 0x3F) as usize;
        proof {
            lemma_bits4(u);
        }
        let taken: Option<Node> = self.root.remove(s0);
        let mut ch: Vec<Option<Node>> = match taken {
            Some(nd) => {
                let Node { children, values } = nd;
                if values.is_some() {
                    proof {
                        reveal_with_fuel(node_wf, 4);
                        assert(false);
                    }
                    self.root.insert(s0, Some(Node { children, values }));
                    return Err(WidthError::InvalidRangeOrdering);
                }
                match children {
                    Some(c) => c,
                    None => empty_row(),
                }
            },
            None => empty_row(),
        };
        proof {
            reveal_with_fuel(node_wf, 4);
            assert(ch.len() == 64);
        }
        let taken1: Option<Node> = ch.remove(s1);
        let mut ch2: Vec<Option<Node>> = match taken1 {
            Some(nd) => {
                let Node { children, values } = nd;
                if values.is_some() {
                    proof {
                        reveal_with_fuel(node_wf, 4);
                        assert(false);
                    }
                    ch.insert(s1, Some(Node { children, values }));
                    self.root.insert(s0, Some(Node { children: Some(ch), values: None }));
                    return Err(WidthError::InvalidRangeOrdering);
                }
                match children {
                    Some(c) => c,
                    None => empty_row(),
                }
            },
            None => empty_row(),
        };
        proof {
            reveal_with_fuel(node_wf, 4);
            assert(ch2.len() == 64);
        }
        let taken2: Option<Node> = ch2.remove(s2);
        let mut vs: Vec<u64> = match taken2 {
            Some(nd) => {
                let Node { children, values } = nd;
                if children.is_some() {
                    proof {
                        reveal_with_fuel(node_wf, 4);
                        assert(false);
                    }
                    ch2.insert(s2, Some(Node { children, values }));
                    ch.insert(s1, Some(Node { children: Some(ch2), values: None }));
                    self.root.insert(s0, Some(Node { children: Some(ch), values: None }));
                    return Err(WidthError::BlockKindMismatch);
                }
                match values {
                    Some(v) => v,
                    None => zero_block(),
                }
            },
            None => zero_block(),
        };
        proof {
            reveal_with_fuel(node_wf, 4);
            assert(vs.len() == 64);
        }
        vs.set(sl, value);
        ch2.insert(s2, Some(Node { children: None, values: Some(vs) }));
        ch.insert(s1, Some(Node { children: Some(ch2), values: None }));
        self.root.insert(s0, Some(Node { children: Some(ch), values: None }));
        proof {
            reveal_with_fuel(subtree_lookup, 4);
            reveal_with_fuel(node_wf, 4);
            lemma_remove_insert_update(old(self).root@, s0 as int, self.root@[s0 as int]);
            assert(self.root@ =~= old(self).root@.update(s0 as int, self.root@[s0 as int]));
            let newch = self.root@[s0 as int]->Some_0.children->Some_0;
            let ghost oldch: Seq<Option<Node>> = match old(self).root@[s0 as int] {
                Some(nd) => match nd.children {
                    Some(c) => c@,
                    None => newch@,
                },
                None => newch@,
            };
            lemma_remove_insert_update(oldch, s1 as int, newch@[s1 as int]);
            assert(newch@ =~= oldch.update(s1 as int, newch@[s1 as int]));
            let newch2 = newch@[s1 as int]->Some_0.children->Some_0;
            let ghost oldch2: Seq<Option<Node>> = match oldch[s1 as int] {
                Some(nd) => match nd.children {
                    Some(c) => c@,
                    None => newch2@,
                },
                None => newch2@,
            };
            lemma_remove_insert_update(oldch2, s2 as int, newch2@[s2 as int]);
            assert(newch2@ =~= oldch2.update(s2 as int, newch2@[s2 as int]));
            assert(node_wf(self.root@[s0 as int]->Some_0, 3));
            assert(self.wf());
            assert(self.value_of(r) == value);
            assert forall|c2: char| c2 != r implies self.value_of(c2) == old(self).value_of(
                c2,
            ) by {
                lemma_char_bytes(c2);
                let u2 = c2 as u32;
                if 0x10000 <= u2 {
                    lemma_bits4(u2);
                    if (u2 >> 18) == (u >> 18) && ((u2 >> 12) & 0x3F) == ((u >> 12) & 0x3F) && ((
                    u2 >> 6) & 0x3F) == ((u >> 6) & 0x3F) && (u2 & 0x3F) == (u & 0x3F) {
                        assert(u2 == u);
                        vstd::utf8::char_u32_cast(c2, u2);
                        vstd::utf8::char_u32_cast(r, u);
                        assert(false);
                    }
                }
            }
        }
        Ok(())
    }
}

/// A 64-entry all-zero value block.
pub(crate) fn zero_block() -> (v: Vec<u64>)
    ensures
        v.len() == 64,
        forall|i: int| 0 <= i < 64 ==> v[i] == 0,
{
    let mut v: Vec<u64> = Vec::new();
    while v.len() < 64
        invariant
            v.len() <= 64,
            forall|i: int| 0 <= i < v.len() ==> v[i] == 0,
        decreases 64 - v.len(),
    {
        v.push(0);
    }
    v
}

/// A 64-slot row with no children.
pub(crate) fn empty_row() -> (v: Vec<Option<Node>>)
    ensures
        v.len() == 64,
        forall|s: int| 0 <= s < 64 ==> v[s] is None,
{
    let mut v: Vec<Option<Node>> = Vec::new();
    while v.len() < 64
        invariant
            v.len() <= 64,
            forall|s: int| 0 <= s < v.len() ==> v[s] is None,
        decreases 64 - v.len(),
    {
        v.push(None);
    }
    v
}

proof fn lemma_bits1(u: u32)
    by (bit_vector)
    requires
        u < 0x80,
    ensures
        (u & 0x7F) == u,
{
}

proof fn lemma_bits2(u: u32)
    by (bit_vector)
    requires
        0x80 <= u < 0x800,
    ensures
        (0xC0u8 | (((u >> 6) & 0x1F) as u8)) & 0x3F == (u >> 6) as u8,
        2 <= (u >> 6) < 32,
        (0x80u8 | ((u & 0x3F) as u8)) & 0x3F == (u & 0x3F) as u8,
        (u & 0x3F) < 64,
        (0xC0u8 | (((u >> 6) & 0x1F) as u8)) == 192u8 + ((u >> 6) as u8),
        ((u >> 6) << 6) | (u & 0x3F) == u,
        (u >> 6) as u8 as u32 == (u >> 6),
        (u & 0x3F) as u8 as u32 == (u & 0x3F),
{
}

proof fn lemma_bits3(u: u32)
    by (bit_vector)
    requires
        0x800 <= u < 0x10000,
    ensures
        (0xE0u8 | (((u >> 12) & 0x0F) as u8)) & 0x3F == 0x20u8 + ((u >> 12) as u8),
        (u >> 12) < 16,
        (0x80u8 | (((u >> 6) & 0x3F) as u8)) & 0x3F == ((u >> 6) & 0x3F) as u8,
        ((u >> 6) & 0x3F) < 64,
        (0x80u8 | ((u & 0x3F) as u8)) & 0x3F == (u & 0x3F) as u8,
        (u & 0x3F) < 64,
        (0xE0u8 | (((u >> 12) & 0x0F) as u8)) == 224u8 + ((u >> 12) as u8),
        ((u >> 12) << 12) | (((u >> 6) & 0x3F) << 6) | (u & 0x3F) == u,
        (u >> 12) as u8 as u32 == (u >> 12),
        ((u >> 6) & 0x3F) as u8 as u32 == ((u >> 6) & 0x3F),
        (u & 0x3F) as u8 as u32 == (u & 0x3F),
{
}

proof fn lemma_bits4(u: u32)
    by (bit_vector)
    requires
        0x10000 <= u <= 0x10FFFF,
    ensures
        (0xF0u8 | (((u >> 18) & 0x7) as u8)) & 0x3F == 0x30u8 + ((u >> 18) as u8),
        (u >> 18) <= 4,
        (0x80u8 | (((u >> 12) & 0x3F) as u8)) & 0x3F == ((u >> 12) & 0x3F) as u8,
        ((u >> 12) & 0x3F) < 64,
        (0x80u8 | (((u >> 6) & 0x3F) as u8)) & 0x3F == ((u >> 6) & 0x3F) as u8,
        ((u >> 6) & 0x3F) < 64,
        (0x80u8 | ((u & 0x3F) as u8)) & 0x3F == (u & 0x3F) as u8,
        (u & 0x3F) < 64,
        (0xF0u8 | (((u >> 18) & 0x7) as u8)) == 240u8 + ((u >> 18) as u8),
        ((u >> 18) << 18) | (((u >> 12) & 0x3F) << 12) | (((u >> 6) & 0x3F) << 6) | (u & 0x3F)
            == u,
        (u >> 18) as u8 as u32 == (u >> 18),
        ((u >> 12) & 0x3F) as u8 as u32 == ((u >> 12) & 0x3F),
        ((u >> 6) & 0x3F) as u8 as u32 == ((u >> 6) & 0x3F),
        (u & 0x3F) as u8 as u32 == (u & 0x3F),
{
}

/// The shape of a character's UTF-8 encoding, with each byte's low six bits
/// written as shift-and-mask arithmetic on the scalar value.
pub proof fn lemma_char_bytes(c: char)
    ensures
        ({
            let u = c as u32;
            let bs = encode_scalar(u);
            &&& (u < 0x80 ==> bs.len() == 1 && bs[0] == u as u8 && bs[0] < 0x80)
            &&& (0x80 <= u < 0x800 ==> {
                &&& bs.len() == 2
                &&& bs[0] as int == 192 + (bs[0] & 0x3F) as int
                &&& (bs[0] & 0x3F) as int == (u >> 6) as int
                &&& 2 <= (u >> 6) < 32
                &&& (bs[1] & 0x3F) as int == (u & 0x3F) as int
                &&& (u & 0x3F) < 64
            })
            &&& (0x800 <= u < 0x10000 ==> {
                &&& bs.len() == 3
                &&& bs[0] as int == 192 + (bs[0] & 0x3F) as int
                &&& (bs[0] & 0x3F) as int == 32 + (u >> 12) as int
                &&& (u >> 12) < 16
                &&& (bs[1] & 0x3F) as int == ((u >> 6) & 0x3F) as int
                &&& ((u >> 6) & 0x3F) < 64
                &&& (bs[2] & 0x3F) as int == (u & 0x3F) as int
                &&& (u & 0x3F) < 64
            })
            &&& (0x10000 <= u ==> {
                &&& u <= 0x10FFFF
                &&& bs.len() == 4
                &&& bs[0] as int == 192 + (bs[0] & 0x3F) as int
                &&& (bs[0] & 0x3F) as int == 48 + (u >> 18) as int
                &&& (u >> 18) <= 4
                &&& (bs[1] & 0x3F) as int == ((u >> 12) & 0x3F) as int
                &&& ((u >> 12) & 0x3F) < 64
                &&& (bs[2] & 0x3F) as int == ((u >> 6) & 0x3F) as int
                &&& ((u >> 6) & 0x3F) < 64
                &&& (bs[3] & 0x3F) as int == (u & 0x3F) as int
                &&& (u & 0x3F) < 64
            })
        }),
{
    let u = c as u32;
    if u < 0x80 {
        lemma_bits1(u);
    } else if u < 0x800 {
        lemma_bits2(u);
    } else if u < 0x10000 {
        lemma_bits3(u);
    } else {
        lemma_bits4(u);
    }
}

/// A one-character sequence encodes to exactly that character's scalar encoding.
pub proof fn lemma_encode_utf8_single(c: char)
    ensures
        vstd::utf8::encode_utf8(seq![c]) == encode_scalar(c as u32),
{
    let s = seq![c];
    assert(s.drop_first() =~= Seq::<char>::empty());
    assert(vstd::utf8::encode_utf8(Seq::<char>::empty()) =~= Seq::<u8>::empty());
    assert(vstd::utf8::encode_utf8(s) =~= encode_scalar(c as u32) + Seq::<u8>::empty());
    assert(encode_scalar(c as u32) + Seq::<u8>::empty() =~= encode_scalar(c as u32));
}

/// Encoding a concatenation of characters concatenates their encodings.
pub proof fn lemma_encode_utf8_concat(a: Seq<char>, b: Seq<char>)
    ensures
        vstd::utf8::encode_utf8(a + b) == vstd::utf8::encode_utf8(a) + vstd::utf8::encode_utf8(b),
    decreases a.len(),
{
    if a.len() == 0 {
        assert(a + b =~= b);
        assert(vstd::utf8::encode_utf8(a) =~= Seq::<u8>::empty());
        assert(vstd::utf8::encode_utf8(a) + vstd::utf8::encode_utf8(b) =~= vstd::utf8::encode_utf8(
            b,
        ));
    } else {
        assert((a + b)[0] == a[0]);
        assert((a + b).drop_first() =~= a.drop_first() + b);
        lemma_encode_utf8_concat(a.drop_first(), b);
        assert(vstd::utf8::encode_utf8(a + b) =~= encode_scalar(a[0] as u32)
            + vstd::utf8::encode_utf8((a + b).drop_first()));
        assert(vstd::utf8::encode_utf8(a) =~= encode_scalar(a[0] as u32)
            + vstd::utf8::encode_utf8(a.drop_first()));
        assert(encode_scalar(a[0] as u32) + (vstd::utf8::encode_utf8(a.drop_first())
            + vstd::utf8::encode_utf8(b)) =~= (encode_scalar(a[0] as u32)
            + vstd::utf8::encode_utf8(a.drop_first())) + vstd::utf8::encode_utf8(b));
    }
}

/// Two characters whose UTF-8 encodings agree are the same character.
pub proof fn lemma_encode_scalar_injective(c1: char, c2: char)
    requires
        encode_scalar(c1 as u32) == encode_scalar(c2 as u32),
    ensures
        c1 == c2,
{
    vstd::utf8::encode_utf8_first_scalar(seq![c1]);
    vstd::utf8::encode_utf8_first_scalar(seq![c2]);
    lemma_encode_utf8_single(c1);
    lemma_encode_utf8_single(c2);
    assert(c1 as u32 == c2 as u32);
    vstd::utf8::char_u32_cast(c1, c1 as u32);
    vstd::utf8::char_u32_cast(c2, c2 as u32);
}

} // verus!
