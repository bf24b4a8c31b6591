//! Terminal display width of Unicode characters and strings.
//!
//! A compact pair of flat arrays, built once from per-codepoint width
//! assignments, resolves the display width of a character in at most four
//! array reads, walking the UTF-8 bytes directly without decoding them.

use vstd::prelude::*;

pub mod codes;
pub mod tables;
pub mod trie;
pub mod ucd;

pub use codes::decode;
pub use codes::encode;
pub use tables::Builder;
pub use tables::Tables;
pub use trie::Trie;
pub use trie::WidthError;
pub use ucd::add_range;
pub use ucd::make_table;
pub use ucd::parse_range;
pub use ucd::parse_ucd;
pub use ucd::sort_ranges;
pub use ucd::split2;
pub use ucd::strip_line;

use vstd::utf8::encode_scalar;

verus! {

broadcast use vstd::utf8::char_is_scalar;

/// The UTF-8 encoding of one character.
pub fn utf8_encode(c: char) -> (v: Vec<u8>)
    ensures
        v@ == encode_scalar(c as u32),
        1 <= v@.len() <= 4,
{
    let u = c as u32;
    let mut v: Vec<u8> = Vec::new();
    if u < 0x80 {
        v.push((u & 0x7F) as u8);
        proof {
            assert(v@ =~= encode_scalar(u));
        }
    } else if u < 0x800 {
        v.push(0xC0 | (((u >> 6) & 0x1F) as u8));
        v.push(0x80 | ((u & 0x3F) as u8));
        proof {
            assert(v@ =~= encode_scalar(u));
        }
    } else if u < 0x10000 {
        v.push(0xE0 | (((u >> 12) & 0x0F) as u8));
        v.push(0x80 | (((u >> 6) & 0x3F) as u8));
        v.push(0x80 | ((u & 0x3F) as u8));
        proof {
            assert(v@ =~= encode_scalar(u));
        }
    } else {
        v.push(0xF0 | (((u >> 18) & 0x7) as u8));
        v.push(0x80 | (((u >> 12) & 0x3F) as u8));
        v.push(0x80 | (((u >> 6) & 0x3F) as u8));
        v.push(0x80 | ((u & 0x3F) as u8));
        proof {
            assert(v@ =~= encode_scalar(u));
        }
    }
    v
}

/// True when the byte sequence starts with this character's UTF-8 encoding.
pub open spec fn char_prefix_at(s: Seq<u8>, c: char) -> bool {
    encode_scalar(c as u32).is_prefix_of(s)
}

/// True when some character's UTF-8 encoding starts the byte sequence.
pub open spec fn has_char_prefix(s: Seq<u8>) -> bool {
    exists|c: char| #[trigger] char_prefix_at(s, c)
}

/// Resolves the width code of the first character encoded in `s`, returning
/// the code and the number of bytes consumed: one lookup per byte of the
/// character's UTF-8 encoding, against the value table for the last byte
/// and the index table for the bytes before it.
pub fn lookup_bytes(t: &Tables, s: &[u8]) -> (r: (i8, usize))
    requires
        t.wf(),
        has_char_prefix(s@),
    ensures
        forall|c: char|
            #[trigger] char_prefix_at(s@, c) ==> r.0 == t.lookup(encode_scalar(c as u32))
                && r.1 == encode_scalar(c as u32).len(),
        -1 <= r.0 <= 2,
{
    let ghost cw: char = choose|c: char| #[trigger] char_prefix_at(s@, c);
    proof {
        assert(char_prefix_at(s@, cw));
    }
    let ghost bs = encode_scalar(cw as u32);
    proof {
        trie::lemma_char_bytes(cw);
        assert(t.char_lookup_ok(cw));
        tables::lemma_lookup_char_in_range(*t, cw);
    }
    let c0 = s[0];
    if c0 < 0x80 {
        proof {
            assert(bs[0] == s@[0]);
            assert(bs.len() == 1) by {
                if (cw as u32) >= 0x80 {
                    assert(bs[0] as int == 192 + (bs[0] & 0x3F) as int);
                    tables::lemma_low6(bs[0]);
                }
            }
            assert(t.lookup(bs) == t.values_seq()[c0 as int]);
        }
        let r = (t.value_table()[c0 as usize], 1);
        proof {
            lemma_unique_prefix(cw, s@);
        }
        r
    } else {
        proof {
            assert(bs.len() >= 2) by {
                if (cw as u32) < 0x80 {
                    assert(bs[0] == (cw as u32) as u8);
                }
            }
            assert(bs[0] == s@[0]);
            assert(bs[0] == c0);
            assert(c0 as int == 192 + (c0 & 0x3F) as int);
            assert((c0 as int) < t.index_seq().len());
        }
        let i0 = t.index_table()[c0 as usize];
        let ghost rest = bs.drop_first();
        proof {
            assert(tables::walk_ok(t.values_seq(), t.index_seq(), i0 as int, rest));
            tables::lemma_low6(s@[1]);
        }
        if c0 < 0xE0 {
            proof {
                assert(bs.len() == 2);
                assert(rest.len() == 1);
                assert(rest[0] == s@[1]);
                assert((i0 as int + 3) * 64 <= t.values.len());
                assert(tables::walk(t.values_seq(), t.index_seq(), i0 as int, rest)
                    == t.values_seq()[(i0 as int + 2) * 64 + (s@[1] & 0x3F)]);
                assert(t.lookup(bs) == tables::walk(t.values_seq(), t.index_seq(), i0 as int, rest));
            }
            let pos = (i0 as usize + 2) * 64 + ((s[1] & 0x3F) as usize);
            let r = (t.value_table()[pos], 2);
            proof {
                lemma_unique_prefix(cw, s@);
            }
            r
        } else {
            proof {
                assert(bs.len() >= 3);
                assert(rest[0] == s@[1]);
                assert((i0 as int + 3) * 64 <= t.index.len());
            }
            let pos1 = (i0 as usize + 2) * 64 + ((s[1] & 0x3F) as usize);
            let i1 = t.index_table()[pos1];
            let ghost rest2 = rest.drop_first();
            proof {
                assert(tables::walk_ok(t.values_seq(), t.index_seq(), i1 as int, rest2));
                tables::lemma_low6(s@[2]);
            }
            if c0 < 0xF0 {
                proof {
                    assert(bs.len() == 3);
                    assert(rest2.len() == 1);
                    assert(rest2[0] == s@[2]);
                    assert((i1 as int + 3) * 64 <= t.values.len());
                    assert(t.lookup(bs) == tables::walk(
                        t.values_seq(),
                        t.index_seq(),
                        i0 as int,
                        rest,
                    ));
                    assert(tables::walk(t.values_seq(), t.index_seq(), i0 as int, rest)
                        == tables::walk(t.values_seq(), t.index_seq(), i1 as int, rest2));
                    assert(tables::walk(t.values_seq(), t.index_seq(), i1 as int, rest2)
                        == t.values_seq()[(i1 as int + 2) * 64 + (s@[2] & 0x3F)]);
                }
                let pos = (i1 as usize + 2) * 64 + ((s[2] & 0x3F) as usize);
                let r = (t.value_table()[pos], 3);
                proof {
                    lemma_unique_prefix(cw, s@);
                }
                r
            } else {
                proof {
                    assert(bs.len() == 4);
                    assert(rest2[0] == s@[2]);
                    assert((i1 as int + 3) * 64 <= t.index.len());
                }
                let pos2 = (i1 as usize + 2) * 64 + ((s[2] & 0x3F) as usize);
                let i2 = t.index_table()[pos2];
                let ghost rest3 = rest2.drop_first();
                proof {
                    assert(tables::walk_ok(t.values_seq(), t.index_seq(), i2 as int, rest3));
                    tables::lemma_low6(s@[3]);
                    assert(rest3.len() == 1);
                    assert(rest3[0] == s@[3]);
                    assert((i2 as int + 3) * 64 <= t.values.len());
                    assert(t.lookup(bs) == tables::walk(
                        t.values_seq(),
                        t.index_seq(),
                        i0 as int,
                        rest,
                    ));
                    assert(tables::walk(t.values_seq(), t.index_seq(), i0 as int, rest)
                        == tables::walk(t.values_seq(), t.index_seq(), i1 as int, rest2));
                    assert(tables::walk(t.values_seq(), t.index_seq(), i1 as int, rest2)
                        == tables::walk(t.values_seq(), t.index_seq(), i2 as int, rest3));
                    assert(tables::walk(t.values_seq(), t.index_seq(), i2 as int, rest3)
                        == t.values_seq()[(i2 as int + 2) * 64 + (s@[3] & 0x3F)]);
                }
                let pos = (i2 as usize + 2) * 64 + ((s[3] & 0x3F) as usize);
                let r = (t.value_table()[pos], 4);
                proof {
                    lemma_unique_prefix(cw, s@);
                }
                r
            }
        }
    }
}

/// Only one character's encoding can stand at the front of a byte
/// sequence: the lead byte fixes the length, the bytes fix the character.
proof fn lemma_unique_prefix(cw: char, s: Seq<u8>)
    requires
        char_prefix_at(s, cw),
    ensures
        forall|c: char| #[trigger] char_prefix_at(s, c) ==> c == cw,
{
    assert forall|c: char| #[trigger] char_prefix_at(s, c) implies c == cw by {
        trie::lemma_char_bytes(c);
        trie::lemma_char_bytes(cw);
        let b1 = encode_scalar(c as u32);
        let b2 = encode_scalar(cw as u32);
        assert(b1[0] == s[0] && b2[0] == s[0]);
        assert(b1.len() == b2.len()) by {
            tables::lemma_low6(s[0]);
            assert(((c as u32) < 0x80) <==> ((cw as u32) < 0x80));
        }
        assert(b1 =~= b2);
        trie::lemma_encode_scalar_injective(c, cw);
    }
}

/// The width a table pair assigns to one character: the resolved code,
/// with -1 (non-printable) reported as an absent result.
pub open(crate) spec fn spec_char_width(t: Tables, c: char) -> Option<u8> {
    let w = t.lookup_char(c);
    if w == -1 {
        None
    } else {
        Some(w as u8)
    }
}

/// The width of a character on the terminal: `Some(0)` for zero-width
/// characters, `None` for non-printable ones, `Some(1)` or `Some(2)` for
/// printable ones.
pub fn char_width(t: &Tables, c: char) -> (r: Option<u8>)
    requires
        t.wf(),
    ensures
        r == spec_char_width(*t, c),
        r matches Some(w) ==> w <= 2,
{
    let b = utf8_encode(c);
    proof {
        assert(b@.subrange(0, encode_scalar(c as u32).len() as int) =~= encode_scalar(c as u32));
        assert(char_prefix_at(b@, c));
        tables::lemma_lookup_char_in_range(*t, c);
    }
    let (v, _) = lookup_bytes(t, b.as_slice());
    if v != -1 {
        Some(v as u8)
    } else {
        None
    }
}

/// Folds an already accumulated width onto the width of a remaining
/// suffix; an undefined suffix keeps the whole result undefined.
pub open spec fn add_width(w: int, o: Option<int>) -> Option<int> {
    match o {
        Some(r) => Some(w + r),
        None => None,
    }
}

/// The width a table pair assigns to a character sequence: the sum of the
/// per-character codes, or an absent result if any character is
/// non-printable.
pub open(crate) spec fn spec_str_width(t: Tables, chars: Seq<char>) -> Option<int>
    decreases chars.len(),
{
    if chars.len() == 0 {
        Some(0int)
    } else {
        let w = t.lookup_char(chars[0]);
        if w == -1 {
            None
        } else {
            add_width(w as int, spec_str_width(t, chars.drop_first()))
        }
    }
}

/// The display width of a string: the sum of its characters' widths, or
/// `None` if it contains any non-printable character.
pub fn str_width(t: &Tables, s: &str) -> (r: Option<usize>)
    requires
        t.wf(),
        s@.len() <= usize::MAX / 2,
    ensures
        match r {
            Some(n) => spec_str_width(*t, s@) == Some(n as int),
            None => spec_str_width(*t, s@) is None,
        },
{
    let bytes: &[u8] = s.as_bytes();
    let ghost chars = s@;
    proof {
        assert(bytes@ == vstd::utf8::encode_utf8(chars));
    }
    let mut w: usize = 0;
    let mut i: usize = 0;
    let ghost mut k: int = 0;
    proof {
        assert(chars.skip(0) =~= chars);
        assert(bytes@.skip(0) =~= bytes@);
        assert(chars.take(0) =~= Seq::<char>::empty());
        assert(vstd::utf8::encode_utf8(Seq::<char>::empty()) =~= Seq::<u8>::empty());
        assert(add_width(0int, spec_str_width(*t, chars)) == spec_str_width(*t, chars));
    }
    while i < bytes.len()
        invariant
            t.wf(),
            chars == s@,
            chars.len() <= usize::MAX / 2,
            bytes@ == vstd::utf8::encode_utf8(chars),
            0 <= k <= chars.len(),
            i == vstd::utf8::encode_utf8(chars.take(k)).len(),
            i <= bytes@.len(),
            bytes@.skip(i as int) == vstd::utf8::encode_utf8(chars.skip(k)),
            w <= 2 * k,
            spec_str_width(*t, chars) == add_width(w as int, spec_str_width(*t, chars.skip(k))),
        decreases bytes@.len() - i,
    {
        proof {
            if k == chars.len() {
                assert(chars.skip(k) =~= Seq::<char>::empty());
                assert(bytes@.skip(i as int).len() == 0);
            }
            assert(k < chars.len());
            assert(chars.skip(k)[0] == chars[k]);
            assert(chars.skip(k).drop_first() =~= chars.skip(k + 1));
            assert(vstd::utf8::encode_utf8(chars.skip(k)) =~= encode_scalar(chars[k] as u32)
                + vstd::utf8::encode_utf8(chars.skip(k + 1)));
            assert(encode_scalar(chars[k] as u32).is_prefix_of(bytes@.skip(i as int)));
            tables::lemma_lookup_char_in_range(*t, chars[k]);
        }
        let tail = vstd::slice::slice_subrange(bytes, i, bytes.len());
        proof {
            assert(tail@ =~= bytes@.skip(i as int));
            let enc = encode_scalar(chars[k] as u32);
            assert(tail@.subrange(0, enc.len() as int) =~= enc);
            assert(char_prefix_at(tail@, chars[k]));
        }
        let (v, z) = lookup_bytes(t, tail);
        proof {
            assert(char_prefix_at(tail@, chars[k]));
            assert(v == t.lookup_char(chars[k]));
            assert(z == encode_scalar(chars[k] as u32).len());
        }
        if v == -1 {
            proof {
                assert(spec_str_width(*t, chars.skip(k)) is None);
            }
            return None;
        }
        w += v as usize;
        i += z;
        proof {
            k = k + 1;
            assert(chars.take(k) =~= chars.take(k - 1) + seq![chars[k - 1]]);
            trie::lemma_encode_utf8_concat(chars.take(k - 1), seq![chars[k - 1]]);
            trie::lemma_encode_utf8_single(chars[k - 1]);
            assert(vstd::utf8::encode_utf8(chars.take(k)).len() == i);
            assert(bytes@.skip(i as int) =~= bytes@.skip(i - z as int).skip(z as int));
            assert(bytes@.skip(i as int) =~= vstd::utf8::encode_utf8(chars.skip(k)));
            assert(spec_str_width(*t, chars.skip(k - 1)) == add_width(
                v as int,
                spec_str_width(*t, chars.skip(k)),
            ));
        }
    }
    proof {
        assert(vstd::utf8::encode_utf8(chars.skip(k)).len() == 0);
        if k < chars.len() {
            assert(chars.skip(k)[0] == chars[k]);
            trie::lemma_char_bytes(chars[k]);
            assert(vstd::utf8::encode_utf8(chars.skip(k)) =~= encode_scalar(chars[k] as u32)
                + vstd::utf8::encode_utf8(chars.skip(k).drop_first()));
            assert(false);
        }
        assert(chars.skip(k) =~= Seq::<char>::empty());
        assert(spec_str_width(*t, chars.skip(k)) == Some(0int));
    }
    Some(w)
}

} // verus!
