//! Assembling sorted, merged codepoint ranges for trie insertion.
//!
//! The trie expects its inclusive ranges sorted ascending and merged so
//! that no two are adjacent or overlapping; these helpers take the raw
//! ranges a property file yields and put them into that shape.

use vstd::prelude::*;

verus! {

broadcast use vstd::seq_lib::group_to_multiset_ensures;

/// The larger of two range ends.
pub open spec fn max_u32(a: u32, b: u32) -> u32 {
    if a > b {
        a
    } else {
        b
    }
}

/// Ranges sorted ascending with a gap between neighbours: no two overlap
/// and no two are adjacent.
pub open spec fn sorted_sep(s: Seq<(u32, u32)>) -> bool {
    forall|i: int|
        0 <= i < s.len() - 1 ==> (#[trigger] s[i]).0 <= s[i].1 && s[i].1 + 1 < s[i + 1].0
}

/// Ranges sorted ascending by their start.
pub open spec fn sorted_by_start(s: Seq<(u32, u32)>) -> bool {
    forall|i: int, j: int| 0 <= i < j < s.len() ==> (#[trigger] s[i]).0 <= (#[trigger] s[j]).0
}

/// What one merge step leaves: the new range is folded into the last one
/// when they touch or overlap, appended otherwise.
pub open spec fn add_range_spec(s: Seq<(u32, u32)>, r: (u32, u32)) -> Seq<(u32, u32)> {
    if s.len() == 0 {
        s.push(r)
    } else {
        let last = s.last();
        if r.0 == 0 || last.1 >= r.0 - 1 {
            s.update(s.len() - 1, (last.0, max_u32(last.1, r.1)))
        } else {
            s.push(r)
        }
    }
}

/// A codepoint lies inside one of the inclusive ranges.
pub open spec fn covered(c: u32, s: Seq<(u32, u32)>) -> bool {
    exists|i: int| 0 <= i < s.len() && (#[trigger] s[i]).0 <= c <= s[i].1
}

/// One merge step covers exactly the codepoints covered before plus the
/// new range, provided the new range does not start before the last one.
pub proof fn lemma_add_range_covered(s: Seq<(u32, u32)>, r: (u32, u32), c: u32)
    requires
        s.len() > 0 ==> s.last().0 <= r.0,
    ensures
        covered(c, add_range_spec(s, r)) <==> (covered(c, s) || (r.0 <= c <= r.1)),
{
    let out = add_range_spec(s, r);
    if s.len() == 0 {
        assert(out == s.push(r));
        if r.0 <= c <= r.1 {
            assert(out[0].0 <= c <= out[0].1);
        }
        if covered(c, out) {
            let i = choose|i: int| 0 <= i < out.len() && (#[trigger] out[i]).0 <= c <= out[i].1;
            assert(i == 0);
        }
    } else {
        let last = s.last();
        let n = s.len() as int;
        if r.0 == 0 || last.1 >= r.0 - 1 {
            assert(out == s.update(n - 1, (last.0, max_u32(last.1, r.1))));
            if covered(c, out) {
                let i = choose|i: int|
                    0 <= i < out.len() && (#[trigger] out[i]).0 <= c <= out[i].1;
                if i < n - 1 {
                    assert(s[i].0 <= c <= s[i].1);
                } else {
                    if c <= last.1 {
                        assert(s[n - 1].0 <= c <= s[n - 1].1);
                    } else {
                        assert(r.0 <= c <= r.1);
                    }
                }
            }
            if covered(c, s) {
                let i = choose|i: int| 0 <= i < s.len() && (#[trigger] s[i]).0 <= c <= s[i].1;
                if i < n - 1 {
                    assert(out[i].0 <= c <= out[i].1);
                } else {
                    assert(out[n - 1].0 <= c <= out[n - 1].1);
                }
            }
            if r.0 <= c <= r.1 {
                assert(out[n - 1].0 <= c <= out[n - 1].1);
            }
        } else {
            assert(out == s.push(r));
            if covered(c, out) {
                let i = choose|i: int|
                    0 <= i < out.len() && (#[trigger] out[i]).0 <= c <= out[i].1;
                if i < n {
                    assert(s[i].0 <= c <= s[i].1);
                }
            }
            if covered(c, s) {
                let i = choose|i: int| 0 <= i < s.len() && (#[trigger] s[i]).0 <= c <= s[i].1;
                assert(out[i].0 <= c <= out[i].1);
            }
            if r.0 <= c <= r.1 {
                assert(out[n].0 <= c <= out[n].1);
            }
        }
    }
}

/// Coverage only depends on which ranges are present, not their order.
pub proof fn lemma_covered_perm(s1: Seq<(u32, u32)>, s2: Seq<(u32, u32)>, c: u32)
    requires
        s1.to_multiset() == s2.to_multiset(),
    ensures
        covered(c, s1) == covered(c, s2),
{
    if covered(c, s1) {
        let i = choose|i: int| 0 <= i < s1.len() && (#[trigger] s1[i]).0 <= c <= s1[i].1;
        assert(s1.contains(s1[i]));
        assert(s1.to_multiset().count(s1[i]) > 0);
        assert(s2.to_multiset().count(s1[i]) > 0);
        assert(s2.contains(s1[i]));
        let j = choose|j: int| 0 <= j < s2.len() && s2[j] == s1[i];
        assert(s2[j].0 <= c <= s2[j].1);
    }
    if covered(c, s2) {
        let i = choose|i: int| 0 <= i < s2.len() && (#[trigger] s2[i]).0 <= c <= s2[i].1;
        assert(s2.contains(s2[i]));
        assert(s2.to_multiset().count(s2[i]) > 0);
        assert(s1.to_multiset().count(s2[i]) > 0);
        assert(s1.contains(s2[i]));
        let j = choose|j: int| 0 <= j < s1.len() && s1[j] == s2[i];
        assert(s1[j].0 <= c <= s1[j].1);
    }
}

/// Merges one inclusive range into a run of already merged ranges: a range
/// that overlaps or touches the last one extends it, any other starts a
/// new entry.
pub fn add_range(v: &mut Vec<(u32, u32)>, r: (u32, u32))
    ensures
        final(v)@ == add_range_spec(old(v)@, r),
{
    let n = v.len();
    if n > 0 {
        let last = v[n - 1];
        if r.0 == 0 || last.1 >= r.0 - 1 {
            let merged = (last.0, if last.1 > r.1 {
                last.1
            } else {
                r.1
            });
            v.set(n - 1, merged);
            return ;
        }
    }
    v.push(r);
}

/// Sorts ranges ascending by start, keeping exactly the same ranges.
pub fn sort_ranges(v: &mut Vec<(u32, u32)>)
    ensures
        sorted_by_start(final(v)@),
        final(v)@.to_multiset() == old(v)@.to_multiset(),
        final(v)@.len() == old(v)@.len(),
{
    let ghost orig = v@;
    let mut i: usize = 1;
    while i < v.len()
        invariant
            1 <= i <= v@.len() || v@.len() == 0,
            v@.to_multiset() == orig.to_multiset(),
            v@.len() == orig.len(),
            forall|a: int, b: int| 0 <= a < b < i ==> (#[trigger] v@[a]).0 <= (#[trigger] v@[b]).0,
        decreases v@.len() - i,
    {
        let mut j: usize = i;
        while j > 0 && v[j - 1].0 > v[j].0
            invariant
                0 <= j <= i < v@.len(),
                v@.to_multiset() == orig.to_multiset(),
                v@.len() == orig.len(),
                forall|a: int, b: int|
                    0 <= a < b <= i && b != j ==> (#[trigger] v@[a]).0 <= (#[trigger] v@[b]).0,
                forall|a: int| j < a <= i ==> (#[trigger] v@[j as int]).0 <= v@[a].0,
            decreases j,
        {
            let ghost before = v@;
            let x = v[j - 1];
            let y = v[j];
            v.set(j - 1, y);
            v.set(j, x);
            proof {
                assert(v@ =~= before.update(j - 1, before[j as int]).update(
                    j as int,
                    before[j - 1],
                ));
                assert(before.update(j - 1, before[j as int])[j as int] == before[j as int]);
                assert(v@.to_multiset() =~= before.to_multiset());
            }
            j -= 1;
        }
        i += 1;
    }
}

/// ASCII whitespace, as trimmed from the ends of a data-file field.
pub open spec fn is_ws(b: u8) -> bool {
    b == 0x20 || 0x09 <= b <= 0x0D
}

/// An ASCII hexadecimal digit.
pub open spec fn is_hex_digit(b: u8) -> bool {
    0x30 <= b <= 0x39 || 0x41 <= b <= 0x46 || 0x61 <= b <= 0x66
}

/// The value of a hexadecimal digit, 0 for any other byte.
pub open spec fn hex_digit_val(b: u8) -> int {
    if 0x30 <= b <= 0x39 {
        b - 0x30
    } else if 0x41 <= b <= 0x46 {
        b - 0x41 + 10
    } else if 0x61 <= b <= 0x66 {
        b - 0x61 + 10
    } else {
        0
    }
}

/// The number a run of hexadecimal digits denotes.
pub open spec fn hex_num(s: Seq<u8>) -> int
    decreases s.len(),
{
    if s.len() == 0 {
        0
    } else {
        16 * hex_num(s.drop_last()) + hex_digit_val(s.last())
    }
}

/// A non-empty run of hexadecimal digits.
pub open spec fn all_hex(s: Seq<u8>) -> bool {
    s.len() > 0 && forall|i: int| 0 <= i < s.len() ==> is_hex_digit(#[trigger] s[i])
}

/// A run of hexadecimal digits denoting a number that fits in `u32`.
pub open spec fn hex_u32_ok(s: Seq<u8>) -> bool {
    all_hex(s) && hex_num(s) <= u32::MAX
}

/// The position of the first occurrence of `b`, or the length if none.
pub open spec fn find_byte(s: Seq<u8>, b: u8) -> int
    decreases s.len(),
{
    if s.len() == 0 {
        0
    } else if s[0] == b {
        0
    } else {
        1 + find_byte(s.drop_first(), b)
    }
}

/// The number of leading whitespace bytes.
pub open spec fn ws_prefix(s: Seq<u8>) -> int
    decreases s.len(),
{
    if s.len() == 0 {
        0
    } else if !is_ws(s[0]) {
        0
    } else {
        1 + ws_prefix(s.drop_first())
    }
}

/// The end of the content once trailing whitespace is dropped.
pub open spec fn ws_suffix_end(s: Seq<u8>) -> int
    decreases s.len(),
{
    if s.len() == 0 {
        0
    } else if !is_ws(s.last()) {
        s.len() as int
    } else {
        ws_suffix_end(s.drop_last())
    }
}

/// The content with leading and trailing whitespace removed.
pub open spec fn trim_spec(s: Seq<u8>) -> Seq<u8> {
    if ws_prefix(s) >= ws_suffix_end(s) {
        Seq::<u8>::empty()
    } else {
        s.subrange(ws_prefix(s), ws_suffix_end(s))
    }
}

/// A line's significant content: what stands before the first `#`, trimmed.
pub open spec fn strip_spec(s: Seq<u8>) -> Seq<u8> {
    trim_spec(s.take(find_byte(s, 0x23)))
}

/// `p` occurs as a contiguous run somewhere in `s`.
pub open spec fn contains_sub(s: Seq<u8>, p: Seq<u8>) -> bool {
    exists|i: int| 0 <= i && i + p.len() <= s.len() && #[trigger] s.subrange(i, i + p.len()) == p
}

/// The position of the first occurrence of the run `p`, or past any
/// possible occurrence if there is none.
pub open spec fn find_sub(s: Seq<u8>, p: Seq<u8>) -> int
    decreases s.len(),
{
    if p.len() == 0 {
        0
    } else if s.len() < p.len() {
        s.len() as int
    } else if s.take(p.len() as int) == p {
        0
    } else {
        1 + find_sub(s.drop_first(), p)
    }
}

proof fn lemma_find_byte(s: Seq<u8>, b: u8)
    ensures
        0 <= find_byte(s, b) <= s.len(),
        find_byte(s, b) < s.len() ==> s[find_byte(s, b)] == b,
        forall|j: int| 0 <= j < find_byte(s, b) ==> s[j] != b,
    decreases s.len(),
{
    if s.len() == 0 {
    } else if s[0] == b {
    } else {
        lemma_find_byte(s.drop_first(), b);
        assert forall|j: int| 0 <= j < find_byte(s, b) implies s[j] != b by {
            if j > 0 {
                assert(s.drop_first()[j - 1] == s[j]);
            }
        }
    }
}

proof fn lemma_ws_prefix(s: Seq<u8>)
    ensures
        0 <= ws_prefix(s) <= s.len(),
        ws_prefix(s) < s.len() ==> !is_ws(s[ws_prefix(s)]),
        forall|j: int| 0 <= j < ws_prefix(s) ==> is_ws(s[j]),
    decreases s.len(),
{
    if s.len() == 0 {
    } else if !is_ws(s[0]) {
    } else {
        lemma_ws_prefix(s.drop_first());
        assert forall|j: int| 0 <= j < ws_prefix(s) implies is_ws(s[j]) by {
            if j > 0 {
                assert(s.drop_first()[j - 1] == s[j]);
            }
        }
    }
}

proof fn lemma_ws_suffix(s: Seq<u8>)
    ensures
        0 <= ws_suffix_end(s) <= s.len(),
        ws_suffix_end(s) > 0 ==> !is_ws(s[ws_suffix_end(s) - 1]),
        forall|j: int| ws_suffix_end(s) <= j < s.len() ==> is_ws(s[j]),
    decreases s.len(),
{
    if s.len() == 0 {
    } else if !is_ws(s.last()) {
    } else {
        lemma_ws_suffix(s.drop_last());
        assert forall|j: int| ws_suffix_end(s) <= j < s.len() implies is_ws(s[j]) by {
            if j < s.len() - 1 {
                assert(s.drop_last()[j] == s[j]);
            }
        }
    }
}

proof fn lemma_find_sub(s: Seq<u8>, p: Seq<u8>)
    ensures
        0 <= find_sub(s, p) <= s.len(),
        find_sub(s, p) + p.len() <= s.len() ==> s.subrange(
            find_sub(s, p),
            find_sub(s, p) + p.len(),
        ) == p,
        forall|j: int|
            0 <= j < find_sub(s, p) && j + p.len() <= s.len() ==> #[trigger] s.subrange(
                j,
                j + p.len(),
            ) != p,
        find_sub(s, p) + p.len() > s.len() ==> !contains_sub(s, p),
    decreases s.len(),
{
    if p.len() == 0 {
        assert(s.subrange(0, 0) =~= p);
    } else if s.len() < p.len() {
        assert forall|j: int| 0 <= j && j + p.len() <= s.len() implies #[trigger] s.subrange(
            j,
            j + p.len(),
        ) != p by {
            assert(s.len() < p.len());
        }
    } else if s.take(p.len() as int) == p {
        assert(s.subrange(0, p.len() as int) =~= s.take(p.len() as int));
    } else {
        lemma_find_sub(s.drop_first(), p);
        let f = find_sub(s, p);
        assert(f == 1 + find_sub(s.drop_first(), p));
        if f + p.len() <= s.len() {
            assert(s.drop_first().subrange(f - 1, f - 1 + p.len()) =~= s.subrange(
                f,
                f + p.len(),
            ));
        }
        assert forall|j: int| 0 <= j < f && j + p.len() <= s.len() implies #[trigger] s.subrange(
            j,
            j + p.len(),
        ) != p by {
            if j == 0 {
                assert(s.subrange(0, p.len() as int) =~= s.take(p.len() as int));
            } else {
                assert(s.drop_first().subrange(j - 1, j - 1 + p.len()) =~= s.subrange(
                    j,
                    j + p.len(),
                ));
            }
        }
        if f + p.len() > s.len() {
            assert forall|i: int| 0 <= i && i + p.len() <= s.len() implies #[trigger] s.subrange(
                i,
                i + p.len(),
            ) != p by {
            }
        }
    }
}

proof fn lemma_hex_nonneg(s: Seq<u8>)
    ensures
        hex_num(s) >= 0,
    decreases s.len(),
{
    if s.len() > 0 {
        lemma_hex_nonneg(s.drop_last());
    }
}

proof fn lemma_hex_mono(s: Seq<u8>, j: int)
    requires
        0 <= j <= s.len(),
    ensures
        hex_num(s) >= hex_num(s.take(j)),
    decreases s.len() - j,
{
    if j == s.len() {
        assert(s.take(j) =~= s);
    } else {
        lemma_hex_mono(s, j + 1);
        assert(s.take(j + 1).drop_last() =~= s.take(j));
        lemma_hex_nonneg(s.take(j));
        assert(hex_num(s.take(j + 1)) == 16 * hex_num(s.take(j)) + hex_digit_val(
            s.take(j + 1).last(),
        ));
    }
}

fn is_ws_b(b: u8) -> (r: bool)
    ensures
        r == is_ws(b),
{
    b == 0x20 || (0x09 <= b && b <= 0x0D)
}

/// Copies a field with its surrounding ASCII whitespace removed.
pub fn trim_bytes(s: &[u8]) -> (r: Vec<u8>)
    ensures
        r@ == trim_spec(s@),
{
    proof {
        lemma_ws_prefix(s@);
        lemma_ws_suffix(s@);
    }
    let mut lo: usize = 0;
    while lo < s.len() && is_ws_b(s[lo])
        invariant
            lo <= s@.len(),
            forall|j: int| 0 <= j < lo ==> is_ws(#[trigger] s@[j]),
        decreases s@.len() - lo,
    {
        lo += 1;
    }
    proof {
        assert(lo as int == ws_prefix(s@));
    }
    let mut hi: usize = s.len();
    while hi > lo && is_ws_b(s[hi - 1])
        invariant
            lo <= hi <= s@.len(),
            forall|j: int| hi <= j < s@.len() ==> is_ws(#[trigger] s@[j]),
        decreases hi,
    {
        hi -= 1;
    }
    let mut out: Vec<u8> = Vec::new();
    if hi <= lo {
        proof {
            assert(ws_suffix_end(s@) <= lo) by {
                if ws_suffix_end(s@) > lo {
                    assert(is_ws(s@[ws_suffix_end(s@) - 1]));
                }
            }
            assert(trim_spec(s@) =~= out@);
        }
        return out;
    }
    proof {
        assert(hi as int == ws_suffix_end(s@)) by {
            if ws_suffix_end(s@) < hi {
                assert(is_ws(s@[hi - 1]));
            }
            if ws_suffix_end(s@) > hi {
                assert(is_ws(s@[ws_suffix_end(s@) - 1]));
            }
        }
    }
    let mut i = lo;
    while i < hi
        invariant
            lo <= i <= hi <= s@.len(),
            out@ == s@.subrange(lo as int, i as int),
        decreases hi - i,
    {
        out.push(s[i]);
        proof {
            assert(out@ =~= s@.subrange(lo as int, i + 1 as int));
        }
        i += 1;
    }
    proof {
        assert(out@ == trim_spec(s@));
    }
    out
}

/// The significant content of a data-file line: what stands before any
/// `#` comment, trimmed; `None` when nothing significant remains.
pub fn strip_line(s: &[u8]) -> (r: Option<Vec<u8>>)
    ensures
        match r {
            Some(t) => t@ == strip_spec(s@) && t@.len() > 0,
            None => strip_spec(s@).len() == 0,
        },
{
    proof {
        lemma_find_byte(s@, 0x23);
    }
    let mut h: usize = 0;
    while h < s.len() && s[h] != 0x23
        invariant
            h <= s@.len(),
            forall|j: int| 0 <= j < h ==> s@[j] != 0x23,
        decreases s@.len() - h,
    {
        h += 1;
    }
    proof {
        assert(h as int == find_byte(s@, 0x23));
    }
    let cut = vstd::slice::slice_subrange(s, 0, h);
    let t = trim_bytes(cut);
    proof {
        assert(cut@ =~= s@.take(h as int));
    }
    if t.len() > 0 {
        Some(t)
    } else {
        None
    }
}

/// Splits at the first occurrence of `sep`, handing back what stands
/// before and after it; `None` when `sep` does not occur.
pub fn split2(s: &[u8], sep: &[u8]) -> (r: Option<(Vec<u8>, Vec<u8>)>)
    ensures
        match r {
            Some((a, b)) => {
                let f = find_sub(s@, sep@);
                f + sep@.len() <= s@.len() && a@ == s@.take(f) && b@ == s@.skip(f + sep@.len())
            },
            None => !contains_sub(s@, sep@),
        },
{
    proof {
        lemma_find_sub(s@, sep@);
    }
    if sep.len() == 0 {
        let a: Vec<u8> = Vec::new();
        let b = vstd::slice::slice_to_vec(s);
        proof {
            assert(s@.subrange(0, 0) =~= sep@);
            assert(a@ =~= s@.take(0));
            assert(b@ =~= s@.skip(0));
        }
        return Some((a, b));
    }
    if s.len() < sep.len() {
        return None;
    }
    let last = s.len() - sep.len();
    let mut i: usize = 0;
    while i <= last
        invariant
            sep@.len() >= 1,
            sep.len() <= s.len(),
            last == s@.len() - sep@.len(),
            last <= s.len(),
            i <= last + 1,
            forall|j: int|
                0 <= j < i && j + sep@.len() <= s@.len() ==> #[trigger] s@.subrange(
                    j,
                    j + sep@.len(),
                ) != sep@,
        decreases s@.len() - i,
    {
        let mut k: usize = 0;
        let mut eq = true;
        while k < sep.len()
            invariant
                i + sep.len() <= s.len(),
                k <= sep@.len(),
                eq <==> (forall|j: int| 0 <= j < k ==> s@[i + j] == sep@[j]),
            decreases sep@.len() - k,
        {
            if s[i + k] != sep[k] {
                eq = false;
            }
            k += 1;
        }
        if eq {
            proof {
                assert(s@.subrange(i as int, i + sep@.len()) =~= sep@);
                assert(i as int == find_sub(s@, sep@)) by {
                    lemma_find_sub(s@, sep@);
                    let f = find_sub(s@, sep@);
                    if f < i {
                        assert(s@.subrange(f, f + sep@.len()) == sep@);
                    }
                }
            }
            let a = vstd::slice::slice_to_vec(vstd::slice::slice_subrange(s, 0, i));
            let b = vstd::slice::slice_to_vec(
                vstd::slice::slice_subrange(s, i + sep.len(), s.len()),
            );
            proof {
                assert(a@ =~= s@.take(i as int));
                assert(b@ =~= s@.skip(i + sep@.len()));
            }
            return Some((a, b));
        }
        proof {
            let k0 = choose|j: int| 0 <= j < sep@.len() && s@[i + j] != sep@[j];
            assert(s@.subrange(i as int, i + sep@.len())[k0] != sep@[k0]);
        }
        i += 1;
    }
    proof {
        assert(!contains_sub(s@, sep@)) by {
            if contains_sub(s@, sep@) {
                let w = choose|j: int|
                    0 <= j && j + sep@.len() <= s@.len() && #[trigger] s@.subrange(
                        j,
                        j + sep@.len(),
                    ) == sep@;
                assert(s@.subrange(w, w + sep@.len()) != sep@);
            }
        }
    }
    None
}

/// Whether the run `p` occurs anywhere in `s`.
pub fn has_sub(s: &[u8], p: &[u8]) -> (r: bool)
    ensures
        r == contains_sub(s@, p@),
{
    let found = split2(s, p);
    proof {
        lemma_find_sub(s@, p@);
        if found is Some {
            let f = find_sub(s@, p@);
            assert(s@.subrange(f, f + p@.len()) == p@);
        }
    }
    found.is_some()
}

fn hex_val_b(b: u8) -> (r: Option<u32>)
    ensures
        match r {
            Some(v) => is_hex_digit(b) && v == hex_digit_val(b),
            None => !is_hex_digit(b),
        },
{
    if 0x30 <= b && b <= 0x39 {
        Some((b - 0x30) as u32)
    } else if 0x41 <= b && b <= 0x46 {
        Some((b - 0x41 + 10) as u32)
    } else if 0x61 <= b && b <= 0x66 {
        Some((b - 0x61 + 10) as u32)
    } else {
        None
    }
}

/// Reads a hexadecimal numeral; `None` when the field is empty, holds a
/// non-digit, or denotes a number too large for a codepoint value.
pub fn parse_hex(s: &[u8]) -> (r: Option<u32>)
    ensures
        match r {
            Some(v) => hex_u32_ok(s@) && v == hex_num(s@),
            None => !hex_u32_ok(s@),
        },
{
    if s.len() == 0 {
        return None;
    }
    let mut acc: u64 = 0;
    let mut j: usize = 0;
    while j < s.len()
        invariant
            j <= s@.len(),
            s@.len() > 0,
            acc == hex_num(s@.take(j as int)),
            acc <= u32::MAX,
            forall|i: int| 0 <= i < j ==> is_hex_digit(#[trigger] s@[i]),
        decreases s@.len() - j,
    {
        proof {
            assert(s@.take(j + 1 as int).drop_last() =~= s@.take(j as int));
            assert(s@.take(j + 1 as int).last() == s@[j as int]);
        }
        let d = match hex_val_b(s[j]) {
            Some(d) => d,
            None => {
                return None;
            },
        };
        let next: u64 = acc * 16 + (d as u64);
        if next > 0xFFFFFFFF {
            proof {
                lemma_hex_mono(s@, j + 1);
            }
            return None;
        }
        acc = next;
        j += 1;
    }
    proof {
        assert(s@.take(s@.len() as int) =~= s@);
    }
    Some(acc as u32)
}

/// What a codepoint field denotes: a single position or an inclusive
/// `START..END` span, both in hexadecimal.
pub open spec fn parse_range_spec(s: Seq<u8>) -> Option<(u32, u32)> {
    let f = find_sub(s, seq![0x2Eu8, 0x2Eu8]);
    let a = if f + 2 <= s.len() {
        s.take(f)
    } else {
        s
    };
    let b = if f + 2 <= s.len() {
        s.skip(f + 2)
    } else {
        s
    };
    if hex_u32_ok(a) && hex_u32_ok(b) {
        Some((hex_num(a) as u32, hex_num(b) as u32))
    } else {
        None
    }
}

/// Reads a codepoint range field.
pub fn parse_range(s: &[u8]) -> (r: Option<(u32, u32)>)
    ensures
        r == parse_range_spec(s@),
{
    let sep: [u8; 2] = [0x2E, 0x2E];
    proof {
        assert(sep@ =~= seq![0x2Eu8, 0x2Eu8]);
        lemma_find_sub(s@, sep@);
    }
    match split2(s, &sep) {
        Some((a, b)) => {
            let lo = parse_hex(a.as_slice());
            let hi = parse_hex(b.as_slice());
            match (lo, hi) {
                (Some(x), Some(y)) => Some((x, y)),
                _ => None,
            }
        },
        None => {
            proof {
                assert(find_sub(s@, sep@) + 2 > s@.len()) by {
                    if find_sub(s@, sep@) + 2 <= s@.len() {
                        assert(s@.subrange(
                            find_sub(s@, sep@),
                            find_sub(s@, sep@) + 2,
                        ) == sep@);
                    }
                }
            }
            let v = parse_hex(s);
            match v {
                Some(x) => Some((x, x)),
                None => None,
            }
        },
    }
}

/// What a property-file line yields under a tag filter: the line's
/// codepoint range when the line is significant, carries a `;`-separated
/// property field, and that field mentions one of the tags.
pub open spec fn parse_ucd_spec(l: Seq<u8>, filter: Seq<Seq<u8>>) -> Option<(u32, u32)> {
    let st = strip_spec(l);
    if st.len() == 0 {
        None
    } else {
        let f = find_byte(st, 0x3B);
        if f >= st.len() {
            None
        } else {
            let addrs = trim_spec(st.take(f));
            let details = trim_spec(st.skip(f + 1));
            if exists|k: int| 0 <= k < filter.len() && contains_sub(details, #[trigger] filter[k]) {
                parse_range_spec(addrs)
            } else {
                None
            }
        }
    }
}

/// Reads one line of a Unicode property file, keeping its range when one
/// of the filter tags occurs in the property field. A significant line
/// without a `;` separator is malformed and yields nothing.
pub fn parse_ucd(l: &[u8], filter: &Vec<Vec<u8>>) -> (r: Option<(u32, u32)>)
    ensures
        r == parse_ucd_spec(l@, filter@.map_values(|v: Vec<u8>| v@)),
{
    let st = match strip_line(l) {
        Some(t) => t,
        None => {
            return None;
        },
    };
    let sep: [u8; 1] = [0x3B];
    proof {
        assert(sep@ =~= seq![0x3Bu8]);
        lemma_find_sub(st@, sep@);
        lemma_find_byte(st@, 0x3B);
        assert(find_sub(st@, sep@) == find_byte(st@, 0x3B)) by {
            let fs = find_sub(st@, sep@);
            let fb = find_byte(st@, 0x3B);
            if fs < fb {
                assert(st@.subrange(fs, fs + 1) == sep@);
                assert(st@[fs] == 0x3B);
            }
            if fb < fs {
                assert(st@.subrange(fb, fb + 1) =~= sep@);
            }
        }
    }
    let (addrs_raw, details_raw) = match split2(st.as_slice(), &sep) {
        Some(p) => p,
        None => {
            return None;
        },
    };
    let addrs = trim_bytes(addrs_raw.as_slice());
    let details = trim_bytes(details_raw.as_slice());
    let ghost fseq = filter@.map_values(|v: Vec<u8>| v@);
    let mut hit = false;
    let mut k: usize = 0;
    while k < filter.len()
        invariant
            fseq == filter@.map_values(|v: Vec<u8>| v@),
            k <= filter@.len(),
            hit ==> exists|k2: int|
                0 <= k2 < fseq.len() && contains_sub(details@, #[trigger] fseq[k2]),
            !hit ==> forall|k2: int|
                0 <= k2 < k ==> !contains_sub(details@, #[trigger] fseq[k2]),
        decreases filter@.len() - k,
    {
        if !hit {
            let matched = has_sub(details.as_slice(), filter[k].as_slice());
            proof {
                assert(fseq[k as int] == filter@[k as int]@);
            }
            if matched {
                hit = true;
            }
        }
        k += 1;
    }
    if !hit {
        return None;
    }
    parse_range(addrs.as_slice())
}

/// Builds the final range table: sorts the raw ranges by start and merges
/// touching or overlapping neighbours, leaving the sorted, separated shape
/// that trie insertion relies on.
pub fn make_table(raw: Vec<(u32, u32)>) -> (r: Vec<(u32, u32)>)
    requires
        forall|i: int| 0 <= i < raw@.len() ==> (#[trigger] raw@[i]).0 <= raw@[i].1,
    ensures
        sorted_sep(r@),
        forall|c: u32| #[trigger] covered(c, r@) == covered(c, raw@),
{
    let mut raw = raw;
    let ghost orig = raw@;
    sort_ranges(&mut raw);
    proof {
        assert forall|i: int| 0 <= i < raw@.len() implies (#[trigger] raw@[i]).0 <= raw@[i].1 by {
            assert(raw@.contains(raw@[i]));
            assert(raw@.to_multiset().count(raw@[i]) > 0);
            assert(orig.to_multiset().count(raw@[i]) > 0);
            assert(orig.contains(raw@[i]));
            let k = choose|k: int| 0 <= k < orig.len() && orig[k] == raw@[i];
            assert(orig[k].0 <= orig[k].1);
        }
    }
    let mut tab: Vec<(u32, u32)> = Vec::new();
    let mut i: usize = 0;
    while i < raw.len()
        invariant
            i <= raw@.len(),
            sorted_by_start(raw@),
            forall|k: int| 0 <= k < raw@.len() ==> (#[trigger] raw@[k]).0 <= raw@[k].1,
            sorted_sep(tab@),
            i > 0 && tab@.len() > 0 ==> tab@.last().0 <= raw@[i - 1].0 && tab@.last().1
                >= raw@[i - 1].1,
            i == 0 ==> tab@.len() == 0,
            forall|c: u32| #[trigger] covered(c, tab@) == covered(c, raw@.take(i as int)),
        decreases raw@.len() - i,
    {
        let ghost before = tab@;
        add_range(&mut tab, raw[i]);
        proof {
            let r = raw@[i as int];
            assert forall|c: u32| #[trigger] covered(c, tab@) == covered(
                c,
                raw@.take(i + 1 as int),
            ) by {
                if before.len() > 0 {
                    assert(sorted_by_start(raw@));
                    if i > 0 {
                        assert(raw@[i - 1].0 <= r.0);
                    }
                    assert(before.last().0 <= r.0);
                }
                lemma_add_range_covered(before, r, c);
                assert(raw@.take(i + 1 as int).drop_last() =~= raw@.take(i as int));
                assert(covered(c, raw@.take(i + 1 as int)) == (covered(c, raw@.take(i as int))
                    || (r.0 <= c <= r.1))) by {
                    let t1 = raw@.take(i + 1 as int);
                    if covered(c, t1) {
                        let k = choose|k: int|
                            0 <= k < t1.len() && (#[trigger] t1[k]).0 <= c <= t1[k].1;
                        if k < i {
                            assert(raw@.take(i as int)[k].0 <= c <= raw@.take(i as int)[k].1);
                        } else {
                            assert(t1[k] == r);
                        }
                    }
                    if covered(c, raw@.take(i as int)) {
                        let k = choose|k: int|
                            0 <= k < raw@.take(i as int).len() && (#[trigger] raw@.take(
                                i as int,
                            )[k]).0 <= c <= raw@.take(i as int)[k].1;
                        assert(t1[k].0 <= c <= t1[k].1);
                    }
                    if r.0 <= c <= r.1 {
                        assert(t1[i as int].0 <= c <= t1[i as int].1);
                    }
                }
            }
            if before.len() > 0 {
                let last = before.last();
                if r.0 == 0 || last.1 >= r.0 - 1 {
                    assert(tab@.last() == (last.0, max_u32(last.1, r.1)));
                    assert forall|a: int| 0 <= a < tab@.len() - 1 implies (#[trigger] tab@[a]).0
                        <= tab@[a].1 && tab@[a].1 + 1 < tab@[a + 1].0 by {
                        assert(before[a].1 + 1 < before[a + 1].0);
                    }
                } else {
                    assert(last.1 + 1 < r.0);
                }
            }
        }
        i += 1;
    }
    proof {
        assert(raw@.take(raw@.len() as int) =~= raw@);
        assert forall|c: u32| #[trigger] covered(c, tab@) == covered(c, orig) by {
            lemma_covered_perm(raw@, orig, c);
        }
    }
    tab
}

} // verus!
