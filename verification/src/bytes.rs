//! Byte-sequence helpers shared by the decoder and the encoders: searching,
//! splitting on a separator byte, line splitting with carriage-return
//! stripping, and appending.

use vstd::prelude::*;

verus! {

/// Index of the first occurrence of `x` in `s`, or `-1` if absent.
pub open spec fn find_byte(s: Seq<u8>, x: u8) -> int
    decreases s.len(),
{
    if s.len() == 0 {
        -1
    } else if s[0] == x {
        0
    } else {
        let r = find_byte(s.skip(1), x);
        if r < 0 {
            -1
        } else {
            r + 1
        }
    }
}

pub proof fn lemma_find_byte(s: Seq<u8>, x: u8)
    ensures
        find_byte(s, x) >= 0 ==> find_byte(s, x) < s.len() && s[find_byte(s, x)] == x,
        forall|j: int| 0 <= j < find_byte(s, x) ==> s[j] != x,
        find_byte(s, x) < 0 ==> forall|j: int| 0 <= j < s.len() ==> s[j] != x,
    decreases s.len(),
{
    if s.len() > 0 && s[0] != x {
        lemma_find_byte(s.skip(1), x);
        assert forall|j: int| 1 <= j < s.len() implies s[j] == s.skip(1)[j - 1] by {}
    }
}

/// `find_byte` over a concatenation whose left part is clean of `x`.
pub proof fn lemma_find_byte_append(a: Seq<u8>, x: u8, b: Seq<u8>)
    requires
        find_byte(a, x) < 0,
    ensures
        find_byte(a + seq![x] + b, x) == a.len(),
    decreases a.len(),
{
    let s = a + seq![x] + b;
    if a.len() == 0 {
        assert(s =~= seq![x] + b);
        assert(s[0] == x);
    } else {
        lemma_find_byte(a, x);
        assert(s[0] == a[0]);
        assert(s[0] != x);
        assert(s.skip(1) =~= a.skip(1) + seq![x] + b);
        assert(find_byte(a.skip(1), x) < 0) by {
            lemma_find_byte(a.skip(1), x);
            lemma_find_byte(a, x);
            if find_byte(a.skip(1), x) >= 0 {
                assert(a.skip(1)[find_byte(a.skip(1), x)] == x);
                assert(a[find_byte(a.skip(1), x) + 1] == x);
            }
        }
        lemma_find_byte_append(a.skip(1), x, b);
    }
}

/// Split `s` on every occurrence of `x`; a trailing `x` yields a final empty
/// piece, and a clean `s` yields the single piece `s`.
pub open spec fn split_byte(s: Seq<u8>, x: u8) -> Seq<Seq<u8>>
    decreases s.len(),
{
    let i = find_byte(s, x);
    if 0 <= i < s.len() {
        seq![s.take(i)] + split_byte(s.skip(i + 1), x)
    } else {
        seq![s]
    }
}

pub proof fn lemma_split_byte_len(s: Seq<u8>, x: u8)
    ensures
        split_byte(s, x).len() >= 1,
    decreases s.len(),
{
    let i = find_byte(s, x);
    if 0 <= i < s.len() {
        lemma_split_byte_len(s.skip(i + 1), x);
    }
}

/// Splitting a concatenation whose left part is clean of the separator
/// peels off exactly that left part.
pub proof fn lemma_split_byte_append(a: Seq<u8>, x: u8, b: Seq<u8>)
    requires
        find_byte(a, x) < 0,
    ensures
        split_byte(a + seq![x] + b, x) == seq![a] + split_byte(b, x),
{
    let s = a + seq![x] + b;
    lemma_find_byte_append(a, x, b);
    lemma_find_byte(a, x);
    assert(s.take(a.len() as int) =~= a);
    assert(s.skip(a.len() as int + 1) =~= b);
}

/// A sequence with no separator splits into itself alone.
pub proof fn lemma_split_byte_clean(s: Seq<u8>, x: u8)
    requires
        find_byte(s, x) < 0,
    ensures
        split_byte(s, x) == seq![s],
{
}

/// A trailing separator closes the last piece and opens a final empty one.
pub proof fn lemma_split_byte_drop_trailing(s: Seq<u8>, x: u8)
    requires
        s.len() > 0,
        s.last() == x,
    ensures
        split_byte(s, x) == split_byte(s.take(s.len() - 1), x) + seq![Seq::<u8>::empty()],
    decreases s.len(),
{
    let n = s.len() as int;
    let i = find_byte(s, x);
    lemma_find_byte(s, x);
    assert(s[n - 1] == x);
    assert(0 <= i < n);
    if i == n - 1 {
        assert(find_byte(s.take(n - 1), x) < 0) by {
            lemma_find_byte(s.take(n - 1), x);
            let f = find_byte(s.take(n - 1), x);
            if f >= 0 {
                assert(s.take(n - 1)[f] == s[f]);
            }
        }
        assert(s.skip(i + 1) =~= Seq::<u8>::empty());
        assert(split_byte(s.skip(i + 1), x) == seq![Seq::<u8>::empty()]);
        assert(split_byte(s.take(n - 1), x) == seq![s.take(n - 1)]);
    } else {
        let t = s.skip(i + 1);
        assert(t.len() > 0 && t.last() == x);
        lemma_split_byte_drop_trailing(t, x);
        assert(find_byte(s.take(n - 1), x) == i) by {
            lemma_find_byte(s.take(n - 1), x);
            let f = find_byte(s.take(n - 1), x);
            assert(s.take(n - 1)[i] == s[i]);
            if f < 0 {
            } else {
                assert(s.take(n - 1)[f] == s[f]);
                lemma_find_byte(s, x);
            }
        }
        assert(s.take(n - 1).take(i) =~= s.take(i));
        assert(s.take(n - 1).skip(i + 1) =~= t.take(t.len() - 1));
        assert(split_byte(s, x) == seq![s.take(i)] + split_byte(t, x));
        assert(split_byte(s.take(n - 1), x) == seq![s.take(i)] + split_byte(
            t.take(t.len() - 1),
            x,
        ));
        assert(seq![s.take(i)] + (split_byte(t.take(t.len() - 1), x) + seq![Seq::<u8>::empty()])
            =~= (seq![s.take(i)] + split_byte(t.take(t.len() - 1), x)) + seq![Seq::<u8>::empty()]);
    }
}

/// Drop a single trailing carriage return, if present.
pub open spec fn strip_cr(l: Seq<u8>) -> Seq<u8> {
    if l.len() > 0 && l.last() == 13u8 {
        l.drop_last()
    } else {
        l
    }
}

/// `strip_cr` applied to every piece.
pub open spec fn strip_all(ps: Seq<Seq<u8>>) -> Seq<Seq<u8>> {
    Seq::new(ps.len(), |i: int| strip_cr(ps[i]))
}

/// The lines of a message: split on line feed, where a trailing line feed
/// ends the last line rather than opening an empty one, and each line then
/// loses a single trailing carriage return.
pub open spec fn message_lines(s: Seq<u8>) -> Seq<Seq<u8>> {
    if s.len() == 0 {
        Seq::empty()
    } else if s.last() == 10u8 {
        strip_all(split_byte(s.take(s.len() - 1), 10u8))
    } else {
        strip_all(split_byte(s, 10u8))
    }
}

/// A concatenation is clean of `x` when both parts are.
pub proof fn lemma_find_byte_concat_clean(a: Seq<u8>, b: Seq<u8>, x: u8)
    requires
        find_byte(a, x) < 0,
        find_byte(b, x) < 0,
    ensures
        find_byte(a + b, x) < 0,
{
    lemma_find_byte(a, x);
    lemma_find_byte(b, x);
    lemma_find_byte(a + b, x);
    let s = a + b;
    if find_byte(s, x) >= 0 {
        let f = find_byte(s, x);
        assert(s[f] == x);
        if f < a.len() {
            assert(a[f] == x);
        } else {
            assert(b[f - a.len()] == x);
        }
    }
}

/// Index of the first `": "` separator in `s`, or `-1` if absent.
pub open spec fn find_sep(s: Seq<u8>) -> int
    decreases s.len(),
{
    if s.len() < 2 {
        -1
    } else if s[0] == 58u8 && s[1] == 32u8 {
        0
    } else {
        let r = find_sep(s.skip(1));
        if r < 0 {
            -1
        } else {
            r + 1
        }
    }
}

pub proof fn lemma_find_sep(s: Seq<u8>)
    ensures
        find_sep(s) >= 0 ==> find_sep(s) + 1 < s.len() && s[find_sep(s)] == 58u8 && s[find_sep(s)
            + 1] == 32u8,
        forall|j: int| 0 <= j < find_sep(s) ==> !(#[trigger] s[j] == 58u8 && s[j + 1] == 32u8),
        find_sep(s) < 0 ==> forall|j: int|
            0 <= j && j + 1 < s.len() ==> !(#[trigger] s[j] == 58u8 && s[j + 1] == 32u8),
    decreases s.len(),
{
    if s.len() >= 2 && !(s[0] == 58u8 && s[1] == 32u8) {
        lemma_find_sep(s.skip(1));
        assert forall|j: int| 1 <= j && j + 1 < s.len() implies #[trigger] s[j] == s.skip(1)[j - 1]
            && s[j + 1] == s.skip(1)[j] by {}
    }
}

/// The first `": "` of `key ++ ": " ++ rest` stands right after `key`,
/// provided `key` itself holds no `": "`.
pub proof fn lemma_find_sep_append(k: Seq<u8>, rest: Seq<u8>)
    requires
        find_sep(k) < 0,
    ensures
        find_sep(k + seq![58u8, 32u8] + rest) == k.len(),
    decreases k.len(),
{
    let s = k + seq![58u8, 32u8] + rest;
    if k.len() == 0 {
        assert(s =~= seq![58u8, 32u8] + rest);
        assert(s[0] == 58u8 && s[1] == 32u8);
    } else {
        lemma_find_sep(k);
        assert(s[0] == k[0]);
        assert(s[1] == if k.len() >= 2 {
            k[1]
        } else {
            58u8
        });
        assert(!(s[0] == 58u8 && s[1] == 32u8));
        assert(find_sep(k.skip(1)) < 0) by {
            lemma_find_sep(k.skip(1));
            let f = find_sep(k.skip(1));
            if f >= 0 {
                assert(k.skip(1)[f] == k[f + 1] && k.skip(1)[f + 1] == k[f + 2]);
                lemma_find_sep(k);
            }
        }
        lemma_find_sep_append(k.skip(1), rest);
        assert(s.skip(1) =~= k.skip(1) + seq![58u8, 32u8] + rest);
    }
}

/// Strict lexicographic order on byte sequences.
pub open spec fn lex_lt(a: Seq<u8>, b: Seq<u8>) -> bool
    decreases a.len(),
{
    if b.len() == 0 {
        false
    } else if a.len() == 0 {
        true
    } else if a[0] < b[0] {
        true
    } else if a[0] > b[0] {
        false
    } else {
        lex_lt(a.skip(1), b.skip(1))
    }
}

/// The order is total: two byte sequences compare one way, the other, or
/// are equal.
pub proof fn lemma_lex_total(a: Seq<u8>, b: Seq<u8>)
    ensures
        lex_lt(a, b) || lex_lt(b, a) || a == b,
    decreases a.len(),
{
    if a.len() > 0 && b.len() > 0 && a[0] == b[0] {
        lemma_lex_total(a.skip(1), b.skip(1));
        if a.skip(1) == b.skip(1) {
            assert(a.len() == b.len());
            assert forall|k: int| 0 <= k < a.len() implies a[k] == b[k] by {
                if k >= 1 {
                    assert(a[k] == a.skip(1)[k - 1]);
                    assert(b[k] == b.skip(1)[k - 1]);
                }
            }
            assert(a =~= b);
        }
    }
}

pub proof fn lemma_lex_irrefl(a: Seq<u8>)
    ensures
        !lex_lt(a, a),
    decreases a.len(),
{
    if a.len() > 0 {
        lemma_lex_irrefl(a.skip(1));
    }
}

/// Find the first occurrence of `x` at or after `from`.
pub fn scan_byte(s: &[u8], from: usize, x: u8) -> (j: usize)
    requires
        from <= s@.len(),
    ensures
        from <= j <= s@.len(),
        forall|k: int| from <= k < j ==> s@[k] != x,
        j < s@.len() ==> s@[j as int] == x,
{
    let mut j = from;
    while j < s.len()
        invariant
            from <= j <= s@.len(),
            forall|k: int| from <= k < j ==> s@[k] != x,
        decreases s@.len() - j,
    {
        if s[j] == x {
            return j;
        }
        j = j + 1;
    }
    j
}

/// Relate a left-to-right scan to `find_byte` on the suffix it walked.
pub proof fn lemma_scan_find_byte(s: Seq<u8>, from: int, j: int, x: u8)
    requires
        0 <= from <= j <= s.len(),
        forall|k: int| from <= k < j ==> s[k] != x,
        j < s.len() ==> s[j] == x,
    ensures
        find_byte(s.skip(from), x) == if j < s.len() {
            j - from
        } else {
            -1
        },
{
    let t = s.skip(from);
    lemma_find_byte(t, x);
    let f = find_byte(t, x);
    assert(forall|k: int| 0 <= k < t.len() ==> t[k] == s[from + k]);
    if j < s.len() {
        assert(t[j - from] == x);
        if f < 0 {
        } else if f < j - from {
            assert(t[f] == x && s[from + f] == x);
        }
    } else {
        if f >= 0 {
            assert(t[f] == x && s[from + f] == x);
        }
    }
}

/// Find the first `": "` separator in `s`, returning `s.len()` if absent.
pub fn scan_sep(s: &[u8]) -> (j: usize)
    ensures
        if find_sep(s@) >= 0 {
            j == find_sep(s@)
        } else {
            j == s@.len()
        },
{
    let n = s.len();
    let mut j: usize = 0;
    loop
        invariant
            0 <= j <= s@.len(),
            n == s@.len(),
            forall|k: int|
                0 <= k < j ==> !(#[trigger] s@[k] == 58u8 && k + 1 < s@.len() && s@[k + 1]
                    == 32u8),
        decreases s@.len() - j,
    {
        if j >= n || j + 1 == n {
            proof {
                lemma_find_sep(s@);
                let f = find_sep(s@);
                if f >= 0 {
                    assert(!(s@[f] == 58u8 && f + 1 < s@.len() && s@[f + 1] == 32u8));
                }
            }
            return n;
        }
        if s[j] == 58 && s[j + 1] == 32 {
            proof {
                lemma_find_sep(s@);
                let f = find_sep(s@);
                if f < 0 {
                } else if f < j {
                    assert(!(s@[f] == 58u8 && f + 1 < s@.len() && s@[f + 1] == 32u8));
                } else if f > j {
                    assert(!(s@[j as int] == 58u8 && s@[j + 1] == 32u8));
                }
            }
            return j;
        }
        j = j + 1;
    }
}

/// Copy `s[from..to]` into a fresh vector.
pub fn copy_range(s: &[u8], from: usize, to: usize) -> (v: Vec<u8>)
    requires
        from <= to <= s@.len(),
    ensures
        v@ == s@.subrange(from as int, to as int),
{
    let mut v: Vec<u8> = Vec::new();
    let mut j = from;
    while j < to
        invariant
            from <= j <= to <= s@.len(),
            v@ =~= s@.subrange(from as int, j as int),
        decreases to - j,
    {
        v.push(s[j]);
        proof {
            assert(v@ =~= s@.subrange(from as int, j + 1));
        }
        j = j + 1;
    }
    v
}

/// Copy a whole slice into a fresh vector.
pub fn copy_bytes(s: &[u8]) -> (v: Vec<u8>)
    ensures
        v@ == s@,
{
    let v = copy_range(s, 0, s.len());
    proof {
        assert(s@.subrange(0, s@.len() as int) =~= s@);
    }
    v
}

/// Append a whole slice to a byte buffer.
pub fn push_bytes(buf: &mut Vec<u8>, s: &[u8])
    ensures
        final(buf)@ == old(buf)@ + s@,
{
    let mut j: usize = 0;
    while j < s.len()
        invariant
            0 <= j <= s@.len(),
            buf@ =~= old(buf)@ + s@.subrange(0, j as int),
        decreases s@.len() - j,
    {
        buf.push(s[j]);
        proof {
            assert(old(buf)@ + s@.subrange(0, j + 1) =~= (old(buf)@ + s@.subrange(0, j as int))
                + seq![s@[j as int]]);
        }
        j = j + 1;
    }
    proof {
        assert(s@.subrange(0, s@.len() as int) =~= s@);
    }
}

/// Byte-for-byte equality of two slices.
pub fn bytes_eq(a: &[u8], b: &[u8]) -> (r: bool)
    ensures
        r == (a@ == b@),
{
    if a.len() != b.len() {
        return false;
    }
    let n = a.len();
    let mut j: usize = 0;
    while j < n
        invariant
            0 <= j <= n,
            n == a@.len() && n == b@.len(),
            forall|k: int| 0 <= k < j ==> a@[k] == b@[k],
        decreases n - j,
    {
        if a[j] != b[j] {
            return false;
        }
        j = j + 1;
    }
    proof {
        assert(a@ =~= b@);
    }
    true
}

/// Equal-length prefixes leave the order to the suffixes.
pub proof fn lemma_lex_common_prefix(a: Seq<u8>, b: Seq<u8>, i: int)
    requires
        0 <= i <= a.len(),
        i <= b.len(),
        forall|k: int| 0 <= k < i ==> a[k] == b[k],
    ensures
        lex_lt(a, b) == lex_lt(a.skip(i), b.skip(i)),
    decreases i,
{
    if i > 0 {
        assert(a.len() > 0 && b.len() > 0 && a[0] == b[0]);
        assert(lex_lt(a, b) == lex_lt(a.skip(1), b.skip(1)));
        lemma_lex_common_prefix(a.skip(1), b.skip(1), i - 1);
        assert(a.skip(1).skip(i - 1) =~= a.skip(i));
        assert(b.skip(1).skip(i - 1) =~= b.skip(i));
    } else {
        assert(a.skip(0) =~= a);
        assert(b.skip(0) =~= b);
    }
}

/// Strict lexicographic comparison of two slices.
pub fn bytes_lt(a: &[u8], b: &[u8]) -> (r: bool)
    ensures
        r == lex_lt(a@, b@),
{
    let mut j: usize = 0;
    loop
        invariant
            0 <= j <= a@.len(),
            j <= b@.len(),
            forall|k: int| 0 <= k < j ==> a@[k] == b@[k],
        decreases a@.len() - j,
    {
        proof {
            lemma_lex_common_prefix(a@, b@, j as int);
        }
        if j >= a.len() || j >= b.len() {
            return j >= a.len() && j < b.len();
        }
        if a[j] < b[j] {
            return true;
        }
        if a[j] > b[j] {
            return false;
        }
        j = j + 1;
    }
}

/// A sequence none of whose elements is `x` is clean of `x`.
pub proof fn lemma_find_byte_absent(s: Seq<u8>, x: u8)
    requires
        forall|i: int| 0 <= i < s.len() ==> s[i] != x,
    ensures
        find_byte(s, x) < 0,
{
    lemma_find_byte(s, x);
    if find_byte(s, x) >= 0 {
        assert(s[find_byte(s, x)] == x);
    }
}

/// The order is transitive.
pub proof fn lemma_lex_trans(a: Seq<u8>, b: Seq<u8>, c: Seq<u8>)
    requires
        lex_lt(a, b),
        lex_lt(b, c),
    ensures
        lex_lt(a, c),
    decreases a.len(),
{
    if a.len() > 0 && b.len() > 0 && c.len() > 0 && a[0] == b[0] && b[0] == c[0] {
        lemma_lex_trans(a.skip(1), b.skip(1), c.skip(1));
    }
}

/// Whether `p` is a prefix of `s`.
pub fn starts_with(s: &[u8], p: &[u8]) -> (r: bool)
    ensures
        r == (s@.len() >= p@.len() && s@.take(p@.len() as int) == p@),
{
    let m = p.len();
    if s.len() < m {
        return false;
    }
    let mut j: usize = 0;
    while j < m
        invariant
            0 <= j <= m,
            m == p@.len(),
            m <= s@.len(),
            forall|k: int| 0 <= k < j ==> s@[k] == p@[k],
        decreases m - j,
    {
        if s[j] != p[j] {
            proof {
                assert(s@.take(m as int)[j as int] != p@[j as int]);
            }
            return false;
        }
        j = j + 1;
    }
    proof {
        assert(s@.take(m as int) =~= p@);
    }
    true
}

} // verus!
