//! UTF-8 well-formedness: the decoder rejects url and header bytes that are
//! not valid UTF-8, so validity is defined here as a spec over the byte
//! sequence and checked by a verified scanner.

use vstd::prelude::*;

verus! {

/// A UTF-8 continuation byte.
pub open spec fn is_cont(b: u8) -> bool {
    128 <= b <= 191
}

/// Length of the well-formed UTF-8 encoding that starts `s`, or `0` if `s`
/// is empty or starts with a malformed encoding.
pub open spec fn utf8_width(s: Seq<u8>) -> int {
    if s.len() == 0 {
        0
    } else {
        let b0 = s[0];
        if b0 < 128 {
            1
        } else if 194 <= b0 <= 223 {
            if s.len() >= 2 && is_cont(s[1]) {
                2
            } else {
                0
            }
        } else if b0 == 224 {
            if s.len() >= 3 && 160 <= s[1] <= 191 && is_cont(s[2]) {
                3
            } else {
                0
            }
        } else if 225 <= b0 <= 236 || b0 == 238 || b0 == 239 {
            if s.len() >= 3 && is_cont(s[1]) && is_cont(s[2]) {
                3
            } else {
                0
            }
        } else if b0 == 237 {
            if s.len() >= 3 && 128 <= s[1] <= 159 && is_cont(s[2]) {
                3
            } else {
                0
            }
        } else if b0 == 240 {
            if s.len() >= 4 && 144 <= s[1] <= 191 && is_cont(s[2]) && is_cont(s[3]) {
                4
            } else {
                0
            }
        } else if 241 <= b0 <= 243 {
            if s.len() >= 4 && is_cont(s[1]) && is_cont(s[2]) && is_cont(s[3]) {
                4
            } else {
                0
            }
        } else if b0 == 244 {
            if s.len() >= 4 && 128 <= s[1] <= 143 && is_cont(s[2]) && is_cont(s[3]) {
                4
            } else {
                0
            }
        } else {
            0
        }
    }
}

/// `s` is a well-formed UTF-8 byte sequence: a run of well-formed
/// encodings, excluding overlong forms, surrogates and values past
/// U+10FFFF.
pub open spec fn is_utf8(s: Seq<u8>) -> bool
    decreases s.len(),
{
    s.len() == 0 || (utf8_width(s) > 0 && is_utf8(s.skip(utf8_width(s))))
}

/// Concatenating two well-formed sequences keeps well-formedness.
pub proof fn lemma_utf8_append(a: Seq<u8>, b: Seq<u8>)
    requires
        is_utf8(a),
        is_utf8(b),
    ensures
        is_utf8(a + b),
    decreases a.len(),
{
    if a.len() == 0 {
        assert(a + b =~= b);
    } else {
        let w = utf8_width(a);
        let s = a + b;
        assert(utf8_width(s) == w) by {
            assert(s[0] == a[0]);
            assert(s.len() >= a.len());
            assert(a.len() >= 2 ==> s[1] == a[1]);
            assert(a.len() >= 3 ==> s[2] == a[2]);
            assert(a.len() >= 4 ==> s[3] == a[3]);
            assert(a.len() >= w);
        }
        lemma_utf8_append(a.skip(w), b);
        assert(s.skip(w) =~= a.skip(w) + b);
    }
}

/// Seven-bit bytes are well-formed UTF-8.
pub proof fn lemma_utf8_ascii(s: Seq<u8>)
    requires
        forall|i: int| 0 <= i < s.len() ==> s[i] < 128,
    ensures
        is_utf8(s),
    decreases s.len(),
{
    if s.len() > 0 {
        assert(utf8_width(s) == 1);
        lemma_utf8_ascii(s.skip(1));
    }
}

/// Width of the encoding that starts at `i`, as executable code.
fn utf8_step(s: &[u8], i: usize) -> (w: usize)
    requires
        i < s@.len(),
    ensures
        w == utf8_width(s@.skip(i as int)),
{
    let n = s.len();
    let ghost t = s@.skip(i as int);
    proof {
        assert(t[0] == s@[i as int]);
        assert(t.len() == n - i);
        assert(i + 1 < n ==> t[1] == s@[i + 1]);
        assert(i + 2 < n ==> t[2] == s@[i + 2]);
        assert(i + 3 < n ==> t[3] == s@[i + 3]);
    }
    let b0 = s[i];
    if b0 < 128 {
        1
    } else if 194 <= b0 && b0 <= 223 {
        if n - i > 1 && 128 <= s[i + 1] && s[i + 1] <= 191 {
            2
        } else {
            0
        }
    } else if b0 == 224 {
        if n - i > 2 && 160 <= s[i + 1] && s[i + 1] <= 191 && 128 <= s[i + 2] && s[i + 2] <= 191 {
            3
        } else {
            0
        }
    } else if (225 <= b0 && b0 <= 236) || b0 == 238 || b0 == 239 {
        if n - i > 2 && 128 <= s[i + 1] && s[i + 1] <= 191 && 128 <= s[i + 2] && s[i + 2] <= 191 {
            3
        } else {
            0
        }
    } else if b0 == 237 {
        if n - i > 2 && 128 <= s[i + 1] && s[i + 1] <= 159 && 128 <= s[i + 2] && s[i + 2] <= 191 {
            3
        } else {
            0
        }
    } else if b0 == 240 {
        if n - i > 3 && 144 <= s[i + 1] && s[i + 1] <= 191 && 128 <= s[i + 2] && s[i + 2] <= 191
            && 128 <= s[i + 3] && s[i + 3] <= 191 {
            4
        } else {
            0
        }
    } else if 241 <= b0 && b0 <= 243 {
        if n - i > 3 && 128 <= s[i + 1] && s[i + 1] <= 191 && 128 <= s[i + 2] && s[i + 2] <= 191
            && 128 <= s[i + 3] && s[i + 3] <= 191 {
            4
        } else {
            0
        }
    } else if b0 == 244 {
        if n - i > 3 && 128 <= s[i + 1] && s[i + 1] <= 143 && 128 <= s[i + 2] && s[i + 2] <= 191
            && 128 <= s[i + 3] && s[i + 3] <= 191 {
            4
        } else {
            0
        }
    } else {
        0
    }
}

/// Whether `s` is well-formed UTF-8.
pub fn check_utf8(s: &[u8]) -> (r: bool)
    ensures
        r == is_utf8(s@),
{
    let n = s.len();
    proof {
        assert(s@.skip(0) =~= s@);
    }
    let mut i: usize = 0;
    while i < n
        invariant
            0 <= i <= n,
            n == s@.len(),
            is_utf8(s@) == is_utf8(s@.skip(i as int)),
        decreases n - i,
    {
        let w = utf8_step(s, i);
        if w == 0 {
            return false;
        }
        proof {
            assert(utf8_width(s@.skip(i as int)) <= s@.skip(i as int).len());
            assert(s@.skip(i as int).skip(w as int) =~= s@.skip(i + w));
        }
        i = i + w;
    }
    proof {
        assert(s@.skip(n as int) =~= Seq::<u8>::empty());
    }
    true
}

} // verus!
