//! The evaluation side: pattern search over padded encrypted strings.
//!
//! Every scan below visits every candidate offset and combines the per-offset
//! results with selects, so that the work done never depends on the text.
use vstd::prelude::*;
use crate::fhe_char::{flag, FheAsciiChar};
use crate::fhe_string::{
    is_padded, lemma_padded_shape, lemma_text_len, no_zeros, text, vals, FheString,
    MAX_CAPACITY,
};

verus! {

/// The "not found" position of `find` and `rfind`. Every offset at which a
/// match may start stays below it, so that positions fit in an encrypted byte.
pub const MAX_FIND_LENGTH: usize = 255;

/// `p` occurs in `t` at offset `i`.
pub open spec fn matches_at(t: Seq<u8>, p: Seq<u8>, i: int) -> bool {
    0 <= i && i + p.len() <= t.len() && t.subrange(i, i + p.len()) == p
}

/// `str::contains`.
pub open spec fn contains_spec(t: Seq<u8>, p: Seq<u8>) -> bool {
    exists|i: int| matches_at(t, p, i)
}

/// `str::starts_with`.
pub open spec fn starts_with_spec(t: Seq<u8>, p: Seq<u8>) -> bool {
    matches_at(t, p, 0)
}

/// `str::ends_with`.
pub open spec fn ends_with_spec(t: Seq<u8>, p: Seq<u8>) -> bool {
    p.len() <= t.len() && matches_at(t, p, t.len() - p.len())
}

/// `i` is where `str::find` finds `p` in `t`.
pub open spec fn is_first_match(t: Seq<u8>, p: Seq<u8>, i: int) -> bool {
    matches_at(t, p, i) && forall|j: int| 0 <= j < i ==> !matches_at(t, p, j)
}

/// `i` is where `str::rfind` finds `p` in `t`.
pub open spec fn is_last_match(t: Seq<u8>, p: Seq<u8>, i: int) -> bool {
    matches_at(t, p, i) && forall|j: int| i < j ==> !matches_at(t, p, j)
}

/// In a padded buffer, a pattern without zero bytes occurs at the same offsets
/// as in the buffer's text.
pub proof fn lemma_match_padded(s: Seq<u8>, p: Seq<u8>, i: int)
    requires
        is_padded(s),
        no_zeros(p),
        p.len() > 0,
    ensures
        matches_at(s, p, i) <==> matches_at(text(s), p, i),
{
    lemma_padded_shape(s);
    let t = text(s);
    if 0 <= i && i + p.len() <= t.len() {
        assert(s.subrange(i, i + p.len()) =~= t.subrange(i, i + p.len()));
    } else if 0 <= i && i + p.len() <= s.len() {
        let last = i + p.len() - 1;
        assert(s[last] == 0);
        assert(s.subrange(i, i + p.len())[p.len() - 1] == s[last]);
    }
}

/// A padded buffer and its text hold a pattern without zero bytes alike.
pub proof fn lemma_contains_padded(s: Seq<u8>, p: Seq<u8>)
    requires
        is_padded(s),
        no_zeros(p),
    ensures
        contains_spec(s, p) <==> contains_spec(text(s), p),
        p.len() > 0 ==> forall|i: int| matches_at(s, p, i) <==> matches_at(text(s), p, i),
{
    lemma_padded_shape(s);
    if p.len() == 0 {
        assert(matches_at(s, p, 0) && matches_at(text(s), p, 0)) by {
            assert(s.subrange(0, 0) =~= p);
            assert(text(s).subrange(0, 0) =~= p);
        }
    } else {
        assert forall|i: int| matches_at(s, p, i) <==> matches_at(text(s), p, i) by {
            lemma_match_padded(s, p, i);
        }
        if contains_spec(s, p) {
            let i = choose|i: int| matches_at(s, p, i);
            assert(matches_at(text(s), p, i));
        }
        if contains_spec(text(s), p) {
            let i = choose|i: int| matches_at(text(s), p, i);
            assert(matches_at(s, p, i));
        }
    }
}

/// The evaluation key: what a server needs to compute on encrypted strings.
/// Under the trivial encoding it carries no key material.
#[derive(Clone, Copy, Debug)]
pub struct MyServerKey {}

impl MyServerKey {
    pub fn new() -> (r: MyServerKey) {
        MyServerKey {  }
    }

    /// Encrypted 1 where `pattern` occurs in `string` at offset `i`.
    pub fn match_at(&self, string: &FheString, pattern: &Vec<FheAsciiChar>, i: usize) -> (r:
        FheAsciiChar)
        requires
            i + pattern@.len() <= string@.len(),
        ensures
            r@ == flag(matches_at(string@, vals(pattern@), i as int)),
    {
        let ghost s = string@;
        let ghost p = vals(pattern@);
        let n = string.len();
        let mut result = FheAsciiChar::encrypt_trivial(1u8);
        let mut j: usize = 0;
        while j < pattern.len()
            invariant
                s == string@,
                n == s.len(),
                p == vals(pattern@),
                p.len() == pattern@.len(),
                i + p.len() <= s.len(),
                j <= p.len(),
                result@ == flag(forall|k: int| 0 <= k < j ==> s[i + k] == p[k]),
            decreases p.len() - j,
        {
            let eql = string.get(i + j).eq(&pattern[j]);
            proof {
                assert(eql@ == flag(s[i + j] == p[j as int]));
            }
            let ghost prev = result@;
            result = result.bitand(&eql);
            proof {
                if (forall|k: int| 0 <= k < j + 1 ==> s[i + k] == p[k]) {
                    assert(forall|k: int| 0 <= k < j ==> s[i + k] == p[k]);
                    assert(prev == 1);
                    assert(s[i + j] == p[j as int]);
                }
                if result@ == 1 {
                    assert forall|k: int| 0 <= k < j + 1 implies s[i + k] == p[k] by {
                        if k == j {
                        }
                    }
                }
            }
            j += 1;
        }
        proof {
            if result@ == 1 {
                assert(s.subrange(i as int, i + p.len()) =~= p);
            } else if matches_at(s, p, i as int) {
                let k = choose|k: int| 0 <= k < p.len() && s[i + k] != p[k];
                assert(s.subrange(i as int, i + p.len())[k] == s[i + k]);
            }
        }
        result
    }

    /// Encrypted 1 if the text of `string` contains `needle`, else 0.
    pub fn contains(&self, string: &FheString, needle: &Vec<FheAsciiChar>) -> (r: FheAsciiChar)
        requires
            is_padded(string@),
            no_zeros(vals(needle@)),
        ensures
            r@ == flag(contains_spec(text(string@), vals(needle@))),
    {
        let ghost s = string@;
        let ghost p = vals(needle@);
        proof {
            lemma_contains_padded(s, p);
        }
        if needle.len() == 0 {
            proof {
                assert(text(s).subrange(0, 0) =~= p);
                assert(matches_at(text(s), p, 0));
            }
            return FheAsciiChar::encrypt_trivial(1u8);
        }
        if string.len() < needle.len() {
            return FheAsciiChar::encrypt_trivial(0u8);
        }
        let n = string.len();
        let end = string.len() - needle.len();
        let mut result = FheAsciiChar::encrypt_trivial(0u8);
        let mut i: usize = 0;
        while i <= end
            invariant
                s == string@,
                n == s.len(),
                p == vals(needle@),
                p.len() == needle@.len(),
                p.len() > 0,
                end == s.len() - p.len(),
                i <= end + 1,
                result@ == flag(exists|k: int| 0 <= k < i && matches_at(s, p, k)),
            decreases end + 1 - i,
        {
            let current = self.match_at(string, needle, i);
            result = result.bitor(&current);
            proof {
                if result@ == 1 && current@ == 0 {
                    let k = choose|k: int| 0 <= k < i && matches_at(s, p, k);
                    assert(0 <= k < i + 1 && matches_at(s, p, k));
                }
            }
            i += 1;
        }
        proof {
            if contains_spec(s, p) {
                let k = choose|k: int| matches_at(s, p, k);
                assert(0 <= k < i && matches_at(s, p, k));
            }
        }
        result
    }

    /// Encrypted 1 if the text of `string` starts with `pattern`, else 0.
    pub fn starts_with(&self, string: &FheString, pattern: &Vec<FheAsciiChar>) -> (r:
        FheAsciiChar)
        requires
            is_padded(string@),
            no_zeros(vals(pattern@)),
        ensures
            r@ == flag(starts_with_spec(text(string@), vals(pattern@))),
    {
        proof {
            lemma_contains_padded(string@, vals(pattern@));
            lemma_padded_shape(string@);
            if pattern@.len() == 0 {
                assert(text(string@).subrange(0, 0) =~= vals(pattern@));
                assert(string@.subrange(0, 0) =~= vals(pattern@));
                assert(matches_at(string@, vals(pattern@), 0));
            }
        }
        if pattern.len() > string.len() {
            return FheAsciiChar::encrypt_trivial(0u8);
        }
        self.match_at(string, pattern, 0)
    }

    /// Encrypted 1 if the text of `string` ends with `needle`, else 0. Only a
    /// window free of padding counts, and the last such window decides.
    pub fn ends_with(&self, string: &FheString, needle: &Vec<FheAsciiChar>) -> (r: FheAsciiChar)
        requires
            is_padded(string@),
            no_zeros(vals(needle@)),
        ensures
            r@ == flag(ends_with_spec(text(string@), vals(needle@))),
    {
        let ghost s = string@;
        let ghost p = vals(needle@);
        let ghost t = text(s);
        proof {
            lemma_padded_shape(s);
        }
        if needle.len() == 0 {
            proof {
                assert(t.subrange(t.len() as int, t.len() as int) =~= p);
            }
            return FheAsciiChar::encrypt_trivial(1u8);
        }
        if string.len() < needle.len() {
            return FheAsciiChar::encrypt_trivial(0u8);
        }
        let zero = FheAsciiChar::encrypt_trivial(0u8);
        let n = string.len();
        let end = string.len() - needle.len();
        let mut result = FheAsciiChar::encrypt_trivial(0u8);
        let mut i: usize = 0;
        while i <= end
            invariant
                s == string@,
                n == s.len(),
                p == vals(needle@),
                t == text(s),
                t.len() <= s.len(),
                forall|k: int| 0 <= k < s.len() ==> (s[k] != 0 <==> k < t.len()),
                zero@ == 0,
                p.len() == needle@.len(),
                p.len() > 0,
                end == s.len() - p.len(),
                i <= end + 1,
                result@ == flag(i > 0 && p.len() <= t.len() && matches_at(
                    s,
                    p,
                    if i - 1 <= t.len() - p.len() {
                        i - 1
                    } else {
                        t.len() - p.len()
                    },
                )),
            decreases end + 1 - i,
        {
            let current = self.match_at(string, needle, i);
            let mut all_non_zero = FheAsciiChar::encrypt_trivial(1u8);
            let mut j: usize = 0;
            while j < needle.len()
                invariant
                    s == string@,
                    n == s.len(),
                    p == vals(needle@),
                    p.len() == needle@.len(),
                    i <= end,
                    end == s.len() - p.len(),
                    zero@ == 0,
                    j <= p.len(),
                    all_non_zero@ == flag(forall|k: int| 0 <= k < j ==> #[trigger] s[i + k] != 0),
                decreases p.len() - j,
            {
                let nz = string.get(i + j).ne(&zero);
                all_non_zero = all_non_zero.bitand(&nz);
                proof {
                    if all_non_zero@ == 1 {
                        assert forall|k: int| 0 <= k < j + 1 implies #[trigger] s[i + k] != 0 by {
                            if k == j {
                            }
                        }
                    }
                }
                j += 1;
            }
            proof {
                if p.len() > 0 {
                    if i + p.len() <= t.len() {
                        assert forall|k: int| 0 <= k < p.len() implies #[trigger] s[i + k] != 0 by {}
                        assert(all_non_zero@ == 1);
                    } else {
                        assert(s[i + (p.len() - 1)] == 0);
                        assert(all_non_zero@ == 0);
                    }
                } else {
                    assert(all_non_zero@ == 1);
                }
            }
            result = all_non_zero.if_then_else(&current, &result);
            i += 1;
        }
        proof {
            if p.len() <= t.len() {
                if p.len() > 0 {
                    lemma_match_padded(s, p, t.len() - p.len());
                } else {
                    assert(s.subrange(t.len() - p.len(), t.len() - p.len()) =~= p);
                    assert(t.subrange(t.len() - p.len(), t.len() - p.len()) =~= p);
                }
            }
        }
        result
    }

    /// The first offset at which the text of `string` holds `pattern`, or
    /// `MAX_FIND_LENGTH` where it holds none.
    pub fn find(&self, string: &FheString, pattern: &Vec<FheAsciiChar>) -> (r: FheAsciiChar)
        requires
            is_padded(string@),
            no_zeros(vals(pattern@)),
            string@.len() < MAX_FIND_LENGTH + pattern@.len(),
        ensures
            contains_spec(text(string@), vals(pattern@)) ==> is_first_match(
                text(string@),
                vals(pattern@),
                r@ as int,
            ),
            !contains_spec(text(string@), vals(pattern@)) ==> r@ == MAX_FIND_LENGTH,
    {
        let ghost s = string@;
        let ghost p = vals(pattern@);
        let ghost t = text(s);
        proof {
            lemma_contains_padded(s, p);
        }
        if string.len() < pattern.len() {
            return FheAsciiChar::encrypt_trivial(MAX_FIND_LENGTH as u8);
        }
        let end = string.len() - pattern.len();
        let mut position = FheAsciiChar::encrypt_trivial(MAX_FIND_LENGTH as u8);
        let mut i: usize = end + 1;
        while i > 0
            invariant
                s == string@,
                p == vals(pattern@),
                end == s.len() - p.len(),
                end < MAX_FIND_LENGTH,
                i <= end + 1,
                (exists|k: int| i <= k <= end && matches_at(s, p, k)) ==> (i <= position@
                    <= end && matches_at(s, p, position@ as int) && forall|k: int|
                    i <= k < position@ ==> !matches_at(s, p, k)),
                !(exists|k: int| i <= k <= end && matches_at(s, p, k)) ==> position@
                    == MAX_FIND_LENGTH,
            decreases i,
        {
            i -= 1;
            let current = self.match_at(string, pattern, i);
            let enc_i = FheAsciiChar::encrypt_trivial(i as u8);
            position = current.if_then_else(&enc_i, &position);
            proof {
                if current@ == 0 && exists|k: int| i <= k <= end && matches_at(s, p, k) {
                    let k = choose|k: int| i <= k <= end && matches_at(s, p, k);
                    assert(k != i);
                    assert(i + 1 <= k <= end && matches_at(s, p, k));
                }
            }
        }
        proof {
            assert(forall|k: int| matches_at(s, p, k) ==> 0 <= k <= end);
            if p.len() == 0 {
                assert(matches_at(s, p, 0)) by {
                    assert(s.subrange(0, 0) =~= p);
                }
                assert(matches_at(t, p, 0)) by {
                    assert(t.subrange(0, 0) =~= p);
                }
            } else {
                assert forall|j: int| matches_at(s, p, j) <==> matches_at(t, p, j) by {
                    lemma_match_padded(s, p, j);
                }
            }
        }
        position
    }

    /// The last offset at which the text of `string` holds `pattern` (its
    /// length for an empty pattern), or `MAX_FIND_LENGTH` where it holds none.
    pub fn rfind(&self, string: &FheString, pattern: &Vec<FheAsciiChar>) -> (r: FheAsciiChar)
        requires
            is_padded(string@),
            no_zeros(vals(pattern@)),
            string@.len() < MAX_FIND_LENGTH + pattern@.len(),
        ensures
            contains_spec(text(string@), vals(pattern@)) ==> is_last_match(
                text(string@),
                vals(pattern@),
                r@ as int,
            ),
            !contains_spec(text(string@), vals(pattern@)) ==> r@ == MAX_FIND_LENGTH,
    {
        let ghost s = string@;
        let ghost p = vals(pattern@);
        let ghost t = text(s);
        proof {
            lemma_contains_padded(s, p);
            lemma_padded_shape(s);
        }
        let zero = FheAsciiChar::encrypt_trivial(0u8);
        if pattern.len() == 0 {
            // The last match of an empty pattern is the end of the text.
            let mut last_non_zero = zero;
            let mut i: usize = 0;
            while i < string.len()
                invariant
                    s == string@,
                    s.len() < MAX_FIND_LENGTH,
                    t == text(s),
                    t.len() <= s.len(),
                    forall|k: int| 0 <= k < s.len() ==> (s[k] != 0 <==> k < t.len()),
                    zero@ == 0,
                    i <= s.len(),
                    last_non_zero@ == if i <= t.len() {
                        i as int
                    } else {
                        t.len() as int
                    },
                decreases s.len() - i,
            {
                let is_not_zero = string.get(i).ne(&zero);
                let enc_i = FheAsciiChar::encrypt_trivial((i + 1) as u8);
                last_non_zero = is_not_zero.if_then_else(&enc_i, &last_non_zero);
                i += 1;
            }
            proof {
                assert(t.subrange(t.len() as int, t.len() as int) =~= p);
                assert(matches_at(t, p, t.len() as int));
            }
            return last_non_zero;
        }
        if string.len() < pattern.len() {
            return FheAsciiChar::encrypt_trivial(MAX_FIND_LENGTH as u8);
        }
        let end = string.len() - pattern.len();
        let mut position = FheAsciiChar::encrypt_trivial(MAX_FIND_LENGTH as u8);
        let mut i: usize = 0;
        while i <= end
            invariant
                s == string@,
                p == vals(pattern@),
                end == s.len() - p.len(),
                end < MAX_FIND_LENGTH,
                i <= end + 1,
                (exists|k: int| 0 <= k < i && matches_at(s, p, k)) ==> (position@ < i
                    && matches_at(s, p, position@ as int) && forall|k: int|
                    position@ < k < i ==> !matches_at(s, p, k)),
                !(exists|k: int| 0 <= k < i && matches_at(s, p, k)) ==> position@
                    == MAX_FIND_LENGTH,
            decreases end + 1 - i,
        {
            let current = self.match_at(string, pattern, i);
            let enc_i = FheAsciiChar::encrypt_trivial(i as u8);
            position = current.if_then_else(&enc_i, &position);
            proof {
                if current@ == 0 && exists|k: int| 0 <= k < i + 1 && matches_at(s, p, k) {
                    let k = choose|k: int| 0 <= k < i + 1 && matches_at(s, p, k);
                    assert(k != i);
                    assert(0 <= k < i && matches_at(s, p, k));
                }
            }
            i += 1;
        }
        proof {
            assert(forall|k: int| matches_at(s, p, k) ==> 0 <= k <= end);
            assert forall|j: int| matches_at(s, p, j) <==> matches_at(t, p, j) by {
                lemma_match_padded(s, p, j);
            }
        }
        position
    }

    /// Encrypted 1 if the text of `string` is empty, else 0.
    pub fn is_empty(&self, string: &FheString) -> (r: FheAsciiChar)
        requires
            is_padded(string@),
        ensures
            r@ == flag(text(string@).len() == 0),
    {
        let ghost s = string@;
        proof {
            lemma_padded_shape(s);
        }
        let zero = FheAsciiChar::encrypt_trivial(0u8);
        let mut result = FheAsciiChar::encrypt_trivial(1u8);
        let mut i: usize = 0;
        while i < string.len()
            invariant
                s == string@,
                zero@ == 0,
                i <= s.len(),
                result@ == flag(forall|k: int| 0 <= k < i ==> s[k] == 0),
            decreases s.len() - i,
        {
            let eql = string.get(i).eq(&zero);
            result = result.bitand(&eql);
            proof {
                if result@ == 1 {
                    assert forall|k: int| 0 <= k < i + 1 implies s[k] == 0 by {
                        if k == i {
                        }
                    }
                }
            }
            i += 1;
        }
        proof {
            if text(s).len() > 0 {
                assert(s[0] != 0);
            }
        }
        result
    }

    /// The length of the text of `string`: the number of its non-zero bytes.
    pub fn len(&self, string: &FheString) -> (r: FheAsciiChar)
        requires
            string@.len() <= MAX_CAPACITY,
        ensures
            r@ == text(string@).len(),
    {
        let ghost s = string@;
        let zero = FheAsciiChar::encrypt_trivial(0u8);
        let mut result = FheAsciiChar::encrypt_trivial(0u8);
        let mut i: usize = 0;
        proof {
            assert(s.take(0) =~= Seq::<u8>::empty());
        }
        while i < string.len()
            invariant
                s == string@,
                s.len() <= MAX_CAPACITY,
                zero@ == 0,
                i <= s.len(),
                result@ == text(s.take(i as int)).len(),
            decreases s.len() - i,
        {
            proof {
                lemma_text_len(s.take(i as int));
                assert(s.take(i as int + 1).drop_last() =~= s.take(i as int));
            }
            let is_not_zero = string.get(i).ne(&zero);
            result = result.add(&is_not_zero);
            i += 1;
        }
        proof {
            assert(s.take(s.len() as int) =~= s);
        }
        result
    }
}

} // verus!
