//! Strip, concatenate, repeat and trim: operations that punch holes in a buffer
//! and compact it again.
use vstd::prelude::*;
use crate::fhe_char::{flag, is_ascii_space, FheAsciiChar};
use crate::fhe_string::{
    bubble_zeroes_right, is_padded, lemma_padded_shape, lemma_text_append,
    lemma_text_len, lemma_text_padded, lemma_text_zeros, no_zeros, text, vals, zeros, FheString,
    MAX_CAPACITY,
};
use crate::server_key::{ends_with_spec, starts_with_spec, MyServerKey};

verus! {

/// The upper bound on the count that `repeat` takes.
pub const MAX_REPETITIONS: usize = 16;

/// `str::repeat`.
pub open spec fn repeat_spec(t: Seq<u8>, n: nat) -> Seq<u8>
    decreases n,
{
    if n == 0 {
        Seq::empty()
    } else {
        repeat_spec(t, (n - 1) as nat) + t
    }
}

/// `str::trim_start` on ASCII text.
pub open spec fn trim_start_spec(t: Seq<u8>) -> Seq<u8>
    decreases t.len(),
{
    if t.len() > 0 && is_ascii_space(t[0]) {
        trim_start_spec(t.drop_first())
    } else {
        t
    }
}

/// `str::trim_end` on ASCII text.
pub open spec fn trim_end_spec(t: Seq<u8>) -> Seq<u8>
    decreases t.len(),
{
    if t.len() > 0 && is_ascii_space(t.last()) {
        trim_end_spec(t.drop_last())
    } else {
        t
    }
}

/// `str::trim` on ASCII text.
pub open spec fn trim_spec(t: Seq<u8>) -> Seq<u8> {
    trim_end_spec(trim_start_spec(t))
}

/// A text together with an encrypted flag: whether the pattern was there, and
/// so removed.
#[derive(Clone, Debug)]
pub struct FheStrip {
    pub string: FheString,
    pub pattern_found: FheAsciiChar,
}

/// Whitespace or padding.
pub open spec fn blank(b: u8) -> bool {
    is_ascii_space(b) || b == 0
}

/// Trimming the start drops exactly the leading run of whitespace.
pub proof fn lemma_trim_start_run(t: Seq<u8>, l: int)
    requires
        0 <= l <= t.len(),
        forall|k: int| 0 <= k < l ==> is_ascii_space(#[trigger] t[k]),
        l == t.len() || !is_ascii_space(t[l]),
    ensures
        trim_start_spec(t) == t.skip(l),
    decreases l,
{
    if l == 0 {
        assert(t.skip(0) =~= t);
    } else {
        lemma_trim_start_run(t.drop_first(), l - 1);
        assert(t.drop_first().skip(l - 1) =~= t.skip(l));
    }
}

/// Trimming the end drops exactly the trailing run of whitespace.
pub proof fn lemma_trim_end_run(t: Seq<u8>, l: int)
    requires
        0 <= l <= t.len(),
        forall|k: int| l <= k < t.len() ==> is_ascii_space(#[trigger] t[k]),
        l == 0 || !is_ascii_space(t[l - 1]),
    ensures
        trim_end_spec(t) == t.take(l),
    decreases t.len() - l,
{
    if l == t.len() {
        assert(t.take(l) =~= t);
    } else {
        lemma_trim_end_run(t.drop_last(), l);
        assert(t.drop_last().take(l) =~= t.take(l));
    }
}

/// The length of the leading run of whitespace.
pub proof fn lemma_leading_run(t: Seq<u8>) -> (l: int)
    ensures
        0 <= l <= t.len(),
        forall|k: int| 0 <= k < l ==> is_ascii_space(#[trigger] t[k]),
        l == t.len() || !is_ascii_space(t[l]),
    decreases t.len(),
{
    if t.len() == 0 || !is_ascii_space(t[0]) {
        0
    } else {
        let l = lemma_leading_run(t.drop_first());
        assert forall|k: int| 0 <= k < l + 1 implies is_ascii_space(#[trigger] t[k]) by {
            if k > 0 {
                assert(t[k] == t.drop_first()[k - 1]);
            }
        }
        l + 1
    }
}

/// The start of the trailing run of whitespace.
pub proof fn lemma_trailing_run(t: Seq<u8>) -> (l: int)
    ensures
        0 <= l <= t.len(),
        forall|k: int| l <= k < t.len() ==> is_ascii_space(#[trigger] t[k]),
        l == 0 || !is_ascii_space(t[l - 1]),
    decreases t.len(),
{
    if t.len() == 0 || !is_ascii_space(t.last()) {
        t.len() as int
    } else {
        let l = lemma_trailing_run(t.drop_last());
        assert forall|k: int| l <= k < t.len() implies is_ascii_space(#[trigger] t[k]) by {
            if k < t.len() - 1 {
                assert(t[k] == t.drop_last()[k]);
            }
        }
        if l > 0 {
            assert(t[l - 1] == t.drop_last()[l - 1]);
        }
        l
    }
}

impl MyServerKey {
    /// Removes `pattern` from the start of the text where it stands there.
    pub fn strip_prefix(&self, string: &FheString, pattern: &Vec<FheAsciiChar>) -> (r: FheStrip)
        requires
            is_padded(string@),
            no_zeros(vals(pattern@)),
            string@.len() <= MAX_CAPACITY,
        ensures
            r.pattern_found@ == flag(starts_with_spec(text(string@), vals(pattern@))),
            !starts_with_spec(text(string@), vals(pattern@)) ==> r.string@ == string@,
            is_padded(r.string@),
            r.string@.len() == string@.len(),
            text(r.string@) == if starts_with_spec(text(string@), vals(pattern@)) {
                text(string@).skip(pattern@.len() as int)
            } else {
                text(string@)
            },
    {
        let ghost s = string@;
        let ghost p = vals(pattern@);
        let ghost t = text(s);
        proof {
            lemma_padded_shape(s);
        }
        let zero = FheAsciiChar::encrypt_trivial(0u8);
        if pattern.len() > string.len() {
            return FheStrip { string: string.clone_string(), pattern_found: zero };
        }
        let pattern_found_flag = self.starts_with(string, pattern);
        let mut result = string.get_bytes();
        let mut j: usize = 0;
        while j < pattern.len()
            invariant
                s == string@,
                p == vals(pattern@),
                p.len() == pattern@.len(),
                p.len() <= s.len(),
                zero@ == 0,
                j <= p.len(),
                result@.len() == s.len(),
                pattern_found_flag@ == flag(starts_with_spec(t, p)),
                forall|k: int| 0 <= k < s.len() ==> #[trigger] vals(result@)[k] == if k < j
                    && starts_with_spec(t, p) {
                    0
                } else {
                    s[k]
                },
            decreases p.len() - j,
        {
            proof {
                assert(vals(result@)[j as int] == s[j as int]);
            }
            let c = pattern_found_flag.if_then_else(&zero, &result[j]);
            let ghost prev = vals(result@);
            result.set(j, c);
            proof {
                assert(vals(result@) =~= prev.update(j as int, c@));
            }
            j += 1;
        }
        let compact = bubble_zeroes_right(&result);
        proof {
            let masked = vals(result@);
            if starts_with_spec(t, p) {
                assert(masked =~= zeros(p.len()) + (t.skip(p.len() as int) + zeros(
                    (s.len() - t.len()) as nat,
                )));
                lemma_text_append(zeros(p.len()), t.skip(p.len() as int) + zeros(
                    (s.len() - t.len()) as nat));
                lemma_text_zeros(p.len());
                lemma_text_padded(t.skip(p.len() as int), (s.len() - t.len()) as nat);
                assert(Seq::<u8>::empty() + t.skip(p.len() as int) =~= t.skip(p.len() as int));
            } else {
                assert(masked =~= s);
                assert(vals(compact@) =~= s);
            }
        }
        FheStrip { string: FheString::from_vec(compact), pattern_found: pattern_found_flag }
    }

    /// Removes `pattern` from the end of the text where it stands there. The
    /// window to clear is found from the encrypted text length.
    pub fn strip_suffix(&self, string: &FheString, pattern: &Vec<FheAsciiChar>) -> (r: FheStrip)
        requires
            is_padded(string@),
            no_zeros(vals(pattern@)),
            string@.len() <= MAX_CAPACITY,
        ensures
            r.pattern_found@ == flag(ends_with_spec(text(string@), vals(pattern@))),
            !ends_with_spec(text(string@), vals(pattern@)) ==> r.string@ == string@,
            is_padded(r.string@),
            r.string@.len() == string@.len(),
            text(r.string@) == if ends_with_spec(text(string@), vals(pattern@)) {
                text(string@).take(text(string@).len() - pattern@.len())
            } else {
                text(string@)
            },
    {
        let ghost s = string@;
        let ghost p = vals(pattern@);
        let ghost t = text(s);
        proof {
            lemma_padded_shape(s);
        }
        let zero = FheAsciiChar::encrypt_trivial(0u8);
        if pattern.len() > string.len() {
            proof {
                assert(!ends_with_spec(t, p));
            }
            return FheStrip { string: string.clone_string(), pattern_found: zero };
        }
        let found = self.ends_with(string, pattern);
        let length = self.len(string);
        let pattern_length = FheAsciiChar::encrypt_trivial(pattern.len() as u8);
        let start = length.sub(&pattern_length);
        let ghost cut = t.len() - p.len();
        let mut result = string.get_bytes();
        let mut j: usize = 0;
        while j < string.len()
            invariant
                s == string@,
                p == vals(pattern@),
                p.len() <= s.len(),
                s.len() <= MAX_CAPACITY,
                t == text(s),
                t.len() <= s.len(),
                zero@ == 0,
                j <= s.len(),
                result@.len() == s.len(),
                found@ == flag(ends_with_spec(t, p)),
                length@ == t.len(),
                ends_with_spec(t, p) ==> start@ == cut,
                cut == t.len() - p.len(),
                forall|k: int| 0 <= k < s.len() ==> #[trigger] vals(result@)[k] == if k < j
                    && ends_with_spec(t, p) && cut <= k < t.len() {
                    0
                } else {
                    s[k]
                },
            decreases s.len() - j,
        {
            let enc_j = FheAsciiChar::encrypt_trivial(j as u8);
            let in_window = enc_j.ge(&start).bitand(&enc_j.lt(&length));
            let mask = found.bitand(&in_window);
            proof {
                assert(enc_j@ == j);
                assert(vals(result@)[j as int] == s[j as int]);
                if ends_with_spec(t, p) {
                    assert(mask@ == flag(cut <= j < t.len()));
                } else {
                    assert(mask@ == 0);
                }
            }
            let c = mask.if_then_else(&zero, &result[j]);
            let ghost prev = vals(result@);
            result.set(j, c);
            proof {
                assert(vals(result@) =~= prev.update(j as int, c@));
            }
            j += 1;
        }
        proof {
            if ends_with_spec(t, p) {
                assert(vals(result@) =~= t.take(cut) + zeros((s.len() - cut) as nat));
                lemma_text_padded(t.take(cut), (s.len() - cut) as nat);
            } else {
                assert(vals(result@) =~= s);
            }
        }
        FheStrip { string: FheString::from_vec(result), pattern_found: found }
    }

    /// The two texts one after the other, compacted.
    pub fn concatenate(&self, string: &FheString, other: &FheString) -> (r: FheString)
        requires
            string@.len() + other@.len() <= MAX_CAPACITY,
        ensures
            is_padded(r@),
            r@.len() == string@.len() + other@.len(),
            text(r@) == text(string@) + text(other@),
    {
        let mut result = string.get_bytes();
        let mut tail = other.get_bytes();
        result.append(&mut tail);
        proof {
            lemma_text_append(string@, other@);
            assert(vals(result@) =~= string@ + other@);
        }
        FheString::from_vec(bubble_zeroes_right(&result))
    }

    /// The text repeated `repetitions` times.
    pub fn repeat_clear(&self, string: &FheString, repetitions: usize) -> (r: FheString)
        requires
            string@.len() * repetitions <= MAX_CAPACITY,
        ensures
            is_padded(r@),
            text(r@) == repeat_spec(text(string@), repetitions as nat),
    {
        let ghost s = string@;
        let bytes = string.get_bytes();
        let mut result: Vec<FheAsciiChar> = Vec::new();
        let mut i: usize = 0;
        while i < repetitions
            invariant
                s == string@,
                vals(bytes@) == s,
                s.len() * repetitions <= MAX_CAPACITY,
                i <= repetitions,
                vals(result@).len() == s.len() * i,
                text(vals(result@)) == repeat_spec(text(s), i as nat),
            decreases repetitions - i,
        {
            proof {
                assert(s.len() * (i + 1) == s.len() * i + s.len()) by (nonlinear_arith);
                assert(s.len() * (i + 1) <= s.len() * repetitions) by (nonlinear_arith)
                    requires i + 1 <= repetitions;
            }
            let ghost before = vals(result@);
            let mut copy = bytes.clone();
            proof {
                assert(vals(copy@) =~= s);
            }
            result.append(&mut copy);
            proof {
                assert(vals(result@) =~= before + s);
                lemma_text_append(before, s);
            }
            i += 1;
        }
        proof {
            lemma_text_len(vals(result@));
        }
        let compact = bubble_zeroes_right(&result);
        FheString::from_vec(compact)
    }

    /// The text repeated as many times as `repetitions` decrypts to, up to
    /// `MAX_REPETITIONS`: slot `i` of a buffer of `MAX_REPETITIONS` copies keeps
    /// its copy where `i < repetitions`.
    pub fn repeat(&self, string: &FheString, repetitions: FheAsciiChar) -> (r: FheString)
        requires
            string@.len() * MAX_REPETITIONS <= MAX_CAPACITY,
        ensures
            is_padded(r@),
            text(r@) == repeat_spec(
                text(string@),
                if repetitions@ <= MAX_REPETITIONS {
                    repetitions@ as nat
                } else {
                    MAX_REPETITIONS as nat
                },
            ),
    {
        let ghost s = string@;
        let zero = FheAsciiChar::encrypt_trivial(0u8);
        let str_len = string.len();
        let mut result: Vec<FheAsciiChar> = Vec::new();
        let mut i: usize = 0;
        while i < MAX_REPETITIONS
            invariant
                s == string@,
                str_len == s.len(),
                s.len() * MAX_REPETITIONS <= MAX_CAPACITY,
                zero@ == 0,
                i <= MAX_REPETITIONS,
                vals(result@).len() == s.len() * i,
                text(vals(result@)) == repeat_spec(
                    text(s),
                    if repetitions@ <= i {
                        repetitions@ as nat
                    } else {
                        i as nat
                    },
                ),
            decreases MAX_REPETITIONS - i,
        {
            proof {
                assert(s.len() * (i + 1) == s.len() * i + s.len()) by (nonlinear_arith);
            }
            let enc_i = FheAsciiChar::encrypt_trivial(i as u8);
            let copy_flag = enc_i.lt(&repetitions);
            let ghost before = vals(result@);
            let mut j: usize = 0;
            while j < str_len
                invariant
                    s == string@,
                    str_len == s.len(),
                    zero@ == 0,
                    j <= str_len,
                    copy_flag@ == flag(i < repetitions@),
                    vals(result@) == before + (if i < repetitions@ {
                        s.take(j as int)
                    } else {
                        zeros(j as nat)
                    }),
                decreases str_len - j,
            {
                let c = copy_flag.if_then_else(&string.get(j), &zero);
                let ghost prev = vals(result@);
                result.push(c);
                proof {
                    assert(vals(result@) =~= prev.push(c@));
                    if i < repetitions@ {
                        assert(s.take(j as int + 1) =~= s.take(j as int).push(s[j as int]));
                    } else {
                        assert(zeros(j as nat + 1) =~= zeros(j as nat).push(0u8));
                    }
                    assert(before + (if i < repetitions@ {
                        s.take(j as int + 1)
                    } else {
                        zeros(j as nat + 1)
                    }) =~= prev.push(c@));
                }
                j += 1;
            }
            proof {
                if i < repetitions@ {
                    assert(s.take(str_len as int) =~= s);
                    lemma_text_append(before, s);
                } else {
                    lemma_text_append(before, zeros(str_len as nat));
                    lemma_text_zeros(str_len as nat);
                    assert(text(before) + Seq::<u8>::empty() =~= text(before));
                }
            }
            i += 1;
        }
        proof {
            lemma_text_len(vals(result@));
        }
        FheString::from_vec(bubble_zeroes_right(&result))
    }

    /// Removes the leading whitespace of the text.
    pub fn trim_start(&self, string: &FheString) -> (r: FheString)
        requires
            is_padded(string@),
            string@.len() <= MAX_CAPACITY,
        ensures
            is_padded(r@),
            r@.len() == string@.len(),
            text(r@) == trim_start_spec(text(string@)),
    {
        let ghost s = string@;
        let ghost t = text(s);
        proof {
            lemma_padded_shape(s);
        }
        let zero = FheAsciiChar::encrypt_trivial(0u8);
        let mut in_lead = FheAsciiChar::encrypt_trivial(1u8);
        let mut result = string.get_bytes();
        let mut j: usize = 0;
        while j < string.len()
            invariant
                s == string@,
                zero@ == 0,
                j <= s.len(),
                result@.len() == s.len(),
                in_lead@ == flag(forall|k: int| 0 <= k < j ==> is_ascii_space(#[trigger] s[k])),
                forall|k: int| 0 <= k < s.len() ==> #[trigger] vals(result@)[k] == if k < j
                    && forall|m: int| 0 <= m <= k ==> is_ascii_space(#[trigger] s[m]) {
                    0
                } else {
                    s[k]
                },
            decreases s.len() - j,
        {
            let is_ws = string.get(j).is_whitespace();
            let ghost prev_lead = in_lead@;
            in_lead = in_lead.bitand(&is_ws);
            proof {
                if (forall|k: int| 0 <= k < j + 1 ==> is_ascii_space(#[trigger] s[k])) {
                    assert(forall|k: int| 0 <= k < j ==> is_ascii_space(#[trigger] s[k]));
                    assert(is_ascii_space(s[j as int]));
                }
                if in_lead@ == 1 {
                    assert forall|k: int| 0 <= k < j + 1 implies is_ascii_space(#[trigger] s[k]) by {
                        if k == j {
                        }
                    }
                }
            }
            let c = in_lead.if_then_else(&zero, &result[j]);
            let ghost prev = vals(result@);
            result.set(j, c);
            proof {
                assert(prev[j as int] == s[j as int]);
                assert(vals(result@) =~= prev.update(j as int, c@));
                assert forall|k: int| 0 <= k < s.len() implies #[trigger] vals(result@)[k] == if k
                    < j + 1 && forall|m: int| 0 <= m <= k ==> is_ascii_space(#[trigger] s[m]) {
                    0
                } else {
                    s[k]
                } by {
                    if k == j {
                        if forall|m: int| 0 <= m <= k ==> is_ascii_space(#[trigger] s[m]) {
                            assert(forall|m: int| 0 <= m < j + 1 ==> is_ascii_space(#[trigger] s[m]));
                        } else {
                            let m = choose|m: int| 0 <= m <= k && !is_ascii_space(#[trigger] s[m]);
                            assert(!(forall|m: int| 0 <= m < j + 1 ==> is_ascii_space(#[trigger] s[m])));
                        }
                    }
                }
            }
            j += 1;
        }
        proof {
            let l = lemma_leading_run(t);
            lemma_trim_start_run(t, l);
            assert forall|k: int| 0 <= k < s.len() implies #[trigger] vals(result@)[k] == (zeros(
                l as nat,
            ) + t.skip(l) + zeros((s.len() - t.len()) as nat))[k] by {
                if k < l {
                    assert forall|m: int| 0 <= m <= k implies is_ascii_space(#[trigger] s[m]) by {
                        assert(s[m] == t[m]);
                    }
                } else if k < t.len() {
                    assert(s[l] == t[l]);
                    assert(!is_ascii_space(s[l]));
                } else {
                    assert(!is_ascii_space(s[k]));
                }
            }
            assert(vals(result@) =~= zeros(l as nat) + (t.skip(l) + zeros(
                (s.len() - t.len()) as nat,
            )));
            lemma_text_append(zeros(l as nat), t.skip(l) + zeros((s.len() - t.len()) as nat));
            lemma_text_zeros(l as nat);
            lemma_text_padded(t.skip(l), (s.len() - t.len()) as nat);
            assert(Seq::<u8>::empty() + t.skip(l) =~= t.skip(l));
        }
        FheString::from_vec(bubble_zeroes_right(&result))
    }
    /// Removes the trailing whitespace of the text: a byte is cleared where
    /// everything from it to the end of the buffer is whitespace or padding.
    pub fn trim_end(&self, string: &FheString) -> (r: FheString)
        requires
            is_padded(string@),
        ensures
            is_padded(r@),
            r@.len() == string@.len(),
            text(r@) == trim_end_spec(text(string@)),
    {
        let ghost s = string@;
        let ghost t = text(s);
        proof {
            lemma_padded_shape(s);
        }
        let zero = FheAsciiChar::encrypt_trivial(0u8);
        let mut in_trail = FheAsciiChar::encrypt_trivial(1u8);
        let mut result = string.get_bytes();
        let n = string.len();
        let mut j: usize = n;
        while j > 0
            invariant
                s == string@,
                n == s.len(),
                zero@ == 0,
                j <= n,
                result@.len() == n,
                in_trail@ == flag(forall|m: int| j <= m < n ==> blank(#[trigger] s[m])),
                forall|k: int| 0 <= k < n ==> #[trigger] vals(result@)[k] == if j <= k
                    && forall|m: int| k <= m < n ==> blank(#[trigger] s[m]) {
                    0
                } else {
                    s[k]
                },
            decreases j,
        {
            j -= 1;
            let c0 = string.get(j);
            let blank_here = c0.is_whitespace().bitor(&c0.eq(&zero));
            in_trail = in_trail.bitand(&blank_here);
            proof {
                assert(blank_here@ == flag(blank(s[j as int])));
                if (forall|m: int| j <= m < n ==> blank(#[trigger] s[m])) {
                    assert(forall|m: int| j + 1 <= m < n ==> blank(#[trigger] s[m]));
                }
                if in_trail@ == 1 {
                    assert forall|m: int| j <= m < n implies blank(#[trigger] s[m]) by {
                        if m == j {
                        }
                    }
                }
            }
            let c = in_trail.if_then_else(&zero, &result[j]);
            let ghost prev = vals(result@);
            result.set(j, c);
            proof {
                assert(prev[j as int] == s[j as int]);
                assert(vals(result@) =~= prev.update(j as int, c@));
            }
        }
        proof {
            let l = lemma_trailing_run(t);
            lemma_trim_end_run(t, l);
            assert forall|k: int| 0 <= k < n implies #[trigger] vals(result@)[k] == (t.take(l)
                + zeros((n - l) as nat))[k] by {
                if k >= l {
                    assert forall|m: int| k <= m < n implies blank(#[trigger] s[m]) by {
                        if m < t.len() {
                            assert(s[m] == t[m]);
                        }
                    }
                } else {
                    assert(s[l - 1] == t[l - 1]);
                    assert(!blank(s[l - 1]));
                    assert(s[k] == t[k]);
                }
            }
            assert(vals(result@) =~= t.take(l) + zeros((n - l) as nat));
            lemma_text_padded(t.take(l), (n - l) as nat);
        }
        FheString::from_vec(result)
    }

    /// Removes the leading and trailing whitespace of the text.
    pub fn trim(&self, string: &FheString) -> (r: FheString)
        requires
            is_padded(string@),
            string@.len() <= MAX_CAPACITY,
        ensures
            is_padded(r@),
            r@.len() == string@.len(),
            text(r@) == trim_spec(text(string@)),
    {
        let start_trimmed = self.trim_start(string);
        self.trim_end(&start_trimmed)
    }
}

} // verus!
