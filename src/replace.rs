//! The replace engine.
//!
//! The scan visits every position of the haystack once, in order. Three
//! encrypted counters carry its state: where the next output byte goes, how
//! many bytes of an accepted match are still to be consumed, and how many
//! matches were replaced. A match is accepted only where no earlier accepted
//! match covers its first byte and the count allows it, which gives the
//! leftmost, non-overlapping replacements of `str::replacen`. Output bytes are
//! written at the encrypted cursor by a select on every slot of a buffer sized
//! for the worst case.
use vstd::prelude::*;
use crate::fhe_char::{flag, is_flag, FheAsciiChar};
use crate::fhe_string::{
    constant_vec, is_padded, lemma_padded_shape, lemma_text_padded, no_zeros,
    text, vals, zeros, FheString, MAX_CAPACITY,
};
use crate::server_key::{matches_at, MyServerKey};

verus! {

/// `str::replacen(t, from, to, n)` for a non-empty `from`: the first `n`
/// leftmost non-overlapping occurrences of `from` become `to`.
pub open spec fn replacen_spec(t: Seq<u8>, from: Seq<u8>, to: Seq<u8>, n: nat) -> Seq<u8>
    decreases t.len(),
{
    if t.len() == 0 || from.len() == 0 {
        t
    } else if n > 0 && matches_at(t, from, 0) {
        to + replacen_spec(t.skip(from.len() as int), from, to, (n - 1) as nat)
    } else {
        seq![t[0]] + replacen_spec(t.drop_first(), from, to, n)
    }
}

/// `str::replace(t, from, to)` for a non-empty `from`.
pub open spec fn replace_spec(t: Seq<u8>, from: Seq<u8>, to: Seq<u8>) -> Seq<u8>
    decreases t.len(),
{
    if t.len() == 0 || from.len() == 0 {
        t
    } else if matches_at(t, from, 0) {
        to + replace_spec(t.skip(from.len() as int), from, to)
    } else {
        seq![t[0]] + replace_spec(t.drop_first(), from, to)
    }
}

/// The size of the output buffer, the longest result that a haystack buffer
/// of `len` bytes can give: its own size where the replacement is no longer
/// than the pattern; else room for as many replacements as the pattern can
/// occur without overlap (one per boundary for an empty pattern). The output
/// buffer is held to `MAX_CAPACITY` like every other buffer.
pub open spec fn output_capacity(len: nat, from_len: nat, to_len: nat) -> nat {
    if to_len <= from_len {
        len
    } else if from_len == 0 {
        len + (len + 1) * to_len
    } else {
        len + (len / from_len) * ((to_len - from_len) as nat)
    }
}

/// `str::replacen(t, "", to, n)`: `to` goes before each of the first `n`
/// boundaries between bytes, the end of the text included.
pub open spec fn replacen_empty_spec(t: Seq<u8>, to: Seq<u8>, n: nat) -> Seq<u8>
    decreases t.len(),
{
    if n == 0 {
        t
    } else if t.len() == 0 {
        to
    } else {
        to + seq![t[0]] + replacen_empty_spec(t.drop_first(), to, (n - 1) as nat)
    }
}

/// `str::replacen(t, from, to, n)`, `from` empty or not.
pub open spec fn replacen_str_spec(t: Seq<u8>, from: Seq<u8>, to: Seq<u8>, n: nat) -> Seq<u8> {
    if from.len() == 0 {
        replacen_empty_spec(t, to, n)
    } else {
        replacen_spec(t, from, to, n)
    }
}

/// `str::replace(t, from, to)`, `from` empty or not: a text of length `l` has
/// `l + 1` boundaries.
pub open spec fn replace_str_spec(t: Seq<u8>, from: Seq<u8>, to: Seq<u8>) -> Seq<u8> {
    if from.len() == 0 {
        replacen_empty_spec(t, to, t.len() + 1)
    } else {
        replace_spec(t, from, to)
    }
}

pub proof fn lemma_replacen_empty_len(t: Seq<u8>, to: Seq<u8>, n: nat)
    ensures
        replacen_empty_spec(t, to, n).len() <= t.len() + (t.len() + 1) * to.len(),
    decreases t.len(),
{
    if n > 0 && t.len() > 0 {
        lemma_replacen_empty_len(t.drop_first(), to, (n - 1) as nat);
        let l = t.len() as int;
        let tl = to.len() as int;
        assert(tl + 1 + (l - 1) + l * tl <= l + (l + 1) * tl) by (nonlinear_arith)
            requires
                l >= 1,
                tl >= 0,
        ;
    } else if n > 0 {
        assert(to.len() <= (t.len() + 1) * to.len()) by (nonlinear_arith);
    }
}

pub proof fn lemma_replacen_empty_no_zeros(t: Seq<u8>, to: Seq<u8>, n: nat)
    requires
        no_zeros(t),
        no_zeros(to),
    ensures
        no_zeros(replacen_empty_spec(t, to, n)),
    decreases t.len(),
{
    if n > 0 && t.len() > 0 {
        lemma_replacen_empty_no_zeros(t.drop_first(), to, (n - 1) as nat);
    }
}

/// Once the count allows every occurrence, `replacen` is `replace`.
pub proof fn lemma_replacen_all(t: Seq<u8>, from: Seq<u8>, to: Seq<u8>, n: nat)
    requires
        n >= t.len(),
    ensures
        replacen_spec(t, from, to, n) == replace_spec(t, from, to),
    decreases t.len(),
{
    if t.len() > 0 && from.len() > 0 {
        if n > 0 && matches_at(t, from, 0) {
            lemma_replacen_all(t.skip(from.len() as int), from, to, (n - 1) as nat);
        } else {
            lemma_replacen_all(t.drop_first(), from, to, n);
        }
    }
}

/// Once the count reaches the number of boundaries, it no longer binds.
pub proof fn lemma_replacen_empty_all(t: Seq<u8>, to: Seq<u8>, n1: nat, n2: nat)
    requires
        n1 > t.len(),
        n2 > t.len(),
    ensures
        replacen_empty_spec(t, to, n1) == replacen_empty_spec(t, to, n2),
    decreases t.len(),
{
    if t.len() > 0 {
        lemma_replacen_empty_all(t.drop_first(), to, (n1 - 1) as nat, (n2 - 1) as nat);
    }
}

/// Inserting nothing leaves the text as it is.
pub proof fn lemma_replacen_empty_nothing(t: Seq<u8>, to: Seq<u8>, n: nat)
    requires
        to.len() == 0,
    ensures
        replacen_empty_spec(t, to, n) == t,
    decreases t.len(),
{
    if n > 0 && t.len() > 0 {
        lemma_replacen_empty_nothing(t.drop_first(), to, (n - 1) as nat);
        assert(to + seq![t[0]] + t.drop_first() =~= t);
    } else if n > 0 {
        assert(to =~= t);
    }
}

/// The output never outgrows `output_capacity`.
pub proof fn lemma_replacen_len(t: Seq<u8>, from: Seq<u8>, to: Seq<u8>, n: nat)
    requires
        from.len() > 0,
    ensures
        replacen_spec(t, from, to, n).len() <= output_capacity(t.len(), from.len(), to.len()),
    decreases t.len(),
{
    if t.len() > 0 {
        let l = t.len() as int;
        let fl = from.len() as int;
        let tl = to.len() as int;
        let d = tl - fl;
        if n > 0 && matches_at(t, from, 0) {
            let rest = t.skip(fl);
            lemma_replacen_len(rest, from, to, (n - 1) as nat);
            if tl > fl {
                let q = (l - fl) / fl;
                vstd::arithmetic::div_mod::lemma_div_plus_one(l - fl, fl);
                assert(fl + (l - fl) == l);
                assert(q + 1 == l / fl);
                assert(q * d + d == (l / fl) * d) by (nonlinear_arith)
                    requires
                        q + 1 == l / fl,
                ;
            }
        } else {
            lemma_replacen_len(t.drop_first(), from, to, n);
            if tl > fl {
                vstd::arithmetic::div_mod::lemma_div_is_ordered(l - 1, l, fl);
                assert(((l - 1) / fl) * d <= (l / fl) * d) by (nonlinear_arith)
                    requires
                        (l - 1) / fl <= l / fl,
                        d >= 0,
                ;
            }
        }
    } else {
        if to.len() > from.len() {
            assert((0nat / from.len()) == 0);
        }
    }
}

/// Padding after the text passes through unchanged.
pub proof fn lemma_replacen_padded(t: Seq<u8>, m: nat, from: Seq<u8>, to: Seq<u8>, n: nat)
    requires
        no_zeros(from),
        from.len() > 0,
    ensures
        replacen_spec(t + zeros(m), from, to, n) == replacen_spec(t, from, to, n) + replacen_spec(
            zeros(m),
            from,
            to,
            n,
        ),
    decreases t.len(),
{
    let tz = t + zeros(m);
    if t.len() == 0 {
        assert(tz =~= zeros(m));
        assert(replacen_spec(t, from, to, n) =~= Seq::<u8>::empty());
        assert(Seq::<u8>::empty() + replacen_spec(zeros(m), from, to, n) =~= replacen_spec(
            zeros(m),
            from,
            to,
            n,
        ));
    } else {
        let fl = from.len() as int;
        if matches_at(tz, from, 0) && fl > t.len() {
            assert(tz[fl - 1] == 0);
            assert(tz.subrange(0, fl)[fl - 1] == tz[fl - 1]);
        }
        if fl <= t.len() {
            assert(tz.subrange(0, fl) =~= t.subrange(0, fl));
        }
        if n > 0 && matches_at(tz, from, 0) {
            assert(matches_at(t, from, 0));
            assert(tz.skip(fl) =~= t.skip(fl) + zeros(m));
            lemma_replacen_padded(t.skip(fl), m, from, to, (n - 1) as nat);
            assert(to + (replacen_spec(t.skip(fl), from, to, (n - 1) as nat) + replacen_spec(
                zeros(m),
                from,
                to,
                (n - 1) as nat,
            )) =~= to + replacen_spec(t.skip(fl), from, to, (n - 1) as nat) + replacen_spec(
                zeros(m),
                from,
                to,
                (n - 1) as nat,
            ));
            lemma_replacen_zeros(m, from, to, n);
            lemma_replacen_zeros(m, from, to, (n - 1) as nat);
        } else {
            assert(!(n > 0 && matches_at(t, from, 0)));
            assert(tz.drop_first() =~= t.drop_first() + zeros(m));
            lemma_replacen_padded(t.drop_first(), m, from, to, n);
            assert(seq![t[0]] + (replacen_spec(t.drop_first(), from, to, n) + replacen_spec(
                zeros(m),
                from,
                to,
                n,
            )) =~= seq![t[0]] + replacen_spec(t.drop_first(), from, to, n) + replacen_spec(
                zeros(m),
                from,
                to,
                n,
            ));
        }
    }
}

/// A text shorter than the pattern is left as it is.
pub proof fn lemma_replacen_short(t: Seq<u8>, from: Seq<u8>, to: Seq<u8>, n: nat)
    requires
        t.len() < from.len(),
    ensures
        replacen_spec(t, from, to, n) == t,
    decreases t.len(),
{
    if t.len() > 0 {
        lemma_replacen_short(t.drop_first(), from, to, n);
        assert(seq![t[0]] + t.drop_first() =~= t);
    }
}

/// Zeros never match a pattern without zero bytes.
pub proof fn lemma_replacen_zeros(m: nat, from: Seq<u8>, to: Seq<u8>, n: nat)
    requires
        no_zeros(from),
        from.len() > 0,
    ensures
        replacen_spec(zeros(m), from, to, n) == zeros(m),
    decreases m,
{
    if m > 0 {
        let z = zeros(m);
        if matches_at(z, from, 0) {
            assert(z.subrange(0, from.len() as int)[0] == z[0]);
        }
        assert(z.drop_first() =~= zeros((m - 1) as nat));
        lemma_replacen_zeros((m - 1) as nat, from, to, n);
        assert(seq![0u8] + zeros((m - 1) as nat) =~= z);
    }
}

/// Replacing with bytes that are not zero in a text without zeros leaves no zeros.
pub proof fn lemma_replacen_no_zeros(t: Seq<u8>, from: Seq<u8>, to: Seq<u8>, n: nat)
    requires
        no_zeros(t),
        no_zeros(to),
    ensures
        no_zeros(replacen_spec(t, from, to, n)),
    decreases t.len(),
{
    if t.len() > 0 && from.len() > 0 {
        if n > 0 && matches_at(t, from, 0) {
            lemma_replacen_no_zeros(t.skip(from.len() as int), from, to, (n - 1) as nat);
        } else {
            lemma_replacen_no_zeros(t.drop_first(), from, to, n);
        }
    }
}

/// One step of the scan, from a position that no accepted match covers.
pub proof fn lemma_replacen_step(s: Seq<u8>, f: Seq<u8>, tv: Seq<u8>, i: int, budget: nat)
    requires
        0 <= i < s.len(),
        f.len() > 0,
    ensures
        budget > 0 && matches_at(s, f, i) ==> replacen_spec(s.skip(i), f, tv, budget) == tv
            + replacen_spec(s.skip(i + f.len()), f, tv, (budget - 1) as nat),
        !(budget > 0 && matches_at(s, f, i)) ==> replacen_spec(s.skip(i), f, tv, budget)
            == seq![s[i]] + replacen_spec(s.skip(i + 1), f, tv, budget),
{
    let rest = s.skip(i);
    let fl = f.len() as int;
    if i + fl <= s.len() {
        assert(rest.subrange(0, fl) =~= s.subrange(i, i + fl));
    }
    assert(matches_at(rest, f, 0) <==> matches_at(s, f, i));
    assert(rest.drop_first() =~= s.skip(i + 1));
    if matches_at(s, f, i) {
        assert(rest.skip(fl) =~= s.skip(i + fl));
    }
}

impl MyServerKey {
    /// Appends to the output what one step of the scan emits: `to` where
    /// `accept` holds, the byte `c` where `copy` holds.
    pub(crate) fn emit(
        &self,
        out: &mut Vec<FheAsciiChar>,
        cursor: &FheAsciiChar,
        accept: &FheAsciiChar,
        to: &Vec<FheAsciiChar>,
        copy: &FheAsciiChar,
        c: &FheAsciiChar,
        Ghost(e): Ghost<Seq<u8>>,
    )
        requires
            old(out)@.len() <= MAX_CAPACITY,
            is_flag(accept@),
            is_flag(copy@),
            !(accept@ == 1 && copy@ == 1),
            accept@ == 1 || copy@ == 1 ==> cursor@ == e.len(),
            e.len() <= old(out)@.len(),
            vals(old(out)@) == e + zeros((old(out)@.len() - e.len()) as nat),
            accept@ == 1 ==> e.len() + to@.len() <= old(out)@.len(),
            copy@ == 1 ==> e.len() + 1 <= old(out)@.len(),
        ensures
            final(out)@.len() == old(out)@.len(),
            ({
                let e2 = if accept@ == 1 {
                    e + vals(to@)
                } else if copy@ == 1 {
                    e.push(c@)
                } else {
                    e
                };
                vals(final(out)@) == e2 + zeros((old(out)@.len() - e2.len()) as nat)
            }),
    {
        let ghost tv = vals(to@);
        let ghost width = out@.len();
        let tlen = to.len();
        let mut m: usize = 0;
        while m < tlen
            invariant
                tv == vals(to@),
                tlen == tv.len(),
                tlen == to@.len(),
                width == out@.len(),
                width <= MAX_CAPACITY,
                is_flag(accept@),
                accept@ == 1 ==> cursor@ == e.len(),
                e.len() <= width,
                m <= tlen,
                accept@ == 1 ==> e.len() + tlen <= width,
                vals(out@) == if accept@ == 1 {
                    e + tv.take(m as int) + zeros((width - e.len() - m) as nat)
                } else {
                    e + zeros((width - e.len()) as nat)
                },
            decreases tlen - m,
        {
            let offset = FheAsciiChar::encrypt_trivial(m as u8);
            let at = cursor.add(&offset);
            let ghost prev = vals(out@);
            self.scatter(out, accept, &at, &to[m]);
            proof {
                if accept@ == 1 {
                    assert(at@ == e.len() + m);
                    assert(to@[m as int]@ == tv[m as int]);
                    assert(vals(out@) =~= e + tv.take(m as int + 1) + zeros(
                        (width - e.len() - m - 1) as nat,
                    ));
                }
            }
            m += 1;
        }
        self.scatter(out, copy, cursor, c);
        proof {
            if accept@ == 1 {
                assert(tv.take(tlen as int) =~= tv);
                assert(vals(out@) =~= e + tv + zeros((width - (e + tv).len()) as nat));
            } else if copy@ == 1 {
                assert(vals(out@) =~= e.push(c@) + zeros((width - e.len() - 1) as nat));
            } else {
                assert(vals(out@) =~= e + zeros((width - e.len()) as nat));
            }
        }
    }

    /// Writes `c` at the encrypted position `at` of `out` where `cond` holds.
    fn scatter(&self, out: &mut Vec<FheAsciiChar>, cond: &FheAsciiChar, at: &FheAsciiChar,
        c: &FheAsciiChar)
        requires
            old(out)@.len() <= MAX_CAPACITY,
            is_flag(cond@),
        ensures
            final(out)@.len() == old(out)@.len(),
            vals(final(out)@) == if cond@ == 1 && at@ < old(out)@.len() {
                vals(old(out)@).update(at@ as int, c@)
            } else {
                vals(old(out)@)
            },
    {
        let ghost before = vals(out@);
        let w = out.len();
        let mut k: usize = 0;
        while k < w
            invariant
                w == out@.len(),
                w <= MAX_CAPACITY,
                is_flag(cond@),
                k <= w,
                before.len() == w,
                forall|j: int| 0 <= j < w ==> #[trigger] vals(out@)[j] == if j < k && cond@ == 1
                    && at@ == j {
                    c@
                } else {
                    before[j]
                },
            decreases w - k,
        {
            let enc_k = FheAsciiChar::encrypt_trivial(k as u8);
            let hit = cond.bitand(&at.eq(&enc_k));
            proof {
                assert(enc_k@ == k);
                assert(hit@ == flag(cond@ == 1 && at@ == k));
                assert(vals(out@)[k as int] == before[k as int]);
            }
            let v = hit.if_then_else(c, &out[k]);
            let ghost prev = vals(out@);
            out.set(k, v);
            proof {
                assert(vals(out@) =~= prev.update(k as int, v@));
            }
            k += 1;
        }
        proof {
            if cond@ == 1 && at@ < w {
                assert(vals(out@) =~= before.update(at@ as int, c@));
            } else {
                assert(vals(out@) =~= before);
            }
        }
    }

    /// Replaces the first `n` (as `n` decrypts) leftmost non-overlapping
    /// occurrences of a non-empty `from` in the text with `to`.
    #[verifier::rlimit(100)]
    fn replacen_pattern(
        &self,
        string: &FheString,
        from: &Vec<FheAsciiChar>,
        to: &Vec<FheAsciiChar>,
        n: FheAsciiChar,
    ) -> (r: FheString)
        requires
            is_padded(string@),
            no_zeros(vals(from@)),
            no_zeros(vals(to@)),
            from@.len() > 0,
            output_capacity(string@.len(), from@.len(), to@.len()) <= MAX_CAPACITY,
        ensures
            is_padded(r@),
            text(r@) == replacen_spec(text(string@), vals(from@), vals(to@), n@ as nat),
    {
        let ghost s = string@;
        let ghost f = vals(from@);
        let ghost tv = vals(to@);
        let ghost total = replacen_spec(s, f, tv, n@ as nat);
        let len = string.len();
        let flen = from.len();
        let tlen = to.len();
        let width = if tlen <= flen {
            len
        } else {
            len + (len / flen) * (tlen - flen)
        };
        proof {
            lemma_replacen_len(s, f, tv, n@ as nat);
            assert(s.skip(0) =~= s);
            assert(Seq::<u8>::empty() + total =~= total);
        }
        if flen > len {
            // No occurrence fits in the buffer.
            proof {
                lemma_padded_shape(s);
                lemma_replacen_short(text(s), f, tv, n@ as nat);
            }
            return string.clone_string();
        }
        let zero = FheAsciiChar::encrypt_trivial(0u8);
        let one = FheAsciiChar::encrypt_trivial(1u8);
        let mut out = constant_vec(zero, width);
        let mut cursor = FheAsciiChar::encrypt_trivial(0u8);
        let mut skip = FheAsciiChar::encrypt_trivial(0u8);
        let mut count = FheAsciiChar::encrypt_trivial(0u8);
        let skip_after_match = FheAsciiChar::encrypt_trivial((flen - 1) as u8);
        let ghost mut emitted: Seq<u8> = Seq::empty();
        proof {
            assert(vals(out@) =~= emitted + zeros(width as nat));
            if tlen > flen {
                vstd::arithmetic::div_mod::lemma_div_plus_one(len - flen, flen as int);
                assert((len - flen) / (flen as int) >= 0);
                assert(len / flen >= 1);
                assert((len / flen) * (tlen - flen) >= tlen - flen) by (nonlinear_arith)
                    requires
                        len / flen >= 1,
                        tlen > flen,
                ;
            }
            assert(len <= width);
        }
        let step_to = FheAsciiChar::encrypt_trivial(if tlen <= 255 {
            tlen as u8
        } else {
            0u8
        });
        let mut i: usize = 0;
        while i < len
            invariant
                s == string@,
                f == vals(from@),
                tv == vals(to@),
                len == s.len(),
                flen == f.len(),
                flen == from@.len(),
                tlen == tv.len(),
                tlen == to@.len(),
                flen > 0,
                flen <= len,
                len <= width,
                tlen <= width || tlen <= flen,
                step_to@ == tlen || tlen > 255,
                width <= MAX_CAPACITY,
                total == replacen_spec(s, f, tv, n@ as nat),
                total.len() <= width,
                zero@ == 0,
                one@ == 1,
                skip_after_match@ == flen - 1,
                i <= len,
                i + skip@ <= len,
                count@ <= n@,
                count@ <= i,
                out@.len() == width,
                cursor@ == emitted.len(),
                emitted + replacen_spec(s.skip(i + skip@), f, tv, (n@ - count@) as nat) == total,
                vals(out@) == emitted + zeros((width - emitted.len()) as nat),
            decreases len - i,
        {
            let ghost budget = (n@ - count@) as nat;
            let candidate = if i + flen <= len {
                self.match_at(string, from, i)
            } else {
                zero
            };
            proof {
                lemma_replacen_step(s, f, tv, i as int, budget);
                if i + flen <= len {
                    assert(candidate@ == flag(matches_at(s, f, i as int)));
                } else {
                    assert(candidate@ == flag(matches_at(s, f, i as int)));
                }
            }
            let free = skip.eq(&zero);
            let allowed = count.lt(&n);
            let accept = candidate.bitand(&free).bitand(&allowed);
            let copy = free.bitand(&accept.flip());
            proof {
                assert(accept@ == flag(matches_at(s, f, i as int) && skip@ == 0 && count@ < n@));
                assert(copy@ == flag(skip@ == 0 && !(matches_at(s, f, i as int) && count@ < n@)));
                if skip@ == 0 {
                    if accept@ == 1 {
                        assert(total.len() >= emitted.len() + tlen);
                    } else {
                        assert(total.len() >= emitted.len() + 1);
                    }
                }
            }
            let ghost e = emitted;
            self.emit(&mut out, &cursor, &accept, to, &copy, &string.get(i), Ghost(e));
            proof {
                if skip@ == 0 {
                    if accept@ == 1 {
                        emitted = e + tv;
                        assert(e + (tv + replacen_spec(s.skip(i + flen), f, tv, (budget - 1) as nat))
                            =~= emitted + replacen_spec(s.skip(i + flen), f, tv, (budget - 1) as nat));
                    } else {
                        emitted = e.push(s[i as int]);
                        assert(e + (seq![s[i as int]] + replacen_spec(s.skip(i + 1), f, tv, budget))
                            =~= emitted + replacen_spec(s.skip(i + 1), f, tv, budget));
                    }
                }
            }
            // Advance the cursor, the skip counter and the match count.
            let step = accept.if_then_else(&step_to, &copy);
            cursor = cursor.add(&step);
            let skip_down = free.if_then_else(&zero, &skip.sub(&one));
            skip = accept.if_then_else(&skip_after_match, &skip_down);
            count = count.add(&accept);
            i += 1;
        }
        proof {
            assert(s.skip(len as int) =~= Seq::<u8>::empty());
            assert(emitted =~= total);
            lemma_padded_shape(s);
            let t = text(s);
            let pad = (len - t.len()) as nat;
            lemma_replacen_padded(t, pad, f, tv, n@ as nat);
            lemma_replacen_zeros(pad, f, tv, n@ as nat);
            lemma_replacen_no_zeros(t, f, tv, n@ as nat);
            let rt = replacen_spec(t, f, tv, n@ as nat);
            assert(vals(out@) =~= rt + zeros((width - rt.len()) as nat));
            lemma_text_padded(rt, (width - rt.len()) as nat);
        }
        FheString::from_vec(out)
    }

    /// Inserts `to` at each of the first `n` (as `n` decrypts) boundaries of
    /// the text. A boundary lies before each byte of the text and after its
    /// last; the scan tests for it from the byte before.
    #[verifier::rlimit(50)]
    fn replacen_empty(&self, string: &FheString, to: &Vec<FheAsciiChar>, n: FheAsciiChar) -> (r:
        FheString)
        requires
            is_padded(string@),
            no_zeros(vals(to@)),
            output_capacity(string@.len(), 0, to@.len()) <= MAX_CAPACITY,
        ensures
            is_padded(r@),
            text(r@) == replacen_empty_spec(text(string@), vals(to@), n@ as nat),
    {
        let ghost s = string@;
        let ghost tv = vals(to@);
        let ghost t = text(s);
        let ghost total = replacen_empty_spec(t, tv, n@ as nat);
        proof {
            lemma_padded_shape(s);
            lemma_replacen_empty_len(t, tv, n@ as nat);
            lemma_replacen_empty_no_zeros(t, tv, n@ as nat);
            assert(t.skip(0) =~= t);
            assert(Seq::<u8>::empty() + total =~= total);
            assert(t.len() + (t.len() + 1) * tv.len() <= s.len() + (s.len() + 1) * tv.len())
                by (nonlinear_arith)
                requires
                    t.len() <= s.len(),
            ;
        }
        let len = string.len();
        let tlen = to.len();
        let width = if tlen == 0 {
            len
        } else {
            len + (len + 1) * tlen
        };
        let zero = FheAsciiChar::encrypt_trivial(0u8);
        let one = FheAsciiChar::encrypt_trivial(1u8);
        let step_to = FheAsciiChar::encrypt_trivial(if tlen <= 255 {
            tlen as u8
        } else {
            0u8
        });
        proof {
            if tlen > 0 {
                assert(len + (len + 1) * tlen >= tlen) by (nonlinear_arith);
                assert(width >= tlen);
            } else {
                assert((t.len() + 1) * tlen == 0) by (nonlinear_arith)
                    requires
                        tlen == 0,
                ;
            }
        }
        let mut out = constant_vec(zero, width);
        let mut cursor = FheAsciiChar::encrypt_trivial(0u8);
        let mut count = FheAsciiChar::encrypt_trivial(0u8);
        let ghost mut emitted: Seq<u8> = Seq::empty();
        proof {
            assert(vals(out@) =~= emitted + zeros(width as nat));
        }
        let mut i: usize = 0;
        while i <= len
            invariant
                s == string@,
                tv == vals(to@),
                t == text(s),
                len == s.len(),
                tlen == tv.len(),
                tlen == to@.len(),
                t.len() <= len,
                forall|k: int| 0 <= k < len ==> (s[k] != 0 <==> k < t.len()),
                forall|k: int| 0 <= k < t.len() ==> s[k] == t[k],
                width == output_capacity(len as nat, 0, tlen as nat),
                width <= MAX_CAPACITY,
                total == replacen_empty_spec(t, tv, n@ as nat),
                total.len() <= width,
                zero@ == 0,
                one@ == 1,
                step_to@ == tlen,
                i <= len + 1,
                count@ <= n@,
                out@.len() == width,
                cursor@ == emitted.len(),
                i <= t.len() ==> emitted + replacen_empty_spec(t.skip(i as int), tv, (n@ - count@) as nat)
                    == total,
                i > t.len() ==> emitted == total,
                vals(out@) == emitted + zeros((width - emitted.len()) as nat),
            decreases len + 1 - i,
        {
            let boundary = if i == 0 {
                one
            } else {
                string.get(i - 1).ne(&zero)
            };
            let allowed = count.lt(&n);
            let insert = boundary.bitand(&allowed);
            let copy = if i < len {
                string.get(i).ne(&zero)
            } else {
                zero
            };
            let c = if i < len {
                string.get(i)
            } else {
                zero
            };
            let ghost budget = (n@ - count@) as nat;
            proof {
                assert(boundary@ == flag(i <= t.len()));
                assert(copy@ == flag(i < t.len()));
                if i <= t.len() {
                    let rest = t.skip(i as int);
                    if i < t.len() {
                        assert(rest.drop_first() =~= t.skip(i + 1));
                        assert(rest[0] == t[i as int]);
                        assert(c@ == t[i as int]);
                    }
                    if budget > 0 {
                        if i < t.len() {
                            assert(replacen_empty_spec(rest, tv, budget) == tv + seq![t[i as int]]
                                + replacen_empty_spec(t.skip(i + 1), tv, (budget - 1) as nat));
                            assert(emitted + (tv + seq![t[i as int]] + replacen_empty_spec(
                                t.skip(i + 1),
                                tv,
                                (budget - 1) as nat,
                            )) =~= (emitted + tv).push(t[i as int]) + replacen_empty_spec(
                                t.skip(i + 1),
                                tv,
                                (budget - 1) as nat,
                            ));
                        } else {
                            assert(rest.len() == 0);
                            assert(replacen_empty_spec(rest, tv, budget) == tv);
                        }
                    } else {
                        assert(replacen_empty_spec(rest, tv, budget) == rest);
                        if i < t.len() {
                            assert(replacen_empty_spec(t.skip(i + 1), tv, 0) == t.skip(i + 1));
                            assert(emitted + rest =~= emitted.push(t[i as int]) + t.skip(i + 1));
                        } else {
                            assert(emitted + rest =~= emitted);
                        }
                    }
                }
            }
            proof {
                if i <= t.len() && insert@ == 1 {
                    assert(emitted.len() + tlen <= total.len());
                }
                if copy@ == 1 {
                    assert(emitted.len() + 1 + (if insert@ == 1 {
                        tlen as int
                    } else {
                        0
                    }) <= total.len());
                }
            }
            // The replacement at this boundary.
            let ghost e = emitted;
            self.emit(&mut out, &cursor, &insert, to, &zero, &c, Ghost(e));
            proof {
                if insert@ == 1 {
                    emitted = e + tv;
                }
            }
            let step = insert.if_then_else(&step_to, &zero);
            cursor = cursor.add(&step);
            proof {
                if insert@ == 1 && tlen == 0 {
                    assert(tv =~= Seq::<u8>::empty());
                    assert(emitted =~= e);
                }
            }
            count = count.add(&insert);
            // The byte itself.
            let ghost e2 = emitted;
            let no = FheAsciiChar::encrypt_trivial(0u8);
            self.emit(&mut out, &cursor, &no, to, &copy, &c, Ghost(e2));
            proof {
                if copy@ == 1 {
                    emitted = e2.push(c@);
                }
            }
            cursor = cursor.add(&copy);
            i += 1;
        }
        proof {
            assert(vals(out@) =~= total + zeros((width - total.len()) as nat));
            lemma_text_padded(total, (width - total.len()) as nat);
        }
        FheString::from_vec(out)
    }

    /// `str::replacen`: replaces the first `n` (as `n` decrypts) leftmost
    /// non-overlapping occurrences of `from` in the text with `to`; an empty
    /// `from` inserts `to` at the first `n` boundaries.
    pub fn replacen(
        &self,
        string: &FheString,
        from: &Vec<FheAsciiChar>,
        to: &Vec<FheAsciiChar>,
        n: FheAsciiChar,
    ) -> (r: FheString)
        requires
            is_padded(string@),
            no_zeros(vals(from@)),
            no_zeros(vals(to@)),
            output_capacity(string@.len(), from@.len(), to@.len()) <= MAX_CAPACITY,
        ensures
            is_padded(r@),
            text(r@) == replacen_str_spec(text(string@), vals(from@), vals(to@), n@ as nat),
    {
        if from.len() == 0 {
            self.replacen_empty(string, to, n)
        } else {
            self.replacen_pattern(string, from, to, n)
        }
    }

    /// `str::replace`: replaces every leftmost non-overlapping occurrence of
    /// `from` in the text with `to`; an empty `from` inserts `to` at every
    /// boundary.
    pub fn replace(&self, string: &FheString, from: &Vec<FheAsciiChar>, to: &Vec<FheAsciiChar>) -> (r:
        FheString)
        requires
            is_padded(string@),
            no_zeros(vals(from@)),
            no_zeros(vals(to@)),
            output_capacity(string@.len(), from@.len(), to@.len()) <= MAX_CAPACITY,
        ensures
            is_padded(r@),
            text(r@) == replace_str_spec(text(string@), vals(from@), vals(to@)),
    {
        let all = FheAsciiChar::encrypt_trivial(255u8);
        proof {
            lemma_padded_shape(string@);
            lemma_replacen_all(text(string@), vals(from@), vals(to@), 255);
            if from@.len() > 0 {
            } else if to@.len() == 0 {
                lemma_replacen_empty_nothing(text(string@), vals(to@), 255);
                lemma_replacen_empty_nothing(text(string@), vals(to@), text(string@).len() + 1);
            } else {
                assert(string@.len() + (string@.len() + 1) * to@.len() >= string@.len() + 1)
                    by (nonlinear_arith)
                    requires
                        to@.len() >= 1,
                ;
                lemma_replacen_empty_all(text(string@), vals(to@), 255, text(string@).len() + 1);
            }
        }
        self.replacen(string, from, to, all)
    }
}

} // verus!
