//! Splits from the right.
//!
//! Splitting from the right at the rightmost non-overlapping occurrences of a
//! delimiter is splitting the reversed text, from the left, at the reversed
//! delimiter, and reading each piece backwards. The buffers are reversed at
//! public positions and compacted again, so no secret is branched on.
use vstd::prelude::*;
use crate::fhe_char::{flag, is_flag, FheAsciiChar};
use crate::fhe_string::{
    bubble_zeroes_right, constant_vec, is_padded, lemma_text_append,
    lemma_text_padded, no_zeros, text, vals, zeros, FheString, MAX_CAPACITY,
};
use crate::server_key::MyServerKey;
use crate::split::{drop_empty_last, holds_pieces, split_spec, splitn_spec, views, FheSplit};

verus! {

/// `s` read backwards.
pub open spec fn reverse(s: Seq<u8>) -> Seq<u8> {
    Seq::new(s.len(), |i: int| s[s.len() - 1 - i])
}

/// Every piece read backwards.
pub open spec fn reverse_each(v: Seq<Seq<u8>>) -> Seq<Seq<u8>> {
    v.map_values(|x: Seq<u8>| reverse(x))
}

/// `str::rsplit(p)` collected.
pub open spec fn rsplit_spec(t: Seq<u8>, p: Seq<u8>) -> Seq<Seq<u8>> {
    reverse_each(split_spec(reverse(t), reverse(p)))
}

/// `str::rsplitn(n, p)` collected.
pub open spec fn rsplitn_spec(t: Seq<u8>, p: Seq<u8>, n: nat) -> Seq<Seq<u8>> {
    reverse_each(splitn_spec(reverse(t), reverse(p), n))
}

/// The pieces without a first one that is empty.
pub open spec fn drop_empty_first(v: Seq<Seq<u8>>) -> Seq<Seq<u8>> {
    if v.len() > 0 && v[0].len() == 0 {
        v.drop_first()
    } else {
        v
    }
}

/// `str::rsplit_terminator(p)` collected: the empty
/// piece after a delimiter that ends the text is left out.
pub open spec fn rsplit_terminator_spec(t: Seq<u8>, p: Seq<u8>) -> Seq<Seq<u8>> {
    drop_empty_first(rsplit_spec(t, p))
}

/// Reversing commutes with taking the text.
pub proof fn lemma_text_reverse(s: Seq<u8>)
    ensures
        text(reverse(s)) == reverse(text(s)),
    decreases s.len(),
{
    if s.len() == 0 {
        assert(reverse(s) =~= s);
        assert(reverse(text(s)) =~= text(s));
    } else {
        let d = s.drop_last();
        lemma_text_reverse(d);
        assert(reverse(s) =~= seq![s.last()] + reverse(d));
        lemma_text_append(seq![s.last()], reverse(d));
        let e = seq![s.last()];
        assert(e.drop_last() =~= Seq::<u8>::empty());
        assert(text(e.drop_last()) =~= Seq::<u8>::empty());
        assert(e.last() == s.last());
        if s.last() == 0 {
            assert(text(seq![s.last()]) =~= Seq::<u8>::empty());
            assert(Seq::<u8>::empty() + reverse(text(d)) =~= reverse(text(d)));
        } else {
            assert(text(seq![s.last()]) =~= seq![s.last()]);
            assert(reverse(text(d).push(s.last())) =~= seq![s.last()] + reverse(text(d)));
        }
    }
}

pub proof fn lemma_reverse_no_zeros(s: Seq<u8>)
    requires
        no_zeros(s),
    ensures
        no_zeros(reverse(s)),
        reverse(reverse(s)) == s,
{
    assert(reverse(reverse(s)) =~= s);
}

pub proof fn lemma_reverse_each_drop_empty_last(v: Seq<Seq<u8>>)
    ensures
        reverse_each(drop_empty_last(v)) == drop_empty_last(reverse_each(v)),
{
    if v.len() > 0 && v.last().len() == 0 {
        assert(reverse_each(v).last().len() == 0);
        assert(reverse_each(v.drop_last()) =~= reverse_each(v).drop_last());
    } else if v.len() > 0 {
        assert(reverse_each(v).last().len() != 0);
    }
}

/// Leaving out an empty first and an empty last piece can go in either order.
pub proof fn lemma_drop_empty_commute(v: Seq<Seq<u8>>)
    ensures
        drop_empty_first(drop_empty_last(v)) == drop_empty_last(drop_empty_first(v)),
{
    if v.len() >= 2 {
        if v.last().len() == 0 && v[0].len() == 0 {
            assert(v.drop_last().drop_first() =~= v.drop_first().drop_last());
        } else if v.last().len() == 0 {
            assert(v.drop_last()[0] == v[0]);
        } else if v[0].len() == 0 {
            assert(v.drop_first().last() == v.last());
        }
    }
}

/// A grid that holds pieces whose first one is empty, shifted down by one,
/// holds the others.
pub proof fn lemma_holds_shift(
    old_bufs: Seq<Seq<u8>>,
    new_bufs: Seq<Seq<u8>>,
    pieces: Seq<Seq<u8>>,
)
    requires
        holds_pieces(old_bufs, pieces),
        pieces.len() > 0,
        pieces[0].len() == 0,
        new_bufs.len() == old_bufs.len(),
        forall|b: int| 0 <= b < new_bufs.len() - 1 ==> #[trigger] new_bufs[b] == old_bufs[b + 1],
        old_bufs.len() > 0 ==> is_padded(new_bufs[new_bufs.len() - 1]) && text(
            new_bufs[new_bufs.len() - 1],
        ) == Seq::<u8>::empty(),
    ensures
        holds_pieces(new_bufs, pieces.drop_first()),
{
    assert forall|b: int| 0 <= b < new_bufs.len() implies is_padded(#[trigger] new_bufs[b])
        && text(new_bufs[b]) == if b < pieces.drop_first().len() {
        pieces.drop_first()[b]
    } else {
        Seq::<u8>::empty()
    } by {
        if b < new_bufs.len() - 1 {
            assert(new_bufs[b] == old_bufs[b + 1]);
        }
    }
}

impl MyServerKey {
    /// The bytes in reverse order, at public positions.
    fn reverse_bytes(&self, v: &Vec<FheAsciiChar>) -> (r: Vec<FheAsciiChar>)
        ensures
            vals(r@) == reverse(vals(v@)),
    {
        let n = v.len();
        let mut r: Vec<FheAsciiChar> = Vec::new();
        let mut i: usize = 0;
        while i < n
            invariant
                n == v@.len(),
                i <= n,
                vals(r@) == reverse(vals(v@)).take(i as int),
            decreases n - i,
        {
            let ghost before = vals(r@);
            r.push(v[n - 1 - i]);
            proof {
                assert(vals(r@) =~= before.push(vals(v@)[n - 1 - i]));
                assert(vals(r@) =~= reverse(vals(v@)).take(i as int + 1));
            }
            i += 1;
        }
        proof {
            assert(reverse(vals(v@)).take(n as int) =~= reverse(vals(v@)));
        }
        r
    }

    /// The buffer reversed and compacted: its text read backwards.
    fn reverse_string(&self, string: &FheString) -> (r: FheString)
        requires
            string@.len() <= MAX_CAPACITY,
        ensures
            r@.len() == string@.len(),
            is_padded(r@),
            text(r@) == reverse(text(string@)),
    {
        let bytes = string.get_bytes();
        let reversed = self.reverse_bytes(&bytes);
        let compact = bubble_zeroes_right(&reversed);
        proof {
            lemma_text_reverse(string@);
        }
        FheString::from_vec(compact)
    }

    /// Every buffer of the grid reversed and compacted.
    fn reverse_pieces(&self, split: &FheSplit, Ghost(pieces): Ghost<Seq<Seq<u8>>>) -> (r: FheSplit)
        requires
            holds_pieces(views(split.buffers@), pieces),
            forall|b: int|
                0 <= b < split.buffers@.len() ==> (#[trigger] split.buffers@[b])@.len()
                    <= MAX_CAPACITY,
        ensures
            r.buffers@.len() == split.buffers@.len(),
            forall|b: int|
                0 <= b < r.buffers@.len() ==> (#[trigger] r.buffers@[b])@.len()
                    == split.buffers@[b]@.len(),
            holds_pieces(views(r.buffers@), reverse_each(pieces)),
            r.pattern_found@ == split.pattern_found@,
    {
        let mut buffers: Vec<FheString> = Vec::new();
        let mut b: usize = 0;
        while b < split.buffers.len()
            invariant
                holds_pieces(views(split.buffers@), pieces),
                forall|j: int|
                    0 <= j < split.buffers@.len() ==> (#[trigger] split.buffers@[j])@.len()
                        <= MAX_CAPACITY,
                b <= split.buffers@.len(),
                buffers@.len() == b,
                forall|j: int|
                    0 <= j < b ==> is_padded(#[trigger] buffers@[j]@) && text(buffers@[j]@)
                        == reverse(text(split.buffers@[j]@)) && buffers@[j]@.len()
                        == split.buffers@[j]@.len(),
            decreases split.buffers@.len() - b,
        {
            let r = self.reverse_string(&split.buffers[b]);
            buffers.push(r);
            b += 1;
        }
        proof {
            let bufs = views(buffers@);
            let old_bufs = views(split.buffers@);
            assert forall|j: int| 0 <= j < bufs.len() implies is_padded(#[trigger] bufs[j]) && text(
                bufs[j],
            ) == if j < reverse_each(pieces).len() {
                reverse_each(pieces)[j]
            } else {
                Seq::<u8>::empty()
            } by {
                assert(bufs[j] == buffers@[j]@);
                assert(old_bufs[j] == split.buffers@[j]@);
                if j >= pieces.len() {
                    assert(reverse(Seq::<u8>::empty()) =~= Seq::<u8>::empty());
                }
            }
        }
        FheSplit { buffers, pattern_found: split.pattern_found }
    }

    /// `str::rsplitn`: at most `n` pieces (as `n` decrypts), from the right,
    /// the last holding the start of the text.
    pub fn rsplitn(&self, string: &FheString, pattern: &Vec<FheAsciiChar>, n: FheAsciiChar) -> (r:
        FheSplit)
        requires
            is_padded(string@),
            no_zeros(vals(pattern@)),
            string@.len() < MAX_CAPACITY,
        ensures
            r.buffers@.len() == string@.len() + 1,
            forall|b: int| 0 <= b < r.buffers@.len() ==> (#[trigger] r.buffers@[b])@.len() == string@.len(),
            holds_pieces(
                views(r.buffers@),
                drop_empty_last(rsplitn_spec(text(string@), vals(pattern@), n@ as nat)),
            ),
            r.pattern_found@ == flag(rsplitn_spec(text(string@), vals(pattern@), n@ as nat).len() > 1),
    {
        let reversed = self.reverse_string(string);
        let reversed_pattern = self.reverse_bytes(pattern);
        proof {
            lemma_reverse_no_zeros(vals(pattern@));
        }
        let forward = self.splitn(&reversed, &reversed_pattern, n);
        let ghost pieces = splitn_spec(reverse(text(string@)), reverse(vals(pattern@)), n@ as nat);
        proof {
            lemma_reverse_each_drop_empty_last(pieces);
        }
        self.reverse_pieces(&forward, Ghost(drop_empty_last(pieces)))
    }

    /// `str::rsplit`: the pieces between the rightmost non-overlapping
    /// occurrences of `pattern`, last piece first.
    pub fn rsplit(&self, string: &FheString, pattern: &Vec<FheAsciiChar>) -> (r: FheSplit)
        requires
            is_padded(string@),
            no_zeros(vals(pattern@)),
            string@.len() < MAX_CAPACITY,
        ensures
            r.buffers@.len() == string@.len() + 1,
            forall|b: int| 0 <= b < r.buffers@.len() ==> (#[trigger] r.buffers@[b])@.len() == string@.len(),
            holds_pieces(views(r.buffers@), drop_empty_last(rsplit_spec(text(string@), vals(pattern@)))),
            r.pattern_found@ == flag(rsplit_spec(text(string@), vals(pattern@)).len() > 1),
    {
        let reversed = self.reverse_string(string);
        let reversed_pattern = self.reverse_bytes(pattern);
        proof {
            lemma_reverse_no_zeros(vals(pattern@));
        }
        let forward = self.split(&reversed, &reversed_pattern);
        let ghost pieces = split_spec(reverse(text(string@)), reverse(vals(pattern@)));
        proof {
            lemma_reverse_each_drop_empty_last(pieces);
        }
        self.reverse_pieces(&forward, Ghost(drop_empty_last(pieces)))
    }

    /// `str::rsplit_once`: the text after the last occurrence of `pattern`,
    /// then the text before it; the flag tells whether it occurs.
    pub fn rsplit_once(&self, string: &FheString, pattern: &Vec<FheAsciiChar>) -> (r: FheSplit)
        requires
            is_padded(string@),
            no_zeros(vals(pattern@)),
            string@.len() < MAX_CAPACITY,
        ensures
            r.buffers@.len() == string@.len() + 1,
            forall|b: int| 0 <= b < r.buffers@.len() ==> (#[trigger] r.buffers@[b])@.len() == string@.len(),
            holds_pieces(views(r.buffers@), drop_empty_last(rsplitn_spec(text(string@), vals(pattern@), 2))),
            r.pattern_found@ == flag(rsplitn_spec(text(string@), vals(pattern@), 2).len() > 1),
    {
        self.rsplitn(string, pattern, FheAsciiChar::encrypt_trivial(2u8))
    }

    /// `str::rsplit_terminator`: as `rsplit`, without the empty piece after a
    /// delimiter that ends the text.
    pub fn rsplit_terminator(&self, string: &FheString, pattern: &Vec<FheAsciiChar>) -> (r:
        FheSplit)
        requires
            is_padded(string@),
            no_zeros(vals(pattern@)),
            string@.len() < MAX_CAPACITY,
        ensures
            r.buffers@.len() == string@.len() + 1,
            forall|b: int| 0 <= b < r.buffers@.len() ==> (#[trigger] r.buffers@[b])@.len() == string@.len(),
            holds_pieces(
                views(r.buffers@),
                drop_empty_last(rsplit_terminator_spec(text(string@), vals(pattern@))),
            ),
            r.pattern_found@ == flag(rsplit_spec(text(string@), vals(pattern@)).len() > 1),
    {
        let ghost all_pieces = rsplit_spec(text(string@), vals(pattern@));
        let ghost pieces = drop_empty_last(all_pieces);
        let all = self.rsplit(string, pattern);
        let count = all.buffers.len();
        let len = string.len();
        proof {
            assert(views(all.buffers@)[0] == all.buffers@[0]@);
        }
        let first_empty = self.is_empty(&all.buffers[0]);
        let zero = FheAsciiChar::encrypt_trivial(0u8);
        let empty = FheString::from_vec(constant_vec(zero, len));
        let mut buffers: Vec<FheString> = Vec::new();
        let mut b: usize = 0;
        while b < count
            invariant
                forall|j: int| 0 <= j < count ==> (#[trigger] all.buffers@[j])@.len() == len,
                count == all.buffers@.len(),
                count == len + 1,
                len == string@.len(),
                empty@ == zeros(len as nat),
                first_empty@ == flag(text(all.buffers@[0]@).len() == 0),
                is_flag(first_empty@),
                b <= count,
                buffers@.len() == b,
                forall|j: int|
                    0 <= j < b ==> (#[trigger] buffers@[j])@ == if first_empty@ == 1 {
                        if j + 1 < count {
                            all.buffers@[j + 1]@
                        } else {
                            zeros(len as nat)
                        }
                    } else {
                        all.buffers@[j]@
                    },
            decreases count - b,
        {
            let next = if b + 1 < count {
                &all.buffers[b + 1]
            } else {
                &empty
            };
            let chosen = self.select_string(&first_empty, next, &all.buffers[b]);
            buffers.push(chosen);
            b += 1;
        }
        proof {
            let old_bufs = views(all.buffers@);
            let new_bufs = views(buffers@);
            assert(old_bufs[0] == all.buffers@[0]@);
            lemma_drop_empty_commute(all_pieces);
            lemma_text_padded(Seq::<u8>::empty(), len as nat);
            assert(Seq::<u8>::empty() + zeros(len as nat) =~= zeros(len as nat));
            if first_empty@ == 1 {
                assert forall|j: int| 0 <= j < new_bufs.len() - 1 implies #[trigger] new_bufs[j]
                    == old_bufs[j + 1] by {
                    assert(new_bufs[j] == buffers@[j]@);
                    assert(old_bufs[j + 1] == all.buffers@[j + 1]@);
                }
                assert(new_bufs[new_bufs.len() - 1] == buffers@[count - 1]@);
                if pieces.len() > 0 {
                    assert(pieces[0] == text(old_bufs[0]));
                    lemma_holds_shift(old_bufs, new_bufs, pieces);
                } else {
                    assert(drop_empty_first(pieces) =~= pieces);
                    assert forall|j: int| 0 <= j < new_bufs.len() implies is_padded(
                        #[trigger] new_bufs[j],
                    ) && text(new_bufs[j]) == Seq::<u8>::empty() by {
                        if j < new_bufs.len() - 1 {
                            assert(old_bufs[j + 1] == new_bufs[j]);
                        }
                    }
                }
            } else {
                assert(new_bufs =~= old_bufs);
                assert(pieces.len() > 0);
                assert(pieces[0] == text(old_bufs[0]));
            }
        }
        FheSplit { buffers, pattern_found: all.pattern_found }
    }

    /// `when_true` where `cond` is 1, else `when_false`, byte by byte.
    fn select_string(&self, cond: &FheAsciiChar, when_true: &FheString, when_false: &FheString) -> (r:
        FheString)
        requires
            is_flag(cond@),
            when_true@.len() == when_false@.len(),
        ensures
            r@ == if cond@ == 1 {
                when_true@
            } else {
                when_false@
            },
    {
        let n = when_true.len();
        let mut out: Vec<FheAsciiChar> = Vec::new();
        let mut k: usize = 0;
        while k < n
            invariant
                is_flag(cond@),
                n == when_true@.len(),
                n == when_false@.len(),
                k <= n,
                vals(out@) == if cond@ == 1 {
                    when_true@.take(k as int)
                } else {
                    when_false@.take(k as int)
                },
            decreases n - k,
        {
            let c = cond.if_then_else(&when_true.get(k), &when_false.get(k));
            let ghost before = vals(out@);
            out.push(c);
            proof {
                assert(vals(out@) =~= before.push(c@));
                assert(when_true@.take(k as int + 1) =~= when_true@.take(k as int).push(
                    when_true@[k as int],
                ));
                assert(when_false@.take(k as int + 1) =~= when_false@.take(k as int).push(
                    when_false@[k as int],
                ));
            }
            k += 1;
        }
        proof {
            assert(when_true@.take(n as int) =~= when_true@);
            assert(when_false@.take(n as int) =~= when_false@);
        }
        FheString::from_vec(out)
    }
}

} // verus!
