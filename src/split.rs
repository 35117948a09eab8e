//! The split engine.
//!
//! A split yields a secret number of pieces of secret lengths, so its result is
//! a square grid: one buffer more than the haystack has bytes, each as long as
//! the haystack. The scan visits every position once, in order, carrying the
//! index of the current piece, the cursor inside it and how many bytes of an
//! accepted delimiter are still to be consumed. Each byte that belongs to a
//! piece is written at the cursor of the current buffer by a select on every
//! slot of every buffer; delimiters are never copied (but for the inclusive
//! split, which appends them to the piece they end). The empty delimiter
//! occurs at every boundary, so its pieces sit at public places: the empty
//! piece, then one byte per buffer, and the rest of the text where the count
//! ends; each buffer is filled by selects on the encrypted count.
use vstd::prelude::*;
use crate::fhe_char::{flag, is_flag, FheAsciiChar};
use crate::fhe_string::{
    constant_vec, is_padded, lemma_padded_shape, lemma_text_padded, no_zeros,
    text, vals, zeros, FheString, MAX_CAPACITY,
};
use crate::server_key::{matches_at, MyServerKey};

verus! {

/// The pieces that splitting `t` at the leftmost non-overlapping occurrences
/// of `p` gives, where `cur` is the part of the current piece already read and
/// at most `n` pieces may be made. With `inclusive`, each delimiter stays at
/// the end of the piece it ends. An empty `p` occurs at every boundary between
/// bytes, the start and the end of the text included.
pub open spec fn split_scan(t: Seq<u8>, p: Seq<u8>, cur: Seq<u8>, n: nat, inclusive: bool) -> Seq<
    Seq<u8>,
>
    decreases t.len(),
{
    if p.len() == 0 {
        if n > 1 {
            seq![cur] + if t.len() == 0 {
                seq![Seq::<u8>::empty()]
            } else {
                split_scan(t.drop_first(), p, seq![t[0]], (n - 1) as nat, inclusive)
            }
        } else {
            seq![cur + t]
        }
    } else if t.len() == 0 {
        seq![cur]
    } else if n > 1 && matches_at(t, p, 0) {
        seq![
            if inclusive {
                cur + p
            } else {
                cur
            },
        ] + split_scan(t.skip(p.len() as int), p, Seq::empty(), (n - 1) as nat, inclusive)
    } else {
        split_scan(t.drop_first(), p, cur.push(t[0]), n, inclusive)
    }
}

/// `str::splitn(n, p)` collected.
pub open spec fn splitn_spec(t: Seq<u8>, p: Seq<u8>, n: nat) -> Seq<Seq<u8>> {
    if n == 0 {
        Seq::empty()
    } else {
        split_scan(t, p, Seq::empty(), n, false)
    }
}

/// `str::split(p)` collected: a text of length `l` has at most `l + 2` pieces,
/// so that count never binds.
pub open spec fn split_spec(t: Seq<u8>, p: Seq<u8>) -> Seq<Seq<u8>> {
    split_scan(t, p, Seq::empty(), t.len() + 2, false)
}

/// The pieces without a last one that is empty.
pub open spec fn drop_empty_last(v: Seq<Seq<u8>>) -> Seq<Seq<u8>> {
    if v.len() > 0 && v.last().len() == 0 {
        v.drop_last()
    } else {
        v
    }
}

/// `str::split_terminator(p)` collected.
pub open spec fn split_terminator_spec(t: Seq<u8>, p: Seq<u8>) -> Seq<Seq<u8>> {
    drop_empty_last(split_spec(t, p))
}

/// `str::split_inclusive(p)` collected.
pub open spec fn split_inclusive_spec(t: Seq<u8>, p: Seq<u8>) -> Seq<Seq<u8>> {
    drop_empty_last(split_scan(t, p, Seq::empty(), t.len() + 2, true))
}

/// What the buffers of a grid decrypt to.
pub open spec fn views(v: Seq<FheString>) -> Seq<Seq<u8>> {
    v.map_values(|b: FheString| b@)
}

/// The grid holds the pieces, one per buffer and in order, and its other
/// buffers are empty. The split operations state it of their pieces without a
/// last one that is empty: an empty buffer shows such a piece as well as its
/// absence, and the grid has no room for it where every byte of a full buffer
/// is its own piece.
pub open spec fn holds_pieces(bufs: Seq<Seq<u8>>, pieces: Seq<Seq<u8>>) -> bool {
    &&& pieces.len() <= bufs.len()
    &&& forall|b: int|
        0 <= b < bufs.len() ==> is_padded(#[trigger] bufs[b]) && text(bufs[b]) == if b
            < pieces.len() {
            pieces[b]
        } else {
            Seq::<u8>::empty()
        }
}

/// The result of a split: the grid of pieces, and whether a delimiter was
/// used.
#[derive(Clone, Debug)]
pub struct FheSplit {
    pub buffers: Vec<FheString>,
    pub pattern_found: FheAsciiChar,
}

/// One step of the scan, from a position that no accepted delimiter covers.
pub proof fn lemma_split_step(
    s: Seq<u8>,
    p: Seq<u8>,
    i: int,
    cur: Seq<u8>,
    budget: nat,
    inclusive: bool,
)
    requires
        0 <= i < s.len(),
        p.len() > 0,
    ensures
        budget > 1 && matches_at(s, p, i) ==> split_scan(s.skip(i), p, cur, budget, inclusive)
            == seq![
            if inclusive {
                cur + p
            } else {
                cur
            },
        ] + split_scan(s.skip(i + p.len()), p, Seq::empty(), (budget - 1) as nat, inclusive),
        !(budget > 1 && matches_at(s, p, i)) ==> split_scan(s.skip(i), p, cur, budget, inclusive)
            == split_scan(s.skip(i + 1), p, cur.push(s[i]), budget, inclusive),
{
    let rest = s.skip(i);
    let pl = p.len() as int;
    if i + pl <= s.len() {
        assert(rest.subrange(0, pl) =~= s.subrange(i, i + pl));
    }
    assert(matches_at(rest, p, 0) <==> matches_at(s, p, i));
    assert(rest.drop_first() =~= s.skip(i + 1));
    if matches_at(s, p, i) {
        assert(rest.skip(pl) =~= s.skip(i + pl));
    }
}

/// The scan always yields at least one piece.
pub proof fn lemma_split_nonempty(t: Seq<u8>, p: Seq<u8>, cur: Seq<u8>, n: nat, inclusive: bool)
    ensures
        split_scan(t, p, cur, n, inclusive).len() >= 1,
    decreases t.len(),
{
    if p.len() == 0 {
    } else if t.len() > 0 {
        if n > 1 && matches_at(t, p, 0) {
            lemma_split_nonempty(t.skip(p.len() as int), p, Seq::empty(), (n - 1) as nat, inclusive);
        } else {
            lemma_split_nonempty(t.drop_first(), p, cur.push(t[0]), n, inclusive);
        }
    }
}

/// Pieces of a text without zeros have no zeros.
pub proof fn lemma_split_no_zeros(t: Seq<u8>, p: Seq<u8>, cur: Seq<u8>, n: nat, inclusive: bool)
    requires
        p.len() > 0,
        no_zeros(t),
        no_zeros(p),
        no_zeros(cur),
    ensures
        forall|b: int|
            0 <= b < split_scan(t, p, cur, n, inclusive).len() ==> no_zeros(
                #[trigger] split_scan(t, p, cur, n, inclusive)[b],
            ),
    decreases t.len(),
{
    if t.len() > 0 && p.len() > 0 {
        if n > 1 && matches_at(t, p, 0) {
            let rest = split_scan(t.skip(p.len() as int), p, Seq::empty(), (n - 1) as nat, inclusive);
            lemma_split_no_zeros(t.skip(p.len() as int), p, Seq::empty(), (n - 1) as nat, inclusive);
            let first = if inclusive {
                cur + p
            } else {
                cur
            };
            assert(no_zeros(first));
            assert(split_scan(t, p, cur, n, inclusive) == seq![first] + rest);
            assert forall|b: int|
                0 <= b < split_scan(t, p, cur, n, inclusive).len() implies no_zeros(
                #[trigger] split_scan(t, p, cur, n, inclusive)[b],
            ) by {
                if b == 0 {
                    assert(split_scan(t, p, cur, n, inclusive)[b] == first);
                } else {
                    assert(split_scan(t, p, cur, n, inclusive)[b] == rest[b - 1]);
                }
            }
        } else {
            assert(no_zeros(t.drop_first()));
            assert(no_zeros(cur.push(t[0])));
            lemma_split_no_zeros(t.drop_first(), p, cur.push(t[0]), n, inclusive);
            assert(split_scan(t, p, cur, n, inclusive) == split_scan(
                t.drop_first(),
                p,
                cur.push(t[0]),
                n,
                inclusive,
            ));
        }
    } else {
        assert(split_scan(t, p, cur, n, inclusive) == seq![cur]);
        assert forall|b: int|
            0 <= b < split_scan(t, p, cur, n, inclusive).len() implies no_zeros(
            #[trigger] split_scan(t, p, cur, n, inclusive)[b],
        ) by {
            assert(split_scan(t, p, cur, n, inclusive)[b] == cur);
        }
    }
}

/// A text shorter than the delimiter is one piece.
pub proof fn lemma_split_short(t: Seq<u8>, p: Seq<u8>, cur: Seq<u8>, n: nat, inclusive: bool)
    requires
        t.len() < p.len(),
    ensures
        split_scan(t, p, cur, n, inclusive) == seq![cur + t],
    decreases t.len(),
{
    if t.len() == 0 {
        assert(cur + t =~= cur);
    } else {
        lemma_split_short(t.drop_first(), p, cur.push(t[0]), n, inclusive);
        assert(cur.push(t[0]) + t.drop_first() =~= cur + t);
    }
}

/// Padding after the text lands at the end of the last piece.
pub proof fn lemma_split_padded(
    t: Seq<u8>,
    m: nat,
    p: Seq<u8>,
    cur: Seq<u8>,
    n: nat,
    inclusive: bool,
)
    requires
        no_zeros(p),
        p.len() > 0,
    ensures
        ({
            let q = split_scan(t, p, cur, n, inclusive);
            split_scan(t + zeros(m), p, cur, n, inclusive) == q.update(
                q.len() - 1,
                q.last() + zeros(m),
            )
        }),
    decreases t.len() + m,
{
    let tz = t + zeros(m);
    let pl = p.len() as int;
    lemma_split_nonempty(t, p, cur, n, inclusive);
    if tz.len() == 0 {
        assert(cur + zeros(m) =~= cur);
        assert(seq![cur].update(0, cur + zeros(m)) =~= seq![cur]);
    } else if t.len() == 0 {
        // Only zeros remain: they never match, and all join the current piece.
        if matches_at(tz, p, 0) {
            assert(tz.subrange(0, pl)[0] == tz[0]);
        }
        assert(tz.drop_first() =~= Seq::<u8>::empty() + zeros((m - 1) as nat));
        lemma_split_padded(Seq::empty(), (m - 1) as nat, p, cur.push(0u8), n, inclusive);
        assert(Seq::<u8>::empty() + zeros((m - 1) as nat) =~= zeros((m - 1) as nat));
        assert(cur.push(0u8) + zeros((m - 1) as nat) =~= cur + zeros(m));
        assert(seq![cur].update(0, cur + zeros(m)) =~= seq![cur + zeros(m)]);
        assert(t =~= Seq::<u8>::empty());
    } else {
        if matches_at(tz, p, 0) && pl > t.len() {
            assert(tz[pl - 1] == 0);
            assert(tz.subrange(0, pl)[pl - 1] == tz[pl - 1]);
        }
        if pl <= t.len() {
            assert(tz.subrange(0, pl) =~= t.subrange(0, pl));
        }
        if n > 1 && matches_at(tz, p, 0) {
            assert(matches_at(t, p, 0));
            assert(tz.skip(pl) =~= t.skip(pl) + zeros(m));
            lemma_split_padded(t.skip(pl), m, p, Seq::empty(), (n - 1) as nat, inclusive);
            let first = if inclusive {
                cur + p
            } else {
                cur
            };
            let q2 = split_scan(t.skip(pl), p, Seq::empty(), (n - 1) as nat, inclusive);
            lemma_split_nonempty(t.skip(pl), p, Seq::empty(), (n - 1) as nat, inclusive);
            assert(seq![first] + q2.update(q2.len() - 1, q2.last() + zeros(m)) =~= (seq![first]
                + q2).update((seq![first] + q2).len() - 1, (seq![first] + q2).last() + zeros(m)));
        } else {
            assert(!(n > 1 && matches_at(t, p, 0)));
            assert(tz.drop_first() =~= t.drop_first() + zeros(m));
            lemma_split_padded(t.drop_first(), m, p, cur.push(t[0]), n, inclusive);
        }
    }
}

/// Once the count allows a piece per byte and one more, it never binds.
pub proof fn lemma_split_count_free(
    t: Seq<u8>,
    p: Seq<u8>,
    cur: Seq<u8>,
    n1: nat,
    n2: nat,
    inclusive: bool,
)
    requires
        p.len() > 0,
        n1 > t.len(),
        n2 > t.len(),
    ensures
        split_scan(t, p, cur, n1, inclusive) == split_scan(t, p, cur, n2, inclusive),
    decreases t.len(),
{
    if t.len() > 0 && p.len() > 0 {
        if matches_at(t, p, 0) {
            lemma_split_count_free(
                t.skip(p.len() as int),
                p,
                Seq::empty(),
                (n1 - 1) as nat,
                (n2 - 1) as nat,
                inclusive,
            );
        } else {
            lemma_split_count_free(t.drop_first(), p, cur.push(t[0]), n1, n2, inclusive);
        }
    }
}

/// A grid that holds pieces whose last one is empty also holds them without it.
pub proof fn lemma_holds_drop_empty_last(bufs: Seq<Seq<u8>>, pieces: Seq<Seq<u8>>)
    requires
        holds_pieces(bufs, pieces),
    ensures
        holds_pieces(bufs, drop_empty_last(pieces)),
{
    if pieces.len() > 0 && pieces.last().len() == 0 {
        assert(pieces.last() =~= Seq::<u8>::empty());
    }
}

/// The pieces of a split at the empty pattern: the current piece, then one
/// byte each, and the rest of the text once the count is reached.
pub proof fn lemma_split_empty_closed(t: Seq<u8>, p: Seq<u8>, cur: Seq<u8>, n: nat, inclusive: bool)
    requires
        p.len() == 0,
        n >= 2,
    ensures
        ({
            let q = split_scan(t, p, cur, n, inclusive);
            &&& q.len() == 1 + if n - 1 <= t.len() + 1 {
                (n - 1) as int
            } else {
                t.len() + 1 as int
            }
            &&& q[0] == cur
            &&& forall|j: int|
                1 <= j < q.len() ==> #[trigger] q[j] == if j < n - 1 {
                    if j - 1 < t.len() {
                        seq![t[j - 1]]
                    } else {
                        Seq::<u8>::empty()
                    }
                } else {
                    t.skip(j - 1)
                }
        }),
    decreases t.len(),
{
    let q = split_scan(t, p, cur, n, inclusive);
    if t.len() == 0 {
        assert(q == seq![cur] + seq![Seq::<u8>::empty()]);
        assert(t.skip(0) =~= Seq::<u8>::empty());
    } else {
        let t2 = t.drop_first();
        let q2 = split_scan(t2, p, seq![t[0]], (n - 1) as nat, inclusive);
        assert(q == seq![cur] + q2);
        if n - 1 == 1 {
            assert(q2 == seq![seq![t[0]] + t2]);
            assert(seq![t[0]] + t2 =~= t.skip(0));
        } else {
            lemma_split_empty_closed(t2, p, seq![t[0]], (n - 1) as nat, inclusive);
            assert forall|j: int| 1 <= j < q.len() implies #[trigger] q[j] == if j < n - 1 {
                if j - 1 < t.len() {
                    seq![t[j - 1]]
                } else {
                    Seq::<u8>::empty()
                }
            } else {
                t.skip(j - 1)
            } by {
                assert(q[j] == q2[j - 1]);
                if j >= 2 {
                    if j - 2 < t2.len() {
                        assert(t2[j - 2] == t[j - 1]);
                    }
                    if j >= n - 1 {
                        assert(t2.skip(j - 2) =~= t.skip(j - 1));
                    }
                }
            }
        }
    }
}

/// The empty-pattern split ignores `inclusive`.
pub proof fn lemma_split_empty_inclusive(t: Seq<u8>, p: Seq<u8>, n: nat)
    requires
        p.len() == 0,
    ensures
        split_scan(t, p, Seq::empty(), n, true) == split_scan(t, p, Seq::empty(), n, false),
{
    if n >= 2 {
        lemma_split_empty_closed(t, p, Seq::empty(), n, true);
        lemma_split_empty_closed(t, p, Seq::empty(), n, false);
        assert(split_scan(t, p, Seq::empty(), n, true) =~= split_scan(t, p, Seq::empty(), n, false));
    }
}

/// Without its empty last piece, the empty-pattern split is the empty piece
/// and then one piece per byte, once the count allows a piece per byte.
pub proof fn lemma_split_empty_trimmed(t: Seq<u8>, p: Seq<u8>, n: nat, inclusive: bool)
    requires
        p.len() == 0,
        n >= 2,
        n >= t.len() + 1,
    ensures
        drop_empty_last(split_scan(t, p, Seq::empty(), n, inclusive)) == Seq::new(
            t.len() + 1,
            |j: int|
                if j == 0 {
                    Seq::<u8>::empty()
                } else {
                    seq![t[j - 1]]
                },
        ),
        split_scan(t, p, Seq::empty(), n, inclusive).len() > 1,
{
    let q = split_scan(t, p, Seq::empty(), n, inclusive);
    lemma_split_empty_closed(t, p, Seq::empty(), n, inclusive);
    let e = Seq::new(
        t.len() + 1,
        |j: int|
            if j == 0 {
                Seq::<u8>::empty()
            } else {
                seq![t[j - 1]]
            },
    );
    let k = t.len() as int;
    if n - 1 >= k + 1 {
        assert(q.len() == k + 2);
        if k + 1 >= n - 1 {
            assert(t.skip(k) =~= Seq::<u8>::empty());
        }
        assert(q.last() =~= Seq::<u8>::empty());
        assert(drop_empty_last(q) =~= e);
    } else {
        assert(q.len() == k + 1);
        assert(t.skip(k - 1) =~= seq![t[k - 1]]);
        assert(q.last().len() == 1);
        assert(drop_empty_last(q) =~= e);
    }
}

/// A grid whose buffers show the pieces, with room for all but a last empty
/// one, holds them without that one.
pub proof fn lemma_holds_trimmed(bufs: Seq<Seq<u8>>, pieces: Seq<Seq<u8>>)
    requires
        pieces.len() <= bufs.len() + 1,
        pieces.len() == bufs.len() + 1 ==> pieces.last().len() == 0,
        forall|b: int|
            0 <= b < bufs.len() ==> is_padded(#[trigger] bufs[b]) && text(bufs[b]) == if b
                < pieces.len() {
                pieces[b]
            } else {
                Seq::<u8>::empty()
            },
    ensures
        holds_pieces(bufs, drop_empty_last(pieces)),
{
    if pieces.len() > 0 && pieces.last().len() == 0 {
        assert(pieces.last() =~= Seq::<u8>::empty());
    }
}

/// Buffer `b` of the empty-pattern split of the buffer `s` into at most `n`
/// pieces.
pub open spec fn empty_split_row(s: Seq<u8>, n: int, b: int) -> Seq<u8> {
    Seq::new(
        s.len(),
        |j: int|
            if b == 0 {
                if n == 1 {
                    s[j]
                } else {
                    0u8
                }
            } else if b + 1 < n {
                if j == 0 {
                    s[b - 1]
                } else {
                    0u8
                }
            } else if b + 1 == n {
                if b - 1 + j < s.len() {
                    s[b - 1 + j]
                } else {
                    0u8
                }
            } else {
                0u8
            },
    )
}

/// Each row of the empty-pattern split shows its piece.
pub proof fn lemma_empty_row(s: Seq<u8>, n: nat, b: int)
    requires
        is_padded(s),
        n >= 1,
        0 <= b <= s.len(),
        b == 0 || b - 1 < s.len(),
    ensures
        ({
            let q = split_scan(text(s), Seq::empty(), Seq::empty(), n, false);
            let row = empty_split_row(s, n as int, b);
            is_padded(row) && text(row) == if b < q.len() {
                q[b]
            } else {
                Seq::<u8>::empty()
            }
        }),
{
    lemma_padded_shape(s);
    let t = text(s);
    let k = t.len() as int;
    let l = s.len() as int;
    let q = split_scan(t, Seq::empty(), Seq::empty(), n, false);
    let row = empty_split_row(s, n as int, b);
    let z = zeros(l as nat);
    lemma_text_padded(Seq::<u8>::empty(), l as nat);
    assert(Seq::<u8>::empty() + z =~= z);
    if n >= 2 {
        lemma_split_empty_closed(t, Seq::empty(), Seq::empty(), n, false);
    } else {
        assert(q == seq![Seq::<u8>::empty() + t]);
        assert(Seq::<u8>::empty() + t =~= t);
    }
    if b == 0 {
        if n == 1 {
            assert(row =~= s);
        } else {
            assert(row =~= z);
        }
    } else if n >= 2 && b + 1 < n {
        if b - 1 < k {
            assert(row =~= seq![s[b - 1]] + zeros((l - 1) as nat));
            assert(s[b - 1] == t[b - 1]);
            lemma_text_padded(seq![s[b - 1]], (l - 1) as nat);
        } else {
            assert(row =~= z);
        }
    } else if n >= 2 && b + 1 == n {
        if b - 1 <= k {
            assert(row =~= t.skip(b - 1) + zeros((l - k + b - 1) as nat));
            lemma_text_padded(t.skip(b - 1), (l - k + b - 1) as nat);
        } else {
            assert(row =~= z);
        }
    } else {
        assert(row =~= z);
    }
}

/// A split whose count exceeds the text's length makes every piece.
pub proof fn lemma_split_unbounded(t: Seq<u8>, p: Seq<u8>, n: nat, inclusive: bool)
    requires
        n >= 2,
        n > t.len(),
    ensures
        drop_empty_last(split_scan(t, p, Seq::empty(), n, inclusive)) == drop_empty_last(
            split_scan(t, p, Seq::empty(), t.len() + 2, inclusive),
        ),
        split_scan(t, p, Seq::empty(), n, inclusive).len() > 1 <==> split_scan(
            t,
            p,
            Seq::empty(),
            t.len() + 2,
            inclusive,
        ).len() > 1,
{
    if p.len() == 0 {
        lemma_split_empty_trimmed(t, p, n, inclusive);
        lemma_split_empty_trimmed(t, p, t.len() + 2, inclusive);
    } else {
        lemma_split_count_free(t, p, Seq::empty(), n, t.len() + 2, inclusive);
    }
}

/// The content of buffer `b` while the scan runs: a finished piece, the
/// current one, or nothing yet.
pub open spec fn row_content(done: Seq<Seq<u8>>, cur: Seq<u8>, b: int) -> Seq<u8> {
    if b < done.len() {
        done[b]
    } else if b == done.len() {
        cur
    } else {
        Seq::empty()
    }
}

impl MyServerKey {
    /// The scan shared by the split family, for a non-empty pattern.
    #[verifier::rlimit(60)]
    fn split_pattern(
        &self,
        string: &FheString,
        pattern: &Vec<FheAsciiChar>,
        n: FheAsciiChar,
        inclusive: bool,
    ) -> (r: FheSplit)
        requires
            is_padded(string@),
            no_zeros(vals(pattern@)),
            pattern@.len() > 0,
            string@.len() < MAX_CAPACITY,
            n@ >= 1,
        ensures
            r.buffers@.len() == string@.len() + 1,
            forall|b: int| 0 <= b < r.buffers@.len() ==> (#[trigger] r.buffers@[b])@.len() == string@.len(),
            holds_pieces(
                views(r.buffers@),
                split_scan(text(string@), vals(pattern@), Seq::empty(), n@ as nat, inclusive),
            ),
            r.pattern_found@ == flag(
                split_scan(text(string@), vals(pattern@), Seq::empty(), n@ as nat, inclusive).len()
                    > 1,
            ),
    {
        let ghost s = string@;
        let ghost p = vals(pattern@);
        let ghost total = split_scan(s, p, Seq::empty(), n@ as nat, inclusive);
        let len = string.len();
        let plen = pattern.len();
        let rows_count = len + 1;
        let zero = FheAsciiChar::encrypt_trivial(0u8);
        let one = FheAsciiChar::encrypt_trivial(1u8);
        let inclusive_flag = FheAsciiChar::encrypt_trivial(if inclusive {
            1u8
        } else {
            0u8
        });
        let mut rows: Vec<Vec<FheAsciiChar>> = Vec::new();
        let mut k: usize = 0;
        while k < rows_count
            invariant
                rows_count == len + 1,
                zero@ == 0,
                k <= rows_count,
                rows@.len() == k,
                forall|b: int| 0 <= b < k ==> vals(#[trigger] rows@[b]@) == zeros(len as nat),
            decreases rows_count - k,
        {
            let row = constant_vec(zero, len);
            proof {
                assert(vals(row@) =~= zeros(len as nat));
            }
            rows.push(row);
            k += 1;
        }
        if plen > len {
            // No delimiter fits: the whole text is the one piece.
            proof {
                lemma_padded_shape(s);
                lemma_split_short(text(s), p, Seq::empty(), n@ as nat, inclusive);
                assert(Seq::<u8>::empty() + text(s) =~= text(s));
            }
            let mut buffers: Vec<FheString> = Vec::new();
            buffers.push(string.clone_string());
            let mut b: usize = 1;
            while b < rows_count
                invariant
                    rows_count == len + 1,
                    len == s.len(),
                    1 <= b <= rows_count,
                    zero@ == 0,
                    buffers@.len() == b,
                    buffers@[0]@ == s,
                    forall|j: int| 1 <= j < b ==> (#[trigger] buffers@[j])@ == zeros(len as nat),
                decreases rows_count - b,
            {
                let row = constant_vec(zero, len);
                proof {
                    assert(vals(row@) =~= zeros(len as nat));
                }
                buffers.push(FheString::from_vec(row));
                b += 1;
            }
            proof {
                assert forall|j: int| 0 <= j < rows_count implies is_padded(
                    #[trigger] views(buffers@)[j],
                ) && text(views(buffers@)[j]) == if j < 1 {
                    text(s)
                } else {
                    Seq::<u8>::empty()
                } by {
                    if j > 0 {
                        lemma_text_padded(Seq::<u8>::empty(), len as nat);
                        assert(Seq::<u8>::empty() + zeros(len as nat) =~= zeros(len as nat));
                    }
                }
            }
            return FheSplit { buffers, pattern_found: zero };
        }
        let mut current = FheAsciiChar::encrypt_trivial(0u8);
        let mut cursor = FheAsciiChar::encrypt_trivial(0u8);
        let mut skip = FheAsciiChar::encrypt_trivial(0u8);
        let mut found = FheAsciiChar::encrypt_trivial(0u8);
        let skip_after_match = FheAsciiChar::encrypt_trivial((plen - 1) as u8);
        let ghost mut done: Seq<Seq<u8>> = Seq::empty();
        let ghost mut cur: Seq<u8> = Seq::empty();
        proof {
            assert(s.skip(0) =~= s);
            assert(Seq::<Seq<u8>>::empty() + total =~= total);
            assert forall|b: int| 0 <= b < rows_count implies vals(#[trigger] rows@[b]@) == row_content(
                done,
                cur,
                b,
            ) + zeros((len - row_content(done, cur, b).len()) as nat) by {
                assert(Seq::<u8>::empty() + zeros(len as nat) =~= zeros(len as nat));
            }
        }
        let mut i: usize = 0;
        while i < len
            invariant
                s == string@,
                p == vals(pattern@),
                len == s.len(),
                len < MAX_CAPACITY,
                plen == p.len(),
                plen == pattern@.len(),
                plen > 0,
                no_zeros(p),
                rows_count == len + 1,
                total == split_scan(s, p, Seq::empty(), n@ as nat, inclusive),
                n@ >= 1,
                zero@ == 0,
                one@ == 1,
                inclusive_flag@ == flag(inclusive),
                skip_after_match@ == plen - 1,
                i <= len,
                i + skip@ <= len,
                skip@ > 0 ==> cur.len() == 0,
                current@ == done.len(),
                done.len() <= i,
                done.len() < n@,
                cursor@ == cur.len(),
                cur.len() <= i,
                forall|b: int| 0 <= b < done.len() ==> (#[trigger] done[b]).len() <= len,
                found@ == flag(done.len() > 0),
                done + split_scan(s.skip(i + skip@), p, cur, (n@ - done.len()) as nat, inclusive)
                    == total,
                rows@.len() == rows_count,
                forall|b: int|
                    0 <= b < rows_count ==> vals(#[trigger] rows@[b]@) == row_content(done, cur, b)
                        + zeros((len - row_content(done, cur, b).len()) as nat),
                forall|b: int| 0 <= b < rows_count ==> (#[trigger] rows@[b]@).len() == len,
            decreases len - i,
        {
            let ghost budget = (n@ - done.len()) as nat;
            let candidate = if i + plen <= len {
                self.match_at(string, pattern, i)
            } else {
                zero
            };
            proof {
                lemma_split_step(s, p, i as int, cur, budget, inclusive);
                assert(candidate@ == flag(matches_at(s, p, i as int)));
            }
            let free = skip.eq(&zero);
            let allowed = current.add(&one).lt(&n);
            let accept = candidate.bitand(&free).bitand(&allowed);
            let copy = free.bitand(&accept.flip());
            let keep_pattern = accept.bitand(&inclusive_flag);
            let c = string.get(i);
            proof {
                assert(allowed@ == flag(budget > 1));
                assert(accept@ == flag(matches_at(s, p, i as int) && skip@ == 0 && budget > 1));
            }
            let ghost new_done = if skip@ == 0 && accept@ == 1 {
                done.push(
                    if inclusive {
                        cur + p
                    } else {
                        cur
                    },
                )
            } else {
                done
            };
            let ghost new_cur = if skip@ == 0 && accept@ == 1 {
                Seq::<u8>::empty()
            } else if copy@ == 1 {
                cur.push(s[i as int])
            } else {
                cur
            };
            let mut b: usize = 0;
            while b < rows_count
                invariant
                    s == string@,
                    p == vals(pattern@),
                    plen == p.len(),
                    plen == pattern@.len(),
                    len == s.len(),
                    len < MAX_CAPACITY,
                    rows_count == len + 1,
                    i < len,
                    b <= rows_count,
                    rows@.len() == rows_count,
                    current@ == done.len(),
                    done.len() <= i,
                    cursor@ == cur.len(),
                    cur.len() <= i,
                    c@ == s[i as int],
                    is_flag(keep_pattern@),
                    is_flag(copy@),
                    keep_pattern@ == flag(accept@ == 1 && inclusive),
                    accept@ == 1 ==> copy@ == 0 && i + plen <= len && cur.len() + plen <= len,
                    copy@ == 1 ==> cur.len() + 1 <= len,
                    forall|j: int| 0 <= j < done.len() ==> (#[trigger] done[j]).len() <= len,
                    forall|j: int|
                        0 <= j < rows_count ==> vals(#[trigger] rows@[j]@) == if j < b {
                            row_content(done, cur, j) + (if j == done.len() {
                                if keep_pattern@ == 1 {
                                    p
                                } else if copy@ == 1 {
                                    seq![s[i as int]]
                                } else {
                                    Seq::<u8>::empty()
                                }
                            } else {
                                Seq::<u8>::empty()
                            })
                        } else {
                            row_content(done, cur, j)
                        } + zeros(
                            (len - (row_content(done, cur, j) + (if j < b && j == done.len() {
                                if keep_pattern@ == 1 {
                                    p
                                } else if copy@ == 1 {
                                    seq![s[i as int]]
                                } else {
                                    Seq::<u8>::empty()
                                }
                            } else {
                                Seq::<u8>::empty()
                            })).len()) as nat,
                        ),
                    forall|j: int| 0 <= j < rows_count ==> (#[trigger] rows@[j]@).len() == len,
                decreases rows_count - b,
            {
                let enc_b = FheAsciiChar::encrypt_trivial(b as u8);
                let here = enc_b.eq(&current);
                let keep_here = keep_pattern.bitand(&here);
                let copy_here = copy.bitand(&here);
                let mut row = rows[b].clone();
                let ghost e = row_content(done, cur, b as int);
                proof {
                    assert(vals(row@) =~= vals(rows@[b as int]@));
                    assert(here@ == flag(b == done.len()));
                }
                self.emit(&mut row, &cursor, &keep_here, pattern, &copy_here, &c, Ghost(e));
                let ghost prev_rows = rows@;
                rows.set(b, row);
                proof {
                    assert forall|j: int| 0 <= j < rows_count && j != b implies rows@[j] == prev_rows[j] by {}
                    if b == done.len() {
                        if keep_pattern@ == 1 {
                            assert(vals(rows@[b as int]@) == e + p + zeros((len - (e + p).len()) as nat));
                        }
                    }
                }
                b += 1;
            }
            proof {
                if skip@ == 0 {
                    if accept@ == 1 {
                        let first = if inclusive {
                            cur + p
                        } else {
                            cur
                        };
                        assert(done + (seq![first] + split_scan(
                            s.skip(i + plen),
                            p,
                            Seq::empty(),
                            (budget - 1) as nat,
                            inclusive,
                        )) =~= new_done + split_scan(
                            s.skip(i + plen),
                            p,
                            new_cur,
                            (n@ - new_done.len()) as nat,
                            inclusive,
                        ));
                        assert forall|j: int| 0 <= j < rows_count implies vals(
                            #[trigger] rows@[j]@,
                        ) == row_content(new_done, new_cur, j) + zeros(
                            (len - row_content(new_done, new_cur, j).len()) as nat,
                        ) by {
                            if j == done.len() {
                                if inclusive {
                                    assert(row_content(done, cur, j) + p == first);
                                } else {
                                    assert(row_content(done, cur, j) + Seq::<u8>::empty() =~= first);
                                }
                            } else if j < done.len() {
                                assert(row_content(done, cur, j) + Seq::<u8>::empty() =~= row_content(
                                    done,
                                    cur,
                                    j,
                                ));
                            } else {
                                assert(row_content(done, cur, j) + Seq::<u8>::empty() =~= row_content(
                                    done,
                                    cur,
                                    j,
                                ));
                            }
                        }
                    } else {
                        assert forall|j: int| 0 <= j < rows_count implies vals(
                            #[trigger] rows@[j]@,
                        ) == row_content(new_done, new_cur, j) + zeros(
                            (len - row_content(new_done, new_cur, j).len()) as nat,
                        ) by {
                            if j == done.len() {
                                assert(cur + seq![s[i as int]] =~= cur.push(s[i as int]));
                            } else {
                                assert(row_content(done, cur, j) + Seq::<u8>::empty() =~= row_content(
                                    done,
                                    cur,
                                    j,
                                ));
                            }
                        }
                    }
                } else {
                    assert forall|j: int| 0 <= j < rows_count implies vals(#[trigger] rows@[j]@)
                        == row_content(new_done, new_cur, j) + zeros(
                        (len - row_content(new_done, new_cur, j).len()) as nat,
                    ) by {
                        assert(row_content(done, cur, j) + Seq::<u8>::empty() =~= row_content(
                            done,
                            cur,
                            j,
                        ));
                    }
                }
            }
            let next_cursor = cursor.add(&copy);
            cursor = accept.if_then_else(&zero, &next_cursor);
            current = current.add(&accept);
            let skip_down = free.if_then_else(&zero, &skip.sub(&one));
            skip = accept.if_then_else(&skip_after_match, &skip_down);
            found = found.bitor(&accept);
            proof {
                done = new_done;
                cur = new_cur;
            }
            i += 1;
        }
        proof {
            assert(s.skip(len as int) =~= Seq::<u8>::empty());
            assert(total =~= done.push(cur));
            lemma_padded_shape(s);
            let t = text(s);
            let pad = (len - t.len()) as nat;
            lemma_split_padded(t, pad, p, Seq::empty(), n@ as nat, inclusive);
            lemma_split_no_zeros(t, p, Seq::empty(), n@ as nat, inclusive);
            lemma_split_nonempty(t, p, Seq::empty(), n@ as nat, inclusive);
        }
        let mut buffers: Vec<FheString> = Vec::new();
        let mut b: usize = 0;
        while b < rows_count
            invariant
                rows@.len() == rows_count,
                rows_count == len + 1,
                len == s.len(),
                b <= rows_count,
                buffers@.len() == b,
                forall|j: int| 0 <= j < b ==> (#[trigger] buffers@[j])@ == vals(rows@[j]@),
            decreases rows_count - b,
        {
            let row = rows[b].clone();
            proof {
                assert(vals(row@) =~= vals(rows@[b as int]@));
            }
            buffers.push(FheString::from_vec(row));
            b += 1;
        }
        proof {
            let t = text(s);
            let q = split_scan(t, p, Seq::empty(), n@ as nat, inclusive);
            let pad = (len - t.len()) as nat;
            assert forall|j: int| 0 <= j < rows_count implies is_padded(
                #[trigger] views(buffers@)[j],
            ) && text(views(buffers@)[j]) == if j < q.len() {
                q[j]
            } else {
                Seq::<u8>::empty()
            } by {
                let content = row_content(done, cur, j);
                assert(views(buffers@)[j] == content + zeros((len - content.len()) as nat));
                assert(total.len() == q.len());
                if j < q.len() {
                    assert(total[j] == content);
                    if j == q.len() - 1 {
                        assert(total[j] == q[j] + zeros(pad));
                    } else {
                        assert(total[j] == q[j]);
                    }
                    if j == q.len() - 1 {
                        assert(content == q[j] + zeros(pad));
                        assert(content + zeros((len - content.len()) as nat) =~= q[j] + zeros(
                            (len - q[j].len()) as nat,
                        ));
                    } else {
                        assert(content == q[j]);
                    }
                    lemma_text_padded(q[j], (len - q[j].len()) as nat);
                } else {
                    assert(content =~= Seq::<u8>::empty());
                    lemma_text_padded(Seq::<u8>::empty(), len as nat);
                    assert(Seq::<u8>::empty() + zeros(len as nat) =~= zeros(len as nat));
                }
            }
        }
        FheSplit { buffers, pattern_found: found }
    }
    /// The split at the empty pattern into at most `n` pieces (as `n`
    /// decrypts): buffer 0 holds the empty piece, buffer `b` the byte `b - 1`
    /// while the count allows, and the buffer the count ends at holds the rest
    /// of the text. Each buffer is built by selects on public positions.
    fn split_empty(&self, string: &FheString, n: FheAsciiChar) -> (r: FheSplit)
        requires
            is_padded(string@),
            string@.len() < MAX_CAPACITY,
            n@ >= 1,
        ensures
            r.buffers@.len() == string@.len() + 1,
            forall|b: int| 0 <= b < r.buffers@.len() ==> (#[trigger] r.buffers@[b])@.len() == string@.len(),
            forall|b: int|
                0 <= b < r.buffers@.len() ==> (#[trigger] r.buffers@[b])@ == empty_split_row(
                    string@,
                    n@ as int,
                    b,
                ),
            r.pattern_found@ == flag(n@ >= 2),
    {
        let ghost s = string@;
        let len = string.len();
        let rows_count = len + 1;
        let zero = FheAsciiChar::encrypt_trivial(0u8);
        let one = FheAsciiChar::encrypt_trivial(1u8);
        let n_is_one = n.eq(&one);
        let mut buffers: Vec<FheString> = Vec::new();
        let mut b: usize = 0;
        while b < rows_count
            invariant
                s == string@,
                len == s.len(),
                len < MAX_CAPACITY,
                rows_count == len + 1,
                zero@ == 0,
                n_is_one@ == flag(n@ == 1),
                b <= rows_count,
                buffers@.len() == b,
                forall|j: int|
                    0 <= j < b ==> (#[trigger] buffers@[j])@ == empty_split_row(s, n@ as int, j),
            decreases rows_count - b,
        {
            let enc_next = FheAsciiChar::encrypt_trivial((b + 1) as u8);
            let single = enc_next.lt(&n);
            let rest = enc_next.eq(&n);
            let keep_first = single.bitor(&rest);
            let ghost target = empty_split_row(s, n@ as int, b as int);
            let mut row: Vec<FheAsciiChar> = Vec::new();
            let mut j: usize = 0;
            while j < len
                invariant
                    s == string@,
                    len == s.len(),
                    len < MAX_CAPACITY,
                    b < rows_count,
                    rows_count == len + 1,
                    zero@ == 0,
                    n_is_one@ == flag(n@ == 1),
                    single@ == flag(b + 1 < n@),
                    rest@ == flag(b + 1 == n@),
                    keep_first@ == flag(b + 1 <= n@),
                    target == empty_split_row(s, n@ as int, b as int),
                    j <= len,
                    vals(row@) == target.take(j as int),
                decreases len - j,
            {
                let v = if b == 0 {
                    n_is_one.if_then_else(&string.get(j), &zero)
                } else if j == 0 {
                    keep_first.if_then_else(&string.get(b - 1), &zero)
                } else {
                    let src = if b - 1 + j < len {
                        string.get(b - 1 + j)
                    } else {
                        zero
                    };
                    rest.if_then_else(&src, &zero)
                };
                proof {
                    assert(v@ == target[j as int]);
                }
                let ghost before = vals(row@);
                row.push(v);
                proof {
                    assert(vals(row@) =~= before.push(v@));
                    assert(target.take(j as int + 1) =~= target.take(j as int).push(target[j as int]));
                }
                j += 1;
            }
            proof {
                assert(target.take(len as int) =~= target);
            }
            buffers.push(FheString::from_vec(row));
            b += 1;
        }
        let found = one.lt(&n);
        FheSplit { buffers, pattern_found: found }
    }

    /// The scan shared by the split family: at most `n` pieces, in order,
    /// without a last one that is empty.
    pub fn split_core(
        &self,
        string: &FheString,
        pattern: &Vec<FheAsciiChar>,
        n: FheAsciiChar,
        inclusive: bool,
    ) -> (r: FheSplit)
        requires
            is_padded(string@),
            no_zeros(vals(pattern@)),
            string@.len() < MAX_CAPACITY,
            n@ >= 1,
        ensures
            r.buffers@.len() == string@.len() + 1,
            forall|b: int| 0 <= b < r.buffers@.len() ==> (#[trigger] r.buffers@[b])@.len() == string@.len(),
            holds_pieces(
                views(r.buffers@),
                drop_empty_last(
                    split_scan(text(string@), vals(pattern@), Seq::empty(), n@ as nat, inclusive),
                ),
            ),
            r.pattern_found@ == flag(
                split_scan(text(string@), vals(pattern@), Seq::empty(), n@ as nat, inclusive).len()
                    > 1,
            ),
    {
        if pattern.len() == 0 {
            let r = self.split_empty(string, n);
            proof {
                let s = string@;
                let p = vals(pattern@);
                assert(p =~= Seq::<u8>::empty());
                lemma_padded_shape(s);
                let t = text(s);
                let q = split_scan(t, p, Seq::empty(), n@ as nat, false);
                lemma_split_empty_inclusive(t, p, n@ as nat);
                let bufs = views(r.buffers@);
                assert forall|b: int| 0 <= b < bufs.len() implies is_padded(#[trigger] bufs[b])
                    && text(bufs[b]) == if b < q.len() {
                    q[b]
                } else {
                    Seq::<u8>::empty()
                } by {
                    assert(bufs[b] == r.buffers@[b]@);
                    lemma_empty_row(s, n@ as nat, b);
                }
                if n@ >= 2 {
                    lemma_split_empty_closed(t, p, Seq::empty(), n@ as nat, false);
                    let k = t.len() as int;
                    if q.len() == bufs.len() + 1 {
                        assert(k == s.len());
                        let j = q.len() - 1;
                        assert(q[j] == q.last());
                        if j >= n@ - 1 {
                            assert(t.skip(j - 1) =~= Seq::<u8>::empty());
                        }
                    }
                } else {
                    assert(q == seq![Seq::<u8>::empty() + t]);
                }
                lemma_holds_trimmed(bufs, q);
            }
            r
        } else {
            let r = self.split_pattern(string, pattern, n, inclusive);
            proof {
                lemma_holds_drop_empty_last(
                    views(r.buffers@),
                    split_scan(text(string@), vals(pattern@), Seq::empty(), n@ as nat, inclusive),
                );
            }
            r
        }
    }

    /// Clears every buffer of the grid where `allow` is 0.
    fn mask_buffers(&self, buffers: &Vec<FheString>, allow: &FheAsciiChar) -> (r: Vec<FheString>)
        requires
            is_flag(allow@),
        ensures
            r@.len() == buffers@.len(),
            forall|b: int|
                0 <= b < r@.len() ==> (#[trigger] r@[b])@ == if allow@ == 1 {
                    buffers@[b]@
                } else {
                    zeros(buffers@[b]@.len())
                },
    {
        let zero = FheAsciiChar::encrypt_trivial(0u8);
        let mut out: Vec<FheString> = Vec::new();
        let mut b: usize = 0;
        while b < buffers.len()
            invariant
                zero@ == 0,
                is_flag(allow@),
                b <= buffers@.len(),
                out@.len() == b,
                forall|j: int|
                    0 <= j < b ==> (#[trigger] out@[j])@ == if allow@ == 1 {
                        buffers@[j]@
                    } else {
                        zeros(buffers@[j]@.len())
                    },
            decreases buffers@.len() - b,
        {
            let buf = &buffers[b];
            let mut row: Vec<FheAsciiChar> = Vec::new();
            let mut k: usize = 0;
            while k < buf.len()
                invariant
                    zero@ == 0,
                    is_flag(allow@),
                    k <= buf@.len(),
                    vals(row@) == if allow@ == 1 {
                        buf@.take(k as int)
                    } else {
                        zeros(k as nat)
                    },
                decreases buf@.len() - k,
            {
                let c = allow.if_then_else(&buf.get(k), &zero);
                let ghost before = vals(row@);
                row.push(c);
                proof {
                    assert(vals(row@) =~= before.push(c@));
                    assert(buf@.take(k as int + 1) =~= buf@.take(k as int).push(buf@[k as int]));
                    assert(zeros(k as nat + 1) =~= zeros(k as nat).push(0u8));
                }
                k += 1;
            }
            proof {
                assert(buf@.take(buf@.len() as int) =~= buf@);
            }
            out.push(FheString::from_vec(row));
            b += 1;
        }
        out
    }

    /// The count that lets a split make every piece: one more than the
    /// buffer can hold bytes, kept within a byte.
    fn unbounded_count(&self, string: &FheString) -> (r: FheAsciiChar)
        requires
            string@.len() < MAX_CAPACITY,
        ensures
            r@ >= 2,
            r@ > string@.len(),
    {
        let len = string.len();
        let n: u8 = if len + 2 <= 255 {
            (len + 2) as u8
        } else {
            255u8
        };
        FheAsciiChar::encrypt_trivial(n)
    }

    /// `str::split`: the pieces between the leftmost non-overlapping
    /// occurrences of `pattern`; an empty `pattern` occurs at every boundary.
    pub fn split(&self, string: &FheString, pattern: &Vec<FheAsciiChar>) -> (r: FheSplit)
        requires
            is_padded(string@),
            no_zeros(vals(pattern@)),
            string@.len() < MAX_CAPACITY,
        ensures
            r.buffers@.len() == string@.len() + 1,
            forall|b: int| 0 <= b < r.buffers@.len() ==> (#[trigger] r.buffers@[b])@.len() == string@.len(),
            holds_pieces(views(r.buffers@), drop_empty_last(split_spec(text(string@), vals(pattern@)))),
            r.pattern_found@ == flag(split_spec(text(string@), vals(pattern@)).len() > 1),
    {
        let n = self.unbounded_count(string);
        proof {
            lemma_padded_shape(string@);
            lemma_split_unbounded(text(string@), vals(pattern@), n@ as nat, false);
        }
        self.split_core(string, pattern, n, false)
    }

    /// `str::split_terminator`: as `split`, without a last piece that is
    /// empty.
    pub fn split_terminator(&self, string: &FheString, pattern: &Vec<FheAsciiChar>) -> (r:
        FheSplit)
        requires
            is_padded(string@),
            no_zeros(vals(pattern@)),
            string@.len() < MAX_CAPACITY,
        ensures
            r.buffers@.len() == string@.len() + 1,
            forall|b: int| 0 <= b < r.buffers@.len() ==> (#[trigger] r.buffers@[b])@.len() == string@.len(),
            holds_pieces(views(r.buffers@), split_terminator_spec(text(string@), vals(pattern@))),
            r.pattern_found@ == flag(split_spec(text(string@), vals(pattern@)).len() > 1),
    {
        self.split(string, pattern)
    }

    /// `str::split_inclusive`: each piece keeps the delimiter that ends it,
    /// and an empty last piece is left out.
    pub fn split_inclusive(&self, string: &FheString, pattern: &Vec<FheAsciiChar>) -> (r:
        FheSplit)
        requires
            is_padded(string@),
            no_zeros(vals(pattern@)),
            string@.len() < MAX_CAPACITY,
        ensures
            r.buffers@.len() == string@.len() + 1,
            forall|b: int| 0 <= b < r.buffers@.len() ==> (#[trigger] r.buffers@[b])@.len() == string@.len(),
            holds_pieces(views(r.buffers@), split_inclusive_spec(text(string@), vals(pattern@))),
            r.pattern_found@ == flag(
                split_scan(text(string@), vals(pattern@), Seq::empty(), text(string@).len() + 2, true).len()
                    > 1,
            ),
    {
        let n = self.unbounded_count(string);
        proof {
            lemma_padded_shape(string@);
            lemma_split_unbounded(text(string@), vals(pattern@), n@ as nat, true);
        }
        self.split_core(string, pattern, n, true)
    }

    /// `str::splitn`: at most `n` pieces (as `n` decrypts), the last holding
    /// the rest of the text.
    pub fn splitn(&self, string: &FheString, pattern: &Vec<FheAsciiChar>, n: FheAsciiChar) -> (r:
        FheSplit)
        requires
            is_padded(string@),
            no_zeros(vals(pattern@)),
            string@.len() < MAX_CAPACITY,
        ensures
            r.buffers@.len() == string@.len() + 1,
            forall|b: int| 0 <= b < r.buffers@.len() ==> (#[trigger] r.buffers@[b])@.len() == string@.len(),
            holds_pieces(
                views(r.buffers@),
                drop_empty_last(splitn_spec(text(string@), vals(pattern@), n@ as nat)),
            ),
            r.pattern_found@ == flag(splitn_spec(text(string@), vals(pattern@), n@ as nat).len() > 1),
    {
        let zero = FheAsciiChar::encrypt_trivial(0u8);
        let one = FheAsciiChar::encrypt_trivial(1u8);
        let n_is_zero = n.eq(&zero);
        let at_least_one = n_is_zero.if_then_else(&one, &n);
        let allow = n_is_zero.flip();
        let core = self.split_core(string, pattern, at_least_one, false);
        let buffers = self.mask_buffers(&core.buffers, &allow);
        let found = core.pattern_found.bitand(&allow);
        proof {
            let t = text(string@);
            let p = vals(pattern@);
            let bufs = views(buffers@);
            if n@ == 0 {
                assert(drop_empty_last(splitn_spec(t, p, 0)) =~= Seq::<Seq<u8>>::empty());
                assert forall|b: int| 0 <= b < bufs.len() implies is_padded(#[trigger] bufs[b])
                    && text(bufs[b]) == Seq::<u8>::empty() by {
                    assert(bufs[b] == zeros(core.buffers@[b]@.len()));
                    lemma_text_padded(Seq::<u8>::empty(), core.buffers@[b]@.len());
                    assert(Seq::<u8>::empty() + zeros(core.buffers@[b]@.len()) =~= zeros(
                        core.buffers@[b]@.len(),
                    ));
                }
            } else {
                assert(bufs =~= views(core.buffers@));
            }
        }
        FheSplit { buffers, pattern_found: found }
    }
}

} // verus!
