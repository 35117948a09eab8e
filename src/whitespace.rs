//! Splitting at runs of whitespace.
use vstd::prelude::*;
use crate::fhe_char::{flag, is_ascii_space, is_flag, FheAsciiChar};
use crate::fhe_string::{
    constant_vec, is_padded, lemma_padded_shape, lemma_text_padded, no_zeros, text, vals, zeros,
    FheString, MAX_CAPACITY,
};
use crate::server_key::MyServerKey;
use crate::split::{holds_pieces, row_content, views, FheSplit};
use crate::transform::blank;

verus! {

/// The pieces of `t` between runs of blank bytes, where `cur` is the part of
/// the current piece already read. On a text without zero bytes this is
/// `str::split_whitespace` on ASCII text.
pub open spec fn blank_pieces(t: Seq<u8>, cur: Seq<u8>) -> Seq<Seq<u8>>
    decreases t.len(),
{
    if t.len() == 0 {
        if cur.len() > 0 {
            seq![cur]
        } else {
            Seq::empty()
        }
    } else if blank(t[0]) {
        (if cur.len() > 0 {
            seq![cur]
        } else {
            Seq::<Seq<u8>>::empty()
        }) + blank_pieces(t.drop_first(), Seq::empty())
    } else {
        blank_pieces(t.drop_first(), cur.push(t[0]))
    }
}

/// The whitespace-separated words of a text.
pub open spec fn split_whitespace_spec(t: Seq<u8>) -> Seq<Seq<u8>> {
    blank_pieces(t, Seq::empty())
}

/// Padding after the text adds no piece.
pub proof fn lemma_blank_pieces_padded(t: Seq<u8>, m: nat, cur: Seq<u8>)
    ensures
        blank_pieces(t + zeros(m), cur) == blank_pieces(t, cur),
    decreases t.len() + m,
{
    let tz = t + zeros(m);
    if t.len() == 0 {
        if m > 0 {
            assert(tz.drop_first() =~= Seq::<u8>::empty() + zeros((m - 1) as nat));
            lemma_blank_pieces_padded(Seq::<u8>::empty(), (m - 1) as nat, Seq::empty());
            assert(Seq::<u8>::empty() + zeros((m - 1) as nat) =~= zeros((m - 1) as nat));
            assert(blank_pieces(Seq::<u8>::empty(), Seq::<u8>::empty()) =~= Seq::<Seq<u8>>::empty());
            assert(t =~= Seq::<u8>::empty());
            if cur.len() > 0 {
                assert(seq![cur] + Seq::<Seq<u8>>::empty() =~= seq![cur]);
            } else {
                assert(Seq::<Seq<u8>>::empty() + Seq::<Seq<u8>>::empty() =~= Seq::<Seq<u8>>::empty());
            }
        } else {
            assert(tz =~= t);
        }
    } else {
        assert(tz[0] == t[0]);
        assert(tz.drop_first() =~= t.drop_first() + zeros(m));
        if blank(t[0]) {
            lemma_blank_pieces_padded(t.drop_first(), m, Seq::empty());
        } else {
            lemma_blank_pieces_padded(t.drop_first(), m, cur.push(t[0]));
        }
    }
}

/// One step of the scan.
pub proof fn lemma_blank_step(s: Seq<u8>, i: int, cur: Seq<u8>)
    requires
        0 <= i < s.len(),
    ensures
        blank(s[i]) ==> blank_pieces(s.skip(i), cur) == (if cur.len() > 0 {
            seq![cur]
        } else {
            Seq::<Seq<u8>>::empty()
        }) + blank_pieces(s.skip(i + 1), Seq::empty()),
        !blank(s[i]) ==> blank_pieces(s.skip(i), cur) == blank_pieces(s.skip(i + 1), cur.push(s[i])),
{
    assert(s.skip(i).drop_first() =~= s.skip(i + 1));
    assert(s.skip(i)[0] == s[i]);
}

pub proof fn lemma_blank_pieces_no_zeros(t: Seq<u8>, cur: Seq<u8>)
    requires
        no_zeros(cur),
    ensures
        forall|b: int|
            0 <= b < blank_pieces(t, cur).len() ==> no_zeros(#[trigger] blank_pieces(t, cur)[b]),
    decreases t.len(),
{
    if t.len() == 0 {
    } else if blank(t[0]) {
        lemma_blank_pieces_no_zeros(t.drop_first(), Seq::empty());
        let head = if cur.len() > 0 {
            seq![cur]
        } else {
            Seq::<Seq<u8>>::empty()
        };
        let rest = blank_pieces(t.drop_first(), Seq::empty());
        assert(blank_pieces(t, cur) == head + rest);
        assert forall|b: int| 0 <= b < blank_pieces(t, cur).len() implies no_zeros(
            #[trigger] blank_pieces(t, cur)[b],
        ) by {
            if b < head.len() {
                assert(blank_pieces(t, cur)[b] == cur);
            } else {
                assert(blank_pieces(t, cur)[b] == rest[b - head.len()]);
            }
        }
    } else {
        assert(no_zeros(cur.push(t[0])));
        lemma_blank_pieces_no_zeros(t.drop_first(), cur.push(t[0]));
        assert(blank_pieces(t, cur) == blank_pieces(t.drop_first(), cur.push(t[0])));
    }
}

impl MyServerKey {
    /// Splits the text at runs of ASCII whitespace (space, tab, newline,
    /// vertical tab, form feed, carriage return), leaving out empty pieces. A
    /// new buffer starts where a run of whitespace ends a non-empty piece.
    #[verifier::rlimit(60)]
    pub fn split_ascii_whitespace(&self, string: &FheString) -> (r: FheSplit)
        requires
            is_padded(string@),
            string@.len() < MAX_CAPACITY,
        ensures
            r.buffers@.len() == string@.len() + 1,
            forall|b: int| 0 <= b < r.buffers@.len() ==> (#[trigger] r.buffers@[b])@.len() == string@.len(),
            holds_pieces(views(r.buffers@), split_whitespace_spec(text(string@))),
            r.pattern_found@ == flag(exists|i: int| 0 <= i < text(string@).len() && is_ascii_space(text(string@)[i])),
    {
        let ghost s = string@;
        let ghost total = blank_pieces(s, Seq::empty());
        let len = string.len();
        let rows_count = len + 1;
        let zero = FheAsciiChar::encrypt_trivial(0u8);
        let one = FheAsciiChar::encrypt_trivial(1u8);
        let no_pattern: Vec<FheAsciiChar> = Vec::new();
        let mut rows: Vec<Vec<FheAsciiChar>> = Vec::new();
        let mut k: usize = 0;
        while k < rows_count
            invariant
                rows_count == len + 1,
                zero@ == 0,
                k <= rows_count,
                rows@.len() == k,
                forall|b: int| 0 <= b < k ==> vals(#[trigger] rows@[b]@) == zeros(len as nat),
            decreases rows_count - k,
        {
            let row = constant_vec(zero, len);
            proof {
                assert(vals(row@) =~= zeros(len as nat));
            }
            rows.push(row);
            k += 1;
        }
        let mut current = FheAsciiChar::encrypt_trivial(0u8);
        let mut cursor = FheAsciiChar::encrypt_trivial(0u8);
        let mut found = FheAsciiChar::encrypt_trivial(0u8);
        let ghost mut done: Seq<Seq<u8>> = Seq::empty();
        let ghost mut cur: Seq<u8> = Seq::empty();
        proof {
            assert(s.skip(0) =~= s);
            assert(Seq::<Seq<u8>>::empty() + total =~= total);
            assert forall|b: int| 0 <= b < rows_count implies vals(#[trigger] rows@[b]@) == row_content(
                done,
                cur,
                b,
            ) + zeros((len - row_content(done, cur, b).len()) as nat) by {
                assert(Seq::<u8>::empty() + zeros(len as nat) =~= zeros(len as nat));
            }
        }
        let mut i: usize = 0;
        while i < len
            invariant
                s == string@,
                len == s.len(),
                len < MAX_CAPACITY,
                rows_count == len + 1,
                total == blank_pieces(s, Seq::empty()),
                zero@ == 0,
                one@ == 1,
                no_pattern@.len() == 0,
                i <= len,
                current@ == done.len(),
                done.len() <= i,
                cursor@ == cur.len(),
                cur.len() <= i,
                forall|b: int| 0 <= b < done.len() ==> (#[trigger] done[b]).len() <= len,
                found@ == flag(exists|j: int| 0 <= j < i && is_ascii_space(s[j])),
                done + blank_pieces(s.skip(i as int), cur) == total,
                rows@.len() == rows_count,
                forall|b: int|
                    0 <= b < rows_count ==> vals(#[trigger] rows@[b]@) == row_content(done, cur, b)
                        + zeros((len - row_content(done, cur, b).len()) as nat),
                forall|b: int| 0 <= b < rows_count ==> (#[trigger] rows@[b]@).len() == len,
            decreases len - i,
        {
            let c = string.get(i);
            let space = c.is_whitespace();
            let is_blank = space.bitor(&c.eq(&zero));
            let piece_open = cursor.ne(&zero);
            let close = is_blank.bitand(&piece_open);
            let copy = is_blank.flip();
            proof {
                lemma_blank_step(s, i as int, cur);
                assert(is_blank@ == flag(blank(s[i as int])));
                assert(close@ == flag(blank(s[i as int]) && cur.len() > 0));
            }
            let ghost new_done = if close@ == 1 {
                done.push(cur)
            } else {
                done
            };
            let ghost new_cur = if copy@ == 1 {
                cur.push(s[i as int])
            } else {
                Seq::<u8>::empty()
            };
            let mut b: usize = 0;
            while b < rows_count
                invariant
                    s == string@,
                    len == s.len(),
                    len < MAX_CAPACITY,
                    rows_count == len + 1,
                    i < len,
                    b <= rows_count,
                    zero@ == 0,
                    rows@.len() == rows_count,
                    no_pattern@.len() == 0,
                    current@ == done.len(),
                    done.len() <= i,
                    cursor@ == cur.len(),
                    cur.len() <= i,
                    c@ == s[i as int],
                    is_flag(copy@),
                    forall|j: int| 0 <= j < done.len() ==> (#[trigger] done[j]).len() <= len,
                    forall|j: int|
                        0 <= j < rows_count ==> vals(#[trigger] rows@[j]@) == if j < b && j
                            == done.len() && copy@ == 1 {
                            row_content(done, cur, j).push(s[i as int]) + zeros(
                                (len - row_content(done, cur, j).len() - 1) as nat,
                            )
                        } else {
                            row_content(done, cur, j) + zeros(
                                (len - row_content(done, cur, j).len()) as nat,
                            )
                        },
                    forall|j: int| 0 <= j < rows_count ==> (#[trigger] rows@[j]@).len() == len,
                decreases rows_count - b,
            {
                let enc_b = FheAsciiChar::encrypt_trivial(b as u8);
                let here = enc_b.eq(&current);
                let copy_here = copy.bitand(&here);
                let mut row = rows[b].clone();
                let ghost e = row_content(done, cur, b as int);
                proof {
                    assert(vals(row@) =~= vals(rows@[b as int]@));
                    assert(here@ == flag(b == done.len()));
                }
                self.emit(&mut row, &cursor, &zero, &no_pattern, &copy_here, &c, Ghost(e));
                let ghost prev_rows = rows@;
                rows.set(b, row);
                proof {
                    assert forall|j: int| 0 <= j < rows_count && j != b implies rows@[j]
                        == prev_rows[j] by {}
                }
                b += 1;
            }
            proof {
                if close@ == 1 {
                    assert(done + (seq![cur] + blank_pieces(s.skip(i + 1), Seq::empty()))
                        =~= new_done + blank_pieces(s.skip(i + 1), new_cur));
                } else if copy@ == 0 {
                    assert(cur.len() == 0);
                    assert(cur =~= Seq::<u8>::empty());
                    assert(Seq::<Seq<u8>>::empty() + blank_pieces(s.skip(i + 1), Seq::empty())
                        =~= blank_pieces(s.skip(i + 1), Seq::empty()));
                }
                assert forall|j: int| 0 <= j < rows_count implies vals(#[trigger] rows@[j]@)
                    == row_content(new_done, new_cur, j) + zeros(
                    (len - row_content(new_done, new_cur, j).len()) as nat,
                ) by {
                    if copy@ == 1 && j == done.len() {
                        assert(cur.push(s[i as int]) + zeros((len - cur.len() - 1) as nat)
                            =~= new_cur + zeros((len - new_cur.len()) as nat));
                    }
                    if close@ == 1 && j == done.len() + 1 {
                        assert(row_content(done, cur, j) =~= Seq::<u8>::empty());
                    }
                }
            }
            let next_cursor = cursor.add(&one);
            cursor = copy.if_then_else(&next_cursor, &zero);
            current = current.add(&close);
            found = found.bitor(&space);
            proof {
                if (exists|j: int| 0 <= j < i + 1 && is_ascii_space(s[j])) && !(exists|j: int|
                    0 <= j < i && is_ascii_space(s[j])) {
                    assert(is_ascii_space(s[i as int]));
                }
                if exists|j: int| 0 <= j < i && is_ascii_space(s[j]) {
                    let j = choose|j: int| 0 <= j < i && is_ascii_space(s[j]);
                    assert(0 <= j < i + 1 && is_ascii_space(s[j]));
                }
                if is_ascii_space(s[i as int]) {
                    assert(0 <= i < i + 1 && is_ascii_space(s[i as int]));
                }
                done = new_done;
                cur = new_cur;
            }
            i += 1;
        }
        proof {
            assert(s.skip(len as int) =~= Seq::<u8>::empty());
            lemma_padded_shape(s);
            let t = text(s);
            let pad = (len - t.len()) as nat;
            lemma_blank_pieces_padded(t, pad, Seq::empty());
            lemma_blank_pieces_no_zeros(t, Seq::empty());
            if exists|j: int| 0 <= j < len && is_ascii_space(s[j]) {
                let j = choose|j: int| 0 <= j < len && is_ascii_space(s[j]);
                assert(s[j] != 0);
                assert(t[j] == s[j]);
            }
            if exists|j: int| 0 <= j < t.len() && is_ascii_space(t[j]) {
                let j = choose|j: int| 0 <= j < t.len() && is_ascii_space(t[j]);
                assert(t[j] == s[j]);
            }
        }
        let mut buffers: Vec<FheString> = Vec::new();
        let mut b: usize = 0;
        while b < rows_count
            invariant
                rows@.len() == rows_count,
                rows_count == len + 1,
                len == s.len(),
                b <= rows_count,
                buffers@.len() == b,
                forall|j: int| 0 <= j < rows_count ==> (#[trigger] rows@[j]@).len() == len,
                forall|j: int| 0 <= j < b ==> (#[trigger] buffers@[j])@ == vals(rows@[j]@),
            decreases rows_count - b,
        {
            let row = rows[b].clone();
            proof {
                assert(vals(row@) =~= vals(rows@[b as int]@));
            }
            buffers.push(FheString::from_vec(row));
            b += 1;
        }
        proof {
            let t = text(s);
            let q = blank_pieces(t, Seq::empty());
            assert(total == q);
            if cur.len() > 0 {
                assert(total =~= done.push(cur));
            } else {
                assert(total =~= done);
            }
            assert forall|j: int| 0 <= j < rows_count implies is_padded(
                #[trigger] views(buffers@)[j],
            ) && text(views(buffers@)[j]) == if j < q.len() {
                q[j]
            } else {
                Seq::<u8>::empty()
            } by {
                let content = row_content(done, cur, j);
                assert(views(buffers@)[j] == content + zeros((len - content.len()) as nat));
                if j < q.len() {
                    assert(content == q[j]);
                    lemma_text_padded(q[j], (len - q[j].len()) as nat);
                } else {
                    assert(content =~= Seq::<u8>::empty());
                    lemma_text_padded(Seq::<u8>::empty(), len as nat);
                    assert(Seq::<u8>::empty() + zeros(len as nat) =~= zeros(len as nat));
                }
            }
        }
        FheSplit { buffers, pattern_found: found }
    }
}

} // verus!
