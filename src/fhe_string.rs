//! The padded encrypted string and its zero compaction.
//!
//! An `FheString` is a buffer of encrypted bytes of fixed capacity. Its text is
//! what remains once the zero bytes (padding) are dropped; a buffer is *padded*
//! when its zero bytes all stand after its non-zero ones. Positions and counts
//! are themselves encrypted bytes, so every buffer that the algorithms compact
//! holds at most `MAX_CAPACITY` bytes.
use vstd::prelude::*;
use crate::fhe_char::{flag, FheAsciiChar};

verus! {

/// The largest buffer that the position-encoding algorithms handle: positions
/// and counts are held in one encrypted byte.
pub const MAX_CAPACITY: usize = 255;

/// The values that a sequence of encrypted bytes decrypts to.
pub open spec fn vals(v: Seq<FheAsciiChar>) -> Seq<u8> {
    v.map_values(|c: FheAsciiChar| c@)
}

/// The text of a buffer: its bytes with the zero bytes dropped.
pub open spec fn text(s: Seq<u8>) -> Seq<u8>
    decreases s.len(),
{
    if s.len() == 0 {
        s
    } else if s.last() == 0 {
        text(s.drop_last())
    } else {
        text(s.drop_last()).push(s.last())
    }
}

/// No byte is zero.
pub open spec fn no_zeros(s: Seq<u8>) -> bool {
    forall|i: int| 0 <= i < s.len() ==> s[i] != 0
}

/// Every zero byte stands after every non-zero byte.
pub open spec fn is_padded(s: Seq<u8>) -> bool {
    forall|i: int, j: int| 0 <= i <= j < s.len() && s[i] == 0 ==> s[j] == 0
}

/// `n` zero bytes.
pub open spec fn zeros(n: nat) -> Seq<u8> {
    Seq::new(n, |i: int| 0u8)
}

pub proof fn lemma_text_len(s: Seq<u8>)
    ensures
        text(s).len() <= s.len(),
        no_zeros(text(s)),
    decreases s.len(),
{
    if s.len() > 0 {
        lemma_text_len(s.drop_last());
    }
}

/// Dropping zeros distributes over concatenation.
pub proof fn lemma_text_append(a: Seq<u8>, b: Seq<u8>)
    ensures
        text(a + b) == text(a) + text(b),
    decreases b.len(),
{
    if b.len() == 0 {
        assert(a + b =~= a);
        assert(text(b) =~= Seq::<u8>::empty());
        assert(text(a) + text(b) =~= text(a));
    } else {
        lemma_text_append(a, b.drop_last());
        assert((a + b).drop_last() =~= a + b.drop_last());
        assert((a + b).last() == b.last());
        if b.last() != 0 {
            assert(text(a) + text(b.drop_last()).push(b.last()) =~= (text(a) + text(
                b.drop_last(),
            )).push(b.last()));
        }
    }
}

pub proof fn lemma_text_no_zeros(s: Seq<u8>)
    requires
        no_zeros(s),
    ensures
        text(s) == s,
    decreases s.len(),
{
    if s.len() > 0 {
        lemma_text_no_zeros(s.drop_last());
        assert(s.drop_last().push(s.last()) =~= s);
    }
}

pub proof fn lemma_text_zeros(n: nat)
    ensures
        text(zeros(n)) == Seq::<u8>::empty(),
    decreases n,
{
    if n > 0 {
        lemma_text_zeros((n - 1) as nat);
        assert(zeros(n).drop_last() =~= zeros((n - 1) as nat));
    }
}

/// A text followed by zeros has that text.
pub proof fn lemma_text_padded(t: Seq<u8>, n: nat)
    requires
        no_zeros(t),
    ensures
        text(t + zeros(n)) == t,
        is_padded(t + zeros(n)),
{
    lemma_text_append(t, zeros(n));
    lemma_text_no_zeros(t);
    lemma_text_zeros(n);
    assert(t + Seq::<u8>::empty() =~= t);
}

/// A padded buffer is its text followed by zeros.
pub proof fn lemma_padded_shape(s: Seq<u8>)
    requires
        is_padded(s),
    ensures
        s =~= text(s) + zeros((s.len() - text(s).len()) as nat),
        no_zeros(text(s)),
        text(s).len() <= s.len(),
        forall|i: int| 0 <= i < s.len() ==> (s[i] != 0 <==> i < text(s).len()),
    decreases s.len(),
{
    lemma_text_len(s);
    if s.len() > 0 {
        let d = s.drop_last();
        if s.last() == 0 {
            assert(is_padded(d));
            lemma_padded_shape(d);
            assert(text(s) == text(d));
            assert(s =~= d.push(0u8));
            assert(s =~= text(s) + zeros((s.len() - text(s).len()) as nat));
        } else {
            assert(no_zeros(s));
            lemma_text_no_zeros(s);
            assert(s =~= text(s) + zeros((s.len() - text(s).len()) as nat));
        }
    }
}

/// A buffer of encrypted bytes.
#[derive(Clone, Debug)]
pub struct FheString {
    bytes: Vec<FheAsciiChar>,
}

impl View for FheString {
    type V = Seq<u8>;

    closed spec fn view(&self) -> Seq<u8> {
        vals(self.bytes@)
    }
}

impl FheString {
    pub fn from_vec(bytes: Vec<FheAsciiChar>) -> (r: FheString)
        ensures
            r@ == vals(bytes@),
    {
        FheString { bytes }
    }

    pub fn get_bytes(&self) -> (r: Vec<FheAsciiChar>)
        ensures
            vals(r@) == self@,
    {
        let r = self.bytes.clone();
        proof {
            assert(vals(r@) =~= vals(self.bytes@));
        }
        r
    }

    /// A copy of the buffer.
    pub fn clone_string(&self) -> (r: FheString)
        ensures
            r@ == self@,
    {
        FheString { bytes: self.get_bytes() }
    }

    /// The capacity of the buffer (not the length of its text).
    pub fn len(&self) -> (r: usize)
        ensures
            r == self@.len(),
    {
        self.bytes.len()
    }

    pub fn is_empty(&self) -> (r: bool)
        ensures
            r == (self@.len() == 0),
    {
        self.bytes.len() == 0
    }

    pub fn get(&self, i: usize) -> (r: FheAsciiChar)
        requires
            i < self@.len(),
        ensures
            r@ == self@[i as int],
    {
        self.bytes[i]
    }
}

/// Copies of a constant byte.
pub fn constant_vec(c: FheAsciiChar, n: usize) -> (r: Vec<FheAsciiChar>)
    ensures
        r@.len() == n,
        forall|i: int| 0 <= i < n ==> #[trigger] r@[i]@ == c@,
{
    let mut r: Vec<FheAsciiChar> = Vec::new();
    let mut i: usize = 0;
    while i < n
        invariant
            i <= n,
            r@.len() == i,
            forall|k: int| 0 <= k < i ==> #[trigger] r@[k]@ == c@,
        decreases n - i,
    {
        r.push(c);
        i += 1;
    }
    r
}

/// Oblivious stable compaction: the non-zero bytes move to the front, in their
/// order, and the zeros to the back. Each byte is written to the output slot
/// given by the encrypted count of non-zero bytes before it, by a select on
/// every candidate slot.
pub fn bubble_zeroes_right(v: &Vec<FheAsciiChar>) -> (r: Vec<FheAsciiChar>)
    requires
        v@.len() <= MAX_CAPACITY,
    ensures
        vals(r@) == text(vals(v@)) + zeros((v@.len() - text(vals(v@)).len()) as nat),
        r@.len() == v@.len(),
        is_padded(vals(r@)),
        text(vals(r@)) == text(vals(v@)),
{
    let n = v.len();
    let zero = FheAsciiChar::encrypt_trivial(0u8);
    let mut out = constant_vec(zero, n);
    let mut count = FheAsciiChar::encrypt_trivial(0u8);
    let ghost s = vals(v@);
    proof {
        assert(s.take(0) =~= Seq::<u8>::empty());
        assert(vals(out@) =~= text(s.take(0)) + zeros(n as nat));
    }
    let mut i: usize = 0;
    while i < n
        invariant
            n == v@.len(),
            n <= MAX_CAPACITY,
            s == vals(v@),
            zero@ == 0,
            i <= n,
            count@ == text(s.take(i as int)).len(),
            text(s.take(i as int)).len() <= i,
            vals(out@) == text(s.take(i as int)) + zeros((n - count@) as nat),
        decreases n - i,
    {
        let ghost old_out = vals(out@);
        let ghost t_new = text(s.take(i as int + 1));
        proof {
            assert(s.take(i as int + 1).drop_last() =~= s.take(i as int));
            assert(s.take(i as int + 1).last() == s[i as int]);
        }
        let ghost target = t_new + zeros((n - t_new.len()) as nat);
        proof {
            if s[i as int] == 0 {
                assert(target =~= old_out);
            } else {
                assert(target =~= old_out.update(count@ as int, s[i as int]));
            }
        }
        let nz = v[i].ne(&zero);
        let mut k: usize = 0;
        while k < n
            invariant
                n == v@.len(),
                n <= MAX_CAPACITY,
                s == vals(v@),
                i < n,
                k <= n,
                out@.len() == n,
                nz@ == flag(s[i as int] != 0),
                count@ <= i,
                target.len() == n,
                old_out.len() == n,
                forall|j: int| 0 <= j < n ==> #[trigger] vals(out@)[j] == if j < k {
                    target[j]
                } else {
                    old_out[j]
                },
                s[i as int] == 0 ==> target == old_out,
                s[i as int] != 0 ==> target == old_out.update(count@ as int, s[i as int]),
            decreases n - k,
        {
            let enc_k = FheAsciiChar::encrypt_trivial(k as u8);
            let at_k = count.eq(&enc_k);
            let hit = nz.bitand(&at_k);
            proof {
                assert(at_k@ == flag(count@ == k));
                assert(hit@ == flag(s[i as int] != 0 && count@ == k));
                assert(vals(out@)[k as int] == old_out[k as int]);
            }
            let c = hit.if_then_else(&v[i], &out[k]);
            let ghost prev = vals(out@);
            out.set(k, c);
            proof {
                assert(vals(out@) =~= prev.update(k as int, c@));
                assert(c@ == target[k as int]);
            }
            k += 1;
        }
        proof {
            assert(vals(out@) =~= target);
        }
        count = count.add(&nz);
        i += 1;
    }
    proof {
        assert(s.take(n as int) =~= s);
        lemma_text_len(s);
        lemma_text_padded(text(s), (n - text(s).len()) as nat);
    }
    out
}

} // verus!
