//! Case mapping, equality and lexicographic comparison of encrypted strings.
use vstd::prelude::*;
use crate::fhe_char::{flag, is_lower_byte, is_upper_byte, FheAsciiChar};
use crate::fhe_string::{
    is_padded, lemma_padded_shape, text, vals, FheString, MAX_CAPACITY,
};
use crate::server_key::MyServerKey;

verus! {

/// The distance between an ASCII letter and its other case.
pub const CASE_SHIFT: u8 = 32;

pub open spec fn upper_byte(b: u8) -> u8 {
    if is_lower_byte(b) {
        (b - 32) as u8
    } else {
        b
    }
}

pub open spec fn lower_byte(b: u8) -> u8 {
    if is_upper_byte(b) {
        (b + 32) as u8
    } else {
        b
    }
}

/// `str::to_ascii_uppercase` on bytes.
pub open spec fn to_upper_spec(s: Seq<u8>) -> Seq<u8> {
    s.map_values(|b: u8| upper_byte(b))
}

/// `str::to_ascii_lowercase` on bytes.
pub open spec fn to_lower_spec(s: Seq<u8>) -> Seq<u8> {
    s.map_values(|b: u8| lower_byte(b))
}

/// `a` and `b` agree on their first `i` bytes.
pub open spec fn common_prefix(a: Seq<u8>, b: Seq<u8>, i: int) -> bool {
    0 <= i <= a.len() && i <= b.len() && forall|j: int| 0 <= j < i ==> a[j] == b[j]
}

/// Byte-wise lexicographic order, as `<` on `str`: at the first position where
/// the two differ, or where the shorter one ends.
pub open spec fn lex_lt(a: Seq<u8>, b: Seq<u8>) -> bool {
    exists|i: int|
        #[trigger] common_prefix(a, b, i) && ((i < a.len() && i < b.len() && a[i] < b[i]) || (i
            == a.len() && i < b.len()))
}

/// The four orderings that `comparison` computes.
#[derive(Clone, Copy, Debug)]
pub enum Comparison {
    LessThan,
    LessEqual,
    GreaterThan,
    GreaterEqual,
}

/// What the ordering says of two strings.
pub open spec fn compare_spec(op: Comparison, a: Seq<u8>, b: Seq<u8>) -> bool {
    match op {
        Comparison::LessThan => lex_lt(a, b),
        Comparison::LessEqual => lex_lt(a, b) || a == b,
        Comparison::GreaterThan => lex_lt(b, a),
        Comparison::GreaterEqual => lex_lt(b, a) || a == b,
    }
}

/// What the ordering says of two bytes, or of two lengths.
pub open spec fn compare_int(op: Comparison, x: int, y: int) -> bool {
    match op {
        Comparison::LessThan => x < y,
        Comparison::LessEqual => x <= y,
        Comparison::GreaterThan => x > y,
        Comparison::GreaterEqual => x >= y,
    }
}

/// A map that keeps zero and non-zero bytes apart commutes with taking the text.
pub proof fn lemma_text_map(s: Seq<u8>, f: spec_fn(u8) -> u8)
    requires
        f(0) == 0,
        forall|x: u8| x != 0 ==> #[trigger] f(x) != 0,
    ensures
        text(s.map_values(f)) == text(s).map_values(f),
    decreases s.len(),
{
    if s.len() > 0 {
        lemma_text_map(s.drop_last(), f);
        assert(s.map_values(f).drop_last() =~= s.drop_last().map_values(f));
        if s.last() != 0 {
            assert(text(s.drop_last()).push(s.last()).map_values(f) =~= text(
                s.drop_last(),
            ).map_values(f).push(f(s.last())));
        }
    } else {
        assert(text(s.map_values(f)) =~= text(s).map_values(f));
    }
}

pub proof fn lemma_padded_map(s: Seq<u8>, f: spec_fn(u8) -> u8)
    requires
        is_padded(s),
        f(0) == 0,
        forall|x: u8| x != 0 ==> #[trigger] f(x) != 0,
    ensures
        is_padded(s.map_values(f)),
{
}

/// Two padded buffers whose first difference is at `d`, before either ends:
/// their texts are ordered as the bytes at `d`.
pub proof fn lemma_lex_first_difference(a: Seq<u8>, b: Seq<u8>, d: int)
    requires
        is_padded(a),
        is_padded(b),
        0 <= d < a.len(),
        d < b.len(),
        forall|j: int| 0 <= j < d ==> a[j] == b[j],
        a[d] != b[d],
    ensures
        lex_lt(text(a), text(b)) <==> a[d] < b[d],
        lex_lt(text(b), text(a)) <==> b[d] < a[d],
        text(a) != text(b),
{
    lemma_padded_shape(a);
    lemma_padded_shape(b);
    let ta = text(a);
    let tb = text(b);
    assert forall|j: int| 0 <= j < ta.len() implies a[j] == ta[j] by {}
    assert forall|j: int| 0 <= j < tb.len() implies b[j] == tb[j] by {}
    assert forall|j: int| 0 <= j < d && j < ta.len() && j < tb.len() implies ta[j] == tb[j] by {
        assert(a[j] == ta[j]);
        assert(b[j] == tb[j]);
    }
    if a[d] != 0 && b[d] != 0 {
        assert(d < ta.len() && d < tb.len());
        assert(a[d] == ta[d] && b[d] == tb[d]);
        assert(common_prefix(ta, tb, d));
        assert(common_prefix(tb, ta, d));
        if lex_lt(ta, tb) {
            let i = choose|i: int|
                #[trigger] common_prefix(ta, tb, i) && ((i < ta.len() && i < tb.len() && ta[i]
                    < tb[i]) || (i == ta.len() && i < tb.len()));
            assert(i == d) by {
                if i < d {
                    assert(ta[i] == tb[i]);
                } else if i > d {
                    assert(ta[d] == tb[d]);
                }
            }
        }
        if lex_lt(tb, ta) {
            let i = choose|i: int|
                #[trigger] common_prefix(tb, ta, i) && ((i < tb.len() && i < ta.len() && tb[i]
                    < ta[i]) || (i == tb.len() && i < ta.len()));
            assert(i == d) by {
                if i < d {
                    assert(ta[i] == tb[i]);
                } else if i > d {
                    assert(ta[d] == tb[d]);
                }
            }
        }
        assert(ta[d] != tb[d]);
    } else if a[d] == 0 {
        assert forall|j: int| 0 <= j < d implies a[j] != 0 by {
            assert(b[j] != 0);
        }
        if d > 0 {
            assert(a[d - 1] != 0);
        }
        assert(ta.len() == d);
        assert(common_prefix(ta, tb, d));
        assert(tb.len() > d);
        if lex_lt(tb, ta) {
            let i = choose|i: int|
                #[trigger] common_prefix(tb, ta, i) && ((i < tb.len() && i < ta.len() && tb[i]
                    < ta[i]) || (i == tb.len() && i < ta.len()));
            assert(false);
        }
        assert(ta.len() != tb.len());
    } else {
        assert forall|j: int| 0 <= j < d implies b[j] != 0 by {
            assert(a[j] != 0);
        }
        if d > 0 {
            assert(b[d - 1] != 0);
        }
        assert(tb.len() == d);
        assert(common_prefix(tb, ta, d));
        assert(ta.len() > d);
        if lex_lt(ta, tb) {
            let i = choose|i: int|
                #[trigger] common_prefix(ta, tb, i) && ((i < ta.len() && i < tb.len() && ta[i]
                    < tb[i]) || (i == ta.len() && i < tb.len()));
            assert(false);
        }
        assert(ta.len() != tb.len());
    }
}

/// Two padded buffers that agree up to the end of the shorter: one text is a
/// prefix of the other, so the texts are ordered as their lengths.
pub proof fn lemma_lex_no_difference(a: Seq<u8>, b: Seq<u8>)
    requires
        is_padded(a),
        is_padded(b),
        forall|j: int| 0 <= j < a.len() && j < b.len() ==> a[j] == b[j],
    ensures
        lex_lt(text(a), text(b)) <==> text(a).len() < text(b).len(),
        lex_lt(text(b), text(a)) <==> text(b).len() < text(a).len(),
        text(a) == text(b) <==> text(a).len() == text(b).len(),
{
    lemma_padded_shape(a);
    lemma_padded_shape(b);
    let ta = text(a);
    let tb = text(b);
    let m = if ta.len() <= tb.len() {
        ta.len() as int
    } else {
        tb.len() as int
    };
    assert forall|j: int| 0 <= j < m implies ta[j] == tb[j] by {
        assert(a[j] == b[j]);
    }
    assert(common_prefix(ta, tb, m));
    assert(common_prefix(tb, ta, m));
    if lex_lt(ta, tb) {
        let i = choose|i: int|
            #[trigger] common_prefix(ta, tb, i) && ((i < ta.len() && i < tb.len() && ta[i]
                < tb[i]) || (i == ta.len() && i < tb.len()));
    }
    if lex_lt(tb, ta) {
        let i = choose|i: int|
            #[trigger] common_prefix(tb, ta, i) && ((i < tb.len() && i < ta.len() && tb[i]
                < ta[i]) || (i == tb.len() && i < ta.len()));
    }
    if ta.len() == tb.len() {
        assert(ta =~= tb);
    }
}

impl MyServerKey {
    /// Maps every ASCII lowercase letter to uppercase; other bytes, padding
    /// included, stay.
    pub fn to_upper(&self, string: &FheString) -> (r: FheString)
        ensures
            r@ == to_upper_spec(string@),
    {
        let zero = FheAsciiChar::encrypt_trivial(0u8);
        let cst = FheAsciiChar::encrypt_trivial(CASE_SHIFT);
        let ghost s = string@;
        let mut bytes: Vec<FheAsciiChar> = Vec::new();
        let mut i: usize = 0;
        while i < string.len()
            invariant
                s == string@,
                zero@ == 0,
                cst@ == 32,
                i <= s.len(),
                vals(bytes@) == to_upper_spec(s.take(i as int)),
            decreases s.len() - i,
        {
            let b = string.get(i);
            let is_not_lowercase = b.is_lowercase().flip();
            let shift = is_not_lowercase.if_then_else(&zero, &cst);
            let c = b.sub(&shift);
            proof {
                assert(b@ == s[i as int]);
                if is_lower_byte(b@) {
                    assert(shift@ == 32);
                    assert(c@ == (b@ - 32 + 256) % 256);
                    assert(c@ == b@ - 32);
                } else {
                    assert(shift@ == 0);
                    assert(c@ == b@);
                }
            }
            let ghost before = vals(bytes@);
            bytes.push(c);
            proof {
                assert(c@ == upper_byte(s[i as int]));
                assert(vals(bytes@) =~= before.push(c@));
                assert(to_upper_spec(s.take(i as int + 1)) =~= to_upper_spec(s.take(i as int)).push(
                    upper_byte(s[i as int]),
                ));
                assert(vals(bytes@) =~= to_upper_spec(s.take(i as int + 1)));
            }
            i += 1;
        }
        proof {
            assert(s.take(s.len() as int) =~= s);
        }
        FheString::from_vec(bytes)
    }

    /// Maps every ASCII uppercase letter to lowercase; other bytes, padding
    /// included, stay.
    pub fn to_lower(&self, string: &FheString) -> (r: FheString)
        ensures
            r@ == to_lower_spec(string@),
    {
        let zero = FheAsciiChar::encrypt_trivial(0u8);
        let cst = FheAsciiChar::encrypt_trivial(CASE_SHIFT);
        let ghost s = string@;
        let mut bytes: Vec<FheAsciiChar> = Vec::new();
        let mut i: usize = 0;
        while i < string.len()
            invariant
                s == string@,
                zero@ == 0,
                cst@ == 32,
                i <= s.len(),
                vals(bytes@) == to_lower_spec(s.take(i as int)),
            decreases s.len() - i,
        {
            let b = string.get(i);
            let is_not_uppercase = b.is_uppercase().flip();
            let shift = is_not_uppercase.if_then_else(&zero, &cst);
            let c = b.add(&shift);
            proof {
                assert(b@ == s[i as int]);
                if is_upper_byte(b@) {
                    assert(shift@ == 32);
                    assert(c@ == b@ + 32);
                } else {
                    assert(shift@ == 0);
                    assert(c@ == b@);
                }
            }
            let ghost before = vals(bytes@);
            bytes.push(c);
            proof {
                assert(c@ == lower_byte(s[i as int]));
                assert(vals(bytes@) =~= before.push(c@));
                assert(to_lower_spec(s.take(i as int + 1)) =~= to_lower_spec(s.take(i as int)).push(
                    lower_byte(s[i as int]),
                ));
                assert(vals(bytes@) =~= to_lower_spec(s.take(i as int + 1)));
            }
            i += 1;
        }
        proof {
            assert(s.take(s.len() as int) =~= s);
        }
        FheString::from_vec(bytes)
    }

    /// Encrypted 1 if the two texts are equal, else 0.
    pub fn eq(&self, string: &FheString, other: &FheString) -> (r: FheAsciiChar)
        requires
            is_padded(string@),
            is_padded(other@),
            string@.len() <= MAX_CAPACITY,
            other@.len() <= MAX_CAPACITY,
        ensures
            r@ == flag(text(string@) == text(other@)),
    {
        let ghost a = string@;
        let ghost b = other@;
        let zero = FheAsciiChar::encrypt_trivial(0u8);
        let one = FheAsciiChar::encrypt_trivial(1u8);
        let mut is_eq = one;
        let min_length = if string.len() <= other.len() {
            string.len()
        } else {
            other.len()
        };
        let len1 = self.len(string);
        let len2 = self.len(other);
        let are_lengths_not_eql = len1.ne(&len2);
        let mut i: usize = 0;
        while i < min_length
            invariant
                a == string@,
                b == other@,
                min_length <= a.len(),
                min_length <= b.len(),
                zero@ == 0,
                i <= min_length,
                is_eq@ == flag(forall|j: int| 0 <= j < i ==> a[j] == b[j]),
            decreases min_length - i,
        {
            let x = string.get(i);
            let y = other.get(i);
            let are_equal = x.eq(&y);
            let both_zero = x.eq(&zero).bitand(&y.eq(&zero));
            let res = both_zero.bitor(&are_equal);
            let ghost prev = is_eq@;
            is_eq = is_eq.bitand(&res);
            proof {
                assert(res@ == flag(a[i as int] == b[i as int]));
                if (forall|j: int| 0 <= j < i + 1 ==> a[j] == b[j]) {
                    assert(forall|j: int| 0 <= j < i ==> a[j] == b[j]);
                }
                if is_eq@ == 1 {
                    assert forall|j: int| 0 <= j < i + 1 implies a[j] == b[j] by {
                        if j == i {
                        }
                    }
                }
            }
            i += 1;
        }
        proof {
            lemma_padded_shape(a);
            lemma_padded_shape(b);
            let ta = text(a);
            let tb = text(b);
            if ta == tb {
                assert forall|j: int| 0 <= j < min_length implies a[j] == b[j] by {
                    if j < ta.len() {
                        assert(a[j] == ta[j]);
                        assert(b[j] == tb[j]);
                    }
                }
            }
            if is_eq@ == 1 && ta.len() == tb.len() {
                assert forall|j: int| 0 <= j < ta.len() implies ta[j] == tb[j] by {
                    assert(a[j] == ta[j]);
                    assert(b[j] == tb[j]);
                }
                assert(ta =~= tb);
            }
        }
        are_lengths_not_eql.if_then_else(&zero, &is_eq)
    }

    /// Encrypted 1 if the two texts differ, else 0.
    pub fn ne(&self, string: &FheString, other: &FheString) -> (r: FheAsciiChar)
        requires
            is_padded(string@),
            is_padded(other@),
            string@.len() <= MAX_CAPACITY,
            other@.len() <= MAX_CAPACITY,
        ensures
            r@ == flag(text(string@) != text(other@)),
    {
        self.eq(string, other).flip()
    }

    /// Encrypted 1 if the two texts are equal up to ASCII case, else 0.
    pub fn eq_ignore_case(&self, string: &FheString, other: &FheString) -> (r: FheAsciiChar)
        requires
            is_padded(string@),
            is_padded(other@),
            string@.len() <= MAX_CAPACITY,
            other@.len() <= MAX_CAPACITY,
        ensures
            r@ == flag(to_lower_spec(text(string@)) == to_lower_spec(text(other@))),
    {
        let self_lowercase = self.to_lower(string);
        let other_lowercase = self.to_lower(other);
        proof {
            let f = |b: u8| lower_byte(b);
            lemma_text_map(string@, f);
            lemma_text_map(other@, f);
            lemma_padded_map(string@, f);
            lemma_padded_map(other@, f);
        }
        self.eq(&self_lowercase, &other_lowercase)
    }

    /// Byte-wise lexicographic comparison of the two texts. The scan latches
    /// the requested comparison of the bytes at the first position where the
    /// buffers differ; where they never do, the lengths decide.
    pub fn comparison(&self, string: &FheString, other: &FheString, operation: Comparison) -> (r:
        FheAsciiChar)
        requires
            is_padded(string@),
            is_padded(other@),
            string@.len() <= MAX_CAPACITY,
            other@.len() <= MAX_CAPACITY,
        ensures
            r@ == flag(compare_spec(operation, text(string@), text(other@))),
    {
        let ghost a = string@;
        let ghost b = other@;
        let zero = FheAsciiChar::encrypt_trivial(0u8);
        let two_five_five = FheAsciiChar::encrypt_trivial(255u8);
        let mut encountered_comparison = zero;
        let mut has_flag_became_one = zero;
        let mut ret = two_five_five;
        let min_length = if string.len() <= other.len() {
            string.len()
        } else {
            other.len()
        };
        let mut i: usize = 0;
        while i < min_length
            invariant
                a == string@,
                b == other@,
                min_length <= a.len(),
                min_length <= b.len(),
                min_length == a.len() || min_length == b.len(),
                two_five_five@ == 255,
                i <= min_length,
                encountered_comparison@ == flag(exists|j: int| 0 <= j < i && a[j] != b[j]),
                has_flag_became_one@ == encountered_comparison@,
                !(exists|j: int| 0 <= j < i && a[j] != b[j]) ==> ret@ == 255,
                (exists|j: int| 0 <= j < i && a[j] != b[j]) ==> exists|d: int|
                    0 <= d < i && a[d] != b[d] && (forall|j: int| 0 <= j < d ==> a[j] == b[j])
                    && ret@ == flag(compare_int(operation, a[d] as int, b[d] as int)),
            decreases min_length - i,
        {
            let x = string.get(i);
            let y = other.get(i);
            let comparison_result = match operation {
                Comparison::LessThan => x.lt(&y),
                Comparison::LessEqual => x.le(&y),
                Comparison::GreaterThan => x.gt(&y),
                Comparison::GreaterEqual => x.ge(&y),
            };
            let is_ne = x.ne(&y);
            let ghost prev_ret = ret@;
            let ghost seen_before = exists|j: int| 0 <= j < i && a[j] != b[j];
            encountered_comparison = encountered_comparison.bitor(&is_ne);
            let flag_now = encountered_comparison.bitand(&has_flag_became_one.flip());
            has_flag_became_one = has_flag_became_one.bitor(&flag_now);
            ret = flag_now.if_then_else(&comparison_result, &ret);
            proof {
                if !seen_before && a[i as int] != b[i as int] {
                    assert(forall|j: int| 0 <= j < i ==> a[j] == b[j]);
                    assert(ret@ == flag(compare_int(operation, a[i as int] as int, b[i as int] as int)));
                }
                if seen_before {
                    let d = choose|d: int|
                        0 <= d < i && a[d] != b[d] && (forall|j: int| 0 <= j < d ==> a[j] == b[j])
                            && prev_ret == flag(compare_int(operation, a[d] as int, b[d] as int));
                    assert(0 <= d < i + 1 && a[d] != b[d]);
                }
                if exists|j: int| 0 <= j < i + 1 && a[j] != b[j] {
                    if !seen_before {
                        assert(a[i as int] != b[i as int]);
                    }
                }
            }
            i += 1;
        }
        let are_substrings_equal = ret.eq(&two_five_five);
        let len1 = self.len(string);
        let len2 = self.len(other);
        let is_length_equal = len1.eq(&len2);
        let is_length_greater_than = len1.gt(&len2);
        let is_length_less_than = len1.lt(&len2);
        let length_based_comparison = match operation {
            Comparison::GreaterEqual => is_length_equal.bitor(&is_length_greater_than),
            Comparison::LessEqual => is_length_equal.bitor(&is_length_less_than),
            Comparison::GreaterThan => is_length_greater_than,
            Comparison::LessThan => is_length_less_than,
        };
        proof {
            if exists|j: int| 0 <= j < min_length && a[j] != b[j] {
                let d = choose|d: int|
                    0 <= d < min_length && a[d] != b[d] && (forall|j: int| 0 <= j < d ==> a[j]
                        == b[j]) && ret@ == flag(compare_int(operation, a[d] as int, b[d] as int));
                lemma_lex_first_difference(a, b, d);
            } else {
                lemma_lex_no_difference(a, b);
            }
        }
        are_substrings_equal.if_then_else(&length_based_comparison, &ret)
    }

    /// Encrypted 1 if the first text sorts before the second, else 0.
    pub fn lt(&self, string: &FheString, other: &FheString) -> (r: FheAsciiChar)
        requires
            is_padded(string@),
            is_padded(other@),
            string@.len() <= MAX_CAPACITY,
            other@.len() <= MAX_CAPACITY,
        ensures
            r@ == flag(lex_lt(text(string@), text(other@))),
    {
        self.comparison(string, other, Comparison::LessThan)
    }

    /// Encrypted 1 if the first text sorts before the second or equals it.
    pub fn le(&self, string: &FheString, other: &FheString) -> (r: FheAsciiChar)
        requires
            is_padded(string@),
            is_padded(other@),
            string@.len() <= MAX_CAPACITY,
            other@.len() <= MAX_CAPACITY,
        ensures
            r@ == flag(lex_lt(text(string@), text(other@)) || text(string@) == text(other@)),
    {
        self.comparison(string, other, Comparison::LessEqual)
    }

    /// Encrypted 1 if the first text sorts after the second, else 0.
    pub fn gt(&self, string: &FheString, other: &FheString) -> (r: FheAsciiChar)
        requires
            is_padded(string@),
            is_padded(other@),
            string@.len() <= MAX_CAPACITY,
            other@.len() <= MAX_CAPACITY,
        ensures
            r@ == flag(lex_lt(text(other@), text(string@))),
    {
        self.comparison(string, other, Comparison::GreaterThan)
    }

    /// Encrypted 1 if the first text sorts after the second or equals it.
    pub fn ge(&self, string: &FheString, other: &FheString) -> (r: FheAsciiChar)
        requires
            is_padded(string@),
            is_padded(other@),
            string@.len() <= MAX_CAPACITY,
            other@.len() <= MAX_CAPACITY,
        ensures
            r@ == flag(lex_lt(text(other@), text(string@)) || text(string@) == text(other@)),
    {
        self.comparison(string, other, Comparison::GreaterEqual)
    }
}

} // verus!
