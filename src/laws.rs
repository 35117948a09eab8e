//! Laws that relate several calls of the string operations.
use vstd::prelude::*;
use crate::case_compare::to_upper_spec;
use crate::fhe_char::is_ascii_space;
use crate::transform::{trim_end_spec, trim_spec, trim_start_spec};

verus! {

/// Uppercasing twice is uppercasing once.
pub proof fn to_upper_idempotent(s: Seq<u8>)
    ensures
        to_upper_spec(to_upper_spec(s)) == to_upper_spec(s),
{
    assert(to_upper_spec(to_upper_spec(s)) =~= to_upper_spec(s));
}

proof fn lemma_trim_start_head(t: Seq<u8>)
    ensures
        trim_start_spec(t).len() == 0 || !is_ascii_space(trim_start_spec(t)[0]),
    decreases t.len(),
{
    if t.len() > 0 && is_ascii_space(t[0]) {
        lemma_trim_start_head(t.drop_first());
    }
}

proof fn lemma_trim_end_prefix(t: Seq<u8>)
    ensures
        trim_end_spec(t) == t.take(trim_end_spec(t).len() as int),
        trim_end_spec(t).len() <= t.len(),
        trim_end_spec(t).len() == 0 || !is_ascii_space(trim_end_spec(t).last()),
    decreases t.len(),
{
    if t.len() > 0 && is_ascii_space(t.last()) {
        lemma_trim_end_prefix(t.drop_last());
        let r = trim_end_spec(t.drop_last());
        assert(t.drop_last().take(r.len() as int) =~= t.take(r.len() as int));
    } else {
        assert(t.take(t.len() as int) =~= t);
    }
}

/// Trimming twice is trimming once.
pub proof fn trim_idempotent(t: Seq<u8>)
    ensures
        trim_spec(trim_spec(t)) == trim_spec(t),
{
    let x = trim_start_spec(t);
    lemma_trim_start_head(t);
    let y = trim_end_spec(x);
    lemma_trim_end_prefix(x);
    if y.len() > 0 {
        assert(y[0] == x[0]);
    }
    assert(trim_start_spec(y) == y);
    lemma_trim_end_prefix(y);
    if y.len() > 0 {
        assert(!is_ascii_space(y.last()));
    }
    assert(trim_end_spec(y) == y);
}

} // verus!
