//! The operations with a plaintext pattern: the pattern is encrypted
//! trivially on the server and the encrypted operation runs on it.
use vstd::prelude::*;
use vstd::string::StringSliceAdditionalSpecFns;
use crate::fhe_char::{flag, FheAsciiChar};
use crate::fhe_string::{is_padded, no_zeros, text, vals, FheString, MAX_CAPACITY};
use crate::replace::{output_capacity, replace_str_spec, replacen_str_spec};
use crate::rsplit::{rsplit_spec, rsplit_terminator_spec, rsplitn_spec};
use crate::server_key::{
    contains_spec, ends_with_spec, is_first_match, is_last_match, starts_with_spec, MyServerKey,
    MAX_FIND_LENGTH,
};
use crate::split::{
    drop_empty_last, holds_pieces, split_inclusive_spec, split_spec, split_terminator_spec, splitn_spec, views,
    FheSplit,
};
use crate::transform::FheStrip;

verus! {

impl MyServerKey {
    /// The bytes of `clear`, each encrypted trivially.
    pub fn trivial_pattern(&self, clear: &str) -> (r: Vec<FheAsciiChar>)
        ensures
            vals(r@) == clear.spec_bytes(),
    {
        let bytes = clear.as_bytes();
        let mut v: Vec<FheAsciiChar> = Vec::new();
        let mut i: usize = 0;
        while i < bytes.len()
            invariant
                bytes@ == clear.spec_bytes(),
                i <= bytes@.len(),
                vals(v@) == bytes@.take(i as int),
            decreases bytes@.len() - i,
        {
            let ghost before = vals(v@);
            v.push(FheAsciiChar::encrypt_trivial(bytes[i]));
            proof {
                assert(vals(v@) =~= before.push(bytes@[i as int]));
                assert(bytes@.take(i as int + 1) =~= bytes@.take(i as int).push(bytes@[i as int]));
            }
            i += 1;
        }
        proof {
            assert(bytes@.take(bytes@.len() as int) =~= bytes@);
        }
        v
    }

    /// `contains` with a plaintext pattern.
    pub fn contains_clear(&self, string: &FheString, clear_pattern: &str) -> (r: FheAsciiChar)
        requires
            is_padded(string@),
            no_zeros(clear_pattern.spec_bytes()),
        ensures
            r@ == flag(contains_spec(text(string@), clear_pattern.spec_bytes())),
    {
        let pattern = self.trivial_pattern(clear_pattern);
        self.contains(string, &pattern)
    }

    /// `starts_with` with a plaintext pattern.
    pub fn starts_with_clear(&self, string: &FheString, clear_pattern: &str) -> (r: FheAsciiChar)
        requires
            is_padded(string@),
            no_zeros(clear_pattern.spec_bytes()),
        ensures
            r@ == flag(starts_with_spec(text(string@), clear_pattern.spec_bytes())),
    {
        let pattern = self.trivial_pattern(clear_pattern);
        self.starts_with(string, &pattern)
    }

    /// `ends_with` with a plaintext pattern.
    pub fn ends_with_clear(&self, string: &FheString, clear_pattern: &str) -> (r: FheAsciiChar)
        requires
            is_padded(string@),
            no_zeros(clear_pattern.spec_bytes()),
        ensures
            r@ == flag(ends_with_spec(text(string@), clear_pattern.spec_bytes())),
    {
        let pattern = self.trivial_pattern(clear_pattern);
        self.ends_with(string, &pattern)
    }

    /// `find` with a plaintext pattern.
    pub fn find_clear(&self, string: &FheString, clear_pattern: &str) -> (r: FheAsciiChar)
        requires
            is_padded(string@),
            no_zeros(clear_pattern.spec_bytes()),
            string@.len() < MAX_FIND_LENGTH + clear_pattern.spec_bytes().len(),
        ensures
            contains_spec(text(string@), clear_pattern.spec_bytes()) ==> is_first_match(
                text(string@),
                clear_pattern.spec_bytes(),
                r@ as int,
            ),
            !contains_spec(text(string@), clear_pattern.spec_bytes()) ==> r@ == MAX_FIND_LENGTH,
    {
        let pattern = self.trivial_pattern(clear_pattern);
        self.find(string, &pattern)
    }

    /// `rfind` with a plaintext pattern.
    pub fn rfind_clear(&self, string: &FheString, clear_pattern: &str) -> (r: FheAsciiChar)
        requires
            is_padded(string@),
            no_zeros(clear_pattern.spec_bytes()),
            string@.len() < MAX_FIND_LENGTH + clear_pattern.spec_bytes().len(),
        ensures
            contains_spec(text(string@), clear_pattern.spec_bytes()) ==> is_last_match(
                text(string@),
                clear_pattern.spec_bytes(),
                r@ as int,
            ),
            !contains_spec(text(string@), clear_pattern.spec_bytes()) ==> r@ == MAX_FIND_LENGTH,
    {
        let pattern = self.trivial_pattern(clear_pattern);
        self.rfind(string, &pattern)
    }

    /// `strip_prefix` with a plaintext pattern.
    pub fn strip_prefix_clear(&self, string: &FheString, clear_pattern: &str) -> (r: FheStrip)
        requires
            is_padded(string@),
            no_zeros(clear_pattern.spec_bytes()),
            string@.len() <= MAX_CAPACITY,
        ensures
            r.pattern_found@ == flag(starts_with_spec(text(string@), clear_pattern.spec_bytes())),
            is_padded(r.string@),
            text(r.string@) == if starts_with_spec(text(string@), clear_pattern.spec_bytes()) {
                text(string@).skip(clear_pattern.spec_bytes().len() as int)
            } else {
                text(string@)
            },
    {
        let pattern = self.trivial_pattern(clear_pattern);
        self.strip_prefix(string, &pattern)
    }

    /// `strip_suffix` with a plaintext pattern.
    pub fn strip_suffix_clear(&self, string: &FheString, clear_pattern: &str) -> (r: FheStrip)
        requires
            is_padded(string@),
            no_zeros(clear_pattern.spec_bytes()),
            string@.len() <= MAX_CAPACITY,
        ensures
            r.pattern_found@ == flag(ends_with_spec(text(string@), clear_pattern.spec_bytes())),
            is_padded(r.string@),
            text(r.string@) == if ends_with_spec(text(string@), clear_pattern.spec_bytes()) {
                text(string@).take(text(string@).len() - clear_pattern.spec_bytes().len())
            } else {
                text(string@)
            },
    {
        let pattern = self.trivial_pattern(clear_pattern);
        self.strip_suffix(string, &pattern)
    }

    /// `split` with a plaintext pattern.
    pub fn split_clear(&self, string: &FheString, clear_pattern: &str) -> (r: FheSplit)
        requires
            is_padded(string@),
            no_zeros(clear_pattern.spec_bytes()),
            string@.len() < MAX_CAPACITY,
        ensures
            r.buffers@.len() == string@.len() + 1,
            holds_pieces(
                views(r.buffers@),
                drop_empty_last(split_spec(text(string@), clear_pattern.spec_bytes())),
            ),
    {
        let pattern = self.trivial_pattern(clear_pattern);
        self.split(string, &pattern)
    }

    /// `split_inclusive` with a plaintext pattern.
    pub fn split_inclusive_clear(&self, string: &FheString, clear_pattern: &str) -> (r: FheSplit)
        requires
            is_padded(string@),
            no_zeros(clear_pattern.spec_bytes()),
            string@.len() < MAX_CAPACITY,
        ensures
            r.buffers@.len() == string@.len() + 1,
            holds_pieces(views(r.buffers@), split_inclusive_spec(text(string@), clear_pattern.spec_bytes())),
    {
        let pattern = self.trivial_pattern(clear_pattern);
        self.split_inclusive(string, &pattern)
    }

    /// `split_terminator` with a plaintext pattern.
    pub fn split_terminator_clear(&self, string: &FheString, clear_pattern: &str) -> (r: FheSplit)
        requires
            is_padded(string@),
            no_zeros(clear_pattern.spec_bytes()),
            string@.len() < MAX_CAPACITY,
        ensures
            r.buffers@.len() == string@.len() + 1,
            holds_pieces(views(r.buffers@), split_terminator_spec(text(string@), clear_pattern.spec_bytes())),
    {
        let pattern = self.trivial_pattern(clear_pattern);
        self.split_terminator(string, &pattern)
    }

    /// `rsplit` with a plaintext pattern.
    pub fn rsplit_clear(&self, string: &FheString, clear_pattern: &str) -> (r: FheSplit)
        requires
            is_padded(string@),
            no_zeros(clear_pattern.spec_bytes()),
            string@.len() < MAX_CAPACITY,
        ensures
            r.buffers@.len() == string@.len() + 1,
            holds_pieces(
                views(r.buffers@),
                drop_empty_last(rsplit_spec(text(string@), clear_pattern.spec_bytes())),
            ),
    {
        let pattern = self.trivial_pattern(clear_pattern);
        self.rsplit(string, &pattern)
    }

    /// `rsplit_terminator` with a plaintext pattern.
    pub fn rsplit_terminator_clear(&self, string: &FheString, clear_pattern: &str) -> (r: FheSplit)
        requires
            is_padded(string@),
            no_zeros(clear_pattern.spec_bytes()),
            string@.len() < MAX_CAPACITY,
        ensures
            r.buffers@.len() == string@.len() + 1,
            holds_pieces(
                views(r.buffers@),
                drop_empty_last(rsplit_terminator_spec(text(string@), clear_pattern.spec_bytes())),
            ),
    {
        let pattern = self.trivial_pattern(clear_pattern);
        self.rsplit_terminator(string, &pattern)
    }

    /// `splitn` with a plaintext pattern and count.
    pub fn splitn_clear(&self, string: &FheString, clear_pattern: &str, clear_n: u8) -> (r: FheSplit)
        requires
            is_padded(string@),
            no_zeros(clear_pattern.spec_bytes()),
            string@.len() < MAX_CAPACITY,
        ensures
            r.buffers@.len() == string@.len() + 1,
            holds_pieces(
                views(r.buffers@),
                drop_empty_last(splitn_spec(text(string@), clear_pattern.spec_bytes(), clear_n as nat)),
            ),
    {
        let pattern = self.trivial_pattern(clear_pattern);
        self.splitn(string, &pattern, FheAsciiChar::encrypt_trivial(clear_n))
    }

    /// `rsplitn` with a plaintext pattern and count.
    pub fn rsplitn_clear(&self, string: &FheString, clear_pattern: &str, clear_n: u8) -> (r: FheSplit)
        requires
            is_padded(string@),
            no_zeros(clear_pattern.spec_bytes()),
            string@.len() < MAX_CAPACITY,
        ensures
            r.buffers@.len() == string@.len() + 1,
            holds_pieces(
                views(r.buffers@),
                drop_empty_last(rsplitn_spec(text(string@), clear_pattern.spec_bytes(), clear_n as nat)),
            ),
    {
        let pattern = self.trivial_pattern(clear_pattern);
        self.rsplitn(string, &pattern, FheAsciiChar::encrypt_trivial(clear_n))
    }

    /// `rsplit_once` with a plaintext pattern.
    pub fn rsplit_once_clear(&self, string: &FheString, clear_pattern: &str) -> (r: FheSplit)
        requires
            is_padded(string@),
            no_zeros(clear_pattern.spec_bytes()),
            string@.len() < MAX_CAPACITY,
        ensures
            r.buffers@.len() == string@.len() + 1,
            holds_pieces(
                views(r.buffers@),
                drop_empty_last(rsplitn_spec(text(string@), clear_pattern.spec_bytes(), 2)),
            ),
            r.pattern_found@ == flag(rsplitn_spec(text(string@), clear_pattern.spec_bytes(), 2).len() > 1),
    {
        let pattern = self.trivial_pattern(clear_pattern);
        self.rsplit_once(string, &pattern)
    }

    /// `replace` with a plaintext pattern and replacement.
    pub fn replace_clear(&self, string: &FheString, clear_from: &str, clear_to: &str) -> (r: FheString)
        requires
            is_padded(string@),
            no_zeros(clear_from.spec_bytes()),
            no_zeros(clear_to.spec_bytes()),
            output_capacity(string@.len(), clear_from.spec_bytes().len(), clear_to.spec_bytes().len())
                <= MAX_CAPACITY,
        ensures
            is_padded(r@),
            text(r@) == replace_str_spec(text(string@), clear_from.spec_bytes(), clear_to.spec_bytes()),
    {
        let from = self.trivial_pattern(clear_from);
        let to = self.trivial_pattern(clear_to);
        self.replace(string, &from, &to)
    }

    /// `replacen` with a plaintext pattern, replacement and count.
    pub fn replacen_clear(&self, string: &FheString, clear_from: &str, clear_to: &str, clear_n: u8) -> (r:
        FheString)
        requires
            is_padded(string@),
            no_zeros(clear_from.spec_bytes()),
            no_zeros(clear_to.spec_bytes()),
            output_capacity(string@.len(), clear_from.spec_bytes().len(), clear_to.spec_bytes().len())
                <= MAX_CAPACITY,
        ensures
            is_padded(r@),
            text(r@) == replacen_str_spec(
                text(string@),
                clear_from.spec_bytes(),
                clear_to.spec_bytes(),
                clear_n as nat,
            ),
    {
        let from = self.trivial_pattern(clear_from);
        let to = self.trivial_pattern(clear_to);
        self.replacen(string, &from, &to, FheAsciiChar::encrypt_trivial(clear_n))
    }
}

} // verus!
