//! The client side: encryption of plaintext strings into padded buffers, and
//! decryption back.
use vstd::prelude::*;
use vstd::string::StringSliceAdditionalSpecFns;
use crate::fhe_char::FheAsciiChar;
use crate::fhe_string::{is_padded, lemma_text_padded, no_zeros, text, vals, zeros, FheString};
use crate::server_key::MyServerKey;
use crate::split::{views, FheSplit};

verus! {

/// Decryption undoes encryption: the text of a plaintext followed by any
/// amount of padding is the plaintext.
pub proof fn round_trip(plain: Seq<u8>, padding: nat)
    requires
        no_zeros(plain),
    ensures
        text(plain + zeros(padding)) == plain,
        is_padded(plain + zeros(padding)),
{
    lemma_text_padded(plain, padding);
}

/// The secret key holder's side. Under the trivial encoding it carries no key
/// material.
#[derive(Clone, Copy, Debug)]
pub struct MyClientKey {}

impl MyClientKey {
    pub fn new() -> (r: MyClientKey) {
        MyClientKey {  }
    }

    /// The evaluation key that goes with this key.
    pub fn get_server_key(&self) -> (r: MyServerKey) {
        MyServerKey::new()
    }

    /// Encrypts the bytes of `plain`, followed by `padding` zero bytes.
    pub fn encrypt(&self, plain: &str, padding: usize) -> (r: FheString)
        requires
            no_zeros(plain.spec_bytes()),
            plain.spec_bytes().len() + padding <= usize::MAX,
        ensures
            r@ == plain.spec_bytes() + zeros(padding as nat),
            is_padded(r@),
            text(r@) == plain.spec_bytes(),
    {
        let bytes = plain.as_bytes();
        let mut v: Vec<FheAsciiChar> = Vec::new();
        let mut i: usize = 0;
        while i < bytes.len()
            invariant
                bytes@ == plain.spec_bytes(),
                i <= bytes@.len(),
                vals(v@) == bytes@.take(i as int),
            decreases bytes@.len() - i,
        {
            let ghost before = vals(v@);
            v.push(FheAsciiChar::encrypt_trivial(bytes[i]));
            proof {
                assert(vals(v@) =~= before.push(bytes@[i as int]));
                assert(bytes@.take(i as int + 1) =~= bytes@.take(i as int).push(bytes@[i as int]));
            }
            i += 1;
        }
        let mut j: usize = 0;
        while j < padding
            invariant
                bytes@ == plain.spec_bytes(),
                j <= padding,
                vals(v@) == bytes@ + zeros(j as nat),
            decreases padding - j,
        {
            let ghost before = vals(v@);
            v.push(FheAsciiChar::encrypt_trivial(0u8));
            proof {
                assert(vals(v@) =~= before.push(0u8));
                assert(vals(v@) =~= bytes@ + zeros(j as nat + 1));
            }
            j += 1;
        }
        proof {
            assert(bytes@.take(bytes@.len() as int) =~= bytes@);
            round_trip(bytes@, padding as nat);
        }
        FheString::from_vec(v)
    }

    /// Encrypts the bytes of `plain` with no padding: the shape of a pattern.
    pub fn encrypt_no_padding(&self, plain: &str) -> (r: Vec<FheAsciiChar>)
        ensures
            vals(r@) == plain.spec_bytes(),
    {
        let bytes = plain.as_bytes();
        let mut v: Vec<FheAsciiChar> = Vec::new();
        let mut i: usize = 0;
        while i < bytes.len()
            invariant
                bytes@ == plain.spec_bytes(),
                i <= bytes@.len(),
                vals(v@) == bytes@.take(i as int),
            decreases bytes@.len() - i,
        {
            let ghost before = vals(v@);
            v.push(FheAsciiChar::encrypt_trivial(bytes[i]));
            proof {
                assert(vals(v@) =~= before.push(bytes@[i as int]));
                assert(bytes@.take(i as int + 1) =~= bytes@.take(i as int).push(bytes@[i as int]));
            }
            i += 1;
        }
        proof {
            assert(bytes@.take(bytes@.len() as int) =~= bytes@);
        }
        v
    }

    /// Decrypts one byte.
    pub fn decrypt_char(&self, c: &FheAsciiChar) -> (r: u8)
        ensures
            r == c@,
    {
        c.decrypt()
    }

    /// Decrypts a buffer to its text: its bytes without the padding.
    pub fn decrypt(&self, string: &FheString) -> (r: Vec<u8>)
        ensures
            r@ == text(string@),
    {
        let ghost s = string@;
        let mut out: Vec<u8> = Vec::new();
        let mut i: usize = 0;
        proof {
            assert(s.take(0) =~= Seq::<u8>::empty());
        }
        while i < string.len()
            invariant
                s == string@,
                i <= s.len(),
                out@ == text(s.take(i as int)),
            decreases s.len() - i,
        {
            proof {
                assert(s.take(i as int + 1).drop_last() =~= s.take(i as int));
            }
            let b = string.get(i).decrypt();
            if b != 0 {
                out.push(b);
            }
            i += 1;
        }
        proof {
            assert(s.take(s.len() as int) =~= s);
        }
        out
    }
    /// Decrypts every buffer of a split to its text.
    pub fn decrypt_split(&self, split: &FheSplit) -> (r: Vec<Vec<u8>>)
        ensures
            r@.len() == split.buffers@.len(),
            forall|b: int| 0 <= b < r@.len() ==> (#[trigger] r@[b])@ == text(views(split.buffers@)[b]),
    {
        let mut out: Vec<Vec<u8>> = Vec::new();
        let mut b: usize = 0;
        while b < split.buffers.len()
            invariant
                b <= split.buffers@.len(),
                out@.len() == b,
                forall|j: int| 0 <= j < b ==> (#[trigger] out@[j])@ == text(views(split.buffers@)[j]),
            decreases split.buffers@.len() - b,
        {
            out.push(self.decrypt(&split.buffers[b]));
            b += 1;
        }
        out
    }
}

} // verus!
