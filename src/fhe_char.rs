//! The encrypted byte and the capability set that the string algorithms use.
//!
//! A `FheAsciiChar` stands for one 8-bit value under the evaluation key. The
//! algorithms of this crate touch it only through the operations below, each of
//! which costs the same whatever the value is, and never branch on it. Here the
//! value is held under the trivial (noise-free) encoding, so that every
//! operation is specified by the value it decrypts to: its view.
use vstd::prelude::*;

verus! {

/// 1 for true, 0 for false: how the comparisons encode their result.
pub open spec fn flag(b: bool) -> u8 {
    if b {
        1
    } else {
        0
    }
}

/// A byte that decrypts to 0 or 1.
pub open spec fn is_flag(v: u8) -> bool {
    v == 0 || v == 1
}

/// The ASCII whitespace bytes: space, tab, newline, vertical tab, form feed,
/// carriage return.
pub open spec fn is_ascii_space(b: u8) -> bool {
    b == 0x20 || b == 0x09 || b == 0x0A || b == 0x0B || b == 0x0C || b == 0x0D
}

pub open spec fn is_upper_byte(b: u8) -> bool {
    0x41 <= b <= 0x5A
}

pub open spec fn is_lower_byte(b: u8) -> bool {
    0x61 <= b <= 0x7A
}

/// One encrypted byte.
#[derive(Clone, Copy, Debug)]
pub struct FheAsciiChar {
    value: u8,
}

impl View for FheAsciiChar {
    type V = u8;

    /// What the byte decrypts to.
    closed spec fn view(&self) -> u8 {
        self.value
    }
}

impl FheAsciiChar {
    /// Encrypts a publicly known constant (a circuit literal).
    pub fn encrypt_trivial(value: u8) -> (r: FheAsciiChar)
        ensures
            r@ == value,
    {
        FheAsciiChar { value }
    }

    /// Decrypts the byte.
    pub fn decrypt(&self) -> (r: u8)
        ensures
            r == self@,
    {
        self.value
    }

    pub fn eq(&self, other: &FheAsciiChar) -> (r: FheAsciiChar)
        ensures
            r@ == flag(self@ == other@),
    {
        FheAsciiChar { value: if self.value == other.value { 1 } else { 0 } }
    }

    pub fn ne(&self, other: &FheAsciiChar) -> (r: FheAsciiChar)
        ensures
            r@ == flag(self@ != other@),
    {
        FheAsciiChar { value: if self.value != other.value { 1 } else { 0 } }
    }

    pub fn le(&self, other: &FheAsciiChar) -> (r: FheAsciiChar)
        ensures
            r@ == flag(self@ <= other@),
    {
        FheAsciiChar { value: if self.value <= other.value { 1 } else { 0 } }
    }

    pub fn lt(&self, other: &FheAsciiChar) -> (r: FheAsciiChar)
        ensures
            r@ == flag(self@ < other@),
    {
        FheAsciiChar { value: if self.value < other.value { 1 } else { 0 } }
    }

    pub fn ge(&self, other: &FheAsciiChar) -> (r: FheAsciiChar)
        ensures
            r@ == flag(self@ >= other@),
    {
        FheAsciiChar { value: if self.value >= other.value { 1 } else { 0 } }
    }

    pub fn gt(&self, other: &FheAsciiChar) -> (r: FheAsciiChar)
        ensures
            r@ == flag(self@ > other@),
    {
        FheAsciiChar { value: if self.value > other.value { 1 } else { 0 } }
    }

    /// Bitwise and; on two flags, their conjunction.
    pub fn bitand(&self, other: &FheAsciiChar) -> (r: FheAsciiChar)
        ensures
            r@ == self@ & other@,
            is_flag(self@) && is_flag(other@) ==> r@ == flag(self@ == 1 && other@ == 1),
    {
        let a = self.value;
        let b = other.value;
        proof {
            assert((a == 0 || a == 1) && (b == 0 || b == 1) ==> (a & b) == (if a == 1 && b == 1 {
                1u8
            } else {
                0u8
            })) by (bit_vector);
        }
        FheAsciiChar { value: a & b }
    }

    /// Bitwise or; on two flags, their disjunction.
    pub fn bitor(&self, other: &FheAsciiChar) -> (r: FheAsciiChar)
        ensures
            r@ == self@ | other@,
            is_flag(self@) && is_flag(other@) ==> r@ == flag(self@ == 1 || other@ == 1),
    {
        let a = self.value;
        let b = other.value;
        proof {
            assert((a == 0 || a == 1) && (b == 0 || b == 1) ==> (a | b) == (if a == 1 || b == 1 {
                1u8
            } else {
                0u8
            })) by (bit_vector);
        }
        FheAsciiChar { value: a | b }
    }

    /// Addition modulo 256.
    pub fn add(&self, other: &FheAsciiChar) -> (r: FheAsciiChar)
        ensures
            r@ == (self@ + other@) % 256,
    {
        FheAsciiChar { value: self.value.wrapping_add(other.value) }
    }

    /// Subtraction modulo 256.
    pub fn sub(&self, other: &FheAsciiChar) -> (r: FheAsciiChar)
        ensures
            r@ == (self@ - other@ + 256) % 256,
    {
        FheAsciiChar { value: self.value.wrapping_sub(other.value) }
    }

    /// `true_value` where this byte is not zero, else `false_value`.
    pub fn if_then_else(&self, true_value: &FheAsciiChar, false_value: &FheAsciiChar) -> (r:
        FheAsciiChar)
        ensures
            r@ == if self@ != 0 {
                true_value@
            } else {
                false_value@
            },
    {
        FheAsciiChar { value: if self.value != 0 { true_value.value } else { false_value.value } }
    }

    /// Whether the byte is ASCII whitespace.
    pub fn is_whitespace(&self) -> (r: FheAsciiChar)
        ensures
            r@ == flag(is_ascii_space(self@)),
    {
        let space = FheAsciiChar::encrypt_trivial(0x20u8);
        let tab = FheAsciiChar::encrypt_trivial(0x09u8);
        let newline = FheAsciiChar::encrypt_trivial(0x0Au8);
        let vertical_tab = FheAsciiChar::encrypt_trivial(0x0Bu8);
        let form_feed = FheAsciiChar::encrypt_trivial(0x0Cu8);
        let carriage_return = FheAsciiChar::encrypt_trivial(0x0Du8);

        let res1 = self.eq(&space);
        let res2 = self.eq(&tab);
        let res3 = self.eq(&newline);
        let res4 = self.eq(&vertical_tab);
        let res5 = self.eq(&form_feed);
        let res6 = self.eq(&carriage_return);

        res1.bitor(&res2).bitor(&res3).bitor(&res4).bitor(&res5).bitor(&res6)
    }

    /// Whether the byte is in 'A'..='Z'.
    pub fn is_uppercase(&self) -> (r: FheAsciiChar)
        ensures
            r@ == flag(is_upper_byte(self@)),
    {
        let uppercase_a = FheAsciiChar::encrypt_trivial(0x41u8);
        let uppercase_z = FheAsciiChar::encrypt_trivial(0x5Au8);
        self.ge(&uppercase_a).bitand(&self.le(&uppercase_z))
    }

    /// Whether the byte is in 'a'..='z'.
    pub fn is_lowercase(&self) -> (r: FheAsciiChar)
        ensures
            r@ == flag(is_lower_byte(self@)),
    {
        let lowercase_a = FheAsciiChar::encrypt_trivial(0x61u8);
        let lowercase_z = FheAsciiChar::encrypt_trivial(0x7Au8);
        self.ge(&lowercase_a).bitand(&self.le(&lowercase_z))
    }

    /// Negation of a flag, computed as `1 - b`.
    pub fn flip(&self) -> (r: FheAsciiChar)
        requires
            is_flag(self@),
        ensures
            r@ == flag(self@ == 0),
    {
        let one = FheAsciiChar::encrypt_trivial(1u8);
        one.sub(self)
    }
}

} // verus!
