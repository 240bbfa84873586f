//! A stack of booleans stored in the bit pattern of a single `u64`.
//!
//! The word `1` is the empty stack. A non-empty stack holding
//! `b_0` (bottom) through `b_{n-1}` (top) is the word whose binary digits
//! are `1 b_0 ... b_{n-1}`: the leading `1` is a sentinel that marks the
//! bottom, so the top of the stack sits in the lowest bit. Pushing shifts
//! the whole word left by one bit and popping shifts it right, sentinel
//! and data moving as one unit; the number of elements is the word's bit
//! length minus one.

use vstd::prelude::*;

verus! {

use vstd::arithmetic::div_mod::lemma_fundamental_div_mod;
use vstd::arithmetic::power2::{
    lemma2_to64, lemma2_to64_rest, lemma_pow2_strictly_increases, lemma_pow2_unfold, pow2,
};

/// Greatest number of booleans a stack can hold: one bit of the 64-bit
/// word is taken by the sentinel.
pub const CAPACITY: u32 = 63;

/// Returned by `pop` and `top` when the stack holds no element.
#[derive(Clone, Copy, Debug, PartialEq, Eq)]
pub struct EmptyStackError;

/// Returned by `push` when the stack already holds `CAPACITY` elements.
#[derive(Clone, Copy, Debug, PartialEq, Eq)]
pub struct OverflowError;

/// The sequence of booleans that the word `bits` encodes, bottom of the
/// stack first. Reading the word from its second-highest binary digit
/// down to its lowest yields the stack from bottom to top, so the top is
/// `bits % 2` and the rest is encoded by `bits / 2`.
pub open spec fn decoded(bits: nat) -> Seq<bool>
    decreases bits,
{
    if bits <= 1 {
        Seq::empty()
    } else {
        decoded(bits / 2).push(bits % 2 == 1)
    }
}

/// A bounded stack of booleans packed into one machine word.
pub struct Stack1 {
    bits: u64,
}

impl View for Stack1 {
    type V = Seq<bool>;

    closed spec fn view(&self) -> Seq<bool> {
        decoded(self.bits as nat)
    }
}

/// The word lies between `2^n` and `2^(n+1)` where `n` is the number of
/// elements it encodes: the sentinel is the highest set bit.
proof fn lemma_decoded_bounds(bits: nat)
    requires
        1 <= bits,
    ensures
        pow2(decoded(bits).len()) <= bits < pow2(decoded(bits).len() + 1),
    decreases bits,
{
    lemma2_to64();
    if bits > 1 {
        let rest = bits / 2;
        lemma_fundamental_div_mod(bits as int, 2);
        lemma_decoded_bounds(rest);
        let n = decoded(rest).len();
        lemma_pow2_unfold(n + 1);
        lemma_pow2_unfold(n + 2);
    }
}

/// A word encodes the empty stack exactly when it is `1`.
proof fn lemma_decoded_empty(bits: nat)
    requires
        1 <= bits,
    ensures
        decoded(bits).len() == 0 <==> bits == 1,
{
    lemma_decoded_bounds(bits);
    lemma2_to64();
}

/// A word encodes at most `CAPACITY` booleans, and exactly `CAPACITY`
/// of them exactly when the sentinel sits in the topmost bit.
proof fn lemma_decoded_capacity(bits: nat)
    requires
        1 <= bits < pow2(64),
    ensures
        decoded(bits).len() <= CAPACITY,
        decoded(bits).len() == CAPACITY <==> pow2(63) <= bits,
{
    lemma_decoded_bounds(bits);
    let n = decoded(bits).len();
    if n >= 64 {
        if n > 64 {
            lemma_pow2_strictly_increases(64, n);
        }
        assert(false);
    }
    if pow2(63) <= bits && n < 63 {
        if n + 1 < 63 {
            lemma_pow2_strictly_increases(n + 1, 63);
        }
        assert(false);
    }
}

/// Capacity law: a well-formed stack never holds more than `CAPACITY`
/// booleans.
pub proof fn lemma_size_bounded(stack: &Stack1)
    requires
        stack.wf(),
    ensures
        stack@.len() <= CAPACITY,
{
    lemma2_to64();
    lemma_decoded_capacity(stack.bits as nat);
}

/// The view a stack reaches after pushing each element of `values` in
/// turn, oldest first, onto a stack whose view is `stack`: the abstract
/// effect of a run of `push` calls with no intervening pops.
pub open spec fn after_pushes(stack: Seq<bool>, values: Seq<bool>) -> Seq<bool>
    decreases values.len(),
{
    if values.len() == 0 {
        stack
    } else {
        after_pushes(stack.push(values[0]), values.drop_first())
    }
}

/// Pushes with no intervening pops append exactly the pushed values, in
/// order, to the stack's view.
pub proof fn lemma_after_pushes_appends(stack: Seq<bool>, values: Seq<bool>)
    ensures
        after_pushes(stack, values) == stack + values,
    decreases values.len(),
{
    if values.len() == 0 {
        assert(stack + values =~= stack);
    } else {
        lemma_after_pushes_appends(stack.push(values[0]), values.drop_first());
        assert(stack.push(values[0]) + values.drop_first() =~= stack + values);
    }
}

/// Starting from the empty stack, pushing `k` values with no intervening
/// pops leaves a view equal to those values, so `size` then reports `k`.
pub proof fn lemma_size_after_pushes(values: Seq<bool>)
    ensures
        after_pushes(Seq::empty(), values) == values,
        after_pushes(Seq::empty(), values).len() == values.len(),
{
    lemma_after_pushes_appends(Seq::empty(), values);
    assert(Seq::<bool>::empty() + values =~= values);
}

/// The LIFO law: a push followed by a pop returns the pushed value and
/// restores the view, and with it the size, that the stack had before.
pub proof fn lemma_push_then_pop(stack: Seq<bool>, value: bool)
    ensures
        stack.push(value).last() == value,
        stack.push(value).drop_last() == stack,
{
    assert(stack.push(value).drop_last() =~= stack);
}

impl Stack1 {
    /// Well-formedness: the sentinel bit is present, so every reachable
    /// word is at least `1`. Established by `new` and kept by every
    /// operation.
    pub closed spec fn wf(&self) -> bool {
        1 <= self.bits
    }

    /// Returns the empty stack: the bare sentinel bit.
    pub fn new() -> (stack: Stack1)
        ensures
            stack.wf(),
            stack@ == Seq::<bool>::empty(),
            stack@.len() == 0,
    {
        Stack1 { bits: 1 }
    }

    /// Pushes `value` on top of the stack by shifting the word left one
    /// bit and placing `value` in the freed lowest bit. Fails, leaving
    /// the stack unchanged, when the stack is already full: the shift
    /// would push the sentinel out of the word.
    pub fn push(&mut self, value: bool) -> (result: Result<(), OverflowError>)
        requires
            old(self).wf(),
        ensures
            final(self).wf(),
            old(self)@.len() < CAPACITY ==> result == Ok::<(), OverflowError>(())
                && final(self)@ == old(self)@.push(value)
                && final(self)@.len() == old(self)@.len() + 1,
            old(self)@.len() == CAPACITY ==> result == Err::<(), OverflowError>(OverflowError)
                && *final(self) == *old(self),
            old(self)@.len() <= CAPACITY,
    {
        proof {
            lemma2_to64();
            lemma2_to64_rest();
            lemma_decoded_capacity(self.bits as nat);
        }
        if self.bits >= 0x8000_0000_0000_0000 {
            Err(OverflowError)
        } else {
            let bit: u64 = if value {
                1
            } else {
                0
            };
            let new_bits: u64 = (self.bits << 1u64) | bit;
            proof {
                let b = self.bits;
                assert(new_bits == 2 * b + bit && new_bits / 2 == b && new_bits % 2 == bit)
                    by (bit_vector)
                    requires
                        new_bits == (b << 1u64) | bit,
                        b < 0x8000_0000_0000_0000u64,
                        bit <= 1u64,
                ;
                assert(decoded(new_bits as nat) == decoded(b as nat).push(value));
            }
            self.bits = new_bits;
            Ok(())
        }
    }

    /// Pops the top of the stack: reads the lowest bit, then shifts the
    /// word right one bit, the sentinel moving down with the data. Fails,
    /// leaving the stack unchanged, when the stack is empty.
    pub fn pop(&mut self) -> (result: Result<bool, EmptyStackError>)
        requires
            old(self).wf(),
        ensures
            final(self).wf(),
            old(self)@.len() == 0 ==> result == Err::<bool, EmptyStackError>(EmptyStackError)
                && *final(self) == *old(self),
            old(self)@.len() > 0 ==> result == Ok::<bool, EmptyStackError>(old(self)@.last())
                && final(self)@ == old(self)@.drop_last()
                && final(self)@.len() == old(self)@.len() - 1,
    {
        proof {
            lemma_decoded_empty(self.bits as nat);
        }
        if self.bits == 1 {
            Err(EmptyStackError)
        } else {
            let value = (self.bits & 1u64) == 1;
            let new_bits: u64 = self.bits >> 1u64;
            proof {
                let b = self.bits;
                assert(new_bits == b / 2 && (b & 1u64) == b % 2) by (bit_vector)
                    requires
                        new_bits == b >> 1u64,
                ;
                assert(decoded((b / 2) as nat).push(b % 2 == 1).drop_last() =~= decoded(
                    (b / 2) as nat,
                ));
            }
            self.bits = new_bits;
            Ok(value)
        }
    }

    /// Reads the top of the stack, the lowest bit of the word, without
    /// changing anything. Fails when the stack is empty.
    pub fn top(&self) -> (result: Result<bool, EmptyStackError>)
        requires
            self.wf(),
        ensures
            self@.len() == 0 ==> result == Err::<bool, EmptyStackError>(EmptyStackError),
            self@.len() > 0 ==> result == Ok::<bool, EmptyStackError>(self@.last()),
    {
        proof {
            lemma_decoded_empty(self.bits as nat);
        }
        if self.bits == 1 {
            Err(EmptyStackError)
        } else {
            proof {
                let b = self.bits;
                assert((b & 1u64) == b % 2) by (bit_vector);
            }
            Ok((self.bits & 1u64) == 1)
        }
    }

    /// Number of booleans on the stack: the word's bit length minus one,
    /// counted by shifting the word down to the bare sentinel.
    pub fn size(&self) -> (count: u32)
        requires
            self.wf(),
        ensures
            count == self@.len(),
    {
        proof {
            lemma2_to64();
            lemma_decoded_capacity(self.bits as nat);
        }
        let mut cur: u64 = self.bits;
        let mut count: u32 = 0;
        while cur > 1
            invariant
                1 <= cur,
                count + decoded(cur as nat).len() == self@.len(),
                self@.len() <= CAPACITY,
            decreases cur,
        {
            proof {
                let c = cur;
                assert((c >> 1u64) == c / 2 && c / 2 < c && 1 <= c / 2) by (bit_vector)
                    requires
                        2 <= c,
                ;
            }
            cur = cur >> 1u64;
            count = count + 1;
        }
        count
    }

    /// Whether the stack holds no element: only the sentinel bit is set.
    /// Agrees with `size() == 0`.
    pub fn is_empty(&self) -> (empty: bool)
        requires
            self.wf(),
        ensures
            empty <==> self@.len() == 0,
    {
        proof {
            lemma_decoded_empty(self.bits as nat);
        }
        self.bits == 1
    }
}

} // verus!
