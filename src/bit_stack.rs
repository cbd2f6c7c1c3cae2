//! A stack of booleans packed into a single `u64`.
//!
//! The lowest bits hold the pushed values, the most recent in bit 0, and a
//! sentinel 1 sits just above the oldest one. An empty stack is the word 1.

use vstd::arithmetic::power2::{
    lemma2_to64, lemma2_to64_rest, lemma_pow2_strictly_increases, lemma_pow2_unfold, pow2,
};
use vstd::prelude::*;

verus! {

/// The most booleans the word holds: one of its 64 bits is the sentinel.
pub const CAPACITY: u32 = 63;

/// The stack that a packed word stands for, oldest value first.
pub open spec fn bits_of(w: nat) -> Seq<bool>
    decreases w,
{
    if w <= 1 {
        Seq::empty()
    } else {
        bits_of(w / 2).push(w % 2 == 1)
    }
}

/// A word with the sentinel set lies between two consecutive powers of two
/// given by the number of values it holds.
proof fn lemma_bits_len(w: nat)
    requires
        w >= 1,
    ensures
        pow2(bits_of(w).len()) <= w < pow2(bits_of(w).len() + 1),
    decreases w,
{
    if w <= 1 {
        lemma2_to64();
    } else {
        lemma_bits_len(w / 2);
        let l = bits_of(w / 2).len();
        lemma_pow2_unfold(l + 1);
        lemma_pow2_unfold(l + 2);
    }
}

/// The number of values in a word, and whether another fits.
proof fn lemma_word_bounds(w: u64)
    requires
        w >= 1,
    ensures
        bits_of(w as nat).len() <= CAPACITY,
        bits_of(w as nat).len() == CAPACITY <==> w >= 0x8000_0000_0000_0000u64,
{
    lemma_bits_len(w as nat);
    let l = bits_of(w as nat).len();
    lemma2_to64();
    lemma2_to64_rest();
    if l > 63 {
        lemma_pow2_strictly_increases(63, l);
        if l > 64 {
            lemma_pow2_strictly_increases(64, l);
        }
    }
    if l < 63 {
        if l + 1 < 63 {
            lemma_pow2_strictly_increases(l + 1, 63);
        }
    }
}

/// A stack of booleans held in one word.
pub struct Stack1 {
    stack: u64,
}

impl View for Stack1 {
    type V = Seq<bool>;

    /// The values on the stack, oldest first and the top last.
    closed spec fn view(&self) -> Seq<bool> {
        bits_of(self.stack as nat)
    }
}

impl Stack1 {
    /// The sentinel is always present.
    pub closed spec fn wf(&self) -> bool {
        self.stack >= 1
    }

    /// An empty stack.
    pub fn new() -> (r: Stack1)
        ensures
            r.wf(),
            r@ == Seq::<bool>::empty(),
            r@.len() <= CAPACITY,
    {
        Stack1 { stack: 1 }
    }

    /// Pushes `value` and hands it back; a full stack is left as it was
    /// and reported as an error.
    pub fn push(&mut self, value: bool) -> (r: Result<bool, String>)
        requires
            old(self).wf(),
        ensures
            final(self).wf(),
            final(self)@.len() <= CAPACITY,
            old(self)@.len() < CAPACITY ==> r == Ok::<bool, String>(value)
                && final(self)@ == old(self)@.push(value),
            old(self)@.len() == CAPACITY ==> final(self)@ == old(self)@
                && (r matches Err(e) && e@ == "Full stack"@),
    {
        proof {
            lemma_word_bounds(self.stack);
        }
        if self.stack >= 0x8000_0000_0000_0000u64 {
            return Err("Full stack".to_owned());
        }
        let w: u64 = self.stack * 2 + if value { 1u64 } else { 0u64 };
        proof {
            assert(w / 2 == self.stack);
            assert((w % 2 == 1) == value);
            assert(bits_of(w as nat) == bits_of(self.stack as nat).push(value));
        }
        self.stack = w;
        Ok(value)
    }

    /// The value on top, or an error on an empty stack.
    pub fn top(&self) -> (r: Result<bool, String>)
        requires
            self.wf(),
        ensures
            self@.len() <= CAPACITY,
            self@.len() == 0 ==> (r matches Err(e) && e@ == "Empty stack"@),
            self@.len() > 0 ==> r == Ok::<bool, String>(self@.last()),
    {
        proof {
            lemma_word_bounds(self.stack);
        }
        if self.stack == 1 {
            return Err("Empty stack".to_owned());
        }
        Ok(self.stack % 2 == 1)
    }

    /// Takes the value off the top, or reports an error on an empty stack
    /// and leaves it as it was.
    pub fn pop(&mut self) -> (r: Result<bool, String>)
        requires
            old(self).wf(),
        ensures
            final(self).wf(),
            final(self)@.len() <= CAPACITY,
            old(self)@.len() == 0 ==> final(self)@ == old(self)@
                && (r matches Err(e) && e@ == "Empty stack"@),
            old(self)@.len() > 0 ==> r == Ok::<bool, String>(old(self)@.last())
                && final(self)@ == old(self)@.drop_last(),
    {
        proof {
            lemma_word_bounds(self.stack);
        }
        if self.stack == 1 {
            return Err("Empty stack".to_owned());
        }
        let result = self.stack % 2 == 1;
        self.stack = self.stack / 2;
        Ok(result)
    }

    /// The number of values on the stack.
    pub fn size(&self) -> (r: u32)
        requires
            self.wf(),
        ensures
            r == self@.len(),
            r <= CAPACITY,
    {
        proof {
            lemma_word_bounds(self.stack);
        }
        let mut w: u64 = self.stack;
        let mut n: u32 = 0;
        while w > 1
            invariant
                w >= 1,
                n + bits_of(w as nat).len() == bits_of(self.stack as nat).len(),
                bits_of(self.stack as nat).len() <= CAPACITY,
            decreases w,
        {
            w = w / 2;
            n = n + 1;
        }
        n
    }
}

/// The stack after pushing each of `pushed` in turn onto `start`, as `push`
/// leaves it while there is room.
pub open spec fn after_pushes(start: Seq<bool>, pushed: Seq<bool>) -> Seq<bool>
    decreases pushed.len(),
{
    if pushed.len() == 0 {
        start
    } else {
        after_pushes(start, pushed.drop_last()).push(pushed.last())
    }
}

/// The values that `n` calls of `pop` return, in turn, from the stack `v`.
pub open spec fn popped_values(v: Seq<bool>, n: nat) -> Seq<bool>
    decreases n,
{
    if n == 0 || v.len() == 0 {
        Seq::empty()
    } else {
        seq![v.last()] + popped_values(v.drop_last(), (n - 1) as nat)
    }
}

/// The stack after `n` calls of `pop` on `v`.
pub open spec fn after_pops(v: Seq<bool>, n: nat) -> Seq<bool>
    decreases n,
{
    if n == 0 || v.len() == 0 {
        v
    } else {
        after_pops(v.drop_last(), (n - 1) as nat)
    }
}

/// Pushing values onto an empty stack and popping as many gives them back
/// in reverse order and leaves the stack empty.
pub proof fn lemma_pops_reverse_pushes(pushed: Seq<bool>)
    requires
        pushed.len() <= CAPACITY,
    ensures
        after_pushes(Seq::empty(), pushed) == pushed,
        popped_values(pushed, pushed.len()) == pushed.reverse(),
        after_pops(pushed, pushed.len()).len() == 0,
    decreases pushed.len(),
{
    if pushed.len() > 0 {
        let rest = pushed.drop_last();
        lemma_pops_reverse_pushes(rest);
        assert(rest.push(pushed.last()) =~= pushed);
        assert(pushed.reverse() =~= seq![pushed.last()] + rest.reverse());
    }
}

} // verus!
