//! The bucket that a date text falls into in a chained hash index: the sum
//! of its character codes, modulo the number of buckets.

use vstd::prelude::*;
use vstd::arithmetic::div_mod::lemma_add_mod_noop;

verus! {

/// The number of buckets of the index.
pub const BUCKETS: usize = 11;

/// The sum of the character codes of `s`.
pub open spec fn code_sum(s: Seq<char>) -> nat
    decreases s.len(),
{
    if s.len() == 0 {
        0
    } else {
        code_sum(s.drop_last()) + s.last() as u32 as nat
    }
}

/// The bucket of `date`: the sum of its character codes modulo `BUCKETS`.
pub fn hash(date: &str) -> (r: usize)
    ensures
        r == code_sum(date@) % (BUCKETS as nat),
        r < BUCKETS,
{
    let mut sum: usize = 0;
    for c in it: date.chars()
        invariant
            it.seq() == date@,
            0 <= it.index() <= date@.len(),
            sum == code_sum(date@.take(it.index())) % (BUCKETS as nat),
    {
        let ghost prev = date@.take(it.index());
        let ghost next = date@.take(it.index() + 1);
        proof {
            assert(next.drop_last() =~= prev);
            assert(next.last() == c);
            lemma_add_mod_noop(code_sum(prev) as int, c as u32 as int, BUCKETS as int);
        }
        let code: u32 = c as u32;
        sum = (sum + (code % 11) as usize) % BUCKETS;
    }
    proof {
        assert(date@.take(date@.len() as int) =~= date@);
    }
    sum
}

/// The bucket of a date text; the same function as [`hash`].
pub fn hashing(text: &str) -> (r: usize)
    ensures
        r == code_sum(text@) % (BUCKETS as nat),
        r < BUCKETS,
{
    hash(text)
}

} // verus!
