//! The lazy, unbounded sequence of primes in increasing order.

use vstd::prelude::*;
use crate::arith::is_prime_spec;
use crate::sieve::Primes;

verus! {

/// A cursor over the primes of a [`Primes`] store, in increasing order.
///
/// When the cursor reaches the end of what is known, the next window is
/// sieved: a step may cost a full window's sieve. The sequence ends only when
/// the next window would pass `u64::MAX`.
pub struct PrimesIterator<'a> {
    /// The store read from and extended.
    pub primes: &'a mut Primes,
    /// The position of the next prime to hand out.
    pub current: usize,
}

/// What a step of a cursor guarantees, from store `pre` at position `i` to
/// store `post` at position `j`, having produced `r`: the store only grew,
/// and not at all when position `i` was already in it; when windows were
/// added, the last window before the final one held no prime at or after `i`
/// (so no window was sieved beyond need); and either the prime at position `i` came out and the cursor moved past it, or
/// nothing is left below `u64::MAX` and the cursor stayed.
pub open spec fn next_post(pre: Primes, i: int, post: Primes, j: int, r: Option<u64>) -> bool {
    &&& post.wf()
    &&& post.width() == pre.width()
    &&& pre.bound() <= post.bound()
    &&& pre.primes_ordered@.len() <= post.primes_ordered@.len()
    &&& post.primes_ordered@.subrange(0, pre.primes_ordered@.len() as int) == pre.primes_ordered@
    &&& i < pre.primes_ordered@.len() ==> post == pre
    &&& post.bound() != pre.bound() ==> forall|k: int|
        0 <= k < post.primes_ordered@.len() && #[trigger] post.primes_ordered@[k] < post.bound()
            - post.width() ==> k < i
    &&& match r {
        Some(p) => {
            &&& i < post.primes_ordered@.len()
            &&& p == post.primes_ordered@[i]
            &&& j == i + 1
        },
        None => {
            &&& j == i
            &&& post.primes_ordered@.len() <= i
            &&& post.bound() + post.width() > u64::MAX
        },
    }
}

impl Primes {
    /// A cursor at the first prime.
    pub fn iter(&mut self) -> (it: PrimesIterator<'_>)
        ensures
            *it.primes == *old(self),
            *final(self) == *final(it.primes),
            it.current == 0,
    {
        PrimesIterator { primes: self, current: 0 }
    }
}

impl<'a> PrimesIterator<'a> {
    /// The store is well formed and the cursor lies within it.
    pub open spec fn wf(&self) -> bool {
        &&& self.primes.wf()
        &&& self.current <= self.primes.primes_ordered@.len()
    }

    /// The next prime, sieving further windows while the cursor is past the
    /// end of the store; `None` once the next window would pass `u64::MAX`.
    pub fn next(&mut self) -> (r: Option<u64>)
        requires
            old(self).wf(),
        ensures
            final(self).wf(),
            next_post(
                *old(self).primes,
                old(self).current as int,
                *final(self).primes,
                final(self).current as int,
                r,
            ),
    {
        while self.current >= self.primes.primes_ordered.len()
            invariant
                self.primes.wf(),
                self.current == old(self).current,
                self.current <= self.primes.primes_ordered@.len(),
                self.primes.width() == old(self).primes.width(),
                old(self).primes.bound() <= self.primes.bound(),
                old(self).primes.primes_ordered@.len() <= self.primes.primes_ordered@.len(),
                self.primes.primes_ordered@.subrange(0, old(self).primes.primes_ordered@.len() as int)
                    == old(self).primes.primes_ordered@,
                old(self).current < old(self).primes.primes_ordered@.len() ==> *self.primes
                    == *old(self).primes,
                self.primes.bound() != old(self).primes.bound() ==> forall|k: int|
                    0 <= k < self.primes.primes_ordered@.len()
                        && #[trigger] self.primes.primes_ordered@[k] < self.primes.bound()
                        - self.primes.width() ==> k < self.current,
            decreases u64::MAX - self.primes.bound(),
        {
            if self.primes.batch.offset + self.primes.batch.size > u64::MAX - self.primes.batch.size {
                return None;
            }
            let ghost before = self.primes.primes_ordered@;
            let ghost prev_bound = self.primes.bound();
            self.primes.populate_next_batch();
            proof {
                let k = old(self).primes.primes_ordered@.len() as int;
                assert(self.primes.primes_ordered@.subrange(0, k) =~= before.subrange(0, k));
                let s = self.primes.primes_ordered@;
                assert forall|k: int|
                    0 <= k < s.len() && #[trigger] s[k] < self.primes.bound() - self.primes.width()
                    implies k < self.current by {
                    assert(is_prime_spec(s[k] as int));
                    assert(s[k] < prev_bound);
                    assert(before.contains(s[k]));
                    let k2 = choose|k2: int| 0 <= k2 < before.len() && before[k2] == s[k];
                    assert(s.subrange(0, before.len() as int)[k2] == s[k2]);
                    assert(s[k2] == s[k]);
                    if k2 < k {
                        assert(s[k2] < s[k]);
                    } else if k < k2 {
                        assert(s[k] < s[k2]);
                    }
                }
            }
        }
        let p = self.primes.primes_ordered[self.current];
        self.current = self.current + 1;
        Some(p)
    }

    /// The next `n` primes, fewer only when the sequence ends first.
    pub fn take(&mut self, n: usize) -> (r: Vec<u64>)
        requires
            old(self).wf(),
        ensures
            final(self).wf(),
            final(self).primes.width() == old(self).primes.width(),
            r@.len() <= n,
            final(self).current == old(self).current + r@.len(),
            final(self).primes.primes_ordered@.subrange(
                old(self).current as int,
                final(self).current as int,
            ) == r@,
            final(self).primes.primes_ordered@.subrange(
                0,
                old(self).primes.primes_ordered@.len() as int,
            ) == old(self).primes.primes_ordered@,
            r@.len() < n ==> final(self).primes.bound() + final(self).primes.width() > u64::MAX,
            r@.len() < n ==> final(self).primes.primes_ordered@.len() <= final(self).current,
    {
        let mut r: Vec<u64> = Vec::new();
        while r.len() < n
            invariant
                self.wf(),
                r@.len() <= n,
                self.primes.width() == old(self).primes.width(),
                self.current == old(self).current + r@.len(),
                old(self).primes.primes_ordered@.len() <= self.primes.primes_ordered@.len(),
                self.primes.primes_ordered@.subrange(old(self).current as int, self.current as int)
                    == r@,
                self.primes.primes_ordered@.subrange(
                    0,
                    old(self).primes.primes_ordered@.len() as int,
                ) == old(self).primes.primes_ordered@,
            decreases n - r@.len(),
        {
            let ghost before = self.primes.primes_ordered@;
            let ghost r0 = r@;
            match self.next() {
                Some(p) => {
                    r.push(p);
                    proof {
                        let s = self.primes.primes_ordered@;
                        let k = old(self).primes.primes_ordered@.len() as int;
                        assert(s.subrange(0, before.len() as int) == before);
                        assert(s.subrange(0, k) =~= before.subrange(0, k));
                        assert(s.subrange(old(self).current as int, self.current as int)
                            =~= before.subrange(old(self).current as int, self.current - 1).push(p));
                    }
                },
                None => {
                    return r;
                },
            }
        }
        r
    }
}

/// Two consecutive steps of a cursor produce strictly increasing primes, so
/// the sequence holds no value twice.
pub proof fn lemma_sequence_increasing(
    a: Primes,
    i: int,
    b: Primes,
    j: int,
    c: Primes,
    k: int,
    p1: u64,
    p2: u64,
)
    requires
        0 <= i,
        next_post(a, i, b, j, Some(p1)),
        next_post(b, j, c, k, Some(p2)),
    ensures
        p1 < p2,
        is_prime_spec(p1 as int),
        is_prime_spec(p2 as int),
{
    let s = c.primes_ordered@;
    assert(s.subrange(0, b.primes_ordered@.len() as int)[i] == s[i]);
    assert(b.primes_ordered@[i] == s[i]);
}

} // verus!
