//! The segmented sieve: the store of primes found so far and the engine that
//! extends it one window at a time.

use std::collections::HashSet;
use vstd::prelude::*;
use crate::arith::{
    divides,
    lemma_prime_not_divisible,
    is_prime_spec,
    lemma_composite_has_small_prime_divisor,
    lemma_divides_trans,
    lemma_no_multiple_between,
};
use crate::batch::Batch;
use vstd::arithmetic::div_mod::{lemma_fundamental_div_mod, lemma_mod_multiples_basic};

verus! {

broadcast use vstd::std_specs::hash::group_hash_axioms;

/// One mebi.
pub const MB: u64 = 1048576;

/// The window width used by [`Primes::new`].
pub const BATCH_SIZE: u64 = 10 * MB;

/// `s` lists, in strictly increasing order, exactly the primes below `bound`,
/// and `set` holds the same values.
pub open spec fn store_exact(s: Seq<u64>, set: Set<u64>, bound: int) -> bool {
    &&& strictly_increasing(s)
    &&& forall|i: int| 0 <= i < s.len() ==> s[i] < bound && is_prime_spec(#[trigger] s[i] as int)
    &&& forall|v: u64| v < bound && #[trigger] is_prime_spec(v as int) ==> s.contains(v)
    &&& forall|v: u64| #[trigger] set.contains(v) <==> s.contains(v)
}

/// What a call of [`Primes::is_prime`] on `n` that turned `pre` into `post`
/// and returned `r` guarantees: `r` tells whether `n` is prime, the store
/// only grew, just enough windows were sieved, and nothing changed when `n`
/// was already covered.
pub open spec fn is_prime_post(pre: Primes, post: Primes, n: u64, r: bool) -> bool {
    &&& post.wf()
    &&& r == is_prime_spec(n as int)
    &&& post.width() == pre.width()
    &&& n < post.bound()
    &&& pre.bound() <= post.bound()
    &&& pre.primes_ordered@.len() <= post.primes_ordered@.len()
    &&& post.primes_ordered@.subrange(0, pre.primes_ordered@.len() as int) == pre.primes_ordered@
    &&& post.bound() != pre.bound() ==> post.bound() <= n + post.width()
    &&& n < pre.bound() ==> {
        &&& post.bound() == pre.bound()
        &&& post.primes_ordered@ == pre.primes_ordered@
        &&& post.primes_found@ == pre.primes_found@
    }
}

/// The values of `s` increase strictly.
pub open spec fn strictly_increasing(s: Seq<u64>) -> bool {
    forall|i: int, j: int| 0 <= i < j < s.len() ==> s[i] < s[j]
}

/// The values `offset + i` whose marker `m[i]` is set, in increasing `i`.
pub open spec fn marked(m: Seq<bool>, offset: int) -> Seq<u64>
    decreases m.len(),
{
    if m.len() == 0 {
        Seq::empty()
    } else {
        let prev = marked(m.drop_last(), offset);
        if m.last() {
            prev.push((offset + m.len() - 1) as u64)
        } else {
            prev
        }
    }
}

/// The marked values lie in the window, increase strictly, and are exactly
/// those whose marker is set.
pub proof fn lemma_marked(m: Seq<bool>, offset: int)
    requires
        0 <= offset,
        offset + m.len() <= u64::MAX,
    ensures
        strictly_increasing(marked(m, offset)),
        forall|k: int|
            0 <= k < marked(m, offset).len() ==> offset <= #[trigger] marked(m, offset)[k] < offset
                + m.len() && m[marked(m, offset)[k] - offset],
        forall|x: int| 0 <= x < m.len() && #[trigger] m[x] ==> marked(m, offset).contains((offset + x) as u64),
    decreases m.len(),
{
    if m.len() > 0 {
        let p = m.drop_last();
        lemma_marked(p, offset);
        let r = marked(m, offset);
        let q = marked(p, offset);
        assert forall|x: int| 0 <= x < m.len() && #[trigger] m[x] implies r.contains((offset + x) as u64) by {
            if x < p.len() {
                assert(p[x] == m[x]);
                let k = choose|k: int| 0 <= k < q.len() && q[k] == (offset + x) as u64;
                assert(r[k] == q[k]);
            } else {
                assert(r[r.len() - 1] == (offset + x) as u64);
            }
        }
        assert forall|k: int| 0 <= k < r.len() implies offset <= #[trigger] r[k] < offset + m.len()
            && m[r[k] - offset] by {
            if k < q.len() {
                assert(r[k] == q[k]);
                assert(p[q[k] - offset] == m[q[k] - offset]);
            }
        }
    }
}

/// The set of a sequence with one more value.
pub proof fn lemma_to_set_push(s: Seq<u64>, v: u64)
    ensures
        s.push(v).to_set() == s.to_set().insert(v),
{
    assert forall|w: u64| #[trigger] s.push(v).to_set().contains(w) == s.to_set().insert(v).contains(w) by {
        if s.contains(w) {
            let k = choose|k: int| 0 <= k < s.len() && s[k] == w;
            assert(s.push(v)[k] == w);
        }
        if s.push(v).contains(w) {
            let k = choose|k: int| 0 <= k < s.len() + 1 && s.push(v)[k] == w;
            if k < s.len() {
                assert(s[k] == w);
            }
        }
        assert(s.push(v)[s.len() as int] == v);
    }
    assert(s.push(v).to_set() =~= s.to_set().insert(v));
}

/// The set of two sequences joined.
pub proof fn lemma_to_set_concat(a: Seq<u64>, b: Seq<u64>)
    ensures
        (a + b).to_set() == a.to_set().union(b.to_set()),
{
    assert forall|w: u64| #[trigger] (a + b).to_set().contains(w) == a.to_set().union(b.to_set()).contains(w) by {
        if a.contains(w) {
            let k = choose|k: int| 0 <= k < a.len() && a[k] == w;
            assert((a + b)[k] == w);
        }
        if b.contains(w) {
            let k = choose|k: int| 0 <= k < b.len() && b[k] == w;
            assert((a + b)[a.len() + k] == w);
        }
        if (a + b).contains(w) {
            let k = choose|k: int| 0 <= k < a.len() + b.len() && (a + b)[k] == w;
            if k < a.len() {
                assert(a[k] == w);
            } else {
                assert(b[k - a.len()] == w);
            }
        }
    }
    assert((a + b).to_set() =~= a.to_set().union(b.to_set()));
}

/// `x` is at least 2 and no value in `[2, i)` below `x` divides it.
pub open spec fn sieved_below(x: int, i: int) -> bool {
    x >= 2 && forall|d: int| 2 <= d < i && d < x ==> !#[trigger] divides(d, x)
}

/// No prime among the first `j` entries of `s` divides `v`.
pub open spec fn coprime_to_prefix(v: int, s: Seq<u64>, j: int) -> bool {
    forall|k: int| 0 <= k < j ==> !#[trigger] divides(s[k] as int, v)
}

/// Finds and keeps every prime below the end of the window sieved last.
///
/// Primes are found window by window: the first window is sieved from
/// scratch, each later one with the primes of the windows before it.
pub struct Primes {
    /// One marker per value of the current window: still possibly prime.
    pub inner_slice: Vec<bool>,
    /// The window sieved last.
    pub batch: Batch,
    /// The primes found so far, for membership tests.
    pub primes_found: HashSet<u64>,
    /// The primes found so far, in increasing order.
    pub primes_ordered: Vec<u64>,
}

impl Primes {
    /// One past the largest value sieved so far.
    pub open spec fn bound(&self) -> int {
        self.batch.upper()
    }

    /// The width of every window.
    pub open spec fn width(&self) -> int {
        self.batch.size as int
    }

    /// The window bookkeeping and the marker array agree.
    pub open spec fn engine_wf(&self) -> bool {
        &&& self.batch.wf()
        &&& self.batch.size >= 2
        &&& self.inner_slice@.len() == self.batch.size
        &&& self.bound() <= u64::MAX
    }

    /// The store holds exactly the primes below `bound()`, in order.
    pub open spec fn wf(&self) -> bool {
        &&& self.engine_wf()
        &&& self.bound() >= self.width()
        &&& store_exact(self.primes_ordered@, self.primes_found@, self.bound())
    }

    /// A sieve with windows of `batch_size` values, whose first window
    /// `[0, batch_size)` is already sieved.
    pub fn with_batch_size(batch_size: u64) -> (s: Primes)
        requires
            2 <= batch_size,
            batch_size <= isize::MAX,
        ensures
            s.wf(),
            s.width() == batch_size,
            s.bound() == batch_size,
            s.batch.current == 0,
    {
        let mut s = Primes {
            inner_slice: vec![true; batch_size as usize],
            primes_found: HashSet::new(),
            primes_ordered: Vec::new(),
            batch: Batch::new(batch_size),
        };
        s.populate_first_batch();
        s.save_primes();
        s
    }

    /// Sieves the window that follows the current one with every prime found
    /// so far, and records the primes of that window.
    ///
    /// All primes below the new window are known at that point, and every
    /// composite value of the window has a prime factor of at most half its
    /// size, which lies below the window: so the width never makes the result
    /// wrong. Each call costs one full pass over a window.
    pub fn populate_next_batch(&mut self)
        requires
            old(self).wf(),
            old(self).bound() + old(self).width() <= u64::MAX,
        ensures
            final(self).wf(),
            final(self).width() == old(self).width(),
            final(self).bound() == old(self).bound() + old(self).width(),
            final(self).batch.current == old(self).batch.current + 1,
            old(self).primes_ordered@.len() <= final(self).primes_ordered@.len(),
            final(self).primes_ordered@.subrange(0, old(self).primes_ordered@.len() as int)
                == old(self).primes_ordered@,
    {
        self.batch.advance();
        let size: usize = self.inner_slice.len();
        let offset: u64 = self.batch.offset;
        proof {
            assert(self.batch.current * self.batch.size >= self.batch.size) by (nonlinear_arith)
                requires
                    self.batch.current >= 1,
                    self.batch.size >= 2,
            ;
        }
        let mut i: usize = 0;
        while i < size
            invariant
                0 <= i <= size,
                size == self.inner_slice@.len(),
                size == self.batch.size,
                offset == self.batch.offset,
                self.batch.wf(),
                self.batch.current == old(self).batch.current + 1,
                self.primes_ordered@ == old(self).primes_ordered@,
                self.primes_found@ == old(self).primes_found@,
                forall|x: int| 0 <= x < i ==> #[trigger] self.inner_slice@[x],
            decreases size - i,
        {
            self.inner_slice[i] = true;
            i = i + 1;
        }
        let n: usize = self.primes_ordered.len();
        let mut j: usize = 0;
        while j < n
            invariant
                0 <= j <= n,
                n == self.primes_ordered@.len(),
                size == self.inner_slice@.len(),
                size == self.batch.size,
                size >= 2,
                offset == self.batch.offset,
                self.batch.wf(),
                self.batch.current == old(self).batch.current + 1,
                self.primes_ordered@ == old(self).primes_ordered@,
                self.primes_found@ == old(self).primes_found@,
                offset >= size,
                offset + size <= u64::MAX,
                store_exact(self.primes_ordered@, self.primes_found@, offset as int),
                forall|x: int|
                    0 <= x < size ==> #[trigger] self.inner_slice@[x] == coprime_to_prefix(
                        offset + x,
                        self.primes_ordered@,
                        j as int,
                    ),
            decreases n - j,
        {
            let p: u64 = self.primes_ordered[j];
            let ghost s = self.primes_ordered@;
            assert(is_prime_spec(s[j as int] as int));
            let r: u64 = offset % p;
            let mut idx: u64 = if r == 0 { 0 } else { p - r };
            proof {
                let q = offset as int / p as int;
                lemma_fundamental_div_mod(offset as int, p as int);
                if r == 0 {
                } else {
                    assert(offset + idx == (q + 1) * p) by (nonlinear_arith)
                        requires
                            offset == p * q + r,
                            idx == p - r,
                    ;
                    lemma_mod_multiples_basic(q + 1, p as int);
                    lemma_mod_multiples_basic(q, p as int);
                    assert(p * q == q * p) by (nonlinear_arith);
                    assert forall|x: int| 0 <= x < idx implies !#[trigger] divides(p as int, offset + x) by {
                        lemma_no_multiple_between(q * p, r + x, p as int);
                    }
                }
            }
            while idx < size as u64
                invariant
                    2 <= p < offset,
                    0 <= j < n,
                    n == s.len(),
                    p == s[j as int],
                    s == self.primes_ordered@,
                    size == self.batch.size,
                    offset == self.batch.offset,
                    self.batch.wf(),
                    self.batch.current == old(self).batch.current + 1,
                    self.primes_ordered@ == old(self).primes_ordered@,
                    self.primes_found@ == old(self).primes_found@,
                    store_exact(self.primes_ordered@, self.primes_found@, offset as int),
                    divides(p as int, offset + idx),
                    idx <= size + p,
                    size == self.inner_slice@.len(),
                    offset + size <= u64::MAX,
                    forall|x: int|
                        0 <= x < size ==> #[trigger] self.inner_slice@[x] == (coprime_to_prefix(
                            offset + x,
                            s,
                            j as int,
                        ) && !(divides(p as int, offset + x) && x < idx)),
                decreases size + p - idx,
            {
                self.inner_slice[idx as usize] = false;
                proof {
                    let t = offset + idx;
                    assert forall|x: int| idx < x < idx + p implies !#[trigger] divides(p as int, offset + x) by {
                        lemma_no_multiple_between(t, x - idx, p as int);
                    }
                    let q = t / p as int;
                    lemma_fundamental_div_mod(t, p as int);
                    assert(t + p == (q + 1) * p) by (nonlinear_arith)
                        requires
                            t == p * q + 0,
                    ;
                    lemma_mod_multiples_basic(q + 1, p as int);
                }
                idx = idx + p;
            }
            j = j + 1;
        }
        proof {
            let s = self.primes_ordered@;
            assert forall|x: int| 0 <= x < size implies #[trigger] self.inner_slice@[x]
                == is_prime_spec(offset + x) by {
                let v = offset + x;
                if is_prime_spec(v) {
                    assert forall|k: int| 0 <= k < n implies !#[trigger] divides(s[k] as int, v) by {
                        assert(is_prime_spec(s[k] as int));
                        lemma_prime_not_divisible(v, s[k] as int);
                    }
                } else {
                    let q = lemma_composite_has_small_prime_divisor(v);
                    let w = q as u64;
                    assert(is_prime_spec(w as int));
                    assert(s.contains(w));
                    let k = choose|k: int| 0 <= k < s.len() && s[k] == w;
                    assert(divides(s[k] as int, v));
                }
            }
        }
        self.save_primes();
    }

    /// A sieve with windows of [`BATCH_SIZE`] values, whose first window is
    /// already sieved.
    pub fn new() -> (s: Primes)
        ensures
            s.wf(),
            s.width() == BATCH_SIZE,
            s.bound() == BATCH_SIZE,
    {
        Self::with_batch_size(BATCH_SIZE)
    }

    /// Whether `n` is prime. Windows are sieved, each with the width this
    /// sieve was built with, until `n` lies below the end of the last one;
    /// a value already covered costs no sieving at all.
    pub fn is_prime(&mut self, n: u64) -> (r: bool)
        requires
            old(self).wf(),
            n + old(self).width() <= u64::MAX,
        ensures
            is_prime_post(*old(self), *final(self), n, r),
    {
        while n >= self.batch.offset + self.batch.size
            invariant
                self.wf(),
                self.width() == old(self).width(),
                n + self.width() <= u64::MAX,
                old(self).bound() <= self.bound(),
                old(self).primes_ordered@.len() <= self.primes_ordered@.len(),
                self.primes_ordered@.subrange(0, old(self).primes_ordered@.len() as int)
                    == old(self).primes_ordered@,
                self.bound() == old(self).bound() ==> {
                    &&& self.primes_ordered@ == old(self).primes_ordered@
                    &&& self.primes_found@ == old(self).primes_found@
                },
                self.bound() != old(self).bound() ==> self.bound() <= n + self.width(),
                n < old(self).bound() ==> self.bound() == old(self).bound(),
            decreases n + self.width() - self.bound(),
        {
            let ghost before = self.primes_ordered@;
            self.populate_next_batch();
            proof {
                let k = old(self).primes_ordered@.len() as int;
                assert(self.primes_ordered@.subrange(0, k) =~= before.subrange(0, k));
            }
        }
        let r = self.primes_found.contains(&n);
        proof {
            let s = self.primes_ordered@;
            if s.contains(n) {
                let k = choose|k: int| 0 <= k < s.len() && s[k] == n;
                assert(is_prime_spec(s[k] as int));
            }
        }
        r
    }

    /// The set of primes found so far, as it stands: it holds exactly the
    /// primes below `bound()`.
    pub fn primes_found_set(&self) -> (r: &HashSet<u64>)
        ensures
            r@ == self.primes_found@,
    {
        &self.primes_found
    }

    /// Records the values of the current window whose marker is set, in
    /// increasing order, in both views of the store within the same step.
    fn save_primes(&mut self)
        requires
            old(self).inner_slice@.len() == old(self).batch.size,
            old(self).batch.offset + old(self).batch.size <= u64::MAX,
        ensures
            final(self).batch == old(self).batch,
            final(self).inner_slice@ == old(self).inner_slice@,
            final(self).primes_ordered@ == old(self).primes_ordered@ + marked(
                old(self).inner_slice@,
                old(self).batch.offset as int,
            ),
            final(self).primes_found@ == old(self).primes_found@.union(
                marked(old(self).inner_slice@, old(self).batch.offset as int).to_set(),
            ),
            strictly_increasing(old(self).primes_ordered@) && (forall|k: int|
                0 <= k < old(self).primes_ordered@.len() ==> #[trigger] old(self).primes_ordered@[k]
                    < old(self).batch.offset) ==> strictly_increasing(final(self).primes_ordered@),
            old(self).primes_found@ == old(self).primes_ordered@.to_set()
                ==> final(self).primes_found@ == final(self).primes_ordered@.to_set(),
            store_exact(
                old(self).primes_ordered@,
                old(self).primes_found@,
                old(self).batch.offset as int,
            ) && (forall|x: int|
                0 <= x < old(self).inner_slice@.len() ==> #[trigger] old(self).inner_slice@[x]
                    == is_prime_spec(old(self).batch.offset + x)) ==> store_exact(
                final(self).primes_ordered@,
                final(self).primes_found@,
                old(self).batch.upper(),
            ),
    {
        let size: usize = self.inner_slice.len();
        let offset: u64 = self.batch.offset;
        let ghost m = self.inner_slice@;
        let ghost s0 = self.primes_ordered@;
        let ghost f0 = self.primes_found@;
        let mut i: usize = 0;
        while i < size
            invariant
                0 <= i <= size,
                size == m.len(),
                m == self.inner_slice@,
                offset == self.batch.offset,
                offset + size <= u64::MAX,
                self.batch == old(self).batch,
                s0 == old(self).primes_ordered@,
                f0 == old(self).primes_found@,
                m == old(self).inner_slice@,
                self.primes_ordered@ == s0 + marked(m.subrange(0, i as int), offset as int),
                self.primes_found@ == f0.union(
                    marked(m.subrange(0, i as int), offset as int).to_set(),
                ),
            decreases size - i,
        {
            let ghost before = marked(m.subrange(0, i as int), offset as int);
            assert(m.subrange(0, i + 1).drop_last() =~= m.subrange(0, i as int));
            if self.inner_slice[i] {
                let v: u64 = offset + i as u64;
                self.primes_ordered.push(v);
                self.primes_found.insert(v);
                proof {
                    let after = marked(m.subrange(0, i + 1), offset as int);
                    assert(after == before.push(v));
                    assert(self.primes_ordered@ =~= s0 + after);
                    lemma_to_set_push(before, v);
                    assert(self.primes_found@ =~= f0.union(after.to_set()));
                }
            }
            i = i + 1;
        }
        proof {
            assert(m.subrange(0, size as int) =~= m);
            let r = marked(m, offset as int);
            lemma_marked(m, offset as int);
            lemma_to_set_concat(s0, r);
            let s = self.primes_ordered@;
            if strictly_increasing(s0) && (forall|k: int| 0 <= k < s0.len() ==> #[trigger] s0[k] < offset) {
                assert forall|a: int, b: int| 0 <= a < b < s.len() implies s[a] < s[b] by {
                    if b >= s0.len() && a < s0.len() {
                        assert(s0[a] < offset);
                        assert(r[b - s0.len()] >= offset);
                    } else if a >= s0.len() {
                        assert(r[a - s0.len()] < r[b - s0.len()]);
                    }
                }
            }
            if store_exact(s0, f0, offset as int) && (forall|x: int|
                0 <= x < m.len() ==> #[trigger] m[x] == is_prime_spec(offset + x)) {
                assert(strictly_increasing(s0));
                assert forall|k: int| 0 <= k < s0.len() implies #[trigger] s0[k] < offset by {
                    assert(s0[k] < offset && is_prime_spec(s0[k] as int));
                }
                assert(strictly_increasing(s));
                assert forall|k: int| 0 <= k < s.len() implies s[k] < offset + size
                    && is_prime_spec(#[trigger] s[k] as int) by {
                    if k >= s0.len() {
                        let x = r[k - s0.len()] - offset;
                        assert(m[x]);
                    } else {
                        assert(s0[k] == s[k]);
                    }
                }
                assert forall|w: u64| w < offset + size && #[trigger] is_prime_spec(w as int)
                    implies s.contains(w) by {
                    if w < offset {
                        let k = choose|k: int| 0 <= k < s0.len() && s0[k] == w;
                        assert(s[k] == w);
                    } else {
                        assert(m[w - offset]);
                        assert(r.contains(w));
                        let k = choose|k: int| 0 <= k < r.len() && r[k] == w;
                        assert(s[s0.len() + k] == w);
                    }
                }
                assert(f0 =~= s0.to_set());
                assert forall|w: u64| #[trigger] self.primes_found@.contains(w) <==> s.contains(w) by {
                    assert(s.to_set().contains(w) == s.contains(w));
                }
            }
        }
    }

    /// Sieves the first window `[0, width)` from scratch in the marker array:
    /// markers 0 and 1 are cleared, then every multiple `2i, 3i, ...` of an
    /// index `i` still marked. On a fresh array (all markers set) a marker is
    /// then set exactly where its index is prime. Nothing else changes.
    fn populate_first_batch(&mut self)
        requires
            old(self).inner_slice@.len() >= 2,
        ensures
            final(self).batch == old(self).batch,
            final(self).primes_found@ == old(self).primes_found@,
            final(self).primes_ordered@ == old(self).primes_ordered@,
            final(self).inner_slice@.len() == old(self).inner_slice@.len(),
            (forall|x: int| 0 <= x < old(self).inner_slice@.len() ==> #[trigger] old(self).inner_slice@[x])
                ==> forall|x: int|
                0 <= x < final(self).inner_slice@.len() ==> #[trigger] final(self).inner_slice@[x]
                    == is_prime_spec(x),
    {
        let ghost fresh: bool = forall|x: int|
            0 <= x < old(self).inner_slice@.len() ==> #[trigger] old(self).inner_slice@[x];
        let size: usize = self.inner_slice.len();
        self.inner_slice[0] = false;
        self.inner_slice[1] = false;
        let mut i: usize = 2;
        while i < size
            invariant
                2 <= i <= size,
                size == self.inner_slice@.len(),
                self.batch == old(self).batch,
                self.primes_found@ == old(self).primes_found@,
                self.primes_ordered@ == old(self).primes_ordered@,
                fresh ==> forall|x: int|
                    0 <= x < size ==> #[trigger] self.inner_slice@[x] == sieved_below(x, i as int),
            decreases size - i,
        {
            if self.inner_slice[i] {
                let mut tmp: usize = if i <= size - i { i + i } else { size };
                proof {
                    lemma_mod_multiples_basic(2, i as int);
                    lemma_mod_multiples_basic(1, i as int);
                    assert forall|x: int| i < x < tmp implies !divides(i as int, x) by {
                        lemma_no_multiple_between(i as int, x - i, i as int);
                    }
                }
                while tmp < size
                    invariant
                        2 <= i < tmp <= size,
                        tmp < size ==> divides(i as int, tmp as int),
                        size == self.inner_slice@.len(),
                        self.batch == old(self).batch,
                        self.primes_found@ == old(self).primes_found@,
                        self.primes_ordered@ == old(self).primes_ordered@,
                        fresh ==> forall|x: int| 0 <= x < size ==> #[trigger] self.inner_slice@[x] == (
                            sieved_below(x, i as int) && !(divides(i as int, x) && i < x < tmp)),
                    decreases size - tmp,
                {
                    self.inner_slice[tmp] = false;
                    proof {
                        assert forall|x: int| tmp < x < tmp + i implies !divides(i as int, x) by {
                            lemma_no_multiple_between(tmp as int, x - tmp, i as int);
                        }
                        let q = tmp as int / i as int;
                        lemma_fundamental_div_mod(tmp as int, i as int);
                        assert(tmp + i == (q + 1) * i) by (nonlinear_arith)
                            requires
                                tmp == i * q + 0,
                        ;
                        lemma_mod_multiples_basic(q + 1, i as int);
                    }
                    if size - tmp <= i {
                        tmp = size;
                    } else {
                        tmp = tmp + i;
                    }
                }
                proof {
                    if fresh {
                        assert forall|x: int| 0 <= x < size implies #[trigger] self.inner_slice@[x]
                            == sieved_below(x, i + 1) by {
                            if sieved_below(x, i as int) && divides(i as int, x) && i < x {
                                assert(!sieved_below(x, i + 1));
                            }
                        }
                    }
                }
            } else {
                proof {
                    if fresh {
                        assert forall|x: int| 0 <= x < size implies #[trigger] self.inner_slice@[x]
                            == sieved_below(x, i + 1) by {
                            if sieved_below(x, i as int) && divides(i as int, x) && i < x {
                                let d = choose|d: int| 2 <= d < i && d < i && #[trigger] divides(d, i as int);
                                lemma_divides_trans(d, i as int, x);
                            }
                        }
                    }
                }
            }
            i = i + 1;
        }
        proof {
            if fresh {
                assert forall|x: int| 0 <= x < size implies #[trigger] self.inner_slice@[x]
                    == is_prime_spec(x) by {
                    if sieved_below(x, size as int) {
                        assert forall|d: int| 2 <= d < x implies !#[trigger] divides(d, x) by {
                            assert(d < size);
                        }
                    }
                }
            }
        }
    }
}

/// Neither 0 nor 1 is reported prime, nor ever held in the membership set.
pub proof fn lemma_zero_and_one_not_prime(pre: Primes, post: Primes, n: u64, r: bool)
    requires
        is_prime_post(pre, post, n, r),
        n <= 1,
    ensures
        !r,
        !post.primes_found@.contains(n),
{
    let s = post.primes_ordered@;
    if s.contains(n) {
        let k = choose|k: int| 0 <= k < s.len() && s[k] == n;
        assert(is_prime_spec(s[k] as int));
    }
}

/// Every recorded value agrees with trial division: it is at least 2, no
/// prime recorded before it divides it, and no value from 2 up to its square
/// root divides it.
pub proof fn lemma_store_matches_trial_division(s: Primes)
    requires
        s.wf(),
    ensures
        forall|j: int| 0 <= j < s.primes_ordered@.len() ==> #[trigger] s.primes_ordered@[j] >= 2,
        forall|i: int, j: int|
            0 <= i < j < s.primes_ordered@.len() ==> !#[trigger] divides(
                s.primes_ordered@[i] as int,
                s.primes_ordered@[j] as int,
            ),
        forall|j: int, d: int|
            0 <= j < s.primes_ordered@.len() && 2 <= d && d * d <= s.primes_ordered@[j]
                ==> !#[trigger] divides(d, s.primes_ordered@[j] as int),
{
    let q = s.primes_ordered@;
    assert forall|j: int| 0 <= j < q.len() implies #[trigger] q[j] >= 2 by {
        assert(is_prime_spec(q[j] as int));
    }
    assert forall|i: int, j: int| 0 <= i < j < q.len() implies !#[trigger] divides(
        q[i] as int,
        q[j] as int,
    ) by {
        assert(is_prime_spec(q[j] as int));
        assert(is_prime_spec(q[i] as int));
        lemma_prime_not_divisible(q[j] as int, q[i] as int);
    }
    assert forall|j: int, d: int| 0 <= j < q.len() && 2 <= d && d * d <= q[j] implies !#[trigger] divides(
        d,
        q[j] as int,
    ) by {
        let v = q[j] as int;
        assert(is_prime_spec(v));
        assert(d < v) by (nonlinear_arith)
            requires
                2 <= d,
                d * d <= v,
        ;
        lemma_prime_not_divisible(v, d);
    }
}

/// Asking twice about the same value gives the same answer, and the second
/// call sieves nothing: the store and the sieved range stay as they were.
pub proof fn lemma_is_prime_idempotent(
    a: Primes,
    b: Primes,
    c: Primes,
    n: u64,
    r1: bool,
    r2: bool,
)
    requires
        is_prime_post(a, b, n, r1),
        is_prime_post(b, c, n, r2),
    ensures
        r1 == r2,
        c.bound() == b.bound(),
        c.primes_ordered@ == b.primes_ordered@,
        c.primes_found@ == b.primes_found@,
{
}

/// After `is_prime(v)`, the membership set holds every prime up to `v`, with
/// no further call.
pub proof fn lemma_set_covers_queried_range(pre: Primes, post: Primes, v: u64, r: bool)
    requires
        is_prime_post(pre, post, v, r),
    ensures
        forall|w: u64| w <= v && is_prime_spec(w as int) ==> #[trigger] post.primes_found@.contains(w),
{
}

} // verus!
