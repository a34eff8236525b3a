//! Open-addressing probe strategies.
//!
//! A probe strategy maps a hash and an attempt number to a slot position of a
//! table of a given capacity.  Besides the position function itself, a
//! strategy must guarantee enough *distinct* positions among its first
//! attempts: the table engine relies on that guarantee to show that an
//! insertion always finds a free slot once the table has grown far enough,
//! which in turn bounds the grow-and-retry loop of `insert`.

use vstd::prelude::*;

verus! {

use vstd::arithmetic::div_mod::lemma_fundamental_div_mod;

/// A probing policy for an open-addressing table.
///
/// `probe_spec(hash, attempt, cap)` is the slot (always below `cap`) examined
/// at the given attempt.  `distinct_attempts(cap)` counts how many initial
/// attempts are guaranteed to examine pairwise different slots, and
/// `capacity_for(n)` names a capacity at which at least `n` attempts are
/// pairwise distinct.  The proof obligations tie the three together; they are
/// what makes insertion provably terminate.
pub trait Probing: Sized {
    /// The slot examined at `attempt` for `hash`, in a table of `cap` slots.
    spec fn probe_spec(&self, hash: u64, attempt: nat, cap: nat) -> nat;

    /// How many initial attempts examine pairwise distinct slots at `cap`.
    spec fn distinct_attempts(&self, cap: nat) -> nat;

    /// A capacity large enough that `count` attempts are pairwise distinct.
    spec fn capacity_for(&self, count: nat) -> nat;

    /// Probed slots lie inside the table.
    proof fn lemma_in_range(&self, hash: u64, attempt: nat, cap: nat)
        requires
            cap >= 1,
        ensures
            self.probe_spec(hash, attempt, cap) < cap,
    ;

    /// The first `distinct_attempts(cap)` attempts examine distinct slots.
    proof fn lemma_distinct(&self, hash: u64, cap: nat, i: nat, j: nat)
        requires
            cap >= 1,
            i < j < self.distinct_attempts(cap),
        ensures
            self.probe_spec(hash, i, cap) != self.probe_spec(hash, j, cap),
    ;

    /// Distinct attempts never outnumber the slots.
    proof fn lemma_distinct_within_cap(&self, cap: nat)
        ensures
            self.distinct_attempts(cap) <= cap,
    ;

    /// `capacity_for` delivers what it promises.
    proof fn lemma_capacity_for(&self, count: nat, cap: nat)
        requires
            cap >= self.capacity_for(count),
        ensures
            self.distinct_attempts(cap) >= count,
    ;

    /// Larger demands never ask for a smaller capacity.
    proof fn lemma_capacity_for_monotonic(&self, c1: nat, c2: nat)
        requires
            c1 <= c2,
        ensures
            self.capacity_for(c1) <= self.capacity_for(c2),
    ;

    /// Executable form of `probe_spec`.
    fn probe(&self, hash: u64, attempt: usize, cap: usize) -> (p: usize)
        requires
            1 <= cap,
        ensures
            p as nat == self.probe_spec(hash, attempt as nat, cap as nat),
            p < cap,
    ;
}

/// Integer square root, used to count the distinct attempts of quadratic
/// probing: the offsets `i + i*i` for `i` below `isqrt(cap)` all lie below
/// `cap` and are therefore pairwise distinct modulo `cap`.
pub open spec fn isqrt(n: nat) -> nat
    decreases n,
{
    if n == 0 {
        0
    } else {
        let r = isqrt((n - 1) as nat);
        if (r + 1) * (r + 1) <= n {
            r + 1
        } else {
            r
        }
    }
}

pub proof fn lemma_isqrt(n: nat)
    ensures
        isqrt(n) * isqrt(n) <= n,
        n < (isqrt(n) + 1) * (isqrt(n) + 1),
        isqrt(n) <= n,
    decreases n,
{
    if n == 0 {
        assert(isqrt(n) == 0);
        assert(isqrt(n) * isqrt(n) == 0) by (nonlinear_arith)
            requires
                isqrt(n) == 0,
        ;
        assert((isqrt(n) + 1) * (isqrt(n) + 1) == 1) by (nonlinear_arith)
            requires
                isqrt(n) == 0,
        ;
    } else {
        let r = isqrt((n - 1) as nat);
        lemma_isqrt((n - 1) as nat);
        if (r + 1) * (r + 1) <= n {
            assert(isqrt(n) == r + 1);
            assert((r + 1) * (r + 1) < (r + 2) * (r + 2)) by (nonlinear_arith);
            assert(n <= (r + 1) * (r + 1));
            assert(isqrt(n) * isqrt(n) <= n) by (nonlinear_arith)
                requires
                    isqrt(n) == r + 1,
                    (r + 1) * (r + 1) <= n,
            ;
            assert(n < (isqrt(n) + 1) * (isqrt(n) + 1)) by (nonlinear_arith)
                requires
                    isqrt(n) == r + 1,
                    n < (r + 2) * (r + 2),
            ;
        } else {
            assert(isqrt(n) == r);
            assert(isqrt(n) * isqrt(n) <= n) by (nonlinear_arith)
                requires
                    isqrt(n) == r,
                    r * r <= n - 1,
                    n >= 1,
            ;
            assert(n < (isqrt(n) + 1) * (isqrt(n) + 1)) by (nonlinear_arith)
                requires
                    isqrt(n) == r,
                    n < (r + 1) * (r + 1),
            ;
        }
    }
}

/// If `n * n <= cap` then `isqrt(cap) >= n`.
pub proof fn lemma_isqrt_at_least(n: nat, cap: nat)
    requires
        n * n <= cap,
    ensures
        isqrt(cap) >= n,
{
    lemma_isqrt(cap);
    if isqrt(cap) < n {
        let r = isqrt(cap);
        assert((r + 1) * (r + 1) <= n * n) by (nonlinear_arith)
            requires
                r + 1 <= n,
        ;
    }
}

/// Adding two offsets below the modulus to the same base lands on different
/// residues.
proof fn lemma_mod_shift_distinct(h: int, a: int, b: int, m: int)
    requires
        0 <= h,
        0 <= a < m,
        a < b < m,
    ensures
        (h + a) % m != (h + b) % m,
{
    lemma_fundamental_div_mod(h + a, m);
    lemma_fundamental_div_mod(h + b, m);
    if (h + a) % m == (h + b) % m {
        let qa = (h + a) / m;
        let qb = (h + b) / m;
        let x = (h + a) % m;
        let d = qb - qa;
        assert(b - a == m * d) by (nonlinear_arith)
            requires
                h + a == m * qa + x,
                h + b == m * qb + x,
                d == qb - qa,
        ;
        assert(m * d >= m || m * d <= 0) by (nonlinear_arith)
            requires
                m >= 1,
        ;
    }
}

/// The default probe strategy: quadratic probing, examining
/// `(hash + i + i*i) % capacity` at attempt `i`.
///
/// Quadratic probing does not reach every slot at every capacity, so lookups
/// can exhaust their attempts while free slots remain; the engine answers
/// that by growing.  What the strategy does guarantee is that the offsets
/// `i + i*i` below the capacity are pairwise distinct, so a capacity of at
/// least `n * n` yields `n` distinct slots among the first attempts.
#[derive(Clone, Copy)]
pub struct QuadraticProbing;

impl Probing for QuadraticProbing {
    open spec fn probe_spec(&self, hash: u64, attempt: nat, cap: nat) -> nat {
        ((hash + attempt + attempt * attempt) % (cap as int)) as nat
    }

    open spec fn distinct_attempts(&self, cap: nat) -> nat {
        isqrt(cap)
    }

    open spec fn capacity_for(&self, count: nat) -> nat {
        count * count
    }

    proof fn lemma_in_range(&self, hash: u64, attempt: nat, cap: nat) {
        let t = (hash + attempt + attempt * attempt) as int;
        lemma_fundamental_div_mod(t, cap as int);
    }

    proof fn lemma_distinct(&self, hash: u64, cap: nat, i: nat, j: nat) {
        let r = isqrt(cap);
        lemma_isqrt(cap);
        // offsets grow strictly with the attempt, and stay below `cap`
        assert(i + i * i < j + j * j) by (nonlinear_arith)
            requires
                i < j,
        ;
        assert(j + j * j < (j + 1) * (j + 1)) by (nonlinear_arith);
        assert((j + 1) * (j + 1) <= r * r) by (nonlinear_arith)
            requires
                j + 1 <= r,
        ;
        lemma_mod_shift_distinct(
            hash as int,
            (i + i * i) as int,
            (j + j * j) as int,
            cap as int,
        );
    }

    proof fn lemma_distinct_within_cap(&self, cap: nat) {
        lemma_isqrt(cap);
    }

    proof fn lemma_capacity_for(&self, count: nat, cap: nat) {
        lemma_isqrt_at_least(count, cap);
    }

    proof fn lemma_capacity_for_monotonic(&self, c1: nat, c2: nat) {
        assert(c1 * c1 <= c2 * c2) by (nonlinear_arith)
            requires
                0 <= c1 <= c2,
        ;
    }

    fn probe(&self, hash: u64, attempt: usize, cap: usize) -> (p: usize) {
        let h: u128 = hash as u128;
        let a: u128 = attempt as u128;
        proof {
            assert(a * a <= 0xffff_ffff_ffff_ffff * 0xffff_ffff_ffff_ffff)
                by (nonlinear_arith)
                requires
                    a <= 0xffff_ffff_ffff_ffff,
            ;
        }
        let t: u128 = h + a + a * a;
        let p: u128 = t % (cap as u128);
        proof {
            lemma_fundamental_div_mod(t as int, cap as int);
            self.lemma_in_range(hash, attempt as nat, cap as nat);
        }
        p as usize
    }
}

} // verus!
