//! Probe sequences for the open-addressing tables.
//!
//! A probing strategy maps `(hash, step)` to a slot index of a power-of-two
//! table.  Both strategies here visit every slot exactly once over a full
//! traversal of `cap` steps — for triangular probing this rests on the fact
//! that the triangular numbers hit every residue class modulo a power of two
//! exactly once, proved below by a two-adic argument.

use vstd::prelude::*;
use vstd::arithmetic::power2::pow2;
use vstd::arithmetic::power2::lemma_pow2_unfold;
use vstd::arithmetic::power2::lemma_pow2_pos;
use vstd::arithmetic::div_mod::lemma_fundamental_div_mod;
use vstd::arithmetic::div_mod::lemma_mod_multiples_basic;
use vstd::arithmetic::div_mod::lemma_small_mod;
use vstd::arithmetic::div_mod::lemma_sub_mod_noop;
use vstd::arithmetic::div_mod::lemma_add_mod_noop;
use vstd::arithmetic::div_mod::lemma_add_mod_noop_right;
use vstd::arithmetic::div_mod::lemma_mod_division_less_than_divisor;

verus! {

/// The `n`-th triangular number `0 + 1 + ... + n`.
pub open spec fn tri(n: nat) -> nat
    decreases n,
{
    if n == 0 {
        0
    } else {
        tri((n - 1) as nat) + n
    }
}

/// Twice a triangular number has the closed form `n * (n + 1)`.
pub proof fn lemma_tri_double(n: nat)
    ensures
        2 * tri(n) == n * (n + 1),
    decreases n,
{
    if n == 0 {
        assert(tri(0) == 0);
        assert(n * (n + 1) == 0) by (nonlinear_arith)
            requires
                n == 0,
        ;
    } else {
        let m = (n - 1) as nat;
        lemma_tri_double(m);
        assert(tri(n) == tri(m) + n);
        assert(2 * tri(n) == 2 * tri(m) + 2 * n);
        assert(2 * tri(m) == m * (m + 1));
        assert(m * (m + 1) + 2 * n == n * (n + 1)) by (nonlinear_arith)
            requires
                m == n - 1,
                n >= 1,
        ;
    }
}

/// A product of an odd number and a positive number below `2^m` is never
/// divisible by `2^m`.
proof fn lemma_odd_factor_pow2(m: nat, a: int, b: int)
    requires
        a % 2 == 1,
        0 < b < pow2(m),
    ensures
        (a * b) % (pow2(m) as int) != 0,
    decreases m,
{
    lemma_pow2_pos(m);
    assert(pow2(0) == 1) by {
        vstd::arithmetic::power2::lemma2_to64();
    }
    if (a * b) % (pow2(m) as int) == 0 {
        // for contradiction; m == 0 leaves no room for b at all
        let c = pow2(m) as int;
        let ch = pow2((m - 1) as nat) as int;
        lemma_pow2_pos((m - 1) as nat);
        lemma_pow2_unfold(m);
        let q = (a * b) / c;
        lemma_fundamental_div_mod(a * b, c);
        // a * b is even, and a is odd, so b must be even
        assert(b % 2 == 0) by {
            let x = a / 2;
            let y = b / 2;
            lemma_fundamental_div_mod(a, 2);
            lemma_fundamental_div_mod(b, 2);
            if b % 2 == 1 {
                assert((2 * x + 1) * (2 * y + 1) == 2 * (2 * x * y + x + y) + 1)
                    by (nonlinear_arith);
                assert(a * b == 2 * (2 * x * y + x + y) + 1) by (nonlinear_arith)
                    requires
                        a == 2 * x + 1,
                        b == 2 * y + 1,
                ;
                assert(a * b == 2 * ch * q);
                assert((ch * q) * 2 == 2 * ch * q) by (nonlinear_arith);
                lemma_mod_multiples_basic(ch * q, 2);
                assert(a * b % 2 == 0);
            }
        }
        let b2 = b / 2;
        lemma_fundamental_div_mod(b, 2);
        assert(b == 2 * b2);
        assert(a * (2 * b2) == 2 * (a * b2)) by (nonlinear_arith);
        // halve both sides of a * b == pow2(m) * q
        assert(2 * (a * b2) == 2 * (ch * q)) by (nonlinear_arith)
            requires
                a * b == 2 * ch * q,
                a * b == 2 * (a * b2),
        ;
        assert(a * b2 == ch * q);
        lemma_mod_multiples_basic(q, ch);
        assert((a * b2) % ch == 0);
        lemma_odd_factor_pow2((m - 1) as nat, a, b2);
    }
}

/// Triangular offsets are pairwise distinct modulo a power of two: over a
/// full traversal of `pow2(k)` steps the triangular probe visits every slot
/// of a `pow2(k)`-sized table exactly once.
pub proof fn lemma_tri_distinct_mod_pow2(k: nat, h: int, i: nat, j: nat)
    requires
        h >= 0,
        i < j < pow2(k),
    ensures
        (h + tri(i)) % (pow2(k) as int) != (h + tri(j)) % (pow2(k) as int),
{
    lemma_pow2_pos(k);
    let c = pow2(k) as int;
    if (h + tri(i)) % c == (h + tri(j)) % c {
        let gap = tri(j) - tri(i);
        // the gap between the two offsets is a multiple of the capacity
        lemma_sub_mod_noop(h + tri(j), h + tri(i), c);
        lemma_small_mod(0, pow2(k));
        assert((h + tri(j) - (h + tri(i))) % c == 0);
        assert(gap % c == 0);
        // 2 * gap == d * s with d, s of opposite parity
        let d = j - i;
        let s = i + j + 1;
        lemma_tri_double(i);
        lemma_tri_double(j);
        assert(2 * gap == d * s) by (nonlinear_arith)
            requires
                2 * tri(i) == i * (i + 1),
                2 * tri(j) == j * (j + 1),
                gap == tri(j) - tri(i),
                d == j - i,
                s == i + j + 1,
        ;
        // lift divisibility by c to divisibility of the double by 2 * c
        let q = gap / c;
        lemma_fundamental_div_mod(gap, c);
        assert(gap == c * q);
        assert(2 * gap == (2 * c) * q) by (nonlinear_arith)
            requires
                gap == c * q,
        ;
        lemma_mod_multiples_basic(q, 2 * c);
        assert((d * s) % (2 * c) == 0);
        lemma_pow2_unfold(k + 1);
        assert(2 * c == pow2(k + 1) as int);
        // d + s == 2 * j + 1 is odd, so exactly one of d, s is odd
        lemma_fundamental_div_mod(d, 2);
        lemma_fundamental_div_mod(s as int, 2);
        if d % 2 == 1 {
            assert(0 < s < pow2(k + 1));
            lemma_odd_factor_pow2(k + 1, d as int, s as int);
        } else {
            assert(s % 2 == 1) by (nonlinear_arith)
                requires
                    d % 2 == 0,
                    d + s == 2 * j + 1,
                    s == 2 * (s / 2) + s % 2,
                    d == 2 * (d / 2) + d % 2,
            ;
            assert(s * d == d * s) by (nonlinear_arith);
            assert((s * d) % (2 * c) == 0);
            assert(0 < d < pow2(k + 1));
            lemma_odd_factor_pow2(k + 1, s as int, d as int);
        }
    }
}

/// A probe walk over fewer occupied slots than the table holds always hits
/// a free slot: the probe targets of one traversal are pairwise distinct, so
/// they cannot all land in a set smaller than the table.
pub proof fn lemma_probe_hits_vacant<P: Probing>(p: &P, h: u64, taken: Set<int>)
    requires
        p.wf(),
        taken.finite(),
        taken.len() < p.cap_spec(),
    ensures
        exists|s: nat|
            s < p.cap_spec() && !taken.contains(#[trigger] p.probe_spec(h, s) as int),
{
    if forall|s: nat| s < p.cap_spec() ==> taken.contains(#[trigger] p.probe_spec(h, s) as int) {
        let c = p.cap_spec() as int;
        let dom = vstd::set_lib::set_int_range(0, c);
        vstd::set_lib::lemma_int_range(0, c);
        let f = |s: int| p.probe_spec(h, s as nat) as int;
        assert(vstd::relations::injective_on(f, dom)) by {
            assert forall|x1: int, x2: int|
                dom.contains(x1) && dom.contains(x2) && #[trigger] f(x1) == #[trigger] f(
                    x2,
                ) implies x1 == x2 by {
                if x1 < x2 {
                    p.lemma_probe_injective(h, x1 as nat, x2 as nat);
                } else if x2 < x1 {
                    p.lemma_probe_injective(h, x2 as nat, x1 as nat);
                }
            }
        }
        let image = dom.map(f);
        vstd::set_lib::lemma_map_size(dom, image, f);
        assert(image.subset_of(taken)) by {
            assert forall|b: int| image.contains(b) implies taken.contains(b) by {
                let a = choose|a: int| dom.contains(a) && #[trigger] f(a) == b;
                assert(taken.contains(f(a)));
            }
        }
        vstd::set_lib::lemma_len_subset(image, taken);
        assert(p.cap_spec() <= taken.len());
    }
}

/// A probing strategy over a power-of-two table: a deterministic,
/// slot-visiting-exactly-once enumeration of probe targets for a hash.
pub trait Probing: Sized {
    /// Structural invariant of the strategy.
    spec fn wf(&self) -> bool;

    /// Number of slots of the table this strategy probes.
    spec fn cap_spec(&self) -> nat;

    /// The slot probed at `step` for `hash`.
    spec fn probe_spec(&self, hash: u64, step: nat) -> nat;

    /// The capacity is positive and every probe stays in range.
    proof fn lemma_probe_in_range(&self, hash: u64, step: nat)
        requires
            self.wf(),
        ensures
            0 < self.cap_spec(),
            self.probe_spec(hash, step) < self.cap_spec(),
    ;

    /// Over one full traversal no slot is visited twice.
    proof fn lemma_probe_injective(&self, hash: u64, i: nat, j: nat)
        requires
            self.wf(),
            i < j < self.cap_spec(),
        ensures
            self.probe_spec(hash, i) != self.probe_spec(hash, j),
    ;

    /// The table size this strategy was built for.
    fn capacity(&self) -> (c: usize)
        requires
            self.wf(),
        ensures
            c == self.cap_spec(),
    ;

    /// Computes the slot probed at `step` for `hash`.
    fn probe(&self, hash: u64, step: usize) -> (idx: usize)
        requires
            self.wf(),
            step < self.cap_spec(),
        ensures
            idx == self.probe_spec(hash, step as nat),
            idx < self.cap_spec(),
    ;
}

/// Builds a probing strategy for a given power-of-two capacity.
pub trait BuildProbing: Sized {
    /// The strategy this builder produces.
    type Probing: Probing;

    /// Builds the strategy for a table of `cap` slots, `cap == pow2(exp)`.
    fn build_probing(&self, cap: usize, Ghost(exp): Ghost<nat>) -> (p: Self::Probing)
        requires
            cap == pow2(exp),
        ensures
            p.wf(),
            p.cap_spec() == cap,
    ;
}

/// Builder of [`LinearProbing`].
pub struct BuildLinearProbing;

impl Default for BuildLinearProbing {
    fn default() -> (r: Self)
        ensures
            r == (BuildLinearProbing),
    {
        BuildLinearProbing
    }
}

/// Probes `hash, hash + 1, hash + 2, ...` reduced modulo the capacity.
pub struct LinearProbing {
    cap: usize,
    mask: usize,
    exp: Ghost<nat>,
}

/// Builder of [`TriangularProbing`].
pub struct BuildTriangularProbing;

impl Default for BuildTriangularProbing {
    fn default() -> (r: Self)
        ensures
            r == (BuildTriangularProbing),
    {
        BuildTriangularProbing
    }
}

/// Probes `hash + step * (step + 1) / 2` reduced modulo the capacity, the
/// quadratic sequence that still covers a power-of-two table completely.
pub struct TriangularProbing {
    cap: usize,
    mask: usize,
    exp: Ghost<nat>,
}

impl BuildProbing for BuildLinearProbing {
    type Probing = LinearProbing;

    fn build_probing(&self, cap: usize, Ghost(exp): Ghost<nat>) -> (p: LinearProbing) {
        proof {
            lemma_pow2_pos(exp);
        }
        LinearProbing { cap, mask: cap - 1, exp: Ghost(exp) }
    }
}

impl Probing for LinearProbing {
    closed spec fn wf(&self) -> bool {
        &&& self.cap == pow2(self.exp@)
        &&& self.mask == self.cap - 1
    }

    closed spec fn cap_spec(&self) -> nat {
        self.cap as nat
    }

    closed spec fn probe_spec(&self, hash: u64, step: nat) -> nat {
        ((hash as nat) + step) % self.cap_spec()
    }

    proof fn lemma_probe_in_range(&self, hash: u64, step: nat) {
        lemma_pow2_pos(self.exp@);
        lemma_mod_division_less_than_divisor((hash + step) as int, self.cap as int);
    }

    proof fn lemma_probe_injective(&self, hash: u64, i: nat, j: nat) {
        lemma_pow2_pos(self.exp@);
        let c = self.cap as int;
        if self.probe_spec(hash, i) == self.probe_spec(hash, j) {
            lemma_sub_mod_noop(hash + j, hash + i, c);
            lemma_small_mod(0, self.cap as nat);
            assert((hash + i) % c == (hash + j) % c);
            assert((j - i) % c == 0);
            lemma_small_mod((j - i) as nat, self.cap as nat);
        }
    }

    fn capacity(&self) -> usize {
        self.cap
    }

    fn probe(&self, hash: u64, step: usize) -> (idx: usize) {
        proof {
            lemma_pow2_pos(self.exp@);
            crate::math::lemma_pow2_usize_half(self.exp@);
        }
        let c64 = self.cap as u64;
        let h = (hash % c64) as usize;
        let r = (h + step) % self.cap;
        proof {
            lemma_add_mod_noop(hash as int, step as int, self.cap as int);
            lemma_small_mod(step as nat, self.cap as nat);
            lemma_mod_division_less_than_divisor((hash + step) as int, self.cap as int);
        }
        r
    }
}

impl BuildProbing for BuildTriangularProbing {
    type Probing = TriangularProbing;

    fn build_probing(&self, cap: usize, Ghost(exp): Ghost<nat>) -> (p: TriangularProbing) {
        proof {
            lemma_pow2_pos(exp);
        }
        TriangularProbing { cap, mask: cap - 1, exp: Ghost(exp) }
    }
}

impl Probing for TriangularProbing {
    closed spec fn wf(&self) -> bool {
        &&& self.cap == pow2(self.exp@)
        &&& self.mask == self.cap - 1
    }

    closed spec fn cap_spec(&self) -> nat {
        self.cap as nat
    }

    closed spec fn probe_spec(&self, hash: u64, step: nat) -> nat {
        ((hash as nat) + tri(step)) % self.cap_spec()
    }

    proof fn lemma_probe_in_range(&self, hash: u64, step: nat) {
        lemma_pow2_pos(self.exp@);
        lemma_mod_division_less_than_divisor((hash + tri(step)) as int, self.cap as int);
    }

    proof fn lemma_probe_injective(&self, hash: u64, i: nat, j: nat) {
        lemma_pow2_pos(self.exp@);
        lemma_tri_distinct_mod_pow2(self.exp@, hash as int, i, j);
        assert((hash + tri(i)) % (self.cap as int) == ((hash + tri(i)) as nat) % (
        self.cap as nat));
        assert((hash + tri(j)) % (self.cap as int) == ((hash + tri(j)) as nat) % (
        self.cap as nat));
    }

    fn capacity(&self) -> usize {
        self.cap
    }

    fn probe(&self, hash: u64, step: usize) -> (idx: usize) {
        proof {
            lemma_pow2_pos(self.exp@);
        }
        let mut acc: usize = 0;
        let mut s: usize = 0;
        proof {
            lemma_small_mod(0, self.cap as nat);
            crate::math::lemma_pow2_usize_half(self.exp@);
        }
        while s < step
            invariant
                s <= step,
                step < self.cap,
                self.wf(),
                acc == tri(s as nat) % self.cap_spec(),
                acc < self.cap,
            decreases step - s,
        {
            proof {
                lemma_pow2_pos(self.exp@);
                crate::math::lemma_pow2_usize_half(self.exp@);
                lemma_add_mod_noop_right((s + 1) as int, tri(s as nat) as int, self.cap as int);
                assert(tri((s + 1) as nat) == tri(s as nat) + s + 1);
                lemma_mod_division_less_than_divisor((tri(s as nat) + s + 1) as int,
                    self.cap as int);
            }
            s = s + 1;
            acc = (acc + s) % self.cap;
        }
        let c64 = self.cap as u64;
        let h = (hash % c64) as usize;
        proof {
            crate::math::lemma_pow2_usize_half(self.exp@);
            lemma_mod_division_less_than_divisor(tri(step as nat) as int, self.cap as int);
            lemma_mod_division_less_than_divisor(hash as int, self.cap as int);
        }
        let r = (h + acc) % self.cap;
        proof {
            lemma_add_mod_noop(hash as int, tri(step as nat) as int, self.cap as int);
            vstd::arithmetic::div_mod::lemma_mod_twice(tri(step as nat) as int, self.cap as int);
            lemma_mod_division_less_than_divisor((hash + tri(step as nat)) as int, self.cap as int);
        }
        r
    }
}

} // verus!
