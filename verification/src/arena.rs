//! The layout of a builder's staging arena: where in one region of bytes
//! each staged component would have its place.
//!
//! No such region is allocated here. The staged values are kept in boxes, and
//! this module only computes the layout: the size of the region and the
//! offset of each place, for a caller that packs the values into one buffer.
//!
//! The region is filled from its end towards its base. When it is too small
//! it is replaced by a larger one, and what it held goes to the end of the
//! new region: a place keeps its distance from the end.
use vstd::prelude::*;
use vstd::arithmetic::power2::is_pow2;

verus! {

/// The smallest size, in bytes, that the region grows to.
pub const MIN_ARENA: usize = 64;

/// The alignment of the region before any component asks for more.
pub const MIN_ALIGN: usize = 16;

pub open spec fn max(a: int, b: int) -> int {
    if a >= b {
        a
    } else {
        b
    }
}

/// The first of `p`, `2p`, `4p`, ... that is at least `n`.
pub open spec fn pow2_at_least(n: nat, p: nat) -> nat
    decreases
            (if p < n {
                n - p
            } else {
                0
            }),
{
    if p >= n || p == 0 {
        p
    } else {
        pow2_at_least(n, 2 * p)
    }
}

/// The smallest power of two that is at least `n`.
pub open spec fn next_pow2(n: nat) -> nat {
    pow2_at_least(n, 1)
}

/// `x` rounded down to a multiple of `align`.
pub open spec fn round_down(x: int, align: int) -> int {
    x - x % align
}

/// The size that a region of `len` bytes grows to when `increment` more
/// bytes are asked of it: a power of two that holds both, at least twice
/// `len`, at least `MIN_ARENA`, and at least the alignment `align`.
pub open spec fn grown_len(len: nat, increment: nat, align: nat) -> nat {
    max(max(max(next_pow2(len + increment) as int, 2 * (len as int)), MIN_ARENA as int), align as int) as nat
}

pub proof fn lemma_pow2_at_least(n: nat, p: nat)
    requires
        is_pow2(p as int),
    ensures
        is_pow2(pow2_at_least(n, p) as int),
        pow2_at_least(n, p) >= p,
        pow2_at_least(n, p) >= n,
    decreases
            (if p < n {
                n - p
            } else {
                0
            }),
{
    reveal(is_pow2);
    if p < n {
        assert(is_pow2((2 * p) as int)) by {
            assert((2 * p) / 2 == p);
        }
        lemma_pow2_at_least(n, 2 * p);
    }
}

/// Of two powers of two the smaller divides the larger.
pub proof fn lemma_pow2_divides(a: int, b: int)
    requires
        is_pow2(a),
        is_pow2(b),
        a <= b,
    ensures
        b % a == 0,
    decreases a,
{
    reveal(is_pow2);
    if a > 1 {
        assert(b > 1);
        lemma_pow2_divides(a / 2, b / 2);
        let h = a / 2;
        let g = b / 2;
        assert(a == 2 * h);
        assert(b == 2 * g);
        assert(g % h == 0);
        let q = g / h;
        vstd::arithmetic::div_mod::lemma_fundamental_div_mod(g, h);
        assert(b == q * a) by (nonlinear_arith)
            requires
                g == h * q,
                a == 2 * h,
                b == 2 * g,
        ;
        vstd::arithmetic::div_mod::lemma_mod_multiples_basic(q, a);
    }
}

/// Twice a power of two is a power of two.
pub proof fn lemma_pow2_double(n: int)
    requires
        is_pow2(n),
    ensures
        is_pow2(2 * n),
{
    reveal(is_pow2);
    assert((2 * n) / 2 == n);
}

pub proof fn lemma_pow2_constants()
    ensures
        is_pow2(MIN_ARENA as int),
        is_pow2(MIN_ALIGN as int),
        is_pow2(1),
{
    reveal_with_fuel(is_pow2, 8);
}

/// What divides a divisor divides the number.
pub proof fn lemma_divides_through(x: int, m: int, a: int)
    requires
        0 <= x,
        0 < a,
        0 < m,
        x % m == 0,
        m % a == 0,
    ensures
        x % a == 0,
{
    let q = x / m;
    let r = m / a;
    vstd::arithmetic::div_mod::lemma_fundamental_div_mod(x, m);
    vstd::arithmetic::div_mod::lemma_fundamental_div_mod(m, a);
    assert(x == (r * q) * a) by (nonlinear_arith)
        requires
            x == m * q,
            m == a * r,
    ;
    vstd::arithmetic::div_mod::lemma_mod_multiples_basic(r * q, a);
}

/// The difference of two multiples is a multiple.
pub proof fn lemma_multiples_differ(x: int, y: int, a: int)
    requires
        0 <= y <= x,
        0 < a,
        x % a == 0,
        y % a == 0,
    ensures
        (x - y) % a == 0,
{
    vstd::arithmetic::div_mod::lemma_sub_mod_noop(x, y, a);
    vstd::arithmetic::div_mod::lemma_small_mod(0, a as nat);
}

/// Rounding down gives the nearest multiple below.
pub proof fn lemma_round_down(x: int, align: int)
    requires
        0 <= x,
        0 < align,
    ensures
        round_down(x, align) % align == 0,
        0 <= round_down(x, align) <= x,
        x - round_down(x, align) < align,
{
    vstd::arithmetic::div_mod::lemma_mod_bound(x, align);
    vstd::arithmetic::div_mod::lemma_mod_decreases(x as nat, align as nat);
    vstd::arithmetic::div_mod::lemma_sub_mod_noop_right(x, x, align);
    vstd::arithmetic::div_mod::lemma_small_mod(0, align as nat);
}

/// A grown region is a power of two of at least `MIN_ARENA` bytes that is
/// a multiple of the alignment, holds what was asked, and is at least twice
/// as large as before.
pub proof fn lemma_grown_len(len: nat, increment: nat, align: nat)
    requires
        len == 0 || is_pow2(len as int),
        is_pow2(align as int),
    ensures
        is_pow2(grown_len(len, increment, align) as int),
        grown_len(len, increment, align) >= MIN_ARENA,
        grown_len(len, increment, align) >= len + increment,
        grown_len(len, increment, align) >= 2 * len,
        grown_len(len, increment, align) % align == 0,
        len > 0 ==> grown_len(len, increment, align) % len == 0,
{
    lemma_pow2_constants();
    lemma_pow2_at_least(len + increment, 1);
    if len > 0 {
        lemma_pow2_double(len as int);
    }
    let grown = grown_len(len, increment, align);
    assert(is_pow2(grown as int));
    lemma_pow2_divides(align as int, grown as int);
    if len > 0 {
        lemma_pow2_divides(len as int, grown as int);
    }
}

/// The smallest power of two that is at least `n`, where it fits.
pub fn next_power_of_two(n: usize) -> (p: usize)
    requires
        next_pow2(n as nat) <= usize::MAX,
    ensures
        p == next_pow2(n as nat),
{
    let mut p: usize = 1;
    proof {
        lemma_pow2_constants();
    }
    while p < n
        invariant
            p >= 1,
            is_pow2(p as int),
            pow2_at_least(n as nat, p as nat) == next_pow2(n as nat),
            next_pow2(n as nat) <= usize::MAX,
        decreases
                (if p < n {
                    n - p
                } else {
                    0
                }),
    {
        proof {
            lemma_pow2_double(p as int);
            lemma_pow2_at_least(n as nat, (2 * p) as nat);
        }
        p = 2 * p;
    }
    p
}

/// Whether `n` is a power of two.
pub fn is_power_of_two(n: usize) -> (r: bool)
    ensures
        r == is_pow2(n as int),
{
    let mut m = n;
    while m > 1 && m % 2 == 0
        invariant
            is_pow2(m as int) == is_pow2(n as int),
        decreases m,
    {
        proof {
            reveal(is_pow2);
        }
        m = m / 2;
    }
    proof {
        reveal(is_pow2);
    }
    m == 1
}

/// The smallest power of two that is at least `n`, or `None` where it does
/// not fit.
pub fn checked_next_power_of_two(n: usize) -> (p: Option<usize>)
    ensures
        p == (if next_pow2(n as nat) <= usize::MAX {
            Some(next_pow2(n as nat) as usize)
        } else {
            None
        }),
{
    let mut p: usize = 1;
    proof {
        lemma_pow2_constants();
    }
    while p < n
        invariant
            p >= 1,
            is_pow2(p as int),
            pow2_at_least(n as nat, p as nat) == next_pow2(n as nat),
        decreases
                (if p < n {
                    n - p
                } else {
                    0
                }),
    {
        proof {
            lemma_pow2_double(p as int);
            lemma_pow2_at_least(n as nat, (2 * p) as nat);
        }
        if p > usize::MAX / 2 {
            return None;
        }
        p = 2 * p;
    }
    Some(p)
}

/// The accounts of a staging region: its size, how much of it is taken,
/// counted from its end, and the largest alignment asked of it. They are
/// numbers only; no memory stands behind them.
pub struct Arena {
    len: usize,
    used: usize,
    max_align: usize,
}

impl Arena {
    /// The size of the region in bytes.
    pub closed spec fn spec_len(&self) -> usize {
        self.len
    }

    /// The bytes taken, all at the end of the region.
    pub closed spec fn spec_used(&self) -> usize {
        self.used
    }

    /// The largest alignment asked so far, and at least `MIN_ALIGN`.
    pub closed spec fn spec_max_align(&self) -> usize {
        self.max_align
    }

    /// The offset from the base below which the region is free.
    pub open spec fn cursor(&self) -> int {
        self.spec_len() - self.spec_used()
    }

    /// The region is empty or a power of two of at least `MIN_ARENA` bytes,
    /// and a multiple of the largest alignment, which is a power of two.
    pub open spec fn wf(&self) -> bool {
        &&& is_pow2(self.spec_max_align() as int)
        &&& self.spec_max_align() >= MIN_ALIGN
        &&& (self.spec_len() == 0 || (is_pow2(self.spec_len() as int) && self.spec_len() >= MIN_ARENA))
        &&& self.spec_len() % self.spec_max_align() == 0
        &&& self.spec_used() <= self.spec_len()
    }

    /// Whether the region must grow before it can take `size` bytes aligned
    /// to `align`: the free part is too small, or the region is no multiple
    /// of the alignment.
    pub open spec fn must_grow(&self, size: nat, align: nat) -> bool {
        self.cursor() < size || self.spec_len() as int % max(self.spec_max_align() as int, align as int) != 0
    }

    /// The size of the region once it has taken `size` bytes aligned to
    /// `align`.
    pub open spec fn len_after(&self, size: nat, align: nat) -> nat {
        if self.must_grow(size, align) {
            grown_len(self.spec_len() as nat, size, max(self.spec_max_align() as int, align as int) as nat)
        } else {
            self.spec_len() as nat
        }
    }

    /// The bytes that count as taken when `size` bytes aligned to `align`
    /// are placed: after growth all of the old region, else what was taken.
    pub open spec fn taken_before(&self, size: nat, align: nat) -> nat {
        if self.must_grow(size, align) {
            self.spec_len() as nat
        } else {
            self.spec_used() as nat
        }
    }

    /// The offset from the base that `size` bytes aligned to `align` are
    /// given: below all that counts as taken, rounded down to the
    /// alignment.
    pub open spec fn offset_after(&self, size: nat, align: nat) -> int {
        round_down(self.len_after(size, align) - self.taken_before(size, align) - size, align as int)
    }

    /// An empty region.
    pub fn new() -> (arena: Arena)
        ensures
            arena.wf(),
            arena.spec_len() == 0,
            arena.spec_used() == 0,
            arena.spec_max_align() == MIN_ALIGN,
    {
        proof {
            lemma_pow2_constants();
        }
        Arena { len: 0, used: 0, max_align: MIN_ALIGN }
    }

    pub fn len(&self) -> (len: usize)
        ensures
            len == self.spec_len(),
    {
        self.len
    }

    pub fn used(&self) -> (used: usize)
        ensures
            used == self.spec_used(),
    {
        self.used
    }

    pub fn max_align(&self) -> (align: usize)
        ensures
            align == self.spec_max_align(),
    {
        self.max_align
    }

    /// Whether the region can take `size` bytes aligned to `align`: whether,
    /// grown if it must, it fits in the address space.
    pub fn can_reserve(&self, size: usize, align: usize) -> (r: bool)
        requires
            self.wf(),
            align > 0,
        ensures
            r == (self.len_after(size as nat, align as nat) <= usize::MAX),
    {
        let most = if self.max_align < align {
            align
        } else {
            self.max_align
        };
        if self.len - self.used >= size && self.len % most == 0 {
            return true;
        }
        if size > usize::MAX - self.len {
            proof {
                lemma_pow2_constants();
                lemma_pow2_at_least((self.len + size) as nat, 1);
            }
            return false;
        }
        match checked_next_power_of_two(self.len + size) {
            None => false,
            Some(_) => self.len <= usize::MAX / 2,
        }
    }

    /// Replaces the region by one that holds `min_increment` bytes more.
    /// The old region goes to the end of the new one, free part and all:
    /// what was taken stays at the same distance from the end, and the
    /// whole old region counts as taken.
    pub fn grow(&mut self, min_increment: usize)
        requires
            is_pow2(old(self).spec_max_align() as int),
            old(self).spec_len() == 0 || is_pow2(old(self).spec_len() as int),
            old(self).spec_used() <= old(self).spec_len(),
            grown_len(
                old(self).spec_len() as nat,
                min_increment as nat,
                old(self).spec_max_align() as nat,
            ) <= usize::MAX,
        ensures
            final(self).spec_len() == grown_len(
                old(self).spec_len() as nat,
                min_increment as nat,
                old(self).spec_max_align() as nat,
            ),
            final(self).spec_used() == old(self).spec_len(),
            final(self).spec_max_align() == old(self).spec_max_align(),
            old(self).spec_max_align() >= MIN_ALIGN ==> final(self).wf(),
    {
        proof {
            lemma_pow2_constants();
            lemma_grown_len(self.len as nat, min_increment as nat, self.max_align as nat);
            lemma_pow2_at_least((self.len + min_increment) as nat, 1);
        }
        let mut new_len = next_power_of_two(self.len + min_increment);
        if new_len < 2 * self.len {
            new_len = 2 * self.len;
        }
        if new_len < MIN_ARENA {
            new_len = MIN_ARENA;
        }
        if new_len < self.max_align {
            new_len = self.max_align;
        }
        self.used = self.len;
        self.len = new_len;
    }

    /// Takes `size` bytes aligned to `align` below all that counts as
    /// taken, and returns their offset from the base. The region grows
    /// first where it must.
    pub fn reserve(&mut self, size: usize, align: usize) -> (offset: usize)
        requires
            old(self).wf(),
            is_pow2(align as int),
            old(self).len_after(size as nat, align as nat) <= usize::MAX,
        ensures
            final(self).wf(),
            final(self).spec_max_align() == max(old(self).spec_max_align() as int, align as int),
            final(self).spec_len() == old(self).len_after(size as nat, align as nat),
            offset == old(self).offset_after(size as nat, align as nat),
            final(self).cursor() == offset,
            offset % align == 0,
            offset + size <= final(self).spec_len() - old(self).spec_used(),
            final(self).spec_len() % align == 0,
            final(self).spec_len() >= old(self).spec_len(),
    {
        let ghost before = *self;
        proof {
            reveal(is_pow2);
            assert(align > 0);
            assert(self.max_align > 0);
        }
        if self.max_align < align {
            self.max_align = align;
        }
        proof {
            lemma_grown_len(self.len as nat, size as nat, self.max_align as nat);
            if before.max_align as int <= align as int {
                lemma_pow2_divides(before.max_align as int, align as int);
            } else {
                lemma_pow2_divides(align as int, before.max_align as int);
            }
        }
        if self.len - self.used < size || self.len % self.max_align != 0 {
            self.grow(size);
        }
        proof {
            lemma_round_down(self.len - self.used - size, align as int);
            lemma_divides_through(self.len as int, self.max_align as int, align as int);
        }
        let below = self.len - self.used - size;
        let offset = below - below % align;
        self.used = self.len - offset;
        offset
    }

    /// Gives up all that is taken. The region keeps its size.
    pub fn reset(&mut self)
        ensures
            final(self).spec_len() == old(self).spec_len(),
            final(self).spec_max_align() == old(self).spec_max_align(),
            final(self).spec_used() == 0,
            old(self).wf() ==> final(self).wf(),
    {
        self.used = 0;
    }
}

} // verus!
