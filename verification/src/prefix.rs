//! The prefix data model: a CIDR block in canonical form, together with the
//! spec-level view of a prefix as an integer address interval.

use vstd::prelude::*;
use vstd::arithmetic::power2::*;
use vstd::arithmetic::div_mod::*;
use vstd::arithmetic::mul::*;
use crate::common::IpFamily;

verus! {

/// `pow2` as an `int`, the form most specs in this crate use.
pub open spec fn pow2i(e: nat) -> int {
    pow2(e) as int
}

/// A CIDR block: family, network address and prefix length.
///
/// IPv4 addresses live in the low 32 bits of `addr`.
#[derive(Debug, Clone, Copy, PartialEq, Eq, Structural)]
pub struct Prefix {
    pub family: IpFamily,
    pub addr: u128,
    pub len: u8,
}

impl Prefix {
    /// Well-formedness: the length fits the family, the address fits the
    /// family's bit width, and all host bits are zero (canonical form).
    pub open spec fn wf(self) -> bool {
        &&& self.len <= self.family.spec_width()
        &&& (self.addr as int) < pow2i(self.family.spec_width())
        &&& (self.addr as int) % pow2i((self.family.spec_width() - self.len) as nat) == 0
    }

    /// First address of the block.
    pub open spec fn start(self) -> int {
        self.addr as int
    }

    /// Number of addresses in the block.
    pub open spec fn size(self) -> int {
        pow2i((self.family.spec_width() - self.len) as nat)
    }

    /// Last address of the block.
    pub open spec fn end(self) -> int {
        self.addr + self.size() - 1
    }

    /// Whether `x` lies inside this block (families are compared by the caller).
    pub open spec fn covers_addr(self, x: int) -> bool {
        self.start() <= x <= self.end()
    }

    /// A well-formed block stays inside the family's address space.
    pub proof fn lemma_end_in_space(self)
        requires
            self.wf(),
        ensures
            self.end() < pow2i(self.family.spec_width()),
            self.start() <= self.end(),
    {
        let w = self.family.spec_width();
        let b = (w - self.len) as nat;
        lemma_pow2_pos(b);
        lemma_aligned_below(self.addr as int, b, w);
    }

    /// Build the last address without overflow; usable from exec code.
    pub fn last_addr(&self) -> (r: u128)
        requires
            self.wf(),
        ensures
            r as int == self.end(),
    {
        let w = self.family.width();
        let m = pow2_minus1_u128((w - self.len as u32) as u32);
        proof {
            self.lemma_end_in_space();
            lemma_pow2_le_max128(self.family.spec_width());
        }
        self.addr + m
    }
}

/// `pow2(e) - 1` for `e <= 128`, computed without overflowing `u128`.
pub fn pow2_minus1_u128(e: u32) -> (m: u128)
    requires
        e <= 128,
    ensures
        m as int == pow2i(e as nat) - 1,
{
    let mut i: u32 = 0;
    let mut m: u128 = 0;
    assert(m as int == pow2i(0) - 1) by {
        lemma2_to64();
    }
    while i < e
        invariant
            i <= e <= 128,
            m as int == pow2i(i as nat) - 1,
        decreases e - i,
    {
        proof {
            lemma_pow2_unfold((i + 1) as nat);
            lemma_pow2_le_max128(e as nat);
            lemma_pow2_strictly_increases_or_eq((i + 1) as nat, e as nat);
        }
        m = 2 * m + 1;
        i = i + 1;
    }
    m
}

/// `pow2` is monotone (non-strict) on `e1 <= e2`.
pub proof fn lemma_pow2_strictly_increases_or_eq(e1: nat, e2: nat)
    requires
        e1 <= e2,
    ensures
        pow2(e1) <= pow2(e2),
{
    if e1 < e2 {
        lemma_pow2_strictly_increases(e1, e2);
    }
}

/// `pow2(e) <= pow2(128)` for `e <= 128`, with the concrete top value.
pub proof fn lemma_pow2_le_max128(e: nat)
    requires
        e <= 128,
    ensures
        pow2(e) <= 0x1_0000_0000_0000_0000_0000_0000_0000_0000,
{
    lemma_pow2_strictly_increases_or_eq(e, 128);
    lemma_pow2_128();
}

/// The concrete value of `pow2(128)` and `pow2(32)`.
pub proof fn lemma_pow2_128()
    ensures
        pow2(128) == 0x1_0000_0000_0000_0000_0000_0000_0000_0000,
        pow2(64) == 0x1_0000_0000_0000_0000,
        pow2(32) == 0x1_0000_0000,
{
    lemma2_to64();
    lemma_pow2_adds(32, 32);
    lemma_pow2_adds(64, 64);
}

/// An address aligned to `pow2(b)` and below `pow2(w)` is at most
/// `pow2(w) - pow2(b)`.
pub proof fn lemma_aligned_below(a: int, b: nat, w: nat)
    requires
        b <= w,
        0 <= a < pow2i(w),
        a % pow2i(b) == 0,
    ensures
        a + pow2i(b) <= pow2i(w),
{
    let sb = pow2i(b);
    let sw = pow2i(w);
    lemma_pow2_pos(b);
    lemma_pow2_pos(w);
    let k = pow2i((w - b) as nat);
    let q = a / sb;
    lemma_fundamental_div_mod(a, sb);
    lemma_pow2_adds(b, (w - b) as nat);
    assert(sw == sb * k);
    lemma_mul_is_commutative(sb, k);
    if q >= k {
        lemma_mul_inequality(k, q, sb);
        assert(k * sb <= q * sb);
        assert(false);
    }
    assert(q + 1 <= k);
    lemma_mul_inequality(q + 1, k, sb);
    assert((q + 1) * sb <= k * sb);
    lemma_mul_is_distributive_add_other_way(sb, q, 1);
}

} // verus!
