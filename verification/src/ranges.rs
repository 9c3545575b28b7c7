//! Greedy decomposition of an address interval `[start, end]` into the
//! minimal ordered list of CIDR blocks that covers it exactly.
//!
//! At every step the block emitted is the largest one that both starts at
//! the current address (alignment) and does not extend past `end` (fit).

use vstd::prelude::*;
use vstd::arithmetic::power2::*;
use vstd::arithmetic::div_mod::*;
use vstd::arithmetic::mul::*;
use crate::common::IpFamily;
use crate::prefix::{
    pow2i, Prefix, pow2_minus1_u128, lemma_pow2_le_max128, lemma_pow2_strictly_increases_or_eq,
};

verus! {

/// Largest `j <= k` with `a` divisible by `pow2(j)`.
pub open spec fn max_align(a: int, k: nat) -> nat
    decreases k,
{
    if k == 0 {
        0
    } else if a % pow2i(k) == 0 {
        k
    } else {
        max_align(a, (k - 1) as nat)
    }
}

/// Largest `j <= k` with `pow2(j) <= n`.
pub open spec fn max_fit(n: int, k: nat) -> nat
    decreases k,
{
    if k == 0 {
        0
    } else if pow2i(k) <= n {
        k
    } else {
        max_fit(n, (k - 1) as nat)
    }
}

/// Size, in bits, of the greedy block chosen at `cur` for the range
/// `[cur, end]` in a `w`-bit address space.
pub open spec fn block_bits(cur: int, end: int, w: nat) -> nat {
    let a = max_align(cur, w);
    let f = max_fit(end - cur + 1, w);
    if a <= f {
        a
    } else {
        f
    }
}

pub proof fn lemma_max_align_le(a: int, k: nat)
    ensures
        max_align(a, k) <= k,
    decreases k,
{
    if k > 0 && a % pow2i(k) != 0 {
        lemma_max_align_le(a, (k - 1) as nat);
    }
}

pub proof fn lemma_max_fit_le(n: int, k: nat)
    ensures
        max_fit(n, k) <= k,
    decreases k,
{
    if k > 0 && pow2i(k) > n {
        lemma_max_fit_le(n, (k - 1) as nat);
    }
}

/// Divisibility by a power of two descends to smaller exponents.
pub proof fn lemma_pow2_mod_descend(a: int, j: nat, k: nat)
    requires
        0 <= a,
        j <= k,
        a % pow2i(k) == 0,
    ensures
        a % pow2i(j) == 0,
{
    let sk = pow2i(k);
    let sj = pow2i(j);
    lemma_pow2_pos(k);
    lemma_pow2_pos(j);
    let q = a / sk;
    lemma_fundamental_div_mod(a, sk);
    lemma_pow2_adds(j, (k - j) as nat);
    assert(sk == sj * pow2i((k - j) as nat));
    assert(a == (sj * pow2i((k - j) as nat)) * q);
    lemma_mul_is_associative(sj, pow2i((k - j) as nat), q);
    assert(a == sj * (pow2i((k - j) as nat) * q));
    lemma_mod_multiples_basic(pow2i((k - j) as nat) * q, sj);
    lemma_mul_is_commutative(pow2i((k - j) as nat) * q, sj);
}

/// `j <= max_align(a, k)` exactly when `pow2(j)` divides `a`.
pub proof fn lemma_max_align_iff(a: int, k: nat, j: nat)
    requires
        0 <= a,
        j <= k,
    ensures
        a % pow2i(j) == 0 <==> j <= max_align(a, k),
    decreases k,
{
    lemma_max_align_le(a, k);
    if k == 0 {
        lemma_mod_multiples_basic(a, 1);
        lemma2_to64();
        assert(pow2i(0) == 1);
        lemma_mul_basics(a);
        assert(a % pow2i(0) == 0);
    } else if a % pow2i(k) == 0 {
        lemma_pow2_mod_descend(a, j, k);
    } else {
        lemma_max_align_le(a, (k - 1) as nat);
        if j == k {
            assert(!(j <= max_align(a, k)));
        } else {
            lemma_max_align_iff(a, (k - 1) as nat, j);
        }
    }
}

/// `j <= max_fit(n, k)` exactly when a `pow2(j)`-sized block fits in `n`.
pub proof fn lemma_max_fit_iff(n: int, k: nat, j: nat)
    requires
        n >= 1,
        j <= k,
    ensures
        pow2i(j) <= n <==> j <= max_fit(n, k),
    decreases k,
{
    lemma_max_fit_le(n, k);
    if k == 0 {
        lemma2_to64();
        assert(pow2i(0) == 1);
    } else if pow2i(k) <= n {
        lemma_pow2_strictly_increases_or_eq(j, k);
    } else {
        lemma_max_fit_le(n, (k - 1) as nat);
        if j == k {
            assert(!(j <= max_fit(n, k)));
        } else {
            lemma_max_fit_iff(n, (k - 1) as nat, j);
        }
    }
}

/// The greedy block is aligned, fits, and is maximal with these properties.
pub proof fn lemma_block_bits(cur: int, end: int, w: nat)
    requires
        0 <= cur <= end,
        end < pow2i(w),
    ensures
        ({
            let b = block_bits(cur, end, w);
            &&& b <= w
            &&& cur % pow2i(b) == 0
            &&& cur + pow2i(b) - 1 <= end
            &&& b < w ==> !(cur % pow2i((b + 1) as nat) == 0 && cur + pow2i((b + 1) as nat) - 1
                <= end)
        }),
{
    let n = end - cur + 1;
    let b = block_bits(cur, end, w);
    let a = max_align(cur, w);
    let f = max_fit(n, w);
    lemma_max_align_le(cur, w);
    lemma_max_fit_le(n, w);
    lemma_max_align_iff(cur, w, b);
    lemma_max_fit_iff(n, w, b);
    if b < w {
        let j = (b + 1) as nat;
        lemma_max_align_iff(cur, w, j);
        lemma_max_fit_iff(n, w, j);
        assert(j > a || j > f);
    }
}

/// The greedy CIDR decomposition of `[cur, end]` for family `f`.
pub open spec fn range_prefixes(f: IpFamily, cur: int, end: int) -> Seq<Prefix>
    decreases end - cur,
        when 0 <= cur <= end && end < pow2i(f.spec_width()) via range_prefixes_decreases
{
    let w = f.spec_width();
    let b = block_bits(cur, end, w);
    let p = Prefix { family: f, addr: cur as u128, len: (w - b) as u8 };
    if cur + pow2i(b) - 1 >= end {
        seq![p]
    } else {
        seq![p] + range_prefixes(f, cur + pow2i(b), end)
    }
}

#[via_fn]
proof fn range_prefixes_decreases(f: IpFamily, cur: int, end: int) {
    lemma_block_bits(cur, end, f.spec_width());
    lemma_pow2_pos(block_bits(cur, end, f.spec_width()));
}

/// Structure of the greedy decomposition: nonempty, well-formed blocks of
/// the requested family, starting at `cur`, ending at `end`, and contiguous.
pub proof fn lemma_range_prefixes_props(f: IpFamily, cur: int, end: int)
    requires
        0 <= cur <= end,
        end < pow2i(f.spec_width()),
    ensures
        ({
            let s = range_prefixes(f, cur, end);
            &&& s.len() >= 1
            &&& forall|i: int| 0 <= i < s.len() ==> (#[trigger] s[i]).wf() && s[i].family == f
            &&& forall|i: int| 0 <= i < s.len() ==> (#[trigger] s[i]).start() <= s[i].end()
            &&& s[0].start() == cur
            &&& s[s.len() - 1].end() == end
            &&& forall|i: int|
                0 <= i < s.len() - 1 ==> (#[trigger] s[i]).end() + 1 == s[i + 1].start()
        }),
    decreases end - cur,
{
    let w = f.spec_width();
    let b = block_bits(cur, end, w);
    lemma_block_bits(cur, end, w);
    lemma_pow2_pos(b);
    lemma_pow2_le_max128(w);
    let p = Prefix { family: f, addr: cur as u128, len: (w - b) as u8 };
    let s = range_prefixes(f, cur, end);
    assert(p.addr as int == cur);
    assert(p.len == w - b);
    assert((p.family.spec_width() - p.len) as nat == b);
    assert(p.wf());
    assert(p.start() == cur);
    assert(p.size() == pow2i(b));
    if cur + pow2i(b) - 1 >= end {
        assert(s =~= seq![p]);
        assert(p.end() == end);
    } else {
        let cur2 = cur + pow2i(b);
        let rest = range_prefixes(f, cur2, end);
        lemma_range_prefixes_props(f, cur2, end);
        assert(s =~= seq![p] + rest);
        assert(p.end() + 1 == rest[0].start());
        assert(s[s.len() - 1] == rest[rest.len() - 1]);
        assert forall|i: int| 0 <= i < s.len() implies (#[trigger] s[i]).wf() && s[i].family
            == f by {
            if i > 0 {
                assert(s[i] == rest[i - 1]);
            }
        }
        assert forall|i: int| 0 <= i < s.len() implies (#[trigger] s[i]).start() <= s[i].end() by {
            if i > 0 {
                assert(s[i] == rest[i - 1]);
            }
        }
        assert forall|i: int| 0 <= i < s.len() - 1 implies (#[trigger] s[i]).end() + 1 == s[i
            + 1].start() by {
            if i > 0 {
                assert(s[i] == rest[i - 1]);
                assert(s[i + 1] == rest[i]);
            }
        }
    }
}

/// The union of the decomposition's blocks is exactly `[cur, end]`.
pub proof fn lemma_range_prefixes_cover(f: IpFamily, cur: int, end: int, x: int)
    requires
        0 <= cur <= end,
        end < pow2i(f.spec_width()),
    ensures
        ({
            let s = range_prefixes(f, cur, end);
            (exists|i: int| 0 <= i < s.len() && (#[trigger] s[i]).covers_addr(x)) <==> cur <= x
                <= end
        }),
    decreases end - cur,
{
    let w = f.spec_width();
    let b = block_bits(cur, end, w);
    lemma_block_bits(cur, end, w);
    lemma_pow2_pos(b);
    lemma_range_prefixes_props(f, cur, end);
    let s = range_prefixes(f, cur, end);
    let p = s[0];
    if cur + pow2i(b) - 1 >= end {
        assert(s =~= seq![p]);
        assert(p.covers_addr(x) <==> cur <= x <= end);
    } else {
        let cur2 = cur + pow2i(b);
        let rest = range_prefixes(f, cur2, end);
        lemma_range_prefixes_cover(f, cur2, end, x);
        assert(s =~= seq![p] + rest);
        if cur <= x <= end {
            if x <= p.end() {
                assert(s[0].covers_addr(x));
            } else {
                let i = choose|i: int| 0 <= i < rest.len() && (#[trigger] rest[i]).covers_addr(
                    x,
                );
                assert(s[i + 1].covers_addr(x));
            }
        }
        if exists|i: int| 0 <= i < s.len() && (#[trigger] s[i]).covers_addr(x) {
            let i = choose|i: int| 0 <= i < s.len() && (#[trigger] s[i]).covers_addr(x);
            if i > 0 {
                assert(rest[i - 1].covers_addr(x));
            }
        }
    }
}

/// Blocks of the decomposition are pairwise disjoint: an earlier block ends
/// before a later one starts.
pub proof fn lemma_range_prefixes_disjoint(f: IpFamily, cur: int, end: int, i: int, j: int)
    requires
        0 <= cur <= end,
        end < pow2i(f.spec_width()),
        0 <= i < j < range_prefixes(f, cur, end).len(),
    ensures
        range_prefixes(f, cur, end)[i].end() < range_prefixes(f, cur, end)[j].start(),
{
    lemma_range_prefixes_props(f, cur, end);
    lemma_chain_disjoint(range_prefixes(f, cur, end), i, j);
}

/// In a contiguous chain of nonempty blocks, an earlier block ends strictly
/// before a later one starts.
pub proof fn lemma_chain_disjoint(s: Seq<Prefix>, i: int, j: int)
    requires
        forall|k: int| 0 <= k < s.len() ==> (#[trigger] s[k]).start() <= s[k].end(),
        forall|k: int| 0 <= k < s.len() - 1 ==> (#[trigger] s[k]).end() + 1 == s[k + 1].start(),
        0 <= i < j < s.len(),
    ensures
        s[i].end() < s[j].start(),
    decreases j - i,
{
    if j == i + 1 {
        assert(s[i].end() + 1 == s[i + 1].start());
    } else {
        lemma_chain_disjoint(s, i, j - 1);
        assert(s[j - 1].end() + 1 == s[j].start());
    }
}

/// Law: for every valid range within the family's bit width, the greedy
/// decomposition yields well-formed blocks that are pairwise disjoint,
/// sorted, contiguous, and whose union covers an address `x` exactly when
/// the range does.
pub proof fn lemma_range_to_cidr_exact(f: IpFamily, start: int, end: int, x: int)
    requires
        0 <= start <= end,
        end < pow2i(f.spec_width()),
    ensures
        ({
            let s = range_prefixes(f, start, end);
            &&& s.len() >= 1
            &&& forall|i: int| 0 <= i < s.len() ==> (#[trigger] s[i]).wf() && s[i].family == f
            &&& s[0].start() == start
            &&& s[s.len() - 1].end() == end
            &&& forall|i: int|
                0 <= i < s.len() - 1 ==> (#[trigger] s[i]).end() + 1 == s[i + 1].start()
            &&& forall|i: int, j: int|
                0 <= i < j < s.len() ==> (#[trigger] s[i]).end() < (#[trigger] s[j]).start()
            &&& (exists|i: int| 0 <= i < s.len() && (#[trigger] s[i]).covers_addr(x))
                <==> start <= x <= end
        }),
{
    lemma_range_prefixes_props(f, start, end);
    assert forall|i: int, j: int|
        0 <= i < j < range_prefixes(f, start, end).len() implies (#[trigger] range_prefixes(
        f,
        start,
        end,
    )[i]).end() < (#[trigger] range_prefixes(f, start, end)[j]).start() by {
        lemma_range_prefixes_disjoint(f, start, end, i, j);
    }
    lemma_range_prefixes_cover(f, start, end, x);
}

/// Computes `block_bits(cur, end, width)` for a `width`-bit address space.
pub fn largest_block(cur: u128, end: u128, width: u32) -> (b: u32)
    requires
        cur <= end,
        width <= 128,
        (end as int) < pow2i(width as nat),
    ensures
        b as nat == block_bits(cur as int, end as int, width as nat),
        b <= width,
{
    let r = end - cur;
    let ghost bb = block_bits(cur as int, end as int, width as nat);
    let mut b: u32 = 0;
    let mut q: u128 = cur;
    let mut m: u128 = 1;
    proof {
        lemma_max_align_le(cur as int, width as nat);
        lemma_max_fit_le(r as int + 1, width as nat);
        lemma2_to64();
        lemma_pow2_pos(0);
        lemma_div_multiples_vanish(cur as int, 1);
        lemma_mod_multiples_basic(cur as int, 1);
        lemma_mul_basics(cur as int);
    }
    while b < width && q % 2 == 0 && m <= r
        invariant
            cur <= end,
            r == end - cur,
            width <= 128,
            (end as int) < pow2i(width as nat),
            b <= width,
            b as nat <= bb,
            bb == block_bits(cur as int, end as int, width as nat),
            q as int == (cur as int) / pow2i(b as nat),
            (cur as int) % pow2i(b as nat) == 0,
            b < width ==> m as int == pow2i((b + 1) as nat) - 1,
        decreases width - b,
    {
        proof {
            let ci = cur as int;
            let bn = b as nat;
            lemma_pow2_pos(bn);
            lemma_align_step(ci, bn);
            assert(ci % pow2i((bn + 1) as nat) == 0);
            assert(pow2i((bn + 1) as nat) <= r as int + 1);
            lemma_max_align_iff(ci, width as nat, (bn + 1) as nat);
            lemma_max_fit_iff(r as int + 1, width as nat, (bn + 1) as nat);
            assert((bn + 1) as nat <= bb);
            // step q
            lemma_pow2_unfold((bn + 1) as nat);
            lemma_div_denominator(ci, pow2i(bn), 2);
            assert(ci / pow2i(bn) / 2 == ci / (pow2i(bn) * 2));
            lemma_mul_is_commutative(pow2i(bn), 2);
        }
        b = b + 1;
        q = q / 2;
        if b < width {
            proof {
                lemma_pow2_unfold((b + 1) as nat);
                lemma_pow2_le_max128(width as nat);
                lemma_pow2_strictly_increases_or_eq((b + 1) as nat, width as nat);
            }
            m = 2 * m + 1;
        }
    }
    proof {
        if b < width {
            // the loop condition failed; show bb cannot exceed b
            if (b as nat) < bb {
                let ci = cur as int;
                let bn = b as nat;
                lemma_max_align_le(ci, width as nat);
                lemma_max_fit_le(r as int + 1, width as nat);
                lemma_max_align_iff(ci, width as nat, (bn + 1) as nat);
                lemma_max_fit_iff(r as int + 1, width as nat, (bn + 1) as nat);
                assert(ci % pow2i((bn + 1) as nat) == 0);
                assert(pow2i((bn + 1) as nat) <= r as int + 1);
                lemma_align_step(ci, bn);
                assert(q % 2 == 0);
                assert(m <= r);
                assert(false);
            }
        } else {
            lemma_max_align_le(cur as int, width as nat);
            lemma_max_fit_le(r as int + 1, width as nat);
        }
    }
    b
}

/// Given `cur` divisible by `pow2(b)`, going one bit further is possible
/// exactly when the quotient is even.
pub proof fn lemma_align_step(cur: int, b: nat)
    requires
        0 <= cur,
        cur % pow2i(b) == 0,
    ensures
        cur % pow2i((b + 1) as nat) == 0 <==> (cur / pow2i(b)) % 2 == 0,
{
    let s = pow2i(b);
    let s2 = pow2i((b + 1) as nat);
    lemma_pow2_pos(b);
    lemma_pow2_unfold((b + 1) as nat);
    assert(s2 == 2 * s);
    let q = cur / s;
    lemma_fundamental_div_mod(cur, s);
    assert(cur == s * q);
    if q % 2 == 0 {
        let h = q / 2;
        lemma_fundamental_div_mod(q, 2);
        assert(q == 2 * h);
        assert(cur == s * (2 * h));
        lemma_mul_is_associative(s, 2, h);
        assert(cur == (s * 2) * h);
        lemma_mul_is_commutative(s, 2);
        assert(cur == s2 * h);
        lemma_mod_multiples_basic(h, s2);
        lemma_mul_is_commutative(h, s2);
        assert(cur % s2 == 0);
    }
    if cur % s2 == 0 {
        let k = cur / s2;
        lemma_fundamental_div_mod(cur, s2);
        assert(cur == s2 * k);
        assert(cur == (2 * s) * k);
        lemma_mul_is_associative(2, s, k);
        lemma_mul_is_commutative(2, s);
        lemma_mul_is_associative(s, 2, k);
        assert(cur == s * (2 * k));
        lemma_div_multiples_vanish(2 * k, s);
        assert((s * (2 * k)) / s == 2 * k);
        assert(q == 2 * k);
        lemma_mod_multiples_basic(k, 2);
        lemma_mul_is_commutative(k, 2);
        assert(q % 2 == 0);
    }
}

/// Decompose `[start, end]` into the greedy minimal CIDR list for family `f`.
pub fn summarize_range(f: IpFamily, start: u128, end: u128) -> (r: Vec<Prefix>)
    requires
        start <= end,
        (end as int) < pow2i(f.spec_width()),
    ensures
        r@ == range_prefixes(f, start as int, end as int),
{
    let width = f.width();
    let mut out: Vec<Prefix> = Vec::new();
    let mut cur = start;
    loop
        invariant_except_break
            start <= cur <= end,
            (end as int) < pow2i(f.spec_width()),
            width == f.spec_width(),
            out@ + range_prefixes(f, cur as int, end as int) == range_prefixes(
                f,
                start as int,
                end as int,
            ),
        ensures
            out@ == range_prefixes(f, start as int, end as int),
        decreases end - cur,
    {
        let b = largest_block(cur, end, width);
        proof {
            lemma_block_bits(cur as int, end as int, width as nat);
            lemma_pow2_pos(b as nat);
        }
        let p = Prefix { family: f, addr: cur, len: (width - b) as u8 };
        let m = pow2_minus1_u128(b);
        proof {
            let spec_p = Prefix {
                family: f,
                addr: (cur as int) as u128,
                len: (f.spec_width() - block_bits(cur as int, end as int, f.spec_width())) as u8,
            };
            assert(p == spec_p);
        }
        out.push(p);
        if end - cur <= m {
            proof {
                assert(cur as int + pow2i(b as nat) - 1 >= end as int);
                assert(range_prefixes(f, cur as int, end as int) =~= seq![p]);
                assert(out@ =~= range_prefixes(f, start as int, end as int));
            }
            break ;
        }
        proof {
            assert(cur as int + pow2i(b as nat) - 1 < end as int);
            assert(range_prefixes(f, cur as int, end as int) =~= seq![p] + range_prefixes(
                f,
                cur as int + pow2i(b as nat),
                end as int,
            ));
            assert(out@ + range_prefixes(f, cur as int + pow2i(b as nat), end as int)
                =~= range_prefixes(f, start as int, end as int));
        }
        cur = cur + m + 1;
    }
    out
}

} // verus!
