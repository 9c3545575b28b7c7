//! The IPv4-facing surface of the range engine: block sizing helpers, range
//! summarization, and the RIR `start, count` form.

use vstd::prelude::*;
use vstd::arithmetic::power2::*;
use crate::common::IpFamily;
use crate::prefix::{pow2i, Prefix, lemma_pow2_128};
use crate::ranges::{
    max_align, max_fit, block_bits, range_prefixes, summarize_range, lemma_max_align_iff,
    lemma_max_fit_iff, lemma_max_align_le, lemma_max_fit_le, lemma_range_prefixes_props,
};
use crate::error::AppError;
use crate::text::{
    all_digits_b, dec_value_b, valid_v4_addr_b, v4_addr_value_b, parse_v4_addr, parse_u64_bytes,
};
use vstd::string::StringSliceAdditionalSpecFns;

verus! {

/// Floor of the base-two logarithm, with zero mapped to zero.
pub trait ILog2Sub1 {
    fn ilog2_sub1(&self) -> u32;
}

impl ILog2Sub1 for u32 {
    fn ilog2_sub1(&self) -> (r: u32)
        ensures
            *self == 0 ==> r == 0,
            *self > 0 ==> r <= 31 && pow2(r as nat) <= *self < pow2((r + 1) as nat),
    {
        if *self == 0 {
            return 0;
        }
        let x = *self;
        let mut r: u32 = 0;
        let mut p: u32 = 1;
        proof {
            lemma2_to64();
        }
        while p <= x / 2
            invariant
                x >= 1,
                r <= 31,
                p >= 1,
                p as int == pow2i(r as nat),
                p <= x,
            decreases x - p,
        {
            proof {
                lemma_pow2_unfold((r + 1) as nat);
                if r + 1 > 31 {
                    lemma2_to64();
                    assert(pow2(32) == 0x1_0000_0000) by {
                        lemma_pow2_adds(16, 16);
                        lemma2_to64();
                    }
                }
            }
            p = p * 2;
            r = r + 1;
        }
        proof {
            lemma_pow2_unfold((r + 1) as nat);
        }
        r
    }
}

/// Floor of the base-two logarithm for `u64`, with zero mapped to zero.
pub trait ILog2Sub1U64 {
    fn ilog2_sub1_u64(&self) -> u32;
}

impl ILog2Sub1U64 for u64 {
    fn ilog2_sub1_u64(&self) -> (r: u32)
        ensures
            *self == 0 ==> r == 0,
            *self > 0 ==> r <= 63 && pow2(r as nat) <= *self < pow2((r + 1) as nat),
    {
        if *self == 0 {
            return 0;
        }
        let x = *self;
        let mut r: u32 = 0;
        let mut p: u64 = 1;
        proof {
            lemma2_to64();
        }
        while p <= x / 2
            invariant
                x >= 1,
                r <= 63,
                p >= 1,
                p as int == pow2i(r as nat),
                p <= x,
            decreases x - p,
        {
            proof {
                lemma_pow2_unfold((r + 1) as nat);
                if r + 1 > 63 {
                    lemma2_to64();
                    assert(pow2(64) == 0x1_0000_0000_0000_0000) by {
                        lemma_pow2_adds(32, 32);
                        lemma_pow2_adds(16, 16);
                        lemma2_to64();
                    }
                }
            }
            p = p * 2;
            r = r + 1;
        }
        proof {
            lemma_pow2_unfold((r + 1) as nat);
        }
        r
    }
}

/// Trailing zero bits of a 32-bit word, as the largest dividing power.
fn trailing_zeros_32(x: u32) -> (r: u32)
    ensures
        r as nat == max_align(x as int, 32),
{
    let mut j: u32 = 0;
    let mut q: u32 = x;
    proof {
        lemma_max_align_le(x as int, 32);
        lemma2_to64();
        vstd::arithmetic::div_mod::lemma_div_multiples_vanish(x as int, 1);
        vstd::arithmetic::div_mod::lemma_mod_multiples_basic(x as int, 1);
        vstd::arithmetic::mul::lemma_mul_basics(x as int);
    }
    while j < 32 && q % 2 == 0
        invariant
            j <= 32,
            q as int == (x as int) / pow2i(j as nat),
            (x as int) % pow2i(j as nat) == 0,
            j as nat <= max_align(x as int, 32),
        decreases 32 - j,
    {
        proof {
            let bn = j as nat;
            lemma_pow2_pos(bn);
            crate::ranges::lemma_align_step(x as int, bn);
            lemma_max_align_iff(x as int, 32, (bn + 1) as nat);
            lemma_pow2_unfold((bn + 1) as nat);
            vstd::arithmetic::div_mod::lemma_div_denominator(x as int, pow2i(bn), 2);
            vstd::arithmetic::mul::lemma_mul_is_commutative(pow2i(bn), 2);
        }
        q = q / 2;
        j = j + 1;
    }
    proof {
        if j < 32 && (j as nat) < max_align(x as int, 32) {
            lemma_max_align_iff(x as int, 32, (j + 1) as nat);
            crate::ranges::lemma_align_step(x as int, j as nat);
            assert(false);
        }
        lemma_max_align_le(x as int, 32);
    }
    j
}

/// Largest prefix length usable at `current` without passing `end`, for
/// the 32-bit family: `32 - min(trailing zeros, fitting log2)`.
pub fn largest_ipv4_block(current: u64, end: u64) -> (r: u8)
    requires
        current <= end,
        end - current < u64::MAX,
    ensures
        r <= 32,
        current <= u32::MAX ==> r as nat == 32 - block_bits(current as int, end as int, 32),
{
    let tz: u32 = trailing_zeros_32(current as u32);
    let n: u64 = end - current + 1;
    let span: u32 = n.ilog2_sub1_u64();
    let mb = if tz <= span {
        tz
    } else {
        span
    };
    proof {
        lemma_max_align_le(current as u32 as int, 32);
        lemma_max_fit_le(n as int, 32);
        if current <= u32::MAX {
            assert(current as u32 == current);
            let fit = max_fit(n as int, 32);
            // span is the floor log2 of n; the capped fit is its min with 32
            assert(n >= 1);
            lemma_max_fit_iff(n as int, 32, if span <= 32 {
                span as nat
            } else {
                32
            });
            if span < 32 {
                if fit > span as nat {
                    lemma_max_fit_iff(n as int, 32, (span + 1) as nat);
                    crate::prefix::lemma_pow2_strictly_increases_or_eq(
                        (span + 1) as nat,
                        fit,
                    );
                    assert(false);
                }
                assert(fit <= span as nat);
                lemma_max_fit_iff(n as int, 32, span as nat);
                assert(fit == span as nat);
            } else {
                crate::prefix::lemma_pow2_strictly_increases_or_eq(32, span as nat);
                assert(pow2(32) <= n);
                lemma_max_fit_iff(n as int, 32, 32);
                assert(fit == 32);
            }
            // min(tz, span) equals min of the capped quantities
            assert(mb as nat == block_bits(current as int, end as int, 32));
        }
    }
    (32 - mb) as u8
}

/// Summarize an IPv4 range given as 64-bit bounds: the greedy minimal CIDR
/// list of `[start, min(end, u32::MAX)]`; an inverted range or one starting
/// beyond the 32-bit space yields nothing.
pub fn ipv4_summarize_range(start: u64, end: u64) -> (r: Vec<Prefix>)
    ensures
        start > end || start > u32::MAX ==> r@ == Seq::<Prefix>::empty(),
        start <= end && start <= u32::MAX ==> r@ == range_prefixes(
            IpFamily::V4,
            start as int,
            if end <= u32::MAX {
                end as int
            } else {
                u32::MAX as int
            },
        ),
        crate::aggregate::all_wf(r@),
{
    if start > end || start > 0xFFFF_FFFFu64 {
        let r: Vec<Prefix> = Vec::new();
        proof {
            assert(r@ =~= Seq::<Prefix>::empty());
        }
        return r;
    }
    let e: u64 = if end <= 0xFFFF_FFFFu64 {
        end
    } else {
        0xFFFF_FFFFu64
    };
    proof {
        lemma_pow2_128();
    }
    let r = summarize_range(IpFamily::V4, start as u128, e as u128);
    proof {
        lemma_range_prefixes_props(IpFamily::V4, start as int, e as int);
    }
    r
}

/// What an RIR IPv4 record `(start address, count)` denotes: the greedy
/// CIDR list of `[start, start + count - 1]`, or nothing when the address
/// is malformed, the count is not a positive number, or the range leaves
/// the 32-bit space.
pub open spec fn spec_v4_range(s0: Seq<u8>, s1: Seq<u8>) -> Option<Seq<Prefix>> {
    if !valid_v4_addr_b(s0) {
        None
    } else if !(s1.len() > 0 && all_digits_b(s1) && dec_value_b(s1) <= u64::MAX) {
        None
    } else if dec_value_b(s1) == 0 {
        None
    } else if v4_addr_value_b(s0) + dec_value_b(s1) - 1 > u32::MAX {
        None
    } else {
        Some(
            range_prefixes(
                IpFamily::V4,
                v4_addr_value_b(s0),
                v4_addr_value_b(s0) + dec_value_b(s1) - 1,
            ),
        )
    }
}

/// Expand an RIR IPv4 record, given as raw field bytes.
pub fn parse_ipv4_range_to_cidrs_bytes(s0: &Vec<u8>, s1: &Vec<u8>) -> (r: Option<Vec<Prefix>>)
    ensures
        match r {
            Some(v) => spec_v4_range(s0@, s1@) == Some(v@) && crate::aggregate::all_wf(v@),
            None => spec_v4_range(s0@, s1@) is None,
        },
{
    let a = match parse_v4_addr(s0) {
        Some(a) => a,
        None => {
            return None;
        },
    };
    let w = match parse_u64_bytes(s1) {
        Some(w) => w,
        None => {
            return None;
        },
    };
    if w == 0 {
        return None;
    }
    if w - 1 > 0xFFFF_FFFFu64 - (a as u64) {
        return None;
    }
    let e: u64 = a as u64 + (w - 1);
    let r = ipv4_summarize_range(a as u64, e);
    Some(r)
}

/// Expand an RIR IPv4 record `(start address, count)` into CIDR blocks.
pub fn parse_ipv4_range_to_cidrs(start_str: &str, value_str: &str) -> (r: Result<
    Vec<Prefix>,
    AppError,
>)
    ensures
        match r {
            Ok(v) => spec_v4_range(start_str.spec_bytes(), value_str.spec_bytes()) == Some(v@),
            Err(_) => spec_v4_range(start_str.spec_bytes(), value_str.spec_bytes()) is None,
        },
        r matches Ok(v) ==> crate::aggregate::all_wf(v@),
{
    let sb = start_str.as_bytes_vec();
    let vb = value_str.as_bytes_vec();
    match parse_ipv4_range_to_cidrs_bytes(&sb, &vb) {
        Some(v) => Ok(v),
        None => Err(AppError::ParseError(String::from_str("invalid IPv4 record"))),
    }
}

} // verus!
