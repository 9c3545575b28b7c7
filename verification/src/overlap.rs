//! Exact intersection of two prefix collections: both sides are brought to
//! canonical segment form, a two-pointer sweep collects the intersection
//! segments, and each segment is decomposed into CIDR blocks.

use vstd::prelude::*;
use crate::common::IpFamily;
use crate::prefix::{pow2i, Prefix};
use crate::rangeset::{
    ARange, rs_covers, seg_form, lemma_seg_chain, lemma_seg_form_unique,
};
use crate::aggregate::{
    all_wf, pfx_covers, family_segs, segs_to_cidrs, aggregate_spec, family_segments,
    lemma_family_segs_props, lemma_segs_to_cidrs_props, lemma_pfx_covers_concat,
};
use crate::ranges::{block_bits, largest_block};

verus! {

/// Two-pointer sweep over two segment lists: the intersection segments, in
/// ascending order.
pub open spec fn sweep_segs(a: Seq<ARange>, b: Seq<ARange>) -> Seq<ARange>
    decreases a.len() + b.len(),
{
    if a.len() == 0 || b.len() == 0 {
        Seq::empty()
    } else {
        let s = if a[0].0 >= b[0].0 {
            a[0].0
        } else {
            b[0].0
        };
        let e = if a[0].1 <= b[0].1 {
            a[0].1
        } else {
            b[0].1
        };
        let head: Seq<ARange> = if s <= e {
            seq![(s, e)]
        } else {
            Seq::empty()
        };
        if a[0].1 < b[0].1 {
            head + sweep_segs(a.skip(1), b)
        } else {
            head + sweep_segs(a, b.skip(1))
        }
    }
}

/// The sweep covers exactly the addresses covered by both sides.
#[verifier::rlimit(60)]
pub proof fn lemma_sweep_covers(a: Seq<ARange>, b: Seq<ARange>)
    requires
        seg_form(a),
        seg_form(b),
    ensures
        forall|x: int|
            #[trigger] rs_covers(sweep_segs(a, b), x) == (rs_covers(a, x) && rs_covers(b, x)),
    decreases a.len() + b.len(),
{
    let r = sweep_segs(a, b);
    if a.len() == 0 || b.len() == 0 {
        assert(forall|x: int| !rs_covers(r, x));
    } else {
        let a0 = a[0];
        let b0 = b[0];
        let s = if a0.0 >= b0.0 {
            a0.0
        } else {
            b0.0
        };
        let e = if a0.1 <= b0.1 {
            a0.1
        } else {
            b0.1
        };
        let head: Seq<ARange> = if s <= e {
            seq![(s, e)]
        } else {
            Seq::empty()
        };
        let at = a.skip(1);
        let bt = b.skip(1);
        assert(forall|i: int| 0 <= i < at.len() ==> at[i] == a[i + 1]);
        assert(forall|i: int| 0 <= i < bt.len() ==> bt[i] == b[i + 1]);
        assert(seg_form(at));
        assert(seg_form(bt));
        let rec = if a0.1 < b0.1 {
            sweep_segs(at, b)
        } else {
            sweep_segs(a, bt)
        };
        if a0.1 < b0.1 {
            lemma_sweep_covers(at, b);
        } else {
            lemma_sweep_covers(a, bt);
        }
        assert(r == head + rec);
        assert(forall|i: int| 0 <= i < rec.len() ==> r[i + head.len()] == rec[i]);
        assert forall|x: int| #[trigger] rs_covers(r, x) == (rs_covers(a, x) && rs_covers(
            b,
            x,
        )) by {
            if rs_covers(r, x) {
                let i = choose|i: int| 0 <= i < r.len() && (#[trigger] r[i]).0 <= x <= r[i].1;
                if head.len() == 1 && i == 0 {
                    assert(a0.0 <= x <= a0.1);
                    assert(b0.0 <= x <= b0.1);
                    assert(rs_covers(a, x));
                    assert(rs_covers(b, x));
                } else {
                    assert(rec[i - head.len()].0 <= x <= rec[i - head.len()].1);
                    assert(rs_covers(rec, x));
                    if a0.1 < b0.1 {
                        assert(rs_covers(at, x));
                        let k = choose|k: int|
                            0 <= k < at.len() && (#[trigger] at[k]).0 <= x <= at[k].1;
                        assert(a[k + 1].0 <= x <= a[k + 1].1);
                        assert(rs_covers(a, x));
                    } else {
                        assert(rs_covers(bt, x));
                        let k = choose|k: int|
                            0 <= k < bt.len() && (#[trigger] bt[k]).0 <= x <= bt[k].1;
                        assert(b[k + 1].0 <= x <= b[k + 1].1);
                        assert(rs_covers(b, x));
                    }
                }
            }
            if rs_covers(a, x) && rs_covers(b, x) {
                let i = choose|i: int| 0 <= i < a.len() && (#[trigger] a[i]).0 <= x <= a[i].1;
                let j = choose|j: int| 0 <= j < b.len() && (#[trigger] b[j]).0 <= x <= b[j].1;
                if i == 0 && j == 0 {
                    assert(s <= x <= e);
                    assert(head[0].0 <= x <= head[0].1);
                    assert(r[0] == head[0]);
                    assert(rs_covers(r, x));
                } else if a0.1 < b0.1 {
                    // the dropped segment a0 cannot cover x unless j == 0 too
                    if i == 0 {
                        assert(j > 0);
                        lemma_seg_chain(b, 0, j);
                        assert(x <= a0.1 < b0.1);
                        assert(b[j].0 <= x);
                        assert(b0.1 + 1 < b[j].0);
                        assert(x <= b0.1);
                        assert(false);
                    }
                    assert(at[i - 1].0 <= x <= at[i - 1].1);
                    assert(rs_covers(at, x));
                    assert(rs_covers(rec, x));
                    let k = choose|k: int|
                        0 <= k < rec.len() && (#[trigger] rec[k]).0 <= x <= rec[k].1;
                    assert(r[k + head.len()] == rec[k]);
                    assert(rs_covers(r, x));
                } else {
                    if j == 0 {
                        assert(i > 0);
                        lemma_seg_chain(a, 0, i);
                        assert(x <= b0.1 <= a0.1);
                        assert(a[i].0 <= x);
                        assert(a0.1 + 1 < a[i].0);
                        assert(false);
                    }
                    assert(bt[j - 1].0 <= x <= bt[j - 1].1);
                    assert(rs_covers(bt, x));
                    assert(rs_covers(rec, x));
                    let k = choose|k: int|
                        0 <= k < rec.len() && (#[trigger] rec[k]).0 <= x <= rec[k].1;
                    assert(r[k + head.len()] == rec[k]);
                    assert(rs_covers(r, x));
                }
            }
        }
    }
}

/// The sweep's output is in segment form.
#[verifier::rlimit(60)]
pub proof fn lemma_sweep_seg_form(a: Seq<ARange>, b: Seq<ARange>)
    requires
        seg_form(a),
        seg_form(b),
    ensures
        seg_form(sweep_segs(a, b)),
    decreases a.len() + b.len(),
{
    let r = sweep_segs(a, b);
    if a.len() == 0 || b.len() == 0 {
    } else {
        let a0 = a[0];
        let b0 = b[0];
        let s = if a0.0 >= b0.0 {
            a0.0
        } else {
            b0.0
        };
        let e = if a0.1 <= b0.1 {
            a0.1
        } else {
            b0.1
        };
        let head: Seq<ARange> = if s <= e {
            seq![(s, e)]
        } else {
            Seq::empty()
        };
        let at = a.skip(1);
        let bt = b.skip(1);
        assert(forall|i: int| 0 <= i < at.len() ==> at[i] == a[i + 1]);
        assert(forall|i: int| 0 <= i < bt.len() ==> bt[i] == b[i + 1]);
        assert(seg_form(at));
        assert(seg_form(bt));
        let rec = if a0.1 < b0.1 {
            sweep_segs(at, b)
        } else {
            sweep_segs(a, bt)
        };
        if a0.1 < b0.1 {
            lemma_sweep_seg_form(at, b);
            lemma_sweep_covers(at, b);
        } else {
            lemma_sweep_seg_form(a, bt);
            lemma_sweep_covers(a, bt);
        }
        assert(r == head + rec);
        assert(forall|i: int| 0 <= i < rec.len() ==> r[i + head.len()] == rec[i]);
        if head.len() == 1 && rec.len() > 0 {
            let v = rec[0].0 as int;
            assert(rec[0].0 <= v <= rec[0].1);
            assert(rs_covers(rec, v));
            if a0.1 < b0.1 {
                assert(rs_covers(at, v));
                let k = choose|k: int| 0 <= k < at.len() && (#[trigger] at[k]).0 <= v <= at[k].1;
                if k > 0 {
                    lemma_seg_chain(at, 0, k);
                }
                assert(v >= a[1].0);
                lemma_seg_chain(a, 0, 1);
                assert(e <= a0.1);
                assert(e + 1 < v);
            } else {
                assert(rs_covers(bt, v));
                let k = choose|k: int| 0 <= k < bt.len() && (#[trigger] bt[k]).0 <= v <= bt[k].1;
                if k > 0 {
                    lemma_seg_chain(bt, 0, k);
                }
                assert(v >= b[1].0);
                lemma_seg_chain(b, 0, 1);
                assert(e <= b0.1);
                assert(e + 1 < v);
            }
        }
        assert(seg_form(r)) by {
            assert forall|i: int| 0 <= i < r.len() implies (#[trigger] r[i]).0 <= r[i].1 by {
                if head.len() == 1 && i == 0 {
                } else {
                    assert(r[i] == rec[i - head.len()]);
                }
            }
            assert forall|i: int| 0 <= i < r.len() - 1 implies (#[trigger] r[i]).1 + 1 < r[i
                + 1].0 by {
                if head.len() == 1 && i == 0 {
                    assert(r[1] == rec[0]);
                } else {
                    assert(r[i] == rec[i - head.len()]);
                    assert(r[i + 1] == rec[i + 1 - head.len()]);
                }
            }
        }
    }
}

/// The sweep's output is in segment form and covers exactly the addresses
/// covered by both sides.
pub proof fn lemma_sweep_props(a: Seq<ARange>, b: Seq<ARange>)
    requires
        seg_form(a),
        seg_form(b),
    ensures
        seg_form(sweep_segs(a, b)),
        forall|x: int|
            #[trigger] rs_covers(sweep_segs(a, b), x) == (rs_covers(a, x) && rs_covers(b, x)),
{
    lemma_sweep_covers(a, b);
    lemma_sweep_seg_form(a, b);
}

/// The sweep is symmetric in its two sides.
pub proof fn lemma_sweep_symmetric(a: Seq<ARange>, b: Seq<ARange>)
    requires
        seg_form(a),
        seg_form(b),
    ensures
        sweep_segs(a, b) == sweep_segs(b, a),
{
    lemma_sweep_props(a, b);
    lemma_sweep_props(b, a);
    lemma_seg_form_unique(sweep_segs(a, b), sweep_segs(b, a));
}

/// Sweeping a segment list against itself returns it unchanged.
pub proof fn lemma_sweep_self(a: Seq<ARange>)
    requires
        seg_form(a),
    ensures
        sweep_segs(a, a) == a,
{
    lemma_sweep_props(a, a);
    lemma_seg_form_unique(sweep_segs(a, a), a);
}

/// One family's share of the intersection.
pub open spec fn overlap_family(a: Seq<Prefix>, b: Seq<Prefix>, f: IpFamily) -> Seq<Prefix> {
    segs_to_cidrs(sweep_segs(family_segs(a, f), family_segs(b, f)), f)
}

/// The exact intersection of two prefix collections, in canonical form:
/// IPv4 blocks then IPv6 blocks.
pub open spec fn overlap_spec(a: Seq<Prefix>, b: Seq<Prefix>) -> Seq<Prefix> {
    overlap_family(a, b, IpFamily::V4) + overlap_family(a, b, IpFamily::V6)
}

/// The sweep of two families' segments stays inside the address space.
proof fn lemma_sweep_in_space(a: Seq<Prefix>, b: Seq<Prefix>, f: IpFamily)
    requires
        all_wf(a),
        all_wf(b),
    ensures
        ({
            let sw = sweep_segs(family_segs(a, f), family_segs(b, f));
            &&& seg_form(sw)
            &&& forall|k: int| 0 <= k < sw.len() ==> (#[trigger] sw[k]).0 <= sw[k].1
            &&& forall|k: int| 0 <= k < sw.len() ==> (#[trigger] sw[k].1 as int) < pow2i(
                f.spec_width(),
            )
        }),
{
    let sa = family_segs(a, f);
    let sb = family_segs(b, f);
    lemma_family_segs_props(a, f);
    lemma_family_segs_props(b, f);
    lemma_sweep_props(sa, sb);
    let sw = sweep_segs(sa, sb);
    assert forall|k: int| 0 <= k < sw.len() implies (#[trigger] sw[k].1 as int) < pow2i(
        f.spec_width(),
    ) by {
        assert(sw[k].0 <= sw[k].1 as int <= sw[k].1);
        assert(rs_covers(sw, sw[k].1 as int));
        assert(pfx_covers(a, f, sw[k].1 as int));
        let j = choose|j: int|
            0 <= j < a.len() && (#[trigger] a[j]).family == f && a[j].covers_addr(
                sw[k].1 as int,
            );
        a[j].lemma_end_in_space();
    }
}

/// Overlap covers exactly the addresses covered by both inputs, and its
/// members are well-formed.
#[verifier::rlimit(100)]
pub proof fn lemma_overlap_covers(a: Seq<Prefix>, b: Seq<Prefix>, f: IpFamily, x: int)
    requires
        all_wf(a),
        all_wf(b),
    ensures
        all_wf(overlap_spec(a, b)),
        pfx_covers(overlap_spec(a, b), f, x) == (pfx_covers(a, f, x) && pfx_covers(b, f, x)),
{
    let c4 = overlap_family(a, b, IpFamily::V4);
    let c6 = overlap_family(a, b, IpFamily::V6);
    lemma_sweep_in_space(a, b, IpFamily::V4);
    lemma_sweep_in_space(a, b, IpFamily::V6);
    lemma_segs_to_cidrs_props(
        sweep_segs(family_segs(a, IpFamily::V4), family_segs(b, IpFamily::V4)),
        IpFamily::V4,
    );
    lemma_segs_to_cidrs_props(
        sweep_segs(family_segs(a, IpFamily::V6), family_segs(b, IpFamily::V6)),
        IpFamily::V6,
    );
    lemma_family_segs_props(a, IpFamily::V4);
    lemma_family_segs_props(b, IpFamily::V4);
    lemma_family_segs_props(a, IpFamily::V6);
    lemma_family_segs_props(b, IpFamily::V6);
    lemma_sweep_props(family_segs(a, IpFamily::V4), family_segs(b, IpFamily::V4));
    lemma_sweep_props(family_segs(a, IpFamily::V6), family_segs(b, IpFamily::V6));
    assert(all_wf(overlap_spec(a, b))) by {
        assert(forall|i: int| 0 <= i < c4.len() ==> overlap_spec(a, b)[i] == c4[i]);
        assert(forall|i: int| 0 <= i < c6.len() ==> overlap_spec(a, b)[i + c4.len()] == c6[i]);
    }
    lemma_pfx_covers_concat(c4, c6, f, x);
    if pfx_covers(c4, f, x) {
        let i = choose|i: int|
            0 <= i < c4.len() && (#[trigger] c4[i]).family == f && c4[i].covers_addr(x);
        assert(f == IpFamily::V4);
    }
    if pfx_covers(c6, f, x) {
        let i = choose|i: int|
            0 <= i < c6.len() && (#[trigger] c6[i]).family == f && c6[i].covers_addr(x);
        assert(f == IpFamily::V6);
    }
}

/// Overlap is symmetric.
pub proof fn lemma_overlap_symmetric(a: Seq<Prefix>, b: Seq<Prefix>)
    requires
        all_wf(a),
        all_wf(b),
    ensures
        overlap_spec(a, b) == overlap_spec(b, a),
{
    lemma_family_segs_props(a, IpFamily::V4);
    lemma_family_segs_props(b, IpFamily::V4);
    lemma_family_segs_props(a, IpFamily::V6);
    lemma_family_segs_props(b, IpFamily::V6);
    lemma_sweep_symmetric(family_segs(a, IpFamily::V4), family_segs(b, IpFamily::V4));
    lemma_sweep_symmetric(family_segs(a, IpFamily::V6), family_segs(b, IpFamily::V6));
}

/// The overlap of a collection with itself is its aggregation.
pub proof fn lemma_overlap_self(a: Seq<Prefix>)
    requires
        all_wf(a),
    ensures
        overlap_spec(a, a) == aggregate_spec(a),
{
    lemma_family_segs_props(a, IpFamily::V4);
    lemma_family_segs_props(a, IpFamily::V6);
    lemma_sweep_self(family_segs(a, IpFamily::V4));
    lemma_sweep_self(family_segs(a, IpFamily::V6));
}

/// The overlap of collections covering disjoint address space is empty.
pub proof fn lemma_overlap_disjoint_empty(a: Seq<Prefix>, b: Seq<Prefix>)
    requires
        all_wf(a),
        all_wf(b),
        forall|f: IpFamily, x: int| !(#[trigger] pfx_covers(a, f, x) && pfx_covers(b, f, x)),
    ensures
        overlap_spec(a, b) == Seq::<Prefix>::empty(),
{
    assert forall|f: IpFamily| #[trigger] overlap_family(a, b, f) =~= Seq::<Prefix>::empty() by {
        let sa = family_segs(a, f);
        let sb = family_segs(b, f);
        lemma_family_segs_props(a, f);
        lemma_family_segs_props(b, f);
        lemma_sweep_props(sa, sb);
        let sw = sweep_segs(sa, sb);
        if sw.len() > 0 {
            let v = sw[0].0 as int;
            assert(sw[0].0 <= v <= sw[0].1);
            assert(rs_covers(sw, v));
            assert(pfx_covers(a, f, v) && pfx_covers(b, f, v));
            assert(false);
        }
        assert(sw =~= Seq::<ARange>::empty());
        assert(sw.map_values(|r: ARange| crate::aggregate::seg_prefixes(f, r)) =~= Seq::<
            Seq<Prefix>,
        >::empty());
    }
    assert(overlap_spec(a, b) =~= Seq::<Prefix>::empty());
}

/// Executable two-pointer sweep.
fn sweep(a: &Vec<ARange>, b: &Vec<ARange>) -> (r: Vec<ARange>)
    ensures
        r@ == sweep_segs(a@, b@),
{
    let mut out: Vec<ARange> = Vec::new();
    let mut i: usize = 0;
    let mut j: usize = 0;
    proof {
        assert(a@.skip(0) =~= a@);
        assert(b@.skip(0) =~= b@);
    }
    while i < a.len() && j < b.len()
        invariant
            i <= a@.len(),
            j <= b@.len(),
            sweep_segs(a@, b@) == out@ + sweep_segs(a@.skip(i as int), b@.skip(j as int)),
        decreases a@.len() - i + b@.len() - j,
    {
        let (cs, ce) = a[i];
        let (ds, de) = b[j];
        let s = if cs >= ds {
            cs
        } else {
            ds
        };
        let e = if ce <= de {
            ce
        } else {
            de
        };
        let ghost ta = a@.skip(i as int);
        let ghost tb = b@.skip(j as int);
        proof {
            assert(ta[0] == a@[i as int]);
            assert(tb[0] == b@[j as int]);
            assert(ta.skip(1) =~= a@.skip(i as int + 1));
            assert(tb.skip(1) =~= b@.skip(j as int + 1));
        }
        if s <= e {
            out.push((s, e));
        }
        proof {
            let head: Seq<ARange> = if s <= e {
                seq![(s, e)]
            } else {
                Seq::empty()
            };
            if ce < de {
                assert(sweep_segs(ta, tb) == head + sweep_segs(ta.skip(1), tb));
                assert(out@ + sweep_segs(a@.skip(i as int + 1), b@.skip(j as int))
                    =~= sweep_segs(a@, b@));
            } else {
                assert(sweep_segs(ta, tb) == head + sweep_segs(ta, tb.skip(1)));
                assert(out@ + sweep_segs(a@.skip(i as int), b@.skip(j as int + 1))
                    =~= sweep_segs(a@, b@));
            }
        }
        if ce < de {
            i = i + 1;
        } else {
            j = j + 1;
        }
    }
    proof {
        assert(sweep_segs(a@.skip(i as int), b@.skip(j as int)) =~= Seq::<ARange>::empty());
        assert(out@ =~= sweep_segs(a@, b@));
    }
    out
}

/// Compute the exact intersection of two prefix collections.  Both sides
/// are aggregated first; the result is canonical, IPv4 blocks before IPv6.
pub fn find_overlaps(country_ips: &Vec<Prefix>, as_ips: &Vec<Prefix>) -> (r: Vec<Prefix>)
    requires
        all_wf(country_ips@),
        all_wf(as_ips@),
    ensures
        r@ == overlap_spec(country_ips@, as_ips@),
        all_wf(r@),
{
    let ca4 = family_segments(country_ips, IpFamily::V4);
    let aa4 = family_segments(as_ips, IpFamily::V4);
    let sw4 = sweep(&ca4, &aa4);
    proof {
        lemma_sweep_in_space(country_ips@, as_ips@, IpFamily::V4);
    }
    let mut r = crate::aggregate::segs_to_prefixes(&sw4, IpFamily::V4);
    let ca6 = family_segments(country_ips, IpFamily::V6);
    let aa6 = family_segments(as_ips, IpFamily::V6);
    let sw6 = sweep(&ca6, &aa6);
    proof {
        lemma_sweep_in_space(country_ips@, as_ips@, IpFamily::V6);
    }
    let mut r6 = crate::aggregate::segs_to_prefixes(&sw6, IpFamily::V6);
    r.append(&mut r6);
    proof {
        lemma_overlap_covers(country_ips@, as_ips@, IpFamily::V4, 0);
    }
    r
}

/// Largest CIDR block size, in bits of host space, usable at `current`
/// without passing `end`, for the 128-bit family; returns the prefix length.
pub fn largest_ipv6_block_in_overlap(current: u128, end: u128) -> (r: u8)
    requires
        current <= end,
    ensures
        r as nat == 128 - block_bits(current as int, end as int, 128),
{
    proof {
        crate::prefix::lemma_pow2_128();
    }
    let b = largest_block(current, end, 128);
    (128 - b) as u8
}

} // verus!
