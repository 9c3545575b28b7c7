//! Aggregation of an arbitrary prefix collection into the canonical minimal
//! covering set, per family: convert to intervals, sort, coalesce, and
//! re-decompose each coalesced interval greedily.

use vstd::prelude::*;
use vstd::relations::sorted_by;
use vstd::seq_lib::group_to_multiset_ensures;
use crate::common::IpFamily;
use crate::prefix::{pow2i, Prefix, lemma_pow2_le_max128};
use crate::rangeset::{
    ARange, rleq, rs_valid, rs_covers, seg_form, coalesce, sort_ranges, coalesce_ranges,
    lemma_rleq_total, lemma_covers_permutation, lemma_covers_concat, lemma_coalesce_props,
    lemma_seg_form_unique,
};
use crate::ranges::{range_prefixes, lemma_range_prefixes_props, lemma_range_prefixes_cover};

verus! {

/// Every prefix in the collection is well-formed.
pub open spec fn all_wf(ps: Seq<Prefix>) -> bool {
    forall|i: int| 0 <= i < ps.len() ==> (#[trigger] ps[i]).wf()
}

/// Whether some prefix of family `f` in `ps` contains the address `x`.
pub open spec fn pfx_covers(ps: Seq<Prefix>, f: IpFamily, x: int) -> bool {
    exists|i: int|
        0 <= i < ps.len() && (#[trigger] ps[i]).family == f && ps[i].covers_addr(x)
}

/// The address interval of a prefix.
pub open spec fn prefix_range(p: Prefix) -> ARange {
    (p.addr, (p.addr + p.size() - 1) as u128)
}

/// The intervals of the family-`f` members of `ps`, in input order.
pub open spec fn ranges_of(ps: Seq<Prefix>, f: IpFamily) -> Seq<ARange>
    decreases ps.len(),
{
    if ps.len() == 0 {
        Seq::empty()
    } else {
        ranges_of(ps.drop_last(), f) + (if ps.last().family == f {
            seq![prefix_range(ps.last())]
        } else {
            Seq::empty()
        })
    }
}

/// The canonical segment decomposition of the family-`f` address space
/// covered by `ps`.
pub open spec fn family_segs(ps: Seq<Prefix>, f: IpFamily) -> Seq<ARange> {
    coalesce(ranges_of(ps, f).sort_by(rleq()))
}

/// Greedy CIDR decomposition of one interval.
pub open spec fn seg_prefixes(f: IpFamily, r: ARange) -> Seq<Prefix> {
    range_prefixes(f, r.0 as int, r.1 as int)
}

/// Concatenated decomposition of an interval list.
pub open spec fn segs_to_cidrs(segs: Seq<ARange>, f: IpFamily) -> Seq<Prefix> {
    segs.map_values(|r: ARange| seg_prefixes(f, r)).flatten()
}

/// The canonical minimal prefix set of family `f` covering what `ps` covers.
pub open spec fn family_cidrs(ps: Seq<Prefix>, f: IpFamily) -> Seq<Prefix> {
    segs_to_cidrs(family_segs(ps, f), f)
}

/// The canonical aggregated form of `ps`: IPv4 blocks then IPv6 blocks,
/// each family sorted, deduplicated and maximally merged.
pub open spec fn aggregate_spec(ps: Seq<Prefix>) -> Seq<Prefix> {
    family_cidrs(ps, IpFamily::V4) + family_cidrs(ps, IpFamily::V6)
}

/// A well-formed prefix's interval is nonempty and sits inside the family's
/// address space.
pub proof fn lemma_prefix_range(p: Prefix)
    requires
        p.wf(),
    ensures
        prefix_range(p).0 as int == p.start(),
        prefix_range(p).1 as int == p.end(),
        prefix_range(p).0 <= prefix_range(p).1,
        (prefix_range(p).1 as int) < pow2i(p.family.spec_width()),
{
    p.lemma_end_in_space();
    lemma_pow2_le_max128(p.family.spec_width());
}

/// Coverage of a prefix concatenation splits over the parts.
pub proof fn lemma_pfx_covers_concat(a: Seq<Prefix>, b: Seq<Prefix>, f: IpFamily, x: int)
    ensures
        pfx_covers(a + b, f, x) == (pfx_covers(a, f, x) || pfx_covers(b, f, x)),
{
    let c = a + b;
    if pfx_covers(c, f, x) {
        let i = choose|i: int|
            0 <= i < c.len() && (#[trigger] c[i]).family == f && c[i].covers_addr(x);
        if i < a.len() {
            assert(a[i] == c[i]);
            assert(pfx_covers(a, f, x));
        } else {
            assert(b[i - a.len()] == c[i]);
            assert(pfx_covers(b, f, x));
        }
    }
    if pfx_covers(a, f, x) {
        let i = choose|i: int|
            0 <= i < a.len() && (#[trigger] a[i]).family == f && a[i].covers_addr(x);
        assert(c[i] == a[i]);
        assert(pfx_covers(c, f, x));
    }
    if pfx_covers(b, f, x) {
        let i = choose|i: int|
            0 <= i < b.len() && (#[trigger] b[i]).family == f && b[i].covers_addr(x);
        assert(c[i + a.len()] == b[i]);
        assert(pfx_covers(c, f, x));
    }
}

/// The interval list of a family covers exactly what that family's prefixes
/// cover, with valid in-space intervals.
pub proof fn lemma_ranges_of_props(ps: Seq<Prefix>, f: IpFamily)
    requires
        all_wf(ps),
    ensures
        rs_valid(ranges_of(ps, f)),
        forall|i: int|
            0 <= i < ranges_of(ps, f).len() ==> (#[trigger] ranges_of(ps, f)[i].1 as int)
                < pow2i(f.spec_width()),
        forall|x: int| #[trigger] rs_covers(ranges_of(ps, f), x) == pfx_covers(ps, f, x),
    decreases ps.len(),
{
    let r = ranges_of(ps, f);
    if ps.len() == 0 {
        assert(forall|x: int| !rs_covers(r, x));
        assert(forall|x: int| !pfx_covers(ps, f, x));
    } else {
        let ps0 = ps.drop_last();
        let last = ps.last();
        assert(all_wf(ps0)) by {
            assert(forall|i: int| 0 <= i < ps0.len() ==> ps0[i] == ps[i]);
        }
        lemma_ranges_of_props(ps0, f);
        let r0 = ranges_of(ps0, f);
        let tailpart: Seq<ARange> = if last.family == f {
            seq![prefix_range(last)]
        } else {
            Seq::empty()
        };
        assert(r == r0 + tailpart);
        if last.family == f {
            lemma_prefix_range(last);
        }
        assert(rs_valid(r)) by {
            assert(forall|i: int| 0 <= i < r0.len() ==> r[i] == r0[i]);
            if last.family == f {
                assert(r[r.len() - 1] == prefix_range(last));
            }
        }
        assert forall|i: int| 0 <= i < r.len() implies (#[trigger] r[i].1 as int) < pow2i(
            f.spec_width(),
        ) by {
            if i < r0.len() {
                assert(r[i] == r0[i]);
            } else {
                assert(r[i] == prefix_range(last));
            }
        }
        assert forall|x: int| #[trigger] rs_covers(r, x) == pfx_covers(ps, f, x) by {
            lemma_covers_concat(r0, tailpart, x);
            // relate pfx_covers over ps to ps0 plus the last element
            if pfx_covers(ps, f, x) {
                let i = choose|i: int|
                    0 <= i < ps.len() && (#[trigger] ps[i]).family == f && ps[i].covers_addr(x);
                if i < ps.len() - 1 {
                    assert(ps0[i] == ps[i]);
                    assert(pfx_covers(ps0, f, x));
                } else {
                    assert(tailpart[0].0 <= x <= tailpart[0].1);
                    assert(rs_covers(tailpart, x));
                }
            }
            if pfx_covers(ps0, f, x) {
                let i = choose|i: int|
                    0 <= i < ps0.len() && (#[trigger] ps0[i]).family == f && ps0[i].covers_addr(
                        x,
                    );
                assert(ps[i] == ps0[i]);
                assert(pfx_covers(ps, f, x));
            }
            if rs_covers(tailpart, x) {
                let i = choose|i: int|
                    0 <= i < tailpart.len() && (#[trigger] tailpart[i]).0 <= x <= tailpart[i].1;
                assert(last.family == f);
                assert(last.covers_addr(x));
                assert(ps[ps.len() - 1] == last);
                assert(pfx_covers(ps, f, x));
            }
        }
    }
}

/// The canonical segments of a family: in segment form, inside the address
/// space, covering exactly what the family's prefixes cover.
pub proof fn lemma_family_segs_props(ps: Seq<Prefix>, f: IpFamily)
    requires
        all_wf(ps),
    ensures
        seg_form(family_segs(ps, f)),
        forall|i: int|
            0 <= i < family_segs(ps, f).len() ==> (#[trigger] family_segs(ps, f)[i].1 as int)
                < pow2i(f.spec_width()),
        forall|x: int| #[trigger] rs_covers(family_segs(ps, f), x) == pfx_covers(ps, f, x),
{
    broadcast use group_to_multiset_ensures;

    let r = ranges_of(ps, f);
    lemma_ranges_of_props(ps, f);
    lemma_rleq_total();
    let s = r.sort_by(rleq());
    r.lemma_sort_by_ensures(rleq());
    assert(rs_valid(s)) by {
        assert forall|i: int| 0 <= i < s.len() implies (#[trigger] s[i]).0 <= s[i].1 by {
            assert(s.contains(s[i]));
            assert(s.to_multiset().count(s[i]) > 0);
            assert(r.to_multiset().count(s[i]) > 0);
            assert(r.contains(s[i]));
            let j = choose|j: int| 0 <= j < r.len() && r[j] == s[i];
        }
    }
    assert forall|i: int| 0 <= i < s.len() implies (#[trigger] s[i].1 as int) < pow2i(
        f.spec_width(),
    ) by {
        assert(s.contains(s[i]));
        assert(s.to_multiset().count(s[i]) > 0);
        assert(r.to_multiset().count(s[i]) > 0);
        assert(r.contains(s[i]));
        let j = choose|j: int| 0 <= j < r.len() && r[j] == s[i];
    }
    lemma_coalesce_props(s);
    let c = coalesce(s);
    assert forall|x: int| #[trigger] rs_covers(c, x) == pfx_covers(ps, f, x) by {
        lemma_covers_permutation(r, s, x);
    }
    assert forall|i: int| 0 <= i < c.len() implies (#[trigger] c[i].1 as int) < pow2i(
        f.spec_width(),
    ) by {
        assert(c[i].0 <= c[i].1 as int <= c[i].1);
        assert(rs_covers(c, c[i].1 as int));
        assert(pfx_covers(ps, f, c[i].1 as int));
        let j = choose|j: int|
            0 <= j < ps.len() && (#[trigger] ps[j]).family == f && ps[j].covers_addr(
                c[i].1 as int,
            );
        ps[j].lemma_end_in_space();
    }
}

/// Unfolding `segs_to_cidrs` one interval at a time.
pub proof fn lemma_segs_to_cidrs_step(segs: Seq<ARange>, f: IpFamily)
    requires
        segs.len() > 0,
    ensures
        segs_to_cidrs(segs, f) == segs_to_cidrs(segs.drop_last(), f) + seg_prefixes(
            f,
            segs.last(),
        ),
{
    let g = |r: ARange| seg_prefixes(f, r);
    let m0 = segs.drop_last().map_values(g);
    assert(segs.map_values(g) =~= m0.push(g(segs.last())));
    Seq::lemma_flatten_push(m0, g(segs.last()));
}

/// Decomposing a segment list yields well-formed prefixes of the family
/// covering exactly the segments.
pub proof fn lemma_segs_to_cidrs_props(segs: Seq<ARange>, f: IpFamily)
    requires
        forall|i: int| 0 <= i < segs.len() ==> (#[trigger] segs[i]).0 <= segs[i].1,
        forall|i: int|
            0 <= i < segs.len() ==> (#[trigger] segs[i].1 as int) < pow2i(f.spec_width()),
    ensures
        ({
            let c = segs_to_cidrs(segs, f);
            &&& forall|i: int| 0 <= i < c.len() ==> (#[trigger] c[i]).wf() && c[i].family == f
            &&& forall|x: int| #[trigger] pfx_covers(c, f, x) == rs_covers(segs, x)
        }),
    decreases segs.len(),
{
    let c = segs_to_cidrs(segs, f);
    if segs.len() == 0 {
        assert(segs.map_values(|r: ARange| seg_prefixes(f, r)) =~= Seq::<Seq<Prefix>>::empty());
        assert(c =~= Seq::<Prefix>::empty());
        assert(forall|x: int| !pfx_covers(c, f, x));
        assert(forall|x: int| !rs_covers(segs, x));
    } else {
        let s0 = segs.drop_last();
        let last = segs.last();
        assert(forall|i: int| 0 <= i < s0.len() ==> s0[i] == segs[i]);
        lemma_segs_to_cidrs_props(s0, f);
        lemma_segs_to_cidrs_step(segs, f);
        let c0 = segs_to_cidrs(s0, f);
        let blk = seg_prefixes(f, last);
        assert(c == c0 + blk);
        lemma_range_prefixes_props(f, last.0 as int, last.1 as int);
        assert forall|i: int| 0 <= i < c.len() implies (#[trigger] c[i]).wf() && c[i].family
            == f by {
            if i < c0.len() {
                assert(c[i] == c0[i]);
            } else {
                assert(c[i] == blk[i - c0.len()]);
            }
        }
        assert forall|x: int| #[trigger] pfx_covers(c, f, x) == rs_covers(segs, x) by {
            lemma_pfx_covers_concat(c0, blk, f, x);
            lemma_range_prefixes_cover(f, last.0 as int, last.1 as int, x);
            // blk covers x exactly when last covers x
            if pfx_covers(blk, f, x) {
                let i = choose|i: int|
                    0 <= i < blk.len() && (#[trigger] blk[i]).family == f && blk[i].covers_addr(
                        x,
                    );
                assert(last.0 <= x <= last.1);
            }
            if last.0 <= x <= last.1 {
                let i = choose|i: int|
                    0 <= i < blk.len() && (#[trigger] blk[i]).covers_addr(x);
                assert(blk[i].family == f);
                assert(pfx_covers(blk, f, x));
            }
            // segs covers x exactly when s0 covers x or last covers x
            if rs_covers(segs, x) {
                let i = choose|i: int|
                    0 <= i < segs.len() && (#[trigger] segs[i]).0 <= x <= segs[i].1;
                if i < segs.len() - 1 {
                    assert(s0[i] == segs[i]);
                    assert(rs_covers(s0, x));
                }
            }
            if rs_covers(s0, x) {
                let i = choose|i: int| 0 <= i < s0.len() && (#[trigger] s0[i]).0 <= x <= s0[i].1;
                assert(segs[i] == s0[i]);
                assert(rs_covers(segs, x));
            }
            if last.0 <= x <= last.1 {
                assert(segs[segs.len() - 1].0 <= x <= segs[segs.len() - 1].1);
                assert(rs_covers(segs, x));
            }
        }
    }
}

/// Aggregation preserves coverage exactly, and produces well-formed
/// prefixes whose family matches the side they came from.
pub proof fn lemma_aggregate_covers(ps: Seq<Prefix>, f: IpFamily, x: int)
    requires
        all_wf(ps),
    ensures
        all_wf(aggregate_spec(ps)),
        pfx_covers(aggregate_spec(ps), f, x) == pfx_covers(ps, f, x),
{
    let c4 = family_cidrs(ps, IpFamily::V4);
    let c6 = family_cidrs(ps, IpFamily::V6);
    lemma_family_segs_props(ps, IpFamily::V4);
    lemma_family_segs_props(ps, IpFamily::V6);
    lemma_segs_to_cidrs_props(family_segs(ps, IpFamily::V4), IpFamily::V4);
    lemma_segs_to_cidrs_props(family_segs(ps, IpFamily::V6), IpFamily::V6);
    assert(all_wf(aggregate_spec(ps))) by {
        assert(forall|i: int| 0 <= i < c4.len() ==> aggregate_spec(ps)[i] == c4[i]);
        assert(forall|i: int|
            0 <= i < c6.len() ==> aggregate_spec(ps)[i + c4.len()] == c6[i]);
    }
    lemma_pfx_covers_concat(c4, c6, f, x);
    // a family's blocks say nothing about the other family
    if pfx_covers(c4, f, x) {
        let i = choose|i: int|
            0 <= i < c4.len() && (#[trigger] c4[i]).family == f && c4[i].covers_addr(x);
        assert(f == IpFamily::V4);
    }
    if pfx_covers(c6, f, x) {
        let i = choose|i: int|
            0 <= i < c6.len() && (#[trigger] c6[i]).family == f && c6[i].covers_addr(x);
        assert(f == IpFamily::V6);
    }
    if f == IpFamily::V4 {
        assert(pfx_covers(c4, f, x) == pfx_covers(ps, f, x));
    } else {
        assert(pfx_covers(c6, f, x) == pfx_covers(ps, f, x));
    }
}

/// Aggregation is idempotent: re-aggregating a canonical set returns it
/// unchanged.
pub proof fn lemma_aggregate_idempotent(ps: Seq<Prefix>)
    requires
        all_wf(ps),
    ensures
        aggregate_spec(aggregate_spec(ps)) == aggregate_spec(ps),
{
    let a = aggregate_spec(ps);
    assert(all_wf(a)) by {
        lemma_aggregate_covers(ps, IpFamily::V4, 0);
    }
    assert forall|f: IpFamily| #[trigger] family_segs(a, f) == family_segs(ps, f) by {
        lemma_family_segs_props(a, f);
        lemma_family_segs_props(ps, f);
        assert forall|x: int| rs_covers(family_segs(a, f), x) <==> rs_covers(
            family_segs(ps, f),
            x,
        ) by {
            lemma_aggregate_covers(ps, f, x);
        }
        lemma_seg_form_unique(family_segs(a, f), family_segs(ps, f));
    }
    assert(family_cidrs(a, IpFamily::V4) == family_cidrs(ps, IpFamily::V4));
    assert(family_cidrs(a, IpFamily::V6) == family_cidrs(ps, IpFamily::V6));
}

/// Coverage associativity: aggregating two sides separately covers exactly
/// the same address space as aggregating their union.
pub proof fn lemma_aggregate_union_coverage(a: Seq<Prefix>, b: Seq<Prefix>, f: IpFamily, x: int)
    requires
        all_wf(a),
        all_wf(b),
    ensures
        pfx_covers(aggregate_spec(a) + aggregate_spec(b), f, x) == pfx_covers(
            aggregate_spec(a + b),
            f,
            x,
        ),
{
    assert(all_wf(a + b)) by {
        assert(forall|i: int| 0 <= i < a.len() ==> (a + b)[i] == a[i]);
        assert(forall|i: int| 0 <= i < b.len() ==> (a + b)[i + a.len()] == b[i]);
    }
    lemma_pfx_covers_concat(aggregate_spec(a), aggregate_spec(b), f, x);
    lemma_aggregate_covers(a, f, x);
    lemma_aggregate_covers(b, f, x);
    lemma_aggregate_covers(a + b, f, x);
    lemma_pfx_covers_concat(a, b, f, x);
}

/// The canonical segment list of one family, computed from an arbitrary
/// well-formed collection.
pub fn family_segments(ps: &Vec<Prefix>, f: IpFamily) -> (r: Vec<ARange>)
    requires
        all_wf(ps@),
    ensures
        r@ == family_segs(ps@, f),
{
    let mut rv: Vec<ARange> = Vec::new();
    let mut i: usize = 0;
    proof {
        assert(ps@.take(0) =~= Seq::<Prefix>::empty());
        assert(rv@ =~= ranges_of(ps@.take(0), f));
    }
    while i < ps.len()
        invariant
            i <= ps@.len(),
            all_wf(ps@),
            rv@ == ranges_of(ps@.take(i as int), f),
        decreases ps@.len() - i,
    {
        let p = ps[i];
        proof {
            assert(ps@.take(i as int + 1).drop_last() =~= ps@.take(i as int));
            assert(ps@.take(i as int + 1).last() == ps@[i as int]);
            assert(p.wf());
            lemma_prefix_range(p);
        }
        if p.family == f {
            let e = p.last_addr();
            rv.push((p.addr, e));
            proof {
                assert((p.addr, e) == prefix_range(p));
                assert(rv@ =~= ranges_of(ps@.take(i as int + 1), f));
            }
        } else {
            proof {
                assert(rv@ =~= ranges_of(ps@.take(i as int + 1), f));
            }
        }
        i = i + 1;
    }
    proof {
        assert(ps@.take(ps@.len() as int) =~= ps@);
    }
    let sv = sort_ranges(&rv);
    let segs = coalesce_ranges(&sv);
    proof {
        assert(segs@ == family_segs(ps@, f));
    }
    segs
}

/// Decompose each interval of a segment list into greedy CIDR blocks and
/// concatenate the results.
pub fn segs_to_prefixes(segs: &Vec<ARange>, f: IpFamily) -> (r: Vec<Prefix>)
    requires
        forall|k: int| 0 <= k < segs@.len() ==> (#[trigger] segs@[k]).0 <= segs@[k].1,
        forall|k: int|
            0 <= k < segs@.len() ==> (#[trigger] segs@[k].1 as int) < pow2i(f.spec_width()),
    ensures
        r@ == segs_to_cidrs(segs@, f),
{
    let mut out: Vec<Prefix> = Vec::new();
    let mut j: usize = 0;
    proof {
        assert(segs@.take(0) =~= Seq::<ARange>::empty());
        assert(segs@.take(0).map_values(|r: ARange| seg_prefixes(f, r)) =~= Seq::<
            Seq<Prefix>,
        >::empty());
        assert(out@ =~= segs_to_cidrs(segs@.take(0), f));
    }
    while j < segs.len()
        invariant
            j <= segs@.len(),
            forall|k: int| 0 <= k < segs@.len() ==> (#[trigger] segs@[k]).0 <= segs@[k].1,
            forall|k: int|
                0 <= k < segs@.len() ==> (#[trigger] segs@[k].1 as int) < pow2i(f.spec_width()),
            out@ == segs_to_cidrs(segs@.take(j as int), f),
        decreases segs@.len() - j,
    {
        let s = segs[j];
        let mut blocks = crate::ranges::summarize_range(f, s.0, s.1);
        out.append(&mut blocks);
        proof {
            let t = segs@.take(j as int + 1);
            assert(t.drop_last() =~= segs@.take(j as int));
            assert(t.last() == segs@[j as int]);
            lemma_segs_to_cidrs_step(t, f);
            assert(out@ == segs_to_cidrs(segs@.take(j as int + 1), f));
        }
        j = j + 1;
    }
    proof {
        assert(segs@.take(segs@.len() as int) =~= segs@);
    }
    out
}

/// One family's canonical blocks, computed from an arbitrary collection.
pub fn family_aggregate(ps: &Vec<Prefix>, f: IpFamily) -> (r: Vec<Prefix>)
    requires
        all_wf(ps@),
    ensures
        r@ == family_cidrs(ps@, f),
{
    let segs = family_segments(ps, f);
    proof {
        lemma_family_segs_props(ps@, f);
    }
    segs_to_prefixes(&segs, f)
}

/// Aggregate a prefix collection into its canonical minimal covering set:
/// contained prefixes dropped, mergeable siblings merged, sorted ascending,
/// IPv4 first, then IPv6.
pub fn aggregate(ps: &Vec<Prefix>) -> (r: Vec<Prefix>)
    requires
        all_wf(ps@),
    ensures
        r@ == aggregate_spec(ps@),
        all_wf(r@),
{
    let mut r = family_aggregate(ps, IpFamily::V4);
    let mut v6 = family_aggregate(ps, IpFamily::V6);
    r.append(&mut v6);
    proof {
        lemma_aggregate_covers(ps@, IpFamily::V4, 0);
    }
    r
}

} // verus!
