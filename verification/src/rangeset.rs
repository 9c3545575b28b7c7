//! Lists of address intervals `(start, end)` and their canonical form:
//! sorting, coalescing of overlapping or adjacent intervals, and the
//! uniqueness of the gap-separated segment decomposition of a covered set.

use vstd::prelude::*;
use vstd::relations::{sorted_by, total_ordering};
use vstd::seq_lib::{lemma_sorted_unique, group_to_multiset_ensures};
use vstd::seq_lib::to_multiset_insert;

verus! {

/// An address interval with inclusive endpoints.
pub type ARange = (u128, u128);

/// Lexicographic order on intervals; a total ordering.
pub open spec fn range_leq(a: ARange, b: ARange) -> bool {
    a.0 < b.0 || (a.0 == b.0 && a.1 <= b.1)
}

/// The ordering as a first-class function, for `sort_by`.
pub open spec fn rleq() -> spec_fn(ARange, ARange) -> bool {
    |a: ARange, b: ARange| range_leq(a, b)
}

pub proof fn lemma_rleq_total()
    ensures
        total_ordering(rleq()),
{
}

/// Every interval is nonempty (start at or before end).
pub open spec fn rs_valid(rs: Seq<ARange>) -> bool {
    forall|i: int| 0 <= i < rs.len() ==> (#[trigger] rs[i]).0 <= rs[i].1
}

/// Whether some interval of `rs` contains the address `x`.
pub open spec fn rs_covers(rs: Seq<ARange>, x: int) -> bool {
    exists|i: int| 0 <= i < rs.len() && (#[trigger] rs[i]).0 <= x <= rs[i].1
}

/// Segment form: nonempty intervals, strictly increasing, with at least one
/// uncovered address between consecutive intervals.
pub open spec fn seg_form(rs: Seq<ARange>) -> bool {
    &&& rs_valid(rs)
    &&& forall|i: int| 0 <= i < rs.len() - 1 ==> (#[trigger] rs[i]).1 + 1 < rs[i + 1].0
}

/// Coverage only depends on which intervals occur, not on their order.
pub proof fn lemma_covers_permutation(a: Seq<ARange>, b: Seq<ARange>, x: int)
    requires
        a.to_multiset() == b.to_multiset(),
    ensures
        rs_covers(a, x) == rs_covers(b, x),
{
    broadcast use group_to_multiset_ensures;

    if rs_covers(a, x) {
        let i = choose|i: int| 0 <= i < a.len() && (#[trigger] a[i]).0 <= x <= a[i].1;
        assert(a.contains(a[i]));
        assert(a.to_multiset().count(a[i]) > 0);
        assert(b.to_multiset().count(a[i]) > 0);
        assert(b.contains(a[i]));
        let j = choose|j: int| 0 <= j < b.len() && b[j] == a[i];
        assert(rs_covers(b, x));
    }
    if rs_covers(b, x) {
        let i = choose|i: int| 0 <= i < b.len() && (#[trigger] b[i]).0 <= x <= b[i].1;
        assert(b.contains(b[i]));
        assert(b.to_multiset().count(b[i]) > 0);
        assert(a.to_multiset().count(b[i]) > 0);
        assert(a.contains(b[i]));
        let j = choose|j: int| 0 <= j < a.len() && a[j] == b[i];
        assert(rs_covers(a, x));
    }
}

/// Coverage of a concatenation is the disjunction of the parts' coverage.
pub proof fn lemma_covers_concat(a: Seq<ARange>, b: Seq<ARange>, x: int)
    ensures
        rs_covers(a + b, x) == (rs_covers(a, x) || rs_covers(b, x)),
{
    let c = a + b;
    if rs_covers(c, x) {
        let i = choose|i: int| 0 <= i < c.len() && (#[trigger] c[i]).0 <= x <= c[i].1;
        if i < a.len() {
            assert(a[i] == c[i]);
            assert(rs_covers(a, x));
        } else {
            assert(b[i - a.len()] == c[i]);
            assert(rs_covers(b, x));
        }
    }
    if rs_covers(a, x) {
        let i = choose|i: int| 0 <= i < a.len() && (#[trigger] a[i]).0 <= x <= a[i].1;
        assert(c[i] == a[i]);
        assert(rs_covers(c, x));
    }
    if rs_covers(b, x) {
        let i = choose|i: int| 0 <= i < b.len() && (#[trigger] b[i]).0 <= x <= b[i].1;
        assert(c[i + a.len()] == b[i]);
        assert(rs_covers(c, x));
    }
}

/// In segment form, an earlier interval ends strictly below a later one's
/// start, with a gap in between.
pub proof fn lemma_seg_chain(s: Seq<ARange>, i: int, j: int)
    requires
        seg_form(s),
        0 <= i < j < s.len(),
    ensures
        s[i].1 + 1 < s[j].0,
    decreases j - i,
{
    if j > i + 1 {
        lemma_seg_chain(s, i, j - 1);
    }
}

/// Two gap-separated interval lists covering the same addresses are equal.
#[verifier::rlimit(100)]
pub proof fn lemma_seg_form_unique(x: Seq<ARange>, y: Seq<ARange>)
    requires
        seg_form(x),
        seg_form(y),
        forall|v: int| rs_covers(x, v) <==> rs_covers(y, v),
    ensures
        x == y,
    decreases x.len(),
{
    if x.len() == 0 {
        if y.len() > 0 {
            assert(rs_covers(y, y[0].0 as int));
            assert(false);
        }
        assert(x =~= y);
    } else if y.len() == 0 {
        assert(rs_covers(x, x[0].0 as int));
        assert(false);
    } else {
        // equal first starts
        assert(rs_covers(x, x[0].0 as int));
        assert(rs_covers(y, y[0].0 as int));
        let jx = choose|j: int| 0 <= j < y.len() && (#[trigger] y[j]).0 <= x[0].0 as int <= y[j].1;
        if jx > 0 {
            lemma_seg_chain(y, 0, jx);
        }
        let jy = choose|j: int| 0 <= j < x.len() && (#[trigger] x[j]).0 <= y[0].0 as int <= x[j].1;
        if jy > 0 {
            lemma_seg_chain(x, 0, jy);
        }
        assert(y[0].0 <= x[0].0);
        assert(x[0].0 <= y[0].0);
        let s = x[0].0;
        // equal first ends
        if x[0].1 < y[0].1 {
            let v = x[0].1 + 1;
            assert(y[0].0 <= v <= y[0].1);
            assert(rs_covers(y, v));
            let i = choose|i: int| 0 <= i < x.len() && (#[trigger] x[i]).0 <= v <= x[i].1;
            if i > 0 {
                lemma_seg_chain(x, 0, i);
            }
            assert(false);
        }
        if y[0].1 < x[0].1 {
            let v = y[0].1 + 1;
            assert(x[0].0 <= v <= x[0].1);
            assert(rs_covers(x, v));
            let i = choose|i: int| 0 <= i < y.len() && (#[trigger] y[i]).0 <= v <= y[i].1;
            if i > 0 {
                lemma_seg_chain(y, 0, i);
            }
            assert(false);
        }
        assert(x[0] == y[0]);
        // tails cover the same addresses
        let xt = x.skip(1);
        let yt = y.skip(1);
        assert(seg_form(xt)) by {
            assert(forall|i: int| 0 <= i < xt.len() ==> xt[i] == x[i + 1]);
        }
        assert(seg_form(yt)) by {
            assert(forall|i: int| 0 <= i < yt.len() ==> yt[i] == y[i + 1]);
        }
        assert forall|v: int| rs_covers(xt, v) <==> rs_covers(yt, v) by {
            lemma_tail_covers(x, v);
            lemma_tail_covers(y, v);
        }
        lemma_seg_form_unique(xt, yt);
        assert(forall|i: int| 1 <= i < x.len() ==> x[i] == xt[i - 1]);
        assert(forall|i: int| 1 <= i < y.len() ==> y[i] == yt[i - 1]);
        assert(x.len() == y.len());
        assert(x =~= y);
    }
}

/// Splitting the first segment off: the tail covers exactly the covered
/// addresses above the first segment's end.
pub proof fn lemma_tail_covers(x: Seq<ARange>, v: int)
    requires
        seg_form(x),
        x.len() >= 1,
    ensures
        rs_covers(x.skip(1), v) <==> (rs_covers(x, v) && v > x[0].1),
{
    let t = x.skip(1);
    assert(forall|i: int| 0 <= i < t.len() ==> t[i] == x[i + 1]);
    if rs_covers(t, v) {
        let i = choose|i: int| 0 <= i < t.len() && (#[trigger] t[i]).0 <= v <= t[i].1;
        assert(x[i + 1].0 <= v <= x[i + 1].1);
        lemma_seg_chain(x, 0, i + 1);
        assert(rs_covers(x, v));
    }
    if rs_covers(x, v) && v > x[0].1 {
        let i = choose|i: int| 0 <= i < x.len() && (#[trigger] x[i]).0 <= v <= x[i].1;
        assert(i != 0);
        assert(t[i - 1] == x[i]);
        assert(rs_covers(t, v));
    }
}

/// Coalesce a sorted interval list: merge every overlapping or adjacent
/// pair, producing the segment decomposition of the covered set.
pub open spec fn coalesce(rs: Seq<ARange>) -> Seq<ARange>
    decreases rs.len(),
{
    if rs.len() <= 1 {
        rs
    } else {
        let a = rs[0];
        let b = rs[1];
        if b.0 <= a.1 + 1 {
            coalesce(seq![(a.0, if a.1 >= b.1 { a.1 } else { b.1 })] + rs.skip(2))
        } else {
            seq![a] + coalesce(rs.skip(1))
        }
    }
}

/// What coalescing guarantees on a sorted list of nonempty intervals.
pub proof fn lemma_coalesce_props(rs: Seq<ARange>)
    requires
        rs_valid(rs),
        sorted_by(rs, rleq()),
    ensures
        seg_form(coalesce(rs)),
        forall|x: int| #[trigger] rs_covers(coalesce(rs), x) == rs_covers(rs, x),
        coalesce(rs).len() > 0 ==> rs.len() > 0 && coalesce(rs)[0].0 == rs[0].0,
        rs.len() > 0 ==> coalesce(rs).len() > 0,
    decreases rs.len(),
{
    if rs.len() <= 1 {
        assert(forall|x: int| #[trigger] rs_covers(coalesce(rs), x) == rs_covers(rs, x));
    } else {
        let a = rs[0];
        let b = rs[1];
        if b.0 <= a.1 + 1 {
            let m = (a.0, if a.1 >= b.1 { a.1 } else { b.1 });
            let nu = seq![m] + rs.skip(2);
            assert(a.0 <= b.0) by {
                assert(rleq()(rs[0], rs[1]));
            }
            assert(rs_valid(nu)) by {
                assert(forall|i: int| 1 <= i < nu.len() ==> nu[i] == rs[i + 1]);
            }
            assert(sorted_by(nu, rleq())) by {
                assert(forall|i: int| 1 <= i < nu.len() ==> nu[i] == rs[i + 1]);
                assert forall|i: int, j: int| 0 <= i < j < nu.len() implies #[trigger] rleq()(
                    nu[i],
                    nu[j],
                ) by {
                    if i == 0 {
                        assert(rleq()(rs[0], rs[j + 1]));
                        assert(rleq()(rs[1], rs[j + 1]));
                        assert(range_leq(a, rs[j + 1]));
                        assert(range_leq(b, rs[j + 1]));
                        assert(range_leq(m, rs[j + 1]));
                    } else {
                        assert(rleq()(rs[i + 1], rs[j + 1]));
                    }
                }
            }
            lemma_coalesce_props(nu);
            assert forall|x: int| rs_covers(nu, x) == rs_covers(rs, x) by {
                if rs_covers(nu, x) {
                    let i = choose|i: int|
                        0 <= i < nu.len() && (#[trigger] nu[i]).0 <= x <= nu[i].1;
                    if i == 0 {
                        if x <= a.1 {
                            assert(rs[0].0 <= x <= rs[0].1);
                        } else {
                            assert(b.0 <= x <= b.1);
                            assert(rs[1].0 <= x <= rs[1].1);
                        }
                    } else {
                        assert(rs[i + 1].0 <= x <= rs[i + 1].1);
                    }
                    assert(rs_covers(rs, x));
                }
                if rs_covers(rs, x) {
                    let i = choose|i: int|
                        0 <= i < rs.len() && (#[trigger] rs[i]).0 <= x <= rs[i].1;
                    if i == 0 || i == 1 {
                        assert(nu[0].0 <= x <= nu[0].1);
                    } else {
                        assert(nu[i - 1] == rs[i]);
                    }
                    assert(rs_covers(nu, x));
                }
            }
            assert(forall|x: int| #[trigger] rs_covers(coalesce(rs), x) == rs_covers(rs, x));
        } else {
            let t = rs.skip(1);
            assert(forall|i: int| 0 <= i < t.len() ==> t[i] == rs[i + 1]);
            assert(rs_valid(t));
            assert(sorted_by(t, rleq())) by {
                assert forall|i: int, j: int| 0 <= i < j < t.len() implies #[trigger] rleq()(
                    t[i],
                    t[j],
                ) by {
                    assert(rleq()(rs[i + 1], rs[j + 1]));
                }
            }
            lemma_coalesce_props(t);
            let c = coalesce(rs);
            let ct = coalesce(t);
            assert(c =~= seq![a] + ct);
            assert(forall|i: int| 0 <= i < ct.len() ==> c[i + 1] == ct[i]);
            assert(seg_form(c)) by {
                if ct.len() > 0 {
                    assert(ct[0].0 == t[0].0);
                    assert(a.1 + 1 < b.0);
                    assert(c[0].1 + 1 < c[1].0);
                }
                assert forall|i: int| 0 <= i < c.len() - 1 implies (#[trigger] c[i]).1 + 1 < c[i
                    + 1].0 by {
                    if i > 0 {
                        assert(c[i] == ct[i - 1]);
                        assert(c[i + 1] == ct[i]);
                    }
                }
            }
            assert forall|x: int| #[trigger] rs_covers(c, x) == rs_covers(rs, x) by {
                lemma_covers_concat(seq![a], ct, x);
                lemma_covers_concat(seq![a], t, x);
                if a.0 <= x <= a.1 {
                    assert(seq![a][0].0 <= x <= seq![a][0].1);
                    assert(rs_covers(seq![a], x));
                }
                if rs_covers(seq![a], x) {
                    let k = choose|k: int|
                        0 <= k < seq![a].len() && (#[trigger] seq![a][k]).0 <= x <= seq![a][k].1;
                    assert(k == 0);
                    assert(a.0 <= x <= a.1);
                }
                assert(seq![a] + t =~= rs);
            }
        }
    }
}

/// Executable comparison mirroring `range_leq`.
pub fn range_le(a: ARange, b: ARange) -> (r: bool)
    ensures
        r == range_leq(a, b),
{
    a.0 < b.0 || (a.0 == b.0 && a.1 <= b.1)
}

/// Insertion sort of an interval list under the lexicographic order.
pub fn sort_ranges(v: &Vec<ARange>) -> (r: Vec<ARange>)
    ensures
        r@ == v@.sort_by(rleq()),
{
    let mut out: Vec<ARange> = Vec::new();
    let mut i: usize = 0;
    proof {
        broadcast use group_to_multiset_ensures;

        assert(v@.take(0) =~= Seq::<ARange>::empty());
        assert(out@.to_multiset() =~= v@.take(0).to_multiset());
    }
    while i < v.len()
        invariant
            i <= v@.len(),
            sorted_by(out@, rleq()),
            out@.to_multiset() == v@.take(i as int).to_multiset(),
        decreases v@.len() - i,
    {
        let x = v[i];
        let mut pos: usize = 0;
        while pos < out.len() && range_le(out[pos], x)
            invariant
                pos <= out@.len(),
                sorted_by(out@, rleq()),
                forall|k: int| 0 <= k < pos ==> range_leq(#[trigger] out@[k], x),
            decreases out@.len() - pos,
        {
            pos = pos + 1;
        }
        proof {
            broadcast use group_to_multiset_ensures;
            broadcast use to_multiset_insert;

            assert(v@.take(i as int + 1) =~= v@.take(i as int).push(x));
        }
        let ghost old_out = out@;
        out.insert(pos, x);
        proof {
            assert(out@ =~= old_out.insert(pos as int, x));
            assert forall|a: int, b: int| 0 <= a < b < out@.len() implies #[trigger] rleq()(
                out@[a],
                out@[b],
            ) by {
                let p = pos as int;
                if a < p && b == p {
                    assert(out@[a] == old_out[a]);
                    assert(range_leq(old_out[a], x));
                } else if a == p && b > p {
                    assert(out@[b] == old_out[b - 1]);
                    if p < old_out.len() {
                        assert(!range_leq(old_out[p], x));
                        assert(range_leq(x, old_out[p]));
                        if b - 1 > p {
                            assert(rleq()(old_out[p], old_out[b - 1]));
                        }
                    }
                } else if a < p && b > p {
                    assert(out@[a] == old_out[a]);
                    assert(out@[b] == old_out[b - 1]);
                    if p < old_out.len() {
                        assert(range_leq(old_out[a], x));
                        assert(range_leq(x, old_out[p]));
                        if b - 1 > p {
                            assert(rleq()(old_out[p], old_out[b - 1]));
                        } else {
                            assert(b - 1 == p);
                        }
                        assert(range_leq(out@[a], out@[b]));
                    } else {
                        assert(false);
                    }
                } else if a < p && b < p {
                    assert(out@[a] == old_out[a]);
                    assert(out@[b] == old_out[b]);
                    assert(rleq()(old_out[a], old_out[b]));
                } else {
                    assert(a > p || (a == p && b == p));
                    assert(a >= p);
                    if a > p {
                        assert(out@[a] == old_out[a - 1]);
                        assert(out@[b] == old_out[b - 1]);
                        assert(rleq()(old_out[a - 1], old_out[b - 1]));
                    }
                }
            }
        }
        i = i + 1;
    }
    proof {
        assert(v@.take(v@.len() as int) =~= v@);
        lemma_rleq_total();
        v@.lemma_sort_by_ensures(rleq());
        assert(out@.to_multiset() =~= v@.sort_by(rleq()).to_multiset());
        lemma_sorted_unique(out@, v@.sort_by(rleq()), rleq());
    }
    out
}

/// Coalesce a sorted interval list into segment form.
pub fn coalesce_ranges(v: &Vec<ARange>) -> (r: Vec<ARange>)
    ensures
        r@ == coalesce(v@),
{
    if v.len() == 0 {
        let out: Vec<ARange> = Vec::new();
        proof {
            assert(out@ =~= coalesce(v@));
        }
        return out;
    }
    let mut done: Vec<ARange> = Vec::new();
    let mut c: ARange = v[0];
    let mut i: usize = 1;
    proof {
        assert(seq![c] + v@.skip(1) =~= v@);
    }
    while i < v.len()
        invariant
            1 <= i <= v@.len(),
            c == (seq![c] + v@.skip(i as int))[0],
            coalesce(v@) == done@ + coalesce(seq![c] + v@.skip(i as int)),
        decreases v@.len() - i,
    {
        let next = v[i];
        let ghost t = seq![c] + v@.skip(i as int);
        proof {
            assert(t[0] == c);
            assert(t[1] == next);
            assert(t.len() >= 2);
        }
        if next.0 == 0 || next.0 - 1 <= c.1 {
            let merged = (c.0, if c.1 >= next.1 { c.1 } else { next.1 });
            proof {
                assert(next.0 <= c.1 + 1);
                assert(coalesce(t) == coalesce(seq![merged] + t.skip(2)));
                assert(seq![merged] + t.skip(2) =~= seq![merged] + v@.skip(i as int + 1));
            }
            c = merged;
        } else {
            proof {
                assert(!(next.0 <= c.1 + 1));
                assert(coalesce(t) == seq![c] + coalesce(t.skip(1)));
                assert(t.skip(1) =~= v@.skip(i as int));
                assert(v@.skip(i as int) =~= seq![next] + v@.skip(i as int + 1));
                assert(done@ + (seq![c] + coalesce(seq![next] + v@.skip(i as int + 1)))
                    =~= (done@ + seq![c]) + coalesce(seq![next] + v@.skip(i as int + 1)));
            }
            done.push(c);
            c = next;
        }
        i = i + 1;
    }
    proof {
        assert(v@.skip(v@.len() as int) =~= Seq::<ARange>::empty());
        assert(seq![c] + v@.skip(i as int) =~= seq![c]);
        assert(coalesce(seq![c]) == seq![c]);
    }
    done.push(c);
    proof {
        assert(done@ =~= coalesce(v@));
    }
    done
}

} // verus!
