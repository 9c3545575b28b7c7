//! RPKI route-origin validation: a table of validated ROA payloads (VRPs)
//! and the containment-plus-max-length check of RFC 6483/6811.

use vstd::prelude::*;
use vstd::arithmetic::div_mod::*;
use vstd::arithmetic::power2::*;
use crate::prefix::{pow2i, Prefix, pow2_minus1_u128, lemma_pow2_128, lemma_aligned_below};
use crate::ranges::lemma_pow2_mod_descend;
use crate::aggregate::all_wf;

verus! {

/// A validated ROA payload: origin ASN, authorized prefix, and the longest
/// announcement length the ROA accepts.
#[derive(Debug, Clone, Copy, PartialEq, Eq, Structural)]
pub struct VrpEntry {
    pub asn: u32,
    pub prefix: Prefix,
    pub max_length: u8,
}

impl VrpEntry {
    /// A usable VRP: canonical prefix, and a max-length that is at least the
    /// prefix's own length and fits the family.
    pub open spec fn wf(self) -> bool {
        &&& self.prefix.wf()
        &&& self.prefix.len <= self.max_length
        &&& self.max_length <= self.prefix.family.spec_width()
    }
}

/// The VRP prefix is a supernet-or-equal of the candidate (same family,
/// shorter-or-equal length, address containment) and the candidate does not
/// exceed the ROA's max-length.
pub open spec fn vrp_matches(v: VrpEntry, asn: u32, c: Prefix) -> bool {
    &&& v.asn == asn
    &&& v.prefix.family == c.family
    &&& v.prefix.len <= c.len
    &&& v.prefix.start() <= c.start()
    &&& c.end() <= v.prefix.end()
    &&& c.len <= v.max_length
}

/// The well-formedness filter used when loading ROA data.
pub open spec fn vrp_wf_pred() -> spec_fn(VrpEntry) -> bool {
    |v: VrpEntry| v.wf()
}

/// The validity filter for a given table and ASN.
pub open spec fn rov_pred(t: VrpTable, asn: u32) -> spec_fn(Prefix) -> bool {
    |n: Prefix| t.spec_valid(asn, n)
}

/// Prefix length within the family's bit width.
pub fn validate_prefix_length(net: &Prefix) -> (r: bool)
    ensures
        r == (net.len <= net.family.spec_width()),
{
    net.len as u32 <= net.family.width()
}

/// Executable check of `Prefix::wf`.
pub fn prefix_is_canonical(p: &Prefix) -> (r: bool)
    ensures
        r == p.wf(),
{
    let w = p.family.width();
    if (p.len as u32) > w {
        return false;
    }
    proof {
        lemma_pow2_128();
    }
    if w == 32 && p.addr > 0xFFFF_FFFFu128 {
        return false;
    }
    let b = w - p.len as u32;
    if b == 128 {
        proof {
            if p.addr != 0 {
                lemma_small_mod(p.addr as nat, pow2(128));
            } else {
                lemma_mod_multiples_basic(0, pow2i(128));
                vstd::arithmetic::mul::lemma_mul_basics(pow2i(128));
            }
        }
        p.addr == 0
    } else {
        proof {
            lemma_pow2_strictly_increases(b as nat, 128);
            lemma_pow2_128();
        }
        let s = pow2_minus1_u128(b) + 1;
        p.addr % s == 0
    }
}

/// A sub-prefix whose network address lies inside a shorter well-formed
/// prefix lies entirely inside it.
pub proof fn lemma_nested_prefix(parent: Prefix, child: Prefix)
    requires
        parent.wf(),
        child.wf(),
        parent.family == child.family,
        parent.len <= child.len,
        parent.start() <= child.start() <= parent.end(),
    ensures
        child.end() <= parent.end(),
{
    let w = parent.family.spec_width();
    let bs = (w - child.len) as nat;
    let bb = (w - parent.len) as nat;
    let s = pow2i(bs);
    let big = pow2i(bb);
    lemma_pow2_pos(bs);
    lemma_pow2_pos(bb);
    let d = child.start() - parent.start();
    assert(child.start() % s == 0);
    lemma_pow2_mod_descend(parent.addr as int, bs, bb);
    assert(parent.start() % s == 0);
    assert(d % s == 0) by {
        let q1 = child.start() / s;
        let q2 = parent.start() / s;
        lemma_fundamental_div_mod(child.start(), s);
        lemma_fundamental_div_mod(parent.start(), s);
        assert(d == s * q1 - s * q2);
        vstd::arithmetic::mul::lemma_mul_is_distributive_sub(s, q1, q2);
        assert(d == s * (q1 - q2));
        lemma_mod_multiples_basic(q1 - q2, s);
        vstd::arithmetic::mul::lemma_mul_is_commutative(q1 - q2, s);
    }
    assert(d < big);
    lemma_aligned_below(d, bs, bb);
    assert(d + s <= big);
}

/// The per-run table of validated ROA payloads, shared read-only once built.
pub struct VrpTable {
    pub entries: Vec<VrpEntry>,
}

impl VrpTable {
    pub open spec fn wf(self) -> bool {
        forall|i: int| 0 <= i < self.entries@.len() ==> (#[trigger] self.entries@[i]).wf()
    }

    /// Route-origin validity of `c` for `asn` against this table.
    pub open spec fn spec_valid(self, asn: u32, c: Prefix) -> bool {
        exists|i: int|
            0 <= i < self.entries@.len() && vrp_matches(#[trigger] self.entries@[i], asn, c)
    }

    /// Build a table from raw payloads, discarding any entry whose
    /// max-length is shorter than its prefix length, does not fit the
    /// family, or whose prefix is not canonical.
    pub fn build(raw: Vec<VrpEntry>) -> (t: VrpTable)
        ensures
            t.entries@ == raw@.filter(vrp_wf_pred()),
            t.wf(),
    {
        let mut entries: Vec<VrpEntry> = Vec::new();
        let mut i: usize = 0;
        proof {
            reveal(Seq::filter);
            assert(raw@.take(0) =~= Seq::<VrpEntry>::empty());
            assert(entries@ =~= raw@.take(0).filter(vrp_wf_pred()));
        }
        while i < raw.len()
            invariant
                i <= raw@.len(),
                entries@ == raw@.take(i as int).filter(vrp_wf_pred()),
            decreases raw@.len() - i,
        {
            let v = raw[i];
            let keep = {
                let ok_len = v.prefix.len <= v.max_length && (v.max_length as u32)
                    <= v.prefix.family.width();
                ok_len && prefix_is_canonical(&v.prefix)
            };
            proof {
                reveal(Seq::filter);
                assert(raw@.take(i as int + 1).drop_last() =~= raw@.take(i as int));
                assert(raw@.take(i as int + 1).last() == raw@[i as int]);
                assert(vrp_wf_pred()(v) == v.wf());
                assert(keep == vrp_wf_pred()(v));
            }
            if keep {
                entries.push(v);
            }
            i = i + 1;
        }
        proof {
            assert(raw@.take(raw@.len() as int) =~= raw@);
        }
        VrpTable { entries }
    }

    /// Number of usable VRPs.
    pub fn len(&self) -> (n: usize)
        ensures
            n == self.entries@.len(),
    {
        self.entries.len()
    }
}

/// Executable test of `vrp_matches`.
fn entry_matches(v: &VrpEntry, asn: u32, c: &Prefix) -> (r: bool)
    requires
        v.wf(),
        c.wf(),
    ensures
        r == vrp_matches(*v, asn, *c),
{
    if v.asn != asn {
        return false;
    }
    if !(v.prefix.family == c.family) {
        return false;
    }
    if v.prefix.len > c.len || c.len > v.max_length {
        return false;
    }
    let pe = v.prefix.last_addr();
    if c.addr < v.prefix.addr {
        return false;
    }
    if c.addr > pe {
        proof {
            c.lemma_end_in_space();
        }
        return false;
    }
    proof {
        lemma_nested_prefix(v.prefix, *c);
        c.lemma_end_in_space();
    }
    true
}

/// Route-origin validation: true exactly when the table holds a VRP for
/// `asn` whose prefix covers `net` within the max-length bound.  An ASN
/// with no matching VRP yields false (fail closed).
pub fn is_valid(asn: u32, net: &Prefix, table: &VrpTable) -> (r: bool)
    requires
        table.wf(),
        net.wf(),
    ensures
        r == table.spec_valid(asn, *net),
{
    let mut i: usize = 0;
    while i < table.entries.len()
        invariant
            i <= table.entries@.len(),
            table.wf(),
            net.wf(),
            forall|j: int| 0 <= j < i ==> !vrp_matches(#[trigger] table.entries@[j], asn, *net),
        decreases table.entries@.len() - i,
    {
        let hit = entry_matches(&table.entries[i], asn, net);
        if hit {
            return true;
        }
        i = i + 1;
    }
    false
}

/// Keep exactly the candidate prefixes that the table validates for `asn`.
pub fn filter_valid_by_rpki(asn: u32, nets: &Vec<Prefix>, table: &VrpTable) -> (r: Vec<Prefix>)
    requires
        table.wf(),
        all_wf(nets@),
    ensures
        r@ == nets@.filter(rov_pred(*table, asn)),
{
    let mut out: Vec<Prefix> = Vec::new();
    let mut i: usize = 0;
    proof {
        reveal(Seq::filter);
        assert(nets@.take(0) =~= Seq::<Prefix>::empty());
        assert(out@ =~= nets@.take(0).filter(rov_pred(*table, asn)));
    }
    while i < nets.len()
        invariant
            i <= nets@.len(),
            table.wf(),
            all_wf(nets@),
            out@ == nets@.take(i as int).filter(rov_pred(*table, asn)),
        decreases nets@.len() - i,
    {
        let n = nets[i];
        let keep = is_valid(asn, &n, table);
        proof {
            reveal(Seq::filter);
            assert(nets@.take(i as int + 1).drop_last() =~= nets@.take(i as int));
            assert(nets@.take(i as int + 1).last() == nets@[i as int]);
            assert(rov_pred(*table, asn)(n) == table.spec_valid(asn, n));
            assert(keep == rov_pred(*table, asn)(n));
        }
        if keep {
            out.push(n);
        }
        i = i + 1;
    }
    proof {
        assert(nets@.take(nets@.len() as int) =~= nets@);
    }
    out
}

/// An exact match validates: a candidate equal to a VRP's prefix, with
/// `max_length` equal to the prefix length, is accepted for that ASN.
pub proof fn lemma_exact_match_validates(t: VrpTable, i: int, asn: u32)
    requires
        t.wf(),
        0 <= i < t.entries@.len(),
        t.entries@[i].asn == asn,
    ensures
        t.spec_valid(asn, t.entries@[i].prefix),
{
    let v = t.entries@[i];
    v.prefix.lemma_end_in_space();
    assert(vrp_matches(v, asn, v.prefix));
}

/// A candidate longer than every matching VRP's max-length is rejected, and
/// an ASN with no entries at all is rejected.
pub proof fn lemma_too_long_rejected(t: VrpTable, asn: u32, c: Prefix)
    requires
        t.wf(),
        forall|i: int|
            0 <= i < t.entries@.len() ==> !(#[trigger] t.entries@[i].asn == asn
                && c.len <= t.entries@[i].max_length),
    ensures
        !t.spec_valid(asn, c),
{
    if t.spec_valid(asn, c) {
        let i = choose|i: int|
            0 <= i < t.entries@.len() && vrp_matches(#[trigger] t.entries@[i], asn, c);
        assert(t.entries@[i].asn == asn && c.len <= t.entries@[i].max_length);
        assert(false);
    }
}

} // verus!
