//! Parsing of RIR extended delegation text: line and field splitting, the
//! allocated/assigned filter, and expansion of records into CIDR blocks,
//! per country or grouped over all countries.

use vstd::prelude::*;
use vstd::string::StringSliceAdditionalSpecFns;
use crate::common::IpFamily;
use crate::prefix::Prefix;
use crate::error::AppError;
use crate::text::{
    split_on, vec_views, split_bytes, has_byte, contains_byte, contains_seq, find_sub,
    lower_bytes, upper_bytes, to_upper_bytes, eq_ignore_ascii, bytes_eq,
};
use crate::cidr_text::{chars_of, ascii_to_string, v6_net_of};
use crate::ipv4_utils::spec_v4_range;
use crate::aggregate::all_wf;

verus! {

/// Strip one trailing carriage return, as `str::lines` does.
pub open spec fn strip_cr(l: Seq<u8>) -> Seq<u8> {
    if l.len() > 0 && l.last() == 13 {
        l.drop_last()
    } else {
        l
    }
}

/// The lines of a text, split on newlines.
pub open spec fn lines_of(t: Seq<u8>) -> Seq<Seq<u8>> {
    split_on(t, 10).map_values(|l: Seq<u8>| strip_cr(l))
}

pub open spec fn reserved_bytes() -> Seq<u8> {
    seq![114u8, 101u8, 115u8, 101u8, 114u8, 118u8, 101u8, 100u8]
}

pub open spec fn allocated_bytes() -> Seq<u8> {
    seq![97u8, 108u8, 108u8, 111u8, 99u8, 97u8, 116u8, 101u8, 100u8]
}

pub open spec fn assigned_bytes() -> Seq<u8> {
    seq![97u8, 115u8, 115u8, 105u8, 103u8, 110u8, 101u8, 100u8]
}

pub open spec fn ipv4_bytes() -> Seq<u8> {
    seq![105u8, 112u8, 118u8, 52u8]
}

pub open spec fn ipv6_bytes() -> Seq<u8> {
    seq![105u8, 112u8, 118u8, 54u8]
}

/// Comment lines, lines with a wildcard, and lines mentioning reserved
/// space are ignored outright.
pub open spec fn line_skipped(l: Seq<u8>) -> bool {
    (l.len() > 0 && l[0] == 35) || has_byte(l, 42) || contains_seq(l, reserved_bytes())
}

/// The `|`-separated fields of a line.
pub open spec fn line_fields(l: Seq<u8>) -> Seq<Seq<u8>> {
    split_on(l, 124)
}

/// Only allocated and assigned records are authoritative.
pub open spec fn status_accepted(l: Seq<u8>) -> bool {
    lower_bytes(line_fields(l)[6]) == allocated_bytes() || lower_bytes(line_fields(l)[6])
        == assigned_bytes()
}

/// The record's address family, when recognized.
pub open spec fn line_family(l: Seq<u8>) -> Option<IpFamily> {
    if line_fields(l)[2] == ipv4_bytes() {
        Some(IpFamily::V4)
    } else if line_fields(l)[2] == ipv6_bytes() {
        Some(IpFamily::V6)
    } else {
        None
    }
}

/// A candidate record: not skipped, at least seven fields, accepted
/// status, recognized family.
pub open spec fn line_candidate(l: Seq<u8>) -> bool {
    &&& !line_skipped(l)
    &&& line_fields(l).len() >= 7
    &&& status_accepted(l)
    &&& line_family(l) is Some
}

/// A candidate record for the given country, matched case-insensitively.
pub open spec fn line_relevant(l: Seq<u8>, cc: Seq<u8>) -> bool {
    line_candidate(l) && lower_bytes(line_fields(l)[1]) == lower_bytes(cc)
}

pub open spec fn all_ascii(s: Seq<u8>) -> bool {
    forall|i: int| 0 <= i < s.len() ==> #[trigger] s[i] < 128
}

/// What an RIR IPv6 record `(start address, prefix length)` denotes.
pub open spec fn spec_v6_range(s0: Seq<u8>, s1: Seq<u8>) -> Option<Prefix> {
    if !(all_ascii(s0) && all_ascii(s1)) {
        None
    } else {
        match v6_net_of(chars_of(s0 + seq![47u8] + s1)) {
            Some((a, l)) => Some(Prefix { family: IpFamily::V6, addr: a, len: l }),
            None => None,
        }
    }
}

/// The CIDR blocks of one candidate record, or nothing when its address
/// or count is malformed.
pub open spec fn line_nets(l: Seq<u8>) -> Option<Seq<Prefix>> {
    let f = line_fields(l);
    match line_family(l) {
        Some(IpFamily::V4) => spec_v4_range(f[3], f[4]),
        Some(IpFamily::V6) => match spec_v6_range(f[3], f[4]) {
            Some(p) => Some(seq![p]),
            None => None,
        },
        None => None,
    }
}

/// The IPv4 blocks of the lines relevant to `cc`, in order.
pub open spec fn lines_v4(ls: Seq<Seq<u8>>, cc: Seq<u8>) -> Seq<Prefix>
    decreases ls.len(),
{
    if ls.len() == 0 {
        Seq::empty()
    } else {
        lines_v4(ls.drop_last(), cc) + ({
            let l = ls.last();
            if line_relevant(l, cc) && line_family(l) == Some(IpFamily::V4) && line_nets(
                l,
            ) is Some {
                line_nets(l)->0
            } else {
                Seq::empty()
            }
        })
    }
}

/// The IPv6 blocks of the lines relevant to `cc`, in order.
pub open spec fn lines_v6(ls: Seq<Seq<u8>>, cc: Seq<u8>) -> Seq<Prefix>
    decreases ls.len(),
{
    if ls.len() == 0 {
        Seq::empty()
    } else {
        lines_v6(ls.drop_last(), cc) + ({
            let l = ls.last();
            if line_relevant(l, cc) && line_family(l) == Some(IpFamily::V6) && line_nets(
                l,
            ) is Some {
                line_nets(l)->0
            } else {
                Seq::empty()
            }
        })
    }
}

/// Every line relevant to `cc` parses.
pub open spec fn lines_ok(ls: Seq<Seq<u8>>, cc: Seq<u8>) -> bool {
    forall|i: int|
        0 <= i < ls.len() && line_relevant(#[trigger] ls[i], cc) ==> line_nets(ls[i]) is Some
}

/// Every candidate line of any country parses.
pub open spec fn lines_all_ok(ls: Seq<Seq<u8>>) -> bool {
    forall|i: int| 0 <= i < ls.len() && line_candidate(#[trigger] ls[i]) ==> line_nets(ls[i]) is Some
}

/// Copy a line without its trailing carriage return.
fn stripped_line(l: &Vec<u8>) -> (r: Vec<u8>)
    ensures
        r@ == strip_cr(l@),
{
    let mut n = l.len();
    if n > 0 && l[n - 1] == 13 {
        n = n - 1;
    }
    let mut out: Vec<u8> = Vec::new();
    let mut i: usize = 0;
    while i < n
        invariant
            n <= l@.len(),
            i <= n,
            out@ == l@.take(n as int).take(i as int),
        decreases n - i,
    {
        out.push(l[i]);
        proof {
            assert(out@ =~= l@.take(n as int).take(i as int + 1));
        }
        i = i + 1;
    }
    proof {
        assert(out@ =~= l@.take(n as int));
        if l@.len() > 0 && l@.last() == 13 {
            assert(l@.take(l@.len() - 1) =~= l@.drop_last());
        } else {
            assert(l@.take(l@.len() as int) =~= l@);
        }
    }
    out
}

fn all_ascii_exec(v: &Vec<u8>) -> (r: bool)
    ensures
        r == all_ascii(v@),
{
    let mut i: usize = 0;
    while i < v.len()
        invariant
            i <= v@.len(),
            forall|k: int| 0 <= k < i ==> #[trigger] v@[k] < 128,
        decreases v@.len() - i,
    {
        if v[i] >= 128 {
            return false;
        }
        i = i + 1;
    }
    true
}

/// Expand an RIR IPv6 record into its (single) prefix.
fn v6_range_from_bytes(s0: &Vec<u8>, s1: &Vec<u8>) -> (r: Option<Prefix>)
    ensures
        r == spec_v6_range(s0@, s1@),
        r matches Some(p) ==> p.wf(),
{
    if !all_ascii_exec(s0) || !all_ascii_exec(s1) {
        return None;
    }
    let mut joined: Vec<u8> = Vec::new();
    let mut i: usize = 0;
    while i < s0.len()
        invariant
            i <= s0@.len(),
            joined@ == s0@.take(i as int),
        decreases s0@.len() - i,
    {
        joined.push(s0[i]);
        proof {
            assert(joined@ =~= s0@.take(i as int + 1));
        }
        i = i + 1;
    }
    proof {
        assert(s0@.take(s0@.len() as int) =~= s0@);
    }
    joined.push(47);
    let mut j: usize = 0;
    while j < s1.len()
        invariant
            j <= s1@.len(),
            joined@ == s0@ + seq![47u8] + s1@.take(j as int),
        decreases s1@.len() - j,
    {
        joined.push(s1[j]);
        proof {
            assert(joined@ =~= s0@ + seq![47u8] + s1@.take(j as int + 1));
        }
        j = j + 1;
    }
    proof {
        assert(s1@.take(s1@.len() as int) =~= s1@);
        assert(joined@ =~= s0@ + seq![47u8] + s1@);
    }
    let s = ascii_to_string(joined);
    match crate::cidr_text::parse_v6_net(s.as_str()) {
        Some((a, l)) => {
            let p = Prefix { family: IpFamily::V6, addr: a, len: l };
            proof {
                crate::prefix::lemma_pow2_128();
            }
            Some(p)
        },
        None => None,
    }
}

/// What one line contributes: nothing, or its family, country field and
/// parse result.
fn examine_line(line: &Vec<u8>) -> (r: Option<(IpFamily, Vec<u8>, Option<Vec<Prefix>>)>)
    ensures
        match r {
            None => !line_candidate(line@),
            Some((fam, ccf, nets)) => {
                &&& line_candidate(line@)
                &&& line_family(line@) == Some(fam)
                &&& ccf@ == line_fields(line@)[1]
                &&& match nets {
                    Some(v) => line_nets(line@) == Some(v@) && all_wf(v@),
                    None => line_nets(line@) is None,
                }
            },
        },
{
    if line.len() > 0 && line[0] == 35 {
        return None;
    }
    if contains_byte(line, 42) {
        return None;
    }
    let reserved: Vec<u8> = vec![114u8, 101u8, 115u8, 101u8, 114u8, 118u8, 101u8, 100u8];
    proof {
        assert(reserved@ =~= reserved_bytes());
    }
    if find_sub(line, &reserved) {
        return None;
    }
    let fields = split_bytes(line, 124);
    proof {
        let sp = line_fields(line@);
        assert(forall|i: int| 0 <= i < fields@.len() ==> (#[trigger] fields@[i])@ == sp[i]);
    }
    if fields.len() < 7 {
        return None;
    }
    let allocated: Vec<u8> = vec![97u8, 108u8, 108u8, 111u8, 99u8, 97u8, 116u8, 101u8, 100u8];
    let assigned: Vec<u8> = vec![97u8, 115u8, 115u8, 105u8, 103u8, 110u8, 101u8, 100u8];
    proof {
        assert(allocated@ =~= allocated_bytes());
        assert(assigned@ =~= assigned_bytes());
        assert(lower_bytes(allocated@) =~= allocated_bytes());
        assert(lower_bytes(assigned@) =~= assigned_bytes());
    }
    let st_ok = eq_ignore_ascii(&fields[6], &allocated) || eq_ignore_ascii(&fields[6], &assigned);
    if !st_ok {
        proof {
            assert(!status_accepted(line@));
        }
        return None;
    }
    let ipv4v: Vec<u8> = vec![105u8, 112u8, 118u8, 52u8];
    let ipv6v: Vec<u8> = vec![105u8, 112u8, 118u8, 54u8];
    proof {
        assert(ipv4v@ =~= ipv4_bytes());
        assert(ipv6v@ =~= ipv6_bytes());
    }
    let fam: IpFamily;
    if bytes_eq(&fields[2], &ipv4v) {
        fam = IpFamily::V4;
    } else if bytes_eq(&fields[2], &ipv6v) {
        fam = IpFamily::V6;
    } else {
        return None;
    }
    let ccf = stripped_copy(&fields[1]);
    let nets: Option<Vec<Prefix>> = match fam {
        IpFamily::V4 => {
            match crate::ipv4_utils::parse_ipv4_range_to_cidrs_bytes(&fields[3], &fields[4]) {
                Some(v) => Some(v),
                None => None,
            }
        },
        IpFamily::V6 => {
            match v6_range_from_bytes(&fields[3], &fields[4]) {
                Some(p) => {
                    let mut v: Vec<Prefix> = Vec::new();
                    v.push(p);
                    proof {
                        assert(v@ =~= seq![p]);
                    }
                    Some(v)
                },
                None => None,
            }
        },
    };
    Some((fam, ccf, nets))
}

/// Copy a byte vector.
fn stripped_copy(l: &Vec<u8>) -> (r: Vec<u8>)
    ensures
        r@ == l@,
{
    let mut out: Vec<u8> = Vec::new();
    let mut i: usize = 0;
    while i < l.len()
        invariant
            i <= l@.len(),
            out@ == l@.take(i as int),
        decreases l@.len() - i,
    {
        out.push(l[i]);
        proof {
            assert(out@ =~= l@.take(i as int + 1));
        }
        i = i + 1;
    }
    proof {
        assert(l@.take(l@.len() as int) =~= l@);
    }
    out
}

/// Parse one RIR text for one country: the IPv4 and IPv6 blocks of its
/// allocated and assigned records.  A malformed relevant record fails the
/// whole parse; records of other countries never do.
pub fn parse_ip_lines(text: &str, country_code: &str) -> (r: Result<
    (Vec<Prefix>, Vec<Prefix>),
    AppError,
>)
    ensures
        ({
            let ls = lines_of(text.spec_bytes());
            let cc = country_code.spec_bytes();
            match r {
                Ok((v4, v6)) => {
                    &&& lines_ok(ls, cc)
                    &&& v4@ == lines_v4(ls, cc)
                    &&& v6@ == lines_v6(ls, cc)
                    &&& all_wf(v4@)
                    &&& all_wf(v6@)
                },
                Err(_) => !lines_ok(ls, cc),
            }
        }),
{
    let tb = text.as_bytes_vec();
    let ccb = country_code.as_bytes_vec();
    let raw = split_bytes(&tb, 10);
    let ghost ls = lines_of(text.spec_bytes());
    proof {
        assert(forall|i: int|
            0 <= i < raw@.len() ==> (#[trigger] raw@[i])@ == split_on(text.spec_bytes(), 10)[i]);
        assert(ls.len() == raw@.len());
        assert(forall|i: int| 0 <= i < raw@.len() ==> ls[i] == strip_cr((#[trigger] raw@[i])@));
    }
    let mut v4: Vec<Prefix> = Vec::new();
    let mut v6: Vec<Prefix> = Vec::new();
    let mut i: usize = 0;
    proof {
        assert(ls.take(0) =~= Seq::<Seq<u8>>::empty());
        assert(v4@ =~= lines_v4(ls.take(0), ccb@));
        assert(v6@ =~= lines_v6(ls.take(0), ccb@));
    }
    while i < raw.len()
        invariant
            i <= raw@.len(),
            ls.len() == raw@.len(),
            ccb@ == country_code.spec_bytes(),
            ls == lines_of(text.spec_bytes()),
            forall|k: int| 0 <= k < raw@.len() ==> ls[k] == strip_cr((#[trigger] raw@[k])@),
            forall|k: int| 0 <= k < i && line_relevant(#[trigger] ls[k], ccb@) ==> line_nets(
                ls[k],
            ) is Some,
            v4@ == lines_v4(ls.take(i as int), ccb@),
            v6@ == lines_v6(ls.take(i as int), ccb@),
            all_wf(v4@),
            all_wf(v6@),
        decreases raw@.len() - i,
    {
        let line = stripped_line(&raw[i]);
        proof {
            assert(line@ == ls[i as int]);
            assert(ls.take(i as int + 1).drop_last() =~= ls.take(i as int));
            assert(ls.take(i as int + 1).last() == ls[i as int]);
        }
        match examine_line(&line) {
            None => {
                proof {
                    assert(!line_relevant(ls[i as int], ccb@));
                    assert(v4@ =~= lines_v4(ls.take(i as int + 1), ccb@));
                    assert(v6@ =~= lines_v6(ls.take(i as int + 1), ccb@));
                }
            },
            Some((fam, ccf, nets)) => {
                if eq_ignore_ascii(&ccf, &ccb) {
                    proof {
                        assert(line_relevant(ls[i as int], ccb@));
                    }
                    match nets {
                        Some(mut v) => {
                            let ghost old_v4 = v4@;
                            let ghost old_v6 = v6@;
                            match fam {
                                IpFamily::V4 => {
                                    v4.append(&mut v);
                                    proof {
                                        assert(v4@ =~= lines_v4(ls.take(i as int + 1), ccb@));
                                        assert(v6@ =~= lines_v6(ls.take(i as int + 1), ccb@));
                                    }
                                },
                                IpFamily::V6 => {
                                    v6.append(&mut v);
                                    proof {
                                        assert(v4@ =~= lines_v4(ls.take(i as int + 1), ccb@));
                                        assert(v6@ =~= lines_v6(ls.take(i as int + 1), ccb@));
                                    }
                                },
                            }
                        },
                        None => {
                            proof {
                                assert(!lines_ok(ls, ccb@));
                            }
                            return Err(
                                AppError::ParseError(
                                    String::from_str("malformed RIR record"),
                                ),
                            );
                        },
                    }
                } else {
                    proof {
                        assert(!line_relevant(ls[i as int], ccb@));
                        assert(v4@ =~= lines_v4(ls.take(i as int + 1), ccb@));
                        assert(v6@ =~= lines_v6(ls.take(i as int + 1), ccb@));
                    }
                }
            },
        }
        i = i + 1;
    }
    proof {
        assert(ls.take(ls.len() as int) =~= ls);
    }
    Ok((v4, v6))
}

/// The lines of several texts, in order.
pub open spec fn all_lines(ts: Seq<Seq<char>>) -> Seq<Seq<u8>>
    decreases ts.len(),
{
    if ts.len() == 0 {
        Seq::empty()
    } else {
        all_lines(ts.drop_last()) + lines_of(vstd::utf8::encode_utf8(ts.last()))
    }
}

/// Whether some candidate record names the (upper-case) country `c`.
pub open spec fn country_present(ls: Seq<Seq<u8>>, c: Seq<u8>) -> bool {
    exists|i: int|
        0 <= i < ls.len() && line_candidate(#[trigger] ls[i]) && upper_bytes(
            line_fields(ls[i])[1],
        ) == c
}

/// One country's collected blocks.
pub struct CountryEntry {
    pub code: Vec<u8>,
    pub v4: Vec<Prefix>,
    pub v6: Vec<Prefix>,
}

/// Country code (upper-case) to aggregated blocks, with unique keys.
pub struct CountryMap {
    pub entries: Vec<CountryEntry>,
}

impl CountryMap {
    pub open spec fn wf(self) -> bool {
        &&& forall|a: int, b: int|
            0 <= a < b < self.entries@.len() ==> (#[trigger] self.entries@[a]).code@ != (
            #[trigger] self.entries@[b]).code@
        &&& forall|k: int|
            0 <= k < self.entries@.len() ==> upper_bytes((#[trigger] self.entries@[k]).code@)
                == self.entries@[k].code@
    }

    pub open spec fn has_code(self, c: Seq<u8>) -> bool {
        exists|i: int| 0 <= i < self.entries@.len() && (#[trigger] self.entries@[i]).code@ == c
    }

    /// Look a country up by code, matched case-insensitively.
    pub fn get(&self, code: &str) -> (r: Option<(&Vec<Prefix>, &Vec<Prefix>)>)
        ensures
            ({
                let ub = upper_bytes(code.spec_bytes());
                match r {
                    Some((v4, v6)) => exists|i: int|
                        0 <= i < self.entries@.len() && (#[trigger] self.entries@[i]).code@ == ub
                            && v4@ == self.entries@[i].v4@ && v6@ == self.entries@[i].v6@,
                    None => !self.has_code(ub),
                }
            }),
    {
        let cb = code.as_bytes_vec();
        let ub = to_upper_bytes(&cb);
        let mut i: usize = 0;
        while i < self.entries.len()
            invariant
                i <= self.entries@.len(),
                ub@ == upper_bytes(code.spec_bytes()),
                forall|k: int| 0 <= k < i ==> (#[trigger] self.entries@[k]).code@ != ub@,
            decreases self.entries@.len() - i,
        {
            let e = &self.entries[i];
            if bytes_eq(&e.code, &ub) {
                return Some((&e.v4, &e.v6));
            }
            i = i + 1;
        }
        None
    }
}

/// Find the entry with exactly this code.
fn find_code(entries: &Vec<CountryEntry>, code: &Vec<u8>) -> (r: Option<usize>)
    ensures
        match r {
            Some(j) => j < entries@.len() && entries@[j as int].code@ == code@,
            None => forall|k: int|
                0 <= k < entries@.len() ==> (#[trigger] entries@[k]).code@ != code@,
        },
{
    let mut i: usize = 0;
    while i < entries.len()
        invariant
            i <= entries@.len(),
            forall|k: int| 0 <= k < i ==> (#[trigger] entries@[k]).code@ != code@,
        decreases entries@.len() - i,
    {
        if bytes_eq(&entries[i].code, code) {
            return Some(i);
        }
        i = i + 1;
    }
    None
}

/// A country no candidate record names collects nothing.
proof fn lemma_absent_empty(ls: Seq<Seq<u8>>, c: Seq<u8>)
    requires
        upper_bytes(c) == c,
        !country_present(ls, c),
    ensures
        lines_v4(ls, c) == Seq::<Prefix>::empty(),
        lines_v6(ls, c) == Seq::<Prefix>::empty(),
    decreases ls.len(),
{
    if ls.len() > 0 {
        let l = ls.last();
        assert(!country_present(ls.drop_last(), c)) by {
            if country_present(ls.drop_last(), c) {
                let i = choose|i: int|
                    0 <= i < ls.drop_last().len() && line_candidate(#[trigger] ls.drop_last()[i])
                        && upper_bytes(line_fields(ls.drop_last()[i])[1]) == c;
                assert(ls[i] == ls.drop_last()[i]);
                assert(country_present(ls, c));
            }
        }
        lemma_absent_empty(ls.drop_last(), c);
        if line_relevant(l, c) {
            crate::text::lemma_case_fold(line_fields(l)[1], c);
            assert(upper_bytes(line_fields(l)[1]) == upper_bytes(c));
            assert(ls[ls.len() - 1] == l);
            assert(country_present(ls, c));
            assert(false);
        }
        assert(lines_v4(ls, c) =~= Seq::<Prefix>::empty());
        assert(lines_v6(ls, c) =~= Seq::<Prefix>::empty());
    }
}

/// Collect the stripped lines of every text, in order.
fn collect_all_lines(texts: &Vec<String>) -> (r: Vec<Vec<u8>>)
    ensures
        vec_views(r@) == all_lines(crate::fetch::str_views(texts@)),
{
    let mut out: Vec<Vec<u8>> = Vec::new();
    let mut t: usize = 0;
    proof {
        assert(texts@.take(0) =~= Seq::<String>::empty());
        assert(crate::fetch::str_views(texts@.take(0)) =~= Seq::<Seq<char>>::empty());
        assert(vec_views(out@) =~= all_lines(crate::fetch::str_views(texts@.take(0))));
    }
    while t < texts.len()
        invariant
            t <= texts@.len(),
            vec_views(out@) == all_lines(crate::fetch::str_views(texts@.take(t as int))),
        decreases texts@.len() - t,
    {
        let tb = texts[t].as_str().as_bytes_vec();
        proof {
            assert(tb@ == vstd::utf8::encode_utf8(texts@[t as int]@));
        }
        let raw = split_bytes(&tb, 10);
        proof {
            assert(raw@.len() == split_on(tb@, 10).len());
            assert(forall|i: int|
                0 <= i < raw@.len() ==> (#[trigger] raw@[i])@ == split_on(tb@, 10)[i]);
        }
        let mut j: usize = 0;
        while j < raw.len()
            invariant
                t < texts@.len(),
                j <= raw@.len(),
                tb@ == vstd::utf8::encode_utf8(texts@[t as int]@),
                raw@.len() == split_on(tb@, 10).len(),
                forall|i: int|
                    0 <= i < raw@.len() ==> (#[trigger] raw@[i])@ == split_on(tb@, 10)[i],
                vec_views(out@) == all_lines(crate::fetch::str_views(texts@.take(t as int)))
                    + lines_of(tb@).take(j as int),
            decreases raw@.len() - j,
        {
            let line = stripped_line(&raw[j]);
            let ghost old_out = out@;
            out.push(line);
            proof {
                let ll = lines_of(tb@);
                let aa = all_lines(crate::fetch::str_views(texts@.take(t as int)));
                assert(ll[j as int] == strip_cr(raw@[j as int]@));
                assert(vec_views(old_out).len() == aa.len() + j);
                assert forall|k2: int| 0 <= k2 < out@.len() implies #[trigger] vec_views(
                    out@,
                )[k2] == (aa + ll.take(j as int + 1))[k2] by {
                    assert(vec_views(out@)[k2] == out@[k2]@);
                    if k2 < old_out.len() {
                        assert(out@[k2] == old_out[k2]);
                        assert(vec_views(old_out)[k2] == old_out[k2]@);
                        assert(vec_views(old_out)[k2] == (aa + ll.take(j as int))[k2]);
                        if k2 >= aa.len() {
                            assert((aa + ll.take(j as int))[k2] == ll.take(j as int)[k2
                                - aa.len()]);
                            assert((aa + ll.take(j as int + 1))[k2] == ll.take(j as int + 1)[k2
                                - aa.len()]);
                        }
                    } else {
                        assert(out@[k2]@ == line@);
                        assert((aa + ll.take(j as int + 1))[k2] == ll[j as int]);
                    }
                }
                assert(vec_views(out@).len() == (aa + ll.take(j as int + 1)).len());
                assert(vec_views(out@) =~= aa + ll.take(j as int + 1));
            }
            j = j + 1;
        }
        proof {
            let tv = crate::fetch::str_views(texts@.take(t as int + 1));
            assert(tv.drop_last() =~= crate::fetch::str_views(texts@.take(t as int)));
            assert(tv.last() == texts@[t as int]@);
            assert(lines_of(tb@).take(lines_of(tb@).len() as int) =~= lines_of(tb@));
            assert(vec_views(out@) =~= all_lines(tv));
        }
        t = t + 1;
    }
    proof {
        assert(texts@.take(texts@.len() as int) =~= texts@);
    }
    out
}

/// Parse every RIR text once, grouping records by country code and
/// aggregating each country's blocks into canonical form.  Any malformed
/// candidate record of any country fails the whole parse.
#[verifier::rlimit(100)]
pub fn parse_all_country_codes(rir_texts: &Vec<String>) -> (r: Result<CountryMap, AppError>)
    ensures
        ({
            let al = all_lines(crate::fetch::str_views(rir_texts@));
            match r {
                Ok(m) => {
                    &&& lines_all_ok(al)
                    &&& m.wf()
                    &&& forall|k: int|
                        0 <= k < m.entries@.len() ==> {
                            let e = #[trigger] m.entries@[k];
                            e.v4@ == crate::aggregate::aggregate_spec(lines_v4(al, e.code@))
                                && e.v6@ == crate::aggregate::aggregate_spec(
                                lines_v6(al, e.code@),
                            )
                        }
                    &&& forall|k: int|
                        0 <= k < m.entries@.len() ==> country_present(
                            al,
                            (#[trigger] m.entries@[k]).code@,
                        )
                    &&& forall|j: int|
                        0 <= j < al.len() && line_candidate(#[trigger] al[j]) ==> m.has_code(
                            upper_bytes(line_fields(al[j])[1]),
                        )
                },
                Err(_) => !lines_all_ok(al),
            }
        }),
{
    let lines = collect_all_lines(rir_texts);
    let ghost al = all_lines(crate::fetch::str_views(rir_texts@));
    proof {
        assert(forall|i: int| 0 <= i < lines@.len() ==> (#[trigger] lines@[i])@ == al[i]);
        assert(lines@.len() == al.len());
    }
    let mut entries: Vec<CountryEntry> = Vec::new();
    let mut i: usize = 0;
    proof {
        assert(al.take(0) =~= Seq::<Seq<u8>>::empty());
    }
    while i < lines.len()
        invariant
            i <= lines@.len(),
            lines@.len() == al.len(),
            al == all_lines(crate::fetch::str_views(rir_texts@)),
            forall|k: int| 0 <= k < lines@.len() ==> (#[trigger] lines@[k])@ == al[k],
            forall|a: int, b: int|
                0 <= a < b < entries@.len() ==> (#[trigger] entries@[a]).code@ != (
                #[trigger] entries@[b]).code@,
            forall|k: int|
                0 <= k < entries@.len() ==> upper_bytes((#[trigger] entries@[k]).code@)
                    == entries@[k].code@,
            forall|k: int|
                0 <= k < entries@.len() ==> {
                    let e = #[trigger] entries@[k];
                    e.v4@ == lines_v4(al.take(i as int), e.code@) && e.v6@ == lines_v6(
                        al.take(i as int),
                        e.code@,
                    ) && all_wf(e.v4@) && all_wf(e.v6@)
                },
            forall|k: int|
                0 <= k < entries@.len() ==> country_present(
                    al.take(i as int),
                    (#[trigger] entries@[k]).code@,
                ),
            forall|j: int|
                0 <= j < i && line_candidate(#[trigger] al[j]) ==> exists|k: int|
                    0 <= k < entries@.len() && (#[trigger] entries@[k]).code@ == upper_bytes(
                        line_fields(al[j])[1],
                    ),
            forall|j: int|
                0 <= j < i && line_candidate(#[trigger] al[j]) ==> line_nets(al[j]) is Some,
        decreases lines@.len() - i,
    {
        let ghost tpre = al.take(i as int);
        let ghost tpost = al.take(i as int + 1);
        proof {
            assert(tpost.drop_last() =~= tpre);
            assert(tpost.last() == al[i as int]);
            assert(forall|j: int| 0 <= j < tpre.len() ==> tpre[j] == al[j]);
            assert(forall|j: int| 0 <= j < tpost.len() ==> tpost[j] == al[j]);
        }
        match examine_line(&lines[i]) {
            None => {
                proof {
                    assert(!line_candidate(al[i as int]));
                    assert forall|k: int| 0 <= k < entries@.len() implies {
                        let e = #[trigger] entries@[k];
                        e.v4@ == lines_v4(tpost, e.code@) && e.v6@ == lines_v6(tpost, e.code@)
                    } by {
                        let e = entries@[k];
                        assert(!line_relevant(al[i as int], e.code@));
                        assert(lines_v4(tpost, e.code@) =~= lines_v4(tpre, e.code@));
                        assert(lines_v6(tpost, e.code@) =~= lines_v6(tpre, e.code@));
                    }
                    assert forall|k: int| 0 <= k < entries@.len() implies country_present(
                        tpost,
                        (#[trigger] entries@[k]).code@,
                    ) by {
                        let c = entries@[k].code@;
                        let w = choose|w: int|
                            0 <= w < tpre.len() && line_candidate(#[trigger] tpre[w])
                                && upper_bytes(line_fields(tpre[w])[1]) == c;
                        assert(tpost[w] == tpre[w]);
                    }
                }
            },
            Some((fam, ccf, nets)) => {
                proof {
                    assert(line_candidate(al[i as int]));
                }
                let mut v = match nets {
                    Some(v) => v,
                    None => {
                        proof {
                            assert(line_candidate(al[i as int]));
                            assert(!(line_nets(al[i as int]) is Some));
                            assert(!lines_all_ok(al));
                        }
                        return Err(
                            AppError::ParseError(
                                String::from_str("malformed RIR record"),
                            ),
                        );
                    },
                };
                let code = to_upper_bytes(&ccf);
                proof {
                    crate::text::lemma_case_fold(ccf@, ccf@);
                    assert(upper_bytes(code@) == code@);
                    assert(line_relevant(al[i as int], code@)) by {
                        crate::text::lemma_case_fold(ccf@, code@);
                    }
                }
                let ghost old_entries = entries@;
                let j_opt = find_code(&entries, &code);
                match j_opt {
                    Some(j) => {
                        let e = vstd::std_specs::vec::vec_index_mut(&mut entries, j);
                        match fam {
                            IpFamily::V4 => {
                                e.v4.append(&mut v);
                            },
                            IpFamily::V6 => {
                                e.v6.append(&mut v);
                            },
                        }
                        proof {
                            assert(entries@ =~= old_entries.update(j as int, entries@[j as int]));
                        }
                    },
                    None => {
                        let e = match fam {
                            IpFamily::V4 => CountryEntry { code, v4: v, v6: Vec::new() },
                            IpFamily::V6 => CountryEntry { code, v4: Vec::new(), v6: v },
                        };
                        proof {
                            lemma_absent_empty(tpre, e.code@);
                        }
                        entries.push(e);
                    },
                }
                proof {
                    let c0 = upper_bytes(line_fields(al[i as int])[1]);
                    assert(c0 == upper_bytes(ccf@));
                    assert forall|k: int| 0 <= k < entries@.len() implies {
                        let e = #[trigger] entries@[k];
                        e.v4@ == lines_v4(tpost, e.code@) && e.v6@ == lines_v6(tpost, e.code@)
                            && all_wf(e.v4@) && all_wf(e.v6@) && upper_bytes(e.code@) == e.code@
                    } by {
                        let e = entries@[k];
                        if e.code@ == upper_bytes(ccf@) {
                            assert(line_relevant(al[i as int], e.code@)) by {
                                crate::text::lemma_case_fold(ccf@, e.code@);
                            }
                        } else {
                            if k < old_entries.len() && old_entries[k].code@ != upper_bytes(
                                ccf@,
                            ) {
                                assert(!line_relevant(al[i as int], e.code@)) by {
                                    if line_relevant(al[i as int], e.code@) {
                                        crate::text::lemma_case_fold(ccf@, e.code@);
                                        assert(upper_bytes(ccf@) == upper_bytes(e.code@));
                                        assert(false);
                                    }
                                }
                                assert(lines_v4(tpost, e.code@) =~= lines_v4(tpre, e.code@));
                                assert(lines_v6(tpost, e.code@) =~= lines_v6(tpre, e.code@));
                            }
                        }
                    }
                    assert forall|k: int| 0 <= k < entries@.len() implies country_present(
                        tpost,
                        (#[trigger] entries@[k]).code@,
                    ) by {
                        let c = entries@[k].code@;
                        if c == upper_bytes(ccf@) {
                            assert(line_candidate(tpost[i as int]) && upper_bytes(
                                line_fields(tpost[i as int])[1],
                            ) == c);
                        } else {
                            assert(country_present(tpre, c));
                            let w = choose|w: int|
                                0 <= w < tpre.len() && line_candidate(#[trigger] tpre[w])
                                    && upper_bytes(line_fields(tpre[w])[1]) == c;
                            assert(tpost[w] == tpre[w]);
                        }
                    }
                    assert forall|j2: int|
                        0 <= j2 < i + 1 && line_candidate(#[trigger] al[j2]) implies exists|k: int|
                        0 <= k < entries@.len() && (#[trigger] entries@[k]).code@ == upper_bytes(
                            line_fields(al[j2])[1],
                        ) by {
                        if j2 < i {
                            let k = choose|k: int|
                                0 <= k < old_entries.len() && (#[trigger] old_entries[k]).code@
                                    == upper_bytes(line_fields(al[j2])[1]);
                            assert(entries@[k].code@ == old_entries[k].code@);
                        } else {
                            if entries@.len() > old_entries.len() {
                                assert(entries@[entries@.len() - 1].code@ == upper_bytes(ccf@));
                            } else {
                                let k = choose|k: int|
                                    0 <= k < old_entries.len() && (#[trigger] old_entries[
                                    k]).code@ == upper_bytes(ccf@);
                                assert(entries@[k].code@ == upper_bytes(ccf@));
                            }
                        }
                    }
                }
            },
        }
        i = i + 1;
    }
    proof {
        assert(al.take(al.len() as int) =~= al);
    }
    // aggregate each country
    let mut agg: Vec<CountryEntry> = Vec::new();
    let mut k: usize = 0;
    while k < entries.len()
        invariant
            k <= entries@.len(),
            lines@.len() == al.len(),
            forall|a: int, b: int|
                0 <= a < b < entries@.len() ==> (#[trigger] entries@[a]).code@ != (
                #[trigger] entries@[b]).code@,
            forall|q: int|
                0 <= q < entries@.len() ==> upper_bytes((#[trigger] entries@[q]).code@)
                    == entries@[q].code@,
            forall|q: int|
                0 <= q < entries@.len() ==> {
                    let e = #[trigger] entries@[q];
                    e.v4@ == lines_v4(al, e.code@) && e.v6@ == lines_v6(al, e.code@) && all_wf(
                        e.v4@,
                    ) && all_wf(e.v6@)
                },
            forall|q: int|
                0 <= q < entries@.len() ==> country_present(
                    al,
                    (#[trigger] entries@[q]).code@,
                ),
            agg@.len() == k,
            forall|q: int| 0 <= q < k ==> (#[trigger] agg@[q]).code@ == entries@[q].code@,
            forall|q: int|
                0 <= q < k ==> {
                    let e = #[trigger] agg@[q];
                    e.v4@ == crate::aggregate::aggregate_spec(lines_v4(al, e.code@)) && e.v6@
                        == crate::aggregate::aggregate_spec(lines_v6(al, e.code@))
                },
        decreases entries@.len() - k,
    {
        let e = &entries[k];
        let code2 = stripped_copy(&e.code);
        let a4 = crate::aggregate::aggregate(&e.v4);
        let a6 = crate::aggregate::aggregate(&e.v6);
        agg.push(CountryEntry { code: code2, v4: a4, v6: a6 });
        k = k + 1;
    }
    let m = CountryMap { entries: agg };
    proof {
        assert(m.wf());
        assert forall|j: int|
            0 <= j < al.len() && line_candidate(#[trigger] al[j]) implies m.has_code(
            upper_bytes(line_fields(al[j])[1]),
        ) by {
            let k2 = choose|k2: int|
                0 <= k2 < entries@.len() && (#[trigger] entries@[k2]).code@ == upper_bytes(
                    line_fields(al[j])[1],
                );
            assert(m.entries@[k2].code@ == entries@[k2].code@);
        }
    }
    Ok(m)
}

} // verus!
