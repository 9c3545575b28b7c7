//! One country's aggregated address lists, extracted from the parsed RIR
//! texts.

use vstd::prelude::*;
use vstd::string::StringSliceAdditionalSpecFns;
use crate::prefix::Prefix;
use crate::error::AppError;
use crate::text::upper_bytes;
use crate::parse::{
    all_lines, lines_v4, lines_v6, lines_all_ok, country_present, parse_all_country_codes,
    line_fields, line_candidate,
};
use crate::aggregate::aggregate_spec;
use crate::fetch::str_views;

verus! {

/// Copy a prefix list.
pub fn copy_prefixes(v: &Vec<Prefix>) -> (r: Vec<Prefix>)
    ensures
        r@ == v@,
{
    let mut out: Vec<Prefix> = Vec::new();
    let mut i: usize = 0;
    while i < v.len()
        invariant
            i <= v@.len(),
            out@ == v@.take(i as int),
        decreases v@.len() - i,
    {
        out.push(v[i]);
        proof {
            assert(out@ =~= v@.take(i as int + 1));
        }
        i = i + 1;
    }
    proof {
        assert(v@.take(v@.len() as int) =~= v@);
    }
    out
}

/// Parse all RIR texts and return the canonical IPv4 and IPv6 lists of one
/// country; a country that never occurs yields two empty lists.
pub fn parse_and_collect_ips(country_code: &str, rir_texts: &Vec<String>) -> (r: Result<
    (Vec<Prefix>, Vec<Prefix>),
    AppError,
>)
    ensures
        ({
            let al = all_lines(str_views(rir_texts@));
            let ub = upper_bytes(country_code.spec_bytes());
            match r {
                Ok((v4, v6)) => {
                    &&& lines_all_ok(al)
                    &&& country_present(al, ub) ==> v4@ == aggregate_spec(lines_v4(al, ub))
                        && v6@ == aggregate_spec(lines_v6(al, ub))
                    &&& !country_present(al, ub) ==> v4@ == Seq::<Prefix>::empty() && v6@
                        == Seq::<Prefix>::empty()
                },
                Err(_) => !lines_all_ok(al),
            }
        }),
{
    let m = match parse_all_country_codes(rir_texts) {
        Ok(m) => m,
        Err(e) => {
            return Err(e);
        },
    };
    let ghost al = all_lines(str_views(rir_texts@));
    let ghost ub = upper_bytes(country_code.spec_bytes());
    match m.get(country_code) {
        Some((v4, v6)) => {
            let r4 = copy_prefixes(v4);
            let r6 = copy_prefixes(v6);
            proof {
                let i = choose|i: int|
                    0 <= i < m.entries@.len() && (#[trigger] m.entries@[i]).code@ == ub && v4@
                        == m.entries@[i].v4@ && v6@ == m.entries@[i].v6@;
                assert(country_present(al, ub));
            }
            Ok((r4, r6))
        },
        None => {
            proof {
                if country_present(al, ub) {
                    let j = choose|j: int|
                        0 <= j < al.len() && line_candidate(#[trigger] al[j]) && upper_bytes(
                            line_fields(al[j])[1],
                        ) == ub;
                    assert(m.has_code(ub));
                    assert(false);
                }
            }
            let r4: Vec<Prefix> = Vec::new();
            let r6: Vec<Prefix> = Vec::new();
            proof {
                assert(r4@ =~= Seq::<Prefix>::empty());
            }
            Ok((r4, r6))
        },
    }
}

} // verus!
