//! The resolved command-line intent, as plain values, and its validation.
//! Argument parsing itself happens outside the library; this type is what
//! the rest of the crate consumes.

use vstd::prelude::*;
use crate::error::AppError;
use crate::text::{upper_bytes};
use crate::cidr_text::chars_of;

verus! {

/// The run configuration: which countries and autonomous systems to look
/// up, how to fetch, and how to write results.
#[derive(Debug, Clone)]
pub struct Cli {
    pub country_codes: Option<Vec<String>>,
    pub as_numbers: Option<Vec<u32>>,
    pub overlap: bool,
    pub output_format: String,
    pub max_retries: u32,
    pub max_backoff_sec: u64,
    pub http_timeout_secs: u64,
    pub connect_timeout_secs: u64,
    pub concurrency: usize,
    pub continue_on_partial: bool,
    pub debug: bool,
}

/// ASCII letter.
pub open spec fn is_alpha_char(c: char) -> bool {
    (65 <= c as u32 <= 90) || (97 <= c as u32 <= 122)
}

pub open spec fn all_alpha(s: Seq<char>) -> bool {
    forall|i: int| 0 <= i < s.len() ==> is_alpha_char(#[trigger] s[i])
}

/// The ASCII bytes of a sequence of ASCII characters.
pub open spec fn ascii_bytes_of(s: Seq<char>) -> Seq<u8> {
    s.map_values(|c: char| c as u8)
}

/// Validate and normalize a country code: letters only, two or three of
/// them, upper-cased.
pub fn parse_country_code(s: &str) -> (r: Result<String, String>)
    ensures
        match r {
            Ok(u) => all_alpha(s@) && (s@.len() == 2 || s@.len() == 3) && u@ == chars_of(
                upper_bytes(ascii_bytes_of(s@)),
            ),
            Err(e) => (!all_alpha(s@) && e@ == "Country code must be alphabetic (A-Z)"@) || (
            all_alpha(s@) && !(s@.len() == 2 || s@.len() == 3) && e@
                == "Country code length must be 2 or 3"@),
        },
{
    let n = s.unicode_len();
    let mut out: Vec<u8> = Vec::new();
    let mut i: usize = 0;
    proof {
        assert(s@.take(0) =~= Seq::<char>::empty());
        assert(out@ =~= upper_bytes(ascii_bytes_of(s@.take(0))));
    }
    while i < n
        invariant
            n == s@.len(),
            i <= n,
            all_alpha(s@.take(i as int)),
            out@ == upper_bytes(ascii_bytes_of(s@.take(i as int))),
            forall|k: int| 0 <= k < out@.len() ==> #[trigger] out@[k] < 128,
        decreases n - i,
    {
        let c = s.get_char(i);
        let u = c as u32;
        if !((65 <= u && u <= 90) || (97 <= u && u <= 122)) {
            return Err(String::from_str("Country code must be alphabetic (A-Z)"));
        }
        let b: u8 = if 97 <= u && u <= 122 {
            (u - 32) as u8
        } else {
            u as u8
        };
        out.push(b);
        proof {
            assert(s@.take(i as int + 1).drop_last() =~= s@.take(i as int));
            assert(s@.take(i as int + 1).last() == s@[i as int]);
            assert(out@ =~= upper_bytes(ascii_bytes_of(s@.take(i as int + 1))));
        }
        i = i + 1;
    }
    proof {
        assert(s@.take(n as int) =~= s@);
    }
    if !(n == 2 || n == 3) {
        return Err(String::from_str("Country code length must be 2 or 3"));
    }
    Ok(crate::cidr_text::ascii_to_string(out))
}

/// Overlap mode needs both a country list and an AS list; hand back owned
/// copies of both or say which is missing.
pub fn validate_args(args: &Cli) -> (r: Result<(Vec<String>, Vec<u32>), AppError>)
    ensures
        match r {
            Ok((cc, asns)) => {
                &&& args.country_codes matches Some(c) && cc@.len() == c@.len() && (forall|i: int|
                    0 <= i < cc@.len() ==> (#[trigger] cc@[i])@ == c@[i]@)
                &&& args.as_numbers matches Some(a) && asns@ == a@
            },
            Err(e) => {
                &&& args.country_codes is None || args.as_numbers is None
                &&& e matches AppError::InvalidInput(_)
            },
        },
{
    let cc: &Vec<String> = match &args.country_codes {
        Some(c) => c,
        None => {
            return Err(
                AppError::InvalidInput(
                    String::from_str("Error: --overlap requires --country <codes>"),
                ),
            );
        },
    };
    let asns: &Vec<u32> = match &args.as_numbers {
        Some(a) => a,
        None => {
            return Err(
                AppError::InvalidInput(
                    String::from_str("Error: --overlap requires --as-number <numbers>"),
                ),
            );
        },
    };
    let mut cc2: Vec<String> = Vec::new();
    let mut i: usize = 0;
    while i < cc.len()
        invariant
            i <= cc@.len(),
            cc2@.len() == i,
            forall|k: int| 0 <= k < i ==> (#[trigger] cc2@[k])@ == cc@[k]@,
        decreases cc@.len() - i,
    {
        cc2.push(cc[i].clone());
        i = i + 1;
    }
    let mut as2: Vec<u32> = Vec::new();
    let mut j: usize = 0;
    while j < asns.len()
        invariant
            j <= asns@.len(),
            as2@ == asns@.take(j as int),
        decreases asns@.len() - j,
    {
        as2.push(asns[j]);
        proof {
            assert(as2@ =~= asns@.take(j as int + 1));
        }
        j = j + 1;
    }
    proof {
        assert(asns@.take(asns@.len() as int) =~= asns@);
    }
    Ok((cc2, as2))
}

} // verus!
