//! Address families and output formats shared across the crate.

use vstd::prelude::*;

verus! {

/// The two address families handled by the library.
#[derive(Debug, Clone, Copy, PartialEq, Eq, Structural)]
pub enum IpFamily {
    V4,
    V6,
}

impl IpFamily {
    /// Bit width of an address in this family.
    pub open spec fn spec_width(self) -> nat {
        match self {
            IpFamily::V4 => 32,
            IpFamily::V6 => 128,
        }
    }

    /// Bit width of an address in this family.
    pub fn width(self) -> (w: u32)
        ensures
            w == self.spec_width(),
    {
        match self {
            IpFamily::V4 => 32,
            IpFamily::V6 => 128,
        }
    }

    /// The whois route attribute key for this family.
    pub fn route_key(self) -> (r: &'static str)
        ensures
            self is V4 ==> r@ == "route:"@,
            self is V6 ==> r@ == "route6:"@,
    {
        match self {
            IpFamily::V4 => "route:",
            IpFamily::V6 => "route6:",
        }
    }

    /// Label used in log lines and output file names.
    pub fn as_str(self) -> (r: &'static str)
        ensures
            self is V4 ==> r@ == "IPv4"@,
            self is V6 ==> r@ == "IPv6"@,
    {
        match self {
            IpFamily::V4 => "IPv4",
            IpFamily::V6 => "IPv6",
        }
    }
}

/// Output rendering formats.
#[derive(Debug, Clone, Copy, PartialEq, Eq, Structural)]
pub enum OutputFormat {
    Txt,
    Nft,
}

/// ASCII lower-casing of one character, as a code point.
pub open spec fn lower_char_u(c: char) -> int {
    if 65 <= c as u32 <= 90 {
        c as u32 + 32
    } else {
        c as u32 as int
    }
}

/// Whether lower-casing `s` yields exactly `t` (with `t` already lower).
pub open spec fn matches_lower(s: Seq<char>, t: Seq<char>) -> bool {
    s.len() == t.len() && forall|i: int| 0 <= i < s.len() ==> lower_char_u(#[trigger] s[i]) == t[i] as u32
}

/// Case-insensitive comparison against a lower-case pattern.
fn eq_lower(s: &str, t: &str) -> (r: bool)
    ensures
        r == matches_lower(s@, t@),
{
    let n = s.unicode_len();
    if n != t.unicode_len() {
        return false;
    }
    let mut i: usize = 0;
    while i < n
        invariant
            n == s@.len() == t@.len(),
            i <= n,
            forall|k: int| 0 <= k < i ==> lower_char_u(#[trigger] s@[k]) == t@[k] as u32,
        decreases n - i,
    {
        let a = s.get_char(i) as u32;
        let b = t.get_char(i) as u32;
        let al = if 65 <= a && a <= 90 {
            a + 32
        } else {
            a
        };
        if al != b {
            return false;
        }
        i = i + 1;
    }
    true
}

/// Exact comparison of two strings.
fn str_eq(s: &str, t: &str) -> (r: bool)
    ensures
        r == (s@ == t@),
{
    let n = s.unicode_len();
    if n != t.unicode_len() {
        return false;
    }
    let mut i: usize = 0;
    while i < n
        invariant
            n == s@.len() == t@.len(),
            i <= n,
            forall|k: int| 0 <= k < i ==> #[trigger] s@[k] == t@[k],
        decreases n - i,
    {
        if s.get_char(i) != t.get_char(i) {
            return false;
        }
        i = i + 1;
    }
    proof {
        assert(s@ =~= t@);
    }
    true
}

impl IpFamily {
    /// Parse the family labels `IPv4` and `IPv6`.
    pub fn from_str(s: &str) -> (r: Result<IpFamily, &'static str>)
        ensures
            s@ == "IPv4"@ ==> r == Ok::<IpFamily, &'static str>(IpFamily::V4),
            s@ == "IPv6"@ ==> r == Ok::<IpFamily, &'static str>(IpFamily::V6),
            s@ != "IPv4"@ && s@ != "IPv6"@ ==> (r matches Err(m) && m@
                == "Invalid IP version. Must be 'IPv4' or 'IPv6'"@),
    {
        proof {
            reveal_strlit("IPv4");
            reveal_strlit("IPv6");
            assert("IPv4"@[3] == '4');
            assert("IPv6"@[3] == '6');
        }
        if str_eq(s, "IPv4") {
            Ok(IpFamily::V4)
        } else if str_eq(s, "IPv6") {
            Ok(IpFamily::V6)
        } else {
            Err("Invalid IP version. Must be 'IPv4' or 'IPv6'")
        }
    }
}

impl OutputFormat {
    /// Parse a format name, case-insensitively; an empty name means plain
    /// text.
    pub fn from_str(s: &str) -> (r: Result<OutputFormat, &'static str>)
        ensures
            matches_lower(s@, "nft"@) ==> r == Ok::<OutputFormat, &'static str>(
                OutputFormat::Nft,
            ),
            !matches_lower(s@, "nft"@) && (matches_lower(s@, "txt"@) || s@.len() == 0) ==> r
                == Ok::<OutputFormat, &'static str>(OutputFormat::Txt),
            !matches_lower(s@, "nft"@) && !matches_lower(s@, "txt"@) && s@.len() != 0 ==> (
            r matches Err(m) && m@ == "Invalid output format. Valid options: 'txt' or 'nft'"@),
    {
        if eq_lower(s, "nft") {
            Ok(OutputFormat::Nft)
        } else if eq_lower(s, "txt") || s.unicode_len() == 0 {
            Ok(OutputFormat::Txt)
        } else {
            Err("Invalid output format. Valid options: 'txt' or 'nft'")
        }
    }
}

} // verus!
