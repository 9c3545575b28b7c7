//! Rendering of result sets as text: safe identifiers, file headers, and
//! the plain and nftables list bodies.  The library builds the full file
//! contents; writing them anywhere is the caller's business.

use vstd::prelude::*;
use crate::prefix::Prefix;
use crate::common::IpFamily;
use crate::text::v4_cidr_bytes;
use crate::cidr_text::{chars_of, ascii_to_string, v6_cidr_text};
use crate::aggregate::all_wf;

verus! {

/// ASCII letter or digit.
pub open spec fn is_alnum_char(c: char) -> bool {
    (48 <= c as u32 <= 57) || (65 <= c as u32 <= 90) || (97 <= c as u32 <= 122)
}

/// One character of the sanitized form: itself when alphanumeric ASCII,
/// an underscore otherwise.
pub open spec fn sanitize_char(c: char) -> u8 {
    if is_alnum_char(c) {
        (c as u32) as u8
    } else {
        95
    }
}

pub open spec fn sanitize_map(s: Seq<char>) -> Seq<u8> {
    s.map_values(|c: char| sanitize_char(c))
}

/// Drop leading underscores.
pub open spec fn drop_leading(s: Seq<u8>) -> Seq<u8>
    decreases s.len(),
{
    if s.len() > 0 && s[0] == 95 {
        drop_leading(s.skip(1))
    } else {
        s
    }
}

/// Drop trailing underscores.
pub open spec fn drop_trailing(s: Seq<u8>) -> Seq<u8>
    decreases s.len(),
{
    if s.len() > 0 && s.last() == 95 {
        drop_trailing(s.drop_last())
    } else {
        s
    }
}

/// The sanitized identifier: map to alphanumerics and underscores, trim
/// underscores at both ends, cap at 64 bytes, and fall back to `UNKNOWN`
/// when nothing is left.
pub open spec fn sanitize_spec(s: Seq<char>) -> Seq<u8> {
    let t = drop_trailing(drop_leading(sanitize_map(s)));
    let u = if t.len() > 64 {
        t.take(64)
    } else {
        t
    };
    if u.len() == 0 {
        seq![85u8, 78u8, 75u8, 78u8, 79u8, 87u8, 78u8]
    } else {
        u
    }
}

proof fn lemma_drop_leading(s: Seq<u8>, a: int)
    requires
        0 <= a <= s.len(),
        forall|k: int| 0 <= k < a ==> s[k] == 95,
        a == s.len() || s[a] != 95,
    ensures
        drop_leading(s) == s.skip(a),
    decreases a,
{
    if a == 0 {
        assert(s.skip(0) =~= s);
    } else {
        assert(s[0] == 95);
        let t = s.skip(1);
        assert(forall|k: int| 0 <= k < t.len() ==> t[k] == s[k + 1]);
        lemma_drop_leading(t, a - 1);
        assert(t.skip(a - 1) =~= s.skip(a));
    }
}

proof fn lemma_drop_trailing(s: Seq<u8>, b: int)
    requires
        0 <= b <= s.len(),
        forall|k: int| b <= k < s.len() ==> s[k] == 95,
        b == 0 || s[b - 1] != 95,
    ensures
        drop_trailing(s) == s.take(b),
    decreases s.len() - b,
{
    if b == s.len() as int {
        if s.len() > 0 {
            assert(s.last() != 95);
        }
        assert(s.take(b) =~= s);
    } else {
        assert(s.last() == 95);
        let t = s.drop_last();
        assert(forall|k: int| 0 <= k < t.len() ==> t[k] == s[k]);
        lemma_drop_trailing(t, b);
        assert(t.take(b) =~= s.take(b));
    }
}

/// Normalize an arbitrary name into a safe identifier: ASCII letters and
/// digits kept, everything else an underscore, trimmed, at most 64 bytes,
/// `UNKNOWN` when empty.
pub fn sanitize_identifier(input: &str) -> (r: String)
    ensures
        r@ == chars_of(sanitize_spec(input@)),
{
    let n = input.unicode_len();
    let mut m: Vec<u8> = Vec::new();
    let mut i: usize = 0;
    proof {
        assert(input@.take(0) =~= Seq::<char>::empty());
        assert(m@ =~= sanitize_map(input@.take(0)));
    }
    while i < n
        invariant
            n == input@.len(),
            i <= n,
            m@ == sanitize_map(input@.take(i as int)),
        decreases n - i,
    {
        let c = input.get_char(i);
        let u = c as u32;
        let b: u8 = if (48 <= u && u <= 57) || (65 <= u && u <= 90) || (97 <= u && u <= 122) {
            u as u8
        } else {
            95
        };
        m.push(b);
        proof {
            assert(input@.take(i as int + 1).drop_last() =~= input@.take(i as int));
            assert(input@.take(i as int + 1).last() == input@[i as int]);
            assert(m@ =~= sanitize_map(input@.take(i as int + 1)));
        }
        i = i + 1;
    }
    proof {
        assert(input@.take(n as int) =~= input@);
    }
    // trim underscores at both ends
    let mut a: usize = 0;
    while a < m.len() && m[a] == 95
        invariant
            a <= m@.len(),
            forall|k: int| 0 <= k < a ==> m@[k] == 95,
        decreases m@.len() - a,
    {
        a = a + 1;
    }
    let mut b: usize = m.len();
    while b > a && m[b - 1] == 95
        invariant
            a <= b <= m@.len(),
            forall|k: int| b <= k < m@.len() ==> m@[k] == 95,
            a == m@.len() || m@[a as int] != 95,
        decreases b,
    {
        b = b - 1;
    }
    let mut out: Vec<u8> = Vec::new();
    let mut k = a;
    while k < b
        invariant
            a <= b <= m@.len(),
            a <= k <= b,
            out@ == m@.subrange(a as int, k as int),
        decreases b - k,
    {
        out.push(m[k]);
        proof {
            assert(out@ =~= m@.subrange(a as int, k as int + 1));
        }
        k = k + 1;
    }
    proof {
        // the double trim equals the spec's drop_leading / drop_trailing
        if a == m@.len() {
            lemma_drop_leading(m@, a as int);
            assert(m@.skip(a as int) =~= Seq::<u8>::empty());
            assert(drop_trailing(Seq::<u8>::empty()) =~= Seq::<u8>::empty());
            assert(out@ =~= Seq::<u8>::empty());
            assert(drop_trailing(drop_leading(m@)) =~= out@);
        } else {
            lemma_drop_leading(m@, a as int);
            let t = m@.skip(a as int);
            assert(forall|k2: int| 0 <= k2 < t.len() ==> t[k2] == m@[k2 + a]);
            if b == a {
                // everything after a is underscores, but m[a] != 95 -- impossible
                assert(m@[a as int] == 95);
                assert(false);
            }
            lemma_drop_trailing(t, b - a);
            assert(t.take(b - a) =~= m@.subrange(a as int, b as int));
            assert(drop_trailing(drop_leading(m@)) =~= out@);
        }
    }
    // cap the length
    let mut capped = out;
    if capped.len() > 64 {
        let mut c2: Vec<u8> = Vec::new();
        let mut k2: usize = 0;
        while k2 < 64
            invariant
                capped@.len() > 64,
                k2 <= 64,
                c2@ == capped@.take(k2 as int),
            decreases 64 - k2,
        {
            c2.push(capped[k2]);
            proof {
                assert(c2@ =~= capped@.take(k2 as int + 1));
            }
            k2 = k2 + 1;
        }
        capped = c2;
    }
    if capped.len() == 0 {
        let r = String::from_str("UNKNOWN");
        proof {
            reveal_strlit("UNKNOWN");
            assert(r@ =~= chars_of(sanitize_spec(input@)));
        }
        return r;
    }
    proof {
        assert(forall|k2: int| 0 <= k2 < capped@.len() ==> #[trigger] capped@[k2] < 128) by {
            let t = drop_trailing(drop_leading(sanitize_map(input@)));
            assert(forall|k2: int|
                0 <= k2 < sanitize_map(input@).len() ==> #[trigger] sanitize_map(input@)[k2]
                    < 128);
            lemma_members_leading(sanitize_map(input@));
        }
    }
    ascii_to_string(capped)
}

/// Every byte of `drop_leading`/`drop_trailing` output comes from the
/// input.
proof fn lemma_members_leading(s: Seq<u8>)
    requires
        forall|k: int| 0 <= k < s.len() ==> #[trigger] s[k] < 128,
    ensures
        forall|k: int|
            0 <= k < drop_leading(s).len() ==> #[trigger] drop_leading(s)[k] < 128,
        forall|k: int|
            0 <= k < drop_trailing(drop_leading(s)).len() ==> #[trigger] drop_trailing(
                drop_leading(s),
            )[k] < 128,
    decreases s.len(),
{
    lemma_drop_members(s);
    lemma_drop_trailing_members(drop_leading(s));
}

proof fn lemma_drop_members(s: Seq<u8>)
    requires
        forall|k: int| 0 <= k < s.len() ==> #[trigger] s[k] < 128,
    ensures
        forall|k: int|
            0 <= k < drop_leading(s).len() ==> #[trigger] drop_leading(s)[k] < 128,
    decreases s.len(),
{
    if s.len() > 0 && s[0] == 95 {
        assert(forall|k: int| 0 <= k < s.skip(1).len() ==> s.skip(1)[k] == s[k + 1]);
        lemma_drop_members(s.skip(1));
        assert(drop_leading(s) == drop_leading(s.skip(1)));
        assert forall|k: int| 0 <= k < drop_leading(s).len() implies #[trigger] drop_leading(
            s,
        )[k] < 128 by {
            assert(drop_leading(s)[k] == drop_leading(s.skip(1))[k]);
        }
    } else {
        assert(drop_leading(s) == s);
        assert forall|k: int| 0 <= k < drop_leading(s).len() implies #[trigger] drop_leading(
            s,
        )[k] < 128 by {
            assert(drop_leading(s)[k] == s[k]);
        }
    }
}

proof fn lemma_drop_trailing_members(s: Seq<u8>)
    requires
        forall|k: int| 0 <= k < s.len() ==> #[trigger] s[k] < 128,
    ensures
        forall|k: int|
            0 <= k < drop_trailing(s).len() ==> #[trigger] drop_trailing(s)[k] < 128,
    decreases s.len(),
{
    if s.len() > 0 && s.last() == 95 {
        assert(forall|k: int| 0 <= k < s.drop_last().len() ==> s.drop_last()[k] == s[k]);
        lemma_drop_trailing_members(s.drop_last());
        assert(drop_trailing(s) == drop_trailing(s.drop_last()));
        assert forall|k: int| 0 <= k < drop_trailing(s).len() implies #[trigger] drop_trailing(
            s,
        )[k] < 128 by {
            assert(drop_trailing(s)[k] == drop_trailing(s.drop_last())[k]);
        }
    } else {
        assert(drop_trailing(s) == s);
        assert forall|k: int| 0 <= k < drop_trailing(s).len() implies #[trigger] drop_trailing(
            s,
        )[k] < 128 by {
            assert(drop_trailing(s)[k] == s[k]);
        }
    }
}

/// The standard file header.
pub fn make_header(now_str: &str, country_code: &str, as_number: &str) -> (r: String)
    ensures
        r@ == "# Generated at: "@ + now_str@ + "\n# Country Code: "@ + country_code@
            + "\n# AS Number: "@ + as_number@ + "\n\n"@,
{
    let mut s = String::new();
    s.append("# Generated at: ");
    s.append(now_str);
    s.append("\n# Country Code: ");
    s.append(country_code);
    s.append("\n# AS Number: ");
    s.append(as_number);
    s.append("\n\n");
    proof {
        assert(s@ =~= "# Generated at: "@ + now_str@ + "\n# Country Code: "@ + country_code@
            + "\n# AS Number: "@ + as_number@ + "\n\n"@);
    }
    s
}

/// The text of one prefix, by family.
pub open spec fn cidr_chars(p: Prefix) -> Seq<char> {
    match p.family {
        IpFamily::V4 => chars_of(v4_cidr_bytes(p.addr as u32, p.len)),
        IpFamily::V6 => v6_cidr_text(p.addr, p.len),
    }
}

/// The prefixes joined by single newlines, without a trailing one.
pub open spec fn joined_lines(ps: Seq<Prefix>) -> Seq<char>
    decreases ps.len(),
{
    if ps.len() == 0 {
        Seq::empty()
    } else if ps.len() == 1 {
        cidr_chars(ps[0])
    } else {
        joined_lines(ps.drop_last()) + "\n"@ + cidr_chars(ps.last())
    }
}

/// The plain-text list: header, one prefix per line, final newline.
pub fn render_list_txt(nets: &Vec<Prefix>, header: &str) -> (r: String)
    requires
        all_wf(nets@),
    ensures
        r@ == header@ + joined_lines(nets@) + "\n"@,
{
    let mut s = String::new();
    s.append(header);
    let mut i: usize = 0;
    while i < nets.len()
        invariant
            i <= nets@.len(),
            all_wf(nets@),
            s@ == header@ + joined_lines(nets@.take(i as int)),
        decreases nets@.len() - i,
    {
        if i > 0 {
            s.append("\n");
        }
        let line = nets[i].to_cidr_string();
        s.append(line.as_str());
        proof {
            let t = nets@.take(i as int + 1);
            assert(t.drop_last() =~= nets@.take(i as int));
            assert(t.last() == nets@[i as int]);
            if i == 0 {
                assert(t.len() == 1);
                assert(t[0] == nets@[0]);
                assert(joined_lines(t) == cidr_chars(nets@[0]));
                assert(s@ =~= header@ + joined_lines(t));
            } else {
                assert(s@ =~= header@ + joined_lines(t));
            }
        }
        i = i + 1;
    }
    s.append("\n");
    proof {
        assert(nets@.take(nets@.len() as int) =~= nets@);
        assert(s@ =~= header@ + joined_lines(nets@) + "\n"@);
    }
    s
}

/// The nftables define body for one prefix list.
pub open spec fn nft_lines(ps: Seq<Prefix>) -> Seq<char>
    decreases ps.len(),
{
    if ps.len() == 0 {
        Seq::empty()
    } else {
        nft_lines(ps.drop_last()) + "    "@ + cidr_chars(ps.last()) + ",\n"@
    }
}

/// The nftables list: header, a named define block with one prefix per
/// line.
pub fn render_list_nft(nets: &Vec<Prefix>, header: &str, define_name: &str) -> (r: String)
    requires
        all_wf(nets@),
    ensures
        r@ == header@ + "define "@ + define_name@ + " = {\n"@ + nft_lines(nets@) + "}\n"@,
{
    let mut s = String::new();
    s.append(header);
    s.append("define ");
    s.append(define_name);
    s.append(" = {\n");
    let mut i: usize = 0;
    proof {
        assert(nets@.take(0) =~= Seq::<Prefix>::empty());
        assert(s@ =~= header@ + "define "@ + define_name@ + " = {\n"@ + nft_lines(
            nets@.take(0),
        ));
    }
    while i < nets.len()
        invariant
            i <= nets@.len(),
            all_wf(nets@),
            s@ == header@ + "define "@ + define_name@ + " = {\n"@ + nft_lines(
                nets@.take(i as int),
            ),
        decreases nets@.len() - i,
    {
        s.append("    ");
        let line = nets[i].to_cidr_string();
        s.append(line.as_str());
        s.append(",\n");
        proof {
            let t = nets@.take(i as int + 1);
            assert(t.drop_last() =~= nets@.take(i as int));
            assert(t.last() == nets@[i as int]);
            assert(s@ =~= header@ + "define "@ + define_name@ + " = {\n"@ + nft_lines(t));
        }
        i = i + 1;
    }
    s.append("}\n");
    proof {
        assert(nets@.take(nets@.len() as int) =~= nets@);
        assert(s@ =~= header@ + "define "@ + define_name@ + " = {\n"@ + nft_lines(nets@)
            + "}\n"@);
    }
    s
}

} // verus!
