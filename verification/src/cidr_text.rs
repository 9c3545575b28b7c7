//! Textual form of prefixes.  IPv4 text is parsed and rendered by verified
//! code; IPv6 text goes through the `ipnet` crate behind trusted wrappers,
//! with the results named by uninterpreted functions.

use vstd::prelude::*;
use vstd::string::StringSliceAdditionalSpecFns;
use vstd::arithmetic::power2::*;
use vstd::arithmetic::div_mod::*;
use crate::common::IpFamily;
use crate::prefix::{pow2i, Prefix, lemma_pow2_128};
use crate::text::{
    split_on, split_bytes, has_byte, contains_byte, parse_v4_addr, parse_u64_bytes,
    valid_v4_addr_b, v4_addr_value_b, all_digits_b, dec_value_b, v4_cidr_bytes,
    format_v4_cidr_bytes, lemma_dec_bytes_ascii, lemma_dec_value_nonneg,
};

verus! {

/// The characters of an ASCII byte string.
pub open spec fn chars_of(bs: Seq<u8>) -> Seq<char> {
    bs.map_values(|b: u8| b as char)
}

/// Relies on `String::from_utf8`: ASCII bytes decode to exactly those
/// characters.
#[verifier::external_body]
pub fn ascii_to_string(v: Vec<u8>) -> (r: String)
    requires
        forall|i: int| 0 <= i < v@.len() ==> v@[i] < 128,
    ensures
        r@ == chars_of(v@),
{
    String::from_utf8(v).unwrap_or_default()
}

/// What `ipnet` makes of an `address/len` IPv6 CIDR string: the network
/// address (host bits cleared) and prefix length, or nothing.
pub uninterp spec fn v6_net_of(s: Seq<char>) -> Option<(u128, u8)>;

/// The canonical `address/len` text of an IPv6 CIDR block.
pub uninterp spec fn v6_cidr_text(addr: u128, len: u8) -> Seq<char>;

/// Relies on `ipnet::Ipv6Net::from_str` and `Ipv6Net::network`: parsing an
/// `address/len` string, rejecting lengths over 128, and truncating the
/// address to the network address; the result depends on the characters
/// alone.
#[verifier::external_body]
pub fn parse_v6_net(s: &str) -> (r: Option<(u128, u8)>)
    ensures
        r == v6_net_of(s@),
        r matches Some((a, l)) ==> l <= 128 && (a as int) % pow2i((128 - l) as nat) == 0,
{
    match s.parse::<ipnet::Ipv6Net>() {
        Ok(n) => Some((u128::from(n.network()), n.prefix_len())),
        Err(_) => None,
    }
}

/// Relies on `ipnet::Ipv6Net`'s display form `address/len`, where the
/// address is compressed per RFC 5952: the text depends on the address and
/// length alone.
#[verifier::external_body]
pub fn format_v6_cidr(addr: u128, len: u8) -> (r: String)
    requires
        len <= 128,
    ensures
        r@ == v6_cidr_text(addr, len),
{
    match ipnet::Ipv6Net::new(addr.into(), len) {
        Ok(n) => n.to_string(),
        Err(_) => String::new(),
    }
}

/// What a parsed IPv4 `address/len` string denotes: the canonical prefix,
/// host bits cleared, or nothing when malformed.
pub open spec fn v4_cidr_of(bs: Seq<u8>) -> Option<Prefix> {
    let parts = split_on(bs, 47);
    if parts.len() == 2 && valid_v4_addr_b(parts[0]) && parts[1].len() > 0 && all_digits_b(
        parts[1],
    ) && dec_value_b(parts[1]) <= 32 {
        let a = v4_addr_value_b(parts[0]);
        let l = dec_value_b(parts[1]);
        let s = pow2i((32 - l) as nat);
        Some(Prefix { family: IpFamily::V4, addr: (a / s * s) as u128, len: l as u8 })
    } else {
        None
    }
}

/// What a parsed CIDR string of either family denotes.
pub open spec fn cidr_of(bs: Seq<u8>, cs: Seq<char>) -> Option<Prefix> {
    if has_byte(bs, 58) {
        match v6_net_of(cs) {
            Some((a, l)) => Some(Prefix { family: IpFamily::V6, addr: a, len: l }),
            None => None,
        }
    } else {
        v4_cidr_of(bs)
    }
}

/// Parse a CIDR string of either family into a canonical prefix; host bits
/// beyond the prefix length are cleared.
pub fn parse_cidr(s: &str) -> (r: Option<Prefix>)
    ensures
        r == cidr_of(s.spec_bytes(), s@),
        r matches Some(p) ==> p.wf(),
{
    let bytes = s.as_bytes_vec();
    if contains_byte(&bytes, 58) {
        match parse_v6_net(s) {
            Some((a, l)) => {
                let p = Prefix { family: IpFamily::V6, addr: a, len: l };
                proof {
                    lemma_pow2_128();
                }
                Some(p)
            },
            None => None,
        }
    } else {
        let parts = split_bytes(&bytes, 47);
        proof {
            let sp = split_on(s.spec_bytes(), 47);
            assert(forall|i: int| 0 <= i < parts@.len() ==> (#[trigger] parts@[i])@ == sp[i]);
        }
        if parts.len() != 2 {
            return None;
        }
        let a = match parse_v4_addr(&parts[0]) {
            Some(a) => a,
            None => {
                return None;
            },
        };
        let l = match parse_u64_bytes(&parts[1]) {
            Some(l) => l,
            None => {
                return None;
            },
        };
        if l > 32 {
            return None;
        }
        proof {
            lemma_dec_value_nonneg(split_on(s.spec_bytes(), 47)[1]);
        }
        let p = mask_v4(a, l as u8);
        proof {
            lemma_pow2_128();
        }
        Some(p)
    }
}

/// Clear the host bits of an IPv4 address for the given prefix length.
fn mask_v4(a: u32, l: u8) -> (p: Prefix)
    requires
        l <= 32,
    ensures
        ({
            let s = pow2i((32 - l) as nat);
            p == Prefix { family: IpFamily::V4, addr: ((a as int) / s * s) as u128, len: l }
        }),
        p.wf(),
{
    let m = crate::prefix::pow2_minus1_u128((32 - l as u32) as u32);
    proof {
        lemma_pow2_128();
        crate::prefix::lemma_pow2_strictly_increases_or_eq((32 - l) as nat, 32);
    }
    let s128 = m + 1;
    proof {
        let s = pow2i((32 - l) as nat);
        lemma_pow2_pos((32 - l) as nat);
        lemma_fundamental_div_mod(a as int, s);
        lemma_mod_division_less_than_divisor(a as int, s);
        vstd::arithmetic::mul::lemma_mul_is_commutative(s, (a as int) / s);
        assert((a as int) / s * s == a as int - (a as int) % s);
        assert((a as int) / s * s <= a as int);
        lemma_mod_multiples_basic((a as int) / s, s);
    }
    let addr = (a as u128) / s128 * s128;
    let p = Prefix { family: IpFamily::V4, addr, len: l };
    proof {
        let s = pow2i((32 - l) as nat);
        assert(addr as int == (a as int) / s * s);
        assert((addr as int) % s == 0);
        assert(p.wf());
    }
    p
}

impl Prefix {
    /// The textual CIDR form `address/len`.
    pub fn to_cidr_string(&self) -> (r: String)
        requires
            self.wf(),
        ensures
            self.family is V4 ==> r@ == chars_of(v4_cidr_bytes(self.addr as u32, self.len)),
            self.family is V6 ==> r@ == v6_cidr_text(self.addr, self.len),
    {
        match self.family {
            IpFamily::V4 => {
                proof {
                    lemma_pow2_128();
                }
                let b = format_v4_cidr_bytes(self.addr as u32, self.len);
                proof {
                    let bs = v4_cidr_bytes(self.addr as u32, self.len);
                    lemma_dec_bytes_ascii((self.addr as u32) as int / 0x1000000);
                    lemma_dec_bytes_ascii((self.addr as u32) as int / 0x10000 % 256);
                    lemma_dec_bytes_ascii((self.addr as u32) as int / 256 % 256);
                    lemma_dec_bytes_ascii((self.addr as u32) as int % 256);
                    lemma_dec_bytes_ascii(self.len as int);
                    assert(forall|i: int| 0 <= i < bs.len() ==> #[trigger] bs[i] < 128);
                }
                ascii_to_string(b)
            },
            IpFamily::V6 => format_v6_cidr(self.addr, self.len),
        }
    }
}

} // verus!
