//! Byte-level text helpers: decimal numbers, field splitting, searching,
//! ASCII case folding, and the dotted-quad IPv4 form.  Specs are stated
//! over byte sequences; `str` inputs are related through `spec_bytes`.

use vstd::prelude::*;

verus! {

/// ASCII decimal digit.
pub open spec fn is_digit_b(b: u8) -> bool {
    48 <= b <= 57
}

pub open spec fn all_digits_b(s: Seq<u8>) -> bool {
    forall|i: int| 0 <= i < s.len() ==> is_digit_b(#[trigger] s[i])
}

/// Value of a digit string, most significant first.
pub open spec fn dec_value_b(s: Seq<u8>) -> int
    decreases s.len(),
{
    if s.len() == 0 {
        0
    } else {
        dec_value_b(s.drop_last()) * 10 + (s.last() - 48)
    }
}

pub proof fn lemma_dec_value_nonneg(s: Seq<u8>)
    requires
        all_digits_b(s),
    ensures
        dec_value_b(s) >= 0,
    decreases s.len(),
{
    if s.len() > 0 {
        assert(all_digits_b(s.drop_last())) by {
            assert(forall|i: int| 0 <= i < s.len() - 1 ==> s.drop_last()[i] == s[i]);
        }
        lemma_dec_value_nonneg(s.drop_last());
    }
}

/// A digit string's value only grows as digits are appended.
pub proof fn lemma_dec_value_prefix(s: Seq<u8>, i: int)
    requires
        all_digits_b(s),
        0 <= i <= s.len(),
    ensures
        dec_value_b(s.take(i)) <= dec_value_b(s),
    decreases s.len() - i,
{
    if i < s.len() {
        lemma_dec_value_prefix(s, i + 1);
        let t = s.take(i + 1);
        assert(t.drop_last() =~= s.take(i));
        assert(t.last() == s[i]);
        assert(all_digits_b(s.take(i))) by {
            assert(forall|k: int| 0 <= k < i ==> s.take(i)[k] == s[k]);
        }
        lemma_dec_value_nonneg(s.take(i));
        assert(dec_value_b(t) == dec_value_b(s.take(i)) * 10 + (s[i] - 48));
    } else {
        assert(s.take(i) =~= s);
    }
}

/// Parse an unsigned decimal number: the whole input must be one or more
/// digits and the value must fit in `u64`.
pub fn parse_u64_bytes(v: &Vec<u8>) -> (r: Option<u64>)
    ensures
        match r {
            Some(n) => v@.len() > 0 && all_digits_b(v@) && n == dec_value_b(v@),
            None => v@.len() == 0 || !all_digits_b(v@) || dec_value_b(v@) > u64::MAX,
        },
{
    if v.len() == 0 {
        return None;
    }
    let mut acc: u64 = 0;
    let mut i: usize = 0;
    proof {
        assert(v@.take(0) =~= Seq::<u8>::empty());
    }
    while i < v.len()
        invariant
            0 <= i <= v@.len(),
            all_digits_b(v@.take(i as int)),
            acc == dec_value_b(v@.take(i as int)),
        decreases v@.len() - i,
    {
        let b = v[i];
        if b < 48 || b > 57 {
            return None;
        }
        let d = (b - 48) as u64;
        proof {
            assert(v@.take(i as int + 1).drop_last() =~= v@.take(i as int));
            assert(v@.take(i as int + 1).last() == v@[i as int]);
        }
        if acc > (u64::MAX - d) / 10 {
            proof {
                let t = v@.take(i as int + 1);
                assert(all_digits_b(t));
                assert(dec_value_b(t) == acc * 10 + d);
                let m = (u64::MAX - d) as int;
                vstd::arithmetic::div_mod::lemma_fundamental_div_mod(m, 10);
                assert(dec_value_b(t) > u64::MAX);
                if all_digits_b(v@) {
                    lemma_dec_value_prefix(v@, i as int + 1);
                }
            }
            return None;
        }
        acc = acc * 10 + d;
        i = i + 1;
    }
    proof {
        assert(v@.take(v@.len() as int) =~= v@);
    }
    Some(acc)
}

/// First index of `sep` in `s`, or -1.
pub open spec fn find_byte(s: Seq<u8>, sep: u8) -> int
    decreases s.len(),
{
    if s.len() == 0 {
        -1
    } else if s[0] == sep {
        0
    } else {
        let r = find_byte(s.skip(1), sep);
        if r == -1 {
            -1
        } else {
            r + 1
        }
    }
}

pub proof fn lemma_find_byte(s: Seq<u8>, sep: u8)
    ensures
        find_byte(s, sep) == -1 <==> forall|k: int| 0 <= k < s.len() ==> s[k] != sep,
        find_byte(s, sep) != -1 ==> 0 <= find_byte(s, sep) < s.len() && s[find_byte(s, sep)]
            == sep && forall|k: int| 0 <= k < find_byte(s, sep) ==> s[k] != sep,
    decreases s.len(),
{
    if s.len() == 0 {
    } else if s[0] == sep {
    } else {
        lemma_find_byte(s.skip(1), sep);
        assert(forall|k: int| 0 <= k < s.len() - 1 ==> s.skip(1)[k] == s[k + 1]);
        let r = find_byte(s.skip(1), sep);
        if r == -1 {
            assert forall|k: int| 0 <= k < s.len() implies s[k] != sep by {
                if k > 0 {
                    assert(s.skip(1)[k - 1] == s[k]);
                }
            }
        } else {
            assert(s[r + 1] == s.skip(1)[r]);
            assert forall|k: int| 0 <= k < r + 1 implies s[k] != sep by {
                if k > 0 {
                    assert(s.skip(1)[k - 1] == s[k]);
                }
            }
        }
    }
}

/// Split on a separator byte; a trailing separator yields a final empty
/// piece, as with one-character separators generally.
pub open spec fn split_on(s: Seq<u8>, sep: u8) -> Seq<Seq<u8>>
    decreases s.len(),
        when true via split_on_decreases
{
    let i = find_byte(s, sep);
    if i == -1 {
        seq![s]
    } else {
        seq![s.take(i)] + split_on(s.skip(i + 1), sep)
    }
}

#[via_fn]
proof fn split_on_decreases(s: Seq<u8>, sep: u8) {
    lemma_find_byte(s, sep);
}

/// Views of a list of byte vectors.
pub open spec fn vec_views(vs: Seq<Vec<u8>>) -> Seq<Seq<u8>> {
    vs.map_values(|v: Vec<u8>| v@)
}

/// Executable split on a separator byte.
pub fn split_bytes(v: &Vec<u8>, sep: u8) -> (parts: Vec<Vec<u8>>)
    ensures
        vec_views(parts@) == split_on(v@, sep),
{
    let mut done: Vec<Vec<u8>> = Vec::new();
    let mut cur: Vec<u8> = Vec::new();
    let mut j: usize = 0;
    proof {
        assert(cur@ + v@.skip(0) =~= v@);
    }
    while j < v.len()
        invariant
            j <= v@.len(),
            forall|k: int| 0 <= k < cur@.len() ==> cur@[k] != sep,
            split_on(v@, sep) == vec_views(done@) + split_on(cur@ + v@.skip(j as int), sep),
        decreases v@.len() - j,
    {
        let c = v[j];
        let ghost t = cur@ + v@.skip(j as int);
        proof {
            assert(t[cur@.len() as int] == v@[j as int]);
            assert(forall|k: int| 0 <= k < cur@.len() ==> t[k] == cur@[k]);
            lemma_find_byte(t, sep);
        }
        if c == sep {
            proof {
                assert(find_byte(t, sep) == cur@.len() as int) by {
                    let f = find_byte(t, sep);
                    if f == -1 {
                        assert(t[cur@.len() as int] == sep);
                        assert(false);
                    }
                    if f < cur@.len() as int {
                        assert(t[f] == cur@[f]);
                        assert(false);
                    }
                    if f > cur@.len() as int {
                        assert(t[cur@.len() as int] != sep);
                        assert(false);
                    }
                }
                assert(t.take(cur@.len() as int) =~= cur@);
                assert(t.skip(cur@.len() as int + 1) =~= v@.skip(j as int + 1));
                assert(split_on(t, sep) == seq![cur@] + split_on(v@.skip(j as int + 1), sep));
            }
            done.push(cur);
            cur = Vec::new();
            proof {
                assert(vec_views(done@) =~= vec_views(done@.drop_last()) + seq![
                    done@.last()@,
                ]);
                assert(cur@ + v@.skip(j as int + 1) =~= v@.skip(j as int + 1));
                assert(split_on(v@, sep) == vec_views(done@) + split_on(
                    cur@ + v@.skip(j as int + 1),
                    sep,
                ));
            }
        } else {
            cur.push(c);
            proof {
                assert(cur@ + v@.skip(j as int + 1) =~= t);
            }
        }
        j = j + 1;
    }
    proof {
        assert(v@.skip(v@.len() as int) =~= Seq::<u8>::empty());
        assert(cur@ + v@.skip(v@.len() as int) =~= cur@);
        lemma_find_byte(cur@, sep);
        assert(split_on(cur@, sep) == seq![cur@]);
    }
    done.push(cur);
    proof {
        assert(vec_views(done@) =~= vec_views(done@.drop_last()) + seq![done@.last()@]);
        assert(vec_views(done@) =~= split_on(v@, sep));
    }
    done
}

/// Whether `n` occurs as a contiguous run inside `h`.
pub open spec fn contains_seq(h: Seq<u8>, n: Seq<u8>) -> bool {
    exists|i: int|
        0 <= i && i + n.len() <= h.len() && #[trigger] h.subrange(i, i + n.len() as int) =~= n
}

/// Executable substring search.
pub fn find_sub(h: &Vec<u8>, n: &Vec<u8>) -> (r: bool)
    ensures
        r == contains_seq(h@, n@),
{
    if n.len() > h.len() {
        proof {
            assert(!contains_seq(h@, n@));
        }
        return false;
    }
    let mut i: usize = 0;
    while i <= h.len() - n.len()
        invariant
            n@.len() <= h@.len(),
            h@.len() <= usize::MAX,
            i <= h@.len() - n@.len() + 1,
            forall|k: int|
                0 <= k < i ==> !(#[trigger] h@.subrange(k, k + n@.len() as int) =~= n@),
        decreases h@.len() - n@.len() - i + 1,
    {
        let mut k: usize = 0;
        let mut hit = true;
        while k < n.len()
            invariant
                i + n@.len() <= h@.len(),
                h@.len() <= usize::MAX,
                k <= n@.len(),
                hit <==> forall|m: int| 0 <= m < k ==> h@[i + m] == n@[m],
            decreases n@.len() - k,
        {
            if h[i + k] != n[k] {
                hit = false;
                proof {
                    assert(h@[i as int + k as int] != n@[k as int]);
                }
                k = n.len();
            } else {
                proof {
                    assert(h@[i + k as int] == n@[k as int]);
                }
                k = k + 1;
            }
        }
        if hit {
            proof {
                assert(h@.subrange(i as int, i + n@.len() as int) =~= n@);
            }
            return true;
        }
        proof {
            if h@.subrange(i as int, i + n@.len() as int) =~= n@ {
                assert(forall|m: int|
                    0 <= m < n@.len() ==> h@.subrange(i as int, i + n@.len() as int)[m]
                        == n@[m]);
                assert(forall|m: int| 0 <= m < n@.len() ==> h@[i + m] == n@[m]);
                assert(false);
            }
        }
        i = i + 1;
    }
    proof {
        if contains_seq(h@, n@) {
            let w = choose|w: int|
                0 <= w && w + n@.len() <= h@.len() && #[trigger] h@.subrange(
                    w,
                    w + n@.len() as int,
                ) =~= n@;
            assert(false);
        }
    }
    false
}

/// Whether the byte `b` occurs in `s`.
pub open spec fn has_byte(s: Seq<u8>, b: u8) -> bool {
    exists|i: int| 0 <= i < s.len() && s[i] == b
}

/// Executable search for one byte.
pub fn contains_byte(v: &Vec<u8>, b: u8) -> (r: bool)
    ensures
        r == has_byte(v@, b),
{
    let mut i: usize = 0;
    while i < v.len()
        invariant
            i <= v@.len(),
            forall|k: int| 0 <= k < i ==> v@[k] != b,
        decreases v@.len() - i,
    {
        if v[i] == b {
            return true;
        }
        i = i + 1;
    }
    false
}

/// A decimal octet as written in dotted-quad addresses: one to three
/// digits, no leading zero, value at most 255.
pub open spec fn valid_octet_b(p: Seq<u8>) -> bool {
    &&& 1 <= p.len() <= 3
    &&& all_digits_b(p)
    &&& dec_value_b(p) <= 255
    &&& (p.len() > 1 ==> p[0] != 48)
}

/// A dotted-quad IPv4 address: four valid octets separated by dots.
pub open spec fn valid_v4_addr_b(s: Seq<u8>) -> bool {
    let parts = split_on(s, 46);
    parts.len() == 4 && forall|i: int| 0 <= i < 4 ==> valid_octet_b(#[trigger] parts[i])
}

/// The numeric value of a dotted-quad address.
pub open spec fn v4_addr_value_b(s: Seq<u8>) -> int {
    let parts = split_on(s, 46);
    ((dec_value_b(parts[0]) * 256 + dec_value_b(parts[1])) * 256 + dec_value_b(parts[2])) * 256
        + dec_value_b(parts[3])
}

/// Check one octet and return its value.
fn parse_octet(p: &Vec<u8>) -> (r: Option<u8>)
    ensures
        match r {
            Some(n) => valid_octet_b(p@) && n == dec_value_b(p@),
            None => !valid_octet_b(p@),
        },
{
    if p.len() < 1 || p.len() > 3 {
        return None;
    }
    if p.len() > 1 && p[0] == 48 {
        return None;
    }
    match parse_u64_bytes(p) {
        Some(n) => {
            if n <= 255 {
                Some(n as u8)
            } else {
                None
            }
        },
        None => {
            proof {
                if all_digits_b(p@) {
                    // one to three digits are at most 999, so the value fits u64
                    assert(dec_value_b(Seq::<u8>::empty()) == 0);
                    if p@.len() == 1 {
                        assert(p@.drop_last() =~= Seq::<u8>::empty());
                        assert(dec_value_b(p@) == p@[0] - 48);
                        assert(is_digit_b(p@[0]));
                    } else if p@.len() == 2 {
                        let s1 = p@.drop_last();
                        assert(s1.drop_last() =~= Seq::<u8>::empty());
                        assert(s1.last() == p@[0]);
                        assert(dec_value_b(s1) == p@[0] - 48);
                        assert(dec_value_b(p@) == dec_value_b(s1) * 10 + (p@[1] - 48));
                        assert(is_digit_b(p@[0]) && is_digit_b(p@[1]));
                    } else {
                        let s2 = p@.drop_last();
                        let s1 = s2.drop_last();
                        assert(s1.drop_last() =~= Seq::<u8>::empty());
                        assert(s1.last() == p@[0]);
                        assert(s2.last() == p@[1]);
                        assert(dec_value_b(s1) == p@[0] - 48);
                        assert(dec_value_b(s2) == dec_value_b(s1) * 10 + (p@[1] - 48));
                        assert(dec_value_b(p@) == dec_value_b(s2) * 10 + (p@[2] - 48));
                        assert(is_digit_b(p@[0]) && is_digit_b(p@[1]) && is_digit_b(p@[2]));
                    }
                    assert(dec_value_b(p@) <= 999);
                }
            }
            None
        },
    }
}

/// Parse a dotted-quad IPv4 address.
pub fn parse_v4_addr(v: &Vec<u8>) -> (r: Option<u32>)
    ensures
        match r {
            Some(n) => valid_v4_addr_b(v@) && n == v4_addr_value_b(v@),
            None => !valid_v4_addr_b(v@),
        },
{
    let parts = split_bytes(v, 46);
    proof {
        assert(forall|i: int|
            0 <= i < parts@.len() ==> (#[trigger] parts@[i])@ == split_on(v@, 46)[i]);
    }
    if parts.len() != 4 {
        return None;
    }
    let o0 = parse_octet(&parts[0]);
    let o1 = parse_octet(&parts[1]);
    let o2 = parse_octet(&parts[2]);
    let o3 = parse_octet(&parts[3]);
    match (o0, o1, o2, o3) {
        (Some(a), Some(b), Some(c), Some(d)) => {
            proof {
                lemma_dec_value_nonneg(split_on(v@, 46)[0]);
                lemma_dec_value_nonneg(split_on(v@, 46)[1]);
                lemma_dec_value_nonneg(split_on(v@, 46)[2]);
                lemma_dec_value_nonneg(split_on(v@, 46)[3]);
            }
            Some(
                ((a as u32) * 256 + (b as u32)) * 65536 + ((c as u32) * 256 + (d as u32)),
            )
        },
        _ => None,
    }
}

/// Digits are ASCII.
pub proof fn lemma_dec_bytes_ascii(n: int)
    requires
        n >= 0,
    ensures
        forall|i: int| 0 <= i < dec_bytes(n).len() ==> 48 <= #[trigger] dec_bytes(n)[i] <= 57,
    decreases n,
{
    if n > 9 {
        lemma_dec_bytes_ascii(n / 10);
        assert(forall|i: int|
            0 <= i < dec_bytes(n / 10).len() ==> dec_bytes(n)[i] == dec_bytes(n / 10)[i]);
    }
}

/// ASCII lower-casing of one byte.
pub open spec fn lower_b(b: u8) -> u8 {
    if 65 <= b <= 90 {
        (b + 32) as u8
    } else {
        b
    }
}

/// ASCII lower-casing of a byte string.
pub open spec fn lower_bytes(s: Seq<u8>) -> Seq<u8> {
    s.map_values(|b: u8| lower_b(b))
}

/// ASCII upper-casing of one byte.
pub open spec fn upper_b(b: u8) -> u8 {
    if 97 <= b <= 122 {
        (b - 32) as u8
    } else {
        b
    }
}

pub open spec fn upper_bytes(s: Seq<u8>) -> Seq<u8> {
    s.map_values(|b: u8| upper_b(b))
}

/// Executable ASCII upper-casing.
pub fn to_upper_bytes(v: &Vec<u8>) -> (r: Vec<u8>)
    ensures
        r@ == upper_bytes(v@),
{
    let mut out: Vec<u8> = Vec::new();
    let mut i: usize = 0;
    while i < v.len()
        invariant
            i <= v@.len(),
            out@.len() == i,
            forall|k: int| 0 <= k < i ==> out@[k] == upper_b(v@[k]),
        decreases v@.len() - i,
    {
        let b = v[i];
        if 97 <= b && b <= 122 {
            out.push(b - 32);
        } else {
            out.push(b);
        }
        i = i + 1;
    }
    proof {
        assert(out@ =~= upper_bytes(v@));
    }
    out
}

/// Case-insensitive ASCII equality test.
pub fn eq_ignore_ascii(a: &Vec<u8>, b: &Vec<u8>) -> (r: bool)
    ensures
        r == (lower_bytes(a@) == lower_bytes(b@)),
{
    if a.len() != b.len() {
        proof {
            assert(lower_bytes(a@).len() != lower_bytes(b@).len());
        }
        return false;
    }
    let mut i: usize = 0;
    while i < a.len()
        invariant
            a@.len() == b@.len(),
            i <= a@.len(),
            forall|k: int| 0 <= k < i ==> lower_b(a@[k]) == lower_b(b@[k]),
        decreases a@.len() - i,
    {
        let x = a[i];
        let y = b[i];
        let xl = if 65 <= x && x <= 90 {
            x + 32
        } else {
            x
        };
        let yl = if 65 <= y && y <= 90 {
            y + 32
        } else {
            y
        };
        if xl != yl {
            proof {
                assert(lower_bytes(a@)[i as int] != lower_bytes(b@)[i as int]);
            }
            return false;
        }
        i = i + 1;
    }
    proof {
        assert(lower_bytes(a@) =~= lower_bytes(b@));
    }
    true
}

/// Case folding facts: upper-casing is idempotent, folds the same way as
/// lower-casing, and two strings with equal lower forms have equal upper
/// forms.
pub proof fn lemma_case_fold(a: Seq<u8>, b: Seq<u8>)
    ensures
        lower_bytes(upper_bytes(a)) == lower_bytes(a),
        upper_bytes(upper_bytes(a)) == upper_bytes(a),
        lower_bytes(a) == lower_bytes(b) ==> upper_bytes(a) == upper_bytes(b),
{
    assert(lower_bytes(upper_bytes(a)) =~= lower_bytes(a));
    assert(upper_bytes(upper_bytes(a)) =~= upper_bytes(a));
    if lower_bytes(a) == lower_bytes(b) {
        assert forall|i: int| 0 <= i < a.len() implies #[trigger] upper_bytes(a)[i]
            == upper_bytes(b)[i] by {
            assert(lower_bytes(a)[i] == lower_bytes(b)[i]);
            assert(lower_b(a[i]) == lower_b(b[i]));
        }
        assert(a.len() == b.len()) by {
            assert(lower_bytes(a).len() == lower_bytes(b).len());
        }
        assert(upper_bytes(a) =~= upper_bytes(b));
    }
}

/// Exact byte equality.
pub fn bytes_eq(a: &Vec<u8>, b: &Vec<u8>) -> (r: bool)
    ensures
        r == (a@ == b@),
{
    if a.len() != b.len() {
        return false;
    }
    let mut i: usize = 0;
    while i < a.len()
        invariant
            a@.len() == b@.len(),
            i <= a@.len(),
            forall|k: int| 0 <= k < i ==> a@[k] == b@[k],
        decreases a@.len() - i,
    {
        if a[i] != b[i] {
            return false;
        }
        i = i + 1;
    }
    proof {
        assert(a@ =~= b@);
    }
    true
}

/// The decimal digits of `n`, most significant first.
pub open spec fn dec_bytes(n: int) -> Seq<u8>
    decreases n,
{
    if n <= 9 {
        seq![(48 + if n >= 0 {
            n % 10
        } else {
            0
        }) as u8]
    } else {
        dec_bytes(n / 10) + seq![(48 + n % 10) as u8]
    }
}

/// Append the decimal form of `n`.
pub fn push_dec(out: &mut Vec<u8>, n: u64)
    ensures
        final(out)@ == old(out)@ + dec_bytes(n as int),
    decreases n,
{
    if n <= 9 {
        out.push(48 + (n as u8));
        proof {
            assert(final(out)@ =~= old(out)@ + dec_bytes(n as int));
        }
    } else {
        push_dec(out, n / 10);
        out.push(48 + ((n % 10) as u8));
        proof {
            assert(final(out)@ =~= old(out)@ + dec_bytes(n as int));
        }
    }
}

/// The dotted-quad/`len` text of an IPv4 CIDR block.
pub open spec fn v4_cidr_bytes(addr: u32, len: u8) -> Seq<u8> {
    let a = addr as int;
    dec_bytes(a / 0x1000000) + seq![46u8] + dec_bytes(a / 0x10000 % 256) + seq![46u8]
        + dec_bytes(a / 256 % 256) + seq![46u8] + dec_bytes(a % 256) + seq![47u8] + dec_bytes(
        len as int,
    )
}

/// Render an IPv4 CIDR block as bytes.
pub fn format_v4_cidr_bytes(addr: u32, len: u8) -> (r: Vec<u8>)
    ensures
        r@ == v4_cidr_bytes(addr, len),
{
    let mut out: Vec<u8> = Vec::new();
    push_dec(&mut out, (addr >> 24) as u64);
    out.push(46);
    push_dec(&mut out, ((addr >> 16) & 0xFF) as u64);
    out.push(46);
    push_dec(&mut out, ((addr >> 8) & 0xFF) as u64);
    out.push(46);
    push_dec(&mut out, (addr & 0xFF) as u64);
    out.push(47);
    push_dec(&mut out, len as u64);
    proof {
        assert(addr >> 24 == addr / 0x1000000) by (bit_vector);
        assert((addr >> 16) & 0xFF == (addr / 0x10000) % 256) by (bit_vector);
        assert((addr >> 8) & 0xFF == (addr / 256) % 256) by (bit_vector);
        assert(addr & 0xFF == addr % 256) by (bit_vector);
        assert(out@ =~= v4_cidr_bytes(addr, len));
    }
    out
}

} // verus!
