//! Concrete network addresses and the resolver's decisions: a target that is
//! a literal address is used as it stands, with no lookup; otherwise the
//! first address a lookup returned is selected, and an empty lookup is a
//! resolution error.

use vstd::prelude::*;
use vstd::string::{StrSliceExecFns, StringExecFns, StringSliceAdditionalSpecFns};

use crate::text::{all_digits, decimal_value, digits_val, is_digit, split_on, split_vec};

verus! {

/// A concrete network address: four IPv4 octets, or eight IPv6 groups in
/// order from most significant.
#[derive(Clone, Copy, Debug, PartialEq, Eq, Structural)]
pub enum IpAddress {
    V4(u8, u8, u8, u8),
    V6(u16, u16, u16, u16, u16, u16, u16, u16),
}

/// The target could not be resolved to any address.
#[derive(Debug)]
pub struct ResolveError {
    pub host: String,
}

/// A decimal IPv4 octet: one to three digits, no leading zero, value at
/// most 255.
pub open spec fn is_octet_text(s: Seq<u8>) -> bool {
    &&& 1 <= s.len() <= 3
    &&& all_digits(s)
    &&& (s[0] != 0x30 || s.len() == 1)
    &&& digits_val(s) <= 255
}

pub open spec fn octet_val(s: Seq<u8>) -> u8 {
    digits_val(s) as u8
}

/// A literal IPv4 address: exactly four dot-separated decimal octets.
pub open spec fn spec_ipv4(s: Seq<u8>) -> Option<IpAddress> {
    let parts = split_on(s, 0x2e);
    if parts.len() == 4 && is_octet_text(parts[0]) && is_octet_text(parts[1]) && is_octet_text(
        parts[2],
    ) && is_octet_text(parts[3]) {
        Some(
            IpAddress::V4(
                octet_val(parts[0]),
                octet_val(parts[1]),
                octet_val(parts[2]),
                octet_val(parts[3]),
            ),
        )
    } else {
        None
    }
}

/// An ASCII hexadecimal digit, either case.
pub open spec fn is_hex_digit(b: u8) -> bool {
    is_digit(b) || (0x41 <= b && b <= 0x46) || (0x61 <= b && b <= 0x66)
}

pub open spec fn hex_digit_val(b: u8) -> nat {
    if is_digit(b) {
        (b - 0x30) as nat
    } else if 0x41 <= b && b <= 0x46 {
        (b - 0x41 + 10) as nat
    } else if 0x61 <= b && b <= 0x66 {
        (b - 0x61 + 10) as nat
    } else {
        0
    }
}

pub open spec fn all_hex(s: Seq<u8>) -> bool {
    forall|i: int| 0 <= i < s.len() ==> is_hex_digit(#[trigger] s[i])
}

/// Value of a sequence of hexadecimal digit bytes.
pub open spec fn hex_val(s: Seq<u8>) -> nat
    decreases s.len(),
{
    if s.len() == 0 {
        0
    } else {
        hex_val(s.drop_last()) * 16 + hex_digit_val(s.last())
    }
}

/// An IPv6 group: one to four hexadecimal digits.
pub open spec fn is_group_text(s: Seq<u8>) -> bool {
    1 <= s.len() <= 4 && all_hex(s)
}

pub open spec fn group_val(s: Seq<u8>) -> u16 {
    hex_val(s) as u16
}

pub open spec fn groups_valid(parts: Seq<Seq<u8>>) -> bool {
    forall|i: int| 0 <= i < parts.len() ==> is_group_text(#[trigger] parts[i])
}

pub open spec fn group_vals(parts: Seq<Seq<u8>>) -> Seq<u16> {
    parts.map_values(|g: Seq<u8>| group_val(g))
}

/// The groups on one side of a `::`: none at all for the empty side, else
/// the colon-separated groups, every one well formed.
pub open spec fn side_groups(t: Seq<u8>) -> Option<Seq<u16>> {
    if t.len() == 0 {
        Some(Seq::empty())
    } else {
        let parts = split_on(t, 0x3a);
        if groups_valid(parts) {
            Some(group_vals(parts))
        } else {
            None
        }
    }
}

/// The two groups an IPv4 address embedded at the tail of an IPv6 literal
/// stands for.
pub open spec fn v4_groups(s: Seq<u8>) -> Option<(u16, u16)> {
    match spec_ipv4(s) {
        Some(a) => match a {
            IpAddress::V4(o0, o1, o2, o3) => Some(
                ((o0 * 256 + o1) as u16, (o2 * 256 + o3) as u16),
            ),
            IpAddress::V6(_, _, _, _, _, _, _, _) => None,
        },
        None => None,
    }
}

/// The groups of the tail of an IPv6 literal: colon-separated groups, where
/// the last part may instead be an embedded IPv4 address standing for two
/// groups. The empty tail has no groups.
pub open spec fn tail_groups(t: Seq<u8>) -> Option<Seq<u16>> {
    if t.len() == 0 {
        Some(Seq::empty())
    } else {
        let parts = split_on(t, 0x3a);
        let head = parts.take(parts.len() - 1);
        let last = parts.last();
        if groups_valid(head) {
            if is_group_text(last) {
                Some(group_vals(head).push(group_val(last)))
            } else {
                match v4_groups(last) {
                    Some(hl) => Some(group_vals(head).push(hl.0).push(hl.1)),
                    None => None,
                }
            }
        } else {
            None
        }
    }
}

/// Two colons standing together at position `i`.
pub open spec fn dc_at(s: Seq<u8>, i: int) -> bool {
    s[i] == 0x3a && s[i + 1] == 0x3a
}

/// The first position where two colons stand together, or a negative
/// number if none do.
pub open spec fn find_double_colon(s: Seq<u8>) -> int
    decreases s.len(),
{
    if s.len() < 2 {
        -1
    } else if s[0] == 0x3a && s[1] == 0x3a {
        0
    } else {
        let r = find_double_colon(s.skip(1));
        if r < 0 {
            -1
        } else {
            r + 1
        }
    }
}

pub open spec fn v6_from_groups(g: Seq<u16>) -> IpAddress {
    IpAddress::V6(g[0], g[1], g[2], g[3], g[4], g[5], g[6], g[7])
}

/// A literal IPv6 address: eight groups' worth of colon-separated parts, or
/// a single `::` standing for the missing all-zero groups with at most
/// seven groups written out; the last part may be an embedded IPv4 address
/// standing for two groups.
pub open spec fn spec_ipv6(s: Seq<u8>) -> Option<IpAddress> {
    let d = find_double_colon(s);
    if d >= 0 {
        let left = side_groups(s.take(d));
        let right = tail_groups(s.skip(d + 2));
        if left is Some && right is Some && left.unwrap().len() + right.unwrap().len() <= 7 {
            Some(
                v6_from_groups(
                    left.unwrap() + Seq::new(
                        (8 - left.unwrap().len() - right.unwrap().len()) as nat,
                        |i: int| 0u16,
                    ) + right.unwrap(),
                ),
            )
        } else {
            None
        }
    } else {
        match tail_groups(s) {
            Some(g) => if g.len() == 8 {
                Some(v6_from_groups(g))
            } else {
                None
            },
            None => None,
        }
    }
}

/// A literal address of either family; a string that is neither is no
/// literal and calls for a name lookup.
pub open spec fn spec_parse_ip(s: Seq<u8>) -> Option<IpAddress> {
    if spec_ipv4(s) is Some {
        spec_ipv4(s)
    } else {
        spec_ipv6(s)
    }
}

proof fn lemma_hex_bound(s: Seq<u8>)
    ensures
        s.len() <= 1 ==> hex_val(s) <= 0xf,
        s.len() <= 2 ==> hex_val(s) <= 0xff,
        s.len() <= 3 ==> hex_val(s) <= 0xfff,
        s.len() <= 4 ==> hex_val(s) <= 0xffff,
    decreases s.len(),
{
    if s.len() > 0 {
        lemma_hex_bound(s.drop_last());
    }
}

proof fn lemma_hex_val_step(s: Seq<u8>, k: int)
    requires
        0 <= k < s.len(),
    ensures
        hex_val(s.take(k + 1)) == hex_val(s.take(k)) * 16 + hex_digit_val(s[k]),
{
    assert(s.take(k + 1).drop_last() =~= s.take(k));
    assert(s.take(k + 1).last() == s[k]);
}

/// The value of one hexadecimal digit byte.
fn hex_digit_exec(b: u8) -> (r: Option<u8>)
    ensures
        r is Some <==> is_hex_digit(b),
        r matches Some(v) ==> v == hex_digit_val(b),
{
    if 0x30 <= b && b <= 0x39 {
        Some(b - 0x30)
    } else if 0x41 <= b && b <= 0x46 {
        Some(b - 0x41 + 10)
    } else if 0x61 <= b && b <= 0x66 {
        Some(b - 0x61 + 10)
    } else {
        None
    }
}

/// The value of one IPv6 group.
fn group_exec(t: &Vec<u8>) -> (r: Option<u16>)
    ensures
        r is Some <==> is_group_text(t@),
        r matches Some(v) ==> v == group_val(t@),
{
    let n = t.len();
    if n == 0 || n > 4 {
        return None;
    }
    let mut acc: u32 = 0;
    let mut i: usize = 0;
    proof {
        assert(t@.take(0) =~= Seq::<u8>::empty());
    }
    while i < n
        invariant
            i <= n,
            n == t@.len(),
            1 <= n <= 4,
            all_hex(t@.take(i as int)),
            acc == hex_val(t@.take(i as int)),
            acc <= 0xffff,
        decreases n - i,
    {
        match hex_digit_exec(t[i]) {
            Some(d) => {
                proof {
                    lemma_hex_val_step(t@, i as int);
                    lemma_hex_bound(t@.take(i as int));
                    assert(t@.take(i as int).len() == i <= 3);
                }
                acc = acc * 16 + d as u32;
                i += 1;
            },
            None => {
                assert(!is_hex_digit(t@[i as int]));
                return None;
            },
        }
    }
    proof {
        assert(t@.take(n as int) =~= t@);
        lemma_hex_bound(t@);
    }
    Some(acc as u16)
}

/// The value of one IPv4 octet.
fn octet_exec(t: &Vec<u8>) -> (r: Option<u8>)
    ensures
        r is Some <==> is_octet_text(t@),
        r matches Some(v) ==> v == octet_val(t@),
{
    let n = t.len();
    if n == 0 || n > 3 {
        return None;
    }
    if n > 1 && t[0] == 0x30 {
        return None;
    }
    match decimal_value(t, 255) {
        Some(v) => Some(v as u8),
        None => None,
    }
}

/// The bytes of `t` from `from` up to `to`.
fn subrange_vec(t: &Vec<u8>, from: usize, to: usize) -> (r: Vec<u8>)
    requires
        from <= to <= t@.len(),
    ensures
        r@ == t@.subrange(from as int, to as int),
{
    let mut out: Vec<u8> = Vec::new();
    let mut i: usize = from;
    while i < to
        invariant
            from <= i <= to <= t@.len(),
            out@ =~= t@.subrange(from as int, i as int),
        decreases to - i,
    {
        out.push(t[i]);
        i += 1;
        proof {
            assert(out@ =~= t@.subrange(from as int, i as int));
        }
    }
    out
}

proof fn lemma_fdc_char(s: Seq<u8>)
    ensures
        find_double_colon(s) < 0 ==> forall|i: int| 0 <= i < s.len() - 1 ==> !dc_at(s, i),
        find_double_colon(s) >= 0 ==> {
            let d = find_double_colon(s);
            &&& d < s.len() - 1
            &&& dc_at(s, d)
            &&& forall|i: int| 0 <= i < d ==> !dc_at(s, i)
        },
    decreases s.len(),
{
    if s.len() >= 2 && !(s[0] == 0x3a && s[1] == 0x3a) {
        lemma_fdc_char(s.skip(1));
        assert forall|i: int| 1 <= i < s.len() - 1 implies #[trigger] dc_at(s, i) == dc_at(
            s.skip(1),
            i - 1,
        ) by {
            assert(s.skip(1)[i - 1] == s[i]);
            assert(s.skip(1)[i] == s[i + 1]);
        }
        assert(!dc_at(s, 0));
    }
}

proof fn lemma_fdc_first(s: Seq<u8>, d: int)
    requires
        0 <= d < s.len() - 1,
        dc_at(s, d),
        forall|i: int| 0 <= i < d ==> !dc_at(s, i),
    ensures
        find_double_colon(s) == d,
    decreases d,
{
    if d > 0 {
        assert forall|i: int| 0 <= i < s.len() - 2 implies #[trigger] dc_at(s.skip(1), i)
            == dc_at(s, i + 1) by {
            assert(s.skip(1)[i] == s[i + 1]);
            assert(s.skip(1)[i + 1] == s[i + 2]);
        }
        assert(dc_at(s.skip(1), d - 1));
        lemma_fdc_first(s.skip(1), d - 1);
        assert(!dc_at(s, 0));
    }
}

/// The position of the first `::`, if there is one.
fn find_dc(t: &Vec<u8>) -> (r: Option<usize>)
    ensures
        r matches Some(d) ==> find_double_colon(t@) == d,
        r is None ==> find_double_colon(t@) < 0,
{
    let n = t.len();
    if n < 2 {
        return None;
    }
    let mut i: usize = 0;
    while i < n - 1
        invariant
            i <= n - 1,
            n == t@.len(),
            n >= 2,
            forall|j: int| 0 <= j < i ==> !(#[trigger] dc_at(t@, j)),
        decreases n - i,
    {
        if t[i] == 0x3a && t[i + 1] == 0x3a {
            proof {
                assert(dc_at(t@, i as int));
                lemma_fdc_first(t@, i as int);
            }
            return Some(i);
        }
        proof {
            assert(!dc_at(t@, i as int));
        }
        i += 1;
    }
    proof {
        lemma_fdc_char(t@);
        if find_double_colon(t@) >= 0 {
            let d = find_double_colon(t@);
            assert(!dc_at(t@, d));
            assert(false);
        }
    }
    None
}

/// The group values of one side of a `::`.
#[verifier::loop_isolation(false)]
fn side_groups_exec(t: &Vec<u8>) -> (r: Option<Vec<u16>>)
    ensures
        r is Some <==> side_groups(t@) is Some,
        r matches Some(v) ==> v@ == side_groups(t@).unwrap(),
{
    if t.len() == 0 {
        proof {
            assert(side_groups(t@).unwrap() =~= Seq::<u16>::empty());
        }
        return Some(Vec::new());
    }
    let parts = split_vec(t, 0x3a);
    let ghost sparts = split_on(t@, 0x3a);
    let n = parts.len();
    let mut vals: Vec<u16> = Vec::new();
    let mut k: usize = 0;
    while k < n
        invariant
            k <= n,
            n == parts@.len(),
            n == sparts.len(),
            forall|j: int| 0 <= j < n ==> parts@[j]@ == sparts[j],
            vals@.len() == k,
            forall|j: int|
                0 <= j < k ==> is_group_text(#[trigger] sparts[j]) && vals@[j] == group_val(
                    sparts[j],
                ),
        decreases n - k,
    {
        match group_exec(&parts[k]) {
            Some(v) => {
                vals.push(v);
            },
            None => {
                proof {
                    assert(!is_group_text(sparts[k as int]));
                    assert(!groups_valid(sparts));
                }
                return None;
            },
        }
        k += 1;
    }
    proof {
        assert(vals@ =~= group_vals(sparts));
    }
    Some(vals)
}

/// A literal IPv4 address, exactly as `spec_ipv4` describes it.
fn parse_ipv4(t: &Vec<u8>) -> (r: Option<IpAddress>)
    ensures
        r == spec_ipv4(t@),
{
    let parts = split_vec(t, 0x2e);
    if parts.len() != 4 {
        return None;
    }
    let a = octet_exec(&parts[0]);
    let b = octet_exec(&parts[1]);
    let c = octet_exec(&parts[2]);
    let d = octet_exec(&parts[3]);
    match (a, b, c, d) {
        (Some(a), Some(b), Some(c), Some(d)) => Some(IpAddress::V4(a, b, c, d)),
        _ => None,
    }
}


/// The tail's group values, exactly as `tail_groups` gives them.
#[verifier::loop_isolation(false)]
fn tail_groups_exec(t: &Vec<u8>) -> (r: Option<Vec<u16>>)
    ensures
        r is Some <==> tail_groups(t@) is Some,
        r matches Some(v) ==> v@ == tail_groups(t@).unwrap(),
{
    if t.len() == 0 {
        proof {
            assert(tail_groups(t@).unwrap() =~= Seq::<u16>::empty());
        }
        return Some(Vec::new());
    }
    let parts = split_vec(t, 0x3a);
    let ghost sparts = split_on(t@, 0x3a);
    let ghost head = sparts.take(sparts.len() - 1);
    let n = parts.len();
    let mut vals: Vec<u16> = Vec::new();
    let mut k: usize = 0;
    while k < n - 1
        invariant
            k <= n - 1,
            vals@.len() == k,
            forall|j: int|
                0 <= j < k ==> is_group_text(#[trigger] sparts[j]) && vals@[j] == group_val(
                    sparts[j],
                ),
        decreases n - 1 - k,
    {
        match group_exec(&parts[k]) {
            Some(v) => {
                vals.push(v);
            },
            None => {
                proof {
                    assert(head[k as int] == sparts[k as int]);
                    assert(!groups_valid(head));
                }
                return None;
            },
        }
        k += 1;
    }
    proof {
        assert forall|j: int| 0 <= j < head.len() implies is_group_text(#[trigger] head[j]) by {
            assert(head[j] == sparts[j]);
        }
        assert(groups_valid(head));
        assert(vals@ =~= group_vals(head));
    }
    match group_exec(&parts[n - 1]) {
        Some(v) => {
            vals.push(v);
            proof {
                assert(vals@ =~= group_vals(head).push(group_val(sparts.last())));
            }
            Some(vals)
        },
        None => {
            proof {
                assert(!is_group_text(sparts.last()));
            }
            match parse_ipv4(&parts[n - 1]) {
                Some(IpAddress::V4(o0, o1, o2, o3)) => {
                    let hi: u16 = (o0 as u16) * 256 + (o1 as u16);
                    let lo: u16 = (o2 as u16) * 256 + (o3 as u16);
                    vals.push(hi);
                    vals.push(lo);
                    proof {
                        assert(vals@ =~= group_vals(head).push(hi).push(lo));
                    }
                    Some(vals)
                },
                Some(IpAddress::V6(_, _, _, _, _, _, _, _)) => {
                    proof {
                        assert(false);
                    }
                    None
                },
                None => None,
            }
        },
    }
}

/// A literal IPv6 address, exactly as `spec_ipv6` describes it.
#[verifier::loop_isolation(false)]
fn parse_ipv6(t: &Vec<u8>) -> (r: Option<IpAddress>)
    ensures
        r == spec_ipv6(t@),
{
    let n = t.len();
    match find_dc(t) {
        Some(d) => {
            proof {
                lemma_fdc_char(t@);
            }
            let left = subrange_vec(t, 0, d);
            let right = subrange_vec(t, d + 2, n);
            proof {
                assert(left@ =~= t@.take(d as int));
                assert(right@ =~= t@.skip(d as int + 2));
            }
            let lv = side_groups_exec(&left);
            let rv = tail_groups_exec(&right);
            match (lv, rv) {
                (Some(lv), Some(rv)) => {
                    if lv.len() > 7 || rv.len() > 7 || lv.len() + rv.len() > 7 {
                        return None;
                    }
                    let zeros = 8 - lv.len() - rv.len();
                    let mut g: Vec<u16> = lv;
                    let mut z: usize = 0;
                    while z < zeros
                        invariant
                            z <= zeros,
                            g@.len() == side_groups(t@.take(d as int)).unwrap().len() + z,
                            g@ =~= side_groups(t@.take(d as int)).unwrap() + Seq::new(
                                z as nat,
                                |i: int| 0u16,
                            ),
                        decreases zeros - z,
                    {
                        g.push(0);
                        z += 1;
                        proof {
                            assert(g@ =~= side_groups(t@.take(d as int)).unwrap() + Seq::new(
                                z as nat,
                                |i: int| 0u16,
                            ));
                        }
                    }
                    let m = rv.len();
                    let mut w: usize = 0;
                    let ghost gmid = g@;
                    while w < m
                        invariant
                            w <= m,
                            m == rv@.len(),
                            g@ =~= gmid + rv@.take(w as int),
                        decreases m - w,
                    {
                        g.push(rv[w]);
                        w += 1;
                        proof {
                            assert(g@ =~= gmid + rv@.take(w as int));
                        }
                    }
                    proof {
                        assert(rv@.take(m as int) =~= rv@);
                        assert(g@ =~= side_groups(t@.take(d as int)).unwrap() + Seq::new(
                            (8 - side_groups(t@.take(d as int)).unwrap().len() - tail_groups(
                                t@.skip(d as int + 2),
                            ).unwrap().len()) as nat,
                            |i: int| 0u16,
                        ) + tail_groups(t@.skip(d as int + 2)).unwrap());
                        assert(g@.len() == 8);
                    }
                    Some(IpAddress::V6(g[0], g[1], g[2], g[3], g[4], g[5], g[6], g[7]))
                },
                _ => None,
            }
        },
        None => {
            match tail_groups_exec(t) {
                Some(vals) => {
                    if vals.len() == 8 {
                        Some(
                            IpAddress::V6(
                                vals[0],
                                vals[1],
                                vals[2],
                                vals[3],
                                vals[4],
                                vals[5],
                                vals[6],
                                vals[7],
                            ),
                        )
                    } else {
                        None
                    }
                },
                None => None,
            }
        },
    }
}

/// Parses the target as a literal IPv4 or IPv6 address. A literal resolves
/// here, with no name lookup and nothing that could block; any other string
/// yields `None` and calls for a lookup.
pub fn parse_ip_literal(s: &str) -> (r: Option<IpAddress>)
    ensures
        r == spec_parse_ip(s.spec_bytes()),
{
    let bytes = s.as_bytes_vec();
    match parse_ipv4(&bytes) {
        Some(a) => Some(a),
        None => parse_ipv6(&bytes),
    }
}

/// Selects the address a scan will use out of a name lookup's results: the
/// first one, deterministically; none at all is a resolution error naming
/// the host.
pub fn select_address(host: &str, addrs: &Vec<IpAddress>) -> (r: Result<IpAddress, ResolveError>)
    ensures
        addrs@.len() > 0 ==> (r matches Ok(a) && a == addrs@[0]),
        addrs@.len() == 0 ==> (r matches Err(e) && e.host@ == host@),
{
    if addrs.len() > 0 {
        Ok(addrs[0])
    } else {
        Err(ResolveError { host: String::from_str(host) })
    }
}

} // verus!
