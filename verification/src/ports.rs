//! Port-specification expansion: a comma-separated list of decimal ports
//! and dash-separated inclusive ranges becomes the ascending, duplicate-free
//! list of port numbers it names, or a parse error naming the first
//! offending token.

use vstd::prelude::*;
use vstd::string::{StrSliceExecFns, StringSliceAdditionalSpecFns};

use crate::text::{all_digits, decimal_value, digits_val, split_on, split_vec, trim, trim_vec};

verus! {

/// A malformed port specification; `token` holds the first offending
/// comma-separated token, trimmed, as bytes of the input.
#[derive(Debug, PartialEq, Eq)]
pub struct ParseError {
    pub token: Vec<u8>,
}

/// A non-empty all-digit string naming a port, 1 through 65535; leading
/// zeros are allowed.
pub open spec fn is_port_text(s: Seq<u8>) -> bool {
    s.len() > 0 && all_digits(s) && 1 <= digits_val(s) && digits_val(s) <= 0xffff
}

pub open spec fn port_val(s: Seq<u8>) -> u16 {
    digits_val(s) as u16
}

/// The inclusive range a single token names: one port, or two
/// dash-separated ports in either order (normalized so low comes first).
/// Whitespace around the token and around the dash is ignored.
pub open spec fn token_range(tok: Seq<u8>) -> Option<(u16, u16)> {
    let t = trim(tok);
    let parts = split_on(t, 0x2d);
    if parts.len() == 1 {
        if is_port_text(t) {
            Some((port_val(t), port_val(t)))
        } else {
            None
        }
    } else if parts.len() == 2 {
        let a = trim(parts[0]);
        let b = trim(parts[1]);
        if is_port_text(a) && is_port_text(b) {
            if port_val(a) <= port_val(b) {
                Some((port_val(a), port_val(b)))
            } else {
                Some((port_val(b), port_val(a)))
            }
        } else {
            None
        }
    } else {
        None
    }
}

/// The comma-separated tokens of a specification.
pub open spec fn spec_tokens(s: Seq<u8>) -> Seq<Seq<u8>> {
    split_on(s, 0x2c)
}

/// A specification is valid when every token names a range. The empty
/// specification is invalid: its one token is empty.
pub open spec fn spec_valid(s: Seq<u8>) -> bool {
    forall|i: int|
        0 <= i < spec_tokens(s).len() ==> token_range(#[trigger] spec_tokens(s)[i]) is Some
}

pub open spec fn range_covers(r: Option<(u16, u16)>, p: u16) -> bool {
    r is Some && r.unwrap().0 <= p && p <= r.unwrap().1
}

/// Whether some token of the specification names port `p`.
pub open spec fn port_selected(s: Seq<u8>, p: u16) -> bool {
    exists|i: int|
        0 <= i < spec_tokens(s).len() && range_covers(
            token_range(#[trigger] spec_tokens(s)[i]),
            p,
        )
}

/// The first token that names no range, trimmed.
pub open spec fn first_bad_token(toks: Seq<Seq<u8>>) -> Seq<u8>
    decreases toks.len(),
{
    if toks.len() == 0 {
        Seq::empty()
    } else if token_range(toks[0]) is None {
        trim(toks[0])
    } else {
        first_bad_token(toks.skip(1))
    }
}

proof fn lemma_first_bad(toks: Seq<Seq<u8>>, k: int)
    requires
        0 <= k < toks.len(),
        forall|j: int| 0 <= j < k ==> token_range(#[trigger] toks[j]) is Some,
        token_range(toks[k]) is None,
    ensures
        first_bad_token(toks) == trim(toks[k]),
    decreases k,
{
    if k > 0 {
        assert(token_range(toks[0]) is Some);
        assert(forall|j: int| 0 <= j < k - 1 ==> toks.skip(1)[j] == toks[j + 1]);
        assert(toks.skip(1)[k - 1] == toks[k]);
        lemma_first_bad(toks.skip(1), k - 1);
    }
}

/// The port, 1 through 65535, that an all-digit string names.
fn parse_port_text(t: &Vec<u8>) -> (r: Option<u16>)
    ensures
        r is Some <==> is_port_text(t@),
        r matches Some(p) ==> p == port_val(t@),
{
    match decimal_value(t, 0xffff) {
        Some(v) => if v >= 1 {
            Some(v as u16)
        } else {
            None
        },
        None => None,
    }
}

/// The range one token names, exactly as `token_range` describes it.
fn token_range_exec(tok: &Vec<u8>) -> (r: Option<(u16, u16)>)
    ensures
        r == token_range(tok@),
{
    let t = trim_vec(tok);
    let parts = split_vec(&t, 0x2d);
    if parts.len() == 1 {
        match parse_port_text(&t) {
            Some(p) => Some((p, p)),
            None => None,
        }
    } else if parts.len() == 2 {
        let a = trim_vec(&parts[0]);
        let b = trim_vec(&parts[1]);
        match (parse_port_text(&a), parse_port_text(&b)) {
            (Some(x), Some(y)) => if x <= y {
                Some((x, y))
            } else {
                Some((y, x))
            },
            _ => None,
        }
    } else {
        None
    }
}

/// Whether any of the ranges covers `p`.
fn ranges_contain(ranges: &Vec<(u16, u16)>, p: u16) -> (r: bool)
    ensures
        r <==> exists|i: int|
            0 <= i < ranges@.len() && (#[trigger] ranges@[i]).0 <= p && p <= ranges@[i].1,
{
    let n = ranges.len();
    let mut k: usize = 0;
    while k < n
        invariant
            k <= n,
            n == ranges@.len(),
            forall|i: int| 0 <= i < k ==> !((#[trigger] ranges@[i]).0 <= p && p <= ranges@[i].1),
        decreases n - k,
    {
        let (lo, hi) = ranges[k];
        if lo <= p && p <= hi {
            return true;
        }
        k += 1;
    }
    false
}

/// Expands a port specification into the ascending, duplicate-free list of
/// ports it names. Tokens are comma-separated; each is a decimal port or a
/// dash-separated pair taken as an inclusive range in either order;
/// whitespace around tokens and dashes is ignored. Any other token — the
/// empty specification included — is refused, atomically, with the first
/// offending token.
pub fn parse_ports(spec: &str) -> (r: Result<Vec<u16>, ParseError>)
    ensures
        r is Ok <==> spec_valid(spec.spec_bytes()),
        r matches Ok(v) ==> {
            &&& forall|i: int, j: int| 0 <= i < j < v@.len() ==> v@[i] < v@[j]
            &&& forall|p: u16| #[trigger] v@.contains(p) <==> port_selected(spec.spec_bytes(), p)
            &&& v@.len() >= 1
        },
        r matches Err(e) ==> e.token@ == first_bad_token(spec_tokens(spec.spec_bytes())),
{
    let bytes = spec.as_bytes_vec();
    let toks = split_vec(&bytes, 0x2c);
    let ghost stoks = spec_tokens(bytes@);
    let n = toks.len();
    let mut ranges: Vec<(u16, u16)> = Vec::new();
    let mut k: usize = 0;
    while k < n
        invariant
            k <= n,
            n == toks@.len(),
            n == stoks.len(),
            bytes@ == spec.spec_bytes(),
            stoks == spec_tokens(bytes@),
            forall|j: int| 0 <= j < n ==> toks@[j]@ == stoks[j],
            ranges@.len() == k,
            forall|j: int|
                0 <= j < k ==> token_range(#[trigger] stoks[j]) is Some && ranges@[j]
                    == token_range(stoks[j]).unwrap(),
        decreases n - k,
    {
        match token_range_exec(&toks[k]) {
            Some(rg) => {
                ranges.push(rg);
            },
            None => {
                proof {
                    lemma_first_bad(stoks, k as int);
                }
                return Err(ParseError { token: trim_vec(&toks[k]) });
            },
        }
        k += 1;
    }
    let ghost sbytes = spec.spec_bytes();
    assert(spec_valid(sbytes));
    let mut out: Vec<u16> = Vec::new();
    let mut p: u32 = 1;
    while p <= 0xffff
        invariant
            1 <= p <= 0x10000,
            sbytes == spec.spec_bytes(),
            spec_valid(sbytes),
            n == stoks.len(),
            stoks == spec_tokens(sbytes),
            ranges@.len() == n,
            forall|j: int|
                0 <= j < n ==> token_range(#[trigger] stoks[j]) is Some && ranges@[j]
                    == token_range(stoks[j]).unwrap(),
            forall|i: int, j: int| 0 <= i < j < out@.len() ==> out@[i] < out@[j],
            forall|q: u16| #[trigger] out@.contains(q) <==> (q < p && port_selected(sbytes, q)),
        decreases 0x10000 - p,
    {
        let pu: u16 = p as u16;
        proof {
            assert(p <= 0xffff ==> (p as u16) as u32 == p) by (bit_vector);
            assert(pu == p);
        }
        let hit = ranges_contain(&ranges, pu);
        proof {
            if hit {
                let i = choose|i: int|
                    0 <= i < ranges@.len() && (#[trigger] ranges@[i]).0 <= pu && pu
                        <= ranges@[i].1;
                assert(range_covers(token_range(stoks[i]), pu));
                assert(port_selected(sbytes, pu));
            } else if port_selected(sbytes, pu) {
                let i = choose|i: int|
                    0 <= i < stoks.len() && range_covers(
                        token_range(#[trigger] stoks[i]),
                        pu,
                    );
                assert((ranges@[i]).0 <= pu && pu <= ranges@[i].1);
                assert(false);
            }
        }
        let ghost prev = out@;
        if hit {
            out.push(pu);
            proof {
                assert(out@[prev.len() as int] == pu);
                assert(out@.contains(pu));
                assert forall|i: int| 0 <= i < prev.len() implies prev[i] < pu by {
                    assert(prev.contains(prev[i]));
                }
            }
        }
        proof {
            assert forall|q: u16| out@.contains(q) implies (q < p + 1 && port_selected(
                sbytes,
                q,
            )) by {
                let i = choose|i: int| 0 <= i < out@.len() && out@[i] == q;
                if i < prev.len() {
                    assert(prev[i] == q);
                    assert(prev.contains(q));
                } else {
                    assert(q == pu);
                }
            }
            assert forall|q: u16| q < p + 1 && port_selected(sbytes, q) implies out@.contains(
                q,
            ) by {
                if q < p {
                    assert(prev.contains(q));
                    let i = choose|i: int| 0 <= i < prev.len() && prev[i] == q;
                    assert(out@[i] == q);
                } else {
                    assert(q == pu);
                    assert(out@.contains(pu));
                }
            }
        }
        p += 1;
    }
    proof {
        assert(n >= 1);
        assert(token_range(stoks[0]) is Some);
        let rg0 = token_range(stoks[0]).unwrap();
        assert(range_covers(token_range(stoks[0]), rg0.0));
        assert(port_selected(sbytes, rg0.0));
        assert(out@.contains(rg0.0));
    }
    Ok(out)
}

/// Whether the ports are strictly ascending (so in particular distinct), as
/// `parse_ports` guarantees of its result.
pub fn is_strictly_ascending(v: &Vec<u16>) -> (r: bool)
    ensures
        r <==> forall|i: int, j: int| 0 <= i < j < v@.len() ==> v@[i] < v@[j],
{
    let n = v.len();
    if n == 0 {
        return true;
    }
    let mut k: usize = 0;
    while k < n - 1
        invariant
            k <= n - 1,
            n == v@.len(),
            n >= 1,
            forall|i: int| 0 <= i < k ==> #[trigger] v@[i] < v@[i + 1],
        decreases n - k,
    {
        if v[k] >= v[k + 1] {
            return false;
        }
        k += 1;
    }
    proof {
        assert forall|i: int, j: int| 0 <= i < j < v@.len() implies v@[i] < v@[j] by {
            lemma_adjacent_ascending(v@, i, j);
        }
    }
    true
}

proof fn lemma_adjacent_ascending(v: Seq<u16>, i: int, j: int)
    requires
        forall|k: int| 0 <= k < v.len() - 1 ==> #[trigger] v[k] < v[k + 1],
        0 <= i < j < v.len(),
    ensures
        v[i] < v[j],
    decreases j - i,
{
    if j > i + 1 {
        lemma_adjacent_ascending(v, i, j - 1);
    }
}

} // verus!
