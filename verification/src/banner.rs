//! Banner sanitization: raw bytes read from a freshly connected service
//! become displayable text. A read in which not a single byte is printable
//! ASCII is no banner at all. Otherwise every control or non-ASCII byte is
//! replaced by a placeholder dot, surrounding whitespace is dropped, and a
//! banner with nothing left is absent rather than empty.

use vstd::prelude::*;

use crate::text::{printable, sanitized, trim, trim_vec};

verus! {

/// The text of a byte sequence whose bytes are all ASCII.
pub open spec fn ascii_text(bs: Seq<u8>) -> Seq<char> {
    bs.map_values(|b: u8| b as char)
}

/// Not one byte is printable ASCII; such a read carries no banner. The
/// empty read is covered too.
pub open spec fn all_unprintable(bs: Seq<u8>) -> bool {
    forall|i: int| 0 <= i < bs.len() ==> !printable(#[trigger] bs[i])
}

/// The banner a byte sequence yields: absent when no byte is printable;
/// else each byte sanitized, the result trimmed, and an empty result
/// standing for no banner at all.
pub open spec fn spec_banner(bs: Seq<u8>) -> Option<Seq<char>> {
    if all_unprintable(bs) {
        None
    } else {
        let t = trim(sanitized(bs));
        if t.len() == 0 {
            None
        } else {
            Some(ascii_text(t))
        }
    }
}

/// Relies on String::push: appends exactly the one character.
#[verifier::external_body]
fn push_char(s: &mut String, c: char)
    ensures
        final(s)@ == old(s)@.push(c),
{
    s.push(c);
}

/// Turns bytes read from a service into a displayable banner. A read with
/// no printable ASCII byte at all is no banner; otherwise printable ASCII
/// is kept, every other byte becomes `'.'`, leading and trailing whitespace
/// goes, and an empty or all-whitespace result is no banner.
pub fn sanitize_banner(bytes: &Vec<u8>) -> (r: Option<String>)
    ensures
        r.deep_view() == spec_banner(bytes@),
        r is Some <==> (!all_unprintable(bytes@) && trim(sanitized(bytes@)).len() > 0),
{
    let n = bytes.len();
    let mut seen_printable = false;
    let mut i: usize = 0;
    while i < n
        invariant
            i <= n,
            n == bytes@.len(),
            seen_printable <==> exists|j: int| 0 <= j < i && printable(#[trigger] bytes@[j]),
        decreases n - i,
    {
        let b = bytes[i];
        if 0x20 <= b && b <= 0x7e {
            seen_printable = true;
        }
        i += 1;
    }
    if !seen_printable {
        proof {
            assert(all_unprintable(bytes@));
        }
        return None;
    }
    let mut cleaned: Vec<u8> = Vec::new();
    let mut k: usize = 0;
    proof {
        assert(cleaned@ =~= sanitized(bytes@.take(0)));
    }
    while k < n
        invariant
            k <= n,
            n == bytes@.len(),
            cleaned@ == sanitized(bytes@.take(k as int)),
        decreases n - k,
    {
        let b = bytes[k];
        if 0x20 <= b && b <= 0x7e {
            cleaned.push(b);
        } else {
            cleaned.push(0x2e);
        }
        k += 1;
        proof {
            assert(cleaned@ =~= sanitized(bytes@.take(k as int)));
        }
    }
    proof {
        assert(bytes@.take(n as int) =~= bytes@);
    }
    let t = trim_vec(&cleaned);
    let m = t.len();
    if m == 0 {
        return None;
    }
    let mut s = String::new();
    let mut j: usize = 0;
    proof {
        assert(s@ =~= ascii_text(t@.take(0)));
    }
    while j < m
        invariant
            j <= m,
            m == t@.len(),
            s@ == ascii_text(t@.take(j as int)),
        decreases m - j,
    {
        push_char(&mut s, t[j] as char);
        j += 1;
        proof {
            assert(s@ =~= ascii_text(t@.take(j as int)));
        }
    }
    proof {
        assert(t@.take(m as int) =~= t@);
    }
    Some(s)
}

} // verus!
