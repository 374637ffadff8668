//! Byte-level text utilities shared by the port-specification and address
//! parsers: ASCII whitespace trimming, separator splitting, and decimal
//! digit evaluation, each with an exact mathematical description.

use vstd::prelude::*;

verus! {

/// ASCII whitespace: space, tab, line feed, vertical tab, form feed,
/// carriage return.
pub open spec fn is_ws(b: u8) -> bool {
    b == 0x20 || (0x09 <= b && b <= 0x0d)
}

/// ASCII decimal digit.
pub open spec fn is_digit(b: u8) -> bool {
    0x30 <= b && b <= 0x39
}

pub open spec fn all_digits(s: Seq<u8>) -> bool {
    forall|i: int| 0 <= i < s.len() ==> is_digit(#[trigger] s[i])
}

/// Value of a sequence of decimal digit bytes, leading zeros allowed.
/// Non-digit bytes contribute nothing, which keeps the function total and
/// monotone under extension; callers guard with `all_digits`.
pub open spec fn digits_val(s: Seq<u8>) -> nat
    decreases s.len(),
{
    if s.len() == 0 {
        0
    } else {
        digits_val(s.drop_last()) * 10 + (if is_digit(s.last()) {
            (s.last() - 0x30) as nat
        } else {
            0
        })
    }
}

/// Printable ASCII: the bytes a banner keeps as they are.
pub open spec fn printable(b: u8) -> bool {
    0x20 <= b && b <= 0x7e
}

/// Each byte sanitized: printable ASCII stays, every control or non-ASCII
/// byte becomes an ASCII dot.
pub open spec fn sanitized(bs: Seq<u8>) -> Seq<u8> {
    bs.map_values(|b: u8| if printable(b) { b } else { 0x2e as u8 })
}

/// The input without its leading ASCII whitespace.
pub open spec fn trim_left(s: Seq<u8>) -> Seq<u8>
    decreases s.len(),
{
    if s.len() > 0 && is_ws(s[0]) {
        trim_left(s.skip(1))
    } else {
        s
    }
}

/// The input without its trailing ASCII whitespace.
pub open spec fn trim_right(s: Seq<u8>) -> Seq<u8>
    decreases s.len(),
{
    if s.len() > 0 && is_ws(s.last()) {
        trim_right(s.drop_last())
    } else {
        s
    }
}

/// The input without leading and trailing ASCII whitespace.
pub open spec fn trim(s: Seq<u8>) -> Seq<u8> {
    trim_right(trim_left(s))
}

/// The pieces of `s` between occurrences of `sep`, in order; always at
/// least one piece, and empty pieces are kept.
pub open spec fn split_on(s: Seq<u8>, sep: u8) -> Seq<Seq<u8>>
    decreases s.len(),
{
    if s.len() == 0 {
        seq![Seq::<u8>::empty()]
    } else if s[0] == sep {
        seq![Seq::<u8>::empty()] + split_on(s.skip(1), sep)
    } else {
        prepend_first(seq![s[0]], split_on(s.skip(1), sep))
    }
}

/// Extends the first piece of a piece list on the left.
pub open spec fn prepend_first(c: Seq<u8>, pieces: Seq<Seq<u8>>) -> Seq<Seq<u8>> {
    seq![c + pieces[0]] + pieces.skip(1)
}

pub proof fn lemma_split_on_nonempty(s: Seq<u8>, sep: u8)
    ensures
        split_on(s, sep).len() >= 1,
    decreases s.len(),
{
    if s.len() > 0 {
        lemma_split_on_nonempty(s.skip(1), sep);
    }
}

pub proof fn lemma_prepend_first_empty(pieces: Seq<Seq<u8>>)
    requires
        pieces.len() >= 1,
    ensures
        prepend_first(Seq::<u8>::empty(), pieces) == pieces,
{
    assert(Seq::<u8>::empty() + pieces[0] =~= pieces[0]);
    assert(prepend_first(Seq::<u8>::empty(), pieces) =~= pieces);
}

pub proof fn lemma_prepend_prepend(c: Seq<u8>, b: u8, pieces: Seq<Seq<u8>>)
    requires
        pieces.len() >= 1,
    ensures
        prepend_first(c, prepend_first(seq![b], pieces)) == prepend_first(c.push(b), pieces),
{
    assert(c + (seq![b] + pieces[0]) =~= c.push(b) + pieces[0]);
    assert((seq![seq![b] + pieces[0]] + pieces.skip(1)).skip(1) =~= pieces.skip(1));
    assert(prepend_first(c, prepend_first(seq![b], pieces)) =~= prepend_first(
        c.push(b),
        pieces,
    ));
}

/// A digit string's value only grows as more of it is read.
pub proof fn lemma_digits_val_mono(s: Seq<u8>, k: int)
    requires
        0 <= k <= s.len(),
    ensures
        digits_val(s.take(k)) <= digits_val(s),
    decreases s.len() - k,
{
    if k == s.len() {
        assert(s.take(k) =~= s);
    } else {
        assert(s.take(k + 1).drop_last() =~= s.take(k));
        assert(s.take(k + 1).last() == s[k]);
        assert(digits_val(s.take(k)) <= digits_val(s.take(k + 1)));
        lemma_digits_val_mono(s, k + 1);
    }
}

/// Reading one more digit multiplies the value by ten and adds the digit.
pub proof fn lemma_digits_val_step(s: Seq<u8>, k: int)
    requires
        0 <= k < s.len(),
        is_digit(s[k]),
    ensures
        digits_val(s.take(k + 1)) == digits_val(s.take(k)) * 10 + (s[k] - 0x30),
{
    assert(s.take(k + 1).drop_last() =~= s.take(k));
    assert(s.take(k + 1).last() == s[k]);
}

/// Whether a byte is ASCII whitespace.
pub fn ws_byte(b: u8) -> (r: bool)
    ensures
        r == is_ws(b),
{
    b == 0x20 || (0x09 <= b && b <= 0x0d)
}

/// Removes leading and trailing ASCII whitespace.
pub fn trim_vec(t: &Vec<u8>) -> (r: Vec<u8>)
    ensures
        r@ == trim(t@),
{
    let n = t.len();
    let mut lo: usize = 0;
    proof {
        assert(t@.skip(0) =~= t@);
    }
    while lo < n && ws_byte(t[lo])
        invariant
            lo <= n,
            n == t@.len(),
            trim_left(t@) == trim_left(t@.skip(lo as int)),
        decreases n - lo,
    {
        proof {
            assert(t@.skip(lo as int).skip(1) =~= t@.skip(lo as int + 1));
        }
        lo += 1;
    }
    proof {
        if lo < n {
            assert(trim_left(t@.skip(lo as int)) == t@.skip(lo as int));
        } else {
            assert(t@.skip(lo as int) =~= Seq::<u8>::empty());
        }
    }
    let ghost left: Seq<u8> = t@.skip(lo as int);
    let mut hi: usize = n - lo;
    proof {
        assert(left.take(hi as int) =~= left);
    }
    while hi > 0 && ws_byte(t[lo + hi - 1])
        invariant
            hi <= n - lo,
            lo <= n,
            n == t@.len(),
            left == t@.skip(lo as int),
            trim_right(left) == trim_right(left.take(hi as int)),
        decreases hi,
    {
        proof {
            assert(left.take(hi as int).last() == t@[lo + hi - 1]);
            assert(left.take(hi as int).drop_last() =~= left.take(hi as int - 1));
        }
        hi -= 1;
    }
    proof {
        if hi > 0 {
            assert(left.take(hi as int).last() == t@[lo + hi - 1]);
            assert(trim_right(left.take(hi as int)) == left.take(hi as int));
        } else {
            assert(left.take(0) =~= Seq::<u8>::empty());
        }
    }
    let mut out: Vec<u8> = Vec::new();
    let mut j: usize = 0;
    while j < hi
        invariant
            j <= hi,
            hi <= n - lo,
            lo <= n,
            n == t@.len(),
            left == t@.skip(lo as int),
            out@ =~= left.take(hi as int).take(j as int),
        decreases hi - j,
    {
        out.push(t[lo + j]);
        j += 1;
    }
    proof {
        assert(left.take(hi as int).take(hi as int) =~= left.take(hi as int));
    }
    out
}

/// Splits on a separator byte; empty pieces are kept.
pub fn split_vec(t: &Vec<u8>, sep: u8) -> (r: Vec<Vec<u8>>)
    ensures
        r.deep_view() == split_on(t@, sep),
        r@.len() >= 1,
        r@.len() == split_on(t@, sep).len(),
        forall|k: int| 0 <= k < r@.len() ==> (#[trigger] r@[k])@ == split_on(t@, sep)[k],
{
    let n = t.len();
    let mut out: Vec<Vec<u8>> = Vec::new();
    let mut cur: Vec<u8> = Vec::new();
    let mut i: usize = 0;
    proof {
        assert(t@.skip(0) =~= t@);
        lemma_split_on_nonempty(t@, sep);
        lemma_prepend_first_empty(split_on(t@, sep));
        assert(out.deep_view() + prepend_first(cur@, split_on(t@.skip(0), sep)) =~~= split_on(
            t@,
            sep,
        ));
    }
    while i < n
        invariant
            i <= n,
            n == t@.len(),
            split_on(t@, sep) == out.deep_view() + prepend_first(
                cur@,
                split_on(t@.skip(i as int), sep),
            ),
        decreases n - i,
    {
        let b = t[i];
        proof {
            assert(t@.skip(i as int)[0] == t@[i as int]);
            assert(t@.skip(i as int).skip(1) =~= t@.skip(i as int + 1));
            lemma_split_on_nonempty(t@.skip(i as int + 1), sep);
        }
        if b == sep {
            let ghost rest = split_on(t@.skip(i as int + 1), sep);
            proof {
                assert(cur@ + Seq::<u8>::empty() =~= cur@);
                assert((seq![Seq::<u8>::empty()] + rest).skip(1) =~= rest);
                assert(prepend_first(cur@, split_on(t@.skip(i as int), sep)) =~= seq![cur@]
                    + prepend_first(Seq::<u8>::empty(), rest));
                lemma_prepend_first_empty(rest);
            }
            let finished = cur;
            cur = Vec::new();
            let ghost fv = finished@;
            let ghost prev = out.deep_view();
            out.push(finished);
            proof {
                assert(out.deep_view() =~~= prev.push(fv));
                assert(prev + seq![fv] =~= prev.push(fv));
            }
        } else {
            proof {
                lemma_prepend_prepend(cur@, b, split_on(t@.skip(i as int + 1), sep));
            }
            cur.push(b);
        }
        i += 1;
        proof {
            assert(split_on(t@, sep) =~~= out.deep_view() + prepend_first(
                cur@,
                split_on(t@.skip(i as int), sep),
            ));
        }
    }
    let ghost cv = cur@;
    let ghost prev = out.deep_view();
    proof {
        assert(t@.skip(n as int) =~= Seq::<u8>::empty());
        assert(cv + Seq::<u8>::empty() =~= cv);
        assert(prepend_first(cv, split_on(Seq::<u8>::empty(), sep)) =~= seq![cv]);
    }
    out.push(cur);
    proof {
        assert(out.deep_view() =~~= prev.push(cv));
        assert(prev + seq![cv] =~= prev.push(cv));
        assert forall|k: int| 0 <= k < out@.len() implies (#[trigger] out@[k])@ == split_on(
            t@,
            sep,
        )[k] by {
            assert(out.deep_view()[k] == out@[k].deep_view());
            assert(out@[k].deep_view() =~= out@[k]@);
        }
    }
    out
}

/// Evaluates an all-digit byte string, refusing values above `max`.
pub fn decimal_value(t: &Vec<u8>, max: u32) -> (r: Option<u32>)
    requires
        max <= 0xffff,
    ensures
        r is Some <==> (t@.len() > 0 && all_digits(t@) && digits_val(t@) <= max),
        r matches Some(v) ==> v == digits_val(t@),
{
    let n = t.len();
    if n == 0 {
        return None;
    }
    let mut acc: u32 = 0;
    let mut i: usize = 0;
    proof {
        assert(t@.take(0) =~= Seq::<u8>::empty());
    }
    while i < n
        invariant
            i <= n,
            n == t@.len(),
            max <= 0xffff,
            all_digits(t@.take(i as int)),
            acc == digits_val(t@.take(i as int)),
            acc <= max,
        decreases n - i,
    {
        let b = t[i];
        if b < 0x30 || b > 0x39 {
            assert(!is_digit(t@[i as int]));
            return None;
        }
        proof {
            lemma_digits_val_step(t@, i as int);
        }
        let next = acc * 10 + (b - 0x30) as u32;
        if next > max {
            proof {
                lemma_digits_val_mono(t@, i as int + 1);
            }
            return None;
        }
        acc = next;
        i += 1;
    }
    proof {
        assert(t@.take(n as int) =~= t@);
    }
    Some(acc)
}

} // verus!
