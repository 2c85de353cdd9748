//! The textual pieces of the object format: decimal numbers, the
//! `<tag> <length>\0` header, and the framed byte sequence that is hashed
//! and stored.

use vstd::prelude::*;

use crate::objects::{kind_tag, ObjectKind};

verus! {

/// ASCII space, the separator inside headers.
pub const SPACE: u8 = 32;

/// The NUL byte that ends a header.
pub const NUL: u8 = 0;

/// ASCII `'0'`.
pub const DIGIT_ZERO: u8 = 48;

/// ASCII `'+'`, the sign that a decimal number may start with.
pub const PLUS: u8 = 43;

pub open spec fn is_digit(b: u8) -> bool {
    DIGIT_ZERO <= b <= DIGIT_ZERO + 9
}

pub open spec fn all_digits(s: Seq<u8>) -> bool {
    forall|i: int| 0 <= i < s.len() ==> is_digit(#[trigger] s[i])
}

/// The shortest decimal spelling of `n`, most significant digit first.
pub open spec fn decimal_digits(n: nat) -> Seq<u8>
    decreases n,
{
    if n < 10 {
        seq![(DIGIT_ZERO + n) as u8]
    } else {
        decimal_digits(n / 10).push((DIGIT_ZERO + n % 10) as u8)
    }
}

/// The value of a string of decimal digits (0 for the empty string).
pub open spec fn digits_value(s: Seq<u8>) -> nat
    decreases s.len(),
{
    if s.len() == 0 {
        0
    } else {
        digits_value(s.drop_last()) * 10 + (s.last() - DIGIT_ZERO) as nat
    }
}

/// An unsigned decimal number as integer parsing reads it: an optional `+`,
/// then one or more digits, with a value of at most `max`.
pub open spec fn parse_decimal_spec(s: Seq<u8>, max: nat) -> Option<nat> {
    let ds = if s.len() > 0 && s[0] == PLUS {
        s.drop_first()
    } else {
        s
    };
    if ds.len() > 0 && all_digits(ds) && digits_value(ds) <= max {
        Some(digits_value(ds))
    } else {
        None
    }
}

/// The header that precedes a body of `len` bytes: `<tag> <len>\0`.
pub open spec fn object_header(kind: ObjectKind, len: nat) -> Seq<u8> {
    kind_tag(kind) + seq![SPACE] + decimal_digits(len) + seq![NUL]
}

/// The byte sequence that is hashed, and compressed to disk: header, then
/// payload.
pub open spec fn framed(kind: ObjectKind, payload: Seq<u8>) -> Seq<u8> {
    object_header(kind, payload.len()) + payload
}

/// Appends the decimal spelling of `n` to `out`.
pub fn push_decimal(out: &mut Vec<u8>, n: usize)
    ensures
        final(out)@ == old(out)@ + decimal_digits(n as nat),
    decreases n,
{
    if n >= 10 {
        push_decimal(out, n / 10);
    }
    out.push(DIGIT_ZERO + (n % 10) as u8);
    assert(final(out)@ =~= old(out)@ + decimal_digits(n as nat));
}

/// Appends all of `b` to `out`.
pub fn push_all(out: &mut Vec<u8>, b: &[u8])
    ensures
        final(out)@ == old(out)@ + b@,
{
    let ghost start = out@;
    let mut i: usize = 0;
    while i < b.len()
        invariant
            i <= b@.len(),
            out@ == start + b@.subrange(0, i as int),
        decreases b@.len() - i,
    {
        out.push(b[i]);
        i = i + 1;
        assert(out@ =~= start + b@.subrange(0, i as int));
    }
    assert(b@.subrange(0, i as int) =~= b@);
}

/// The framed form of a payload: `<tag> <length>\0<payload>`.
pub fn frame_object(kind: ObjectKind, payload: &[u8]) -> (r: Vec<u8>)
    ensures
        r@ == framed(kind, payload@),
{
    let mut out = kind.tag_bytes();
    out.push(SPACE);
    push_decimal(&mut out, payload.len());
    out.push(NUL);
    push_all(&mut out, payload);
    assert(out@ =~= framed(kind, payload@));
    out
}

/// A prefix of a digit string never has a larger value than the string.
pub proof fn lemma_digits_value_prefix(s: Seq<u8>, k: int)
    requires
        0 <= k <= s.len(),
        all_digits(s),
    ensures
        digits_value(s.subrange(0, k)) <= digits_value(s),
    decreases s.len(),
{
    if k < s.len() {
        let t = s.drop_last();
        assert(t.subrange(0, k) =~= s.subrange(0, k));
        lemma_digits_value_prefix(t, k);
    } else {
        assert(s.subrange(0, k) =~= s);
    }
}

/// The decimal spelling is a non-empty string of digits whose value is `n`.
pub proof fn lemma_decimal_digits(n: nat)
    ensures
        decimal_digits(n).len() >= 1,
        all_digits(decimal_digits(n)),
        digits_value(decimal_digits(n)) == n,
    decreases n,
{
    let d = decimal_digits(n);
    if n < 10 {
        assert(d.drop_last() =~= Seq::<u8>::empty());
        assert(digits_value(d.drop_last()) == 0);
        assert(d.last() - DIGIT_ZERO == n);
        assert(digits_value(d) == digits_value(d.drop_last()) * 10 + (d.last() - DIGIT_ZERO) as nat);
    } else {
        lemma_decimal_digits(n / 10);
        assert(d.drop_last() =~= decimal_digits(n / 10));
        assert(d.last() - DIGIT_ZERO == n % 10);
        assert((n / 10) * 10 + n % 10 == n) by (nonlinear_arith);
        assert(digits_value(d) == digits_value(d.drop_last()) * 10 + (d.last() - DIGIT_ZERO) as nat);
        assert forall|i: int| 0 <= i < d.len() implies is_digit(#[trigger] d[i]) by {
            if i < d.len() - 1 {
                assert(d[i] == decimal_digits(n / 10)[i]);
            }
        }
    }
}

/// Reading back the decimal spelling of a number within bounds gives it.
pub proof fn lemma_parse_decimal_digits(n: nat, max: nat)
    requires
        n <= max,
    ensures
        parse_decimal_spec(decimal_digits(n), max) == Some(n),
{
    lemma_decimal_digits(n);
    assert(is_digit(decimal_digits(n)[0]));
}

/// Parses `s[start..end]` as an unsigned decimal number no greater than `max`.
pub fn parse_decimal(s: &[u8], start: usize, end: usize, max: usize) -> (r: Option<usize>)
    requires
        start <= end <= s@.len(),
    ensures
        r matches Some(v) ==> parse_decimal_spec(s@.subrange(start as int, end as int), max as nat)
            == Some(v as nat),
        r is None ==> parse_decimal_spec(s@.subrange(start as int, end as int), max as nat) is None,
{
    let ghost whole = s@.subrange(start as int, end as int);
    let mut i = start;
    if i < end && s[i] == PLUS {
        i = i + 1;
    }
    let first = i;
    let ghost ds = s@.subrange(first as int, end as int);
    assert(ds =~= (if whole.len() > 0 && whole[0] == PLUS {
        whole.drop_first()
    } else {
        whole
    }));
    assert(parse_decimal_spec(whole, max as nat) == (if ds.len() > 0 && all_digits(ds)
        && digits_value(ds) <= max {
        Some(digits_value(ds))
    } else {
        None::<nat>
    }));
    if first == end {
        return None;
    }
    let mut v: usize = 0;
    while i < end
        invariant
            first <= i <= end <= s@.len(),
            ds == s@.subrange(first as int, end as int),
            ds.len() > 0,
            whole == s@.subrange(start as int, end as int),
            parse_decimal_spec(whole, max as nat) == (if ds.len() > 0 && all_digits(ds)
                && digits_value(ds) <= max {
                Some(digits_value(ds))
            } else {
                None::<nat>
            }),
            all_digits(s@.subrange(first as int, i as int)),
            v as nat == digits_value(s@.subrange(first as int, i as int)),
            v <= max,
        decreases end - i,
    {
        let b = s[i];
        let ghost prefix = s@.subrange(first as int, i as int);
        if b < DIGIT_ZERO || b > DIGIT_ZERO + 9 {
            assert(!is_digit(ds[i - first]));
            return None;
        }
        let d = (b - DIGIT_ZERO) as usize;
        let ghost next = s@.subrange(first as int, i + 1);
        assert(next.drop_last() =~= prefix);
        if d > max || v > (max - d) / 10 {
            assert(v * 10 + d > max) by (nonlinear_arith)
                requires
                    d > max || v > (max - d) / 10,
                    d <= 9,
            ;
            assert(digits_value(next) > max);
            assert(ds.subrange(0, i + 1 - first) =~= next);
            proof {
                if all_digits(ds) {
                    lemma_digits_value_prefix(ds, i + 1 - first);
                }
            }
            return None;
        }
        assert(v * 10 + d <= max) by (nonlinear_arith)
            requires
                d <= max,
                v <= (max - d) / 10,
        ;
        v = v * 10 + d;
        i = i + 1;
        assert(all_digits(next));
    }
    assert(s@.subrange(first as int, i as int) =~= ds);
    Some(v)
}

} // verus!
