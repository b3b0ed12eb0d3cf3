use vstd::prelude::*;
use vstd::utf8::{decode_utf8, valid_utf8};

verus! {

/// Relies on `std::str::from_utf8`: it accepts exactly the well-formed
/// UTF-8 byte sequences and yields the characters they encode.
#[verifier::external_body]
pub(crate) fn utf8_to_string(bytes: &[u8]) -> (r: Option<String>)
    ensures
        r is Some <==> valid_utf8(bytes@),
        r is Some ==> r->0@ == decode_utf8(bytes@),
{
    match std::str::from_utf8(bytes) {
        Ok(s) => Some(s.to_owned()),
        Err(_) => None,
    }
}

pub open spec fn is_digit(b: u8) -> bool {
    0x30 <= b <= 0x39
}

/// Value of a sequence of ASCII decimal digits.
pub open spec fn dec_value(s: Seq<u8>) -> nat
    decreases s.len(),
{
    if s.len() == 0 {
        0
    } else {
        dec_value(s.drop_last()) * 10 + (s.last() - 0x30) as nat
    }
}

/// An unsigned decimal number: an optional `+`, then one or more digits.
pub open spec fn decimal(s: Seq<u8>) -> Option<nat> {
    if digits_part(s).len() > 0 && all_digits(digits_part(s)) {
        Some(dec_value(digits_part(s)))
    } else {
        None
    }
}

/// What follows an optional leading `+`.
pub open spec fn digits_part(s: Seq<u8>) -> Seq<u8> {
    if s.len() > 0 && s[0] == 0x2B {
        s.drop_first()
    } else {
        s
    }
}

pub open spec fn all_digits(d: Seq<u8>) -> bool {
    forall|i: int| 0 <= i < d.len() ==> #[trigger] is_digit(d[i])
}

/// The decimal number `s` holds when it is at most `max`.
pub open spec fn decimal_at_most(s: Seq<u8>, max: nat) -> Option<nat> {
    match decimal(s) {
        Some(v) => if v <= max {
            Some(v)
        } else {
            None
        },
        None => None,
    }
}

proof fn lemma_dec_value_grows(s: Seq<u8>, k: int)
    requires
        0 <= k <= s.len(),
        forall|i: int| 0 <= i < s.len() ==> #[trigger] is_digit(s[i]),
    ensures
        dec_value(s.take(k)) <= dec_value(s),
    decreases s.len() - k,
{
    if k < s.len() {
        lemma_dec_value_grows(s, k + 1);
        assert(s.take(k + 1).drop_last() =~= s.take(k));
    } else {
        assert(s.take(k) =~= s);
    }
}

/// Parses `s[start..end]` as an unsigned decimal number no greater than `max`.
pub fn parse_decimal(s: &[u8], start: usize, end: usize, max: u32) -> (r: Option<u32>)
    requires
        start <= end <= s@.len(),
    ensures
        match r {
            Some(v) => decimal_at_most(s@.subrange(start as int, end as int), max as nat) == Some(v as nat),
            None => decimal_at_most(s@.subrange(start as int, end as int), max as nat) is None,
        },
{
    let ghost whole = s@.subrange(start as int, end as int);
    let mut i = start;
    if i < end && s[i] == 0x2B {
        i = i + 1;
    }
    let ghost d = s@.subrange(i as int, end as int);
    assert(d =~= digits_part(whole));
    if i == end {
        return None;
    }
    let first = i;
    let mut acc: u32 = 0;
    while i < end
        invariant
            start <= first <= i <= end <= s@.len(),
            d == s@.subrange(first as int, end as int),
            whole == s@.subrange(start as int, end as int),
            d == digits_part(whole),
            forall|j: int| 0 <= j < i - first ==> #[trigger] is_digit(d[j]),
            acc as nat == dec_value(d.take(i - first)),
            acc <= max,
        decreases end - i,
    {
        let b = s[i];
        if b < 0x30 || b > 0x39 {
            assert(!is_digit(d[i - first]));
            assert(!all_digits(d));
            return None;
        }
        assert(d.take(i - first + 1).drop_last() =~= d.take(i - first));
        let digit = (b - 0x30) as u32;
        let next: u64 = acc as u64 * 10 + digit as u64;
        if next > max as u64 {
            proof {
                assert(dec_value(d.take(i - first + 1)) > max as nat);
                if all_digits(d) {
                    lemma_dec_value_grows(d, i - first + 1);
                }
            }
            return None;
        }
        acc = next as u32;
        i = i + 1;
    }
    assert(d.take(i - first) =~= d);
    Some(acc)
}

/// Decimal digits of `n`, with leading zeros up to `width` digits.
pub open spec fn dec_digits(n: nat, width: nat) -> Seq<u8>
    decreases n, width,
{
    if n < 10 && width <= 1 {
        seq![(0x30 + n) as u8]
    } else {
        dec_digits(n / 10, if width > 0 {
            (width - 1) as nat
        } else {
            0
        }) + seq![(0x30 + n % 10) as u8]
    }
}

/// Appends the decimal digits of `n`, with leading zeros up to `width` digits.
pub fn push_decimal(out: &mut Vec<u8>, n: u32, width: u32)
    ensures
        final(out)@ == old(out)@ + dec_digits(n as nat, width as nat),
    decreases n, width,
{
    if n < 10 && width <= 1 {
        out.push((0x30 + n) as u8);
    } else {
        let w = if width > 0 {
            width - 1
        } else {
            0
        };
        push_decimal(out, n / 10, w);
        let ghost mid = out@;
        out.push((0x30 + n % 10) as u8);
        assert(out@ =~= old(out)@ + dec_digits(n as nat, width as nat));
    }
}

} // verus!
