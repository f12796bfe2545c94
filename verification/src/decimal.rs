//! Decimal numerals as bytes: how lengths and integers are written.

use vstd::prelude::*;

verus! {

/// `c` is one of the ASCII digits `0` to `9`.
pub open spec fn is_digit(c: u8) -> bool {
    48 <= c <= 57
}

/// Every byte of `s` is a digit.
pub open spec fn all_digits(s: Seq<u8>) -> bool {
    forall|i: int| 0 <= i < s.len() ==> is_digit(#[trigger] s[i])
}

/// `s` is a numeral in shortest form: at least one digit, and no leading zero
/// but for the numeral `0` itself.
pub open spec fn plain_numeral(s: Seq<u8>) -> bool {
    &&& s.len() > 0
    &&& all_digits(s)
    &&& (s.len() == 1 || s[0] != 48)
}

/// The shortest decimal numeral of `n`.
pub open spec fn decimal(n: nat) -> Seq<u8>
    decreases n,
{
    if n < 10 {
        seq![(48 + n) as u8]
    } else {
        decimal(n / 10).push((48 + n % 10) as u8)
    }
}

/// The number that the digits of `s` write; 0 for the empty sequence.
pub open spec fn digits_value(s: Seq<u8>) -> nat
    decreases s.len(),
{
    if s.len() == 0 {
        0
    } else {
        10 * digits_value(s.drop_last()) + (s.last() - 48) as nat
    }
}

/// The index at which the run of digits that starts at `at` ends: the first
/// index from `at` on that holds no digit, or the length of `b`.
pub open spec fn digit_run(b: Seq<u8>, at: int) -> int
    decreases b.len() - at,
{
    if 0 <= at < b.len() && is_digit(b[at]) {
        digit_run(b, at + 1)
    } else {
        at
    }
}

/// `decimal(n)` is a numeral in shortest form, and it writes `n`.
pub proof fn lemma_decimal(n: nat)
    ensures
        plain_numeral(decimal(n)),
        digits_value(decimal(n)) == n,
        n > 0 ==> decimal(n)[0] != 48,
    decreases n,
{
    if n < 10 {
        let s = decimal(n);
        assert(digits_value(s.drop_last()) == 0);
    } else {
        lemma_decimal(n / 10);
        let s = decimal(n);
        assert(s.drop_last() =~= decimal(n / 10));
    }
}

/// A numeral in shortest form is the decimal of the number it writes.
pub proof fn lemma_decimal_of_value(s: Seq<u8>)
    requires
        plain_numeral(s),
    ensures
        decimal(digits_value(s)) == s,
        s[0] != 48 ==> digits_value(s) > 0,
    decreases s.len(),
{
    if s.len() == 1 {
        assert(s.drop_last() =~= Seq::<u8>::empty());
        assert(digits_value(s.drop_last()) == 0);
        assert(is_digit(s[0]));
        assert(decimal(digits_value(s)) =~= s);
    } else {
        let front = s.drop_last();
        assert(front[0] == s[0]);
        assert forall|i: int| 0 <= i < front.len() implies is_digit(#[trigger] front[i]) by {
            assert(is_digit(s[i]));
        }
        if front.len() > 1 {
            lemma_decimal_of_value(front);
        } else {
            assert(front.drop_last() =~= Seq::<u8>::empty());
            assert(digits_value(front.drop_last()) == 0);
            assert(is_digit(front[0]));
            assert(decimal(digits_value(front)) =~= front);
        }
        assert(digits_value(front) > 0);
        assert(is_digit(s[s.len() - 1]));
        let v = digits_value(s);
        assert(v / 10 == digits_value(front));
        assert(v % 10 == (s.last() - 48) as nat);
        assert(decimal(v) =~= s);
    }
}

/// The digits before index `k` write no more than the whole sequence does.
pub proof fn lemma_digits_value_prefix(s: Seq<u8>, k: int)
    requires
        0 <= k <= s.len(),
        all_digits(s),
    ensures
        digits_value(s.subrange(0, k)) <= digits_value(s),
    decreases s.len() - k,
{
    if k == s.len() {
        assert(s.subrange(0, k) =~= s);
    } else {
        lemma_digits_value_prefix(s, k + 1);
        let t = s.subrange(0, k + 1);
        assert(t.drop_last() =~= s.subrange(0, k));
    }
}

/// The run of digits from `at` ends at an index from `at` to the length, holds
/// digits only, and is followed by no digit.
pub proof fn lemma_digit_run(b: Seq<u8>, at: int)
    requires
        0 <= at <= b.len(),
    ensures
        at <= digit_run(b, at) <= b.len(),
        all_digits(b.subrange(at, digit_run(b, at))),
        digit_run(b, at) < b.len() ==> !is_digit(b[digit_run(b, at)]),
    decreases b.len() - at,
{
    if at < b.len() && is_digit(b[at]) {
        lemma_digit_run(b, at + 1);
        let stop = digit_run(b, at);
        assert forall|i: int| 0 <= i < stop - at implies is_digit(
            #[trigger] b.subrange(at, stop)[i],
        ) by {
            if i > 0 {
                assert(b.subrange(at, stop)[i] == b.subrange(at + 1, stop)[i - 1]);
            }
        }
    }
}

/// A run of digits from `at` that stops at `stop`, with no digit at `stop`, is
/// the run that `digit_run` finds.
pub proof fn lemma_digit_run_is(b: Seq<u8>, at: int, stop: int)
    requires
        0 <= at <= stop <= b.len(),
        all_digits(b.subrange(at, stop)),
        stop < b.len() ==> !is_digit(b[stop]),
    ensures
        digit_run(b, at) == stop,
    decreases stop - at,
{
    if at < stop {
        assert(b.subrange(at, stop)[0] == b[at]);
        assert forall|i: int| 0 <= i < stop - at - 1 implies is_digit(
            #[trigger] b.subrange(at + 1, stop)[i],
        ) by {
            assert(b.subrange(at + 1, stop)[i] == b.subrange(at, stop)[i + 1]);
        }
        lemma_digit_run_is(b, at + 1, stop);
    }
}

/// Whether `c` is an ASCII digit.
pub fn byte_is_digit(c: u8) -> (r: bool)
    ensures
        r == is_digit(c),
{
    48 <= c && c <= 57
}

/// The index at which the run of digits that starts at `at` ends.
pub fn scan_digits(bytes: &[u8], at: usize) -> (stop: usize)
    ensures
        stop == digit_run(bytes@, at as int),
        at <= stop,
        at <= bytes.len() ==> stop <= bytes.len(),
{
    if at >= bytes.len() {
        return at;
    }
    let mut i: usize = at;
    while i < bytes.len() && byte_is_digit(bytes[i])
        invariant
            at <= i <= bytes.len(),
            all_digits(bytes@.subrange(at as int, i as int)),
        decreases bytes.len() - i,
    {
        i += 1;
    }
    proof {
        lemma_digit_run_is(bytes@, at as int, i as int);
    }
    i
}

/// The number that `bytes[from..to]` writes, where these are bytes of the
/// input, all of them digits, and the number is at most `limit`.
pub fn read_number(bytes: &[u8], from: usize, to: usize, limit: u64) -> (r: Option<u64>)
    ensures
        r == if from <= to <= bytes.len() && all_digits(bytes@.subrange(from as int, to as int))
            && digits_value(bytes@.subrange(from as int, to as int)) <= limit {
            Some(digits_value(bytes@.subrange(from as int, to as int)) as u64)
        } else {
            None
        },
{
    if from > to || to > bytes.len() {
        return None;
    }
    let ghost digits = bytes@.subrange(from as int, to as int);
    let mut acc: u64 = 0;
    let mut i: usize = from;
    while i < to
        invariant
            from <= i <= to,
            to <= bytes.len(),
            digits == bytes@.subrange(from as int, to as int),
            all_digits(digits.subrange(0, i - from)),
            acc == digits_value(digits.subrange(0, i - from)),
            acc <= limit,
        decreases to - i,
    {
        let c = bytes[i];
        assert(c == digits[i - from]);
        if !byte_is_digit(c) {
            return None;
        }
        let d: u64 = (c - 48) as u64;
        proof {
            let next = digits.subrange(0, i + 1 - from);
            assert(next.drop_last() =~= digits.subrange(0, i - from));
            if all_digits(digits) {
                lemma_digits_value_prefix(digits, i + 1 - from);
            }
        }
        if acc > limit / 10 {
            return None;
        }
        if d > limit - 10 * acc {
            return None;
        }
        acc = 10 * acc + d;
        i += 1;
    }
    assert(digits.subrange(0, to - from) =~= digits);
    Some(acc)
}

/// Appends the shortest decimal numeral of `n` to `out`.
pub fn push_decimal(out: &mut Vec<u8>, n: u64)
    ensures
        final(out)@ == old(out)@ + decimal(n as nat),
    decreases n,
{
    if n >= 10 {
        push_decimal(out, n / 10);
    }
    out.push((48 + n % 10) as u8);
}

} // verus!
