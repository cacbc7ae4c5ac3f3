use vstd::prelude::*;
use crate::text::{push_char, push_chars};

verus! {

/// Whether `c` is a decimal digit.
pub open spec fn is_digit(c: char) -> bool {
    '0' <= c <= '9'
}

/// The value of the decimal digits `s` (all of them digits).
pub open spec fn digits_value(s: Seq<char>) -> nat
    decreases s.len(),
{
    if s.len() == 0 {
        0
    } else {
        digits_value(s.drop_last()) * 10 + (s.last() as nat - '0' as nat) as nat
    }
}

/// All characters of `s` are decimal digits.
pub open spec fn all_digits(s: Seq<char>) -> bool {
    forall|i: int| 0 <= i < s.len() ==> is_digit(#[trigger] s[i])
}

/// What `str::parse` gives for an unsigned integer type whose largest value
/// is `max`: an optional `+`, then at least one digit and nothing else, with
/// a value of at most `max`.
pub open spec fn parse_unsigned(s: Seq<char>, max: nat) -> Option<nat> {
    let d = if s.len() > 0 && s[0] == '+' { s.drop_first() } else { s };
    if d.len() > 0 && all_digits(d) && digits_value(d) <= max {
        Some(digits_value(d))
    } else {
        None
    }
}

/// What `str::parse::<i32>` gives: an optional sign, then at least one
/// digit and nothing else, with a value in the range of `i32`.
pub open spec fn parse_i32_spec(s: Seq<char>) -> Option<int> {
    let neg = s.len() > 0 && s[0] == '-';
    let d = if s.len() > 0 && (s[0] == '+' || s[0] == '-') { s.drop_first() } else { s };
    if d.len() > 0 && all_digits(d) {
        let v: int = if neg { -digits_value(d) } else { digits_value(d) as int };
        if i32::MIN <= v <= i32::MAX { Some(v) } else { None }
    } else {
        None
    }
}

/// Decimal text of `n`, without leading zeros.
pub open spec fn dec(n: nat) -> Seq<char>
    decreases n,
{
    if n < 10 {
        seq![(n + '0' as nat) as char]
    } else {
        dec(n / 10).push(((n % 10) + '0' as nat) as char)
    }
}

/// Decimal text of the integer `x`, with a leading `-` when negative.
pub open spec fn dec_int(x: int) -> Seq<char> {
    if x < 0 { seq!['-'] + dec((-x) as nat) } else { dec(x as nat) }
}

/// Value of the digits `v[from..to]`, or `None` past `max`.
fn digits_upto(v: &[char], from: usize, to: usize, max: u64) -> (r: Option<u64>)
    requires
        from <= to <= v@.len(),
        all_digits(v@.subrange(from as int, to as int)),
    ensures
        match r {
            Some(x) => x == digits_value(v@.subrange(from as int, to as int)) && x <= max,
            None => digits_value(v@.subrange(from as int, to as int)) > max,
        },
{
    let mut i: usize = from;
    let mut acc: u64 = 0;
    while i < to
        invariant
            from <= i <= to <= v@.len(),
            all_digits(v@.subrange(from as int, to as int)),
            acc == digits_value(v@.subrange(from as int, i as int)),
            acc <= max,
        decreases to - i,
    {
        let ghost prev = v@.subrange(from as int, i as int);
        assert(v@.subrange(from as int, i + 1).drop_last() =~= prev);
        assert(v@.subrange(from as int, to as int)[i - from] == v@[i as int]);
        assert(is_digit(v@[i as int]));
        let d = (v[i] as u32 - '0' as u32) as u64;
        if d > max {
            proof {
                lemma_digits_value_prefix(v@.subrange(from as int, to as int), i + 1 - from);
                assert(v@.subrange(from as int, to as int).take(i + 1 - from) =~= v@.subrange(from as int, i + 1));
            }
            return None;
        }
        if acc > (max - d) / 10 {
            proof {
                lemma_digits_value_prefix(v@.subrange(from as int, to as int), i + 1 - from);
                assert(v@.subrange(from as int, to as int).take(i + 1 - from) =~= v@.subrange(from as int, i + 1));
                assert(acc * 10 + d > max) by (nonlinear_arith)
                    requires
                        acc > (max - d) / 10,
                        d <= max,
                ;
            }
            return None;
        }
        assert(acc * 10 + d <= max) by (nonlinear_arith)
            requires
                acc <= (max - d) / 10,
                d <= max,
        ;
        acc = acc * 10 + d;
        i = i + 1;
    }
    Some(acc)
}

pub proof fn lemma_digits_value_prefix(s: Seq<char>, k: int)
    requires
        0 <= k <= s.len(),
        all_digits(s),
    ensures
        digits_value(s.take(k)) <= digits_value(s),
    decreases s.len() - k,
{
    if k < s.len() {
        lemma_digits_value_prefix(s.drop_last(), k);
        assert(s.drop_last().take(k) =~= s.take(k));
        assert(is_digit(s[s.len() - 1]));
    } else {
        assert(s.take(k) =~= s);
    }
}

/// Whether `v[from..to]` is all digits.
fn digits_only(v: &[char], from: usize, to: usize) -> (r: bool)
    requires
        from <= to <= v@.len(),
    ensures
        r == all_digits(v@.subrange(from as int, to as int)),
{
    let mut i = from;
    while i < to
        invariant
            from <= i <= to <= v@.len(),
            all_digits(v@.subrange(from as int, i as int)),
        decreases to - i,
    {
        if !('0' <= v[i] && v[i] <= '9') {
            assert(v@.subrange(from as int, to as int)[i - from] == v@[i as int]);
            return false;
        }
        assert forall|j: int| 0 <= j < i + 1 - from implies is_digit(#[trigger] v@.subrange(from as int, i + 1)[j]) by {
            if j < i - from {
                assert(v@.subrange(from as int, i + 1)[j] == v@.subrange(from as int, i as int)[j]);
            }
        }
        i = i + 1;
    }
    true
}

/// `str::parse` for an unsigned type whose largest value is `max`
/// (see [`parse_unsigned`]).
pub fn parse_unsigned_chars(v: &[char], max: u64) -> (r: Option<u64>)
    ensures
        match parse_unsigned(v@, max as nat) {
            Some(n) => r == Some(n as u64),
            None => r is None,
        },
{
    let from: usize = if v.len() > 0 && v[0] == '+' { 1 } else { 0 };
    assert(v@.subrange(from as int, v@.len() as int) =~= (if v@.len() > 0 && v@[0] == '+' {
        v@.drop_first()
    } else {
        v@
    }));
    if from == v.len() {
        return None;
    }
    if !digits_only(v, from, v.len()) {
        return None;
    }
    digits_upto(v, from, v.len(), max)
}

/// `str::parse::<i32>` (see [`parse_i32_spec`]).
pub fn parse_i32_chars(v: &[char]) -> (r: Option<i32>)
    ensures
        match parse_i32_spec(v@) {
            Some(n) => r == Some(n as i32),
            None => r is None,
        },
{
    let signed = v.len() > 0 && (v[0] == '+' || v[0] == '-');
    let neg = v.len() > 0 && v[0] == '-';
    let from: usize = if signed { 1 } else { 0 };
    assert(v@.subrange(from as int, v@.len() as int) =~= (if v@.len() > 0 && (v@[0] == '+'
        || v@[0] == '-') {
        v@.drop_first()
    } else {
        v@
    }));
    if from == v.len() {
        return None;
    }
    if !digits_only(v, from, v.len()) {
        return None;
    }
    let limit: u64 = if neg { 2147483648 } else { 2147483647 };
    match digits_upto(v, from, v.len(), limit) {
        Some(m) => {
            if neg {
                if m == 2147483648 {
                    Some(i32::MIN)
                } else {
                    Some(-(m as i32))
                }
            } else {
                Some(m as i32)
            }
        },
        None => None,
    }
}

/// Appends the decimal text of `n`.
pub fn push_dec(s: &mut String, n: u64)
    ensures
        final(s)@ == old(s)@ + dec(n as nat),
{
    let mut buf: Vec<char> = Vec::new();
    let mut q: u64 = n;
    loop
        invariant_except_break
            dec(n as nat) == dec(q as nat) + buf@.reverse(),
        ensures
            dec(n as nat) == buf@.reverse(),
        decreases q,
    {
        let d = ((q % 10) as u32 + '0' as u32) as u8 as char;
        proof {
            assert(d == ((q % 10) as nat + '0' as nat) as char);
            assert(buf@.push(d).reverse() =~= seq![d] + buf@.reverse());
        }
        buf.push(d);
        if q < 10 {
            assert(dec(q as nat) == seq![d]);
            assert(dec(n as nat) =~= buf@.reverse());
            break;
        }
        assert(dec(q as nat) == dec((q / 10) as nat).push(d));
        assert(dec(q as nat) + buf@.drop_last().reverse() =~= dec((q / 10) as nat) + buf@.reverse());
        q = q / 10;
    }
    let mut i: usize = buf.len();
    let ghost total = buf@.reverse();
    while i > 0
        invariant
            i <= buf@.len(),
            dec(n as nat) == total,
            total == buf@.reverse(),
            s@ == old(s)@ + total.take(buf@.len() - i),
        decreases i,
    {
        i = i - 1;
        push_char(s, buf[i]);
        assert(total.take(buf@.len() - i) =~= total.take(buf@.len() - i - 1).push(buf@[i as int]));
    }
    assert(total.take(buf@.len() as int) =~= total);
}

/// Appends the decimal text of `x`, with `-` before a negative value.
pub fn push_dec_i64(s: &mut String, x: i64)
    ensures
        final(s)@ == old(s)@ + dec_int(x as int),
{
    if x < 0 {
        push_char(s, '-');
        let m: u64 = if x == i64::MIN { 9223372036854775808 } else { (-x) as u64 };
        push_dec(s, m);
        assert(s@ =~= old(s)@ + dec_int(x as int));
    } else {
        push_dec(s, x as u64);
    }
}

} // verus!
