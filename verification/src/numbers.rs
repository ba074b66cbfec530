//! Decimal integers as text: reading them as `str::parse` does, and writing
//! them as `to_string` does.
use vstd::prelude::*;

verus! {

/// Whether `c` is one of the ASCII digits `0` to `9`.
pub open spec fn is_digit(c: char) -> bool {
    '0' <= c && c <= '9'
}

/// The value of an ASCII digit.
pub open spec fn digit_value(c: char) -> int {
    c as int - '0' as int
}

/// The ASCII digit for `d`, where `d < 10`.
pub open spec fn digit_char(d: nat) -> char {
    (d + '0' as int) as char
}

/// Whether every character of `s` is an ASCII digit.
pub open spec fn all_digits(s: Seq<char>) -> bool {
    forall|i: int| 0 <= i < s.len() ==> is_digit(#[trigger] s[i])
}

/// The value of a run of ASCII digits, most significant first.
pub open spec fn digits_value(s: Seq<char>) -> nat
    decreases s.len(),
{
    if s.len() == 0 {
        0
    } else {
        (digits_value(s.drop_last()) * 10 + digit_value(s.last())) as nat
    }
}

/// What `str::parse::<isize>` gives for `s`: an optional sign, `+` or `-`,
/// then at least one ASCII digit, and a value that fits in `isize`.
pub open spec fn spec_parse_isize(s: Seq<char>) -> Option<isize> {
    if s.len() == 0 {
        None
    } else {
        let neg = s[0] == '-';
        let d = if s[0] == '+' || s[0] == '-' { s.drop_first() } else { s };
        let v: int = if neg { -digits_value(d) } else { digits_value(d) as int };
        if d.len() == 0 || !all_digits(d) || v < isize::MIN || v > isize::MAX {
            None
        } else {
            Some(v as isize)
        }
    }
}

/// What `str::parse::<usize>` gives for `s`: an optional `+`, then at least
/// one ASCII digit, and a value that fits in `usize`.
pub open spec fn spec_parse_usize(s: Seq<char>) -> Option<usize> {
    if s.len() == 0 {
        None
    } else {
        let d = if s[0] == '+' { s.drop_first() } else { s };
        if d.len() == 0 || !all_digits(d) || digits_value(d) > usize::MAX {
            None
        } else {
            Some(digits_value(d) as usize)
        }
    }
}

/// The decimal digits of `n`, without leading zeros (`0` is written `0`).
pub open spec fn decimal_digits(n: nat) -> Seq<char>
    decreases n,
{
    if n < 10 {
        seq![digit_char(n)]
    } else {
        decimal_digits(n / 10).push(digit_char(n % 10))
    }
}

/// The text that `to_string` gives for an integer: a `-` for a negative
/// value, then the decimal digits of its magnitude.
pub open spec fn int_text(x: int) -> Seq<char> {
    if x < 0 {
        seq!['-'] + decimal_digits((-x) as nat)
    } else {
        decimal_digits(x as nat)
    }
}

/// The value of a run of digits is at least the value of any prefix of it.
proof fn lemma_digits_value_monotone(s: Seq<char>, k: int)
    requires
        0 <= k <= s.len(),
        all_digits(s),
    ensures
        digits_value(s.take(k)) <= digits_value(s),
    decreases s.len() - k,
{
    if k < s.len() {
        lemma_digits_value_monotone(s, k + 1);
        assert(s.take(k + 1).drop_last() =~= s.take(k));
        assert(s.take(k + 1).last() == s[k]);
    } else {
        assert(s.take(k) =~= s);
    }
}

/// The decimal digits of `n` are a non-empty run of digits whose value is `n`.
proof fn lemma_decimal_digits(n: nat)
    ensures
        decimal_digits(n).len() > 0,
        all_digits(decimal_digits(n)),
        digits_value(decimal_digits(n)) == n,
    decreases n,
{
    if n < 10 {
        assert(digit_value(digit_char(n)) == n);
        assert(decimal_digits(n).drop_last() =~= Seq::<char>::empty());
        assert(digits_value(Seq::<char>::empty()) == 0);
        assert(digits_value(decimal_digits(n)) == n);
    } else {
        lemma_decimal_digits(n / 10);
        let d = decimal_digits(n);
        assert(d.drop_last() =~= decimal_digits(n / 10));
        assert(digit_value(digit_char((n % 10) as nat)) == n % 10);
        assert(d.last() == digit_char((n % 10) as nat));
        assert(n == (n / 10) * 10 + n % 10);
        assert(digits_value(d) == digits_value(d.drop_last()) * 10 + digit_value(d.last()));
        assert(digits_value(d) == n);
        assert forall|i: int| 0 <= i < d.len() implies is_digit(#[trigger] d[i]) by {
            if i < d.len() - 1 {
                assert(d[i] == decimal_digits(n / 10)[i]);
            }
        }
    }
}

/// Reading back what was written: for every `isize`, `str::parse::<isize>`
/// of the text that `to_string` gives for it yields the same value.
pub proof fn lemma_parse_isize_of_text(x: isize)
    ensures
        spec_parse_isize(int_text(x as int)) == Some(x),
{
    if x < 0 {
        let m = (-x) as nat;
        lemma_decimal_digits(m);
        let s = int_text(x as int);
        assert(s.drop_first() =~= decimal_digits(m));
        assert(s[0] == '-');
    } else {
        lemma_decimal_digits(x as nat);
        let d = decimal_digits(x as nat);
        assert(is_digit(d[0]));
    }
}

/// Reads `s[first..end]` as the magnitude of a number: `Some` of its value
/// when it is a run of ASCII digits whose value is at most `limit`.
fn parse_magnitude(s: &Vec<char>, first: usize, end: usize, limit: u128) -> (r: Option<u128>)
    requires
        first <= end <= s.len(),
        limit <= 0x1_0000_0000_0000_0000u128,
    ensures
        ({
            let d = s@.subrange(first as int, end as int);
            r == if all_digits(d) && digits_value(d) <= limit {
                Some(digits_value(d) as u128)
            } else {
                None::<u128>
            }
        }),
{
    let ghost d = s@.subrange(first as int, end as int);
    let mut acc: u128 = 0;
    let mut i = first;
    while i < end
        invariant
            first <= i <= end <= s.len(),
            d == s@.subrange(first as int, end as int),
            limit <= 0x1_0000_0000_0000_0000u128,
            all_digits(d.take(i - first)),
            acc == digits_value(d.take(i - first)),
            acc <= limit,
        decreases end - i,
    {
        let c = s[i];
        if !('0' <= c && c <= '9') {
            assert(d[i - first] == c);
            assert(!is_digit(d[i - first]));
            return None;
        }
        let dv = (c as u32 - '0' as u32) as u128;
        acc = acc * 10 + dv;
        i = i + 1;
        proof {
            let p = d.take(i - first);
            assert(p.drop_last() =~= d.take(i - 1 - first));
            assert(p.last() == c);
            assert forall|j: int| 0 <= j < p.len() implies is_digit(#[trigger] p[j]) by {
                if j < p.len() - 1 {
                    assert(p[j] == d.take(i - 1 - first)[j]);
                }
            }
        }
        if acc > limit {
            proof {
                if all_digits(d) {
                    lemma_digits_value_monotone(d, i - first);
                }
            }
            return None;
        }
    }
    assert(d.take(i - first) =~= d);
    Some(acc)
}

/// Reads `s[start..end]` as `str::parse::<isize>` does.
pub fn parse_isize(s: &Vec<char>, start: usize, end: usize) -> (r: Option<isize>)
    requires
        start <= end <= s.len(),
    ensures
        r == spec_parse_isize(s@.subrange(start as int, end as int)),
{
    let ghost t = s@.subrange(start as int, end as int);
    if start == end {
        return None;
    }
    let neg = s[start] == '-';
    let first = if s[start] == '+' || s[start] == '-' { start + 1 } else { start };
    assert(s@.subrange(first as int, end as int) =~= (if t[0] == '+' || t[0] == '-' {
        t.drop_first()
    } else {
        t
    }));
    if first == end {
        return None;
    }
    // The largest magnitude that `isize` can hold with this sign.
    let limit: u128 = if neg { (isize::MAX as u128) + 1 } else { isize::MAX as u128 };
    match parse_magnitude(s, first, end, limit) {
        None => None,
        Some(m) => {
            if neg {
                Some((0 - m as i128) as isize)
            } else {
                Some(m as isize)
            }
        },
    }
}

/// Reads `s[start..end]` as `str::parse::<usize>` does.
pub fn parse_usize(s: &Vec<char>, start: usize, end: usize) -> (r: Option<usize>)
    requires
        start <= end <= s.len(),
    ensures
        r == spec_parse_usize(s@.subrange(start as int, end as int)),
{
    let ghost t = s@.subrange(start as int, end as int);
    if start == end {
        return None;
    }
    let first = if s[start] == '+' { start + 1 } else { start };
    assert(s@.subrange(first as int, end as int) =~= (if t[0] == '+' {
        t.drop_first()
    } else {
        t
    }));
    if first == end {
        return None;
    }
    match parse_magnitude(s, first, end, usize::MAX as u128) {
        None => None,
        Some(m) => Some(m as usize),
    }
}

/// The one-character text of the digit `d`.
fn digit_str(d: u128) -> (r: &'static str)
    requires
        d < 10,
    ensures
        r@ == seq![digit_char(d as nat)],
{
    proof {
        reveal_strlit("0");
        reveal_strlit("1");
        reveal_strlit("2");
        reveal_strlit("3");
        reveal_strlit("4");
        reveal_strlit("5");
        reveal_strlit("6");
        reveal_strlit("7");
        reveal_strlit("8");
        reveal_strlit("9");
    }
    if d == 0 {
        "0"
    } else if d == 1 {
        "1"
    } else if d == 2 {
        "2"
    } else if d == 3 {
        "3"
    } else if d == 4 {
        "4"
    } else if d == 5 {
        "5"
    } else if d == 6 {
        "6"
    } else if d == 7 {
        "7"
    } else if d == 8 {
        "8"
    } else {
        "9"
    }
}

/// Appends the decimal digits of `n` to `out`.
fn append_decimal(out: &mut String, n: u128)
    ensures
        final(out)@ == old(out)@ + decimal_digits(n as nat),
    decreases n,
{
    if n >= 10 {
        append_decimal(out, n / 10);
    }
    out.append(digit_str(n % 10));
    assert(decimal_digits(n as nat) =~= if n < 10 {
        seq![digit_char(n as nat)]
    } else {
        decimal_digits((n / 10) as nat).push(digit_char((n % 10) as nat))
    });
}

/// Appends to `out` the text that `to_string` gives for `x`.
pub fn append_isize(out: &mut String, x: isize)
    ensures
        final(out)@ == old(out)@ + int_text(x as int),
{
    proof {
        reveal_strlit("-");
    }
    if x < 0 {
        out.append("-");
        append_decimal(out, (0 - x as i128) as u128);
    } else {
        append_decimal(out, x as u128);
    }
}

} // verus!

verus! {

/// The text of an integer is not empty; it starts with `-` or a digit, and
/// every character after the first is a digit.
pub proof fn lemma_int_text_shape(x: int)
    ensures
        int_text(x).len() > 0,
        int_text(x)[0] == '-' || is_digit(int_text(x)[0]),
        forall|j: int| 1 <= j < int_text(x).len() ==> is_digit(#[trigger] int_text(x)[j]),
{
    if x < 0 {
        let m = (-x) as nat;
        lemma_decimal_digits(m);
        let s = int_text(x);
        assert forall|j: int| 1 <= j < s.len() implies is_digit(#[trigger] s[j]) by {
            assert(s[j] == decimal_digits(m)[j - 1]);
        }
    } else {
        lemma_decimal_digits(x as nat);
    }
}

} // verus!

verus! {

/// The decimal digits of a number start with `0` only where the number is
/// zero, written as that one digit.
proof fn lemma_decimal_digits_first(n: nat)
    ensures
        decimal_digits(n).len() > 0,
        decimal_digits(n)[0] == '0' ==> n == 0 && decimal_digits(n).len() == 1,
    decreases n,
{
    if n >= 10 {
        lemma_decimal_digits_first(n / 10);
        assert(decimal_digits(n)[0] == decimal_digits(n / 10)[0]);
    } else {
        assert(digit_value(digit_char(n)) == n);
    }
}

/// The text of an integer starts with `0` only where it is the text `0`.
pub proof fn lemma_int_text_first(x: int)
    ensures
        int_text(x)[0] == '0' ==> int_text(x).len() == 1,
{
    if x >= 0 {
        lemma_decimal_digits_first(x as nat);
    }
}

} // verus!
