//! Numbers as text: reading and writing decimal and hexadecimal.

use vstd::prelude::*;
use vstd::slice::slice_subrange;

verus! {

/// The value of a digit in base 10 or 16, or -1 if `c` is not a digit there.
pub open spec fn digit(c: char, base: int) -> int {
    if '0' <= c <= '9' {
        c as int - '0' as int
    } else if base == 16 && 'a' <= c <= 'f' {
        c as int - 'a' as int + 10
    } else if base == 16 && 'A' <= c <= 'F' {
        c as int - 'A' as int + 10
    } else {
        -1
    }
}

/// Whether every character of `s` is a digit.
pub open spec fn all_digits(s: Seq<char>, base: int) -> bool {
    forall|i: int| 0 <= i < s.len() ==> digit(#[trigger] s[i], base) >= 0
}

/// The number that the digits `s` write, most significant first.
pub open spec fn value(s: Seq<char>, base: int) -> int
    decreases s.len(),
{
    if s.len() == 0 {
        0
    } else {
        value(s.drop_last(), base) * base + digit(s.last(), base)
    }
}

/// Digits never write a negative number, and more digits never a smaller one.
pub proof fn lemma_value_grows(s: Seq<char>, base: int, n: int)
    requires
        base == 10 || base == 16,
        all_digits(s, base),
        0 <= n <= s.len(),
    ensures
        0 <= value(s.take(n), base) <= value(s, base),
    decreases s.len(),
{
    if n == s.len() {
        assert(s.take(n) =~= s);
        if n > 0 {
            assert forall|i: int| 0 <= i < s.drop_last().len() implies digit(#[trigger] s.drop_last()[i], base) >= 0 by {
                assert(s[i] == s.drop_last()[i]);
            }
            lemma_value_grows(s.drop_last(), base, n - 1);
            assert(s.drop_last().take(n - 1) =~= s.drop_last());
            assert(digit(s[n - 1], base) >= 0);
        }
    } else {
        assert forall|i: int| 0 <= i < s.drop_last().len() implies digit(#[trigger] s.drop_last()[i], base) >= 0 by {
            assert(s[i] == s.drop_last()[i]);
        }
        lemma_value_grows(s.drop_last(), base, n);
        assert(s.drop_last().take(n) =~= s.take(n));
        assert(digit(s[s.len() - 1], base) >= 0);
    }
}

/// The value of a digit.
pub fn digit_of(c: char, base: u64) -> (r: Option<u64>)
    requires
        base == 10 || base == 16,
    ensures
        r == (if digit(c, base as int) >= 0 {
            Some(digit(c, base as int) as u64)
        } else {
            None::<u64>
        }),
        digit(c, base as int) < base,
{
    if '0' <= c && c <= '9' {
        Some(c as u64 - 48)
    } else if base == 16 && 'a' <= c && c <= 'f' {
        Some(c as u64 - 87)
    } else if base == 16 && 'A' <= c && c <= 'F' {
        Some(c as u64 - 55)
    } else {
        None
    }
}

/// The number that `s` writes, if it is at least one digit and at most `max`.
pub open spec fn digits_value(s: Seq<char>, base: int, max: int) -> Option<int> {
    if s.len() > 0 && all_digits(s, base) && value(s, base) <= max {
        Some(value(s, base))
    } else {
        None
    }
}

/// The number that `s` writes: at least one digit, after a sign `+` that may be
/// missing, and at most `max`.
pub open spec fn unsigned(s: Seq<char>, base: int, max: int) -> Option<int> {
    if s.len() > 0 && s[0] == '+' {
        digits_value(s.drop_first(), base, max)
    } else {
        digits_value(s, base, max)
    }
}

/// Reads digits.
pub fn read_digits(s: &[char], base: u64, max: u64) -> (r: Option<u64>)
    requires
        base == 10 || base == 16,
    ensures
        match digits_value(s@, base as int, max as int) {
            Some(v) => r == Some(v as u64),
            None => r is None,
        },
        r matches Some(v) ==> v <= max && digits_value(s@, base as int, max as int) == Some(v as int),
{
    if s.len() == 0 {
        return None;
    }
    let mut acc: u64 = 0;
    let mut i: usize = 0;
    while i < s.len()
        invariant
            base == 10 || base == 16,
            i <= s@.len(),
            acc <= max,
            acc == value(s@.take(i as int), base as int),
            forall|j: int| 0 <= j < i ==> digit(#[trigger] s@[j], base as int) >= 0,
        decreases s@.len() - i,
    {
        let d = match digit_of(s[i], base) {
            Some(d) => d,
            None => {
                assert(digit(s@[i as int], base as int) < 0);
                return None;
            },
        };
        assert(0 <= acc * base <= 0xffff_ffff_ffff_ffff * 16) by (nonlinear_arith)
            requires
                acc <= u64::MAX,
                base <= 16,
        ;
        let wide: u128 = acc as u128 * base as u128 + d as u128;
        proof {
            assert(s@.take(i + 1).drop_last() =~= s@.take(i as int));
            assert(s@.take(i + 1).last() == s@[i as int]);
            assert(value(s@.take(i + 1), base as int) == wide);
        }
        if wide > max as u128 {
            proof {
                if all_digits(s@, base as int) {
                    lemma_value_grows(s@, base as int, i + 1);
                }
            }
            return None;
        }
        acc = wide as u64;
        i += 1;
    }
    assert(s@.take(i as int) =~= s@);
    Some(acc)
}

/// Reads an unsigned number whose sign `+` may be written.
pub fn read_unsigned(s: &[char], base: u64, max: u64) -> (r: Option<u64>)
    requires
        base == 10 || base == 16,
    ensures
        match unsigned(s@, base as int, max as int) {
            Some(v) => r == Some(v as u64),
            None => r is None,
        },
        r matches Some(v) ==> v <= max && unsigned(s@, base as int, max as int) == Some(v as int),
{
    if s.len() > 0 && s[0] == '+' {
        assert(s@.subrange(1, s@.len() as int) =~= s@.drop_first());
        read_digits(slice_subrange(s, 1, s.len()), base, max)
    } else {
        read_digits(s, base, max)
    }
}

/// The character for a digit, in lower case.
pub open spec fn digit_char(d: int) -> char {
    if d < 10 {
        ('0' as int + d) as char
    } else {
        ('a' as int + d - 10) as char
    }
}

/// `n` written in base `base`, without leading zeros.
pub open spec fn written(n: int, base: int) -> Seq<char>
    decreases n,
{
    if n < base || base < 2 {
        seq![digit_char(n)]
    } else {
        proof {
            assert(0 <= n / base < n) by (nonlinear_arith)
                requires
                    n >= base >= 2,
            ;
        }
        written(n / base, base).push(digit_char(n % base))
    }
}

/// `n` in decimal.
pub open spec fn decimal(n: int) -> Seq<char> {
    if n < 0 {
        seq!['-'] + written(-n, 10)
    } else {
        written(n, 10)
    }
}

/// The last `width` hexadecimal digits of `n`, leading zeros included.
pub open spec fn hex_padded(n: int, width: nat) -> Seq<char>
    decreases width,
{
    if width == 0 {
        seq![]
    } else {
        hex_padded(n / 16, (width - 1) as nat).push(digit_char(n % 16))
    }
}

/// The character for a digit.
pub fn char_of(d: u64) -> (r: char)
    requires
        d < 16,
    ensures
        r == digit_char(d as int),
{
    if d < 10 {
        (d as u8 + 48) as char
    } else {
        (d as u8 + 87) as char
    }
}

/// Appends `n` in base `base` to a text.
pub fn push_number(out: &mut String, n: u64, base: u64)
    requires
        base == 10 || base == 16,
    ensures
        final(out)@ == old(out)@ + written(n as int, base as int),
    decreases n,
{
    if n < base {
        out.push(char_of(n));
        assert(out@ =~= old(out)@ + written(n as int, base as int));
    } else {
        push_number(out, n / base, base);
        out.push(char_of(n % base));
        assert(out@ =~= old(out)@ + written(n as int, base as int));
    }
}

/// Appends `n` in decimal to a text.
pub fn push_decimal(out: &mut String, n: i64)
    ensures
        final(out)@ == old(out)@ + decimal(n as int),
{
    if n < 0 {
        out.push('-');
        let m: u64 = (-(n as i128)) as u64;
        push_number(out, m, 10);
        assert(out@ =~= old(out)@ + decimal(n as int));
    } else {
        push_number(out, n as u64, 10);
    }
}

/// Appends the last `width` hexadecimal digits of `n` to a text.
pub fn push_hex_padded(out: &mut String, n: u64, width: usize)
    ensures
        final(out)@ == old(out)@ + hex_padded(n as int, width as nat),
    decreases width,
{
    if width == 0 {
        assert(out@ =~= old(out)@ + hex_padded(n as int, 0));
    } else {
        push_hex_padded(out, n / 16, width - 1);
        out.push(char_of(n % 16));
        assert(out@ =~= old(out)@ + hex_padded(n as int, width as nat));
    }
}

/// A number that was written in decimal is read back.
pub proof fn a_written_number_reads_back(n: int, max: int)
    requires
        0 <= n <= max,
    ensures
        unsigned(decimal(n), 10, max) == Some(n),
        all_digits(decimal(n), 10),
        decimal(n).len() > 0,
{
    lemma_written(n);
    assert(digit(decimal(n)[0], 10) >= 0);
}

proof fn lemma_written(n: int)
    requires
        0 <= n,
    ensures
        all_digits(written(n, 10), 10),
        value(written(n, 10), 10) == n,
        written(n, 10).len() > 0,
    decreases n,
{
    let w = written(n, 10);
    assert(value(seq![], 10) == 0);
    if n < 10 {
        assert(w.drop_last() =~= seq![]);
        assert(w.last() == digit_char(n));
    } else {
        lemma_written(n / 10);
        let h = written(n / 10, 10);
        assert(w.drop_last() =~= h);
        assert(w.last() == digit_char(n % 10));
        assert forall|i: int| 0 <= i < w.len() implies digit(#[trigger] w[i], 10) >= 0 by {
            if i < h.len() {
                assert(w[i] == h[i]);
            }
        }
    }
}

} // verus!
