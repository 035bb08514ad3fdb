//! What holds of how texts are taken apart and put together.

use crate::number;
use crate::text;
use crate::text::Class;
use vstd::prelude::*;

verus! {

/// Trimming takes characters of the class off both ends, and nothing else.
pub proof fn trimming_takes_from_the_ends(s: Seq<char>, k: Class)
    ensures
        ({
            let t = text::trim(s, k);
            exists|a: Seq<char>, b: Seq<char>|
                {
                    &&& s == #[trigger] (a + t + b)
                    &&& forall|i: int| 0 <= i < a.len() ==> text::member(k, #[trigger] a[i])
                    &&& forall|i: int| 0 <= i < b.len() ==> text::member(k, #[trigger] b[i])
                }
        }),
        text::trim(s, k).len() > 0 ==> !text::member(k, text::trim(s, k)[0]) && !text::member(
            k,
            text::trim(s, k).last(),
        ),
{
    let u = text::trim_start(s, k);
    let t = text::trim(s, k);
    text::lemma_trim_start(s, k);
    crate::blocklist::lemma_trim_end(u, k);
    let a = s.take(s.len() - u.len());
    let b = u.skip(t.len() as int);
    assert(s =~= a + t + b);
    assert forall|i: int| 0 <= i < a.len() implies text::member(k, #[trigger] a[i]) by {
        assert(a[i] == s[i]);
    }
    assert forall|i: int| 0 <= i < b.len() implies text::member(k, #[trigger] b[i]) by {
        assert(b[i] == u[t.len() + i]);
    }
}

/// The parts that a text is split into hold no separator, and with separators between them
/// they are the text again.
pub proof fn parts_make_up_the_text(s: Seq<char>, c: char)
    ensures
        ({
            let p = text::split(s, Class::Is(c));
            &&& p.len() > 0
            &&& forall|i: int, j: int|
                0 <= i < p.len() && 0 <= j < p[i].len() ==> #[trigger] p[i][j] != c
            &&& text::join(p, seq![c]) == s
        }),
    decreases s.len(),
{
    let k = Class::Is(c);
    let i = text::find(s, k);
    text::lemma_find(s, k);
    let p = text::split(s, k);
    if i < s.len() {
        let rest = s.skip(i + 1);
        let q = text::split(rest, k);
        parts_make_up_the_text(rest, c);
        let head = s.take(i);
        assert(p == seq![head] + q);
        assert forall|x: int, j: int| 0 <= x < p.len() && 0 <= j < p[x].len() implies #[trigger] p[x][j]
            != c by {
            if x == 0 {
                assert(p[0] == head);
                assert(head[j] == s[j]);
                assert(!text::member(k, s[j]));
            } else {
                assert(p[x] == q[x - 1]);
            }
        }
        lemma_join_first(head, q, seq![c]);
        assert(head + seq![c] + rest =~= s);
    } else {
        assert forall|x: int, j: int| 0 <= x < p.len() && 0 <= j < p[x].len() implies #[trigger] p[x][j]
            != c by {
            assert(!text::member(k, s[j]));
        }
    }
}

proof fn lemma_join_first(first: Seq<char>, rest: Seq<Seq<char>>, sep: Seq<char>)
    requires
        rest.len() > 0,
    ensures
        text::join(seq![first] + rest, sep) == first + sep + text::join(rest, sep),
    decreases rest.len(),
{
    let all = seq![first] + rest;
    assert(all.drop_last() =~= seq![first] + rest.drop_last());
    assert(all.last() == rest.last());
    if rest.len() == 1 {
        assert(rest.drop_last() =~= seq![]);
        assert(all.drop_last() =~= seq![first]);
        assert(text::join(seq![first], sep) == first);
        assert(text::join(rest, sep) == rest[0]);
        assert(text::join(all, sep) =~= first + sep + rest[0]);
    } else {
        lemma_join_first(first, rest.drop_last(), sep);
        assert(text::join(all, sep) =~= first + sep + text::join(rest, sep));
    }
}

/// Texts are joined with the separator between each and the next.
pub proof fn texts_are_joined_in_order(parts: Seq<Seq<char>>, part: Seq<char>, sep: Seq<char>)
    ensures
        text::join(seq![], sep).len() == 0,
        text::join(seq![part], sep) == part,
        parts.len() > 0 ==> text::join(parts.push(part), sep) == text::join(parts, sep) + sep + part,
{
    assert(parts.push(part).drop_last() =~= parts);
}

/// A word is what stands between white space: no word holds any, and a text is taken apart
/// wherever there is some.
pub proof fn words_stand_between_white_space(a: Seq<char>, w: char, b: Seq<char>)
    requires
        text::is_white(w),
    ensures
        text::fields(a.push(w) + b) == text::fields(a) + text::fields(b),
        text::fields(seq![]).len() == 0,
        a.len() > 0 && (forall|i: int| 0 <= i < a.len() ==> !text::is_white(#[trigger] a[i]))
            ==> text::fields(a) == seq![a],
        (forall|i: int| 0 <= i < a.len() ==> text::is_white(#[trigger] a[i])) ==> text::fields(
            a,
        ).len() == 0,
    decreases a.len(),
{
    let k = Class::White;
    let all = a.push(w) + b;
    let t = text::trim_start(a, k);
    text::lemma_trim_start(a, k);
    lemma_trimmed_prefix(a, w, b);
    if t.len() == 0 {
        assert(text::fields(a) =~= seq![]);
        lemma_fields_of_trimmed(all);
        lemma_fields_of_trimmed(b);
        assert(text::fields(a) + text::fields(b) =~= text::fields(b));
        if a.len() > 0 {
            assert(text::member(k, a[0]));
        }
    } else {
        let u = t.push(w) + b;
        assert(text::trim_start(all, k) == u);
        let i = text::find(t, k);
        text::lemma_find(t, k);
        assert forall|j: int| 0 <= j < i implies !text::member(k, #[trigger] u[j]) by {
            assert(u[j] == t[j]);
        }
        if i < t.len() {
            assert(u[i] == t[i]);
        } else {
            assert(u[i] == w);
        }
        text::lemma_find_unique(u, k, i);
        let rest = t.skip(i);
        assert(u.take(i) =~= t.take(i));
        assert(u.skip(i) =~= rest.push(w) + b);
        assert(i > 0);
        words_stand_between_white_space(rest, w, b);
        assert(text::fields(all) =~= text::fields(a) + text::fields(b));
        let from = a.len() - t.len();
        assert(a[from] == t[0]);
        assert(!text::is_white(a[from]));
        if forall|x: int| 0 <= x < a.len() ==> !text::is_white(#[trigger] a[x]) {
            if from > 0 {
                assert(text::member(k, a[0]));
            }
            assert(t =~= a);
            assert forall|x: int| 0 <= x < a.len() implies !text::member(k, #[trigger] a[x]) by {}
            text::lemma_find_unique(a, k, a.len() as int);
            assert(a.take(a.len() as int) =~= a);
            assert(rest =~= seq![]);
            assert(text::fields(rest) =~= seq![]);
            assert(text::fields(a) =~= seq![a]);
        }
    }
}

/// White space before a text makes no difference to its words.
proof fn lemma_fields_of_trimmed(s: Seq<char>)
    ensures
        text::fields(s) == text::fields(text::trim_start(s, Class::White)),
{
    let t = text::trim_start(s, Class::White);
    text::lemma_trim_start(s, Class::White);
    assert(text::trim_start(t, Class::White) == t);
}

proof fn lemma_trimmed_prefix(a: Seq<char>, w: char, b: Seq<char>)
    requires
        text::is_white(w),
    ensures
        ({
            let t = text::trim_start(a, Class::White);
            let all = text::trim_start(a.push(w) + b, Class::White);
            if t.len() == 0 {
                all == text::trim_start(b, Class::White)
            } else {
                all == t.push(w) + b
            }
        }),
    decreases a.len(),
{
    let s = a.push(w) + b;
    if a.len() == 0 {
        assert(s[0] == w);
        assert(s.drop_first() =~= b);
    } else {
        assert(s[0] == a[0]);
        if text::is_white(a[0]) {
            assert(s.drop_first() =~= a.drop_first().push(w) + b);
            lemma_trimmed_prefix(a.drop_first(), w, b);
        }
    }
}

/// A line ends at a line feed, which does not belong to it, and neither does a carriage
/// return before it.
pub proof fn lines_end_at_line_feeds(a: Seq<char>, rest: Seq<char>)
    requires
        forall|i: int| 0 <= i < a.len() ==> #[trigger] a[i] != '\n',
    ensures
        text::lines(seq![]).len() == 0,
        a.len() > 0 ==> text::lines(a) == seq![a],
        a.len() == 0 || a.last() != '\r' ==> text::lines(a.push('\n') + rest) == seq![a]
            + text::lines(rest),
        text::lines(a.push('\r').push('\n') + rest) == seq![a] + text::lines(rest),
{
    text::lemma_lines_cons(a, rest);
    let r = a.push('\r');
    assert forall|i: int| 0 <= i < r.len() implies #[trigger] r[i] != '\n' by {
        if i < a.len() {
            assert(r[i] == a[i]);
        }
    }
    text::lemma_lines_cons(r, rest);
    assert(r.drop_last() =~= a);
    assert forall|i: int| 0 <= i < a.len() implies !text::member(Class::Is('\n'), #[trigger] a[i]) by {}
    text::lemma_find_unique(a, Class::Is('\n'), a.len() as int);
}

/// Small letters are put for capital ones, and nothing else changes.
pub proof fn lowering_changes_capital_letters_only(s: Seq<char>, i: int)
    requires
        0 <= i < s.len(),
    ensures
        text::lower(s).len() == s.len(),
        text::upper(s).len() == s.len(),
        !('A' <= s[i] <= 'Z') ==> text::lower(s)[i] == s[i],
        'A' <= s[i] <= 'Z' ==> text::lower(s)[i] as int == s[i] as int + 32,
        !('a' <= s[i] <= 'z') ==> text::upper(s)[i] == s[i],
        'a' <= s[i] <= 'z' ==> text::upper(s)[i] as int == s[i] as int - 32,
{
}

/// A text starts with another if something follows it, and ends with another if something
/// precedes it.
pub proof fn a_text_starts_and_ends(s: Seq<char>, t: Seq<char>)
    ensures
        text::starts_with(t + s, t),
        text::ends_with(s + t, t),
        text::starts_with(s, t) ==> exists|rest: Seq<char>| s == #[trigger] (t + rest),
        text::ends_with(s, t) ==> exists|rest: Seq<char>| s == #[trigger] (rest + t),
{
    assert((t + s).take(t.len() as int) =~= t);
    assert((s + t).skip((s + t).len() - t.len()) =~= t);
    if text::starts_with(s, t) {
        assert(s =~= t + s.skip(t.len() as int));
    }
    if text::ends_with(s, t) {
        assert(s =~= s.take(s.len() - t.len()) + t);
    }
}

/// A number is read digit by digit: each one further is worth the base times less.
pub proof fn a_number_is_read_digit_by_digit(s: Seq<char>, c: char, base: int)
    ensures
        number::value(seq![], base) == 0,
        number::value(s.push(c), base) == number::value(s, base) * base + number::digit(c, base),
        '0' <= c <= '9' ==> number::digit(c, base) == c as int - 48,
        base == 16 && 'a' <= c <= 'f' ==> number::digit(c, base) == c as int - 87,
        base == 16 && 'A' <= c <= 'F' ==> number::digit(c, base) == c as int - 55,
        !('0' <= c <= '9') && base == 10 ==> number::digit(c, base) < 0,
{
    assert(s.push(c).drop_last() =~= s);
}

/// A text is read as a number if and only if it is made of digits, at least one, perhaps
/// after a plus, and the number is not too large.
pub proof fn what_is_read_as_a_number(s: Seq<char>, max: int)
    requires
        s.len() > 0,
        s[0] != '+',
    ensures
        number::unsigned(seq![], 10, max) is None,
        number::unsigned(seq!['+'], 10, max) is None,
        number::unsigned(s, 10, max) == (if (forall|i: int|
            0 <= i < s.len() ==> '0' <= #[trigger] s[i] <= '9') && number::value(s, 10) <= max {
            Some(number::value(s, 10))
        } else {
            None
        }),
        number::unsigned(seq!['+'] + s, 10, max) == number::unsigned(s, 10, max),
{
    let plus = seq!['+'] + s;
    assert(plus.drop_first() =~= s);
    assert(seq!['+'].drop_first() =~= seq![]);
    assert((forall|i: int| 0 <= i < s.len() ==> '0' <= #[trigger] s[i] <= '9')
        <==> number::all_digits(s, 10)) by {
        if number::all_digits(s, 10) {
            assert forall|i: int| 0 <= i < s.len() implies '0' <= #[trigger] s[i] <= '9' by {
                assert(number::digit(s[i], 10) >= 0);
            }
        }
    }
}

/// A number with leading zeros has as many digits as it is given, each worth sixteen times
/// the next.
pub proof fn a_padded_number_has_its_width(n: int, width: nat)
    requires
        n >= 0,
    ensures
        number::hex_padded(n, width).len() == width,
        width > 0 ==> number::hex_padded(n, width).last() == number::digit_char(n % 16),
        width > 0 ==> number::hex_padded(n, width).drop_last() == number::hex_padded(
            n / 16,
            (width - 1) as nat,
        ),
    decreases width,
{
    if width > 0 {
        a_padded_number_has_its_width(n / 16, (width - 1) as nat);
        let rest = number::hex_padded(n / 16, (width - 1) as nat);
        assert(rest.push(number::digit_char(n % 16)).drop_last() =~= rest);
    }
}

/// The digits in which numbers are written.
pub proof fn digits_are_written_in_small_letters(d: int)
    requires
        0 <= d < 16,
    ensures
        d < 10 ==> number::digit_char(d) as int == 48 + d,
        d >= 10 ==> number::digit_char(d) as int == 87 + d,
        number::digit(number::digit_char(d), 16) == d,
{
}

/// A number is written with its last digit last.
pub proof fn a_number_is_written_digit_by_digit(n: int, base: int)
    requires
        n >= 0,
        base == 10 || base == 16,
    ensures
        n < base ==> number::written(n, base) == seq![number::digit_char(n)],
        n >= base ==> number::written(n, base) == number::written(n / base, base).push(
            number::digit_char(n % base),
        ),
        base == 10 ==> number::decimal(n) == number::written(n, 10),
        n > 0 ==> number::decimal(-n) == seq!['-'] + number::written(n, 10),
{
}

} // verus!
