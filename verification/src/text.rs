//! Text as sequences of characters: the small set of string operations that the
//! parsers of this crate are built from, each with an exact meaning.

use vstd::prelude::*;
use vstd::slice::{slice_subrange, slice_to_vec};

verus! {

/// `String::push`: appends one character to the end of the text.
pub assume_specification[ String::push ](s: &mut String, c: char)
    ensures
        final(s)@ == old(s)@.push(c),
;

/// A set of characters that a scan looks for.
#[derive(Clone, Copy)]
pub enum Class {
    /// One given character.
    Is(char),
    /// Unicode white space.
    White,
    /// The characters that start a comment in a domain list: `#` and `!`.
    Comment,
}

/// Unicode's `White_Space` property.
pub open spec fn is_white(c: char) -> bool {
    let u = c as u32;
    ||| 0x09 <= u <= 0x0d
    ||| u == 0x20
    ||| u == 0x85
    ||| u == 0xa0
    ||| u == 0x1680
    ||| 0x2000 <= u <= 0x200a
    ||| u == 0x2028
    ||| u == 0x2029
    ||| u == 0x202f
    ||| u == 0x205f
    ||| u == 0x3000
}

/// Whether `c` belongs to the class `k`.
pub open spec fn member(k: Class, c: char) -> bool {
    match k {
        Class::Is(x) => c == x,
        Class::White => is_white(c),
        Class::Comment => c == '#' || c == '!',
    }
}

/// Tells whether `c` belongs to the class `k`.
pub fn matches_class(k: Class, c: char) -> (r: bool)
    ensures
        r == member(k, c),
{
    match k {
        Class::Is(x) => c == x,
        Class::White => {
            let u: u32 = c as u32;
            (0x09 <= u && u <= 0x0d) || u == 0x20 || u == 0x85 || u == 0xa0 || u == 0x1680 || (
            0x2000 <= u && u <= 0x200a) || u == 0x2028 || u == 0x2029 || u == 0x202f || u == 0x205f
                || u == 0x3000
        },
        Class::Comment => c == '#' || c == '!',
    }
}

/// The index of the first character of class `k`, or the length if there is none.
pub open spec fn find(s: Seq<char>, k: Class) -> int
    decreases s.len(),
{
    if s.len() == 0 || member(k, s[0]) {
        0
    } else {
        1 + find(s.drop_first(), k)
    }
}

/// What characterises `find`: nothing before it is of the class, and it is.
pub proof fn lemma_find(s: Seq<char>, k: Class)
    ensures
        0 <= find(s, k) <= s.len(),
        forall|j: int| 0 <= j < find(s, k) ==> !member(k, #[trigger] s[j]),
        find(s, k) < s.len() ==> member(k, s[find(s, k)]),
    decreases s.len(),
{
    if s.len() == 0 || member(k, s[0]) {
    } else {
        lemma_find(s.drop_first(), k);
        assert forall|j: int| 0 <= j < find(s, k) implies !member(k, #[trigger] s[j]) by {
            if j > 0 {
                assert(s.drop_first()[j - 1] == s[j]);
            }
        }
    }
}

/// An index with the two properties of `find` is `find`.
pub proof fn lemma_find_unique(s: Seq<char>, k: Class, i: int)
    requires
        0 <= i <= s.len(),
        forall|j: int| 0 <= j < i ==> !member(k, #[trigger] s[j]),
        i < s.len() ==> member(k, s[i]),
    ensures
        i == find(s, k),
{
    lemma_find(s, k);
    let f = find(s, k);
    if i < f {
        assert(!member(k, s[i]));
    } else if f < i {
        assert(!member(k, s[f]));
    }
}

/// Finds the first character of class `k` at or after `from`.
pub fn scan(s: &[char], k: Class, from: usize) -> (r: usize)
    requires
        from <= s@.len(),
    ensures
        from <= r <= s@.len(),
        r - from == find(s@.skip(from as int), k),
{
    let mut i: usize = from;
    while i < s.len() && !matches_class(k, s[i])
        invariant
            from <= i <= s@.len(),
            forall|j: int| from <= j < i ==> !member(k, #[trigger] s@[j]),
        decreases s@.len() - i,
    {
        i += 1;
    }
    proof {
        let t = s@.skip(from as int);
        assert forall|j: int| 0 <= j < i - from implies !member(k, #[trigger] t[j]) by {
            assert(t[j] == s@[j + from]);
        }
        lemma_find_unique(t, k, i - from);
    }
    i
}

/// The characters of a text.
pub fn chars_of(s: &str) -> (r: Vec<char>)
    ensures
        r@ == s@,
{
    let mut v: Vec<char> = Vec::new();
    for c in it: s.chars()
        invariant
            v@ == it.seq().take(it.index() as int),
            it.seq() == s@,
    {
        v.push(c);
    }
    v
}

/// A text made of the given characters.
pub fn string_of(s: &[char]) -> (r: String)
    ensures
        r@ == s@,
{
    let mut out = String::new();
    let mut i: usize = 0;
    while i < s.len()
        invariant
            i <= s@.len(),
            out@ == s@.take(i as int),
        decreases s@.len() - i,
    {
        out.push(s[i]);
        i += 1;
    }
    out
}

/// `s` without the characters of class `k` at its start.
pub open spec fn trim_start(s: Seq<char>, k: Class) -> Seq<char>
    decreases s.len(),
{
    if s.len() > 0 && member(k, s[0]) {
        trim_start(s.drop_first(), k)
    } else {
        s
    }
}

/// `s` without the characters of class `k` at its end.
pub open spec fn trim_end(s: Seq<char>, k: Class) -> Seq<char>
    decreases s.len(),
{
    if s.len() > 0 && member(k, s.last()) {
        trim_end(s.drop_last(), k)
    } else {
        s
    }
}

/// `s` without the characters of class `k` at either end.
pub open spec fn trim(s: Seq<char>, k: Class) -> Seq<char> {
    trim_end(trim_start(s, k), k)
}

/// Drops the characters of class `k` at the start.
pub fn strip_start(s: &[char], k: Class) -> (r: &[char])
    ensures
        r@ == trim_start(s@, k),
{
    let mut i: usize = 0;
    assert(s@.skip(0) =~= s@);
    while i < s.len() && matches_class(k, s[i])
        invariant
            i <= s@.len(),
            trim_start(s@.skip(i as int), k) == trim_start(s@, k),
        decreases s@.len() - i,
    {
        assert(s@.skip(i as int).drop_first() =~= s@.skip(i + 1));
        i += 1;
    }
    assert(s@.subrange(i as int, s@.len() as int) =~= s@.skip(i as int));
    slice_subrange(s, i, s.len())
}

/// Drops the characters of class `k` at the end.
pub fn strip_end(s: &[char], k: Class) -> (r: &[char])
    ensures
        r@ == trim_end(s@, k),
{
    let mut n: usize = s.len();
    assert(s@.take(n as int) =~= s@);
    while n > 0 && matches_class(k, s[n - 1])
        invariant
            n <= s@.len(),
            trim_end(s@.take(n as int), k) == trim_end(s@, k),
        decreases n,
    {
        assert(s@.take(n as int).drop_last() =~= s@.take(n - 1));
        n -= 1;
    }
    assert(s@.subrange(0, n as int) =~= s@.take(n as int));
    slice_subrange(s, 0, n)
}

/// Drops the characters of class `k` at both ends.
pub fn strip(s: &[char], k: Class) -> (r: &[char])
    ensures
        r@ == trim(s@, k),
{
    strip_end(strip_start(s, k), k)
}

/// The contents of a list of texts.
pub open spec fn texts(v: Seq<Vec<char>>) -> Seq<Seq<char>> {
    v.map_values(|t: Vec<char>| t@)
}

/// The parts of `s` between the characters of class `k`, empty parts included.
pub open spec fn split(s: Seq<char>, k: Class) -> Seq<Seq<char>>
    decreases s.len(),
    via split_decreases
{
    let i = find(s, k);
    if i < s.len() {
        seq![s.take(i)] + split(s.skip(i + 1), k)
    } else {
        seq![s]
    }
}

#[via_fn]
proof fn split_decreases(s: Seq<char>, k: Class) {
    lemma_find(s, k);
}

/// Splits a text at every character of class `k`.
pub fn parts_of(s: &[char], k: Class) -> (r: Vec<Vec<char>>)
    ensures
        texts(r@) == split(s@, k),
{
    let mut out: Vec<Vec<char>> = Vec::new();
    let mut from: usize = 0;
    assert(s@.skip(0) =~= s@);
    assert(texts(out@) =~= Seq::<Seq<char>>::empty());
    assert(split(s@, k) =~= texts(out@) + split(s@, k));
    loop
        invariant
            from <= s@.len(),
            split(s@, k) == texts(out@) + split(s@.skip(from as int), k),
        decreases s@.len() - from,
    {
        let to: usize = scan(s, k, from);
        let part = slice_subrange(s, from, to);
        let ghost before = out@;
        out.push(slice_to_vec(part));
        proof {
            let rest = s@.skip(from as int);
            assert(part@ =~= rest.take(to - from));
            assert(texts(out@) =~= texts(before).push(part@));
            if to < s@.len() {
                assert(rest.skip(to - from + 1) =~= s@.skip(to + 1));
                assert(split(s@, k) =~= texts(out@) + split(s@.skip(to + 1), k));
            } else {
                assert(part@ =~= rest);
                assert(split(s@, k) =~= texts(out@));
            }
        }
        if to < s.len() {
            from = to + 1;
        } else {
            return out;
        }
    }
}

/// The maximal runs of `s` that are free of white space.
pub open spec fn fields(s: Seq<char>) -> Seq<Seq<char>>
    decreases s.len(),
    via fields_decreases
{
    let t = trim_start(s, Class::White);
    let i = find(t, Class::White);
    if t.len() == 0 {
        seq![]
    } else {
        seq![t.take(i)] + fields(t.skip(i))
    }
}

#[via_fn]
proof fn fields_decreases(s: Seq<char>) {
    let t = trim_start(s, Class::White);
    lemma_trim_start(s, Class::White);
    lemma_find(t, Class::White);
}

/// A text trimmed at its start is a suffix that does not start with the class.
pub proof fn lemma_trim_start(s: Seq<char>, k: Class)
    ensures
        trim_start(s, k).len() <= s.len(),
        trim_start(s, k) == s.skip(s.len() - trim_start(s, k).len()),
        trim_start(s, k).len() > 0 ==> !member(k, trim_start(s, k)[0]),
        forall|i: int| 0 <= i < s.len() - trim_start(s, k).len() ==> member(k, #[trigger] s[i]),
    decreases s.len(),
{
    if s.len() > 0 && member(k, s[0]) {
        lemma_trim_start(s.drop_first(), k);
        let n = trim_start(s, k).len();
        assert(s.drop_first().skip(s.len() - 1 - n) =~= s.skip(s.len() - n));
        assert forall|i: int| 0 <= i < s.len() - n implies member(k, #[trigger] s[i]) by {
            if i > 0 {
                assert(s.drop_first()[i - 1] == s[i]);
            }
        }
    } else {
        assert(s.skip(0) =~= s);
    }
}

/// Splits a text into its fields.
pub fn fields_of(s: &[char]) -> (r: Vec<Vec<char>>)
    ensures
        texts(r@) == fields(s@),
{
    let mut out: Vec<Vec<char>> = Vec::new();
    let mut rest: &[char] = s;
    assert(texts(out@) =~= Seq::<Seq<char>>::empty());
    assert(fields(s@) =~= texts(out@) + fields(s@));
    loop
        invariant
            fields(s@) == texts(out@) + fields(rest@),
        decreases rest@.len(),
    {
        let t = strip_start(rest, Class::White);
        proof {
            lemma_trim_start(rest@, Class::White);
        }
        if t.len() == 0 {
            assert(fields(s@) =~= texts(out@));
            return out;
        }
        let to: usize = scan(t, Class::White, 0);
        assert(t@.skip(0) =~= t@);
        let part = slice_subrange(t, 0, to);
        let ghost before = out@;
        out.push(slice_to_vec(part));
        proof {
            lemma_find(t@, Class::White);
            assert(part@ =~= t@.take(to as int));
            assert(texts(out@) =~= texts(before).push(part@));
            assert(t@.subrange(to as int, t@.len() as int) =~= t@.skip(to as int));
            assert(fields(s@) =~= texts(out@) + fields(t@.skip(to as int)));
        }
        rest = slice_subrange(t, to, t.len());
    }
}

/// `s` without one carriage return at its end.
pub open spec fn without_cr(s: Seq<char>) -> Seq<char> {
    if s.len() > 0 && s.last() == '\r' {
        s.drop_last()
    } else {
        s
    }
}

/// The lines of `s`, each ended by a line feed or by a carriage return and a line
/// feed, which are not part of it; the end of the last line may be missing.
pub open spec fn lines(s: Seq<char>) -> Seq<Seq<char>>
    decreases s.len(),
    via lines_decreases
{
    let i = find(s, Class::Is('\n'));
    if s.len() == 0 {
        seq![]
    } else if i < s.len() {
        seq![without_cr(s.take(i))] + lines(s.skip(i + 1))
    } else {
        seq![s]
    }
}

#[via_fn]
proof fn lines_decreases(s: Seq<char>) {
    lemma_find(s, Class::Is('\n'));
}

/// Splits a text into its lines.
pub fn lines_of(s: &[char]) -> (r: Vec<Vec<char>>)
    ensures
        texts(r@) == lines(s@),
{
    let mut out: Vec<Vec<char>> = Vec::new();
    let mut from: usize = 0;
    assert(s@.skip(0) =~= s@);
    assert(texts(out@) =~= Seq::<Seq<char>>::empty());
    assert(lines(s@) =~= texts(out@) + lines(s@));
    while from < s.len()
        invariant
            from <= s@.len(),
            lines(s@) == texts(out@) + lines(s@.skip(from as int)),
        decreases s@.len() - from,
    {
        let to: usize = scan(s, Class::Is('\n'), from);
        let ghost rest = s@.skip(from as int);
        let ghost before = out@;
        if to < s.len() {
            let end: usize = if to > from && s[to - 1] == '\r' {
                to - 1
            } else {
                to
            };
            let part = slice_subrange(s, from, end);
            out.push(slice_to_vec(part));
            proof {
                assert(part@ =~= without_cr(rest.take(to - from)));
                assert(texts(out@) =~= texts(before).push(part@));
                assert(rest.skip(to - from + 1) =~= s@.skip(to + 1));
                assert(lines(s@) =~= texts(out@) + lines(s@.skip(to + 1)));
            }
            from = to + 1;
        } else {
            let part = slice_subrange(s, from, to);
            out.push(slice_to_vec(part));
            proof {
                assert(part@ =~= rest);
                assert(texts(out@) =~= texts(before).push(part@));
                assert(s@.skip(to as int) =~= Seq::<char>::empty());
                assert(lines(s@) =~= texts(out@) + lines(s@.skip(to as int)));
            }
            from = to;
        }
    }
    proof {
        assert(s@.skip(from as int) =~= Seq::<char>::empty());
        assert(lines(s@) =~= texts(out@));
    }
    out
}

/// The lower case of an ASCII letter; any other character as it is.
pub open spec fn lower_char(c: char) -> char {
    if 'A' <= c <= 'Z' {
        ((c as u32) + 32) as char
    } else {
        c
    }
}

/// `s` with its ASCII letters in lower case.
pub open spec fn lower(s: Seq<char>) -> Seq<char> {
    s.map_values(|c: char| lower_char(c))
}

/// The upper case of an ASCII letter; any other character as it is.
pub open spec fn upper_char(c: char) -> char {
    if 'a' <= c <= 'z' {
        (c as u32 - 32) as char
    } else {
        c
    }
}

/// `s` with its ASCII letters in upper case.
pub open spec fn upper(s: Seq<char>) -> Seq<char> {
    s.map_values(|c: char| upper_char(c))
}

/// Puts the ASCII letters of a text in lower case.
pub fn lowered(s: &[char]) -> (r: Vec<char>)
    ensures
        r@ == lower(s@),
{
    let mut out: Vec<char> = Vec::new();
    let mut i: usize = 0;
    while i < s.len()
        invariant
            i <= s@.len(),
            out@ == lower(s@.take(i as int)),
        decreases s@.len() - i,
    {
        let c = s[i];
        let low = if 'A' <= c && c <= 'Z' {
            (c as u8 + 32) as char
        } else {
            c
        };
        out.push(low);
        i += 1;
        assert(lower(s@.take(i as int)) =~= lower(s@.take(i - 1)).push(lower_char(c)));
    }
    assert(s@.take(i as int) =~= s@);
    out
}

/// The upper case of one character.
pub fn uppered(c: char) -> (r: char)
    ensures
        r == upper_char(c),
{
    if 'a' <= c && c <= 'z' {
        (c as u8 - 32) as char
    } else {
        c
    }
}

/// Tells whether two texts are the same.
pub fn same(a: &[char], b: &[char]) -> (r: bool)
    ensures
        r == (a@ == b@),
{
    if a.len() != b.len() {
        return false;
    }
    let mut i: usize = 0;
    while i < a.len()
        invariant
            i <= a@.len() == b@.len(),
            forall|j: int| 0 <= j < i ==> a@[j] == b@[j],
        decreases a@.len() - i,
    {
        if a[i] != b[i] {
            return false;
        }
        i += 1;
    }
    assert(a@ =~= b@);
    true
}

/// Tells whether a text is the given one.
pub fn is_text(a: &[char], b: &str) -> (r: bool)
    ensures
        r == (a@ == b@),
{
    same(a, chars_of(b).as_slice())
}

/// Whether `s` starts with `p`.
pub open spec fn starts_with(s: Seq<char>, p: Seq<char>) -> bool {
    p.len() <= s.len() && s.take(p.len() as int) == p
}

/// Whether `s` ends with `p`.
pub open spec fn ends_with(s: Seq<char>, p: Seq<char>) -> bool {
    p.len() <= s.len() && s.skip(s.len() - p.len()) == p
}

/// Tells whether a text starts with another.
pub fn has_prefix(s: &[char], p: &str) -> (r: bool)
    ensures
        r == starts_with(s@, p@),
{
    let q = chars_of(p);
    if q.len() > s.len() {
        return false;
    }
    assert(s@.subrange(0, q@.len() as int) =~= s@.take(q@.len() as int));
    same(slice_subrange(s, 0, q.len()), q.as_slice())
}

/// Tells whether a text ends with another.
pub fn has_suffix(s: &[char], p: &str) -> (r: bool)
    ensures
        r == ends_with(s@, p@),
{
    let q = chars_of(p);
    if q.len() > s.len() {
        return false;
    }
    let from: usize = s.len() - q.len();
    assert(s@.subrange(from as int, s@.len() as int) =~= s@.skip(from as int));
    same(slice_subrange(s, from, s.len()), q.as_slice())
}

/// `s` between quotation marks, as `core::fmt::Debug` writes a text.
pub uninterp spec fn quoted(s: Seq<char>) -> Seq<char>;

/// `<str as core::fmt::Debug>::fmt`: the text between quotation marks, with the
/// characters that do not print escaped. It is a function of the text alone; how
/// each character is written is not stated.
#[verifier::external_body]
pub(crate) fn quote(s: &str) -> (r: String)
    ensures
        r@ == quoted(s@),
{
    format!("{s:?}")
}

/// Texts one after the other, with `sep` between them.
pub open spec fn join(parts: Seq<Seq<char>>, sep: Seq<char>) -> Seq<char>
    decreases parts.len(),
{
    if parts.len() == 0 {
        seq![]
    } else if parts.len() == 1 {
        parts[0]
    } else {
        join(parts.drop_last(), sep) + sep + parts.last()
    }
}

/// Puts texts one after the other, with `sep` between them.
pub fn joined(parts: &Vec<String>, sep: &str) -> (r: String)
    ensures
        r@ == join(strings(parts@), sep@),
{
    let ghost p = strings(parts@);
    let mut out = String::new();
    let mut i: usize = 0;
    assert(p.take(0) =~= seq![]);
    assert(out@ =~= join(p.take(0), sep@));
    while i < parts.len()
        invariant
            i <= parts@.len(),
            p == strings(parts@),
            out@ == join(p.take(i as int), sep@),
        decreases parts@.len() - i,
    {
        if i > 0 {
            out.append(sep);
        }
        out.append(parts[i].as_str());
        i += 1;
        proof {
            let now = p.take(i as int);
            assert(now.drop_last() =~= p.take(i - 1));
            assert(now.last() == parts@[i - 1]@);
            assert(out@ =~= join(now, sep@));
        }
    }
    assert(p.take(i as int) =~= p);
    out
}

/// The contents of a list of strings.
pub open spec fn strings(v: Seq<String>) -> Seq<Seq<char>> {
    v.map_values(|t: String| t@)
}

/// A first line, however it ends, and the lines after it.
pub proof fn lemma_lines_cons(a: Seq<char>, rest: Seq<char>)
    requires
        forall|i: int| 0 <= i < a.len() ==> #[trigger] a[i] != '\n',
    ensures
        lines(a.push('\n') + rest) == seq![without_cr(a)] + lines(rest),
{
    let s = a.push('\n') + rest;
    assert forall|j: int| 0 <= j < a.len() implies !member(Class::Is('\n'), #[trigger] s[j]) by {
        assert(s[j] == a[j]);
    }
    lemma_find_unique(s, Class::Is('\n'), a.len() as int);
    assert(s.take(a.len() as int) =~= a);
    assert(s.skip(a.len() as int + 1) =~= rest);
}

/// No line holds a line feed.
pub proof fn lemma_lines_hold_no_feed(s: Seq<char>, k: int, i: int)
    requires
        0 <= k < lines(s).len(),
        0 <= i < lines(s)[k].len(),
    ensures
        lines(s)[k][i] != '\n',
    decreases s.len(),
{
    let f = find(s, Class::Is('\n'));
    lemma_find(s, Class::Is('\n'));
    if f < s.len() {
        if k == 0 {
            assert(lines(s)[0] == without_cr(s.take(f)));
            assert(s.take(f)[i] == s[i]);
        } else {
            assert(lines(s)[k] == lines(s.skip(f + 1))[k - 1]);
            lemma_lines_hold_no_feed(s.skip(f + 1), k - 1, i);
        }
    } else {
        assert(lines(s)[0] == s);
        assert(!member(Class::Is('\n'), s[i]));
    }
}

/// Text after a complete line is made of further lines.
pub proof fn lemma_lines_append(s: Seq<char>, rest: Seq<char>)
    requires
        s.len() == 0 || s.last() == '\n',
    ensures
        lines(s + rest) == lines(s) + lines(rest),
    decreases s.len(),
{
    if s.len() == 0 {
        assert(s + rest =~= rest);
        assert(lines(s) + lines(rest) =~= lines(rest));
    } else {
        let f = find(s, Class::Is('\n'));
        lemma_find(s, Class::Is('\n'));
        assert(member(Class::Is('\n'), s[s.len() - 1]));
        assert(f < s.len());
        let a = s.take(f);
        let tail = s.skip(f + 1);
        assert forall|i: int| 0 <= i < a.len() implies #[trigger] a[i] != '\n' by {
            assert(!member(Class::Is('\n'), s[i]));
        }
        if tail.len() > 0 {
            assert(tail.last() == s.last());
        }
        lemma_lines_append(tail, rest);
        assert(s + rest =~= a.push('\n') + (tail + rest));
        assert(s =~= a.push('\n') + tail);
        lemma_lines_cons(a, tail + rest);
        lemma_lines_cons(a, tail);
        assert(lines(s + rest) =~= lines(s) + lines(rest));
    }
}

/// A line feed at the end of a text completes its last line.
pub proof fn lemma_lines_complete(s: Seq<char>)
    requires
        s.len() > 0,
        s.last() != '\n',
    ensures
        lines(s).len() > 0,
        lines(s).last().len() > 0,
        lines(s).last().last() == s.last(),
        lines(s.push('\n')) == lines(s).drop_last().push(without_cr(lines(s).last())),
    decreases s.len(),
{
    let f = find(s, Class::Is('\n'));
    lemma_find(s, Class::Is('\n'));
    assert(lines(seq![]) =~= seq![]);
    if f >= s.len() {
        assert forall|i: int| 0 <= i < s.len() implies #[trigger] s[i] != '\n' by {
            assert(!member(Class::Is('\n'), s[i]));
        }
        lemma_lines_cons(s, seq![]);
        assert(s.push('\n') + seq![] =~= s.push('\n'));
        assert(lines(s.push('\n')) =~= lines(s).drop_last().push(without_cr(s)));
    } else {
        let a = s.take(f);
        let tail = s.skip(f + 1);
        assert forall|i: int| 0 <= i < a.len() implies #[trigger] a[i] != '\n' by {
            assert(!member(Class::Is('\n'), s[i]));
        }
        assert(tail.len() > 0 && tail.last() == s.last());
        lemma_lines_complete(tail);
        lemma_lines_cons(a, tail.push('\n'));
        assert(s.push('\n') =~= a.push('\n') + tail.push('\n'));
        assert(lines(s) =~= seq![without_cr(a)] + lines(tail));
        assert(lines(s).last() == lines(tail).last());
        assert(lines(s.push('\n')) =~= lines(s).drop_last().push(without_cr(lines(s).last())));
    }
}

/// A carriage return at the end does not survive trimming.
pub proof fn lemma_trim_without_cr(s: Seq<char>)
    ensures
        trim(without_cr(s), Class::White) == trim(s, Class::White),
    decreases s.len(),
{
    if s.len() > 0 && s.last() == '\r' {
        let t = s.drop_last();
        assert(is_white('\r'));
        if member(Class::White, s[0]) {
            if s.len() == 1 {
                assert(t =~= seq![]);
                assert(s.drop_first() =~= seq![]);
            } else {
                assert(s.drop_first().drop_last() =~= t.drop_first());
                assert(s.drop_first().last() == '\r');
                lemma_trim_without_cr(s.drop_first());
                assert(t[0] == s[0]);
            }
        } else {
            assert(t.len() > 0);
            assert(t[0] == s[0]);
            assert(trim_start(s, Class::White) == s);
            assert(trim_start(t, Class::White) == t);
        }
    }
}

/// The first part of a text ends where the separator stands first.
pub proof fn lemma_split_at(a: Seq<char>, c: char, rest: Seq<char>)
    requires
        forall|i: int| 0 <= i < a.len() ==> #[trigger] a[i] != c,
    ensures
        split(a.push(c) + rest, Class::Is(c)) == seq![a] + split(rest, Class::Is(c)),
{
    let s = a.push(c) + rest;
    assert forall|j: int| 0 <= j < a.len() implies !member(Class::Is(c), #[trigger] s[j]) by {
        assert(s[j] == a[j]);
    }
    assert(s[a.len() as int] == c);
    lemma_find_unique(s, Class::Is(c), a.len() as int);
    assert(s.take(a.len() as int) =~= a);
    assert(s.skip(a.len() as int + 1) =~= rest);
}

/// A text without the separator is its only part.
pub proof fn lemma_split_none(a: Seq<char>, c: char)
    requires
        forall|i: int| 0 <= i < a.len() ==> #[trigger] a[i] != c,
    ensures
        split(a, Class::Is(c)) == seq![a],
{
    assert forall|j: int| 0 <= j < a.len() implies !member(Class::Is(c), #[trigger] a[j]) by {}
    lemma_find_unique(a, Class::Is(c), a.len() as int);
}

/// A text that neither starts nor ends with a character of a class is not trimmed.
pub proof fn lemma_trim_none(s: Seq<char>, k: Class)
    requires
        s.len() > 0,
        !member(k, s[0]),
        !member(k, s.last()),
    ensures
        trim(s, k) == s,
{
}

} // verus!
