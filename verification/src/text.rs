//! Lines, fields and numbers in text.

use vstd::prelude::*;

verus! {

/// The characters of a text.
pub fn chars_of(text: &str) -> (chars: Vec<char>)
    ensures
        chars@ == text@,
{
    let mut chars: Vec<char> = Vec::new();
    for c in it: text.chars()
        invariant
            chars@ == it.seq().take(it.index() as int),
            it.seq() == text@,
    {
        chars.push(c);
    }
    chars
}

/// Whether a character is white space.
pub open spec fn is_space(c: char) -> bool {
    ||| '\u{9}' <= c <= '\u{d}'
    ||| c == '\u{20}'
    ||| c == '\u{85}'
    ||| c == '\u{a0}'
    ||| c == '\u{1680}'
    ||| '\u{2000}' <= c <= '\u{200a}'
    ||| c == '\u{2028}'
    ||| c == '\u{2029}'
    ||| c == '\u{202f}'
    ||| c == '\u{205f}'
    ||| c == '\u{3000}'
}

/// Whether a character is white space.
fn space(c: char) -> (yes: bool)
    ensures
        yes == is_space(c),
{
    ('\u{9}' <= c && c <= '\u{d}') || c == '\u{20}' || c == '\u{85}' || c == '\u{a0}' || c
        == '\u{1680}' || ('\u{2000}' <= c && c <= '\u{200a}') || c == '\u{2028}' || c == '\u{2029}'
        || c == '\u{202f}' || c == '\u{205f}' || c == '\u{3000}'
}

/// Where a character first stands, or the length if it does not.
pub open spec fn find_char(s: Seq<char>, c: char) -> int
    decreases s.len(),
{
    if s.len() == 0 || s[0] == c {
        0
    } else {
        1 + find_char(s.skip(1), c)
    }
}

/// A character does not stand before its first place, and stands there.
pub proof fn lemma_find_char(s: Seq<char>, c: char, k: int)
    requires
        0 <= k <= s.len(),
        forall|i: int| 0 <= i < k ==> s[i] != c,
        k < s.len() ==> s[k] == c,
    ensures
        find_char(s, c) == k,
    decreases k,
{
    if k > 0 {
        assert forall|i: int| 0 <= i < k - 1 implies s.skip(1)[i] != c by {
            assert(s[i + 1] != c);
        }
        lemma_find_char(s.skip(1), c, k - 1);
    }
}

/// Where a character first stands, or the length if it does not.
pub fn find(s: &[char], c: char) -> (k: usize)
    ensures
        k == find_char(s@, c),
        k <= s@.len(),
        forall|i: int| 0 <= i < k ==> s@[i] != c,
        k < s@.len() ==> s@[k as int] == c,
{
    let mut k: usize = 0;
    while k < s.len() && s[k] != c
        invariant
            k <= s@.len(),
            forall|i: int| 0 <= i < k ==> s@[i] != c,
        decreases s@.len() - k,
    {
        k = k + 1;
    }
    proof {
        lemma_find_char(s@, c, k as int);
    }
    k
}

/// A text without the white space before it.
pub open spec fn trim_start(s: Seq<char>) -> Seq<char>
    decreases s.len(),
{
    if s.len() > 0 && is_space(s[0]) {
        trim_start(s.skip(1))
    } else {
        s
    }
}

/// A text without the white space after it.
pub open spec fn trim_end(s: Seq<char>) -> Seq<char>
    decreases s.len(),
{
    if s.len() > 0 && is_space(s.last()) {
        trim_end(s.drop_last())
    } else {
        s
    }
}

/// A text without the white space around it.
pub open spec fn trimmed(s: Seq<char>) -> Seq<char> {
    trim_end(trim_start(s))
}

/// How many characters come before the first white space.
pub open spec fn word_len(s: Seq<char>) -> int
    decreases s.len(),
{
    if s.len() == 0 || is_space(s[0]) {
        0
    } else {
        1 + word_len(s.skip(1))
    }
}

/// The first word of a text, if it has one.
pub open spec fn first_word(s: Seq<char>) -> Option<Seq<char>> {
    let t = trim_start(s);
    if t.len() == 0 {
        None
    } else {
        Some(t.take(word_len(t)))
    }
}

proof fn lemma_word_len(s: Seq<char>, k: int)
    requires
        0 <= k <= s.len(),
        forall|i: int| 0 <= i < k ==> !is_space(#[trigger] s[i]),
        k < s.len() ==> is_space(s[k]),
    ensures
        word_len(s) == k,
    decreases k,
{
    if k > 0 {
        assert(!is_space(s[0]));
        assert forall|i: int| 0 <= i < k - 1 implies !is_space(#[trigger] s.skip(1)[i]) by {
            assert(!is_space(s[i + 1]));
        }
        lemma_word_len(s.skip(1), k - 1);
    }
}

/// A text without the white space before it.
fn skip_space(s: &[char]) -> (t: &[char])
    ensures
        t@ == trim_start(s@),
{
    let mut k: usize = 0;
    assert(s@.skip(0) =~= s@);
    while k < s.len() && space(s[k])
        invariant
            k <= s@.len(),
            trim_start(s@) == trim_start(s@.skip(k as int)),
        decreases s@.len() - k,
    {
        assert(s@.skip(k as int).skip(1) =~= s@.skip(k + 1));
        k = k + 1;
    }
    assert(s@.skip(k as int) =~= s@.subrange(k as int, s@.len() as int));
    vstd::slice::slice_subrange(s, k, s.len())
}

/// A text without the white space around it.
pub fn trim(s: &[char]) -> (t: &[char])
    ensures
        t@ == trimmed(s@),
{
    let t: &[char] = skip_space(s);
    let mut k: usize = t.len();
    assert(t@.take(t@.len() as int) =~= t@);
    while k > 0 && space(t[k - 1])
        invariant
            k <= t@.len(),
            trim_end(t@) == trim_end(t@.take(k as int)),
        decreases k,
    {
        assert(t@.take(k as int).drop_last() =~= t@.take(k - 1));
        k = k - 1;
    }
    assert(t@.take(k as int) =~= t@.subrange(0, k as int));
    vstd::slice::slice_subrange(t, 0, k)
}

/// The first word of a text, if it has one.
pub fn word(s: &[char]) -> (w: Option<&[char]>)
    ensures
        w is Some <==> first_word(s@) is Some,
        w matches Some(w) ==> Some(w@) == first_word(s@),
{
    let t: &[char] = skip_space(s);
    if t.len() == 0 {
        return None;
    }
    let mut k: usize = 0;
    while k < t.len() && !space(t[k])
        invariant
            k <= t@.len(),
            forall|i: int| 0 <= i < k ==> !is_space(#[trigger] t@[i]),
        decreases t@.len() - k,
    {
        k = k + 1;
    }
    proof {
        lemma_word_len(t@, k as int);
        assert(t@.take(k as int) =~= t@.subrange(0, k as int));
    }
    Some(vstd::slice::slice_subrange(t, 0, k))
}

/// Whether a text is one or more decimal digits.
pub open spec fn all_digits(s: Seq<char>) -> bool {
    s.len() > 0 && forall|i: int| 0 <= i < s.len() ==> '0' <= (#[trigger] s[i]) <= '9'
}

/// The number that decimal digits make up.
pub open spec fn digits_value(s: Seq<char>) -> nat
    decreases s.len(),
{
    if s.len() == 0 {
        0
    } else {
        digits_value(s.drop_last()) * 10 + (s.last() as nat - '0' as nat) as nat
    }
}

/// What is left of a number without its plus sign.
pub open spec fn unsigned(s: Seq<char>) -> Seq<char> {
    if s.len() > 0 && s[0] == '+' {
        s.skip(1)
    } else {
        s
    }
}

/// The number that a text writes: digits, with or without a plus sign before them, that make up
/// at most `max`.
pub open spec fn number_of(s: Seq<char>, max: nat) -> Option<nat> {
    let digits = unsigned(s);
    if all_digits(digits) && digits_value(digits) <= max {
        Some(digits_value(digits))
    } else {
        None
    }
}

proof fn lemma_digits_grow(s: Seq<char>, k: int)
    requires
        0 <= k <= s.len(),
        all_digits(s),
    ensures
        digits_value(s.take(k)) <= digits_value(s),
    decreases s.len() - k,
{
    if k < s.len() {
        assert(s.take(k + 1).drop_last() =~= s.take(k));
        assert('0' <= s[k] <= '9');
        lemma_digits_grow(s, k + 1);
    } else {
        assert(s.take(k) =~= s);
    }
}

/// The number that a text writes, if it writes one that is at most `max`.
pub fn parse_number(s: &[char], max: u64) -> (n: Option<u64>)
    ensures
        n is Some <==> number_of(s@, max as nat) is Some,
        n matches Some(n) ==> Some(n as nat) == number_of(s@, max as nat),
{
    let start: usize = if s.len() > 0 && s[0] == '+' {
        1
    } else {
        0
    };
    let digits: &[char] = vstd::slice::slice_subrange(s, start, s.len());
    assert(digits@ =~= unsigned(s@));
    if digits.len() == 0 {
        return None;
    }
    let mut n: u64 = 0;
    for k in 0..digits.len()
        invariant
            n <= max,
            n == digits_value(digits@.take(k as int)),
            digits@ == unsigned(s@),
            digits@.len() > 0,
            forall|i: int| 0 <= i < k ==> '0' <= (#[trigger] digits@[i]) <= '9',
    {
        let c: char = digits[k];
        if c < '0' || c > '9' {
            return None;
        }
        let d: u64 = (c as u32 - '0' as u32) as u64;
        assert(digits@.take(k + 1).drop_last() =~= digits@.take(k as int));
        if n > max / 10 || d > max - n * 10 {
            proof {
                if all_digits(digits@) {
                    lemma_digits_grow(digits@, k + 1);
                }
            }
            return None;
        }
        n = n * 10 + d;
    }
    assert(digits@.take(digits@.len() as int) =~= digits@);
    Some(n)
}

/// A line without the carriage return before its line feed.
pub open spec fn without_return(line: Seq<char>) -> Seq<char> {
    if line.len() > 0 && line.last() == '\r' {
        line.drop_last()
    } else {
        line
    }
}

/// The first line of a text.
pub open spec fn first_line(s: Seq<char>) -> Seq<char> {
    let k = find_char(s, '\n');
    if k < s.len() {
        without_return(s.take(k))
    } else {
        s
    }
}

/// What comes after the first line of a text.
pub open spec fn later_lines(s: Seq<char>) -> Seq<char> {
    let k = find_char(s, '\n');
    if k < s.len() {
        s.skip(k + 1)
    } else {
        Seq::empty()
    }
}

/// The first line of a text, and what comes after it.
pub fn split_line(s: &[char]) -> (parts: (&[char], &[char]))
    requires
        s@.len() > 0,
    ensures
        parts.0@ == first_line(s@),
        parts.1@ == later_lines(s@),
        parts.1@.len() < s@.len(),
{
    let k: usize = find(s, '\n');
    let n: usize = s.len();
    if k < n {
        let end: usize = if k > 0 && s[k - 1] == '\r' {
            k - 1
        } else {
            k
        };
        let line: &[char] = vstd::slice::slice_subrange(s, 0, end);
        let rest: &[char] = vstd::slice::slice_subrange(s, k + 1, n);
        assert(line@ =~= first_line(s@));
        assert(rest@ =~= later_lines(s@));
        (line, rest)
    } else {
        (s, vstd::slice::slice_subrange(s, n, n))
    }
}

/// Whether a text begins with another.
pub open spec fn begins_with(s: Seq<char>, prefix: Seq<char>) -> bool {
    prefix.len() <= s.len() && s.take(prefix.len() as int) == prefix
}

/// Whether a text begins with another.
pub fn starts_with(s: &[char], prefix: &[char]) -> (yes: bool)
    ensures
        yes == begins_with(s@, prefix@),
        yes == prefix@.is_prefix_of(s@),
{
    if prefix.len() > s.len() {
        return false;
    }
    for k in 0..prefix.len()
        invariant
            prefix@.len() <= s@.len(),
            forall|i: int| 0 <= i < k ==> s@[i] == prefix@[i],
    {
        if s[k] != prefix[k] {
            assert(s@.take(prefix@.len() as int)[k as int] != prefix@[k as int]);
            assert(s@.subrange(0, prefix@.len() as int)[k as int] != prefix@[k as int]);
            return false;
        }
    }
    assert(s@.take(prefix@.len() as int) =~= prefix@);
    true
}

/// White space is the tab, the line feed and the three characters after it, the space, the next
/// line, and the wider spaces and separators of Unicode.
pub proof fn law_spaces(c: char)
    ensures
        is_space(c) <==> seq![
            0x9u32,
            0xa,
            0xb,
            0xc,
            0xd,
            0x20,
            0x85,
            0xa0,
            0x1680,
            0x2000,
            0x2001,
            0x2002,
            0x2003,
            0x2004,
            0x2005,
            0x2006,
            0x2007,
            0x2008,
            0x2009,
            0x200a,
            0x2028,
            0x2029,
            0x202f,
            0x205f,
            0x3000,
        ].contains(c as u32),
{
    let listed = seq![
        0x9u32,
        0xa,
        0xb,
        0xc,
        0xd,
        0x20,
        0x85,
        0xa0,
        0x1680,
        0x2000,
        0x2001,
        0x2002,
        0x2003,
        0x2004,
        0x2005,
        0x2006,
        0x2007,
        0x2008,
        0x2009,
        0x200a,
        0x2028,
        0x2029,
        0x202f,
        0x205f,
        0x3000,
    ];
    let n = c as u32;
    if is_space(c) {
        let place: int = if n <= 0xd {
            n - 0x9
        } else if n == 0x20 {
            5
        } else if n == 0x85 {
            6
        } else if n == 0xa0 {
            7
        } else if n == 0x1680 {
            8
        } else if n <= 0x200a {
            9 + (n - 0x2000)
        } else if n == 0x2028 {
            20
        } else if n == 0x2029 {
            21
        } else if n == 0x202f {
            22
        } else if n == 0x205f {
            23
        } else {
            24
        };
        assert(listed[place] == n);
    }
}

proof fn lemma_trim_start(before: Seq<char>, rest: Seq<char>)
    requires
        forall|i: int| 0 <= i < before.len() ==> is_space(#[trigger] before[i]),
        rest.len() > 0 ==> !is_space(rest[0]),
    ensures
        trim_start(before + rest) == rest,
    decreases before.len(),
{
    if before.len() > 0 {
        assert((before + rest)[0] == before[0]);
        assert((before + rest).skip(1) =~= before.skip(1) + rest);
        assert forall|i: int| 0 <= i < before.len() - 1 implies is_space(
            #[trigger] before.skip(1)[i],
        ) by {
            assert(is_space(before[i + 1]));
        }
        lemma_trim_start(before.skip(1), rest);
    } else {
        assert(before + rest =~= rest);
    }
}

proof fn lemma_trim_end(rest: Seq<char>, after: Seq<char>)
    requires
        forall|i: int| 0 <= i < after.len() ==> is_space(#[trigger] after[i]),
        rest.len() > 0 ==> !is_space(rest.last()),
    ensures
        trim_end(rest + after) == rest,
    decreases after.len(),
{
    if after.len() > 0 {
        assert((rest + after).last() == after.last());
        assert((rest + after).drop_last() =~= rest + after.drop_last());
        lemma_trim_end(rest, after.drop_last());
    } else {
        assert(rest + after =~= rest);
    }
}

/// Trimming takes off the white space on both sides, and nothing else.
pub proof fn law_trimmed(before: Seq<char>, middle: Seq<char>, after: Seq<char>)
    requires
        forall|i: int| 0 <= i < before.len() ==> is_space(#[trigger] before[i]),
        forall|i: int| 0 <= i < after.len() ==> is_space(#[trigger] after[i]),
        middle.len() > 0 ==> !is_space(middle[0]) && !is_space(middle.last()),
    ensures
        trimmed(before + middle + after) == middle,
{
    if middle.len() > 0 {
        assert(before + middle + after =~= before + (middle + after));
        lemma_trim_start(before, middle + after);
        lemma_trim_end(middle, after);
    } else {
        let all = before + middle + after;
        assert(all =~= all + Seq::<char>::empty());
        lemma_trim_start(all, Seq::empty());
    }
}

/// The first word is what stands between white space, and a text of white space has none.
pub proof fn law_first_word(before: Seq<char>, w: Seq<char>, after: Seq<char>)
    requires
        forall|i: int| 0 <= i < before.len() ==> is_space(#[trigger] before[i]),
        forall|i: int| 0 <= i < w.len() ==> !is_space(#[trigger] w[i]),
        after.len() > 0 ==> is_space(after[0]),
    ensures
        w.len() > 0 ==> first_word(before + w + after) == Some(w),
        first_word(before) is None,
{
    lemma_trim_start(before, Seq::empty());
    assert(before + Seq::<char>::empty() =~= before);
    if w.len() > 0 {
        let rest = w + after;
        assert(rest[0] == w[0]);
        assert(before + w + after =~= before + rest);
        lemma_trim_start(before, rest);
        assert forall|i: int| 0 <= i < w.len() implies !is_space(#[trigger] rest[i]) by {
            assert(rest[i] == w[i]);
        }
        lemma_word_len(rest, w.len() as int);
        assert(rest.take(w.len() as int) =~= w);
    }
}

proof fn lemma_digits_fold(s: Seq<char>)
    requires
        forall|i: int| 0 <= i < s.len() ==> '0' <= (#[trigger] s[i]) <= '9',
    ensures
        digits_value(s) == s.fold_left(0int, |n: int, c: char| n * 10 + (c as int - '0' as int)),
    decreases s.len(),
{
    if s.len() > 0 {
        assert('0' <= s[s.len() - 1] <= '9');
        lemma_digits_fold(s.drop_last());
    }
}

/// A number is written with digits alone, the first of which may have a plus sign before it.
/// Each digit counts ten times what the one after it counts.
pub proof fn law_number(digits: Seq<char>, max: nat)
    requires
        digits.len() > 0,
        forall|i: int| 0 <= i < digits.len() ==> '0' <= (#[trigger] digits[i]) <= '9',
    ensures
        ({
            let value = digits.fold_left(0int, |n: int, c: char| n * 10 + (c as int - '0' as int));
            &&& value >= 0
            &&& value <= max ==> number_of(digits, max) == Some(value as nat)
            &&& value <= max ==> number_of(seq!['+'] + digits, max) == Some(value as nat)
            &&& value > max ==> number_of(digits, max) is None
            &&& value > max ==> number_of(seq!['+'] + digits, max) is None
        }),
{
    lemma_digits_fold(digits);
    assert('0' <= digits[0] <= '9');
    assert((seq!['+'] + digits).skip(1) =~= digits);
}

/// A text that holds anything but digits, apart from one plus sign before all of them, writes
/// no number, and neither does one without digits.
pub proof fn law_no_number(s: Seq<char>, k: int, max: nat)
    requires
        s.len() == 0 || s == seq!['+'] || (0 <= k < s.len() && !('0' <= s[k] <= '9') && (k > 0
            || s[0] != '+')),
    ensures
        number_of(s, max) is None,
{
    if s.len() > 0 && s[0] == '+' {
        if s.len() > 1 {
            assert(s.skip(1)[k - 1] == s[k]);
        }
    } else if s.len() > 0 {
        assert(unsigned(s)[k] == s[k]);
    }
}

/// A line ends at the first line feed, and a carriage return before that is no part of it. A
/// text without a line feed is one line.
pub proof fn law_lines(line: Seq<char>, end: Seq<char>, rest: Seq<char>)
    requires
        !line.contains('\n'),
        ({
            ||| end == seq!['\n'] && (line.len() > 0 ==> line.last() != '\r')
            ||| end == seq!['\r', '\n']
            ||| end.len() == 0 && rest.len() == 0
        }),
    ensures
        first_line(line + end + rest) == line,
        later_lines(line + end + rest) == rest,
{
    let s = line + end + rest;
    let k: int = if end.len() == 0 {
        line.len() as int
    } else {
        line.len() + end.len() - 1
    };
    assert forall|i: int| 0 <= i < k implies s[i] != '\n' by {
        if i < line.len() {
            assert(line.contains(line[i]));
        }
    }
    lemma_find_char(s, '\n', k);
    if end.len() == 2 {
        assert(s.take(k).last() == '\r');
        assert(s.take(k).drop_last() =~= line);
        assert(s.skip(k + 1) =~= rest);
    } else if end.len() == 1 {
        assert(s.take(k) =~= line);
        assert(s.skip(k + 1) =~= rest);
    } else {
        assert(s =~= line);
        assert(rest =~= Seq::<char>::empty());
    }
}

} // verus!
