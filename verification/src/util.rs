//! Text helpers shared by the formats of the crate.

use vstd::prelude::*;

verus! {

/// The characters of bytes taken one for one (meant for ASCII text).
pub open spec fn ascii_chars(bytes: Seq<u8>) -> Seq<char> {
    bytes.map_values(|b: u8| b as char)
}

/// Every byte is an ASCII code.
pub open spec fn is_ascii_bytes(bytes: Seq<u8>) -> bool {
    forall|i: int| 0 <= i < bytes.len() ==> #[trigger] bytes[i] < 0x80
}

/// `String::push`: appends one character to the string.
#[verifier::external_body]
pub(crate) fn push_char(s: &mut String, c: char)
    ensures
        final(s)@ == old(s)@.push(c),
{
    s.push(c)
}

/// The string whose characters are the given bytes, one for one.
pub fn ascii_string(bytes: &[u8]) -> (s: String)
    ensures
        s@ == ascii_chars(bytes@),
{
    let mut s = String::new();
    let mut i: usize = 0;
    while i < bytes.len()
        invariant
            0 <= i <= bytes@.len(),
            s@ == ascii_chars(bytes@.take(i as int)),
        decreases bytes@.len() - i,
    {
        push_char(&mut s, bytes[i] as char);
        i = i + 1;
        assert(ascii_chars(bytes@.take(i as int)) =~= ascii_chars(bytes@.take((i - 1) as int)).push(
            bytes@[i - 1] as char,
        ));
    }
    assert(bytes@.take(bytes@.len() as int) =~= bytes@);
    s
}

/// Copies `src` into `buf` at `pos`; returns where the copy ends.
pub(crate) fn copy_at(buf: &mut [u8], pos: usize, src: &[u8]) -> (end: usize)
    requires
        pos + src@.len() <= old(buf)@.len(),
    ensures
        end == pos + src@.len(),
        final(buf)@ == old(buf)@.take(pos as int) + src@ + old(buf)@.skip(end as int),
{
    let ghost start = buf@;
    // a slice's length is a `usize`, so the indexes below do not overflow
    let total = buf.len();
    assert(total == start.len());
    let mut i: usize = 0;
    while i < src.len()
        invariant
            0 <= i <= src@.len(),
            pos + src@.len() <= start.len(),
            start.len() == buf@.len(),
            start.len() <= usize::MAX,
            buf@ == start.take(pos as int) + src@.take(i as int) + start.skip(pos + i),
        decreases src@.len() - i,
    {
        buf[pos + i] = src[i];
        i = i + 1;
        assert(buf@ =~= start.take(pos as int) + src@.take(i as int) + start.skip(pos + i));
    }
    assert(src@.take(src@.len() as int) =~= src@);
    pos + src.len()
}

/// The characters of a string, in a vector.
pub fn chars_of(s: &str) -> (v: Vec<char>)
    ensures
        v@ == s@,
{
    broadcast use vstd::string::group_string_axioms;

    let mut v: Vec<char> = Vec::new();
    for c in it: s.chars()
        invariant
            it.seq() == s@,
            v@ == it.seq().take(it.index()),
    {
        v.push(c);
        assert(v@ =~= it.seq().take(it.index() + 1));
    }
    assert(v@ =~= s@);
    v
}

/// The string with the given characters.
pub fn string_of(chars: &[char]) -> (s: String)
    ensures
        s@ == chars@,
{
    let mut s = String::new();
    let mut i: usize = 0;
    while i < chars.len()
        invariant
            0 <= i <= chars@.len(),
            s@ == chars@.take(i as int),
        decreases chars@.len() - i,
    {
        push_char(&mut s, chars[i]);
        i = i + 1;
        assert(s@ =~= chars@.take(i as int));
    }
    assert(chars@.take(chars@.len() as int) =~= chars@);
    s
}

/// The first position at or after `from` where `pat` occurs in `s`.
pub open spec fn find(s: Seq<char>, pat: Seq<char>, from: int) -> Option<int>
    decreases s.len() + 1 - from,
{
    if from < 0 || from + pat.len() > s.len() {
        None
    } else if s.subrange(from, from + pat.len()) == pat {
        Some(from)
    } else {
        find(s, pat, from + 1)
    }
}

/// Where `find` finds a match, the match is there, and there is none before.
pub proof fn lemma_find(s: Seq<char>, pat: Seq<char>, from: int)
    ensures
        match find(s, pat, from) {
            Some(i) => from <= i && i + pat.len() <= s.len() && s.subrange(i, i + pat.len()) == pat
                && forall|j: int| from <= j < i ==> #[trigger] s.subrange(j, j + pat.len()) != pat,
            None => from >= 0 ==> forall|j: int|
                from <= j && j + pat.len() <= s.len() ==> #[trigger] s.subrange(j, j + pat.len()) != pat,
        },
    decreases s.len() + 1 - from,
{
    if from < 0 || from + pat.len() > s.len() {
    } else if s.subrange(from, from + pat.len()) == pat {
    } else {
        lemma_find(s, pat, from + 1);
    }
}

/// A match with no match before it is the one `find` finds.
pub proof fn lemma_find_first(s: Seq<char>, pat: Seq<char>, from: int, at: int)
    requires
        0 <= from <= at,
        at + pat.len() <= s.len(),
        s.subrange(at, at + pat.len()) == pat,
        forall|j: int| from <= j < at ==> #[trigger] s.subrange(j, j + pat.len()) != pat,
    ensures
        find(s, pat, from) == Some(at),
    decreases at - from,
{
    if from < at {
        assert(s.subrange(from, from + pat.len()) != pat);
        lemma_find_first(s, pat, from + 1, at);
    }
}

/// Whether `pat` occurs in `s` at `at`, which leaves room for it.
fn matches_at(s: &[char], pat: &[char], at: usize) -> (m: bool)
    requires
        at + pat@.len() <= s@.len(),
    ensures
        m == (s@.subrange(at as int, at + pat@.len()) == pat@),
{
    let total = s.len();
    let mut k: usize = 0;
    while k < pat.len()
        invariant
            0 <= k <= pat@.len(),
            at + pat@.len() <= s@.len(),
            total == s@.len(),
            forall|j: int| 0 <= j < k ==> s@[at + j] == pat@[j],
        decreases pat@.len() - k,
    {
        if s[at + k] != pat[k] {
            assert(s@.subrange(at as int, at + pat@.len())[k as int] != pat@[k as int]);
            return false;
        }
        k = k + 1;
    }
    assert(s@.subrange(at as int, at + pat@.len()) =~= pat@);
    true
}

/// Searches `s` for `pat` from `from` on.
pub fn find_at(s: &[char], pat: &[char], from: usize) -> (r: Option<usize>)
    ensures
        r is None <==> find(s@, pat@, from as int) is None,
        r matches Some(k) ==> find(s@, pat@, from as int) == Some(k as int),
{
    proof {
        lemma_find(s@, pat@, from as int);
    }
    if pat.len() > s.len() || from > s.len() - pat.len() {
        return None;
    }
    let last = s.len() - pat.len();
    let mut i = from;
    while i <= last
        invariant
            from <= i,
            last + pat@.len() == s@.len(),
            find(s@, pat@, i as int) == find(s@, pat@, from as int),
        decreases last + 1 - i,
    {
        if matches_at(s, pat, i) {
            return Some(i);
        }
        if i == last {
            assert(find(s@, pat@, i + 1) is None);
            return None;
        }
        i = i + 1;
    }
    None
}

/// The ASCII character of a decimal digit.
pub open spec fn digit_char(d: int) -> char {
    ((0x30 + d) as u8) as char
}

/// A natural number in decimal, without leading zeros.
pub open spec fn decimal_text(n: nat) -> Seq<char>
    decreases n,
{
    if n < 10 {
        seq![digit_char(n as int)]
    } else {
        decimal_text(n / 10).push(digit_char((n % 10) as int))
    }
}

/// A number in decimal has only ASCII digits, at least one.
pub proof fn lemma_decimal_text_digits(n: nat)
    ensures
        decimal_text(n).len() >= 1,
        forall|i: int|
            0 <= i < decimal_text(n).len() ==> 0x30 <= #[trigger] (decimal_text(n)[i] as u32) <= 0x39,
    decreases n,
{
    if n >= 10 {
        lemma_decimal_text_digits(n / 10);
    }
}

/// A number in decimal.
pub fn decimal_string(n: usize) -> (s: String)
    ensures
        s@ == decimal_text(n as nat),
    decreases n,
{
    if n < 10 {
        let mut s = String::new();
        push_char(&mut s, (0x30 + n as u8) as char);
        s
    } else {
        let mut s = decimal_string(n / 10);
        push_char(&mut s, (0x30 + (n % 10) as u8) as char);
        s
    }
}

/// The strings one after another.
pub open spec fn concat(parts: Seq<Seq<char>>) -> Seq<char>
    decreases parts.len(),
{
    if parts.len() == 0 {
        Seq::empty()
    } else {
        concat(parts.drop_last()) + parts.last()
    }
}

/// The views of the strings.
pub open spec fn str_views(parts: Seq<&str>) -> Seq<Seq<char>> {
    parts.map_values(|p: &str| p@)
}

/// Concatenates the strings.
pub fn cat(parts: &[&str]) -> (s: String)
    ensures
        s@ == concat(str_views(parts@)),
{
    let mut s = String::new();
    let mut i: usize = 0;
    while i < parts.len()
        invariant
            0 <= i <= parts@.len(),
            s@ == concat(str_views(parts@.take(i as int))),
        decreases parts@.len() - i,
    {
        s.append(parts[i]);
        i = i + 1;
        assert(str_views(parts@.take(i as int)).drop_last() =~= str_views(parts@.take((i - 1) as int)));
    }
    assert(parts@.take(parts@.len() as int) =~= parts@);
    s
}

} // verus!
