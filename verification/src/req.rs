//! A minimal HTTP/1.0 client's messages: the requests it sends and the
//! responses it reads back. The connection itself is made by the caller.

use vstd::prelude::*;
use vstd::utf8::{decode_utf8, encode_utf8, valid_utf8};

use crate::util::{
    chars_of, decimal_string, decimal_text, find, find_at, lemma_decimal_text_digits, lemma_find,
    lemma_find_first, string_of,
};

verus! {

/// A response: its status code and its body.
#[derive(Debug)]
pub struct Response {
    pub status: u16,
    pub body: String,
}

/// The views of header names and values.
pub open spec fn header_views(headers: Seq<(&str, &str)>) -> Seq<(Seq<char>, Seq<char>)> {
    headers.map_values(|h: (&str, &str)| (h.0@, h.1@))
}

/// One `Name: value` line per header, in order.
pub open spec fn header_lines(headers: Seq<(Seq<char>, Seq<char>)>) -> Seq<char>
    decreases headers.len(),
{
    if headers.len() == 0 {
        Seq::empty()
    } else {
        header_lines(headers.drop_last()) + headers.last().0 + ": "@ + headers.last().1 + "\r\n"@
    }
}

/// Each header gives its own line, `name: value` and a line break, and the
/// lines of several headers follow one another in their order.
pub proof fn lemma_header_lines(
    name: Seq<char>,
    value: Seq<char>,
    first: Seq<(Seq<char>, Seq<char>)>,
    second: Seq<(Seq<char>, Seq<char>)>,
)
    ensures
        header_lines(seq![(name, value)]) == name + ": "@ + value + "\r\n"@,
        header_lines(first + second) == header_lines(first) + header_lines(second),
    decreases second.len(),
{
    let one = seq![(name, value)];
    let none = Seq::<(Seq<char>, Seq<char>)>::empty();
    assert(one.drop_last() =~= none);
    assert(header_lines(none) == Seq::<char>::empty());
    assert(one.last() == (name, value));
    assert(header_lines(one) == header_lines(none) + name + ": "@ + value + "\r\n"@);
    assert(header_lines(one) =~= name + ": "@ + value + "\r\n"@);
    if second.len() == 0 {
        assert(first + second =~= first);
        assert(header_lines(second) =~= Seq::<char>::empty());
        assert(header_lines(first) + header_lines(second) =~= header_lines(first));
    } else {
        lemma_header_lines(name, value, first, second.drop_last());
        assert((first + second).drop_last() =~= first + second.drop_last());
        assert((first + second).last() == second.last());
        assert(header_lines(first + second) =~= header_lines(first) + header_lines(second));
    }
}

/// The number of bytes of a body, as the length of its UTF-8 encoding.
pub open spec fn content_length(body: Seq<char>) -> nat {
    (encode_utf8(body).len() as usize) as nat
}

/// The request message: the request line, the `Host` header, the given
/// headers, a `Content-Length` header when there is a body, an empty line
/// and the body.
pub open spec fn request_text(
    method: Seq<char>,
    host: Seq<char>,
    path: Seq<char>,
    headers: Seq<(Seq<char>, Seq<char>)>,
    body: Option<Seq<char>>,
) -> Seq<char> {
    let head = method + " "@ + path + " HTTP/1.0\r\nHost: "@ + host + "\r\n"@ + header_lines(
        headers,
    );
    match body {
        Some(b) => head + "Content-Length: "@ + decimal_text(content_length(b)) + "\r\n"@
            + "\r\n"@ + b,
        None => head + "\r\n"@,
    }
}

/// The request message for `method`; `body`, when given, follows the headers.
pub fn request(
    method: &str,
    host: &str,
    path: &str,
    headers: &[(&str, &str)],
    body: Option<&str>,
) -> (req: String)
    ensures
        req@ == request_text(
            method@,
            host@,
            path@,
            header_views(headers@),
            match body {
                Some(b) => Some(b@),
                None => None,
            },
        ),
{
    let mut req = String::new();
    req.append(method);
    req.append(" ");
    req.append(path);
    req.append(" HTTP/1.0\r\nHost: ");
    req.append(host);
    req.append("\r\n");
    let ghost start = req@;
    let mut i: usize = 0;
    while i < headers.len()
        invariant
            0 <= i <= headers@.len(),
            req@ == start + header_lines(header_views(headers@.take(i as int))),
        decreases headers@.len() - i,
    {
        let (k, v) = headers[i];
        req.append(k);
        req.append(": ");
        req.append(v);
        req.append("\r\n");
        i = i + 1;
        assert(header_views(headers@.take(i as int)).drop_last() =~= header_views(
            headers@.take((i - 1) as int),
        ));
    }
    assert(headers@.take(headers@.len() as int) =~= headers@);
    match body {
        Some(b) => {
            req.append("Content-Length: ");
            let n = decimal_string(b.len());
            req.append(n.as_str());
            req.append("\r\n");
            req.append("\r\n");
            req.append(b);
        },
        None => {
            req.append("\r\n");
        },
    }
    req
}

/// The GET request message for `path` at `host`.
pub fn get(host: &str, path: &str, headers: &[(&str, &str)]) -> (req: String)
    ensures
        req@ == request_text("GET"@, host@, path@, header_views(headers@), None),
{
    request("GET", host, path, headers, None)
}

/// The PUT request message for `path` at `host` with the given body.
pub fn put(host: &str, path: &str, headers: &[(&str, &str)], body: &str) -> (req: String)
    ensures
        req@ == request_text("PUT"@, host@, path@, header_views(headers@), Some(body@)),
{
    request("PUT", host, path, headers, Some(body))
}

/// The POST request message for `path` at `host` with the given body.
pub fn post(host: &str, path: &str, headers: &[(&str, &str)], body: &str) -> (req: String)
    ensures
        req@ == request_text("POST"@, host@, path@, header_views(headers@), Some(body@)),
{
    request("POST", host, path, headers, Some(body))
}

/// The first line of a response, without its line ending; none when the
/// response is empty.
pub open spec fn status_line(s: Seq<char>) -> Option<Seq<char>> {
    if s.len() == 0 {
        None
    } else {
        match find(s, seq!['\n'], 0) {
            Some(i) => {
                let l = s.take(i);
                Some(
                    if l.len() > 0 && l.last() == '\r' {
                        l.drop_last()
                    } else {
                        l
                    },
                )
            },
            None => Some(s),
        }
    }
}

/// The second of the fields that single spaces separate, if there is one.
pub open spec fn second_field(line: Seq<char>) -> Option<Seq<char>> {
    match find(line, seq![' '], 0) {
        None => None,
        Some(i) => {
            let rest = line.skip(i + 1);
            match find(rest, seq![' '], 0) {
                Some(j) => Some(rest.take(j)),
                None => Some(rest),
            }
        },
    }
}

/// Every character is an ASCII decimal digit.
pub open spec fn all_digits(s: Seq<char>) -> bool {
    forall|i: int| 0 <= i < s.len() ==> 0x30 <= #[trigger] (s[i] as u32) <= 0x39
}

/// The value of a string of decimal digits.
pub open spec fn digits_value(s: Seq<char>) -> nat
    decreases s.len(),
{
    if s.len() == 0 {
        0
    } else {
        digits_value(s.drop_last()) * 10 + ((s.last() as u32) - 0x30) as nat
    }
}

/// A 16-bit unsigned number in decimal: an optional `+`, then at least one
/// digit, with a value that fits.
pub open spec fn decimal_u16(s: Seq<char>) -> Option<u16> {
    let digits = if s.len() > 0 && s[0] == '+' {
        s.drop_first()
    } else {
        s
    };
    if digits.len() == 0 || !all_digits(digits) || digits_value(digits) > 0xFFFF {
        None
    } else {
        Some(digits_value(digits) as u16)
    }
}

/// The body of a response: what follows the first empty line, or nothing.
pub open spec fn body_text(s: Seq<char>) -> Seq<char> {
    match find(s, seq!['\r', '\n', '\r', '\n'], 0) {
        Some(k) => s.skip(k + 4),
        None => Seq::empty(),
    }
}

/// The status and body of a response text; none when the status line has no
/// second field or that field is no 16-bit number.
pub open spec fn response_parts(s: Seq<char>) -> Option<(u16, Seq<char>)> {
    match status_line(s) {
        None => None,
        Some(line) => match second_field(line) {
            None => None,
            Some(field) => match decimal_u16(field) {
                None => None,
                Some(status) => Some((status, body_text(s))),
            },
        },
    }
}

/// A number written in decimal is read back as that number.
pub proof fn lemma_decimal_read_back(n: nat)
    ensures
        all_digits(decimal_text(n)),
        digits_value(decimal_text(n)) == n,
    decreases n,
{
    lemma_decimal_text_digits(n);
    let last = decimal_text(n).last();
    assert(last as u32 == 0x30 + n % 10);
    if n >= 10 {
        lemma_decimal_read_back(n / 10);
        assert(decimal_text(n).drop_last() =~= decimal_text(n / 10));
        assert(digits_value(decimal_text(n)) == digits_value(decimal_text(n / 10)) * 10 + n % 10);
    } else {
        assert(decimal_text(n).drop_last() =~= Seq::<char>::empty());
        assert(digits_value(decimal_text(n)) == digits_value(Seq::<char>::empty()) * 10 + n % 10);
    }
}

/// A number in decimal starts with `0` only when it is zero.
proof fn lemma_decimal_text_first(n: nat)
    ensures
        decimal_text(n)[0] == '0' ==> n == 0,
    decreases n,
{
    lemma_decimal_text_digits(n);
    if n >= 10 {
        lemma_decimal_text_first(n / 10);
        lemma_decimal_text_digits(n / 10);
        assert(decimal_text(n)[0] == decimal_text(n / 10)[0]);
    } else {
        assert(decimal_text(n)[0] as u32 == 0x30 + n);
    }
}

/// A request with a body announces the body's length: after
/// `Content-Length: ` come decimal digits, without leading zeros, that read
/// back as the number of bytes of the body in UTF-8, then the empty line and
/// the body itself.
pub proof fn lemma_content_length(
    method: Seq<char>,
    host: Seq<char>,
    path: Seq<char>,
    headers: Seq<(Seq<char>, Seq<char>)>,
    body: Seq<char>,
)
    requires
        encode_utf8(body).len() <= usize::MAX,
    ensures
        exists|digits: Seq<char>|
            {
                &&& request_text(method, host, path, headers, Some(body)) == method
                    + " "@ + path + " HTTP/1.0\r\nHost: "@ + host + "\r\n"@ + header_lines(headers)
                    + "Content-Length: "@ + digits + "\r\n"@ + "\r\n"@ + body
                &&& digits.len() >= 1
                &&& all_digits(digits)
                &&& digits.len() == 1 || digits[0] != '0'
                &&& #[trigger] digits_value(digits) == encode_utf8(body).len()
            },
{
    let n = content_length(body);
    assert(n == encode_utf8(body).len());
    let digits = decimal_text(n);
    lemma_decimal_read_back(n);
    lemma_decimal_text_digits(n);
    lemma_decimal_text_first(n);
    assert(request_text(method, host, path, headers, Some(body)) == method + " "@ + path
        + " HTTP/1.0\r\nHost: "@ + host + "\r\n"@ + header_lines(headers) + "Content-Length: "@
        + digits + "\r\n"@ + "\r\n"@ + body);
}

/// A status code in decimal is read back as that status code.
pub proof fn lemma_status_read_back(status: u16)
    ensures
        decimal_u16(decimal_text(status as nat)) == Some(status),
{
    lemma_decimal_read_back(status as nat);
    let d = decimal_text(status as nat);
    assert(0x30 <= (d[0] as u32) <= 0x39);
}

/// The character does not occur in the text.
pub open spec fn lacks(s: Seq<char>, c: char) -> bool {
    forall|i: int| 0 <= i < s.len() ==> #[trigger] s[i] != c
}

/// A response is read back: the text `version status reason`, an empty
/// line and a body gives that status and that body, when the version has no
/// space and neither it nor the reason holds a line break.
pub proof fn lemma_response_read_back(
    version: Seq<char>,
    status: u16,
    reason: Seq<char>,
    body: Seq<char>,
)
    requires
        lacks(version, ' '),
        lacks(version, '\n'),
        lacks(version, '\r'),
        lacks(reason, '\n'),
        lacks(reason, '\r'),
    ensures
        response_parts(
            version + seq![' '] + decimal_text(status as nat) + seq![' '] + reason + seq![
                '\r',
                '\n',
                '\r',
                '\n',
            ] + body,
        ) == Some((status, body)),
{
    let dec = decimal_text(status as nat);
    lemma_status_read_back(status);
    lemma_decimal_text_digits(status as nat);
    let line = version + seq![' '] + dec + seq![' '] + reason;
    let sep = seq!['\r', '\n', '\r', '\n'];
    let s = line + sep + body;
    let l = line.len() as int;
    assert(lacks(line, '\n')) by {
        assert forall|i: int| 0 <= i < line.len() implies #[trigger] line[i] != '\n' by {
            if i < version.len() {
            } else if i == version.len() {
            } else if i < version.len() + 1 + dec.len() {
                assert(line[i] == dec[i - version.len() - 1]);
                assert(0x30 <= (dec[i - version.len() - 1] as u32) <= 0x39);
            } else if i == version.len() + 1 + dec.len() {
            } else {
                assert(line[i] == reason[i - version.len() - 2 - dec.len()]);
            }
        }
    }
    // the status line ends at the first line break
    assert(s.subrange(l + 1, l + 2) =~= seq!['\n']);
    assert forall|j: int| 0 <= j < l + 1 implies #[trigger] s.subrange(j, j + 1) != seq!['\n'] by {
        if j < l {
            assert(s.subrange(j, j + 1)[0] == line[j]);
        } else {
            assert(s.subrange(j, j + 1)[0] == '\r');
        }
    }
    lemma_find_first(s, seq!['\n'], 0, l + 1);
    assert(s.take(l + 1).drop_last() =~= line);
    assert(status_line(s) == Some(line));
    // its second field is the status code
    let v = version.len() as int;
    assert(line.subrange(v, v + 1) =~= seq![' ']);
    assert forall|j: int| 0 <= j < v implies #[trigger] line.subrange(j, j + 1) != seq![' '] by {
        assert(line.subrange(j, j + 1)[0] == version[j]);
    }
    lemma_find_first(line, seq![' '], 0, v);
    let rest = line.skip(v + 1);
    assert(rest =~= dec + seq![' '] + reason);
    let dl = dec.len() as int;
    assert(rest.subrange(dl, dl + 1) =~= seq![' ']);
    assert forall|j: int| 0 <= j < dl implies #[trigger] rest.subrange(j, j + 1) != seq![' '] by {
        assert(rest.subrange(j, j + 1)[0] == dec[j]);
        assert(0x30 <= (dec[j] as u32) <= 0x39);
    }
    lemma_find_first(rest, seq![' '], 0, dl);
    assert(rest.take(dl) =~= dec);
    assert(second_field(line) == Some(dec));
    // the body follows the first empty line
    assert(s.subrange(l, l + 4) =~= sep);
    assert forall|j: int| 0 <= j < l implies #[trigger] s.subrange(j, j + 4) != sep by {
        if j + 1 < l {
            assert(s.subrange(j, j + 4)[1] == line[j + 1]);
        } else {
            assert(s.subrange(j, j + 4)[1] == '\r');
        }
    }
    lemma_find_first(s, sep, 0, l);
    assert(s.skip(l + 4) =~= body);
}

/// Reads a 16-bit unsigned number in decimal.
pub fn parse_u16(s: &[char]) -> (r: Option<u16>)
    ensures
        r == decimal_u16(s@),
{
    let start: usize = if s.len() > 0 && s[0] == '+' {
        1
    } else {
        0
    };
    let ghost digits = s@.skip(start as int);
    assert(digits =~= if s@.len() > 0 && s@[0] == '+' {
        s@.drop_first()
    } else {
        s@
    });
    if start == s.len() {
        return None;
    }
    let mut v: u32 = 0;
    let mut i: usize = start;
    while i < s.len()
        invariant
            start <= i <= s@.len(),
            digits == s@.skip(start as int),
            digits == (if s@.len() > 0 && s@[0] == '+' {
                s@.drop_first()
            } else {
                s@
            }),
            all_digits(s@.subrange(start as int, i as int)),
            v == if digits_value(s@.subrange(start as int, i as int)) > 0x10000 {
                0x10000
            } else {
                digits_value(s@.subrange(start as int, i as int))
            },
        decreases s@.len() - i,
    {
        let c = s[i] as u32;
        let ghost prev = s@.subrange(start as int, i as int);
        let ghost next = s@.subrange(start as int, i + 1);
        assert(next.drop_last() =~= prev);
        if c < 0x30 || c > 0x39 {
            assert(digits.subrange(0, i - start + 1) =~= next);
            assert(!all_digits(digits)) by {
                assert(digits[i - start] == s@[i as int]);
            }
            return None;
        }
        let d = c - 0x30;
        if v * 10 + d > 0x10000 {
            v = 0x10000;
        } else {
            v = v * 10 + d;
        }
        i = i + 1;
        assert(all_digits(next)) by {
            assert forall|j: int| 0 <= j < next.len() implies 0x30 <= #[trigger] (next[j] as u32)
                <= 0x39 by {
                if j < prev.len() {
                    assert(next[j] == prev[j]);
                }
            }
        }
    }
    assert(s@.subrange(start as int, s@.len() as int) =~= digits);
    if v > 0xFFFF {
        None
    } else {
        Some(v as u16)
    }
}

/// The status and body of a response given as text.
pub fn parse_response_text(raw: &str) -> (r: Option<Response>)
    ensures
        match (r, response_parts(raw@)) {
            (Some(resp), Some((status, body))) => resp.status == status && resp.body@ == body,
            (None, None) => true,
            _ => false,
        },
{
    let cs = chars_of(raw);
    if cs.len() == 0 {
        return None;
    }
    let newline: Vec<char> = vec!['\n'];
    let space: Vec<char> = vec![' '];
    let separator: Vec<char> = vec!['\r', '\n', '\r', '\n'];
    assert(newline@ =~= seq!['\n']);
    assert(space@ =~= seq![' ']);
    assert(separator@ =~= seq!['\r', '\n', '\r', '\n']);
    proof {
        lemma_find(cs@, newline@, 0);
    }
    let line_end: usize = match find_at(cs.as_slice(), newline.as_slice(), 0) {
        Some(i) => {
            if i > 0 && cs[i - 1] == '\r' {
                i - 1
            } else {
                i
            }
        },
        None => cs.len(),
    };
    let line = &cs.as_slice()[0..line_end];
    proof {
        match find(cs@, newline@, 0) {
            Some(i) => {
                let l = cs@.take(i);
                if l.len() > 0 && l.last() == '\r' {
                    assert(line@ =~= l.drop_last());
                } else {
                    assert(line@ =~= l);
                }
            },
            None => {
                assert(line@ =~= cs@);
            },
        }
    }
    assert(status_line(raw@) == Some(line@));
    proof {
        lemma_find(line@, space@, 0);
    }
    let first = match find_at(line, space.as_slice(), 0) {
        Some(i) => i,
        None => {
            return None;
        },
    };
    let rest = &line[first + 1..line_end];
    assert(rest@ =~= line@.skip(first + 1));
    proof {
        lemma_find(rest@, space@, 0);
    }
    let field_end: usize = match find_at(rest, space.as_slice(), 0) {
        Some(j) => j,
        None => rest.len(),
    };
    let field = &rest[0..field_end];
    assert(field@ =~= rest@.take(field_end as int));
    assert(second_field(line@) == Some(field@));
    let status = match parse_u16(field) {
        Some(st) => st,
        None => {
            return None;
        },
    };
    proof {
        lemma_find(cs@, separator@, 0);
    }
    let body = match find_at(cs.as_slice(), separator.as_slice(), 0) {
        Some(k) => string_of(&cs.as_slice()[k + 4..cs.len()]),
        None => String::new(),
    };
    assert(body@ =~= body_text(raw@));
    Some(Response { status, body })
}

/// The text that `String::from_utf8_lossy` makes of the bytes.
pub uninterp spec fn utf8_lossy(bytes: Seq<u8>) -> Seq<char>;

/// `String::from_utf8_lossy`: the bytes as text, with each invalid sequence
/// replaced by U+FFFD. Stated: the result is a function of the bytes, and
/// valid UTF-8 is decoded as it stands. Not stated: which replacements an
/// invalid input gets.
#[verifier::external_body]
fn from_utf8_lossy(bytes: &[u8]) -> (s: String)
    ensures
        s@ == utf8_lossy(bytes@),
        valid_utf8(bytes@) ==> s@ == decode_utf8(bytes@),
{
    String::from_utf8_lossy(bytes).into_owned()
}

/// The status and body of a raw response, read as UTF-8 with invalid
/// sequences replaced.
pub fn parse_response(raw: &[u8]) -> (r: Option<Response>)
    ensures
        match (r, response_parts(utf8_lossy(raw@))) {
            (Some(resp), Some((status, body))) => resp.status == status && resp.body@ == body,
            (None, None) => true,
            _ => false,
        },
        valid_utf8(raw@) ==> utf8_lossy(raw@) == decode_utf8(raw@),
{
    let text = from_utf8_lossy(raw);
    parse_response_text(text.as_str())
}

} // verus!
