//! IP addresses and their textual forms.

use vstd::prelude::*;

use crate::util::{ascii_chars, ascii_string, copy_at, is_ascii_bytes};

verus! {

/// An IPv4 address: four octets in network order.
#[derive(Clone, Copy, PartialEq, Eq, Debug)]
pub struct Ipv4Address(pub [u8; 4]);

/// An IPv6 address: sixteen octets in network order.
#[derive(Clone, Copy, PartialEq, Eq, Debug)]
pub struct Ipv6Address(pub [u8; 16]);

/// The ASCII code of a decimal digit.
pub open spec fn decimal_digit(d: int) -> u8 {
    (0x30 + d) as u8
}

/// The ASCII code of a lower-case hexadecimal digit.
pub open spec fn hex_digit(d: int) -> u8 {
    if d < 10 {
        (0x30 + d) as u8
    } else {
        (0x61 + d - 10) as u8
    }
}

/// A byte in decimal, without leading zeros.
pub open spec fn decimal_u8(n: u8) -> Seq<u8> {
    let v = n as int;
    if v >= 100 {
        seq![decimal_digit(v / 100), decimal_digit(v / 10 % 10), decimal_digit(v % 10)]
    } else if v >= 10 {
        seq![decimal_digit(v / 10), decimal_digit(v % 10)]
    } else {
        seq![decimal_digit(v)]
    }
}

/// A 16-bit value in lower-case hexadecimal, without leading zeros.
pub open spec fn hex_group(v: int) -> Seq<u8> {
    if v >= 0x1000 {
        seq![hex_digit(v / 0x1000), hex_digit(v / 0x100 % 16), hex_digit(v / 0x10 % 16), hex_digit(v % 16)]
    } else if v >= 0x100 {
        seq![hex_digit(v / 0x100), hex_digit(v / 0x10 % 16), hex_digit(v % 16)]
    } else if v >= 0x10 {
        seq![hex_digit(v / 0x10), hex_digit(v % 16)]
    } else {
        seq![hex_digit(v)]
    }
}

/// The first `n` octets in decimal, separated by dots.
pub open spec fn dotted_decimal(octets: Seq<u8>, n: nat) -> Seq<u8>
    decreases n,
{
    if n == 0 {
        Seq::empty()
    } else if n == 1 {
        decimal_u8(octets[0])
    } else {
        dotted_decimal(octets, (n - 1) as nat) + seq![0x2eu8] + decimal_u8(octets[n - 1])
    }
}

/// The value of the `i`-th 16-bit group of the octets.
pub open spec fn group_value(octets: Seq<u8>, i: int) -> int {
    octets[2 * i] * 256 + octets[2 * i + 1]
}

/// The first `n` 16-bit groups in hexadecimal, separated by colons.
pub open spec fn colon_hex(octets: Seq<u8>, n: nat) -> Seq<u8>
    decreases n,
{
    if n == 0 {
        Seq::empty()
    } else if n == 1 {
        hex_group(group_value(octets, 0))
    } else {
        colon_hex(octets, (n - 1) as nat) + seq![0x3au8] + hex_group(group_value(octets, n - 1))
    }
}

/// Each byte in decimal takes at most three ASCII digits, so `n` of them
/// with their dots take at most `4 * n - 1` ASCII bytes.
proof fn lemma_dotted_decimal_bounds(octets: Seq<u8>, n: nat)
    requires
        n >= 1,
    ensures
        dotted_decimal(octets, n).len() <= 4 * n - 1,
        is_ascii_bytes(dotted_decimal(octets, n)),
    decreases n,
{
    let d = decimal_u8(octets[n - 1]);
    assert(d.len() <= 3 && is_ascii_bytes(d));
    if n > 1 {
        lemma_dotted_decimal_bounds(octets, (n - 1) as nat);
        let prev = dotted_decimal(octets, (n - 1) as nat);
        let all = prev + seq![0x2eu8] + d;
        assert forall|i: int| 0 <= i < all.len() implies #[trigger] all[i] < 0x80 by {
            if i < prev.len() {
                assert(all[i] == prev[i]);
            } else if i == prev.len() {
            } else {
                assert(all[i] == d[i - prev.len() - 1]);
            }
        }
    }
}

/// A group in hexadecimal takes at most four ASCII digits, so `n` of them
/// with their colons take at most `5 * n - 1` ASCII bytes.
proof fn lemma_colon_hex_bounds(octets: Seq<u8>, n: nat)
    requires
        n >= 1,
    ensures
        colon_hex(octets, n).len() <= 5 * n - 1,
        is_ascii_bytes(colon_hex(octets, n)),
    decreases n,
{
    let h = hex_group(group_value(octets, n - 1));
    assert(group_value(octets, n - 1) >= 0);
    assert(h.len() <= 4 && is_ascii_bytes(h));
    if n > 1 {
        lemma_colon_hex_bounds(octets, (n - 1) as nat);
        let prev = colon_hex(octets, (n - 1) as nat);
        let all = prev + seq![0x3au8] + h;
        assert forall|i: int| 0 <= i < all.len() implies #[trigger] all[i] < 0x80 by {
            if i < prev.len() {
                assert(all[i] == prev[i]);
            } else if i == prev.len() {
            } else {
                assert(all[i] == h[i - prev.len() - 1]);
            }
        }
    }
}

/// The text of the first `m` octets is no longer than that of the first `n`.
proof fn lemma_dotted_decimal_grows(octets: Seq<u8>, m: nat, n: nat)
    requires
        m <= n,
    ensures
        dotted_decimal(octets, m).len() <= dotted_decimal(octets, n).len(),
    decreases n,
{
    if m < n {
        lemma_dotted_decimal_grows(octets, m, (n - 1) as nat);
    }
}

/// The text of the first `m` groups is no longer than that of the first `n`.
proof fn lemma_colon_hex_grows(octets: Seq<u8>, m: nat, n: nat)
    requires
        m <= n,
    ensures
        colon_hex(octets, m).len() <= colon_hex(octets, n).len(),
    decreases n,
{
    if m < n {
        lemma_colon_hex_grows(octets, m, (n - 1) as nat);
    }
}

/// The fields of a text that `sep` separates, empty ones included.
pub open spec fn split_fields(text: Seq<u8>, sep: u8) -> Seq<Seq<u8>>
    decreases text.len(),
{
    if text.len() == 0 {
        seq![Seq::empty()]
    } else {
        let f = split_fields(text.drop_last(), sep);
        if text.last() == sep {
            f.push(Seq::empty())
        } else {
            f.update(f.len() - 1, f.last().push(text.last()))
        }
    }
}

/// The byte does not occur in the text.
pub open spec fn lacks_byte(text: Seq<u8>, b: u8) -> bool {
    forall|i: int| 0 <= i < text.len() ==> #[trigger] text[i] != b
}

/// Every byte is an ASCII decimal digit.
pub open spec fn is_decimal_digits(digits: Seq<u8>) -> bool {
    forall|i: int| 0 <= i < digits.len() ==> 0x30 <= #[trigger] digits[i] <= 0x39
}

/// The value of ASCII decimal digits.
pub open spec fn decimal_value(digits: Seq<u8>) -> int
    decreases digits.len(),
{
    if digits.len() == 0 {
        0
    } else {
        decimal_value(digits.drop_last()) * 10 + (digits.last() - 0x30)
    }
}

/// The byte is a lower-case hexadecimal digit: `0`-`9` or `a`-`f`.
pub open spec fn is_hex_digit(c: u8) -> bool {
    (0x30 <= c <= 0x39) || (0x61 <= c <= 0x66)
}

/// Every byte is a lower-case hexadecimal digit.
pub open spec fn is_hex_digits(digits: Seq<u8>) -> bool {
    forall|i: int| 0 <= i < digits.len() ==> is_hex_digit(#[trigger] digits[i])
}

/// The digits are `0` alone or do not start with `0`.
pub open spec fn no_leading_zero(digits: Seq<u8>) -> bool {
    digits.len() == 1 || digits[0] != 0x30
}

/// The value of a lower-case hexadecimal digit.
pub open spec fn hex_digit_value(c: u8) -> int {
    if c <= 0x39 {
        c - 0x30
    } else {
        c - 0x57
    }
}

/// The value of lower-case hexadecimal digits.
pub open spec fn hex_value(digits: Seq<u8>) -> int
    decreases digits.len(),
{
    if digits.len() == 0 {
        0
    } else {
        hex_value(digits.drop_last()) * 16 + hex_digit_value(digits.last())
    }
}

/// A text without the separator is one field.
proof fn lemma_split_single(text: Seq<u8>, sep: u8)
    requires
        lacks_byte(text, sep),
    ensures
        split_fields(text, sep) == seq![text],
    decreases text.len(),
{
    if text.len() > 0 {
        lemma_split_single(text.drop_last(), sep);
        assert(text.drop_last().push(text.last()) =~= text);
        assert(split_fields(text, sep) =~= seq![text]);
    } else {
        assert(text =~= Seq::<u8>::empty());
    }
}

/// A separator and a field without it add that field at the end.
proof fn lemma_split_append(head: Seq<u8>, sep: u8, field: Seq<u8>)
    requires
        lacks_byte(field, sep),
    ensures
        split_fields(head + seq![sep] + field, sep) == split_fields(head, sep).push(field),
    decreases field.len(),
{
    let t = head + seq![sep] + field;
    if field.len() == 0 {
        assert(t.drop_last() =~= head);
        assert(field =~= Seq::<u8>::empty());
    } else {
        let shorter = field.drop_last();
        lemma_split_append(head, sep, shorter);
        assert(t.drop_last() =~= head + seq![sep] + shorter);
        assert(shorter.push(field.last()) =~= field);
        assert(split_fields(t, sep) =~= split_fields(head, sep).push(field));
    }
}

/// A byte in decimal is digits that read back as the byte.
proof fn lemma_decimal_u8_read_back(n: u8)
    ensures
        decimal_value(decimal_u8(n)) == n,
        1 <= decimal_u8(n).len() <= 3,
        no_leading_zero(decimal_u8(n)),
        forall|i: int|
            0 <= i < decimal_u8(n).len() ==> 0x30 <= #[trigger] decimal_u8(n)[i] <= 0x39,
{
    let d = decimal_u8(n);
    let v = n as int;
    assert(forall|x: int| 0 <= x < 10 ==> #[trigger] decimal_digit(x) - 0x30 == x);
    if v >= 100 {
        let d1 = seq![decimal_digit(v / 100)];
        let d2 = d1.push(decimal_digit(v / 10 % 10));
        assert(d1.drop_last() =~= Seq::<u8>::empty());
        assert(decimal_value(Seq::<u8>::empty()) == 0);
        assert(d1.last() == decimal_digit(v / 100));
        assert(decimal_value(d1) == v / 100);
        assert(d2.drop_last() =~= d1);
        assert(decimal_value(d2) == v / 100 * 10 + v / 10 % 10);
        assert(d.drop_last() =~= d2);
        assert(d.last() == decimal_digit(v % 10));
        assert(decimal_value(d) == (v / 100 * 10 + v / 10 % 10) * 10 + v % 10);
        assert((v / 100 * 10 + v / 10 % 10) * 10 + v % 10 == v) by (nonlinear_arith)
            requires
                0 <= v,
        ;
    } else if v >= 10 {
        let d1 = seq![decimal_digit(v / 10)];
        assert(d1.drop_last() =~= Seq::<u8>::empty());
        assert(decimal_value(Seq::<u8>::empty()) == 0);
        assert(d1.last() == decimal_digit(v / 10));
        assert(decimal_value(d1) == v / 10);
        assert(d.drop_last() =~= d1);
        assert(d.last() == decimal_digit(v % 10));
        assert(decimal_value(d) == v / 10 * 10 + v % 10);
    } else {
        assert(d.drop_last() =~= Seq::<u8>::empty());
        assert(decimal_value(Seq::<u8>::empty()) == 0);
        assert(d.last() == decimal_digit(v));
        assert(decimal_value(d) == v);
    }
}

/// A group in hexadecimal is digits that read back as the group.
proof fn lemma_hex_group_read_back(v: int)
    requires
        0 <= v < 0x10000,
    ensures
        hex_value(hex_group(v)) == v,
        1 <= hex_group(v).len() <= 4,
        is_hex_digits(hex_group(v)),
        no_leading_zero(hex_group(v)),
        forall|i: int| 0 <= i < hex_group(v).len() ==> #[trigger] hex_group(v)[i] != 0x3a,
{
    let h = hex_group(v);
    assert(forall|d: int| 0 <= d < 16 ==> hex_digit_value(#[trigger] hex_digit(d)) == d);
    assert(forall|d: int| 0 <= d < 16 ==> is_hex_digit(#[trigger] hex_digit(d)));
    assert(forall|d: int| 1 <= d < 16 ==> #[trigger] hex_digit(d) != 0x30);
    if v >= 0x10 {
        let top = if v >= 0x1000 {
            v / 0x1000
        } else if v >= 0x100 {
            v / 0x100
        } else {
            v / 0x10
        };
        let h1 = seq![hex_digit(top)];
        assert(h1.drop_last() =~= Seq::<u8>::empty());
        assert(hex_value(Seq::<u8>::empty()) == 0);
        assert(h1.last() == hex_digit(top));
        assert(hex_digit_value(hex_digit(top)) == top);
        assert(hex_value(h1) == top);
        if v >= 0x100 {
            let mid = if v >= 0x1000 {
                v / 0x100
            } else {
                v / 0x10
            };
            let h2 = h1.push(hex_digit(mid % 16));
            assert(h2.drop_last() =~= h1);
            assert(hex_value(h2) == top * 16 + mid % 16);
            assert(hex_value(h2) == mid);
            if v >= 0x1000 {
                let h3 = h2.push(hex_digit(v / 0x10 % 16));
                assert(h3.drop_last() =~= h2);
                assert(hex_value(h3) == v / 0x10);
                assert(h.drop_last() =~= h3);
            } else {
                assert(h.drop_last() =~= h2);
            }
        } else {
            assert(h.drop_last() =~= h1);
        }
        assert(h.last() == hex_digit(v % 16));
        assert(hex_value(h) == hex_value(h.drop_last()) * 16 + v % 16);
        assert(hex_value(h.drop_last()) == v / 16);
    } else {
        assert(h.drop_last() =~= Seq::<u8>::empty());
        assert(hex_value(Seq::<u8>::empty()) == 0);
        assert(h.last() == hex_digit(v));
        assert(hex_value(h) == v);
    }
}

/// The dotted text of the first `n` octets splits at its dots into the
/// decimal forms of those octets.
proof fn lemma_dotted_decimal_fields(octets: Seq<u8>, n: nat)
    requires
        1 <= n <= octets.len(),
    ensures
        split_fields(dotted_decimal(octets, n), 0x2e) =~= Seq::new(
            n,
            |i: int| decimal_u8(octets[i]),
        ),
    decreases n,
{
    let d = decimal_u8(octets[n - 1]);
    lemma_decimal_u8_read_back(octets[n - 1]);
    assert(lacks_byte(d, 0x2e));
    if n == 1 {
        lemma_split_single(d, 0x2e);
    } else {
        lemma_dotted_decimal_fields(octets, (n - 1) as nat);
        lemma_split_append(dotted_decimal(octets, (n - 1) as nat), 0x2e, d);
    }
}

/// The colon text of the first `n` groups splits at its colons into the
/// hexadecimal forms of those groups.
proof fn lemma_colon_hex_fields(octets: Seq<u8>, n: nat)
    requires
        1 <= n,
        2 * n <= octets.len(),
    ensures
        split_fields(colon_hex(octets, n), 0x3a) =~= Seq::new(
            n,
            |i: int| hex_group(group_value(octets, i)),
        ),
    decreases n,
{
    let v = group_value(octets, n - 1);
    let h = hex_group(v);
    lemma_hex_group_read_back(v);
    assert(lacks_byte(h, 0x3a));
    if n == 1 {
        lemma_split_single(h, 0x3a);
    } else {
        lemma_colon_hex_fields(octets, (n - 1) as nat);
        lemma_split_append(colon_hex(octets, (n - 1) as nat), 0x3a, h);
    }
}

/// The dotted text of the first `n` octets holds only dots and decimal digits.
proof fn lemma_dotted_decimal_chars(octets: Seq<u8>, n: nat)
    ensures
        forall|i: int|
            0 <= i < dotted_decimal(octets, n).len() ==> {
                let c = #[trigger] dotted_decimal(octets, n)[i];
                c == 0x2e || 0x30 <= c <= 0x39
            },
    decreases n,
{
    if n >= 1 {
        let d = decimal_u8(octets[n - 1]);
        lemma_decimal_u8_read_back(octets[n - 1]);
        if n > 1 {
            lemma_dotted_decimal_chars(octets, (n - 1) as nat);
            let prev = dotted_decimal(octets, (n - 1) as nat);
            let all = prev + seq![0x2eu8] + d;
            assert(all == dotted_decimal(octets, n));
            assert forall|i: int| 0 <= i < all.len() implies {
                let c = #[trigger] all[i];
                c == 0x2e || 0x30 <= c <= 0x39
            } by {
                if i < prev.len() {
                    assert(all[i] == prev[i]);
                } else if i > prev.len() {
                    assert(all[i] == d[i - prev.len() - 1]);
                }
            }
        }
    }
}

/// The colon text of the first `n` groups holds only colons and lower-case
/// hexadecimal digits.
proof fn lemma_colon_hex_chars(octets: Seq<u8>, n: nat)
    ensures
        forall|i: int|
            0 <= i < colon_hex(octets, n).len() ==> {
                let c = #[trigger] colon_hex(octets, n)[i];
                c == 0x3a || is_hex_digit(c)
            },
    decreases n,
{
    if n >= 1 {
        let v = group_value(octets, n - 1);
        assert(0 <= v < 0x10000) by (nonlinear_arith)
            requires
                v == octets[2 * (n - 1)] * 256 + octets[2 * (n - 1) + 1],
                0 <= octets[2 * (n - 1)] < 256,
                0 <= octets[2 * (n - 1) + 1] < 256,
        ;
        let h = hex_group(v);
        lemma_hex_group_read_back(v);
        if n > 1 {
            lemma_colon_hex_chars(octets, (n - 1) as nat);
            let prev = colon_hex(octets, (n - 1) as nat);
            let all = prev + seq![0x3au8] + h;
            assert(all == colon_hex(octets, n));
            assert forall|i: int| 0 <= i < all.len() implies {
                let c = #[trigger] all[i];
                c == 0x3a || is_hex_digit(c)
            } by {
                if i < prev.len() {
                    assert(all[i] == prev[i]);
                } else if i > prev.len() {
                    assert(all[i] == h[i - prev.len() - 1]);
                }
            }
        }
    }
}

/// An IPv4 address's text is read back: it has four dot-separated fields of
/// one to three decimal digits, and the `k`-th reads as the `k`-th octet.
/// So two addresses with the same text are the same address.
pub proof fn lemma_ipv4_text_read_back(a: Ipv4Address, b: Ipv4Address)
    ensures
        split_fields(a.spec_text(), 0x2e).len() == 4,
        forall|k: int|
            0 <= k < 4 ==> {
                let f = #[trigger] split_fields(a.spec_text(), 0x2e)[k];
                &&& 1 <= f.len() <= 3
                &&& is_decimal_digits(f)
                &&& no_leading_zero(f)
                &&& decimal_value(f) == a.0[k]
            },
        forall|i: int|
            0 <= i < a.spec_text().len() ==> {
                let c = #[trigger] a.spec_text()[i];
                c == 0x2e || 0x30 <= c <= 0x39
            },
        a.spec_text() == b.spec_text() ==> a == b,
{
    lemma_dotted_decimal_chars(a.0@, 4);
    lemma_dotted_decimal_fields(a.0@, 4);
    lemma_dotted_decimal_fields(b.0@, 4);
    assert forall|k: int| 0 <= k < 4 implies {
        let f = #[trigger] split_fields(a.spec_text(), 0x2e)[k];
        &&& 1 <= f.len() <= 3
        &&& is_decimal_digits(f)
        &&& no_leading_zero(f)
        &&& decimal_value(f) == a.0[k]
    } by {
        lemma_decimal_u8_read_back(a.0@[k]);
    }
    if a.spec_text() == b.spec_text() {
        assert forall|k: int| 0 <= k < 4 implies a.0@[k] == b.0@[k] by {
            lemma_decimal_u8_read_back(a.0@[k]);
            lemma_decimal_u8_read_back(b.0@[k]);
            assert(split_fields(a.spec_text(), 0x2e)[k] == decimal_u8(a.0@[k]));
            assert(split_fields(b.spec_text(), 0x2e)[k] == decimal_u8(b.0@[k]));
        }
        assert(a.0 =~= b.0);
    }
}

/// An IPv6 address's text is read back: it has eight colon-separated fields
/// of one to four hexadecimal digits, and the `k`-th reads as the `k`-th
/// 16-bit group (octets `2k` and `2k + 1`). So two addresses with the same
/// text are the same address.
pub proof fn lemma_ipv6_text_read_back(a: Ipv6Address, b: Ipv6Address)
    ensures
        split_fields(a.spec_text(), 0x3a).len() == 8,
        forall|k: int|
            0 <= k < 8 ==> {
                let f = #[trigger] split_fields(a.spec_text(), 0x3a)[k];
                &&& 1 <= f.len() <= 4
                &&& is_hex_digits(f)
                &&& no_leading_zero(f)
                &&& hex_value(f) == a.0[2 * k] * 256 + a.0[2 * k + 1]
            },
        forall|i: int|
            0 <= i < a.spec_text().len() ==> {
                let c = #[trigger] a.spec_text()[i];
                c == 0x3a || is_hex_digit(c)
            },
        a.spec_text() == b.spec_text() ==> a == b,
{
    lemma_colon_hex_chars(a.0@, 8);
    lemma_colon_hex_fields(a.0@, 8);
    lemma_colon_hex_fields(b.0@, 8);
    assert forall|k: int| 0 <= k < 8 implies {
        let f = #[trigger] split_fields(a.spec_text(), 0x3a)[k];
        &&& 1 <= f.len() <= 4
        &&& is_hex_digits(f)
        &&& no_leading_zero(f)
        &&& hex_value(f) == a.0[2 * k] * 256 + a.0[2 * k + 1]
    } by {
        lemma_hex_group_read_back(group_value(a.0@, k));
    }
    if a.spec_text() == b.spec_text() {
        assert forall|i: int| 0 <= i < 16 implies a.0@[i] == b.0@[i] by {
            let k = i / 2;
            lemma_hex_group_read_back(group_value(a.0@, k));
            lemma_hex_group_read_back(group_value(b.0@, k));
            assert(split_fields(a.spec_text(), 0x3a)[k] == hex_group(group_value(a.0@, k)));
            assert(split_fields(b.spec_text(), 0x3a)[k] == hex_group(group_value(b.0@, k)));
            assert(group_value(a.0@, k) == group_value(b.0@, k));
        }
        assert(a.0 =~= b.0);
    }
}

/// A kind of address that can stand in a DNS record.
pub trait Address: Copy + Sized {
    /// The textual form of the address, as ASCII bytes.
    spec fn spec_text(&self) -> Seq<u8>;

    /// The DNS record type that holds such an address.
    spec fn spec_record_type() -> Seq<char>;

    /// The most bytes the textual form can take.
    spec fn max_text_len() -> nat;

    /// The textual form is ASCII and fits in `max_text_len` bytes, which is
    /// at most 64.
    proof fn lemma_text_bounds(&self)
        ensures
            self.spec_text().len() <= Self::max_text_len() <= 64,
            is_ascii_bytes(self.spec_text()),
    ;

    /// The DNS record type that holds such an address.
    fn record_type() -> (r: &'static str)
        ensures
            r@ == Self::spec_record_type(),
    ;

    /// Writes the textual form at the start of `buf`; returns its length.
    fn to_str(&self, buf: &mut [u8]) -> (len: usize)
        requires
            old(buf)@.len() >= self.spec_text().len(),
        ensures
            len == self.spec_text().len(),
            final(buf)@ == self.spec_text() + old(buf)@.skip(len as int),
    ;

    /// The textual form as a string.
    fn to_string(&self) -> (s: String)
        ensures
            s@ == ascii_chars(self.spec_text()),
    {
        let mut store: Vec<u8> = vec![0u8; 64];
        proof {
            self.lemma_text_bounds();
        }
        let len = self.to_str(store.as_mut_slice());
        assert(store@.take(len as int) =~= self.spec_text());
        ascii_string(&store.as_slice()[0..len])
    }
}

/// A byte in decimal.
fn decimal_bytes(n: u8) -> (d: Vec<u8>)
    ensures
        d@ == decimal_u8(n),
{
    let mut d: Vec<u8> = Vec::new();
    if n >= 100 {
        d.push(0x30 + n / 100);
    }
    if n >= 10 {
        d.push(0x30 + n / 10 % 10);
    }
    d.push(0x30 + n % 10);
    assert(d@ =~= decimal_u8(n));
    d
}

/// A lower-case hexadecimal digit.
fn hex_char(d: u16) -> (c: u8)
    requires
        d < 16,
    ensures
        c == hex_digit(d as int),
{
    if d < 10 {
        0x30 + d as u8
    } else {
        0x57 + d as u8
    }
}

/// A 16-bit value in hexadecimal.
fn hex_bytes(v: u16) -> (h: Vec<u8>)
    ensures
        h@ == hex_group(v as int),
{
    let mut h: Vec<u8> = Vec::new();
    if v >= 0x1000 {
        h.push(hex_char(v / 0x1000));
    }
    if v >= 0x100 {
        h.push(hex_char(v / 0x100 % 16));
    }
    if v >= 0x10 {
        h.push(hex_char(v / 0x10 % 16));
    }
    h.push(hex_char(v % 16));
    assert(h@ =~= hex_group(v as int));
    h
}

impl Address for Ipv4Address {
    open spec fn spec_text(&self) -> Seq<u8> {
        dotted_decimal(self.0@, 4)
    }

    open spec fn spec_record_type() -> Seq<char> {
        "A"@
    }

    open spec fn max_text_len() -> nat {
        15
    }

    proof fn lemma_text_bounds(&self) {
        lemma_dotted_decimal_bounds(self.0@, 4);
        assert(Self::max_text_len() == 15);
        assert(self.spec_text() == dotted_decimal(self.0@, 4));
    }

    fn record_type() -> (r: &'static str) {
        "A"
    }

    fn to_str(&self, buf: &mut [u8]) -> (len: usize) {
        let ghost start = buf@;
        assert(start == old(buf)@);
        let mut pos: usize = 0;
        let mut i: usize = 0;
        while i < 4
            invariant
                0 <= i <= 4,
                buf@.len() == start.len(),
                start.len() >= dotted_decimal(self.0@, 4).len(),
                pos == dotted_decimal(self.0@, i as nat).len(),
                i == 0 ==> pos == 0,
                i > 0 ==> pos < 4 * i,
                buf@ == dotted_decimal(self.0@, i as nat) + start.skip(pos as int),
            decreases 4 - i,
        {
            let ghost prefix = dotted_decimal(self.0@, i as nat);
            proof {
                lemma_dotted_decimal_grows(self.0@, (i + 1) as nat, 4);
            }
            if i > 0 {
                buf[pos] = 0x2e;
                pos = pos + 1;
                assert(buf@ =~= prefix + seq![0x2eu8] + start.skip(pos as int));
            }
            let digits = decimal_bytes(self.0[i]);
            pos = copy_at(buf, pos, digits.as_slice());
            i = i + 1;
            assert(buf@ =~= dotted_decimal(self.0@, i as nat) + start.skip(pos as int));
        }
        pos
    }
}

impl Address for Ipv6Address {
    open spec fn spec_text(&self) -> Seq<u8> {
        colon_hex(self.0@, 8)
    }

    open spec fn spec_record_type() -> Seq<char> {
        "AAAA"@
    }

    open spec fn max_text_len() -> nat {
        39
    }

    proof fn lemma_text_bounds(&self) {
        lemma_colon_hex_bounds(self.0@, 8);
        assert(Self::max_text_len() == 39);
        assert(self.spec_text() == colon_hex(self.0@, 8));
    }

    fn record_type() -> (r: &'static str) {
        "AAAA"
    }

    fn to_str(&self, buf: &mut [u8]) -> (len: usize) {
        let ghost start = buf@;
        assert(start == old(buf)@);
        let mut pos: usize = 0;
        let mut i: usize = 0;
        while i < 8
            invariant
                0 <= i <= 8,
                buf@.len() == start.len(),
                start.len() >= colon_hex(self.0@, 8).len(),
                pos == colon_hex(self.0@, i as nat).len(),
                i == 0 ==> pos == 0,
                i > 0 ==> pos < 5 * i,
                buf@ == colon_hex(self.0@, i as nat) + start.skip(pos as int),
            decreases 8 - i,
        {
            let ghost prefix = colon_hex(self.0@, i as nat);
            proof {
                lemma_colon_hex_grows(self.0@, (i + 1) as nat, 8);
            }
            if i > 0 {
                buf[pos] = 0x3a;
                pos = pos + 1;
                assert(buf@ =~= prefix + seq![0x3au8] + start.skip(pos as int));
            }
            let val: u16 = self.0[2 * i] as u16 * 256 + self.0[2 * i + 1] as u16;
            let digits = hex_bytes(val);
            pos = copy_at(buf, pos, digits.as_slice());
            i = i + 1;
            assert(buf@ =~= colon_hex(self.0@, i as nat) + start.skip(pos as int));
        }
        pos
    }
}

} // verus!
