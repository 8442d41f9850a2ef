//! The textual form of IPv4 socket addresses.
use vstd::prelude::*;

verus! {

/// The character that stands for a number below ten.
pub open spec fn digit(d: nat) -> char {
    if d == 0 {
        '0'
    } else if d == 1 {
        '1'
    } else if d == 2 {
        '2'
    } else if d == 3 {
        '3'
    } else if d == 4 {
        '4'
    } else if d == 5 {
        '5'
    } else if d == 6 {
        '6'
    } else if d == 7 {
        '7'
    } else if d == 8 {
        '8'
    } else {
        '9'
    }
}

/// Whether a character is a decimal digit.
pub open spec fn is_digit(c: char) -> bool {
    c == '0' || c == '1' || c == '2' || c == '3' || c == '4' || c == '5' || c == '6' || c == '7'
        || c == '8' || c == '9'
}

/// A number in decimal, without leading zeros.
pub open spec fn decimal(n: nat) -> Seq<char>
    decreases n,
{
    if n < 10 {
        seq![digit(n)]
    } else {
        decimal(n / 10).push(digit(n % 10))
    }
}

/// Four octets in decimal, with dots between them and a colon behind them.
pub open spec fn dotted_host(a: u8, b: u8, c: u8, d: u8) -> Seq<char> {
    decimal(a as nat).push('.') + decimal(b as nat).push('.') + decimal(c as nat).push('.')
        + decimal(d as nat).push(':')
}

/// The text of an IPv4 socket address: four octets in decimal, with dots between them, then a
/// colon and the port.
pub open spec fn dotted_text(a: u8, b: u8, c: u8, d: u8, port: u16) -> Seq<char> {
    dotted_host(a, b, c, d) + decimal(port as nat)
}

/// Decimals are made of digits, and begin with zero only where they stand for it.
proof fn lemma_decimal(n: nat)
    ensures
        decimal(n).len() > 0,
        forall|i: int| 0 <= i < decimal(n).len() ==> is_digit(#[trigger] decimal(n)[i]),
        decimal(n)[0] == '0' ==> n == 0 && decimal(n).len() == 1,
    decreases n,
{
    if n >= 10 {
        lemma_decimal(n / 10);
    }
}

/// A decimal that begins with another one stands for no smaller number, and for the same number
/// only where they are equal.
proof fn lemma_prefix(n: nat, m: nat)
    requires
        decimal(m).len() <= decimal(n).len(),
        decimal(n).take(decimal(m).len() as int) == decimal(m),
    ensures
        n >= m,
        decimal(m).len() == decimal(n).len() ==> n == m,
    decreases n,
{
    lemma_decimal(m);
    let k = decimal(m).len() as int;
    if n < 10 {
        assert(decimal(n).take(k) =~= decimal(n));
        if m >= 10 {
            lemma_decimal(m / 10);
        }
        assert(decimal(n)[0] == decimal(m)[0]);
    } else if k == decimal(n).len() {
        assert(decimal(n).take(k) =~= decimal(n));
        lemma_decimal(n / 10);
        if m < 10 {
            assert(false);
        }
        assert(decimal(m).drop_last() =~= decimal(m / 10));
        assert(decimal(n).drop_last() =~= decimal(n / 10));
        assert(decimal(n / 10).take(decimal(m / 10).len() as int) =~= decimal(m / 10));
        lemma_prefix(n / 10, m / 10);
        assert(decimal(n).last() == decimal(m).last());
    } else {
        assert(decimal(n).drop_last() =~= decimal(n / 10));
        assert(decimal(n / 10).take(k) =~= decimal(m));
        lemma_prefix(n / 10, m);
    }
}

/// The number that a digit stands for.
fn digit_value(c: char) -> (value: Option<u32>)
    ensures
        value is Some <==> is_digit(c),
        value is Some ==> value->0 < 10 && c == digit(value->0 as nat),
{
    match c {
        '0' => Some(0),
        '1' => Some(1),
        '2' => Some(2),
        '3' => Some(3),
        '4' => Some(4),
        '5' => Some(5),
        '6' => Some(6),
        '7' => Some(7),
        '8' => Some(8),
        '9' => Some(9),
        _ => None,
    }
}

/// Whether the decimal of `n` stands in a text from `start` on, and no other digit follows it.
spec fn stands_at(text: Seq<char>, start: int, n: nat) -> bool {
    let end = start + decimal(n).len();
    &&& end <= text.len()
    &&& text.subrange(start, end) == decimal(n)
    &&& end < text.len() ==> !is_digit(text[end])
}

/// At most one number stands somewhere.
proof fn lemma_stands_alone(text: Seq<char>, start: int, n: nat, m: nat)
    requires
        0 <= start,
        stands_at(text, start, n),
        stands_at(text, start, m),
    ensures
        n == m,
{
    lemma_decimal(n);
    lemma_decimal(m);
    let i = decimal(n).len() as int;
    let j = decimal(m).len() as int;
    if i < j {
        assert(text[start + i] == text.subrange(start, start + j)[i]);
        assert(is_digit(decimal(m)[i]));
    } else if j < i {
        assert(text[start + j] == text.subrange(start, start + i)[j]);
        assert(is_digit(decimal(n)[j]));
    } else {
        assert(decimal(n).take(j) =~= decimal(m));
        lemma_prefix(n, m);
    }
}

/// The number up to `max` that stands in a text from `start` on, and where it ends.
fn number(text: &str, start: usize, len: usize, max: u32) -> (found: Option<(u32, usize)>)
    requires
        len == text@.len(),
        start <= len,
        max <= 0xffff,
    ensures
        match found {
            Some((n, end)) => {
                &&& n <= max
                &&& stands_at(text@, start as int, n as nat)
                &&& end == start + decimal(n as nat).len()
            },
            None => forall|n: nat| n <= max ==> !(#[trigger] stands_at(text@, start as int, n)),
        },
{
    let mut value: u32 = 0;
    let mut i: usize = start;
    while i < len
        invariant_except_break
            len == text@.len(),
            start <= i <= len,
            max <= 0xffff,
            value <= max,
            i == start ==> value == 0,
            i > start ==> text@.subrange(start as int, i as int) == decimal(value as nat),
            forall|j: int| start <= j < i ==> is_digit(#[trigger] text@[j]),
        ensures
            len == text@.len(),
            start <= i <= len,
            value <= max,
            i > start ==> text@.subrange(start as int, i as int) == decimal(value as nat),
            i < len ==> !is_digit(text@[i as int]),
        decreases len - i,
    {
        match digit_value(text.get_char(i)) {
            None => {
                break;
            },
            Some(d) => {
                if i > start && value == 0 {
                    proof {
                        assert forall|n: nat| n <= max implies !(#[trigger] stands_at(
                            text@,
                            start as int,
                            n,
                        )) by {
                            lemma_leading_zero(text@, start as int, i as int, n);
                        }
                    }
                    return None;
                }
                let ghost before = value as nat;
                value = value * 10 + d;
                proof {
                    if i > start {
                        assert(decimal(value as nat) == decimal(before).push(digit(d as nat)));
                    }
                    assert(text@.subrange(start as int, i + 1) =~= decimal(value as nat));
                }
                if value > max {
                    proof {
                        assert forall|n: nat| n <= max implies !(#[trigger] stands_at(
                            text@,
                            start as int,
                            n,
                        )) by {
                            lemma_too_large(text@, start as int, i + 1, n, value as nat);
                        }
                    }
                    return None;
                }
                i = i + 1;
            },
        }
    }
    if i == start {
        proof {
            assert forall|n: nat| n <= max implies !(#[trigger] stands_at(
                text@,
                start as int,
                n,
            )) by {
                lemma_decimal(n);
                if stands_at(text@, start as int, n) {
                    assert(text@.subrange(start as int, start + decimal(n).len())[0]
                        == text@[start as int]);
                    assert(is_digit(decimal(n)[0]));
                }
            }
        }
        return None;
    }
    assert(decimal(value as nat).len() == i - start);
    Some((value, i))
}

/// No number stands where a zero is followed by another digit.
proof fn lemma_leading_zero(text: Seq<char>, start: int, i: int, n: nat)
    requires
        0 <= start < i < text.len(),
        text.subrange(start, i) == decimal(0),
        is_digit(text[i]),
    ensures
        !stands_at(text, start, n),
{
    lemma_decimal(n);
    if stands_at(text, start, n) {
        let end = start + decimal(n).len();
        assert(text.subrange(start, i)[0] == text[start]);
        assert(text.subrange(start, end)[0] == text[start]);
        assert(decimal(0).len() == 1);
    }
}

/// No number stands where a larger one begins.
proof fn lemma_too_large(text: Seq<char>, start: int, i: int, n: nat, m: nat)
    requires
        0 <= start < i <= text.len(),
        text.subrange(start, i) == decimal(m),
        n < m,
    ensures
        !stands_at(text, start, n),
{
    lemma_decimal(n);
    lemma_decimal(m);
    if stands_at(text, start, n) {
        let end = start + decimal(n).len();
        if end < i {
            assert(text[end] == text.subrange(start, i)[end - start]);
            assert(is_digit(decimal(m)[end - start]));
        } else {
            assert(decimal(n).take(i - start) =~= decimal(m)) by {
                assert(text.subrange(start, end).take(i - start) =~= text.subrange(start, i));
            }
            lemma_prefix(n, m);
        }
    }
}

/// The octet that stands in a text from `start` on, and where the text goes on behind the
/// separator that follows it.
fn octet(text: &str, start: usize, len: usize, separator: char) -> (found: Option<(u8, usize)>)
    requires
        len == text@.len(),
        start <= len,
        !is_digit(separator),
    ensures
        match found {
            Some((n, end)) => start < end <= len && text@.subrange(start as int, end as int)
                == decimal(n as nat).push(separator),
            None => true,
        },
        forall|n: u8, rest: Seq<char>|
            text@.skip(start as int) == #[trigger] (decimal(n as nat).push(separator) + rest)
                ==> found == Some((n, (start + decimal(n as nat).len() + 1) as usize)),
{
    let found = number(text, start, len, 255);
    proof {
        assert forall|n: u8, rest: Seq<char>|
            text@.skip(start as int) == #[trigger] (decimal(n as nat).push(separator)
                + rest) implies stands_at(text@, start as int, n as nat) && text@[start + decimal(
            n as nat,
        ).len()] == separator by {
            lemma_separated(text@, start as int, n as nat, separator, rest);
        }
    }
    match found {
        Some((n, end)) => {
            proof {
                assert forall|m: u8|
                    #[trigger] stands_at(text@, start as int, m as nat) implies m == n by {
                    lemma_stands_alone(text@, start as int, n as nat, m as nat);
                }
            }
            if end < len && text.get_char(end) == separator {
                assert(text@.subrange(start as int, end + 1) =~= decimal(n as nat).push(separator));
                Some((n as u8, end + 1))
            } else {
                None
            }
        },
        None => None,
    }
}

/// A number that is followed by a separator stands alone.
proof fn lemma_separated(text: Seq<char>, start: int, n: nat, separator: char, rest: Seq<char>)
    requires
        0 <= start <= text.len(),
        !is_digit(separator),
        text.skip(start) == decimal(n).push(separator) + rest,
    ensures
        stands_at(text, start, n),
        start + decimal(n).len() < text.len(),
        text[start + decimal(n).len()] == separator,
        text.skip(start + decimal(n).len() + 1) == rest,
{
    let k = decimal(n).len() as int;
    let tail = text.skip(start);
    assert(tail.len() == k + 1 + rest.len());
    assert(tail[k] == separator);
    assert(text[start + k] == tail[k]);
    assert(text.subrange(start, start + k) =~= decimal(n)) by {
        assert forall|i: int| 0 <= i < k implies text[start + i] == decimal(n)[i] by {
            assert(tail[i] == text[start + i]);
        }
    }
    assert(text.skip(start + k + 1) =~= rest) by {
        assert forall|i: int| 0 <= i < rest.len() implies text[start + k + 1 + i] == rest[i] by {
            assert(tail[k + 1 + i] == text[start + k + 1 + i]);
        }
    }
}

/// The port that is the rest of a text from `start` on.
fn last_number(text: &str, start: usize, len: usize) -> (found: Option<u16>)
    requires
        len == text@.len(),
        start <= len,
    ensures
        found is Some ==> text@.skip(start as int) == decimal(found->0 as nat),
        forall|n: u16|
            text@.skip(start as int) == #[trigger] decimal(n as nat) ==> found == Some(n),
{
    let found = number(text, start, len, 65535);
    proof {
        assert forall|n: u16| text@.skip(start as int) == #[trigger] decimal(
            n as nat,
        ) implies stands_at(text@, start as int, n as nat) && start + decimal(n as nat).len()
            == len by {
            assert(text@.subrange(start as int, len as int) =~= text@.skip(start as int));
        }
    }
    match found {
        Some((n, end)) => {
            proof {
                assert forall|m: u16|
                    #[trigger] stands_at(text@, start as int, m as nat) implies m == n by {
                    lemma_stands_alone(text@, start as int, n as nat, m as nat);
                }
            }
            if end == len {
                assert(text@.subrange(start as int, len as int) =~= text@.skip(start as int));
                Some(n as u16)
            } else {
                None
            }
        },
        None => None,
    }
}

/// The parts of a dotted text, one behind the other.
proof fn lemma_parts(text: Seq<char>, a: u8, b: u8, c: u8, d: u8, rest: Seq<char>)
    requires
        text == dotted_host(a, b, c, d) + rest,
    ensures
        are_parts(text, a, b, c, d, rest),
{
    let r3 = decimal(d as nat).push(':') + rest;
    let r2 = decimal(c as nat).push('.') + r3;
    let r1 = decimal(b as nat).push('.') + r2;
    let i1 = decimal(a as nat).len() + 1;
    let i2 = i1 + decimal(b as nat).len() + 1;
    let i3 = i2 + decimal(c as nat).len() + 1;
    assert(text.skip(0) =~= decimal(a as nat).push('.') + r1);
    lemma_separated(text, 0, a as nat, '.', r1);
    lemma_separated(text, i1 as int, b as nat, '.', r2);
    lemma_separated(text, i2 as int, c as nat, '.', r3);
    lemma_separated(text, i3 as int, d as nat, ':', rest);
}

/// Whether a text has these parts, one behind the other.
spec fn are_parts(text: Seq<char>, a: u8, b: u8, c: u8, d: u8, rest: Seq<char>) -> bool {
    let r3 = decimal(d as nat).push(':') + rest;
    let r2 = decimal(c as nat).push('.') + r3;
    let r1 = decimal(b as nat).push('.') + r2;
    let i1 = decimal(a as nat).len() + 1;
    let i2 = i1 + decimal(b as nat).len() + 1;
    let i3 = i2 + decimal(c as nat).len() + 1;
    let i4 = i3 + decimal(d as nat).len() + 1;
    &&& text.skip(0) == decimal(a as nat).push('.') + r1
    &&& text.skip(i1 as int) == r1
    &&& text.skip(i2 as int) == r2
    &&& text.skip(i3 as int) == r3
    &&& text.skip(i4 as int) == rest
    &&& i4 <= text.len()
}

/// The octets with which a text begins, and where it goes on behind the colon that follows them.
pub fn host(text: &str) -> (found: Option<(u8, u8, u8, u8, usize)>)
    ensures
        match found {
            Some((a, b, c, d, end)) => end <= text@.len() && text@ == dotted_host(a, b, c, d)
                + text@.skip(end as int),
            None => true,
        },
        forall|a: u8, b: u8, c: u8, d: u8, rest: Seq<char>|
            text@ == #[trigger] (dotted_host(a, b, c, d) + rest) ==> match found {
                Some((a1, b1, c1, d1, end)) => {
                    &&& a1 == a
                    &&& b1 == b
                    &&& c1 == c
                    &&& d1 == d
                    &&& text@.skip(end as int) == rest
                },
                None => false,
            },
{
    let len = text.unicode_len();
    proof {
        assert forall|a: u8, b: u8, c: u8, d: u8, rest: Seq<char>|
            text@ == #[trigger] (dotted_host(a, b, c, d) + rest) implies are_parts(
            text@,
            a,
            b,
            c,
            d,
            rest,
        ) by {
            lemma_parts(text@, a, b, c, d, rest);
        }
    }
    let (a, i) = match octet(text, 0, len, '.') {
        Some(found) => found,
        None => return None,
    };
    let (b, j) = match octet(text, i, len, '.') {
        Some(found) => found,
        None => return None,
    };
    let (c, k) = match octet(text, j, len, '.') {
        Some(found) => found,
        None => return None,
    };
    let (d, l) = match octet(text, k, len, ':') {
        Some(found) => found,
        None => return None,
    };
    proof {
        assert(text@ =~= text@.subrange(0, i as int) + text@.subrange(i as int, j as int)
            + text@.subrange(j as int, k as int) + text@.subrange(k as int, l as int) + text@.skip(
            l as int,
        ));
    }
    Some((a, b, c, d, l))
}

/// The port that is the rest of a text from `start` on.
pub fn port(text: &str, start: usize) -> (found: Option<u16>)
    requires
        start <= text@.len(),
    ensures
        found is Some ==> text@.skip(start as int) == decimal(found->0 as nat),
        forall|n: u16|
            text@.skip(start as int) == #[trigger] decimal(n as nat) ==> found == Some(n),
{
    last_number(text, start, text.unicode_len())
}

/// The digits follow each other.
pub proof fn law_digits_follow_each_other(d: nat)
    requires
        d < 10,
    ensures
        digit(d) as int == '0' as int + d,
        is_digit(digit(d)),
{
}

/// The number that digits stand for, the last one being the units.
pub open spec fn value_of(digits: Seq<char>) -> int
    decreases digits.len(),
{
    if digits.len() == 0 {
        0
    } else {
        value_of(digits.drop_last()) * 10 + (digits.last() as int - '0' as int)
    }
}

/// The decimal of a number stands for that number, and has no leading zero unless it is zero.
pub proof fn law_decimals_stand_for_their_numbers(n: nat)
    ensures
        value_of(decimal(n)) == n,
        forall|i: int| 0 <= i < decimal(n).len() ==> is_digit(#[trigger] decimal(n)[i]),
        decimal(n).len() > 1 ==> decimal(n)[0] != '0',
    decreases n,
{
    lemma_decimal(n);
    law_digits_follow_each_other(n % 10);
    if n < 10 {
        assert(decimal(n).drop_last() =~= seq![]);
        assert(value_of(seq![]) == 0);
    } else {
        law_decimals_stand_for_their_numbers(n / 10);
        assert(decimal(n).drop_last() =~= decimal(n / 10));
    }
}

/// The octets stand in a dotted text in their order, with dots between them, and the port comes
/// last, behind a colon.
pub proof fn law_dotted_texts_keep_the_order(a: u8, b: u8, c: u8, d: u8, port: u16)
    ensures
        dotted_text(a, b, c, d, port) == decimal(a as nat) + seq!['.'] + decimal(b as nat)
            + seq!['.'] + decimal(c as nat) + seq!['.'] + decimal(d as nat) + seq![':'] + decimal(
            port as nat,
        ),
{
    assert(dotted_text(a, b, c, d, port) =~= decimal(a as nat) + seq!['.'] + decimal(b as nat)
        + seq!['.'] + decimal(c as nat) + seq!['.'] + decimal(d as nat) + seq![':'] + decimal(
        port as nat,
    ));
}

/// Whether a text is made of digits, and of one at least.
pub open spec fn is_number(text: Seq<char>) -> bool {
    text.len() > 0 && forall|i: int| 0 <= i < text.len() ==> is_digit(#[trigger] text[i])
}

/// The number below 65536 that the rest of a text from `start` on stands for, with or without
/// leading zeros.
pub fn digits(text: &str, start: usize) -> (found: Option<u16>)
    requires
        start <= text@.len(),
    ensures
        found is Some ==> is_number(text@.skip(start as int)) && value_of(text@.skip(start as int))
            == found->0,
{
    let len = text.unicode_len();
    let mut value: u32 = 0;
    let mut i: usize = start;
    while i < len
        invariant
            len == text@.len(),
            start <= i <= len,
            value <= 0xffff,
            value == value_of(text@.subrange(start as int, i as int)),
            forall|j: int| start <= j < i ==> is_digit(#[trigger] text@[j]),
        decreases len - i,
    {
        match digit_value(text.get_char(i)) {
            None => {
                return None;
            },
            Some(d) => {
                proof {
                    let read = text@.subrange(start as int, i + 1);
                    assert(read.drop_last() =~= text@.subrange(start as int, i as int));
                    assert(read.last() == text@[i as int]);
                    law_digits_follow_each_other(d as nat);
                }
                value = value * 10 + d;
                if value > 0xffff {
                    return None;
                }
                i = i + 1;
            },
        }
    }
    if i == start {
        return None;
    }
    proof {
        assert(text@.subrange(start as int, len as int) =~= text@.skip(start as int));
        assert forall|j: int| 0 <= j < text@.skip(start as int).len() implies is_digit(
            #[trigger] text@.skip(start as int)[j],
        ) by {
            assert(text@.skip(start as int)[j] == text@[start + j]);
        }
    }
    Some(value as u16)
}

} // verus!
