//! The textual form of IPv6 socket addresses.
use vstd::prelude::*;

use crate::ipv4::{digits, is_number, value_of};

verus! {

/// Whether a character is a hexadecimal digit.
pub open spec fn is_hex(c: char) -> bool {
    '0' <= c <= '9' || 'a' <= c <= 'f' || 'A' <= c <= 'F'
}

/// The number that a hexadecimal digit stands for.
pub open spec fn hex_value(c: char) -> int {
    if c <= '9' {
        c as int - '0' as int
    } else if c <= 'F' {
        c as int - 'A' as int + 10
    } else {
        c as int - 'a' as int + 10
    }
}

/// The number that a group of hexadecimal digits stands for, the last one being the units.
pub open spec fn group_value(group: Seq<char>) -> int
    decreases group.len(),
{
    if group.len() == 0 {
        0
    } else {
        group_value(group.drop_last()) * 16 + hex_value(group.last())
    }
}

/// Whether a text is a group: one to four hexadecimal digits.
pub open spec fn is_group(group: Seq<char>) -> bool {
    0 < group.len() <= 4 && forall|i: int| 0 <= i < group.len() ==> is_hex(#[trigger] group[i])
}

/// Whether the texts are groups.
pub open spec fn are_groups(groups: Seq<Seq<char>>) -> bool {
    forall|i: int| 0 <= i < groups.len() ==> is_group(#[trigger] groups[i])
}

/// The groups with colons between them.
pub open spec fn joined(groups: Seq<Seq<char>>) -> Seq<char>
    decreases groups.len(),
{
    if groups.len() == 0 {
        seq![]
    } else if groups.len() == 1 {
        groups[0]
    } else {
        joined(groups.drop_last()).push(':') + groups.last()
    }
}

/// The numbers that the groups stand for.
pub open spec fn values_of(groups: Seq<Seq<char>>) -> Seq<int> {
    groups.map_values(|group: Seq<char>| group_value(group))
}

/// The text of a socket address all of whose groups are written.
pub open spec fn full_text(groups: Seq<Seq<char>>, port: Seq<char>) -> Seq<char> {
    seq!['['] + joined(groups) + seq![']', ':'] + port
}

/// The text of a socket address with two colons in place of the groups that are zero.
pub open spec fn short_text(head: Seq<Seq<char>>, tail: Seq<Seq<char>>, port: Seq<char>) -> Seq<
    char,
> {
    seq!['['] + joined(head) + seq![':', ':'] + joined(tail) + seq![']', ':'] + port
}

/// The values of a short text: those of the groups in front, zeros, and those of the groups behind.
pub open spec fn short_values(head: Seq<Seq<char>>, tail: Seq<Seq<char>>) -> Seq<int> {
    values_of(head) + Seq::new((8 - head.len() - tail.len()) as nat, |i: int| 0int) + values_of(
        tail,
    )
}

/// The number that eight groups stand for, the first one being the most significant.
pub open spec fn segments_of(values: Seq<int>) -> int {
    values[0] * 0x1_0000_0000_0000_0000_0000_0000_0000 + values[1]
        * 0x1_0000_0000_0000_0000_0000_0000 + values[2] * 0x1_0000_0000_0000_0000_0000 + values[3]
        * 0x1_0000_0000_0000_0000 + values[4] * 0x1_0000_0000_0000 + values[5] * 0x1_0000_0000
        + values[6] * 0x1_0000 + values[7]
}

/// Whether a text spells these segments and this port.
pub open spec fn spells_segments(text: Seq<char>, segments: int, port: int) -> bool {
    ||| exists|groups: Seq<Seq<char>>, p: Seq<char>|
        {
            &&& text == #[trigger] full_text(groups, p)
            &&& groups.len() == 8
            &&& are_groups(groups)
            &&& is_number(p)
            &&& segments == segments_of(values_of(groups))
            &&& port == value_of(p)
        }
    ||| exists|head: Seq<Seq<char>>, tail: Seq<Seq<char>>, p: Seq<char>|
        {
            &&& text == #[trigger] short_text(head, tail, p)
            &&& head.len() + tail.len() < 8
            &&& are_groups(head)
            &&& are_groups(tail)
            &&& is_number(p)
            &&& segments == segments_of(short_values(head, tail))
            &&& port == value_of(p)
        }
}

/// The number that a hexadecimal digit stands for, if it is one.
fn hex_digit(c: char) -> (value: Option<u32>)
    ensures
        value is Some ==> is_hex(c) && value->0 == hex_value(c) && value->0 < 16,
{
    if '0' <= c && c <= '9' {
        Some(c as u32 - '0' as u32)
    } else if 'a' <= c && c <= 'f' {
        Some(c as u32 - 'a' as u32 + 10)
    } else if 'A' <= c && c <= 'F' {
        Some(c as u32 - 'A' as u32 + 10)
    } else {
        None
    }
}

/// The group that stands in a text from `start` on, and where it ends.
fn group(text: &str, start: usize, len: usize) -> (found: Option<(u16, usize)>)
    requires
        len == text@.len(),
        start <= len,
    ensures
        match found {
            Some((value, end)) => {
                &&& start < end <= len
                &&& is_group(text@.subrange(start as int, end as int))
                &&& value == group_value(text@.subrange(start as int, end as int))
            },
            None => true,
        },
{
    let mut value: u32 = 0;
    let mut count: usize = 0;
    while count < 4 && count < len - start
        invariant
            len == text@.len(),
            start <= len,
            count <= 4,
            start + count <= len,
            value == group_value(text@.subrange(start as int, start + count)),
            count == 0 ==> value == 0,
            count == 1 ==> value < 0x10,
            count == 2 ==> value < 0x100,
            count == 3 ==> value < 0x1000,
            count == 4 ==> value < 0x10000,
            forall|i: int| start <= i < start + count ==> is_hex(#[trigger] text@[i]),
        decreases 4 - count,
    {
        match hex_digit(text.get_char(start + count)) {
            None => {
                break;
            },
            Some(d) => {
                proof {
                    let group = text@.subrange(start as int, start + count + 1);
                    assert(group.drop_last() =~= text@.subrange(start as int, start + count));
                    assert(group.last() == text@[start + count]);
                }
                value = value * 16 + d;
                count = count + 1;
            },
        }
    }
    if count == 0 {
        None
    } else {
        proof {
            let group = text@.subrange(start as int, start + count);
            assert forall|i: int| 0 <= i < group.len() implies is_hex(#[trigger] group[i]) by {
                assert(group[i] == text@[start + i]);
            }
        }
        Some((value as u16, start + count))
    }
}

/// The groups, eight at most, that stand in a text from `start` on with colons between them, and
/// where they end.
fn groups(text: &str, start: usize, len: usize) -> (found: (
    Vec<u16>,
    usize,
    Ghost<Seq<Seq<char>>>,
))
    requires
        len == text@.len(),
        start <= len,
    ensures
        ({
            let (values, end, groups) = found;
            &&& start <= end <= len
            &&& values@.len() <= 8
            &&& are_groups(groups@)
            &&& text@.subrange(start as int, end as int) == joined(groups@)
            &&& values@.len() == groups@.len()
            &&& forall|i: int|
                0 <= i < values@.len() ==> #[trigger] values@[i] == group_value(groups@[i])
        }),
{
    let mut values: Vec<u16> = Vec::new();
    let mut end: usize = start;
    let ghost mut found: Seq<Seq<char>> = seq![];
    match group(text, start, len) {
        None => {
            assert(text@.subrange(start as int, start as int) =~= joined(found));
            return (values, start, Ghost(found));
        },
        Some((value, next)) => {
            proof {
                found = seq![text@.subrange(start as int, next as int)];
            }
            values.push(value);
            end = next;
        },
    }
    while values.len() < 8 && end < len && text.get_char(end) == ':'
        invariant
            len == text@.len(),
            start <= end <= len,
            0 < values@.len() <= 8,
            are_groups(found),
            text@.subrange(start as int, end as int) == joined(found),
            values@.len() == found.len(),
            forall|i: int|
                0 <= i < values@.len() ==> #[trigger] values@[i] == group_value(found[i]),
        decreases 8 - values.len(),
    {
        match group(text, end + 1, len) {
            None => {
                return (values, end, Ghost(found));
            },
            Some((value, next)) => {
                proof {
                    let last = text@.subrange(end + 1, next as int);
                    let all = found.push(last);
                    assert(all.drop_last() =~= found);
                    assert(joined(all) == joined(found).push(':') + last);
                    assert(text@.subrange(start as int, next as int) =~= joined(found).push(':')
                        + last);
                    found = all;
                }
                values.push(value);
                end = next;
            },
        }
    }
    (values, end, Ghost(found))
}

/// The number that eight groups stand for, the first one being the most significant.
pub fn from_groups(values: &Vec<u16>) -> (segments: u128)
    requires
        values@.len() == 8,
    ensures
        segments == values@[0] * 0x1_0000_0000_0000_0000_0000_0000_0000 + values@[1]
            * 0x1_0000_0000_0000_0000_0000_0000 + values@[2] * 0x1_0000_0000_0000_0000_0000
            + values@[3] * 0x1_0000_0000_0000_0000 + values@[4] * 0x1_0000_0000_0000 + values@[5]
            * 0x1_0000_0000 + values@[6] * 0x1_0000 + values@[7],
{
    values[0] as u128 * 0x1_0000_0000_0000_0000_0000_0000_0000 + values[1] as u128
        * 0x1_0000_0000_0000_0000_0000_0000 + values[2] as u128 * 0x1_0000_0000_0000_0000_0000
        + values[3] as u128 * 0x1_0000_0000_0000_0000 + values[4] as u128 * 0x1_0000_0000_0000
        + values[5] as u128 * 0x1_0000_0000 + values[6] as u128 * 0x1_0000 + values[7] as u128
}

/// The port behind the bracket that closes at `end`.
fn port_behind(text: &str, end: usize, len: usize) -> (found: Option<u16>)
    requires
        len == text@.len(),
        end <= len,
    ensures
        found is Some ==> {
            &&& end + 2 <= len
            &&& text@.skip(end as int) == seq![']', ':'] + text@.skip(end + 2)
            &&& is_number(text@.skip(end + 2))
            &&& value_of(text@.skip(end + 2)) == found->0
        },
{
    if len - end < 2 || text.get_char(end) != ']' || text.get_char(end + 1) != ':' {
        return None;
    }
    assert(text@.skip(end as int) =~= seq![']', ':'] + text@.skip(end + 2));
    digits(text, end + 2)
}

/// The segments and the port that a text spells, if it spells any.
pub fn spelled(text: &str) -> (found: Option<(u128, u16)>)
    ensures
        match found {
            Some((segments, port)) => spells_segments(text@, segments as int, port as int),
            None => true,
        },
{
    let len = text.unicode_len();
    if len == 0 || text.get_char(0) != '[' {
        return None;
    }
    let (mut values, end, Ghost(head)) = groups(text, 1, len);
    let ghost front = values@;
    if values.len() == 8 {
        match port_behind(text, end, len) {
            None => None,
            Some(port) => {
                let segments = from_groups(&values);
                proof {
                    let p = text@.skip(end + 2);
                    assert(text@ =~= seq!['['] + text@.subrange(1, end as int) + text@.skip(
                        end as int,
                    ));
                    assert(text@ =~= full_text(head, p));
                    assert(segments == segments_of(values_of(head)));
                }
                Some((segments, port))
            },
        }
    } else {
        if len - end < 2 || text.get_char(end) != ':' || text.get_char(end + 1) != ':' {
            return None;
        }
        let (back, last, Ghost(tail)) = groups(text, end + 2, len);
        if values.len() + back.len() >= 8 {
            return None;
        }
        match port_behind(text, last, len) {
            None => None,
            Some(port) => {
                while values.len() + back.len() < 8
                    invariant
                        front.len() <= values@.len(),
                        values@.len() + back@.len() <= 8,
                        values@.take(front.len() as int) == front,
                        forall|i: int|
                            front.len() <= i < values@.len() ==> #[trigger] values@[i] == 0,
                    decreases 8 - values.len(),
                {
                    values.push(0);
                    assert(values@.take(front.len() as int) =~= front);
                }
                let ghost middle = values@;
                let mut i: usize = 0;
                while i < back.len()
                    invariant
                        i <= back@.len(),
                        middle.len() + back@.len() == 8,
                        values@ == middle + back@.take(i as int),
                    decreases back.len() - i,
                {
                    values.push(back[i]);
                    i = i + 1;
                    assert(values@ =~= middle + back@.take(i as int));
                }
                let segments = from_groups(&values);
                proof {
                    let p = text@.skip(last + 2);
                    assert(text@ =~= seq!['['] + text@.subrange(1, end as int) + seq![':', ':']
                        + text@.subrange(end + 2, last as int) + text@.skip(last as int));
                    assert(text@ =~= short_text(head, tail, p));
                    assert(back@.take(i as int) =~= back@);
                    let spelled = short_values(head, tail);
                    assert(spelled.len() == 8);
                    assert forall|j: int|
                        0 <= j < 8 implies #[trigger] spelled[j] == values@[j] by {
                        if j < front.len() {
                            assert(values@[j] == middle[j]);
                            assert(middle.take(front.len() as int)[j] == front[j]);
                            assert(front[j] == group_value(head[j]));
                        } else if j < middle.len() {
                            assert(values@[j] == middle[j]);
                        } else {
                            assert(values@[j] == back@[j - middle.len()]);
                            assert(back@[j - middle.len()] == group_value(tail[j - middle.len()]));
                        }
                    }
                    assert(segments == segments_of(spelled));
                }
                Some((segments, port))
            },
        }
    }
}

/// The hexadecimal digits follow each other, in small letters and in capitals.
pub proof fn law_hex_digits_follow_each_other(c: char)
    requires
        is_hex(c),
    ensures
        0 <= hex_value(c) < 16,
        hex_value(c) < 10 ==> c as int == '0' as int + hex_value(c),
        hex_value(c) >= 10 ==> c as int == 'a' as int + hex_value(c) - 10 || c as int == 'A' as int
            + hex_value(c) - 10,
{
}

/// Every group is worth 65536 times the one behind it.
pub proof fn law_groups_keep_their_places(values: Seq<int>)
    requires
        values.len() == 8,
    ensures
        segments_of(values) == ((((((values[0] * 65536 + values[1]) * 65536 + values[2]) * 65536
            + values[3]) * 65536 + values[4]) * 65536 + values[5]) * 65536 + values[6]) * 65536
            + values[7],
{
}

} // verus!
