//! Network addresses of the probed hosts and the text that stands for them.
//!
//! An IPv4 address is written as four decimal octets with dots between
//! them. An IPv6 address is written as eight hexadecimal groups with colons
//! between them, where one `::` may stand for one or more groups of zero
//! and where an IPv4 address at the end may stand for the last two groups.

use vstd::prelude::*;
use vstd::string::*;
use crate::text::{
    all_digits, chars_of, decimal, digit_of, digit_value, digits_value, free_of, hexadecimal,
    join, join_push, push_decimal, push_hexadecimal, split, split_at_last_separator,
    split_at_separator, split_without_separator,
};

verus! {

/// The address of a target: four octets, or eight groups of sixteen bits.
#[derive(Clone, Copy, Debug, PartialEq, Eq)]
pub enum HostAddr {
    V4([u8; 4]),
    V6([u16; 8]),
}

/// The octet that `field` denotes: one to three decimal digits, without a
/// leading zero in front of another digit, of a value up to 255.
pub open spec fn octet_of(field: Seq<char>) -> Option<u16> {
    if 1 <= field.len() <= 3 && all_digits(field, 10) && (field.len() > 1 ==> field[0] != '0')
        && digits_value(field, 10) <= 255 {
        Some(digits_value(field, 10) as u16)
    } else {
        None
    }
}

/// The group that `field` denotes: one to four hexadecimal digits.
pub open spec fn group_of(field: Seq<char>) -> Option<u16> {
    if 1 <= field.len() <= 4 && all_digits(field, 16) {
        Some(digits_value(field, 16) as u16)
    } else {
        None
    }
}

/// The number that `field` denotes, as a group where `hex` holds and as an
/// octet where it does not.
pub open spec fn field_number(field: Seq<char>, hex: bool) -> Option<u16> {
    if hex {
        group_of(field)
    } else {
        octet_of(field)
    }
}

/// The numbers that the fields denote, if every field denotes one.
pub open spec fn numbers_of(fields: Seq<Seq<char>>, hex: bool) -> Option<Seq<u16>> {
    if forall|i: int| 0 <= i < fields.len() ==> (#[trigger] field_number(fields[i], hex)) is Some {
        Some(Seq::new(fields.len(), |i: int| field_number(fields[i], hex).unwrap()))
    } else {
        None
    }
}

/// The index of the first `::` in `text`.
pub open spec fn double_colon(text: Seq<char>) -> Option<int>
    decreases text.len(),
{
    if text.len() < 2 {
        None
    } else if text[0] == ':' && text[1] == ':' {
        Some(0)
    } else {
        match double_colon(text.drop_first()) {
            Some(k) => Some(k + 1),
            None => None,
        }
    }
}

/// The four octets that `text` denotes as an IPv4 address.
pub open spec fn octets_of(text: Seq<char>) -> Option<Seq<u16>> {
    match numbers_of(split(text, '.'), false) {
        Some(octets) => if octets.len() == 4 {
            Some(octets)
        } else {
            None
        },
        None => None,
    }
}

/// `n` groups of zero.
pub open spec fn zero_groups(n: int) -> Seq<u16> {
    Seq::new(n as nat, |i: int| 0u16)
}

/// The two groups that four octets fill.
pub open spec fn groups_of_octets(o: Seq<u16>) -> Seq<u16> {
    seq![(o[0] * 256 + o[1]) as u16, (o[2] * 256 + o[3]) as u16]
}

/// The groups that are written in `text`, colons between them: none in an
/// empty text. Where `dotted` holds, a last field with a dot in it is read
/// as an IPv4 address that stands for two groups.
pub open spec fn written_groups(text: Seq<char>, dotted: bool) -> Option<Seq<u16>> {
    let fields = split(text, ':');
    if text.len() == 0 {
        Some(Seq::empty())
    } else if dotted && !free_of(fields.last(), '.') {
        match (numbers_of(fields.drop_last(), true), octets_of(fields.last())) {
            (Some(front), Some(o)) => Some(front + groups_of_octets(o)),
            _ => None,
        }
    } else {
        numbers_of(fields, true)
    }
}

/// The eight groups that `text` denotes as an IPv6 address. Without `::`
/// all eight are written. Around the first `::` at most seven are written,
/// and the `::` stands for the groups of zero that are missing. An IPv4
/// address may only stand at the very end.
pub open spec fn groups_of(text: Seq<char>) -> Option<Seq<u16>> {
    match double_colon(text) {
        None => match written_groups(text, true) {
            Some(groups) => if groups.len() == 8 {
                Some(groups)
            } else {
                None
            },
            None => None,
        },
        Some(k) => match (
            written_groups(text.take(k), false),
            written_groups(text.skip(k + 2), true),
        ) {
            (Some(head), Some(tail)) => if head.len() + tail.len() <= 7 {
                Some(head + zero_groups(8 - head.len() - tail.len()) + tail)
            } else {
                None
            },
            _ => None,
        },
    }
}

/// The IPv4 address of the given octets.
pub open spec fn v4_of(o: Seq<u16>) -> HostAddr {
    HostAddr::V4([o[0] as u8, o[1] as u8, o[2] as u8, o[3] as u8])
}

/// The IPv6 address of the given groups.
pub open spec fn v6_of(g: Seq<u16>) -> HostAddr {
    HostAddr::V6([g[0], g[1], g[2], g[3], g[4], g[5], g[6], g[7]])
}

/// The address that `text` denotes: an IPv4 address if it reads as one,
/// else an IPv6 address if it reads as one.
pub open spec fn address_of(text: Seq<char>) -> Option<HostAddr> {
    match octets_of(text) {
        Some(o) => Some(v4_of(o)),
        None => match groups_of(text) {
            Some(g) => Some(v6_of(g)),
            None => None,
        },
    }
}

/// Sixteen to the power of `k`.
spec fn sixteen_to(k: nat) -> nat
    decreases k,
{
    if k == 0 {
        1
    } else {
        16 * sixteen_to((k - 1) as nat)
    }
}

/// Ten to the power of `k`.
spec fn ten_to(k: nat) -> nat
    decreases k,
{
    if k == 0 {
        1
    } else {
        10 * ten_to((k - 1) as nat)
    }
}

/// Reads the field `chars[from..to]` as an octet.
fn parse_octet(chars: &Vec<char>, from: usize, to: usize) -> (octet: Option<u16>)
    requires
        from <= to <= chars.len(),
    ensures
        octet == octet_of(chars@.subrange(from as int, to as int)),
{
    let ghost field = chars@.subrange(from as int, to as int);
    if to - from == 0 || to - from > 3 {
        return None;
    }
    if to - from > 1 && chars[from] == '0' {
        assert(field[0] == '0');
        return None;
    }
    let mut acc: u32 = 0;
    let mut i: usize = from;
    while i < to
        invariant
            from <= i <= to <= chars.len(),
            to - from <= 3,
            field == chars@.subrange(from as int, to as int),
            all_digits(field.take(i - from), 10),
            acc == digits_value(field.take(i - from), 10),
            acc < ten_to((i - from) as nat),
        decreases to - i,
    {
        reveal_with_fuel(ten_to, 4);
        let ghost seen = field.take(i - from);
        let ghost next = field.take(i - from + 1);
        assert(next.drop_last() =~= seen);
        assert(next.last() == chars@[i as int]);
        match digit_of(chars[i], false) {
            Some(d) => {
                acc = acc * 10 + d as u32;
                assert forall|j: int| 0 <= j < next.len() implies (#[trigger] digit_value(
                    next[j],
                    10,
                )) is Some by {
                    if j < seen.len() {
                        assert(next[j] == seen[j]);
                    }
                }
            },
            None => {
                assert(field[i - from] == chars@[i as int]);
                return None;
            },
        }
        i += 1;
    }
    assert(field.take(to - from) =~= field);
    if acc > 255 {
        None
    } else {
        Some(acc as u16)
    }
}

/// Reads the field `chars[from..to]` as a group.
fn parse_group(chars: &Vec<char>, from: usize, to: usize) -> (group: Option<u16>)
    requires
        from <= to <= chars.len(),
    ensures
        group == group_of(chars@.subrange(from as int, to as int)),
{
    let ghost field = chars@.subrange(from as int, to as int);
    if to - from == 0 || to - from > 4 {
        return None;
    }
    let mut acc: u32 = 0;
    let mut i: usize = from;
    while i < to
        invariant
            from <= i <= to <= chars.len(),
            to - from <= 4,
            field == chars@.subrange(from as int, to as int),
            all_digits(field.take(i - from), 16),
            acc == digits_value(field.take(i - from), 16),
            acc < sixteen_to((i - from) as nat),
        decreases to - i,
    {
        reveal_with_fuel(sixteen_to, 5);
        let ghost seen = field.take(i - from);
        let ghost next = field.take(i - from + 1);
        assert(next.drop_last() =~= seen);
        assert(next.last() == chars@[i as int]);
        match digit_of(chars[i], true) {
            Some(d) => {
                acc = acc * 16 + d as u32;
                assert forall|j: int| 0 <= j < next.len() implies (#[trigger] digit_value(
                    next[j],
                    16,
                )) is Some by {
                    if j < seen.len() {
                        assert(next[j] == seen[j]);
                    }
                }
            },
            None => {
                assert(field[i - from] == chars@[i as int]);
                return None;
            },
        }
        i += 1;
    }
    assert(field.take(to - from) =~= field);
    assert(acc < 65536) by {
        reveal_with_fuel(sixteen_to, 5);
    }
    Some(acc as u16)
}

/// Reads the fields of `chars[from..to]` between the separators `sep` as
/// groups, where `hex` holds, or as octets.
fn parse_numbers(chars: &Vec<char>, from: usize, to: usize, sep: char, hex: bool) -> (numbers:
    Option<Vec<u16>>)
    requires
        from <= to <= chars.len(),
    ensures
        match numbers {
            Some(v) => numbers_of(split(chars@.subrange(from as int, to as int), sep), hex) == Some(
                v@,
            ),
            None => numbers_of(split(chars@.subrange(from as int, to as int), sep), hex) is None,
        },
{
    let ghost text = chars@.subrange(from as int, to as int);
    let ghost mut done: Seq<Seq<char>> = Seq::empty();
    let mut out: Vec<u16> = Vec::new();
    let mut start: usize = from;
    let mut i: usize = from;
    assert(text.skip(0) =~= text);
    loop
        invariant
            from <= start <= i <= to <= chars.len(),
            text == chars@.subrange(from as int, to as int),
            forall|j: int| start <= j < i ==> chars@[j] != sep,
            split(text, sep) == done + split(text.skip(start - from), sep),
            done.len() == out.len(),
            forall|j: int|
                0 <= j < done.len() ==> field_number(#[trigger] done[j], hex) == Some(out@[j]),
        decreases to - i + 1, to - i,
    {
        let at_end = i == to;
        if at_end || chars[i] == sep {
            let ghost rest = text.skip(start - from);
            let ghost field = chars@.subrange(start as int, i as int);
            let number = if hex {
                parse_group(chars, start, i)
            } else {
                parse_octet(chars, start, i)
            };
            proof {
                assert forall|j: int| 0 <= j < i - start implies rest[j] != sep by {
                    assert(rest[j] == chars@[start + j]);
                }
                if at_end {
                    assert(rest =~= field);
                    split_without_separator(rest, sep);
                    assert(split(text, sep) =~= done.push(field));
                } else {
                    assert(rest[i - start] == sep);
                    split_at_separator(rest, sep, i - start);
                    assert(rest.take(i - start) =~= field);
                    assert(rest.skip(i - start + 1) =~= text.skip(i + 1 - from));
                    assert(split(text, sep) =~= done.push(field) + split(
                        text.skip(i + 1 - from),
                        sep,
                    ));
                }
                assert(split(text, sep)[done.len() as int] == field);
            }
            match number {
                Some(n) => {
                    out.push(n);
                    proof {
                        done = done.push(field);
                    }
                },
                None => {
                    assert(field_number(split(text, sep)[done.len() as int], hex) is None);
                    return None;
                },
            }
            if at_end {
                proof {
                    assert(split(text, sep) =~= done);
                    assert(out@ =~= Seq::new(
                        done.len(),
                        |j: int| field_number(done[j], hex).unwrap(),
                    ));
                }
                return Some(out);
            }
            i += 1;
            start = i;
        } else {
            i += 1;
        }
    }
}

/// Finds the first `::` in `chars[from..to]`, counted from `from`.
fn find_double_colon(chars: &Vec<char>, from: usize, to: usize) -> (found: Option<usize>)
    requires
        from <= to <= chars.len(),
    ensures
        match found {
            Some(k) => double_colon(chars@.subrange(from as int, to as int)) == Some(k as int)
                && from + k + 2 <= to,
            None => double_colon(chars@.subrange(from as int, to as int)) is None,
        },
{
    let ghost text = chars@.subrange(from as int, to as int);
    let mut i: usize = from;
    assert(text.skip(0) =~= text);
    while i < to
        invariant
            from <= i <= to <= chars.len(),
            text == chars@.subrange(from as int, to as int),
            double_colon(text) == match double_colon(text.skip(i - from)) {
                Some(k) => Some(k + i - from),
                None => None,
            },
        decreases to - i,
    {
        let ghost rest = text.skip(i - from);
        if i + 1 < to {
            assert(rest[0] == chars@[i as int] && rest[1] == chars@[i + 1]);
            if chars[i] == ':' && chars[i + 1] == ':' {
                return Some(i - from);
            }
        }
        assert(rest.drop_first() =~= text.skip(i + 1 - from));
        i += 1;
    }
    None
}

/// Puts `head`, then groups of zero, then `tail` into eight groups.
fn assemble(head: &Vec<u16>, tail: &Vec<u16>) -> (groups: [u16; 8])
    requires
        head.len() + tail.len() <= 8,
    ensures
        groups@ == head@ + zero_groups(8 - head.len() - tail.len()) + tail@,
{
    let mut groups: [u16; 8] = [0; 8];
    let gap: usize = 8 - head.len() - tail.len();
    let mut i: usize = 0;
    while i < head.len()
        invariant
            i <= head.len(),
            head.len() + tail.len() <= 8,
            forall|j: int| 0 <= j < i ==> groups@[j] == head@[j],
            forall|j: int| i <= j < 8 ==> groups@[j] == 0,
        decreases head.len() - i,
    {
        groups[i] = head[i];
        i += 1;
    }
    let mut k: usize = 0;
    while k < tail.len()
        invariant
            k <= tail.len(),
            gap == 8 - head.len() - tail.len(),
            head.len() + tail.len() <= 8,
            forall|j: int| 0 <= j < head.len() ==> groups@[j] == head@[j],
            forall|j: int| head.len() <= j < head.len() + gap ==> groups@[j] == 0,
            forall|j: int| 0 <= j < k ==> groups@[head.len() + gap + j] == tail@[j],
        decreases tail.len() - k,
    {
        groups[head.len() + gap + k] = tail[k];
        k += 1;
    }
    assert(groups@ =~= head@ + zero_groups(8 - head.len() - tail.len()) + tail@);
    groups
}

/// Says whether `chars[from..to]` holds a `c`.
fn holds(chars: &Vec<char>, from: usize, to: usize, c: char) -> (found: bool)
    requires
        from <= to <= chars.len(),
    ensures
        found == !free_of(chars@.subrange(from as int, to as int), c),
{
    let ghost text = chars@.subrange(from as int, to as int);
    let mut i: usize = from;
    while i < to
        invariant
            from <= i <= to <= chars.len(),
            text == chars@.subrange(from as int, to as int),
            forall|j: int| 0 <= j < i - from ==> text[j] != c,
        decreases to - i,
    {
        if chars[i] == c {
            assert(text[i - from] == c);
            return true;
        }
        i += 1;
    }
    false
}

/// Reads the groups written in `chars[from..to]`, see [`written_groups`].
fn parse_written(chars: &Vec<char>, from: usize, to: usize, dotted: bool) -> (groups: Option<
    Vec<u16>,
>)
    requires
        from <= to <= chars.len(),
    ensures
        match groups {
            Some(v) => written_groups(chars@.subrange(from as int, to as int), dotted) == Some(v@),
            None => written_groups(chars@.subrange(from as int, to as int), dotted) is None,
        },
{
    let ghost text = chars@.subrange(from as int, to as int);
    if from == to {
        let none: Vec<u16> = Vec::new();
        assert(none@ =~= Seq::<u16>::empty());
        return Some(none);
    }
    if !dotted {
        return parse_numbers(chars, from, to, ':', true);
    }
    let mut last: usize = to;
    while last > from && chars[last - 1] != ':'
        invariant
            from <= last <= to <= chars.len(),
            forall|j: int| last <= j < to ==> chars@[j] != ':',
        decreases last,
    {
        last -= 1;
    }
    let ghost fields = split(text, ':');
    let ghost field = chars@.subrange(last as int, to as int);
    proof {
        if last == from {
            assert forall|j: int| 0 <= j < text.len() implies text[j] != ':' by {
                assert(text[j] == chars@[from + j]);
            }
            split_without_separator(text, ':');
            assert(fields.drop_last() =~= Seq::<Seq<char>>::empty());
            assert(field =~= text);
        } else {
            let k = last - 1 - from;
            assert(text[k] == chars@[last - 1]);
            assert forall|j: int| k < j < text.len() implies text[j] != ':' by {
                assert(text[j] == chars@[from + j]);
            }
            split_at_last_separator(text, ':', k);
            assert(text.skip(k + 1) =~= field);
            assert(fields.drop_last() =~= split(text.take(k), ':'));
            assert(text.take(k) =~= chars@.subrange(from as int, last - 1));
        }
        assert(fields.last() == field);
    }
    if !holds(chars, last, to, '.') {
        return parse_numbers(chars, from, to, ':', true);
    }
    let front = if last == from {
        let none: Vec<u16> = Vec::new();
        let ghost no_fields = Seq::<Seq<char>>::empty();
        assert(numbers_of(no_fields, true) == Some(none@)) by {
            assert(none@ =~= Seq::new(0, |i: int| field_number(no_fields[i], true).unwrap()));
        }
        Some(none)
    } else {
        parse_numbers(chars, from, last - 1, ':', true)
    };
    let octets = parse_numbers(chars, last, to, '.', false);
    match (front, octets) {
        (Some(mut groups), Some(o)) => {
            if o.len() == 4 {
                proof {
                    let quads = split(field, '.');
                    assert(field_number(quads[0], false) is Some);
                    assert(field_number(quads[1], false) is Some);
                    assert(field_number(quads[2], false) is Some);
                    assert(field_number(quads[3], false) is Some);
                    assert(o@[0] == field_number(quads[0], false).unwrap());
                    assert(o@[1] == field_number(quads[1], false).unwrap());
                    assert(o@[2] == field_number(quads[2], false).unwrap());
                    assert(o@[3] == field_number(quads[3], false).unwrap());
                }
                let ghost before = groups@;
                groups.push(o[0] * 256 + o[1]);
                groups.push(o[2] * 256 + o[3]);
                assert(groups@ =~= before + groups_of_octets(o@));
                Some(groups)
            } else {
                None
            }
        },
        _ => None,
    }
}

/// Reads `chars[from..to]` as an IPv4 address, see [`octets_of`].
fn parse_v4(chars: &Vec<char>, from: usize, to: usize) -> (host: Option<HostAddr>)
    requires
        from <= to <= chars.len(),
    ensures
        match host {
            Some(h) => octets_of(chars@.subrange(from as int, to as int)) matches Some(o) && h
                == v4_of(o),
            None => octets_of(chars@.subrange(from as int, to as int)) is None,
        },
{
    match parse_numbers(chars, from, to, '.', false) {
        Some(o) => {
            if o.len() == 4 {
                let octets = [o[0] as u8, o[1] as u8, o[2] as u8, o[3] as u8];
                assert(octets =~= v4_of(o@)->V4_0);
                Some(HostAddr::V4(octets))
            } else {
                None
            }
        },
        None => None,
    }
}

/// Reads `chars[from..to]`, which has no `::`, as an IPv6 address.
fn parse_full(chars: &Vec<char>, from: usize, to: usize) -> (host: Option<HostAddr>)
    requires
        from <= to <= chars.len(),
        double_colon(chars@.subrange(from as int, to as int)) is None,
    ensures
        match host {
            Some(h) => groups_of(chars@.subrange(from as int, to as int)) matches Some(g) && h
                == v6_of(g),
            None => groups_of(chars@.subrange(from as int, to as int)) is None,
        },
{
    match parse_written(chars, from, to, true) {
        Some(g) => {
            if g.len() == 8 {
                let groups = [g[0], g[1], g[2], g[3], g[4], g[5], g[6], g[7]];
                assert(groups =~= v6_of(g@)->V6_0);
                Some(HostAddr::V6(groups))
            } else {
                None
            }
        },
        None => None,
    }
}

/// Reads `chars[from..to]`, whose first `::` stands at `from + k`, as an
/// IPv6 address.
fn parse_elided(chars: &Vec<char>, from: usize, to: usize, k: usize) -> (host: Option<HostAddr>)
    requires
        from <= to <= chars.len(),
        from + k + 2 <= to,
        double_colon(chars@.subrange(from as int, to as int)) == Some(k as int),
    ensures
        match host {
            Some(h) => groups_of(chars@.subrange(from as int, to as int)) matches Some(g) && h
                == v6_of(g),
            None => groups_of(chars@.subrange(from as int, to as int)) is None,
        },
{
    let ghost text = chars@.subrange(from as int, to as int);
    assert(text.take(k as int) =~= chars@.subrange(from as int, from + k));
    assert(text.skip(k + 2) =~= chars@.subrange(from + k + 2, to as int));
    let head = parse_written(chars, from, from + k, false);
    let tail = parse_written(chars, from + k + 2, to, true);
    match (head, tail) {
        (Some(h), Some(t)) => {
            if h.len() <= 7 && t.len() <= 7 - h.len() {
                let groups = assemble(&h, &t);
                assert(groups =~= v6_of(groups@)->V6_0);
                Some(HostAddr::V6(groups))
            } else {
                None
            }
        },
        _ => None,
    }
}

/// Reads `chars[from..to]` as an IPv6 address, see [`groups_of`].
fn parse_v6(chars: &Vec<char>, from: usize, to: usize) -> (host: Option<HostAddr>)
    requires
        from <= to <= chars.len(),
    ensures
        match host {
            Some(h) => groups_of(chars@.subrange(from as int, to as int)) matches Some(g) && h
                == v6_of(g),
            None => groups_of(chars@.subrange(from as int, to as int)) is None,
        },
{
    match find_double_colon(chars, from, to) {
        None => parse_full(chars, from, to),
        Some(k) => parse_elided(chars, from, to, k),
    }
}

/// Reads `chars[from..to]` as an address, see [`address_of`].
pub fn parse_ip_in(chars: &Vec<char>, from: usize, to: usize) -> (host: Option<HostAddr>)
    requires
        from <= to <= chars.len(),
    ensures
        host == address_of(chars@.subrange(from as int, to as int)),
{
    match parse_v4(chars, from, to) {
        Some(host) => Some(host),
        None => parse_v6(chars, from, to),
    }
}

/// Reads an address, see [`address_of`].
pub fn parse_ip(text: &str) -> (host: Option<HostAddr>)
    ensures
        host == address_of(text@),
{
    let chars = chars_of(text);
    assert(chars@.subrange(0, chars.len() as int) =~= chars@);
    parse_ip_in(&chars, 0, chars.len())
}

/// The text of an IPv4 address: its octets in decimal, with dots between.
pub open spec fn octets_text(o: Seq<u8>) -> Seq<char> {
    join(o.map_values(|x: u8| decimal(x as nat)), '.')
}

/// The groups in hexadecimal.
pub open spec fn hex_fields(g: Seq<u16>) -> Seq<Seq<char>> {
    g.map_values(|x: u16| hexadecimal(x as nat))
}

/// How many groups of zero stand in a row from index `i` on.
pub open spec fn zero_run_at(g: Seq<u16>, i: int) -> nat
    decreases g.len() - i,
{
    if 0 <= i < g.len() && g[i] == 0 {
        1 + zero_run_at(g, i + 1)
    } else {
        0
    }
}

/// Start and length of the longest run of zero groups that starts in front
/// of index `upto`, the first of them where several are as long.
pub open spec fn longest_zero_run(g: Seq<u16>, upto: int) -> (int, nat)
    decreases upto,
{
    if upto <= 0 {
        (0, 0)
    } else {
        let best = longest_zero_run(g, upto - 1);
        let here = zero_run_at(g, upto - 1);
        if here > best.1 {
            (upto - 1, here)
        } else {
            best
        }
    }
}

/// The run of zero groups that is written as `::`: the longest one if it
/// has at least two groups.
pub open spec fn elided_run(g: Seq<u16>) -> Option<(int, nat)> {
    let best = longest_zero_run(g, g.len() as int);
    if best.1 >= 2 {
        Some(best)
    } else {
        None
    }
}

/// Whether the groups are those of an IPv4 address mapped into IPv6: five
/// groups of zero, then `ffff`, then the address.
pub open spec fn is_mapped(g: Seq<u16>) -> bool {
    g[0] == 0 && g[1] == 0 && g[2] == 0 && g[3] == 0 && g[4] == 0 && g[5] == 0xffff
}

/// The octets of the IPv4 address in the last two groups.
pub open spec fn mapped_octets(g: Seq<u16>) -> Seq<u8> {
    seq![(g[6] / 256) as u8, (g[6] % 256) as u8, (g[7] / 256) as u8, (g[7] % 256) as u8]
}

/// The text of an IPv6 address: its groups in hexadecimal with colons
/// between, the elided run written as `::`. A mapped IPv4 address is
/// written as `::ffff:` and the address in dotted decimal.
pub open spec fn groups_text(g: Seq<u16>) -> Seq<char> {
    if is_mapped(g) {
        seq![':', ':'] + hexadecimal(0xffff) + seq![':'] + octets_text(mapped_octets(g))
    } else {
        match elided_run(g) {
            Some((start, n)) => join(hex_fields(g.take(start)), ':') + seq![':', ':'] + join(
                hex_fields(g.skip(start + n)),
                ':',
            ),
            None => join(hex_fields(g), ':'),
        }
    }
}

/// The text that stands for `h`.
pub open spec fn host_text(h: HostAddr) -> Seq<char> {
    match h {
        HostAddr::V4(o) => octets_text(o@),
        HostAddr::V6(g) => groups_text(g@),
    }
}

/// Finds the longest run of zero groups, see [`longest_zero_run`].
fn find_zero_run(g: &[u16; 8]) -> (run: (usize, usize))
    ensures
        (run.0 as int, run.1 as nat) == longest_zero_run(g@, 8),
        run.0 + run.1 <= 8,
{
    let mut best: (usize, usize) = (0, 0);
    let mut i: usize = 0;
    while i < 8
        invariant
            i <= 8,
            (best.0 as int, best.1 as nat) == longest_zero_run(g@, i as int),
            best.0 + best.1 <= 8,
        decreases 8 - i,
    {
        let mut n: usize = 0;
        while i + n < 8 && g[i + n] == 0
            invariant
                i < 8,
                i + n <= 8,
                zero_run_at(g@, i as int) == n + zero_run_at(g@, i + n),
            decreases 8 - n,
        {
            n += 1;
        }
        if n > best.1 {
            best = (i, n);
        }
        i += 1;
    }
    best
}

/// Appends the groups `g[from..to]` in hexadecimal, with colons between.
fn push_groups(out: &mut String, g: &[u16; 8], from: usize, to: usize)
    requires
        from <= to <= 8,
    ensures
        final(out)@ == old(out)@ + join(hex_fields(g@.subrange(from as int, to as int)), ':'),
{
    let mut i: usize = from;
    assert(hex_fields(g@.subrange(from as int, from as int)) =~= Seq::<Seq<char>>::empty());
    while i < to
        invariant
            from <= i <= to <= 8,
            out@ == old(out)@ + join(hex_fields(g@.subrange(from as int, i as int)), ':'),
        decreases to - i,
    {
        let ghost fields = hex_fields(g@.subrange(from as int, i as int));
        let ghost field = hexadecimal(g@[i as int] as nat);
        proof {
            reveal_strlit(":");
            join_push(fields, ':', field);
            assert(hex_fields(g@.subrange(from as int, i + 1)) =~= fields.push(field));
        }
        if i > from {
            out.append(":");
        }
        push_hexadecimal(out, g[i]);
        assert(out@ =~= old(out)@ + join(fields.push(field), ':'));
        i += 1;
    }
}

/// Appends the four octets in decimal, with dots between.
fn push_octets(out: &mut String, o: &[u8; 4])
    ensures
        final(out)@ == old(out)@ + octets_text(o@),
{
    let ghost fields = o@.map_values(|x: u8| decimal(x as nat));
    proof {
        reveal_strlit(".");
        let none = Seq::<Seq<char>>::empty();
        join_push(none, '.', fields[0]);
        join_push(none.push(fields[0]), '.', fields[1]);
        join_push(none.push(fields[0]).push(fields[1]), '.', fields[2]);
        join_push(none.push(fields[0]).push(fields[1]).push(fields[2]), '.', fields[3]);
        assert(fields =~= none.push(fields[0]).push(fields[1]).push(fields[2]).push(fields[3]));
    }
    push_decimal(out, o[0] as u64);
    out.append(".");
    push_decimal(out, o[1] as u64);
    out.append(".");
    push_decimal(out, o[2] as u64);
    out.append(".");
    push_decimal(out, o[3] as u64);
    assert(out@ =~= old(out)@ + join(fields, '.'));
}

impl HostAddr {
    /// Writes the address, see [`host_text`].
    pub fn to_text(&self) -> (text: String)
        ensures
            text@ == host_text(*self),
    {
        let mut out = String::new();
        match self {
            HostAddr::V4(o) => {
                push_octets(&mut out, o);
            },
            HostAddr::V6(g) => {
                if g[0] == 0 && g[1] == 0 && g[2] == 0 && g[3] == 0 && g[4] == 0 && g[5] == 0xffff {
                    let o = [(g[6] / 256) as u8, (g[6] % 256) as u8, (g[7] / 256) as u8, (g[7]
                        % 256) as u8];
                    proof {
                        reveal_strlit("::");
                        reveal_strlit(":");
                        assert(o@ =~= mapped_octets(g@));
                    }
                    out.append("::");
                    push_hexadecimal(&mut out, 0xffff);
                    out.append(":");
                    push_octets(&mut out, &o);
                    assert(out@ =~= groups_text(g@));
                } else {
                    let run = find_zero_run(g);
                    if run.1 >= 2 {
                        proof {
                            reveal_strlit("::");
                            assert(g@.take(run.0 as int) =~= g@.subrange(0, run.0 as int));
                            assert(g@.skip(run.0 + run.1) =~= g@.subrange(run.0 + run.1, 8));
                        }
                        push_groups(&mut out, g, 0, run.0);
                        out.append("::");
                        push_groups(&mut out, g, run.0 + run.1, 8);
                        assert(out@ =~= groups_text(g@));
                    } else {
                        assert(g@.subrange(0, 8) =~= g@);
                        push_groups(&mut out, g, 0, 8);
                    }
                }
            },
        }
        out
    }
}

} // verus!
