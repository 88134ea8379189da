//! Why the text of an address stands for this address and for no other.

use vstd::prelude::*;
use crate::address::{
    address_of, double_colon, elided_run, field_number, groups_of, groups_of_octets, groups_text,
    hex_fields, host_text, is_mapped, longest_zero_run, mapped_octets, numbers_of, octets_of,
    octets_text, v4_of, v6_of, written_groups, zero_groups, zero_run_at, HostAddr,
};
use crate::text::{
    decimal, decimal_denotes, digit_value, digits_hold_no_separator, free_of, hexadecimal,
    hexadecimal_denotes, join, join_free_of, position_is_first, split, split_at_separator,
    split_of_join, split_without_separator,
};

verus! {

/// Whether two colons stand side by side at index `i` of `text`.
spec fn colon_pair_at(text: Seq<char>, i: int) -> bool {
    0 <= i < text.len() - 1 && text[i] == ':' && text[i + 1] == ':'
}

/// Whether the character at index `i` of `text`, if it is a colon, stands
/// between two characters that are not colons.
spec fn colon_alone_at(text: Seq<char>, i: int) -> bool {
    text[i] == ':' ==> 0 < i < text.len() - 1 && text[i - 1] != ':' && text[i + 1] != ':'
}

/// Whether every colon of `text` stands between two characters that are
/// not colons.
spec fn colons_stand_alone(text: Seq<char>) -> bool {
    forall|i: int| 0 <= i < text.len() ==> #[trigger] colon_alone_at(text, i)
}

/// A text in which no two colons stand side by side has no `::`.
proof fn double_colon_absent(text: Seq<char>)
    requires
        forall|i: int| !#[trigger] colon_pair_at(text, i),
    ensures
        double_colon(text) is None,
    decreases text.len(),
{
    if text.len() >= 2 {
        let rest = text.drop_first();
        assert(!colon_pair_at(text, 0));
        assert forall|i: int| !#[trigger] colon_pair_at(rest, i) by {
            if 0 <= i < rest.len() - 1 {
                assert(!colon_pair_at(text, i + 1));
                assert(rest[i] == text[i + 1] && rest[i + 1] == text[i + 2]);
            }
        }
        double_colon_absent(rest);
    }
}

/// Two colons side by side, with no such pair in front of them, are the
/// first `::`.
proof fn double_colon_found(text: Seq<char>, k: int)
    requires
        colon_pair_at(text, k),
        forall|i: int| 0 <= i < k ==> !#[trigger] colon_pair_at(text, i),
    ensures
        double_colon(text) == Some(k),
    decreases k,
{
    if k > 0 {
        let rest = text.drop_first();
        assert(!colon_pair_at(text, 0));
        assert(rest[k - 1] == text[k] && rest[k] == text[k + 1]);
        assert forall|i: int| 0 <= i < k - 1 implies !#[trigger] colon_pair_at(rest, i) by {
            assert(!colon_pair_at(text, i + 1));
            assert(rest[i] == text[i + 1] && rest[i + 1] == text[i + 2]);
        }
        double_colon_found(rest, k - 1);
    }
}

/// The groups in hexadecimal are fields that read back as the groups; joined
/// with colons they give a text that is empty only without groups and in
/// which every colon stands alone.
proof fn hex_fields_read_back(g: Seq<u16>)
    ensures
        numbers_of(hex_fields(g), true) == Some(g),
        forall|i: int| 0 <= i < g.len() ==> free_of(#[trigger] hex_fields(g)[i], ':'),
        forall|i: int| 0 <= i < g.len() ==> free_of(#[trigger] hex_fields(g)[i], '.'),
        g.len() >= 1 ==> split(join(hex_fields(g), ':'), ':') == hex_fields(g),
        g.len() >= 1 ==> join(hex_fields(g), ':').len() >= 1,
        g.len() == 0 ==> join(hex_fields(g), ':').len() == 0,
        colons_stand_alone(join(hex_fields(g), ':')),
        free_of(join(hex_fields(g), ':'), '.'),
    decreases g.len(),
{
    let fields = hex_fields(g);
    assert forall|i: int| 0 <= i < g.len() implies field_number(#[trigger] fields[i], true) == Some(
        g[i],
    ) && free_of(fields[i], ':') && free_of(fields[i], '.') by {
        hexadecimal_denotes(g[i] as nat);
        digits_hold_no_separator(fields[i], 16);
    }
    assert(numbers_of(fields, true) == Some(g)) by {
        assert(Seq::new(fields.len(), |i: int| field_number(fields[i], true).unwrap()) =~= g);
    }
    join_free_of(fields, ':', '.');
    if g.len() >= 1 {
        split_of_join(fields, ':');
        let last = fields.last();
        hexadecimal_denotes(g.last() as nat);
        if g.len() >= 2 {
            let front = g.drop_last();
            assert(fields.drop_last() =~= hex_fields(front));
            hex_fields_read_back(front);
            let head = join(hex_fields(front), ':');
            let text = join(fields, ':');
            assert(text == head + seq![':'] + last);
            assert forall|i: int| 0 <= i < text.len() implies #[trigger] colon_alone_at(
                text,
                i,
            ) by {
                if i < head.len() {
                    assert(colon_alone_at(head, i));
                    assert(text[i] == head[i]);
                    if text[i] == ':' {
                        assert(text[i - 1] == head[i - 1]);
                        assert(text[i + 1] == head[i + 1]);
                    }
                } else if i == head.len() {
                    assert(colon_alone_at(head, i - 1));
                    assert(text[i - 1] == head[i - 1]);
                    assert(text[i + 1] == last[0]);
                } else {
                    assert(text[i] == last[i - head.len() - 1]);
                }
            }
        } else {
            assert(fields =~= seq![last]);
        }
    }
}

/// A run of zeros counted from `i` holds zeros and ends within the groups.
proof fn zero_run_holds_zeros(g: Seq<u16>, i: int)
    requires
        0 <= i <= g.len(),
    ensures
        i + zero_run_at(g, i) <= g.len(),
        forall|k: int| i <= k < i + zero_run_at(g, i) ==> g[k] == 0,
    decreases g.len() - i,
{
    if i < g.len() && g[i] == 0 {
        zero_run_holds_zeros(g, i + 1);
    }
}

/// The longest run is a run: it starts in front of `upto` and has the
/// length that is counted from its start.
proof fn longest_zero_run_is_run(g: Seq<u16>, upto: int)
    requires
        0 <= upto <= g.len(),
    ensures
        longest_zero_run(g, upto).1 > 0 ==> 0 <= longest_zero_run(g, upto).0 < upto && zero_run_at(
            g,
            longest_zero_run(g, upto).0,
        ) == longest_zero_run(g, upto).1,
    decreases upto,
{
    if upto > 0 {
        longest_zero_run_is_run(g, upto - 1);
    }
}

/// The run that is written as `::` holds zeros only, has at least two
/// groups, and is the first of the longest runs: no run is longer, and none
/// that starts further to the front is as long.
pub proof fn elided_run_is_first_longest(g: Seq<u16>)
    ensures
        elided_run(g) matches Some((start, n)) ==> {
            &&& n >= 2
            &&& 0 <= start && start + n <= g.len()
            &&& forall|k: int| start <= k < start + n ==> g[k] == 0
            &&& forall|i: int| 0 <= i < g.len() ==> zero_run_at(g, i) <= n
            &&& forall|i: int| 0 <= i < start ==> zero_run_at(g, i) < n
        },
        elided_run(g) is None ==> forall|i: int| 0 <= i < g.len() ==> zero_run_at(g, i) < 2,
{
    let len = g.len() as int;
    longest_zero_run_is_run(g, len);
    longest_zero_run_dominates(g, len);
    let best = longest_zero_run(g, len);
    if best.1 > 0 {
        zero_run_holds_zeros(g, best.0);
    }
}

/// No run that starts in front of `upto` is longer than the longest run,
/// and none that starts in front of the longest run is as long.
proof fn longest_zero_run_dominates(g: Seq<u16>, upto: int)
    requires
        0 <= upto <= g.len(),
    ensures
        forall|i: int| 0 <= i < upto ==> zero_run_at(g, i) <= longest_zero_run(g, upto).1,
        forall|i: int|
            0 <= i < longest_zero_run(g, upto).0 ==> zero_run_at(g, i) < longest_zero_run(
                g,
                upto,
            ).1,
    decreases upto,
{
    if upto > 0 {
        longest_zero_run_dominates(g, upto - 1);
        longest_zero_run_is_run(g, upto - 1);
    }
}

/// The written form of an IPv4 address reads back as that address.
proof fn octets_text_reads_back(o: Seq<u8>)
    requires
        o.len() == 4,
    ensures
        octets_of(octets_text(o)) == Some(o.map_values(|x: u8| x as u16)),
{
    let fields = o.map_values(|x: u8| decimal(x as nat));
    assert forall|i: int| 0 <= i < fields.len() implies field_number(
        #[trigger] fields[i],
        false,
    ) == Some(o[i] as u16) && free_of(fields[i], '.') by {
        decimal_denotes(o[i] as nat);
        digits_hold_no_separator(fields[i], 10);
    }
    split_of_join(fields, '.');
    let read = Seq::new(fields.len(), |i: int| field_number(fields[i], false).unwrap());
    assert(read =~= o.map_values(|x: u8| x as u16));
}

/// What stands behind the `::` of a mapped IPv4 address: `ffff`, a colon and
/// the address in dotted decimal.
spec fn mapped_tail(g: Seq<u16>) -> Seq<char> {
    hexadecimal(0xffff) + seq![':'] + octets_text(mapped_octets(g))
}

/// The dotted form of the octets holds a dot and no colon.
proof fn octets_text_shape(o: Seq<u8>)
    requires
        o.len() == 4,
    ensures
        free_of(octets_text(o), ':'),
        !free_of(octets_text(o), '.'),
{
    let decimals = o.map_values(|x: u8| decimal(x as nat));
    assert forall|i: int| 0 <= i < decimals.len() implies free_of(#[trigger] decimals[i], ':') by {
        decimal_denotes(o[i] as nat);
        digits_hold_no_separator(decimals[i], 10);
    }
    join_free_of(decimals, '.', ':');
    let dotted = octets_text(o);
    assert(dotted[join(decimals.drop_last(), '.').len() as int] == '.');
}

/// What stands behind the `::` of a mapped IPv4 address is split by its
/// colon into `ffff` and the dotted address.
proof fn mapped_tail_fields(g: Seq<u16>)
    requires
        g.len() == 8,
    ensures
        split(mapped_tail(g), ':') == seq![hexadecimal(0xffff), octets_text(mapped_octets(g))],
{
    let marker = hexadecimal(0xffff);
    let dotted = octets_text(mapped_octets(g));
    let tail = mapped_tail(g);
    hexadecimal_denotes(0xffff);
    digits_hold_no_separator(marker, 16);
    octets_text_shape(mapped_octets(g));
    let k = marker.len() as int;
    assert(tail[k] == ':');
    assert forall|i: int| 0 <= i < k implies tail[i] != ':' by {
        assert(tail[i] == marker[i]);
    }
    split_at_separator(tail, ':', k);
    split_without_separator(dotted, ':');
    assert(tail.take(k) =~= marker);
    assert(tail.skip(k + 1) =~= dotted);
}

/// What stands behind the `::` of a mapped IPv4 address reads as the last
/// three groups.
proof fn mapped_tail_reads_back(g: Seq<u16>)
    requires
        g.len() == 8,
    ensures
        written_groups(mapped_tail(g), true) == Some(seq![0xffffu16, g[6], g[7]]),
{
    let marker = hexadecimal(0xffff);
    let octets = mapped_octets(g);
    let dotted = octets_text(octets);
    let fields = split(mapped_tail(g), ':');
    mapped_tail_fields(g);
    hexadecimal_denotes(0xffff);
    octets_text_shape(octets);
    octets_text_reads_back(octets);
    assert(fields.last() == dotted);
    assert(fields.drop_last() =~= seq![marker]);
    assert(numbers_of(seq![marker], true) == Some(seq![0xffffu16])) by {
        assert(field_number(seq![marker][0], true) == Some(0xffffu16));
        let read = Seq::new(1, |i: int| field_number(seq![marker][i], true).unwrap());
        assert(read =~= seq![0xffffu16]);
    }
    let read = octets.map_values(|x: u8| x as u16);
    assert(groups_of_octets(read) =~= seq![g[6], g[7]]);
    assert(seq![0xffffu16] + seq![g[6], g[7]] =~= seq![0xffffu16, g[6], g[7]]);
}

/// A text that begins with a colon reads as no IPv4 address.
proof fn colon_in_front_is_no_ipv4(text: Seq<char>)
    requires
        text.len() > 0,
        text[0] == ':',
    ensures
        octets_of(text) is None,
{
    position_is_first(text, '.');
    let first = split(text, '.')[0];
    assert(first[0] == ':');
    assert(digit_value(first[0], 10) is None);
    assert(field_number(first, false) is None);
}

/// The written form of a mapped IPv4 address reads back as its groups, and
/// does not read as an IPv4 address.
proof fn mapped_text_reads_back(g: Seq<u16>)
    requires
        g.len() == 8,
        is_mapped(g),
    ensures
        groups_of(groups_text(g)) == Some(g),
        octets_of(groups_text(g)) is None,
{
    let text = groups_text(g);
    let tail = mapped_tail(g);
    assert(text =~= seq![':', ':'] + tail);
    assert(colon_pair_at(text, 0));
    double_colon_found(text, 0);
    assert(text.take(0) =~= Seq::<char>::empty());
    assert(text.skip(2) =~= tail);
    mapped_tail_reads_back(g);
    hexadecimal_denotes(0xffff);
    let written = seq![0xffffu16, g[6], g[7]];
    assert(Seq::<u16>::empty() + zero_groups(5) + written =~= g);
    colon_in_front_is_no_ipv4(text);
}

/// The groups written in full, colons between them, read back as these
/// groups, and the text has neither a `::` nor a dot.
proof fn full_text_reads_back(g: Seq<u16>)
    requires
        g.len() >= 1,
    ensures
        double_colon(join(hex_fields(g), ':')) is None,
        written_groups(join(hex_fields(g), ':'), true) == Some(g),
        written_groups(join(hex_fields(g), ':'), false) == Some(g),
        free_of(join(hex_fields(g), ':'), '.'),
{
    let text = join(hex_fields(g), ':');
    hex_fields_read_back(g);
    assert forall|i: int| !#[trigger] colon_pair_at(text, i) by {
        if 0 <= i < text.len() - 1 {
            assert(colon_alone_at(text, i));
        }
    }
    double_colon_absent(text);
    assert(free_of(hex_fields(g).last(), '.'));
}

/// The groups in front of and behind an elided run, written around a `::`,
/// are found again on the two sides of the first `::` of the text.
proof fn elided_text_sides(head_groups: Seq<u16>, tail_groups: Seq<u16>)
    ensures
        ({
            let head = join(hex_fields(head_groups), ':');
            let tail = join(hex_fields(tail_groups), ':');
            let text = head + seq![':', ':'] + tail;
            &&& double_colon(text) == Some(head.len() as int)
            &&& text.take(head.len() as int) == head
            &&& text.skip(head.len() as int + 2) == tail
            &&& free_of(text, '.')
        }),
{
    let head = join(hex_fields(head_groups), ':');
    let tail = join(hex_fields(tail_groups), ':');
    let text = head + seq![':', ':'] + tail;
    let k = head.len() as int;
    hex_fields_read_back(head_groups);
    hex_fields_read_back(tail_groups);
    assert(colon_pair_at(text, k));
    assert forall|i: int| 0 <= i < k implies !#[trigger] colon_pair_at(text, i) by {
        assert(colon_alone_at(head, i));
        assert(text[i] == head[i]);
        if i + 1 < k {
            assert(text[i + 1] == head[i + 1]);
        }
    }
    double_colon_found(text, k);
    assert(text.take(k) =~= head);
    assert(text.skip(k + 2) =~= tail);
    assert forall|i: int| 0 <= i < text.len() implies text[i] != '.' by {
        if i < k {
            assert(text[i] == head[i]);
        } else if i >= k + 2 {
            assert(text[i] == tail[i - k - 2]);
        }
    }
}

/// The groups on one side of a `::` read back as they were written.
proof fn side_reads_back(groups: Seq<u16>, dotted: bool)
    ensures
        written_groups(join(hex_fields(groups), ':'), dotted) == Some(groups),
{
    hex_fields_read_back(groups);
    if groups.len() >= 1 {
        assert(free_of(hex_fields(groups).last(), '.'));
    } else {
        assert(groups =~= Seq::<u16>::empty());
    }
}

/// The written form of an IPv6 address with an elided run reads back as
/// that address.
proof fn elided_text_reads_back(g: Seq<u16>, start: int, n: nat)
    requires
        g.len() == 8,
        n >= 1,
        0 <= start,
        start + n <= 8,
        forall|k: int| start <= k < start + n ==> g[k] == 0,
    ensures
        ({
            let text = join(hex_fields(g.take(start)), ':') + seq![':', ':'] + join(
                hex_fields(g.skip(start + n)),
                ':',
            );
            groups_of(text) == Some(g) && free_of(text, '.')
        }),
{
    let head_groups = g.take(start);
    let tail_groups = g.skip(start + n);
    elided_text_sides(head_groups, tail_groups);
    side_reads_back(head_groups, false);
    side_reads_back(tail_groups, true);
    assert(head_groups + zero_groups(8 - head_groups.len() - tail_groups.len()) + tail_groups
        =~= g);
}

/// The written form of an IPv6 address reads back as that address, and
/// does not read as an IPv4 address.
proof fn groups_text_reads_back(g: Seq<u16>)
    requires
        g.len() == 8,
    ensures
        groups_of(groups_text(g)) == Some(g),
        octets_of(groups_text(g)) is None,
{
    let text = groups_text(g);
    if is_mapped(g) {
        mapped_text_reads_back(g);
    } else {
        match elided_run(g) {
            None => {
                full_text_reads_back(g);
            },
            Some((start, n)) => {
                longest_zero_run_is_run(g, 8);
                zero_run_holds_zeros(g, start);
                elided_text_reads_back(g, start, n);
            },
        }
        split_without_separator(text, '.');
    }
}

/// The octets that were read are the octets of the address.
proof fn v4_of_octets(o: [u8; 4])
    ensures
        v4_of(o@.map_values(|x: u8| x as u16)) == HostAddr::V4(o),
{
    let read = o@.map_values(|x: u8| x as u16);
    assert(v4_of(read)->V4_0 =~= o);
}

/// The groups that were read are the groups of the address.
proof fn v6_of_groups(g: [u16; 8])
    ensures
        v6_of(g@) == HostAddr::V6(g),
{
    assert(v6_of(g@)->V6_0 =~= g);
}

/// Reading what was written for an address gives that address: the text
/// of a host stands for this host and for no other.
pub proof fn host_text_reads_back(h: HostAddr)
    ensures
        address_of(host_text(h)) == Some(h),
{
    match h {
        HostAddr::V4(o) => {
            octets_text_reads_back(o@);
            v4_of_octets(o);
        },
        HostAddr::V6(g) => {
            groups_text_reads_back(g@);
            v6_of_groups(g);
        },
    }
}

} // verus!
