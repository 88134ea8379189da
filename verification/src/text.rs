//! Characters, digits and separated fields: what the textual encodings are
//! built from.

use vstd::prelude::*;
use vstd::string::*;

verus! {

/// The characters of `text`, in order.
pub fn chars_of(text: &str) -> (chars: Vec<char>)
    ensures
        chars@ == text@,
{
    let mut chars: Vec<char> = Vec::new();
    for c in it: text.chars()
        invariant
            chars@ == it.seq().take(it.index()),
            it.seq() == text@,
    {
        chars.push(c);
    }
    chars
}

/// The digit of value `d`, lower case above nine.
pub open spec fn digit_char(d: nat) -> char {
    if d < 10 {
        (('0' as nat) + d) as char
    } else {
        (('a' as nat) + d - 10) as char
    }
}

/// The value of `c` as a digit in base `radix`, which is 10 or 16. Letters
/// count in either case.
pub open spec fn digit_value(c: char, radix: nat) -> Option<nat> {
    if '0' <= c <= '9' {
        Some((c as nat - '0' as nat) as nat)
    } else if radix == 16 && 'a' <= c <= 'f' {
        Some((c as nat - 'a' as nat + 10) as nat)
    } else if radix == 16 && 'A' <= c <= 'F' {
        Some((c as nat - 'A' as nat + 10) as nat)
    } else {
        None
    }
}

/// Whether `s` holds digits of base `radix` only.
pub open spec fn all_digits(s: Seq<char>, radix: nat) -> bool {
    forall|i: int| 0 <= i < s.len() ==> (#[trigger] digit_value(s[i], radix)) is Some
}

/// The number that the digits `s` denote in base `radix`.
pub open spec fn digits_value(s: Seq<char>, radix: nat) -> nat
    decreases s.len(),
{
    if s.len() == 0 {
        0
    } else {
        digits_value(s.drop_last(), radix) * radix + digit_value(s.last(), radix).unwrap()
    }
}

/// Decimal notation of `n`, without leading zeros.
pub open spec fn decimal(n: nat) -> Seq<char>
    decreases n,
{
    if n < 10 {
        seq![digit_char(n)]
    } else {
        decimal(n / 10).push(digit_char(n % 10))
    }
}

/// Hexadecimal notation of `n`, in lower case and without leading zeros.
pub open spec fn hexadecimal(n: nat) -> Seq<char>
    decreases n,
{
    if n < 16 {
        seq![digit_char(n)]
    } else {
        hexadecimal(n / 16).push(digit_char(n % 16))
    }
}

/// The index of the first `c` in `text`; the length of `text` without one.
pub open spec fn position(text: Seq<char>, c: char) -> int
    decreases text.len(),
{
    if text.len() == 0 || text.first() == c {
        0
    } else {
        1 + position(text.drop_first(), c)
    }
}

/// The fields of `text` between the separators `sep`. A text without
/// separator is one field, the empty text one empty field.
pub open spec fn split(text: Seq<char>, sep: char) -> Seq<Seq<char>>
    decreases text.len(),
{
    let k = position(text, sep);
    if 0 <= k < text.len() {
        seq![text.take(k)] + split(text.skip(k + 1), sep)
    } else {
        seq![text]
    }
}

/// `line` without the carriage return at its end, if it has one.
pub open spec fn without_return(line: Seq<char>) -> Seq<char> {
    if line.len() > 0 && line.last() == '\r' {
        line.drop_last()
    } else {
        line
    }
}

/// The lines of `text`. A line is ended by a line feed, and a carriage
/// return in front of the line feed belongs to the ending. The last line
/// may be ended by the end of the text instead; nothing behind the last
/// line feed is no line.
pub open spec fn lines(text: Seq<char>) -> Seq<Seq<char>> {
    let parts = split(text, '\n');
    let ended = parts.drop_last().map_values(|part: Seq<char>| without_return(part));
    if parts.last().len() == 0 {
        ended
    } else {
        ended.push(parts.last())
    }
}

/// The fields with one `sep` between each two of them.
pub open spec fn join(fields: Seq<Seq<char>>, sep: char) -> Seq<char>
    decreases fields.len(),
{
    if fields.len() == 0 {
        Seq::empty()
    } else if fields.len() == 1 {
        fields[0]
    } else {
        join(fields.drop_last(), sep) + seq![sep] + fields.last()
    }
}

/// Whether `c` occurs nowhere in `text`.
pub open spec fn free_of(text: Seq<char>, c: char) -> bool {
    forall|i: int| 0 <= i < text.len() ==> text[i] != c
}

/// `position` finds the first occurrence.
pub proof fn position_is_first(text: Seq<char>, c: char)
    ensures
        0 <= position(text, c) <= text.len(),
        position(text, c) < text.len() ==> text[position(text, c)] == c,
        forall|i: int| 0 <= i < position(text, c) ==> text[i] != c,
    decreases text.len(),
{
    if text.len() == 0 || text.first() == c {
    } else {
        let rest = text.drop_first();
        position_is_first(rest, c);
        assert forall|i: int| 0 <= i < position(text, c) implies text[i] != c by {
            if i > 0 {
                assert(text[i] == rest[i - 1]);
            }
        }
        if position(text, c) < text.len() {
            assert(text[position(text, c)] == rest[position(rest, c)]);
        }
    }
}

/// An index that holds `c`, or is the length, with no `c` in front of it is
/// the `position` of `c`.
pub proof fn position_unique(text: Seq<char>, c: char, k: int)
    requires
        0 <= k <= text.len(),
        forall|i: int| 0 <= i < k ==> text[i] != c,
        k < text.len() ==> text[k] == c,
    ensures
        position(text, c) == k,
{
    position_is_first(text, c);
    let p = position(text, c);
    if p < k {
        assert(text[p] != c);
    } else if k < p {
        assert(text[k] != c);
    }
}

/// A text without separator is its own single field.
pub proof fn split_without_separator(text: Seq<char>, sep: char)
    requires
        free_of(text, sep),
    ensures
        split(text, sep) == seq![text],
{
    position_unique(text, sep, text.len() as int);
}

/// In front of a separator stands the first field; the other fields are
/// those of the text behind it.
pub proof fn split_at_separator(text: Seq<char>, sep: char, k: int)
    requires
        0 <= k < text.len(),
        text[k] == sep,
        forall|i: int| 0 <= i < k ==> text[i] != sep,
    ensures
        split(text, sep) == seq![text.take(k)] + split(text.skip(k + 1), sep),
{
    position_unique(text, sep, k);
}

/// Behind the last separator stands the last field; the other fields are
/// those of the text in front of it.
pub proof fn split_at_last_separator(text: Seq<char>, sep: char, k: int)
    requires
        0 <= k < text.len(),
        text[k] == sep,
        forall|i: int| k < i < text.len() ==> text[i] != sep,
    ensures
        split(text, sep) == split(text.take(k), sep).push(text.skip(k + 1)),
    decreases text.len(),
{
    position_is_first(text, sep);
    let p = position(text, sep);
    let front = text.take(k);
    let last = text.skip(k + 1);
    if p > k {
        assert(text[k] != sep);
    } else if p == k {
        assert forall|i: int| 0 <= i < front.len() implies front[i] != sep by {
            assert(front[i] == text[i]);
        }
        assert forall|i: int| 0 <= i < last.len() implies last[i] != sep by {
            assert(last[i] == text[i + k + 1]);
        }
        split_without_separator(front, sep);
        split_without_separator(last, sep);
        split_at_separator(text, sep, k);
        assert(split(text, sep) =~= seq![front].push(last));
    } else {
        let rest = text.skip(p + 1);
        split_at_separator(text, sep, p);
        assert(rest[k - p - 1] == text[k]);
        assert forall|i: int| k - p - 1 < i < rest.len() implies rest[i] != sep by {
            assert(rest[i] == text[i + p + 1]);
        }
        split_at_last_separator(rest, sep, k - p - 1);
        assert(front[p] == text[p]);
        assert forall|i: int| 0 <= i < p implies front[i] != sep by {
            assert(front[i] == text[i]);
        }
        split_at_separator(front, sep, p);
        assert(front.take(p) =~= text.take(p));
        assert(front.skip(p + 1) =~= rest.take(k - p - 1));
        assert(rest.skip(k - p) =~= last);
        assert(split(text, sep) =~= split(front, sep).push(last));
    }
}

/// Joining one more field puts a separator and the field behind the rest.
pub proof fn join_push(fields: Seq<Seq<char>>, sep: char, field: Seq<char>)
    ensures
        join(fields.push(field), sep) == if fields.len() == 0 {
            field
        } else {
            join(fields, sep) + seq![sep] + field
        },
{
    let all = fields.push(field);
    assert(all.drop_last() =~= fields);
    assert(all.last() == field);
    if fields.len() == 0 {
        assert(all[0] == field);
    }
}

/// Joining with a field in front puts the field and a separator before the
/// rest.
pub proof fn join_prepend(field: Seq<char>, fields: Seq<Seq<char>>, sep: char)
    ensures
        join(seq![field] + fields, sep) == if fields.len() == 0 {
            field
        } else {
            field + seq![sep] + join(fields, sep)
        },
    decreases fields.len(),
{
    let all = seq![field] + fields;
    if fields.len() == 0 {
        assert(all =~= seq![field]);
    } else {
        let front = fields.drop_last();
        assert(all.drop_last() =~= seq![field] + front);
        assert(all.last() == fields.last());
        join_prepend(field, front, sep);
        if front.len() == 0 {
            assert(fields =~= seq![fields.last()]);
            assert(join(fields, sep) == fields.last());
        } else {
            assert(join(all, sep) =~= field + seq![sep] + join(fields, sep));
        }
    }
}

/// Splitting what was joined gives the fields back, provided that there is
/// a field and that no field holds the separator.
pub proof fn split_of_join(fields: Seq<Seq<char>>, sep: char)
    requires
        fields.len() >= 1,
        forall|i: int| 0 <= i < fields.len() ==> free_of(#[trigger] fields[i], sep),
    ensures
        split(join(fields, sep), sep) == fields,
    decreases fields.len(),
{
    let first = fields[0];
    let rest = fields.drop_first();
    assert(fields =~= seq![first] + rest);
    join_prepend(first, rest, sep);
    if rest.len() == 0 {
        split_without_separator(first, sep);
        assert(fields =~= seq![first]);
    } else {
        let text = join(fields, sep);
        let k = first.len() as int;
        assert(text == first + seq![sep] + join(rest, sep));
        assert(text[k] == sep);
        assert forall|i: int| 0 <= i < k implies text[i] != sep by {
            assert(text[i] == first[i]);
        }
        split_at_separator(text, sep, k);
        assert(text.take(k) =~= first);
        assert(text.skip(k + 1) =~= join(rest, sep));
        assert forall|i: int| 0 <= i < rest.len() implies free_of(#[trigger] rest[i], sep) by {
            assert(rest[i] == fields[i + 1]);
        }
        split_of_join(rest, sep);
    }
}

/// A digit character has the value it was made for, in each base that has
/// the digit.
pub proof fn digit_char_value(d: nat)
    requires
        d < 16,
    ensures
        digit_value(digit_char(d), 16) == Some(d),
        d < 10 ==> digit_value(digit_char(d), 10) == Some(d),
        digit_char(d) != '.',
        digit_char(d) != ':',
        d != 0 ==> digit_char(d) != '0',
        d == 0 ==> digit_char(d) == '0',
{
}

/// The decimal notation holds decimal digits only, begins with no zero
/// unless it is the single digit zero, and denotes the number it was
/// written for.
pub proof fn decimal_denotes(n: nat)
    ensures
        decimal(n).len() >= 1,
        all_digits(decimal(n), 10),
        digits_value(decimal(n), 10) == n,
        n >= 1 ==> decimal(n)[0] != '0',
        n < 10 ==> decimal(n).len() == 1,
        10 <= n < 100 ==> decimal(n).len() == 2,
        100 <= n < 1000 ==> decimal(n).len() == 3,
    decreases n,
{
    let text = decimal(n);
    if n < 10 {
        digit_char_value(n);
        assert(text.drop_last() =~= Seq::<char>::empty());
        assert(digits_value(text.drop_last(), 10) == 0);
    } else {
        let front = decimal(n / 10);
        decimal_denotes(n / 10);
        digit_char_value(n % 10);
        assert(text.drop_last() =~= front);
        assert(text.last() == digit_char(n % 10));
        assert(text[0] == front[0]);
        assert forall|i: int| 0 <= i < text.len() implies (#[trigger] digit_value(
            text[i],
            10,
        )) is Some by {
            if i < front.len() {
                assert(text[i] == front[i]);
            }
        }
    }
}

/// The hexadecimal notation holds hexadecimal digits only and denotes the
/// number it was written for.
pub proof fn hexadecimal_denotes(n: nat)
    ensures
        hexadecimal(n).len() >= 1,
        all_digits(hexadecimal(n), 16),
        digits_value(hexadecimal(n), 16) == n,
        n < 16 ==> hexadecimal(n).len() == 1,
        16 <= n < 256 ==> hexadecimal(n).len() == 2,
        256 <= n < 4096 ==> hexadecimal(n).len() == 3,
        4096 <= n < 65536 ==> hexadecimal(n).len() == 4,
    decreases n,
{
    let text = hexadecimal(n);
    if n < 16 {
        digit_char_value(n);
        assert(text.drop_last() =~= Seq::<char>::empty());
        assert(digits_value(text.drop_last(), 16) == 0);
    } else {
        let front = hexadecimal(n / 16);
        hexadecimal_denotes(n / 16);
        digit_char_value(n % 16);
        assert(text.drop_last() =~= front);
        assert(text.last() == digit_char(n % 16));
        assert forall|i: int| 0 <= i < text.len() implies (#[trigger] digit_value(
            text[i],
            16,
        )) is Some by {
            if i < front.len() {
                assert(text[i] == front[i]);
            }
        }
    }
}

/// Digits are neither dots nor colons.
pub proof fn digits_hold_no_separator(s: Seq<char>, radix: nat)
    requires
        all_digits(s, radix),
    ensures
        free_of(s, '.'),
        free_of(s, ':'),
{
    assert forall|i: int| 0 <= i < s.len() implies s[i] != '.' && s[i] != ':' by {
        assert(digit_value(s[i], radix) is Some);
    }
}

/// What is joined holds a character only if a field holds it or it is the
/// separator.
pub proof fn join_free_of(fields: Seq<Seq<char>>, sep: char, c: char)
    requires
        c != sep,
        forall|i: int| 0 <= i < fields.len() ==> free_of(#[trigger] fields[i], c),
    ensures
        free_of(join(fields, sep), c),
    decreases fields.len(),
{
    if fields.len() >= 2 {
        let front = fields.drop_last();
        assert forall|i: int| 0 <= i < front.len() implies free_of(#[trigger] front[i], c) by {
            assert(front[i] == fields[i]);
        }
        join_free_of(front, sep, c);
        assert(free_of(fields.last(), c));
    } else if fields.len() == 1 {
        assert(free_of(fields[0], c));
    }
}

/// The digit of value `d` as a one-character string.
fn digit_str(d: u8) -> (s: &'static str)
    requires
        d < 16,
    ensures
        s@ == seq![digit_char(d as nat)],
{
    proof {
        reveal_strlit("0");
        reveal_strlit("1");
        reveal_strlit("2");
        reveal_strlit("3");
        reveal_strlit("4");
        reveal_strlit("5");
        reveal_strlit("6");
        reveal_strlit("7");
        reveal_strlit("8");
        reveal_strlit("9");
        reveal_strlit("a");
        reveal_strlit("b");
        reveal_strlit("c");
        reveal_strlit("d");
        reveal_strlit("e");
        reveal_strlit("f");
    }
    let s = match d {
        0 => "0",
        1 => "1",
        2 => "2",
        3 => "3",
        4 => "4",
        5 => "5",
        6 => "6",
        7 => "7",
        8 => "8",
        9 => "9",
        10 => "a",
        11 => "b",
        12 => "c",
        13 => "d",
        14 => "e",
        _ => "f",
    };
    assert(s@ =~= seq![digit_char(d as nat)]);
    s
}

/// Appends the decimal notation of `n` to `out`.
pub fn push_decimal(out: &mut String, n: u64)
    ensures
        final(out)@ == old(out)@ + decimal(n as nat),
    decreases n,
{
    if n >= 10 {
        push_decimal(out, n / 10);
    }
    out.append(digit_str((n % 10) as u8));
}

/// Appends the hexadecimal notation of `n` to `out`.
pub fn push_hexadecimal(out: &mut String, n: u16)
    ensures
        final(out)@ == old(out)@ + hexadecimal(n as nat),
    decreases n,
{
    if n >= 16 {
        push_hexadecimal(out, n / 16);
    }
    out.append(digit_str((n % 16) as u8));
}

/// Decimal notation of `n`, with a minus sign in front of a negative number.
pub open spec fn signed_decimal(n: int) -> Seq<char> {
    if n < 0 {
        seq!['-'] + decimal((-n) as nat)
    } else {
        decimal(n as nat)
    }
}

/// Appends the decimal notation of `n` to `out`.
pub fn push_signed_decimal(out: &mut String, n: i64)
    ensures
        final(out)@ == old(out)@ + signed_decimal(n as int),
{
    if n < 0 {
        proof {
            reveal_strlit("-");
        }
        out.append("-");
        let magnitude: u64 = if n == i64::MIN {
            9223372036854775808u64
        } else {
            (-n) as u64
        };
        push_decimal(out, magnitude);
        assert(out@ =~= old(out)@ + signed_decimal(n as int));
    } else {
        push_decimal(out, n as u64);
    }
}

/// The value of `c` as a digit, see [`digit_value`].
pub fn digit_of(c: char, hex: bool) -> (d: Option<u8>)
    ensures
        match d {
            Some(v) => digit_value(c, if hex { 16 } else { 10 }) == Some(v as nat),
            None => digit_value(c, if hex { 16 } else { 10 }) is None,
        },
{
    if '0' <= c && c <= '9' {
        Some((c as u32 - '0' as u32) as u8)
    } else if hex && 'a' <= c && c <= 'f' {
        Some((c as u32 - 'a' as u32 + 10) as u8)
    } else if hex && 'A' <= c && c <= 'F' {
        Some((c as u32 - 'A' as u32 + 10) as u8)
    } else {
        None
    }
}

} // verus!
