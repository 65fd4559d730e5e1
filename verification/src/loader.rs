//! The text form of memory contents: one entry per line, a hexadecimal
//! address and a binary word with white space between them, as in
//! `0x1F 00000000000000000000000000101010`.
//!
//! The address may carry the mark `0x` in front, the word is written in the
//! digits `0` and `1`, and either may have a `+` before its digits. A line
//! that is anything else holds no entry.

use crate::memory::{Memory, WordKind};
use vstd::prelude::*;

verus! {

/// `c` is white space.
pub open spec fn is_space(c: char) -> bool {
    let code = c as u32;
    ||| 0x09 <= code <= 0x0D
    ||| code == 0x20
    ||| code == 0x85
    ||| code == 0xA0
    ||| code == 0x1680
    ||| 0x2000 <= code <= 0x200A
    ||| code == 0x2028
    ||| code == 0x2029
    ||| code == 0x202F
    ||| code == 0x205F
    ||| code == 0x3000
}

/// The first place at or after `from` where `line` has no white space; the
/// length of `line` if there is none.
pub open spec fn skip_spaces(line: Seq<char>, from: int) -> int
    decreases line.len() - from,
{
    if 0 <= from < line.len() && is_space(line[from]) {
        skip_spaces(line, from + 1)
    } else {
        from
    }
}

/// The first place at or after `from` where `line` has white space; the
/// length of `line` if there is none.
pub open spec fn skip_word(line: Seq<char>, from: int) -> int
    decreases line.len() - from,
{
    if 0 <= from < line.len() && !is_space(line[from]) {
        skip_word(line, from + 1)
    } else {
        from
    }
}

/// The two words of `line`, if `line` is made of just two words with white
/// space between them and, maybe, around them.
pub open spec fn two_words(line: Seq<char>) -> Option<(Seq<char>, Seq<char>)> {
    let first = skip_spaces(line, 0);
    let first_end = skip_word(line, first);
    let second = skip_spaces(line, first_end);
    let second_end = skip_word(line, second);
    if first < first_end && second < second_end && skip_spaces(line, second_end) == line.len() {
        Some((line.subrange(first, first_end), line.subrange(second, second_end)))
    } else {
        None
    }
}

/// The value of `c` as a digit: 0 to 9 for `0` to `9`, and 10 to 35 for the
/// letters, in either case.
pub open spec fn digit_value(c: char) -> Option<nat> {
    let code = c as u32;
    if 0x30 <= code <= 0x39 {
        Some((code - 0x30) as nat)
    } else if 0x61 <= code <= 0x7A {
        Some((code - 0x61 + 10) as nat)
    } else if 0x41 <= code <= 0x5A {
        Some((code - 0x41 + 10) as nat)
    } else {
        None
    }
}

/// The number that `digits` spell in base `radix`; none if one of them is
/// no digit of that base. No digits spell 0.
pub open spec fn number(digits: Seq<char>, radix: nat) -> Option<nat>
    decreases digits.len(),
{
    if digits.len() == 0 {
        Some(0)
    } else {
        match (number(digits.drop_last(), radix), digit_value(digits.last())) {
            (Some(high), Some(low)) => if low < radix {
                Some(high * radix + low)
            } else {
                None
            },
            _ => None,
        }
    }
}

/// The number that `text` spells in base `radix`: at least one digit, with
/// a `+` before them or without, and a value of at most `max`.
pub open spec fn unsigned(text: Seq<char>, radix: nat, max: nat) -> Option<nat> {
    let digits = if text.len() > 0 && text[0] == '+' {
        text.skip(1)
    } else {
        text
    };
    if digits.len() == 0 {
        None
    } else {
        match number(digits, radix) {
            Some(value) => if value <= max {
                Some(value)
            } else {
                None
            },
            None => None,
        }
    }
}

/// `text` without the marks `0x` in front of it, however many there are.
pub open spec fn without_hex_marks(text: Seq<char>) -> Seq<char>
    decreases text.len(),
{
    if text.len() >= 2 && text[0] == '0' && text[1] == 'x' {
        without_hex_marks(text.skip(2))
    } else {
        text
    }
}

/// The entry that `line` holds: the address and the word, if `line` is two
/// words of which the first is a hexadecimal number of at most 255 and the
/// second a binary number of at most 2^32 - 1.
pub open spec fn entry_of(line: Seq<char>) -> Option<(u8, u32)> {
    match two_words(line) {
        Some((first, second)) => match (
            unsigned(without_hex_marks(first), 16, 0xFF),
            unsigned(second, 2, 0xFFFF_FFFF),
        ) {
            (Some(address), Some(word)) => Some((address as u8, word as u32)),
            _ => None,
        },
        None => None,
    }
}

/// A number has its digits, and is no smaller than what fewer of them spell.
proof fn lemma_number_of_prefix(digits: Seq<char>, radix: nat, k: int)
    requires
        0 <= k <= digits.len(),
        number(digits, radix) is Some,
        radix >= 1,
    ensures
        number(digits.take(k), radix) is Some,
        number(digits.take(k), radix).unwrap() <= number(digits, radix).unwrap(),
    decreases digits.len(),
{
    if k == digits.len() {
        assert(digits.take(k) =~= digits);
    } else {
        let high = number(digits.drop_last(), radix).unwrap();
        lemma_number_of_prefix(digits.drop_last(), radix, k);
        assert(digits.drop_last().take(k) =~= digits.take(k));
        assert(high * radix >= high) by (nonlinear_arith)
            requires
                radix >= 1,
                high >= 0,
        ;
    }
}

pub(crate) fn is_space_char(c: char) -> (space: bool)
    ensures
        space == is_space(c),
{
    let code = c as u32;
    (0x09 <= code && code <= 0x0D) || code == 0x20 || code == 0x85 || code == 0xA0 || code
        == 0x1680 || (0x2000 <= code && code <= 0x200A) || code == 0x2028 || code == 0x2029
        || code == 0x202F || code == 0x205F || code == 0x3000
}

fn digit_of(c: char) -> (digit: Option<u32>)
    ensures
        match digit {
            Some(value) => digit_value(c) == Some(value as nat) && value < 36,
            None => digit_value(c) is None,
        },
{
    let code = c as u32;
    if 0x30 <= code && code <= 0x39 {
        Some(code - 0x30)
    } else if 0x61 <= code && code <= 0x7A {
        Some(code - 0x61 + 10)
    } else if 0x41 <= code && code <= 0x5A {
        Some(code - 0x41 + 10)
    } else {
        None
    }
}

/// The characters of `text`.
pub(crate) fn characters(text: &str) -> (chars: Vec<char>)
    ensures
        chars@ == text@,
{
    let mut chars: Vec<char> = Vec::new();
    for c in it: text.chars()
        invariant
            chars@ == text@.take(it.index() as int),
            it.seq() == text@,
    {
        chars.push(c);
    }
    chars
}

fn skip_spaces_from(line: &Vec<char>, from: usize) -> (to: usize)
    requires
        from <= line@.len(),
    ensures
        to == skip_spaces(line@, from as int),
        from <= to <= line@.len(),
{
    let mut i = from;
    while i < line.len() && is_space_char(line[i])
        invariant
            from <= i <= line@.len(),
            skip_spaces(line@, from as int) == skip_spaces(line@, i as int),
        decreases line@.len() - i,
    {
        i += 1;
    }
    i
}

fn skip_word_from(line: &Vec<char>, from: usize) -> (to: usize)
    requires
        from <= line@.len(),
    ensures
        to == skip_word(line@, from as int),
        from <= to <= line@.len(),
{
    let mut i = from;
    while i < line.len() && !is_space_char(line[i])
        invariant
            from <= i <= line@.len(),
            skip_word(line@, from as int) == skip_word(line@, i as int),
        decreases line@.len() - i,
    {
        i += 1;
    }
    i
}

/// Where the part of `line` from `from` to `to` starts once the marks `0x`
/// in front of it are left out.
fn skip_hex_marks(line: &Vec<char>, from: usize, to: usize) -> (start: usize)
    requires
        from <= to <= line@.len(),
    ensures
        from <= start <= to,
        line@.subrange(start as int, to as int) == without_hex_marks(
            line@.subrange(from as int, to as int),
        ),
{
    let mut i = from;
    while to - i >= 2 && line[i] == '0' && line[i + 1] == 'x'
        invariant
            from <= i <= to <= line@.len(),
            without_hex_marks(line@.subrange(from as int, to as int)) == without_hex_marks(
                line@.subrange(i as int, to as int),
            ),
        decreases to - i,
    {
        assert(line@.subrange(i as int, to as int).skip(2) =~= line@.subrange(
            i as int + 2,
            to as int,
        ));
        i += 2;
    }
    i
}

/// The number that the part of `line` from `from` to `to` spells in base
/// `radix`, if it is one of at most `max`.
pub(crate) fn parse_unsigned(line: &Vec<char>, from: usize, to: usize, radix: u32, max: u32) -> (parsed:
    Option<u32>)
    requires
        from <= to <= line@.len(),
        2 <= radix <= 36,
    ensures
        unsigned(line@.subrange(from as int, to as int), radix as nat, max as nat) == match parsed {
            Some(value) => Some(value as nat),
            None => None,
        },
{
    let ghost text = line@.subrange(from as int, to as int);
    let start = if from < to && line[from] == '+' {
        from + 1
    } else {
        from
    };
    let ghost digits = line@.subrange(start as int, to as int);
    assert(digits =~= if text.len() > 0 && text[0] == '+' {
        text.skip(1)
    } else {
        text
    });
    if start == to {
        return None;
    }
    let ghost expected = unsigned(text, radix as nat, max as nat);
    let mut value: u32 = 0;
    let mut i = start;
    while i < to
        invariant
            start <= i <= to <= line@.len(),
            2 <= radix <= 36,
            from <= start,
            digits == line@.subrange(start as int, to as int),
            expected == unsigned(line@.subrange(from as int, to as int), radix as nat, max as nat),
            expected == match number(digits, radix as nat) {
                Some(value) => if value <= max {
                    Some(value)
                } else {
                    None
                },
                None => None,
            },
            number(digits.take(i - start), radix as nat) == Some(value as nat),
            value <= max,
        decreases to - i,
    {
        let ghost seen = digits.take(i - start + 1);
        assert(seen.drop_last() =~= digits.take(i - start));
        assert(seen.last() == line@[i as int]);
        let next: u64 = match digit_of(line[i]) {
            Some(digit) => if digit < radix {
                assert(value * radix <= 0xFFFF_FFFF * 36) by (nonlinear_arith)
                    requires
                        value <= 0xFFFF_FFFF,
                        radix <= 36,
                ;
                value as u64 * radix as u64 + digit as u64
            } else {
                u64::MAX
            },
            None => u64::MAX,
        };
        if next > max as u64 {
            proof {
                if number(digits, radix as nat) is Some {
                    lemma_number_of_prefix(digits, radix as nat, i - start + 1);
                    assert(number(seen, radix as nat) == Some(next as nat));
                }
            }
            return None;
        }
        value = next as u32;
        i += 1;
    }
    assert(digits.take(to - start) =~= digits);
    Some(value)
}

/// Reads one line of memory contents. Returns the address and the word of
/// the entry that the line holds, and `None` for any other line.
pub fn parse_line(line: &str) -> (entry: Option<(u8, u32)>)
    ensures
        entry == entry_of(line@),
{
    let chars = characters(line);
    let first = skip_spaces_from(&chars, 0);
    let first_end = skip_word_from(&chars, first);
    let second = skip_spaces_from(&chars, first_end);
    let second_end = skip_word_from(&chars, second);
    let end = skip_spaces_from(&chars, second_end);
    if !(first < first_end && second < second_end && end == chars.len()) {
        return None;
    }
    let digits = skip_hex_marks(&chars, first, first_end);
    let address = parse_unsigned(&chars, digits, first_end, 16, 0xFF);
    let word = parse_unsigned(&chars, second, second_end, 2, 0xFFFF_FFFF);
    match (address, word) {
        (Some(address), Some(word)) => Some((address as u8, word)),
        _ => None,
    }
}

impl Memory {
    /// Takes in one line of memory contents. The entry that the line holds
    /// is stored under the tag `kind`, over what the address held before; a
    /// line that holds none changes nothing. Returns whether the line held
    /// an entry.
    pub fn load_line(&mut self, line: &str, kind: WordKind) -> (loaded: bool)
        ensures
            loaded == entry_of(line@) is Some,
            final(self)@ == match entry_of(line@) {
                Some((address, word)) => old(self)@.store(address, word, kind),
                None => old(self)@,
            },
    {
        match parse_line(line) {
            Some((address, word)) => {
                self.store(address, word, kind);
                true
            },
            None => false,
        }
    }
}

} // verus!
