//! Lists of identifiers in settings: numbers separated by commas.

use vstd::prelude::*;
use vstd::string::*;

use crate::utils::decimal::{decimal, digit};

verus! {

/// The character is white space.
pub open spec fn is_white(c: char) -> bool {
    let code = c as u32;
    ||| 0x9 <= code <= 0xd
    ||| code == 0x20
    ||| code == 0x85
    ||| code == 0xa0
    ||| code == 0x1680
    ||| 0x2000 <= code <= 0x200a
    ||| code == 0x2028
    ||| code == 0x2029
    ||| code == 0x202f
    ||| code == 0x205f
    ||| code == 0x3000
}

fn white(c: char) -> (res: bool)
    ensures
        res == is_white(c),
{
    let code: u32 = c as u32;
    (0x9 <= code && code <= 0xd) || code == 0x20 || code == 0x85 || code == 0xa0 || code == 0x1680
        || (0x2000 <= code && code <= 0x200a) || code == 0x2028 || code == 0x2029 || code == 0x202f
        || code == 0x205f || code == 0x3000
}

/// A text without the white space at its start.
pub open spec fn trim_start(text: Seq<char>) -> Seq<char>
    decreases text.len(),
{
    if text.len() > 0 && is_white(text[0]) {
        trim_start(text.skip(1))
    } else {
        text
    }
}

/// A text without the white space at its end.
pub open spec fn trim_end(text: Seq<char>) -> Seq<char>
    decreases text.len(),
{
    if text.len() > 0 && is_white(text.last()) {
        trim_end(text.drop_last())
    } else {
        text
    }
}

/// The character is a decimal digit.
pub open spec fn is_digit(c: char) -> bool {
    '0' <= c <= '9'
}

/// The number that a sequence of digits stands for.
pub open spec fn digits_value(digits: Seq<char>) -> int
    decreases digits.len(),
{
    if digits.len() == 0 {
        0
    } else {
        digits_value(digits.drop_last()) * 10 + (digits.last() as int - '0' as int)
    }
}

/// The sequence consists of digits.
pub open spec fn all_digits(text: Seq<char>) -> bool {
    forall|i: int| 0 <= i < text.len() ==> is_digit(#[trigger] text[i])
}

/// The number of 32 bits that digits stand for.
pub open spec fn unsigned_of(digits: Seq<char>) -> Option<u32> {
    if digits.len() > 0 && all_digits(digits) && digits_value(digits) <= u32::MAX {
        Some(digits_value(digits) as u32)
    } else {
        None
    }
}

/// The number that a text stands for: digits, after a plus sign or without it.
pub open spec fn number_of(text: Seq<char>) -> Option<u32> {
    if text.len() > 0 && text[0] == '+' {
        unsigned_of(text.skip(1))
    } else {
        unsigned_of(text)
    }
}

/// The identifiers that an entry stands for: none where it is blank, else the
/// number that it holds between white space. `None` where it holds no number.
pub open spec fn entry_ids(entry: Seq<char>) -> Option<Seq<u32>> {
    let trimmed = trim_end(trim_start(entry));
    if trimmed.len() == 0 {
        Some(Seq::empty())
    } else {
        match number_of(trimmed) {
            Some(id) => Some(seq![id]),
            None => None,
        }
    }
}

/// Where the first entry of a list ends.
pub open spec fn entry_end(text: Seq<char>) -> int
    decreases text.len(),
{
    if text.len() == 0 || text[0] == ',' {
        0
    } else {
        1 + entry_end(text.skip(1))
    }
}

/// The identifiers of a list, in order; `None` where an entry is no number.
pub open spec fn listed_ids(text: Seq<char>) -> Option<Seq<u32>>
    decreases text.len(),
    via entries_decrease
{
    let end = entry_end(text);
    let first = entry_ids(text.take(end));
    if end == text.len() {
        first
    } else {
        match (first, listed_ids(text.skip(end + 1))) {
            (Some(ids), Some(rest)) => Some(ids + rest),
            _ => None,
        }
    }
}

/// A list of identifiers with others before it.
pub open spec fn prefixed(before: Seq<u32>, ids: Option<Seq<u32>>) -> Option<Seq<u32>> {
    match ids {
        Some(rest) => Some(before + rest),
        None => None,
    }
}

#[via_fn]
proof fn entries_decrease(text: Seq<char>) {
    lemma_entry_end(text);
}

proof fn lemma_entry_end(text: Seq<char>)
    ensures
        0 <= entry_end(text) <= text.len(),
        entry_end(text) < text.len() ==> text[entry_end(text)] == ',',
        forall|i: int| 0 <= i < entry_end(text) ==> #[trigger] text[i] != ',',
    decreases text.len(),
{
    if text.len() > 0 && text[0] != ',' {
        lemma_entry_end(text.skip(1));
        assert forall|i: int| 0 <= i < entry_end(text) implies #[trigger] text[i] != ',' by {
            if i > 0 {
                assert(text.skip(1)[i - 1] == text[i]);
            }
        }
    }
}

/// The first entry of a list ends at its first comma.
proof fn lemma_entry_end_is(text: Seq<char>, end: int)
    requires
        0 <= end <= text.len(),
        forall|i: int| 0 <= i < end ==> #[trigger] text[i] != ',',
        end < text.len() ==> text[end] == ',',
    ensures
        entry_end(text) == end,
{
    lemma_entry_end(text);
    if entry_end(text) < end {
        assert(text[entry_end(text)] != ',');
    }
    if end < entry_end(text) {
        assert(text[end] != ',');
    }
}

/// Reads a number that consists of digits.
fn unsigned(chars: &Vec<char>, start: usize, end: usize) -> (res: Option<u32>)
    requires
        start <= end <= chars@.len(),
    ensures
        res == unsigned_of(chars@.subrange(start as int, end as int)),
{
    let ghost digits = chars@.subrange(start as int, end as int);
    if start == end {
        return None;
    }
    let mut value: u32 = 0;
    let mut i: usize = start;
    while i < end
        invariant
            start <= i <= end <= chars@.len(),
            digits == chars@.subrange(start as int, end as int),
            forall|k: int| 0 <= k < i - start ==> is_digit(#[trigger] digits[k]),
            value == digits_value(digits.take(i - start)),
        decreases end - i,
    {
        let c = chars[i];
        assert(digits[i - start] == c);
        if !('0' <= c && c <= '9') {
            return None;
        }
        let ghost next = digits.take(i - start + 1);
        proof {
            assert(next.drop_last() =~= digits.take(i - start));
            lemma_digits_value_grows(digits, i - start + 1);
        }
        let digit: u32 = c as u32 - '0' as u32;
        assert(digits_value(next) == value * 10 + digit);
        match value.checked_mul(10) {
            Some(tens) => match tens.checked_add(digit) {
                Some(sum) => {
                    value = sum;
                },
                None => {
                    return None;
                },
            },
            None => {
                return None;
            },
        }
        i = i + 1;
    }
    assert(digits.take(i - start) =~= digits);
    Some(value)
}

/// Reads a number.
fn number(chars: &Vec<char>, start: usize, end: usize) -> (res: Option<u32>)
    requires
        start <= end <= chars@.len(),
    ensures
        res == number_of(chars@.subrange(start as int, end as int)),
{
    if start < end && chars[start] == '+' {
        assert(chars@.subrange(start as int, end as int).skip(1) =~= chars@.subrange(
            start + 1,
            end as int,
        ));
        unsigned(chars, start + 1, end)
    } else {
        unsigned(chars, start, end)
    }
}

/// More digits make no smaller number.
proof fn lemma_digits_value_grows(digits: Seq<char>, n: int)
    requires
        0 <= n <= digits.len(),
        forall|i: int| 0 <= i < n ==> is_digit(#[trigger] digits[i]),
    ensures
        0 <= digits_value(digits.take(n)),
        all_digits(digits) ==> digits_value(digits.take(n)) <= digits_value(digits),
    decreases digits.len(),
{
    if digits.len() == 0 {
        assert(digits.take(n) =~= digits);
    } else {
        let before = digits.drop_last();
        if n == digits.len() {
            assert(digits.take(n) =~= digits);
            lemma_digits_value_grows(before, n - 1);
            assert(before.take(n - 1) =~= before);
            assert(is_digit(digits[n - 1]));
        } else {
            lemma_digits_value_grows(before, n);
            assert(before.take(n) =~= digits.take(n));
            if all_digits(digits) {
                assert(is_digit(digits[digits.len() - 1]));
                assert forall|i: int| 0 <= i < before.len() implies is_digit(
                    #[trigger] before[i],
                ) by {
                    assert(before[i] == digits[i]);
                }
            }
        }
    }
}

/// Reads an entry and adds its number, where it has one, to a list; the flag
/// says whether the entry is in order.
fn read_entry(chars: &Vec<char>, start: usize, end: usize, ids: &mut Vec<u32>) -> (res: bool)
    requires
        start <= end <= chars@.len(),
    ensures
        match entry_ids(chars@.subrange(start as int, end as int)) {
            Some(new) => res && final(ids)@ == old(ids)@ + new,
            None => !res,
        },
{
    let ghost entry = chars@.subrange(start as int, end as int);
    let mut low: usize = start;
    assert(chars@.subrange(low as int, end as int) =~= entry);
    while low < end && white(chars[low])
        invariant
            start <= low <= end <= chars@.len(),
            trim_start(entry) == trim_start(chars@.subrange(low as int, end as int)),
        decreases end - low,
    {
        assert(chars@.subrange(low as int, end as int).skip(1) =~= chars@.subrange(
            low + 1,
            end as int,
        ));
        low = low + 1;
    }
    let mut high: usize = end;
    while low < high && white(chars[high - 1])
        invariant
            low <= high <= end <= chars@.len(),
            trim_end(trim_start(entry)) == trim_end(chars@.subrange(low as int, high as int)),
        decreases high - low,
    {
        assert(chars@.subrange(low as int, high as int).drop_last() =~= chars@.subrange(
            low as int,
            high - 1,
        ));
        high = high - 1;
    }
    if low == high {
        assert(ids@ + Seq::<u32>::empty() =~= ids@);
        return true;
    }
    match number(chars, low, high) {
        Some(id) => {
            let ghost before = ids@;
            ids.push(id);
            assert(ids@ =~= before + seq![id]);
            true
        },
        None => false,
    }
}

/// Reads a list of identifiers; `None` where an entry is no number.
pub fn parse_id_list(text: &str) -> (res: Option<Vec<u32>>)
    ensures
        match listed_ids(text@) {
            Some(ids) => res is Some && res->0@ == ids,
            None => res is None,
        },
{
    let len: usize = text.unicode_len();
    let mut chars: Vec<char> = Vec::new();
    let mut k: usize = 0;
    while k < len
        invariant
            k <= len == text@.len(),
            chars@ == text@.take(k as int),
        decreases len - k,
    {
        chars.push(text.get_char(k));
        k = k + 1;
        assert(chars@ =~= text@.take(k as int));
    }
    assert(chars@ =~= text@);
    let mut ids: Vec<u32> = Vec::new();
    let mut start: usize = 0;
    let mut end: usize = 0;
    proof {
        assert(chars@.skip(0) =~= chars@);
        if listed_ids(chars@) is Some {
            assert(ids@ + listed_ids(chars@)->0 =~= listed_ids(chars@)->0);
        }
    }
    while end < len
        invariant
            start <= end <= len == chars@.len(),
            forall|i: int| start <= i < end ==> #[trigger] chars@[i] != ',',
            listed_ids(chars@) == prefixed(ids@, listed_ids(chars@.skip(start as int))),
            chars@ == text@,
        decreases len - end,
    {
        if chars[end] == ',' {
            let ghost rest = chars@.skip(start as int);
            let ghost before = ids@;
            let ghost new = entry_ids(rest.take(end - start));
            proof {
                lemma_entry_end_is(rest, end - start);
                assert(rest.take(end - start) =~= chars@.subrange(start as int, end as int));
                assert(rest.skip(end - start + 1) =~= chars@.skip(end + 1));
            }
            if !read_entry(&chars, start, end, &mut ids) {
                return None;
            }
            proof {
                let tail = listed_ids(chars@.skip(end + 1));
                if tail is Some {
                    assert(before + (new->0 + tail->0) =~= before + new->0 + tail->0);
                }
            }
            start = end + 1;
        }
        end = end + 1;
    }
    proof {
        let rest = chars@.skip(start as int);
        lemma_entry_end_is(rest, rest.len() as int);
        assert(rest.take(rest.len() as int) =~= chars@.subrange(start as int, end as int));
    }
    if read_entry(&chars, start, end, &mut ids) {
        Some(ids)
    } else {
        None
    }
}

/// A number in decimal notation has digits alone and is read as that number.
proof fn lemma_decimal_value(n: nat)
    ensures
        decimal(n).len() > 0,
        all_digits(decimal(n)),
        digits_value(decimal(n)) == n,
    decreases n,
{
    let text = decimal(n);
    if n < 10 {
        assert(text.drop_last() =~= Seq::<char>::empty());
        assert(digits_value(text.drop_last()) == 0);
        assert(text.last() == digit(n as int));
        assert(digits_value(text) == digit(n as int) as int - '0' as int);
    } else {
        lemma_decimal_value(n / 10);
        let last = digit((n % 10) as int);
        assert(text.drop_last() =~= decimal(n / 10));
        assert(text.last() == last);
        assert(last as int - '0' as int == n % 10);
        assert forall|i: int| 0 <= i < text.len() implies is_digit(#[trigger] text[i]) by {
            if i < text.len() - 1 {
                assert(text[i] == decimal(n / 10)[i]);
            }
        }
    }
}

/// Numbers in decimal notation, separated by commas, are read back as they
/// were written: the first of them, and then what follows the comma.
pub proof fn law_written_ids_are_read(id: u32, rest: Seq<char>)
    ensures
        listed_ids(decimal(id as nat)) == Some(seq![id]),
        listed_ids(decimal(id as nat).push(',') + rest) == prefixed(seq![id], listed_ids(rest)),
        listed_ids(Seq::empty()) == Some(Seq::<u32>::empty()),
{
    let text = decimal(id as nat);
    lemma_decimal_value(id as nat);
    assert(is_digit(text[0]) && is_digit(text.last()));
    assert(trim_start(text) == text);
    assert(trim_end(text) == text);
    assert(entry_ids(text) == Some(seq![id]));
    lemma_digits_end(text, Seq::empty());
    assert(text + Seq::<char>::empty() =~= text);
    assert(text.take(text.len() as int) =~= text);
    let all = text.push(',') + rest;
    let tail = seq![','] + rest;
    assert(all =~= text + tail);
    lemma_digits_end(text, tail);
    assert(all.take(text.len() as int) =~= text);
    assert(all.skip((text.len() + 1) as int) =~= rest);
    let none = Seq::<char>::empty();
    assert(trim_start(none) == none && trim_end(none) == none);
    assert(none.take(0) =~= none);
    assert(entry_ids(none) == Some(Seq::<u32>::empty()));
}

/// An entry of digits ends where they end.
proof fn lemma_digits_end(digits: Seq<char>, tail: Seq<char>)
    requires
        all_digits(digits),
        tail.len() == 0 || tail[0] == ',',
    ensures
        entry_end(digits + tail) == digits.len(),
    decreases digits.len(),
{
    let text = digits + tail;
    if digits.len() == 0 {
        assert(text =~= tail);
    } else {
        assert(is_digit(digits[0]));
        assert(text[0] == digits[0]);
        assert(text.skip(1) =~= digits.skip(1) + tail);
        assert forall|i: int| 0 <= i < digits.skip(1).len() implies is_digit(
            #[trigger] digits.skip(1)[i],
        ) by {
            assert(is_digit(digits[i + 1]));
        }
        lemma_digits_end(digits.skip(1), tail);
    }
}

} // verus!
