//! Numbers as text, and building strings.
use vstd::prelude::*;
use vstd::string::*;
use vstd::utf8::{decode_utf8, valid_utf8};

verus! {

/// `String::push` of the standard library: the character is appended at the end.
pub assume_specification[ std::string::String::push ](receiver: &mut std::string::String, pushed: char)
    ensures
        final(receiver)@ == old(receiver)@.push(pushed),
;

/// The character for a digit below sixteen, letters in lower case.
pub open spec fn digit(value: nat) -> char {
    if value < 10 {
        (value + 48) as char
    } else {
        (value + 87) as char
    }
}

/// A number in decimal, without leading zeros.
pub open spec fn decimal(value: nat) -> Seq<char>
    decreases value,
{
    if value < 10 {
        seq![digit(value)]
    } else {
        decimal(value / 10).push(digit(value % 10))
    }
}

/// A number in decimal with a minus sign where it is negative.
pub open spec fn signed_decimal(value: int) -> Seq<char> {
    if value < 0 {
        "-"@ + decimal((-value) as nat)
    } else {
        decimal(value as nat)
    }
}

/// The `width` low-order hexadecimal digits of a number.
pub open spec fn hex_digits(value: nat, width: nat) -> Seq<char>
    decreases width,
{
    if width == 0 {
        Seq::empty()
    } else {
        hex_digits(value / 16, (width - 1) as nat).push(digit(value % 16))
    }
}

/// A 32-bit number as `0x` and eight hexadecimal digits.
pub open spec fn hex_word(value: u32) -> Seq<char> {
    "0x"@ + hex_digits(value as nat, 8)
}

fn digit_char(value: u64) -> (character: char)
    requires
        value < 16,
    ensures
        character == digit(value as nat),
{
    if value < 10 {
        (value as u8 + 48) as char
    } else {
        (value as u8 + 87) as char
    }
}

/// Append a number in decimal.
pub fn push_decimal(out: &mut String, value: u64)
    ensures
        final(out)@ == old(out)@ + decimal(value as nat),
    decreases value,
{
    if value >= 10 {
        push_decimal(out, value / 10);
    }
    out.push(digit_char(value % 10));
    assert(out@ =~= old(out)@ + decimal(value as nat));
}

/// Append a number as `width` hexadecimal digits.
pub fn push_hex(out: &mut String, value: u64, width: usize)
    ensures
        final(out)@ == old(out)@ + hex_digits(value as nat, width as nat),
    decreases width,
{
    if width > 0 {
        push_hex(out, value / 16, width - 1);
        out.push(digit_char(value % 16));
    }
    assert(out@ =~= old(out)@ + hex_digits(value as nat, width as nat));
}

/// A number in decimal.
pub fn decimal_text(value: u64) -> (text: String)
    ensures
        text@ == decimal(value as nat),
{
    let mut text = String::new();
    push_decimal(&mut text, value);
    assert(text@ =~= decimal(value as nat));
    text
}

/// A signed number in decimal.
pub fn signed_text(value: i64) -> (text: String)
    ensures
        text@ == signed_decimal(value as int),
{
    if value < 0 {
        let mut text = String::from_str("-");
        if value == i64::MIN {
            push_decimal(&mut text, 0x8000_0000_0000_0000);
        } else {
            push_decimal(&mut text, (-value) as u64);
        }
        text
    } else {
        decimal_text(value as u64)
    }
}

/// A 32-bit number as `0x` and eight hexadecimal digits.
pub fn hex_text(value: u32) -> (text: String)
    ensures
        text@ == hex_word(value),
{
    let mut text = String::from_str("0x");
    push_hex(&mut text, value as u64, 8);
    text
}

/// `before`, a number in decimal, `after`.
pub fn text_with_number(before: &str, value: u64, after: &str) -> (text: String)
    ensures
        text@ == before@ + decimal(value as nat) + after@,
{
    let mut text = String::from_str(before);
    push_decimal(&mut text, value);
    text.append(after);
    text
}

/// Three pieces of text, one behind the other.
pub fn join_text(first: &str, second: &str, third: &str) -> (text: String)
    ensures
        text@ == first@ + second@ + third@,
{
    let mut text = String::from_str(first);
    text.append(second);
    text.append(third);
    text
}

/// Bytes shown as a list of numbers.
pub open spec fn byte_list(bytes: Seq<u8>) -> Seq<char> {
    seq!['['] + byte_items(bytes) + seq![']']
}

pub open spec fn byte_items(bytes: Seq<u8>) -> Seq<char>
    decreases bytes.len(),
{
    if bytes.len() == 0 {
        Seq::empty()
    } else if bytes.len() == 1 {
        decimal(bytes[0] as nat)
    } else {
        byte_items(bytes.drop_last()) + seq![',', ' '] + decimal(bytes.last() as nat)
    }
}

/// Bytes as a list of numbers.
pub fn byte_list_text(bytes: &[u8]) -> (text: String)
    ensures
        text@ == byte_list(bytes@),
{
    let mut text = String::new();
    text.push('[');
    let mut index: usize = 0;
    proof {
        assert(bytes@.take(0) =~= Seq::empty());
        assert(text@ =~= seq!['['] + byte_items(bytes@.take(0)));
    }
    while index < bytes.len()
        invariant
            index <= bytes@.len(),
            text@ == seq!['['] + byte_items(bytes@.take(index as int)),
        decreases bytes@.len() - index,
    {
        if index > 0 {
            text.push(',');
            text.push(' ');
        }
        push_decimal(&mut text, bytes[index] as u64);
        proof {
            let more = bytes@.take(index + 1);
            assert(more.drop_last() =~= bytes@.take(index as int));
            assert(text@ =~= seq!['['] + byte_items(more));
        }
        index = index + 1;
    }
    text.push(']');
    assert(bytes@.take(index as int) =~= bytes@);
    assert(text@ =~= byte_list(bytes@));
    text
}

/// A 16-bit number in hexadecimal, with its prefix.
pub open spec fn hex_half(value: u16) -> Seq<char> {
    "0x"@ + hex_digits(value as nat, 4)
}

/// A 16-bit number in hexadecimal.
pub fn hex_half_text(value: u16) -> (text: String)
    ensures
        text@ == hex_half(value),
{
    let mut text = String::from_str("0x");
    push_hex(&mut text, value as u64, 4);
    text
}

/// `String::from_utf8` of the standard library: the text that the bytes encode, where they are
/// valid UTF-8.
#[verifier::external_body]
pub(crate) fn text_from_utf8(bytes: Vec<u8>) -> (text: Option<String>)
    ensures
        match text {
            Some(text) => valid_utf8(bytes@) && text@ == decode_utf8(bytes@),
            None => !valid_utf8(bytes@),
        },
{
    String::from_utf8(bytes).ok()
}

/// The characters of a text.
pub fn chars_of(text: &str) -> (chars: Vec<char>)
    ensures
        chars@ == text@,
{
    let mut chars: Vec<char> = Vec::new();
    for next in all: text.chars()
        invariant
            all.seq() == text@,
            chars@ == text@.take(all.index() as int),
    {
        chars.push(next);
        assert(chars@ =~= text@.take(all.index() + 1));
    }
    assert(text@.take(text@.len() as int) =~= text@);
    chars
}

/// The text of some characters.
pub fn text_of(chars: &Vec<char>, start: usize, end: usize) -> (text: String)
    requires
        start <= end <= chars@.len(),
    ensures
        text@ == chars@.subrange(start as int, end as int),
{
    let mut text = String::new();
    let mut index: usize = start;
    assert(text@ =~= chars@.subrange(start as int, start as int));
    while index < end
        invariant
            start <= index <= end <= chars@.len(),
            text@ == chars@.subrange(start as int, index as int),
        decreases end - index,
    {
        text.push(chars[index]);
        assert(text@ =~= chars@.subrange(start as int, index + 1));
        index = index + 1;
    }
    text
}

/// Whether a character is white space, by the Unicode property.
pub open spec fn is_white(c: char) -> bool {
    let code = c as u32;
    ||| 0x9 <= code <= 0xd
    ||| code == 0x20
    ||| code == 0x85
    ||| code == 0xa0
    ||| code == 0x1680
    ||| 0x2000 <= code <= 0x200a
    ||| code == 0x2028
    ||| code == 0x2029
    ||| code == 0x202f
    ||| code == 0x205f
    ||| code == 0x3000
}

/// Whether a character is white space.
pub fn white(c: char) -> (yes: bool)
    ensures
        yes == is_white(c),
{
    let code: u32 = c as u32;
    (code >= 0x9 && code <= 0xd) || code == 0x20 || code == 0x85 || code == 0xa0 || code == 0x1680
        || (code >= 0x2000 && code <= 0x200a) || code == 0x2028 || code == 0x2029 || code == 0x202f
        || code == 0x205f || code == 0x3000
}

/// A text without the white space at its end.
pub open spec fn trimmed_end(text: Seq<char>) -> Seq<char>
    decreases text.len(),
{
    if text.len() > 0 && is_white(text.last()) {
        trimmed_end(text.drop_last())
    } else {
        text
    }
}

/// A text without the white space at its start.
pub open spec fn trimmed_start(text: Seq<char>) -> Seq<char>
    decreases text.len(),
{
    if text.len() > 0 && is_white(text[0]) {
        trimmed_start(text.drop_first())
    } else {
        text
    }
}

/// A text without the white space around it.
pub open spec fn trimmed(text: Seq<char>) -> Seq<char> {
    trimmed_end(trimmed_start(text))
}

/// Where the white space at the end of some characters begins.
pub fn trim_end(chars: &Vec<char>, start: usize, end: usize) -> (stop: usize)
    requires
        start <= end <= chars@.len(),
    ensures
        start <= stop <= end,
        chars@.subrange(start as int, stop as int) == trimmed_end(
            chars@.subrange(start as int, end as int),
        ),
{
    let ghost all = chars@.subrange(start as int, end as int);
    let mut stop: usize = end;
    while stop > start && white(chars[stop - 1])
        invariant
            start <= stop <= end <= chars@.len(),
            trimmed_end(all) == trimmed_end(chars@.subrange(start as int, stop as int)),
        decreases stop - start,
    {
        assert(chars@.subrange(start as int, stop as int).drop_last() =~= chars@.subrange(
            start as int,
            stop - 1,
        ));
        stop = stop - 1;
    }
    stop
}

/// Where the white space at the start of some characters ends.
pub fn trim_start(chars: &Vec<char>, start: usize, end: usize) -> (first: usize)
    requires
        start <= end <= chars@.len(),
    ensures
        start <= first <= end,
        chars@.subrange(first as int, end as int) == trimmed_start(
            chars@.subrange(start as int, end as int),
        ),
{
    let ghost all = chars@.subrange(start as int, end as int);
    let mut first: usize = start;
    while first < end && white(chars[first])
        invariant
            start <= first <= end <= chars@.len(),
            trimmed_start(all) == trimmed_start(chars@.subrange(first as int, end as int)),
        decreases end - first,
    {
        assert(chars@.subrange(first as int, end as int).drop_first() =~= chars@.subrange(
            first + 1,
            end as int,
        ));
        first = first + 1;
    }
    first
}

/// A letter of the ASCII alphabet in lower case; other characters as they are.
pub open spec fn lower(c: char) -> char {
    if 'A' <= c <= 'Z' {
        ((c as u32 + 32) as u32) as char
    } else {
        c
    }
}

/// Whether two texts are the same but for the case of ASCII letters.
pub open spec fn same_but_case(left: Seq<char>, right: Seq<char>) -> bool {
    left.len() == right.len() && forall|i: int|
        0 <= i < left.len() ==> lower(#[trigger] left[i]) == lower(right[i])
}

fn lower_code(c: char) -> (code: u32)
    ensures
        code == lower(c) as u32,
{
    let code: u32 = c as u32;
    if code >= 65 && code <= 90 {
        code + 32
    } else {
        code
    }
}

/// Whether characters are a text but for the case of ASCII letters.
pub fn equal_but_case(chars: &Vec<char>, start: usize, end: usize, text: &str) -> (same: bool)
    requires
        start <= end <= chars@.len(),
    ensures
        same == same_but_case(chars@.subrange(start as int, end as int), text@),
{
    let ghost part = chars@.subrange(start as int, end as int);
    let other = chars_of(text);
    if end - start != other.len() {
        return false;
    }
    let mut index: usize = 0;
    while index < other.len()
        invariant
            start <= end <= chars@.len(),
            part == chars@.subrange(start as int, end as int),
            end - start == other@.len(),
            other@ == text@,
            index <= other@.len(),
            forall|i: int| 0 <= i < index ==> lower(#[trigger] part[i]) == lower(text@[i]),
        decreases other@.len() - index,
    {
        let left = lower_code(chars[start + index]);
        let right = lower_code(other[index]);
        if left != right {
            assert(lower(part[index as int]) != lower(text@[index as int]));
            return false;
        }
        assert(part[index as int] == chars@[start + index]);
        index = index + 1;
    }
    true
}

/// Why text is not a number.
#[derive(Clone, Copy, Debug, PartialEq, Eq, Structural)]
pub enum NumberFault {
    Empty,
    InvalidDigit,
    TooLarge,
}

pub open spec fn is_digit(c: char) -> bool {
    48 <= c as u32 <= 57
}

/// The number that digits stand for.
pub open spec fn digits_value(digits: Seq<char>) -> nat
    decreases digits.len(),
{
    if digits.len() == 0 {
        0
    } else {
        digits_value(digits.drop_last()) * 10 + (digits.last() as u32 - 48) as nat
    }
}

/// The digits of a number behind its sign.
pub open spec fn unsigned_digits(text: Seq<char>) -> Seq<char> {
    if text.len() > 1 && text[0] == '+' {
        text.drop_first()
    } else {
        text
    }
}

/// Whether the digits in front of the first other character are already too large a number.
pub open spec fn digits_too_large(digits: Seq<char>, largest: nat) -> bool {
    exists|n: int|
        0 <= n <= digits.len() && all_digits(digits, n) && digits_value(#[trigger] digits.take(n))
            > largest
}

/// Whether the first `n` characters are digits.
pub open spec fn all_digits(text: Seq<char>, n: int) -> bool {
    forall|i: int| 0 <= i < n ==> is_digit(#[trigger] text[i])
}

/// The number that a text stands for: digits, behind a plus sign or not, up to a largest value.
pub open spec fn parsed_number(text: Seq<char>, largest: nat) -> Result<nat, NumberFault> {
    let digits = unsigned_digits(text);
    if text.len() == 0 {
        Err(NumberFault::Empty)
    } else if digits_too_large(digits, largest) {
        Err(NumberFault::TooLarge)
    } else if !all_digits(digits, digits.len() as int) {
        Err(NumberFault::InvalidDigit)
    } else {
        Ok(digits_value(digits))
    }
}

proof fn lemma_digits_grow(digits: Seq<char>, few: int, many: int)
    requires
        0 <= few <= many <= digits.len(),
        all_digits(digits, many),
    ensures
        digits_value(digits.take(few)) <= digits_value(digits.take(many)),
    decreases many - few,
{
    if few < many {
        lemma_digits_grow(digits, few, many - 1);
        assert(digits.take(many).drop_last() =~= digits.take(many - 1));
        assert(is_digit(digits[many - 1]));
    }
}

/// The number that some characters stand for.
pub fn parse_number(chars: &Vec<char>, start: usize, end: usize, largest: u64) -> (number: Result<
    u64,
    NumberFault,
>)
    requires
        start <= end <= chars@.len(),
    ensures
        match number {
            Ok(number) => parsed_number(
                chars@.subrange(start as int, end as int),
                largest as nat,
            ) == Ok::<nat, NumberFault>(number as nat) && number <= largest,
            Err(fault) => parsed_number(
                chars@.subrange(start as int, end as int),
                largest as nat,
            ) == Err::<nat, NumberFault>(fault),
        },
{
    let ghost text = chars@.subrange(start as int, end as int);
    if start == end {
        return Err(NumberFault::Empty);
    }
    let first: usize = if end - start > 1 && chars[start] == '+' {
        start + 1
    } else {
        start
    };
    let ghost digits = unsigned_digits(text);
    proof {
        assert(digits =~= chars@.subrange(first as int, end as int));
    }
    let mut value: u64 = 0;
    let mut index: usize = first;
    assert(digits.take(0) =~= Seq::empty());
    while index < end
        invariant
            start <= first <= index <= end <= chars@.len(),
            start < end,
            text == chars@.subrange(start as int, end as int),
            digits == unsigned_digits(text),
            digits == chars@.subrange(first as int, end as int),
            all_digits(digits, index - first),
            digits_value(digits.take(index - first)) == value,
            value <= largest,
        decreases end - index,
    {
        let code: u32 = chars[index] as u32;
        let ghost at = index - first;
        assert(digits[at] == chars@[index as int]);
        if code < 48 || code > 57 {
            proof {
                assert(!is_digit(digits[at]));
                if digits_too_large(digits, largest as nat) {
                    let n = choose|n: int|
                        0 <= n <= digits.len() && all_digits(digits, n) && digits_value(
                            #[trigger] digits.take(n),
                        ) > largest;
                    if n > at {
                        assert(is_digit(digits[at]));
                    }
                    lemma_digits_grow(digits, n, at);
                }
            }
            return Err(NumberFault::InvalidDigit);
        }
        let wide: u128 = value as u128 * 10 + (code - 48) as u128;
        proof {
            assert(is_digit(digits[at]));
            assert(digits.take(at + 1).drop_last() =~= digits.take(at));
            assert(digits_value(digits.take(at + 1)) == wide);
        }
        if wide > largest as u128 {
            proof {
                assert(all_digits(digits, at + 1));
                assert(digits_value(digits.take(at + 1)) > largest);
            }
            return Err(NumberFault::TooLarge);
        }
        value = wide as u64;
        index = index + 1;
    }
    proof {
        assert(digits.take(digits.len() as int) =~= digits);
        if digits_too_large(digits, largest as nat) {
            let n = choose|n: int|
                0 <= n <= digits.len() && all_digits(digits, n) && digits_value(
                    #[trigger] digits.take(n),
                ) > largest;
            lemma_digits_grow(digits, n, digits.len() as int);
        }
    }
    Ok(value)
}

pub proof fn lemma_decimal(value: nat)
    ensures
        decimal(value).len() > 0,
        all_digits(decimal(value), decimal(value).len() as int),
        digits_value(decimal(value)) == value,
    decreases value,
{
    let shown = decimal(value);
    if value < 10 {
        reveal_with_fuel(digits_value, 2);
        assert(shown.drop_last() =~= Seq::<char>::empty());
        assert(shown.last() as u32 == value + 48);
    } else {
        let front = decimal(value / 10);
        lemma_decimal(value / 10);
        assert(shown.drop_last() =~= front);
        assert(shown.last() as u32 == value % 10 + 48);
        assert forall|i: int| 0 <= i < shown.len() implies is_digit(#[trigger] shown[i]) by {
            if i < front.len() {
                assert(shown[i] == front[i]);
            }
        }
    }
}

/// A number in decimal reads back as the number, unless it is larger than may be; then that is the fault.
pub proof fn law_decimal_reads_back(value: nat, largest: nat)
    ensures
        value <= largest ==> parsed_number(decimal(value), largest) == Ok::<nat, NumberFault>(value),
        value > largest ==> parsed_number(decimal(value), largest) == Err::<nat, NumberFault>(
            NumberFault::TooLarge,
        ),
{
    let shown = decimal(value);
    let all = shown.len() as int;
    lemma_decimal(value);
    assert(is_digit(shown[0]));
    assert(shown.take(all) =~= shown);
    if digits_too_large(shown, largest) {
        let n = choose|n: int|
            0 <= n <= shown.len() && all_digits(shown, n) && digits_value(#[trigger] shown.take(n))
                > largest;
        lemma_digits_grow(shown, n, all);
    }
}

/// Whether a text is a stretch of another with nothing but white space around it and none at its ends.
pub open spec fn is_core(text: Seq<char>, core: Seq<char>, start: int, end: int) -> bool {
    &&& 0 <= start <= end <= text.len()
    &&& core == text.subrange(start, end)
    &&& forall|i: int| 0 <= i < start || end <= i < text.len() ==> is_white(#[trigger] text[i])
    &&& start < end ==> !is_white(text[start]) && !is_white(text[end - 1])
}

proof fn lemma_trimmed_start(text: Seq<char>) -> (start: int)
    ensures
        0 <= start <= text.len(),
        trimmed_start(text) == text.skip(start),
        forall|i: int| 0 <= i < start ==> is_white(#[trigger] text[i]),
        start < text.len() ==> !is_white(text[start]),
    decreases text.len(),
{
    if text.len() > 0 && is_white(text[0]) {
        let rest = text.drop_first();
        let more: int = lemma_trimmed_start(rest);
        assert(rest.skip(more) =~= text.skip(more + 1));
        assert forall|i: int| 0 <= i < more + 1 implies is_white(#[trigger] text[i]) by {
            if i > 0 {
                assert(rest[i - 1] == text[i]);
            }
        }
        if more < rest.len() {
            assert(rest[more] == text[more + 1]);
        }
        more + 1
    } else {
        assert(text.skip(0) =~= text);
        0
    }
}

proof fn lemma_trimmed_end(text: Seq<char>) -> (end: int)
    ensures
        0 <= end <= text.len(),
        trimmed_end(text) == text.take(end),
        forall|i: int| end <= i < text.len() ==> is_white(#[trigger] text[i]),
        end > 0 ==> !is_white(text[end - 1]),
    decreases text.len(),
{
    if text.len() > 0 && is_white(text.last()) {
        let rest = text.drop_last();
        let end: int = lemma_trimmed_end(rest);
        assert(rest.take(end) =~= text.take(end));
        assert forall|i: int| end <= i < text.len() implies is_white(#[trigger] text[i]) by {
            if i < rest.len() {
                assert(rest[i] == text[i]);
            }
        }
        if end > 0 {
            assert(rest[end - 1] == text[end - 1]);
        }
        end
    } else {
        assert(text.take(text.len() as int) =~= text);
        text.len() as int
    }
}

/// Trimming takes the white space at the ends away and nothing else.
pub proof fn law_trimming_keeps_the_core(text: Seq<char>)
    ensures
        exists|start: int, end: int| #[trigger] is_core(text, trimmed(text), start, end),
{
    let start: int = lemma_trimmed_start(text);
    let rest = text.skip(start);
    let count: int = lemma_trimmed_end(rest);
    let end = start + count;
    assert(rest.take(count) =~= text.subrange(start, end));
    assert forall|i: int| 0 <= i < start || end <= i < text.len() implies is_white(
        #[trigger] text[i],
    ) by {
        if i >= end {
            assert(rest[i - start] == text[i]);
        }
    }
    if start < end {
        assert(rest[count - 1] == text[end - 1]);
    }
    assert(is_core(text, trimmed(text), start, end));
}

} // verus!
