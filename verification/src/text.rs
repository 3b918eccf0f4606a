//! Building text, and reading it.
use crate::names;
use vstd::prelude::*;
use vstd::string::StringExecFns;

verus! {

/// `String::push`: appends one character.
pub assume_specification[ String::push ](s: &mut String, c: char)
    ensures
        final(s)@ == old(s)@.push(c),
;

/// The character of a decimal digit.
pub open spec fn digit(d: int) -> char {
    if d == 0 {
        '0'
    } else if d == 1 {
        '1'
    } else if d == 2 {
        '2'
    } else if d == 3 {
        '3'
    } else if d == 4 {
        '4'
    } else if d == 5 {
        '5'
    } else if d == 6 {
        '6'
    } else if d == 7 {
        '7'
    } else if d == 8 {
        '8'
    } else {
        '9'
    }
}

/// The decimal digits of a number, without leading zeros.
pub open spec fn digits(n: nat) -> Seq<char>
    decreases n,
{
    if n < 10 {
        seq![digit(n as int)]
    } else {
        digits(n / 10).push(digit((n % 10) as int))
    }
}

/// A number in decimal, with a minus sign if it is negative.
pub open spec fn decimal(n: int) -> Seq<char> {
    if n < 0 {
        seq!['-'] + digits((-n) as nat)
    } else {
        digits(n as nat)
    }
}

fn digit_char(d: u64) -> (c: char)
    requires
        d < 10,
    ensures
        c == digit(d as int),
{
    match d {
        0 => '0',
        1 => '1',
        2 => '2',
        3 => '3',
        4 => '4',
        5 => '5',
        6 => '6',
        7 => '7',
        8 => '8',
        _ => '9',
    }
}

/// Appends a number in decimal.
pub fn push_digits(out: &mut String, n: u64)
    ensures
        final(out)@ == old(out)@ + digits(n as nat),
    decreases n,
{
    if n < 10 {
        out.push(digit_char(n));
        assert(out@ =~= old(out)@ + digits(n as nat));
    } else {
        push_digits(out, n / 10);
        out.push(digit_char(n % 10));
        assert(out@ =~= old(out)@ + digits(n as nat));
    }
}

/// Appends a number in decimal, with a minus sign if it is negative.
pub fn push_decimal(out: &mut String, n: i64)
    ensures
        final(out)@ == old(out)@ + decimal(n as int),
{
    if n < 0 {
        out.push('-');
        let magnitude: u64 = if n == i64::MIN {
            0x8000_0000_0000_0000
        } else {
            (-n) as u64
        };
        push_digits(out, magnitude);
        assert(out@ =~= old(out)@ + decimal(n as int));
    } else {
        push_digits(out, n as u64);
    }
}

/// The character of a hexadecimal digit.
pub open spec fn hex_digit(d: int) -> char {
    if d < 10 {
        digit(d)
    } else if d == 10 {
        'a'
    } else if d == 11 {
        'b'
    } else if d == 12 {
        'c'
    } else if d == 13 {
        'd'
    } else if d == 14 {
        'e'
    } else {
        'f'
    }
}

/// A number in hexadecimal, without leading zeros.
pub open spec fn hex(n: nat) -> Seq<char>
    decreases n,
{
    if n < 16 {
        seq![hex_digit(n as int)]
    } else {
        hex(n / 16).push(hex_digit((n % 16) as int))
    }
}

fn hex_char(d: u64) -> (c: char)
    requires
        d < 16,
    ensures
        c == hex_digit(d as int),
{
    match d {
        10 => 'a',
        11 => 'b',
        12 => 'c',
        13 => 'd',
        14 => 'e',
        15 => 'f',
        _ => digit_char(d),
    }
}

/// Appends a number in hexadecimal.
pub fn push_hex(out: &mut String, n: u64)
    ensures
        final(out)@ == old(out)@ + hex(n as nat),
    decreases n,
{
    if n >= 16 {
        push_hex(out, n / 16);
    }
    out.push(hex_char(n % 16));
    assert(out@ =~= old(out)@ + hex(n as nat));
}

/// The number that some decimal digits make, read from the left, `None` where one of
/// them is no digit.
pub open spec fn number_of(text: Seq<char>, n: nat) -> Option<nat>
    decreases n,
{
    if n == 0 {
        Some(0)
    } else {
        match number_of(text, (n - 1) as nat) {
            None => None,
            Some(high) => if '0' <= text[n - 1] && text[n - 1] <= '9' {
                Some((high * 10 + (text[n - 1] as int - '0' as int)) as nat)
            } else {
                None
            },
        }
    }
}

/// The text without a plus sign at its start.
pub open spec fn unsigned_part(text: Seq<char>) -> Seq<char> {
    if text.len() > 1 && text[0] == '+' {
        text.subrange(1, text.len() as int)
    } else {
        text
    }
}

/// The number up to `limit` that a text spells: decimal digits, at least one, a plus
/// sign before them or not.
pub open spec fn parsed(text: Seq<char>, limit: nat) -> Option<nat> {
    let part = unsigned_part(text);
    if part.len() == 0 {
        None
    } else {
        match number_of(part, part.len()) {
            None => None,
            Some(n) => if n <= limit {
                Some(n)
            } else {
                None
            },
        }
    }
}

/// The 32-bit number that a text spells.
pub open spec fn parsed_u32(text: Seq<char>) -> Option<u32> {
    match parsed(text, u32::MAX as nat) {
        Some(n) => Some(n as u32),
        None => None,
    }
}

proof fn lemma_number_grows(text: Seq<char>, n: nat, m: nat)
    requires
        n <= m <= text.len(),
        number_of(text, m) is Some,
    ensures
        number_of(text, n) is Some,
        number_of(text, n).unwrap() <= number_of(text, m).unwrap(),
    decreases m - n,
{
    if n < m {
        lemma_number_grows(text, n, (m - 1) as nat);
    }
}

/// Reads a number up to a limit, as `str::parse` does.
pub fn parse(text: &str, limit: u64) -> (number: Option<u64>)
    ensures
        match number {
            Some(n) => parsed(text@, limit as nat) == Some(n as nat),
            None => parsed(text@, limit as nat) is None,
        },
{
    let ghost part = unsigned_part(text@);
    let mut value: u128 = 0;
    let size: usize = text.unicode_len();
    let start: usize = if size > 1 && text.get_char(0) == '+' {
        1
    } else {
        0
    };
    if size == start {
        return None;
    }
    assert(part =~= text@.subrange(start as int, text@.len() as int));
    let mut i: usize = start;
    while i < size
        invariant
            start <= i <= size,
            size == text@.len(),
            part == text@.subrange(start as int, text@.len() as int),
            part == unsigned_part(text@),
            part.len() > 0,
            value <= limit,
            number_of(part, (i - start) as nat) == Some(value as nat),
        decreases size - i,
    {
        let c = text.get_char(i);
        assert(part[i - start] == c);
        if c < '0' || c > '9' {
            proof {
                assert(number_of(part, (i - start + 1) as nat) is None);
                if number_of(part, part.len()) is Some {
                    lemma_number_grows(part, (i - start + 1) as nat, part.len());
                }
            }
            return None;
        }
        value = value * 10 + (c as u32 - '0' as u32) as u128;
        i = i + 1;
        if value > limit as u128 {
            proof {
                assert(number_of(part, (i - start) as nat) == Some(value as nat));
                if number_of(part, part.len()) is Some {
                    lemma_number_grows(part, (i - start) as nat, part.len());
                }
            }
            return None;
        }
    }
    Some(value as u64)
}

/// Reads a 32-bit number, as `str::parse` does.
pub fn parse_u32(text: &str) -> (number: Option<u32>)
    ensures
        number == parsed_u32(text@),
{
    match parse(text, u32::MAX as u64) {
        Some(n) => Some(n as u32),
        None => None,
    }
}

/// White space, as Unicode has it.
pub open spec fn is_space(c: char) -> bool {
    let n = c as int;
    ||| 9 <= n <= 13
    ||| n == 0x20
    ||| n == 0x85
    ||| n == 0xa0
    ||| n == 0x1680
    ||| 0x2000 <= n <= 0x200a
    ||| n == 0x2028
    ||| n == 0x2029
    ||| n == 0x202f
    ||| n == 0x205f
    ||| n == 0x3000
}

fn space(c: char) -> (yes: bool)
    ensures
        yes == is_space(c),
{
    let n: u32 = c as u32;
    (9 <= n && n <= 13) || n == 0x20 || n == 0x85 || n == 0xa0 || n == 0x1680 || (0x2000 <= n && n
        <= 0x200a) || n == 0x2028 || n == 0x2029 || n == 0x202f || n == 0x205f || n == 0x3000
}

/// Where the text from `at` on has its first character that is no white space.
pub open spec fn first_word(text: Seq<char>, at: int) -> int
    decreases text.len() - at,
{
    if at < text.len() && is_space(text[at]) {
        first_word(text, at + 1)
    } else {
        at
    }
}

/// Where the text up to `end`, but not before `from`, has its last character that is no
/// white space, and one more.
pub open spec fn last_word(text: Seq<char>, from: int, end: int) -> int
    decreases end - from,
{
    if from < end && is_space(text[end - 1]) {
        last_word(text, from, end - 1)
    } else {
        end
    }
}

/// A text without the white space around it.
pub open spec fn trimmed(text: Seq<char>) -> Seq<char> {
    let from = first_word(text, 0);
    text.subrange(from, last_word(text, from, text.len() as int))
}

/// Takes the white space around a text away.
pub fn trim(text: &str) -> (out: String)
    ensures
        out@ == trimmed(text@),
{
    let size: usize = text.unicode_len();
    let from: usize = skip_space(text, 0);
    let mut end: usize = size;
    while from < end && space(text.get_char(end - 1))
        invariant
            from <= end <= size == text@.len(),
            last_word(text@, from as int, size as int) == last_word(
                text@,
                from as int,
                end as int,
            ),
        decreases end,
    {
        end = end - 1;
    }
    text.substring_char(from, end).to_owned()
}

/// Where the word at `at` ends.
pub open spec fn word_end(text: Seq<char>, at: int) -> int
    decreases text.len() - at,
{
    if at < text.len() && !is_space(text[at]) {
        word_end(text, at + 1)
    } else {
        at
    }
}

/// The second of the words that white space separates.
pub open spec fn second_of(text: Seq<char>) -> Option<Seq<char>> {
    let from = first_word(text, word_end(text, first_word(text, 0)));
    if from >= text.len() {
        None
    } else {
        Some(text.subrange(from, word_end(text, from)))
    }
}

fn skip_space(text: &str, at: usize) -> (next: usize)
    requires
        at <= text@.len(),
    ensures
        next == first_word(text@, at as int),
        at <= next <= text@.len(),
{
    let size: usize = text.unicode_len();
    let mut i: usize = at;
    while i < size && space(text.get_char(i))
        invariant
            at <= i <= size == text@.len(),
            first_word(text@, at as int) == first_word(text@, i as int),
        decreases size - i,
    {
        i = i + 1;
    }
    i
}

fn skip_word(text: &str, at: usize) -> (next: usize)
    requires
        at <= text@.len(),
    ensures
        next == word_end(text@, at as int),
        at <= next <= text@.len(),
{
    let size: usize = text.unicode_len();
    let mut i: usize = at;
    while i < size && !space(text.get_char(i))
        invariant
            at <= i <= size == text@.len(),
            word_end(text@, at as int) == word_end(text@, i as int),
        decreases size - i,
    {
        i = i + 1;
    }
    i
}

/// The second of the words that white space separates.
pub fn second_word(text: &str) -> (word: Option<String>)
    ensures
        match word {
            Some(w) => second_of(text@) == Some(w@),
            None => second_of(text@) is None,
        },
{
    let from: usize = skip_space(text, skip_word(text, skip_space(text, 0)));
    if from >= text.unicode_len() {
        return None;
    }
    Some(text.substring_char(from, skip_word(text, from)).to_owned())
}

/// What stands between the commas of a text, from `at` on, the current part having begun
/// at `start`.
pub open spec fn split_from(text: Seq<char>, start: int, at: int) -> Seq<Seq<char>>
    decreases text.len() - at,
{
    if at >= text.len() {
        seq![text.subrange(start, text.len() as int)]
    } else if text[at] == ',' {
        seq![text.subrange(start, at)] + split_from(text, at + 1, at + 1)
    } else {
        split_from(text, start, at + 1)
    }
}

/// Splits a text at its commas.
pub fn split(text: &str) -> (list: Vec<String>)
    ensures
        names::names_of(list@) == split_from(text@, 0, 0),
{
    let ghost all = text@;
    let size: usize = text.unicode_len();
    let mut list: Vec<String> = Vec::new();
    let mut start: usize = 0;
    let mut at: usize = 0;
    assert(names::names_of(list@) + split_from(all, 0, 0) =~= split_from(all, 0, 0));
    while at < size
        invariant
            all == text@,
            start <= at <= size,
            size == all.len(),
            split_from(all, 0, 0) == names::names_of(list@) + split_from(
                all,
                start as int,
                at as int,
            ),
        decreases size - at,
    {
        if text.get_char(at) == ',' {
            let ghost before = list@;
            let part = text.substring_char(start, at).to_owned();
            list.push(part);
            proof {
                assert(names::names_of(list@) =~= names::names_of(before).push(
                    all.subrange(start as int, at as int),
                ));
                let rest = split_from(all, at + 1, at + 1);
                assert(names::names_of(before) + (seq![all.subrange(start as int, at as int)]
                    + rest) =~= names::names_of(list@) + rest);
            }
            start = at + 1;
        }
        at = at + 1;
    }
    let ghost before = list@;
    list.push(text.substring_char(start, size).to_owned());
    assert(names::names_of(list@) =~= names::names_of(before) + seq![
        all.subrange(start as int, size as int),
    ]);
    list
}

/// A text that starts like another and goes on.
pub fn joined(first: &str, second: &str) -> (out: String)
    ensures
        out@ == first@ + second@,
{
    let mut out: String = first.to_owned();
    out.append(second);
    out
}

/// A number that was written in decimal reads back, up to any limit that it does not
/// exceed, and is refused above it.
pub proof fn law_a_number_reads_back(n: nat, limit: nat)
    ensures
        n <= limit ==> parsed(digits(n), limit) == Some(n),
        n > limit ==> parsed(digits(n), limit) is None,
        n <= limit ==> parsed(seq!['+'] + digits(n), limit) == Some(n),
        forall|i: int| 0 <= i < digits(n).len() ==> '0' <= (#[trigger] digits(n)[i]) <= '9',
        decimal(n as int) == digits(n),
        n > 0 ==> decimal(-n) == seq!['-'] + digits(n),
{
    lemma_digits(n);
    let text = digits(n);
    assert(text[0] != '+');
    let plus = seq!['+'] + text;
    assert(plus.subrange(1, plus.len() as int) =~= text);
}

proof fn lemma_digits(n: nat)
    ensures
        digits(n).len() > 0,
        forall|i: int| 0 <= i < digits(n).len() ==> '0' <= (#[trigger] digits(n)[i]) <= '9',
        number_of(digits(n), digits(n).len()) == Some(n),
    decreases n,
{
    if n >= 10 {
        lemma_digits(n / 10);
        let high = digits(n / 10);
        let text = digits(n);
        lemma_same_number(high, text, high.len());
        assert(text[high.len() as int] == digit((n % 10) as int));
    } else {
        let text = digits(n);
        assert(number_of(text, 0) == Some(0nat));
        assert(text[0] == digit(n as int));
    }
}

proof fn lemma_same_number(a: Seq<char>, b: Seq<char>, n: nat)
    requires
        n <= a.len(),
        n <= b.len(),
        forall|i: int| 0 <= i < n ==> (#[trigger] a[i]) == b[i],
    ensures
        number_of(a, n) == number_of(b, n),
    decreases n,
{
    if n > 0 {
        lemma_same_number(a, b, (n - 1) as nat);
        assert(a[n - 1] == b[n - 1]);
    }
}

/// What is no number is refused: nothing at all, a sign alone, or a character that is no
/// digit.
pub proof fn law_what_is_no_number_is_refused(text: Seq<char>, i: int, limit: nat)
    requires
        text.len() == 0 || (0 < i < text.len() && !('0' <= text[i] && text[i] <= '9')) || (i == 0
            && text[0] != '+' && !('0' <= text[0] && text[0] <= '9')) || text == seq!['+'],
    ensures
        parsed(text, limit) is None,
{
    let part = unsigned_part(text);
    if text.len() > 0 {
        if text.len() > 1 && text[0] == '+' {
            assert(part[i - 1] == text[i]);
            lemma_no_number(part, i - 1, part.len());
        } else {
            if text == seq!['+'] {
                assert(text[0] == '+');
                lemma_no_number(part, 0, part.len());
            } else {
                lemma_no_number(part, i, part.len());
            }
        }
    }
}

proof fn lemma_no_number(text: Seq<char>, i: int, n: nat)
    requires
        0 <= i < n <= text.len(),
        !('0' <= text[i] && text[i] <= '9'),
    ensures
        number_of(text, n) is None,
    decreases n,
{
    if i < n - 1 {
        lemma_no_number(text, i, (n - 1) as nat);
    }
}

/// Two numbers never look alike in hexadecimal.
pub proof fn law_hexadecimal_tells_numbers_apart(a: nat, b: nat)
    requires
        hex(a) == hex(b),
    ensures
        a == b,
    decreases a,
{
    let text = hex(a);
    lemma_hex_len(a);
    lemma_hex_len(b);
    if a >= 16 {
        assert(text.last() == hex_digit((a % 16) as int));
        if b < 16 {
            assert(hex(b).len() == 1);
        } else {
            assert(hex(b).last() == hex_digit((b % 16) as int));
            lemma_hex_digit((a % 16) as int, (b % 16) as int);
            assert(hex(a).drop_last() =~= hex(a / 16));
            assert(hex(b).drop_last() =~= hex(b / 16));
            law_hexadecimal_tells_numbers_apart(a / 16, b / 16);
        }
    } else {
        assert(text.len() == 1);
        assert(b < 16);
        assert(hex(a)[0] == hex_digit(a as int));
        assert(hex(b)[0] == hex_digit(b as int));
        lemma_hex_digit(a as int, b as int);
    }
}

proof fn lemma_hex_len(n: nat)
    ensures
        hex(n).len() > 0,
        n >= 16 ==> hex(n).len() > 1,
    decreases n,
{
    if n >= 16 {
        lemma_hex_len(n / 16);
    }
}

proof fn lemma_hex_digit(a: int, b: int)
    requires
        0 <= a < 16,
        0 <= b < 16,
        hex_digit(a) == hex_digit(b),
    ensures
        a == b,
{
}

/// A text without the white space around it begins and ends with something else, unless it
/// is empty, and what was taken away was white space.
pub proof fn law_only_outer_space_is_trimmed(text: Seq<char>)
    ensures
        exists|from: int, to: int| #[trigger]
            text.subrange(from, to) == trimmed(text) && 0 <= from <= to <= text.len() && (forall|
                i: int,
            |
                0 <= i < from || to <= i < text.len() ==> is_space(#[trigger] text[i])),
        trimmed(text).len() > 0 ==> !is_space(trimmed(text)[0]) && !is_space(trimmed(text).last()),
{
    let from = first_word(text, 0);
    let to = last_word(text, from, text.len() as int);
    lemma_first_word(text, 0);
    lemma_last_word(text, from, text.len() as int);
    assert(text.subrange(from, to) == trimmed(text));
    assert forall|i: int| 0 <= i < from || to <= i < text.len() implies is_space(
        #[trigger] text[i],
    ) by {}
}

proof fn lemma_first_word(text: Seq<char>, at: int)
    requires
        0 <= at <= text.len(),
    ensures
        at <= first_word(text, at) <= text.len(),
        forall|i: int| at <= i < first_word(text, at) ==> is_space(#[trigger] text[i]),
        first_word(text, at) < text.len() ==> !is_space(text[first_word(text, at)]),
    decreases text.len() - at,
{
    if at < text.len() && is_space(text[at]) {
        lemma_first_word(text, at + 1);
    }
}

proof fn lemma_last_word(text: Seq<char>, from: int, end: int)
    requires
        0 <= from <= end <= text.len(),
    ensures
        from <= last_word(text, from, end) <= end,
        forall|i: int| last_word(text, from, end) <= i < end ==> is_space(#[trigger] text[i]),
        last_word(text, from, end) > from ==> !is_space(text[last_word(text, from, end) - 1]),
    decreases end - from,
{
    if from < end && is_space(text[end - 1]) {
        lemma_last_word(text, from, end - 1);
    }
}

/// Some texts with commas between them.
pub open spec fn with_commas(parts: Seq<Seq<char>>) -> Seq<char>
    decreases parts.len(),
{
    if parts.len() == 0 {
        Seq::empty()
    } else if parts.len() == 1 {
        parts[0]
    } else {
        parts[0] + seq![','] + with_commas(parts.drop_first())
    }
}

/// Splitting at commas takes a text apart at every comma and nowhere else: put together
/// again with commas the parts are the text, and none of them holds one.
pub proof fn law_splitting_keeps_the_text(text: Seq<char>)
    ensures
        split_from(text, 0, 0).len() > 0,
        with_commas(split_from(text, 0, 0)) == text,
        forall|i: int|
            0 <= i < split_from(text, 0, 0).len() ==> !(#[trigger] split_from(
                text,
                0,
                0,
            )[i]).contains(','),
{
    lemma_split(text, 0, 0);
    assert(text.subrange(0, text.len() as int) =~= text);
}

proof fn lemma_split(text: Seq<char>, start: int, at: int)
    requires
        0 <= start <= at <= text.len(),
        forall|i: int| start <= i < at ==> (#[trigger] text[i]) != ',',
    ensures
        split_from(text, start, at).len() > 0,
        with_commas(split_from(text, start, at)) == text.subrange(start, text.len() as int),
        forall|i: int|
            0 <= i < split_from(text, start, at).len() ==> !(#[trigger] split_from(
                text,
                start,
                at,
            )[i]).contains(','),
    decreases text.len() - at,
{
    let parts = split_from(text, start, at);
    if at >= text.len() {
        let own = text.subrange(start, text.len() as int);
        assert(parts =~= seq![own]);
        assert(!own.contains(','));
    } else if text[at] == ',' {
        lemma_split(text, at + 1, at + 1);
        let own = text.subrange(start, at);
        let rest = split_from(text, at + 1, at + 1);
        assert(parts == seq![own] + rest);
        assert(parts.drop_first() =~= rest);
        assert(parts[0] == own);
        assert(own + seq![','] + text.subrange(at + 1, text.len() as int) =~= text.subrange(
            start,
            text.len() as int,
        ));
        assert forall|i: int| 0 <= i < parts.len() implies !(#[trigger] parts[i]).contains(',') by {
            if i == 0 {
                assert(!own.contains(','));
            } else {
                assert(parts[i] == rest[i - 1]);
            }
        }
    } else {
        lemma_split(text, start, at + 1);
    }
}

/// The second word is what stands between white space behind the first: behind a word and
/// some white space, a word that ends the text or is followed by white space.
pub proof fn law_the_second_word_stands_behind_the_first(
    first: Seq<char>,
    gap: Seq<char>,
    second: Seq<char>,
    rest: Seq<char>,
)
    requires
        first.len() > 0,
        gap.len() > 0,
        second.len() > 0,
        forall|i: int| 0 <= i < first.len() ==> !is_space(#[trigger] first[i]),
        forall|i: int| 0 <= i < gap.len() ==> is_space(#[trigger] gap[i]),
        forall|i: int| 0 <= i < second.len() ==> !is_space(#[trigger] second[i]),
        rest.len() == 0 || is_space(rest[0]),
    ensures
        second_of(first + gap + second + rest) == Some(second),
        second_of(first) is None,
{
    let text = first + gap + second + rest;
    let a = first.len() as int;
    let b = a + gap.len();
    let c = b + second.len();
    assert forall|i: int| 0 <= i < a implies !is_space(#[trigger] text[i]) by {
        assert(text[i] == first[i]);
    }
    assert forall|i: int| a <= i < b implies is_space(#[trigger] text[i]) by {
        assert(text[i] == gap[i - a]);
    }
    assert forall|i: int| b <= i < c implies !is_space(#[trigger] text[i]) by {
        assert(text[i] == second[i - b]);
    }
    if c < text.len() {
        assert(text[c] == rest[0]);
    }
    assert(first_word(text, 0) == 0);
    lemma_word_end(text, 0, a);
    lemma_space_end(text, a, b);
    lemma_word_end(text, b, c);
    assert(text.subrange(b, c) =~= second);
    assert(first_word(first, 0) == 0);
    lemma_word_end(first, 0, a);
    assert(first_word(first, a) == a);
}

proof fn lemma_word_end(text: Seq<char>, at: int, end: int)
    requires
        0 <= at <= end <= text.len(),
        forall|i: int| at <= i < end ==> !is_space(#[trigger] text[i]),
        end == text.len() || is_space(text[end]),
    ensures
        word_end(text, at) == end,
    decreases end - at,
{
    if at < end {
        assert(!is_space(text[at]));
        lemma_word_end(text, at + 1, end);
    }
}

proof fn lemma_space_end(text: Seq<char>, at: int, end: int)
    requires
        0 <= at <= end < text.len(),
        forall|i: int| at <= i < end ==> is_space(#[trigger] text[i]),
        !is_space(text[end]),
    ensures
        first_word(text, at) == end,
    decreases end - at,
{
    if at < end {
        assert(is_space(text[at]));
        lemma_space_end(text, at + 1, end);
    }
}

/// The digits are those of ASCII: the ten of decimal one after the other from `0`, and six
/// more from `a`.
pub proof fn law_digits_are_those_of_ascii(d: int)
    ensures
        0 <= d < 10 ==> digit(d) as int == '0' as int + d,
        0 <= d < 10 ==> hex_digit(d) as int == '0' as int + d,
        10 <= d < 16 ==> hex_digit(d) as int == 'a' as int + d - 10,
{
}

/// White space in ASCII is the blank and what moves the carriage.
pub proof fn law_blanks_and_line_ends_are_white_space(c: char)
    ensures
        is_space(' '),
        is_space('\t'),
        is_space('\n'),
        is_space('\r'),
        (c as int) < 128 ==> (is_space(c) <==> c as int == 32 || 9 <= c as int <= 13),
{
}

} // verus!
