//! Base64, as SCRAM messages carry salts, proofs and signatures.
use vstd::prelude::*;
use vstd::string::StrSliceExecFns;

verus! {

/// The character of six bits.
pub open spec fn letter(v: int) -> char {
    if v < 26 {
        ('A' as int + v) as char
    } else if v < 52 {
        ('a' as int + (v - 26)) as char
    } else if v < 62 {
        ('0' as int + (v - 52)) as char
    } else if v == 62 {
        '+'
    } else {
        '/'
    }
}

/// The six bits of a character, `None` for one outside the alphabet.
pub open spec fn letter_value(c: char) -> Option<int> {
    if 'A' <= c && c <= 'Z' {
        Some(c as int - 'A' as int)
    } else if 'a' <= c && c <= 'z' {
        Some(c as int - 'a' as int + 26)
    } else if '0' <= c && c <= '9' {
        Some(c as int - '0' as int + 52)
    } else if c == '+' {
        Some(62)
    } else if c == '/' {
        Some(63)
    } else {
        None
    }
}

/// Up to three bytes as one number, missing ones as zero.
pub open spec fn group(data: Seq<u8>, at: int) -> int {
    data[at] * 0x1_0000 + (if at + 1 < data.len() {
        data[at + 1] * 0x100
    } else {
        0
    }) + (if at + 2 < data.len() {
        data[at + 2] as int
    } else {
        0
    })
}

/// The four characters of the group that begins at `at`.
pub open spec fn group_text(data: Seq<u8>, at: int) -> Seq<char> {
    let n = group(data, at);
    seq![
        letter(n / 0x4_0000),
        letter(n / 0x1000 % 64),
        if at + 1 < data.len() {
            letter(n / 64 % 64)
        } else {
            '='
        },
        if at + 2 < data.len() {
            letter(n % 64)
        } else {
            '='
        },
    ]
}

/// The base64 text of the bytes from `at` on.
pub open spec fn encoded_from(data: Seq<u8>, at: int) -> Seq<char>
    decreases
            (if at < data.len() {
                data.len() - at
            } else {
                0
            }),
{
    if at >= data.len() {
        Seq::empty()
    } else {
        group_text(data, at) + encoded_from(data, at + 3)
    }
}

/// The base64 text of some bytes.
pub open spec fn encoded(data: Seq<u8>) -> Seq<char> {
    encoded_from(data, 0)
}

fn letter_char(v: u32) -> (c: char)
    requires
        v < 64,
    ensures
        c == letter(v as int),
{
    let code: u8 = if v < 26 {
        65 + v as u8
    } else if v < 52 {
        97 + (v as u8 - 26)
    } else if v < 62 {
        48 + (v as u8 - 52)
    } else if v == 62 {
        43
    } else {
        47
    };
    code as char
}

fn value_of(c: char) -> (v: Option<u32>)
    ensures
        match v {
            Some(v) => letter_value(c) == Some(v as int) && v < 64,
            None => letter_value(c) is None,
        },
{
    let code: u32 = c as u32;
    if 65 <= code && code <= 90 {
        Some(code - 65)
    } else if 97 <= code && code <= 122 {
        Some(code - 97 + 26)
    } else if 48 <= code && code <= 57 {
        Some(code - 48 + 52)
    } else if code == 43 {
        Some(62)
    } else if code == 47 {
        Some(63)
    } else {
        None
    }
}

/// Encodes bytes.
pub fn base64_encode(data: &[u8]) -> (text: String)
    ensures
        text@ == encoded(data@),
{
    let size: usize = data.len();
    let mut out: String = String::new();
    let mut at: usize = 0;
    while at < size
        invariant
            size == data@.len(),
            at <= size,
            encoded(data@) == out@ + encoded_from(data@, at as int),
        decreases size - at,
    {
        let ghost before = out@;
        let more = size - at > 1;
        let most = size - at > 2;
        let n: u32 = (data[at] as u32) * 0x1_0000 + (if more {
            data[at + 1] as u32 * 0x100
        } else {
            0
        }) + (if most {
            data[at + 2] as u32
        } else {
            0
        });
        assert(n == group(data@, at as int));
        out.push(letter_char(n / 0x4_0000));
        out.push(letter_char(n / 0x1000 % 64));
        out.push(
            if more {
                letter_char(n / 64 % 64)
            } else {
                '='
            },
        );
        out.push(
            if most {
                letter_char(n % 64)
            } else {
                '='
            },
        );
        proof {
            assert(out@ =~= before + group_text(data@, at as int));
            assert(before + (group_text(data@, at as int) + encoded_from(data@, at + 3)) =~= out@
                + encoded_from(data@, at + 3));
        }
        if size - at <= 3 {
            assert(encoded_from(data@, at + 3) =~= Seq::empty());
            assert(out@ + encoded_from(data@, at + 3) =~= out@);
            return out;
        }
        at = at + 3;
    }
    assert(out@ + encoded_from(data@, at as int) =~= out@);
    out
}

/// The values of the characters from `at` up to the first `=`, `None` where one of
/// them is outside the alphabet.
pub open spec fn values_from(text: Seq<char>, at: int) -> Option<Seq<int>>
    decreases text.len() - at,
{
    if at >= text.len() || text[at] == '=' {
        Some(Seq::empty())
    } else {
        match letter_value(text[at]) {
            None => None,
            Some(v) => match values_from(text, at + 1) {
                None => None,
                Some(rest) => Some(seq![v] + rest),
            },
        }
    }
}

/// The bytes of six-bit values from `at` on: three for every four, and what whole
/// bytes there are in the rest.
pub open spec fn bytes_from(values: Seq<int>, at: int) -> Seq<u8>
    decreases values.len() - at,
{
    if at + 2 > values.len() {
        Seq::empty()
    } else {
        let n = values[at] * 0x4_0000 + values[at + 1] * 0x1000 + (if at + 2 < values.len() {
            values[at + 2] * 64
        } else {
            0
        }) + (if at + 3 < values.len() {
            values[at + 3]
        } else {
            0
        });
        let first = seq![(n / 0x1_0000) as u8];
        if at + 2 == values.len() {
            first
        } else if at + 3 == values.len() {
            first.push((n / 0x100 % 256) as u8)
        } else {
            first.push((n / 0x100 % 256) as u8).push((n % 256) as u8) + bytes_from(values, at + 4)
        }
    }
}

/// The bytes that a base64 text stands for, `None` where it is no base64 text.
pub open spec fn decoded(text: Seq<char>) -> Option<Seq<u8>> {
    match values_from(text, 0) {
        None => None,
        Some(values) => Some(bytes_from(values, 0)),
    }
}

fn read_values(text: &str) -> (values: Option<Vec<u32>>)
    ensures
        match values {
            Some(v) => {
                &&& values_from(text@, 0) == Some(v@.map_values(|x: u32| x as int))
                &&& forall|i: int| 0 <= i < v@.len() ==> (#[trigger] v@[i]) < 64
            },
            None => values_from(text@, 0) is None,
        },
{
    let size: usize = text.unicode_len();
    let mut out: Vec<u32> = Vec::new();
    let mut at: usize = 0;
    let ghost whole = values_from(text@, 0);
    proof {
        let none = out@.map_values(|x: u32| x as int);
        assert(none =~= Seq::empty());
        if let Some(rest) = whole {
            assert(none + rest =~= rest);
        }
    }
    while at < size
        invariant
            size == text@.len(),
            at <= size,
            forall|i: int| 0 <= i < out@.len() ==> (#[trigger] out@[i]) < 64,
            whole == values_from(text@, 0),
            whole == match values_from(text@, at as int) {
                None => None,
                Some(rest) => Some(out@.map_values(|x: u32| x as int) + rest),
            },
        decreases size - at,
    {
        let c = text.get_char(at);
        let ghost before = out@.map_values(|x: u32| x as int);
        if c == '=' {
            assert(before + Seq::<int>::empty() =~= before);
            return Some(out);
        }
        match value_of(c) {
            None => return None,
            Some(v) => {
                out.push(v);
                proof {
                    let now = out@.map_values(|x: u32| x as int);
                    assert(now =~= before.push(v as int));
                    if let Some(rest) = values_from(text@, at + 1) {
                        assert(before + (seq![v as int] + rest) =~= now + rest);
                    }
                }
            },
        }
        at = at + 1;
    }
    proof {
        let now = out@.map_values(|x: u32| x as int);
        assert(now + Seq::<int>::empty() =~= now);
    }
    Some(out)
}

/// Decodes a base64 text. Padding ends it; a character outside the alphabet makes it
/// invalid.
pub fn base64_decode(text: &str) -> (bytes: Option<Vec<u8>>)
    ensures
        match bytes {
            Some(v) => decoded(text@) == Some(v@),
            None => decoded(text@) is None,
        },
{
    let values = match read_values(text) {
        None => return None,
        Some(values) => values,
    };
    let ghost all = values@.map_values(|x: u32| x as int);
    let size: usize = values.len();
    let mut out: Vec<u8> = Vec::new();
    let mut at: usize = 0;
    proof {
        assert(out@ + bytes_from(all, 0) =~= bytes_from(all, 0));
    }
    while size - at >= 2
        invariant
            size == values@.len(),
            at <= size,
            all == values@.map_values(|x: u32| x as int),
            forall|i: int| 0 <= i < values@.len() ==> (#[trigger] values@[i]) < 64,
            bytes_from(all, 0) == out@ + bytes_from(all, at as int),
            decoded(text@) == Some(bytes_from(all, 0)),
        decreases size - at,
    {
        let left: usize = size - at;
        let ghost before = out@;
        let n: u32 = values[at] * 0x4_0000 + values[at + 1] * 0x1000 + (if left > 2 {
            values[at + 2] * 64
        } else {
            0
        }) + (if left > 3 {
            values[at + 3]
        } else {
            0
        });
        out.push((n / 0x1_0000) as u8);
        if left == 2 {
            assert(out@ =~= before + bytes_from(all, at as int));
            return Some(out);
        }
        out.push((n / 0x100 % 256) as u8);
        if left == 3 {
            assert(out@ =~= before + bytes_from(all, at as int));
            return Some(out);
        }
        out.push((n % 256) as u8);
        proof {
            let three = seq![(n / 0x1_0000) as u8].push((n / 0x100 % 256) as u8).push(
                (n % 256) as u8,
            );
            assert(out@ =~= before + three);
            assert(before + (three + bytes_from(all, at + 4)) =~= out@ + bytes_from(all, at + 4));
        }
        at = at + 4;
    }
    assert(out@ + bytes_from(all, at as int) =~= out@);
    Some(out)
}

proof fn lemma_letter(v: int)
    requires
        0 <= v < 64,
    ensures
        letter_value(letter(v)) == Some(v),
        letter(v) != '=',
{
}

/// A number of 24 bits and its four pieces of six bits.
proof fn lemma_pieces(n: int)
    requires
        0 <= n < 0x100_0000,
    ensures
        0 <= n / 0x4_0000 < 64,
        0 <= n / 0x1000 % 64 < 64,
        0 <= n / 64 % 64 < 64,
        0 <= n % 64 < 64,
        (n / 0x4_0000) * 0x4_0000 + (n / 0x1000 % 64) * 0x1000 + (n / 64 % 64) * 64 + n % 64 == n,
{
}

/// A group and its bytes.
proof fn lemma_group(data: Seq<u8>, at: int)
    requires
        0 <= at < data.len(),
    ensures
        0 <= group(data, at) < 0x100_0000,
        group(data, at) / 0x1_0000 == data[at],
        at + 1 < data.len() ==> group(data, at) / 0x100 % 256 == data[at + 1],
        at + 2 < data.len() ==> group(data, at) % 256 == data[at + 2],
        at + 1 == data.len() ==> group(data, at) % 0x1_0000 == 0,
        at + 2 == data.len() ==> group(data, at) % 0x100 == 0,
{
}

/// One character of the alphabet adds its value.
proof fn lemma_one_value(text: Seq<char>, at: int, v: int)
    requires
        0 <= at < text.len(),
        0 <= v < 64,
        text[at] == letter(v),
    ensures
        values_from(text, at) == match values_from(text, at + 1) {
            None => None,
            Some(rest) => Some(seq![v] + rest),
        },
{
    lemma_letter(v);
}

/// The bytes of the first one, two or three bytes' worth of values.
proof fn lemma_first_bytes(data: Seq<u8>, at: int, values: Seq<int>)
    requires
        0 <= at < data.len(),
        ({
            let n = group(data, at);
            &&& values.len() >= 2
            &&& values[0] == n / 0x4_0000
            &&& values[1] == n / 0x1000 % 64
            &&& data.len() - at == 1 ==> values.len() == 2
            &&& data.len() - at == 2 ==> values.len() == 3 && values[2] == n / 64 % 64
            &&& data.len() - at > 2 ==> values.len() >= 4 && values[2] == n / 64 % 64 && values[3]
                == n % 64
        }),
    ensures
        data.len() - at == 1 ==> bytes_from(values, 0) == seq![data[at]],
        data.len() - at == 2 ==> bytes_from(values, 0) == seq![data[at], data[at + 1]],
        data.len() - at > 2 ==> bytes_from(values, 0) == seq![data[at], data[at + 1], data[at + 2]]
            + bytes_from(values, 4),
{
    let n = group(data, at);
    lemma_group(data, at);
    lemma_pieces(n);
    if data.len() - at == 1 {
        let m = values[0] * 0x4_0000 + values[1] * 0x1000;
        assert(m / 0x1_0000 == n / 0x1_0000);
        assert(bytes_from(values, 0) =~= seq![data[at]]);
    } else if data.len() - at == 2 {
        let m = values[0] * 0x4_0000 + values[1] * 0x1000 + values[2] * 64;
        assert(m / 0x1_0000 == n / 0x1_0000);
        assert(m / 0x100 % 256 == n / 0x100 % 256);
        assert(bytes_from(values, 0) =~= seq![data[at], data[at + 1]]);
    } else {
        let three = seq![(n / 0x1_0000) as u8].push((n / 0x100 % 256) as u8).push((n % 256) as u8);
        assert(three =~= seq![data[at], data[at + 1], data[at + 2]]);
        assert(bytes_from(values, 0) == three + bytes_from(values, 4));
    }
}

/// The values of an encoded text are the six-bit pieces of its groups, and give back
/// the bytes.
proof fn lemma_values(data: Seq<u8>, text: Seq<char>, at: int, pos: int)
    requires
        0 <= at,
        0 <= pos <= text.len(),
        text.subrange(pos, text.len() as int) == encoded_from(data, at),
    ensures
        values_from(text, pos) is Some,
        bytes_from(values_from(text, pos).unwrap(), 0) == if at < data.len() {
            data.subrange(at, data.len() as int)
        } else {
            Seq::empty()
        },
    decreases
            (if at < data.len() {
                data.len() - at
            } else {
                0
            }),
{
    let tail = text.subrange(pos, text.len() as int);
    if at >= data.len() {
        assert(tail.len() == 0);
    } else {
        let n = group(data, at);
        let four = group_text(data, at);
        let after = encoded_from(data, at + 3);
        assert(tail == four + after);
        assert(tail.len() == 4 + after.len());
        assert(text[pos] == four[0]) by {
            assert(tail[0] == four[0]);
        }
        assert(text[pos + 1] == four[1]) by {
            assert(tail[1] == four[1]);
        }
        assert(text[pos + 2] == four[2]) by {
            assert(tail[2] == four[2]);
        }
        assert(text[pos + 3] == four[3]) by {
            assert(tail[3] == four[3]);
        }
        lemma_group(data, at);
        lemma_pieces(n);
        lemma_one_value(text, pos, n / 0x4_0000);
        lemma_one_value(text, pos + 1, n / 0x1000 % 64);
        if data.len() - at == 1 {
            assert(values_from(text, pos + 2) == Some(Seq::<int>::empty()));
            let values = values_from(text, pos).unwrap();
            assert(values =~= seq![n / 0x4_0000, n / 0x1000 % 64]);
            lemma_first_bytes(data, at, values);
            assert(data.subrange(at, data.len() as int) =~= seq![data[at]]);
        } else if data.len() - at == 2 {
            lemma_one_value(text, pos + 2, n / 64 % 64);
            assert(values_from(text, pos + 3) == Some(Seq::<int>::empty()));
            let values = values_from(text, pos).unwrap();
            assert(values =~= seq![n / 0x4_0000, n / 0x1000 % 64, n / 64 % 64]);
            lemma_first_bytes(data, at, values);
            assert(data.subrange(at, data.len() as int) =~= seq![data[at], data[at + 1]]);
        } else {
            lemma_one_value(text, pos + 2, n / 64 % 64);
            lemma_one_value(text, pos + 3, n % 64);
            assert(text.subrange(pos + 4, text.len() as int) =~= after) by {
                assert forall|k: int| 0 <= k < after.len() implies text[pos + 4 + k] == after[k] by {
                    assert(tail[4 + k] == after[k]);
                }
            }
            lemma_values(data, text, at + 3, pos + 4);
            let rest = values_from(text, pos + 4).unwrap();
            let values = values_from(text, pos).unwrap();
            assert(values =~= seq![n / 0x4_0000, n / 0x1000 % 64, n / 64 % 64, n % 64] + rest);
            lemma_first_bytes(data, at, values);
            lemma_bytes_shift(values, rest, 4, 0);
            assert(data.subrange(at, data.len() as int) =~= seq![
                data[at],
                data[at + 1],
                data[at + 2],
            ] + bytes_from(rest, 0));
        }
    }
}

/// What bytes come out depends on the values from there on only.
proof fn lemma_bytes_shift(long: Seq<int>, short: Seq<int>, by: int, at: int)
    requires
        0 <= at,
        0 <= by,
        long.len() == short.len() + by,
        forall|i: int| 0 <= i < short.len() ==> (#[trigger] long[i + by]) == short[i],
    ensures
        bytes_from(long, at + by) == bytes_from(short, at),
    decreases short.len() - at,
{
    if at + 2 <= short.len() {
        assert(long[at + by] == short[at]);
        assert(long[at + 1 + by] == short[at + 1]);
        if at + 2 < short.len() {
            assert(long[at + 2 + by] == short[at + 2]);
        }
        if at + 3 < short.len() {
            assert(long[at + 3 + by] == short[at + 3]);
            lemma_bytes_shift(long, short, by, at + 4);
        }
    }
}

/// Decoding gives back what was encoded.
pub proof fn law_base64_round_trips(data: Seq<u8>)
    ensures
        decoded(encoded(data)) == Some(data),
{
    let text = encoded(data);
    assert(text.subrange(0, text.len() as int) =~= text);
    lemma_values(data, text, 0, 0);
    assert(data.subrange(0, data.len() as int) =~= data);
    assert(data.len() == 0 ==> data =~= Seq::empty());
}

/// The alphabet: capitals, small letters, digits, `+` and `/`, in this order.
pub proof fn law_the_alphabet_is_the_standard_one(v: int)
    requires
        0 <= v < 64,
    ensures
        v < 26 ==> letter(v) as int == 'A' as int + v,
        26 <= v < 52 ==> letter(v) as int == 'a' as int + v - 26,
        52 <= v < 62 ==> letter(v) as int == '0' as int + v - 52,
        letter(62) == '+',
        letter(63) == '/',
        letter_value(letter(v)) == Some(v),
{
    lemma_letter(v);
}

/// One byte is two letters, six bits of it and two more with zeros behind them, and two marks
/// that nothing follows.
pub proof fn law_one_byte_is_two_letters(a: u8)
    ensures
        encoded(seq![a]) == seq![letter(a as int / 4), letter(a as int % 4 * 16), '=', '='],
{
    let data = seq![a];
    let n = group(data, 0);
    assert(n == a * 0x1_0000);
    assert(n / 0x4_0000 == a as int / 4);
    assert(n / 0x1000 % 64 == a as int % 4 * 16);
    assert(encoded_from(data, 3) =~= Seq::empty());
    assert(encoded(data) =~= group_text(data, 0));
}

/// Two bytes are three letters, six bits each, the last with zeros behind its four, and a mark
/// that nothing follows.
pub proof fn law_two_bytes_are_three_letters(a: u8, b: u8)
    ensures
        encoded(seq![a, b]) == seq![
            letter(a as int / 4),
            letter(a as int % 4 * 16 + b as int / 16),
            letter(b as int % 16 * 4),
            '=',
        ],
{
    let data = seq![a, b];
    let n = group(data, 0);
    assert(n == a * 0x1_0000 + b * 0x100);
    assert(n / 0x4_0000 == a as int / 4);
    assert(n / 0x1000 % 64 == a as int % 4 * 16 + b as int / 16);
    assert(n / 64 % 64 == b as int % 16 * 4);
    assert(encoded_from(data, 3) =~= Seq::empty());
    assert(encoded(data) =~= group_text(data, 0));
}

/// Three bytes are four letters, six bits each, the highest first.
pub proof fn law_three_bytes_are_four_letters(a: u8, b: u8, c: u8)
    ensures
        encoded(seq![a, b, c]) == seq![
            letter(a as int / 4),
            letter(a as int % 4 * 16 + b as int / 16),
            letter(b as int % 16 * 4 + c as int / 64),
            letter(c as int % 64),
        ],
{
    let data = seq![a, b, c];
    let n = group(data, 0);
    assert(n == a * 0x1_0000 + b * 0x100 + c);
    assert(n / 0x4_0000 == a as int / 4);
    assert(n / 0x1000 % 64 == a as int % 4 * 16 + b as int / 16);
    assert(n / 64 % 64 == b as int % 16 * 4 + c as int / 64);
    assert(n % 64 == c as int % 64);
    assert(encoded_from(data, 3) =~= Seq::empty());
    assert(encoded(data) =~= group_text(data, 0));
}

/// Bytes are written three at a time, each three on their own.
pub proof fn law_bytes_are_written_by_threes(data: Seq<u8>)
    requires
        data.len() >= 3,
    ensures
        encoded(data) == encoded(data.take(3)) + encoded(data.skip(3)),
{
    lemma_shifted_text(data, data.skip(3), 3, 0);
    let first = data.take(3);
    assert(encoded_from(first, 3) =~= Seq::empty());
    assert(group_text(first, 0) == group_text(data, 0));
    assert(encoded(first) =~= group_text(data, 0));
}

proof fn lemma_shifted_text(long: Seq<u8>, short: Seq<u8>, by: int, at: int)
    requires
        0 <= by <= long.len(),
        0 <= at,
        short == long.skip(by),
    ensures
        encoded_from(long, by + at) == encoded_from(short, at),
    decreases
            (if at < short.len() {
                short.len() - at
            } else {
                0
            }),
{
    if at < short.len() {
        lemma_shifted_text(long, short, by, at + 3);
        assert(group_text(long, by + at) == group_text(short, at));
    }
}

} // verus!
