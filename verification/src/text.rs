//! Text as sequences of characters: splitting at ASCII marks, lines, trimming, decimal
//! numbers, and reading bytes as UTF-8.

use vstd::prelude::*;
use vstd::string::*;
use vstd::utf8::*;

verus! {

// ---------------------------------------------------------------------------
// Searching
// ---------------------------------------------------------------------------

/// The index of the first `x` in `s`, or the length of `s` where there is none.
pub open spec fn position<T>(s: Seq<T>, x: T) -> int
    decreases s.len(),
{
    if s.len() == 0 || s[0] == x {
        0
    } else {
        1 + position(s.drop_first(), x)
    }
}

/// Before the first `x` there is none.
pub proof fn lemma_position<T>(s: Seq<T>, x: T)
    ensures
        0 <= position(s, x) <= s.len(),
        forall|i: int| 0 <= i < position(s, x) ==> s[i] != x,
        position(s, x) < s.len() ==> s[position(s, x)] == x,
        position(s, x) < s.len() <==> s.contains(x),
    decreases s.len(),
{
    if s.len() > 0 && s[0] != x {
        let rest = s.drop_first();
        lemma_position(rest, x);
        assert forall|i: int| 0 <= i < position(s, x) implies s[i] != x by {
            if i > 0 {
                assert(s[i] == rest[i - 1]);
            }
        }
        if s.contains(x) {
            let i = choose|i: int| 0 <= i < s.len() && s[i] == x;
            assert(rest[i - 1] == x);
        }
    }
}

/// The first `x` is where a part without it ends.
pub proof fn lemma_position_split<T>(head: Seq<T>, x: T, tail: Seq<T>)
    requires
        !head.contains(x),
    ensures
        position(head + seq![x] + tail, x) == head.len(),
        (head + seq![x] + tail).take(head.len() as int) == head,
        (head + seq![x] + tail).skip(head.len() + 1int) == tail,
{
    let s = head + seq![x] + tail;
    lemma_position(s, x);
    let n = head.len() as int;
    assert(s[n] == x);
    let p = position(s, x);
    if p < n {
        assert(s[p] == head[p]);
        assert(head.contains(x));
    }
    assert(s.take(n) =~= head);
    assert(s.skip(n + 1) =~= tail);
}

// ---------------------------------------------------------------------------
// Characters and their encoding
// ---------------------------------------------------------------------------

/// Encoding a concatenation is the concatenation of the encodings.
pub proof fn lemma_encode_concat(a: Seq<char>, b: Seq<char>)
    ensures
        encode_utf8(a + b) == encode_utf8(a) + encode_utf8(b),
    decreases a.len(),
{
    if a.len() == 0 {
        assert(a + b =~= b);
        assert(encode_utf8(a) + encode_utf8(b) =~= encode_utf8(b));
    } else {
        assert((a + b).drop_first() =~= a.drop_first() + b);
        lemma_encode_concat(a.drop_first(), b);
        assert(encode_utf8(a + b) =~= encode_utf8(a) + encode_utf8(b));
    }
}

/// Two texts with the same encoding are the same text.
pub proof fn lemma_encode_injective(a: Seq<char>, b: Seq<char>)
    requires
        encode_utf8(a) == encode_utf8(b),
    ensures
        a == b,
{
    encode_utf8_decode_utf8(a);
    encode_utf8_decode_utf8(b);
}

/// An ASCII character is encoded as the one byte that carries its number.
pub proof fn lemma_encode_ascii(c: char)
    requires
        c <= '\u{7f}',
    ensures
        encode_utf8(seq![c]) == seq![c as u8],
{
    let cs = seq![c];
    assert(is_ascii_chars(cs));
    is_ascii_chars_encode_utf8(cs);
    assert(cs[0] as u8 == encode_utf8(cs)[0]);
    assert(encode_utf8(cs) =~= seq![c as u8]);
}

/// The number of an ASCII character fits in a byte.
proof fn lemma_ascii_cast(c: char)
    requires
        c <= '\u{7f}',
    ensures
        c as u8 as char == c,
        c as u8 == c as u32,
{
}

/// The bytes of one encoded character: a byte below 0x80 is the whole encoding, and every
/// other byte is at least 0x80.
pub proof fn lemma_scalar_bytes(c: char)
    ensures
        ({
            let e = encode_scalar(c as u32);
            &&& e.len() >= 1
            &&& c <= '\u{7f}' ==> e == seq![c as u8]
            &&& c > '\u{7f}' ==> forall|i: int| 0 <= i < e.len() ==> e[i] >= 0x80
        }),
{
    char_is_scalar(c);
    let v = c as u32;
    if c <= '\u{7f}' {
        assert((v & 0x7F) as u8 == v as u8) by (bit_vector)
            requires
                v <= 0x7f,
        ;
        assert(encode_scalar(v) =~= seq![c as u8]);
    } else {
        assert((0xC0 | ((v >> 6) & 0x1F) as u8) >= 0x80u8) by (bit_vector);
        assert((0xE0 | ((v >> 12) & 0x0F) as u8) >= 0x80u8) by (bit_vector);
        assert((0xF0 | ((v >> 18) & 0x7) as u8) >= 0x80u8) by (bit_vector);
        assert((0x80 | (v & 0x3F) as u8) >= 0x80u8) by (bit_vector);
        assert((0x80 | ((v >> 6) & 0x3F) as u8) >= 0x80u8) by (bit_vector);
        assert((0x80 | ((v >> 12) & 0x3F) as u8) >= 0x80u8) by (bit_vector);
    }
}

/// An ASCII byte in an encoding stands for a character of its own: what is before it and what
/// is after it are encodings too.
pub proof fn lemma_ascii_byte_at(cs: Seq<char>, i: int) -> (k: int)
    requires
        0 <= i < encode_utf8(cs).len(),
        encode_utf8(cs)[i] < 0x80,
    ensures
        0 <= k < cs.len(),
        cs[k] == encode_utf8(cs)[i] as char,
        encode_utf8(cs).take(i) == encode_utf8(cs.take(k)),
        encode_utf8(cs).skip(i) == encode_utf8(cs.skip(k)),
        encode_utf8(cs).skip(i + 1) == encode_utf8(cs.skip(k + 1)),
    decreases cs.len(),
{
    let bytes = encode_utf8(cs);
    let head = encode_scalar(cs[0] as u32);
    let rest = encode_utf8(cs.drop_first());
    lemma_scalar_bytes(cs[0]);
    assert(bytes == head + rest);
    if i < head.len() {
        assert(bytes[i] == head[i]);
        assert(cs[0] <= '\u{7f}');
        assert(head[0] == cs[0] as u8);
        lemma_ascii_cast(cs[0]);
        assert(bytes.take(i) =~= encode_utf8(cs.take(0)));
        assert(cs.skip(0) =~= cs);
        assert(cs.skip(1) =~= cs.drop_first());
        assert(bytes.skip(0) =~= bytes);
        assert(bytes.skip(1) =~= rest);
        0
    } else {
        let j = i - head.len();
        assert(bytes[i] == rest[j]);
        let k = lemma_ascii_byte_at(cs.drop_first(), j);
        assert(cs.take(k + 1) =~= seq![cs[0]] + cs.drop_first().take(k));
        assert(cs.take(k + 1).drop_first() =~= cs.drop_first().take(k));
        assert(bytes.take(i) =~= head + rest.take(j));
        assert(cs.skip(k + 1) =~= cs.drop_first().skip(k));
        assert(cs.skip(k + 2) =~= cs.drop_first().skip(k + 1));
        assert(bytes.skip(i) =~= rest.skip(j));
        assert(bytes.skip(i + 1) =~= rest.skip(j + 1));
        k + 1
    }
}

/// A text contains an ASCII character exactly where its encoding contains the byte.
pub proof fn lemma_encode_contains(cs: Seq<char>, c: char)
    requires
        c <= '\u{7f}',
    ensures
        encode_utf8(cs).contains(c as u8) <==> cs.contains(c),
{
    let bytes = encode_utf8(cs);
    if bytes.contains(c as u8) {
        let i = choose|i: int| 0 <= i < bytes.len() && bytes[i] == c as u8;
        let k = lemma_ascii_byte_at(cs, i);
        assert(cs[k] == c);
    }
    if cs.contains(c) {
        let k = choose|k: int| 0 <= k < cs.len() && cs[k] == c;
        assert(cs =~= cs.take(k) + (seq![c] + cs.skip(k + 1)));
        lemma_encode_concat(cs.take(k), seq![c] + cs.skip(k + 1));
        lemma_encode_concat(seq![c], cs.skip(k + 1));
        lemma_encode_ascii(c);
        assert(bytes[encode_utf8(cs.take(k)).len() as int] == c as u8);
    }
}

/// Splits `text` at its first `mark`, an ASCII character.
pub(crate) fn split_first(text: &str, mark: char) -> (parts: Option<(&str, &str)>)
    requires
        mark <= '\u{7f}',
    ensures
        match parts {
            Some((head, tail)) => text@ == head@ + seq![mark] + tail@ && !head@.contains(
                mark,
            ),
            None => !text@.contains(mark),
        },
{
    let bytes = text.as_bytes();
    let byte: u8 = mark as u8;
    proof {
        lemma_ascii_cast(mark);
    }
    let mut i: usize = 0;
    while i < bytes.len()
        invariant
            i <= bytes@.len(),
            mark <= '\u{7f}',
            byte == mark as u8,
            byte as char == mark,
            bytes@ == text.spec_bytes(),
            forall|j: int| 0 <= j < i ==> bytes@[j] != byte,
        decreases bytes.len() - i,
    {
        if bytes[i] == byte {
            let ghost cs = text@;
            let ghost k: int;
            proof {
                k = lemma_ascii_byte_at(cs, i as int);
                encode_utf8_valid_utf8(cs);
                is_char_boundary_iff_is_leading_byte(bytes@, i as int);
                assert(bytes@.take(i as int) =~= bytes@.subrange(0, i as int));
                assert(bytes@.skip(i as int) =~= bytes@.subrange(i as int, bytes@.len() as int));
            }
            let (head, rest) = text.split_at(i);
            proof {
                lemma_encode_injective(head@, cs.take(k));
                lemma_encode_injective(rest@, cs.skip(k));
                encode_utf8_valid_utf8(rest@);
                lemma_scalar_bytes(rest@[0]);
                encode_utf8_first_scalar(rest@);
                is_char_boundary_start_end_of_seq(pop_first_scalar(rest.spec_bytes()));
                assert(rest.spec_bytes().subrange(1, rest.spec_bytes().len() as int)
                    =~= bytes@.skip(i + 1));
            }
            let (_mark, tail) = rest.split_at(1);
            proof {
                lemma_encode_injective(tail@, cs.skip(k + 1));
                assert(cs =~= cs.take(k) + seq![mark] + cs.skip(k + 1));
                lemma_encode_contains(head@, mark);
                assert(!head.spec_bytes().contains(byte));
            }
            return Some((head, tail));
        }
        i = i + 1;
    }
    proof {
        lemma_encode_contains(text@, mark);
        assert(!bytes@.contains(byte));
    }
    None
}

/// Tells whether `mark`, an ASCII character, occurs in `text`.
pub(crate) fn contains(text: &str, mark: char) -> (found: bool)
    requires
        mark <= '\u{7f}',
    ensures
        found == text@.contains(mark),
{
    match split_first(text, mark) {
        Some((head, _tail)) => {
            assert(text@[head@.len() as int] == mark);
            true
        },
        None => false,
    }
}

/// Tells whether `a` and `b` are the same text.
pub(crate) fn same_text(a: &str, b: &str) -> (same: bool)
    ensures
        same == (a@ == b@),
{
    let x = a.as_bytes();
    let y = b.as_bytes();
    if x.len() != y.len() {
        return false;
    }
    let mut i: usize = 0;
    while i < x.len()
        invariant
            i <= x@.len(),
            x@.len() == y@.len(),
            x@ == a.spec_bytes(),
            y@ == b.spec_bytes(),
            x@.take(i as int) == y@.take(i as int),
        decreases x.len() - i,
    {
        if x[i] != y[i] {
            return false;
        }
        assert(x@.take(i + 1) =~= x@.take(i as int).push(x@[i as int]));
        assert(y@.take(i + 1) =~= y@.take(i as int).push(y@[i as int]));
        i = i + 1;
    }
    proof {
        assert(x@.take(i as int) =~= x@);
        assert(y@.take(i as int) =~= y@);
        lemma_encode_injective(a@, b@);
    }
    true
}

/// Tells whether `text` begins with `mark`, an ASCII character.
pub(crate) fn starts_with(text: &str, mark: char) -> (starts: bool)
    requires
        mark <= '\u{7f}',
    ensures
        starts == (text@.len() > 0 && text@[0] == mark),
{
    let bytes = text.as_bytes();
    proof {
        lemma_ascii_cast(mark);
        if text@.len() > 0 {
            lemma_scalar_bytes(text@[0]);
            if text@[0] <= '\u{7f}' {
                lemma_ascii_cast(text@[0]);
            }
        }
    }
    bytes.len() > 0 && bytes[0] == mark as u8
}

/// A text without one space at its front, or the text itself.
pub open spec fn without_leading_space(text: Seq<char>) -> Seq<char> {
    if text.len() > 0 && text[0] == ' ' {
        text.drop_first()
    } else {
        text
    }
}

/// Takes one space off the front of `text`, where there is one.
pub(crate) fn strip_leading_space(text: &str) -> (rest: &str)
    ensures
        rest@ == without_leading_space(text@),
{
    if starts_with(text, ' ') {
        match split_first(text, ' ') {
            Some((head, tail)) => {
                proof {
                    if head@.len() > 0 {
                        assert(text@[0] == head@[0]);
                        assert(head@.contains(' '));
                    }
                    assert(tail@ =~= text@.drop_first());
                }
                tail
            },
            None => {
                proof {
                    assert(text@.contains(text@[0]));
                }
                text
            },
        }
    } else {
        text
    }
}

// ---------------------------------------------------------------------------
// Trimming
// ---------------------------------------------------------------------------

/// The characters with the Unicode property `White_Space`.
pub open spec fn is_white_space(c: char) -> bool {
    ||| '\u{9}' <= c <= '\u{d}'
    ||| c == '\u{20}'
    ||| c == '\u{85}'
    ||| c == '\u{a0}'
    ||| c == '\u{1680}'
    ||| '\u{2000}' <= c <= '\u{200a}'
    ||| c == '\u{2028}'
    ||| c == '\u{2029}'
    ||| c == '\u{202f}'
    ||| c == '\u{205f}'
    ||| c == '\u{3000}'
}

/// A text without the white space at its front.
pub open spec fn trimmed_start(text: Seq<char>) -> Seq<char>
    decreases text.len(),
{
    if text.len() > 0 && is_white_space(text[0]) {
        trimmed_start(text.drop_first())
    } else {
        text
    }
}

/// A text without the white space at its end.
pub open spec fn trimmed_end(text: Seq<char>) -> Seq<char>
    decreases text.len(),
{
    if text.len() > 0 && is_white_space(text.last()) {
        trimmed_end(text.drop_last())
    } else {
        text
    }
}

/// A text without the white space at its front and at its end.
pub open spec fn trimmed(text: Seq<char>) -> Seq<char> {
    trimmed_end(trimmed_start(text))
}

/// `str::trim`: the text without leading and trailing white space, which is what has the
/// Unicode property `White_Space`.
pub assume_specification[ str::trim ](s: &str) -> (rest: &str)
    ensures
        rest@ == trimmed(s@),
;

// ---------------------------------------------------------------------------
// Decimal numbers
// ---------------------------------------------------------------------------

/// The characters `0` to `9`.
pub open spec fn is_digit(c: char) -> bool {
    '0' <= c <= '9'
}

/// The number that a digit stands for.
pub open spec fn digit_value(c: char) -> nat {
    (c as u32 - '0' as u32) as nat
}

/// The number that a run of decimal digits stands for.
pub open spec fn digits_value(digits: Seq<char>) -> nat
    decreases digits.len(),
{
    if digits.len() == 0 {
        0
    } else {
        10 * digits_value(digits.drop_last()) + digit_value(digits.last())
    }
}

/// A text without one plus sign at its front, or the text itself.
pub open spec fn without_plus(text: Seq<char>) -> Seq<char> {
    if text.len() > 0 && text[0] == '+' {
        text.drop_first()
    } else {
        text
    }
}

/// The number that a text stands for: an optional plus sign and at least one digit, with a
/// value that fits in 64 bits.
pub open spec fn number_in(text: Seq<char>) -> Option<u64> {
    let digits = without_plus(text);
    if digits.len() > 0 && (forall|i: int| 0 <= i < digits.len() ==> is_digit(#[trigger] digits[i]))
        && digits_value(digits) <= u64::MAX {
        Some(digits_value(digits) as u64)
    } else {
        None
    }
}

/// More digits make no smaller number.
proof fn lemma_digits_value_grows(digits: Seq<char>, n: int)
    requires
        0 <= n <= digits.len(),
    ensures
        digits_value(digits.take(n)) <= digits_value(digits),
    decreases digits.len() - n,
{
    if n == digits.len() {
        assert(digits.take(n) =~= digits);
    } else {
        lemma_digits_value_grows(digits, n + 1);
        assert(digits.take(n + 1).drop_last() =~= digits.take(n));
    }
}

/// Reads a number as `u64` reads it from text.
pub(crate) fn parse_number(text: &str) -> (number: Option<u64>)
    ensures
        number == number_in(text@),
{
    let body: &str = if starts_with(text, '+') {
        match split_first(text, '+') {
            Some((head, tail)) => {
                proof {
                    if head@.len() > 0 {
                        assert(text@[0] == head@[0]);
                        assert(head@.contains('+'));
                    }
                    assert(tail@ =~= text@.drop_first());
                }
                tail
            },
            None => {
                proof {
                    assert(text@.contains(text@[0]));
                }
                text
            },
        }
    } else {
        text
    };
    let ghost digits = without_plus(text@);
    assert(body@ == digits);
    if body.is_empty() {
        return None;
    }
    let mut value: u64 = 0;
    for c in it: body.chars()
        invariant
            body@ == digits,
            it.seq() == digits,
            digits == without_plus(text@),
            forall|i: int| 0 <= i < it.index() ==> is_digit(#[trigger] digits[i]),
            value == digits_value(digits.take(it.index() as int)),
    {
        let ghost n = it.index() as int;
        assert(c == digits[n]);
        assert(digits.take(n + 1).drop_last() =~= digits.take(n));
        if c < '0' || c > '9' {
            assert(!is_digit(digits[n]));
            return None;
        }
        let d: u64 = (c as u32 - '0' as u32) as u64;
        proof {
            lemma_digits_value_grows(digits, n + 1);
        }
        if value > (u64::MAX - d) / 10 {
            return None;
        }
        value = 10 * value + d;
    }
    assert(digits.take(digits.len() as int) =~= digits);
    Some(value)
}

/// The digit that stands for a number below ten.
pub open spec fn digit_of(n: nat) -> char
    recommends
        n < 10,
{
    ('0' as u32 + n) as char
}

/// A number written in decimal digits, without leading zeros.
pub open spec fn decimal(n: nat) -> Seq<char>
    decreases n,
{
    if n < 10 {
        seq![digit_of(n)]
    } else {
        decimal(n / 10).push(digit_of(n % 10))
    }
}

/// What is written in decimal reads back as the same number.
pub proof fn lemma_decimal_reads_back(n: u64)
    ensures
        number_in(decimal(n as nat)) == Some(n),
{
    lemma_decimal(n as nat);
}

/// The decimal form of a number: digits only, and of that value.
pub proof fn lemma_decimal(n: nat)
    ensures
        decimal(n).len() > 0,
        forall|i: int| 0 <= i < decimal(n).len() ==> is_digit(#[trigger] decimal(n)[i]),
        digits_value(decimal(n)) == n,
    decreases n,
{
    reveal_with_fuel(digits_value, 2);
    if n < 10 {
        assert(seq![digit_of(n)].drop_last() =~= Seq::<char>::empty());
    } else {
        lemma_decimal(n / 10);
        assert(decimal(n).drop_last() =~= decimal(n / 10));
    }
}

/// Appends one digit.
fn push_digit(out: &mut String, digit: u64)
    requires
        digit < 10,
    ensures
        final(out)@ == old(out)@.push(digit_of(digit as nat)),
{
    proof {
        reveal_strlit("0");
        reveal_strlit("1");
        reveal_strlit("2");
        reveal_strlit("3");
        reveal_strlit("4");
        reveal_strlit("5");
        reveal_strlit("6");
        reveal_strlit("7");
        reveal_strlit("8");
        reveal_strlit("9");
    }
    let text: &str = match digit {
        0 => "0",
        1 => "1",
        2 => "2",
        3 => "3",
        4 => "4",
        5 => "5",
        6 => "6",
        7 => "7",
        8 => "8",
        _ => "9",
    };
    assert(text@ =~= seq![digit_of(digit as nat)]);
    out.append(text);
    assert(out@ =~= old(out)@.push(digit_of(digit as nat)));
}

/// Appends a number in decimal.
pub(crate) fn push_decimal(out: &mut String, number: u64)
    ensures
        final(out)@ == old(out)@ + decimal(number as nat),
    decreases number,
{
    if number >= 10 {
        push_decimal(out, number / 10);
    }
    push_digit(out, number % 10);
    assert(out@ =~= old(out)@ + decimal(number as nat));
}

// ---------------------------------------------------------------------------
// Lines
// ---------------------------------------------------------------------------

/// A line without one carriage return at its end, or the line itself.
pub open spec fn without_trailing_return(line: Seq<char>) -> Seq<char> {
    if line.len() > 0 && line.last() == '\r' {
        line.drop_last()
    } else {
        line
    }
}

/// The lines of a text. A line ends with a line feed, or with a carriage return and a line
/// feed; what comes after the last line feed is a line where it is not empty.
pub open spec fn lines(text: Seq<char>) -> Seq<Seq<char>>
    decreases text.len(),
{
    let n = position(text, '\n');
    if text.len() == 0 {
        seq![]
    } else if 0 <= n < text.len() {
        seq![without_trailing_return(text.take(n))] + lines(text.skip(n + 1))
    } else {
        seq![text]
    }
}

/// The lines of a text whose first line feed comes after `head`.
pub proof fn lemma_lines_step(head: Seq<char>, tail: Seq<char>)
    requires
        !head.contains('\n'),
    ensures
        lines(head + seq!['\n'] + tail) == seq![without_trailing_return(head)] + lines(tail),
{
    lemma_position_split(head, '\n', tail);
}

/// Takes one carriage return off the end of `line`, where there is one.
pub(crate) fn strip_trailing_return(line: &str) -> (rest: &str)
    ensures
        rest@ == without_trailing_return(line@),
{
    let bytes = line.as_bytes();
    let n: usize = bytes.len();
    if n > 0 && bytes[n - 1] == 13 {
        let ghost cs = line@;
        proof {
            let k = lemma_ascii_byte_at(cs, n - 1);
            assert(bytes@.skip(n as int) =~= Seq::<u8>::empty());
            lemma_encode_injective(cs.skip(k + 1), Seq::empty());
            assert(cs.skip(k + 1).len() == 0);
            assert(cs.last() == '\r');
            assert(cs.take(k) =~= cs.drop_last());
            encode_utf8_valid_utf8(cs);
            is_char_boundary_iff_is_leading_byte(bytes@, n - 1);
            assert(bytes@.take(n - 1) =~= bytes@.subrange(0, n - 1));
        }
        let (rest, _return) = line.split_at(n - 1);
        proof {
            lemma_encode_injective(rest@, cs.drop_last());
        }
        rest
    } else {
        proof {
            let cs = line@;
            if cs.len() > 0 && cs.last() == '\r' {
                assert(cs =~= cs.drop_last() + seq!['\r']);
                lemma_encode_concat(cs.drop_last(), seq!['\r']);
                lemma_encode_ascii('\r');
                assert(bytes@.last() == 13);
            }
        }
        line
    }
}

// ---------------------------------------------------------------------------
// Reading bytes as UTF-8
// ---------------------------------------------------------------------------

/// Where and how a run of bytes stops being UTF-8.
#[derive(Debug, Clone, Copy, PartialEq, Eq)]
pub struct Utf8Error {
    /// How many of the first bytes are UTF-8.
    pub valid_up_to: usize,
    /// The length of the bad sequence that follows, or `None` where the bytes end within a
    /// character.
    pub error_len: Option<usize>,
}

/// The first `n` bytes are UTF-8, and no more of them are.
pub open spec fn is_valid_up_to(bytes: Seq<u8>, n: int) -> bool {
    &&& 0 <= n <= bytes.len()
    &&& valid_utf8(bytes.take(n))
    &&& forall|m: int| n < m <= bytes.len() ==> !valid_utf8(#[trigger] bytes.take(m))
}

/// The error of std for bytes that are not UTF-8.
#[verifier::external_type_specification]
#[verifier::external_body]
pub struct ExUtf8Error(core::str::Utf8Error);

/// What `core::str::Utf8Error::valid_up_to` gives.
pub uninterp spec fn reported_valid_up_to(error: core::str::Utf8Error) -> usize;

/// What `core::str::Utf8Error::error_len` gives.
pub uninterp spec fn reported_error_len(error: core::str::Utf8Error) -> Option<usize>;

/// `core::str::Utf8Error::valid_up_to`: what the error holds.
pub assume_specification[ core::str::Utf8Error::valid_up_to ](error: &core::str::Utf8Error) -> (n:
    usize)
    ensures
        n == reported_valid_up_to(*error),
;

/// `core::str::Utf8Error::error_len`: what the error holds.
pub assume_specification[ core::str::Utf8Error::error_len ](error: &core::str::Utf8Error) -> (n:
    Option<usize>)
    ensures
        n == reported_error_len(*error),
;

/// The length that `core::str::from_utf8` reports for bytes that are not UTF-8.
pub uninterp spec fn utf8_error_len(bytes: Seq<u8>) -> Option<usize>;

/// `core::str::from_utf8`: the text whose encoding the bytes are, or an error with the longest
/// prefix that is UTF-8. Without a length, at most three bytes follow that prefix; with one, at
/// least that many bytes follow.
pub assume_specification<'a>[ core::str::from_utf8 ](v: &'a [u8]) -> (result: Result<
    &'a str,
    core::str::Utf8Error,
>)
    ensures
        match result {
            Ok(text) => valid_utf8(v@) && text@ == decode_utf8(v@),
            Err(error) => {
                &&& !valid_utf8(v@)
                &&& is_valid_up_to(v@, reported_valid_up_to(error) as int)
                &&& reported_error_len(error) == utf8_error_len(v@)
                &&& match reported_error_len(error) {
                    Some(n) => 1 <= n && reported_valid_up_to(error) + n <= v@.len(),
                    None => 1 <= v@.len() - reported_valid_up_to(error) <= 3,
                }
            },
        },
;

impl From<core::str::Utf8Error> for Utf8Error {
    fn from(error: core::str::Utf8Error) -> (described: Utf8Error)
        ensures
            described.valid_up_to == reported_valid_up_to(error),
            described.error_len == reported_error_len(error),
    {
        Utf8Error { valid_up_to: error.valid_up_to(), error_len: error.error_len() }
    }
}

impl vstd::std_specs::convert::FromSpecImpl<core::str::Utf8Error> for Utf8Error {
    open spec fn obeys_from_spec() -> bool {
        true
    }

    open spec fn from_spec(error: core::str::Utf8Error) -> Utf8Error {
        Utf8Error {
            valid_up_to: reported_valid_up_to(error),
            error_len: reported_error_len(error),
        }
    }
}

} // verus!
