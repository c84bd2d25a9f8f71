//! What numbers, white space and the parts of a text are, character by character.

use vstd::prelude::*;

use crate::text;

verus! {

// ---------------------------------------------------------------------------
// Numbers
// ---------------------------------------------------------------------------

/// A single character is a number exactly if it is one of the ten digits, and then the one that
/// the digit stands for.
pub proof fn law_number_of_digit(c: char)
    ensures
        text::number_in(seq![c]) == if '0' <= c <= '9' {
            Some((c as u32 - '0' as u32) as u64)
        } else {
            None
        },
{
    let s = seq![c];
    reveal_with_fuel(text::digits_value, 2);
    assert(s.drop_last() =~= Seq::empty());
    if c == '+' {
        assert(s.drop_first() =~= Seq::empty());
    } else if !('0' <= c <= '9') {
        assert(!text::is_digit(s[0]));
    }
}

/// One more digit makes a number ten times as large and adds what the digit stands for, as long as
/// the result fits in 64 bits; where it does not, there is no number.
pub proof fn law_number_with_digit(digits: Seq<char>, c: char)
    requires
        digits.len() > 0,
        forall|i: int| 0 <= i < digits.len() ==> '0' <= #[trigger] digits[i] <= '9',
        '0' <= c <= '9',
    ensures
        text::number_in(digits.push(c)) == match text::number_in(digits) {
            Some(number) => if 10 * number + (c as u32 - '0' as u32) <= u64::MAX {
                Some((10 * number + (c as u32 - '0' as u32)) as u64)
            } else {
                None
            },
            None => None,
        },
{
    let longer = digits.push(c);
    assert(longer.drop_last() =~= digits);
    assert(digits[0] != '+');
    assert(longer[0] == digits[0]);
    assert forall|i: int| 0 <= i < digits.len() implies text::is_digit(#[trigger] digits[i]) by {}
    assert forall|i: int| 0 <= i < longer.len() implies text::is_digit(#[trigger] longer[i]) by {
        if i < digits.len() {
            assert(longer[i] == digits[i]);
        }
    }
}

/// A plus sign before the digits changes nothing.
pub proof fn law_number_with_plus(digits: Seq<char>)
    requires
        digits.len() > 0 ==> digits[0] != '+',
    ensures
        text::number_in(seq!['+'] + digits) == text::number_in(digits),
{
    assert((seq!['+'] + digits).drop_first() =~= digits);
}

/// What is a number has at least one digit, and nothing but digits behind the plus sign that it
/// may begin with.
pub proof fn law_number_has_digits_only(s: Seq<char>)
    requires
        text::number_in(s) is Some,
    ensures
        s.len() > 0,
        s[0] == '+' ==> s.len() > 1,
        s[0] == '+' || '0' <= s[0] <= '9',
        forall|i: int| 1 <= i < s.len() ==> '0' <= #[trigger] s[i] <= '9',
{
    let digits = text::without_plus(s);
    if s[0] == '+' {
        assert forall|i: int| 1 <= i < s.len() implies '0' <= #[trigger] s[i] <= '9' by {
            assert(text::is_digit(digits[i - 1]));
        }
    } else {
        assert forall|i: int| 0 <= i < s.len() implies '0' <= #[trigger] s[i] <= '9' by {
            assert(text::is_digit(digits[i]));
        }
    }
}

/// A number is written in digits alone, without a zero at the front unless it is the zero itself,
/// so that it reads as that number.
pub proof fn law_number_written(n: u64)
    ensures
        text::number_in(text::decimal(n as nat)) == Some(n),
        text::decimal(n as nat).len() > 0,
        forall|i: int|
            0 <= i < text::decimal(n as nat).len() ==> '0' <= #[trigger] text::decimal(n as nat)[i]
                <= '9',
        text::decimal(n as nat)[0] == '0' ==> n == 0 && text::decimal(n as nat).len() == 1,
{
    let digits = text::decimal(n as nat);
    text::lemma_decimal_reads_back(n);
    text::lemma_decimal(n as nat);
    assert forall|i: int| 0 <= i < digits.len() implies '0' <= #[trigger] digits[i] <= '9' by {
        assert(text::is_digit(digits[i]));
    }
    lemma_first_digit(n as nat);
}

/// The decimal form of a number above zero does not begin with a zero.
proof fn lemma_first_digit(n: nat)
    ensures
        text::decimal(n).len() > 0,
        n > 0 ==> text::decimal(n)[0] != '0',
        n == 0 ==> text::decimal(n) == seq!['0'],
    decreases n,
{
    if n >= 10 {
        lemma_first_digit(n / 10);
    }
}

// ---------------------------------------------------------------------------
// White space
// ---------------------------------------------------------------------------

/// White space is, by its number, one of 25 characters.
pub proof fn law_white_space(c: char)
    ensures
        text::is_white_space(c) <==> {
            let n = c as u32;
            ||| 9 <= n <= 13
            ||| n == 32
            ||| n == 133
            ||| n == 160
            ||| n == 5760
            ||| 8192 <= n <= 8202
            ||| n == 8232
            ||| n == 8233
            ||| n == 8239
            ||| n == 8287
            ||| n == 12288
        },
{
}

/// Trimming takes away the white space before and behind a text, and nothing else: what is left
/// begins and ends with another character, or is empty.
pub proof fn law_trimmed(before: Seq<char>, inner: Seq<char>, behind: Seq<char>)
    requires
        forall|i: int| 0 <= i < before.len() ==> text::is_white_space(#[trigger] before[i]),
        forall|i: int| 0 <= i < behind.len() ==> text::is_white_space(#[trigger] behind[i]),
        inner.len() > 0 ==> !text::is_white_space(inner[0]) && !text::is_white_space(inner.last()),
    ensures
        text::trimmed(before + inner + behind) == inner,
{
    lemma_trimmed_start(before, inner + behind);
    assert(before + inner + behind =~= before + (inner + behind));
    if inner.len() > 0 {
        assert((inner + behind)[0] == inner[0]);
        assert(text::trimmed_start(inner + behind) == inner + behind);
        lemma_trimmed_end(inner, behind);
    } else {
        assert(inner + behind =~= behind);
        lemma_trimmed_start(behind, Seq::empty());
        assert(behind + Seq::empty() =~= behind);
        assert(text::trimmed_start(Seq::<char>::empty()) =~= Seq::empty());
        assert(text::trimmed(before + inner + behind) =~= inner);
    }
}

proof fn lemma_trimmed_start(before: Seq<char>, rest: Seq<char>)
    requires
        forall|i: int| 0 <= i < before.len() ==> text::is_white_space(#[trigger] before[i]),
    ensures
        text::trimmed_start(before + rest) == text::trimmed_start(rest),
    decreases before.len(),
{
    if before.len() > 0 {
        let shorter = before.drop_first();
        assert((before + rest).drop_first() =~= shorter + rest);
        assert((before + rest)[0] == before[0]);
        assert forall|i: int| 0 <= i < shorter.len() implies text::is_white_space(
            #[trigger] shorter[i],
        ) by {
            assert(shorter[i] == before[i + 1]);
        }
        lemma_trimmed_start(shorter, rest);
    } else {
        assert(before + rest =~= rest);
    }
}

proof fn lemma_trimmed_end(inner: Seq<char>, behind: Seq<char>)
    requires
        forall|i: int| 0 <= i < behind.len() ==> text::is_white_space(#[trigger] behind[i]),
        inner.len() > 0,
        !text::is_white_space(inner.last()),
    ensures
        text::trimmed_end(inner + behind) == inner,
    decreases behind.len(),
{
    if behind.len() > 0 {
        let shorter = behind.drop_last();
        assert((inner + behind).drop_last() =~= inner + shorter);
        assert((inner + behind).last() == behind.last());
        assert(text::is_white_space(behind[behind.len() - 1]));
        lemma_trimmed_end(inner, shorter);
    } else {
        assert(inner + behind =~= inner);
    }
}

/// Every text is what trimming leaves of it with white space before and behind it.
pub proof fn law_trimming_takes_white_space(s: Seq<char>)
    ensures
        exists|i: int, j: int|
            #![trigger s.subrange(i, j)]
            0 <= i <= j <= s.len() && text::trimmed(s) == s.subrange(i, j) && (forall|k: int|
                (0 <= k < i || j <= k < s.len()) ==> text::is_white_space(#[trigger] s[k])),
        text::trimmed(s).len() > 0 ==> !text::is_white_space(text::trimmed(s)[0])
            && !text::is_white_space(text::trimmed(s).last()),
{
    let i = lemma_start_kept(s);
    let middle = text::trimmed_start(s);
    let n = lemma_end_kept(middle);
    assert(text::trimmed(s) =~= s.subrange(i, i + n));
    assert forall|k: int| (0 <= k < i || i + n <= k < s.len()) implies text::is_white_space(
        #[trigger] s[k],
    ) by {
        if k >= i {
            assert(middle[k - i] == s[k]);
        }
    }
    if text::trimmed(s).len() > 0 {
        assert(text::trimmed(s)[0] == middle[0]);
    }
}

proof fn lemma_start_kept(s: Seq<char>) -> (i: int)
    ensures
        0 <= i <= s.len(),
        text::trimmed_start(s) == s.subrange(i, s.len() as int),
        forall|k: int| 0 <= k < i ==> text::is_white_space(#[trigger] s[k]),
        i < s.len() ==> !text::is_white_space(s[i]),
    decreases s.len(),
{
    if s.len() > 0 && text::is_white_space(s[0]) {
        let rest = s.drop_first();
        let i = lemma_start_kept(rest);
        assert(rest.subrange(i, rest.len() as int) =~= s.subrange(i + 1, s.len() as int));
        assert forall|k: int| 0 <= k < i + 1 implies text::is_white_space(#[trigger] s[k]) by {
            if k > 0 {
                assert(s[k] == rest[k - 1]);
            }
        }
        i + 1
    } else {
        assert(s.subrange(0, s.len() as int) =~= s);
        0
    }
}

proof fn lemma_end_kept(s: Seq<char>) -> (n: int)
    ensures
        0 <= n <= s.len(),
        text::trimmed_end(s) == s.subrange(0, n),
        forall|k: int| n <= k < s.len() ==> text::is_white_space(#[trigger] s[k]),
        n > 0 ==> !text::is_white_space(s[n - 1]),
    decreases s.len(),
{
    if s.len() > 0 && text::is_white_space(s.last()) {
        let rest = s.drop_last();
        let n = lemma_end_kept(rest);
        assert(rest.subrange(0, n) =~= s.subrange(0, n));
        assert forall|k: int| n <= k < s.len() implies text::is_white_space(#[trigger] s[k]) by {
            if k < s.len() - 1 {
                assert(s[k] == rest[k]);
            }
        }
        n
    } else {
        assert(s.subrange(0, s.len() as int) =~= s);
        s.len() as int
    }
}

} // verus!
