//! Decimal numbers, lines of text and wide strings.
use vstd::prelude::*;

verus! {

/// The decimal digit that stands for `d`.
pub open spec fn digit(d: nat) -> char
    recommends
        d < 10,
{
    (48 + d) as char
}

/// The digits of `n`, most significant first, without leading zeros.
pub open spec fn decimal(n: nat) -> Seq<char>
    decreases n,
{
    if n < 10 {
        seq![digit(n)]
    } else {
        decimal(n / 10).push(digit(n % 10))
    }
}

/// The digits of `n`, after a minus sign where `n` is negative.
pub open spec fn signed_decimal(n: int) -> Seq<char> {
    if n < 0 {
        seq!['-'] + decimal((-n) as nat)
    } else {
        decimal(n as nat)
    }
}

/// The text of a single digit.
fn digit_text(d: u64) -> (text: &'static str)
    requires
        d < 10,
    ensures
        text@ == seq![digit(d as nat)],
{
    proof {
        reveal_strlit("0");
        reveal_strlit("1");
        reveal_strlit("2");
        reveal_strlit("3");
        reveal_strlit("4");
        reveal_strlit("5");
        reveal_strlit("6");
        reveal_strlit("7");
        reveal_strlit("8");
        reveal_strlit("9");
    }
    if d == 0 {
        "0"
    } else if d == 1 {
        "1"
    } else if d == 2 {
        "2"
    } else if d == 3 {
        "3"
    } else if d == 4 {
        "4"
    } else if d == 5 {
        "5"
    } else if d == 6 {
        "6"
    } else if d == 7 {
        "7"
    } else if d == 8 {
        "8"
    } else {
        "9"
    }
}

/// Appends the decimal digits of `n`.
pub fn push_decimal(line: &mut String, n: u64)
    ensures
        final(line)@ == old(line)@ + decimal(n as nat),
    decreases n,
{
    if n >= 10 {
        push_decimal(line, n / 10);
    }
    line.append(digit_text(n % 10));
}

/// Appends `n` in decimal, with a minus sign where it is negative.
pub fn push_signed(line: &mut String, n: i64)
    ensures
        final(line)@ == old(line)@ + signed_decimal(n as int),
{
    if n < 0 {
        let magnitude: u64 = (-(n + 1)) as u64 + 1;
        proof {
            reveal_strlit("-");
        }
        line.append("-");
        push_decimal(line, magnitude);
        assert(line@ =~= old(line)@ + signed_decimal(n as int));
    } else {
        push_decimal(line, n as u64);
    }
}

/// The UTF-16 code units of one character: itself, or a surrogate pair.
pub open spec fn utf16_units(c: char) -> Seq<u16> {
    if (c as int) < 0x1_0000 {
        seq![c as u16]
    } else {
        seq![
            (0xD800 + (c as int - 0x1_0000) / 0x400) as u16,
            (0xDC00 + (c as int - 0x1_0000) % 0x400) as u16,
        ]
    }
}

/// The UTF-16 code units of a text.
pub open spec fn utf16(text: Seq<char>) -> Seq<u16>
    decreases text.len(),
{
    if text.len() == 0 {
        Seq::empty()
    } else {
        utf16(text.drop_last()) + utf16_units(text.last())
    }
}

/// Appends the UTF-16 code units of one character.
fn push_units(units: &mut Vec<u16>, c: char)
    ensures
        final(units)@ == old(units)@ + utf16_units(c),
{
    let code: u32 = c as u32;
    if code < 0x1_0000 {
        units.push(code as u16);
    } else {
        let rest: u32 = code - 0x1_0000;
        units.push((0xD800 + rest / 0x400) as u16);
        units.push((0xDC00 + rest % 0x400) as u16);
    }
    assert(units@ =~= old(units)@ + utf16_units(c));
}

/// The text as a zero-terminated UTF-16 string, as the window system takes it.
pub fn wide(text: &str) -> (units: Vec<u16>)
    ensures
        units@ == utf16(text@).push(0u16),
{
    let mut units: Vec<u16> = Vec::new();
    for c in it: text.chars()
        invariant
            it.seq() == text@,
            units@ == utf16(text@.take(it.index() as int)),
    {
        let ghost k = it.index() as int;
        assert(text@.take(k + 1).drop_last() =~= text@.take(k));
        push_units(&mut units, c);
    }
    assert(text@.take(text@.len() as int) =~= text@);
    units.push(0);
    units
}

/// Whether a character is a decimal digit.
pub open spec fn is_digit(c: char) -> bool {
    48 <= c as int <= 57
}

/// The number that a series of digits stands for.
pub open spec fn number(digits: Seq<char>) -> int
    decreases digits.len(),
{
    if digits.len() == 0 {
        0
    } else {
        number(digits.drop_last()) * 10 + (digits.last() as int - 48)
    }
}

/// The number that digits stand for, with a minus sign before them or without.
pub open spec fn signed_number(text: Seq<char>) -> int {
    if text.len() > 0 && text[0] == '-' {
        -number(text.drop_first())
    } else {
        number(text)
    }
}

/// A number that was written in decimal is made of digits, at least one, and
/// reads as the same number.
pub proof fn law_decimal_reads_back(n: nat)
    ensures
        number(decimal(n)) == n,
        decimal(n).len() > 0,
        forall|i: int| 0 <= i < decimal(n).len() ==> is_digit(#[trigger] decimal(n)[i]),
    decreases n,
{
    if n < 10 {
        assert(decimal(n).drop_last() =~= Seq::empty());
        assert(number(Seq::<char>::empty()) == 0);
        assert(decimal(n).last() == digit(n));
    } else {
        law_decimal_reads_back(n / 10);
        assert(decimal(n).drop_last() =~= decimal(n / 10));
        assert(decimal(n).last() == digit(n % 10));
    }
}

/// A signed number that was written in decimal reads as the same number.
pub proof fn law_signed_decimal_reads_back(n: int)
    ensures
        signed_number(signed_decimal(n)) == n,
        forall|i: int|
            0 <= i < signed_decimal(n).len() ==> is_digit(#[trigger] signed_decimal(n)[i])
                || signed_decimal(n)[i] == '-',
{
    if n < 0 {
        law_decimal_reads_back((-n) as nat);
        assert(signed_decimal(n).drop_first() =~= decimal((-n) as nat));
    } else {
        law_decimal_reads_back(n as nat);
        assert(is_digit(decimal(n as nat)[0]));
    }
}

/// A wide string ends at its terminator and not before, if the text holds no
/// zero character.
pub proof fn law_wide_string_ends_at_terminator(text: Seq<char>, i: int)
    requires
        forall|k: int| 0 <= k < text.len() ==> #[trigger] text[k] as int != 0,
        0 <= i < utf16(text).push(0u16).len(),
    ensures
        utf16(text).push(0u16)[i] == 0 <==> i == utf16(text).len(),
    decreases text.len(),
{
    if i < utf16(text).len() {
        let front = text.drop_last();
        let c = text.last();
        assert(text[text.len() - 1] as int != 0);
        if i < utf16(front).len() {
            assert forall|k: int| 0 <= k < front.len() implies #[trigger] front[k] as int != 0 by {
                assert(text[k] as int != 0);
            }
            law_wide_string_ends_at_terminator(front, i);
            assert(utf16(text)[i] == utf16(front)[i]);
        } else {
            assert(utf16(text)[i] == utf16_units(c)[i - utf16(front).len()]);
            lemma_units_not_zero(c);
        }
    }
}

proof fn lemma_units_not_zero(c: char)
    requires
        c as int != 0,
    ensures
        forall|k: int| 0 <= k < utf16_units(c).len() ==> #[trigger] utf16_units(c)[k] != 0,
{
}

/// Digits stand for a number in the decimal system: each digit further to the
/// right weighs a tenth of the one before it.
pub proof fn law_digits_are_positional(digits: Seq<char>, c: char)
    ensures
        number(Seq::empty()) == 0,
        number(digits.push(c)) == 10 * number(digits) + (c as int - '0' as int),
        is_digit(c) <==> '0' as int <= c as int <= '9' as int,
{
    assert(digits.push(c).drop_last() =~= digits);
}

/// A number is written with the digits `0` to `9` and without leading zeros.
pub proof fn law_decimal_is_shortest(n: nat)
    ensures
        forall|i: int|
            0 <= i < decimal(n).len() ==> '0' as int <= #[trigger] decimal(n)[i] as int <= '9' as int,
        decimal(n)[0] == '0' ==> n == 0 && decimal(n).len() == 1,
    decreases n,
{
    law_decimal_reads_back(n);
    assert forall|i: int| 0 <= i < decimal(n).len() implies '0' as int <= #[trigger] decimal(
        n,
    )[i] as int <= '9' as int by {
        assert(is_digit(decimal(n)[i]));
    }
    if n >= 10 {
        law_decimal_is_shortest(n / 10);
        assert(decimal(n)[0] == decimal(n / 10)[0]);
    }
}

/// A negative number is written as a minus sign and its magnitude, any other as
/// it is without a sign.
pub proof fn law_sign_comes_first(n: int)
    ensures
        n >= 0 ==> signed_decimal(n) == decimal(n as nat),
        n < 0 ==> signed_decimal(n)[0] == '-' && signed_decimal(n).skip(1) == decimal((-n) as nat),
{
    if n < 0 {
        assert(signed_decimal(n).skip(1) =~= decimal((-n) as nat));
    }
}

/// The code units of a text are those of its parts, one after the other.
pub proof fn law_wide_strings_add_up(a: Seq<char>, b: Seq<char>)
    ensures
        utf16(a + b) == utf16(a) + utf16(b),
    decreases b.len(),
{
    if b.len() == 0 {
        assert(a + b =~= a);
        assert(utf16(a) + utf16(b) =~= utf16(a));
    } else {
        assert((a + b).drop_last() =~= a + b.drop_last());
        law_wide_strings_add_up(a, b.drop_last());
        assert(utf16(a + b) =~= utf16(a) + utf16(b));
    }
}

/// A character can be read from its code units: one unit that is the character, or
/// a high and a low surrogate that share out what is beyond the first plane.
pub proof fn law_wide_character_reads_back(c: char)
    ensures
        ({
            let units = utf16(seq![c]);
            if (c as int) < 0x1_0000 {
                units.len() == 1 && units[0] == c as int
            } else {
                &&& units.len() == 2
                &&& 0xD800 <= units[0] < 0xDC00
                &&& 0xDC00 <= units[1] < 0xE000
                &&& c as int == 0x1_0000 + (units[0] - 0xD800) * 0x400 + (units[1] - 0xDC00)
            }
        }),
{
    assert(seq![c].drop_last() =~= Seq::empty());
    assert(utf16(Seq::<char>::empty()) =~= Seq::empty());
    assert(utf16(seq![c]) =~= utf16_units(c));
}

} // verus!
