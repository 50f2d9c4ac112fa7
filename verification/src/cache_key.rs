//! The key under which the cache holds what a competitor earned under a
//! game mode: `rank:<game mode>:<competitor>`, both numbers in decimal.

use vstd::prelude::*;
use vstd::string::*;

verus! {

/// The character of a decimal digit.
pub open spec fn digit(d: int) -> char {
    if d == 0 {
        '0'
    } else if d == 1 {
        '1'
    } else if d == 2 {
        '2'
    } else if d == 3 {
        '3'
    } else if d == 4 {
        '4'
    } else if d == 5 {
        '5'
    } else if d == 6 {
        '6'
    } else if d == 7 {
        '7'
    } else if d == 8 {
        '8'
    } else {
        '9'
    }
}

/// The digit that a character stands for; zero for any other character.
pub open spec fn digit_value(c: char) -> int {
    if c == '1' {
        1
    } else if c == '2' {
        2
    } else if c == '3' {
        3
    } else if c == '4' {
        4
    } else if c == '5' {
        5
    } else if c == '6' {
        6
    } else if c == '7' {
        7
    } else if c == '8' {
        8
    } else if c == '9' {
        9
    } else {
        0
    }
}

/// The decimal digits of a non-negative number, without leading zeros.
pub open spec fn decimal_digits(n: int) -> Seq<char>
    decreases n,
{
    if n < 10 {
        seq![digit(n)]
    } else {
        decimal_digits(n / 10).push(digit(n % 10))
    }
}

/// A number in decimal, with a minus sign in front of a negative one.
pub open spec fn decimal(i: int) -> Seq<char> {
    if i < 0 {
        seq!['-'] + decimal_digits(-i)
    } else {
        decimal_digits(i)
    }
}

/// What every key starts with.
pub open spec fn key_prefix() -> Seq<char> {
    seq!['r', 'a', 'n', 'k', ':']
}

/// The key of a competitor under a game mode.
pub open spec fn cache_key(gamemode: i16, user_id: i32) -> Seq<char> {
    key_prefix() + decimal(gamemode as int) + seq![':'] + decimal(user_id as int)
}

/// The number that a sequence of digits stands for.
pub open spec fn digits_value(digits: Seq<char>) -> int
    decreases digits.len(),
{
    if digits.len() == 0 {
        0
    } else {
        digits_value(digits.drop_last()) * 10 + digit_value(digits.last())
    }
}

/// The character is a minus sign or a digit.
pub open spec fn is_numeral(c: char) -> bool {
    c == '-' || c == '0' || c == '1' || c == '2' || c == '3' || c == '4' || c == '5' || c == '6'
        || c == '7' || c == '8' || c == '9'
}

/// The digits of a number are digits, at least one of them, and stand for
/// the number.
pub proof fn lemma_decimal_digits(n: int)
    requires
        n >= 0,
    ensures
        decimal_digits(n).len() >= 1,
        forall|i: int|
            0 <= i < decimal_digits(n).len() ==> is_numeral(#[trigger] decimal_digits(n)[i])
                && decimal_digits(n)[i] != '-',
        digits_value(decimal_digits(n)) == n,
    decreases n,
{
    if n < 10 {
        let s = decimal_digits(n);
        assert(s.drop_last() =~= Seq::<char>::empty());
        assert(digits_value(s.drop_last()) == 0);
        assert(s.last() == digit(n));
    } else {
        lemma_decimal_digits(n / 10);
        let s = decimal_digits(n);
        assert(s.drop_last() =~= decimal_digits(n / 10));
        assert(s.last() == digit(n % 10));
    }
}

/// A number in decimal is made of a minus sign and digits, and no two
/// numbers are written alike.
pub proof fn lemma_decimal_injective(first: int, second: int)
    ensures
        decimal(first).len() >= 1,
        forall|i: int| 0 <= i < decimal(first).len() ==> is_numeral(#[trigger] decimal(first)[i]),
        decimal(first) == decimal(second) ==> first == second,
{
    lemma_decimal_digits(if first < 0 { -first } else { first });
    lemma_decimal_digits(if second < 0 { -second } else { second });
    if decimal(first) == decimal(second) {
        let a = decimal(first);
        let b = decimal(second);
        assert(a[0] == b[0]);
        if first < 0 {
            assert(a[0] == '-');
            assert(second < 0) by {
                if second >= 0 {
                    assert(is_numeral(decimal_digits(second)[0]) && decimal_digits(second)[0]
                        != '-');
                }
            }
            assert(decimal_digits(-first) =~= a.subrange(1, a.len() as int));
            assert(decimal_digits(-second) =~= b.subrange(1, b.len() as int));
        } else {
            assert(is_numeral(decimal_digits(first)[0]) && decimal_digits(first)[0] != '-');
            assert(second >= 0) by {
                if second < 0 {
                    assert(b[0] == '-');
                }
            }
        }
    }
}

/// Two numbers written one after the other with a colon between them can
/// be read back in one way only.
proof fn lemma_split_at_colon(a: Seq<char>, b: Seq<char>, c: Seq<char>, d: Seq<char>)
    requires
        a + seq![':'] + b == c + seq![':'] + d,
        forall|i: int| 0 <= i < a.len() ==> is_numeral(#[trigger] a[i]),
        forall|i: int| 0 <= i < c.len() ==> is_numeral(#[trigger] c[i]),
    ensures
        a == c,
        b == d,
{
    let left = a + seq![':'] + b;
    let right = c + seq![':'] + d;
    assert(left[a.len() as int] == ':');
    assert(right[c.len() as int] == ':');
    if a.len() < c.len() {
        assert(right[a.len() as int] == c[a.len() as int]);
        assert(is_numeral(c[a.len() as int]));
    } else if c.len() < a.len() {
        assert(left[c.len() as int] == a[c.len() as int]);
        assert(is_numeral(a[c.len() as int]));
    }
    assert(a =~= left.subrange(0, a.len() as int));
    assert(c =~= right.subrange(0, c.len() as int));
    assert(b =~= left.subrange(a.len() as int + 1, left.len() as int));
    assert(d =~= right.subrange(c.len() as int + 1, right.len() as int));
}

/// Every game mode and competitor has a key of its own.
pub proof fn lemma_cache_key_injective(
    gamemode: i16,
    user_id: i32,
    other_gamemode: i16,
    other_user_id: i32,
)
    requires
        cache_key(gamemode, user_id) == cache_key(other_gamemode, other_user_id),
    ensures
        gamemode == other_gamemode,
        user_id == other_user_id,
{
    let a = decimal(gamemode as int);
    let b = decimal(user_id as int);
    let c = decimal(other_gamemode as int);
    let d = decimal(other_user_id as int);
    let left = cache_key(gamemode, user_id);
    let right = cache_key(other_gamemode, other_user_id);
    assert(a + seq![':'] + b =~= left.subrange(5, left.len() as int));
    assert(c + seq![':'] + d =~= right.subrange(5, right.len() as int));
    lemma_decimal_injective(gamemode as int, other_gamemode as int);
    lemma_decimal_injective(other_gamemode as int, gamemode as int);
    lemma_split_at_colon(a, b, c, d);
    lemma_decimal_injective(user_id as int, other_user_id as int);
}

/// The text of one decimal digit.
fn digit_text(d: u8) -> (text: &'static str)
    requires
        d < 10,
    ensures
        text@ == seq![digit(d as int)],
{
    proof {
        reveal_strlit("0");
        reveal_strlit("1");
        reveal_strlit("2");
        reveal_strlit("3");
        reveal_strlit("4");
        reveal_strlit("5");
        reveal_strlit("6");
        reveal_strlit("7");
        reveal_strlit("8");
        reveal_strlit("9");
    }
    let text: &'static str = match d {
        0 => "0",
        1 => "1",
        2 => "2",
        3 => "3",
        4 => "4",
        5 => "5",
        6 => "6",
        7 => "7",
        8 => "8",
        _ => "9",
    };
    assert(text@ =~= seq![digit(d as int)]);
    text
}

/// Appends the decimal digits of `n`.
fn append_digits(text: &mut String, n: u32)
    ensures
        final(text)@ == old(text)@ + decimal_digits(n as int),
    decreases n,
{
    if n >= 10 {
        append_digits(text, n / 10);
    }
    text.append(digit_text((n % 10) as u8));
    proof {
        if n >= 10 {
            assert(old(text)@ + decimal_digits(n as int / 10) + seq![digit(n as int % 10)]
                =~= old(text)@ + decimal_digits(n as int));
        }
    }
}

/// Appends `value` in decimal.
fn append_decimal(text: &mut String, value: i32)
    ensures
        final(text)@ == old(text)@ + decimal(value as int),
{
    if value < 0 {
        proof {
            reveal_strlit("-");
        }
        text.append("-");
        let magnitude: u32 = (-(value as i64)) as u32;
        append_digits(text, magnitude);
        proof {
            assert("-"@ =~= seq!['-']);
            assert(old(text)@ + seq!['-'] + decimal_digits(-(value as int)) =~= old(text)@
                + decimal(value as int));
        }
    } else {
        append_digits(text, value as u32);
    }
}

/// The key of a competitor under a game mode.
pub fn cache_key_of(gamemode: i16, user_id: i32) -> (key: String)
    ensures
        key@ == cache_key(gamemode, user_id),
{
    proof {
        reveal_strlit("rank:");
        reveal_strlit(":");
    }
    let mut key: String = String::from_str("rank:");
    assert(key@ =~= key_prefix());
    append_decimal(&mut key, gamemode as i32);
    key.append(":");
    assert(":"@ =~= seq![':']);
    append_decimal(&mut key, user_id);
    key
}

} // verus!
