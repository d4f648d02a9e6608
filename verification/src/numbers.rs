//! Numbers as text.

use vstd::prelude::*;

use crate::chars::to_chars;

verus! {

/// The decimal digits.
pub const DIGITS: [char; 10] = ['0', '1', '2', '3', '4', '5', '6', '7', '8', '9'];

/// `n` in decimal.
pub open spec fn decimal(n: nat) -> Seq<char>
    decreases n,
{
    if n < 10 {
        seq![DIGITS@[n as int]]
    } else {
        decimal(n / 10).push(DIGITS@[(n % 10) as int])
    }
}

/// Whether `c` is a decimal digit.
pub open spec fn is_digit(c: char) -> bool {
    '0' <= c <= '9'
}

/// The number that the digits `s` stand for.
pub open spec fn value(s: Seq<char>) -> nat
    decreases s.len(),
{
    if s.len() == 0 {
        0
    } else {
        10 * value(s.drop_last()) + (s.last() as nat - '0' as nat) as nat
    }
}

/// Whether `s` is made of digits alone.
pub open spec fn all_digits(s: Seq<char>) -> bool {
    forall|i: int| 0 <= i < s.len() ==> is_digit(#[trigger] s[i])
}

/// `s` without the plus sign it may start with.
pub open spec fn unsigned(s: Seq<char>) -> Seq<char> {
    if s.len() > 0 && s[0] == '+' {
        s.skip(1)
    } else {
        s
    }
}

/// The number that `s` stands for: digits, after at most one plus sign, that come
/// to no more than `max`.
pub open spec fn parsed(s: Seq<char>, max: nat) -> Option<nat> {
    let digits = unsigned(s);
    if digits.len() > 0 && all_digits(digits) && value(digits) <= max {
        Some(value(digits))
    } else {
        None
    }
}

/// `n` in decimal.
pub fn to_decimal(n: u64) -> (r: String)
    ensures
        r@ == decimal(n as nat),
    decreases n,
{
    let digits = DIGITS;
    if n < 10 {
        let mut r = String::new();
        r.push(digits[n as usize]);
        assert(r@ =~= decimal(n as nat));
        r
    } else {
        let mut r = to_decimal(n / 10);
        r.push(digits[(n % 10) as usize]);
        r
    }
}

/// More digits make a number no smaller.
proof fn lemma_value_grows(s: Seq<char>, i: int)
    requires
        0 <= i <= s.len(),
    ensures
        value(s.take(i)) <= value(s),
    decreases s.len(),
{
    if i < s.len() {
        lemma_value_grows(s.drop_last(), i);
        assert(s.drop_last().take(i) =~= s.take(i));
    } else {
        assert(s.take(i) =~= s);
    }
}

/// The number that `text` stands for, where it is one of at most `max`.
pub fn parse_number(text: &str, max: u64) -> (r: Option<u64>)
    ensures
        match r {
            Some(n) => parsed(text@, max as nat) == Some(n as nat),
            None => parsed(text@, max as nat) is None,
        },
{
    let s = to_chars(text);
    let start: usize = if s.len() > 0 && s[0] == '+' {
        1
    } else {
        0
    };
    let ghost digits = unsigned(s@);
    assert(digits =~= s@.skip(start as int));
    if start == s.len() {
        return None;
    }
    let mut n: u64 = 0;
    let mut i: usize = start;
    assert(digits.take(0).len() == 0);
    while i < s.len()
        invariant
            s@ == text@,
            start <= i <= s@.len(),
            start < s@.len(),
            digits == unsigned(s@),
            digits =~= s@.skip(start as int),
            n <= max,
            n == value(digits.take(i - start)),
            forall|k: int| 0 <= k < i - start ==> is_digit(#[trigger] digits[k]),
        decreases s@.len() - i,
    {
        let c = s[i];
        assert(digits[i - start] == c);
        if !('0' <= c && c <= '9') {
            assert(!is_digit(digits[i - start]));
            return None;
        }
        let digit: u64 = c as u64 - '0' as u64;
        proof {
            let next = digits.take(i + 1 - start);
            assert(next.drop_last() =~= digits.take(i - start));
            assert(next.last() == c);
            assert(value(next) == 10 * n + digit);
            lemma_value_grows(digits, i + 1 - start);
        }
        if digit > max || n > (max - digit) / 10 {
            return None;
        }
        n = 10 * n + digit;
        i += 1;
    }
    assert(digits.take(i - start) =~= digits);
    Some(n)
}

/// Writing a number down and reading it back gives the number.
pub proof fn decimal_reads_back(n: nat, max: nat)
    requires
        n <= max,
    ensures
        parsed(decimal(n), max) == Some(n),
{
    lemma_decimal(n);
    let s = decimal(n);
    assert(is_digit(s[0]));
    assert(s[0] != '+');
}

proof fn lemma_decimal(n: nat)
    ensures
        decimal(n).len() > 0,
        all_digits(decimal(n)),
        value(decimal(n)) == n,
    decreases n,
{
    lemma_digit((n % 10) as int);
    if n < 10 {
        let s = decimal(n);
        assert(s.drop_last() =~= Seq::empty());
        assert(value(s.drop_last()) == 0);
        lemma_digit(n as int);
    } else {
        lemma_decimal(n / 10);
        let last = DIGITS@[(n % 10) as int];
        assert(decimal(n).drop_last() =~= decimal(n / 10));
        assert(decimal(n).last() == last);
    }
}

proof fn lemma_digit(d: int)
    requires
        0 <= d < 10,
    ensures
        is_digit(DIGITS@[d]),
        DIGITS@[d] as nat - '0' as nat == d,
{
}

/// A text stands for a number exactly where it is made of digits, at least one of them, after
/// at most one plus sign, and comes to no more than the greatest number there may be.
pub proof fn numbers_are_read_digit_by_digit(s: Seq<char>, d: nat, max: nat)
    requires
        d < 10,
    ensures
        parsed(Seq::empty(), max) is None,
        parsed(seq!['+'], max) is None,
        d <= max ==> parsed(seq![DIGITS@[d as int]], max) == Some(d),
        d > max ==> parsed(seq![DIGITS@[d as int]], max) is None,
        s.len() > 0 ==> match parsed(s, max) {
            Some(n) => parsed(s.push(DIGITS@[d as int]), max) == if 10 * n + d <= max {
                Some(10 * n + d)
            } else {
                None
            },
            None => s != seq!['+'] ==> parsed(s.push(DIGITS@[d as int]), max) is None,
        },
{
    let c = DIGITS@[d as int];
    lemma_digit(d as int);
    let none = Seq::<char>::empty();
    assert(unsigned(none) =~= none);
    assert(unsigned(seq!['+']) =~= none);
    let one = seq![c];
    assert(unsigned(one) =~= one);
    assert(one.drop_last() =~= none);
    assert(value(none) == 0);
    assert(value(one) == d);
    assert(all_digits(one));
    if s.len() > 0 {
        let more = s.push(c);
        let digits = unsigned(s);
        assert(unsigned(more) =~= digits.push(c));
        assert(digits.push(c).drop_last() =~= digits);
        assert(value(digits.push(c)) == 10 * value(digits) + d);
        if digits.len() == 0 {
            assert(s =~= seq!['+']);
        } else if all_digits(digits) {
            assert(all_digits(digits.push(c)));
        } else {
            let k = choose|k: int| 0 <= k < digits.len() && !is_digit(#[trigger] digits[k]);
            assert(!is_digit(digits.push(c)[k]));
        }
    }
}

/// A text with anything in it but digits, a plus sign at its start aside, stands for no
/// number.
pub proof fn nothing_but_digits_is_read(s: Seq<char>, k: int, max: nat)
    requires
        0 <= k < s.len(),
        s[k] < '0' || s[k] > '9',
        k > 0 || s[k] != '+',
    ensures
        parsed(s, max) is None,
{
    let digits = unsigned(s);
    if s[0] == '+' {
        assert(digits[k - 1] == s[k]);
        assert(!is_digit(digits[k - 1]));
    } else {
        assert(!is_digit(digits[k]));
    }
}

/// The digits stand for the numbers in order.
pub proof fn digits_stand_for_numbers(d: int)
    requires
        0 <= d < 10,
    ensures
        DIGITS@[d] as int == 48 + d,
{
}

/// A number is written with the digits of its tens before that of its ones, and no zero
/// before them.
pub proof fn numbers_are_written_digit_by_digit(n: nat, d: nat)
    requires
        d < 10,
    ensures
        decimal(d) == seq![DIGITS@[d as int]],
        n > 0 ==> decimal(10 * n + d) == decimal(n) + seq![DIGITS@[d as int]],
{
    if n > 0 {
        assert((10 * n + d) / 10 == n);
        assert((10 * n + d) % 10 == d);
        assert(decimal(10 * n + d) =~= decimal(n) + seq![DIGITS@[d as int]]);
    }
}

} // verus!
