//! Unsigned numbers as text.

use vstd::prelude::*;
use vstd::slice::slice_subrange;

verus! {

// ---------------------------------------------------------------- reading

/// The value of a digit in the given radix (letters of either case count from ten).
pub open spec fn digit_value(c: char, radix: int) -> Option<int> {
    let n = c as u32;
    let d: int = if '0' as u32 <= n <= '9' as u32 {
        n - '0' as u32
    } else if 'a' as u32 <= n <= 'z' as u32 {
        10 + n - 'a' as u32
    } else if 'A' as u32 <= n <= 'Z' as u32 {
        10 + n - 'A' as u32
    } else {
        radix
    };
    if d < radix {
        Some(d)
    } else {
        None
    }
}

/// Whether every character of `s` is a digit.
pub open spec fn all_digits(s: Seq<char>, radix: int) -> bool {
    forall|i: int| 0 <= i < s.len() ==> digit_value(#[trigger] s[i], radix) is Some
}

/// The number that a sequence of digits stands for.
pub open spec fn digits_value(s: Seq<char>, radix: int) -> int
    decreases s.len(),
{
    if s.len() == 0 {
        0
    } else {
        digits_value(s.drop_last(), radix) * radix + digit_value(s.last(), radix)->0
    }
}

/// The number that a text stands for: an optional plus sign, then one or more digits, with a
/// value of at most `max`.
pub open spec fn unsigned(s: Seq<char>, radix: int, max: int) -> Option<int> {
    let digits = if s.len() > 0 && s[0] == '+' {
        s.skip(1)
    } else {
        s
    };
    if digits.len() > 0 && all_digits(digits, radix) && digits_value(digits, radix) <= max {
        Some(digits_value(digits, radix))
    } else {
        None
    }
}

proof fn lemma_prefix_value(s: Seq<char>, radix: int, n: int)
    requires
        radix >= 2,
        all_digits(s, radix),
        0 <= n <= s.len(),
    ensures
        0 <= digits_value(s.take(n), radix) <= digits_value(s, radix),
    decreases s.len(),
{
    if n == s.len() {
        assert(s.take(n) =~= s);
        if n > 0 {
            let p = s.drop_last();
            assert forall|i: int| 0 <= i < p.len() implies digit_value(
                #[trigger] p[i],
                radix,
            ) is Some by {
                assert(p[i] == s[i]);
            }
            lemma_prefix_value(p, radix, p.len() as int);
            assert(p.take(p.len() as int) =~= p);
            assert(digit_value(s[s.len() - 1], radix) is Some);
            assert(digits_value(p, radix) * radix >= 0) by (nonlinear_arith)
                requires
                    digits_value(p, radix) >= 0,
                    radix >= 2,
            ;
        }
    } else {
        let p = s.drop_last();
        assert forall|i: int| 0 <= i < p.len() implies digit_value(
            #[trigger] p[i],
            radix,
        ) is Some by {
            assert(p[i] == s[i]);
        }
        lemma_prefix_value(p, radix, n);
        assert(p.take(n) =~= s.take(n));
        assert(digit_value(s[s.len() - 1], radix) is Some);
        assert(digits_value(p, radix) * radix >= digits_value(p, radix)) by (nonlinear_arith)
            requires
                digits_value(p, radix) >= 0,
                radix >= 2,
        ;
    }
}

fn digit(c: char, radix: u64) -> (r: Option<u64>)
    requires
        radix <= 36,
    ensures
        match r {
            Some(d) => digit_value(c, radix as int) == Some(d as int) && d < radix,
            None => digit_value(c, radix as int) is None,
        },
{
    let n: u32 = c as u32;
    let d: u32 = if '0' as u32 <= n && n <= '9' as u32 {
        n - '0' as u32
    } else if 'a' as u32 <= n && n <= 'z' as u32 {
        10 + (n - 'a' as u32)
    } else if 'A' as u32 <= n && n <= 'Z' as u32 {
        10 + (n - 'A' as u32)
    } else {
        36
    };
    if (d as u64) < radix {
        Some(d as u64)
    } else {
        None
    }
}

/// Reads an unsigned number of at most `max` in the given radix.
pub fn parse_unsigned(s: &[char], radix: u64, max: u64) -> (r: Option<u64>)
    requires
        2 <= radix <= 36,
    ensures
        match r {
            Some(n) => unsigned(s@, radix as int, max as int) == Some(n as int),
            None => unsigned(s@, radix as int, max as int) is None,
        },
{
    let digits = if s.len() > 0 && s[0] == '+' {
        let d = slice_subrange(s, 1, s.len());
        assert(d@ =~= s@.skip(1));
        d
    } else {
        s
    };
    if digits.len() == 0 {
        return None;
    }
    let mut acc: u64 = 0;
    let mut i: usize = 0;
    while i < digits.len()
        invariant
            2 <= radix <= 36,
            i <= digits@.len(),
            acc <= max,
            acc == digits_value(digits@.take(i as int), radix as int),
            forall|k: int|
                0 <= k < i ==> digit_value(#[trigger] digits@[k], radix as int) is Some,
            digits@ == if s@.len() > 0 && s@[0] == '+' {
                s@.skip(1)
            } else {
                s@
            },
        decreases digits@.len() - i,
    {
        match digit(digits[i], radix) {
            None => {
                return None;
            },
            Some(d) => {
                assert(acc * radix <= 0xffff_ffff_ffff_ffff * 36) by (nonlinear_arith)
                    requires
                        acc <= 0xffff_ffff_ffff_ffff,
                        radix <= 36,
                ;
                let next: u128 = acc as u128 * radix as u128 + d as u128;
                proof {
                    assert(digits@.take(i + 1).drop_last() =~= digits@.take(i as int));
                    assert(digits@.take(i + 1).last() == digits@[i as int]);
                    assert(next == digits_value(digits@.take(i + 1), radix as int));
                }
                if next > max as u128 {
                    proof {
                        if all_digits(digits@, radix as int) {
                            lemma_prefix_value(digits@, radix as int, i + 1);
                        }
                    }
                    return None;
                }
                acc = next as u64;
                i += 1;
            },
        }
    }
    assert(digits@.take(i as int) =~= digits@);
    Some(acc)
}

// ---------------------------------------------------------------- writing

/// The decimal digit for a value below ten.
pub open spec fn digit_char(d: nat) -> char {
    ('0' as u32 + d) as char
}

/// A number in decimal, without leading zeros.
pub open spec fn decimal(n: nat) -> Seq<char>
    decreases n,
{
    if n < 10 {
        seq![digit_char(n)]
    } else {
        decimal(n / 10).push(digit_char(n % 10))
    }
}

/// Appends a number in decimal.
pub fn push_decimal(out: &mut String, n: u128)
    ensures
        final(out)@ == old(out)@ + decimal(n as nat),
    decreases n,
{
    if n >= 10 {
        push_decimal(out, n / 10);
    }
    let ghost before = out@;
    let c: char = (48u8 + (n % 10) as u8) as char;
    out.push(c);
    proof {
        assert(c == digit_char((n % 10) as nat));
        if n >= 10 {
            assert(out@ =~= old(out)@ + decimal((n / 10) as nat).push(c));
        } else {
            assert(out@ =~= old(out)@ + seq![c]);
        }
    }
}

/// A number in decimal.
pub fn decimal_text(n: u128) -> (r: String)
    ensures
        r@ == decimal(n as nat),
{
    let mut out = String::new();
    push_decimal(&mut out, n);
    assert(out@ =~= decimal(n as nat));
    out
}

proof fn lemma_digit_char(d: nat)
    requires
        d < 10,
    ensures
        digit_value(digit_char(d), 10) == Some(d as int),
        digit_char(d) != '+',
        digit_char(d) != '_',
{
}

/// A number in decimal is a non-empty sequence of digits with that value.
pub proof fn lemma_decimal_digits(n: nat)
    ensures
        decimal(n).len() > 0,
        all_digits(decimal(n), 10),
        digits_value(decimal(n), 10) == n,
        forall|i: int|
            0 <= i < decimal(n).len() ==> #[trigger] decimal(n)[i] != '+' && decimal(n)[i] != '_',
    decreases n,
{
    lemma_digit_char(n % 10);
    if n >= 10 {
        lemma_decimal_digits(n / 10);
        assert(decimal(n).drop_last() =~= decimal(n / 10));
    } else {
        assert(decimal(n).drop_last() =~= Seq::empty());
        assert(decimal(n).last() == digit_char(n));
        assert(digits_value(decimal(n).drop_last(), 10) == 0);
    }
}

/// A number written in decimal is read back as the same number, whenever it is in range.
pub proof fn law_decimal_round_trip(n: nat, max: int)
    requires
        n <= max,
    ensures
        unsigned(decimal(n), 10, max) == Some(n as int),
{
    lemma_decimal_digits(n);
}

/// Different numbers have different decimal texts, and none of them holds an underscore.
pub proof fn law_decimal_injective(a: nat, b: nat)
    ensures
        decimal(a) == decimal(b) ==> a == b,
        !decimal(a).contains('_'),
{
    lemma_decimal_digits(a);
    lemma_decimal_digits(b);
}

/// A number in decimal is made of digits alone, and the first one is no zero unless it is the
/// only one.
pub proof fn law_decimal_text(n: nat)
    ensures
        decimal(n).len() > 0,
        forall|i: int| 0 <= i < decimal(n).len() ==> '0' <= #[trigger] decimal(n)[i] <= '9',
        decimal(n).len() > 1 ==> decimal(n)[0] != '0',
    decreases n,
{
    if n >= 10 {
        law_decimal_text(n / 10);
        let front = decimal(n / 10);
        let all = decimal(n);
        assert(all == front.push(digit_char(n % 10)));
        assert forall|i: int| 0 <= i < all.len() implies '0' <= #[trigger] all[i] <= '9' by {
            if i < front.len() {
                assert(all[i] == front[i]);
            }
        }
        assert(all[0] == front[0]);
        if n / 10 >= 10 {
            law_decimal_text(n / 10 / 10);
            assert(front.len() > 1);
        } else {
            lemma_digit_char(n / 10);
            assert(front[0] == digit_char(n / 10));
            assert(digit_value('0', 10) == Some(0int));
        }
    }
}

/// Whether a character is a decimal digit.
pub open spec fn is_digit(c: char) -> bool {
    '0' <= c && c <= '9'
}

/// The digits of a text: what follows a plus sign at its front, where there is one.
spec fn digits_of(s: Seq<char>) -> Seq<char> {
    if s.len() > 0 && s[0] == '+' {
        s.skip(1)
    } else {
        s
    }
}

proof fn lemma_one_digit(c: char)
    requires
        is_digit(c),
    ensures
        digit_value(c, 10) == Some((c as u32 - '0' as u32) as int),
        all_digits(seq![c], 10),
        digits_value(seq![c], 10) == c as u32 - '0' as u32,
{
    let one = seq![c];
    assert(one.drop_last() =~= Seq::empty());
    assert(digits_value(one.drop_last(), 10) == 0);
    assert(digits_value(one, 10) == digits_value(one.drop_last(), 10) * 10 + digit_value(
        one.last(),
        10,
    )->0);
}

proof fn lemma_no_digit(c: char)
    requires
        !is_digit(c),
    ensures
        digit_value(c, 10) is None,
{
}

proof fn lemma_one_more_digit(digits: Seq<char>, c: char)
    requires
        is_digit(c),
        all_digits(digits, 10),
    ensures
        all_digits(digits.push(c), 10),
        digits_value(digits.push(c), 10) == 10 * digits_value(digits, 10) + (c as u32
            - '0' as u32),
{
    let more = digits.push(c);
    lemma_one_digit(c);
    assert(more.drop_last() =~= digits);
    assert(more.last() == c);
    assert forall|i: int| 0 <= i < more.len() implies digit_value(
        #[trigger] more[i],
        10,
    ) is Some by {
        if i < digits.len() {
            assert(more[i] == digits[i]);
        }
    }
}

/// Digits are read as the number that they stand for: each one counts ten times as much as the
/// next. A number above the limit is not read.
pub proof fn law_digits_count_by_ten(s: Seq<char>, c: char, max: int)
    requires
        is_digit(c),
    ensures
        unsigned(seq![c], 10, max) == if c as u32 - '0' as u32 <= max {
            Some((c as u32 - '0' as u32) as int)
        } else {
            None
        },
        unsigned(s, 10, max) is Some ==> {
            let n = 10 * unsigned(s, 10, max)->0 + (c as u32 - '0' as u32);
            unsigned(s.push(c), 10, max) == if n <= max {
                Some(n)
            } else {
                None
            }
        },
{
    lemma_one_digit(c);
    assert(seq![c][0] == c);
    if unsigned(s, 10, max) is Some {
        let digits = digits_of(s);
        lemma_one_more_digit(digits, c);
        assert(digits_of(s.push(c)) =~= digits.push(c));
        assert(unsigned(s, 10, max) == Some(digits_value(digits, 10)));
    }
}

/// What is no decimal number: the empty text, a plus sign alone, and every text that holds
/// anything but digits behind at most one plus sign at its front.
pub proof fn law_what_is_no_number(s: Seq<char>, max: int)
    ensures
        unsigned(Seq::empty(), 10, max) is None,
        unsigned(seq!['+'], 10, max) is None,
        s.len() > 0 && s[0] != '+' ==> unsigned(seq!['+'] + s, 10, max) == unsigned(s, 10, max),
        (exists|i: int| 0 <= i < s.len() && !is_digit(#[trigger] s[i]) && (i > 0 || s[i] != '+'))
            ==> unsigned(s, 10, max) is None,
{
    assert(seq!['+'].skip(1) =~= Seq::empty());
    assert((seq!['+'] + s).skip(1) =~= s);
    if exists|i: int| 0 <= i < s.len() && !is_digit(#[trigger] s[i]) && (i > 0 || s[i] != '+') {
        let i = choose|i: int|
            0 <= i < s.len() && !is_digit(#[trigger] s[i]) && (i > 0 || s[i] != '+');
        lemma_no_digit(s[i]);
        let digits = digits_of(s);
        if s[0] == '+' {
            assert(digits[i - 1] == s[i]);
        } else {
            assert(digits[i] == s[i]);
        }
        assert(!all_digits(digits, 10));
    }
}

/// A number above the limit is not read.
pub proof fn law_numbers_above_the_limit(n: nat, max: int)
    requires
        n > max,
    ensures
        unsigned(decimal(n), 10, max) is None,
{
    lemma_decimal_digits(n);
    assert(decimal(n)[0] != '+');
}

/// The value of a hexadecimal digit.
pub open spec fn hex_value(c: char) -> Option<int> {
    if '0' <= c && c <= '9' {
        Some((c as u32 - '0' as u32) as int)
    } else if 'a' <= c && c <= 'f' {
        Some((c as u32 - 'a' as u32 + 10) as int)
    } else if 'A' <= c && c <= 'F' {
        Some((c as u32 - 'A' as u32 + 10) as int)
    } else {
        None
    }
}

/// Which texts of at most two characters are read as a hexadecimal byte: one or two digits, or
/// a plus sign and one digit.
pub proof fn law_hexadecimal_bytes(a: char, b: char)
    ensures
        unsigned(seq![a, b], 16, 255) == if hex_value(a) is Some && hex_value(b) is Some {
            Some(16 * hex_value(a)->0 + hex_value(b)->0)
        } else if a == '+' && hex_value(b) is Some {
            hex_value(b)
        } else {
            None
        },
        unsigned(seq![a], 16, 255) == hex_value(a),
        unsigned(Seq::empty(), 16, 255) is None,
{
    let two = seq![a, b];
    let one = seq![a];
    let last = seq![b];
    assert(digit_value(a, 16) == hex_value(a));
    assert(digit_value(b, 16) == hex_value(b));
    assert(two.drop_last() =~= one);
    assert(one.drop_last() =~= Seq::empty());
    assert(last.drop_last() =~= Seq::empty());
    assert(digits_value(Seq::empty(), 16) == 0);
    assert(two.skip(1) =~= last);
    assert(one.skip(1) =~= Seq::empty());
    assert(digits_value(one, 16) == digits_value(one.drop_last(), 16) * 16 + digit_value(
        one.last(),
        16,
    )->0);
    assert(digits_value(two, 16) == digits_value(two.drop_last(), 16) * 16 + digit_value(
        two.last(),
        16,
    )->0);
    assert(digits_value(last, 16) == digits_value(last.drop_last(), 16) * 16 + digit_value(
        last.last(),
        16,
    )->0);
    assert(two[0] == a && two[1] == b && one[0] == a && last[0] == b);
    assert(all_digits(two, 16) <==> hex_value(a) is Some && hex_value(b) is Some);
    assert(all_digits(one, 16) <==> hex_value(a) is Some);
    assert(all_digits(last, 16) <==> hex_value(b) is Some);
}

} // verus!
