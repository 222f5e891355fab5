//! Numbers written in decimal.

use vstd::prelude::*;
use vstd::string::*;

verus! {

/// Whether a character is one of the digits 0 to 9.
pub open spec fn is_digit(c: char) -> bool {
    '0' <= c <= '9'
}

/// The number that a row of digits stands for.
pub open spec fn digits_value(digits: Seq<char>) -> nat
    decreases digits.len(),
{
    if digits.len() == 0 {
        0
    } else {
        (digits_value(digits.drop_last()) * 10 + (digits.last() as int - '0' as int)) as nat
    }
}

/// The digits of a text that may start with a plus sign.
pub open spec fn unsigned_part(text: Seq<char>) -> Seq<char> {
    if text.len() > 0 && text[0] == '+' {
        text.skip(1)
    } else {
        text
    }
}

/// The number that a text reads as: one or more digits, after a plus sign or none,
/// whose number fits a `usize`.
pub open spec fn parsed_number(text: Seq<char>) -> Option<nat> {
    let digits = unsigned_part(text);
    if digits.len() > 0 && (forall|i: int| 0 <= i < digits.len() ==> is_digit(#[trigger] digits[i]))
        && digits_value(digits) <= usize::MAX {
        Some(digits_value(digits))
    } else {
        None
    }
}

/// The digit for a number below ten.
pub open spec fn digit_char(d: nat) -> char {
    if d == 0 {
        '0'
    } else if d == 1 {
        '1'
    } else if d == 2 {
        '2'
    } else if d == 3 {
        '3'
    } else if d == 4 {
        '4'
    } else if d == 5 {
        '5'
    } else if d == 6 {
        '6'
    } else if d == 7 {
        '7'
    } else if d == 8 {
        '8'
    } else {
        '9'
    }
}

/// A number in decimal, without leading zeros.
pub open spec fn decimal(n: nat) -> Seq<char>
    decreases n,
{
    if n < 10 {
        seq![digit_char(n)]
    } else {
        decimal(n / 10).push(digit_char(n % 10))
    }
}

proof fn lemma_decimal_digits(n: nat)
    ensures
        decimal(n).len() > 0,
        forall|i: int| 0 <= i < decimal(n).len() ==> is_digit(#[trigger] decimal(n)[i]),
        digits_value(decimal(n)) == n,
    decreases n,
{
    if n < 10 {
        assert(decimal(n).drop_last() =~= Seq::<char>::empty());
        assert(decimal(n).last() == digit_char(n));
        assert(digits_value(Seq::<char>::empty()) == 0);
    } else {
        lemma_decimal_digits(n / 10);
        assert(decimal(n).drop_last() =~= decimal(n / 10));
        assert(decimal(n).last() == digit_char(n % 10));
    }
}

/// A number that fits a `usize` is read back from its decimal form.
pub proof fn lemma_decimal_read_back(n: nat)
    requires
        n <= usize::MAX,
    ensures
        parsed_number(decimal(n)) == Some(n),
{
    lemma_decimal_digits(n);
    assert(is_digit(decimal(n)[0]));
}

/// The decimal form of a number is made of the digits 0 to 9 and nothing else, with
/// no leading zero. Without its last digit it is the decimal form of a tenth of the
/// number, and that digit is the remainder.
pub proof fn lemma_decimal_shape(n: nat)
    ensures
        decimal(n).len() > 0,
        forall|i: int|
            0 <= i < decimal(n).len() ==> 48 <= #[trigger] decimal(n)[i] as int
                && decimal(n)[i] as int <= 57,
        n > 0 ==> decimal(n)[0] != '0',
        decimal(n).len() == 1 <==> n < 10,
        decimal(n).last() as int == 48 + n % 10,
        n >= 10 ==> decimal(n).drop_last() == decimal(n / 10),
    decreases n,
{
    lemma_decimal_digits(n);
    assert forall|i: int| 0 <= i < decimal(n).len() implies 48 <= #[trigger] decimal(n)[i] as int
        && decimal(n)[i] as int <= 57 by {
        assert(is_digit(decimal(n)[i]));
    }
    if n >= 10 {
        lemma_decimal_shape(n / 10);
        assert(decimal(n).drop_last() =~= decimal(n / 10));
        assert(decimal(n)[0] == decimal(n / 10)[0]);
    }
}

/// How a text is read, from its last character on. The empty text is no number. A
/// text that ends in anything but a digit is none. A digit alone, or after a plus
/// sign, is its own number. A digit after a number makes ten times that number and
/// the digit, as long as that fits a `usize`; after anything else it makes none.
pub proof fn lemma_parsed_step(text: Seq<char>, c: char)
    ensures
        parsed_number(Seq::<char>::empty()) is None,
        parsed_number(text.push(c)) == (if (c as int) < 48 || (c as int) > 57 {
            None
        } else if text.len() == 0 || (text.len() == 1 && text[0] == '+') {
            Some((c as int - 48) as nat)
        } else {
            match parsed_number(text) {
                Some(n) => if n * 10 + (c as int - 48) <= usize::MAX {
                    Some((n * 10 + (c as int - 48)) as nat)
                } else {
                    None
                },
                None => None,
            }
        }),
{
    let longer = text.push(c);
    let digits = unsigned_part(text);
    let more = unsigned_part(longer);
    if (c as int) < 48 || (c as int) > 57 {
        if more.len() > 0 {
            assert(more[more.len() - 1] == c);
            assert(!is_digit(more[more.len() - 1]));
        }
    } else {
        assert(is_digit(c));
        if text.len() > 0 {
            assert(longer[0] == text[0]);
        }
        assert(more =~= digits.push(c));
        assert(more.drop_last() =~= digits);
        assert(more.last() == c);
        assert(digits_value(more) == digits_value(digits) * 10 + (c as int - 48));
        if digits.len() == 0 {
            assert(digits_value(digits) == 0);
        } else {
            if forall|i: int| 0 <= i < digits.len() ==> is_digit(#[trigger] digits[i]) {
                assert forall|i: int| 0 <= i < more.len() implies is_digit(#[trigger] more[i]) by {
                    if i < digits.len() {
                        assert(is_digit(digits[i]));
                    }
                }
            } else {
                let i = choose|i: int| 0 <= i < digits.len() && !is_digit(#[trigger] digits[i]);
                assert(more[i] == digits[i]);
            }
        }
    }
}

proof fn lemma_same_digits(a: Seq<char>, b: Seq<char>)
    requires
        a.len() > 0,
        b.len() > 0,
        forall|i: int| 0 <= i < a.len() ==> is_digit(#[trigger] a[i]),
        forall|i: int| 0 <= i < b.len() ==> is_digit(#[trigger] b[i]),
        a.len() > 1 ==> a[0] != '0',
        b.len() > 1 ==> b[0] != '0',
        digits_value(a) == digits_value(b),
    ensures
        a == b,
    decreases a.len() + b.len(),
{
    let p = a.drop_last();
    let q = b.drop_last();
    assert(is_digit(a[a.len() - 1]) && is_digit(b[b.len() - 1]));
    assert(digits_value(p) == digits_value(q) && a.last() == b.last());
    assert forall|i: int| 0 <= i < p.len() implies is_digit(#[trigger] p[i]) by {
        assert(is_digit(a[i]));
    }
    assert forall|i: int| 0 <= i < q.len() implies is_digit(#[trigger] q[i]) by {
        assert(is_digit(b[i]));
    }
    if p.len() > 0 && q.len() > 0 {
        assert(p[0] == a[0] && q[0] == b[0]);
        lemma_same_digits(p, q);
    } else {
        if p.len() > 0 {
            lemma_leading_digit(p);
        }
        if q.len() > 0 {
            lemma_leading_digit(q);
        }
        assert(p =~= q);
    }
    assert(a =~= p.push(a.last()));
    assert(b =~= q.push(b.last()));
}

proof fn lemma_leading_digit(digits: Seq<char>)
    requires
        digits.len() > 0,
        forall|i: int| 0 <= i < digits.len() ==> is_digit(#[trigger] digits[i]),
        digits[0] != '0',
    ensures
        digits_value(digits) > 0,
{
    lemma_value_grows(digits, 1);
    let first = digits.take(1);
    assert(is_digit(digits[0]));
    assert(first.drop_last() =~= Seq::<char>::empty());
    assert(digits_value(Seq::<char>::empty()) == 0);
    assert(first.last() == digits[0]);
    assert(digits_value(first) > 0);
}

/// Of the texts that read as a number, only its decimal form has digits alone and no
/// leading zero.
pub proof fn lemma_decimal_unique(text: Seq<char>, n: nat)
    requires
        parsed_number(text) == Some(n),
        forall|i: int|
            0 <= i < text.len() ==> 48 <= #[trigger] text[i] as int && text[i] as int <= 57,
        text.len() > 1 ==> text[0] != '0',
    ensures
        text == decimal(n),
{
    assert(text.len() > 0);
    assert(unsigned_part(text) == text);
    lemma_decimal_digits(n);
    lemma_decimal_shape(n);
    lemma_same_digits(text, decimal(n));
}

proof fn lemma_value_grows(digits: Seq<char>, k: int)
    requires
        0 <= k <= digits.len(),
        forall|i: int| 0 <= i < digits.len() ==> is_digit(#[trigger] digits[i]),
    ensures
        digits_value(digits.take(k)) <= digits_value(digits),
    decreases digits.len(),
{
    if k == digits.len() {
        assert(digits.take(k) =~= digits);
    } else {
        let shorter = digits.drop_last();
        assert forall|i: int| 0 <= i < shorter.len() implies is_digit(#[trigger] shorter[i]) by {
            assert(is_digit(digits[i]));
        }
        lemma_value_grows(shorter, k);
        assert(shorter.take(k) =~= digits.take(k));
        assert(is_digit(digits[digits.len() - 1]));
    }
}

/// Reads a number.
pub fn parse_number(text: &str) -> (n: Option<usize>)
    ensures
        n matches Some(v) ==> parsed_number(text@) == Some(v as nat),
        n is None ==> parsed_number(text@) is None,
{
    let len: usize = text.unicode_len();
    let start: usize = if len > 0 && text.get_char(0) == '+' {
        1
    } else {
        0
    };
    let ghost digits = unsigned_part(text@);
    if start == len {
        return None;
    }
    let mut value: usize = 0;
    let mut i: usize = start;
    assert(digits_value(digits.take(0)) == 0);
    while i < len
        invariant
            start <= i <= len,
            len == text@.len(),
            start <= 1,
            digits == unsigned_part(text@),
            digits.len() == len - start,
            forall|k: int| 0 <= k < digits.len() ==> #[trigger] digits[k] == text@[k + start],
            forall|k: int| 0 <= k < i - start ==> is_digit(#[trigger] digits[k]),
            value == digits_value(digits.take(i - start)),
        decreases len - i,
    {
        let c: char = text.get_char(i);
        let ghost k: int = i - start;
        assert(digits[k] == c);
        if !('0' <= c && c <= '9') {
            assert(!is_digit(digits[k]));
            return None;
        }
        let d: usize = (c as u32 - '0' as u32) as usize;
        proof {
            let more = digits.take(k + 1);
            assert(more.drop_last() =~= digits.take(k));
            assert(more.last() == c);
            assert(digits_value(more) == value * 10 + d);
            if parsed_number(text@) is Some {
                lemma_value_grows(digits, k + 1);
            }
        }
        if value > (usize::MAX - d) / 10 {
            return None;
        }
        value = value * 10 + d;
        i = i + 1;
    }
    assert(digits.take(digits.len() as int) =~= digits);
    Some(value)
}

/// The digit for a number below ten, as a string.
fn digit_str(d: usize) -> (s: &'static str)
    requires
        d < 10,
    ensures
        s@ == seq![digit_char(d as nat)],
{
    proof {
        reveal_strlit("0");
        reveal_strlit("1");
        reveal_strlit("2");
        reveal_strlit("3");
        reveal_strlit("4");
        reveal_strlit("5");
        reveal_strlit("6");
        reveal_strlit("7");
        reveal_strlit("8");
        reveal_strlit("9");
    }
    let s: &'static str = if d == 0 {
        "0"
    } else if d == 1 {
        "1"
    } else if d == 2 {
        "2"
    } else if d == 3 {
        "3"
    } else if d == 4 {
        "4"
    } else if d == 5 {
        "5"
    } else if d == 6 {
        "6"
    } else if d == 7 {
        "7"
    } else if d == 8 {
        "8"
    } else {
        "9"
    };
    assert(s@ =~= seq![digit_char(d as nat)]);
    s
}

/// Writes a number in decimal.
pub fn decimal_string(n: usize) -> (s: String)
    ensures
        s@ == decimal(n as nat),
        s@.len() > 0,
        forall|i: int| 0 <= i < s@.len() ==> '0' <= #[trigger] s@[i] && s@[i] <= '9',
        n > 0 ==> s@[0] != '0',
        parsed_number(s@) == Some(n as nat),
    decreases n,
{
    proof {
        lemma_decimal_read_back(n as nat);
        lemma_decimal_shape(n as nat);
        lemma_decimal_digits(n as nat);
    }
    if n < 10 {
        String::from_str(digit_str(n))
    } else {
        let mut s: String = decimal_string(n / 10);
        s.append(digit_str(n % 10));
        assert(s@ =~= decimal(n as nat));
        s
    }
}

} // verus!
