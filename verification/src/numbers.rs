//! Numbers as text.

use vstd::prelude::*;
use vstd::string::*;

verus! {

/// The decimal digit `n`.
pub open spec fn digit(n: int) -> char {
    (48 + n) as char
}

/// `n` in decimal, with zeros in front up to `width` digits.
pub open spec fn decimal(n: nat, width: nat) -> Seq<char>
    decreases n, width,
{
    if n < 10 && width <= 1 {
        seq![digit(n as int)]
    } else {
        decimal(n / 10, if width == 0 { 0 } else { (width - 1) as nat }).push(digit(n as int % 10))
    }
}

fn digit_char(n: u64) -> (r: char)
    requires
        n < 10,
    ensures
        r == digit(n as int),
{
    (48u8 + n as u8) as char
}

/// `n` in decimal, with zeros in front up to `width` digits.
pub fn write_decimal(n: u64, width: u64) -> (r: String)
    ensures
        r@ == decimal(n as nat, width as nat),
    decreases n, width,
{
    if n < 10 && width <= 1 {
        let mut r = String::new();
        r.push(digit_char(n));
        assert(r@ == seq![digit(n as int)]);
        r
    } else {
        let mut r = write_decimal(
            n / 10,
            if width == 0 {
                0
            } else {
                width - 1
            },
        );
        r.push(digit_char(n % 10));
        r
    }
}

/// The hexadecimal digit `n`.
pub open spec fn hex_digit(n: int) -> char {
    if n < 10 {
        (48 + n) as char
    } else {
        (87 + n) as char
    }
}

/// `bytes` in hexadecimal, two digits for each byte.
pub open spec fn hex_text(bytes: Seq<u8>) -> Seq<char> {
    Seq::new(
        bytes.len() * 2,
        |i: int|
            if i % 2 == 0 {
                hex_digit(bytes[i / 2] as int / 16)
            } else {
                hex_digit(bytes[i / 2] as int % 16)
            },
    )
}

fn hex_char(n: u8) -> (r: char)
    requires
        n < 16,
    ensures
        r == hex_digit(n as int),
{
    if n < 10 {
        (48u8 + n) as char
    } else {
        (87u8 + n) as char
    }
}

/// `bytes` in hexadecimal, two digits for each byte.
pub fn write_hex(bytes: &Vec<u8>) -> (r: String)
    ensures
        r@ == hex_text(bytes@),
{
    let mut r = String::new();
    let mut i: usize = 0;
    while i < bytes.len()
        invariant
            i <= bytes.len(),
            r@ == hex_text(bytes@.take(i as int)),
        decreases bytes.len() - i,
    {
        let ghost before = r@;
        r.push(hex_char(bytes[i] / 16));
        r.push(hex_char(bytes[i] % 16));
        assert(r@ == hex_text(bytes@.take(i + 1)));
        i = i + 1;
    }
    assert(bytes@.take(bytes.len() as int) == bytes@);
    r
}

/// A decimal number is written with digits, and with one at least.
pub proof fn lemma_decimal_digits(n: nat, width: nat)
    ensures
        decimal(n, width).len() > 0,
        forall|i: int|
            0 <= i < decimal(n, width).len() ==> 48 <= (#[trigger] decimal(n, width)[i]) as int <= 57,
    decreases n, width,
{
    if !(n < 10 && width <= 1) {
        let less = if width == 0 { 0 } else { (width - 1) as nat };
        let front = decimal(n / 10, less);
        lemma_decimal_digits(n / 10, less);
        assert forall|i: int| 0 <= i < decimal(n, width).len() implies 48 <= (
        #[trigger] decimal(n, width)[i]) as int <= 57 by {
            if i < front.len() {
                assert(decimal(n, width)[i] == front[i]);
            }
        }
    }
}

/// A decimal number has the value of its digits, has at least the digits that it must, and has no
/// needless zero in front.
pub proof fn lemma_decimal(n: nat, width: nat)
    ensures
        decimal(n, width).fold_left(0int, |value: int, c: char| 10 * value + (c as int - '0' as int))
            == n,
        decimal(n, width).len() >= width,
        decimal(n, width).len() > width && decimal(n, width).len() > 1 ==> decimal(n, width)[0]
            != '0',
    decreases n, width,
{
    let f = |value: int, c: char| 10 * value + (c as int - '0' as int);
    let whole = decimal(n, width);
    if n < 10 && width <= 1 {
        reveal_with_fuel(Seq::fold_left, 2);
        assert(whole == seq![digit(n as int)]);
        assert(whole.drop_last() == Seq::<char>::empty());
        assert(whole.fold_left(0int, f) == f(0, whole.last()));
    } else {
        let less = if width == 0 { 0 } else { (width - 1) as nat };
        let front = decimal(n / 10, less);
        lemma_decimal(n / 10, less);
        lemma_decimal_digits(n / 10, less);
        assert(whole.drop_last() == front);
        assert(whole.last() == digit(n as int % 10));
        assert(whole.fold_left(0int, f) == f(front.fold_left(0int, f), whole.last()));
        if whole.len() > width && front.len() == 1 {
            assert(n >= 10);
            assert(n / 10 < 10 && less <= 1) by {
                if !(n / 10 < 10 && less <= 1) {
                    let fewer = if less == 0 { 0 } else { (less - 1) as nat };
                    lemma_decimal_digits(n / 10 / 10, fewer);
                    assert(front.len() > 1);
                }
            }
            assert(front[0] == digit((n / 10) as int));
        }
    }
}

/// The number that a hexadecimal digit in lower case stands for.
pub open spec fn hex_value(c: char) -> int {
    if 'a' as int <= c as int <= 'f' as int {
        c as int - 'a' as int + 10
    } else {
        c as int - '0' as int
    }
}

/// Each byte is written with two hexadecimal digits in lower case that have its value, the greater
/// one first.
pub proof fn lemma_hex_text(bytes: Seq<u8>, i: int)
    requires
        0 <= i < bytes.len(),
    ensures
        hex_text(bytes).len() == 2 * bytes.len(),
        16 * hex_value(hex_text(bytes)[2 * i]) + hex_value(hex_text(bytes)[2 * i + 1]) == bytes[i],
        seq![hex_text(bytes)[2 * i], hex_text(bytes)[2 * i + 1]].all(
            |c: char|
                '0' as int <= c as int <= '9' as int || 'a' as int <= c as int <= 'f' as int,
        ),
{
    let b = bytes[i] as int;
    assert(hex_text(bytes)[2 * i] == hex_digit(b / 16));
    assert(hex_text(bytes)[2 * i + 1] == hex_digit(b % 16));
}

} // verus!
