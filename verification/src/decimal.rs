//! Numbers as decimal text, and back.

use crate::text;
use vstd::prelude::*;
use vstd::slice::*;

verus! {

// ---------------------------------------------------------------------------
// Writing
// ---------------------------------------------------------------------------

/// The character of a digit below ten.
pub open spec fn digit(d: nat) -> char {
    (48 + d) as char
}

/// The decimal text of `n`, without leading zeros.
pub open spec fn decimal(n: nat) -> Seq<char>
    decreases n,
{
    if n < 10 {
        seq![digit(n)]
    } else {
        decimal(n / 10).push(digit(n % 10))
    }
}

/// `k` zeros.
pub open spec fn zeros(k: nat) -> Seq<char> {
    Seq::new(k, |i: int| '0')
}

/// The decimal text of `n`, filled up with leading zeros to at least `width`
/// characters.
pub open spec fn padded(n: nat, width: nat) -> Seq<char> {
    let d = decimal(n);
    if d.len() < width {
        zeros((width - d.len()) as nat) + d
    } else {
        d
    }
}

fn digit_of(d: u64) -> (c: char)
    requires
        d < 10,
    ensures
        c == digit(d as nat),
{
    let b: u8 = 48 + d as u8;
    b as char
}

/// The decimal text of `n`.
pub fn decimal_of(n: u64) -> (r: String)
    ensures
        r@ == decimal(n as nat),
    decreases n,
{
    if n < 10 {
        let mut r: String = String::new();
        r.push(digit_of(n));
        r
    } else {
        let mut r: String = decimal_of(n / 10);
        r.push(digit_of(n % 10));
        r
    }
}

/// The decimal text of `n` in at least `width` characters.
pub fn padded_of(n: u64, width: usize) -> (r: String)
    ensures
        r@ == padded(n as nat, width as nat),
{
    let d: String = decimal_of(n);
    let len: usize = text::chars_of(d.as_str()).len();
    let mut r: String = String::new();
    let mut i: usize = len;
    while i < width
        invariant
            len == decimal(n as nat).len(),
            len <= i,
            i <= width || i == len,
            r@ == zeros((i - len) as nat),
        decreases width - i,
    {
        r.push('0');
        assert(zeros((i + 1 - len) as nat) =~= zeros((i - len) as nat).push('0'));
        i = i + 1;
    }
    text::push_str(&mut r, d.as_str());
    assert(zeros(0) + d@ =~= d@);
    r
}

// ---------------------------------------------------------------------------
// Reading
// ---------------------------------------------------------------------------

/// The ASCII digits.
pub open spec fn is_digit(c: char) -> bool {
    48 <= c as u32 <= 57
}

/// What a digit stands for.
pub open spec fn digit_value(c: char) -> nat {
    (c as u32 - 48) as nat
}

/// Whether every character is an ASCII digit.
pub open spec fn all_digits(s: Seq<char>) -> bool {
    forall|i: int| 0 <= i < s.len() ==> is_digit(#[trigger] s[i])
}

/// The number that a string of digits stands for.
pub open spec fn digits_value(s: Seq<char>) -> nat
    decreases s.len(),
{
    if s.len() == 0 {
        0
    } else {
        10 * digits_value(s.drop_last()) + digit_value(s.last())
    }
}

/// The natural number written as one or more digits.
pub open spec fn read_digits(s: Seq<char>) -> Option<nat> {
    if s.len() > 0 && all_digits(s) {
        Some(digits_value(s))
    } else {
        None
    }
}

/// The natural number written as an optional `+` and one or more digits.
pub open spec fn read_unsigned(s: Seq<char>) -> Option<nat> {
    if s.len() > 0 && s[0] == '+' {
        read_digits(s.skip(1))
    } else {
        read_digits(s)
    }
}

/// The number written as one or more digits, if it fits in a `u32`.
pub open spec fn read_u32(s: Seq<char>) -> Option<u32> {
    match read_digits(s) {
        Some(n) => if n <= u32::MAX {
            Some(n as u32)
        } else {
            None
        },
        None => None,
    }
}

/// Tells digits from other characters.
pub fn char_is_digit(c: char) -> (r: bool)
    ensures
        r == is_digit(c),
{
    let u: u32 = c as u32;
    48 <= u && u <= 57
}

/// A prefix of digits stands for no more than the whole.
proof fn lemma_prefix_value(s: Seq<char>, i: int)
    requires
        0 <= i <= s.len(),
    ensures
        digits_value(s.take(i)) <= digits_value(s),
    decreases s.len() - i,
{
    if i < s.len() {
        lemma_prefix_value(s, i + 1);
        assert(s.take(i + 1).drop_last() =~= s.take(i));
    } else {
        assert(s.take(i) =~= s);
    }
}

/// Reads one or more digits whose value is at most `max`.
fn digits_up_to(s: &[char], max: u64) -> (r: Option<u64>)
    ensures
        match read_digits(s@) {
            Some(n) => if n <= max {
                r == Some(n as u64)
            } else {
                r is None
            },
            None => r is None,
        },
{
    let n: usize = s.len();
    if n == 0 {
        return None;
    }
    let mut v: u64 = 0;
    let mut i: usize = 0;
    while i < n
        invariant
            0 <= i <= n,
            n == s@.len(),
            n > 0,
            v <= max,
            forall|j: int| 0 <= j < i ==> is_digit(#[trigger] s@[j]),
            v == digits_value(s@.take(i as int)),
        decreases n - i,
    {
        let c: char = s[i];
        if !char_is_digit(c) {
            return None;
        }
        let d: u64 = (c as u32 - 48) as u64;
        proof {
            assert(s@.take(i as int + 1).drop_last() =~= s@.take(i as int));
            lemma_prefix_value(s@, i as int + 1);
        }
        let next: u128 = 10 * (v as u128) + d as u128;
        if next > max as u128 {
            return None;
        }
        v = next as u64;
        i = i + 1;
    }
    assert(s@.take(n as int) =~= s@);
    Some(v)
}

/// Reads a number that fits in a `u32`.
pub fn parse_u32(s: &[char]) -> (r: Option<u32>)
    ensures
        r == read_u32(s@),
{
    match digits_up_to(s, 0xffff_ffff) {
        Some(v) => Some(v as u32),
        None => None,
    }
}

/// The number written as an optional `+` and one or more digits, if it fits in
/// a `usize`.
pub open spec fn read_usize(s: Seq<char>) -> Option<usize> {
    match read_unsigned(s) {
        Some(n) => if n <= usize::MAX {
            Some(n as usize)
        } else {
            None
        },
        None => None,
    }
}

/// Reads a number that fits in a `usize`.
pub fn parse_usize(s: &[char]) -> (r: Option<usize>)
    ensures
        r == read_usize(s@),
{
    let n: usize = s.len();
    let body: &[char] = if n > 0 && s[0] == '+' {
        slice_subrange(s, 1, n)
    } else {
        s
    };
    assert(n > 0 && s@[0] == '+' ==> body@ =~= s@.skip(1));
    match digits_up_to(body, usize::MAX as u64) {
        Some(v) => Some(v as usize),
        None => None,
    }
}

/// Few digits stand for a small number.
proof fn lemma_short_value(s: Seq<char>)
    requires
        all_digits(s),
        s.len() <= 4,
    ensures
        digits_value(s) <= 9_999,
        s.len() <= 2 ==> digits_value(s) <= 99,
{
    reveal_with_fuel(digits_value, 5);
}

/// Reads a number of at most four digits.
pub fn parse_short(s: &[char]) -> (r: Option<u64>)
    requires
        s@.len() <= 4,
    ensures
        match read_digits(s@) {
            Some(n) => r == Some(n as u64) && n <= 9_999 && (s@.len() <= 2 ==> n <= 99),
            None => r is None,
        },
{
    proof {
        if all_digits(s@) {
            lemma_short_value(s@);
        }
    }
    digits_up_to(s, 9_999)
}

// ---------------------------------------------------------------------------
// Writing and reading together
// ---------------------------------------------------------------------------

/// Decimal text reads back as the number it was written from.
pub proof fn lemma_decimal_reads_back(n: nat)
    ensures
        decimal(n).len() > 0,
        all_digits(decimal(n)),
        digits_value(decimal(n)) == n,
        read_digits(decimal(n)) == Some(n),
    decreases n,
{
    let s = decimal(n);
    if n < 10 {
        assert(s.drop_last() =~= Seq::<char>::empty());
        assert(digits_value(s) == n) by {
            reveal_with_fuel(digits_value, 2);
        }
    } else {
        lemma_decimal_reads_back(n / 10);
        let t = decimal(n / 10);
        assert(s.drop_last() =~= t);
        assert(is_digit(s.last()));
        assert forall|i: int| 0 <= i < s.len() implies is_digit(#[trigger] s[i]) by {
            if i < t.len() {
                assert(s[i] == t[i]);
            }
        }
    }
    assert(is_digit(s[0]));
}

/// Leading zeros do not change what a string of digits stands for.
pub proof fn lemma_zeros_value(k: nat, s: Seq<char>)
    requires
        all_digits(s),
    ensures
        all_digits(zeros(k) + s),
        digits_value(zeros(k) + s) == digits_value(s),
    decreases s.len(), k,
{
    let z = zeros(k) + s;
    assert forall|i: int| 0 <= i < z.len() implies is_digit(#[trigger] z[i]) by {
        if i >= k {
            assert(z[i] == s[i - k]);
        }
    }
    if s.len() > 0 {
        assert(z.drop_last() =~= zeros(k) + s.drop_last());
        assert(all_digits(s.drop_last()));
        lemma_zeros_value(k, s.drop_last());
    } else if k > 0 {
        assert(z.drop_last() =~= zeros((k - 1) as nat) + s);
        lemma_zeros_value((k - 1) as nat, s);
    } else {
        assert(z =~= s);
    }
}

/// Padded text reads back as the number it was written from.
pub proof fn lemma_padded_reads_back(n: nat, width: nat)
    ensures
        padded(n, width).len() > 0,
        padded(n, width).len() >= width,
        all_digits(padded(n, width)),
        digits_value(padded(n, width)) == n,
        read_digits(padded(n, width)) == Some(n),
{
    lemma_decimal_reads_back(n);
    let d = decimal(n);
    if d.len() < width {
        lemma_zeros_value((width - d.len()) as nat, d);
    }
    assert(is_digit(padded(n, width)[0]));
}

/// A number below a power of ten fits the width.
pub proof fn lemma_padded_width(n: nat)
    ensures
        n < 100 ==> padded(n, 2).len() == 2,
        n < 10_000 ==> padded(n, 4).len() == 4,
{
    reveal_with_fuel(decimal, 5);
}

/// Digits in the same number of places are in the order of their values.
pub proof fn lemma_digits_order(a: Seq<char>, b: Seq<char>)
    requires
        a.len() == b.len(),
        all_digits(a),
        all_digits(b),
    ensures
        text::before(a, b) <==> digits_value(a) < digits_value(b),
        a == b <==> digits_value(a) == digits_value(b),
    decreases a.len(),
{
    if a.len() == 0 {
        assert(a =~= b);
    } else {
        let x = a.drop_last();
        let y = b.drop_last();
        assert(is_digit(a.last()) && is_digit(b.last()));
        assert forall|i: int| 0 <= i < x.len() implies is_digit(#[trigger] x[i]) by {
            assert(x[i] == a[i]);
        }
        assert forall|i: int| 0 <= i < y.len() implies is_digit(#[trigger] y[i]) by {
            assert(y[i] == b[i]);
        }
        lemma_digits_order(x, y);
        let p = seq![a.last()];
        let q = seq![b.last()];
        assert(a =~= x + p);
        assert(b =~= y + q);
        text::lemma_before_concat(x, y, p, q);
        assert(text::before(p, q) <==> (p[0] as u32) < (q[0] as u32)) by {
            reveal_with_fuel(text::before, 2);
        }
        if a.last() != b.last() {
            text::lemma_char_code(a.last(), b.last());
        }
    }
}

/// A number reads back from its digits, with a `+` or without where that is
/// allowed, and nothing but digits is read as one.
pub proof fn law_numbers(n: nat, s: Seq<char>)
    ensures
        read_u32(decimal(n)) == if n <= u32::MAX {
            Some(n as u32)
        } else {
            None
        },
        read_usize(decimal(n)) == if n <= usize::MAX {
            Some(n as usize)
        } else {
            None
        },
        read_usize(seq!['+'] + decimal(n)) == read_usize(decimal(n)),
        (exists|i: int|
            0 <= i < s.len() && !('0' as u32 <= (#[trigger] s[i]) as u32 <= '9' as u32))
            ==> read_u32(s) is None,
        (exists|i: int|
            0 < i < s.len() && !('0' as u32 <= (#[trigger] s[i]) as u32 <= '9' as u32))
            ==> read_usize(s) is None,
        read_u32(Seq::empty()) is None && read_usize(Seq::empty()) is None,
{
    lemma_decimal_reads_back(n);
    assert(is_digit(decimal(n)[0]));
    assert((seq!['+'] + decimal(n)).skip(1) =~= decimal(n));
    if exists|i: int| 0 < i < s.len() && !('0' as u32 <= (#[trigger] s[i]) as u32 <= '9' as u32) {
        let i = choose|i: int|
            0 < i < s.len() && !('0' as u32 <= (#[trigger] s[i]) as u32 <= '9' as u32);
        assert(!is_digit(s[i]));
        assert(s.skip(1)[i - 1] == s[i]);
    }
    if exists|i: int| 0 <= i < s.len() && !('0' as u32 <= (#[trigger] s[i]) as u32 <= '9' as u32) {
        let i = choose|i: int|
            0 <= i < s.len() && !('0' as u32 <= (#[trigger] s[i]) as u32 <= '9' as u32);
        assert(!is_digit(s[i]));
    }
}

} // verus!
