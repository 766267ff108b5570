//! Character-level helpers shared by the completion modules.

use vstd::prelude::*;
use vstd::utf8::encode_utf8;

verus! {

/// Returns the characters of `s` in order.
pub fn chars_of(s: &str) -> (v: Vec<char>)
    ensures
        v@ == s@,
{
    let mut v: Vec<char> = Vec::new();
    for c in it: s.chars()
        invariant
            v@ == it.seq().take(it.index() as int),
    {
        v.push(c);
    }
    v
}

/// `String::push`: the contract claims that afterwards `s` holds its old
/// characters followed by `c`.
#[verifier::external_body]
pub(crate) fn push_char(s: &mut String, c: char)
    ensures
        final(s)@ == old(s)@.push(c),
{
    s.push(c);
}

/// Whether `c` is alphabetic or numeric in the Unicode sense, as
/// `char::is_alphanumeric` decides it.
pub uninterp spec fn alphanumeric(c: char) -> bool;

/// `char::is_alphanumeric`: the contract names its result
/// (`alphanumeric(c)`) and states what its documentation gives for ASCII:
/// ASCII letters and digits are alphanumeric, every other ASCII character
/// is not. The Unicode tables behind the other characters are not stated.
#[verifier::external_body]
pub(crate) fn is_alphanumeric(c: char) -> (r: bool)
    ensures
        r == alphanumeric(c),
        (c as u32) < 128 ==> (r <==> is_ascii_alnum(c)),
{
    c.is_alphanumeric()
}

/// Appends the characters `chars[from..to]` to `s`.
pub fn push_chars(s: &mut String, chars: &Vec<char>, from: usize, to: usize)
    requires
        from <= to <= chars@.len(),
    ensures
        final(s)@ == old(s)@ + chars@.subrange(from as int, to as int),
{
    let mut k = from;
    while k < to
        invariant
            from <= k <= to <= chars@.len(),
            s@ == old(s)@ + chars@.subrange(from as int, k as int),
        decreases to - k,
    {
        push_char(s, chars[k]);
        k = k + 1;
        assert(chars@.subrange(from as int, k as int) =~= chars@.subrange(from as int, k - 1).push(
            chars@[k - 1],
        ));
    }
}

/// ASCII decimal digit.
pub open spec fn is_digit(c: char) -> bool {
    '0' <= c && c <= '9'
}

/// ASCII letter or digit.
pub open spec fn is_ascii_alnum(c: char) -> bool {
    ('0' <= c && c <= '9') || ('a' <= c && c <= 'z') || ('A' <= c && c <= 'Z')
}

/// Alphanumeric in the Unicode sense: for ASCII, a letter or a digit;
/// beyond ASCII, as `char::is_alphanumeric` decides.
pub open spec fn is_alphanumeric_char(c: char) -> bool {
    if (c as u32) < 128 {
        is_ascii_alnum(c)
    } else {
        alphanumeric(c)
    }
}

/// Exec test for an ASCII decimal digit.
pub fn char_is_digit(c: char) -> (r: bool)
    ensures
        r == is_digit(c),
{
    '0' <= c && c <= '9'
}

/// Exec test for an ASCII letter or digit.
pub fn char_is_ascii_alnum(c: char) -> (r: bool)
    ensures
        r == is_ascii_alnum(c),
{
    ('0' <= c && c <= '9') || ('a' <= c && c <= 'z') || ('A' <= c && c <= 'Z')
}

/// The number of bytes in the UTF-8 encoding of `s`.
pub open spec fn utf8_len(s: Seq<char>) -> nat {
    encode_utf8(s).len()
}

/// UTF-8 encoding distributes over concatenation.
pub proof fn lemma_encode_utf8_concat(a: Seq<char>, b: Seq<char>)
    ensures
        encode_utf8(a + b) == encode_utf8(a) + encode_utf8(b),
    decreases a.len(),
{
    if a.len() == 0 {
        assert(a + b =~= b);
        assert(encode_utf8(a) =~= Seq::<u8>::empty());
        assert(encode_utf8(a) + encode_utf8(b) =~= encode_utf8(b));
    } else {
        lemma_encode_utf8_concat(a.drop_first(), b);
        assert((a + b).drop_first() =~= a.drop_first() + b);
        assert((a + b)[0] == a[0]);
    }
}

/// The byte length of `s`, as `str::len` computes it.
pub fn byte_len(s: &String) -> (r: usize)
    ensures
        r == utf8_len(s@) as usize,
{
    s.as_str().len()
}

/// The decimal digit character of `d` (for `d < 10`).
pub open spec fn digit_char(d: nat) -> char {
    (48 + d) as char
}

/// The decimal representation of `n`, without leading zeros.
pub open spec fn decimal(n: nat) -> Seq<char>
    decreases n,
{
    if n < 10 {
        seq![digit_char(n)]
    } else {
        decimal(n / 10).push(digit_char(n % 10))
    }
}

/// `n` in decimal, left-padded with zeros to at least `width` characters.
pub open spec fn zero_padded(n: nat, width: nat) -> Seq<char> {
    let d = decimal(n);
    if d.len() < width {
        Seq::new((width - d.len()) as nat, |i: int| '0') + d
    } else {
        d
    }
}

/// Appends `n` in decimal, left-padded with zeros to `width` characters
/// (as `format!("{n:0width$}")` writes it).
pub fn push_zero_padded(s: &mut String, n: usize, width: usize)
    ensures
        final(s)@ == old(s)@ + zero_padded(n as nat, width as nat),
{
    let mut digits: Vec<char> = Vec::new();
    let mut m = n;
    loop
        invariant_except_break
            decimal(n as nat) == decimal(m as nat) + digits@,
        ensures
            decimal(n as nat) == digits@,
        decreases m,
    {
        let d = (m % 10) as u8;
        let c = (48u8 + d) as char;
        let ghost prev = digits@;
        if m < 10 {
            digits.insert(0, c);
            assert(decimal(m as nat) =~= seq![c]);
            assert(digits@ =~= seq![c] + prev);
            assert(decimal(n as nat) =~= digits@);
            break;
        }
        digits.insert(0, c);
        assert(digits@ =~= seq![c] + prev);
        assert(decimal(m as nat) == decimal((m / 10) as nat).push(c));
        assert(decimal((m / 10) as nat).push(c) + prev =~= decimal((m / 10) as nat) + digits@);
        m = m / 10;
    }
    let len = digits.len();
    let ghost before = s@;
    if len < width {
        let mut k = len;
        while k < width
            invariant
                len <= k <= width,
                s@ == before + Seq::new((k - len) as nat, |i: int| '0'),
            decreases width - k,
        {
            push_char(s, '0');
            k = k + 1;
            assert(Seq::new((k - len) as nat, |i: int| '0') =~= Seq::new(
                (k - 1 - len) as nat,
                |i: int| '0',
            ).push('0'));
        }
    }
    let ghost mid = s@;
    let mut k: usize = 0;
    while k < len
        invariant
            len == digits@.len(),
            k <= len,
            s@ == mid + digits@.take(k as int),
        decreases len - k,
    {
        push_char(s, digits[k]);
        k = k + 1;
        assert(digits@.take(k as int) =~= digits@.take(k - 1).push(digits@[k - 1]));
    }
    assert(digits@.take(len as int) =~= digits@);
    if len < width {
        assert(before + Seq::new((width - len) as nat, |i: int| '0') + digits@ =~= before + (Seq::new(
            (width - len) as nat,
            |i: int| '0',
        ) + digits@));
    } else {
        assert(mid == before);
    }
}

/// The value of a string of decimal digits (most significant first).
pub open spec fn digits_value(digits: Seq<char>) -> nat
    decreases digits.len(),
{
    if digits.len() == 0 {
        0
    } else {
        digits_value(digits.drop_last()) * 10 + (digits.last() as u32 - '0' as u32) as nat
    }
}

proof fn lemma_decimal_value(n: nat)
    ensures
        digits_value(decimal(n)) == n,
        decimal(n).len() >= 1,
        forall|i: int| 0 <= i < decimal(n).len() ==> '0' <= #[trigger] decimal(n)[i] <= '9',
    decreases n,
{
    if n < 10 {
        assert(decimal(n).drop_last() =~= Seq::<char>::empty());
        assert(digits_value(decimal(n).drop_last()) == 0);
        assert((digit_char(n) as u32 - '0' as u32) as nat == n);
        assert(digits_value(decimal(n)) == digits_value(decimal(n).drop_last()) * 10 + (decimal(
            n,
        ).last() as u32 - '0' as u32) as nat);
    }
    if n >= 10 {
        lemma_decimal_value(n / 10);
        let d = decimal(n);
        assert(d.drop_last() =~= decimal(n / 10));
        assert(d.last() == digit_char(n % 10));
        assert((digit_char(n % 10) as u32 - '0' as u32) as nat == n % 10);
        assert((n / 10) * 10 + n % 10 == n);
        assert(digits_value(d) == digits_value(d.drop_last()) * 10 + (d.last() as u32
            - '0' as u32) as nat);
        assert forall|i: int| 0 <= i < d.len() implies '0' <= #[trigger] d[i] <= '9' by {
            if i < d.len() - 1 {
                assert(d[i] == decimal(n / 10)[i]);
            }
        }
    }
}

proof fn lemma_leading_zeros_value(z: Seq<char>, b: Seq<char>)
    requires
        forall|i: int| 0 <= i < z.len() ==> #[trigger] z[i] == '0',
    ensures
        digits_value(z + b) == digits_value(b),
    decreases b.len(),
{
    if b.len() == 0 {
        assert(z + b =~= z);
        lemma_zeros_value(z);
    } else {
        lemma_leading_zeros_value(z, b.drop_last());
        assert((z + b).drop_last() =~= z + b.drop_last());
        assert((z + b).last() == b.last());
    }
}

proof fn lemma_zeros_value(z: Seq<char>)
    requires
        forall|i: int| 0 <= i < z.len() ==> #[trigger] z[i] == '0',
    ensures
        digits_value(z) == 0,
    decreases z.len(),
{
    if z.len() > 0 {
        assert forall|i: int| 0 <= i < z.drop_last().len() implies #[trigger] z.drop_last()[i]
            == '0' by {
            assert(z.drop_last()[i] == z[i]);
        }
        lemma_zeros_value(z.drop_last());
    }
}

/// Zero padding writes the number it is given: decimal digits only, at
/// least `width` of them, whose value is `n`.
pub proof fn law_zero_padded_value(n: nat, width: nat)
    ensures
        digits_value(zero_padded(n, width)) == n,
        zero_padded(n, width).len() >= width,
        zero_padded(n, width).len() >= 1,
        forall|i: int|
            0 <= i < zero_padded(n, width).len() ==> '0' <= #[trigger] zero_padded(n, width)[i] <= '9',
{
    lemma_decimal_value(n);
    let d = decimal(n);
    if d.len() < width {
        let z = Seq::new((width - d.len()) as nat, |i: int| '0');
        lemma_leading_zeros_value(z, d);
        let p = zero_padded(n, width);
        assert(p == z + d);
        assert forall|i: int| 0 <= i < p.len() implies '0' <= #[trigger] p[i] <= '9' by {
            if i >= z.len() {
                assert(p[i] == d[i - z.len()]);
            }
        }
    }
}

} // verus!
