//! Decimal rendering of counts, and right-alignment in a column.
use vstd::prelude::*;

verus! {

/// The text of one decimal digit.
pub open spec fn digit_text(d: nat) -> Seq<char> {
    if d == 0 {
        "0"@
    } else if d == 1 {
        "1"@
    } else if d == 2 {
        "2"@
    } else if d == 3 {
        "3"@
    } else if d == 4 {
        "4"@
    } else if d == 5 {
        "5"@
    } else if d == 6 {
        "6"@
    } else if d == 7 {
        "7"@
    } else if d == 8 {
        "8"@
    } else {
        "9"@
    }
}

/// The decimal text of `n`, as `{}` formats an unsigned integer.
pub open spec fn decimal_text(n: nat) -> Seq<char>
    decreases n,
{
    if n < 10 {
        digit_text(n)
    } else {
        decimal_text(n / 10) + digit_text(n % 10)
    }
}

/// The number of digits of `n`.
pub open spec fn decimal_digits(n: nat) -> nat
    decreases n,
{
    if n < 10 {
        1
    } else {
        decimal_digits(n / 10) + 1
    }
}

/// `k` spaces.
pub open spec fn spaces(k: nat) -> Seq<char>
    decreases k,
{
    if k == 0 {
        Seq::empty()
    } else {
        spaces((k - 1) as nat) + " "@
    }
}

/// `s` right-aligned in a column `width` characters wide, as `{:>width$}`
/// does: spaces in front when `s` is shorter, `s` itself otherwise.
pub open spec fn pad_left(s: Seq<char>, width: nat) -> Seq<char> {
    if s.len() < width {
        spaces((width - s.len()) as nat) + s
    } else {
        s
    }
}

/// A decimal digit character, `'0'` (code 48) to `'9'` (code 57).
pub open spec fn is_digit_char(c: char) -> bool {
    48 <= c as u32 <= 57
}

/// The number that a string of decimal digits denotes, read most
/// significant digit first.
pub open spec fn digits_value(s: Seq<char>) -> int
    decreases s.len(),
{
    if s.len() == 0 {
        0
    } else {
        digits_value(s.drop_last()) * 10 + (s.last() as u32 - 48)
    }
}

/// The text of digit `d` is the single character with code `48 + d`.
pub proof fn lemma_digit_text_code(d: nat)
    requires
        d < 10,
    ensures
        digit_text(d).len() == 1,
        digit_text(d)[0] as u32 == 48 + d,
{
    reveal_strlit("0");
    reveal_strlit("1");
    reveal_strlit("2");
    reveal_strlit("3");
    reveal_strlit("4");
    reveal_strlit("5");
    reveal_strlit("6");
    reveal_strlit("7");
    reveal_strlit("8");
    reveal_strlit("9");
}

/// The decimal text of `n` is a numeral for `n`: decimal digits only, no
/// leading zero, and read back in base 10 it gives `n`.
pub proof fn lemma_decimal_text_denotes(n: nat)
    ensures
        decimal_text(n).len() > 0,
        forall|i: int| 0 <= i < decimal_text(n).len() ==> is_digit_char(#[trigger] decimal_text(n)[i]),
        digits_value(decimal_text(n)) == n,
        n > 0 ==> decimal_text(n)[0] as u32 != 48,
    decreases n,
{
    let d = n % 10;
    lemma_digit_text_code(d);
    if n < 10 {
        let s = decimal_text(n);
        assert(s.drop_last() =~= Seq::<char>::empty());
        assert(digits_value(s.drop_last()) == 0);
        assert(s.last() == s[0]);
        assert(s[0] as u32 == 48 + n);
        assert(digits_value(s) == n);
    } else {
        lemma_decimal_text_denotes(n / 10);
        let t = decimal_text(n / 10);
        let s = decimal_text(n);
        assert(s == t + digit_text(d));
        assert(s.drop_last() =~= t);
        assert(s.last() == digit_text(d)[0]);
        assert forall|i: int| 0 <= i < s.len() implies is_digit_char(#[trigger] s[i]) by {
            if i < t.len() {
                assert(s[i] == t[i]);
            }
        }
        assert(s[0] == t[0]);
        assert(digits_value(s) == digits_value(t) * 10 + d);
        assert((n / 10) * 10 + n % 10 == n) by (nonlinear_arith);
    }
}

/// `spaces(k)` is `k` space characters (code 32).
pub proof fn lemma_spaces(k: nat)
    ensures
        spaces(k).len() == k,
        forall|i: int| 0 <= i < k ==> #[trigger] spaces(k)[i] as u32 == 32,
    decreases k,
{
    reveal_strlit(" ");
    if k > 0 {
        lemma_spaces((k - 1) as nat);
        assert forall|i: int| 0 <= i < k implies #[trigger] spaces(k)[i] as u32 == 32 by {
            if i < k - 1 {
                assert(spaces(k)[i] == spaces((k - 1) as nat)[i]);
            }
        }
    }
}

/// Right-alignment keeps the text at the end and fills the front with
/// spaces up to the width; text at least as wide is left as it is.
pub proof fn lemma_pad_left(s: Seq<char>, width: nat)
    ensures
        pad_left(s, width).len() == if s.len() < width {
            width
        } else {
            s.len()
        },
        pad_left(s, width).subrange(pad_left(s, width).len() - s.len(), pad_left(s, width).len() as int)
            == s,
        forall|i: int|
            0 <= i < pad_left(s, width).len() - s.len() ==> #[trigger] pad_left(s, width)[i] as u32 == 32,
{
    if s.len() < width {
        let k = (width - s.len()) as nat;
        lemma_spaces(k);
        let p = pad_left(s, width);
        assert(p.subrange(k as int, p.len() as int) =~= s);
        assert forall|i: int| 0 <= i < k implies #[trigger] p[i] as u32 == 32 by {
            assert(p[i] == spaces(k)[i]);
        }
    } else {
        assert(s.subrange(0, s.len() as int) =~= s);
    }
}

/// Each digit is one character.
pub proof fn lemma_digit_text_len(d: nat)
    requires
        d < 10,
    ensures
        digit_text(d).len() == 1,
{
    reveal_strlit("0");
    reveal_strlit("1");
    reveal_strlit("2");
    reveal_strlit("3");
    reveal_strlit("4");
    reveal_strlit("5");
    reveal_strlit("6");
    reveal_strlit("7");
    reveal_strlit("8");
    reveal_strlit("9");
}

/// The decimal text of `n` has one character per digit.
pub proof fn lemma_decimal_text_len(n: nat)
    ensures
        decimal_text(n).len() == decimal_digits(n),
    decreases n,
{
    lemma_digit_text_len(n % 10);
    if n >= 10 {
        lemma_decimal_text_len(n / 10);
    }
}

/// A `usize` has at most twenty digits.
proof fn lemma_decimal_digits_bound(n: nat)
    ensures
        decimal_digits(n) <= 1 + n,
    decreases n,
{
    if n >= 10 {
        lemma_decimal_digits_bound(n / 10);
    }
}

/// Appends the text of digit `d`.
fn push_digit(out: &mut String, d: usize)
    requires
        d < 10,
    ensures
        final(out)@ == old(out)@ + digit_text(d as nat),
{
    if d == 0 {
        out.append("0");
    } else if d == 1 {
        out.append("1");
    } else if d == 2 {
        out.append("2");
    } else if d == 3 {
        out.append("3");
    } else if d == 4 {
        out.append("4");
    } else if d == 5 {
        out.append("5");
    } else if d == 6 {
        out.append("6");
    } else if d == 7 {
        out.append("7");
    } else if d == 8 {
        out.append("8");
    } else {
        out.append("9");
    }
}

/// Appends the decimal text of `n`.
pub fn push_decimal(out: &mut String, n: usize)
    ensures
        final(out)@ == old(out)@ + decimal_text(n as nat),
    decreases n,
{
    if n >= 10 {
        push_decimal(out, n / 10);
        push_digit(out, n % 10);
        assert(final(out)@ =~= old(out)@ + decimal_text(n as nat));
    } else {
        push_digit(out, n);
    }
}

/// The number of digits of `n`.
pub fn decimal_len(n: usize) -> (r: usize)
    ensures
        r == decimal_text(n as nat).len(),
    decreases n,
{
    proof {
        lemma_decimal_text_len(n as nat);
        lemma_decimal_digits_bound(n as nat);
    }
    if n >= 10 {
        let r = decimal_len(n / 10);
        proof {
            lemma_decimal_text_len((n / 10) as nat);
            lemma_decimal_digits_bound((n / 10) as nat);
        }
        r + 1
    } else {
        1
    }
}

/// Appends `k` spaces.
pub fn push_spaces(out: &mut String, k: usize)
    ensures
        final(out)@ == old(out)@ + spaces(k as nat),
{
    let ghost start = out@;
    let mut i: usize = 0;
    while i < k
        invariant
            i <= k,
            out@ == start + spaces(i as nat),
        decreases k - i,
    {
        out.append(" ");
        i = i + 1;
        assert(out@ =~= start + spaces(i as nat));
    }
}

/// Appends the decimal text of `n` right-aligned in a column `width`
/// characters wide.
pub fn push_decimal_padded(out: &mut String, n: usize, width: usize)
    ensures
        final(out)@ == old(out)@ + pad_left(decimal_text(n as nat), width as nat),
{
    let len = decimal_len(n);
    if len < width {
        push_spaces(out, width - len);
    }
    push_decimal(out, n);
    assert(final(out)@ =~= old(out)@ + pad_left(decimal_text(n as nat), width as nat));
}

} // verus!
