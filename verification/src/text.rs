//! Plain-text renderings of numbers: decimal and fixed-width lower-case hex.

use vstd::arithmetic::div_mod::{lemma_breakdown, lemma_div_denominator};
use vstd::arithmetic::power::pow;
use vstd::prelude::*;

verus! {

/// The decimal digit character for `d < 10`.
pub open spec fn digit_char(d: nat) -> char {
    ((48 + d) as u8) as char
}

/// The lower-case hex digit character for `d < 16`.
pub open spec fn hex_char(d: nat) -> char {
    if d < 10 {
        ((48 + d) as u8) as char
    } else {
        ((87 + d) as u8) as char
    }
}

/// Decimal representation of `n`, without leading zeros.
pub open spec fn decimal(n: nat) -> Seq<char>
    decreases n,
{
    if n < 10 {
        seq![digit_char(n)]
    } else {
        decimal(n / 10).push(digit_char(n % 10))
    }
}

/// The `count` lowest hex digits of `n`, most significant first.
pub open spec fn hex_digits(n: nat, count: nat) -> Seq<char>
    decreases count,
{
    if count == 0 {
        Seq::empty()
    } else {
        hex_digits(n / 16, (count - 1) as nat).push(hex_char(n % 16))
    }
}

/// A word as eight lower-case hex digits, zero-padded.
pub open spec fn hex_word(w: u32) -> Seq<char> {
    hex_digits(w as nat, 8)
}

/// Each word as eight lower-case hex digits on a line of its own.
pub open spec fn hex_lines(words: Seq<u32>) -> Seq<char>
    decreases words.len(),
{
    if words.len() == 0 {
        Seq::empty()
    } else {
        hex_lines(words.drop_last()) + hex_word(words.last()) + seq!['\n']
    }
}

/// The text of one lower-case hex digit `d < 16` (decimal digits included).
fn digit_text(d: u32) -> (s: &'static str)
    requires
        d < 16,
    ensures
        s@ == seq![hex_char(d as nat)],
{
    if d == 0 {
        proof {
            reveal_strlit("0");
        }
        "0"
    } else if d == 1 {
        proof {
            reveal_strlit("1");
        }
        "1"
    } else if d == 2 {
        proof {
            reveal_strlit("2");
        }
        "2"
    } else if d == 3 {
        proof {
            reveal_strlit("3");
        }
        "3"
    } else if d == 4 {
        proof {
            reveal_strlit("4");
        }
        "4"
    } else if d == 5 {
        proof {
            reveal_strlit("5");
        }
        "5"
    } else if d == 6 {
        proof {
            reveal_strlit("6");
        }
        "6"
    } else if d == 7 {
        proof {
            reveal_strlit("7");
        }
        "7"
    } else if d == 8 {
        proof {
            reveal_strlit("8");
        }
        "8"
    } else if d == 9 {
        proof {
            reveal_strlit("9");
        }
        "9"
    } else if d == 10 {
        proof {
            reveal_strlit("a");
        }
        "a"
    } else if d == 11 {
        proof {
            reveal_strlit("b");
        }
        "b"
    } else if d == 12 {
        proof {
            reveal_strlit("c");
        }
        "c"
    } else if d == 13 {
        proof {
            reveal_strlit("d");
        }
        "d"
    } else if d == 14 {
        proof {
            reveal_strlit("e");
        }
        "e"
    } else if d == 15 {
        proof {
            reveal_strlit("f");
        }
        "f"
    } else {
        proof {
            reveal_strlit("f");
        }
        "f"
    }
}

/// Appends the decimal digits of `n` to `out`.
pub(crate) fn push_decimal(n: usize, out: &mut String)
    ensures
        final(out)@ == old(out)@ + decimal(n as nat),
    decreases n,
{
    if n >= 10 {
        push_decimal(n / 10, out);
    }
    let d = (n % 10) as u32;
    assert(hex_char(d as nat) == digit_char(d as nat));
    out.append(digit_text(d));
    assert(out@ =~= old(out)@ + decimal(n as nat));
}

/// Appends the `count` lowest hex digits of `n` to `out`.
pub(crate) fn push_hex_digits(n: u32, count: usize, out: &mut String)
    ensures
        final(out)@ == old(out)@ + hex_digits(n as nat, count as nat),
    decreases count,
{
    if count == 0 {
        assert(out@ =~= old(out)@ + hex_digits(n as nat, 0));
        return ;
    }
    push_hex_digits(n / 16, count - 1, out);
    out.append(digit_text(n % 16));
    assert(out@ =~= old(out)@ + hex_digits(n as nat, count as nat));
}

/// Renders each word as eight lower-case hex digits followed by a newline.
pub(crate) fn hex_lines_text(words: &[u32]) -> (s: String)
    ensures
        s@ == hex_lines(words@),
{
    let mut out = String::new();
    let mut i: usize = 0;
    while i < words.len()
        invariant
            i <= words@.len(),
            out@ == hex_lines(words@.take(i as int)),
        decreases words@.len() - i,
    {
        push_hex_digits(words[i], 8, &mut out);
        proof {
            reveal_strlit("\n");
        }
        out.append("\n");
        assert(words@.take(i + 1).drop_last() =~= words@.take(i as int));
        i = i + 1;
        assert(out@ =~= hex_lines(words@.take(i as int)));
    }
    assert(words@.take(i as int) =~= words@);
    out
}

/// The decimal digit characters are `'0'` to `'9'`, in order.
pub proof fn lemma_digit_char_table(d: nat)
    requires
        d < 10,
    ensures
        digit_char(d) == "0123456789"@[d as int],
{
    reveal_strlit("0123456789");
}

/// The hex digit characters are `'0'` to `'9'` then lower-case `'a'` to `'f'`, in order.
pub proof fn lemma_hex_char_table(d: nat)
    requires
        d < 16,
    ensures
        hex_char(d) == "0123456789abcdef"@[d as int],
{
    reveal_strlit("0123456789abcdef");
}

/// `count` hex digits of `n` are `count` characters long, and the character `k`
/// places from the right is the lower-case hex digit of `(n / 16^k) % 16`.
pub proof fn lemma_hex_digits_positions(n: nat, count: nat)
    ensures
        hex_digits(n, count).len() == count,
        forall|k: nat|
            k < count ==> #[trigger] hex_digits(n, count)[count - 1 - k] == "0123456789abcdef"@[(n as int / pow(16, k)) % 16],
    decreases count,
{
    if count > 0 {
        lemma_hex_digits_positions(n / 16, (count - 1) as nat);
        assert forall|k: nat| k < count implies #[trigger] hex_digits(n, count)[count - 1 - k]
            == "0123456789abcdef"@[(n as int / pow(16, k)) % 16] by {
            reveal(pow);
            if k == 0 {
                lemma_hex_char_table(n % 16);
                assert(n as int / pow(16, 0) == n);
            } else {
                let j = (k - 1) as nat;
                assert(hex_digits(n, count)[count - 1 - k] == hex_digits(n / 16, (count - 1) as nat)[(
                count - 1) - 1 - j]);
                vstd::arithmetic::power::lemma_pow_positive(16, j);
                lemma_div_denominator(n as int, 16, pow(16, j));
                assert(pow(16, k) == 16 * pow(16, j));
            }
        }
    }
}

/// Equal runs of `count` hex digits come from numbers equal modulo `16^count`.
proof fn lemma_hex_digits_injective(n1: nat, n2: nat, count: nat)
    requires
        hex_digits(n1, count) == hex_digits(n2, count),
    ensures
        n1 as int % pow(16, count) == n2 as int % pow(16, count),
    decreases count,
{
    reveal(pow);
    if count == 0 {
        assert(pow(16, 0) == 1);
    } else {
        let c1 = (count - 1) as nat;
        let s1 = hex_digits(n1, count);
        let s2 = hex_digits(n2, count);
        assert(s1.drop_last() =~= hex_digits(n1 / 16, c1));
        assert(s2.drop_last() =~= hex_digits(n2 / 16, c1));
        lemma_hex_digits_injective(n1 / 16, n2 / 16, c1);
        lemma_hex_char_table(n1 % 16);
        lemma_hex_char_table(n2 % 16);
        reveal_strlit("0123456789abcdef");
        assert(s1.last() == hex_char(n1 % 16));
        assert(s2.last() == hex_char(n2 % 16));
        assert(n1 % 16 == n2 % 16);
        vstd::arithmetic::power::lemma_pow_positive(16, c1);
        lemma_breakdown(n1 as int, 16, pow(16, c1));
        lemma_breakdown(n2 as int, 16, pow(16, c1));
        assert(pow(16, count) == 16 * pow(16, c1));
    }
}

/// A word's hex text is eight characters, and different words have different texts:
/// the eight digits determine the word.
pub proof fn lemma_hex_word_injective(w1: u32, w2: u32)
    ensures
        hex_word(w1).len() == 8,
        hex_word(w1) == hex_word(w2) ==> w1 == w2,
{
    lemma_hex_digits_positions(w1 as nat, 8);
    if hex_word(w1) == hex_word(w2) {
        lemma_hex_digits_injective(w1 as nat, w2 as nat, 8);
        assert(pow(16, 8) == 0x1_0000_0000) by {
            reveal(pow);
            vstd::arithmetic::power::lemma_pow0(16);
            assert(pow(16, 1) == 16);
            assert(pow(16, 2) == 256);
            assert(pow(16, 3) == 4096);
            assert(pow(16, 4) == 65536);
            assert(pow(16, 5) == 1048576);
            assert(pow(16, 6) == 16777216);
            assert(pow(16, 7) == 268435456);
        }
    }
}

/// The hex text of `n` words is `9 * n` characters: for each word in order, its
/// eight hex digits and a newline.
pub proof fn lemma_hex_lines_layout(words: Seq<u32>)
    ensures
        hex_lines(words).len() == 9 * words.len(),
        forall|i: int|
            0 <= i < words.len() ==> #[trigger] hex_lines(words).subrange(9 * i, 9 * i + 9)
                == hex_word(words[i]).push('\n'),
    decreases words.len(),
{
    if words.len() > 0 {
        let init = words.drop_last();
        lemma_hex_lines_layout(init);
        lemma_hex_word_injective(words.last(), words.last());
        let n = words.len() - 1;
        assert forall|i: int| 0 <= i < words.len() implies #[trigger] hex_lines(words).subrange(
            9 * i,
            9 * i + 9,
        ) == hex_word(words[i]).push('\n') by {
            if i < n {
                assert(hex_lines(words).subrange(9 * i, 9 * i + 9) =~= hex_lines(init).subrange(
                    9 * i,
                    9 * i + 9,
                ));
                assert(init[i] == words[i]);
            } else {
                assert(hex_lines(words).subrange(9 * i, 9 * i + 9) =~= hex_word(words[i]).push(
                    '\n',
                ));
            }
        }
    }
}

/// The decimal text of `n` is its digits without leading zeros: the character `k`
/// places from the right is the digit of `(n / 10^k) % 10`, and its length `len` is
/// the one with `10^(len - 1) <= n < 10^len` (or `len == 1` for `n < 10`).
pub proof fn lemma_decimal_digits(n: nat)
    ensures
        decimal(n).len() >= 1,
        forall|k: nat|
            k < decimal(n).len() ==> #[trigger] decimal(n)[decimal(n).len() - 1 - k]
                == "0123456789"@[(n as int / pow(10, k)) % 10],
        n < pow(10, decimal(n).len()),
        decimal(n).len() > 1 ==> pow(10, (decimal(n).len() - 1) as nat) <= n,
    decreases n,
{
    reveal(pow);
    let s = decimal(n);
    if n < 10 {
        lemma_digit_char_table(n);
        assert(pow(10, 0) == 1);
        assert(pow(10, 1) == 10 * pow(10, 0));
    } else {
        let m = n / 10;
        lemma_decimal_digits(m);
        let t = decimal(m);
        let len = t.len();
        assert(s == t.push(digit_char(n % 10)));
        assert(pow(10, len + 1) == 10 * pow(10, len));
        assert(pow(10, len) == 10 * pow(10, (len - 1) as nat));
        assert(pow(10, 1) == 10 * pow(10, 0));
        assert forall|k: nat| k < s.len() implies #[trigger] s[s.len() - 1 - k] == "0123456789"@[(
        n as int / pow(10, k)) % 10] by {
            if k == 0 {
                lemma_digit_char_table(n % 10);
                assert(n as int / pow(10, 0) == n);
            } else {
                let j = (k - 1) as nat;
                assert(s[s.len() - 1 - k] == t[len - 1 - j]);
                vstd::arithmetic::power::lemma_pow_positive(10, j);
                lemma_div_denominator(n as int, 10, pow(10, j));
                assert(pow(10, k) == 10 * pow(10, j));
            }
        }
    }
}

} // verus!
