//! Characters and strings.

use vstd::prelude::*;
use vstd::string::StringExecFns;
use vstd::utf8::encode_utf8;

verus! {

/// `String::push` appends one character.
pub assume_specification[ String::push ](s: &mut String, c: char)
    ensures
        final(s)@ == old(s)@.push(c),
;

/// The characters of `s`.
pub fn chars_of(s: &str) -> (v: Vec<char>)
    ensures
        v@ == s@,
{
    let mut v: Vec<char> = Vec::new();
    for c in it: s.chars()
        invariant
            v@ == it.seq().take(it.index() as int),
            it.seq() == s@,
    {
        v.push(c);
    }
    assert(v@ =~= s@);
    v
}

/// The Unicode `White_Space` characters.
pub open spec fn white_space(c: char) -> bool {
    ||| '\u{9}' <= c <= '\u{d}'
    ||| c == '\u{20}'
    ||| c == '\u{85}'
    ||| c == '\u{a0}'
    ||| c == '\u{1680}'
    ||| '\u{2000}' <= c <= '\u{200a}'
    ||| c == '\u{2028}'
    ||| c == '\u{2029}'
    ||| c == '\u{202f}'
    ||| c == '\u{205f}'
    ||| c == '\u{3000}'
}

pub fn is_white_space(c: char) -> (b: bool)
    ensures
        b == white_space(c),
{
    ('\u{9}' <= c && c <= '\u{d}') || c == '\u{20}' || c == '\u{85}' || c == '\u{a0}' || c
        == '\u{1680}' || ('\u{2000}' <= c && c <= '\u{200a}') || c == '\u{2028}' || c
        == '\u{2029}' || c == '\u{202f}' || c == '\u{205f}' || c == '\u{3000}'
}

/// `s` without the white space at its start.
pub open spec fn trim_start(s: Seq<char>) -> Seq<char>
    decreases s.len(),
{
    if s.len() > 0 && white_space(s[0]) {
        trim_start(s.skip(1))
    } else {
        s
    }
}

/// `s` without the white space at its end.
pub open spec fn trim_end(s: Seq<char>) -> Seq<char>
    decreases s.len(),
{
    if s.len() > 0 && white_space(s.last()) {
        trim_end(s.drop_last())
    } else {
        s
    }
}

/// `s` without the copies of `c` at its start.
pub open spec fn strip_start(s: Seq<char>, c: char) -> Seq<char>
    decreases s.len(),
{
    if s.len() > 0 && s[0] == c {
        strip_start(s.skip(1), c)
    } else {
        s
    }
}

/// The lower-case form of an ASCII letter; any other character is kept.
pub open spec fn ascii_lower(c: char) -> char {
    if 'A' <= c <= 'Z' {
        (c as u32 + 32) as char
    } else {
        c
    }
}

pub fn to_ascii_lower(c: char) -> (l: char)
    ensures
        l == ascii_lower(c),
{
    if 'A' <= c && c <= 'Z' {
        ((c as u32 as u8) + 32) as char
    } else {
        c
    }
}

/// `s` with its ASCII letters in lower case.
pub open spec fn lowercase(s: Seq<char>) -> Seq<char> {
    Seq::new(s.len(), |i: int| ascii_lower(s[i]))
}

/// Whether `s` is `name` once its ASCII letters are in lower case.
pub fn lowers_to(s: &str, name: &str) -> (r: bool)
    ensures
        r == (lowercase(s@) == name@),
{
    let x: Vec<char> = chars_of(s);
    let y: Vec<char> = chars_of(name);
    if x.len() != y.len() {
        return false;
    }
    let mut i: usize = 0;
    while i < x.len()
        invariant
            i <= x@.len(),
            x@ == s@,
            y@ == name@,
            x@.len() == y@.len(),
            forall|j: int| 0 <= j < i ==> #[trigger] lowercase(s@)[j] == name@[j],
        decreases x@.len() - i,
    {
        if to_ascii_lower(x[i]) != y[i] {
            assert(lowercase(s@)[i as int] != name@[i as int]);
            return false;
        }
        i = i + 1;
    }
    assert(lowercase(s@) =~= name@);
    true
}

// ---- Decimal numbers ----------------------------------------------------

/// The decimal digit `d`.
pub open spec fn digit(d: int) -> char {
    (d + 48) as char
}

/// `n` in decimal notation, without leading zeros.
pub open spec fn decimal(n: nat) -> Seq<char>
    decreases n,
{
    if n < 10 {
        seq![digit(n as int)]
    } else {
        decimal(n / 10).push(digit((n % 10) as int))
    }
}

pub fn digit_char(d: u64) -> (c: char)
    requires
        d < 10,
    ensures
        c == digit(d as int),
{
    (d as u8 + 48) as char
}

/// Append `n` in decimal notation.
pub fn push_decimal(s: &mut String, n: u64)
    ensures
        final(s)@ == old(s)@ + decimal(n as nat),
    decreases n,
{
    let ghost s0 = s@;
    if n < 10 {
        s.push(digit_char(n));
        assert(s@ =~= s0 + decimal(n as nat));
    } else {
        push_decimal(s, n / 10);
        s.push(digit_char(n % 10));
        assert(s@ =~= s0 + decimal(n as nat));
    }
}

/// Append `other`.
pub fn push_text(s: &mut String, other: &str)
    ensures
        final(s)@ == old(s)@ + other@,
{
    s.append(other);
}

/// Append `n` in decimal notation.
pub fn push_natural(s: &mut String, n: u128)
    ensures
        final(s)@ == old(s)@ + decimal(n as nat),
    decreases n,
{
    let ghost s0 = s@;
    if n < 10 {
        s.push(digit_char(n as u64));
        assert(s@ =~= s0 + decimal(n as nat));
    } else {
        push_natural(s, n / 10);
        s.push(digit_char((n % 10) as u64));
        assert(s@ =~= s0 + decimal(n as nat));
    }
}

/// `n` without its last `k` digits.
pub open spec fn dropped(n: nat, k: nat) -> nat
    decreases k,
{
    if k == 0 {
        n
    } else {
        dropped(n / 10, (k - 1) as nat)
    }
}

/// The last `k` digits of `n`, with leading zeros.
pub open spec fn last_digits(n: nat, k: nat) -> Seq<char>
    decreases k,
{
    if k == 0 {
        seq![]
    } else {
        last_digits(n / 10, (k - 1) as nat).push(digit((n % 10) as int))
    }
}

pub proof fn lemma_last_digits_len(n: nat, k: nat)
    ensures
        last_digits(n, k).len() == k,
    decreases k,
{
    if k > 0 {
        lemma_last_digits_len(n / 10, (k - 1) as nat);
    }
}

pub proof fn lemma_last_digits_digits(n: nat, k: nat)
    ensures
        forall|i: int|
            0 <= i < last_digits(n, k).len() ==> '0' <= #[trigger] last_digits(n, k)[i] <= '9',
    decreases k,
{
    if k > 0 {
        let before = last_digits(n / 10, (k - 1) as nat);
        lemma_last_digits_digits(n / 10, (k - 1) as nat);
        assert forall|i: int| 0 <= i < last_digits(n, k).len() implies '0' <= #[trigger] last_digits(
            n,
            k,
        )[i] <= '9' by {
            assert(last_digits(n, k) == before.push(digit((n % 10) as int)));
            if i < before.len() {
                assert(last_digits(n, k)[i] == before[i]);
            }
        }
    }
}

/// Append the last `k` digits of `n`.
pub fn push_last_digits(s: &mut String, n: u128, k: u32)
    ensures
        final(s)@ == old(s)@ + last_digits(n as nat, k as nat),
{
    let ghost s0 = s@;
    let mut digits: Vec<char> = Vec::new();
    let mut rest: u128 = n;
    let mut i: u32 = 0;
    while i < k
        invariant
            i <= k,
            digits@.len() == i,
            last_digits(n as nat, k as nat) == last_digits(rest as nat, (k - i) as nat)
                + digits@.reverse(),
        decreases k - i,
    {
        let ghost before = digits@;
        let ghost rest0 = rest as nat;
        digits.push(digit_char((rest % 10) as u64));
        rest = rest / 10;
        proof {
            let left = (k - i) as nat;
            assert(last_digits(rest0, left) == last_digits(rest0 / 10, (left - 1) as nat).push(
                digit((rest0 % 10) as int),
            ));
            assert(last_digits(rest as nat, (left - 1) as nat) + digits@.reverse()
                =~= last_digits(rest0, left) + before.reverse());
        }
        i = i + 1;
    }
    assert(last_digits(n as nat, k as nat) =~= digits@.reverse());
    let mut j: u32 = k;
    while j > 0
        invariant
            j <= k,
            digits@.len() == k,
            s@ == s0 + digits@.reverse().take(k - j),
        decreases j,
    {
        s.push(digits[(j - 1) as usize]);
        assert(digits@.reverse().take(k - j + 1) =~= digits@.reverse().take(k - j).push(
            digits@[j - 1],
        ));
        j = j - 1;
    }
    assert(digits@.reverse().take(k as int) =~= digits@.reverse());
}

/// Decimal notation holds digits only, and at least one.
pub proof fn lemma_decimal_digits(n: nat)
    ensures
        decimal(n).len() > 0,
        forall|i: int| 0 <= i < decimal(n).len() ==> '0' <= #[trigger] decimal(n)[i] <= '9',
    decreases n,
{
    if n >= 10 {
        lemma_decimal_digits(n / 10);
    }
}

/// Append the UTF-8 bytes of `s`.
pub fn push_bytes(out: &mut Vec<u8>, s: &str)
    ensures
        final(out)@ == old(out)@ + encode_utf8(s@),
{
    let ghost out0 = out@;
    let bytes: &[u8] = s.as_bytes();
    let mut i: usize = 0;
    while i < bytes.len()
        invariant
            i <= bytes@.len(),
            bytes@ == encode_utf8(s@),
            out@ == out0 + bytes@.take(i as int),
        decreases bytes@.len() - i,
    {
        out.push(bytes[i]);
        assert(bytes@.take(i + 1) =~= bytes@.take(i as int).push(bytes@[i as int]));
        i = i + 1;
    }
    assert(bytes@.take(i as int) =~= bytes@);
}

} // verus!
