//! NewBase60: a base-60 positional numeral system over a fixed 60-character
//! alphabet, used for short, URL-safe, sortable textual identifiers.
//!
//! The alphabet is `0`-`9`, `A`-`Z` without `I` and `O`, `_`, and `a`-`z`
//! without `l`. Decoding accepts `I` and `l` as the digit 1 and `O` as the
//! digit 0 (visual-confusion aliases), and silently skips every other
//! character outside the alphabet.

use vstd::prelude::*;

verus! {

/// The digit value of a character, or -1 if the character is neither an
/// alphabet character nor one of the aliases `I`, `l`, `O`.
///
/// The value ranges follow the alphabet's layout: `I`, `O` and `l` are
/// missing from the letter runs and come back as aliases at the end.
pub open spec fn digit_of(c: char) -> int {
    if '0' <= c && c <= '9' {
        c as int - '0' as int
    } else if 'A' <= c && c <= 'H' {
        c as int - 'A' as int + 10
    } else if 'J' <= c && c <= 'N' {
        c as int - 'J' as int + 18
    } else if 'P' <= c && c <= 'Z' {
        c as int - 'P' as int + 23
    } else if c == '_' {
        34
    } else if 'a' <= c && c <= 'k' {
        c as int - 'a' as int + 35
    } else if 'm' <= c && c <= 'z' {
        c as int - 'm' as int + 46
    } else if c == 'I' || c == 'l' {
        1
    } else if c == 'O' {
        0
    } else {
        -1
    }
}

/// Whether a character carries a digit value when decoding (an alphabet
/// character or one of the aliases). Every other character is skipped.
pub open spec fn is_sxg_digit(c: char) -> bool {
    digit_of(c) >= 0
}

/// The alphabet character for a digit value in [0, 60).
pub open spec fn char_of_digit(d: int) -> char {
    if d <= 9 {
        (d + '0' as int) as char
    } else if d <= 17 {
        (d - 10 + 'A' as int) as char
    } else if d <= 22 {
        (d - 18 + 'J' as int) as char
    } else if d <= 33 {
        (d - 23 + 'P' as int) as char
    } else if d == 34 {
        '_'
    } else if d <= 45 {
        (d - 35 + 'a' as int) as char
    } else {
        (d - 46 + 'm' as int) as char
    }
}

/// The alphabet maps each digit value to a character that decodes back to
/// that very value; in particular the alphabet has no repeated characters.
pub proof fn lemma_digit_bijection(v: int)
    requires
        0 <= v < 60,
    ensures
        is_sxg_digit(char_of_digit(v)),
        digit_of(char_of_digit(v)) == v,
        spec_decode(seq![char_of_digit(v)]) == v,
{
    assert(seq![char_of_digit(v)].drop_last() =~= Seq::<char>::empty());
    assert(spec_decode(Seq::<char>::empty()) == 0);
}

/// The base-60 digit string of `n`, most-significant digit first: minimal
/// length, so no leading `0` except for `n == 0`, which is the single
/// character `0`.
pub open spec fn spec_encode(n: nat) -> Seq<char>
    decreases n,
{
    if n < 60 {
        seq![char_of_digit(n as int)]
    } else {
        spec_encode(n / 60).push(char_of_digit((n % 60) as int))
    }
}

/// The value of a character sequence read left to right: each digit or alias
/// character multiplies the total by 60 and adds its value, every other
/// character contributes nothing. The empty sequence has value 0.
pub open spec fn spec_decode(s: Seq<char>) -> nat
    decreases s.len(),
{
    if s.len() == 0 {
        0
    } else if is_sxg_digit(s.last()) {
        (spec_decode(s.drop_last()) * 60 + digit_of(s.last())) as nat
    } else {
        spec_decode(s.drop_last())
    }
}

/// The alphabet character for a digit value, as executable code.
fn char_of(d: u8) -> (c: char)
    requires
        d < 60,
    ensures
        c == char_of_digit(d as int),
{
    let b: u8 = if d <= 9 {
        d + '0' as u8
    } else if d <= 17 {
        d - 10 + 'A' as u8
    } else if d <= 22 {
        d - 18 + 'J' as u8
    } else if d <= 33 {
        d - 23 + 'P' as u8
    } else if d == 34 {
        '_' as u8
    } else if d <= 45 {
        d - 35 + 'a' as u8
    } else {
        d - 46 + 'm' as u8
    };
    b as char
}

/// The digit value of a character, as executable code: `None` exactly for
/// the characters that decoding skips.
fn digit_of_char(c: char) -> (r: Option<u8>)
    ensures
        match r {
            Some(d) => is_sxg_digit(c) && d == digit_of(c),
            None => !is_sxg_digit(c),
        },
{
    if '0' <= c && c <= '9' {
        Some((c as u32 - '0' as u32) as u8)
    } else if 'A' <= c && c <= 'H' {
        Some((c as u32 - 'A' as u32 + 10) as u8)
    } else if 'J' <= c && c <= 'N' {
        Some((c as u32 - 'J' as u32 + 18) as u8)
    } else if 'P' <= c && c <= 'Z' {
        Some((c as u32 - 'P' as u32 + 23) as u8)
    } else if c == '_' {
        Some(34)
    } else if 'a' <= c && c <= 'k' {
        Some((c as u32 - 'a' as u32 + 35) as u8)
    } else if 'm' <= c && c <= 'z' {
        Some((c as u32 - 'm' as u32 + 46) as u8)
    } else if c == 'I' || c == 'l' {
        Some(1)
    } else if c == 'O' {
        Some(0)
    } else {
        None
    }
}

/// Relies on String::push: appends the given character to the end of the
/// string, changing nothing else.
#[verifier::external_body]
fn push_char(s: &mut String, c: char)
    ensures
        final(s)@ == old(s)@.push(c),
{
    s.push(c);
}

/// Appends the digit string of `n` to `s`, most-significant digit first.
fn push_digits(n: u128, s: &mut String)
    ensures
        final(s)@ == old(s)@ + spec_encode(n as nat),
    decreases n,
{
    if n < 60 {
        push_char(s, char_of(n as u8));
        proof {
            assert(final(s)@ =~= old(s)@ + spec_encode(n as nat));
        }
    } else {
        push_digits(n / 60, s);
        push_char(s, char_of((n % 60) as u8));
        proof {
            assert(final(s)@ =~= old(s)@ + spec_encode(n as nat));
        }
    }
}

/// Decoding an encoded value gives the value back, for every `n`.
pub proof fn lemma_decode_of_encode(n: nat)
    ensures
        spec_decode(spec_encode(n)) == n,
    decreases n,
{
    if n < 60 {
        lemma_digit_bijection(n as int);
        assert(spec_encode(n).last() == char_of_digit(n as int));
        assert(spec_encode(n).drop_last() =~= Seq::<char>::empty());
        assert(spec_decode(Seq::<char>::empty()) == 0);
        assert(spec_decode(spec_encode(n)) == 0 * 60 + n);
    } else {
        lemma_decode_of_encode(n / 60);
        lemma_digit_bijection((n % 60) as int);
        assert(spec_encode(n).last() == char_of_digit((n % 60) as int));
        assert(spec_encode(n).drop_last() =~= spec_encode(n / 60));
        vstd::arithmetic::div_mod::lemma_fundamental_div_mod(n as int, 60);
        assert(spec_decode(spec_encode(n)) == (n / 60) * 60 + (n % 60));
    }
}

/// An encoded value is canonical: never empty, exactly `0` for zero, and
/// without a leading zero character otherwise.
pub proof fn lemma_encode_canonical(n: nat)
    ensures
        spec_encode(n).len() >= 1,
        n == 0 ==> spec_encode(n) =~= seq!['0'],
        n > 0 ==> spec_encode(n).first() != '0',
    decreases n,
{
    if n >= 60 {
        lemma_encode_canonical(n / 60);
    }
}

/// Convert a number into its New Base 60 representation.
///
/// The result is the minimal-length base-60 digit string of `n`,
/// most-significant digit first: `0` for zero, and otherwise a string with
/// no leading zero character that decodes back to `n`.
pub fn num_to_sxg(n: u128) -> (r: String)
    ensures
        r@ == spec_encode(n as nat),
        spec_decode(r@) == n as nat,
        r@.len() >= 1,
        n == 0 ==> r@ =~= seq!['0'],
        n != 0 ==> r@.first() != '0',
{
    let mut s = String::new();
    push_digits(n, &mut s);
    proof {
        assert(s@ =~= spec_encode(n as nat));
        lemma_decode_of_encode(n as nat);
        lemma_encode_canonical(n as nat);
    }
    s
}

/// One decoding step: the value of a prefix one character longer.
proof fn lemma_decode_take_step(s: Seq<char>, i: int)
    requires
        0 <= i < s.len(),
    ensures
        spec_decode(s.take(i + 1)) == if is_sxg_digit(s[i]) {
            (spec_decode(s.take(i)) * 60 + digit_of(s[i])) as nat
        } else {
            spec_decode(s.take(i))
        },
{
    assert(s.take(i + 1).last() == s[i]);
    assert(s.take(i + 1).drop_last() =~= s.take(i));
}

/// The value never shrinks as decoding walks the string: every prefix
/// decodes to at most the value of the whole.
proof fn lemma_decode_prefix_le(s: Seq<char>, i: int)
    requires
        0 <= i <= s.len(),
    ensures
        spec_decode(s.take(i)) <= spec_decode(s),
    decreases s.len() - i,
{
    if i == s.len() {
        assert(s.take(i) =~= s);
    } else {
        lemma_decode_take_step(s, i);
        lemma_decode_prefix_le(s, i + 1);
    }
}

/// Convert a string into the number it represents in New Base 60, dropping
/// invalid characters.
///
/// Characters outside the recognized set (the alphabet plus the aliases
/// `I`, `l`, `O`) are treated as if they did not exist; the empty string
/// evaluates to 0. Returns `None` exactly when the accumulated value does
/// not fit in a `u128`.
pub fn sxg_to_num(s: &str) -> (r: Option<u128>)
    ensures
        spec_decode(s@) <= u128::MAX ==> r == Some(spec_decode(s@) as u128),
        spec_decode(s@) > u128::MAX ==> r is None,
{
    let len: usize = s.unicode_len();
    let mut n: u128 = 0;
    let mut i: usize = 0;
    while i < len
        invariant
            i <= len,
            len == s@.len(),
            n as nat == spec_decode(s@.take(i as int)),
        decreases len - i,
    {
        let c = s.get_char(i);
        proof {
            lemma_decode_take_step(s@, i as int);
        }
        if let Some(d) = digit_of_char(c) {
            let m = match n.checked_mul(60) {
                Some(m) => m,
                None => {
                    proof {
                        lemma_decode_prefix_le(s@, i + 1);
                    }
                    return None;
                },
            };
            n = match m.checked_add(d as u128) {
                Some(v) => v,
                None => {
                    proof {
                        lemma_decode_prefix_le(s@, i + 1);
                    }
                    return None;
                },
            };
        }
        i += 1;
    }
    proof {
        assert(s@.take(len as int) =~= s@);
    }
    Some(n)
}

/// Inserting a character that decoding skips, anywhere in a string, does
/// not change the decoded value.
pub proof fn lemma_decode_ignores_skipped(s: Seq<char>, i: int, c: char)
    requires
        0 <= i <= s.len(),
        !is_sxg_digit(c),
    ensures
        spec_decode(s.insert(i, c)) == spec_decode(s),
    decreases s.len(),
{
    if i == s.len() {
        assert(s.insert(i, c).last() == c);
        assert(s.insert(i, c).drop_last() =~= s);
    } else {
        assert(s.insert(i, c).last() == s.last());
        assert(s.insert(i, c).drop_last() =~= s.drop_last().insert(i, c));
        lemma_decode_ignores_skipped(s.drop_last(), i, c);
    }
}

/// A character that the encoder itself can produce: an alphabet character,
/// as opposed to the aliases, which decode but are never encoded.
pub open spec fn is_canonical_digit(c: char) -> bool {
    is_sxg_digit(c) && char_of_digit(digit_of(c)) == c
}

/// Encoding a decoded value gives the string back, for canonical strings:
/// nonempty, made of alphabet characters only, and with no leading zero
/// unless the string is `0` itself. (On other strings decoding normalizes:
/// aliases collapse, skipped characters and leading zeros vanish.)
pub proof fn lemma_encode_of_decode(s: Seq<char>)
    requires
        1 <= s.len(),
        forall|j: int| 0 <= j < s.len() ==> is_canonical_digit(s[j]),
        s.len() > 1 ==> s[0] != '0',
    ensures
        spec_encode(spec_decode(s)) == s,
    decreases s.len(),
{
    let c = s.last();
    let d = digit_of(c);
    if s.len() == 1 {
        assert(s.drop_last() =~= Seq::<char>::empty());
        assert(spec_decode(Seq::<char>::empty()) == 0);
        assert(spec_encode(spec_decode(s)) =~= s);
    } else {
        let t = s.drop_last();
        assert(t[0] == s[0] && t[0] != '0');
        lemma_decode_take_step(t, 0);
        assert(t.take(0) =~= Seq::<char>::empty());
        assert(spec_decode(t.take(1)) == digit_of(t[0]));
        lemma_decode_prefix_le(t, 1);
        assert(spec_decode(t) >= 1);
        lemma_encode_of_decode(t);
        vstd::arithmetic::div_mod::lemma_fundamental_div_mod_converse(
            spec_decode(s) as int,
            60,
            spec_decode(t) as int,
            d,
        );
        assert(spec_encode(spec_decode(s)) =~= s);
    }
}

} // verus!
