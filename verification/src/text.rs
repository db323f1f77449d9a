//! Character-level helpers shared by the encoder and the decoder:
//! conversions between `String` and `Vec<char>`, character classification,
//! and decimal formatting/parsing for the integer number variants.

use vstd::prelude::*;
use vstd::string::StrSliceExecFns;

verus! {

/// The Unicode whitespace characters, as `char::is_whitespace` recognises
/// them (the `White_Space` property).
pub open spec fn is_space_char(c: char) -> bool {
    c == ' ' || c == '\t' || c == '\n' || c == '\r' || c == '\u{b}' || c == '\u{c}'
        || c == '\u{85}' || c == '\u{a0}' || c == '\u{1680}'
        || ('\u{2000}' <= c && c <= '\u{200a}')
        || c == '\u{2028}' || c == '\u{2029}' || c == '\u{202f}' || c == '\u{205f}'
        || c == '\u{3000}'
}

/// Executable test for [`is_space_char`].
pub fn ws(c: char) -> (r: bool)
    ensures
        r == is_space_char(c),
{
    c == ' ' || c == '\t' || c == '\n' || c == '\r' || c == '\u{b}' || c == '\u{c}'
        || c == '\u{85}' || c == '\u{a0}' || c == '\u{1680}'
        || ('\u{2000}' <= c && c <= '\u{200a}')
        || c == '\u{2028}' || c == '\u{2029}' || c == '\u{202f}' || c == '\u{205f}'
        || c == '\u{3000}'
}

/// An ASCII decimal digit.
pub open spec fn is_digit(c: char) -> bool {
    '0' <= c && c <= '9'
}

/// Executable test for [`is_digit`].
pub fn digit(c: char) -> (r: bool)
    ensures
        r == is_digit(c),
{
    '0' <= c && c <= '9'
}

/// Numeric value of an ASCII digit character.
pub open spec fn digit_val(c: char) -> nat {
    (c as u32 - '0' as u32) as nat
}

/// An ASCII letter.
pub open spec fn is_alpha(c: char) -> bool {
    ('a' <= c && c <= 'z') || ('A' <= c && c <= 'Z')
}

/// Executable test for [`is_alpha`].
pub fn alpha(c: char) -> (r: bool)
    ensures
        r == is_alpha(c),
{
    ('a' <= c && c <= 'z') || ('A' <= c && c <= 'Z')
}

/// Every character of `s` is an ASCII digit.
pub open spec fn all_digits(s: Seq<char>) -> bool {
    forall|i: int| 0 <= i < s.len() ==> is_digit(#[trigger] s[i])
}

/// Value of a sequence of ASCII digits read as a decimal numeral.
pub open spec fn dec_val(s: Seq<char>) -> nat
    decreases s.len(),
{
    if s.len() == 0 {
        0
    } else {
        dec_val(s.drop_last()) * 10 + digit_val(s.last())
    }
}

/// Decimal numeral (without sign and without leading zeros) of `n`.
pub open spec fn dec_of(n: nat) -> Seq<char>
    decreases n,
{
    if n < 10 {
        seq![digit_char(n)]
    } else {
        dec_of(n / 10).push(digit_char(n % 10))
    }
}

/// The digit character for a value below ten.
pub open spec fn digit_char(n: nat) -> char {
    if n == 0 {
        '0'
    } else if n == 1 {
        '1'
    } else if n == 2 {
        '2'
    } else if n == 3 {
        '3'
    } else if n == 4 {
        '4'
    } else if n == 5 {
        '5'
    } else if n == 6 {
        '6'
    } else if n == 7 {
        '7'
    } else if n == 8 {
        '8'
    } else {
        '9'
    }
}

/// Decimal numeral of a signed 64-bit integer: a minus sign for negative
/// values, then the numeral of the magnitude.
pub open spec fn dec_of_i64(n: i64) -> Seq<char> {
    if n >= 0 {
        dec_of(n as nat)
    } else {
        seq!['-'] + dec_of((-(n as int)) as nat)
    }
}

/// The digit characters are exactly the values below ten.
pub proof fn lemma_digit_char_val(n: nat)
    requires
        n < 10,
    ensures
        is_digit(digit_char(n)),
        digit_val(digit_char(n)) == n,
{
}

/// A numeral produced by [`dec_of`] consists of digits, is non-empty, reads
/// back as the number it was made from, and starts with `'0'` only for zero.
pub proof fn lemma_dec_of(n: nat)
    ensures
        all_digits(dec_of(n)),
        dec_of(n).len() >= 1,
        dec_val(dec_of(n)) == n,
        dec_of(n)[0] == '0' <==> n == 0,
    decreases n,
{
    if n < 10 {
        lemma_digit_char_val(n);
        let s = dec_of(n);
        assert(s =~= seq![digit_char(n)]);
        assert(s.drop_last() =~= Seq::<char>::empty());
        assert(s.last() == digit_char(n));
        assert(dec_val(s) == dec_val(s.drop_last()) * 10 + digit_val(s.last()));
        assert(dec_val(s.drop_last()) == 0);
        assert(dec_val(s) == n);
    } else {
        lemma_dec_of(n / 10);
        lemma_digit_char_val(n % 10);
        let s = dec_of(n);
        assert(s =~= dec_of(n / 10).push(digit_char(n % 10)));
        assert(s.drop_last() =~= dec_of(n / 10));
        assert(s.last() == digit_char(n % 10));
        assert(dec_val(s) == dec_val(dec_of(n / 10)) * 10 + digit_val(digit_char(n % 10)));
        assert(dec_val(s) == (n / 10) * 10 + n % 10);
        assert((n / 10) * 10 + n % 10 == n) by (nonlinear_arith);
        assert(s[0] == dec_of(n / 10)[0]);
    }
}

/// Longer digit prefixes never read as smaller numbers.
pub proof fn lemma_dec_val_prefix(s: Seq<char>, i: int, j: int)
    requires
        0 <= i <= j <= s.len(),
    ensures
        dec_val(s.subrange(0, i)) <= dec_val(s.subrange(0, j)),
    decreases j - i,
{
    if i < j {
        lemma_dec_val_prefix(s, i, j - 1);
        let p = s.subrange(0, j);
        assert(p.drop_last() =~= s.subrange(0, j - 1));
        assert(dec_val(p) == dec_val(s.subrange(0, j - 1)) * 10 + digit_val(p.last()));
        assert(dec_val(s.subrange(0, j - 1)) * 10 >= dec_val(s.subrange(0, j - 1)))
            by (nonlinear_arith);
    }
}

} // verus!

verus! {

/// Executable digit-character test paired with [`digit_char`].
pub fn digit_to_char(n: u64) -> (c: char)
    requires
        n < 10,
    ensures
        c == digit_char(n as nat),
{
    if n == 0 {
        '0'
    } else if n == 1 {
        '1'
    } else if n == 2 {
        '2'
    } else if n == 3 {
        '3'
    } else if n == 4 {
        '4'
    } else if n == 5 {
        '5'
    } else if n == 6 {
        '6'
    } else if n == 7 {
        '7'
    } else if n == 8 {
        '8'
    } else {
        '9'
    }
}

/// Numeric value of a digit character.
pub fn digit_value(c: char) -> (d: u64)
    requires
        is_digit(c),
    ensures
        d as nat == digit_val(c),
        d < 10,
{
    ((c as u32) - ('0' as u32)) as u64
}

/// Formats an unsigned 64-bit integer as its decimal numeral.
pub fn fmt_u64(n: u64) -> (r: Vec<char>)
    ensures
        r@ == dec_of(n as nat),
    decreases n,
{
    if n < 10 {
        let mut v: Vec<char> = Vec::new();
        v.push(digit_to_char(n));
        proof {
            assert(v@ =~= seq![digit_char(n as nat)]);
        }
        v
    } else {
        let mut v = fmt_u64(n / 10);
        v.push(digit_to_char(n % 10));
        v
    }
}

/// Formats a signed 64-bit integer as its decimal numeral.
pub fn fmt_i64(n: i64) -> (r: Vec<char>)
    ensures
        r@ == dec_of_i64(n),
{
    if n >= 0 {
        fmt_u64(n as u64)
    } else {
        let m: u64 = if n == i64::MIN {
            9223372036854775808u64
        } else {
            (-n) as u64
        };
        let mut v: Vec<char> = Vec::new();
        v.push('-');
        let mut digits = fmt_u64(m);
        v.append(&mut digits);
        proof {
            assert(v@ =~= seq!['-'] + dec_of((-(n as int)) as nat));
        }
        v
    }
}

/// Reads a non-empty sequence of digits as an unsigned 64-bit integer;
/// `None` exactly when the value does not fit.
pub fn parse_u64_digits(s: &Vec<char>) -> (r: Option<u64>)
    requires
        all_digits(s@),
        s@.len() >= 1,
    ensures
        match r {
            Some(v) => v as nat == dec_val(s@) && dec_val(s@) <= u64::MAX,
            None => dec_val(s@) > u64::MAX,
        },
{
    let mut acc: u64 = 0;
    let mut i: usize = 0;
    let n = s.len();
    while i < n
        invariant
            i <= n,
            n == s@.len(),
            all_digits(s@),
            acc as nat == dec_val(s@.subrange(0, i as int)),
        decreases n - i,
    {
        let d = digit_value(s[i]);
        if acc > (u64::MAX - d) / 10 {
            proof {
                let p = s@.subrange(0, i + 1);
                assert(p.drop_last() =~= s@.subrange(0, i as int));
                assert(acc as nat * 10 + d as nat > u64::MAX) by (nonlinear_arith)
                    requires
                        acc > (u64::MAX - d) / 10,
                        d < 10,
                ;
                assert(dec_val(p) > u64::MAX);
                lemma_dec_val_prefix(s@, i + 1, n as int);
                assert(s@.subrange(0, n as int) =~= s@);
            }
            return None;
        }
        proof {
            assert(acc as nat * 10 + d as nat <= u64::MAX) by (nonlinear_arith)
                requires
                    acc <= (u64::MAX - d) / 10,
                    d < 10,
            ;
            let p = s@.subrange(0, i + 1);
            assert(p.drop_last() =~= s@.subrange(0, i as int));
            assert(dec_val(p) == acc as nat * 10 + digit_val(s@[i as int]));
        }
        acc = acc * 10 + d;
        i = i + 1;
    }
    proof {
        assert(s@.subrange(0, n as int) =~= s@);
    }
    Some(acc)
}

/// Reads a non-empty sequence of digits as a `usize`; `None` exactly when
/// the value does not fit.
pub fn parse_usize_digits(s: &Vec<char>) -> (r: Option<usize>)
    requires
        all_digits(s@),
        s@.len() >= 1,
    ensures
        match r {
            Some(v) => v as nat == dec_val(s@) && dec_val(s@) <= usize::MAX,
            None => dec_val(s@) > usize::MAX,
        },
{
    match parse_u64_digits(s) {
        None => None,
        Some(v) => {
            if v <= usize::MAX as u64 {
                Some(v as usize)
            } else {
                None
            }
        },
    }
}

/// Copies the characters of `v` between `from` (inclusive) and `to`
/// (exclusive).
pub fn subvec(v: &Vec<char>, from: usize, to: usize) -> (r: Vec<char>)
    requires
        from <= to <= v@.len(),
    ensures
        r@ == v@.subrange(from as int, to as int),
{
    let mut r: Vec<char> = Vec::new();
    let mut i: usize = from;
    while i < to
        invariant
            from <= i <= to <= v@.len(),
            r@ == v@.subrange(from as int, i as int),
        decreases to - i,
    {
        r.push(v[i]);
        i = i + 1;
        proof {
            assert(r@ =~= v@.subrange(from as int, i as int));
        }
    }
    r
}

/// Character-wise equality of a character vector and a string slice.
pub fn vec_eq_str(v: &Vec<char>, s: &str) -> (r: bool)
    ensures
        r == (v@ == s@),
{
    let n = s.unicode_len();
    if v.len() != n {
        proof {
            assert(v@ != s@);
        }
        return false;
    }
    let mut i: usize = 0;
    while i < n
        invariant
            i <= n,
            n == s@.len(),
            n == v@.len(),
            forall|j: int| 0 <= j < i ==> v@[j] == s@[j],
        decreases n - i,
    {
        if v[i] != s.get_char(i) {
            proof {
                assert(v@ != s@);
            }
            return false;
        }
        i = i + 1;
    }
    proof {
        assert(v@ =~= s@);
    }
    true
}

/// The characters that a byte sequence decodes to under UTF-8; a
/// function of the bytes alone.
pub uninterp spec fn chars_of_utf8(b: Seq<u8>) -> Seq<char>;

/// The UTF-8 encoding of a character sequence; a function of the
/// characters alone.
pub uninterp spec fn utf8_of(s: Seq<char>) -> Seq<u8>;

/// Relies on `str::from_utf8`: it succeeds exactly on valid UTF-8, and
/// the decoded text's characters depend on the bytes alone.
#[verifier::external_body]
pub(crate) fn bytes_to_str(v: &[u8]) -> (r: Option<&str>)
    ensures
        r matches Some(s) ==> s@ == chars_of_utf8(v@),
        (r is Some) == vstd::utf8::valid_utf8(v@),
{
    std::str::from_utf8(v).ok()
}

/// Relies on `str::as_bytes`: the UTF-8 encoding depends on the
/// characters alone.
#[verifier::external_body]
pub(crate) fn string_bytes(s: &String) -> (r: Vec<u8>)
    ensures
        r@ == utf8_of(s@),
{
    s.as_bytes().to_vec()
}

/// Collects the characters of a string slice.
pub fn str_to_chars(s: &str) -> (r: Vec<char>)
    ensures
        r@ == s@,
{
    let n = s.unicode_len();
    let mut r: Vec<char> = Vec::new();
    let mut i: usize = 0;
    while i < n
        invariant
            i <= n,
            n == s@.len(),
            r@ == s@.subrange(0, i as int),
        decreases n - i,
    {
        r.push(s.get_char(i));
        i = i + 1;
        proof {
            assert(r@ =~= s@.subrange(0, i as int));
        }
    }
    proof {
        assert(r@ =~= s@);
    }
    r
}

/// Relies on `String::push`: appends one character to the string.
#[verifier::external_body]
pub(crate) fn push_char(s: &mut String, c: char)
    ensures
        final(s)@ == old(s)@.push(c),
{
    s.push(c);
}

/// Builds a `String` from a sequence of characters.
pub fn chars_to_string(v: &Vec<char>) -> (r: String)
    ensures
        r@ == v@,
{
    let mut r = String::new();
    let mut i: usize = 0;
    while i < v.len()
        invariant
            i <= v@.len(),
            r@ == v@.subrange(0, i as int),
        decreases v@.len() - i,
    {
        push_char(&mut r, v[i]);
        i = i + 1;
        proof {
            assert(r@ =~= v@.subrange(0, i as int));
        }
    }
    proof {
        assert(r@ =~= v@);
    }
    r
}

/// Character-wise equality of two string slices.
pub fn str_eq(a: &str, b: &str) -> (r: bool)
    ensures
        r == (a@ == b@),
{
    let na = a.unicode_len();
    let nb = b.unicode_len();
    if na != nb {
        proof {
            assert(a@ != b@);
        }
        return false;
    }
    let mut i: usize = 0;
    while i < na
        invariant
            i <= na,
            na == a@.len(),
            na == b@.len(),
            forall|j: int| 0 <= j < i ==> a@[j] == b@[j],
        decreases na - i,
    {
        if a.get_char(i) != b.get_char(i) {
            proof {
                assert(a@ != b@);
            }
            return false;
        }
        i = i + 1;
    }
    proof {
        assert(a@ =~= b@);
    }
    true
}

} // verus!
