//! The laws that relate the encoder and the decoder: minimal quoting,
//! determinism of the encoder, the escape/unescape inversion, protection
//! of quoted dotted keys from path expansion, and the round trip from
//! encoded text back to an equivalent value - proved for scalars, for
//! inline rows of primitives, and at the document level for primitive
//! roots and for root arrays of primitives.

use vstd::prelude::*;

use crate::de::{prim_model, prim_num, trim, unesc_from, ws_back, ws_end};
use crate::options::{DecoderOptions, Delimiter, EncoderOptions};
use crate::ser::{
    digits_end, enc_doc, esc, esc_char, is_number_token, is_special_char, leading_zeros,
    lemma_digits_end_all, lit_false, lit_null, lit_true, needs_quoting_spec, prim_out,
    special_occurs, str_out,
};
use crate::text::{
    all_digits, dec_of, dec_of_i64, dec_val, is_digit, is_space_char, lemma_dec_of,
};
use crate::value::{GNumber, GValue, Number, Value};

verus! {

/// Quoting minimality: a scalar string is written bare exactly when no
/// quoting trigger fires, and quoted (with its characters escaped)
/// exactly when one does.
pub proof fn lemma_quoting_minimal(s: Seq<char>, d: Delimiter)
    ensures
        !needs_quoting_spec(s, d) ==> str_out(s, d) == s,
        needs_quoting_spec(s, d) ==> str_out(s, d) == seq!['"'] + esc(s) + seq!['"'],
{
}

/// The encoder is a pure function of the value and the options: its
/// whole output is the specification function `enc_doc`, so equal inputs
/// give byte-identical documents.
pub proof fn lemma_encode_deterministic(v1: Value, v2: Value, opts: EncoderOptions)
    requires
        v1 == v2,
    ensures
        enc_doc(v1, opts) == enc_doc(v2, opts),
{
}

/// A text without leading or trailing whitespace trims to itself.
pub proof fn lemma_trim_id(s: Seq<char>)
    requires
        s.len() == 0 || (!is_space_char(s[0]) && !is_space_char(s.last())),
    ensures
        trim(s) == s,
{
    if s.len() == 0 {
        assert(trim(s) =~= s);
    } else {
        assert(ws_end(s, 0) == 0);
        assert(ws_back(s, s.len() as int) == s.len());
        assert(trim(s) =~= s);
    }
}

/// Unescaping from `i` is unescaping the suffix from its start.
pub proof fn lemma_unesc_shift(s: Seq<char>, i: int)
    requires
        0 <= i <= s.len(),
    ensures
        unesc_from(s, i) == unesc_from(s.subrange(i, s.len() as int), 0),
    decreases s.len() - i,
{
    let t = s.subrange(i, s.len() as int);
    if i == s.len() {
        assert(t.len() == 0);
    } else {
        assert(t[0] == s[i]);
        if s[i] == '\\' {
            if i + 1 >= s.len() {
                assert(t.len() == 1);
            } else {
                assert(t[1] == s[i + 1]);
                if crate::de::valid_esc(s[i + 1]) {
                    lemma_unesc_shift(s, i + 2);
                    lemma_unesc_shift(t, 2);
                    assert(t.subrange(2, t.len() as int) =~= s.subrange(i + 2, s.len() as int));
                } else {
                }
            }
        } else {
            lemma_unesc_shift(s, i + 1);
            lemma_unesc_shift(t, 1);
            assert(t.subrange(1, t.len() as int) =~= s.subrange(i + 1, s.len() as int));
        }
    }
}

/// Escaping works character by character from the front as well.
pub proof fn lemma_esc_first(s: Seq<char>)
    requires
        s.len() > 0,
    ensures
        esc(s) == esc_char(s[0]) + esc(s.subrange(1, s.len() as int)),
    decreases s.len(),
{
    let s1 = s.subrange(1, s.len() as int);
    if s.len() == 1 {
        assert(s.drop_last() =~= Seq::<char>::empty());
        assert(s1 =~= Seq::<char>::empty());
        assert(esc(s) =~= esc_char(s[0]) + esc(s1));
    } else {
        let dl = s.drop_last();
        lemma_esc_first(dl);
        assert(dl[0] == s[0]);
        assert(dl.subrange(1, dl.len() as int) =~= s1.drop_last());
        assert(s1.last() == s.last());
        assert(esc(s) == esc(dl) + esc_char(s.last()));
        assert(esc(dl) == esc_char(s[0]) + esc(s1.drop_last()));
        assert(esc(s1) == esc(s1.drop_last()) + esc_char(s1.last()));
        assert(esc(s) =~= esc_char(s[0]) + esc(s1));
    }
}

/// Unescaping inverts escaping: the escaped text of any string reads
/// back as that string.
pub proof fn lemma_unesc_esc(s: Seq<char>)
    ensures
        unesc_from(esc(s), 0) == Some(s),
    decreases s.len(),
{
    if s.len() == 0 {
        assert(esc(s).len() == 0);
        assert(Seq::<char>::empty() =~= s);
    } else {
        let c = s[0];
        let s1 = s.subrange(1, s.len() as int);
        lemma_esc_first(s);
        lemma_unesc_esc(s1);
        let t = esc(s);
        if c == '\\' || c == '"' || c == '\n' || c == '\r' || c == '\t' {
            let m = esc_char(c)[1];
            assert(t[0] == '\\');
            assert(t[1] == m);
            assert(crate::de::valid_esc(m));
            assert(crate::de::esc_map(m) == c);
            lemma_unesc_shift(t, 2);
            assert(t.subrange(2, t.len() as int) =~= esc(s1));
            assert(unesc_from(t, 2) == Some(s1));
            assert(unesc_from(t, 0) == Some(seq![c] + s1));
            assert(seq![c] + s1 =~= s);
        } else {
            assert(t[0] == c);
            assert(c != '\\');
            lemma_unesc_shift(t, 1);
            assert(t.subrange(1, t.len() as int) =~= esc(s1));
            assert(unesc_from(t, 1) == Some(s1));
            assert(unesc_from(t, 0) == Some(seq![c] + s1));
            assert(seq![c] + s1 =~= s);
        }
    }
}

/// A run of digits scans to its end.
pub proof fn lemma_digits_end_full(t: Seq<char>, i: int)
    requires
        0 <= i <= t.len(),
        forall|k: int| i <= k < t.len() ==> is_digit(#[trigger] t[k]),
    ensures
        digits_end(t, i) == t.len(),
    decreases t.len() - i,
{
    if i < t.len() {
        lemma_digits_end_full(t, i + 1);
    }
}

/// A non-empty run of digits is a number token without a fractional or
/// exponent part.
pub proof fn lemma_digits_token(t: Seq<char>)
    requires
        t.len() >= 1,
        all_digits(t),
    ensures
        is_number_token(t),
        !t.contains('.'),
        !t.contains('e'),
        !t.contains('E'),
        !t.contains('-'),
{
    lemma_digits_end_full(t, 0);
    assert(!t.contains('.')) by {
        if t.contains('.') {
            let j = choose|j: int| 0 <= j < t.len() && t[j] == '.';
            assert(is_digit(t[j]));
        }
    }
    assert(!t.contains('e')) by {
        if t.contains('e') {
            let j = choose|j: int| 0 <= j < t.len() && t[j] == 'e';
            assert(is_digit(t[j]));
        }
    }
    assert(!t.contains('E')) by {
        if t.contains('E') {
            let j = choose|j: int| 0 <= j < t.len() && t[j] == 'E';
            assert(is_digit(t[j]));
        }
    }
    assert(!t.contains('-')) by {
        if t.contains('-') {
            let j = choose|j: int| 0 <= j < t.len() && t[j] == '-';
            assert(is_digit(t[j]));
        }
    }
}

/// The decimal text of an unsigned integer reads back as that integer.
pub proof fn lemma_u64_round_trip(u: u64)
    ensures
        prim_num(dec_of(u as nat)) == Some(GNumber::U64(u)),
{
    let t = dec_of(u as nat);
    lemma_dec_of(u as nat);
    lemma_digits_token(t);
    assert(!leading_zeros(t)) by {
        if leading_zeros(t) {
            assert(t[0] == '0');
            assert(u == 0);
            assert(t =~= seq!['0']);
        }
    }
    assert(t[0] != '-');
}

/// The decimal text of a negative integer reads back as that integer.
pub proof fn lemma_i64_round_trip(n: i64)
    requires
        n < 0,
    ensures
        prim_num(dec_of_i64(n)) == Some(GNumber::I64(n)),
{
    let m = (-(n as int)) as nat;
    let dm = dec_of(m);
    let t = dec_of_i64(n);
    lemma_dec_of(m);
    lemma_digits_token(dm);
    assert(t =~= seq!['-'] + dm);
    assert(t[0] == '-');
    assert(forall|k: int| 1 <= k < t.len() ==> is_digit(#[trigger] t[k]));
    lemma_digits_end_full(t, 1);
    assert(is_digit(t[1]));
    assert(is_number_token(t));
    assert(!t.contains('.')) by {
        if t.contains('.') {
            let j = choose|j: int| 0 <= j < t.len() && t[j] == '.';
            if j >= 1 {
                assert(is_digit(t[j]));
            }
        }
    }
    assert(!t.contains('e')) by {
        if t.contains('e') {
            let j = choose|j: int| 0 <= j < t.len() && t[j] == 'e';
            if j >= 1 {
                assert(is_digit(t[j]));
            }
        }
    }
    assert(!t.contains('E')) by {
        if t.contains('E') {
            let j = choose|j: int| 0 <= j < t.len() && t[j] == 'E';
            if j >= 1 {
                assert(is_digit(t[j]));
            }
        }
    }
    assert(!leading_zeros(t));
    let sub = t.subrange(1, t.len() as int);
    assert(sub =~= dm);
    assert(dec_val(sub) == m);
    assert(m <= 9223372036854775808) by {
        assert(n >= i64::MIN);
    }
    assert((-(m as int)) as i64 == n);
}

/// A number token ends in a digit.
pub proof fn lemma_token_last_digit(t: Seq<char>)
    requires
        is_number_token(t),
    ensures
        t.len() > 0 && is_digit(t.last()),
{
    let i = if t.len() > 0 && t[0] == '-' {
        1int
    } else {
        0int
    };
    let j = digits_end(t, i);
    lemma_digits_end_all(t, i);
    if j == t.len() {
        assert(is_digit(t[t.len() - 1]));
    } else if j < t.len() && t[j] == '.' && j + 1 < t.len() && is_digit(t[j + 1]) && {
        let k = digits_end(t, j + 1);
        k == t.len() || crate::ser::exp_part(t, k)
    } {
        let k = digits_end(t, j + 1);
        lemma_digits_end_all(t, j + 1);
        if k == t.len() {
            assert(is_digit(t[t.len() - 1]));
        } else {
            lemma_exp_last_digit(t, k);
        }
    } else {
        lemma_exp_last_digit(t, j);
    }
}

/// An exponent part runs out in digits.
pub proof fn lemma_exp_last_digit(t: Seq<char>, i: int)
    requires
        crate::ser::exp_part(t, i),
    ensures
        is_digit(t[t.len() - 1]),
{
    let j = if i + 1 < t.len() && (t[i + 1] == '+' || t[i + 1] == '-') {
        i + 2
    } else {
        i + 1
    };
    lemma_digits_end_all(t, j);
    assert(digits_end(t, j) == t.len());
    assert(is_digit(t[t.len() - 1]));
}

/// A digit is not whitespace, not a quote, and not a letter that starts
/// a reserved word.
pub proof fn lemma_digit_plain(c: char)
    requires
        is_digit(c),
    ensures
        !is_space_char(c),
        c != '"',
        c != 't' && c != 'f' && c != 'n',
        c != '-',
{
}

/// A scan for a character that does not occur finds nothing, whatever
/// state it starts in.
pub proof fn lemma_first_unq_not_contains(
    s: Seq<char>,
    target: char,
    i: int,
    in_q: bool,
    e: bool,
)
    requires
        !s.contains(target),
    ensures
        crate::de::first_unq(s, target, i, in_q, e) == -1,
    decreases s.len() - i,
{
    if 0 <= i < s.len() {
        assert(s[i] != target);
        if e {
            lemma_first_unq_not_contains(s, target, i + 1, in_q, false);
        } else if s[i] == '\\' && in_q {
            lemma_first_unq_not_contains(s, target, i + 1, in_q, true);
        } else if s[i] == '"' {
            lemma_first_unq_not_contains(s, target, i + 1, !in_q, false);
        } else {
            lemma_first_unq_not_contains(s, target, i + 1, in_q, false);
        }
    }
}

/// Escaped text holds no raw line feed, carriage return or tab.
pub proof fn lemma_esc_chars(s: Seq<char>)
    ensures
        forall|j: int|
            0 <= j < esc(s).len() ==> #[trigger] esc(s)[j] != '\n' && esc(s)[j] != '\r' && esc(
                s,
            )[j] != '\t',
    decreases s.len(),
{
    if s.len() > 0 {
        lemma_esc_chars(s.drop_last());
        assert(esc(s) == esc(s.drop_last()) + esc_char(s.last()));
    }
}

/// A scan inside a quoted token stays inside the quotes: over the
/// escaped body of a string followed by the closing quote, nothing is
/// found outside quotes.
pub proof fn lemma_quoted_scan(u: Seq<char>, s: Seq<char>, i: int, target: char)
    requires
        target != '"',
        0 <= i,
        i + esc(s).len() + 1 == u.len(),
        u.subrange(i, u.len() - 1) == esc(s),
        u.last() == '"',
    ensures
        crate::de::first_unq(u, target, i, true, false) == -1,
    decreases s.len(),
{
    if s.len() == 0 {
        assert(u[i] == '"');
        assert(i + 1 == u.len());
        assert(crate::de::first_unq(u, target, i, true, false) == crate::de::first_unq(
            u,
            target,
            i + 1,
            false,
            false,
        ));
        assert(crate::de::first_unq(u, target, i + 1, false, false) == -1);
    } else {
        let c = s[0];
        let s1 = s.subrange(1, s.len() as int);
        lemma_esc_first(s);
        if c == '\\' || c == '"' || c == '\n' || c == '\r' || c == '\t' {
            let m = esc_char(c)[1];
            assert(u[i] == esc(s)[0]);
            assert(u[i] == '\\');
            assert(u[i + 1] == esc(s)[1]);
            assert(esc(s).len() == 2 + esc(s1).len());
            assert forall|k: int|
                0 <= k < esc(s1).len() implies u.subrange(i + 2, u.len() - 1)[k] == esc(s1)[k] by {
                assert(u.subrange(i, u.len() - 1)[k + 2] == esc(s)[k + 2]);
                assert(esc(s)[k + 2] == esc(s1)[k]);
            }
            assert(u.subrange(i + 2, u.len() - 1) =~= esc(s1));
            lemma_quoted_scan(u, s1, i + 2, target);
            assert(crate::de::first_unq(u, target, i, true, false) == crate::de::first_unq(
                u,
                target,
                i + 1,
                true,
                true,
            ));
            assert(crate::de::first_unq(u, target, i + 1, true, true) == crate::de::first_unq(
                u,
                target,
                i + 2,
                true,
                false,
            ));
        } else {
            assert(u[i] == esc(s)[0]);
            assert(u[i] == c);
            assert(c != '\\' && c != '"');
            assert(esc(s).len() == 1 + esc(s1).len());
            assert forall|k: int|
                0 <= k < esc(s1).len() implies u.subrange(i + 1, u.len() - 1)[k] == esc(s1)[k] by {
                assert(u.subrange(i, u.len() - 1)[k + 1] == esc(s)[k + 1]);
                assert(esc(s)[k + 1] == esc(s1)[k]);
            }
            assert(u.subrange(i + 1, u.len() - 1) =~= esc(s1));
            lemma_quoted_scan(u, s1, i + 1, target);
            assert(crate::de::first_unq(u, target, i, true, false) == crate::de::first_unq(
                u,
                target,
                i + 1,
                true,
                false,
            ));
        }
    }
}

/// A scan of a whole quoted token finds nothing outside quotes.
pub proof fn lemma_quoted_token_scan(t: Seq<char>, s: Seq<char>, target: char)
    requires
        target != '"',
        t == seq!['"'] + esc(s) + seq!['"'],
    ensures
        crate::de::first_unq(t, target, 0, false, false) == -1,
{
    assert(t[0] == '"');
    assert(t.last() == '"');
    assert(t.subrange(1, t.len() - 1) =~= esc(s));
    lemma_quoted_scan(t, s, 1, target);
}

/// A text without a line feed is a single line.
pub proof fn lemma_nl_end_full(t: Seq<char>, i: int)
    requires
        0 <= i <= t.len(),
        forall|j: int| 0 <= j < t.len() ==> #[trigger] t[j] != '\n',
    ensures
        crate::de::nl_end(t, i) == t.len(),
    decreases t.len() - i,
{
    if i < t.len() {
        lemma_nl_end_full(t, i + 1);
    }
}

/// Every character of a number token is a digit, a sign, a dot, or an
/// exponent letter.
pub open spec fn is_num_char(c: char) -> bool {
    is_digit(c) || c == '-' || c == '+' || c == '.' || c == 'e' || c == 'E'
}

/// Characters of a number token are number characters.
pub proof fn lemma_token_chars(t: Seq<char>)
    requires
        is_number_token(t),
    ensures
        forall|j: int| 0 <= j < t.len() ==> is_num_char(#[trigger] t[j]),
{
    let i = if t.len() > 0 && t[0] == '-' {
        1int
    } else {
        0int
    };
    let j0 = digits_end(t, i);
    lemma_digits_end_all(t, i);
    assert forall|j: int| 0 <= j < t.len() implies is_num_char(#[trigger] t[j]) by {
        if j < i {
        } else if j < j0 {
        } else if j0 == t.len() {
        } else if t[j0] == '.' && j0 + 1 < t.len() && is_digit(t[j0 + 1]) && {
            let k = digits_end(t, j0 + 1);
            k == t.len() || crate::ser::exp_part(t, k)
        } {
            let k = digits_end(t, j0 + 1);
            lemma_digits_end_all(t, j0 + 1);
            if j == j0 {
            } else if j < k {
            } else {
                lemma_exp_chars(t, k, j);
            }
        } else {
            lemma_exp_chars(t, j0, j);
        }
    }
}

/// Characters of an exponent part are number characters.
pub proof fn lemma_exp_chars(t: Seq<char>, i: int, j: int)
    requires
        crate::ser::exp_part(t, i),
        i <= j < t.len(),
    ensures
        is_num_char(t[j]),
{
    let k = if i + 1 < t.len() && (t[i + 1] == '+' || t[i + 1] == '-') {
        i + 2
    } else {
        i + 1
    };
    lemma_digits_end_all(t, k);
    assert(digits_end(t, k) == t.len());
    if j == i {
    } else if j < k {
    } else {
        assert(is_digit(t[j]));
    }
}

/// The characters of the reserved words.
pub proof fn lemma_lit_chars()
    ensures
        forall|j: int|
            0 <= j < lit_null().len() ==> crate::text::is_alpha(#[trigger] lit_null()[j]),
        forall|j: int|
            0 <= j < lit_true().len() ==> crate::text::is_alpha(#[trigger] lit_true()[j]),
        forall|j: int|
            0 <= j < lit_false().len() ==> crate::text::is_alpha(#[trigger] lit_false()[j]),
{
    assert forall|j: int|
        0 <= j < lit_null().len() implies crate::text::is_alpha(#[trigger] lit_null()[j]) by {
        if j == 0 {
        } else if j == 1 {
        } else if j == 2 {
        } else {
            assert(lit_null()[j] == 'l');
        }
    }
    assert forall|j: int|
        0 <= j < lit_true().len() implies crate::text::is_alpha(#[trigger] lit_true()[j]) by {
        if j == 0 {
        } else if j == 1 {
        } else if j == 2 {
        } else {
            assert(lit_true()[j] == 'e');
        }
    }
    assert forall|j: int|
        0 <= j < lit_false().len() implies crate::text::is_alpha(#[trigger] lit_false()[j]) by {
        if j == 0 {
        } else if j == 1 {
        } else if j == 2 {
        } else if j == 3 {
        } else {
            assert(lit_false()[j] == 'e');
        }
    }
}

/// A text none of whose characters is `c` does not contain `c`.
pub proof fn lemma_no_char(t: Seq<char>, c: char)
    requires
        forall|j: int| 0 <= j < t.len() ==> #[trigger] t[j] != c,
    ensures
        !t.contains(c),
{
    if t.contains(c) {
        let j = choose|j: int| 0 <= j < t.len() && t[j] == c;
    }
}

/// Primitive values whose text reads back as an equivalent value: null,
/// booleans, negative signed integers, unsigned integers, well-formed
/// decimal literals, and all strings.
pub open spec fn rt_prim(v: Value) -> bool {
    match v {
        Value::Null => true,
        Value::Bool(_) => true,
        Value::Number(n) => match n {
            Number::I64(x) => x < 0,
            Number::U64(_) => true,
            Number::Decimal(s) => is_number_token(s@) && !leading_zeros(s@) && (s@.contains('.')
                || s@.contains('e') || s@.contains('E')),
        },
        Value::Str(_) => true,
        _ => false,
    }
}

/// The round-trip law at the scalar level: reading back the encoded text
/// of a round-trip-safe primitive yields a value with the same model.
/// (A non-negative signed integer is excluded: its text reads back as
/// the unsigned variant of the same magnitude.)
pub proof fn lemma_prim_round_trip(v: Value, d: Delimiter)
    requires
        rt_prim(v),
    ensures
        prim_model(prim_out(v, d)) == Some(v.model()),
{
    let t = prim_out(v, d);
    match v {
        Value::Null => {
            lemma_trim_id(t);
            assert(t == lit_null());
            assert(t[0] == 'n');
            assert(t != lit_true() && t != lit_false());
        },
        Value::Bool(b) => {
            lemma_trim_id(t);
            if b {
                assert(t == lit_true());
                assert(t[0] == 't');
                assert(t != lit_false() && t != lit_null());
            } else {
                assert(t == lit_false());
                assert(t[0] == 'f');
                assert(t != lit_true() && t != lit_null());
            }
        },
        Value::Number(n) => {
            match n {
                Number::U64(u) => {
                    lemma_dec_of(u as nat);
                    lemma_digit_plain(t[0]);
                    lemma_digit_plain(t.last());
                    lemma_trim_id(t);
                    assert(t != lit_true() && t != lit_false() && t != lit_null());
                    lemma_u64_round_trip(u);
                },
                Number::I64(x) => {
                    let m = (-(x as int)) as nat;
                    lemma_dec_of(m);
                    assert(t =~= seq!['-'] + dec_of(m));
                    assert(t[0] == '-');
                    assert(t.last() == dec_of(m).last());
                    lemma_digit_plain(t.last());
                    lemma_trim_id(t);
                    assert(t[0] != '"');
                    assert(t != lit_true() && t != lit_false() && t != lit_null());
                    lemma_i64_round_trip(x);
                },
                Number::Decimal(s) => {
                    assert(t == s@);
                    lemma_token_last_digit(t);
                    lemma_digit_plain(t.last());
                    assert(t[0] == '-' || is_digit(t[0]));
                    lemma_trim_id(t);
                    assert(t[0] != '"');
                    assert(t != lit_true() && t != lit_false() && t != lit_null());
                    assert(prim_num(t) == Some(GNumber::Decimal(s@)));
                },
            }
        },
        Value::Str(s) => {
            if needs_quoting_spec(s@, d) {
                assert(t == seq!['"'] + esc(s@) + seq!['"']);
                assert(t[0] == '"');
                assert(t.last() == '"');
                assert(t.len() >= 2);
                lemma_trim_id(t);
                assert(t.subrange(1, t.len() - 1) =~= esc(s@));
                lemma_unesc_esc(s@);
                assert(prim_model(t) == Some(GValue::Str(s@)));
            } else {
                assert(t == s@);
                assert(s@.len() > 0);
                assert(!is_space_char(t[0]) && !is_space_char(t.last()));
                lemma_trim_id(t);
                assert(t[0] != '"') by {
                    if t[0] == '"' {
                        assert(is_special_char(t[0], d));
                        assert(special_occurs(t, d));
                    }
                }
                assert(t != lit_true() && t != lit_false() && t != lit_null());
                assert(!is_number_token(t));
                assert(prim_model(t) == Some(GValue::Str(s@)));
            }
        },
        _ => {
            assert(false);
        },
    }
}

/// The round-trip law at the document level for primitive roots: the
/// encoded document of a round-trip-safe primitive tokenizes to a single
/// bare line at depth zero that passes the strict checks, is no array
/// header, has no unquoted colon, and reads back as a value with the
/// same model. Together with the contract of `decode`, decoding the
/// output of `encode` recovers the value.
pub proof fn lemma_doc_round_trip_prim(v: Value, eopts: EncoderOptions, dopts: DecoderOptions)
    requires
        crate::laws::rt_prim(v),
        dopts.indent >= 1,
    ensures
        ({
            let text = enc_doc(v, eopts);
            let toks = crate::de::tok_lines(
                crate::de::lines_of(text),
                crate::de::lines_of(text).len() as nat,
                dopts.indent as nat,
            );
            &&& !crate::de::has_bad_strict_line(text, dopts.indent as nat)
            &&& toks.len() == 1
            &&& toks[0].0 == text
            &&& toks[0].1 == 0
            &&& crate::de::hdr_model(text) is NotHeader
            &&& crate::de::colon_pos(text) == -1
            &&& prim_model(text) == Some(v.model())
            &&& !(v.model() is Obj)
            &&& !(v.model() is Arr)
        }),
{
    let d = eopts.delimiter;
    let text = enc_doc(v, eopts);
    assert(text == prim_out(v, d));
    lemma_prim_round_trip(v, d);
    crate::value::lemma_model_variant(v);

    // Character facts: the first character is not whitespace, no
    // character is a line feed, and the bracket and colon scans find
    // nothing.
    match v {
        Value::Null | Value::Bool(_) => {
            lemma_lit_chars();
            assert(!is_space_char(text[0]));
            assert(forall|j: int| 0 <= j < text.len() ==> #[trigger] text[j] != '\n');
            lemma_no_char(text, '[');
            lemma_no_char(text, ':');
            lemma_first_unq_not_contains(text, '[', 0, false, false);
            lemma_first_unq_not_contains(text, ':', 0, false, false);
        },
        Value::Number(n) => {
            match n {
                Number::U64(u) => {
                    lemma_dec_of(u as nat);
                    lemma_digits_token(text);
                },
                Number::I64(x) => {
                    let m = (-(x as int)) as nat;
                    lemma_dec_of(m);
                    assert(text =~= seq!['-'] + dec_of(m));
                    assert(forall|k: int| 1 <= k < text.len() ==> is_digit(#[trigger] text[k]));
                    lemma_digits_end_full(text, 1);
                    assert(is_number_token(text));
                },
                Number::Decimal(_) => {
                    assert(is_number_token(text));
                },
            }
            lemma_token_chars(text);
            assert(!is_space_char(text[0]));
            assert(forall|j: int| 0 <= j < text.len() ==> #[trigger] text[j] != '\n');
            lemma_no_char(text, '[');
            lemma_no_char(text, ':');
            lemma_first_unq_not_contains(text, '[', 0, false, false);
            lemma_first_unq_not_contains(text, ':', 0, false, false);
        },
        Value::Str(st) => {
            if needs_quoting_spec(st@, d) {
                assert(text == seq!['"'] + esc(st@) + seq!['"']);
                assert(text[0] == '"');
                assert(!is_space_char(text[0]));
                lemma_esc_chars(st@);
                assert forall|j: int| 0 <= j < text.len() implies #[trigger] text[j] != '\n' by {
                    if 1 <= j < text.len() - 1 {
                        assert(text[j] == esc(st@)[j - 1]);
                    }
                }
                lemma_quoted_token_scan(text, st@, '[');
                lemma_quoted_token_scan(text, st@, ':');
            } else {
                assert(text == st@);
                assert(!is_space_char(text[0]));
                assert forall|j: int| 0 <= j < text.len() implies #[trigger] text[j] != '\n' by {
                    if text[j] == '\n' {
                        assert(is_special_char(text[j], d));
                        assert(special_occurs(text, d));
                    }
                }
                assert forall|j: int| 0 <= j < text.len() implies #[trigger] text[j] != '[' by {
                    if text[j] == '[' {
                        assert(is_special_char(text[j], d));
                        assert(special_occurs(text, d));
                    }
                }
                assert forall|j: int| 0 <= j < text.len() implies #[trigger] text[j] != ':' by {
                    if text[j] == ':' {
                        assert(is_special_char(text[j], d));
                        assert(special_occurs(text, d));
                    }
                }
                lemma_no_char(text, '[');
                lemma_no_char(text, ':');
                lemma_first_unq_not_contains(text, '[', 0, false, false);
                lemma_first_unq_not_contains(text, ':', 0, false, false);
            }
        },
        _ => {
            assert(false);
        },
    }

    // One line, tokenized as itself at depth zero.
    lemma_nl_end_full(text, 0);
    assert(text.len() > 0);
    assert(crate::de::lines_of(text) =~= seq![text]);
    let ls = crate::de::lines_of(text);
    assert(crate::de::spaces_end(text, 0) == 0);
    let toks = crate::de::tok_lines(ls, 1, dopts.indent as nat);
    assert(text.subrange(0, text.len() as int) =~= text);
    assert(ls[0] == text);
    assert(crate::de::tok_lines(ls, 0, dopts.indent as nat)
        == Seq::<(Seq<char>, nat, nat)>::empty());
    assert(toks =~~= seq![(text, 0nat, 1nat)]);

    // The strict checks pass.
    assert(!crate::de::bad_strict_line(text, dopts.indent as nat)) by {
        assert(!crate::de::tab_in_leading_ws(text)) by {
            if crate::de::tab_in_leading_ws(text) {
                let j = choose|j: int|
                    0 <= j < text.len() && #[trigger] text[j] == '\t' && forall|k: int|
                        0 <= k < j ==> is_space_char(#[trigger] text[k]);
                if j == 0 {
                    assert(is_space_char(text[0]));
                } else {
                    assert(is_space_char(text[0]));
                }
            }
        }
    }
    assert(!crate::de::has_bad_strict_line(text, dopts.indent as nat)) by {
        if crate::de::has_bad_strict_line(text, dopts.indent as nat) {
            let i = choose|i: int|
                0 <= i < ls.len() && crate::de::bad_strict_line(#[trigger] ls[i], dopts.indent as nat);
            assert(ls[i] == text);
        }
    }

    // Not an array header, and no unquoted colon.
    assert(crate::de::hdr_model(text) is NotHeader);
}

/// Path-expansion safety: a key that was quoted in the source and
/// contains a dot is tagged with the internal marker, the marker
/// determines the key's literal text exactly, and an unquoted key passes
/// through untouched. With the contract of `classify_key`, a marked key
/// always stays literal under expansion, with the marker removed.
pub proof fn lemma_quoted_key_protected(u: Seq<char>)
    ensures
        u.contains('.') ==> crate::de::is_marked(crate::de::mark_key(u)) && crate::de::mark_key(
            u,
        ).subrange(1, crate::de::mark_key(u).len() as int) == u,
        !u.contains('.') ==> crate::de::mark_key(u) == u,
{
    if u.contains('.') {
        assert(crate::de::mark_key(u) == seq!['\u{0}'] + u);
        assert(crate::de::mark_key(u).subrange(1, crate::de::mark_key(u).len() as int) =~= u);
    }
}

/// A scan that starts outside quotes passes over characters that are
/// neither the target nor a quote.
pub proof fn lemma_first_unq_skip(s: Seq<char>, target: char, i: int, j: int)
    requires
        0 <= i <= j <= s.len(),
        forall|k: int| i <= k < j ==> #[trigger] s[k] != target && s[k] != '"',
    ensures
        crate::de::first_unq(s, target, i, false, false) == crate::de::first_unq(
            s,
            target,
            j,
            false,
            false,
        ),
    decreases j - i,
{
    if i < j {
        lemma_first_unq_skip(s, target, i + 1, j);
    }
}

/// The inline row joins from the front as well: for two or more
/// elements, the row is the first element, the delimiter, then the row
/// of the remaining elements.
pub proof fn lemma_enc_prims_first(items: Seq<Value>, upto: nat, d: Delimiter)
    requires
        2 <= upto <= items.len(),
    ensures
        crate::ser::enc_prims(items, upto, d) == prim_out(items[0], d) + seq![
            crate::options::delim_char(d),
        ] + crate::ser::enc_prims(
            items.subrange(1, items.len() as int),
            (upto - 1) as nat,
            d,
        ),
    decreases upto,
{
    let sub = items.subrange(1, items.len() as int);
    if upto == 2 {
        assert(sub[0] == items[1]);
        assert(crate::ser::enc_prims(items, 2, d) == crate::ser::enc_prims(items, 1, d) + seq![
            crate::options::delim_char(d),
        ] + prim_out(items[1], d));
        assert(crate::ser::enc_prims(sub, 1, d) == prim_out(sub[0], d));
        assert(crate::ser::enc_prims(items, 2, d) =~= prim_out(items[0], d) + seq![
            crate::options::delim_char(d),
        ] + crate::ser::enc_prims(sub, 1, d));
    } else {
        lemma_enc_prims_first(items, (upto - 1) as nat, d);
        assert(sub[upto - 2] == items[upto - 1]);
        assert(crate::ser::enc_prims(sub, (upto - 1) as nat, d) == crate::ser::enc_prims(
            sub,
            (upto - 2) as nat,
            d,
        ) + seq![crate::options::delim_char(d)] + prim_out(sub[upto - 2], d));
        assert(crate::ser::enc_prims(items, upto, d) =~= prim_out(items[0], d) + seq![
            crate::options::delim_char(d),
        ] + crate::ser::enc_prims(sub, (upto - 1) as nat, d));
    }
}

/// A primitive that is written without quotes: anything round-trip-safe
/// whose string form fires no quoting trigger.
pub open spec fn bare_prim(v: Value, d: Delimiter) -> bool {
    &&& rt_prim(v)
    &&& (v matches Value::Str(st) ==> !needs_quoting_spec(st@, d))
}

/// The written form of a bare primitive is non-empty, free of the
/// delimiter and of quotes, and has no whitespace at its ends.
pub proof fn lemma_bare_piece(v: Value, d: Delimiter)
    requires
        bare_prim(v, d),
    ensures
        prim_out(v, d).len() > 0,
        forall|j: int|
            0 <= j < prim_out(v, d).len() ==> #[trigger] prim_out(v, d)[j] != crate::options::delim_char(
                d,
            ) && prim_out(v, d)[j] != '"' && prim_out(v, d)[j] != '\n',
        !is_space_char(prim_out(v, d)[0]),
        !is_space_char(prim_out(v, d).last()),
{
    let t = prim_out(v, d);
    match v {
        Value::Null | Value::Bool(_) => {
            lemma_lit_chars();
        },
        Value::Number(n) => {
            match n {
                Number::U64(u) => {
                    lemma_dec_of(u as nat);
                    lemma_digits_token(t);
                },
                Number::I64(x) => {
                    let m = (-(x as int)) as nat;
                    lemma_dec_of(m);
                    assert(t =~= seq!['-'] + dec_of(m));
                    assert(forall|k: int| 1 <= k < t.len() ==> is_digit(#[trigger] t[k]));
                    lemma_digits_end_full(t, 1);
                    assert(is_number_token(t));
                },
                Number::Decimal(_) => {},
            }
            lemma_token_chars(t);
            lemma_token_last_digit(t);
        },
        Value::Str(st) => {
            assert(t == st@);
            assert forall|j: int|
                0 <= j < t.len() implies #[trigger] t[j] != crate::options::delim_char(d) && t[j]
                != '"' && t[j] != '\n' by {
                if t[j] == crate::options::delim_char(d) || t[j] == '"' || t[j] == '\n' {
                    assert(is_special_char(t[j], d));
                    assert(special_occurs(t, d));
                }
            }
        },
        _ => {
            assert(false);
        },
    }
}

/// Splitting inverts joining for inline rows of bare primitives: the
/// cells of the encoded row are exactly the written elements, and each
/// reads back as a value with the element's model.
pub proof fn lemma_row_round_trip(items: Seq<Value>, d: Delimiter)
    requires
        1 <= items.len(),
        forall|j: int| 0 <= j < items.len() ==> rt_prim(#[trigger] items[j]),
    ensures
        ({
            let row = crate::ser::enc_prims(items, items.len() as nat, d);
            let cs = crate::de::cells(row, crate::options::delim_char(d));
            &&& cs.len() == items.len()
            &&& forall|j: int|
                0 <= j < items.len() ==> #[trigger] cs[j] == prim_out(items[j], d)
            &&& forall|j: int|
                0 <= j < items.len() ==> prim_model(#[trigger] cs[j]) == Some(items[j].model())
        }),
    decreases items.len(),
{
    let dc = crate::options::delim_char(d);
    let row = crate::ser::enc_prims(items, items.len() as nat, d);
    let p0 = prim_out(items[0], d);
    lemma_piece_facts(items[0], d);
    if items.len() == 1 {
        assert(row == p0);
        assert(row.subrange(0, row.len() as int) =~= p0);
        lemma_piece_through(row, items[0], d, 0);
        assert(crate::de::first_unq(row, dc, row.len() as int, false, false) == -1);
        lemma_trim_id(row);
        assert(crate::de::cells(row, dc) =~= seq![row]);
    } else {
        let sub = items.subrange(1, items.len() as int);
        lemma_enc_prims_first(items, items.len() as nat, d);
        let rest = crate::ser::enc_prims(sub, (items.len() - 1) as nat, d);
        assert(row == p0 + seq![dc] + rest);
        assert(forall|k: int| 0 <= k < p0.len() ==> #[trigger] row[k] == p0[k]);
        assert(row.subrange(0, p0.len() as int) =~= p0);
        lemma_piece_through(row, items[0], d, 0);
        assert(row[p0.len() as int] == dc);
        assert(crate::de::first_unq(row, dc, p0.len() as int, false, false) == p0.len());
        let k = crate::de::first_unq(row, dc, 0, false, false);
        assert(k == p0.len());
        assert(row.subrange(0, k) =~= p0);
        lemma_trim_id(p0);
        assert(row.subrange(k + 1, row.len() as int) =~= rest);
        assert(crate::de::cells(row, dc) == seq![p0] + crate::de::cells(rest, dc));
        assert(forall|j: int| 0 <= j < sub.len() ==> rt_prim(#[trigger] sub[j]));
        lemma_row_round_trip(sub, d);
        let cs = crate::de::cells(row, dc);
        let csr = crate::de::cells(rest, dc);
        assert forall|j: int|
            0 <= j < items.len() implies #[trigger] cs[j] == prim_out(items[j], d) by {
            if j >= 1 {
                assert(cs[j] == csr[j - 1]);
                assert(sub[j - 1] == items[j]);
            }
        }
    }
    assert forall|j: int|
        0 <= j < items.len() implies prim_model(
        #[trigger] crate::de::cells(row, dc)[j],
    ) == Some(items[j].model()) by {
        lemma_prim_round_trip(items[j], d);
    }
}

/// A plain scan passes over characters other than the one it seeks.
pub proof fn lemma_plain_end_skip(s: Seq<char>, c: char, i: int, j: int)
    requires
        0 <= i <= j <= s.len(),
        forall|k: int| i <= k < j ==> #[trigger] s[k] != c,
    ensures
        crate::de::plain_end(s, c, i) == crate::de::plain_end(s, c, j),
    decreases j - i,
{
    if i < j {
        lemma_plain_end_skip(s, c, i + 1, j);
    }
}

/// The inline row of bare primitives holds no line feed.
pub proof fn lemma_row_chars(items: Seq<Value>, upto: nat, d: Delimiter)
    requires
        upto <= items.len(),
        forall|j: int| 0 <= j < items.len() ==> rt_prim(#[trigger] items[j]),
    ensures
        forall|k: int|
            0 <= k < crate::ser::enc_prims(items, upto, d).len() ==> #[trigger] crate::ser::enc_prims(
                items,
                upto,
                d,
            )[k] != '\n',
    decreases upto,
{
    if upto > 0 {
        lemma_piece_facts(items[upto - 1], d);
        if upto > 1 {
            lemma_row_chars(items, (upto - 1) as nat, d);
            assert(crate::ser::enc_prims(items, upto, d) == crate::ser::enc_prims(
                items,
                (upto - 1) as nat,
                d,
            ) + seq![crate::options::delim_char(d)] + prim_out(items[upto - 1], d));
        } else {
            assert(crate::ser::enc_prims(items, 1, d) == prim_out(items[0], d));
        }
    }
}

/// The round-trip law at the document level for root arrays of bare
/// primitives: the encoded document tokenizes to a single line at depth
/// zero that passes the strict checks and reads as a key-less array
/// header with the array's length and delimiter, followed by the inline
/// row, whose cells read back as values with the elements' models.
/// Together with the contract of `decode`, decoding the output of
/// `encode` recovers the array.
#[verifier::rlimit(50)]
pub proof fn lemma_doc_round_trip_prim_array(
    v: Value,
    eopts: EncoderOptions,
    dopts: DecoderOptions,
)
    requires
        v is Arr,
        1 <= v->Arr_0@.len() <= usize::MAX,
        forall|j: int| 0 <= j < v->Arr_0@.len() ==> rt_prim(#[trigger] v->Arr_0@[j]),
        dopts.indent >= 1,
    ensures
        ({
            let text = enc_doc(v, eopts);
            let toks = crate::de::tok_lines(
                crate::de::lines_of(text),
                crate::de::lines_of(text).len() as nat,
                dopts.indent as nat,
            );
            let items = v->Arr_0@;
            let d = eopts.delimiter;
            let vp = crate::de::trim_start(
                text.subrange(crate::de::plain_end(text, ':', 0) + 1, text.len() as int),
            );
            &&& !crate::de::has_bad_strict_line(text, dopts.indent as nat)
            &&& toks.len() == 1
            &&& toks[0].0 == text
            &&& toks[0].1 == 0
            &&& (match crate::de::hdr_model(text) {
                crate::de::HeaderR::Header(hm) => hm.key is None && hm.length == items.len()
                    && hm.delimiter == d,
                _ => false,
            })
            &&& crate::de::plain_end(text, ':', 0) < text.len()
            &&& vp == crate::ser::enc_prims(items, items.len() as nat, d)
            &&& vp.len() > 0
            &&& crate::de::cells(vp, crate::options::delim_char(d)).len() == items.len()
            &&& forall|j: int|
                0 <= j < items.len() ==> prim_model(
                    #[trigger] crate::de::cells(vp, crate::options::delim_char(d))[j],
                ) == Some(items[j].model())
        }),
{
    let items = v->Arr_0@;
    let d = eopts.delimiter;
    let dc = crate::options::delim_char(d);
    let n = items.len();
    let row = crate::ser::enc_prims(items, n as nat, d);
    lemma_row_round_trip(items, d);
    lemma_row_chars(items, n as nat, d);
    lemma_piece_facts(items[0], d);

    assert(crate::ser::all_prim(items)) by {
        assert forall|j: int| 0 <= j < items.len() implies crate::ser::is_prim(
            #[trigger] items[j],
        ) by {
            assert(rt_prim(items[j]));
        }
    }
    let text = enc_doc(v, eopts);
    assert(text == crate::ser::enc_array_rest(items, 0, eopts));
    let hd = crate::ser::enc_header(n as nat, d);
    assert(text == hd + seq![':', ' '] + row);
    lemma_dec_of(n as nat);
    let num = dec_of(n as nat);
    let marker = crate::options::delim_marker(d);
    let bracket = num + marker;
    assert(hd == seq!['['] + num + marker + seq![']']);
    let bc = 1 + bracket.len() as int;
    assert(text[0] == '[');
    assert(text[bc] == ']');
    assert(text[bc + 1] == ':');
    assert(text[bc + 2] == ' ');

    // The row starts right after the header, the colon and the space.
    assert(text.len() == bc + 3 + row.len());
    assert(forall|k: int| 0 <= k < row.len() ==> #[trigger] text[bc + 3 + k] == row[k]);

    // No line feed anywhere: a single line that passes the strict checks.
    assert(marker.len() <= 1);
    assert forall|k: int| 0 <= k < text.len() implies #[trigger] text[k] != '\n' by {
        if 1 <= k < 1 + num.len() {
            assert(is_digit(text[k]));
        } else if 1 + num.len() <= k < bc {
            assert(text[k] == marker[k - 1 - num.len()]);
        } else if bc + 3 <= k {
            assert(text[k] == row[k - bc - 3]);
        }
    }
    lemma_nl_end_full(text, 0);
    assert(text.len() > 0);
    assert(crate::de::lines_of(text) =~= seq![text]);
    let ls = crate::de::lines_of(text);
    assert(crate::de::spaces_end(text, 0) == 0);
    let toks = crate::de::tok_lines(ls, 1, dopts.indent as nat);
    assert(text.subrange(0, text.len() as int) =~= text);
    assert(ls[0] == text);
    assert(crate::de::tok_lines(ls, 0, dopts.indent as nat)
        == Seq::<(Seq<char>, nat, nat)>::empty());
    assert(toks =~~= seq![(text, 0nat, 1nat)]);
    assert(!crate::de::bad_strict_line(text, dopts.indent as nat)) by {
        assert(!crate::de::tab_in_leading_ws(text)) by {
            if crate::de::tab_in_leading_ws(text) {
                let j = choose|j: int|
                    0 <= j < text.len() && #[trigger] text[j] == '\t' && forall|k: int|
                        0 <= k < j ==> is_space_char(#[trigger] text[k]);
                if j == 0 {
                    assert(is_space_char(text[0]));
                } else {
                    assert(is_space_char(text[0]));
                }
            }
        }
    }
    assert(!crate::de::has_bad_strict_line(text, dopts.indent as nat)) by {
        if crate::de::has_bad_strict_line(text, dopts.indent as nat) {
            let i = choose|i: int|
                0 <= i < ls.len() && crate::de::bad_strict_line(
                    #[trigger] ls[i],
                    dopts.indent as nat,
                );
            assert(ls[i] == text);
        }
    }

    // The header reads back: brackets at the ends of the bracket pair,
    // the declared length, the delimiter marker, no key, no schema.
    assert(text.contains('[')) by {
        assert(text[0] == '[');
    }
    assert(text.contains(']')) by {
        assert(text[bc] == ']');
    }
    assert(text.contains(':')) by {
        assert(text[bc + 1] == ':');
    }
    assert(crate::de::first_unq(text, '[', 0, false, false) == 0);
    assert forall|k: int| 1 <= k < bc implies #[trigger] text[k] != ']' && text[k] != '"' by {
        if k < 1 + num.len() {
            assert(is_digit(text[k]));
        } else {
            assert(text[k] == marker[k - 1 - num.len()]);
        }
    }
    lemma_first_unq_skip(text, ']', 1, bc);
    assert(crate::de::first_unq(text, ']', bc, false, false) == bc);
    assert(crate::de::first_unq(text, ']', 1, false, false) == bc);
    assert(text.subrange(1, bc) =~= bracket);
    let dl = crate::de::bracket_delim(bracket);
    assert(dl == (d, num)) by {
        lemma_digits_token(num);
        match d {
            Delimiter::Comma => {
                assert(bracket =~= num);
                assert(is_digit(bracket.last()));
            },
            Delimiter::Tab => {
                assert(bracket.last() == '\t');
                assert(bracket.drop_last() =~= num);
            },
            Delimiter::Pipe => {
                assert(bracket.last() == '|');
                assert(bracket.drop_last() =~= num);
            },
        }
    }
    assert(crate::text::all_digits(num) && num.len() >= 1 && crate::text::dec_val(num) == n);
    assert(n <= usize::MAX);
    assert(crate::de::hdr_key(text.subrange(0, 0)) is None) by {
        assert(text.subrange(0, 0) =~= Seq::<char>::empty());
        assert(crate::de::trim(Seq::<char>::empty()) =~= Seq::<char>::empty());
    }
    let after0 = text.subrange(bc + 1, text.len() as int);
    assert(after0[0] == ':');
    assert(crate::de::ws_end(after0, 0) == 0);
    let after = crate::de::trim_start(after0);
    assert(after =~= after0);
    assert(after[0] == ':');
    assert(after[0] != '{');
    assert(match crate::de::hdr_model(text) {
        crate::de::HeaderR::Header(hm) => hm.key is None && hm.length == n && hm.delimiter == d
            && hm.fields is None,
        _ => false,
    });

    // The first plain colon sits right after the bracket pair, and the
    // text after it trims to the inline row.
    assert forall|k: int| 0 <= k < bc + 1 implies #[trigger] text[k] != ':' by {
        if k == 0 {
        } else if k < 1 + num.len() {
            assert(is_digit(text[k]));
        } else if k < bc {
            assert(text[k] == marker[k - 1 - num.len()]);
        }
    }
    lemma_plain_end_skip(text, ':', 0, bc + 1);
    assert(crate::de::plain_end(text, ':', bc + 1) == bc + 1);
    assert(crate::de::plain_end(text, ':', 0) == bc + 1);
    let vp0 = text.subrange(bc + 2, text.len() as int);
    assert(vp0[0] == ' ');
    assert(row[0] == prim_out(items[0], d)[0]) by {
        if n >= 2 {
            lemma_enc_prims_first(items, n as nat, d);
        }
    }
    assert(vp0.len() > 1);
    assert(vp0[1] == row[0]);
    assert(!is_space_char(vp0[1]));
    assert(crate::de::ws_end(vp0, 1) == 1);
    assert(crate::de::ws_end(vp0, 0) == 1);
    let vp = crate::de::trim_start(vp0);
    assert(vp =~= row);
}

/// A scan that enters a quoted token leaves it just after the closing
/// quote, back outside quotes.
pub proof fn lemma_quoted_scan_through(u: Seq<char>, s: Seq<char>, i: int, target: char)
    requires
        target != '"',
        0 <= i,
        i + esc(s).len() + 1 <= u.len(),
        u.subrange(i, i + esc(s).len() as int) == esc(s),
        u[i + esc(s).len()] == '"',
    ensures
        crate::de::first_unq(u, target, i, true, false) == crate::de::first_unq(
            u,
            target,
            i + esc(s).len() + 1,
            false,
            false,
        ),
    decreases s.len(),
{
    if s.len() == 0 {
        assert(u[i] == '"');
        assert(crate::de::first_unq(u, target, i, true, false) == crate::de::first_unq(
            u,
            target,
            i + 1,
            false,
            false,
        ));
    } else {
        let c = s[0];
        let s1 = s.subrange(1, s.len() as int);
        lemma_esc_first(s);
        if c == '\\' || c == '"' || c == '\n' || c == '\r' || c == '\t' {
            assert(u[i] == u.subrange(i, i + esc(s).len() as int)[0]);
            assert(u[i] == '\\');
            assert(u[i + 1] == u.subrange(i, i + esc(s).len() as int)[1]);
            assert(esc(s).len() == 2 + esc(s1).len());
            assert forall|k: int|
                0 <= k < esc(s1).len() implies u.subrange(
                i + 2,
                i + 2 + esc(s1).len() as int,
            )[k] == esc(s1)[k] by {
                assert(u.subrange(i, i + esc(s).len() as int)[k + 2] == esc(s)[k + 2]);
                assert(esc(s)[k + 2] == esc(s1)[k]);
            }
            assert(u.subrange(i + 2, i + 2 + esc(s1).len() as int) =~= esc(s1));
            lemma_quoted_scan_through(u, s1, i + 2, target);
            assert(crate::de::first_unq(u, target, i, true, false) == crate::de::first_unq(
                u,
                target,
                i + 1,
                true,
                true,
            ));
            assert(crate::de::first_unq(u, target, i + 1, true, true) == crate::de::first_unq(
                u,
                target,
                i + 2,
                true,
                false,
            ));
        } else {
            assert(u[i] == u.subrange(i, i + esc(s).len() as int)[0]);
            assert(u[i] == c);
            assert(c != '\\' && c != '"');
            assert(esc(s).len() == 1 + esc(s1).len());
            assert forall|k: int|
                0 <= k < esc(s1).len() implies u.subrange(
                i + 1,
                i + 1 + esc(s1).len() as int,
            )[k] == esc(s1)[k] by {
                assert(u.subrange(i, i + esc(s).len() as int)[k + 1] == esc(s)[k + 1]);
                assert(esc(s)[k + 1] == esc(s1)[k]);
            }
            assert(u.subrange(i + 1, i + 1 + esc(s1).len() as int) =~= esc(s1));
            lemma_quoted_scan_through(u, s1, i + 1, target);
            assert(crate::de::first_unq(u, target, i, true, false) == crate::de::first_unq(
                u,
                target,
                i + 1,
                true,
                false,
            ));
        }
    }
}

/// The written form of any round-trip-safe primitive is non-empty, free
/// of line feeds, and has no whitespace at its ends.
pub proof fn lemma_piece_facts(v: Value, d: Delimiter)
    requires
        rt_prim(v),
    ensures
        prim_out(v, d).len() > 0,
        !is_space_char(prim_out(v, d)[0]),
        !is_space_char(prim_out(v, d).last()),
        forall|j: int| 0 <= j < prim_out(v, d).len() ==> #[trigger] prim_out(v, d)[j] != '\n',
{
    let t = prim_out(v, d);
    match v {
        Value::Str(st) => {
            if needs_quoting_spec(st@, d) {
                assert(t == seq!['"'] + esc(st@) + seq!['"']);
                lemma_esc_chars(st@);
                assert forall|j: int| 0 <= j < t.len() implies #[trigger] t[j] != '\n' by {
                    if 1 <= j < t.len() - 1 {
                        assert(t[j] == esc(st@)[j - 1]);
                    }
                }
            } else {
                lemma_bare_piece(v, d);
            }
        },
        _ => {
            lemma_bare_piece(v, d);
        },
    }
}

/// A scan passes over the written form of a round-trip-safe primitive
/// and comes out just past it, still outside quotes.
pub proof fn lemma_piece_through(u: Seq<char>, v: Value, d: Delimiter, i: int)
    requires
        rt_prim(v),
        0 <= i,
        i + prim_out(v, d).len() <= u.len(),
        u.subrange(i, i + prim_out(v, d).len() as int) == prim_out(v, d),
    ensures
        crate::de::first_unq(u, crate::options::delim_char(d), i, false, false)
            == crate::de::first_unq(
            u,
            crate::options::delim_char(d),
            i + prim_out(v, d).len(),
            false,
            false,
        ),
{
    let t = prim_out(v, d);
    let dc = crate::options::delim_char(d);
    let quoted = match v {
        Value::Str(st) => needs_quoting_spec(st@, d),
        _ => false,
    };
    if quoted {
        let st = v->Str_0;
        assert(t == seq!['"'] + esc(st@) + seq!['"']);
        assert(u[i] == u.subrange(i, i + t.len() as int)[0]);
        assert(u[i] == '"');
        assert(dc != '"');
        assert(crate::de::first_unq(u, dc, i, false, false) == crate::de::first_unq(
            u,
            dc,
            i + 1,
            true,
            false,
        ));
        assert forall|k: int|
            0 <= k < esc(st@).len() implies u.subrange(i + 1, i + 1 + esc(st@).len() as int)[k]
            == esc(st@)[k] by {
            assert(u.subrange(i, i + t.len() as int)[k + 1] == t[k + 1]);
            assert(t[k + 1] == esc(st@)[k]);
        }
        assert(u.subrange(i + 1, i + 1 + esc(st@).len() as int) =~= esc(st@));
        assert(u[i + 1 + esc(st@).len()] == u.subrange(i, i + t.len() as int)[t.len() - 1]);
        assert(u[i + 1 + esc(st@).len()] == '"');
        lemma_quoted_scan_through(u, st@, i + 1, dc);
    } else {
        lemma_bare_piece(v, d);
        assert forall|k: int|
            i <= k < i + t.len() implies #[trigger] u[k] != dc && u[k] != '"' by {
            assert(u[k] == u.subrange(i, i + t.len() as int)[k - i]);
            assert(u[k] == t[k - i]);
        }
        lemma_first_unq_skip(u, dc, i, i + t.len() as int);
    }
}

} // verus!

