//! The decoder: a two-pass indentation-aware parser. Lines are tokenized
//! into (depth, content), then a recursive descent follows array headers
//! that declare length, delimiter and an optional column schema, with
//! count and width validation, and an optional path-expansion post-pass.

use vstd::prelude::*;
use vstd::string::StrSliceExecFns;

use crate::error::{Error, ErrorKind};
use crate::options::{DecoderOptions, Delimiter, PathExpansion, delim_char};
use crate::ser::{is_number_token, leading_zeros, lit_false, lit_null, lit_true};
use crate::text::{
    all_digits, chars_to_string, dec_val, digit, is_digit, is_space_char, str_to_chars, subvec, ws,
};
use crate::value::{
    find_key, lemma_find_key, lemma_model_entries, lemma_model_seq, model_entries, model_seq,
    spec_insert, GNumber, GValue, Number, ObjMap, Value,
};

verus! {

/// First position at or after `i` that does not hold a plain space.
pub open spec fn spaces_end(s: Seq<char>, i: int) -> int
    decreases s.len() - i,
{
    if 0 <= i < s.len() && s[i] == ' ' {
        spaces_end(s, i + 1)
    } else {
        i
    }
}

/// First position at or after `i` that does not hold whitespace.
pub open spec fn ws_end(s: Seq<char>, i: int) -> int
    decreases s.len() - i,
{
    if 0 <= i < s.len() && is_space_char(s[i]) {
        ws_end(s, i + 1)
    } else {
        i
    }
}

/// Last position at or before `i` that is preceded by non-whitespace.
pub open spec fn ws_back(s: Seq<char>, i: int) -> int
    decreases i,
{
    if 0 < i <= s.len() && is_space_char(s[i - 1]) {
        ws_back(s, i - 1)
    } else {
        i
    }
}

/// The text with leading and trailing whitespace removed.
pub open spec fn trim(s: Seq<char>) -> Seq<char> {
    let a = ws_end(s, 0);
    let b = ws_back(s, s.len() as int);
    if a >= b {
        Seq::empty()
    } else {
        s.subrange(a, b)
    }
}

/// The text with leading whitespace removed.
pub open spec fn trim_start(s: Seq<char>) -> Seq<char> {
    s.subrange(ws_end(s, 0), s.len() as int)
}

/// First position at or after `i` where `target` occurs outside quotes,
/// honouring backslash escapes inside quotes; `-1` when there is none.
pub open spec fn first_unq(s: Seq<char>, target: char, i: int, in_q: bool, esc: bool) -> int
    decreases s.len() - i,
{
    if !(0 <= i < s.len()) {
        -1
    } else if esc {
        first_unq(s, target, i + 1, in_q, false)
    } else if s[i] == '\\' && in_q {
        first_unq(s, target, i + 1, in_q, true)
    } else if s[i] == '"' {
        first_unq(s, target, i + 1, !in_q, false)
    } else if s[i] == target && !in_q {
        i
    } else {
        first_unq(s, target, i + 1, in_q, false)
    }
}

/// Position of the first colon outside quotes, or `-1`.
pub open spec fn colon_pos(s: Seq<char>) -> int {
    first_unq(s, ':', 0, false, false)
}

/// First position at or after `i` that does not hold `'\n'`-free text:
/// the position of the next line break, or the length.
pub open spec fn nl_end(s: Seq<char>, i: int) -> int
    decreases s.len() - i,
{
    if 0 <= i < s.len() && s[i] != '\n' {
        nl_end(s, i + 1)
    } else {
        i
    }
}

/// A line as `str::lines` yields it: a trailing carriage return is
/// stripped from a line that a line feed ended.
pub open spec fn strip_cr(l: Seq<char>) -> Seq<char> {
    if l.len() > 0 && l.last() == '\r' {
        l.drop_last()
    } else {
        l
    }
}

/// The lines of a text, split at line feeds; a final line ending is
/// optional.
pub open spec fn lines_of(s: Seq<char>) -> Seq<Seq<char>>
    decreases s.len(),
{
    if s.len() == 0 {
        Seq::empty()
    } else {
        let k = nl_end(s, 0);
        if !(0 <= k < s.len()) {
            seq![s]
        } else {
            seq![strip_cr(s.subrange(0, k))] + lines_of(s.subrange(k + 1, s.len() as int))
        }
    }
}

/// A tab inside the leading whitespace of a line.
pub open spec fn tab_in_leading_ws(l: Seq<char>) -> bool {
    exists|j: int|
        0 <= j < l.len() && #[trigger] l[j] == '\t' && forall|k: int|
            0 <= k < j ==> is_space_char(#[trigger] l[k])
}

/// A line that holds only whitespace.
pub open spec fn blank_line(l: Seq<char>) -> bool {
    forall|j: int| 0 <= j < l.len() ==> is_space_char(#[trigger] l[j])
}

/// A line that breaks the strict indentation discipline: a tab in its
/// leading whitespace, or a non-blank line whose leading-space count is
/// not a multiple of the indentation width.
pub open spec fn bad_strict_line(l: Seq<char>, indent: nat) -> bool {
    ||| tab_in_leading_ws(l)
    ||| (!blank_line(l) && spaces_end(l, 0) % (indent as int) != 0)
}

/// Some line of the text breaks the strict indentation discipline.
pub open spec fn has_bad_strict_line(s: Seq<char>, indent: nat) -> bool {
    exists|i: int|
        0 <= i < lines_of(s).len() && bad_strict_line(#[trigger] lines_of(s)[i], indent)
}

/// The tokenized form of the first `upto` lines: content with leading
/// spaces removed, the depth, and the one-based line number; blank lines
/// are dropped.
pub open spec fn tok_lines(ls: Seq<Seq<char>>, upto: nat, indent: nat) -> Seq<
    (Seq<char>, nat, nat),
>
    decreases upto,
{
    if upto == 0 || upto > ls.len() {
        Seq::empty()
    } else {
        let l = ls[upto - 1];
        let lead = spaces_end(l, 0);
        let content = l.subrange(lead, l.len() as int);
        tok_lines(ls, (upto - 1) as nat, indent) + (if content.len() == 0 {
            Seq::empty()
        } else {
            seq![(content, (lead / indent as int) as nat, upto)]
        })
    }
}

} // verus!

verus! {

/// One tokenized input line: its content with the indentation stripped,
/// its depth, and its one-based line number.
#[derive(Debug)]
pub struct Line {
    /// The line's text after the leading spaces.
    pub content: String,
    /// The nesting depth: leading spaces divided by the indent width.
    pub depth: usize,
    /// The one-based line number in the input.
    pub line_number: usize,
}

impl Line {
    /// Ghost model of a line.
    pub open spec fn model(self) -> (Seq<char>, nat, nat) {
        (self.content@, self.depth as nat, self.line_number as nat)
    }
}

/// A parsed array header: the optional key, the declared length, the
/// delimiter, and the optional column schema.
#[derive(Debug)]
pub struct ArrayHeader {
    /// The key before the bracket, when one is present.
    pub key: Option<String>,
    /// The declared element count.
    pub length: usize,
    /// The delimiter named by the marker inside the brackets.
    pub delimiter: Delimiter,
    /// The column names, when the header declares a schema.
    pub fields: Option<Vec<String>>,
}

/// A decoder holding its input text and options.
pub struct Deserializer<'de> {
    input: &'de str,
    options: DecoderOptions,
}

impl<'de> Deserializer<'de> {
    /// The input the decoder was created over.
    pub closed spec fn spec_input(&self) -> Seq<char> {
        self.input@
    }

    /// The options the decoder was created with.
    pub closed spec fn spec_options(&self) -> DecoderOptions {
        self.options
    }

    /// Creates a decoder over the given input.
    pub fn new(input: &'de str, options: DecoderOptions) -> (r: Deserializer<'de>)
        ensures
            r.spec_input() == input@,
            r.spec_options() == options,
    {
        Deserializer { input, options }
    }
}

/// Advances from `i` over plain spaces.
fn scan_spaces(cs: &Vec<char>, i: usize) -> (r: usize)
    requires
        i <= cs@.len(),
    ensures
        i <= r <= cs@.len(),
        r == spaces_end(cs@, i as int),
    decreases cs@.len() - i,
{
    if i < cs.len() {
        if cs[i] == ' ' {
            return scan_spaces(cs, i + 1);
        }
    }
    i
}

/// Advances from `i` over whitespace.
fn scan_ws(cs: &Vec<char>, i: usize) -> (r: usize)
    requires
        i <= cs@.len(),
    ensures
        i <= r <= cs@.len(),
        r == ws_end(cs@, i as int),
    decreases cs@.len() - i,
{
    if i < cs.len() {
        if ws(cs[i]) {
            return scan_ws(cs, i + 1);
        }
    }
    i
}

/// Retreats from `i` over trailing whitespace.
fn scan_ws_back(cs: &Vec<char>, i: usize) -> (r: usize)
    requires
        i <= cs@.len(),
    ensures
        r <= i,
        r == ws_back(cs@, i as int),
    decreases i,
{
    if i > 0 {
        if ws(cs[i - 1]) {
            return scan_ws_back(cs, i - 1);
        }
    }
    i
}

/// The characters of `cs` with leading and trailing whitespace removed.
fn trim_chars(cs: &Vec<char>) -> (r: Vec<char>)
    ensures
        r@ == trim(cs@),
{
    let a = scan_ws(cs, 0);
    let b = scan_ws_back(cs, cs.len());
    if a >= b {
        proof {
            assert(trim(cs@) =~= Seq::<char>::empty());
        }
        Vec::new()
    } else {
        subvec(cs, a, b)
    }
}

/// Position of the first occurrence of `target` outside quotes at or
/// after `i`, honouring escapes inside quotes.
fn scan_unq(cs: &Vec<char>, target: char, i: usize, in_q: bool, esc: bool) -> (r: Option<usize>)
    requires
        i <= cs@.len(),
    ensures
        match r {
            Some(p) => p as int == first_unq(cs@, target, i as int, in_q, esc) && i <= p
                < cs@.len(),
            None => first_unq(cs@, target, i as int, in_q, esc) == -1,
        },
    decreases cs@.len() - i,
{
    if i >= cs.len() {
        return None;
    }
    let c = cs[i];
    if esc {
        scan_unq(cs, target, i + 1, in_q, false)
    } else if c == '\\' && in_q {
        scan_unq(cs, target, i + 1, in_q, true)
    } else if c == '"' {
        scan_unq(cs, target, i + 1, !in_q, false)
    } else if c == target && !in_q {
        Some(i)
    } else {
        scan_unq(cs, target, i + 1, in_q, false)
    }
}

/// Whether the line holds a colon outside quotes.
pub fn has_colon_outside_quotes(content: &str) -> (r: bool)
    ensures
        r == (colon_pos(content@) != -1),
{
    let cs = str_to_chars(content);
    scan_unq(&cs, ':', 0, false, false).is_some()
}

/// Position of the first colon outside quotes, counted in characters.
pub fn find_colon_outside_quotes(content: &str) -> (r: Option<usize>)
    ensures
        match r {
            Some(p) => p as int == colon_pos(content@) && p < content@.len(),
            None => colon_pos(content@) == -1,
        },
{
    let cs = str_to_chars(content);
    scan_unq(&cs, ':', 0, false, false)
}

/// Splits a text into lines at line feeds, stripping the carriage return
/// of a `\r\n` ending.
fn split_lines(cs: &Vec<char>) -> (r: Vec<Vec<char>>)
    ensures
        r@.len() == lines_of(cs@).len(),
        forall|i: int| 0 <= i < r@.len() ==> (#[trigger] r@[i])@ == lines_of(cs@)[i],
    decreases cs@.len(),
{
    if cs.len() == 0 {
        let r: Vec<Vec<char>> = Vec::new();
        return r;
    }
    let k = scan_nl(cs, 0);
    if k == cs.len() {
        let mut r: Vec<Vec<char>> = Vec::new();
        r.push(subvec(cs, 0, cs.len()));
        proof {
            assert(cs@.subrange(0, cs@.len() as int) =~= cs@);
        }
        return r;
    }
    let mut line = subvec(cs, 0, k);
    if line.len() > 0 {
        if line[line.len() - 1] == '\r' {
            let _ = line.pop();
            proof {
                assert(line@ =~= strip_cr(cs@.subrange(0, k as int)));
            }
        }
    }
    proof {
        assert(line@ =~= strip_cr(cs@.subrange(0, k as int)));
    }
    let tail = subvec(cs, k + 1, cs.len());
    let rest = split_lines(&tail);
    let mut r: Vec<Vec<char>> = Vec::new();
    r.push(line);
    let n = rest.len();
    let mut i: usize = 0;
    while i < n
        invariant
            i <= n,
            n == rest@.len(),
            n == lines_of(tail@).len(),
            forall|j: int| 0 <= j < n ==> (#[trigger] rest@[j])@ == lines_of(tail@)[j],
            r@.len() == i + 1,
            r@[0]@ == strip_cr(cs@.subrange(0, k as int)),
            forall|j: int| 1 <= j < r@.len() ==> (#[trigger] r@[j])@ == lines_of(tail@)[j - 1],
        decreases n - i,
    {
        let item = subvec(&rest[i], 0, rest[i].len());
        proof {
            assert(item@ =~= rest@[i as int]@);
        }
        r.push(item);
        i = i + 1;
    }
    proof {
        assert(tail@ == cs@.subrange(k + 1, cs@.len() as int));
        assert(lines_of(cs@) == seq![strip_cr(cs@.subrange(0, k as int))] + lines_of(tail@));
        assert forall|j: int| 0 <= j < r@.len() implies (#[trigger] r@[j])@ == lines_of(cs@)[j] by {
            if j >= 1 {
                assert(lines_of(cs@)[j] == lines_of(tail@)[j - 1]);
            }
        }
    }
    r
}

/// Advances from `i` to the next line feed.
fn scan_nl(cs: &Vec<char>, i: usize) -> (r: usize)
    requires
        i <= cs@.len(),
    ensures
        i <= r <= cs@.len(),
        r == nl_end(cs@, i as int),
    decreases cs@.len() - i,
{
    if i < cs.len() {
        if cs[i] != '\n' {
            return scan_nl(cs, i + 1);
        }
    }
    i
}

/// Splits the input into tokenized lines. In strict mode a tab in leading
/// whitespace or a leading-space count that is not a multiple of the
/// indent width is an `IndentationError`; exactly then the result is an
/// error.
pub fn tokenize_lines(input: &str, options: &DecoderOptions) -> (r: Result<Vec<Line>, Error>)
    requires
        options.indent >= 1,
    ensures
        match r {
            Ok(lines) => {
                &&& !(options.strict && has_bad_strict_line(input@, options.indent as nat))
                &&& lines@.len() == tok_lines(
                    lines_of(input@),
                    lines_of(input@).len() as nat,
                    options.indent as nat,
                ).len()
                &&& forall|j: int|
                    0 <= j < lines@.len() ==> (#[trigger] lines@[j]).model() == tok_lines(
                        lines_of(input@),
                        lines_of(input@).len() as nat,
                        options.indent as nat,
                    )[j]
            },
            Err(e) => {
                &&& options.strict && has_bad_strict_line(input@, options.indent as nat)
                &&& e.spec_kind() is IndentationError
                &&& (e.spec_line() matches Some(l) && 1 <= l <= lines_of(input@).len()
                    && bad_strict_line(lines_of(input@)[l - 1], options.indent as nat) && (
                forall|j: int|
                    0 <= j < l - 1 ==> !bad_strict_line(
                        #[trigger] lines_of(input@)[j],
                        options.indent as nat,
                    )))
                &&& e.spec_column() == Some(1usize)
            },
        },
{
    let cs = str_to_chars(input);
    let ls = split_lines(&cs);
    let ghost lsm = lines_of(input@);
    let mut out: Vec<Line> = Vec::new();
    let n = ls.len();
    let mut i: usize = 0;
    while i < n
        invariant
            i <= n,
            n == ls@.len(),
            n == lsm.len(),
            lsm == lines_of(input@),
            forall|j: int| 0 <= j < n ==> (#[trigger] ls@[j])@ == lsm[j],
            options.indent >= 1,
            out@.len() == tok_lines(lsm, i as nat, options.indent as nat).len(),
            forall|j: int|
                0 <= j < out@.len() ==> (#[trigger] out@[j]).model() == tok_lines(
                    lsm,
                    i as nat,
                    options.indent as nat,
                )[j],
            forall|j: int| 0 <= j < i ==> !bad_strict_line(#[trigger] lsm[j], options.indent as nat)
                || !options.strict,
        decreases n - i,
    {
        let l = &ls[i];
        proof {
            assert(l@ == lsm[i as int]);
        }
        let lead = scan_spaces(l, 0);
        if options.strict {
            let w = scan_ws(l, 0);
            let mut j: usize = 0;
            let mut tab = false;
            while j < w
                invariant
                    j <= w,
                    w <= l@.len(),
                    w == ws_end(l@, 0),
                    tab == exists|t: int| 0 <= t < j && l@[t] == '\t',
                decreases w - j,
            {
                if l[j] == '\t' {
                    tab = true;
                }
                j = j + 1;
            }
            if tab {
                proof {
                    let t = choose|t: int| 0 <= t < w && l@[t] == '\t';
                    lemma_ws_end_prefix(l@, 0, t);
                    assert(tab_in_leading_ws(l@));
                    assert(bad_strict_line(lsm[i as int], options.indent as nat));
                }
                return Err(
                    Error::new(
                        ErrorKind::IndentationError,
                        "Tabs are not allowed in indentation",
                    ).with_location(i + 1, 1),
                );
            }
            let b = trim_chars(l);
            if b.len() != 0 && lead % options.indent != 0 {
                proof {
                    lemma_trim_blank(l@);
                    assert(bad_strict_line(lsm[i as int], options.indent as nat));
                }
                return Err(
                    Error::new(
                        ErrorKind::IndentationError,
                        "Indentation must be a multiple of the indent width",
                    ).with_location(i + 1, 1),
                );
            }
            proof {
                lemma_not_bad(l@, options.indent as nat, b@.len() == 0, lead as int);
            }
        }
        let content = subvec(l, lead, l.len());
        if content.len() != 0 {
            out.push(
                Line {
                    content: chars_to_string(&content),
                    depth: lead / options.indent,
                    line_number: i + 1,
                },
            );
        }
        i = i + 1;
        proof {
            let t1 = tok_lines(lsm, i as nat, options.indent as nat);
            let t0 = tok_lines(lsm, (i - 1) as nat, options.indent as nat);
            assert(t1 == t0 + (if lsm[i - 1].subrange(
                spaces_end(lsm[i - 1], 0),
                lsm[i - 1].len() as int,
            ).len() == 0 {
                Seq::<(Seq<char>, nat, nat)>::empty()
            } else {
                seq![
                    (
                        lsm[i - 1].subrange(spaces_end(lsm[i - 1], 0), lsm[i - 1].len() as int),
                        (spaces_end(lsm[i - 1], 0) / options.indent as int) as nat,
                        i as nat,
                    ),
                ]
            }));
        }
    }
    proof {
        if options.strict && has_bad_strict_line(input@, options.indent as nat) {
            let bi = choose|bi: int|
                0 <= bi < lines_of(input@).len() && bad_strict_line(
                    #[trigger] lines_of(input@)[bi],
                    options.indent as nat,
                );
            assert(!bad_strict_line(lsm[bi], options.indent as nat));
        }
    }
    Ok(out)
}

/// The valid escape letters inside a quoted string.
pub open spec fn valid_esc(c: char) -> bool {
    c == '\\' || c == '"' || c == 'n' || c == 'r' || c == 't'
}

/// The character an escape letter stands for.
pub open spec fn esc_map(c: char) -> char {
    if c == 'n' {
        '\n'
    } else if c == 'r' {
        '\r'
    } else if c == 't' {
        '\t'
    } else {
        c
    }
}

/// The unescaped text from position `i` on, or nothing when an escape is
/// invalid or a backslash ends the text.
pub open spec fn unesc_from(s: Seq<char>, i: int) -> Option<Seq<char>>
    decreases s.len() - i,
{
    if !(0 <= i < s.len()) {
        Some(Seq::empty())
    } else if s[i] == '\\' {
        if i + 1 >= s.len() {
            None
        } else if valid_esc(s[i + 1]) {
            match unesc_from(s, i + 2) {
                Some(r) => Some(seq![esc_map(s[i + 1])] + r),
                None => None,
            }
        } else {
            None
        }
    } else {
        match unesc_from(s, i + 1) {
            Some(r) => Some(seq![s[i]] + r),
            None => None,
        }
    }
}

/// Whether unescaping from `i` fails on a backslash that ends the text
/// (rather than on an invalid escape letter).
pub open spec fn unesc_trailing_backslash(s: Seq<char>, i: int) -> bool
    decreases s.len() - i,
{
    if !(0 <= i < s.len()) {
        false
    } else if s[i] == '\\' {
        if i + 1 >= s.len() {
            true
        } else if valid_esc(s[i + 1]) {
            unesc_trailing_backslash(s, i + 2)
        } else {
            false
        }
    } else {
        unesc_trailing_backslash(s, i + 1)
    }
}

/// Unescapes the body of a quoted string: the five escapes are replaced,
/// an unknown escape is an `InvalidEscape`, a trailing backslash is an
/// `UnterminatedString`.
fn unesc_chars(cs: &Vec<char>, line_number: usize) -> (r: Result<Vec<char>, Error>)
    ensures
        match unesc_from(cs@, 0) {
            Some(u) => r matches Ok(x) && x@ == u,
            None => r matches Err(e) && ((e.spec_kind() is UnterminatedString)
                == unesc_trailing_backslash(cs@, 0)) && ((e.spec_kind() is InvalidEscape) == (
            !unesc_trailing_backslash(cs@, 0))) && e.spec_line() == Some(line_number)
                && e.spec_column() == Some(1usize),
        },
{
    let n = cs.len();
    let mut out: Vec<char> = Vec::new();
    let mut i: usize = 0;
    while i < n
        invariant
            i <= n,
            n == cs@.len(),
            match unesc_from(cs@, i as int) {
                Some(u) => unesc_from(cs@, 0) == Some(out@ + u),
                None => unesc_from(cs@, 0) is None,
            },
            unesc_trailing_backslash(cs@, 0) == unesc_trailing_backslash(cs@, i as int),
        decreases n - i,
    {
        let ghost out0 = out@;
        let ghost i0 = i as int;
        let c = cs[i];
        if c == '\\' {
            if i + 1 >= n {
                proof {
                    assert(unesc_from(cs@, i0) is None);
                }
                return Err(
                    Error::new(
                        ErrorKind::UnterminatedString,
                        "Backslash at end of string",
                    ).with_location(line_number, 1),
                );
            }
            let e = cs[i + 1];
            if e == '\\' {
                out.push('\\');
            } else if e == '"' {
                out.push('"');
            } else if e == 'n' {
                out.push('\n');
            } else if e == 'r' {
                out.push('\r');
            } else if e == 't' {
                out.push('\t');
            } else {
                proof {
                    assert(unesc_from(cs@, i0) is None);
                }
                return Err(
                    Error::new(
                        ErrorKind::InvalidEscape,
                        "Invalid escape sequence",
                    ).with_location(line_number, 1),
                );
            }
            i = i + 2;
            proof {
                match unesc_from(cs@, i as int) {
                    Some(u) => {
                        assert(unesc_from(cs@, i0) == Some(seq![esc_map(cs@[i0 + 1])] + u));
                        assert(out@ + u =~= out0 + (seq![esc_map(cs@[i0 + 1])] + u));
                    },
                    None => {},
                }
            }
        } else {
            out.push(c);
            i = i + 1;
            proof {
                match unesc_from(cs@, i as int) {
                    Some(u) => {
                        assert(unesc_from(cs@, i0) == Some(seq![cs@[i0]] + u));
                        assert(out@ + u =~= out0 + (seq![cs@[i0]] + u));
                    },
                    None => {},
                }
            }
        }
    }
    proof {
        assert(unesc_from(cs@, n as int) == Some(Seq::<char>::empty()));
        assert(out@ + Seq::<char>::empty() =~= out@);
    }
    Ok(out)
}

/// Unescapes the body of a quoted string.
pub fn unescape_string(s: &str, line_number: usize) -> (r: Result<String, Error>)
    ensures
        match unesc_from(s@, 0) {
            Some(u) => r matches Ok(x) && x@ == u,
            None => r matches Err(e) && ((e.spec_kind() is UnterminatedString)
                == unesc_trailing_backslash(s@, 0)) && ((e.spec_kind() is InvalidEscape) == (
            !unesc_trailing_backslash(s@, 0))) && e.spec_line() == Some(line_number)
                && e.spec_column() == Some(1usize),
        },
{
    let cs = str_to_chars(s);
    match unesc_chars(&cs, line_number) {
        Ok(u) => Ok(chars_to_string(&u)),
        Err(e) => Err(e),
    }
}

/// The cells of a delimited row: split at unquoted delimiters, each cell
/// trimmed.
pub open spec fn cells(s: Seq<char>, d: char) -> Seq<Seq<char>>
    decreases s.len(),
{
    let k = first_unq(s, d, 0, false, false);
    if !(0 <= k < s.len()) {
        seq![trim(s)]
    } else {
        seq![trim(s.subrange(0, k))] + cells(s.subrange(k + 1, s.len() as int), d)
    }
}

/// Splits a row into its cells at unquoted delimiters.
fn split_cells_chars(cs: &Vec<char>, d: char) -> (r: Vec<Vec<char>>)
    ensures
        r@.len() == cells(cs@, d).len(),
        forall|j: int| 0 <= j < r@.len() ==> (#[trigger] r@[j])@ == cells(cs@, d)[j],
    decreases cs@.len(),
{
    match scan_unq(cs, d, 0, false, false) {
        None => {
            let mut r: Vec<Vec<char>> = Vec::new();
            r.push(trim_chars(cs));
            r
        },
        Some(k) => {
            let n = cs.len();
            proof {
                assert(k < n);
            }
            let head = subvec(cs, 0, k);
            let first = trim_chars(&head);
            let tail = subvec(cs, k + 1, n);
            let mut rest = split_cells_chars(&tail, d);
            let mut r: Vec<Vec<char>> = Vec::new();
            r.push(first);
            let ghost restm = rest@;
            r.append(&mut rest);
            proof {
                assert(r@.len() == 1 + restm.len());
                assert(cells(cs@, d) == seq![trim(cs@.subrange(0, k as int))] + cells(tail@, d));
                assert forall|j: int| 0 <= j < r@.len() implies (#[trigger] r@[j])@ == cells(
                    cs@,
                    d,
                )[j] by {
                    if j >= 1 {
                        assert(r@[j] == restm[j - 1]);
                        assert(cells(cs@, d)[j] == cells(tail@, d)[j - 1]);
                    } else {
                        assert(r@[0]@ == trim(cs@.subrange(0, k as int)));
                    }
                }
            }
            r
        },
    }
}

/// Splits a row into its cells at unquoted occurrences of the delimiter,
/// honouring quotes and escapes; each cell is trimmed.
pub fn parse_delimited_values(content: &str, delimiter: Delimiter, line_number: usize) -> (r:
    Result<Vec<String>, Error>)
    ensures
        r matches Ok(vs) && vs@.len() == cells(content@, delim_char(delimiter)).len() && forall|
            j: int,
        |
            0 <= j < vs@.len() ==> (#[trigger] vs@[j])@ == cells(
                content@,
                delim_char(delimiter),
            )[j],
{
    let cs = str_to_chars(content);
    let parts = split_cells_chars(&cs, delimiter.as_char());
    let mut vs: Vec<String> = Vec::new();
    let n = parts.len();
    let mut i: usize = 0;
    while i < n
        invariant
            i <= n,
            n == parts@.len(),
            n == cells(cs@, delim_char(delimiter)).len(),
            cs@ == content@,
            forall|j: int|
                0 <= j < n ==> (#[trigger] parts@[j])@ == cells(cs@, delim_char(delimiter))[j],
            vs@.len() == i,
            forall|j: int|
                0 <= j < i ==> (#[trigger] vs@[j])@ == cells(cs@, delim_char(delimiter))[j],
        decreases n - i,
    {
        vs.push(chars_to_string(&parts[i]));
        i = i + 1;
    }
    let _ = line_number;
    Ok(vs)
}

/// A token wrapped in double quotes.
pub open spec fn quoted_tok(t: Seq<char>) -> bool {
    t.len() >= 2 && t[0] == '"' && t.last() == '"'
}

/// A decoded key, tagged with the internal marker when it was quoted and
/// contains a dot, so that path expansion leaves it alone.
pub open spec fn mark_key(u: Seq<char>) -> Seq<char> {
    if u.contains('.') {
        seq!['\u{0}'] + u
    } else {
        u
    }
}

/// Tags a key with the internal marker when it contains a dot.
fn mark_dotted(u: Vec<char>) -> (r: Vec<char>)
    ensures
        r@ == mark_key(u@),
{
    let mut has_dot = false;
    let un = u.len();
    let mut i: usize = 0;
    while i < un
        invariant
            i <= un,
            un == u@.len(),
            has_dot == exists|j: int| 0 <= j < i && u@[j] == '.',
        decreases un - i,
    {
        if u[i] == '.' {
            has_dot = true;
        }
        i = i + 1;
    }
    if has_dot {
        let ghost u0 = u@;
        let mut marked: Vec<char> = Vec::new();
        marked.push('\u{0}');
        let mut u2 = u;
        marked.append(&mut u2);
        proof {
            assert(u0.contains('.'));
            assert(marked@ =~= mark_key(u0));
        }
        marked
    } else {
        proof {
            assert(!u@.contains('.')) by {
                if u@.contains('.') {
                    let j = choose|j: int| 0 <= j < u@.len() && u@[j] == '.';
                }
            }
        }
        u
    }
}

/// Splits a line at its first unquoted colon into a key and the inline
/// value text. A quoted key is unescaped and, when it contains a dot,
/// tagged with the internal marker.
pub fn parse_key_value_line(content: &str, line_number: usize) -> (r: Result<
    (String, String),
    Error,
>)
    ensures
        ({
            let s = content@;
            let c = colon_pos(s);
            if c == -1 {
                r matches Err(e) && e.spec_kind() is MissingColon
            } else {
                let kp = trim(s.subrange(0, c));
                let vp = trim_start(s.subrange(c + 1, s.len() as int));
                if quoted_tok(kp) {
                    match unesc_from(kp.subrange(1, kp.len() - 1), 0) {
                        Some(u) => r matches Ok(kv) && kv.0@ == mark_key(u) && kv.1@ == vp,
                        None => r matches Err(e) && ((e.spec_kind() is UnterminatedString)
                            == unesc_trailing_backslash(kp.subrange(1, kp.len() - 1), 0)) && ((
                        e.spec_kind() is InvalidEscape) == (!unesc_trailing_backslash(
                            kp.subrange(1, kp.len() - 1),
                            0,
                        ))),
                    }
                } else {
                    r matches Ok(kv) && kv.0@ == kp && kv.1@ == vp
                }
            }
        }),
        r matches Err(e) ==> e.spec_line() == Some(line_number) && e.spec_column() == Some(
            1usize,
        ),
{
    let cs = str_to_chars(content);
    let c = match scan_unq(&cs, ':', 0, false, false) {
        Some(c) => c,
        None => {
            return Err(
                Error::new(ErrorKind::MissingColon, "Missing colon after key").with_location(
                    line_number,
                    1,
                ),
            );
        },
    };
    let n = cs.len();
    proof {
        assert(c < n);
    }
    let head = subvec(&cs, 0, c);
    let kp = trim_chars(&head);
    let raw = subvec(&cs, c + 1, n);
    let a = scan_ws(&raw, 0);
    let vp = subvec(&raw, a, raw.len());
    let key: Vec<char> = if kp.len() >= 2 && kp[0] == '"' && kp[kp.len() - 1] == '"' {
        let inner = subvec(&kp, 1, kp.len() - 1);
        let u = match unesc_chars(&inner, line_number) {
            Ok(u) => u,
            Err(e) => {
                return Err(e);
            },
        };
        mark_dotted(u)
    } else {
        kp
    };
    Ok((chars_to_string(&key), chars_to_string(&vp)))
}

/// Whether a line has the rough shape of an array header: it holds `[`,
/// `]` and `:` anywhere at all.
pub fn is_array_header(content: &str) -> (r: bool)
    ensures
        r == (content@.contains('[') && content@.contains(']') && content@.contains(':')),
{
    let cs = str_to_chars(content);
    let n = cs.len();
    let mut ob = false;
    let mut cb = false;
    let mut co = false;
    let mut i: usize = 0;
    while i < n
        invariant
            i <= n,
            n == cs@.len(),
            cs@ == content@,
            ob == exists|j: int| 0 <= j < i && content@[j] == '[',
            cb == exists|j: int| 0 <= j < i && content@[j] == ']',
            co == exists|j: int| 0 <= j < i && content@[j] == ':',
        decreases n - i,
    {
        let ch = cs[i];
        if ch == '[' {
            ob = true;
        }
        if ch == ']' {
            cb = true;
        }
        if ch == ':' {
            co = true;
        }
        i = i + 1;
    }
    ob && cb && co
}

/// The shape of a tabular row: no unquoted colon before the first
/// unquoted delimiter.
pub open spec fn tabular_row(s: Seq<char>, d: Delimiter) -> bool {
    let dp = first_unq(s, delim_char(d), 0, false, false);
    let cp = colon_pos(s);
    if cp == -1 {
        true
    } else if dp == -1 {
        false
    } else {
        dp < cp
    }
}

/// Whether a line has the shape of a tabular row for the delimiter.
pub fn is_tabular_row(content: &str, delimiter: Delimiter) -> (r: bool)
    ensures
        r == tabular_row(content@, delimiter),
{
    let cs = str_to_chars(content);
    let dp = scan_unq(&cs, delimiter.as_char(), 0, false, false);
    let cp = scan_unq(&cs, ':', 0, false, false);
    match cp {
        None => true,
        Some(c) => match dp {
            None => false,
            Some(p) => p < c,
        },
    }
}

/// The number a bare token reads as, if any: a decimal literal with a
/// fraction or exponent keeps its text, an integer is parsed exactly,
/// and a leading zero before another digit disqualifies the token.
pub open spec fn prim_num(t: Seq<char>) -> Option<GNumber> {
    if !is_number_token(t) {
        None
    } else if leading_zeros(t) {
        None
    } else if t.contains('.') || t.contains('e') || t.contains('E') {
        Some(GNumber::Decimal(t))
    } else if t.len() > 0 && t[0] == '-' {
        let m = dec_val(t.subrange(1, t.len() as int));
        if m <= 9223372036854775808 {
            Some(GNumber::I64((-(m as int)) as i64))
        } else {
            None
        }
    } else {
        if dec_val(t) <= u64::MAX {
            Some(GNumber::U64(dec_val(t) as u64))
        } else {
            None
        }
    }
}

/// Whether a failing primitive read fails on an unterminated string
/// (rather than on an invalid escape): the quoted token is unclosed, or
/// its body ends in a dangling backslash.
pub open spec fn prim_fail_unterminated(s: Seq<char>) -> bool {
    let t = trim(s);
    if t.len() > 0 && t[0] == '"' {
        if t.len() < 2 || t.last() != '"' {
            true
        } else {
            unesc_trailing_backslash(t.subrange(1, t.len() - 1), 0)
        }
    } else {
        false
    }
}

/// The value a primitive text reads as: the empty string, a quoted
/// string, a reserved word, a number, or a bare string; nothing when a
/// quoted string is broken.
pub open spec fn prim_model(s: Seq<char>) -> Option<GValue> {
    let t = trim(s);
    if t.len() == 0 {
        Some(GValue::Str(Seq::empty()))
    } else if t[0] == '"' {
        if t.len() < 2 || t.last() != '"' {
            None
        } else {
            match unesc_from(t.subrange(1, t.len() - 1), 0) {
                Some(u) => Some(GValue::Str(u)),
                None => None,
            }
        }
    } else if t == lit_true() {
        Some(GValue::Bool(true))
    } else if t == lit_false() {
        Some(GValue::Bool(false))
    } else if t == lit_null() {
        Some(GValue::Null)
    } else {
        match prim_num(t) {
            Some(n) => Some(GValue::Number(n)),
            None => Some(GValue::Str(t)),
        }
    }
}

/// Reads a bare token as a number, when it is one.
fn parse_number_chars(t: &Vec<char>) -> (r: Option<Number>)
    ensures
        match prim_num(t@) {
            Some(g) => r matches Some(n) && crate::value::model_num(n) == g,
            None => r is None,
        },
{
    if !crate::ser::num_token(t) {
        return None;
    }
    if t.len() >= 2 && t[0] == '0' && digit(t[1]) {
        return None;
    }
    let n = t.len();
    let mut dot = false;
    let mut ex = false;
    let mut i: usize = 0;
    while i < n
        invariant
            i <= n,
            n == t@.len(),
            dot == exists|j: int| 0 <= j < i && t@[j] == '.',
            ex == exists|j: int| 0 <= j < i && (t@[j] == 'e' || t@[j] == 'E'),
        decreases n - i,
    {
        let c = t[i];
        if c == '.' {
            dot = true;
        }
        if c == 'e' || c == 'E' {
            ex = true;
        }
        i = i + 1;
    }
    if dot || ex {
        proof {
            if !(t@.contains('.') || t@.contains('e') || t@.contains('E')) {
                assert(!dot && !ex);
            }
        }
        return Some(Number::Decimal(chars_to_string(t)));
    }
    proof {
        assert(!t@.contains('.')) by {
            if t@.contains('.') {
                let j = choose|j: int| 0 <= j < t@.len() && t@[j] == '.';
                assert(dot);
            }
        }
        assert(!t@.contains('e')) by {
            if t@.contains('e') {
                let j = choose|j: int| 0 <= j < t@.len() && t@[j] == 'e';
                assert(ex);
            }
        }
        assert(!t@.contains('E')) by {
            if t@.contains('E') {
                let j = choose|j: int| 0 <= j < t@.len() && t@[j] == 'E';
                assert(ex);
            }
        }
        crate::ser::lemma_int_token(t@);
    }
    if t[0] == '-' {
        let digits = subvec(t, 1, t.len());
        match crate::text::parse_u64_digits(&digits) {
            Some(m) => {
                if m <= 9223372036854775808u64 {
                    let v: i64 = if m == 9223372036854775808u64 {
                        i64::MIN
                    } else {
                        -(m as i64)
                    };
                    Some(Number::I64(v))
                } else {
                    None
                }
            },
            None => None,
        }
    } else {
        proof {
            assert(t@.subrange(0, t@.len() as int) =~= t@);
        }
        match crate::text::parse_u64_digits(t) {
            Some(v) => Some(Number::U64(v)),
            None => None,
        }
    }
}

/// Reads a primitive text: the empty string, a quoted string, `true`,
/// `false`, `null`, a number, or a bare string. A broken quoted string
/// is an error.
pub fn parse_primitive(content: &str, line_number: usize) -> (r: Result<Value, Error>)
    ensures
        match prim_model(content@) {
            Some(g) => r matches Ok(v) && v.model() == g,
            None => r matches Err(e) && ((e.spec_kind() is UnterminatedString)
                == prim_fail_unterminated(content@)) && ((e.spec_kind() is InvalidEscape) == (
            !prim_fail_unterminated(content@))) && e.spec_line() == Some(line_number)
                && e.spec_column() == Some(1usize),
        },
{
    let cs = str_to_chars(content);
    let t = trim_chars(&cs);
    if t.len() == 0 {
        return Ok(Value::Str(String::new()));
    }
    if t[0] == '"' {
        if t.len() < 2 || t[t.len() - 1] != '"' {
            return Err(
                Error::new(
                    ErrorKind::UnterminatedString,
                    "String starting with quote must end with quote",
                ).with_location(line_number, 1),
            );
        }
        let inner = subvec(&t, 1, t.len() - 1);
        match unesc_chars(&inner, line_number) {
            Ok(u) => {
                return Ok(Value::Str(chars_to_string(&u)));
            },
            Err(e) => {
                return Err(e);
            },
        }
    }
    proof {
        reveal_strlit("true");
        reveal_strlit("false");
        reveal_strlit("null");
        assert("true"@ =~= lit_true());
        assert("false"@ =~= lit_false());
        assert("null"@ =~= lit_null());
    }
    if crate::text::vec_eq_str(&t, "true") {
        return Ok(Value::Bool(true));
    }
    if crate::text::vec_eq_str(&t, "false") {
        return Ok(Value::Bool(false));
    }
    if crate::text::vec_eq_str(&t, "null") {
        return Ok(Value::Null);
    }
    match parse_number_chars(&t) {
        Some(n) => Ok(Value::Number(n)),
        None => Ok(Value::Str(chars_to_string(&t))),
    }
}

/// What a primitive text reads as is never an object or an array.
pub proof fn lemma_prim_model_prim(s: Seq<char>)
    ensures
        prim_model(s) matches Some(g) ==> !(g is Obj) && !(g is Arr),
{
}

/// Ghost classification of a decoding failure: each case names the
/// error kind the decoder reports for it (escape failures cover the two
/// string-escape kinds, told apart by the leaf contracts).
pub enum PErr {
    /// `InvalidSyntax`.
    Syntax,
    /// `UnterminatedString` or `InvalidEscape`.
    Esc,
    /// `MissingColon`.
    MissingColon,
    /// `BlankLineInArray`.
    Blank,
    /// `CountMismatch`.
    Count,
    /// `WidthMismatch`.
    Width,
    /// `ExpansionConflict`.
    Conflict,
    /// `InvalidHeader`.
    Header,
}

/// Whether an error carries the kind a failure class names.
pub open spec fn err_fits(e: Error, k: PErr) -> bool {
    match k {
        PErr::Syntax => e.spec_kind() is InvalidSyntax,
        PErr::Esc => e.spec_kind() is UnterminatedString || e.spec_kind() is InvalidEscape,
        PErr::MissingColon => e.spec_kind() is MissingColon,
        PErr::Blank => e.spec_kind() is BlankLineInArray,
        PErr::Count => e.spec_kind() is CountMismatch,
        PErr::Width => e.spec_kind() is WidthMismatch,
        PErr::Conflict => e.spec_kind() is ExpansionConflict,
        PErr::Header => e.spec_kind() is InvalidHeader,
    }
}

/// Index of the entry with key text `k` in a ghost entry list, or `-1`.
pub open spec fn gfind(ent: Seq<(Seq<char>, GValue)>, k: Seq<char>) -> int
    decreases ent.len(),
{
    if ent.len() == 0 {
        -1
    } else if ent[0].0 == k {
        0
    } else {
        let r = gfind(ent.subrange(1, ent.len() as int), k);
        if r == -1 {
            -1
        } else {
            r + 1
        }
    }
}

/// Insertion into a ghost entry list: an existing key is replaced in
/// place, a new key is appended.
pub open spec fn ginsert(
    ent: Seq<(Seq<char>, GValue)>,
    k: Seq<char>,
    v: GValue,
) -> Seq<(Seq<char>, GValue)> {
    let i = gfind(ent, k);
    if i == -1 {
        ent.push((k, v))
    } else {
        ent.update(i, (k, v))
    }
}

/// The ghost find agrees with the executable one through the model.
pub proof fn lemma_gfind_model(ent: Seq<(String, Value)>, k: Seq<char>)
    ensures
        gfind(model_entries(ent), k) == find_key(ent, k),
    decreases ent.len(),
{
    lemma_model_entries(ent);
    let m = model_entries(ent);
    if ent.len() > 0 {
        assert(m[0] == (ent[0].0@, ent[0].1.model()));
        if ent[0].0@ != k {
            let t = ent.subrange(1, ent.len() as int);
            lemma_gfind_model(t, k);
            lemma_model_entries(t);
            assert forall|i: int|
                0 <= i < t.len() implies model_entries(t)[i] == m.subrange(
                1,
                m.len() as int,
            )[i] by {
                assert(t[i] == ent[i + 1]);
                assert(m[i + 1] == (ent[i + 1].0@, ent[i + 1].1.model()));
            }
            assert(model_entries(t) =~= m.subrange(1, m.len() as int));
        }
    }
}

/// The ghost insertion agrees with the executable one through the model.
pub proof fn lemma_ginsert_model(ent: Seq<(String, Value)>, k: String, v: Value)
    ensures
        model_entries(spec_insert(ent, k, v)) == ginsert(model_entries(ent), k@, v.model()),
{
    lemma_gfind_model(ent, k@);
    lemma_model_entries(ent);
    let i = find_key(ent, k@);
    lemma_find_key(ent, k@);
    if i == -1 {
        let p = ent.push((k, v));
        lemma_model_entries(p);
        assert forall|j: int|
            0 <= j < p.len() implies model_entries(p)[j] == model_entries(ent).push(
                (k@, v.model()),
            )[j] by {
            if j < ent.len() {
                assert(p[j] == ent[j]);
                assert(model_entries(ent)[j] == (ent[j].0@, ent[j].1.model()));
            } else {
                assert(p[j] == (k, v));
            }
        }
        assert(model_entries(p) =~= model_entries(ent).push((k@, v.model())));
    } else {
        let u = ent.update(i, (k, v));
        lemma_model_entries(u);
        assert forall|j: int|
            0 <= j < u.len() implies model_entries(u)[j] == model_entries(ent).update(
                i,
                (k@, v.model()),
            )[j] by {
            assert(0 <= i < ent.len());
            assert(u.len() == ent.len());
            if j != i {
                assert(u[j] == ent[j]);
                assert(model_entries(u)[j] == (u[j].0@, u[j].1.model()));
                assert(model_entries(ent)[j] == (ent[j].0@, ent[j].1.model()));
                assert(model_entries(ent).update(i, (k@, v.model()))[j] == model_entries(
                    ent,
                )[j]);
            } else {
                assert(u[j] == (k, v));
                assert(model_entries(u)[j] == (u[j].0@, u[j].1.model()));
                assert(model_entries(ent).update(i, (k@, v.model()))[j] == (k@, v.model()));
            }
        }
        assert(model_entries(u) =~= model_entries(ent).update(i, (k@, v.model())));
    }
}

/// The key texts of a string list.
pub open spec fn smodels(s: Seq<String>) -> Seq<Seq<char>> {
    s.map_values(|x: String| x@)
}

/// Updating one entry updates its model entry.
pub proof fn lemma_model_update(ent: Seq<(String, Value)>, i: int, k: String, v: Value)
    requires
        0 <= i < ent.len(),
    ensures
        model_entries(ent.update(i, (k, v))) == model_entries(ent).update(i, (k@, v.model())),
{
    lemma_model_entries(ent);
    let u = ent.update(i, (k, v));
    lemma_model_entries(u);
    assert forall|j: int|
        0 <= j < u.len() implies model_entries(u)[j] == model_entries(ent).update(
            i,
            (k@, v.model()),
        )[j] by {
        if j != i {
            assert(u[j] == ent[j]);
            assert(model_entries(u)[j] == (u[j].0@, u[j].1.model()));
            assert(model_entries(ent)[j] == (ent[j].0@, ent[j].1.model()));
        } else {
            assert(u[j] == (k, v));
            assert(model_entries(u)[j] == (u[j].0@, u[j].1.model()));
        }
    }
    assert(model_entries(u) =~= model_entries(ent).update(i, (k@, v.model())));
}

/// Appending one entry appends its model entry.
pub proof fn lemma_model_push(ent: Seq<(String, Value)>, k: String, v: Value)
    ensures
        model_entries(ent.push((k, v))) == model_entries(ent).push((k@, v.model())),
{
    lemma_model_entries(ent);
    let pp = ent.push((k, v));
    lemma_model_entries(pp);
    assert forall|j: int|
        0 <= j < pp.len() implies model_entries(pp)[j] == model_entries(ent).push(
            (k@, v.model()),
        )[j] by {
        if j < ent.len() {
            assert(pp[j] == ent[j]);
            assert(model_entries(ent)[j] == (ent[j].0@, ent[j].1.model()));
        } else {
            assert(pp[j] == (k, v));
        }
        assert(model_entries(pp)[j] == (pp[j].0@, pp[j].1.model()));
    }
    assert(model_entries(pp) =~= model_entries(ent).push((k@, v.model())));
}

/// Index of the first cell that does not read as a primitive, or `-1`.
pub open spec fn first_bad_cell(cls: Seq<Seq<char>>, i: int) -> int
    decreases cls.len() - i,
{
    if !(0 <= i < cls.len()) {
        -1
    } else if prim_model(cls[i]) is None {
        i
    } else {
        first_bad_cell(cls, i + 1)
    }
}

/// The first bad cell is at `j` when those before it read and `j` does
/// not.
pub proof fn lemma_first_bad_at(cls: Seq<Seq<char>>, i: int, j: int)
    requires
        0 <= i <= j < cls.len(),
        forall|l: int| i <= l < j ==> prim_model(#[trigger] cls[l]) is Some,
        prim_model(cls[j]) is None,
    ensures
        first_bad_cell(cls, i) == j,
    decreases j - i,
{
    if i < j {
        lemma_first_bad_at(cls, i + 1, j);
    }
}

/// When every cell from `i` on reads, no cell is bad.
pub proof fn lemma_first_bad_none(cls: Seq<Seq<char>>, i: int)
    requires
        0 <= i,
        forall|l: int| i <= l < cls.len() ==> prim_model(#[trigger] cls[l]) is Some,
    ensures
        first_bad_cell(cls, i) == -1,
    decreases cls.len() - i,
{
    if i < cls.len() {
        lemma_first_bad_none(cls, i + 1);
    }
}

/// The values the cells read as (null standing in for an unreadable
/// cell, which the callers rule out).
pub open spec fn cell_models(cls: Seq<Seq<char>>) -> Seq<GValue> {
    Seq::new(
        cls.len(),
        |j: int|
            match prim_model(cls[j]) {
                Some(g) => g,
                None => GValue::Null,
            },
    )
}

/// Reading an inline row: every cell must read as a primitive (else the
/// first bad cell's escape failure), and the count must equal the
/// declared one (else a count mismatch).
pub open spec fn sp_inline(content: Seq<char>, d: Delimiter, expected: nat) -> Result<
    Seq<GValue>,
    PErr,
> {
    let cls = cells(content, delim_char(d));
    if first_bad_cell(cls, 0) != -1 {
        Err(PErr::Esc)
    } else if cls.len() != expected {
        Err(PErr::Count)
    } else {
        Ok(cell_models(cls))
    }
}

/// Ghost model of an array header.
pub struct HeaderM {
    /// The key text before the bracket, when present.
    pub key: Option<Seq<char>>,
    /// The declared element count.
    pub length: nat,
    /// The delimiter named inside the brackets.
    pub delimiter: Delimiter,
    /// The column names, when a schema is declared.
    pub fields: Option<Seq<Seq<char>>>,
}

/// What reading a line as an array header yields.
pub enum HeaderR {
    /// The line is not an array header.
    NotHeader,
    /// The declared length is not a decimal that fits.
    BadLength,
    /// A quoted key fails to unescape.
    BadKey,
    /// A column name fails to unescape.
    BadField,
    /// A header with its parts.
    Header(HeaderM),
}

/// The delimiter named by a bracket interior, and the remaining length
/// text: a trailing tab or pipe names the delimiter, the comma needs no
/// marker.
pub open spec fn bracket_delim(b: Seq<char>) -> (Delimiter, Seq<char>) {
    if b.len() > 0 && b.last() == '\t' {
        (Delimiter::Tab, b.drop_last())
    } else if b.len() > 0 && b.last() == '|' {
        (Delimiter::Pipe, b.drop_last())
    } else {
        (Delimiter::Comma, b)
    }
}

/// The key text before the bracket: nothing when blank; a quoted key is
/// unescaped and, when it contains a dot, tagged with the internal
/// marker that protects it from path expansion.
pub open spec fn hdr_key(before: Seq<char>) -> Option<Seq<char>> {
    let t = trim(before);
    if t.len() == 0 {
        None
    } else if quoted_tok(t) {
        match unesc_from(t.subrange(1, t.len() - 1), 0) {
            Some(u) => Some(mark_key(u)),
            None => None,
        }
    } else {
        Some(t)
    }
}

/// A quoted key before the bracket that fails to unescape.
pub open spec fn hdr_key_bad(before: Seq<char>) -> bool {
    let t = trim(before);
    t.len() != 0 && quoted_tok(t) && unesc_from(t.subrange(1, t.len() - 1), 0) is None
}

/// A column name read from its cell: a quoted cell is unescaped.
pub open spec fn field_val(c: Seq<char>) -> Option<Seq<char>> {
    if quoted_tok(c) {
        unesc_from(c.subrange(1, c.len() - 1), 0)
    } else {
        Some(c)
    }
}

/// Every column cell reads as a name.
pub open spec fn fields_all_ok(fc: Seq<Seq<char>>) -> bool {
    forall|i: int| 0 <= i < fc.len() ==> field_val(#[trigger] fc[i]) is Some
}

/// The column names of a schema.
pub open spec fn fields_vals(fc: Seq<Seq<char>>) -> Seq<Seq<char>> {
    fc.map_values(
        |c: Seq<char>|
            match field_val(c) {
                Some(u) => u,
                None => Seq::<char>::empty(),
            },
    )
}

/// Reading a line as an array header: the first unquoted bracket pair,
/// the delimiter marker and decimal length inside it, the key text
/// before it, and the optional brace-enclosed schema after it.
pub open spec fn hdr_model(s: Seq<char>) -> HeaderR {
    if !(s.contains('[') && s.contains(']') && s.contains(':')) {
        HeaderR::NotHeader
    } else {
        let bo = first_unq(s, '[', 0, false, false);
        if bo == -1 {
            HeaderR::NotHeader
        } else {
            let bc = first_unq(s, ']', bo + 1, false, false);
            if bc == -1 {
                HeaderR::NotHeader
            } else {
                let dl = bracket_delim(s.subrange(bo + 1, bc));
                if !(dl.1.len() >= 1 && all_digits(dl.1) && dec_val(dl.1) <= usize::MAX) {
                    HeaderR::BadLength
                } else if hdr_key_bad(s.subrange(0, bo)) {
                    HeaderR::BadKey
                } else {
                    let key = hdr_key(s.subrange(0, bo));
                    let after = trim_start(s.subrange(bc + 1, s.len() as int));
                    if after.len() > 0 && after[0] == '{' {
                        let close = first_unq(after, '}', 1, false, false);
                        if close == -1 {
                            HeaderR::Header(
                                HeaderM {
                                    key,
                                    length: dec_val(dl.1),
                                    delimiter: dl.0,
                                    fields: None,
                                },
                            )
                        } else {
                            let fc = cells(after.subrange(1, close), delim_char(dl.0));
                            if fields_all_ok(fc) {
                                HeaderR::Header(
                                    HeaderM {
                                        key,
                                        length: dec_val(dl.1),
                                        delimiter: dl.0,
                                        fields: Some(fields_vals(fc)),
                                    },
                                )
                            } else {
                                HeaderR::BadField
                            }
                        }
                    } else {
                        HeaderR::Header(
                            HeaderM { key, length: dec_val(dl.1), delimiter: dl.0, fields: None },
                        )
                    }
                }
            }
        }
    }
}

/// An executable header matches its ghost model.
pub open spec fn header_matches(h: ArrayHeader, m: HeaderM) -> bool {
    &&& (match (h.key, m.key) {
        (Some(a), Some(b)) => a@ == b,
        (None, None) => true,
        _ => false,
    })
    &&& h.length as nat == m.length
    &&& h.delimiter == m.delimiter
    &&& (match (h.fields, m.fields) {
        (Some(f), Some(g)) => f@.len() == g.len() && forall|i: int|
            0 <= i < f@.len() ==> (#[trigger] f@[i])@ == g[i],
        (None, None) => true,
        _ => false,
    })
}

/// Tries to read a line as an array header. A line without the bracket
/// pair and a colon is no header; a bad length is an `InvalidHeader`
/// error; a column name that fails to unescape propagates that error.
#[verifier::loop_isolation(false)]
pub fn try_parse_array_header(content: &str) -> (r: Result<Option<ArrayHeader>, Error>)
    ensures
        match hdr_model(content@) {
            HeaderR::NotHeader => r matches Ok(h) && h is None,
            HeaderR::BadLength => r matches Err(e) && e.spec_kind() is InvalidHeader,
            HeaderR::BadKey => r matches Err(e) && (e.spec_kind() is InvalidEscape
                || e.spec_kind() is UnterminatedString),
            HeaderR::BadField => r matches Err(e) && (e.spec_kind() is InvalidEscape
                || e.spec_kind() is UnterminatedString),
            HeaderR::Header(hm) => r matches Ok(ho) && ho matches Some(h) && header_matches(
                h,
                hm,
            ),
        },
{
    if !is_array_header(content) {
        return Ok(None);
    }
    let cs = str_to_chars(content);
    let n = cs.len();
    let bo = match scan_unq(&cs, '[', 0, false, false) {
        Some(p) => p,
        None => {
            return Ok(None);
        },
    };
    let bc = match scan_unq(&cs, ']', bo + 1, false, false) {
        Some(p) => p,
        None => {
            return Ok(None);
        },
    };
    let bracket = subvec(&cs, bo + 1, bc);
    let ghost dl = bracket_delim(cs@.subrange(bo + 1, bc as int));
    let (delimiter, ltext) = if bracket.len() > 0 && bracket[bracket.len() - 1] == '\t' {
        (Delimiter::Tab, subvec(&bracket, 0, bracket.len() - 1))
    } else if bracket.len() > 0 && bracket[bracket.len() - 1] == '|' {
        (Delimiter::Pipe, subvec(&bracket, 0, bracket.len() - 1))
    } else {
        let b2 = subvec(&bracket, 0, bracket.len());
        (Delimiter::Comma, b2)
    };
    proof {
        assert(ltext@ =~= dl.1);
        assert(delimiter == dl.0);
    }
    let mut digits_ok = ltext.len() >= 1;
    let ln = ltext.len();
    let mut i: usize = 0;
    while i < ln
        invariant
            i <= ln,
            ln == ltext@.len(),
            digits_ok == (ltext@.len() >= 1 && forall|j: int|
                0 <= j < i ==> is_digit(#[trigger] ltext@[j])),
        decreases ln - i,
    {
        if !digit(ltext[i]) {
            digits_ok = false;
        }
        i = i + 1;
    }
    let length: usize = if digits_ok {
        match crate::text::parse_usize_digits(&ltext) {
            Some(v) => v,
            None => {
                return Err(Error::new(ErrorKind::InvalidHeader, "Invalid array length"));
            },
        }
    } else {
        return Err(Error::new(ErrorKind::InvalidHeader, "Invalid array length"));
    };
    let before = subvec(&cs, 0, bo);
    let kt = trim_chars(&before);
    let key: Option<String> = if kt.len() == 0 {
        None
    } else if kt.len() >= 2 && kt[0] == '"' && kt[kt.len() - 1] == '"' {
        let inner = subvec(&kt, 1, kt.len() - 1);
        match unesc_chars(&inner, 0) {
            Ok(u) => Some(chars_to_string(&mark_dotted(u))),
            Err(e) => {
                return Err(e);
            },
        }
    } else {
        Some(chars_to_string(&kt))
    };
    let rawafter = subvec(&cs, bc + 1, n);
    let a = scan_ws(&rawafter, 0);
    let after = subvec(&rawafter, a, rawafter.len());
    proof {
        assert(after@ =~= trim_start(cs@.subrange(bc + 1, cs@.len() as int)));
    }
    let fields: Option<Vec<String>> = if after.len() > 0 && after[0] == '{' {
        match scan_unq(&after, '}', 1, false, false) {
            None => None,
            Some(close) => {
                let fcontent = subvec(&after, 1, close);
                let fcells = split_cells_chars(&fcontent, delimiter.as_char());
                let mut fs: Vec<String> = Vec::new();
                let fcn = fcells.len();
                let ghost fcm = cells(fcontent@, delim_char(delimiter));
                let mut j: usize = 0;
                while j < fcn
                    invariant
                        j <= fcn,
                        fcn == fcells@.len(),
                        fcn == fcm.len(),
                        forall|l: int| 0 <= l < fcn ==> (#[trigger] fcells@[l])@ == fcm[l],
                        fs@.len() == j,
                        forall|l: int|
                            0 <= l < j ==> field_val(fcm[l]) == Some((#[trigger] fs@[l])@),
                    decreases fcn - j,
                {
                    let c = &fcells[j];
                    proof {
                        assert(c@ == fcm[j as int]);
                    }
                    if c.len() >= 2 && c[0] == '"' && c[c.len() - 1] == '"' {
                        proof {
                            assert(quoted_tok(fcm[j as int]));
                        }
                        let inner = subvec(c, 1, c.len() - 1);
                        proof {
                            assert(inner@ == fcm[j as int].subrange(
                                1,
                                fcm[j as int].len() - 1,
                            ));
                            assert(field_val(fcm[j as int]) == unesc_from(inner@, 0));
                        }
                        match unesc_chars(&inner, 0) {
                            Ok(u) => {
                                fs.push(chars_to_string(&u));
                                proof {
                                    assert(field_val(fcm[j as int]) == Some(fs@[j as int]@));
                                }
                            },
                            Err(e) => {
                                proof {
                                    assert(field_val(fcm[j as int]) is None);
                                    assert(!fields_all_ok(fcm));
                                    assert(content@.contains('[') && content@.contains(']')
                                        && content@.contains(':'));
                                    assert(first_unq(content@, '[', 0, false, false) == bo as int);
                                    assert(first_unq(content@, ']', bo + 1, false, false)
                                        == bc as int);
                                    assert(bracket_delim(content@.subrange(bo + 1, bc as int))
                                        == dl);
                                    assert(dl.1.len() >= 1 && all_digits(dl.1) && dec_val(dl.1)
                                        <= usize::MAX);
                                    assert(after@ == trim_start(
                                        content@.subrange(bc + 1, content@.len() as int),
                                    ));
                                    assert(after@.len() > 0 && after@[0] == '{');
                                    assert(fcm == cells(
                                        after@.subrange(
                                            1,
                                            first_unq(after@, '}', 1, false, false),
                                        ),
                                        delim_char(dl.0),
                                    ));
                                    assert(hdr_model(content@) is BadField);
                                }
                                return Err(e);
                            },
                        }
                    } else {
                        proof {
                            assert(!quoted_tok(fcm[j as int]));
                            assert(field_val(fcm[j as int]) == Some(fcm[j as int]));
                        }
                        fs.push(chars_to_string(c));
                        proof {
                            assert(field_val(fcm[j as int]) == Some(fs@[j as int]@));
                        }
                    }
                    j = j + 1;
                }
                proof {
                    assert forall|l: int| 0 <= l < fcm.len() implies field_val(
                        #[trigger] fcm[l],
                    ) is Some by {
                        assert(field_val(fcm[l]) == Some(fs@[l]@));
                    }
                    assert(fields_all_ok(fcm));
                    assert(fields_vals(fcm).len() == fcm.len());
                    assert forall|l: int| 0 <= l < fs@.len() implies (#[trigger] fs@[l])@
                        == fields_vals(fcm)[l] by {
                        assert(field_val(fcm[l]) == Some(fs@[l]@));
                    }
                }
                Some(fs)
            },
        }
    } else {
        None
    };
    Ok(Some(ArrayHeader { key, length, delimiter, fields }))
}

/// First position at or after `i` holding the character `c`, or the
/// length when there is none.
pub open spec fn plain_end(s: Seq<char>, c: char, i: int) -> int
    decreases s.len() - i,
{
    if 0 <= i < s.len() && s[i] != c {
        plain_end(s, c, i + 1)
    } else {
        i
    }
}

/// Advances from `i` to the first plain occurrence of `c`.
fn scan_plain(cs: &Vec<char>, c: char, i: usize) -> (r: usize)
    requires
        i <= cs@.len(),
    ensures
        i <= r <= cs@.len(),
        r == plain_end(cs@, c, i as int),
        r < cs@.len() ==> cs@[r as int] == c,
    decreases cs@.len() - i,
{
    if i < cs.len() {
        if cs[i] != c {
            return scan_plain(cs, c, i + 1);
        }
    }
    i
}

/// Reads an inline array row: the cells are split at the delimiter and
/// each is read as a primitive; the count must equal the declared one.
pub fn parse_inline_array(
    content: &str,
    delimiter: Delimiter,
    expected_count: usize,
    line_number: usize,
) -> (r: Result<Vec<Value>, Error>)
    ensures
        match r {
            Ok(vs) => {
                &&& vs@.len() == expected_count
                &&& cells(content@, delim_char(delimiter)).len() == expected_count as nat
                &&& forall|j: int|
                    0 <= j < vs@.len() ==> prim_model(
                        cells(content@, delim_char(delimiter))[j],
                    ) == Some((#[trigger] vs@[j]).model())
            },
            Err(e) => e.spec_kind() is CountMismatch || e.spec_kind() is InvalidEscape
                || e.spec_kind() is UnterminatedString,
        },
        match sp_inline(content@, delimiter, expected_count as nat) {
            Ok(gs) => r matches Ok(vs) && model_seq(vs@) == gs,
            Err(k) => r matches Err(e) && err_fits(e, k),
        },
        r matches Err(e) ==> e.spec_line() == Some(line_number) && e.spec_column() == Some(
            1usize,
        ),
{
    let parts = match parse_delimited_values(content, delimiter, line_number) {
        Ok(p) => p,
        Err(e) => {
            proof {
                assert(false);
            }
            return Err(e);
        },
    };
    let mut vs: Vec<Value> = Vec::new();
    let n = parts.len();
    let ghost cm = cells(content@, delim_char(delimiter));
    let mut i: usize = 0;
    while i < n
        invariant
            i <= n,
            n == parts@.len(),
            n == cm.len(),
            cm == cells(content@, delim_char(delimiter)),
            forall|j: int| 0 <= j < n ==> (#[trigger] parts@[j])@ == cm[j],
            vs@.len() == i,
            forall|j: int|
                0 <= j < i ==> prim_model(cm[j]) == Some((#[trigger] vs@[j]).model()),
        decreases n - i,
    {
        match parse_primitive(parts[i].as_str(), line_number) {
            Ok(v) => {
                vs.push(v);
            },
            Err(e) => {
                proof {
                    assert forall|l: int| 0 <= l < i implies prim_model(
                        #[trigger] cm[l],
                    ) is Some by {
                        assert(prim_model(cm[l]) == Some(vs@[l].model()));
                    }
                    lemma_first_bad_at(cm, 0, i as int);
                }
                return Err(e);
            },
        }
        i = i + 1;
    }
    proof {
        assert forall|l: int| 0 <= l < cm.len() implies prim_model(#[trigger] cm[l]) is Some by {
            assert(prim_model(cm[l]) == Some(vs@[l].model()));
        }
        lemma_first_bad_none(cm, 0);
    }
    if vs.len() != expected_count {
        return Err(
            Error::new(
                ErrorKind::CountMismatch,
                "Inline array element count differs from the declared length",
            ).with_location(line_number, 1),
        );
    }
    proof {
        lemma_model_seq(vs@);
        assert forall|j: int|
            0 <= j < vs@.len() implies model_seq(vs@)[j] == cell_models(cm)[j] by {
            assert(prim_model(cm[j]) == Some(vs@[j].model()));
        }
        assert(model_seq(vs@) =~= cell_models(cm));
    }
    Ok(vs)
}

/// The token models of a line list.
pub open spec fn lmodels(ls: Seq<Line>) -> Seq<(Seq<char>, nat, nat)> {
    ls.map_values(|l: Line| l.model())
}

/// One tabular row as an object: the columns are filled in schema order
/// with the cells' values.
pub open spec fn row_fold(
    cls: Seq<Seq<char>>,
    flds: Seq<Seq<char>>,
    j: int,
    acc: Seq<(Seq<char>, GValue)>,
) -> Seq<(Seq<char>, GValue)>
    decreases flds.len() - j,
{
    if !(0 <= j < flds.len() && j < cls.len()) {
        acc
    } else {
        let g = match prim_model(cls[j]) {
            Some(g) => g,
            None => GValue::Null,
        };
        row_fold(cls, flds, j + 1, ginsert(acc, flds[j], g))
    }
}

/// Reading a tabular body from token `c`: rows one level below the
/// parent that fit the row shape are split at the delimiter; a row of
/// the wrong width is a width mismatch, an unreadable cell fails with
/// its escape error, a strict-mode gap is a blank-line error, and at the
/// end the row count must equal the declared length.
pub open spec fn sp_tab(
    toks: Seq<(Seq<char>, nat, nat)>,
    c: int,
    pd: nat,
    len: nat,
    d: Delimiter,
    flds: Seq<Seq<char>>,
    strict: bool,
    rows: Seq<GValue>,
    prev: nat,
    hasprev: bool,
) -> (int, Result<GValue, PErr>)
    decreases toks.len() - c,
{
    if !(0 <= c < toks.len() && toks[c].1 == pd + 1 && tabular_row(toks[c].0, d)) {
        if rows.len() == len {
            (c, Ok(GValue::Arr(rows)))
        } else {
            (c, Err(PErr::Count))
        }
    } else if strict && hasprev && toks[c].2 > prev + 1 {
        (c, Err(PErr::Blank))
    } else {
        let cls = cells(toks[c].0, delim_char(d));
        if cls.len() != flds.len() {
            (c, Err(PErr::Width))
        } else if first_bad_cell(cls, 0) != -1 {
            (c, Err(PErr::Esc))
        } else {
            sp_tab(
                toks,
                c + 1,
                pd,
                len,
                d,
                flds,
                strict,
                rows.push(GValue::Obj(row_fold(cls, flds, 0, Seq::empty()))),
                toks[c].2,
                true,
            )
        }
    }
}

/// Reads the rows of a tabular array at one level below the parent:
/// rows that fit the shape are split into cells mapped to the columns;
/// the width must match the schema and the row count the declared
/// length.
#[verifier::loop_isolation(false)]
fn parse_tabular_array(
    lines: &Vec<Line>,
    cursor: &mut usize,
    parent_depth: usize,
    header: ArrayHeader,
    options: &DecoderOptions,
) -> (r: Result<Value, Error>)
    requires
        *old(cursor) <= lines@.len(),
        header.fields is Some,
    ensures
        *old(cursor) <= *final(cursor) <= lines@.len(),
        r matches Ok(v) ==> v matches Value::Arr(items) && items@.len() == header.length,
        ({
            let st = sp_tab(
                lmodels(lines@),
                *old(cursor) as int,
                parent_depth as nat,
                header.length as nat,
                header.delimiter,
                (match header.fields {
                    Some(f) => smodels(f@),
                    None => Seq::empty(),
                }),
                options.strict,
                Seq::empty(),
                0,
                false,
            );
            &&& *final(cursor) as int == st.0
            &&& (r is Ok) == (st.1 is Ok)
            &&& (r matches Ok(v) ==> (st.1 matches Ok(g) && v.model() == g))
            &&& (r matches Err(e) ==> (st.1 matches Err(k) && err_fits(e, k)))
        }),
{
    let ghost toks = lmodels(lines@);
    let ghost c0 = *cursor as int;
    proof {
        assert(forall|l: int| 0 <= l < lines@.len() ==> toks[l] == (#[trigger] lines@[l]).model());
    }
    let fields = match &header.fields {
        Some(f) => f,
        None => {
            proof {
                assert(false);
            }
            return Err(Error::custom("missing schema"));
        },
    };
    let ghost flds = smodels(fields@);
    proof {
        assert(forall|l: int| 0 <= l < fields@.len() ==> flds[l] == (#[trigger] fields@[l])@);
    }
    let mut rows: Vec<Value> = Vec::new();
    let mut prev_line: usize = 0;
    let mut has_prev = false;
    proof {
        assert(model_seq(rows@) =~= Seq::<GValue>::empty());
    }
    while *cursor < lines.len()
        invariant
            *old(cursor) <= *cursor <= lines@.len(),
            sp_tab(
                toks,
                c0,
                parent_depth as nat,
                header.length as nat,
                header.delimiter,
                flds,
                options.strict,
                Seq::empty(),
                0,
                false,
            ) == sp_tab(
                toks,
                *cursor as int,
                parent_depth as nat,
                header.length as nat,
                header.delimiter,
                flds,
                options.strict,
                model_seq(rows@),
                prev_line as nat,
                has_prev,
            ),
        decreases lines@.len() - *cursor,
    {
        let ghost c = *cursor as int;
        let line = &lines[*cursor];
        proof {
            assert(toks[c] == lines@[c].model());
        }
        if !(line.depth >= 1 && line.depth - 1 == parent_depth) {
            proof {
                lemma_model_seq(rows@);
                let st2 = sp_tab(
                    toks,
                    *cursor as int,
                    parent_depth as nat,
                    header.length as nat,
                    header.delimiter,
                    flds,
                    options.strict,
                    model_seq(rows@),
                    prev_line as nat,
                    has_prev,
                );
                assert(st2.0 == *cursor as int);
                if model_seq(rows@).len() == header.length as nat {
                    assert(st2.1 == Ok::<GValue, PErr>(GValue::Arr(model_seq(rows@))));
                } else {
                    assert(st2.1 == Err::<GValue, PErr>(PErr::Count));
                }
            }
            if rows.len() != header.length {
                return Err(
                    Error::new(
                        ErrorKind::CountMismatch,
                        "Row count differs from the declared length",
                    ),
                );
            }
            return Ok(Value::Arr(rows));
        }
        if !is_tabular_row(line.content.as_str(), header.delimiter) {
            proof {
                lemma_model_seq(rows@);
                let st2 = sp_tab(
                    toks,
                    *cursor as int,
                    parent_depth as nat,
                    header.length as nat,
                    header.delimiter,
                    flds,
                    options.strict,
                    model_seq(rows@),
                    prev_line as nat,
                    has_prev,
                );
                assert(st2.0 == *cursor as int);
                if model_seq(rows@).len() == header.length as nat {
                    assert(st2.1 == Ok::<GValue, PErr>(GValue::Arr(model_seq(rows@))));
                } else {
                    assert(st2.1 == Err::<GValue, PErr>(PErr::Count));
                }
            }
            if rows.len() != header.length {
                return Err(
                    Error::new(
                        ErrorKind::CountMismatch,
                        "Row count differs from the declared length",
                    ),
                );
            }
            return Ok(Value::Arr(rows));
        }
        if options.strict && has_prev && line.line_number > prev_line && line.line_number
            - prev_line > 1 {
            return Err(
                Error::new(
                    ErrorKind::BlankLineInArray,
                    "Blank lines are not allowed inside arrays",
                ).with_location(line.line_number, 1),
            );
        }
        let values = match parse_delimited_values(
            line.content.as_str(),
            header.delimiter,
            line.line_number,
        ) {
            Ok(v) => v,
            Err(e) => {
                proof {
                    assert(false);
                }
                return Err(e);
            },
        };
        let ghost cls = cells(toks[c].0, delim_char(header.delimiter));
        proof {
            assert(forall|l: int| 0 <= l < values@.len() ==> (#[trigger] values@[l])@ == cls[l]);
        }
        if values.len() != fields.len() {
            return Err(
                Error::new(
                    ErrorKind::WidthMismatch,
                    "Row width differs from the declared column count",
                ).with_location(line.line_number, 1),
            );
        }
        let mut obj = ObjMap::new();
        let fn_ = fields.len();
        let mut j: usize = 0;
        proof {
            assert(model_entries(obj@) =~= Seq::<(Seq<char>, GValue)>::empty());
        }
        while j < fn_
            invariant
                j <= fn_,
                fn_ == fields@.len(),
                fn_ == values@.len(),
                fn_ == cls.len(),
                fn_ == flds.len(),
                forall|l: int| 0 <= l < values@.len() ==> (#[trigger] values@[l])@ == cls[l],
                forall|l: int| 0 <= l < fields@.len() ==> flds[l] == (#[trigger] fields@[l])@,
                forall|l: int| 0 <= l < j ==> prim_model(#[trigger] cls[l]) is Some,
                row_fold(cls, flds, 0, Seq::empty()) == row_fold(
                    cls,
                    flds,
                    j as int,
                    model_entries(obj@),
                ),
                obj.wf(),
            decreases fn_ - j,
        {
            let value = match parse_primitive(values[j].as_str(), line.line_number) {
                Ok(v) => v,
                Err(e) => {
                    proof {
                        lemma_first_bad_at(cls, 0, j as int);
                    }
                    return Err(e);
                },
            };
            let ghost before = obj@;
            let ghost fkey = fields@[j as int];
            obj.insert(fields[j].clone(), value);
            proof {
                lemma_ginsert_model(before, fkey, value);
            }
            j = j + 1;
        }
        proof {
            lemma_first_bad_none(cls, 0);
        }
        let ghost rowsm0 = model_seq(rows@);
        proof {
            lemma_model_seq(rows@);
        }
        rows.push(Value::Object(obj));
        prev_line = line.line_number;
        has_prev = true;
        *cursor += 1;
        proof {
            lemma_model_seq(rows@);
            assert forall|l: int|
                0 <= l < model_seq(rows@).len() implies model_seq(rows@)[l] == rowsm0.push(
                GValue::Obj(row_fold(cls, flds, 0, Seq::empty())),
            )[l] by {
                assert(model_seq(rows@)[l] == rows@[l].model());
                if l < rows@.len() - 1 {
                    assert(rowsm0[l] == rows@[l].model());
                } else {
                    assert(rows@[l] matches Value::Object(mm) && mm.entries@ == rows@[l]->Object_0.entries@);
                }
            }
            assert(model_seq(rows@) =~= rowsm0.push(
                GValue::Obj(row_fold(cls, flds, 0, Seq::empty())),
            ));
        }
    }
    proof {
        lemma_model_seq(rows@);
        let st2 = sp_tab(
            toks,
            *cursor as int,
            parent_depth as nat,
            header.length as nat,
            header.delimiter,
            flds,
            options.strict,
            model_seq(rows@),
            prev_line as nat,
            has_prev,
        );
        assert(st2.0 == *cursor as int);
        if model_seq(rows@).len() == header.length as nat {
            assert(st2.1 == Ok::<GValue, PErr>(GValue::Arr(model_seq(rows@))));
        } else {
            assert(st2.1 == Err::<GValue, PErr>(PErr::Count));
        }
    }
    if rows.len() != header.length {
        return Err(
            Error::new(
                ErrorKind::CountMismatch,
                "Row count differs from the declared length",
            ),
        );
    }
    Ok(Value::Arr(rows))
}

/// The key and inline value a key-value line splits into.
pub open spec fn sp_kv(s: Seq<char>) -> Result<(Seq<char>, Seq<char>), PErr> {
    let c = colon_pos(s);
    if c == -1 {
        Err(PErr::MissingColon)
    } else {
        let kp = trim(s.subrange(0, c));
        let vp = trim_start(s.subrange(c + 1, s.len() as int));
        if quoted_tok(kp) {
            match unesc_from(kp.subrange(1, kp.len() - 1), 0) {
                Some(u) => Ok((mark_key(u), vp)),
                None => Err(PErr::Esc),
            }
        } else {
            Ok((kp, vp))
        }
    }
}

/// A continuation cursor, clamped to strict in-bounds progress
/// (sub-parses always move past the line that introduced them and stay
/// within the tokens, so the clamp never fires on real runs; it makes
/// the recursion's progress structural).
pub open spec fn adv(n: int, c: int, c2: int) -> int {
    if c < c2 <= n {
        c2
    } else if c + 1 <= n {
        c + 1
    } else {
        n
    }
}

/// The items gathered so far against the declared length: the array when
/// they agree, a count mismatch when they do not.
pub open spec fn sp_count_done(c: int, items: Seq<GValue>, len: nat) -> (int, Result<
    GValue,
    PErr,
>) {
    if items.len() == len {
        (c, Ok(GValue::Arr(items)))
    } else {
        (c, Err(PErr::Count))
    }
}

/// Reading the further fields of an object list item from token `c`:
/// lines one level below the dash add fields by their kind (keyed array
/// header, nested block, or inline primitive).
pub open spec fn sp_sibs(
    toks: Seq<(Seq<char>, nat, nat)>,
    c: int,
    dash: nat,
    strict: bool,
    ent: Seq<(Seq<char>, GValue)>,
) -> (int, Result<Seq<(Seq<char>, GValue)>, PErr>)
    decreases toks.len() - c, 0nat,
{
    if !(0 <= c < toks.len() && toks[c].1 == dash + 1) {
        (c, Ok(ent))
    } else {
        let s0 = toks[c].0;
        match sp_kv(s0) {
            Err(k) => (c, Err(k)),
            Ok(kv) => match hdr_model(s0) {
                HeaderR::BadLength => (c, Err(PErr::Header)),
                HeaderR::BadKey => (c, Err(PErr::Esc)),
                HeaderR::BadField => (c, Err(PErr::Esc)),
                HeaderR::Header(hm) => {
                    let akey = match hm.key {
                        Some(k) => k,
                        None => kv.0,
                    };
                    if kv.1.len() != 0 {
                        match sp_inline(kv.1, hm.delimiter, hm.length) {
                            Ok(gs) => sp_sibs(
                                toks,
                                c + 1,
                                dash,
                                strict,
                                ginsert(ent, akey, GValue::Arr(gs)),
                            ),
                            Err(k) => (c, Err(k)),
                        }
                    } else {
                        let br = sp_body(
                            toks,
                            c + 1,
                            dash,
                            hm.length,
                            hm.delimiter,
                            hm.fields,
                            strict,
                        );
                        match br.1 {
                            Ok(g) => sp_sibs(
                                toks,
                                adv(toks.len() as int, c, br.0),
                                dash,
                                strict,
                                ginsert(ent, akey, g),
                            ),
                            Err(k) => (br.0, Err(k)),
                        }
                    }
                },
                HeaderR::NotHeader => {
                    if kv.1.len() == 0 {
                        let nr = sp_obj(toks, c + 1, (dash + 2) as nat, strict, Seq::empty());
                        match nr.1 {
                            Ok(nent) => sp_sibs(
                                toks,
                                adv(toks.len() as int, c, nr.0),
                                dash,
                                strict,
                                ginsert(ent, kv.0, GValue::Obj(nent)),
                            ),
                            Err(k) => (nr.0, Err(k)),
                        }
                    } else {
                        match prim_model(kv.1) {
                            Some(g) => sp_sibs(toks, c + 1, dash, strict, ginsert(ent, kv.0, g)),
                            None => (c, Err(PErr::Esc)),
                        }
                    }
                },
            },
        }
    }
}

/// A plain scan that reaches the end never saw its character.
pub proof fn lemma_plain_end_all(s: Seq<char>, ch: char, i: int)
    requires
        0 <= i <= s.len(),
        plain_end(s, ch, i) == s.len(),
    ensures
        forall|j: int| i <= j < s.len() ==> #[trigger] s[j] != ch,
    decreases s.len() - i,
{
    if i < s.len() {
        assert(s[i] != ch);
        lemma_plain_end_all(s, ch, i + 1);
    }
}

/// Reading an object block from token `c`: the sibling lines at exactly
/// `depth` become the entries, each valued by its line kind (inline
/// array, array body, nested block one level deeper, or primitive).
pub open spec fn sp_obj(
    toks: Seq<(Seq<char>, nat, nat)>,
    c: int,
    depth: nat,
    strict: bool,
    acc: Seq<(Seq<char>, GValue)>,
) -> (int, Result<Seq<(Seq<char>, GValue)>, PErr>)
    decreases toks.len() - c, 5nat,
{
    if !(0 <= c < toks.len() && toks[c].1 == depth) {
        (c, Ok(acc))
    } else {
        let s0 = toks[c].0;
        match hdr_model(s0) {
            HeaderR::BadLength => (c, Err(PErr::Header)),
            HeaderR::BadKey => (c, Err(PErr::Esc)),
            HeaderR::BadField => (c, Err(PErr::Esc)),
            HeaderR::Header(hm) => {
                let key = match hm.key {
                    Some(k) => k,
                    None => Seq::empty(),
                };
                let colon = colon_pos(s0);
                if colon == -1 {
                    (c, Err(PErr::Syntax))
                } else {
                    let vp = trim_start(s0.subrange(colon + 1, s0.len() as int));
                    if vp.len() > 0 {
                        match sp_inline(vp, hm.delimiter, hm.length) {
                            Ok(gs) => sp_obj(
                                toks,
                                c + 1,
                                depth,
                                strict,
                                ginsert(acc, key, GValue::Arr(gs)),
                            ),
                            Err(k) => (c, Err(k)),
                        }
                    } else {
                        let br = sp_body(
                            toks,
                            c + 1,
                            depth,
                            hm.length,
                            hm.delimiter,
                            hm.fields,
                            strict,
                        );
                        match br.1 {
                            Ok(g) => sp_obj(
                                toks,
                                adv(toks.len() as int, c, br.0),
                                depth,
                                strict,
                                ginsert(acc, key, g),
                            ),
                            Err(k) => (br.0, Err(k)),
                        }
                    }
                }
            },
            HeaderR::NotHeader => {
                match sp_kv(s0) {
                    Err(k) => (c, Err(k)),
                    Ok(kv) => {
                        if kv.1.len() == 0 {
                            if c + 1 < toks.len() && toks[c + 1].1 == depth + 1 {
                                let nr = sp_obj(
                                    toks,
                                    c + 1,
                                    (depth + 1) as nat,
                                    strict,
                                    Seq::empty(),
                                );
                                match nr.1 {
                                    Ok(nent) => sp_obj(
                                        toks,
                                        adv(toks.len() as int, c, nr.0),
                                        depth,
                                        strict,
                                        ginsert(acc, kv.0, GValue::Obj(nent)),
                                    ),
                                    Err(k) => (nr.0, Err(k)),
                                }
                            } else {
                                sp_obj(
                                    toks,
                                    c + 1,
                                    depth,
                                    strict,
                                    ginsert(acc, kv.0, GValue::Obj(Seq::empty())),
                                )
                            }
                        } else {
                            match prim_model(kv.1) {
                                Some(g) => sp_obj(
                                    toks,
                                    c + 1,
                                    depth,
                                    strict,
                                    ginsert(acc, kv.0, g),
                                ),
                                None => (c, Err(PErr::Esc)),
                            }
                        }
                    },
                }
            },
        }
    }
}

/// Reading a list-array body from token `c`: each bulleted item one
/// level below the parent is a bare dash (an empty object), a key-less
/// inner header (an array item), a keyed header or key-value line (an
/// object item with its further fields one level deeper), or a
/// primitive; the item count must equal the declared length.
pub open spec fn sp_list(
    toks: Seq<(Seq<char>, nat, nat)>,
    c: int,
    pd: nat,
    len: nat,
    d: Delimiter,
    strict: bool,
    items: Seq<GValue>,
    prev: nat,
    hasprev: bool,
) -> (int, Result<GValue, PErr>)
    decreases toks.len() - c, 3nat,
{
    if !(0 <= c < toks.len() && toks[c].1 == pd + 1) {
        sp_count_done(c, items, len)
    } else {
        let s0 = toks[c].0;
        let ln = toks[c].2;
        if !(s0.len() > 0 && s0[0] == '-') {
            sp_count_done(c, items, len)
        } else if strict && hasprev && ln > prev + 1 {
            (c, Err(PErr::Blank))
        } else {
            if s0.len() >= 2 && s0[1] == ' ' {
                sp_list_item(toks, c, pd, len, d, strict, items, s0.subrange(2, s0.len() as int))
            } else if s0.len() == 1 {
                sp_list(
                    toks,
                    c + 1,
                    pd,
                    len,
                    d,
                    strict,
                    items.push(GValue::Obj(Seq::empty())),
                    ln,
                    true,
                )
            } else {
                sp_count_done(c, items, len)
            }
        }
    }
}

/// One dashed item, given its content after the dash.
pub open spec fn sp_list_item(
    toks: Seq<(Seq<char>, nat, nat)>,
    c: int,
    pd: nat,
    len: nat,
    d: Delimiter,
    strict: bool,
    items: Seq<GValue>,
    item: Seq<char>,
) -> (int, Result<GValue, PErr>)
    decreases toks.len() - c, 2nat,
{
    if !(0 <= c < toks.len()) {
        sp_count_done(c, items, len)
    } else {
        let ln = toks[c].2;
        if item.len() == 0 {
            sp_list(toks, c + 1, pd, len, d, strict, items.push(GValue::Obj(Seq::empty())), ln, true)
        } else {
            match hdr_model(item) {
                HeaderR::BadLength => (c, Err(PErr::Header)),
                HeaderR::BadKey => (c, Err(PErr::Esc)),
                HeaderR::BadField => (c, Err(PErr::Esc)),
                HeaderR::Header(hm) => {
                    if hm.key is None {
                        let pos = plain_end(item, ':', 0);
                        if pos >= item.len() {
                            (c, Err(PErr::Syntax))
                        } else {
                            let vp = trim_start(item.subrange(pos + 1, item.len() as int));
                            if vp.len() > 0 {
                                match sp_inline(vp, hm.delimiter, hm.length) {
                                    Ok(gs) => sp_list(
                                        toks,
                                        c + 1,
                                        pd,
                                        len,
                                        d,
                                        strict,
                                        items.push(GValue::Arr(gs)),
                                        ln,
                                        true,
                                    ),
                                    Err(k) => (c, Err(k)),
                                }
                            } else {
                                let br = sp_body(
                                    toks,
                                    c + 1,
                                    (pd + 1) as nat,
                                    hm.length,
                                    hm.delimiter,
                                    hm.fields,
                                    strict,
                                );
                                match br.1 {
                                    Ok(g) => sp_list(
                                        toks,
                                        adv(toks.len() as int, c, br.0),
                                        pd,
                                        len,
                                        d,
                                        strict,
                                        items.push(g),
                                        ln,
                                        true,
                                    ),
                                    Err(k) => (br.0, Err(k)),
                                }
                            }
                        }
                    } else {
                        sp_list_obj_item(toks, c, pd, len, d, strict, items, item, Some(hm))
                    }
                },
                HeaderR::NotHeader => {
                    let pos = plain_end(item, ':', 0);
                    if pos < item.len() {
                        sp_list_obj_item(toks, c, pd, len, d, strict, items, item, None)
                    } else {
                        match prim_model(item) {
                            Some(g) => sp_list(
                                toks,
                                c + 1,
                                pd,
                                len,
                                d,
                                strict,
                                items.push(g),
                                ln,
                                true,
                            ),
                            None => (c, Err(PErr::Esc)),
                        }
                    }
                },
            }
        }
    }
}

/// An object item after the dash: the first field comes from the dash
/// line, further fields follow one level deeper, then the item joins the
/// list.
pub open spec fn sp_list_obj_item(
    toks: Seq<(Seq<char>, nat, nat)>,
    c: int,
    pd: nat,
    len: nat,
    d: Delimiter,
    strict: bool,
    items: Seq<GValue>,
    item: Seq<char>,
    keyed: Option<HeaderM>,
) -> (int, Result<GValue, PErr>)
    decreases toks.len() - c, 1nat,
{
    if !(0 <= c < toks.len()) {
        sp_count_done(c, items, len)
    } else {
        let ln = toks[c].2;
        match sp_kv(item) {
            Err(k) => (c, Err(k)),
            Ok(kv) => {
                let first = match keyed {
                    Some(hm) => {
                        let akey = match hm.key {
                            Some(k) => k,
                            None => kv.0,
                        };
                        if kv.1.len() != 0 {
                            match sp_inline(kv.1, hm.delimiter, hm.length) {
                                Ok(gs) => (
                                    c + 1,
                                    Ok(ginsert(Seq::empty(), akey, GValue::Arr(gs))),
                                ),
                                Err(k) => (c, Err::<Seq<(Seq<char>, GValue)>, PErr>(k)),
                            }
                        } else {
                            let br = sp_body(
                                toks,
                                c + 1,
                                (pd + 1) as nat,
                                hm.length,
                                hm.delimiter,
                                hm.fields,
                                strict,
                            );
                            match br.1 {
                                Ok(g) => (adv(toks.len() as int, c, br.0), Ok(ginsert(Seq::empty(), akey, g))),
                                Err(k) => (br.0, Err(k)),
                            }
                        }
                    },
                    None => {
                        if kv.1.len() == 0 {
                            if c + 1 < toks.len() && toks[c + 1].1 == pd + 3 {
                                let nr = sp_obj(
                                    toks,
                                    c + 1,
                                    (pd + 3) as nat,
                                    strict,
                                    Seq::empty(),
                                );
                                match nr.1 {
                                    Ok(nent) => (
                                        adv(toks.len() as int, c, nr.0),
                                        Ok(
                                            ginsert(
                                                Seq::empty(),
                                                kv.0,
                                                GValue::Obj(nent),
                                            ),
                                        ),
                                    ),
                                    Err(k) => (nr.0, Err(k)),
                                }
                            } else {
                                (
                                    c + 1,
                                    Ok(
                                        ginsert(
                                            Seq::empty(),
                                            kv.0,
                                            GValue::Obj(Seq::empty()),
                                        ),
                                    ),
                                )
                            }
                        } else {
                            match prim_model(kv.1) {
                                Some(g) => (c + 1, Ok(ginsert(Seq::empty(), kv.0, g))),
                                None => (c, Err(PErr::Esc)),
                            }
                        }
                    },
                };
                match first.1 {
                    Err(k) => (first.0, Err(k)),
                    Ok(obj0) => {
                        let sr = sp_sibs(toks, adv(toks.len() as int, c, first.0), (pd + 1) as nat, strict, obj0);
                        match sr.1 {
                            Ok(ent) => sp_list(
                                toks,
                                adv(toks.len() as int, c, sr.0),
                                pd,
                                len,
                                d,
                                strict,
                                items.push(GValue::Obj(ent)),
                                ln,
                                true,
                            ),
                            Err(k) => (sr.0, Err(k)),
                        }
                    },
                }
            },
        }
    }
}

/// Reading an array body from token `c`: tabular when the header
/// declares a schema, bulleted otherwise.
pub open spec fn sp_body(
    toks: Seq<(Seq<char>, nat, nat)>,
    c: int,
    pd: nat,
    len: nat,
    d: Delimiter,
    flds: Option<Seq<Seq<char>>>,
    strict: bool,
) -> (int, Result<GValue, PErr>)
    decreases toks.len() - c, 4nat,
{
    match flds {
        Some(f) => sp_tab(toks, c, pd, len, d, f, strict, Seq::empty(), 0, false),
        None => sp_list(toks, c, pd, len, d, strict, Seq::empty(), 0, false),
    }
}

/// Reads the fields of an object list item that follow the first one:
/// lines one level below the dash become further fields of the item.
#[verifier::loop_isolation(false)]
fn parse_item_siblings(
    lines: &Vec<Line>,
    cursor: &mut usize,
    dash_depth: usize,
    obj: &mut ObjMap,
    options: &DecoderOptions,
) -> (r: Result<(), Error>)
    requires
        *old(cursor) <= lines@.len(),
        old(obj).wf(),
    ensures
        *old(cursor) <= *final(cursor) <= lines@.len(),
        final(obj).wf(),
        ({
            let st = sp_sibs(
                lmodels(lines@),
                *old(cursor) as int,
                dash_depth as nat,
                options.strict,
                model_entries(old(obj)@),
            );
            &&& *final(cursor) as int == st.0
            &&& (r is Ok) == (st.1 is Ok)
            &&& (r is Ok ==> (st.1 matches Ok(ent2) && model_entries(final(obj)@) == ent2))
            &&& (r matches Err(e) ==> (st.1 matches Err(k) && err_fits(e, k)))
        }),
    decreases lines@.len() - *old(cursor), 3nat,
{
    let ghost toks = lmodels(lines@);
    let ghost c0 = *cursor as int;
    let ghost dashn = dash_depth as nat;
    let ghost ent0 = model_entries(old(obj)@);
    proof {
        assert(forall|l: int| 0 <= l < lines@.len() ==> toks[l] == (#[trigger] lines@[l]).model());
    }
    while *cursor < lines.len()
        invariant
            *old(cursor) <= *cursor <= lines@.len(),
            obj.wf(),
            sp_sibs(toks, c0, dashn, options.strict, ent0) == sp_sibs(
                toks,
                *cursor as int,
                dashn,
                options.strict,
                model_entries(obj@),
            ),
        decreases lines@.len() - *cursor,
    {
        let ghost c = *cursor as int;
        let ghost accm = model_entries(obj@);
        let line = &lines[*cursor];
        proof {
            assert(toks[c] == lines@[c].model());
        }
        if !(line.depth >= 1 && line.depth - 1 == dash_depth) {
            proof {
                assert(sp_sibs(toks, c, dashn, options.strict, accm) == (
                    c,
                    Ok::<Seq<(Seq<char>, GValue)>, PErr>(accm),
                ));
            }
            return Ok(());
        }
        let ghost s0 = toks[c].0;
        let (sib_key, sib_value) = match parse_key_value_line(
            line.content.as_str(),
            line.line_number,
        ) {
            Ok(kv) => kv,
            Err(e) => {
                proof {
                    assert(sp_kv(s0) is Err);
                }
                return Err(e);
            },
        };
        proof {
            assert(sp_kv(s0) == Ok::<(Seq<char>, Seq<char>), PErr>((sib_key@, sib_value@)));
        }
        let sib_header = match try_parse_array_header(line.content.as_str()) {
            Ok(h) => h,
            Err(e) => {
                return Err(e);
            },
        };
        match sib_header {
            Some(h) => {
                let ghost hm = hdr_model(s0)->Header_0;
                let ln = line.line_number;
                let array_key = match h.key {
                    Some(k) => k,
                    None => sib_key,
                };
                proof {
                    assert(array_key@ == (match hm.key {
                        Some(k) => k,
                        None => sib_key@,
                    }));
                }
                let h2 = ArrayHeader {
                    key: None,
                    length: h.length,
                    delimiter: h.delimiter,
                    fields: h.fields,
                };
                proof {
                    assert((match h2.fields {
                        Some(f) => Some(smodels(f@)),
                        None => None::<Seq<Seq<char>>>,
                    }) == hm.fields) by {
                        match h2.fields {
                            Some(f) => {
                                assert(hm.fields matches Some(g) && smodels(f@) =~= g);
                            },
                            None => {},
                        }
                    }
                }
                if sib_value.unicode_len() != 0 {
                    let values = match parse_inline_array(
                        sib_value.as_str(),
                        h2.delimiter,
                        h2.length,
                        ln,
                    ) {
                        Ok(v) => v,
                        Err(e) => {
                            return Err(e);
                        },
                    };
                    let ghost before = obj@;
                    let ghost gk = array_key;
                    obj.insert(array_key, Value::Arr(values));
                    *cursor += 1;
                    proof {
                        lemma_ginsert_model(before, gk, Value::Arr(values));
                    }
                } else {
                    *cursor += 1;
                    let value = match parse_array_body(lines, cursor, dash_depth, h2, options) {
                        Ok(v) => v,
                        Err(e) => {
                            return Err(e);
                        },
                    };
                    proof {
                        let br = sp_body(
                            toks,
                            c + 1,
                            dashn,
                            hm.length,
                            hm.delimiter,
                            hm.fields,
                            options.strict,
                        );
                        assert(adv(toks.len() as int, c, br.0) == br.0);
                    }
                    let ghost before = obj@;
                    let ghost gk = array_key;
                    obj.insert(array_key, value);
                    proof {
                        lemma_ginsert_model(before, gk, value);
                    }
                }
            },
            None => {
                if sib_value.unicode_len() == 0 {
                    *cursor += 1;
                    let nested = match parse_object_at_depth_below(
                        lines,
                        cursor,
                        dash_depth,
                        2,
                        options,
                    ) {
                        Ok(m) => m,
                        Err(e) => {
                            return Err(e);
                        },
                    };
                    proof {
                        let nr = sp_obj(toks, c + 1, (dashn + 2) as nat, options.strict, Seq::empty());
                        assert(adv(toks.len() as int, c, nr.0) == nr.0);
                    }
                    let ghost before = obj@;
                    let ghost gk = sib_key;
                    obj.insert(sib_key, Value::Object(nested));
                    proof {
                        lemma_ginsert_model(before, gk, Value::Object(nested));
                    }
                } else {
                    let value = match parse_primitive(sib_value.as_str(), line.line_number) {
                        Ok(v) => v,
                        Err(e) => {
                            return Err(e);
                        },
                    };
                    let ghost before = obj@;
                    let ghost gk = sib_key;
                    obj.insert(sib_key, value);
                    *cursor += 1;
                    proof {
                        lemma_ginsert_model(before, gk, value);
                    }
                }
            },
        }
    }
    proof {
        let c = *cursor as int;
        assert(sp_sibs(toks, c, dashn, options.strict, model_entries(obj@)) == (
            c,
            Ok::<Seq<(Seq<char>, GValue)>, PErr>(model_entries(obj@)),
        ));
    }
    Ok(())
}

/// Reads the object fields at exactly `base_depth + extra` levels.
#[verifier::loop_isolation(false)]
fn parse_object_at_depth_below(
    lines: &Vec<Line>,
    cursor: &mut usize,
    base_depth: usize,
    extra: usize,
    options: &DecoderOptions,
) -> (r: Result<ObjMap, Error>)
    requires
        *old(cursor) <= lines@.len(),
        1 <= extra <= 2,
    ensures
        *old(cursor) <= *final(cursor) <= lines@.len(),
        r matches Ok(m) ==> m.wf(),
        ({
            let st = sp_obj(
                lmodels(lines@),
                *old(cursor) as int,
                (base_depth + extra as int) as nat,
                options.strict,
                Seq::empty(),
            );
            &&& *final(cursor) as int == st.0
            &&& (r is Ok) == (st.1 is Ok)
            &&& (r matches Ok(m) ==> (st.1 matches Ok(ent2) && model_entries(m@) == ent2))
            &&& (r matches Err(e) ==> (st.1 matches Err(k) && err_fits(e, k)))
        }),
    decreases lines@.len() - *old(cursor), 2nat,
{
    let ghost toks = lmodels(lines@);
    let ghost c0 = *cursor as int;
    let ghost dn = (base_depth + extra as int) as nat;
    let mut obj = ObjMap::new();
    proof {
        assert(forall|l: int| 0 <= l < lines@.len() ==> toks[l] == (#[trigger] lines@[l]).model());
        assert(model_entries(obj@) =~= Seq::<(Seq<char>, GValue)>::empty());
    }
    while *cursor < lines.len()
        invariant
            *old(cursor) <= *cursor <= lines@.len(),
            obj.wf(),
            1 <= extra <= 2,
            sp_obj(toks, c0, dn, options.strict, Seq::empty()) == sp_obj(
                toks,
                *cursor as int,
                dn,
                options.strict,
                model_entries(obj@),
            ),
        decreases lines@.len() - *cursor,
    {
        let ghost c = *cursor as int;
        let ghost accm = model_entries(obj@);
        let line = &lines[*cursor];
        proof {
            assert(toks[c] == lines@[c].model());
        }
        if !(line.depth >= extra && line.depth - extra == base_depth) {
            proof {
                assert(sp_obj(toks, c, dn, options.strict, accm) == (
                    c,
                    Ok::<Seq<(Seq<char>, GValue)>, PErr>(accm),
                ));
            }
            return Ok(obj);
        }
        let depth_here = line.depth;
        proof {
            assert(depth_here as nat == dn);
        }
        let ghost s0 = toks[c].0;
        match try_parse_array_header(line.content.as_str()) {
            Err(e) => {
                return Err(e);
            },
            Ok(Some(h)) => {
                let ghost hm = hdr_model(s0)->Header_0;
                let ln = line.line_number;
                let key = match h.key {
                    Some(k) => k,
                    None => String::new(),
                };
                proof {
                    assert(key@ == (match hm.key {
                        Some(k) => k,
                        None => Seq::<char>::empty(),
                    }));
                }
                let h2 = ArrayHeader {
                    key: None,
                    length: h.length,
                    delimiter: h.delimiter,
                    fields: h.fields,
                };
                proof {
                    assert((match h2.fields {
                        Some(f) => Some(smodels(f@)),
                        None => None::<Seq<Seq<char>>>,
                    }) == hm.fields) by {
                        match h2.fields {
                            Some(f) => {
                                assert(hm.fields matches Some(g) && smodels(f@) =~= g);
                            },
                            None => {},
                        }
                    }
                }
                let colon = match find_colon_outside_quotes(line.content.as_str()) {
                    Some(c2) => c2,
                    None => {
                        return Err(
                            Error::new(
                                ErrorKind::InvalidSyntax,
                                "Array header without a colon",
                            ).with_location(ln, 1),
                        );
                    },
                };
                let cc = str_to_chars(line.content.as_str());
                let nn = cc.len();
                proof {
                    assert(colon < nn);
                }
                let raw = subvec(&cc, colon + 1, nn);
                let a = scan_ws(&raw, 0);
                let vp = subvec(&raw, a, raw.len());
                proof {
                    assert(vp@ =~= trim_start(s0.subrange(colon as int + 1, s0.len() as int)));
                }
                if vp.len() != 0 {
                    let vs = chars_to_string(&vp);
                    let values = match parse_inline_array(vs.as_str(), h2.delimiter, h2.length, ln)
                        {
                        Ok(v) => v,
                        Err(e) => {
                            return Err(e);
                        },
                    };
                    let ghost before = obj@;
                    let ghost gk = key;
                    obj.insert(key, Value::Arr(values));
                    *cursor += 1;
                    proof {
                        lemma_ginsert_model(before, gk, Value::Arr(values));
                    }
                } else {
                    *cursor += 1;
                    let value = match parse_array_body(lines, cursor, depth_here, h2, options) {
                        Ok(v) => v,
                        Err(e) => {
                            return Err(e);
                        },
                    };
                    proof {
                        let br = sp_body(
                            toks,
                            c + 1,
                            dn,
                            hm.length,
                            hm.delimiter,
                            hm.fields,
                            options.strict,
                        );
                        assert(adv(toks.len() as int, c, br.0) == br.0);
                    }
                    let ghost before = obj@;
                    let ghost gk = key;
                    obj.insert(key, value);
                    proof {
                        lemma_ginsert_model(before, gk, value);
                    }
                }
            },
            Ok(None) => {
                let (key, vp) = match parse_key_value_line(line.content.as_str(), line.line_number)
                    {
                    Ok(kv) => kv,
                    Err(e) => {
                        proof {
                            assert(sp_kv(s0) is Err);
                        }
                        return Err(e);
                    },
                };
                proof {
                    assert(sp_kv(s0) == Ok::<(Seq<char>, Seq<char>), PErr>((key@, vp@)));
                }
                if vp.unicode_len() == 0 {
                    *cursor += 1;
                    let has_nested = if *cursor < lines.len() {
                        lines[*cursor].depth >= 1 && lines[*cursor].depth - 1 == depth_here
                    } else {
                        false
                    };
                    proof {
                        if c + 1 < toks.len() {
                            assert(toks[c + 1] == lines@[c + 1].model());
                        }
                        assert(has_nested == (c + 1 < toks.len() && toks[c + 1].1 == dn + 1));
                    }
                    if has_nested {
                        let nested = match parse_object_at_depth_below(
                            lines,
                            cursor,
                            depth_here,
                            1,
                            options,
                        ) {
                            Ok(m) => m,
                            Err(e) => {
                                return Err(e);
                            },
                        };
                        proof {
                            let nr = sp_obj(toks, c + 1, (dn + 1) as nat, options.strict, Seq::empty());
                            assert(adv(toks.len() as int, c, nr.0) == nr.0);
                        }
                        let ghost before = obj@;
                        let ghost gk = key;
                        obj.insert(key, Value::Object(nested));
                        proof {
                            lemma_ginsert_model(before, gk, Value::Object(nested));
                        }
                    } else {
                        let empty_map = ObjMap::new();
                        let ghost gem = empty_map;
                        proof {
                            assert(model_entries(gem@) =~= Seq::<(Seq<char>, GValue)>::empty());
                        }
                        let ghost before = obj@;
                        let ghost gk = key;
                        obj.insert(key, Value::Object(empty_map));
                        proof {
                            lemma_ginsert_model(before, gk, Value::Object(gem));
                        }
                    }
                } else {
                    let value = match parse_primitive(vp.as_str(), line.line_number) {
                        Ok(v) => v,
                        Err(e) => {
                            return Err(e);
                        },
                    };
                    let ghost before = obj@;
                    let ghost gk = key;
                    obj.insert(key, value);
                    *cursor += 1;
                    proof {
                        lemma_ginsert_model(before, gk, value);
                    }
                }
            },
        }
    }
    proof {
        let c = *cursor as int;
        assert(sp_obj(toks, c, dn, options.strict, model_entries(obj@)) == (
            c,
            Ok::<Seq<(Seq<char>, GValue)>, PErr>(model_entries(obj@)),
        ));
    }
    Ok(obj)
}

/// Reads the bulleted items of a list array at one level below the
/// parent; the item count must equal the declared length.
#[verifier::loop_isolation(false)]
#[verifier::rlimit(100)]
#[verifier::spinoff_prover]
fn parse_list_array(
    lines: &Vec<Line>,
    cursor: &mut usize,
    parent_depth: usize,
    header: ArrayHeader,
    options: &DecoderOptions,
) -> (r: Result<Value, Error>)
    requires
        *old(cursor) <= lines@.len(),
    ensures
        *old(cursor) <= *final(cursor) <= lines@.len(),
        r matches Ok(v) ==> v matches Value::Arr(items) && items@.len() == header.length,
        ({
            let st = sp_list(
                lmodels(lines@),
                *old(cursor) as int,
                parent_depth as nat,
                header.length as nat,
                header.delimiter,
                options.strict,
                Seq::empty(),
                0,
                false,
            );
            &&& *final(cursor) as int == st.0
            &&& (r is Ok) == (st.1 is Ok)
            &&& (r matches Ok(v) ==> (st.1 matches Ok(g) && v.model() == g))
            &&& (r matches Err(e) ==> (st.1 matches Err(k) && err_fits(e, k)))
        }),
    decreases lines@.len() - *old(cursor), 1nat,
{
    let ghost toks = lmodels(lines@);
    let ghost c0 = *cursor as int;
    let ghost pdn = parent_depth as nat;
    let ghost lenn = header.length as nat;
    let ghost dd = header.delimiter;
    let mut items: Vec<Value> = Vec::new();
    let mut prev_line: usize = 0;
    let mut has_prev = false;
    proof {
        assert(forall|l: int| 0 <= l < lines@.len() ==> toks[l] == (#[trigger] lines@[l]).model());
        assert(model_seq(items@) =~= Seq::<GValue>::empty());
    }
    while *cursor < lines.len()
        invariant
            *old(cursor) <= *cursor <= lines@.len(),
            sp_list(toks, c0, pdn, lenn, dd, options.strict, Seq::empty(), 0, false) == sp_list(
                toks,
                *cursor as int,
                pdn,
                lenn,
                dd,
                options.strict,
                model_seq(items@),
                prev_line as nat,
                has_prev,
            ),
        decreases lines@.len() - *cursor,
    {
        let ghost c = *cursor as int;
        let ghost itm0 = model_seq(items@);
        let ghost prev0 = prev_line as nat;
        let ghost hp0 = has_prev;
        proof {
            lemma_model_seq(items@);
        }
        let line = &lines[*cursor];
        proof {
            assert(toks[c] == lines@[c].model());
        }
        if !(line.depth >= 1 && line.depth - 1 == parent_depth) {
            proof {
                assert(sp_list(toks, c, pdn, lenn, dd, options.strict, itm0, prev0, hp0)
                    == sp_count_done(c, itm0, lenn));
            }
            if items.len() != header.length {
                return Err(
                    Error::new(
                        ErrorKind::CountMismatch,
                        "Item count differs from the declared length",
                    ),
                );
            }
            return Ok(Value::Arr(items));
        }
        let dash_depth = line.depth;
        let ghost dashn = dash_depth as nat;
        let ln = line.line_number;
        let cc = str_to_chars(line.content.as_str());
        let ghost s0 = toks[c].0;
        if !(cc.len() > 0 && cc[0] == '-') {
            proof {
                assert(sp_list(toks, c, pdn, lenn, dd, options.strict, itm0, prev0, hp0)
                    == sp_count_done(c, itm0, lenn));
            }
            if items.len() != header.length {
                return Err(
                    Error::new(
                        ErrorKind::CountMismatch,
                        "Item count differs from the declared length",
                    ),
                );
            }
            return Ok(Value::Arr(items));
        }
        if options.strict && has_prev && ln > prev_line && ln - prev_line > 1 {
            proof {
                assert(sp_list(toks, c, pdn, lenn, dd, options.strict, itm0, prev0, hp0) == (
                    c,
                    Err::<GValue, PErr>(PErr::Blank),
                ));
            }
            return Err(
                Error::new(
                    ErrorKind::BlankLineInArray,
                    "Blank lines are not allowed inside arrays",
                ).with_location(ln, 1),
            );
        }
        prev_line = ln;
        has_prev = true;
        let item_chars: Vec<char> = if cc.len() >= 2 && cc[1] == ' ' {
            subvec(&cc, 2, cc.len())
        } else if cc.len() == 1 {
            Vec::new()
        } else {
            proof {
                assert(sp_list(toks, c, pdn, lenn, dd, options.strict, itm0, prev0, hp0)
                    == sp_count_done(c, itm0, lenn));
            }
            if items.len() != header.length {
                return Err(
                    Error::new(
                        ErrorKind::CountMismatch,
                        "Item count differs from the declared length",
                    ),
                );
            }
            return Ok(Value::Arr(items));
        };
        let ghost itemm = item_chars@;
        proof {
            if s0.len() >= 2 && s0[1] == ' ' {
                assert(itemm =~= s0.subrange(2, s0.len() as int));
                assert(sp_list(toks, c, pdn, lenn, dd, options.strict, itm0, prev0, hp0)
                    == sp_list_item(toks, c, pdn, lenn, dd, options.strict, itm0, itemm));
            }
        }
        if item_chars.len() == 0 {
            items.push(Value::Object(ObjMap::new()));
            *cursor += 1;
            proof {
                lemma_model_seq(items@);
                assert forall|l: int|
                    0 <= l < model_seq(items@).len() implies model_seq(items@)[l] == itm0.push(
                    GValue::Obj(Seq::empty()),
                )[l] by {
                    assert(model_seq(items@)[l] == items@[l].model());
                    if l < items@.len() - 1 {
                        assert(itm0[l] == items@[l].model());
                    } else {
                        assert(items@[l] matches Value::Object(mm) && mm.entries@.len() == 0);
                        assert(model_entries(items@[l]->Object_0.entries@)
                            =~= Seq::<(Seq<char>, GValue)>::empty());
                    }
                }
                assert(model_seq(items@) =~= itm0.push(GValue::Obj(Seq::empty())));
            }
            continue;
        }
        let ic = chars_to_string(&item_chars);
        let ih = match try_parse_array_header(ic.as_str()) {
            Ok(h) => h,
            Err(e) => {
                return Err(e);
            },
        };
        let mut keyed_header: Option<ArrayHeader> = None;
        match ih {
            Some(h) => {
                let ghost hm = hdr_model(itemm)->Header_0;
                proof {
                    assert((match h.fields {
                        Some(f) => Some(smodels(f@)),
                        None => None::<Seq<Seq<char>>>,
                    }) == hm.fields) by {
                        match h.fields {
                            Some(f) => {
                                assert(hm.fields matches Some(g) && smodels(f@) =~= g);
                            },
                            None => {},
                        }
                    }
                }
                if h.key.is_none() {
                    let pos = scan_plain(&item_chars, ':', 0);
                    if pos >= item_chars.len() {
                        return Err(
                            Error::new(
                                ErrorKind::InvalidSyntax,
                                "Array header without a colon",
                            ).with_location(ln, 1),
                        );
                    }
                    let raw = subvec(&item_chars, pos + 1, item_chars.len());
                    let a = scan_ws(&raw, 0);
                    let vp = subvec(&raw, a, raw.len());
                    proof {
                        assert(vp@ =~= trim_start(itemm.subrange(pos + 1, itemm.len() as int)));
                    }
                    if vp.len() != 0 {
                        let vs = chars_to_string(&vp);
                        let values = match parse_inline_array(
                            vs.as_str(),
                            h.delimiter,
                            h.length,
                            ln,
                        ) {
                            Ok(v) => v,
                            Err(e) => {
                                return Err(e);
                            },
                        };
                        items.push(Value::Arr(values));
                        *cursor += 1;
                        proof {
                            let ghost gs = (match sp_inline(vp@, hm.delimiter, hm.length) {
                                Ok(gs) => gs,
                                Err(_) => Seq::empty(),
                            });
                            lemma_model_seq(items@);
                            assert forall|l: int|
                                0 <= l < model_seq(items@).len() implies model_seq(items@)[l]
                                == itm0.push(GValue::Arr(gs))[l] by {
                                assert(model_seq(items@)[l] == items@[l].model());
                                if l < items@.len() - 1 {
                                    assert(itm0[l] == items@[l].model());
                                } else {
                                    assert(items@[l] matches Value::Arr(vv) && model_seq(vv@)
                                        == gs);
                                }
                            }
                            assert(model_seq(items@) =~= itm0.push(GValue::Arr(gs)));
                        }
                        continue;
                    } else {
                        *cursor += 1;
                        let value = match parse_array_body(lines, cursor, dash_depth, h, options)
                            {
                            Ok(v) => v,
                            Err(e) => {
                                return Err(e);
                            },
                        };
                        proof {
                            let br = sp_body(
                                toks,
                                c + 1,
                                (pdn + 1) as nat,
                                hm.length,
                                hm.delimiter,
                                hm.fields,
                                options.strict,
                            );
                            assert(adv(toks.len() as int, c, br.0) == br.0);
                        }
                        let ghost gv = value.model();
                        items.push(value);
                        proof {
                            lemma_model_seq(items@);
                            assert forall|l: int|
                                0 <= l < model_seq(items@).len() implies model_seq(items@)[l]
                                == itm0.push(gv)[l] by {
                                assert(model_seq(items@)[l] == items@[l].model());
                                if l < items@.len() - 1 {
                                    assert(itm0[l] == items@[l].model());
                                }
                            }
                            assert(model_seq(items@) =~= itm0.push(gv));
                        }
                        continue;
                    }
                } else {
                    keyed_header = Some(h);
                }
            },
            None => {},
        }
        let pos = scan_plain(&item_chars, ':', 0);
        if pos < item_chars.len() {
            let (key, value_part) = match parse_key_value_line(ic.as_str(), ln) {
                Ok(kv) => kv,
                Err(e) => {
                    proof {
                        assert(sp_kv(itemm) is Err);
                    }
                    return Err(e);
                },
            };
            proof {
                assert(sp_kv(itemm) == Ok::<(Seq<char>, Seq<char>), PErr>((
                    key@,
                    value_part@,
                )));
            }
            let mut obj = ObjMap::new();
            proof {
                assert(model_entries(obj@) =~= Seq::<(Seq<char>, GValue)>::empty());
            }
            let ghost firstc: int = 0;
            match keyed_header {
                Some(h) => {
                    let ghost hm = hdr_model(itemm)->Header_0;
                    let array_key = match h.key {
                        Some(k) => k,
                        None => key,
                    };
                    proof {
                        assert(array_key@ == (match hm.key {
                            Some(k) => k,
                            None => key@,
                        }));
                    }
                    let h2 = ArrayHeader {
                        key: None,
                        length: h.length,
                        delimiter: h.delimiter,
                        fields: h.fields,
                    };
                    proof {
                        assert((match h2.fields {
                            Some(f) => Some(smodels(f@)),
                            None => None::<Seq<Seq<char>>>,
                        }) == hm.fields) by {
                            match h2.fields {
                                Some(f) => {
                                    assert(hm.fields matches Some(g) && smodels(f@) =~= g);
                                },
                                None => {},
                            }
                        }
                    }
                    if value_part.unicode_len() != 0 {
                        let values = match parse_inline_array(
                            value_part.as_str(),
                            h2.delimiter,
                            h2.length,
                            ln,
                        ) {
                            Ok(v) => v,
                            Err(e) => {
                                return Err(e);
                            },
                        };
                        let ghost before = obj@;
                        let ghost gk = array_key;
                        obj.insert(array_key, Value::Arr(values));
                        *cursor += 1;
                        proof {
                            lemma_ginsert_model(before, gk, Value::Arr(values));
                            firstc = c + 1;
                        }
                    } else {
                        *cursor += 1;
                        let value = match parse_array_body(lines, cursor, dash_depth, h2, options)
                            {
                            Ok(v) => v,
                            Err(e) => {
                                return Err(e);
                            },
                        };
                        proof {
                            let br = sp_body(
                                toks,
                                c + 1,
                                (pdn + 1) as nat,
                                hm.length,
                                hm.delimiter,
                                hm.fields,
                                options.strict,
                            );
                            assert(adv(toks.len() as int, c, br.0) == br.0);
                            firstc = br.0;
                        }
                        let ghost before = obj@;
                        let ghost gk = array_key;
                        obj.insert(array_key, value);
                        proof {
                            lemma_ginsert_model(before, gk, value);
                        }
                    }
                },
                None => {
                    if value_part.unicode_len() == 0 {
                        *cursor += 1;
                        let has_nested = if *cursor < lines.len() {
                            lines[*cursor].depth >= 2 && lines[*cursor].depth - 2 == dash_depth
                        } else {
                            false
                        };
                        proof {
                            if c + 1 < toks.len() {
                                assert(toks[c + 1] == lines@[c + 1].model());
                            }
                            assert(has_nested == (c + 1 < toks.len() && toks[c + 1].1 == pdn
                                + 3));
                        }
                        if has_nested {
                            let nested = match parse_object_at_depth_below(
                                lines,
                                cursor,
                                dash_depth,
                                2,
                                options,
                            ) {
                                Ok(m) => m,
                                Err(e) => {
                                    return Err(e);
                                },
                            };
                            proof {
                                let nr = sp_obj(
                                    toks,
                                    c + 1,
                                    (pdn + 3) as nat,
                                    options.strict,
                                    Seq::empty(),
                                );
                                assert(adv(toks.len() as int, c, nr.0) == nr.0);
                                firstc = nr.0;
                            }
                            let ghost before = obj@;
                            let ghost gk = key;
                            obj.insert(key, Value::Object(nested));
                            proof {
                                lemma_ginsert_model(before, gk, Value::Object(nested));
                            }
                        } else {
                            let empty_map = ObjMap::new();
                            let ghost gem = empty_map;
                            proof {
                                assert(model_entries(gem@) =~= Seq::<(Seq<char>, GValue)>::empty());
                                firstc = c + 1;
                            }
                            let ghost before = obj@;
                            let ghost gk = key;
                            obj.insert(key, Value::Object(empty_map));
                            proof {
                                lemma_ginsert_model(before, gk, Value::Object(gem));
                            }
                        }
                    } else {
                        let value = match parse_primitive(value_part.as_str(), ln) {
                            Ok(v) => v,
                            Err(e) => {
                                return Err(e);
                            },
                        };
                        let ghost before = obj@;
                        let ghost gk = key;
                        obj.insert(key, value);
                        *cursor += 1;
                        proof {
                            lemma_ginsert_model(before, gk, value);
                            firstc = c + 1;
                        }
                    }
                },
            }
            proof {
                assert(firstc == *cursor as int);
                assert(adv(toks.len() as int, c, firstc) == firstc);
            }
            match parse_item_siblings(lines, cursor, dash_depth, &mut obj, options) {
                Ok(()) => {},
                Err(e) => {
                    return Err(e);
                },
            }
            let ghost gobj = model_entries(obj@);
            items.push(Value::Object(obj));
            proof {
                lemma_model_seq(items@);
                assert forall|l: int|
                    0 <= l < model_seq(items@).len() implies model_seq(items@)[l] == itm0.push(
                    GValue::Obj(gobj),
                )[l] by {
                    assert(model_seq(items@)[l] == items@[l].model());
                    if l < items@.len() - 1 {
                        assert(itm0[l] == items@[l].model());
                    }
                }
                assert(model_seq(items@) =~= itm0.push(GValue::Obj(gobj)));
            }
        } else {
            proof {
                lemma_plain_end_all(itemm, ':', 0);
                assert(!itemm.contains(':')) by {
                    if itemm.contains(':') {
                        let jj = choose|jj: int| 0 <= jj < itemm.len() && itemm[jj] == ':';
                    }
                }
                assert(!(hdr_model(itemm) is Header));
            }
            let value = match parse_primitive(ic.as_str(), ln) {
                Ok(v) => v,
                Err(e) => {
                    return Err(e);
                },
            };
            let ghost gv = value.model();
            items.push(value);
            *cursor += 1;
            proof {
                lemma_model_seq(items@);
                assert forall|l: int|
                    0 <= l < model_seq(items@).len() implies model_seq(items@)[l] == itm0.push(
                    gv,
                )[l] by {
                    assert(model_seq(items@)[l] == items@[l].model());
                    if l < items@.len() - 1 {
                        assert(itm0[l] == items@[l].model());
                    }
                }
                assert(model_seq(items@) =~= itm0.push(gv));
            }
        }
    }
    proof {
        let c = *cursor as int;
        assert(sp_list(toks, c, pdn, lenn, dd, options.strict, model_seq(items@), prev_line as nat, has_prev)
            == sp_count_done(c, model_seq(items@), lenn));
        lemma_model_seq(items@);
    }
    if items.len() != header.length {
        return Err(
            Error::new(
                ErrorKind::CountMismatch,
                "Item count differs from the declared length",
            ),
        );
    }
    Ok(Value::Arr(items))
}

/// Reads an array body after its header line: tabular when the header
/// declares a schema, bulleted otherwise.
fn parse_array_body(
    lines: &Vec<Line>,
    cursor: &mut usize,
    parent_depth: usize,
    header: ArrayHeader,
    options: &DecoderOptions,
) -> (r: Result<Value, Error>)
    requires
        *old(cursor) <= lines@.len(),
    ensures
        *old(cursor) <= *final(cursor) <= lines@.len(),
        r matches Ok(v) ==> v matches Value::Arr(items) && items@.len() == header.length,
        ({
            let st = sp_body(
                lmodels(lines@),
                *old(cursor) as int,
                parent_depth as nat,
                header.length as nat,
                header.delimiter,
                (match header.fields {
                    Some(f) => Some(smodels(f@)),
                    None => None::<Seq<Seq<char>>>,
                }),
                options.strict,
            );
            &&& *final(cursor) as int == st.0
            &&& (r is Ok) == (st.1 is Ok)
            &&& (r matches Ok(v) ==> (st.1 matches Ok(g) && v.model() == g))
            &&& (r matches Err(e) ==> (st.1 matches Err(k) && err_fits(e, k)))
        }),
    decreases lines@.len() - *old(cursor), 4nat,
{
    if header.fields.is_some() {
        parse_tabular_array(lines, cursor, parent_depth, header, options)
    } else {
        parse_list_array(lines, cursor, parent_depth, header, options)
    }
}

/// Reading a document that is not a key-less array root: a single line
/// without an unquoted colon is a primitive, anything else an object
/// built from the depth-zero lines.
pub open spec fn sp_root_rest(toks: Seq<(Seq<char>, nat, nat)>, strict: bool) -> Result<
    GValue,
    PErr,
> {
    if toks.len() == 1 && colon_pos(toks[0].0) == -1 {
        match prim_model(toks[0].0) {
            Some(g) => Ok(g),
            None => Err(PErr::Esc),
        }
    } else {
        match sp_obj(toks, 0, 0, strict, Seq::empty()).1 {
            Ok(ent) => Ok(GValue::Obj(ent)),
            Err(k) => Err(k),
        }
    }
}

/// Reading a whole document from its tokens: empty input is the empty
/// object; a first line above depth zero is a syntax error; a key-less
/// array header makes the document an array; a single line without an
/// unquoted colon is a primitive; anything else is an object.
pub open spec fn sp_root(toks: Seq<(Seq<char>, nat, nat)>, strict: bool) -> Result<GValue, PErr> {
    if toks.len() == 0 {
        Ok(GValue::Obj(Seq::empty()))
    } else if toks[0].1 != 0 {
        Err(PErr::Syntax)
    } else {
        let s0 = toks[0].0;
        if s0.contains('[') && s0.contains(']') && s0.contains(':') {
            match hdr_model(s0) {
                HeaderR::BadLength => Err(PErr::Header),
                HeaderR::BadKey => Err(PErr::Esc),
                HeaderR::BadField => Err(PErr::Esc),
                HeaderR::Header(hm) => {
                    if hm.key is None {
                        let pos = plain_end(s0, ':', 0);
                        if pos >= s0.len() {
                            Err(PErr::Syntax)
                        } else {
                            let vp = trim_start(s0.subrange(pos + 1, s0.len() as int));
                            if vp.len() > 0 {
                                match sp_inline(vp, hm.delimiter, hm.length) {
                                    Ok(gs) => Ok(GValue::Arr(gs)),
                                    Err(k) => Err(k),
                                }
                            } else {
                                sp_body(
                                    toks,
                                    1,
                                    0,
                                    hm.length,
                                    hm.delimiter,
                                    hm.fields,
                                    strict,
                                ).1
                            }
                        }
                    } else {
                        sp_root_rest(toks, strict)
                    }
                },
                HeaderR::NotHeader => sp_root_rest(toks, strict),
            }
        } else {
            sp_root_rest(toks, strict)
        }
    }
}

/// Reads the whole document from its tokenized lines: a key-less array
/// header makes it an array, a single line without a colon a primitive,
/// anything else an object.
pub fn parse_root(lines: &Vec<Line>, options: &DecoderOptions) -> (r: Result<Value, Error>)
    ensures
        lines@.len() == 0 ==> (r matches Ok(v) && v matches Value::Object(m) && m@.len() == 0),
        (lines@.len() == 1 && lines@[0].depth == 0 && hdr_model(lines@[0].content@) is NotHeader
            && colon_pos(lines@[0].content@) == -1) ==> (match prim_model(lines@[0].content@) {
            Some(g) => r matches Ok(v) && v.model() == g,
            None => r is Err,
        }),
        (lines@.len() >= 1 && lines@[0].depth == 0 && (match hdr_model(lines@[0].content@) {
            HeaderR::Header(hm) => hm.key is None,
            _ => false,
        })) ==> (r matches Ok(v) ==> (match hdr_model(lines@[0].content@) {
            HeaderR::Header(hm) => v matches Value::Arr(items) && items@.len() == hm.length,
            _ => true,
        })),
        ({
            let sr = sp_root(lmodels(lines@), options.strict);
            &&& (r is Ok) == (sr is Ok)
            &&& (r matches Ok(v) ==> (sr matches Ok(g) && v.model() == g))
            &&& (r matches Err(e) ==> (sr matches Err(k) && err_fits(e, k)))
        }),
        (lines@.len() >= 1 && lines@[0].depth != 0) ==> (r matches Err(e)
            && e.spec_kind() is InvalidSyntax && e.spec_line() == Some(lines@[0].line_number)
            && e.spec_column() == Some(1usize)),
        ({
            let c0 = lines@[0].content@;
            &&& lines@.len() >= 1
            &&& lines@[0].depth == 0
            &&& (match hdr_model(c0) {
                HeaderR::Header(hm) => hm.key is None,
                _ => false,
            })
            &&& plain_end(c0, ':', 0) < c0.len()
            &&& trim_start(c0.subrange(plain_end(c0, ':', 0) + 1, c0.len() as int)).len() > 0
        }) ==> (match hdr_model(lines@[0].content@) {
            HeaderR::Header(hm) => {
                let c0 = lines@[0].content@;
                let vp = trim_start(c0.subrange(plain_end(c0, ':', 0) + 1, c0.len() as int));
                let cl = cells(vp, delim_char(hm.delimiter));
                r matches Ok(v) ==> (v matches Value::Arr(items) && items@.len() == hm.length
                    && cl.len() == hm.length && forall|j: int|
                    0 <= j < items@.len() ==> prim_model(cl[j]) == Some(
                        (#[trigger] items@[j]).model(),
                    ))
            },
            _ => true,
        }),
{
    let ghost toks = lmodels(lines@);
    proof {
        assert(forall|l: int| 0 <= l < lines@.len() ==> toks[l] == (#[trigger] lines@[l]).model());
    }
    if lines.len() == 0 {
        let m = ObjMap::new();
        proof {
            assert(model_entries(m@) =~= Seq::<(Seq<char>, GValue)>::empty());
        }
        return Ok(Value::Object(m));
    }
    let first = &lines[0];
    let ghost s0 = toks[0].0;
    if first.depth != 0 {
        return Err(
            Error::new(ErrorKind::InvalidSyntax, "First line must be at depth 0").with_location(
                first.line_number,
                1,
            ),
        );
    }
    if is_array_header(first.content.as_str()) {
        match try_parse_array_header(first.content.as_str()) {
            Err(e) => {
                return Err(e);
            },
            Ok(Some(h)) => {
                let ghost hm = hdr_model(s0)->Header_0;
                proof {
                    assert((match h.fields {
                        Some(f) => Some(smodels(f@)),
                        None => None::<Seq<Seq<char>>>,
                    }) == hm.fields) by {
                        match h.fields {
                            Some(f) => {
                                assert(hm.fields matches Some(g) && smodels(f@) =~= g);
                            },
                            None => {},
                        }
                    }
                }
                if h.key.is_none() {
                    let cc = str_to_chars(first.content.as_str());
                    let pos = scan_plain(&cc, ':', 0);
                    if pos >= cc.len() {
                        return Err(
                            Error::new(
                                ErrorKind::InvalidSyntax,
                                "Array header without a colon",
                            ).with_location(first.line_number, 1),
                        );
                    }
                    let raw = subvec(&cc, pos + 1, cc.len());
                    let a = scan_ws(&raw, 0);
                    let vp = subvec(&raw, a, raw.len());
                    proof {
                        assert(vp@ =~= trim_start(s0.subrange(pos + 1, s0.len() as int)));
                    }
                    if vp.len() != 0 {
                        let vs = chars_to_string(&vp);
                        let values = match parse_inline_array(
                            vs.as_str(),
                            h.delimiter,
                            h.length,
                            first.line_number,
                        ) {
                            Ok(v) => v,
                            Err(e) => {
                                return Err(e);
                            },
                        };
                        proof {
                            lemma_model_seq(values@);
                        }
                        return Ok(Value::Arr(values));
                    } else {
                        let mut cursor: usize = 1;
                        return parse_array_body(lines, &mut cursor, 0, h, options);
                    }
                }
            },
            Ok(None) => {},
        }
    }
    if lines.len() == 1 && !has_colon_outside_quotes(first.content.as_str()) {
        return parse_primitive(first.content.as_str(), first.line_number);
    }
    let mut cursor: usize = 0;
    match parse_object_at_depth_zero(lines, &mut cursor, options) {
        Ok(m) => Ok(Value::Object(m)),
        Err(e) => Err(e),
    }
}

/// Reads the object fields at depth zero.
#[verifier::loop_isolation(false)]
fn parse_object_at_depth_zero(
    lines: &Vec<Line>,
    cursor: &mut usize,
    options: &DecoderOptions,
) -> (r: Result<ObjMap, Error>)
    requires
        *old(cursor) <= lines@.len(),
    ensures
        *old(cursor) <= *final(cursor) <= lines@.len(),
        r matches Ok(m) ==> m.wf(),
        ({
            let st = sp_obj(
                lmodels(lines@),
                *old(cursor) as int,
                0nat,
                options.strict,
                Seq::empty(),
            );
            &&& *final(cursor) as int == st.0
            &&& (r is Ok) == (st.1 is Ok)
            &&& (r matches Ok(m) ==> (st.1 matches Ok(ent2) && model_entries(m@) == ent2))
            &&& (r matches Err(e) ==> (st.1 matches Err(k) && err_fits(e, k)))
        }),
    decreases lines@.len() - *old(cursor), 5nat,
{
    let ghost toks = lmodels(lines@);
    let ghost c0 = *cursor as int;
    let ghost dn = 0nat;
    let mut obj = ObjMap::new();
    proof {
        assert(forall|l: int| 0 <= l < lines@.len() ==> toks[l] == (#[trigger] lines@[l]).model());
        assert(model_entries(obj@) =~= Seq::<(Seq<char>, GValue)>::empty());
    }
    while *cursor < lines.len()
        invariant
            *old(cursor) <= *cursor <= lines@.len(),
            obj.wf(),
            sp_obj(toks, c0, dn, options.strict, Seq::empty()) == sp_obj(
                toks,
                *cursor as int,
                dn,
                options.strict,
                model_entries(obj@),
            ),
        decreases lines@.len() - *cursor,
    {
        let ghost c = *cursor as int;
        let ghost accm = model_entries(obj@);
        let line = &lines[*cursor];
        proof {
            assert(toks[c] == lines@[c].model());
        }
        if line.depth != 0 {
            proof {
                assert(sp_obj(toks, c, dn, options.strict, accm) == (
                    c,
                    Ok::<Seq<(Seq<char>, GValue)>, PErr>(accm),
                ));
            }
            return Ok(obj);
        }
        let depth_here = line.depth;
        proof {
            assert(depth_here as nat == dn);
        }
        let ghost s0 = toks[c].0;
        match try_parse_array_header(line.content.as_str()) {
            Err(e) => {
                return Err(e);
            },
            Ok(Some(h)) => {
                let ghost hm = hdr_model(s0)->Header_0;
                let ln = line.line_number;
                let key = match h.key {
                    Some(k) => k,
                    None => String::new(),
                };
                proof {
                    assert(key@ == (match hm.key {
                        Some(k) => k,
                        None => Seq::<char>::empty(),
                    }));
                }
                let h2 = ArrayHeader {
                    key: None,
                    length: h.length,
                    delimiter: h.delimiter,
                    fields: h.fields,
                };
                proof {
                    assert((match h2.fields {
                        Some(f) => Some(smodels(f@)),
                        None => None::<Seq<Seq<char>>>,
                    }) == hm.fields) by {
                        match h2.fields {
                            Some(f) => {
                                assert(hm.fields matches Some(g) && smodels(f@) =~= g);
                            },
                            None => {},
                        }
                    }
                }
                let colon = match find_colon_outside_quotes(line.content.as_str()) {
                    Some(c2) => c2,
                    None => {
                        return Err(
                            Error::new(
                                ErrorKind::InvalidSyntax,
                                "Array header without a colon",
                            ).with_location(ln, 1),
                        );
                    },
                };
                let cc = str_to_chars(line.content.as_str());
                let nn = cc.len();
                proof {
                    assert(colon < nn);
                }
                let raw = subvec(&cc, colon + 1, nn);
                let a = scan_ws(&raw, 0);
                let vp = subvec(&raw, a, raw.len());
                proof {
                    assert(vp@ =~= trim_start(s0.subrange(colon as int + 1, s0.len() as int)));
                }
                if vp.len() != 0 {
                    let vs = chars_to_string(&vp);
                    let values = match parse_inline_array(vs.as_str(), h2.delimiter, h2.length, ln)
                        {
                        Ok(v) => v,
                        Err(e) => {
                            return Err(e);
                        },
                    };
                    let ghost before = obj@;
                    let ghost gk = key;
                    obj.insert(key, Value::Arr(values));
                    *cursor += 1;
                    proof {
                        lemma_ginsert_model(before, gk, Value::Arr(values));
                    }
                } else {
                    *cursor += 1;
                    let value = match parse_array_body(lines, cursor, depth_here, h2, options) {
                        Ok(v) => v,
                        Err(e) => {
                            return Err(e);
                        },
                    };
                    proof {
                        let br = sp_body(
                            toks,
                            c + 1,
                            dn,
                            hm.length,
                            hm.delimiter,
                            hm.fields,
                            options.strict,
                        );
                        assert(adv(toks.len() as int, c, br.0) == br.0);
                    }
                    let ghost before = obj@;
                    let ghost gk = key;
                    obj.insert(key, value);
                    proof {
                        lemma_ginsert_model(before, gk, value);
                    }
                }
            },
            Ok(None) => {
                let (key, vp) = match parse_key_value_line(line.content.as_str(), line.line_number)
                    {
                    Ok(kv) => kv,
                    Err(e) => {
                        proof {
                            assert(sp_kv(s0) is Err);
                        }
                        return Err(e);
                    },
                };
                proof {
                    assert(sp_kv(s0) == Ok::<(Seq<char>, Seq<char>), PErr>((key@, vp@)));
                }
                if vp.unicode_len() == 0 {
                    *cursor += 1;
                    let has_nested = if *cursor < lines.len() {
                        lines[*cursor].depth >= 1 && lines[*cursor].depth - 1 == depth_here
                    } else {
                        false
                    };
                    proof {
                        if c + 1 < toks.len() {
                            assert(toks[c + 1] == lines@[c + 1].model());
                        }
                        assert(has_nested == (c + 1 < toks.len() && toks[c + 1].1 == dn + 1));
                    }
                    if has_nested {
                        let nested = match parse_object_at_depth_below(
                            lines,
                            cursor,
                            depth_here,
                            1,
                            options,
                        ) {
                            Ok(m) => m,
                            Err(e) => {
                                return Err(e);
                            },
                        };
                        proof {
                            let nr = sp_obj(toks, c + 1, (dn + 1) as nat, options.strict, Seq::empty());
                            assert(adv(toks.len() as int, c, nr.0) == nr.0);
                        }
                        let ghost before = obj@;
                        let ghost gk = key;
                        obj.insert(key, Value::Object(nested));
                        proof {
                            lemma_ginsert_model(before, gk, Value::Object(nested));
                        }
                    } else {
                        let empty_map = ObjMap::new();
                        let ghost gem = empty_map;
                        proof {
                            assert(model_entries(gem@) =~= Seq::<(Seq<char>, GValue)>::empty());
                        }
                        let ghost before = obj@;
                        let ghost gk = key;
                        obj.insert(key, Value::Object(empty_map));
                        proof {
                            lemma_ginsert_model(before, gk, Value::Object(gem));
                        }
                    }
                } else {
                    let value = match parse_primitive(vp.as_str(), line.line_number) {
                        Ok(v) => v,
                        Err(e) => {
                            return Err(e);
                        },
                    };
                    let ghost before = obj@;
                    let ghost gk = key;
                    obj.insert(key, value);
                    *cursor += 1;
                    proof {
                        lemma_ginsert_model(before, gk, value);
                    }
                }
            },
        }
    }
    proof {
        let c = *cursor as int;
        assert(sp_obj(toks, c, dn, options.strict, model_entries(obj@)) == (
            c,
            Ok::<Seq<(Seq<char>, GValue)>, PErr>(model_entries(obj@)),
        ));
    }
    Ok(obj)
}


/// A key carrying the internal marker of a quoted dotted key.
pub open spec fn is_marked(k: Seq<char>) -> bool {
    k.len() > 0 && k[0] == '\u{0}'
}

/// The dot-separated segments of a key.
pub open spec fn split_dots(s: Seq<char>) -> Seq<Seq<char>>
    decreases s.len(),
{
    let k = plain_end(s, '.', 0);
    if !(0 <= k < s.len()) {
        seq![s]
    } else {
        seq![s.subrange(0, k)] + split_dots(s.subrange(k + 1, s.len() as int))
    }
}

/// A segment that path expansion accepts: a letter or underscore, then
/// letters, digits and underscores.
pub open spec fn seg_ok(seg: Seq<char>) -> bool {
    &&& seg.len() > 0
    &&& (crate::text::is_alpha(seg[0]) || seg[0] == '_')
    &&& forall|i: int|
        0 <= i < seg.len() ==> crate::text::is_alpha(#[trigger] seg[i]) || is_digit(seg[i])
            || seg[i] == '_'
}

/// An unmarked key that path expansion rewrites: it splits at dots into
/// more than one segment and every segment is acceptable.
pub open spec fn safe_dotted(k: Seq<char>) -> bool {
    &&& k.contains('.')
    &&& split_dots(k).len() > 1
    &&& forall|i: int| 0 <= i < split_dots(k).len() ==> seg_ok(#[trigger] split_dots(k)[i])
}

/// How path expansion treats one key.
pub enum KeyClass {
    /// The key stays as this literal text.
    Literal(String),
    /// The key is expanded into these path segments.
    Expand(Vec<String>),
}

/// Decides how path expansion treats a key. A marked key - one that was
/// quoted in the source - always stays literal, with the marker removed;
/// an unmarked dotted key with acceptable segments is expanded when
/// expansion is on.
#[verifier::loop_isolation(false)]
pub fn classify_key(k: &str, expand_on: bool) -> (r: KeyClass)
    ensures
        match r {
            KeyClass::Literal(t) => {
                &&& t@ == (if is_marked(k@) {
                    k@.subrange(1, k@.len() as int)
                } else {
                    k@
                })
                &&& (is_marked(k@) || !(expand_on && safe_dotted(k@)))
            },
            KeyClass::Expand(segs) => {
                &&& !is_marked(k@)
                &&& expand_on
                &&& safe_dotted(k@)
                &&& segs@.len() == split_dots(k@).len()
                &&& forall|i: int|
                    0 <= i < segs@.len() ==> (#[trigger] segs@[i])@ == split_dots(k@)[i]
            },
        },
{
    let cs = str_to_chars(k);
    if cs.len() > 0 && cs[0] == '\u{0}' {
        let clean = subvec(&cs, 1, cs.len());
        return KeyClass::Literal(chars_to_string(&clean));
    }
    if !expand_on {
        return KeyClass::Literal(chars_to_string(&cs));
    }
    let mut has_dot = false;
    let n = cs.len();
    let mut i: usize = 0;
    while i < n
        invariant
            i <= n,
            has_dot == exists|j: int| 0 <= j < i && cs@[j] == '.',
        decreases n - i,
    {
        if cs[i] == '.' {
            has_dot = true;
        }
        i = i + 1;
    }
    if !has_dot {
        proof {
            assert(!k@.contains('.')) by {
                if k@.contains('.') {
                    let j = choose|j: int| 0 <= j < k@.len() && k@[j] == '.';
                    assert(cs@[j] == '.');
                }
            }
        }
        return KeyClass::Literal(chars_to_string(&cs));
    }
    let segs = split_dot_chars(&cs);
    let sn = segs.len();
    let mut all_ok = true;
    let mut i: usize = 0;
    while i < sn
        invariant
            i <= sn,
            sn == segs@.len(),
            sn == split_dots(cs@).len(),
            forall|j: int| 0 <= j < sn ==> (#[trigger] segs@[j])@ == split_dots(cs@)[j],
            all_ok == forall|j: int| 0 <= j < i ==> seg_ok(#[trigger] split_dots(cs@)[j]),
        decreases sn - i,
    {
        if !seg_ok_exec(&segs[i]) {
            all_ok = false;
        }
        i = i + 1;
    }
    if all_ok && segs.len() > 1 {
        let mut out: Vec<String> = Vec::new();
        let mut i: usize = 0;
        while i < sn
            invariant
                i <= sn,
                sn == segs@.len(),
                sn == split_dots(cs@).len(),
                forall|j: int| 0 <= j < sn ==> (#[trigger] segs@[j])@ == split_dots(cs@)[j],
                out@.len() == i,
                forall|j: int| 0 <= j < i ==> (#[trigger] out@[j])@ == split_dots(cs@)[j],
            decreases sn - i,
        {
            out.push(chars_to_string(&segs[i]));
            i = i + 1;
        }
        KeyClass::Expand(out)
    } else {
        KeyClass::Literal(chars_to_string(&cs))
    }
}

/// Splits a key into its dot-separated segments.
fn split_dot_chars(cs: &Vec<char>) -> (r: Vec<Vec<char>>)
    ensures
        r@.len() == split_dots(cs@).len(),
        forall|j: int| 0 <= j < r@.len() ==> (#[trigger] r@[j])@ == split_dots(cs@)[j],
    decreases cs@.len(),
{
    let n = cs.len();
    let k = scan_plain(cs, '.', 0);
    if k >= n {
        let mut r: Vec<Vec<char>> = Vec::new();
        r.push(subvec(cs, 0, n));
        proof {
            assert(cs@.subrange(0, cs@.len() as int) =~= cs@);
        }
        return r;
    }
    let head = subvec(cs, 0, k);
    let tail = subvec(cs, k + 1, n);
    let mut rest = split_dot_chars(&tail);
    let mut r: Vec<Vec<char>> = Vec::new();
    r.push(head);
    let ghost restm = rest@;
    r.append(&mut rest);
    proof {
        assert(r@.len() == 1 + restm.len());
        assert(split_dots(cs@) == seq![cs@.subrange(0, k as int)] + split_dots(tail@));
        assert forall|j: int| 0 <= j < r@.len() implies (#[trigger] r@[j])@ == split_dots(cs@)[j]
        by {
            if j >= 1 {
                assert(r@[j] == restm[j - 1]);
                assert(split_dots(cs@)[j] == split_dots(tail@)[j - 1]);
            } else {
                assert(r@[0]@ == cs@.subrange(0, k as int));
            }
        }
    }
    r
}

/// Executable test for [`seg_ok`].
fn seg_ok_exec(seg: &Vec<char>) -> (r: bool)
    ensures
        r == seg_ok(seg@),
{
    let n = seg.len();
    if n == 0 {
        return false;
    }
    if !(crate::text::alpha(seg[0]) || seg[0] == '_') {
        return false;
    }
    let mut i: usize = 0;
    while i < n
        invariant
            i <= n,
            n == seg@.len(),
            forall|j: int|
                0 <= j < i ==> crate::text::is_alpha(#[trigger] seg@[j]) || is_digit(seg@[j])
                    || seg@[j] == '_',
        decreases n - i,
    {
        let c = seg[i];
        if !(crate::text::alpha(c) || digit(c) || c == '_') {
            return false;
        }
        i = i + 1;
    }
    true
}

/// How path expansion treats a key: the segments to expand into, or
/// nothing for a key that stays literal (its marker removed).
pub open spec fn key_class_spec(k: Seq<char>, on: bool) -> Option<Seq<Seq<char>>> {
    if is_marked(k) {
        None
    } else if on && safe_dotted(k) {
        Some(split_dots(k))
    } else {
        None
    }
}

/// The merging policy at a collision: two objects merge recursively;
/// otherwise, in strict mode the collision is a conflict, and in lenient
/// mode the later value replaces the earlier.
pub open spec fn gmerge_val(a: GValue, b: GValue, strict: bool) -> Result<GValue, PErr>
    decreases b, 0nat,
{
    if a is Obj && b is Obj {
        match gmerge_ent(a->Obj_0, b->Obj_0, 0, strict) {
            Ok(ent) => Ok(GValue::Obj(ent)),
            Err(k) => Err(k),
        }
    } else if strict {
        Err(PErr::Conflict)
    } else {
        Ok(b)
    }
}

/// Folds the entries of the second object from `j` on into the first,
/// applying the merging policy at each colliding key.
pub open spec fn gmerge_ent(
    dst: Seq<(Seq<char>, GValue)>,
    src: Seq<(Seq<char>, GValue)>,
    j: int,
    strict: bool,
) -> Result<Seq<(Seq<char>, GValue)>, PErr>
    decreases src, (if j < src.len() {
        src.len() - j
    } else {
        0
    }) as nat,
{
    if !(0 <= j < src.len()) {
        Ok(dst)
    } else {
        let k = src[j].0;
        let idx = gfind(dst, k);
        if idx == -1 {
            gmerge_ent(dst.push((k, src[j].1)), src, j + 1, strict)
        } else {
            match gmerge_val(dst[idx].1, src[j].1, strict) {
                Ok(m) => gmerge_ent(dst.update(idx, (k, m)), src, j + 1, strict),
                Err(k2) => Err(k2),
            }
        }
    }
}

/// Merging a value under the path segments from `i` on into an entry
/// list: nested objects are built along the segments; a collision at the
/// final segment follows the merging policy (objects merge recursively,
/// strict mode makes other collisions conflicts, lenient mode lets the
/// later value replace the earlier).
pub open spec fn sp_merge(
    ent: Seq<(Seq<char>, GValue)>,
    segs: Seq<Seq<char>>,
    i: int,
    gv: GValue,
    strict: bool,
) -> Result<Seq<(Seq<char>, GValue)>, PErr>
    decreases segs.len() - i,
{
    if i >= segs.len() {
        Ok(ent)
    } else if i == segs.len() - 1 {
        let idx = gfind(ent, segs[i]);
        if idx == -1 {
            Ok(ent.push((segs[i], gv)))
        } else {
            match gmerge_val(ent[idx].1, gv, strict) {
                Ok(m) => Ok(ent.update(idx, (segs[i], m))),
                Err(k) => Err(k),
            }
        }
    } else {
        let idx = gfind(ent, segs[i]);
        if idx == -1 {
            match sp_merge(Seq::empty(), segs, i + 1, gv, strict) {
                Ok(nent) => Ok(ent.push((segs[i], GValue::Obj(nent)))),
                Err(k) => Err(k),
            }
        } else if ent[idx].1 is Obj {
            match sp_merge(ent[idx].1->Obj_0, segs, i + 1, gv, strict) {
                Ok(nent) => Ok(ent.update(idx, (segs[i], GValue::Obj(nent)))),
                Err(k) => Err(k),
            }
        } else if strict {
            Err(PErr::Conflict)
        } else {
            match sp_merge(Seq::empty(), segs, i + 1, gv, strict) {
                Ok(nent) => Ok(ent.update(idx, (segs[i], GValue::Obj(nent)))),
                Err(k) => Err(k),
            }
        }
    }
}

/// The expansion of a value: dotted keys are split and merged, marked
/// keys stay literal with the marker removed, arrays expand element by
/// element, and collisions follow the merging policy (objects merge
/// recursively; otherwise strict mode raises a conflict and lenient
/// mode keeps the later value).
pub open spec fn sp_expand(g: GValue, on: bool, strict: bool) -> Result<GValue, PErr>
    decreases g, 0nat,
{
    match g {
        GValue::Obj(ent) => match sp_exp_ent(ent, 0, Seq::empty(), on, strict) {
            Ok(r) => Ok(GValue::Obj(r)),
            Err(k) => Err(k),
        },
        GValue::Arr(items) => match sp_exp_arr(items, 0, Seq::empty(), on, strict) {
            Ok(r) => Ok(GValue::Arr(r)),
            Err(k) => Err(k),
        },
        _ => Ok(g),
    }
}

/// Expands the entries from `i` on into the accumulator.
pub open spec fn sp_exp_ent(
    ent: Seq<(Seq<char>, GValue)>,
    i: int,
    acc: Seq<(Seq<char>, GValue)>,
    on: bool,
    strict: bool,
) -> Result<Seq<(Seq<char>, GValue)>, PErr>
    decreases ent, (if i < ent.len() {
        ent.len() - i
    } else {
        0
    }) as nat,
{
    if !(0 <= i < ent.len()) {
        Ok(acc)
    } else {
        match sp_expand(ent[i].1, on, strict) {
            Err(k) => Err(k),
            Ok(ev) => match key_class_spec(ent[i].0, on) {
                Some(segs) => match sp_merge(acc, segs, 0, ev, strict) {
                    Ok(acc2) => sp_exp_ent(ent, i + 1, acc2, on, strict),
                    Err(k) => Err(k),
                },
                None => {
                    let t = unmark(ent[i].0);
                    let idx = gfind(acc, t);
                    if idx == -1 {
                        sp_exp_ent(ent, i + 1, acc.push((t, ev)), on, strict)
                    } else {
                        match gmerge_val(acc[idx].1, ev, strict) {
                            Ok(m) => sp_exp_ent(ent, i + 1, acc.update(idx, (t, m)), on, strict),
                            Err(k) => Err(k),
                        }
                    }
                },
            },
        }
    }
}

/// Expands the elements from `i` on into the accumulator.
pub open spec fn sp_exp_arr(
    items: Seq<GValue>,
    i: int,
    acc: Seq<GValue>,
    on: bool,
    strict: bool,
) -> Result<Seq<GValue>, PErr>
    decreases items, (if i < items.len() {
        items.len() - i
    } else {
        0
    }) as nat,
{
    if !(0 <= i < items.len()) {
        Ok(acc)
    } else {
        match sp_expand(items[i], on, strict) {
            Err(k) => Err(k),
            Ok(ev) => sp_exp_arr(items, i + 1, acc.push(ev), on, strict),
        }
    }
}

/// Applies the merging policy to a colliding pair: two objects merge
/// recursively; otherwise strict mode reports an `ExpansionConflict` and
/// lenient mode keeps the later value.
fn merge_values(dst: Value, src: Value, options: &DecoderOptions) -> (r: Result<Value, Error>)
    ensures
        ({
            let gm = gmerge_val(dst.model(), src.model(), options.strict);
            &&& (r is Ok) == (gm is Ok)
            &&& (r matches Ok(v) ==> (gm matches Ok(m) && v.model() == m))
            &&& (r matches Err(e) ==> (gm matches Err(k) && err_fits(e, k)))
        }),
    decreases src, 1nat,
{
    proof {
        crate::value::lemma_model_variant(dst);
        crate::value::lemma_model_variant(src);
    }
    let dst_is_obj = matches!(&dst, Value::Object(_));
    let src_is_obj = matches!(&src, Value::Object(_));
    if dst_is_obj && src_is_obj {
        match dst {
            Value::Object(mut dm) => match src {
                Value::Object(sm) => {
                    match merge_objects(&mut dm, sm, options) {
                        Ok(()) => Ok(Value::Object(dm)),
                        Err(e) => Err(e),
                    }
                },
                _ => {
                    proof {
                        assert(false);
                    }
                    Err(Error::custom("not an object"))
                },
            },
            _ => {
                proof {
                    assert(false);
                }
                Err(Error::custom("not an object"))
            },
        }
    } else if options.strict {
        Err(Error::new(ErrorKind::ExpansionConflict, "Path expansion conflict"))
    } else {
        Ok(src)
    }
}

/// Folds the second object's entries into the first, applying the
/// merging policy at each colliding key.
#[verifier::loop_isolation(false)]
fn merge_objects(dst: &mut ObjMap, src: ObjMap, options: &DecoderOptions) -> (r: Result<
    (),
    Error,
>)
    ensures
        ({
            let gm = gmerge_ent(
                model_entries(old(dst)@),
                model_entries(src@),
                0,
                options.strict,
            );
            &&& (r is Ok) == (gm is Ok)
            &&& (r is Ok ==> (gm matches Ok(ent2) && model_entries(final(dst)@) == ent2))
            &&& (r matches Err(e) ==> (gm matches Err(k) && err_fits(e, k)))
        }),
    decreases src, 0nat,
{
    let ghost gsrc = src;
    let mut ent = src.entries;
    let ghost orig = ent@;
    let ghost origm = model_entries(orig);
    let ghost dst0 = model_entries(old(dst)@);
    let ghost j: int = 0;
    proof {
        lemma_model_entries(orig);
    }
    while ent.len() > 0
        invariant
            0 <= j <= orig.len(),
            ent@ == orig.subrange(j, orig.len() as int),
            gsrc.entries@ == orig,
            origm == model_entries(orig),
            origm.len() == orig.len(),
            forall|l: int|
                0 <= l < orig.len() ==> origm[l] == ((#[trigger] orig[l]).0@,
                orig[l].1.model()),
            gmerge_ent(dst0, origm, 0, options.strict) == gmerge_ent(
                model_entries(dst@),
                origm,
                j,
                options.strict,
            ),
        decreases ent@.len(),
    {
        let e = ent.remove(0);
        proof {
            assert(e == orig[j]);
            assert(decreases_to!(gsrc => gsrc.entries@[j].1));
            assert(ent@ =~= orig.subrange(j + 1, orig.len() as int));
        }
        match dst.index_of(e.0.as_str()) {
            None => {
                proof {
                    lemma_gfind_model(dst@, e.0@);
                }
                let ghost before = dst@;
                let ghost gk = e.0;
                let ghost gv = e.1;
                dst.insert(e.0, e.1);
                proof {
                    lemma_ginsert_model(before, gk, gv);
                }
            },
            Some(idx) => {
                proof {
                    lemma_gfind_model(dst@, e.0@);
                    lemma_model_entries(dst@);
                }
                let ghost before = dst@;
                let (k0, v0) = dst.entries.remove(idx);
                proof {
                    assert(v0 == before[idx as int].1);
                    assert(k0 == before[idx as int].0);
                    assert(k0@ == origm[j].0);
                }
                let m = match merge_values(v0, e.1, options) {
                    Ok(m) => m,
                    Err(e2) => {
                        return Err(e2);
                    },
                };
                dst.entries.insert(idx, (k0, m));
                proof {
                    assert(dst.entries@ =~= before.update(idx as int, (k0, m)));
                    lemma_model_update(before, idx as int, k0, m);
                }
            },
        }
        proof {
            j = j + 1;
        }
    }
    proof {
        assert(j == orig.len());
    }
    Ok(())
}

/// Merges a value under a dotted path into an object, building nested
/// objects along the segments; a collision at the final segment follows
/// the merging policy.
#[verifier::loop_isolation(false)]
fn merge_path(
    obj: &mut ObjMap,
    segs: &Vec<String>,
    i: usize,
    value: Value,
    options: &DecoderOptions,
) -> (r: Result<(), Error>)
    ensures
        ({
            let sm = sp_merge(
                model_entries(old(obj)@),
                smodels(segs@),
                i as int,
                value.model(),
                options.strict,
            );
            &&& (r is Ok) == (sm is Ok)
            &&& (r is Ok ==> (sm matches Ok(ent2) && model_entries(final(obj)@) == ent2))
            &&& (r matches Err(e) ==> (sm matches Err(k) && err_fits(e, k)))
        }),
    decreases segs@.len() - i,
{
    proof {
        lemma_model_entries(old(obj)@);
        assert(forall|l: int|
            0 <= l < segs@.len() ==> smodels(segs@)[l] == (#[trigger] segs@[l])@);
    }
    if i >= segs.len() {
        return Ok(());
    }
    let ghost gsegs = smodels(segs@);
    let ghost m0 = model_entries(old(obj)@);
    if i == segs.len() - 1 {
        match obj.index_of(segs[i].as_str()) {
            Some(idx) => {
                proof {
                    lemma_gfind_model(old(obj)@, segs@[i as int]@);
                    assert(gfind(m0, gsegs[i as int]) == idx);
                    assert(m0[idx as int].1 == old(obj)@[idx as int].1.model());
                }
                let ghost before = obj@;
                let (k0, v0) = obj.entries.remove(idx);
                proof {
                    assert(v0 == before[idx as int].1);
                    assert(k0 == before[idx as int].0);
                    assert(k0@ == gsegs[i as int]);
                }
                let ghost gval = value;
                let m = match merge_values(v0, value, options) {
                    Ok(m) => m,
                    Err(e) => {
                        return Err(e);
                    },
                };
                obj.entries.insert(idx, (k0, m));
                proof {
                    assert(obj.entries@ =~= before.update(idx as int, (k0, m)));
                    lemma_model_update(before, idx as int, k0, m);
                }
                return Ok(());
            },
            None => {
                proof {
                    lemma_gfind_model(old(obj)@, segs@[i as int]@);
                }
                let ghost k = segs@[i as int];
                obj.insert(segs[i].clone(), value);
                proof {
                    lemma_ginsert_model(old(obj)@, k, value);
                }
                return Ok(());
            },
        }
    }
    match obj.index_of(segs[i].as_str()) {
        Some(idx) => {
            proof {
                lemma_gfind_model(old(obj)@, segs@[i as int]@);
                assert(gfind(m0, gsegs[i as int]) == idx);
                assert(m0[idx as int] == (old(obj)@[idx as int].0@, old(
                    obj,
                )@[idx as int].1.model()));
            }
            let (k0, v0) = obj.entries.remove(idx);
            proof {
                assert(v0 == old(obj)@[idx as int].1);
                assert(k0 == old(obj)@[idx as int].0);
                assert(k0@ == gsegs[i as int]);
                crate::value::lemma_model_variant(v0);
            }
            match v0 {
                Value::Object(mut nested) => {
                    proof {
                        assert(v0.model() == GValue::Obj(model_entries(nested.entries@)));
                        assert(m0[idx as int].1->Obj_0 == model_entries(nested.entries@));
                    }
                    let ghost n0 = nested.entries@;
                    match merge_path(&mut nested, segs, i + 1, value, options) {
                        Ok(()) => {},
                        Err(e) => {
                            return Err(e);
                        },
                    }
                    obj.entries.insert(idx, (k0, Value::Object(nested)));
                    proof {
                        assert(obj.entries@ =~= old(obj)@.update(
                            idx as int,
                            (k0, Value::Object(nested)),
                        ));
                        lemma_model_update(old(obj)@, idx as int, k0, Value::Object(nested));
                    }
                },
                _ => {
                    if options.strict {
                        return Err(
                            Error::new(ErrorKind::ExpansionConflict, "Path expansion conflict"),
                        );
                    }
                    let mut nested = ObjMap::new();
                    proof {
                        assert(model_entries(nested.entries@) =~= Seq::<(
                            Seq<char>,
                            GValue,
                        )>::empty());
                    }
                    match merge_path(&mut nested, segs, i + 1, value, options) {
                        Ok(()) => {},
                        Err(e) => {
                            return Err(e);
                        },
                    }
                    obj.entries.insert(idx, (k0, Value::Object(nested)));
                    proof {
                        assert(obj.entries@ =~= old(obj)@.update(
                            idx as int,
                            (k0, Value::Object(nested)),
                        ));
                        lemma_model_update(old(obj)@, idx as int, k0, Value::Object(nested));
                    }
                },
            }
        },
        None => {
            proof {
                lemma_gfind_model(old(obj)@, segs@[i as int]@);
            }
            let mut nested = ObjMap::new();
            proof {
                assert(model_entries(nested.entries@) =~= Seq::<(Seq<char>, GValue)>::empty());
            }
            match merge_path(&mut nested, segs, i + 1, value, options) {
                Ok(()) => {},
                Err(e) => {
                    return Err(e);
                },
            }
            let ghost k = segs@[i as int];
            obj.insert(segs[i].clone(), Value::Object(nested));
            proof {
                lemma_ginsert_model(old(obj)@, k, Value::Object(nested));
                assert(gfind(m0, gsegs[i as int]) == -1);
            }
        },
    }
    Ok(())
}

/// Rewrites dotted keys into nested objects. Marked keys - quoted in
/// the source - are left literal, with the marker removed; collisions
/// follow the merging policy: objects merge recursively, and otherwise
/// strict mode reports an `ExpansionConflict` while lenient mode keeps
/// the later value.
#[verifier::loop_isolation(false)]
pub fn expand_paths(value: Value, options: &DecoderOptions) -> (r: Result<Value, Error>)
    ensures
        ({
            let se = sp_expand(
                value.model(),
                options.expand_paths == PathExpansion::Safe,
                options.strict,
            );
            &&& (r is Ok) == (se is Ok)
            &&& (r matches Ok(rv) ==> (se matches Ok(g) && rv.model() == g))
            &&& (r matches Err(e) ==> (se matches Err(k) && err_fits(e, k)))
        }),
        !(value is Object) && !(value is Arr) ==> r == Ok::<Value, Error>(value),
        (value matches Value::Object(m) && m.entries@.len() == 0) ==> (r matches Ok(rv)
            && rv matches Value::Object(m2) && m2.entries@.len() == 0),
        value is Arr ==> (r matches Ok(rv) ==> (rv matches Value::Arr(b) && b@.len()
            == value->Arr_0@.len() && forall|j: int|
            0 <= j < b@.len() ==> (crate::ser::is_prim(value->Arr_0@[j]) ==> #[trigger] b@[j]
                == value->Arr_0@[j]))),
    decreases value,
{
    let ghost gvalue = value;
    let ghost on = options.expand_paths == PathExpansion::Safe;
    match value {
        Value::Object(m) => {
            let mut ent = m.entries;
            let ghost orig = ent@;
            let ghost origm = model_entries(orig);
            let mut result = ObjMap::new();
            let ghost j: int = 0;
            proof {
                lemma_model_entries(orig);
                assert(model_entries(result@) =~= Seq::<(Seq<char>, GValue)>::empty());
                assert(gvalue.model() == GValue::Obj(origm));
            }
            while ent.len() > 0
                invariant
                    0 <= j <= orig.len(),
                    ent@ == orig.subrange(j, orig.len() as int),
                    gvalue is Object,
                    orig == gvalue->Object_0.entries@,
                    origm == model_entries(orig),
                    origm.len() == orig.len(),
                    on == (options.expand_paths == PathExpansion::Safe),
                    forall|l: int|
                        0 <= l < orig.len() ==> origm[l] == ((#[trigger] orig[l]).0@,
                        orig[l].1.model()),
                    sp_exp_ent(origm, 0, Seq::empty(), on, options.strict) == sp_exp_ent(
                        origm,
                        j,
                        model_entries(result@),
                        on,
                        options.strict,
                    ),
                    orig.len() == 0 ==> result@.len() == 0,
                decreases ent@.len(),
            {
                let e = ent.remove(0);
                proof {
                    assert(e == orig[j]);
                    assert(decreases_to!(gvalue => gvalue->Object_0.entries@[j].1));
                    assert(ent@ =~= orig.subrange(j + 1, orig.len() as int));
                }
                let ghost acc0 = model_entries(result@);
                let ev = match expand_paths(e.1, options) {
                    Ok(v) => v,
                    Err(er) => {
                        proof {
                            assert(sp_expand(origm[j].1, on, options.strict) is Err);
                        }
                        return Err(er);
                    },
                };
                proof {
                    assert(sp_expand(origm[j].1, on, options.strict) matches Ok(g) && ev.model()
                        == g);
                }
                match classify_key(e.0.as_str(), options.expand_paths == PathExpansion::Safe) {
                    KeyClass::Expand(segs) => {
                        proof {
                            assert(forall|l: int|
                                0 <= l < segs@.len() ==> smodels(segs@)[l] == (
                                #[trigger] segs@[l])@);
                            assert(smodels(segs@) =~= split_dots(origm[j].0));
                            assert(key_class_spec(origm[j].0, on) == Some(split_dots(
                                origm[j].0,
                            )));
                        }
                        match merge_path(&mut result, &segs, 0, ev, options) {
                            Ok(()) => {},
                            Err(er) => {
                                return Err(er);
                            },
                        }
                    },
                    KeyClass::Literal(t) => {
                        proof {
                            assert(key_class_spec(origm[j].0, on) is None);
                            assert(t@ == unmark(origm[j].0));
                        }
                        match result.index_of(t.as_str()) {
                            Some(idx) => {
                                proof {
                                    lemma_gfind_model(result@, t@);
                                    lemma_model_entries(result@);
                                }
                                let ghost before = result@;
                                let (k0, v0) = result.entries.remove(idx);
                                proof {
                                    assert(v0 == before[idx as int].1);
                                    assert(k0 == before[idx as int].0);
                                    assert(k0@ == t@);
                                }
                                let m = match merge_values(v0, ev, options) {
                                    Ok(m) => m,
                                    Err(er) => {
                                        return Err(er);
                                    },
                                };
                                result.entries.insert(idx, (k0, m));
                                proof {
                                    assert(result.entries@ =~= before.update(
                                        idx as int,
                                        (k0, m),
                                    ));
                                    lemma_model_update(before, idx as int, k0, m);
                                }
                            },
                            None => {
                                proof {
                                    lemma_gfind_model(result@, t@);
                                }
                                let ghost before = result@;
                                let ghost tt = t;
                                result.insert(t, ev);
                                proof {
                                    lemma_ginsert_model(before, tt, ev);
                                }
                            },
                        }
                    },
                }
                proof {
                    j = j + 1;
                }
            }
            proof {
                assert(j == orig.len());
                assert(sp_exp_ent(origm, j, model_entries(result@), on, options.strict)
                    == Ok::<Seq<(Seq<char>, GValue)>, PErr>(model_entries(result@)));
            }
            Ok(Value::Object(result))
        },
        Value::Arr(a) => {
            let mut items = a;
            let ghost orig = items@;
            let ghost origm = model_seq(orig);
            let mut out: Vec<Value> = Vec::new();
            let ghost j: int = 0;
            proof {
                lemma_model_seq(orig);
                assert(model_seq(out@) =~= Seq::<GValue>::empty());
                assert(gvalue.model() == GValue::Arr(origm));
            }
            while items.len() > 0
                invariant
                    0 <= j <= orig.len(),
                    items@ == orig.subrange(j, orig.len() as int),
                    gvalue is Arr,
                    orig == gvalue->Arr_0@,
                    origm == model_seq(orig),
                    origm.len() == orig.len(),
                    on == (options.expand_paths == PathExpansion::Safe),
                    forall|l: int|
                        0 <= l < orig.len() ==> origm[l] == (#[trigger] orig[l]).model(),
                    sp_exp_arr(origm, 0, Seq::empty(), on, options.strict) == sp_exp_arr(
                        origm,
                        j,
                        model_seq(out@),
                        on,
                        options.strict,
                    ),
                    out@.len() == j,
                    forall|l: int|
                        0 <= l < j ==> (crate::ser::is_prim(orig[l]) ==> #[trigger] out@[l]
                            == orig[l]),
                decreases items@.len(),
            {
                let e = items.remove(0);
                proof {
                    assert(e == orig[j]);
                    assert(decreases_to!(gvalue => gvalue->Arr_0@[j]));
                    assert(items@ =~= orig.subrange(j + 1, orig.len() as int));
                }
                let ghost outm0 = model_seq(out@);
                proof {
                    lemma_model_seq(out@);
                }
                let ev = match expand_paths(e, options) {
                    Ok(v) => v,
                    Err(er) => {
                        proof {
                            assert(sp_expand(origm[j], on, options.strict) is Err);
                        }
                        return Err(er);
                    },
                };
                out.push(ev);
                proof {
                    lemma_model_seq(out@);
                    assert forall|l: int|
                        0 <= l < model_seq(out@).len() implies model_seq(out@)[l] == outm0.push(
                        ev.model(),
                    )[l] by {
                        assert(model_seq(out@)[l] == out@[l].model());
                        if l < out@.len() - 1 {
                            assert(outm0[l] == out@[l].model());
                        } else {
                            assert(out@[l] == ev);
                        }
                    }
                    assert(model_seq(out@) =~= outm0.push(ev.model()));
                    j = j + 1;
                }
            }
            proof {
                assert(j == orig.len());
                assert(sp_exp_arr(origm, j, model_seq(out@), on, options.strict) == Ok::<
                    Seq<GValue>,
                    PErr,
                >(model_seq(out@)));
            }
            Ok(Value::Arr(out))
        },
        other => {
            proof {
                crate::value::lemma_model_variant(other);
            }
            Ok(other)
        },
    }
}

/// A key with its internal marker removed.
pub open spec fn unmark(k: Seq<char>) -> Seq<char> {
    if is_marked(k) {
        k.subrange(1, k.len() as int)
    } else {
        k
    }
}

/// The marker-stripped form of a value: every object key loses its
/// marker (later entries replacing earlier ones on a collision, as
/// insertion does); everything else is kept as it is.
pub open spec fn sp_strip(g: GValue) -> GValue
    decreases g, 0nat,
{
    match g {
        GValue::Obj(ent) => GValue::Obj(sp_strip_ent(ent, 0, Seq::empty())),
        GValue::Arr(items) => GValue::Arr(sp_strip_arr(items, 0, Seq::empty())),
        _ => g,
    }
}

/// Strips the entries from `i` on, inserting into the accumulator.
pub open spec fn sp_strip_ent(
    ent: Seq<(Seq<char>, GValue)>,
    i: int,
    acc: Seq<(Seq<char>, GValue)>,
) -> Seq<(Seq<char>, GValue)>
    decreases ent, (if i < ent.len() {
        ent.len() - i
    } else {
        0
    }) as nat,
{
    if !(0 <= i < ent.len()) {
        acc
    } else {
        sp_strip_ent(ent, i + 1, ginsert(acc, unmark(ent[i].0), sp_strip(ent[i].1)))
    }
}

/// Strips the elements from `i` on, appending to the accumulator.
pub open spec fn sp_strip_arr(items: Seq<GValue>, i: int, acc: Seq<GValue>) -> Seq<GValue>
    decreases items, (if i < items.len() {
        items.len() - i
    } else {
        0
    }) as nat,
{
    if !(0 <= i < items.len()) {
        acc
    } else {
        sp_strip_arr(items, i + 1, acc.push(sp_strip(items[i])))
    }
}

/// Removes the internal marker from keys that were quoted in the source,
/// leaving the key text itself untouched, everywhere in the tree.
#[verifier::loop_isolation(false)]
pub fn strip_markers(value: Value) -> (r: Value)
    ensures
        r.model() == sp_strip(value.model()),
        !(value is Object) && !(value is Arr) ==> r == value,
        (value matches Value::Object(m) && m.entries@.len() == 0) ==> (r matches Value::Object(m2)
            && m2.entries@.len() == 0),
        value is Arr ==> (r matches Value::Arr(b) && b@.len() == value->Arr_0@.len() && forall|
            j: int,
        |
            0 <= j < b@.len() ==> (crate::ser::is_prim(value->Arr_0@[j]) ==> #[trigger] b@[j]
                == value->Arr_0@[j])),
    decreases value,
{
    let ghost gvalue = value;
    match value {
        Value::Object(m) => {
            let mut ent = m.entries;
            let ghost orig = ent@;
            let ghost origm = model_entries(orig);
            let mut result = ObjMap::new();
            let ghost j: int = 0;
            proof {
                lemma_model_entries(orig);
                assert(model_entries(result@) =~= Seq::<(Seq<char>, GValue)>::empty());
            }
            while ent.len() > 0
                invariant
                    0 <= j <= orig.len(),
                    ent@ == orig.subrange(j, orig.len() as int),
                    gvalue is Object,
                    orig == gvalue->Object_0.entries@,
                    origm == model_entries(orig),
                    origm.len() == orig.len(),
                    forall|l: int|
                        0 <= l < orig.len() ==> origm[l] == ((#[trigger] orig[l]).0@,
                        orig[l].1.model()),
                    sp_strip_ent(origm, 0, Seq::empty()) == sp_strip_ent(
                        origm,
                        j,
                        model_entries(result@),
                    ),
                    orig.len() == 0 ==> result@.len() == 0,
                decreases ent@.len(),
            {
                let e = ent.remove(0);
                proof {
                    assert(e == orig[j]);
                    assert(decreases_to!(gvalue => gvalue->Object_0.entries@[j].1));
                    assert(ent@ =~= orig.subrange(j + 1, orig.len() as int));
                }
                let ev = strip_markers(e.1);
                let ghost before = result@;
                match classify_key(e.0.as_str(), false) {
                    KeyClass::Literal(t) => {
                        proof {
                            assert(t@ == unmark(origm[j].0));
                        }
                        let ghost tt = t;
                        result.insert(t, ev);
                        proof {
                            lemma_ginsert_model(before, tt, ev);
                            assert(model_entries(result@) == ginsert(
                                model_entries(before),
                                unmark(origm[j].0),
                                sp_strip(origm[j].1),
                            ));
                        }
                    },
                    KeyClass::Expand(_) => {
                        proof {
                            assert(false);
                        }
                    },
                }
                proof {
                    j = j + 1;
                }
            }
            proof {
                assert(model_entries(result@) == sp_strip_ent(origm, 0, Seq::empty()));
                assert(gvalue.model() == GValue::Obj(origm));
            }
            Value::Object(result)
        },
        Value::Arr(a) => {
            let mut items = a;
            let ghost orig = items@;
            let ghost origm = model_seq(orig);
            let mut out: Vec<Value> = Vec::new();
            let ghost j: int = 0;
            proof {
                lemma_model_seq(orig);
                assert(model_seq(out@) =~= Seq::<GValue>::empty());
            }
            while items.len() > 0
                invariant
                    0 <= j <= orig.len(),
                    items@ == orig.subrange(j, orig.len() as int),
                    gvalue is Arr,
                    orig == gvalue->Arr_0@,
                    origm == model_seq(orig),
                    origm.len() == orig.len(),
                    forall|l: int|
                        0 <= l < orig.len() ==> origm[l] == (#[trigger] orig[l]).model(),
                    sp_strip_arr(origm, 0, Seq::empty()) == sp_strip_arr(
                        origm,
                        j,
                        model_seq(out@),
                    ),
                    out@.len() == j,
                    forall|l: int|
                        0 <= l < j ==> (crate::ser::is_prim(orig[l]) ==> #[trigger] out@[l]
                            == orig[l]),
                decreases items@.len(),
            {
                let e = items.remove(0);
                proof {
                    assert(e == orig[j]);
                    assert(decreases_to!(gvalue => gvalue->Arr_0@[j]));
                    assert(items@ =~= orig.subrange(j + 1, orig.len() as int));
                }
                let ghost outm0 = model_seq(out@);
                proof {
                    lemma_model_seq(out@);
                }
                let ev = strip_markers(e);
                out.push(ev);
                proof {
                    lemma_model_seq(out@);
                    assert forall|l: int|
                        0 <= l < model_seq(out@).len() implies model_seq(out@)[l] == outm0.push(
                        sp_strip(origm[j]),
                    )[l] by {
                        assert(model_seq(out@)[l] == out@[l].model());
                        if l < out@.len() - 1 {
                            assert(outm0[l] == out@[l].model());
                        } else {
                            assert(out@[l] == ev);
                        }
                    }
                    assert(model_seq(out@) =~= outm0.push(sp_strip(origm[j])));
                    j = j + 1;
                }
            }
            proof {
                assert(j == orig.len());
                assert(model_seq(out@) == sp_strip_arr(origm, 0, Seq::empty()));
                assert(gvalue.model() == GValue::Arr(origm));
            }
            Value::Arr(out)
        },
        other => {
            proof {
                crate::value::lemma_model_variant(other);
            }
            other
        },
    }
}

/// Decodes TOON text into a value. In strict mode, text with a tab in
/// leading whitespace or with indentation that is not a multiple of the
/// configured width is rejected with an `IndentationError`.
pub fn decode(input: &str, options: &DecoderOptions) -> (r: Result<Value, Error>)
    requires
        options.indent >= 1,
    ensures
        options.strict && has_bad_strict_line(input@, options.indent as nat) ==> (r matches Err(e)
            && e.spec_kind() is IndentationError),
        input@.len() == 0 ==> (r matches Ok(v) && v matches Value::Object(m) && m.entries@.len()
            == 0),
        ({
            let toks = tok_lines(
                lines_of(input@),
                lines_of(input@).len() as nat,
                options.indent as nat,
            );
            &&& !(options.strict && has_bad_strict_line(input@, options.indent as nat))
            &&& toks.len() == 1
            &&& toks[0].1 == 0
            &&& hdr_model(toks[0].0) is NotHeader
            &&& colon_pos(toks[0].0) == -1
            &&& !(prim_model(toks[0].0) matches Some(g) && (g is Obj || g is Arr))
        }) ==> (match prim_model(
            tok_lines(lines_of(input@), lines_of(input@).len() as nat, options.indent as nat)[0].0,
        ) {
            Some(g) => r matches Ok(v) && v.model() == g,
            None => r is Err,
        }),
        ({
            let toks = tok_lines(
                lines_of(input@),
                lines_of(input@).len() as nat,
                options.indent as nat,
            );
            &&& !(options.strict && has_bad_strict_line(input@, options.indent as nat))
            &&& toks.len() >= 1
            &&& toks[0].1 == 0
            &&& (match hdr_model(toks[0].0) {
                HeaderR::Header(hm) => hm.key is None,
                _ => false,
            })
        }) ==> (r matches Ok(v) ==> (match hdr_model(
            tok_lines(lines_of(input@), lines_of(input@).len() as nat, options.indent as nat)[0].0,
        ) {
            HeaderR::Header(hm) => v matches Value::Arr(items) && items@.len() == hm.length,
            _ => true,
        })),
        ({
            let toks = tok_lines(
                lines_of(input@),
                lines_of(input@).len() as nat,
                options.indent as nat,
            );
            &&& !(options.strict && has_bad_strict_line(input@, options.indent as nat))
            &&& toks.len() >= 1
            &&& toks[0].1 == 0
            &&& (match hdr_model(toks[0].0) {
                HeaderR::Header(hm) => hm.key is None,
                _ => false,
            })
            &&& plain_end(toks[0].0, ':', 0) < toks[0].0.len()
            &&& trim_start(
                toks[0].0.subrange(plain_end(toks[0].0, ':', 0) + 1, toks[0].0.len() as int),
            ).len() > 0
        }) ==> (match hdr_model(
            tok_lines(lines_of(input@), lines_of(input@).len() as nat, options.indent as nat)[0].0,
        ) {
            HeaderR::Header(hm) => {
                let c0 = tok_lines(
                    lines_of(input@),
                    lines_of(input@).len() as nat,
                    options.indent as nat,
                )[0].0;
                let vp = trim_start(c0.subrange(plain_end(c0, ':', 0) + 1, c0.len() as int));
                let cl = cells(vp, delim_char(hm.delimiter));
                r matches Ok(v) ==> (v matches Value::Arr(items) && items@.len() == hm.length
                    && cl.len() == hm.length && forall|j: int|
                    0 <= j < items@.len() ==> prim_model(cl[j]) == Some(
                        (#[trigger] items@[j]).model(),
                    ))
            },
            _ => true,
        }),
        !(options.strict && has_bad_strict_line(input@, options.indent as nat)) ==> (match sp_root(
            tok_lines(lines_of(input@), lines_of(input@).len() as nat, options.indent as nat),
            options.strict,
        ) {
            Err(k) => r matches Err(e) && err_fits(e, k),
            Ok(g) => if options.expand_paths == PathExpansion::Safe {
                match sp_expand(g, true, options.strict) {
                    Ok(g2) => r matches Ok(v) && v.model() == g2,
                    Err(k) => r matches Err(e) && err_fits(e, k),
                }
            } else {
                r matches Ok(v) && v.model() == sp_strip(g)
            },
        }),
{
    let lines = match tokenize_lines(input, options) {
        Ok(l) => l,
        Err(e) => {
            return Err(e);
        },
    };
    proof {
        let toks = tok_lines(
            lines_of(input@),
            lines_of(input@).len() as nat,
            options.indent as nat,
        );
        assert forall|l: int| 0 <= l < lmodels(lines@).len() implies lmodels(lines@)[l]
            == toks[l] by {
            assert(lmodels(lines@)[l] == lines@[l].model());
        }
        assert(lmodels(lines@) =~= toks);
    }
    let v = match parse_root(&lines, options) {
        Ok(v) => v,
        Err(e) => {
            return Err(e);
        },
    };
    let ghost gv = v;
    proof {
        let toks = tok_lines(
            lines_of(input@),
            lines_of(input@).len() as nat,
            options.indent as nat,
        );
        assert(lmodels(lines@) == toks);
        if toks.len() >= 1 {
            assert(lines@[0].model() == toks[0]);
            assert(lines@[0].content@ == toks[0].0);
        }
        match gv {
            Value::Arr(items0) => {
                assert forall|j: int|
                    0 <= j < items0@.len() && prim_model(
                        cells(
                            trim_start(
                                toks[0].0.subrange(
                                    plain_end(toks[0].0, ':', 0) + 1,
                                    toks[0].0.len() as int,
                                ),
                            ),
                            delim_char(
                                match hdr_model(toks[0].0) {
                                    HeaderR::Header(hm) => hm.delimiter,
                                    _ => Delimiter::Comma,
                                },
                            ),
                        )[j],
                    ) == Some((#[trigger] items0@[j]).model()) implies crate::ser::is_prim(
                    items0@[j],
                ) by {
                    lemma_prim_model_prim(
                        cells(
                            trim_start(
                                toks[0].0.subrange(
                                    plain_end(toks[0].0, ':', 0) + 1,
                                    toks[0].0.len() as int,
                                ),
                            ),
                            delim_char(
                                match hdr_model(toks[0].0) {
                                    HeaderR::Header(hm) => hm.delimiter,
                                    _ => Delimiter::Comma,
                                },
                            ),
                        )[j],
                    );
                    crate::value::lemma_model_variant(items0@[j]);
                }
            },
            _ => {},
        }
    }
    if matches!(options.expand_paths, PathExpansion::Safe) {
        expand_paths(v, options)
    } else {
        Ok(strip_markers(v))
    }
}

/// Decodes TOON text given as UTF-8 bytes; bytes that are not valid
/// UTF-8 are rejected with a `Custom` error, and valid bytes decode as
/// the text they spell.
pub fn decode_bytes(v: &[u8], options: &DecoderOptions) -> (r: Result<Value, Error>)
    requires
        options.indent >= 1,
    ensures
        !vstd::utf8::valid_utf8(v@) ==> (r matches Err(e) && e.spec_kind() is Custom),
        vstd::utf8::valid_utf8(v@) ==> ({
            let input = crate::text::chars_of_utf8(v@);
            &&& (options.strict && has_bad_strict_line(input, options.indent as nat) ==> (
            r matches Err(e) && e.spec_kind() is IndentationError))
            &&& (!(options.strict && has_bad_strict_line(input, options.indent as nat)) ==> (
            match sp_root(
                tok_lines(lines_of(input), lines_of(input).len() as nat, options.indent as nat),
                options.strict,
            ) {
                Err(k) => r matches Err(e) && err_fits(e, k),
                Ok(g) => if options.expand_paths == PathExpansion::Safe {
                    match sp_expand(g, true, options.strict) {
                        Ok(g2) => r matches Ok(val) && val.model() == g2,
                        Err(k) => r matches Err(e) && err_fits(e, k),
                    }
                } else {
                    r matches Ok(val) && val.model() == sp_strip(g)
                },
            }))
        }),
{
    match crate::text::bytes_to_str(v) {
        Some(s) => decode(s, options),
        None => Err(Error::custom("invalid UTF-8")),
    }
}

/// Whitespace runs stay inside the leading-whitespace scan.
proof fn lemma_ws_end_prefix(s: Seq<char>, i: int, t: int)
    requires
        0 <= i <= t < ws_end(s, i),
    ensures
        forall|k: int| i <= k < t ==> is_space_char(#[trigger] s[k]),
        t < s.len(),
    decreases t - i,
{
    if i < t {
        lemma_ws_end_prefix(s, i + 1, t);
    }
}

/// A line trims to nothing exactly when it is blank.
proof fn lemma_trim_blank(s: Seq<char>)
    ensures
        (trim(s).len() == 0) == blank_line(s),
{
    lemma_ws_end_all(s, 0);
    lemma_ws_back_all(s, s.len() as int);
    let a = ws_end(s, 0);
    let b = ws_back(s, s.len() as int);
    if a >= b {
        assert forall|j: int| 0 <= j < s.len() implies is_space_char(#[trigger] s[j]) by {
            if j < a {
            } else {
            }
        }
    } else {
        assert(!is_space_char(s[a]));
        assert(!blank_line(s));
    }
}

/// Characters before the whitespace scan's end are whitespace, and the
/// character at its end is not.
proof fn lemma_ws_end_all(s: Seq<char>, i: int)
    requires
        0 <= i <= s.len(),
    ensures
        i <= ws_end(s, i) <= s.len(),
        forall|k: int| i <= k < ws_end(s, i) ==> is_space_char(#[trigger] s[k]),
        ws_end(s, i) < s.len() ==> !is_space_char(s[ws_end(s, i)]),
    decreases s.len() - i,
{
    if i < s.len() && is_space_char(s[i]) {
        lemma_ws_end_all(s, i + 1);
    }
}

/// Characters at or after the backwards whitespace scan's stop are
/// whitespace, and the character before it is not.
proof fn lemma_ws_back_all(s: Seq<char>, i: int)
    requires
        0 <= i <= s.len(),
    ensures
        0 <= ws_back(s, i) <= i,
        forall|k: int| ws_back(s, i) <= k < i ==> is_space_char(#[trigger] s[k]),
        ws_back(s, i) > 0 ==> !is_space_char(s[ws_back(s, i) - 1]),
    decreases i,
{
    if i > 0 && is_space_char(s[i - 1]) {
        lemma_ws_back_all(s, i - 1);
    }
}

/// A line with no tabs in its leading whitespace and with its leading
/// spaces a multiple of the width (or blank) is not a bad strict line.
proof fn lemma_not_bad(s: Seq<char>, indent: nat, blank: bool, lead: int)
    requires
        indent >= 1,
        blank == (trim(s).len() == 0),
        lead == spaces_end(s, 0),
        forall|t: int| 0 <= t < ws_end(s, 0) ==> s[t] != '\t',
        !blank ==> lead % (indent as int) == 0,
    ensures
        !bad_strict_line(s, indent),
{
    lemma_trim_blank(s);
    lemma_ws_end_all(s, 0);
    assert(!tab_in_leading_ws(s)) by {
        if tab_in_leading_ws(s) {
            let j = choose|j: int|
                0 <= j < s.len() && #[trigger] s[j] == '\t' && forall|k: int|
                    0 <= k < j ==> is_space_char(#[trigger] s[k]);
            lemma_ws_end_step(s, 0, j);
        }
    }
    if blank {
        assert(blank_line(s));
    } else {
        lemma_spaces_end_all(s, 0);
    }
}

/// A position preceded only by whitespace lies within the whitespace
/// scan's reach.
proof fn lemma_ws_end_step(s: Seq<char>, i: int, j: int)
    requires
        0 <= i <= j < s.len(),
        forall|k: int| 0 <= k < j ==> is_space_char(#[trigger] s[k]),
        s[j] == '\t',
    ensures
        j < ws_end(s, i),
    decreases j - i,
{
    assert(is_space_char('\t'));
    if i < j {
        assert(is_space_char(s[i]));
        lemma_ws_end_step(s, i + 1, j);
    } else {
        lemma_ws_end_all(s, i + 1);
    }
}

/// Characters before the space scan's end are spaces, and the character
/// at its end is not a space.
proof fn lemma_spaces_end_all(s: Seq<char>, i: int)
    requires
        0 <= i <= s.len(),
    ensures
        i <= spaces_end(s, i) <= s.len(),
        forall|k: int| i <= k < spaces_end(s, i) ==> #[trigger] s[k] == ' ',
        spaces_end(s, i) < s.len() ==> s[spaces_end(s, i)] != ' ',
    decreases s.len() - i,
{
    if i < s.len() && s[i] == ' ' {
        lemma_spaces_end_all(s, i + 1);
    }
}

} // verus!
