//! The encoder: a value-tree walker that picks, for every array and
//! object, one of the TOON surface forms (inline primitive row, tabular
//! matrix, bulleted list, nested block) and performs minimal quoting.
//!
//! The whole output is pinned down by the specification functions in this
//! module: [`Serializer::serialize_value`] ensures that the emitted text
//! equals [`enc_value`] of the value, which is what makes the encoder a
//! pure function of the value and the options.

use vstd::prelude::*;
use vstd::string::StrSliceExecFns;

use crate::options::{Delimiter, EncoderOptions, KeyFolding, delim_char, delim_marker};
use crate::text::{
    all_digits, dec_of, dec_of_i64, digit, fmt_i64, fmt_u64, is_digit, is_space_char, ws,
    chars_to_string,
};
use crate::value::{find_key, Number, ObjMap, Value};

verus! {

/// The text `null`.
pub open spec fn lit_null() -> Seq<char> {
    seq!['n', 'u', 'l', 'l']
}

/// The text `true`.
pub open spec fn lit_true() -> Seq<char> {
    seq!['t', 'r', 'u', 'e']
}

/// The text `false`.
pub open spec fn lit_false() -> Seq<char> {
    seq!['f', 'a', 'l', 's', 'e']
}

/// `n` space characters.
pub open spec fn sp(n: nat) -> Seq<char> {
    Seq::new(n, |i: int| ' ')
}

/// Indentation for nesting level `depth`.
pub open spec fn ind(depth: nat, opts: EncoderOptions) -> Seq<char> {
    sp((depth * opts.indent) as nat)
}

/// First position at or after `i` that does not hold an ASCII digit.
pub open spec fn digits_end(s: Seq<char>, i: int) -> int
    decreases s.len() - i,
{
    if 0 <= i < s.len() && is_digit(s[i]) {
        digits_end(s, i + 1)
    } else {
        i
    }
}

/// An exponent part starting at `i`: `e` or `E`, an optional sign, and
/// digits running to the end of the text.
pub open spec fn exp_part(s: Seq<char>, i: int) -> bool {
    &&& 0 <= i < s.len()
    &&& (s[i] == 'e' || s[i] == 'E')
    &&& {
        let j = if i + 1 < s.len() && (s[i + 1] == '+' || s[i + 1] == '-') {
            i + 2
        } else {
            i + 1
        };
        &&& j < s.len()
        &&& is_digit(s[j])
        &&& digits_end(s, j) == s.len()
    }
}

/// The text matches the decimal number literal grammar
/// `-?digits(.digits)?([eE][+-]?digits)?`.
pub open spec fn is_number_token(s: Seq<char>) -> bool {
    let i = if s.len() > 0 && s[0] == '-' {
        1int
    } else {
        0int
    };
    &&& i < s.len()
    &&& is_digit(s[i])
    &&& {
        let j = digits_end(s, i);
        ||| j == s.len()
        ||| {
            &&& j < s.len()
            &&& s[j] == '.'
            &&& j + 1 < s.len()
            &&& is_digit(s[j + 1])
            &&& {
                let k = digits_end(s, j + 1);
                k == s.len() || exp_part(s, k)
            }
        }
        ||| exp_part(s, j)
    }
}

/// A leading zero followed by another digit.
pub open spec fn leading_zeros(s: Seq<char>) -> bool {
    s.len() >= 2 && s[0] == '0' && is_digit(s[1])
}

/// The escape of one character inside a quoted string.
pub open spec fn esc_char(c: char) -> Seq<char> {
    if c == '\\' {
        seq!['\\', '\\']
    } else if c == '"' {
        seq!['\\', '"']
    } else if c == '\n' {
        seq!['\\', 'n']
    } else if c == '\r' {
        seq!['\\', 'r']
    } else if c == '\t' {
        seq!['\\', 't']
    } else {
        seq![c]
    }
}

/// The escaped body of a quoted string.
pub open spec fn esc(s: Seq<char>) -> Seq<char>
    decreases s.len(),
{
    if s.len() == 0 {
        Seq::empty()
    } else {
        esc(s.drop_last()) + esc_char(s.last())
    }
}

/// A character whose occurrence forces quoting: the active delimiter or
/// a structural or control character.
pub open spec fn is_special_char(c: char, d: Delimiter) -> bool {
    c == delim_char(d) || c == ':' || c == '"' || c == '\\' || c == '[' || c == ']' || c == '{'
        || c == '}' || c == '\n' || c == '\r' || c == '\t'
}

/// Some character of `s` forces quoting.
pub open spec fn special_occurs(s: Seq<char>, d: Delimiter) -> bool {
    exists|j: int| 0 <= j < s.len() && is_special_char(#[trigger] s[j], d)
}

/// The quoting triggers for a scalar string: empty; leading or trailing
/// whitespace; a reserved word; a leading minus; an occurrence of the
/// active delimiter or of structural or control characters; the shape of
/// a number literal; a leading zero before a digit.
pub open spec fn needs_quoting_spec(s: Seq<char>, d: Delimiter) -> bool {
    ||| s.len() == 0
    ||| (s.len() > 0 && (is_space_char(s[0]) || is_space_char(s.last())))
    ||| s == lit_true()
    ||| s == lit_false()
    ||| s == lit_null()
    ||| (s.len() > 0 && s[0] == '-')
    ||| special_occurs(s, d)
    ||| is_number_token(s)
    ||| leading_zeros(s)
}

/// A scalar string as written: quoted and escaped when a trigger fires,
/// bare otherwise.
pub open spec fn str_out(s: Seq<char>, d: Delimiter) -> Seq<char> {
    if needs_quoting_spec(s, d) {
        seq!['"'] + esc(s) + seq!['"']
    } else {
        s
    }
}

/// A character that may stand in a bare key after the first: a letter, a
/// digit, an underscore, or a dot.
pub open spec fn is_key_char(c: char) -> bool {
    crate::text::is_alpha(c) || is_digit(c) || c == '_' || c == '.'
}

/// A key that may be written bare: a letter or underscore, then letters,
/// digits, underscores and dots.
pub open spec fn is_valid_key(s: Seq<char>) -> bool {
    &&& s.len() > 0
    &&& (crate::text::is_alpha(s[0]) || s[0] == '_')
    &&& forall|i: int| 1 <= i < s.len() ==> is_key_char(#[trigger] s[i])
}

/// A key is quoted exactly when it may not be written bare.
pub open spec fn key_needs_quoting_spec(s: Seq<char>) -> bool {
    !is_valid_key(s)
}

/// A key as written.
pub open spec fn key_out(s: Seq<char>) -> Seq<char> {
    if key_needs_quoting_spec(s) {
        seq!['"'] + esc(s) + seq!['"']
    } else {
        s
    }
}

/// A number as written: integers in decimal, a decimal literal verbatim.
pub open spec fn num_out(n: Number) -> Seq<char> {
    match n {
        Number::I64(v) => dec_of_i64(v),
        Number::U64(v) => dec_of(v as nat),
        Number::Decimal(s) => s@,
    }
}

/// Whether a value is primitive: null, boolean, number, or string.
pub open spec fn is_prim(v: Value) -> bool {
    match v {
        Value::Null | Value::Bool(_) | Value::Number(_) | Value::Str(_) => true,
        _ => false,
    }
}

/// A primitive value as written in an inline position.
pub open spec fn prim_out(v: Value, d: Delimiter) -> Seq<char> {
    match v {
        Value::Null => lit_null(),
        Value::Bool(b) => if b {
            lit_true()
        } else {
            lit_false()
        },
        Value::Number(n) => num_out(n),
        Value::Str(s) => str_out(s@, d),
        _ => Seq::empty(),
    }
}

/// Elements of an array value; empty for any other value.
pub open spec fn arr_items(v: Value) -> Seq<Value> {
    match v {
        Value::Arr(a) => a@,
        _ => Seq::empty(),
    }
}

/// Entries of an object value; empty for any other value.
pub open spec fn oent(v: Value) -> Seq<(String, Value)> {
    match v {
        Value::Object(m) => m.entries@,
        _ => Seq::empty(),
    }
}

/// Every element is primitive.
pub open spec fn all_prim(items: Seq<Value>) -> bool {
    forall|i: int| 0 <= i < items.len() ==> is_prim(#[trigger] items[i])
}

/// A non-empty array whose elements are all arrays of primitives.
pub open spec fn is_arr_of_arrs(items: Seq<Value>) -> bool {
    &&& items.len() > 0
    &&& forall|i: int|
        0 <= i < items.len() ==> (#[trigger] items[i]) is Arr && all_prim(arr_items(items[i]))
}

/// Every entry of an object holds a primitive value.
pub open spec fn obj_vals_prim(ent: Seq<(String, Value)>) -> bool {
    forall|i: int| 0 <= i < ent.len() ==> is_prim((#[trigger] ent[i]).1)
}

/// The set of key texts of an object.
pub open spec fn keyset(ent: Seq<(String, Value)>) -> Set<Seq<char>> {
    Set::new(|k: Seq<char>| exists|i: int| 0 <= i < ent.len() && (#[trigger] ent[i]).0@ == k)
}

/// A non-empty array of objects with primitive-only values whose key sets
/// all equal the first element's key set.
pub open spec fn is_tabular(items: Seq<Value>) -> bool {
    &&& items.len() > 0
    &&& forall|i: int|
        0 <= i < items.len() ==> {
            &&& (#[trigger] items[i]) is Object
            &&& obj_vals_prim(oent(items[i]))
            &&& keyset(oent(items[i])) == keyset(oent(items[0]))
        }
}

/// The key texts of an object's entries, in order.
pub open spec fn keys_of(ent: Seq<(String, Value)>) -> Seq<Seq<char>> {
    ent.map_values(|e: (String, Value)| e.0@)
}

/// The bracket part of an array header: `[`, the length, the delimiter
/// marker, `]`.
pub open spec fn enc_header(len: nat, d: Delimiter) -> Seq<char> {
    seq!['['] + dec_of(len) + delim_marker(d) + seq![']']
}

/// The first `upto` inline primitive elements joined by the delimiter.
pub open spec fn enc_prims(items: Seq<Value>, upto: nat, d: Delimiter) -> Seq<char>
    decreases upto,
{
    if upto == 0 || upto > items.len() {
        Seq::empty()
    } else if upto == 1 {
        prim_out(items[0], d)
    } else {
        enc_prims(items, (upto - 1) as nat, d) + seq![delim_char(d)] + prim_out(
            items[upto - 1],
            d,
        )
    }
}

/// Column names of a tabular header joined by the delimiter, each quoted
/// when it may not be written bare.
pub open spec fn enc_fields(keys: Seq<Seq<char>>, upto: nat, d: Delimiter) -> Seq<char>
    decreases upto,
{
    if upto == 0 || upto > keys.len() {
        Seq::empty()
    } else if upto == 1 {
        key_out(keys[0])
    } else {
        enc_fields(keys, (upto - 1) as nat, d) + seq![delim_char(d)] + key_out(keys[upto - 1])
    }
}

/// The cell of one column in a tabular row: the entry's value under that
/// key, or nothing when the key is absent.
pub open spec fn cell_out(ent: Seq<(String, Value)>, f: Seq<char>, d: Delimiter) -> Seq<char> {
    let i = find_key(ent, f);
    if i == -1 {
        Seq::empty()
    } else {
        prim_out(ent[i].1, d)
    }
}

/// One tabular row: the cells of the columns joined by the delimiter.
pub open spec fn enc_row(
    ent: Seq<(String, Value)>,
    keys: Seq<Seq<char>>,
    upto: nat,
    d: Delimiter,
) -> Seq<char>
    decreases upto,
{
    if upto == 0 || upto > keys.len() {
        Seq::empty()
    } else if upto == 1 {
        cell_out(ent, keys[0], d)
    } else {
        enc_row(ent, keys, (upto - 1) as nat, d) + seq![delim_char(d)] + cell_out(
            ent,
            keys[upto - 1],
            d,
        )
    }
}

/// The rows of a tabular array below the header, each on its own line at
/// the item depth.
pub open spec fn enc_rows(
    items: Seq<Value>,
    upto: nat,
    keys: Seq<Seq<char>>,
    item_depth: nat,
    opts: EncoderOptions,
) -> Seq<char>
    decreases upto,
{
    if upto == 0 {
        Seq::empty()
    } else {
        enc_rows(items, (upto - 1) as nat, keys, item_depth, opts) + seq!['\n'] + ind(
            item_depth,
            opts,
        ) + enc_row(oent(items[upto - 1]), keys, keys.len() as nat, opts.delimiter)
    }
}

/// View of an optional key.
pub open spec fn kview(key: Option<&str>) -> Option<Seq<char>> {
    match key {
        Some(k) => Some(k@),
        None => None,
    }
}

/// One encoded value. With a key the line is indented and starts with the
/// key; without one the value stands alone (the root position).
pub open spec fn enc_value(
    v: Value,
    key: Option<Seq<char>>,
    depth: nat,
    opts: EncoderOptions,
) -> Seq<char>
    decreases v, 0nat, 0nat,
{
    match v {
        Value::Arr(a) => match key {
            Some(k) => ind(depth, opts) + key_out(k) + enc_array_rest(a@, depth, opts),
            None => enc_array_rest(a@, depth, opts),
        },
        Value::Object(m) => match key {
            Some(k) => ind(depth, opts) + key_out(k) + seq![':'] + enc_obj_body(
                m.entries@,
                m.entries@.len() as nat,
                (depth + 1) as nat,
                opts,
            ),
            None => enc_root_obj(m.entries@, opts),
        },
        _ => match key {
            Some(k) => ind(depth, opts) + key_out(k) + seq![':', ' '] + prim_out(
                v,
                opts.delimiter,
            ),
            None => prim_out(v, opts.delimiter),
        },
    }
}

/// An encoded array after its (possibly empty) key text: the header and
/// the chosen surface form.
pub open spec fn enc_array_rest(items: Seq<Value>, depth: nat, opts: EncoderOptions) -> Seq<char>
    decreases items, 3nat, 0nat,
{
    let d = opts.delimiter;
    if items.len() == 0 {
        enc_header(0, d) + seq![':']
    } else if all_prim(items) {
        enc_header(items.len() as nat, d) + seq![':', ' '] + enc_prims(
            items,
            items.len() as nat,
            d,
        )
    } else if is_arr_of_arrs(items) {
        enc_header(items.len() as nat, d) + seq![':'] + enc_aoa(
            items,
            items.len() as nat,
            (depth + 1) as nat,
            opts,
        )
    } else if is_tabular(items) {
        enc_header(items.len() as nat, d) + seq!['{'] + enc_fields(
            keys_of(oent(items[0])),
            oent(items[0]).len() as nat,
            d,
        ) + seq!['}', ':'] + enc_rows(
            items,
            items.len() as nat,
            keys_of(oent(items[0])),
            (depth + 1) as nat,
            opts,
        )
    } else {
        enc_header(items.len() as nat, d) + seq![':'] + enc_mixed(
            items,
            items.len() as nat,
            (depth + 1) as nat,
            opts,
        )
    }
}

/// The bulleted rows of an array of arrays: each inner array inline after
/// a dash.
pub open spec fn enc_aoa(
    items: Seq<Value>,
    upto: nat,
    item_depth: nat,
    opts: EncoderOptions,
) -> Seq<char>
    decreases items, 2nat, upto,
{
    if upto == 0 || upto > items.len() {
        Seq::empty()
    } else {
        enc_aoa(items, (upto - 1) as nat, item_depth, opts) + seq!['\n'] + ind(item_depth, opts)
            + seq!['-', ' '] + (match items[upto - 1] {
            Value::Arr(a) => enc_array_rest(a@, item_depth, opts),
            _ => Seq::empty(),
        })
    }
}

/// The bulleted items of a mixed array: a bare dash for an empty object,
/// a dash and the item's own form otherwise.
pub open spec fn enc_mixed(
    items: Seq<Value>,
    upto: nat,
    item_depth: nat,
    opts: EncoderOptions,
) -> Seq<char>
    decreases items, 2nat, upto,
{
    if upto == 0 || upto > items.len() {
        Seq::empty()
    } else {
        enc_mixed(items, (upto - 1) as nat, item_depth, opts) + seq!['\n'] + ind(item_depth, opts)
            + (if items[upto - 1] is Object && oent(items[upto - 1]).len() == 0 {
            seq!['-']
        } else {
            seq!['-', ' '] + enc_list_item(items[upto - 1], item_depth, opts)
        })
    }
}

/// One item of a mixed array after its dash.
pub open spec fn enc_list_item(v: Value, dash_depth: nat, opts: EncoderOptions) -> Seq<char>
    decreases v, 4nat, 0nat,
{
    match v {
        Value::Arr(a) => enc_array_rest(a@, dash_depth, opts),
        Value::Object(m) => enc_obj_item(m.entries@, dash_depth, opts),
        _ => prim_out(v, opts.delimiter),
    }
}

/// An object as a list item: the first field on the dash's line, the
/// following fields one level below the dash's content column.
pub open spec fn enc_obj_item(
    ent: Seq<(String, Value)>,
    dash_depth: nat,
    opts: EncoderOptions,
) -> Seq<char>
    decreases ent, 3nat, 0nat,
{
    if ent.len() == 0 {
        Seq::empty()
    } else {
        enc_first_entry(ent[0].0@, ent[0].1, dash_depth, opts) + enc_item_rest(
            ent,
            ent.len() as nat,
            dash_depth,
            opts,
        )
    }
}

/// The first field of an object list item, written on the dash's line.
pub open spec fn enc_first_entry(
    k: Seq<char>,
    v: Value,
    dash_depth: nat,
    opts: EncoderOptions,
) -> Seq<char>
    decreases v, 4nat, 0nat,
{
    match v {
        Value::Arr(a) => key_out(k) + enc_array_rest(a@, dash_depth, opts),
        Value::Object(m) => key_out(k) + seq![':'] + enc_obj_body(
            m.entries@,
            m.entries@.len() as nat,
            (dash_depth + 1) as nat,
            opts,
        ),
        _ => key_out(k) + seq![':', ' '] + prim_out(v, opts.delimiter),
    }
}

/// The fields of an object list item after the first, each as an entry
/// line one level below the dash.
pub open spec fn enc_item_rest(
    ent: Seq<(String, Value)>,
    upto: nat,
    dash_depth: nat,
    opts: EncoderOptions,
) -> Seq<char>
    decreases ent, 2nat, upto,
{
    if upto <= 1 || upto > ent.len() {
        Seq::empty()
    } else {
        enc_item_rest(ent, (upto - 1) as nat, dash_depth, opts) + seq!['\n'] + enc_value(
            ent[upto - 1].1,
            Some(ent[upto - 1].0@),
            (dash_depth + 1) as nat,
            opts,
        )
    }
}

/// The first `upto` entries of a keyed object, each on its own line one
/// level deeper.
pub open spec fn enc_obj_body(
    ent: Seq<(String, Value)>,
    upto: nat,
    depth: nat,
    opts: EncoderOptions,
) -> Seq<char>
    decreases ent, 2nat, upto,
{
    if upto == 0 || upto > ent.len() {
        Seq::empty()
    } else {
        enc_obj_body(ent, (upto - 1) as nat, depth, opts) + seq!['\n'] + enc_value(
            ent[upto - 1].1,
            Some(ent[upto - 1].0@),
            depth,
            opts,
        )
    }
}

/// The dotted path and final value that key folding would produce from a
/// chain of single-key objects, or nothing when the chain may not fold.
pub open spec fn fold_path(
    ent: Seq<(String, Value)>,
    num: nat,
    opts: EncoderOptions,
) -> Option<(Seq<char>, Value)>
    decreases ent,
{
    if ent.len() != 1 {
        None
    } else if key_needs_quoting_spec(ent[0].0@) {
        None
    } else if num + 1 > opts.flatten_depth {
        None
    } else {
        if ent[0].1 is Object && num + 1 < opts.flatten_depth {
            match fold_path(oent(ent[0].1), (num + 1) as nat, opts) {
                Some(pf) => Some((ent[0].0@ + seq!['.'] + pf.0, pf.1)),
                None => Some((ent[0].0@, ent[0].1)),
            }
        } else {
            Some((ent[0].0@, ent[0].1))
        }
    }
}

/// The folded form of a chain of single-key objects: the accumulated
/// dotted key and, at the chain's end, the final value's own form.
pub open spec fn enc_fold_run(
    kacc: Seq<char>,
    ent: Seq<(String, Value)>,
    num: nat,
    opts: EncoderOptions,
) -> Seq<char>
    decreases ent, 0nat, 0nat,
{
    if ent.len() != 1 {
        Seq::empty()
    } else {
        let k2 = kacc + seq!['.'] + ent[0].0@;
        match ent[0].1 {
            Value::Object(m) => {
                if num + 1 < opts.flatten_depth && fold_path(
                    m.entries@,
                    (num + 1) as nat,
                    opts,
                ) is Some {
                    enc_fold_run(k2, m.entries@, (num + 1) as nat, opts)
                } else {
                    enc_value(ent[0].1, Some(k2), 0, opts)
                }
            },
            _ => enc_value(ent[0].1, Some(k2), 0, opts),
        }
    }
}

/// One top-level entry: folded when folding is on, the value is an
/// object, the key is bare, the chain folds, and the folded key collides
/// with no top-level key; the plain entry form otherwise.
pub open spec fn enc_root_entry(
    ent: Seq<(String, Value)>,
    i: int,
    opts: EncoderOptions,
) -> Seq<char>
    decreases ent, 0nat, 1nat,
{
    if i < 0 || i >= ent.len() {
        Seq::empty()
    } else {
    let k = ent[i].0@;
    match ent[i].1 {
        Value::Object(m) => {
            if opts.key_folding == KeyFolding::Safe && !key_needs_quoting_spec(k) {
                match fold_path(m.entries@, 1, opts) {
                    Some(pf) => {
                        if find_key(ent, k + seq!['.'] + pf.0) == -1 {
                            enc_fold_run(k, m.entries@, 1, opts)
                        } else {
                            enc_value(ent[i].1, Some(k), 0, opts)
                        }
                    },
                    None => enc_value(ent[i].1, Some(k), 0, opts),
                }
            } else {
                enc_value(ent[i].1, Some(k), 0, opts)
            }
        },
        _ => enc_value(ent[i].1, Some(k), 0, opts),
    }
    }
}

/// The first `upto` top-level entries, joined by line breaks.
pub open spec fn enc_root_entries(
    ent: Seq<(String, Value)>,
    upto: nat,
    opts: EncoderOptions,
) -> Seq<char>
    decreases ent, 1nat, upto,
{
    if upto > ent.len() {
        Seq::empty()
    } else if upto == 0 {
        Seq::empty()
    } else if upto == 1 {
        enc_root_entry(ent, 0, opts)
    } else {
        enc_root_entries(ent, (upto - 1) as nat, opts) + seq!['\n'] + enc_root_entry(
            ent,
            upto - 1,
            opts,
        )
    }
}

/// The root object: its entries joined by line breaks; the empty object
/// is the empty document.
pub open spec fn enc_root_obj(ent: Seq<(String, Value)>, opts: EncoderOptions) -> Seq<char>
    decreases ent, 2nat, 0nat,
{
    enc_root_entries(ent, ent.len() as nat, opts)
}

/// A whole document: the root value without a key at depth zero.
pub open spec fn enc_doc(v: Value, opts: EncoderOptions) -> Seq<char> {
    enc_value(v, None, 0, opts)
}

/// Whether the characters match the decimal number literal grammar.
pub(crate) fn num_token(cs: &Vec<char>) -> (r: bool)
    ensures
        r == is_number_token(cs@),
{
    let n = cs.len();
    let start: usize = if n > 0 && cs[0] == '-' {
        1
    } else {
        0
    };
    if start >= n {
        return false;
    }
    if !digit(cs[start]) {
        return false;
    }
    let j = scan_digits(cs, start);
    if j == n {
        return true;
    }
    if cs[j] == '.' {
        if j + 1 >= n {
            return false;
        }
        if !digit(cs[j + 1]) {
            return false;
        }
        let k = scan_digits(cs, j + 1);
        if k == n {
            return true;
        }
        return exp_check(cs, k);
    }
    exp_check(cs, j)
}

/// Characters before the digit scan's end are digits, and the character
/// at its end is not one.
pub proof fn lemma_digits_end_all(s: Seq<char>, i: int)
    requires
        0 <= i <= s.len(),
    ensures
        i <= digits_end(s, i) <= s.len(),
        forall|k: int| i <= k < digits_end(s, i) ==> is_digit(#[trigger] s[k]),
        digits_end(s, i) < s.len() ==> !is_digit(s[digits_end(s, i)]),
    decreases s.len() - i,
{
    if i < s.len() && is_digit(s[i]) {
        lemma_digits_end_all(s, i + 1);
    }
}

/// A number token without a fractional or exponent part is a sign and
/// digits running to the end.
pub proof fn lemma_int_token(t: Seq<char>)
    requires
        is_number_token(t),
        !t.contains('.'),
        !t.contains('e'),
        !t.contains('E'),
    ensures
        ({
            let i = if t.len() > 0 && t[0] == '-' {
                1int
            } else {
                0int
            };
            &&& i < t.len()
            &&& all_digits(t.subrange(i, t.len() as int))
        }),
{
    let i = if t.len() > 0 && t[0] == '-' {
        1int
    } else {
        0int
    };
    let j = digits_end(t, i);
    lemma_digits_end_all(t, i);
    if j < t.len() {
        if t[j] == '.' {
            assert(t.contains('.'));
        } else if exp_part(t, j) {
            if t[j] == 'e' {
                assert(t.contains('e'));
            } else {
                assert(t.contains('E'));
            }
        }
    }
    assert forall|k: int| 0 <= k < t.subrange(i, t.len() as int).len() implies is_digit(
        #[trigger] t.subrange(i, t.len() as int)[k],
    ) by {
        assert(t.subrange(i, t.len() as int)[k] == t[i + k]);
    }
}

/// Executable test for [`is_prim`].
fn is_primitive(v: &Value) -> (r: bool)
    ensures
        r == is_prim(*v),
{
    match v {
        Value::Null | Value::Bool(_) | Value::Number(_) | Value::Str(_) => true,
        _ => false,
    }
}

/// Advances from `from` over ASCII digits, stopping at the first
/// position that does not hold one.
fn scan_digits(cs: &Vec<char>, from: usize) -> (r: usize)
    requires
        from <= cs@.len(),
    ensures
        from <= r <= cs@.len(),
        r == digits_end(cs@, from as int),
    decreases cs@.len() - from,
{
    if from < cs.len() {
        if digit(cs[from]) {
            return scan_digits(cs, from + 1);
        }
    }
    from
}

/// Whether an exponent part starts at `i` and runs to the end.
fn exp_check(cs: &Vec<char>, i: usize) -> (r: bool)
    requires
        i <= cs@.len(),
    ensures
        r == exp_part(cs@, i as int),
{
    let n = cs.len();
    if i >= n {
        return false;
    }
    let c = cs[i];
    if c != 'e' && c != 'E' {
        return false;
    }
    let j: usize = if i + 1 < n && (cs[i + 1] == '+' || cs[i + 1] == '-') {
        i + 2
    } else {
        i + 1
    };
    if j >= n {
        return false;
    }
    if !digit(cs[j]) {
        return false;
    }
    scan_digits(cs, j) == n
}

} // verus!

verus! {

/// The incremental TOON writer: an output buffer, the options, and the
/// current nesting depth.
pub struct Serializer {
    out: Vec<char>,
    options: EncoderOptions,
    depth: usize,
    document_delimiter: Delimiter,
}

impl Serializer {
    /// The collected output.
    pub closed spec fn spec_out(&self) -> Seq<char> {
        self.out@
    }

    /// The options the writer was created with.
    pub closed spec fn spec_options(&self) -> EncoderOptions {
        self.options
    }

    /// The current nesting depth.
    pub closed spec fn spec_depth(&self) -> nat {
        self.depth as nat
    }

    /// The document-wide delimiter.
    pub closed spec fn spec_document_delimiter(&self) -> Delimiter {
        self.document_delimiter
    }

    /// Creates a writer with an empty output buffer at depth zero.
    pub fn new(options: EncoderOptions) -> (r: Serializer)
        ensures
            r.spec_out() == Seq::<char>::empty(),
            r.spec_options() == options,
            r.spec_depth() == 0,
            r.spec_document_delimiter() == options.delimiter,
    {
        let document_delimiter = options.delimiter;
        Serializer { out: Vec::new(), options, depth: 0, document_delimiter }
    }

    /// Hands the collected output out as a string.
    pub fn into_string(self) -> (r: String)
        ensures
            r@ == self.spec_out(),
    {
        chars_to_string(&self.out)
    }

    /// Appends one character to the output.
    fn push_out(&mut self, c: char)
        ensures
            final(self).spec_out() == old(self).spec_out().push(c),
            final(self).options == old(self).options,
            final(self).depth == old(self).depth,
            final(self).document_delimiter == old(self).document_delimiter,
    {
        self.out.push(c);
    }

    /// Appends the characters of a string slice to the output.
    fn push_str_raw(&mut self, s: &str)
        ensures
            final(self).spec_out() == old(self).spec_out() + s@,
            final(self).options == old(self).options,
            final(self).depth == old(self).depth,
            final(self).document_delimiter == old(self).document_delimiter,
    {
        let n = s.unicode_len();
        let mut i: usize = 0;
        while i < n
            invariant
                i <= n,
                n == s@.len(),
                self.out@ == old(self).out@ + s@.subrange(0, i as int),
                self.options == old(self).options,
                self.depth == old(self).depth,
                self.document_delimiter == old(self).document_delimiter,
            decreases n - i,
        {
            self.out.push(s.get_char(i));
            i = i + 1;
            proof {
                assert(self.out@ =~= old(self).out@ + s@.subrange(0, i as int));
            }
        }
        proof {
            assert(self.out@ =~= old(self).out@ + s@);
        }
    }

    /// Appends the indentation of the current depth to the output.
    fn push_indent(&mut self)
        ensures
            final(self).spec_out() == old(self).spec_out() + ind(
                old(self).spec_depth(),
                old(self).options,
            ),
            final(self).options == old(self).options,
            final(self).depth == old(self).depth,
            final(self).document_delimiter == old(self).document_delimiter,
    {
        let mut level: usize = 0;
        while level < self.depth
            invariant
                level <= self.depth,
                self.out@ == old(self).out@ + sp((level * self.options.indent) as nat),
                self.options == old(self).options,
                self.depth == old(self).depth,
                self.document_delimiter == old(self).document_delimiter,
            decreases self.depth - level,
        {
            let mut k: usize = 0;
            while k < self.options.indent
                invariant
                    k <= self.options.indent,
                    self.out@ == old(self).out@ + sp((level * self.options.indent + k) as nat),
                    self.options == old(self).options,
                    self.depth == old(self).depth,
                    self.document_delimiter == old(self).document_delimiter,
                    level < self.depth,
                decreases self.options.indent - k,
            {
                self.out.push(' ');
                k = k + 1;
                proof {
                    assert(self.out@ =~= old(self).out@ + sp(
                        (level * self.options.indent + k) as nat,
                    ));
                }
            }
            level = level + 1;
            proof {
                assert((level - 1) * self.options.indent + self.options.indent == level
                    * self.options.indent) by (nonlinear_arith);
                assert(self.out@ =~= old(self).out@ + sp((level * self.options.indent) as nat));
            }
        }
    }

    /// Whether a scalar string must be quoted: some quoting trigger of
    /// [`needs_quoting_spec`] fires.
    pub fn needs_quoting(&self, s: &str, active_delimiter: Delimiter) -> (r: bool)
        ensures
            r == needs_quoting_spec(s@, active_delimiter),
    {
        let cs = crate::text::str_to_chars(s);
        let n = cs.len();
        if n == 0 {
            return true;
        }
        if ws(cs[0]) || ws(cs[n - 1]) {
            return true;
        }
        proof {
            reveal_strlit("true");
            reveal_strlit("false");
            reveal_strlit("null");
            assert("true"@ =~= lit_true());
            assert("false"@ =~= lit_false());
            assert("null"@ =~= lit_null());
        }
        if crate::text::vec_eq_str(&cs, "true") || crate::text::vec_eq_str(&cs, "false")
            || crate::text::vec_eq_str(&cs, "null") {
            return true;
        }
        if cs[0] == '-' {
            return true;
        }
        let d = active_delimiter.as_char();
        let mut i: usize = 0;
        let mut found = false;
        while i < n
            invariant
                i <= n,
                n == cs@.len(),
                cs@ == s@,
                d == delim_char(active_delimiter),
                found == exists|j: int|
                    0 <= j < i && is_special_char(#[trigger] cs@[j], active_delimiter),
            decreases n - i,
        {
            let c = cs[i];
            if c == d || c == ':' || c == '"' || c == '\\' || c == '[' || c == ']' || c == '{'
                || c == '}' || c == '\n' || c == '\r' || c == '\t' {
                found = true;
            }
            i = i + 1;
        }
        if found {
            return true;
        }
        if Self::looks_like_number(s) {
            return true;
        }
        if Self::has_leading_zeros(s) {
            return true;
        }
        false
    }

    /// Whether the text matches the decimal number literal grammar.
    pub fn looks_like_number(s: &str) -> (r: bool)
        ensures
            r == is_number_token(s@),
    {
        let cs = crate::text::str_to_chars(s);
        num_token(&cs)
    }

    /// Whether the text starts with a zero followed by another digit.
    pub fn has_leading_zeros(s: &str) -> (r: bool)
        ensures
            r == leading_zeros(s@),
    {
        let cs = crate::text::str_to_chars(s);
        cs.len() >= 2 && cs[0] == '0' && digit(cs[1])
    }

    /// Escapes the characters of `s` for a quoted string.
    pub fn escape_string(&self, s: &str) -> (r: String)
        ensures
            r@ == esc(s@),
    {
        let cs = crate::text::str_to_chars(s);
        let n = cs.len();
        let mut out: Vec<char> = Vec::new();
        let mut i: usize = 0;
        while i < n
            invariant
                i <= n,
                n == cs@.len(),
                cs@ == s@,
                out@ == esc(s@.subrange(0, i as int)),
            decreases n - i,
        {
            let c = cs[i];
            if c == '\\' {
                out.push('\\');
                out.push('\\');
            } else if c == '"' {
                out.push('\\');
                out.push('"');
            } else if c == '\n' {
                out.push('\\');
                out.push('n');
            } else if c == '\r' {
                out.push('\\');
                out.push('r');
            } else if c == '\t' {
                out.push('\\');
                out.push('t');
            } else {
                out.push(c);
            }
            i = i + 1;
            proof {
                let p = s@.subrange(0, i as int);
                assert(p.drop_last() =~= s@.subrange(0, i - 1));
                assert(out@ =~= esc(p.drop_last()) + esc_char(p.last()));
            }
        }
        proof {
            assert(s@.subrange(0, n as int) =~= s@);
        }
        chars_to_string(&out)
    }

    /// Writes a scalar string, quoted exactly when a trigger fires.
    pub fn write_string(&mut self, s: &str, active_delimiter: Delimiter)
        ensures
            final(self).spec_out() == old(self).spec_out() + str_out(s@, active_delimiter),
            final(self).spec_options() == old(self).spec_options(),
            final(self).spec_depth() == old(self).spec_depth(),
            final(self).spec_document_delimiter() == old(self).spec_document_delimiter(),
    {
        if self.needs_quoting(s, active_delimiter) {
            self.push_out('"');
            let e = self.escape_string(s);
            self.push_str_raw(e.as_str());
            self.push_out('"');
            proof {
                assert(self.out@ =~= old(self).out@ + str_out(s@, active_delimiter));
            }
        } else {
            self.push_str_raw(s);
        }
    }

    /// Whether a key must be quoted: it may not be written bare.
    pub fn key_needs_quoting(&self, key: &str) -> (r: bool)
        ensures
            r == key_needs_quoting_spec(key@),
    {
        !Self::is_valid_unquoted_key(key)
    }

    /// Whether a key may be written bare: a letter or underscore, then
    /// letters, digits, underscores and dots.
    pub fn is_valid_unquoted_key(s: &str) -> (r: bool)
        ensures
            r == is_valid_key(s@),
    {
        let cs = crate::text::str_to_chars(s);
        let n = cs.len();
        if n == 0 {
            return false;
        }
        if !(crate::text::alpha(cs[0]) || cs[0] == '_') {
            return false;
        }
        let mut i: usize = 1;
        while i < n
            invariant
                1 <= i <= n,
                n == cs@.len(),
                cs@ == s@,
                forall|j: int| 1 <= j < i ==> is_key_char(#[trigger] s@[j]),
            decreases n - i,
        {
            let c = cs[i];
            if !(crate::text::alpha(c) || digit(c) || c == '_' || c == '.') {
                return false;
            }
            i = i + 1;
        }
        true
    }

    /// Writes a key, quoted exactly when it may not be written bare.
    fn push_key(&mut self, key: &str)
        ensures
            final(self).spec_out() == old(self).spec_out() + key_out(key@),
            final(self).options == old(self).options,
            final(self).depth == old(self).depth,
            final(self).document_delimiter == old(self).document_delimiter,
    {
        if self.key_needs_quoting(key) {
            self.push_out('"');
            let e = self.escape_string(key);
            self.push_str_raw(e.as_str());
            self.push_out('"');
            proof {
                assert(self.out@ =~= old(self).out@ + key_out(key@));
            }
        } else {
            self.push_str_raw(key);
        }
    }

    /// Writes a number.
    fn push_number(&mut self, n: &Number)
        ensures
            final(self).spec_out() == old(self).spec_out() + num_out(*n),
            final(self).options == old(self).options,
            final(self).depth == old(self).depth,
            final(self).document_delimiter == old(self).document_delimiter,
    {
        match n {
            Number::I64(v) => {
                let mut d = fmt_i64(*v);
                self.out.append(&mut d);
            },
            Number::U64(v) => {
                let mut d = fmt_u64(*v);
                self.out.append(&mut d);
            },
            Number::Decimal(s) => {
                self.push_str_raw(s.as_str());
            },
        }
    }

    /// Writes a primitive value in an inline position; a composite value
    /// adds nothing here.
    fn push_prim(&mut self, v: &Value, active_delimiter: Delimiter)
        ensures
            final(self).spec_out() == old(self).spec_out() + prim_out(*v, active_delimiter),
            final(self).options == old(self).options,
            final(self).depth == old(self).depth,
            final(self).document_delimiter == old(self).document_delimiter,
    {
        proof {
            reveal_strlit("null");
            reveal_strlit("true");
            reveal_strlit("false");
            assert("null"@ =~= lit_null());
            assert("true"@ =~= lit_true());
            assert("false"@ =~= lit_false());
        }
        match v {
            Value::Null => self.push_str_raw("null"),
            Value::Bool(b) => {
                if *b {
                    self.push_str_raw("true")
                } else {
                    self.push_str_raw("false")
                }
            },
            Value::Number(n) => self.push_number(n),
            Value::Str(s) => self.write_string(s.as_str(), active_delimiter),
            _ => {
                proof {
                    assert(self.out@ =~= old(self).out@ + prim_out(*v, active_delimiter));
                }
            },
        }
    }

    /// Returns the indentation of the current depth.
    pub fn indent(&self) -> (r: String)
        ensures
            r@ == ind(self.spec_depth(), self.spec_options()),
    {
        let mut v: Vec<char> = Vec::new();
        let mut level: usize = 0;
        while level < self.depth
            invariant
                level <= self.depth,
                v@ == sp((level * self.options.indent) as nat),
            decreases self.depth - level,
        {
            let mut k: usize = 0;
            while k < self.options.indent
                invariant
                    k <= self.options.indent,
                    v@ == sp((level * self.options.indent + k) as nat),
                decreases self.options.indent - k,
            {
                v.push(' ');
                k = k + 1;
                proof {
                    assert(v@ =~= sp((level * self.options.indent + k) as nat));
                }
            }
            level = level + 1;
            proof {
                assert((level - 1) * self.options.indent + self.options.indent == level
                    * self.options.indent) by (nonlinear_arith);
                assert(v@ =~= sp((level * self.options.indent) as nat));
            }
        }
        chars_to_string(&v)
    }

    /// Appends the characters of a vector to the output.
    fn push_chars(&mut self, v: &Vec<char>)
        ensures
            final(self).out@ == old(self).out@ + v@,
            final(self).options == old(self).options,
            final(self).depth == old(self).depth,
            final(self).document_delimiter == old(self).document_delimiter,
    {
        let n = v.len();
        let mut i: usize = 0;
        while i < n
            invariant
                i <= n,
                n == v@.len(),
                self.out@ == old(self).out@ + v@.subrange(0, i as int),
                self.options == old(self).options,
                self.depth == old(self).depth,
                self.document_delimiter == old(self).document_delimiter,
            decreases n - i,
        {
            self.out.push(v[i]);
            i = i + 1;
            proof {
                assert(self.out@ =~= old(self).out@ + v@.subrange(0, i as int));
            }
        }
        proof {
            assert(self.out@ =~= old(self).out@ + v@);
        }
    }

    /// The indentation one level deeper than `prefix`.
    fn extend_prefix(&self, prefix: &Vec<char>, Ghost(depth): Ghost<nat>) -> (r: Vec<char>)
        requires
            prefix@ == ind(depth, self.options),
        ensures
            r@ == ind((depth + 1) as nat, self.options),
    {
        let mut r = crate::text::subvec(prefix, 0, prefix.len());
        proof {
            assert(r@ =~= prefix@);
        }
        let mut k: usize = 0;
        while k < self.options.indent
            invariant
                k <= self.options.indent,
                r@ == prefix@ + sp(k as nat),
            decreases self.options.indent - k,
        {
            r.push(' ');
            k = k + 1;
            proof {
                assert(r@ =~= prefix@ + sp(k as nat));
            }
        }
        proof {
            assert((depth + 1) * self.options.indent == depth * self.options.indent
                + self.options.indent) by (nonlinear_arith);
            assert(r@ =~= ind((depth + 1) as nat, self.options));
        }
        r
    }

    /// Writes the bracket part of an array header.
    fn push_header(&mut self, len: usize)
        ensures
            final(self).out@ == old(self).out@ + enc_header(
                len as nat,
                old(self).options.delimiter,
            ),
            final(self).options == old(self).options,
            final(self).depth == old(self).depth,
            final(self).document_delimiter == old(self).document_delimiter,
    {
        self.push_out('[');
        let mut dg = fmt_u64(len as u64);
        self.out.append(&mut dg);
        let d = self.options.delimiter;
        let m = d.header_marker();
        self.push_str_raw(m);
        self.push_out(']');
        proof {
            assert(self.out@ =~= old(self).out@ + enc_header(
                len as nat,
                old(self).options.delimiter,
            ));
        }
    }

    /// Whether every element of the array is primitive.
    fn is_primitive_array(&self, arr: &Vec<Value>) -> (r: bool)
        ensures
            r == all_prim(arr@),
    {
        let n = arr.len();
        let mut i: usize = 0;
        while i < n
            invariant
                i <= n,
                n == arr@.len(),
                forall|j: int| 0 <= j < i ==> is_prim(#[trigger] arr@[j]),
            decreases n - i,
        {
            if !is_primitive(&arr[i]) {
                return false;
            }
            i = i + 1;
        }
        true
    }

    /// Whether the array is a non-empty array of arrays of primitives.
    fn is_array_of_arrays(&self, arr: &Vec<Value>) -> (r: bool)
        ensures
            r == is_arr_of_arrs(arr@),
    {
        let n = arr.len();
        if n == 0 {
            return false;
        }
        let mut i: usize = 0;
        while i < n
            invariant
                i <= n,
                n == arr@.len(),
                forall|j: int|
                    0 <= j < i ==> (#[trigger] arr@[j]) is Arr && all_prim(arr_items(arr@[j])),
            decreases n - i,
        {
            match &arr[i] {
                Value::Arr(inner) => {
                    if !self.is_primitive_array(inner) {
                        return false;
                    }
                },
                _ => {
                    return false;
                },
            }
            i = i + 1;
        }
        true
    }

    /// When the array is tabular, its column names: the first element's
    /// keys in insertion order.
    fn detect_tabular(&self, arr: &Vec<Value>) -> (r: Option<Vec<String>>)
        ensures
            match r {
                Some(f) => {
                    &&& is_tabular(arr@)
                    &&& f@.len() == oent(arr@[0]).len()
                    &&& forall|j: int|
                        0 <= j < f@.len() ==> (#[trigger] f@[j])@ == oent(arr@[0])[j].0@
                },
                None => !is_tabular(arr@),
            },
    {
        let n = arr.len();
        if n == 0 {
            return None;
        }
        let first = match &arr[0] {
            Value::Object(m) => m,
            _ => {
                return None;
            },
        };
        let mut i: usize = 0;
        while i < n
            invariant
                i <= n,
                n == arr@.len(),
                n > 0,
                arr@[0] is Object,
                first == arr@[0]->Object_0,
                forall|j: int|
                    0 <= j < i ==> {
                        &&& (#[trigger] arr@[j]) is Object
                        &&& obj_vals_prim(oent(arr@[j]))
                        &&& keyset(oent(arr@[j])) == keyset(oent(arr@[0]))
                    },
            decreases n - i,
        {
            let m = match &arr[i] {
                Value::Object(m) => m,
                _ => {
                    proof {
                        assert(!(arr@[i as int] is Object));
                    }
                    return None;
                },
            };
            proof {
                assert(oent(arr@[i as int]) == m.entries@);
            }
            let mn = m.len();
            let mut j: usize = 0;
            while j < mn
                invariant
                    j <= mn,
                    mn == m.entries@.len(),
                    0 <= i < n,
                    n == arr@.len(),
                    arr@[i as int] is Object,
                    m == arr@[i as int]->Object_0,
                    forall|l: int| 0 <= l < j ==> is_prim((#[trigger] m.entries@[l]).1),
                decreases mn - j,
            {
                let e = m.entry_at(j);
                if !is_primitive(&e.1) {
                    proof {
                        assert(oent(arr@[i as int])[j as int].1 == m.entries@[j as int].1);
                        assert(!obj_vals_prim(oent(arr@[i as int])));
                    }
                    return None;
                }
                j = j + 1;
            }
            let mut j: usize = 0;
            while j < mn
                invariant
                    j <= mn,
                    mn == m.entries@.len(),
                    0 <= i < n,
                    n == arr@.len(),
                    n > 0,
                    arr@[i as int] is Object,
                    m == arr@[i as int]->Object_0,
                    arr@[0] is Object,
                    first == arr@[0]->Object_0,
                    forall|l: int|
                        0 <= l < j ==> keyset(oent(arr@[0])).contains(
                            (#[trigger] m.entries@[l]).0@,
                        ),
                decreases mn - j,
            {
                let e = m.entry_at(j);
                let ghost k = m.entries@[j as int].0@;
                match first.index_of(e.0.as_str()) {
                    Some(_) => {
                        proof {
                            crate::value::lemma_find_key(first.entries@, k);
                            let fi = crate::value::find_key(first.entries@, k);
                            assert(oent(arr@[0])[fi].0@ == k);
                            assert(keyset(oent(arr@[0])).contains(k));
                        }
                    },
                    None => {
                        proof {
                            crate::value::lemma_find_key(first.entries@, k);
                            assert(oent(arr@[i as int])[j as int].0@ == k);
                            assert(keyset(oent(arr@[i as int])).contains(k));
                            assert(!keyset(oent(arr@[0])).contains(k)) by {
                                if keyset(oent(arr@[0])).contains(k) {
                                    let l = choose|l: int|
                                        0 <= l < oent(arr@[0]).len() && (#[trigger] oent(
                                            arr@[0],
                                        )[l]).0@ == k;
                                    assert(first.entries@[l].0@ == k);
                                }
                            }
                            assert(keyset(oent(arr@[i as int])) != keyset(oent(arr@[0])));
                        }
                        return None;
                    },
                }
                j = j + 1;
            }
            let fn_ = first.len();
            let mut j: usize = 0;
            while j < fn_
                invariant
                    j <= fn_,
                    fn_ == first.entries@.len(),
                    mn == m.entries@.len(),
                    0 <= i < n,
                    n == arr@.len(),
                    n > 0,
                    arr@[i as int] is Object,
                    m == arr@[i as int]->Object_0,
                    arr@[0] is Object,
                    first == arr@[0]->Object_0,
                    forall|l: int|
                        0 <= l < mn ==> keyset(oent(arr@[0])).contains(
                            (#[trigger] m.entries@[l]).0@,
                        ),
                    forall|l: int|
                        0 <= l < j ==> keyset(oent(arr@[i as int])).contains(
                            (#[trigger] first.entries@[l]).0@,
                        ),
                decreases fn_ - j,
            {
                let e = first.entry_at(j);
                let ghost k = first.entries@[j as int].0@;
                match m.index_of(e.0.as_str()) {
                    Some(_) => {
                        proof {
                            crate::value::lemma_find_key(m.entries@, k);
                            let fi = crate::value::find_key(m.entries@, k);
                            assert(oent(arr@[i as int])[fi].0@ == k);
                            assert(keyset(oent(arr@[i as int])).contains(k));
                        }
                    },
                    None => {
                        proof {
                            crate::value::lemma_find_key(m.entries@, k);
                            assert(oent(arr@[0])[j as int].0@ == k);
                            assert(keyset(oent(arr@[0])).contains(k));
                            assert(!keyset(oent(arr@[i as int])).contains(k)) by {
                                if keyset(oent(arr@[i as int])).contains(k) {
                                    let l = choose|l: int|
                                        0 <= l < oent(arr@[i as int]).len() && (#[trigger] oent(
                                            arr@[i as int],
                                        )[l]).0@ == k;
                                    assert(m.entries@[l].0@ == k);
                                }
                            }
                            assert(keyset(oent(arr@[i as int])) != keyset(oent(arr@[0])));
                        }
                        return None;
                    },
                }
                j = j + 1;
            }
            proof {
                assert forall|k: Seq<char>|
                    keyset(oent(arr@[i as int])).contains(k) == keyset(oent(arr@[0])).contains(
                        k,
                    ) by {
                    if keyset(oent(arr@[i as int])).contains(k) {
                        let l = choose|l: int|
                            0 <= l < oent(arr@[i as int]).len() && (#[trigger] oent(
                                arr@[i as int],
                            )[l]).0@ == k;
                        assert(m.entries@[l].0@ == k);
                        assert(keyset(oent(arr@[0])).contains(k));
                    }
                    if keyset(oent(arr@[0])).contains(k) {
                        let l = choose|l: int|
                            0 <= l < oent(arr@[0]).len() && (#[trigger] oent(arr@[0])[l]).0@
                                == k;
                        assert(first.entries@[l].0@ == k);
                        assert(keyset(oent(arr@[i as int])).contains(k));
                    }
                }
                assert(keyset(oent(arr@[i as int])) =~= keyset(oent(arr@[0])));
            }
            i = i + 1;
        }
        let mut fields: Vec<String> = Vec::new();
        let fn_ = first.len();
        let mut j: usize = 0;
        while j < fn_
            invariant
                j <= fn_,
                fn_ == first.entries@.len(),
                arr@.len() > 0,
                arr@[0] is Object,
                first == arr@[0]->Object_0,
                fields@.len() == j,
                forall|l: int| 0 <= l < j ==> (#[trigger] fields@[l])@ == first.entries@[l].0@,
            decreases fn_ - j,
        {
            let e = first.entry_at(j);
            fields.push(e.0.clone());
            j = j + 1;
        }
        Some(fields)
    }

    /// Writes the inline row of a primitive array.
    fn emit_prims(&mut self, arr: &Vec<Value>)
        ensures
            final(self).out@ == old(self).out@ + enc_prims(
                arr@,
                arr@.len() as nat,
                old(self).options.delimiter,
            ),
            final(self).options == old(self).options,
            final(self).depth == old(self).depth,
            final(self).document_delimiter == old(self).document_delimiter,
    {
        let d = self.options.delimiter;
        let ds = d.as_str();
        let n = arr.len();
        let mut i: usize = 0;
        while i < n
            invariant
                i <= n,
                n == arr@.len(),
                d == old(self).options.delimiter,
                ds@ == seq![delim_char(d)],
                self.out@ == old(self).out@ + enc_prims(arr@, i as nat, d),
                self.options == old(self).options,
                self.depth == old(self).depth,
                self.document_delimiter == old(self).document_delimiter,
            decreases n - i,
        {
            if i > 0 {
                self.push_str_raw(ds);
            }
            self.push_prim(&arr[i], d);
            i = i + 1;
            proof {
                assert(self.out@ =~= old(self).out@ + enc_prims(arr@, i as nat, d));
            }
        }
    }

    /// Writes an array after its key text: the header and the form that
    /// fits its elements.
    fn emit_array_rest(&mut self, arr: &Vec<Value>, prefix: &Vec<char>, Ghost(depth): Ghost<nat>)
        requires
            prefix@ == ind(depth, old(self).options),
        ensures
            final(self).out@ == old(self).out@ + enc_array_rest(arr@, depth, old(self).options),
            final(self).options == old(self).options,
            final(self).depth == old(self).depth,
            final(self).document_delimiter == old(self).document_delimiter,
        decreases arr@,
    {
        let d = self.options.delimiter;
        let ds = d.as_str();
        self.push_header(arr.len());
        if arr.len() == 0 {
            self.push_out(':');
            proof {
                assert(self.out@ =~= old(self).out@ + enc_array_rest(
                    arr@,
                    depth,
                    old(self).options,
                ));
            }
            return;
        }
        if self.is_primitive_array(arr) {
            self.push_out(':');
            self.push_out(' ');
            self.emit_prims(arr);
            proof {
                assert(self.out@ =~= old(self).out@ + enc_array_rest(
                    arr@,
                    depth,
                    old(self).options,
                ));
            }
            return;
        }
        let child = self.extend_prefix(prefix, Ghost(depth));
        if self.is_array_of_arrays(arr) {
            self.push_out(':');
            let ghost mid = self.out@;
            let n = arr.len();
            let mut i: usize = 0;
            while i < n
                invariant
                    i <= n,
                    n == arr@.len(),
                    is_arr_of_arrs(arr@),
                    child@ == ind((depth + 1) as nat, self.options),
                    self.out@ == mid + enc_aoa(arr@, i as nat, (depth + 1) as nat, self.options),
                    self.options == old(self).options,
                    self.depth == old(self).depth,
                    self.document_delimiter == old(self).document_delimiter,
                decreases n - i,
            {
                self.push_out('\n');
                self.push_chars(&child);
                self.push_out('-');
                self.push_out(' ');
                match &arr[i] {
                    Value::Arr(inner) => {
                        self.emit_array_rest(inner, &child, Ghost((depth + 1) as nat));
                    },
                    _ => {
                        proof {
                            assert(false);
                        }
                    },
                }
                i = i + 1;
                proof {
                    assert(self.out@ =~= mid + enc_aoa(
                        arr@,
                        i as nat,
                        (depth + 1) as nat,
                        self.options,
                    ));
                }
            }
            proof {
                assert(self.out@ =~= old(self).out@ + enc_array_rest(
                    arr@,
                    depth,
                    old(self).options,
                ));
            }
            return;
        }
        match self.detect_tabular(arr) {
            Some(fields) => {
                self.push_out('{');
                let ghost keys = keys_of(oent(arr@[0]));
                proof {
                    assert(keys.len() == oent(arr@[0]).len());
                    assert(forall|l: int| 0 <= l < keys.len() ==> keys[l] == oent(arr@[0])[l].0@);
                }
                let ghost mid0 = self.out@;
                let fn_ = fields.len();
                let mut j: usize = 0;
                while j < fn_
                    invariant
                        j <= fn_,
                        fn_ == fields@.len(),
                        fn_ == keys.len(),
                        forall|l: int| 0 <= l < fn_ ==> (#[trigger] fields@[l])@ == keys[l],
                        d == old(self).options.delimiter,
                        ds@ == seq![delim_char(d)],
                        self.out@ == mid0 + enc_fields(keys, j as nat, d),
                        self.options == old(self).options,
                        self.depth == old(self).depth,
                        self.document_delimiter == old(self).document_delimiter,
                    decreases fn_ - j,
                {
                    if j > 0 {
                        self.push_str_raw(ds);
                    }
                    self.push_key(fields[j].as_str());
                    j = j + 1;
                    proof {
                        assert(self.out@ =~= mid0 + enc_fields(keys, j as nat, d));
                    }
                }
                self.push_out('}');
                self.push_out(':');
                let ghost mid = self.out@;
                let n = arr.len();
                let mut i: usize = 0;
                while i < n
                    invariant
                        i <= n,
                        n == arr@.len(),
                        is_tabular(arr@),
                        fn_ == fields@.len(),
                        fn_ == keys.len(),
                        keys == keys_of(oent(arr@[0])),
                        forall|l: int| 0 <= l < fn_ ==> (#[trigger] fields@[l])@ == keys[l],
                        d == old(self).options.delimiter,
                        ds@ == seq![delim_char(d)],
                        child@ == ind((depth + 1) as nat, self.options),
                        self.out@ == mid + enc_rows(
                            arr@,
                            i as nat,
                            keys,
                            (depth + 1) as nat,
                            self.options,
                        ),
                        self.options == old(self).options,
                        self.depth == old(self).depth,
                        self.document_delimiter == old(self).document_delimiter,
                    decreases n - i,
                {
                    self.push_out('\n');
                    self.push_chars(&child);
                    let ghost rowstart = self.out@;
                    match &arr[i] {
                        Value::Object(m) => {
                            let mut j: usize = 0;
                            while j < fn_
                                invariant
                                    j <= fn_,
                                    fn_ == fields@.len(),
                                    fn_ == keys.len(),
                                    forall|l: int|
                                        0 <= l < fn_ ==> (#[trigger] fields@[l])@ == keys[l],
                                    d == old(self).options.delimiter,
                                    ds@ == seq![delim_char(d)],
                                    0 <= i < arr@.len(),
                                    arr@[i as int] is Object,
                                    m == arr@[i as int]->Object_0,
                                    self.out@ == rowstart + enc_row(
                                        m.entries@,
                                        keys,
                                        j as nat,
                                        d,
                                    ),
                                    self.options == old(self).options,
                                    self.depth == old(self).depth,
                                    self.document_delimiter == old(self).document_delimiter,
                                decreases fn_ - j,
                            {
                                if j > 0 {
                                    self.push_str_raw(ds);
                                }
                                match m.get(fields[j].as_str()) {
                                    Some(val) => {
                                        self.push_prim(val, d);
                                    },
                                    None => {},
                                }
                                j = j + 1;
                                proof {
                                    assert(self.out@ =~= rowstart + enc_row(
                                        m.entries@,
                                        keys,
                                        j as nat,
                                        d,
                                    ));
                                }
                            }
                        },
                        _ => {
                            proof {
                                assert(false);
                            }
                        },
                    }
                    i = i + 1;
                    proof {
                        assert(self.out@ =~= mid + enc_rows(
                            arr@,
                            i as nat,
                            keys,
                            (depth + 1) as nat,
                            self.options,
                        ));
                    }
                }
                proof {
                    assert(self.out@ =~= old(self).out@ + enc_array_rest(
                        arr@,
                        depth,
                        old(self).options,
                    ));
                }
            },
            None => {
                self.push_out(':');
                let ghost mid = self.out@;
                let n = arr.len();
                let mut i: usize = 0;
                while i < n
                    invariant
                        i <= n,
                        n == arr@.len(),
                        !all_prim(arr@) || arr@.len() == 0,
                        child@ == ind((depth + 1) as nat, self.options),
                        self.out@ == mid + enc_mixed(
                            arr@,
                            i as nat,
                            (depth + 1) as nat,
                            self.options,
                        ),
                        self.options == old(self).options,
                        self.depth == old(self).depth,
                        self.document_delimiter == old(self).document_delimiter,
                    decreases n - i,
                {
                    self.push_out('\n');
                    self.push_chars(&child);
                    let empty_obj = match &arr[i] {
                        Value::Object(m) => m.is_empty(),
                        _ => false,
                    };
                    if empty_obj {
                        self.push_out('-');
                    } else {
                        self.push_out('-');
                        self.push_out(' ');
                        self.emit_list_item(&arr[i], &child, Ghost((depth + 1) as nat));
                    }
                    i = i + 1;
                    proof {
                        assert(self.out@ =~= mid + enc_mixed(
                            arr@,
                            i as nat,
                            (depth + 1) as nat,
                            self.options,
                        ));
                    }
                }
                proof {
                    assert(self.out@ =~= old(self).out@ + enc_array_rest(
                        arr@,
                        depth,
                        old(self).options,
                    ));
                }
            },
        }
    }

    /// Writes one item of a mixed array after its dash.
    fn emit_list_item(&mut self, v: &Value, prefix: &Vec<char>, Ghost(dash_depth): Ghost<nat>)
        requires
            prefix@ == ind(dash_depth, old(self).options),
        ensures
            final(self).out@ == old(self).out@ + enc_list_item(
                *v,
                dash_depth,
                old(self).options,
            ),
            final(self).options == old(self).options,
            final(self).depth == old(self).depth,
            final(self).document_delimiter == old(self).document_delimiter,
        decreases *v,
    {
        match v {
            Value::Arr(a) => {
                self.emit_array_rest(a, prefix, Ghost(dash_depth));
            },
            Value::Object(m) => {
                self.emit_obj_item(m, prefix, Ghost(dash_depth));
            },
            _ => {
                let d = self.options.delimiter;
                self.push_prim(v, d);
            },
        }
    }

    /// Writes an object as a list item: the first field on the dash's
    /// line, the following fields one level below.
    fn emit_obj_item(&mut self, m: &ObjMap, prefix: &Vec<char>, Ghost(dash_depth): Ghost<nat>)
        requires
            prefix@ == ind(dash_depth, old(self).options),
        ensures
            final(self).out@ == old(self).out@ + enc_obj_item(
                m.entries@,
                dash_depth,
                old(self).options,
            ),
            final(self).options == old(self).options,
            final(self).depth == old(self).depth,
            final(self).document_delimiter == old(self).document_delimiter,
        decreases m.entries@,
    {
        let n = m.len();
        if n == 0 {
            proof {
                assert(self.out@ =~= old(self).out@ + enc_obj_item(
                    m.entries@,
                    dash_depth,
                    old(self).options,
                ));
            }
            return;
        }
        let child = self.extend_prefix(prefix, Ghost(dash_depth));
        let e = m.entry_at(0);
        match &e.1 {
            Value::Arr(a) => {
                self.push_key(e.0.as_str());
                self.emit_array_rest(a, prefix, Ghost(dash_depth));
            },
            Value::Object(nested) => {
                self.push_key(e.0.as_str());
                self.push_out(':');
                self.emit_obj_body(nested, &child, Ghost((dash_depth + 1) as nat));
            },
            _ => {
                self.push_key(e.0.as_str());
                self.push_out(':');
                self.push_out(' ');
                let d = self.options.delimiter;
                self.push_prim(&e.1, d);
            },
        }
        let ghost mid = self.out@;
        proof {
            assert(mid =~= old(self).out@ + enc_first_entry(
                m.entries@[0].0@,
                m.entries@[0].1,
                dash_depth,
                old(self).options,
            ));
        }
        let mut i: usize = 1;
        while i < n
            invariant
                1 <= i <= n,
                n == m.entries@.len(),
                child@ == ind((dash_depth + 1) as nat, self.options),
                self.out@ == mid + enc_item_rest(m.entries@, i as nat, dash_depth, self.options),
                self.options == old(self).options,
                self.depth == old(self).depth,
                self.document_delimiter == old(self).document_delimiter,
            decreases n - i,
        {
            self.push_out('\n');
            let e2 = m.entry_at(i);
            self.emit_value(&e2.1, Some(e2.0.as_str()), &child, Ghost((dash_depth + 1) as nat));
            i = i + 1;
            proof {
                assert(self.out@ =~= mid + enc_item_rest(
                    m.entries@,
                    i as nat,
                    dash_depth,
                    self.options,
                ));
            }
        }
        proof {
            assert(self.out@ =~= old(self).out@ + enc_obj_item(
                m.entries@,
                dash_depth,
                old(self).options,
            ));
        }
    }

    /// Writes the entries of a keyed object, one line each.
    fn emit_obj_body(&mut self, m: &ObjMap, child: &Vec<char>, Ghost(depth): Ghost<nat>)
        requires
            child@ == ind(depth, old(self).options),
        ensures
            final(self).out@ == old(self).out@ + enc_obj_body(
                m.entries@,
                m.entries@.len() as nat,
                depth,
                old(self).options,
            ),
            final(self).options == old(self).options,
            final(self).depth == old(self).depth,
            final(self).document_delimiter == old(self).document_delimiter,
        decreases m.entries@,
    {
        let n = m.len();
        let mut i: usize = 0;
        while i < n
            invariant
                i <= n,
                n == m.entries@.len(),
                child@ == ind(depth, self.options),
                self.out@ == old(self).out@ + enc_obj_body(
                    m.entries@,
                    i as nat,
                    depth,
                    self.options,
                ),
                self.options == old(self).options,
                self.depth == old(self).depth,
                self.document_delimiter == old(self).document_delimiter,
            decreases n - i,
        {
            self.push_out('\n');
            let e = m.entry_at(i);
            self.emit_value(&e.1, Some(e.0.as_str()), child, Ghost(depth));
            i = i + 1;
            proof {
                assert(self.out@ =~= old(self).out@ + enc_obj_body(
                    m.entries@,
                    i as nat,
                    depth,
                    self.options,
                ));
            }
        }
    }

    /// The folded path of a chain of single-key objects, or nothing when
    /// the chain may not fold.
    fn try_fold_path(&self, m: &ObjMap, num: usize) -> (r: Option<Vec<char>>)
        ensures
            match fold_path(m.entries@, num as nat, self.options) {
                Some(pf) => r matches Some(p) && p@ == pf.0,
                None => r is None,
            },
        decreases m.entries@,
    {
        if m.len() != 1 {
            return None;
        }
        let e = m.entry_at(0);
        if self.key_needs_quoting(e.0.as_str()) {
            return None;
        }
        if num >= self.options.flatten_depth {
            return None;
        }
        match &e.1 {
            Value::Object(nested) => {
                let can = if num >= usize::MAX - 1 {
                    false
                } else {
                    num + 1 < self.options.flatten_depth
                };
                if can {
                    match self.try_fold_path(nested, num + 1) {
                        Some(p) => {
                            let mut r = crate::text::str_to_chars(e.0.as_str());
                            r.push('.');
                            let mut p2 = p;
                            r.append(&mut p2);
                            proof {
                                assert(r@ =~= m.entries@[0].0@ + seq!['.'] + match fold_path(
                                    m.entries@[0].1->Object_0.entries@,
                                    (num + 1) as nat,
                                    self.options,
                                ) {
                                    Some(pf) => pf.0,
                                    None => Seq::<char>::empty(),
                                });
                            }
                            return Some(r);
                        },
                        None => {},
                    }
                }
                Some(crate::text::str_to_chars(e.0.as_str()))
            },
            _ => Some(crate::text::str_to_chars(e.0.as_str())),
        }
    }

    /// Writes the folded form of a chain of single-key objects.
    fn emit_fold_run(&mut self, kacc: &Vec<char>, m: &ObjMap, num: usize)
        ensures
            final(self).out@ == old(self).out@ + enc_fold_run(
                kacc@,
                m.entries@,
                num as nat,
                old(self).options,
            ),
            final(self).options == old(self).options,
            final(self).depth == old(self).depth,
            final(self).document_delimiter == old(self).document_delimiter,
        decreases m.entries@,
    {
        if m.len() != 1 {
            proof {
                assert(self.out@ =~= old(self).out@ + enc_fold_run(
                    kacc@,
                    m.entries@,
                    num as nat,
                    old(self).options,
                ));
            }
            return;
        }
        let e = m.entry_at(0);
        let mut k2 = crate::text::subvec(kacc, 0, kacc.len());
        k2.push('.');
        let mut kc = crate::text::str_to_chars(e.0.as_str());
        k2.append(&mut kc);
        proof {
            assert(k2@ =~= kacc@ + seq!['.'] + m.entries@[0].0@);
        }
        let empty_prefix: Vec<char> = Vec::new();
        proof {
            assert(empty_prefix@ =~= ind(0, self.options));
        }
        match &e.1 {
            Value::Object(nested) => {
                let can = if num >= usize::MAX - 1 {
                    false
                } else {
                    num + 1 < self.options.flatten_depth
                };
                let mut folded = false;
                if can {
                    match self.try_fold_path(nested, num + 1) {
                        Some(_) => {
                            self.emit_fold_run(&k2, nested, num + 1);
                            folded = true;
                        },
                        None => {},
                    }
                }
                if !folded {
                    let ks = chars_to_string(&k2);
                    self.emit_value(&e.1, Some(ks.as_str()), &empty_prefix, Ghost(0nat));
                }
            },
            _ => {
                let ks = chars_to_string(&k2);
                self.emit_value(&e.1, Some(ks.as_str()), &empty_prefix, Ghost(0nat));
            },
        }
        proof {
            assert(self.out@ =~= old(self).out@ + enc_fold_run(
                kacc@,
                m.entries@,
                num as nat,
                old(self).options,
            ));
        }
    }

    /// Writes the root object: its entries joined by line breaks, each
    /// folded when key folding applies.
    fn emit_root_obj(&mut self, m: &ObjMap)
        ensures
            final(self).out@ == old(self).out@ + enc_root_obj(m.entries@, old(self).options),
            final(self).options == old(self).options,
            final(self).depth == old(self).depth,
            final(self).document_delimiter == old(self).document_delimiter,
        decreases m.entries@,
    {
        let empty_prefix: Vec<char> = Vec::new();
        proof {
            assert(empty_prefix@ =~= ind(0, self.options));
        }
        let n = m.len();
        let mut i: usize = 0;
        while i < n
            invariant
                i <= n,
                n == m.entries@.len(),
                self.out@ == old(self).out@ + enc_root_entries(m.entries@, i as nat, self.options),
                empty_prefix@ == ind(0, self.options),
                self.options == old(self).options,
                self.depth == old(self).depth,
                self.document_delimiter == old(self).document_delimiter,
            decreases n - i,
        {
            if i > 0 {
                self.push_out('\n');
            }
            let ghost linestart = self.out@;
            let e = m.entry_at(i);
            let mut plain = true;
            match &e.1 {
                Value::Object(nested) => {
                    if matches!(self.options.key_folding, KeyFolding::Safe) && !self.key_needs_quoting(
                        e.0.as_str(),
                    ) {
                        match self.try_fold_path(nested, 1) {
                            Some(path) => {
                                let mut full = crate::text::str_to_chars(e.0.as_str());
                                full.push('.');
                                let mut p2 = path;
                                full.append(&mut p2);
                                proof {
                                    assert(full@ =~= m.entries@[i as int].0@ + seq!['.']
                                        + match fold_path(
                                        m.entries@[i as int].1->Object_0.entries@,
                                        1,
                                        self.options,
                                    ) {
                                        Some(pf) => pf.0,
                                        None => Seq::<char>::empty(),
                                    });
                                }
                                let full_s = chars_to_string(&full);
                                match m.index_of(full_s.as_str()) {
                                    Some(_) => {},
                                    None => {
                                        let kacc = crate::text::str_to_chars(e.0.as_str());
                                        self.emit_fold_run(&kacc, nested, 1);
                                        plain = false;
                                    },
                                }
                            },
                            None => {},
                        }
                    }
                },
                _ => {},
            }
            if plain {
                self.emit_value(&e.1, Some(e.0.as_str()), &empty_prefix, Ghost(0nat));
            }
            proof {
                assert(self.out@ =~= linestart + enc_root_entry(
                    m.entries@,
                    i as int,
                    self.options,
                ));
            }
            i = i + 1;
            proof {
                assert(self.out@ =~= old(self).out@ + enc_root_entries(
                    m.entries@,
                    i as nat,
                    self.options,
                ));
            }
        }
        proof {
            assert(self.out@ =~= old(self).out@ + enc_root_obj(m.entries@, old(self).options));
        }
    }

    /// Writes one value, with an optional key, at the given nesting depth.
    fn emit_value(
        &mut self,
        v: &Value,
        key: Option<&str>,
        prefix: &Vec<char>,
        Ghost(depth): Ghost<nat>,
    )
        requires
            prefix@ == ind(depth, old(self).options),
        ensures
            final(self).out@ == old(self).out@ + enc_value(
                *v,
                kview(key),
                depth,
                old(self).options,
            ),
            final(self).options == old(self).options,
            final(self).depth == old(self).depth,
            final(self).document_delimiter == old(self).document_delimiter,
        decreases *v,
    {
        match v {
            Value::Arr(a) => {
                match key {
                    Some(k) => {
                        self.push_chars(prefix);
                        self.push_key(k);
                    },
                    None => {},
                }
                self.emit_array_rest(a, prefix, Ghost(depth));
                proof {
                    assert(self.out@ =~= old(self).out@ + enc_value(
                        *v,
                        kview(key),
                        depth,
                        old(self).options,
                    ));
                }
            },
            Value::Object(m) => {
                match key {
                    Some(k) => {
                        self.push_chars(prefix);
                        self.push_key(k);
                        self.push_out(':');
                        let child = self.extend_prefix(prefix, Ghost(depth));
                        self.emit_obj_body(m, &child, Ghost((depth + 1) as nat));
                    },
                    None => {
                        self.emit_root_obj(m);
                    },
                }
                proof {
                    assert(self.out@ =~= old(self).out@ + enc_value(
                        *v,
                        kview(key),
                        depth,
                        old(self).options,
                    ));
                }
            },
            _ => {
                let d = self.options.delimiter;
                match key {
                    Some(k) => {
                        self.push_chars(prefix);
                        self.push_key(k);
                        self.push_out(':');
                        self.push_out(' ');
                    },
                    None => {},
                }
                self.push_prim(v, d);
                proof {
                    assert(self.out@ =~= old(self).out@ + enc_value(
                        *v,
                        kview(key),
                        depth,
                        old(self).options,
                    ));
                }
            },
        }
    }

    /// Writes a whole value as a document at depth zero.
    pub fn serialize_value(&mut self, value: &Value)
        ensures
            final(self).spec_out() == old(self).spec_out() + enc_value(
                *value,
                None,
                0,
                old(self).spec_options(),
            ),
            final(self).spec_options() == old(self).spec_options(),
            final(self).spec_depth() == old(self).spec_depth(),
            final(self).spec_document_delimiter() == old(self).spec_document_delimiter(),
    {
        let prefix: Vec<char> = Vec::new();
        proof {
            assert(prefix@ =~= ind(0, self.options));
        }
        self.emit_value(value, None, &prefix, Ghost(0nat));
    }
}

/// Encodes a value as TOON text.
pub fn encode(value: &Value, options: &EncoderOptions) -> (r: String)
    ensures
        r@ == enc_doc(*value, *options),
{
    let mut s = Serializer::new(*options);
    s.serialize_value(value);
    s.into_string()
}

/// Encodes a value as the UTF-8 bytes of its TOON text.
pub fn encode_bytes(value: &Value, options: &EncoderOptions) -> (r: Vec<u8>)
    ensures
        r@ == crate::text::utf8_of(enc_doc(*value, *options)),
{
    let s = encode(value, options);
    crate::text::string_bytes(&s)
}

} // verus!
