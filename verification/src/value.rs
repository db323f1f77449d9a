//! The TOON value tree: a closed sum of six variants carrying JSON
//! semantics, with an insertion-order-preserving object map.
//!
//! Contracts speak about values through the ghost model [`GValue`], which
//! replaces every `String` by its character sequence, so that two values
//! built from different allocations of the same text are equivalent.

use vstd::prelude::*;

verus! {

/// Ghost model of a number: a signed integer, an unsigned integer, or the
/// text of a decimal literal with a fractional or exponent part.
pub enum GNumber {
    I64(i64),
    U64(u64),
    Decimal(Seq<char>),
}

/// Ghost model of a value.
pub enum GValue {
    Null,
    Bool(bool),
    Number(GNumber),
    Str(Seq<char>),
    Arr(Seq<GValue>),
    Obj(Seq<(Seq<char>, GValue)>),
}

/// A TOON number.
///
/// Integers are held exactly. A number with a fractional part or an
/// exponent is held as the text of its decimal literal (the `Decimal`
/// variant), which the encoder emits verbatim; hosts that work with native
/// floating-point values convert at the boundary.
#[derive(Debug)]
pub enum Number {
    /// A signed 64-bit integer.
    I64(i64),
    /// An unsigned 64-bit integer.
    U64(u64),
    /// The text of a decimal literal with a fractional part or exponent.
    Decimal(String),
}

/// Any TOON value.
#[derive(Debug)]
pub enum Value {
    /// The null value.
    Null,
    /// A boolean value.
    Bool(bool),
    /// A numeric value.
    Number(Number),
    /// A string value.
    Str(String),
    /// An array of values.
    Arr(Vec<Value>),
    /// An object: a map from string keys to values that preserves the
    /// order of insertion.
    Object(ObjMap),
}

/// An insertion-order-preserving map from string keys to values.
///
/// Inserting an existing key replaces its value in place, keeping the
/// key's original position; inserting a new key appends it.
#[derive(Debug)]
pub struct ObjMap {
    /// The entries, in insertion order.
    pub entries: Vec<(String, Value)>,
}

impl View for ObjMap {
    type V = Seq<(String, Value)>;

    open spec fn view(&self) -> Seq<(String, Value)> {
        self.entries@
    }
}

/// Ghost model of a number.
pub open spec fn model_num(n: Number) -> GNumber {
    match n {
        Number::I64(i) => GNumber::I64(i),
        Number::U64(u) => GNumber::U64(u),
        Number::Decimal(s) => GNumber::Decimal(s@),
    }
}

impl Value {
    /// Ghost model of a value.
    pub open spec fn model(self) -> GValue
        decreases self,
    {
        match self {
            Value::Null => GValue::Null,
            Value::Bool(b) => GValue::Bool(b),
            Value::Number(n) => GValue::Number(model_num(n)),
            Value::Str(s) => GValue::Str(s@),
            Value::Arr(a) => GValue::Arr(model_seq(a@)),
            Value::Object(m) => GValue::Obj(model_entries(m@)),
        }
    }
}

/// Ghost models of the elements of a value sequence.
pub open spec fn model_seq(s: Seq<Value>) -> Seq<GValue>
    decreases s,
{
    if s.len() == 0 {
        Seq::empty()
    } else {
        model_seq(s.drop_last()).push(s.last().model())
    }
}

/// Ghost models of the entries of an object.
pub open spec fn model_entries(s: Seq<(String, Value)>) -> Seq<(Seq<char>, GValue)>
    decreases s,
{
    if s.len() == 0 {
        Seq::empty()
    } else {
        model_entries(s.drop_last()).push((s.last().0@, s.last().1.model()))
    }
}

/// `model_seq` maps element-wise.
pub proof fn lemma_model_seq(s: Seq<Value>)
    ensures
        model_seq(s).len() == s.len(),
        forall|i: int| 0 <= i < s.len() ==> model_seq(s)[i] == #[trigger] s[i].model(),
    decreases s.len(),
{
    if s.len() > 0 {
        lemma_model_seq(s.drop_last());
        assert forall|i: int| 0 <= i < s.len() implies model_seq(s)[i] == #[trigger] s[i].model() by {
            if i < s.len() - 1 {
                assert(s.drop_last()[i] == s[i]);
            }
        }
    }
}

/// `model_entries` maps entry-wise.
pub proof fn lemma_model_entries(s: Seq<(String, Value)>)
    ensures
        model_entries(s).len() == s.len(),
        forall|i: int|
            0 <= i < s.len() ==> model_entries(s)[i] == (#[trigger] s[i].0@, s[i].1.model()),
    decreases s.len(),
{
    if s.len() > 0 {
        lemma_model_entries(s.drop_last());
        assert forall|i: int|
            0 <= i < s.len() implies model_entries(s)[i] == (#[trigger] s[i].0@, s[i].1.model()) by {
            if i < s.len() - 1 {
                assert(s.drop_last()[i] == s[i]);
            }
        }
    }
}

/// Index of the entry with key text `k`, or `-1` when no entry has it.
pub open spec fn find_key(s: Seq<(String, Value)>, k: Seq<char>) -> int
    decreases s.len(),
{
    if s.len() == 0 {
        -1
    } else if s[0].0@ == k {
        0
    } else {
        let r = find_key(s.subrange(1, s.len() as int), k);
        if r == -1 {
            -1
        } else {
            r + 1
        }
    }
}

/// What [`find_key`] returns is the first entry with the key.
pub proof fn lemma_find_key(s: Seq<(String, Value)>, k: Seq<char>)
    ensures
        find_key(s, k) == -1 ==> forall|i: int| 0 <= i < s.len() ==> (#[trigger] s[i].0)@ != k,
        find_key(s, k) != -1 ==> {
            &&& 0 <= find_key(s, k) < s.len()
            &&& s[find_key(s, k)].0@ == k
            &&& forall|i: int| 0 <= i < find_key(s, k) ==> (#[trigger] s[i].0)@ != k
        },
    decreases s.len(),
{
    if s.len() > 0 && s[0].0@ != k {
        let t = s.subrange(1, s.len() as int);
        lemma_find_key(t, k);
        assert(forall|i: int| 0 <= i < t.len() ==> #[trigger] t[i] == s[i + 1]);
        let r = find_key(t, k);
        if r == -1 {
            assert forall|i: int| 0 <= i < s.len() implies (#[trigger] s[i].0)@ != k by {
                if i > 0 {
                    assert(t[i - 1] == s[i]);
                }
            }
        } else {
            assert(find_key(s, k) == r + 1);
            assert(s[r + 1] == t[r]);
            assert forall|i: int| 0 <= i < r + 1 implies (#[trigger] s[i].0)@ != k by {
                if i > 0 {
                    assert(t[i - 1] == s[i]);
                }
            }
        }
    }
}

/// Entries after an insertion: an existing key is replaced in place, a new
/// key is appended.
pub open spec fn spec_insert(
    s: Seq<(String, Value)>,
    k: String,
    v: Value,
) -> Seq<(String, Value)> {
    let i = find_key(s, k@);
    if i == -1 {
        s.push((k, v))
    } else {
        s.update(i, (k, v))
    }
}

impl ObjMap {
    /// The keys of distinct entries differ.
    pub open spec fn wf(&self) -> bool {
        forall|i: int, j: int|
            0 <= i < j < self@.len() ==> (#[trigger] self@[i].0)@ != (#[trigger] self@[j].0)@
    }

    /// Creates an empty map.
    pub fn new() -> (r: ObjMap)
        ensures
            r@ == Seq::<(String, Value)>::empty(),
            r.wf(),
    {
        ObjMap { entries: Vec::new() }
    }

    /// The number of entries.
    pub fn len(&self) -> (r: usize)
        ensures
            r == self@.len(),
    {
        self.entries.len()
    }

    /// Whether the map has no entries.
    pub fn is_empty(&self) -> (r: bool)
        ensures
            r == (self@.len() == 0),
    {
        self.entries.len() == 0
    }

    /// The entry at position `i` in insertion order.
    pub fn entry_at(&self, i: usize) -> (e: &(String, Value))
        requires
            i < self@.len(),
        ensures
            *e == self@[i as int],
    {
        &self.entries[i]
    }

    /// Position of the entry whose key reads `k`, if any.
    pub fn index_of(&self, k: &str) -> (r: Option<usize>)
        ensures
            match r {
                Some(i) => i == find_key(self@, k@) && i < self@.len() && self@[i as int].0@ == k@,
                None => find_key(self@, k@) == -1,
            },
    {
        let mut i: usize = 0;
        let n = self.entries.len();
        while i < n
            invariant
                i <= n,
                n == self@.len(),
                forall|j: int| 0 <= j < i ==> (#[trigger] self@[j].0)@ != k@,
            decreases n - i,
        {
            if crate::text::str_eq(self.entries[i].0.as_str(), k) {
                proof {
                    lemma_find_key_first(self@, k@, i as int);
                }
                return Some(i);
            }
            i = i + 1;
        }
        proof {
            lemma_find_key(self@, k@);
            if find_key(self@, k@) != -1 {
                assert((self@[find_key(self@, k@)].0)@ == k@);
            }
        }
        None
    }

    /// The value under key `k`, if any.
    pub fn get(&self, k: &str) -> (r: Option<&Value>)
        ensures
            match r {
                Some(v) => find_key(self@, k@) >= 0 && *v == self@[find_key(self@, k@)].1,
                None => find_key(self@, k@) == -1,
            },
    {
        match self.index_of(k) {
            Some(i) => Some(&self.entries[i].1),
            None => None,
        }
    }

    /// Inserts `v` under `k`: replaces the value in place when the key is
    /// present, appends the entry when it is not.
    pub fn insert(&mut self, k: String, v: Value)
        ensures
            final(self)@ == spec_insert(old(self)@, k, v),
            old(self).wf() ==> final(self).wf(),
    {
        let ghost s0 = self@;
        match self.index_of(k.as_str()) {
            Some(i) => {
                self.entries.set(i, (k, v));
                proof {
                    lemma_find_key(s0, k@);
                }
            },
            None => {
                self.entries.push((k, v));
                proof {
                    lemma_find_key(s0, k@);
                }
            },
        }
    }
}

impl Number {
    /// This number as an `i64`, when the conversion is lossless.
    pub fn as_i64(&self) -> (r: Option<i64>)
        ensures
            match *self {
                Number::I64(n) => r == Some(n),
                Number::U64(u) => r == if u <= i64::MAX as u64 {
                    Some(u as i64)
                } else {
                    None::<i64>
                },
                Number::Decimal(_) => r is None,
            },
    {
        match self {
            Number::I64(n) => Some(*n),
            Number::U64(u) => {
                if *u <= i64::MAX as u64 {
                    Some(*u as i64)
                } else {
                    None
                }
            },
            Number::Decimal(_) => None,
        }
    }

    /// This number as a `u64`, when the conversion is lossless.
    pub fn as_u64(&self) -> (r: Option<u64>)
        ensures
            match *self {
                Number::I64(n) => r == if n >= 0 {
                    Some(n as u64)
                } else {
                    None::<u64>
                },
                Number::U64(u) => r == Some(u),
                Number::Decimal(_) => r is None,
            },
    {
        match self {
            Number::I64(n) => {
                if *n >= 0 {
                    Some(*n as u64)
                } else {
                    None
                }
            },
            Number::U64(u) => Some(*u),
            Number::Decimal(_) => None,
        }
    }

    /// Whether this number is held as an `i64`.
    pub fn is_i64(&self) -> (r: bool)
        ensures
            r == (self is I64),
    {
        matches!(self, Number::I64(_))
    }

    /// Whether this number is held as a `u64`.
    pub fn is_u64(&self) -> (r: bool)
        ensures
            r == (self is U64),
    {
        matches!(self, Number::U64(_))
    }

    /// Whether this number is held as decimal-literal text.
    pub fn is_decimal(&self) -> (r: bool)
        ensures
            r == (self is Decimal),
    {
        matches!(self, Number::Decimal(_))
    }

    /// The decimal-literal text, when this number holds one.
    pub fn as_decimal_str(&self) -> (r: Option<&String>)
        ensures
            match *self {
                Number::Decimal(ref s) => r == Some(s),
                _ => r is None,
            },
    {
        match self {
            Number::Decimal(s) => Some(s),
            _ => None,
        }
    }
}

impl Value {
    /// Whether this value is null.
    pub fn is_null(&self) -> (r: bool)
        ensures
            r == (self is Null),
    {
        matches!(self, Value::Null)
    }

    /// The boolean, when this value holds one.
    pub fn as_bool(&self) -> (r: Option<bool>)
        ensures
            match *self {
                Value::Bool(b) => r == Some(b),
                _ => r is None,
            },
    {
        match self {
            Value::Bool(b) => Some(*b),
            _ => None,
        }
    }

    /// The number converted to `i64`, when this value holds a number that
    /// converts losslessly.
    pub fn as_i64(&self) -> (r: Option<i64>)
        ensures
            match *self {
                Value::Number(Number::I64(n)) => r == Some(n),
                Value::Number(Number::U64(u)) => r == if u <= i64::MAX as u64 {
                    Some(u as i64)
                } else {
                    None::<i64>
                },
                _ => r is None,
            },
    {
        match self {
            Value::Number(n) => n.as_i64(),
            _ => None,
        }
    }

    /// The number converted to `u64`, when this value holds a number that
    /// converts losslessly.
    pub fn as_u64(&self) -> (r: Option<u64>)
        ensures
            match *self {
                Value::Number(Number::I64(n)) => r == if n >= 0 {
                    Some(n as u64)
                } else {
                    None::<u64>
                },
                Value::Number(Number::U64(u)) => r == Some(u),
                _ => r is None,
            },
    {
        match self {
            Value::Number(n) => n.as_u64(),
            _ => None,
        }
    }

    /// The string, when this value holds one.
    pub fn as_str(&self) -> (r: Option<&str>)
        ensures
            match *self {
                Value::Str(ref s) => r is Some && r->0@ == s@,
                _ => r is None,
            },
    {
        match self {
            Value::Str(s) => Some(s.as_str()),
            _ => None,
        }
    }

    /// The element vector, when this value holds an array.
    pub fn as_array(&self) -> (r: Option<&Vec<Value>>)
        ensures
            match *self {
                Value::Arr(ref a) => r == Some(a),
                _ => r is None,
            },
    {
        match self {
            Value::Arr(a) => Some(a),
            _ => None,
        }
    }

    /// The map, when this value holds an object.
    pub fn as_object(&self) -> (r: Option<&ObjMap>)
        ensures
            match *self {
                Value::Object(ref m) => r == Some(m),
                _ => r is None,
            },
    {
        match self {
            Value::Object(m) => Some(m),
            _ => None,
        }
    }
}

/// A number's model is built with the constructor of its variant.
pub proof fn lemma_model_num_variant(n: Number)
    ensures
        (model_num(n) is I64) == (n is I64),
        (model_num(n) is U64) == (n is U64),
        (model_num(n) is Decimal) == (n is Decimal),
{
}

/// A value's model is built with the constructor of its variant.
pub proof fn lemma_model_variant(v: Value)
    ensures
        (v.model() is Null) == (v is Null),
        (v.model() is Bool) == (v is Bool),
        (v.model() is Number) == (v is Number),
        (v.model() is Str) == (v is Str),
        (v.model() is Arr) == (v is Arr),
        (v.model() is Obj) == (v is Object),
{
}

/// Equality of numbers up to the ghost model.
pub fn num_eq(a: &Number, b: &Number) -> (r: bool)
    ensures
        r == (model_num(*a) == model_num(*b)),
{
    proof {
        lemma_model_num_variant(*a);
        lemma_model_num_variant(*b);
    }
    match a {
        Number::I64(x) => match b {
            Number::I64(y) => *x == *y,
            _ => false,
        },
        Number::U64(x) => match b {
            Number::U64(y) => *x == *y,
            _ => false,
        },
        Number::Decimal(x) => match b {
            Number::Decimal(y) => *x == *y,
            _ => false,
        },
    }
}

/// Equality of values up to the ghost model.
pub fn value_eq(a: &Value, b: &Value) -> (r: bool)
    ensures
        r == (a.model() == b.model()),
    decreases *a,
{
    proof {
        lemma_model_variant(*a);
        lemma_model_variant(*b);
    }
    match (a, b) {
        (Value::Null, Value::Null) => true,
        (Value::Bool(x), Value::Bool(y)) => *x == *y,
        (Value::Number(x), Value::Number(y)) => num_eq(x, y),
        (Value::Str(x), Value::Str(y)) => *x == *y,
        (Value::Arr(x), Value::Arr(y)) => {
            proof {
                lemma_model_seq(x@);
                lemma_model_seq(y@);
            }
            if x.len() != y.len() {
                return false;
            }
            let n = x.len();
            let mut i: usize = 0;
            while i < n
                invariant
                    i <= n,
                    n == x@.len(),
                    n == y@.len(),
                    a == Value::Arr(*x),
                    b == Value::Arr(*y),
                    model_seq(x@).len() == n,
                    model_seq(y@).len() == n,
                    forall|j: int| 0 <= j < x@.len() ==> model_seq(x@)[j] == #[trigger] x@[j].model(),
                    forall|j: int| 0 <= j < y@.len() ==> model_seq(y@)[j] == #[trigger] y@[j].model(),
                    forall|j: int| 0 <= j < i ==> model_seq(x@)[j] == model_seq(y@)[j],
                decreases n - i,
            {
                if !value_eq(&x[i], &y[i]) {
                    return false;
                }
                i = i + 1;
            }
            proof {
                assert(model_seq(x@) =~= model_seq(y@));
            }
            true
        },
        (Value::Object(x), Value::Object(y)) => {
            proof {
                lemma_model_entries(x@);
                lemma_model_entries(y@);
            }
            if x.entries.len() != y.entries.len() {
                return false;
            }
            let n = x.entries.len();
            let mut i: usize = 0;
            while i < n
                invariant
                    i <= n,
                    n == x.entries@.len(),
                    n == y.entries@.len(),
                    a == Value::Object(*x),
                    b == Value::Object(*y),
                    x@ == x.entries@,
                    y@ == y.entries@,
                    model_entries(x@).len() == n,
                    model_entries(y@).len() == n,
                    forall|j: int|
                        0 <= j < x@.len() ==> model_entries(x@)[j] == (
                        #[trigger] x@[j].0@,
                        x@[j].1.model(),
                        ),
                    forall|j: int|
                        0 <= j < y@.len() ==> model_entries(y@)[j] == (
                        #[trigger] y@[j].0@,
                        y@[j].1.model(),
                        ),
                    forall|j: int| 0 <= j < i ==> model_entries(x@)[j] == model_entries(y@)[j],
                decreases n - i,
            {
                if !(x.entries[i].0 == y.entries[i].0) {
                    return false;
                }
                if !value_eq(&x.entries[i].1, &y.entries[i].1) {
                    return false;
                }
                i = i + 1;
            }
            proof {
                assert(model_entries(x@) =~= model_entries(y@));
            }
            true
        },
        _ => false,
    }
}

impl PartialEq for Value {
    /// Values are compared up to the ghost model: texts by their
    /// characters, numbers by variant and magnitude, composites
    /// element-wise in order.
    fn eq(&self, other: &Value) -> (r: bool) {
        value_eq(self, other)
    }
}

impl vstd::std_specs::cmp::PartialEqSpecImpl for Value {
    open spec fn obeys_eq_spec() -> bool {
        true
    }

    open spec fn eq_spec(&self, other: &Value) -> bool {
        self.model() == other.model()
    }
}

impl PartialEq for Number {
    /// Numbers are compared by variant and content.
    fn eq(&self, other: &Number) -> (r: bool) {
        num_eq(self, other)
    }
}

impl vstd::std_specs::cmp::PartialEqSpecImpl for Number {
    open spec fn obeys_eq_spec() -> bool {
        true
    }

    open spec fn eq_spec(&self, other: &Number) -> bool {
        model_num(*self) == model_num(*other)
    }
}

impl From<bool> for Value {
    /// Wraps a boolean as a value.
    fn from(b: bool) -> (r: Value) {
        Value::Bool(b)
    }
}

impl vstd::std_specs::convert::FromSpecImpl<bool> for Value {
    open spec fn obeys_from_spec() -> bool {
        true
    }

    open spec fn from_spec(b: bool) -> Value {
        Value::Bool(b)
    }
}

impl From<i64> for Value {
    /// Wraps a signed integer as a numeric value.
    fn from(n: i64) -> (r: Value) {
        Value::Number(Number::I64(n))
    }
}

impl vstd::std_specs::convert::FromSpecImpl<i64> for Value {
    open spec fn obeys_from_spec() -> bool {
        true
    }

    open spec fn from_spec(n: i64) -> Value {
        Value::Number(Number::I64(n))
    }
}

impl From<u64> for Value {
    /// Wraps an unsigned integer as a numeric value.
    fn from(n: u64) -> (r: Value) {
        Value::Number(Number::U64(n))
    }
}

impl vstd::std_specs::convert::FromSpecImpl<u64> for Value {
    open spec fn obeys_from_spec() -> bool {
        true
    }

    open spec fn from_spec(n: u64) -> Value {
        Value::Number(Number::U64(n))
    }
}

impl From<String> for Value {
    /// Wraps a string as a value.
    fn from(s: String) -> (r: Value) {
        Value::Str(s)
    }
}

impl vstd::std_specs::convert::FromSpecImpl<String> for Value {
    open spec fn obeys_from_spec() -> bool {
        true
    }

    open spec fn from_spec(s: String) -> Value {
        Value::Str(s)
    }
}

impl From<ObjMap> for Value {
    /// Wraps a map as an object value.
    fn from(m: ObjMap) -> (r: Value) {
        Value::Object(m)
    }
}

impl vstd::std_specs::convert::FromSpecImpl<ObjMap> for Value {
    open spec fn obeys_from_spec() -> bool {
        true
    }

    open spec fn from_spec(m: ObjMap) -> Value {
        Value::Object(m)
    }
}

/// When the keys before `i` all differ from `k` and the key at `i` reads
/// `k`, the first entry with key `k` is at `i`.
pub proof fn lemma_find_key_first(s: Seq<(String, Value)>, k: Seq<char>, i: int)
    requires
        0 <= i < s.len(),
        s[i].0@ == k,
        forall|j: int| 0 <= j < i ==> (#[trigger] s[j].0)@ != k,
    ensures
        find_key(s, k) == i,
    decreases i,
{
    if i > 0 {
        assert(s[0].0@ != k);
        let t = s.subrange(1, s.len() as int);
        assert(t[i - 1] == s[i]);
        assert(forall|j: int| 0 <= j < i - 1 ==> (#[trigger] t[j].0)@ != k);
        lemma_find_key_first(t, k, i - 1);
    }
}

} // verus!
