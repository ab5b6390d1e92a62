//! Equality of messages, and what of a message debug output shows.
use vstd::prelude::*;
use crate::descriptor::{field_of, is_same_pool};
use crate::json::{double_is_nan, float_is_nan};
use crate::text::same_text;
use crate::unknown::count_unknown_fields;
use crate::value::{items_view, lemma_value_holds, DynamicMessage, MessageModel, Value, ValueModel};

verus! {

// ── Equality ────────────────────────────────────────────────────────────────

/// Doubles are equal as numbers: what is not a number equals nothing, and the
/// two zeros are equal.
pub open spec fn same_double(a: u64, b: u64) -> bool {
    !double_is_nan(a) && !double_is_nan(b) && (a == b || a % 0x8000_0000_0000_0000 == 0 && b
        % 0x8000_0000_0000_0000 == 0)
}

/// Floats are equal as numbers.
pub open spec fn same_float(a: u32, b: u32) -> bool {
    !float_is_nan(a) && !float_is_nan(b) && (a == b || a % 0x8000_0000 == 0 && b % 0x8000_0000
        == 0)
}

/// Values are equal.
pub open spec fn same_value(a: ValueModel, b: ValueModel) -> bool
    decreases a,
{
    match (a, b) {
        (ValueModel::F32(x), ValueModel::F32(y)) => same_float(x, y),
        (ValueModel::F64(x), ValueModel::F64(y)) => same_double(x, y),
        (ValueModel::Message(x), ValueModel::Message(y)) => same_message(x, y),
        (ValueModel::List(x), ValueModel::List(y)) => x.len() == y.len() && forall|i: int|
            0 <= i < x.len() ==> same_value(#[trigger] x[i], y[i]),
        (ValueModel::Mapping(x), ValueModel::Mapping(y)) => x.len() == y.len() && forall|i: int|
            0 <= i < x.len() ==> (#[trigger] x[i]).0 == y[i].0 && same_value(x[i].1, y[i].1),
        _ => a == b,
    }
}

/// Messages are equal: of the same type in the same pool, not in one like it,
/// with equal fields and as many unknown fields.
pub open spec fn same_message(a: MessageModel, b: MessageModel) -> bool
    decreases a,
{
    &&& a.pool == b.pool
    &&& a.index == b.index
    &&& a.fields.len() == b.fields.len()
    &&& forall|i: int|
        0 <= i < a.fields.len() ==> (#[trigger] a.fields[i]).0 == b.fields[i].0 && same_value(
            a.fields[i].1,
            b.fields[i].1,
        )
    &&& a.unknown.len() == b.unknown.len()
}

/// Equality is symmetric.
pub proof fn law_equality_symmetric(a: MessageModel, b: MessageModel)
    ensures
        same_message(a, b) == same_message(b, a),
{
    if same_message(a, b) {
        lemma_same_turned(a, b);
    }
    if same_message(b, a) {
        lemma_same_turned(b, a);
    }
}

proof fn lemma_same_turned(a: MessageModel, b: MessageModel)
    requires
        same_message(a, b),
    ensures
        same_message(b, a),
    decreases a,
{
    assert forall|i: int| 0 <= i < b.fields.len() implies (#[trigger] b.fields[i]).0
        == a.fields[i].0 && same_value(b.fields[i].1, a.fields[i].1) by {
        assert(a.fields[i].0 == b.fields[i].0);
        assert(decreases_to!(a => a.fields));
        assert(decreases_to!(a.fields => a.fields[i]));
        assert(decreases_to!(a.fields[i] => a.fields[i].1));
        lemma_value_turned(a.fields[i].1, b.fields[i].1);
    }
}

proof fn lemma_value_turned(a: ValueModel, b: ValueModel)
    requires
        same_value(a, b),
    ensures
        same_value(b, a),
    decreases a,
{
    lemma_value_holds(a);
    match (a, b) {
        (ValueModel::Message(x), ValueModel::Message(y)) => {
            lemma_same_turned(x, y);
        },
        (ValueModel::List(x), ValueModel::List(y)) => {
            assert forall|i: int| 0 <= i < y.len() implies same_value(#[trigger] y[i], x[i]) by {
                assert(same_value(x[i], y[i]));
                lemma_value_turned(x[i], y[i]);
            }
        },
        (ValueModel::Mapping(x), ValueModel::Mapping(y)) => {
            assert forall|i: int| 0 <= i < y.len() implies (#[trigger] y[i]).0 == x[i].0
                && same_value(y[i].1, x[i].1) by {
                assert(x[i].0 == y[i].0);
                lemma_value_turned(x[i].1, y[i].1);
            }
        },
        _ => {},
    }
}

/// Equality is transitive.
pub proof fn law_equality_transitive(a: MessageModel, b: MessageModel, c: MessageModel)
    requires
        same_message(a, b),
        same_message(b, c),
    ensures
        same_message(a, c),
    decreases a,
{
    assert forall|i: int| 0 <= i < a.fields.len() implies (#[trigger] a.fields[i]).0
        == c.fields[i].0 && same_value(a.fields[i].1, c.fields[i].1) by {
        assert(a.fields[i].0 == b.fields[i].0);
        assert(b.fields[i].0 == c.fields[i].0);
        assert(decreases_to!(a => a.fields));
        assert(decreases_to!(a.fields => a.fields[i]));
        assert(decreases_to!(a.fields[i] => a.fields[i].1));
        lemma_value_chained(a.fields[i].1, b.fields[i].1, c.fields[i].1);
    }
}

proof fn lemma_value_chained(a: ValueModel, b: ValueModel, c: ValueModel)
    requires
        same_value(a, b),
        same_value(b, c),
    ensures
        same_value(a, c),
    decreases a,
{
    lemma_value_holds(a);
    match (a, b, c) {
        (ValueModel::Message(x), ValueModel::Message(y), ValueModel::Message(z)) => {
            law_equality_transitive(x, y, z);
        },
        (ValueModel::List(x), ValueModel::List(y), ValueModel::List(z)) => {
            assert forall|i: int| 0 <= i < x.len() implies same_value(#[trigger] x[i], z[i]) by {
                assert(same_value(x[i], y[i]));
                assert(same_value(y[i], z[i]));
                lemma_value_chained(x[i], y[i], z[i]);
            }
        },
        (ValueModel::Mapping(x), ValueModel::Mapping(y), ValueModel::Mapping(z)) => {
            assert forall|i: int| 0 <= i < x.len() implies (#[trigger] x[i]).0 == z[i].0
                && same_value(x[i].1, z[i].1) by {
                assert(x[i].0 == y[i].0);
                assert(y[i].0 == z[i].0);
                lemma_value_chained(x[i].1, y[i].1, z[i].1);
            }
        },
        _ => {},
    }
}

/// The value holds no double and no float that is not a number, however deep.
pub open spec fn all_numbers(v: ValueModel) -> bool
    decreases v,
{
    match v {
        ValueModel::F32(n) => !float_is_nan(n),
        ValueModel::F64(n) => !double_is_nan(n),
        ValueModel::Message(m) => message_numbers(m),
        ValueModel::List(l) => forall|i: int| 0 <= i < l.len() ==> all_numbers(#[trigger] l[i]),
        ValueModel::Mapping(e) => forall|i: int|
            0 <= i < e.len() ==> all_numbers((#[trigger] e[i]).1),
        _ => true,
    }
}

/// The message holds no double and no float that is not a number.
pub open spec fn message_numbers(m: MessageModel) -> bool
    decreases m,
{
    forall|i: int| 0 <= i < m.fields.len() ==> all_numbers((#[trigger] m.fields[i]).1)
}

/// A message equals itself, and so its copies, where it holds no double and no
/// float that is not a number.
pub proof fn law_equality_reflexive(m: MessageModel)
    requires
        message_numbers(m),
    ensures
        same_message(m, m),
    decreases m,
{
    assert forall|i: int| 0 <= i < m.fields.len() implies same_value(
        (#[trigger] m.fields[i]).1,
        m.fields[i].1,
    ) by {
        assert(decreases_to!(m => m.fields));
        assert(decreases_to!(m.fields => m.fields[i]));
        assert(decreases_to!(m.fields[i] => m.fields[i].1));
        lemma_value_same(m.fields[i].1);
    }
}

proof fn lemma_value_same(v: ValueModel)
    requires
        all_numbers(v),
    ensures
        same_value(v, v),
    decreases v,
{
    lemma_value_holds(v);
    match v {
        ValueModel::Message(m) => {
            law_equality_reflexive(m);
        },
        ValueModel::List(l) => {
            assert forall|i: int| 0 <= i < l.len() implies same_value(#[trigger] l[i], l[i]) by {
                lemma_value_same(l[i]);
            }
        },
        ValueModel::Mapping(e) => {
            assert forall|i: int| 0 <= i < e.len() implies same_value(
                (#[trigger] e[i]).1,
                e[i].1,
            ) by {
                lemma_value_same(e[i].1);
            }
        },
        _ => {},
    }
}

fn double_eq(a: u64, b: u64) -> (r: bool)
    ensures
        r == same_double(a, b),
{
    let a_nan = (a / 0x10_0000_0000_0000) % 2048 == 2047 && a % 0x10_0000_0000_0000 != 0;
    let b_nan = (b / 0x10_0000_0000_0000) % 2048 == 2047 && b % 0x10_0000_0000_0000 != 0;
    !a_nan && !b_nan && (a == b || a % 0x8000_0000_0000_0000 == 0 && b % 0x8000_0000_0000_0000
        == 0)
}

fn float_eq(a: u32, b: u32) -> (r: bool)
    ensures
        r == same_float(a, b),
{
    let a_nan = (a / 0x80_0000) % 256 == 255 && a % 0x80_0000 != 0;
    let b_nan = (b / 0x80_0000) % 256 == 255 && b % 0x80_0000 != 0;
    !a_nan && !b_nan && (a == b || a % 0x8000_0000 == 0 && b % 0x8000_0000 == 0)
}

fn bytes_eq(a: &Vec<u8>, b: &Vec<u8>) -> (r: bool)
    ensures
        r == (a@ == b@),
{
    if a.len() != b.len() {
        return false;
    }
    let mut i: usize = 0;
    while i < a.len()
        invariant
            a@.len() == b@.len(),
            i <= a@.len(),
            forall|j: int| 0 <= j < i ==> a@[j] == b@[j],
        decreases a@.len() - i,
    {
        if a[i] != b[i] {
            return false;
        }
        i = i + 1;
    }
    assert(a@ =~= b@);
    true
}

impl Value {
    /// Whether two values are equal.
    pub fn equals(&self, other: &Value) -> (r: bool)
        ensures
            r == same_value(self@, other@),
        decreases self@, 0nat,
    {
        proof {
            lemma_value_holds(self@);
        }
        match (self, other) {
            (Value::Bool(a), Value::Bool(b)) => *a == *b,
            (Value::I32(a), Value::I32(b)) => *a == *b,
            (Value::I64(a), Value::I64(b)) => *a == *b,
            (Value::U32(a), Value::U32(b)) => *a == *b,
            (Value::U64(a), Value::U64(b)) => *a == *b,
            (Value::F32(a), Value::F32(b)) => float_eq(*a, *b),
            (Value::F64(a), Value::F64(b)) => double_eq(*a, *b),
            (Value::String(a), Value::String(b)) => same_text(
                a.as_str(),
                b.as_str(),
            ),
            (Value::Bytes(a), Value::Bytes(b)) => bytes_eq(a, b),
            (Value::EnumNumber(a), Value::EnumNumber(b)) => *a == *b,
            (Value::Message(a), Value::Message(b)) => a.equals(b),
            (Value::List(a), Value::List(b)) => {
                if a.len() != b.len() {
                    return false;
                }
                let ghost x = items_view(a@);
                let ghost y = items_view(b@);
                let mut i: usize = 0;
                while i < a.len()
                    invariant
                        self@ == ValueModel::List(x),
                        other@ == ValueModel::List(y),
                        x == items_view(a@),
                        y == items_view(b@),
                        a@.len() == b@.len(),
                        i <= a@.len(),
                        forall|j: int| 0 <= j < i ==> same_value(#[trigger] x[j], y[j]),
                    decreases a@.len() - i,
                {
                    proof {
                        lemma_value_holds(self@);
                        assert(self@->List_0[i as int] == a@[i as int]@);
                        assert(x[i as int] == a@[i as int]@);
                        assert(y[i as int] == b@[i as int]@);
                    }
                    if !a[i].equals(&b[i]) {
                        assert(!same_value(x[i as int], y[i as int]));
                        return false;
                    }
                    i = i + 1;
                }
                true
            },
            (Value::Mapping(a), Value::Mapping(b)) => {
                if a.len() != b.len() {
                    return false;
                }
                let mut i: usize = 0;
                while i < a.len()
                    invariant
                        self@ == ValueModel::Mapping(a@),
                        other@ == ValueModel::Mapping(b@),
                        a@.len() == b@.len(),
                        i <= a@.len(),
                        forall|j: int|
                            0 <= j < i ==> (#[trigger] a@[j]).0 == b@[j].0 && same_value(
                                a@[j].1,
                                b@[j].1,
                            ),
                    decreases a@.len() - i,
                {
                    proof {
                        lemma_value_holds(self@);
                    }
                    let (k, v) = a.entry(i);
                    let (l, w) = b.entry(i);
                    assert(self@->Mapping_0[i as int].1 == v@);
                    if !k.same(l) || !v.equals(w) {
                        assert(a@[i as int].0 != b@[i as int].0 || !same_value(
                            a@[i as int].1,
                            b@[i as int].1,
                        ));
                        return false;
                    }
                    i = i + 1;
                }
                true
            },
            _ => {
                assert(self@ != other@);
                false
            },
        }
    }
}

impl DynamicMessage {
    /// Whether two messages are equal: of the same type in the same pool, with
    /// equal fields. Of unknown fields only the number counts.
    pub fn equals(&self, other: &DynamicMessage) -> (r: bool)
        ensures
            r == same_message(self@, other@),
        decreases self@, 0nat,
    {
        if !is_same_pool(self.pool(), other.pool()) || self.message_index()
            != other.message_index() {
            return false;
        }
        if self.field_count() != other.field_count() || count_unknown_fields(self.unknown_fields())
            != count_unknown_fields(other.unknown_fields()) {
            return false;
        }
        let mut i: usize = 0;
        while i < self.field_count()
            invariant
                self@.pool == other@.pool,
                self@.index == other@.index,
                self@.fields.len() == other@.fields.len(),
                self@.unknown.len() == other@.unknown.len(),
                i <= self@.fields.len(),
                forall|j: int|
                    0 <= j < i ==> (#[trigger] self@.fields[j]).0 == other@.fields[j].0
                        && same_value(self@.fields[j].1, other@.fields[j].1),
            decreases self@.fields.len() - i,
        {
            let (n, v) = self.field_entry(i);
            let (k, w) = other.field_entry(i);
            assert(self@.fields[i as int].1 == v@);
            if n != k || !v.equals(w) {
                assert(self@.fields[i as int].0 != other@.fields[i as int].0 || !same_value(
                    self@.fields[i as int].1,
                    other@.fields[i as int].1,
                ));
                return false;
            }
            i = i + 1;
        }
        true
    }
}

impl PartialEq for DynamicMessage {
    fn eq(&self, other: &Self) -> (r: bool) {
        self.equals(other)
    }
}

impl vstd::std_specs::cmp::PartialEqSpecImpl for DynamicMessage {
    open spec fn obeys_eq_spec() -> bool {
        true
    }

    open spec fn eq_spec(&self, other: &Self) -> bool {
        same_message(self@, other@)
    }
}

// ── Debug output ────────────────────────────────────────────────────────────

/// The value of the set field is left out of debug output.
pub open spec fn is_redacted(m: MessageModel, number: u32) -> bool {
    field_of(m.pool, m.index, number) matches Some(fd) && fd.debug_redact
}

impl DynamicMessage {
    /// The set fields in the order of their numbers, each with its value, or
    /// with none where debug output leaves the value out.
    pub fn redacted_fields(&self) -> (r: Vec<(u32, Option<&Value>)>)
        ensures
            r@.len() == self@.fields.len(),
            forall|i: int|
                0 <= i < r@.len() ==> (#[trigger] r@[i]).0 == self@.fields[i].0 && (if is_redacted(
                    self@,
                    r@[i].0,
                ) {
                    r@[i].1 is None
                } else {
                    r@[i].1 matches Some(v) && v@ == self@.fields[i].1
                }),
    {
        let mut out: Vec<(u32, Option<&Value>)> = Vec::new();
        let mut i: usize = 0;
        while i < self.field_count()
            invariant
                i <= self@.fields.len(),
                out@.len() == i,
                forall|j: int|
                    0 <= j < i ==> (#[trigger] out@[j]).0 == self@.fields[j].0 && (if is_redacted(
                        self@,
                        out@[j].0,
                    ) {
                        out@[j].1 is None
                    } else {
                        out@[j].1 matches Some(v) && v@ == self@.fields[j].1
                    }),
            decreases self@.fields.len() - i,
        {
            let (number, value) = self.field_entry(i);
            let redact = match self.field_or_extension(number) {
                Some(fd) => fd.debug_redact,
                None => false,
            };
            if redact {
                out.push((number, None));
            } else {
                out.push((number, Some(value)));
            }
            i = i + 1;
        }
        out
    }
}

} // verus!
