//! Dynamic property values.

use vstd::prelude::*;

use crate::assoc::{first_index, has_key, lemma_first_index_at, lemma_first_index_none};
use crate::text::DeepCopy;

verus! {

/// A dynamic property value.
///
/// A floating-point number is held as its IEEE-754 binary64 bit pattern.
/// A map is held as a list of `(key, value)` pairs.
#[derive(Debug, PartialEq)]
pub enum Value {
    Null,
    Bool(bool),
    Int(i64),
    Float(u64),
    Text(String),
    List(Vec<Value>),
    Dict(Vec<(String, Value)>),
}

/// The mathematical content of a [`Value`].
pub enum ValueModel {
    Null,
    Bool(bool),
    Int(i64),
    Float(u64),
    Text(Seq<char>),
    List(Seq<ValueModel>),
    Dict(Seq<(Seq<char>, ValueModel)>),
}

impl Value {
    pub open spec fn model(self) -> ValueModel
        decreases self,
    {
        match self {
            Value::Null => ValueModel::Null,
            Value::Bool(b) => ValueModel::Bool(b),
            Value::Int(i) => ValueModel::Int(i),
            Value::Float(f) => ValueModel::Float(f),
            Value::Text(s) => ValueModel::Text(s@),
            Value::List(xs) => ValueModel::List(
                Seq::new(
                    xs@.len(),
                    |i: int|
                        if 0 <= i < xs@.len() {
                            xs@[i].model()
                        } else {
                            ValueModel::Null
                        },
                ),
            ),
            Value::Dict(ps) => ValueModel::Dict(
                Seq::new(
                    ps@.len(),
                    |i: int|
                        if 0 <= i < ps@.len() {
                            (ps@[i].0@, ps@[i].1.model())
                        } else {
                            (Seq::empty(), ValueModel::Null)
                        },
                ),
            ),
        }
    }
}

impl View for Value {
    type V = ValueModel;

    open spec fn view(&self) -> ValueModel {
        self.model()
    }
}

/// `x` is the bit pattern of a binary64 NaN.
pub open spec fn float_is_nan(x: u64) -> bool {
    &&& x & 0x7FF0_0000_0000_0000u64 == 0x7FF0_0000_0000_0000u64
    &&& x & 0x000F_FFFF_FFFF_FFFFu64 != 0
}

/// Binary64 equality on bit patterns: NaN equals nothing, and the two zeros are equal.
pub open spec fn float_eq(a: u64, b: u64) -> bool {
    &&& !float_is_nan(a)
    &&& !float_is_nan(b)
    &&& (a == b || (a & 0x7FFF_FFFF_FFFF_FFFFu64 == 0 && b & 0x7FFF_FFFF_FFFF_FFFFu64 == 0))
}

/// Equality of values: component-wise, with binary64 equality on floats, lists
/// compared element by element, and maps compared as maps: the same number of
/// pairs, and every key of the first found in the second with an equal value.
pub open spec fn value_eq(a: ValueModel, b: ValueModel) -> bool
    decreases a,
{
    match a {
        ValueModel::Null => b is Null,
        ValueModel::Bool(x) => b matches ValueModel::Bool(y) && x == y,
        ValueModel::Int(x) => b matches ValueModel::Int(y) && x == y,
        ValueModel::Float(x) => b matches ValueModel::Float(y) && float_eq(x, y),
        ValueModel::Text(x) => b matches ValueModel::Text(y) && x == y,
        ValueModel::List(xs) => match b {
            ValueModel::List(ys) => xs.len() == ys.len() && forall|i: int|
                #![trigger xs[i]]
                0 <= i < xs.len() ==> value_eq(xs[i], ys[i]),
            _ => false,
        },
        ValueModel::Dict(xs) => match b {
            ValueModel::Dict(ys) => xs.len() == ys.len() && forall|i: int|
                #![trigger xs[i]]
                0 <= i < xs.len() ==> has_key(ys, xs[i].0) && value_eq(xs[i].1, ys[first_index(ys, xs[i].0)].1),
            _ => false,
        },
    }
}

/// Binary64 equality of two bit patterns.
pub fn float_bits_eq(a: u64, b: u64) -> (r: bool)
    ensures
        r == float_eq(a, b),
{
    let a_nan = (a & 0x7FF0_0000_0000_0000u64) == 0x7FF0_0000_0000_0000u64 && (a
        & 0x000F_FFFF_FFFF_FFFFu64) != 0;
    let b_nan = (b & 0x7FF0_0000_0000_0000u64) == 0x7FF0_0000_0000_0000u64 && (b
        & 0x000F_FFFF_FFFF_FFFFu64) != 0;
    !a_nan && !b_nan && (a == b || ((a & 0x7FFF_FFFF_FFFF_FFFFu64) == 0 && (b
        & 0x7FFF_FFFF_FFFF_FFFFu64) == 0))
}

impl Value {
    /// Equality of values, as [`value_eq`] states it.
    pub fn equals(&self, other: &Value) -> (r: bool)
        ensures
            r == value_eq(self@, other@),
        decreases self,
    {
        match self {
            Value::Null => match other {
                Value::Null => true,
                _ => false,
            },
            Value::Bool(x) => match other {
                Value::Bool(y) => *x == *y,
                _ => false,
            },
            Value::Int(x) => match other {
                Value::Int(y) => *x == *y,
                _ => false,
            },
            Value::Float(x) => match other {
                Value::Float(y) => float_bits_eq(*x, *y),
                _ => false,
            },
            Value::Text(x) => match other {
                Value::Text(y) => *x == *y,
                _ => false,
            },
            Value::List(xs) => match other {
                Value::List(ys) => {
                    if xs.len() != ys.len() {
                        return false;
                    }
                    let ghost xm = self@->List_0;
                    let ghost ym = other@->List_0;
                    let mut i: usize = 0;
                    while i < xs.len()
                        invariant
                            *self == Value::List(*xs),
                            *other == Value::List(*ys),
                            xm == self@->List_0,
                            ym == other@->List_0,
                            xm.len() == xs@.len(),
                            ym.len() == ys@.len(),
                            xs@.len() == ys@.len(),
                            i <= xs@.len(),
                            forall|j: int| 0 <= j < i ==> value_eq(#[trigger] xm[j], ym[j]),
                        decreases xs@.len() - i,
                    {
                        proof {
                            assert(decreases_to!(*self => self->List_0));
                            vstd::std_specs::vec::axiom_vec_decreases_to_view(*xs);
                            assert(decreases_to!(xs@ => xs@[i as int]));
                        }
                        assert(xm[i as int] == xs@[i as int]@);
                        assert(ym[i as int] == ys@[i as int]@);
                        if !xs[i].equals(&ys[i]) {
                            return false;
                        }
                        i = i + 1;
                    }
                    true
                },
                _ => false,
            },
            Value::Dict(xs) => match other {
                Value::Dict(ys) => {
                    if xs.len() != ys.len() {
                        return false;
                    }
                    let ghost xm = self@->Dict_0;
                    let ghost ym = other@->Dict_0;
                    let mut i: usize = 0;
                    while i < xs.len()
                        invariant
                            *self == Value::Dict(*xs),
                            *other == Value::Dict(*ys),
                            xm == self@->Dict_0,
                            ym == other@->Dict_0,
                            xm.len() == xs@.len(),
                            ym.len() == ys@.len(),
                            xs@.len() == ys@.len(),
                            i <= xs@.len(),
                            forall|j: int|
                                0 <= j < i ==> has_key(ym, (#[trigger] xm[j]).0) && value_eq(
                                    xm[j].1,
                                    ym[first_index(ym, xm[j].0)].1,
                                ),
                        decreases xs@.len() - i,
                    {
                        proof {
                            assert(decreases_to!(*self => self->Dict_0));
                            vstd::std_specs::vec::axiom_vec_decreases_to_view(*xs);
                            assert(decreases_to!(xs@ => xs@[i as int]));
                            assert(decreases_to!(xs@[i as int] => xs@[i as int].1));
                        }
                        assert(xm[i as int] == (xs@[i as int].0@, xs@[i as int].1@));
                        let key = &xs[i].0;
                        let mut k: usize = 0;
                        let mut found = false;
                        while !found && k < ys.len()
                            invariant
                                *other == Value::Dict(*ys),
                                ym == other@->Dict_0,
                                ym.len() == ys@.len(),
                                k <= ys@.len(),
                                forall|m: int| 0 <= m < k ==> (#[trigger] ym[m]).0 != key@,
                                found ==> k < ys@.len() && ym[k as int].0 == key@,
                            decreases ys@.len() - k + (if found {
                                0int
                            } else {
                                1int
                            }),
                        {
                            assert(ym[k as int] == (ys@[k as int].0@, ys@[k as int].1@));
                            if crate::text::str_eq(ys[k].0.as_str(), key.as_str()) {
                                found = true;
                            } else {
                                k = k + 1;
                            }
                        }
                        if !found {
                            proof { lemma_first_index_none(ym, key@); }
                            return false;
                        }
                        assert(ym[k as int] == (ys@[k as int].0@, ys@[k as int].1@));
                        proof { lemma_first_index_at(ym, key@, k as int); }
                        if !xs[i].1.equals(&ys[k].1) {
                            return false;
                        }
                        i = i + 1;
                    }
                    true
                },
                _ => false,
            },
        }
    }

    /// A copy of this value with the same content.
    pub fn copy_value(&self) -> (r: Value)
        ensures
            r@ == self@,
        decreases self,
    {
        match self {
            Value::Null => Value::Null,
            Value::Bool(b) => Value::Bool(*b),
            Value::Int(i) => Value::Int(*i),
            Value::Float(f) => Value::Float(*f),
            Value::Text(s) => Value::Text(s.clone()),
            Value::List(xs) => {
                let mut out: Vec<Value> = Vec::new();
                let mut i: usize = 0;
                while i < xs.len()
                    invariant
                        *self == Value::List(*xs),
                        i <= xs@.len(),
                        out@.len() == i,
                        forall|j: int| 0 <= j < i ==> #[trigger] out@[j]@ == xs@[j]@,
                    decreases xs@.len() - i,
                {
                    proof {
                        assert(decreases_to!(*self => self->List_0));
                        vstd::std_specs::vec::axiom_vec_decreases_to_view(*xs);
                        assert(decreases_to!(xs@ => xs@[i as int]));
                    }
                    let c = xs[i].copy_value();
                    out.push(c);
                    i = i + 1;
                }
                let r = Value::List(out);
                assert forall|j: int| 0 <= j < xs@.len() implies r@->List_0[j] == self@->List_0[j] by {
                    assert(r@->List_0[j] == out@[j]@);
                    assert(self@->List_0[j] == xs@[j]@);
                }
                assert(r@->List_0 =~= self@->List_0);
                r
            },
            Value::Dict(xs) => {
                let mut out: Vec<(String, Value)> = Vec::new();
                let mut i: usize = 0;
                while i < xs.len()
                    invariant
                        *self == Value::Dict(*xs),
                        i <= xs@.len(),
                        out@.len() == i,
                        forall|j: int|
                            0 <= j < i ==> #[trigger] out@[j].0@ == xs@[j].0@ && out@[j].1@
                                == xs@[j].1@,
                    decreases xs@.len() - i,
                {
                    proof {
                        assert(decreases_to!(*self => self->Dict_0));
                        vstd::std_specs::vec::axiom_vec_decreases_to_view(*xs);
                        assert(decreases_to!(xs@ => xs@[i as int]));
                        assert(decreases_to!(xs@[i as int] => xs@[i as int].1));
                    }
                    let k = xs[i].0.clone();
                    let c = xs[i].1.copy_value();
                    out.push((k, c));
                    i = i + 1;
                }
                let r = Value::Dict(out);
                assert forall|j: int| 0 <= j < xs@.len() implies r@->Dict_0[j] == self@->Dict_0[j] by {
                    assert(r@->Dict_0[j] == (out@[j].0@, out@[j].1@));
                    assert(self@->Dict_0[j] == (xs@[j].0@, xs@[j].1@));
                }
                assert(r@->Dict_0 =~= self@->Dict_0);
                r
            },
        }
    }
}

impl Clone for Value {
    fn clone(&self) -> (r: Value)
        ensures
            r@ == self@,
    {
        self.copy_value()
    }
}

impl DeepCopy for Value {
    fn deep_copy(&self) -> (r: Value) {
        self.copy_value()
    }
}

} // verus!
