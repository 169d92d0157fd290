//! Records: the values that a record definition describes, with their
//! constructor, their accessors and the two tiers of validation.
//!
//! A record holds one value for each field of its definition, in declaration
//! order. Constraints are written in the definition as text; what a constraint
//! means is decided by a rule set, a function from the text of a constraint
//! and a candidate value to a verdict.

use crate::schema::{
    FieldSpec, FieldSpecView, FieldType, FieldTypeView, RecordSpec, RecordSpecView,
};
use std::marker::PhantomData;
use vstd::prelude::*;

verus! {

/// What a field holds: a scalar, or a record of its own.
#[derive(Debug, PartialEq, Eq)]
pub enum Value<V> {
    Scalar(V),
    Nested(Record<V>),
}

/// A record: one value for each field, in declaration order.
#[derive(Debug, PartialEq, Eq)]
pub struct Record<V> {
    pub fields: Vec<Value<V>>,
}

/// The mathematical content of a [`Value`].
pub enum ValueView<V> {
    Scalar(V),
    Nested(RecordView<V>),
}

/// The mathematical content of a [`Record`].
pub struct RecordView<V> {
    pub fields: Seq<ValueView<V>>,
}

impl<V> Value<V> {
    /// What this value holds.
    pub open spec fn view(&self) -> ValueView<V>
        decreases self,
    {
        match self {
            Value::Scalar(scalar) => ValueView::Scalar(*scalar),
            Value::Nested(record) => ValueView::Nested(record@),
        }
    }
}

impl<V> Record<V> {
    /// What this record holds.
    pub open spec fn view(&self) -> RecordView<V>
        decreases self,
    {
        RecordView {
            fields: Seq::new(
                self.fields@.len(),
                |i: int|
                    if 0 <= i < self.fields@.len() {
                        self.fields@[i]@
                    } else {
                        arbitrary()
                    },
            ),
        }
    }
}

/// The contents of a list of values, in order.
pub open spec fn value_views<V>(values: Seq<Value<V>>) -> Seq<ValueView<V>> {
    Seq::new(values.len(), |i: int| values[i]@)
}

/// A record holds what its list of values holds.
pub proof fn lemma_record_view<V>(record: &Record<V>)
    ensures
        record@.fields == value_views(record.fields@),
{
    assert(record@.fields =~= value_views(record.fields@));
}

impl FieldTypeView {
    /// Whether `value` has the shape of this type: a scalar for a scalar
    /// type, for a nested type a record that its definition admits.
    pub open spec fn fits<V>(self, value: ValueView<V>) -> bool
        decreases self,
    {
        match self {
            FieldTypeView::Scalar(_) => value is Scalar,
            FieldTypeView::Nested(spec) => value is Nested && spec.admits(value->Nested_0),
        }
    }
}

impl RecordSpecView {
    /// Whether `record` has the shape of this definition: one value for each
    /// field, each of the shape of its field's type.
    pub open spec fn admits<V>(self, record: RecordView<V>) -> bool
        decreases self,
    {
        &&& record.fields.len() == self.fields.len()
        &&& forall|i: int|
            0 <= i < self.fields.len() ==> (#[trigger] self.fields[i]).ty.fits(record.fields[i])
    }
}

/// A rule set: what the constraints written in a definition mean.
///
/// A constraint is known to a definition only by its text. A rule set says of
/// each such text and each candidate value whether the constraint holds.
pub trait Rules<V> {
    /// Whether the constraint written as `constraint` holds of `candidate`.
    spec fn holds(&self, constraint: Seq<char>, candidate: ValueView<V>) -> bool;

    /// Decides whether the constraint written as `constraint` holds of `candidate`.
    fn decide(&self, constraint: &str, candidate: &Value<V>) -> (verdict: bool)
        ensures
            verdict == self.holds(constraint@, candidate@),
    ;
}

/// The rule set under which every constraint holds of every value.
pub struct Unconstrained;

impl<V> Rules<V> for Unconstrained {
    open spec fn holds(&self, constraint: Seq<char>, candidate: ValueView<V>) -> bool {
        true
    }

    fn decide(&self, constraint: &str, candidate: &Value<V>) -> (verdict: bool) {
        true
    }
}

/// Whether `decide` can serve as a rule set: it can be asked about every
/// constraint and every candidate, and its verdict depends on nothing but
/// their contents.
pub open spec fn is_rule_set<V, F: Fn(&str, &Value<V>) -> bool>(decide: &F) -> bool {
    &&& forall|constraint: &str, candidate: &Value<V>| #[trigger]
        call_requires(*decide, (constraint, candidate))
    &&& forall|c1: &str, v1: &Value<V>, r1: bool, c2: &str, v2: &Value<V>, r2: bool|
        c1@ == c2@ && v1@ == v2@ && #[trigger] call_ensures(*decide, (c1, v1), r1)
            && #[trigger] call_ensures(*decide, (c2, v2), r2) ==> r1 == r2
}

/// The rule set that a function decides: a constraint holds of a candidate
/// where the function says so.
pub struct FnRules<V, F: Fn(&str, &Value<V>) -> bool> {
    decide: F,
    scalar: PhantomData<V>,
}

impl<V, F: Fn(&str, &Value<V>) -> bool> FnRules<V, F> {
    #[verifier::type_invariant]
    spec fn decides(&self) -> bool {
        is_rule_set(&self.decide)
    }

    /// The function that decides.
    pub closed spec fn decider(&self) -> F {
        self.decide
    }

    /// The rule set that `decide` decides.
    pub fn new(decide: F) -> (rules: Self)
        requires
            is_rule_set(&decide),
        ensures
            rules.decider() == decide,
    {
        FnRules { decide, scalar: PhantomData }
    }
}

impl<V, F: Fn(&str, &Value<V>) -> bool> Rules<V> for FnRules<V, F> {
    open spec fn holds(&self, constraint: Seq<char>, candidate: ValueView<V>) -> bool {
        exists|c: &str, v: &Value<V>|
            c@ == constraint && v@ == candidate && #[trigger] call_ensures(
                self.decider(),
                (c, v),
                true,
            )
    }

    fn decide(&self, constraint: &str, candidate: &Value<V>) -> (verdict: bool) {
        proof {
            use_type_invariant(self);
        }
        let verdict = (self.decide)(constraint, candidate);
        proof {
            assert(call_ensures(self.decider(), (constraint, candidate), verdict));
            if !verdict {
                assert forall|c: &str, v: &Value<V>|
                    c@ == constraint@ && v@ == candidate@ implies !#[trigger] call_ensures(
                    self.decider(),
                    (c, v),
                    true,
                ) by {
                    if call_ensures(self.decider(), (c, v), true) {
                        assert(call_ensures(self.decide, (constraint, candidate), verdict));
                    }
                }
            }
        }
        verdict
    }
}

impl FieldSpecView {
    /// Local validity: the constraint of this field, if it has one, holds of
    /// `candidate`.
    pub open spec fn accepts<V, R: Rules<V>>(
        self,
        rules: &R,
        candidate: ValueView<V>,
    ) -> bool {
        match self.constraint {
            Some(constraint) => rules.holds(constraint, candidate),
            None => true,
        }
    }

    /// Recursive validity: local validity, and for a nested field also the
    /// recursive validity of the candidate record.
    pub open spec fn accepts_rec<V, R: Rules<V>>(
        self,
        rules: &R,
        candidate: ValueView<V>,
    ) -> bool
        decreases self,
    {
        &&& self.accepts(rules, candidate)
        &&& match self.ty {
            FieldTypeView::Scalar(_) => true,
            FieldTypeView::Nested(spec) => candidate is Nested && spec.valid_rec(
                rules,
                candidate->Nested_0,
            ),
        }
    }
}

impl RecordSpecView {
    /// Local validity of a record: every field accepts the value it holds.
    /// Nested records are not looked into.
    pub open spec fn valid<V, R: Rules<V>>(
        self,
        rules: &R,
        record: RecordView<V>,
    ) -> bool {
        forall|i: int|
            0 <= i < self.fields.len() ==> (#[trigger] self.fields[i]).accepts(
                rules,
                record.fields[i],
            )
    }

    /// Recursive validity of a record: every field accepts the value it
    /// holds, and every nested record is recursively valid in turn.
    pub open spec fn valid_rec<V, R: Rules<V>>(
        self,
        rules: &R,
        record: RecordView<V>,
    ) -> bool
        decreases self,
    {
        forall|i: int|
            0 <= i < self.fields.len() ==> (#[trigger] self.fields[i]).accepts_rec(
                rules,
                record.fields[i],
            )
    }
}

/// Recursive validity, spelled out: a record is recursively valid if and
/// only if every field accepts the value it holds and every nested record is
/// recursively valid itself.
pub proof fn lemma_valid_rec<V, R: Rules<V>>(spec: RecordSpecView, rules: &R, record: RecordView<V>)
    requires
        spec.admits(record),
    ensures
        spec.valid_rec(rules, record) <==> spec.valid(rules, record) && forall|i: int|
            0 <= i < spec.fields.len() && (#[trigger] spec.fields[i]).ty is Nested
                ==> spec.fields[i].ty->Nested_0.valid_rec(rules, record.fields[i]->Nested_0),
{
    if spec.valid_rec(rules, record) {
        assert forall|i: int| 0 <= i < spec.fields.len() implies (#[trigger] spec.fields[i]).accepts(
            rules,
            record.fields[i],
        ) by {
            assert(spec.fields[i].accepts_rec(rules, record.fields[i]));
        }
        assert forall|i: int|
            0 <= i < spec.fields.len() && (#[trigger] spec.fields[i]).ty is Nested implies spec.fields[i].ty->Nested_0.valid_rec(
            rules,
            record.fields[i]->Nested_0,
        ) by {
            assert(spec.fields[i].accepts_rec(rules, record.fields[i]));
        }
    }
    if spec.valid(rules, record) && forall|i: int|
        0 <= i < spec.fields.len() && (#[trigger] spec.fields[i]).ty is Nested
            ==> spec.fields[i].ty->Nested_0.valid_rec(rules, record.fields[i]->Nested_0) {
        assert forall|i: int| 0 <= i < spec.fields.len() implies (
        #[trigger] spec.fields[i]).accepts_rec(rules, record.fields[i]) by {
            assert(spec.fields[i].accepts(rules, record.fields[i]));
            assert(spec.fields[i].ty.fits(record.fields[i]));
        }
    }
}

/// What the views say about the lists behind them: a record that its
/// definition admits has as many values as the definition has fields, and
/// value and field `i` of the views are the views of value and field `i`.
pub proof fn lemma_admitted_shape<V>(spec: &RecordSpec, record: &Record<V>)
    requires
        spec@.admits(record@),
    ensures
        record.fields@.len() == spec.fields@.len(),
        spec@.fields.len() == spec.fields@.len(),
        record@.fields.len() == record.fields@.len(),
        forall|i: int| 0 <= i < spec.fields@.len() ==> #[trigger] spec.fields@[i]@ == spec@.fields[i],
        forall|i: int|
            0 <= i < record.fields@.len() ==> #[trigger] record.fields@[i]@ == record@.fields[i],
{
}

impl FieldType {
    /// Whether `value` has the shape of this type.
    pub fn fits<V>(&self, value: &Value<V>) -> (ok: bool)
        ensures
            ok == self@.fits(value@),
        decreases self,
    {
        match self {
            FieldType::Scalar(_) => match value {
                Value::Scalar(_) => true,
                Value::Nested(_) => false,
            },
            FieldType::Nested(spec) => match value {
                Value::Scalar(_) => false,
                Value::Nested(record) => spec.admits(record),
            },
        }
    }
}

impl RecordSpec {
    /// Whether `values` holds one value for each field, each of the shape of
    /// its field's type.
    pub fn admits_values<V>(&self, values: &Vec<Value<V>>) -> (ok: bool)
        ensures
            ok == self@.admits(RecordView { fields: value_views(values@) }),
        decreases self, 0nat,
    {
        if values.len() != self.fields.len() {
            return false;
        }
        let mut i: usize = 0;
        while i < self.fields.len()
            invariant
                i <= self.fields.len(),
                values.len() == self.fields.len(),
                forall|j: int|
                    0 <= j < i ==> (#[trigger] self@.fields[j]).ty.fits(value_views(values@)[j]),
            decreases self.fields.len() - i,
        {
            assert(self.fields@[i as int]@ == self@.fields[i as int]);
            if !self.fields[i].ty.fits(&values[i]) {
                return false;
            }
            i += 1;
        }
        true
    }

    /// Whether `record` has the shape of this definition.
    pub fn admits<V>(&self, record: &Record<V>) -> (ok: bool)
        ensures
            ok == self@.admits(record@),
        decreases self, 1nat,
    {
        proof {
            lemma_record_view(record);
        }
        self.admits_values(&record.fields)
    }
}

impl FieldSpec {
    /// The local validation of this field: the verdict of its constraint on
    /// `candidate`. A field without a constraint has no local validation.
    pub fn validate<V, R: Rules<V>>(
        &self,
        candidate: &Value<V>,
        rules: &R,
    ) -> (verdict: Option<bool>)
        requires
        ensures
            self@.constraint is Some <==> verdict is Some,
            verdict is Some ==> verdict->0 == self@.accepts(rules, candidate@),
    {
        match &self.constraint {
            Some(constraint) => Some(rules.decide(constraint.as_str(), candidate)),
            None => None,
        }
    }

    /// Whether this field accepts `candidate`: the verdict of its constraint,
    /// and true where it has none.
    pub fn accepts<V, R: Rules<V>>(
        &self,
        candidate: &Value<V>,
        rules: &R,
    ) -> (ok: bool)
        requires
        ensures
            ok == self@.accepts(rules, candidate@),
    {
        match self.validate(candidate, rules) {
            Some(verdict) => verdict,
            None => true,
        }
    }

    /// The recursive validation of this field: for a nested field, the
    /// recursive validity of the candidate record together with the constraint
    /// of the field, if it has one; for a scalar field, its constraint, and
    /// true where it has none.
    pub fn validate_rec<V, R: Rules<V>>(
        &self,
        candidate: &Value<V>,
        rules: &R,
    ) -> (ok: bool)
        requires
            self@.ty.fits(candidate@),
        ensures
            ok == self@.accepts_rec(rules, candidate@),
        decreases self,
    {
        match &self.ty {
            FieldType::Nested(spec) => match candidate {
                Value::Nested(record) => record.validate_rec(spec, rules) && self.accepts(
                    candidate,
                    rules,
                ),
                Value::Scalar(_) => false,
            },
            FieldType::Scalar(_) => self.accepts(candidate, rules),
        }
    }
}

impl<V> Record<V> {
    /// Builds the record that holds `values` and checks its local validity.
    /// A record that is not valid is handed back all the same, as the error.
    pub fn new<R: Rules<V>>(
        spec: &RecordSpec,
        values: Vec<Value<V>>,
        rules: &R,
    ) -> (made: Result<Record<V>, Record<V>>)
        requires
            spec@.admits(RecordView { fields: value_views(values@) }),
        ensures
            match made {
                Ok(record) => record.fields == values && spec@.valid(rules, record@),
                Err(record) => record.fields == values && !spec@.valid(rules, record@),
            },
    {
        let constructed = Record { fields: values };
        proof {
            lemma_record_view(&constructed);
        }
        if constructed.validate(spec, rules) {
            Ok(constructed)
        } else {
            Err(constructed)
        }
    }

    /// The value of field `index`.
    pub fn field(&self, index: usize) -> (value: &Value<V>)
        requires
            index < self.fields.len(),
        ensures
            *value == self.fields@[index as int],
    {
        &self.fields[index]
    }

    /// Local validity: whether every field accepts the value it holds.
    pub fn validate<R: Rules<V>>(&self, spec: &RecordSpec, rules: &R) -> (ok:
        bool)
        requires
            spec@.admits(self@),
        ensures
            ok == spec@.valid(rules, self@),
    {
        proof {
            lemma_admitted_shape(spec, self);
        }
        let mut i: usize = 0;
        while i < spec.fields.len()
            invariant
                i <= spec.fields.len(),
                    spec@.admits(self@),
                self.fields@.len() == spec.fields@.len(),
                forall|j: int|
                    0 <= j < i ==> (#[trigger] spec@.fields[j]).accepts(rules, self@.fields[j]),
            decreases spec.fields.len() - i,
        {
            proof {
                lemma_admitted_shape(spec, self);
            }
            if !spec.fields[i].accepts(&self.fields[i], rules) {
                return false;
            }
            i += 1;
        }
        true
    }

    /// Recursive validity: whether every field accepts the value it holds
    /// and every nested record is recursively valid.
    pub fn validate_rec<R: Rules<V>>(
        &self,
        spec: &RecordSpec,
        rules: &R,
    ) -> (ok: bool)
        requires
            spec@.admits(self@),
        ensures
            ok == spec@.valid_rec(rules, self@),
        decreases spec,
    {
        proof {
            lemma_admitted_shape(spec, self);
        }
        let mut i: usize = 0;
        while i < spec.fields.len()
            invariant
                i <= spec.fields.len(),
                    spec@.admits(self@),
                self.fields@.len() == spec.fields@.len(),
                forall|j: int|
                    0 <= j < i ==> (#[trigger] spec@.fields[j]).accepts_rec(
                        rules,
                        self@.fields[j],
                    ),
            decreases spec.fields.len() - i,
        {
            proof {
                lemma_admitted_shape(spec, self);
            }
            if !spec.fields[i].validate_rec(&self.fields[i], rules) {
                return false;
            }
            i += 1;
        }
        true
    }

    /// Stores `value` in field `index` if the field accepts it, and hands
    /// back the value that was there. A value that the field does not accept
    /// comes back as the error, and the record stays as it was.
    pub fn set<R: Rules<V>>(
        &mut self,
        spec: &RecordSpec,
        index: usize,
        value: Value<V>,
        rules: &R,
    ) -> (outcome: Result<Value<V>, Value<V>>)
        requires
            spec@.admits(old(self)@),
            index < spec.fields.len(),
            spec@.fields[index as int].ty.fits(value@),
        ensures
            spec@.admits(final(self)@),
            spec@.fields[index as int].accepts(rules, value@) ==> outcome == Ok::<
                Value<V>,
                Value<V>,
            >(old(self).fields@[index as int]) && final(self).fields@ == old(self).fields@.update(
                index as int,
                value,
            ),
            !spec@.fields[index as int].accepts(rules, value@) ==> outcome == Err::<
                Value<V>,
                Value<V>,
            >(value) && *final(self) == *old(self),
    {
        proof {
            lemma_admitted_shape(spec, self);
        }
        if spec.fields[index].accepts(&value, rules) {
            let mut value = value;
            std::mem::swap(&mut self.fields[index], &mut value);
            proof {
                assert(self@.fields =~= old(self)@.fields.update(
                    index as int,
                    self.fields@[index as int]@,
                ));
                assert forall|i: int| 0 <= i < spec@.fields.len() implies (
                #[trigger] spec@.fields[i]).ty.fits(self@.fields[i]) by {
                    if i != index {
                        assert(self@.fields[i] == old(self)@.fields[i]);
                    }
                }
            }
            Ok(value)
        } else {
            Err(value)
        }
    }
}

} // verus!
