//! The set of shapes taken by a collection of json records: which primitive
//! kinds each field has held, recursively through nested objects.

use vstd::prelude::*;
use crate::assoc::{key_index, has_key, value_of, lemma_key_index, lemma_key_present};

verus! {

/// The primitive shapes a json value can take.
#[derive(Debug, Hash, PartialEq, Eq, Structural, Clone, Copy)]
pub enum ValueType {
    Null,
    Bool,
    Number,
    Str,
}

/// A json value, reduced to what the shape analysis reads: the kind of a
/// primitive, and the named fields of an object.
#[derive(Debug)]
pub enum JsonValue {
    Null,
    Bool,
    Number,
    Str,
    Array(Vec<JsonValue>),
    Object(Vec<(String, JsonValue)>),
}

/// The mathematical value of a `JsonValue`.
pub ghost enum JsonModel {
    Null,
    Bool,
    Number,
    Str,
    Array(Seq<JsonModel>),
    Object(Seq<(Seq<char>, JsonModel)>),
}

impl JsonValue {
    pub open spec fn model(self) -> JsonModel
        decreases self,
        via Self::model_decreases
    {
        match self {
            JsonValue::Null => JsonModel::Null,
            JsonValue::Bool => JsonModel::Bool,
            JsonValue::Number => JsonModel::Number,
            JsonValue::Str => JsonModel::Str,
            JsonValue::Array(items) => JsonModel::Array(
                Seq::new(
                    items@.len(),
                    |i: int|
                        if 0 <= i < items@.len() {
                            items@[i].model()
                        } else {
                            JsonModel::Null
                        },
                ),
            ),
            JsonValue::Object(fields) => JsonModel::Object(
                Seq::new(
                    fields@.len(),
                    |i: int|
                        if 0 <= i < fields@.len() {
                            (fields@[i].0@, fields@[i].1.model())
                        } else {
                            (Seq::<char>::empty(), JsonModel::Null)
                        },
                ),
            ),
        }
    }

    #[via_fn]
    proof fn model_decreases(self) {
        broadcast use vstd::seq::axiom_seq_index_decreases;

        match self {
            JsonValue::Array(items) => {
                assert forall|i: int| 0 <= i < items@.len() implies decreases_to!(
                    self => items@[i]
                ) by {
                    assert(decreases_to!(self => items));
                    assert(decreases_to!(items => items@));
                    assert(decreases_to!(items@ => items@[i]));
                }
            },
            JsonValue::Object(fields) => {
                assert forall|i: int| 0 <= i < fields@.len() implies decreases_to!(
                    self => fields@[i].1
                ) by {
                    assert(decreases_to!(self => fields));
                    assert(decreases_to!(fields => fields@));
                    assert(decreases_to!(fields@ => fields@[i]));
                    assert(decreases_to!(fields@[i] => fields@[i].1));
                }
            },
            _ => {},
        }
    }
}

/// No array anywhere in the value: the shape analysis does not handle
/// arrays.
pub open spec fn no_arrays(v: JsonModel) -> bool
    decreases v,
    via no_arrays_decreases
{
    match v {
        JsonModel::Array(_) => false,
        JsonModel::Object(fs) => forall|i: int|
            0 <= i < fs.len() ==> no_arrays((#[trigger] fs[i]).1),
        _ => true,
    }
}

#[via_fn]
proof fn no_arrays_decreases(v: JsonModel) {
    broadcast use vstd::seq::axiom_seq_index_decreases;

    match v {
        JsonModel::Object(fs) => {
            assert forall|i: int| 0 <= i < fs.len() implies decreases_to!(v => fs[i].1) by {
                assert(decreases_to!(v => fs));
                assert(decreases_to!(fs => fs[i]));
                assert(decreases_to!(fs[i] => fs[i].1));
            }
        },
        _ => {},
    }
}

/// The shapes a collection of json values has taken.
#[derive(Debug)]
pub struct PossibleTypes {
    possible_primitive_types: Vec<ValueType>,
    possible_fields: Vec<(String, PossibleTypes)>,
}

/// The mathematical value of a `PossibleTypes`.
pub ghost struct PTModel {
    pub prims: Seq<ValueType>,
    pub fields: Seq<(Seq<char>, PTModel)>,
}

impl PossibleTypes {
    /// The abstract value of the shape table; its definition is internal
    /// because the fields are.
    pub closed spec fn model(self) -> PTModel
        decreases self,
        via Self::model_decreases
    {
        PTModel {
            prims: self.possible_primitive_types@,
            fields: Seq::new(
                self.possible_fields@.len(),
                |i: int|
                    if 0 <= i < self.possible_fields@.len() {
                        (self.possible_fields@[i].0@, self.possible_fields@[i].1.model())
                    } else {
                        (Seq::<char>::empty(), empty_pt())
                    },
            ),
        }
    }

    #[via_fn]
    proof fn model_decreases(self) {
        broadcast use vstd::seq::axiom_seq_index_decreases;

        assert forall|i: int| 0 <= i < self.possible_fields@.len() implies decreases_to!(
            self => self.possible_fields@[i].1
        ) by {
            assert(decreases_to!(self => self.possible_fields));
            assert(decreases_to!(self.possible_fields => self.possible_fields@));
            assert(decreases_to!(self.possible_fields@ => self.possible_fields@[i]));
            assert(decreases_to!(self.possible_fields@[i] => self.possible_fields@[i].1));
        }
    }
}

pub open spec fn empty_pt() -> PTModel {
    PTModel { prims: Seq::empty(), fields: Seq::empty() }
}

/// Record a primitive shape, once.
pub open spec fn insert_prim(prims: Seq<ValueType>, t: ValueType) -> Seq<ValueType> {
    if prims.contains(t) {
        prims
    } else {
        prims.push(t)
    }
}

/// Record `Null` at the top of a shape: what a field absent from one record
/// learns.
pub open spec fn with_null(m: PTModel) -> PTModel {
    PTModel { prims: insert_prim(m.prims, ValueType::Null), ..m }
}

/// Record the shape of one json value.  A primitive adds its kind; an
/// object first marks every known field that the object lacks as possibly
/// `Null`, then folds each of its fields in order, creating fresh field
/// entries as needed.
pub open spec fn add_shape(m: PTModel, v: JsonModel) -> PTModel
    decreases v, 0int,
    via add_shape_decreases
{
    match v {
        JsonModel::Null => PTModel { prims: insert_prim(m.prims, ValueType::Null), ..m },
        JsonModel::Bool => PTModel { prims: insert_prim(m.prims, ValueType::Bool), ..m },
        JsonModel::Number => PTModel { prims: insert_prim(m.prims, ValueType::Number), ..m },
        JsonModel::Str => PTModel { prims: insert_prim(m.prims, ValueType::Str), ..m },
        JsonModel::Array(_) => m,
        JsonModel::Object(fs) => {
            let padded = Seq::new(
                m.fields.len(),
                |i: int|
                    if has_key(fs, m.fields[i].0) {
                        m.fields[i]
                    } else {
                        (m.fields[i].0, with_null(m.fields[i].1))
                    },
            );
            PTModel { prims: m.prims, fields: add_shape_fields(padded, fs, 0) }
        },
    }
}

/// Fold the object fields `fs[j..]` into the field table.
pub open spec fn add_shape_fields(
    flds: Seq<(Seq<char>, PTModel)>,
    fs: Seq<(Seq<char>, JsonModel)>,
    j: int,
) -> Seq<(Seq<char>, PTModel)>
    decreases fs, fs.len() - j,
    via add_shape_fields_decreases
{
    if j < 0 || j >= fs.len() {
        flds
    } else {
        let k = fs[j].0;
        let jv = fs[j].1;
        let flds2 = if has_key(flds, k) {
            flds.update(key_index(flds, k), (k, add_shape(value_of(flds, k), jv)))
        } else {
            flds.push((k, add_shape(empty_pt(), jv)))
        };
        add_shape_fields(flds2, fs, j + 1)
    }
}

#[via_fn]
proof fn add_shape_decreases(m: PTModel, v: JsonModel) {
    match v {
        JsonModel::Object(fs) => {
            assert(decreases_to!(v => fs));
        },
        _ => {},
    }
}

#[via_fn]
proof fn add_shape_fields_decreases(
    flds: Seq<(Seq<char>, PTModel)>,
    fs: Seq<(Seq<char>, JsonModel)>,
    j: int,
) {
    broadcast use vstd::seq::axiom_seq_index_decreases;

    if 0 <= j < fs.len() {
        assert(decreases_to!(fs => fs[j]));
        assert(decreases_to!(fs[j] => fs[j].1));
    }
}

/// Whether a shape list already holds the given kind.
fn contains_value_type(v: &Vec<ValueType>, t: ValueType) -> (r: bool)
    ensures
        r == v@.contains(t),
{
    let n = v.len();
    for i in 0..n
        invariant
            n == v@.len(),
            forall|j: int| 0 <= j < i ==> (#[trigger] v@[j]) != t,
    {
        if v[i] == t {
            assert(v@[i as int] == t);
            return true;
        }
    }
    proof {
        if v@.contains(t) {
            let i = choose|i: int| 0 <= i < v@.len() && v@[i] == t;
            assert(v@[i] != t);
        }
    }
    false
}

/// Whether an object value carries the given field name.
fn object_has_field(fields: &Vec<(String, JsonValue)>, name: &String) -> (r: bool)
    ensures
        r == has_key(
            JsonValue::Object(*fields).model()->Object_0,
            name@,
        ),
{
    let ghost fm = JsonValue::Object(*fields).model()->Object_0;
    let n = fields.len();
    proof {
        assert(fm.len() == fields@.len());
    }
    for i in 0..n
        invariant
            n == fields@.len(),
            fm == JsonValue::Object(*fields).model()->Object_0,
            forall|j: int| 0 <= j < i ==> (#[trigger] fm[j]).0 != name@,
    {
        assert(fm[i as int].0 == fields@[i as int].0@);
        if fields[i].0 == *name {
            proof {
                lemma_key_present(fm, i as int);
            }
            return true;
        }
    }
    proof {
        lemma_key_index(fm, name@);
        if has_key(fm, name@) {
            assert(fm[key_index(fm, name@)].0 != name@);
        }
    }
    false
}

impl PossibleTypes {
    /// A fresh, empty set of shapes.
    pub fn new() -> (r: PossibleTypes)
        ensures
            r.model() == empty_pt(),
    {
        let r = PossibleTypes { possible_primitive_types: Vec::new(), possible_fields: Vec::new() };
        proof {
            assert(r.model().prims =~= empty_pt().prims);
            assert(r.model().fields =~= empty_pt().fields);
        }
        r
    }

    /// The primitive shapes seen so far, in first-sight order.
    pub fn primitive_types(&self) -> (r: &Vec<ValueType>)
        ensures
            r@ == self.model().prims,
    {
        &self.possible_primitive_types
    }

    /// The shapes recorded for a field name, if the name was ever seen.
    pub fn field_types(&self, name: &String) -> (r: Option<&PossibleTypes>)
        ensures
            match r {
                Some(pt) => has_key(self.model().fields, name@) && pt.model() == value_of(
                    self.model().fields,
                    name@,
                ),
                None => !has_key(self.model().fields, name@),
            },
    {
        let ghost fm = self.model().fields;
        let n = self.possible_fields.len();
        proof {
            assert(fm.len() == self.possible_fields@.len());
        }
        for i in 0..n
            invariant
                n == self.possible_fields@.len(),
                fm == self.model().fields,
                forall|j: int| 0 <= j < i ==> (#[trigger] fm[j]).0 != name@,
        {
            assert(fm[i as int] == (
                self.possible_fields@[i as int].0@,
                self.possible_fields@[i as int].1.model(),
            ));
            if self.possible_fields[i].0 == *name {
                proof {
                    lemma_key_present(fm, i as int);
                    lemma_key_index(fm, name@);
                    if key_index(fm, name@) > i as int {
                        assert(fm[i as int].0 != name@);
                    }
                }
                return Some(&self.possible_fields[i].1);
            }
        }
        proof {
            lemma_key_index(fm, name@);
            if has_key(fm, name@) {
                assert(fm[key_index(fm, name@)].0 != name@);
            }
        }
        None
    }

    /// Record one primitive kind.
    fn add_prim(&mut self, t: ValueType)
        ensures
            final(self).model() == (PTModel {
                prims: insert_prim(old(self).model().prims, t),
                ..old(self).model()
            }),
    {
        let ghost m0 = self.model();
        if !contains_value_type(&self.possible_primitive_types, t) {
            self.possible_primitive_types.push(t);
        }
        proof {
            assert(self.model().fields =~= m0.fields);
            if m0.prims.contains(t) {
                assert(self.model().prims =~= insert_prim(m0.prims, t));
            } else {
                assert(self.model().prims =~= insert_prim(m0.prims, t));
            }
        }
    }

    /// Record the shape of one json value.  Arrays are not handled: the
    /// value must be free of them.
    #[verifier::loop_isolation(false)]
    pub fn add_type(&mut self, val: &JsonValue)
        requires
            no_arrays(val.model()),
        ensures
            final(self).model() == add_shape(old(self).model(), val.model()),
        decreases *val,
    {
        match val {
            JsonValue::Null => {
                self.add_prim(ValueType::Null);
            },
            JsonValue::Bool => {
                self.add_prim(ValueType::Bool);
            },
            JsonValue::Number => {
                self.add_prim(ValueType::Number);
            },
            JsonValue::Str => {
                self.add_prim(ValueType::Str);
            },
            JsonValue::Array(_) => {
                proof {
                    assert(false);
                }
            },
            JsonValue::Object(fields) => {
                let ghost m0 = self.model();
                let ghost fs = val.model()->Object_0;
                let ghost padded = Seq::new(
                    m0.fields.len(),
                    |i: int|
                        if has_key(fs, m0.fields[i].0) {
                            m0.fields[i]
                        } else {
                            (m0.fields[i].0, with_null(m0.fields[i].1))
                        },
                );
                // mark every known field absent from this object as possibly null
                let pn = self.possible_fields.len();
                for i in 0..pn
                    invariant
                        pn == self.possible_fields@.len(),
                        self.possible_primitive_types@ == old(self).possible_primitive_types@,
                        self.model().fields.len() == m0.fields.len(),
                        forall|t: int| 0 <= t < i ==> (#[trigger] self.model().fields[t])
                            == padded[t],
                        forall|t: int| i <= t < m0.fields.len() ==> (
                        #[trigger] self.model().fields[t]) == m0.fields[t],
                {
                    let ghost before = self.model().fields;
                    let absent = !object_has_field(fields, &self.possible_fields[i].0);
                    proof {
                        assert(self.model().fields[i as int] == (
                            self.possible_fields@[i as int].0@,
                            self.possible_fields@[i as int].1.model(),
                        ));
                        assert(self.model().fields[i as int] == m0.fields[i as int]);
                        assert(m0.fields[i as int].0 == self.possible_fields@[i as int].0@);
                    }
                    if absent {
                        let ghost inner0 = self.possible_fields@[i as int].1.model();
                        if !contains_value_type(
                            &self.possible_fields[i].1.possible_primitive_types,
                            ValueType::Null,
                        ) {
                            self.possible_fields[i].1.possible_primitive_types.push(
                                ValueType::Null,
                            );
                        }
                        proof {
                            let inner1 = self.possible_fields@[i as int].1.model();
                            assert(inner1.fields =~= inner0.fields);
                            assert(inner1.prims =~= insert_prim(inner0.prims, ValueType::Null));
                            assert(inner1 == with_null(inner0));
                            assert forall|t: int| 0 <= t < m0.fields.len() implies (
                            #[trigger] self.model().fields[t]) == (if t == i as int {
                                (m0.fields[t].0, with_null(m0.fields[t].1))
                            } else {
                                before[t]
                            }) by {
                                assert(self.model().fields[t] == (
                                    self.possible_fields@[t].0@,
                                    self.possible_fields@[t].1.model(),
                                ));
                            }
                        }
                    }
                }
                proof {
                    assert(self.model().fields =~= padded);
                    assert(self.model().prims == m0.prims);
                    assert(self.model() == (PTModel { prims: m0.prims, fields: padded }));
                }
                // fold the object's own fields, in order
                let fl = fields.len();
                proof {
                    assert(fs.len() == fields@.len());
                }
                for j in 0..fl
                    invariant
                        fl == fields@.len(),
                        no_arrays(val.model()),
                        fs == val.model()->Object_0,
                        add_shape_fields(self.model().fields, fs, j as int) == add_shape_fields(
                            padded,
                            fs,
                            0,
                        ),
                        self.model().prims == m0.prims,
                {
                    let ghost cur = self.model().fields;
                    proof {
                        assert(fs == Seq::new(
                            fields@.len(),
                            |i: int| (fields@[i].0@, fields@[i].1.model()),
                        ));
                        assert(fs[j as int] == (fields@[j as int].0@, fields@[j as int].1.model()));
                        assert(no_arrays(fs[j as int].1));
                    }
                    let pn2 = self.possible_fields.len();
                    let mut s: usize = 0;
                    while s < pn2 && !(self.possible_fields[s].0 == fields[j].0)
                        invariant
                            pn2 == self.possible_fields@.len(),
                            0 <= s <= pn2,
                            cur == self.model().fields,
                            forall|t: int| 0 <= t < s ==> (#[trigger] self.model().fields[t]).0
                                != fields@[j as int].0@,
                        decreases pn2 - s,
                    {
                        proof {
                            assert(self.model().fields[s as int].0
                                == self.possible_fields@[s as int].0@);
                        }
                        s += 1;
                    }
                    proof {
                        if s < pn2 {
                            assert(self.model().fields[s as int].0
                                == self.possible_fields@[s as int].0@);
                        }
                    }
                    match (if s < pn2 {
                        Some(s)
                    } else {
                        None
                    }) {
                        Some(s) => {
                            proof {
                                lemma_key_present(cur, s as int);
                                lemma_key_index(cur, fields@[j as int].0@);
                                if key_index(cur, fields@[j as int].0@) > s as int {
                                    assert(cur[s as int].0 != fields@[j as int].0@);
                                }
                                assert(key_index(cur, fields@[j as int].0@) == s as int);
                                assert(value_of(cur, fields@[j as int].0@)
                                    == self.possible_fields@[s as int].1.model());
                                broadcast use vstd::seq::axiom_seq_index_decreases;

                                assert(decreases_to!(*val => *fields));
                                assert(decreases_to!(*fields => fields@));
                                assert(decreases_to!(fields@ => fields@[j as int]));
                                assert(decreases_to!(fields@[j as int] => fields@[j as int].1));
                            }
                            self.possible_fields[s].1.add_type(&fields[j].1);
                            proof {
                                assert(self.model().fields =~= cur.update(
                                    s as int,
                                    (
                                        fields@[j as int].0@,
                                        add_shape(
                                            value_of(cur, fields@[j as int].0@),
                                            fields@[j as int].1.model(),
                                        ),
                                    ),
                                )) by {
                                    assert forall|t: int|
                                        0 <= t < self.model().fields.len() implies (
                                    #[trigger] self.model().fields[t]) == cur.update(
                                        s as int,
                                        (
                                            fields@[j as int].0@,
                                            add_shape(
                                                value_of(cur, fields@[j as int].0@),
                                                fields@[j as int].1.model(),
                                            ),
                                        ),
                                    )[t] by {
                                        assert(self.model().fields[t] == (
                                            self.possible_fields@[t].0@,
                                            self.possible_fields@[t].1.model(),
                                        ));
                                    }
                                }
                            }
                        },
                        None => {
                            proof {
                                lemma_key_index(cur, fields@[j as int].0@);
                                if has_key(cur, fields@[j as int].0@) {
                                    assert(cur[key_index(cur, fields@[j as int].0@)].0
                                        != fields@[j as int].0@);
                                }
                                broadcast use vstd::seq::axiom_seq_index_decreases;

                                assert(decreases_to!(*val => *fields));
                                assert(decreases_to!(*fields => fields@));
                                assert(decreases_to!(fields@ => fields@[j as int]));
                                assert(decreases_to!(fields@[j as int] => fields@[j as int].1));
                            }
                            let mut fresh = PossibleTypes::new();
                            fresh.add_type(&fields[j].1);
                            let name = fields[j].0.clone();
                            self.possible_fields.push((name, fresh));
                            proof {
                                assert(self.model().fields =~= cur.push(
                                    (
                                        fields@[j as int].0@,
                                        add_shape(empty_pt(), fields@[j as int].1.model()),
                                    ),
                                )) by {
                                    assert forall|t: int|
                                        0 <= t < self.model().fields.len() implies (
                                    #[trigger] self.model().fields[t]) == cur.push(
                                        (
                                            fields@[j as int].0@,
                                            add_shape(empty_pt(), fields@[j as int].1.model()),
                                        ),
                                    )[t] by {
                                        assert(self.model().fields[t] == (
                                            self.possible_fields@[t].0@,
                                            self.possible_fields@[t].1.model(),
                                        ));
                                    }
                                }
                            }
                        },
                    }
                    proof {
                        assert(add_shape_fields(cur, fs, j as int) == add_shape_fields(
                            self.model().fields,
                            fs,
                            j as int + 1,
                        ));
                    }
                }
                proof {
                    assert(add_shape_fields(self.model().fields, fs, fl as int)
                        == self.model().fields);
                    assert(self.model().fields == add_shape_fields(padded, fs, 0));
                    assert(add_shape(m0, val.model()) == (PTModel {
                        prims: m0.prims,
                        fields: add_shape_fields(padded, fs, 0),
                    }));
                }
            },
        }
    }
}

} // verus!
