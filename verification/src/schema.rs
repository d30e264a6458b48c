use crate::names::NameMap;
use crate::value::{Duplicate, Value, ValueModel};
use vstd::prelude::*;

verus! {

/// The type a field holds.
#[derive(Clone, Copy, Debug, PartialEq, Eq, Structural)]
pub enum DataType {
    Int,
    String,
}

/// One field of a model: its type and constraints.
#[derive(Clone, Debug, PartialEq, Eq)]
pub struct FieldSchema {
    pub data_type: DataType,
    pub id: bool,
    pub unique: bool,
    pub required: bool,
    pub range: Option<(i64, i64)>,
    pub default: Option<Value>,
}

/// The content of a [`FieldSchema`].
pub struct FieldModel {
    pub data_type: DataType,
    pub id: bool,
    pub unique: bool,
    pub required: bool,
    pub range: Option<(i64, i64)>,
    pub default: Option<ValueModel>,
}

impl FieldModel {
    /// Whether the field's values must be distinct among live rows.
    pub open spec fn is_unique(self) -> bool {
        self.id || self.unique
    }
}

impl View for FieldSchema {
    type V = FieldModel;

    open spec fn view(&self) -> FieldModel {
        FieldModel {
            data_type: self.data_type,
            id: self.id,
            unique: self.unique,
            required: self.required,
            range: self.range,
            default: match self.default {
                Some(v) => Some(v@),
                None => None,
            },
        }
    }
}

impl FieldSchema {
    /// Whether the field is indexed and its values kept distinct: an id or a unique field.
    pub fn is_unique(&self) -> (r: bool)
        ensures
            r == self@.is_unique(),
    {
        self.id || self.unique
    }

    /// Whether two field schemas say the same.
    pub fn same(&self, other: &FieldSchema) -> (r: bool)
        ensures
            r == (self@ == other@),
    {
        let defaults_same = match (&self.default, &other.default) {
            (None, None) => true,
            (Some(a), Some(b)) => a.same(b),
            _ => false,
        };
        let ranges_same = match (self.range, other.range) {
            (None, None) => true,
            (Some((a0, a1)), Some((b0, b1))) => a0 == b0 && a1 == b1,
            _ => false,
        };
        self.data_type == other.data_type && self.id == other.id && self.unique == other.unique
            && self.required == other.required && ranges_same && defaults_same
    }
}

impl Duplicate for FieldSchema {
    fn duplicate(&self) -> (r: FieldSchema) {
        FieldSchema {
            data_type: self.data_type,
            id: self.id,
            unique: self.unique,
            required: self.required,
            range: self.range,
            default: match &self.default {
                Some(v) => Some(v.duplicate()),
                None => None,
            },
        }
    }
}

/// A model: its name and its fields, in name order.
#[derive(Clone, Debug, PartialEq, Eq)]
pub struct ModelSchema {
    pub name: String,
    pub fields: NameMap<FieldSchema>,
}

/// The content of a [`ModelSchema`].
pub struct ModelModel {
    pub name: Seq<char>,
    pub fields: Seq<(Seq<char>, FieldModel)>,
}

impl View for ModelSchema {
    type V = ModelModel;

    open spec fn view(&self) -> ModelModel {
        ModelModel { name: self.name@, fields: self.fields@ }
    }
}

impl ModelSchema {
    pub open spec fn wf(&self) -> bool {
        self.fields.wf()
    }

    /// Whether two schemas say the same: same name, same fields in the same order.
    pub fn same(&self, other: &ModelSchema) -> (r: bool)
        ensures
            r == (self@ == other@),
    {
        if self.name != other.name {
            return false;
        }
        if self.fields.len() != other.fields.len() {
            assert(self@.fields.len() != other@.fields.len());
            return false;
        }
        let mut i: usize = 0;
        while i < self.fields.len()
            invariant
                self@.name == other@.name,
                self@.fields.len() == other@.fields.len(),
                i <= self@.fields.len(),
                forall|j: int| 0 <= j < i ==> self@.fields[j] == other@.fields[j],
            decreases self@.fields.len() - i,
        {
            let same_name = *self.fields.name_at(i) == *other.fields.name_at(i);
            if !same_name || !self.fields.value_at(i).same(other.fields.value_at(i)) {
                assert(self@.fields[i as int] != other@.fields[i as int]);
                return false;
            }
            i = i + 1;
        }
        assert(self@.fields =~= other@.fields);
        true
    }
}

impl Duplicate for ModelSchema {
    fn duplicate(&self) -> (r: ModelSchema) {
        ModelSchema { name: self.name.clone(), fields: self.fields.duplicate() }
    }
}

} // verus!
