use vstd::prelude::*;

verus! {

/// A runtime value held by a record field.
#[derive(Clone, Debug, PartialEq, Eq, Hash)]
pub enum Value {
    Null,
    Int(i64),
    String(String),
    Bool(bool),
}

/// The mathematical content of a [`Value`]: strings are taken by their characters.
pub enum ValueModel {
    Null,
    Int(i64),
    Str(Seq<char>),
    Bool(bool),
}

impl View for Value {
    type V = ValueModel;

    open spec fn view(&self) -> ValueModel {
        match self {
            Value::Null => ValueModel::Null,
            Value::Int(i) => ValueModel::Int(*i),
            Value::String(s) => ValueModel::Str(s@),
            Value::Bool(b) => ValueModel::Bool(*b),
        }
    }
}

/// Types whose values can be copied with the same content.
pub trait Duplicate: View + Sized {
    fn duplicate(&self) -> (r: Self)
        ensures
            r@ == self@,
    ;
}

impl Duplicate for Value {
    fn duplicate(&self) -> (r: Value) {
        match self {
            Value::Null => Value::Null,
            Value::Int(i) => Value::Int(*i),
            Value::String(s) => Value::String(s.clone()),
            Value::Bool(b) => Value::Bool(*b),
        }
    }
}

impl Value {
    /// Whether two values have the same content.
    pub fn same(&self, other: &Value) -> (r: bool)
        ensures
            r == (self@ == other@),
    {
        match (self, other) {
            (Value::Null, Value::Null) => true,
            (Value::Int(a), Value::Int(b)) => *a == *b,
            (Value::String(a), Value::String(b)) => *a == *b,
            (Value::Bool(a), Value::Bool(b)) => *a == *b,
            _ => false,
        }
    }

    /// The name of the value's type, as validation messages give it.
    pub fn kind_name(&self) -> (r: &'static str)
        ensures
            r@ == kind_name_of(self@),
    {
        match self {
            Value::Null => "Null",
            Value::Int(_) => "Int",
            Value::String(_) => "String",
            Value::Bool(_) => "Bool",
        }
    }
}

pub open spec fn kind_name_of(v: ValueModel) -> Seq<char> {
    match v {
        ValueModel::Null => "Null"@,
        ValueModel::Int(_) => "Int"@,
        ValueModel::Str(_) => "String"@,
        ValueModel::Bool(_) => "Bool"@,
    }
}

} // verus!
