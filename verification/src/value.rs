//! The values that a template is filled with.
use vstd::prelude::*;

verus! {

/// How a run of items came to be.
#[derive(Clone, Copy, Debug, PartialEq, Eq, Structural)]
pub enum ItemsKind {
    List,
    Tuple,
    TupleStruct,
    TupleVariant,
}

/// How a run of entries came to be.
#[derive(Clone, Copy, Debug, PartialEq, Eq, Structural)]
pub enum EntriesKind {
    Assoc,
    Struct,
    StructVariant,
}

/// A value as a data format sees it.
#[derive(Debug)]
pub enum Value {
    Bool(bool),
    I64(i64),
    U64(u64),
    Char(char),
    Str(String),
    Bytes(Vec<u8>),
    /// An optional value that is not there.
    Null,
    Unit,
    UnitStruct,
    UnitVariant,
    /// An optional value that is there, or a value in a newtype.
    Wrapped(Box<Value>),
    /// Values in order, and how many were announced.
    Items(ItemsKind, Option<usize>, Vec<Value>),
    /// Keys with their values, and how many were announced.
    Entries(EntriesKind, Option<usize>, Vec<(Value, Value)>),
}

/// What is left of a value when nothing wraps it any more.
pub open spec fn unwrapped(value: Value) -> Value
    decreases value,
{
    match value {
        Value::Wrapped(inner) => unwrapped(*inner),
        _ => value,
    }
}

impl ItemsKind {
    /// The name of the kind.
    pub open spec fn spec_name(self) -> Seq<char> {
        match self {
            ItemsKind::List => "seq"@,
            ItemsKind::Tuple => "tuple"@,
            ItemsKind::TupleStruct => "tuple struct"@,
            ItemsKind::TupleVariant => "tuple variant"@,
        }
    }

    /// The name of the kind.
    pub fn name(self) -> (name: String)
        ensures
            name@ == self.spec_name(),
    {
        match self {
            ItemsKind::List => "seq".to_owned(),
            ItemsKind::Tuple => "tuple".to_owned(),
            ItemsKind::TupleStruct => "tuple struct".to_owned(),
            ItemsKind::TupleVariant => "tuple variant".to_owned(),
        }
    }
}

impl EntriesKind {
    /// The name of the kind.
    pub open spec fn spec_name(self) -> Seq<char> {
        match self {
            EntriesKind::Assoc => "map"@,
            EntriesKind::Struct => "struct"@,
            EntriesKind::StructVariant => "struct variant"@,
        }
    }

    /// The name of the kind.
    pub fn name(self) -> (name: String)
        ensures
            name@ == self.spec_name(),
    {
        match self {
            EntriesKind::Assoc => "map".to_owned(),
            EntriesKind::Struct => "struct".to_owned(),
            EntriesKind::StructVariant => "struct variant".to_owned(),
        }
    }
}

} // verus!
