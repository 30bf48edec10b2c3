//! Runtime type names and closure capture descriptors.

use vstd::prelude::*;

verus! {

/// Represents basic Python types for optional type annotations.
/// This enum will be used for type checking and runtime type information.
#[derive(Debug, Clone, PartialEq, Eq, Hash)]
pub enum Type {
    /// Integer type (int)
    Int,
    /// Floating point type (float)
    Float,
    /// String type (str)
    Str,
    /// Boolean type (bool)
    Bool,
    /// List type (list)
    List,
    /// Dictionary type (dict)
    Dict,
    /// Tuple type (tuple)
    Tuple,
    /// Class type with the class name
    Class(String),
    /// Any type (no type constraint)
    Any,
    /// None type (nil)
    NoneType,
}

/// The name under which a type is written and shown.
pub open spec fn spec_type_name(t: Type) -> Seq<char> {
    match t {
        Type::Int => "int"@,
        Type::Float => "float"@,
        Type::Str => "str"@,
        Type::Bool => "bool"@,
        Type::List => "list"@,
        Type::Dict => "dict"@,
        Type::Tuple => "tuple"@,
        Type::Class(name) => name@,
        Type::Any => "Any"@,
        Type::NoneType => "None"@,
    }
}

/// The builtin type that an annotation names, if it names one.
pub open spec fn builtin_type_named(name: Seq<char>) -> Option<Type> {
    if name == "int"@ {
        Some(Type::Int)
    } else if name == "float"@ {
        Some(Type::Float)
    } else if name == "str"@ {
        Some(Type::Str)
    } else if name == "bool"@ {
        Some(Type::Bool)
    } else if name == "list"@ {
        Some(Type::List)
    } else if name == "dict"@ {
        Some(Type::Dict)
    } else if name == "tuple"@ {
        Some(Type::Tuple)
    } else {
        None
    }
}

/// Whether `s` holds exactly the characters of `lit`.
pub fn string_equals_literal(s: &String, lit: &str) -> (equal: bool)
    ensures
        equal == (s@ == lit@),
{
    let text = s.as_str();
    let n = text.unicode_len();
    let m = lit.unicode_len();
    if n != m {
        return false;
    }
    let mut i: usize = 0;
    while i < n
        invariant
            n == s@.len(),
            m == lit@.len(),
            n == m,
            text@ == s@,
            i <= n,
            forall|j: int| 0 <= j < i ==> s@[j] == lit@[j],
        decreases n - i,
    {
        if text.get_char(i) != lit.get_char(i) {
            return false;
        }
        i += 1;
    }
    assert(s@ =~= lit@);
    true
}

impl Type {
    /// Returns the string representation of the type.
    pub fn name(&self) -> (name: &str)
        ensures
            name@ == spec_type_name(*self),
    {
        match self {
            Type::Int => "int",
            Type::Float => "float",
            Type::Str => "str",
            Type::Bool => "bool",
            Type::List => "list",
            Type::Dict => "dict",
            Type::Tuple => "tuple",
            Type::Class(name) => name.as_str(),
            Type::Any => "Any",
            Type::NoneType => "None",
        }
    }

    /// The type that a type annotation written as `name` denotes: the builtin
    /// types by their names, any other identifier a class. Naming the
    /// resulting type gives the annotation back.
    pub fn from_annotation(name: String) -> (t: Type)
        ensures
            builtin_type_named(name@) matches Some(b) ==> t == b,
            builtin_type_named(name@) is None ==> t == Type::Class(name),
            spec_type_name(t) == name@,
    {
        if string_equals_literal(&name, "int") {
            Type::Int
        } else if string_equals_literal(&name, "float") {
            Type::Float
        } else if string_equals_literal(&name, "str") {
            Type::Str
        } else if string_equals_literal(&name, "bool") {
            Type::Bool
        } else if string_equals_literal(&name, "list") {
            Type::List
        } else if string_equals_literal(&name, "dict") {
            Type::Dict
        } else if string_equals_literal(&name, "tuple") {
            Type::Tuple
        } else {
            Type::Class(name)
        }
    }
}

/// Describes how a closure captures a variable from an outer scope.
#[derive(Clone, Copy, Debug, PartialEq, Eq, Structural)]
pub struct UpvalueDescriptor {
    pub is_local: bool,
    pub index: usize,
}

} // verus!
