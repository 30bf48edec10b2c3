use oxython::object::{Type, UpvalueDescriptor};

#[test]
fn type_name_method_returns_correct_names() {
    assert_eq!(Type::Int.name(), "int");
    assert_eq!(Type::Float.name(), "float");
    assert_eq!(Type::Str.name(), "str");
    assert_eq!(Type::Bool.name(), "bool");
    assert_eq!(Type::List.name(), "list");
    assert_eq!(Type::Dict.name(), "dict");
    assert_eq!(Type::Tuple.name(), "tuple");
    assert_eq!(Type::Class("MyClass".to_string()).name(), "MyClass");
    assert_eq!(Type::Any.name(), "Any");
    assert_eq!(Type::NoneType.name(), "None");
}

#[test]
fn type_display_shows_type_name() {
    assert_eq!(Type::Int.name().to_string(), "int");
    assert_eq!(Type::Float.name().to_string(), "float");
    assert_eq!(Type::Str.name().to_string(), "str");
    assert_eq!(Type::Bool.name().to_string(), "bool");
    assert_eq!(Type::List.name().to_string(), "list");
    assert_eq!(Type::Dict.name().to_string(), "dict");
    assert_eq!(Type::Tuple.name().to_string(), "tuple");
    assert_eq!(Type::Class("Person".to_string()).name().to_string(), "Person");
    assert_eq!(Type::Any.name().to_string(), "Any");
    assert_eq!(Type::NoneType.name().to_string(), "None");
}

#[test]
fn type_equality_works() {
    assert_eq!(Type::Int, Type::Int);
    assert_eq!(Type::Float, Type::Float);
    assert_eq!(Type::Str, Type::Str);
    assert_eq!(
        Type::Class("MyClass".to_string()),
        Type::Class("MyClass".to_string())
    );
    assert_ne!(Type::Int, Type::Float);
    assert_ne!(Type::Class("A".to_string()), Type::Class("B".to_string()));
}

#[test]
fn annotation_names_builtin_types() {
    assert_eq!(Type::from_annotation("int".to_string()), Type::Int);
    assert_eq!(Type::from_annotation("float".to_string()), Type::Float);
    assert_eq!(Type::from_annotation("str".to_string()), Type::Str);
    assert_eq!(Type::from_annotation("bool".to_string()), Type::Bool);
    assert_eq!(Type::from_annotation("list".to_string()), Type::List);
    assert_eq!(Type::from_annotation("dict".to_string()), Type::Dict);
    assert_eq!(Type::from_annotation("tuple".to_string()), Type::Tuple);
}

#[test]
fn annotation_names_other_identifiers_as_classes() {
    assert_eq!(
        Type::from_annotation("Point".to_string()),
        Type::Class("Point".to_string())
    );
    // `Any` and `None` are not builtin annotation names: they read as classes.
    assert_eq!(Type::from_annotation("Any".to_string()), Type::Class("Any".to_string()));
    assert_eq!(Type::from_annotation("integer".to_string()), Type::Class("integer".to_string()));
}

#[test]
fn annotation_then_name_gives_annotation_back() {
    for name in ["int", "float", "str", "bool", "list", "dict", "tuple", "Point", "None", "x"] {
        assert_eq!(Type::from_annotation(name.to_string()).name(), name);
    }
}

#[test]
fn upvalue_descriptor_equality() {
    let a = UpvalueDescriptor { is_local: true, index: 2 };
    let b = UpvalueDescriptor { is_local: true, index: 2 };
    let c = UpvalueDescriptor { is_local: false, index: 2 };
    assert_eq!(a, b);
    assert_ne!(a, c);
}
