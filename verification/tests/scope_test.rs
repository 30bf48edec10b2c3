use oxython::codegen::VariableTarget;
use oxython::object::{Type, UpvalueDescriptor};
use oxython::scope::{FunctionScope, Local, LoopContext, Parameter, ScopeChain};

fn names(list: &[&str]) -> Vec<String> {
    list.iter().map(|s| s.to_string()).collect()
}

#[test]
fn parameters_take_the_first_slots() {
    let scope: FunctionScope<()> = FunctionScope::new(names(&["a", "b"]));
    assert_eq!(scope.resolve(&"a".to_string()), Some(1));
    assert_eq!(scope.resolve(&"b".to_string()), Some(2));
    assert_eq!(scope.resolve(&"c".to_string()), None);
}

#[test]
fn declare_adds_a_local_once() {
    let mut scope: FunctionScope<()> = FunctionScope::new(names(&["a", "b"]));
    assert_eq!(scope.declare("c".to_string()), (3, true));
    assert_eq!(scope.declare("c".to_string()), (3, false));
    assert_eq!(scope.declare("a".to_string()), (1, false));
    assert_eq!(scope.resolve(&"c".to_string()), Some(3));
    assert_eq!(scope.locals.len(), 1);
}

#[test]
fn declare_with_type_records_annotation() {
    let mut scope: FunctionScope<()> = FunctionScope::new(names(&["a"]));
    assert_eq!(scope.declare_with_type("n".to_string(), Some(Type::Int)), (2, true));
    assert_eq!(scope.locals[0].type_annotation, Some(Type::Int));
    assert_eq!(scope.declare_with_type("m".to_string(), None), (3, true));
    assert_eq!(scope.resolve(&"m".to_string()), Some(3));
}

#[test]
fn duplicate_parameter_names_resolve_to_the_first() {
    let scope: FunctionScope<()> = FunctionScope::new(names(&["a", "a"]));
    assert_eq!(scope.resolve(&"a".to_string()), Some(1));
}

#[test]
fn upvalues_are_added_once() {
    let mut scope: FunctionScope<()> = FunctionScope::new(vec![]);
    assert_eq!(scope.add_upvalue("x".to_string(), true, 1), 0);
    assert_eq!(scope.add_upvalue("y".to_string(), false, 0), 1);
    assert_eq!(scope.add_upvalue("x".to_string(), false, 9), 0);
    assert_eq!(scope.resolve_upvalue(&"y".to_string()), Some(1));
    assert_eq!(scope.resolve_upvalue(&"z".to_string()), None);
    assert_eq!(scope.upvalues[0], UpvalueDescriptor { is_local: true, index: 1 });
    assert_eq!(scope.upvalues.len(), 2);
}

#[test]
fn parameters_and_locals_construct() {
    let p: Parameter<i64> = Parameter::new_with_default("n".to_string(), Some(Type::Int), 3);
    assert_eq!(p.default_value, Some(3));
    assert_eq!(p.type_annotation, Some(Type::Int));
    let q: Parameter<i64> = Parameter::new("m".to_string(), None);
    assert_eq!(q.default_value, None);
    let l = Local::new("v".to_string(), Some(Type::Str));
    assert_eq!(l.name, "v");
    let scope = FunctionScope::new_with_params(vec![p, q]);
    assert_eq!(scope.resolve(&"m".to_string()), Some(2));
    let ctx = LoopContext::new(3);
    assert_eq!(ctx.cleanup_depth, 3);
    assert!(ctx.break_jumps.is_empty());
}

fn nested_chain() -> ScopeChain<()> {
    let mut chain = ScopeChain::new();
    let mut outer: FunctionScope<()> = FunctionScope::new(names(&["a"]));
    outer.declare("b".to_string());
    chain.scopes.push(outer);
    chain.scopes.push(FunctionScope::new(vec![]));
    chain.scopes.push(FunctionScope::new(names(&["c"])));
    chain
}

#[test]
fn variables_resolve_local_then_captured_then_global() {
    let mut chain = nested_chain();
    assert_eq!(chain.resolve_variable(&"c".to_string()), VariableTarget::Local(1));
    assert_eq!(chain.resolve_variable(&"b".to_string()), VariableTarget::Upvalue(0));
    assert_eq!(chain.resolve_variable(&"zzz".to_string()), VariableTarget::Global);
    // The middle function captured `b` from the outer one's slot 2, and the
    // inner one captured the middle one's upvalue 0.
    assert_eq!(chain.scopes[1].upvalues, vec![UpvalueDescriptor { is_local: true, index: 2 }]);
    assert_eq!(chain.scopes[2].upvalues, vec![UpvalueDescriptor { is_local: false, index: 0 }]);
    // Resolving again reuses the captures.
    assert_eq!(chain.resolve_variable(&"b".to_string()), VariableTarget::Upvalue(0));
    assert_eq!(chain.scopes[2].upvalues.len(), 1);
    assert_eq!(chain.resolve_variable(&"a".to_string()), VariableTarget::Upvalue(1));
}

#[test]
fn top_level_function_captures_nothing() {
    let mut chain: ScopeChain<()> = ScopeChain::new();
    chain.scopes.push(FunctionScope::new(names(&["a"])));
    assert_eq!(chain.resolve_upvalue(&"x".to_string()), None);
    assert_eq!(chain.resolve_variable(&"x".to_string()), VariableTarget::Global);
    assert_eq!(chain.resolve_local(&"a".to_string()), Some(1));
}

#[test]
fn declare_local_outside_functions_and_when_full() {
    let mut had_error = false;
    let mut empty: ScopeChain<()> = ScopeChain::new();
    assert_eq!(empty.declare_local("x".to_string(), &mut had_error), None);
    assert!(!had_error);

    let many: Vec<String> = (0..254).map(|i| format!("p{}", i)).collect();
    let mut chain: ScopeChain<()> = ScopeChain::new();
    chain.scopes.push(FunctionScope::new(many));
    assert_eq!(chain.declare_local("x".to_string(), &mut had_error), None);
    assert!(had_error);

    let mut had_error = false;
    let mut chain: ScopeChain<()> = ScopeChain::new();
    chain.scopes.push(FunctionScope::new(names(&["a"])));
    assert_eq!(chain.declare_local("x".to_string(), &mut had_error), Some((2, true)));
    assert_eq!(
        chain.declare_local_with_type("x".to_string(), Some(Type::Int), &mut had_error),
        Some((2, false))
    );
    assert!(!had_error);
}
