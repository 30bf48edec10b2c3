//! Variable scopes of compiled functions and the resolution of captured
//! variables through nested functions.
//!
//! Slot 0 of a frame holds the called function, slots `1..=P` its parameters
//! and the following slots its locals, in order of declaration.

use crate::codegen::VariableTarget;
use crate::object::{Type, UpvalueDescriptor};
use vstd::prelude::*;

verus! {

/// The position of the first occurrence of `x` in `s`.
pub open spec fn position_of<A>(s: Seq<A>, x: A) -> Option<int>
    decreases s.len(),
{
    if s.len() == 0 {
        None
    } else if s[0] == x {
        Some(0)
    } else {
        match position_of(s.drop_first(), x) {
            Some(i) => Some(i + 1),
            None => None,
        }
    }
}

/// `position_of` finds the first occurrence, and nothing when there is none.
pub proof fn lemma_position_of<A>(s: Seq<A>, x: A)
    ensures
        match position_of(s, x) {
            Some(i) => 0 <= i < s.len() && s[i] == x && forall|j: int| 0 <= j < i ==> s[j] != x,
            None => forall|j: int| 0 <= j < s.len() ==> s[j] != x,
        },
    decreases s.len(),
{
    if s.len() > 0 && s[0] != x {
        lemma_position_of(s.drop_first(), x);
        match position_of(s.drop_first(), x) {
            Some(i) => {
                assert forall|j: int| 0 <= j < i + 1 implies s[j] != x by {
                    if j > 0 {
                        assert(s[j] == s.drop_first()[j - 1]);
                    }
                }
            },
            None => {
                assert forall|j: int| 0 <= j < s.len() implies s[j] != x by {
                    if j > 0 {
                        assert(s[j] == s.drop_first()[j - 1]);
                    }
                }
            },
        }
    }
}

/// The position of `x` in `s` is determined by where it first occurs.
pub proof fn lemma_position_of_char<A>(s: Seq<A>, x: A, i: int)
    requires
        0 <= i <= s.len(),
        forall|j: int| 0 <= j < i ==> s[j] != x,
    ensures
        i < s.len() && s[i] == x ==> position_of(s, x) == Some(i),
        i == s.len() ==> position_of(s, x) is None,
{
    lemma_position_of(s, x);
}

/// Appending an element keeps the positions of the elements already there.
pub proof fn lemma_position_of_push<A>(s: Seq<A>, y: A, x: A)
    ensures
        position_of(s, x) is Some ==> position_of(s.push(y), x) == position_of(s, x),
        position_of(s, x) is None && x == y ==> position_of(s.push(y), x) == Some(s.len() as int),
        position_of(s, x) is None && x != y ==> position_of(s.push(y), x) is None,
{
    lemma_position_of(s, x);
    lemma_position_of(s.push(y), x);
    match position_of(s, x) {
        Some(i) => {
            lemma_position_of_char(s.push(y), x, i);
        },
        None => {
            if x == y {
                lemma_position_of_char(s.push(y), x, s.len() as int);
            } else {
                lemma_position_of_char(s.push(y), x, (s.len() + 1) as int);
            }
        },
    }
}

/// Context for tracking loop state (for break statements).
#[derive(Debug)]
pub struct LoopContext {
    /// Positions in bytecode where break jumps need to be patched
    pub break_jumps: Vec<usize>,
    /// Stack depth to clean up to when breaking
    pub cleanup_depth: usize,
}

impl LoopContext {
    /// Creates a new loop context with the specified cleanup depth.
    pub fn new(cleanup_depth: usize) -> (ctx: Self)
        ensures
            ctx.break_jumps@ == Seq::<usize>::empty(),
            ctx.cleanup_depth == cleanup_depth,
    {
        LoopContext { break_jumps: Vec::new(), cleanup_depth }
    }
}

/// Represents a function parameter with optional type annotation and default value.
#[derive(Debug, Clone)]
pub struct Parameter<D> {
    /// Parameter name
    pub name: String,
    /// Optional type annotation
    pub type_annotation: Option<Type>,
    /// Optional default value
    pub default_value: Option<D>,
}

impl<D> Parameter<D> {
    /// Creates a new parameter with the given name and optional type annotation.
    pub fn new(name: String, type_annotation: Option<Type>) -> (p: Self)
        ensures
            p.name == name,
            p.type_annotation == type_annotation,
            p.default_value is None,
    {
        Parameter { name, type_annotation, default_value: None }
    }

    /// Creates a new parameter with a default value.
    pub fn new_with_default(name: String, type_annotation: Option<Type>, default_value: D) -> (p:
        Self)
        ensures
            p.name == name,
            p.type_annotation == type_annotation,
            p.default_value == Some(default_value),
    {
        Parameter { name, type_annotation, default_value: Some(default_value) }
    }
}

/// Represents a local variable with optional type annotation.
#[derive(Debug, Clone)]
pub struct Local {
    /// Variable name
    pub name: String,
    /// Optional type annotation
    pub type_annotation: Option<Type>,
}

impl Local {
    /// Creates a new local variable with the given name and optional type annotation.
    pub fn new(name: String, type_annotation: Option<Type>) -> (l: Self)
        ensures
            l.name == name,
            l.type_annotation == type_annotation,
    {
        Local { name, type_annotation }
    }
}

/// What a scope holds, by name: its parameters, its locals and its upvalues
/// with their capture descriptors.
pub struct ScopeView {
    pub params: Seq<Seq<char>>,
    pub locals: Seq<Seq<char>>,
    pub upvalue_names: Seq<Seq<char>>,
    pub upvalues: Seq<UpvalueDescriptor>,
}

impl ScopeView {
    /// The frame slot of `name`: its first parameter position plus one, else
    /// the number of parameters plus one plus its first local position.
    pub open spec fn resolve(self, name: Seq<char>) -> Option<int> {
        match position_of(self.params, name) {
            Some(i) => Some(i + 1),
            None => match position_of(self.locals, name) {
                Some(j) => Some(self.params.len() + 1 + j),
                None => None,
            },
        }
    }

    /// The scope after declaring `name`: unchanged when it resolves already,
    /// otherwise with `name` as a new last local.
    pub open spec fn declare(self, name: Seq<char>) -> ScopeView {
        if self.resolve(name) is Some {
            self
        } else {
            ScopeView { locals: self.locals.push(name), ..self }
        }
    }

    /// What declaring `name` returns: its slot, and whether it is new.
    pub open spec fn declare_result(self, name: Seq<char>) -> (int, bool) {
        match self.resolve(name) {
            Some(slot) => (slot, false),
            None => ((self.params.len() + 1 + self.locals.len()) as int, true),
        }
    }

    /// The upvalue index under which `name` is captured in this scope.
    pub open spec fn upvalue_index(self, name: Seq<char>) -> Option<int> {
        position_of(self.upvalue_names, name)
    }

    /// The scope after capturing `name` with the given descriptor: unchanged
    /// when `name` is captured already.
    pub open spec fn add_upvalue(self, name: Seq<char>, desc: UpvalueDescriptor) -> ScopeView {
        if self.upvalue_index(name) is Some {
            self
        } else {
            ScopeView {
                upvalue_names: self.upvalue_names.push(name),
                upvalues: self.upvalues.push(desc),
                ..self
            }
        }
    }

    /// The index that capturing `name` returns.
    pub open spec fn add_upvalue_result(self, name: Seq<char>) -> int {
        match self.upvalue_index(name) {
            Some(u) => u,
            None => self.upvalues.len() as int,
        }
    }

    /// The number of slots that parameters and locals occupy, and the
    /// upvalue table's shape, fit the machine.
    pub open spec fn well_formed(self) -> bool {
        &&& self.upvalue_names.len() == self.upvalues.len()
        &&& self.params.len() + self.locals.len() + 2 <= usize::MAX
        &&& forall|i: int, j: int|
            0 <= i < j < self.upvalue_names.len() ==> #[trigger] self.upvalue_names[i] != #[trigger] self.upvalue_names[j]
    }
}

/// Represents a function's scope, tracking parameters, locals, and upvalues.
#[derive(Debug)]
pub struct FunctionScope<D> {
    /// Function parameters
    pub parameters: Vec<Parameter<D>>,
    /// Local variables declared in this scope
    pub locals: Vec<Local>,
    /// Upvalues (captured variables from outer scopes)
    pub upvalues: Vec<UpvalueDescriptor>,
    /// The name captured by each upvalue, in the same order
    pub upvalue_names: Vec<String>,
    /// Variables declared as nonlocal
    pub nonlocals: Vec<String>,
}

impl<D> View for FunctionScope<D> {
    type V = ScopeView;

    open spec fn view(&self) -> ScopeView {
        ScopeView {
            params: self.parameters@.map_values(|p: Parameter<D>| p.name@),
            locals: self.locals@.map_values(|l: Local| l.name@),
            upvalue_names: self.upvalue_names@.map_values(|s: String| s@),
            upvalues: self.upvalues@,
        }
    }
}

/// The first position in `params` whose name is `name`.
fn find_parameter<D>(params: &Vec<Parameter<D>>, name: &String) -> (pos: Option<usize>)
    ensures
        match pos {
            Some(i) => position_of(params@.map_values(|p: Parameter<D>| p.name@), name@) == Some(
                i as int,
            ),
            None => position_of(params@.map_values(|p: Parameter<D>| p.name@), name@) is None,
        },
{
    let ghost names = params@.map_values(|p: Parameter<D>| p.name@);
    let mut i: usize = 0;
    while i < params.len()
        invariant
            i <= params@.len(),
            names == params@.map_values(|p: Parameter<D>| p.name@),
            forall|j: int| 0 <= j < i ==> names[j] != name@,
        decreases params@.len() - i,
    {
        if params[i].name == *name {
            proof {
                lemma_position_of_char(names, name@, i as int);
            }
            return Some(i);
        }
        i += 1;
    }
    proof {
        lemma_position_of_char(names, name@, i as int);
    }
    None
}

/// The first position in `locals` whose name is `name`.
fn find_local(locals: &Vec<Local>, name: &String) -> (pos: Option<usize>)
    ensures
        match pos {
            Some(i) => position_of(locals@.map_values(|l: Local| l.name@), name@) == Some(i as int),
            None => position_of(locals@.map_values(|l: Local| l.name@), name@) is None,
        },
{
    let ghost names = locals@.map_values(|l: Local| l.name@);
    let mut i: usize = 0;
    while i < locals.len()
        invariant
            i <= locals@.len(),
            names == locals@.map_values(|l: Local| l.name@),
            forall|j: int| 0 <= j < i ==> names[j] != name@,
        decreases locals@.len() - i,
    {
        if locals[i].name == *name {
            proof {
                lemma_position_of_char(names, name@, i as int);
            }
            return Some(i);
        }
        i += 1;
    }
    proof {
        lemma_position_of_char(names, name@, i as int);
    }
    None
}

/// The first position in `names` holding `name`.
fn find_name(names: &Vec<String>, name: &String) -> (pos: Option<usize>)
    ensures
        match pos {
            Some(i) => position_of(names@.map_values(|s: String| s@), name@) == Some(i as int),
            None => position_of(names@.map_values(|s: String| s@), name@) is None,
        },
{
    let ghost views = names@.map_values(|s: String| s@);
    let mut i: usize = 0;
    while i < names.len()
        invariant
            i <= names@.len(),
            views == names@.map_values(|s: String| s@),
            forall|j: int| 0 <= j < i ==> views[j] != name@,
        decreases names@.len() - i,
    {
        if names[i] == *name {
            proof {
                lemma_position_of_char(views, name@, i as int);
            }
            return Some(i);
        }
        i += 1;
    }
    proof {
        lemma_position_of_char(views, name@, i as int);
    }
    None
}

impl<D> FunctionScope<D> {
    /// Creates a new function scope with the given parameter names (no type annotations).
    pub fn new(parameters: Vec<String>) -> (scope: Self)
        requires
            parameters@.len() + 2 <= usize::MAX,
        ensures
            scope@.params == parameters@.map_values(|s: String| s@),
            scope@.locals == Seq::<Seq<char>>::empty(),
            scope@.upvalues == Seq::<UpvalueDescriptor>::empty(),
            scope@.upvalue_names == Seq::<Seq<char>>::empty(),
            scope@.well_formed(),
            scope.nonlocals@.len() == 0,
            forall|i: int|
                0 <= i < parameters@.len() ==> scope.parameters@[i].type_annotation is None
                    && scope.parameters@[i].default_value is None,
    {
        let mut params: Vec<Parameter<D>> = Vec::new();
        let mut i: usize = 0;
        while i < parameters.len()
            invariant
                i <= parameters@.len(),
                params@.len() == i,
                forall|k: int|
                    0 <= k < i ==> (#[trigger] params@[k]).name == parameters@[k]
                        && params@[k].type_annotation is None && params@[k].default_value is None,
            decreases parameters@.len() - i,
        {
            params.push(Parameter::new(parameters[i].clone(), None));
            i += 1;
        }
        assert(params@.len() == parameters@.len());
        let scope = FunctionScope {
            parameters: params,
            locals: Vec::new(),
            upvalues: Vec::new(),
            upvalue_names: Vec::new(),
            nonlocals: Vec::new(),
        };
        assert(scope@.params =~= parameters@.map_values(|s: String| s@));
        assert(scope@.locals =~= Seq::<Seq<char>>::empty());
        assert(scope@.upvalue_names =~= Seq::<Seq<char>>::empty());
        scope
    }

    /// Creates a new function scope with typed parameters.
    pub fn new_with_params(parameters: Vec<Parameter<D>>) -> (scope: Self)
        requires
            parameters@.len() + 2 <= usize::MAX,
        ensures
            scope.parameters@ == parameters@,
            scope@.locals == Seq::<Seq<char>>::empty(),
            scope@.upvalues == Seq::<UpvalueDescriptor>::empty(),
            scope@.upvalue_names == Seq::<Seq<char>>::empty(),
            scope@.well_formed(),
            scope.nonlocals@.len() == 0,
    {
        let scope = FunctionScope {
            parameters,
            locals: Vec::new(),
            upvalues: Vec::new(),
            upvalue_names: Vec::new(),
            nonlocals: Vec::new(),
        };
        assert(scope@.locals =~= Seq::<Seq<char>>::empty());
        assert(scope@.upvalue_names =~= Seq::<Seq<char>>::empty());
        scope
    }

    /// Resolves a variable name to its slot index in this scope.
    /// Returns None if the variable is not found in parameters or locals.
    pub fn resolve(&self, name: &String) -> (slot: Option<usize>)
        requires
            self@.well_formed(),
        ensures
            match slot {
                Some(s) => self@.resolve(name@) == Some(s as int),
                None => self@.resolve(name@) is None,
            },
    {
        proof {
            lemma_position_of(self@.params, name@);
            lemma_position_of(self@.locals, name@);
        }
        if let Some(idx) = find_parameter(&self.parameters, name) {
            return Some(idx + 1);
        }
        if let Some(idx) = find_local(&self.locals, name) {
            return Some(self.parameters.len() + 1 + idx);
        }
        None
    }

    /// Declares a variable with a type annotation; returns its slot and
    /// whether it was newly created.
    pub fn declare_with_type(&mut self, name: String, type_annotation: Option<Type>) -> (r: (
        usize,
        bool,
    ))
        requires
            old(self)@.well_formed(),
            old(self)@.params.len() + old(self)@.locals.len() + 3 <= usize::MAX,
        ensures
            final(self)@ == old(self)@.declare(name@),
            r.0 == old(self)@.declare_result(name@).0,
            r.1 == old(self)@.declare_result(name@).1,
            final(self)@.well_formed(),
            final(self).parameters@ == old(self).parameters@,
            final(self).nonlocals@ == old(self).nonlocals@,
            r.1 ==> final(self).locals@ == old(self).locals@.push(Local { name, type_annotation }),
            !r.1 ==> final(self).locals@ == old(self).locals@,
    {
        proof {
            lemma_position_of(self@.params, name@);
            lemma_position_of(self@.locals, name@);
        }
        if let Some(idx) = find_parameter(&self.parameters, &name) {
            return (idx + 1, false);
        }
        if let Some(idx) = find_local(&self.locals, &name) {
            return (self.parameters.len() + 1 + idx, false);
        }
        let ghost before = self@;
        let slot = self.parameters.len() + 1 + self.locals.len();
        self.locals.push(Local { name, type_annotation });
        assert(self@.locals =~= before.locals.push(name@));
        assert(self@ =~= before.declare(name@));
        (slot, true)
    }

    /// Declares a variable in this scope without type annotation.
    /// Returns the slot index and whether it was newly created.
    pub fn declare(&mut self, name: String) -> (r: (usize, bool))
        requires
            old(self)@.well_formed(),
            old(self)@.params.len() + old(self)@.locals.len() + 3 <= usize::MAX,
        ensures
            final(self)@ == old(self)@.declare(name@),
            r.0 == old(self)@.declare_result(name@).0,
            r.1 == old(self)@.declare_result(name@).1,
            final(self)@.well_formed(),
            final(self).parameters@ == old(self).parameters@,
            final(self).nonlocals@ == old(self).nonlocals@,
            r.1 ==> final(self).locals@ == old(self).locals@.push(Local { name, type_annotation: None }),
            !r.1 ==> final(self).locals@ == old(self).locals@,
    {
        self.declare_with_type(name, None)
    }

    /// Adds an upvalue to this scope, returning its index.
    /// If the upvalue already exists, returns the existing index.
    pub fn add_upvalue(&mut self, name: String, is_local: bool, index: usize) -> (u: usize)
        requires
            old(self)@.well_formed(),
        ensures
            final(self)@ == old(self)@.add_upvalue(name@, UpvalueDescriptor { is_local, index }),
            u == old(self)@.add_upvalue_result(name@),
            final(self)@.well_formed(),
            final(self).parameters@ == old(self).parameters@,
            final(self).locals@ == old(self).locals@,
            final(self).nonlocals@ == old(self).nonlocals@,
    {
        if let Some(existing) = find_name(&self.upvalue_names, &name) {
            return existing;
        }
        let ghost before = self@;
        proof {
            lemma_captured_name_found(before, name@, UpvalueDescriptor { is_local, index });
        }
        let upvalue_index = self.upvalues.len();
        self.upvalues.push(UpvalueDescriptor { is_local, index });
        self.upvalue_names.push(name);
        assert(self@.upvalue_names =~= before.upvalue_names.push(name@));
        assert(self@ =~= before.add_upvalue(name@, UpvalueDescriptor { is_local, index }));
        upvalue_index
    }

    /// Resolves a variable name to its upvalue index in this scope.
    /// Returns None if no upvalue with that name exists.
    pub fn resolve_upvalue(&self, name: &String) -> (u: Option<usize>)
        ensures
            match u {
                Some(i) => self@.upvalue_index(name@) == Some(i as int),
                None => self@.upvalue_index(name@) is None,
            },
    {
        find_name(&self.upvalue_names, name)
    }
}

/// After declaring a name, the name resolves to the slot that the
/// declaration returned.
pub proof fn lemma_declared_name_resolves(scope: ScopeView, name: Seq<char>)
    ensures
        scope.declare(name).resolve(name) == Some(scope.declare_result(name).0),
{
    lemma_position_of(scope.params, name);
    lemma_position_of(scope.locals, name);
    lemma_position_of_push(scope.locals, name, name);
}

/// Declaring a name a second time changes nothing and reports the same slot
/// as already existing.
pub proof fn lemma_declare_idempotent(scope: ScopeView, name: Seq<char>)
    ensures
        scope.declare(name).declare(name) == scope.declare(name),
        scope.declare(name).declare_result(name) == (scope.declare_result(name).0, false),
{
    lemma_declared_name_resolves(scope, name);
}

/// Declaring one name leaves the slots of the other names unchanged.
pub proof fn lemma_declare_keeps_other_slots(scope: ScopeView, name: Seq<char>, other: Seq<char>)
    requires
        name != other,
    ensures
        scope.declare(name).resolve(other) == scope.resolve(other),
{
    lemma_position_of_push(scope.locals, name, other);
}

/// Two names that resolve to the same slot are the same name.
pub proof fn lemma_slots_distinct(scope: ScopeView, a: Seq<char>, b: Seq<char>)
    requires
        scope.resolve(a) is Some,
        scope.resolve(a) == scope.resolve(b),
    ensures
        a == b,
{
    lemma_position_of(scope.params, a);
    lemma_position_of(scope.locals, a);
    lemma_position_of(scope.params, b);
    lemma_position_of(scope.locals, b);
}

/// After capturing a name, it is found under the index that the capture
/// returned, and capturing it again changes nothing.
pub proof fn lemma_captured_name_found(scope: ScopeView, name: Seq<char>, desc: UpvalueDescriptor)
    requires
        scope.well_formed(),
    ensures
        scope.add_upvalue(name, desc).upvalue_index(name) == Some(scope.add_upvalue_result(name)),
        scope.add_upvalue(name, desc).add_upvalue(name, desc) == scope.add_upvalue(name, desc),
        scope.add_upvalue(name, desc).well_formed(),
{
    lemma_position_of_push(scope.upvalue_names, name, name);
    lemma_position_of(scope.upvalue_names, name);
}

/// What resolving `name` as a captured variable of scope `i` does to the
/// chain of enclosing scopes (outermost first), and the upvalue index it gives:
/// a local of the immediately enclosing scope is captured directly; a name
/// captured by the enclosing scope is captured through its upvalue.
pub open spec fn chain_capture(views: Seq<ScopeView>, i: int, name: Seq<char>) -> (Seq<ScopeView>, Option<int>)
    decreases i,
{
    if i <= 0 || i >= views.len() {
        (views, None)
    } else {
        match views[i - 1].resolve(name) {
            Some(slot) => (
                views.update(i, views[i].add_upvalue(name, UpvalueDescriptor { is_local: true, index: slot as usize })),
                Some(views[i].add_upvalue_result(name)),
            ),
            None => {
                let (inner, parent) = chain_capture(views, i - 1, name);
                match parent {
                    None => (inner, None),
                    Some(p) => (
                        inner.update(i, inner[i].add_upvalue(name, UpvalueDescriptor { is_local: false, index: p as usize })),
                        Some(inner[i].add_upvalue_result(name)),
                    ),
                }
            },
        }
    }
}

/// Some function enclosing scope `i` declares `name` as a parameter or local.
pub open spec fn declared_in_enclosing(views: Seq<ScopeView>, i: int, name: Seq<char>) -> bool {
    exists|j: int| 0 <= j < i && #[trigger] views[j].resolve(name) is Some
}

/// Capturing a name only touches the scopes from 1 to `i`, keeps their
/// parameters and locals, and leaves every scope well formed.
pub proof fn lemma_chain_capture_frame(views: Seq<ScopeView>, i: int, name: Seq<char>)
    requires
        0 <= i < views.len(),
        forall|k: int| 0 <= k < views.len() ==> (#[trigger] views[k]).well_formed(),
    ensures
        chain_capture(views, i, name).0.len() == views.len(),
        forall|k: int| 0 <= k < views.len() ==> (#[trigger] chain_capture(views, i, name).0[k]).well_formed(),
        forall|k: int|
            0 <= k < views.len() ==> (#[trigger] chain_capture(views, i, name).0[k]).params == views[k].params
                && chain_capture(views, i, name).0[k].locals == views[k].locals,
        forall|k: int|
            (k == 0 || i < k < views.len()) ==> #[trigger] chain_capture(views, i, name).0[k] == views[k],
        forall|k: int|
            0 <= k < views.len() ==> views[k].upvalues.len() <= (#[trigger] chain_capture(views, i, name).0[k]).upvalues.len()
                <= views[k].upvalues.len() + 1,
        chain_capture(views, i, name).1 matches Some(u) ==> chain_capture(views, i, name).0[i].upvalue_index(name) == Some(u),
    decreases i,
{
    if i > 0 {
        match views[i - 1].resolve(name) {
            Some(slot) => {
                lemma_captured_name_found(views[i], name, UpvalueDescriptor { is_local: true, index: slot as usize });
                lemma_position_of_push(views[i].upvalue_names, name, name);
            },
            None => {
                lemma_chain_capture_frame(views, i - 1, name);
                let (inner, parent) = chain_capture(views, i - 1, name);
                if let Some(p) = parent {
                    lemma_captured_name_found(inner[i], name, UpvalueDescriptor { is_local: false, index: p as usize });
                }
            },
        }
    }
}

/// A name resolves as a captured variable exactly when a function that
/// encloses the current one declares it.
pub proof fn lemma_capture_iff_declared_outside(views: Seq<ScopeView>, i: int, name: Seq<char>)
    requires
        0 <= i < views.len(),
    ensures
        chain_capture(views, i, name).1 is Some <==> declared_in_enclosing(views, i, name),
    decreases i,
{
    if i > 0 {
        match views[i - 1].resolve(name) {
            Some(slot) => {
                assert(views[i - 1].resolve(name) is Some);
            },
            None => {
                lemma_capture_iff_declared_outside(views, i - 1, name);
                if declared_in_enclosing(views, i, name) {
                    let j = choose|j: int| 0 <= j < i && #[trigger] views[j].resolve(name) is Some;
                    assert(j != i - 1);
                    assert(declared_in_enclosing(views, i - 1, name));
                }
            },
        }
    }
}

/// The compiler's stack of function scopes, outermost first.
pub struct ScopeChain<D> {
    pub scopes: Vec<FunctionScope<D>>,
}

impl<D> ScopeChain<D> {
    /// The scopes by name, outermost first.
    pub open spec fn views(&self) -> Seq<ScopeView> {
        self.scopes@.map_values(|s: FunctionScope<D>| s@)
    }

    /// Every scope is well formed.
    pub open spec fn well_formed(&self) -> bool {
        forall|k: int| 0 <= k < self.scopes@.len() ==> (#[trigger] self.scopes@[k])@.well_formed()
    }

    /// An empty chain (code outside any function).
    pub fn new() -> (chain: Self)
        ensures
            chain.scopes@.len() == 0,
    {
        ScopeChain { scopes: Vec::new() }
    }

    /// Resolves a variable name in the current function's local scope.
    pub fn resolve_local(&self, name: &String) -> (slot: Option<usize>)
        requires
            self.well_formed(),
        ensures
            self.scopes@.len() == 0 ==> slot is None,
            self.scopes@.len() > 0 ==> match slot {
                Some(s) => self.scopes@.last()@.resolve(name@) == Some(s as int),
                None => self.scopes@.last()@.resolve(name@) is None,
            },
    {
        let n = self.scopes.len();
        if n == 0 {
            return None;
        }
        self.scopes[n - 1].resolve(name)
    }

    /// Recursively resolves `name` as an upvalue of scope `scope_index` by
    /// searching through the enclosing scopes, capturing it on the way.
    pub fn resolve_upvalue_recursive(&mut self, scope_index: usize, name: &String) -> (u: Option<usize>)
        requires
            scope_index < old(self).scopes@.len(),
            old(self).well_formed(),
        ensures
            final(self).scopes@.len() == old(self).scopes@.len(),
            final(self).views() == chain_capture(old(self).views(), scope_index as int, name@).0,
            match u {
                Some(i) => chain_capture(old(self).views(), scope_index as int, name@).1 == Some(i as int),
                None => chain_capture(old(self).views(), scope_index as int, name@).1 is None,
            },
            final(self).well_formed(),
            forall|k: int| 0 <= k < final(self).scopes@.len() ==> (#[trigger] final(self).scopes@[k]).upvalues@.len() <= old(self).scopes@[k].upvalues@.len() + 1,
        decreases scope_index,
    {
        let ghost before = self.views();
        if scope_index == 0 {
            return None;
        }
        let parent_index = scope_index - 1;
        let parent_local = self.scopes[parent_index].resolve(name);
        if let Some(local_index) = parent_local {
            let name_owned = name.clone();
            let ghost old_scopes = self.scopes@;
            let u = self.scopes[scope_index].add_upvalue(name_owned, true, local_index);
            proof {
                assert(self.views() =~= chain_capture(before, scope_index as int, name@).0);
            }
            return Some(u);
        }
        let parent_upvalue_index = match self.resolve_upvalue_recursive(parent_index, name) {
            Some(p) => p,
            None => return None,
        };
        proof {
            lemma_chain_capture_frame(before, parent_index as int, name@);
        }
        let name_owned = name.clone();
        let u = self.scopes[scope_index].add_upvalue(name_owned, false, parent_upvalue_index);
        proof {
            assert(self.views() =~= chain_capture(before, scope_index as int, name@).0);
        }
        Some(u)
    }

    /// Resolves `name` as a captured variable of the current function: an
    /// existing capture is reused, otherwise it is captured from the enclosing
    /// functions. Code outside nested functions captures nothing.
    pub fn resolve_upvalue(&mut self, name: &String) -> (u: Option<usize>)
        requires
            old(self).well_formed(),
        ensures
            final(self).scopes@.len() == old(self).scopes@.len(),
            final(self).well_formed(),
            old(self).scopes@.len() < 2 ==> u is None && final(self).views() == old(self).views(),
            old(self).scopes@.len() >= 2 ==> {
                let current = old(self).scopes@.len() - 1;
                match old(self).views()[current].upvalue_index(name@) {
                    Some(existing) => u matches Some(i) && i as int == existing && final(self).views() == old(self).views(),
                    None => final(self).views() == chain_capture(old(self).views(), current, name@).0
                        && match u {
                            Some(i) => chain_capture(old(self).views(), current, name@).1 == Some(i as int),
                            None => chain_capture(old(self).views(), current, name@).1 is None,
                        },
                }
            },
    {
        let n = self.scopes.len();
        if n < 2 {
            return None;
        }
        let current_index = n - 1;
        if let Some(existing) = self.scopes[current_index].resolve_upvalue(name) {
            return Some(existing);
        }
        self.resolve_upvalue_recursive(current_index, name)
    }

    /// Resolves a variable to where it lives: a local of the current function,
    /// else a variable captured from an enclosing function, else a global.
    pub fn resolve_variable(&mut self, name: &String) -> (target: VariableTarget)
        requires
            old(self).well_formed(),
        ensures
            final(self).scopes@.len() == old(self).scopes@.len(),
            final(self).well_formed(),
            match target {
                VariableTarget::Local(slot) => old(self).scopes@.len() > 0
                    && old(self).views().last().resolve(name@) == Some(slot as int)
                    && final(self).views() == old(self).views(),
                VariableTarget::Upvalue(index) => old(self).scopes@.len() >= 2
                    && old(self).views().last().resolve(name@) is None
                    && final(self).views()[old(self).scopes@.len() - 1].upvalue_index(name@) == Some(index as int),
                VariableTarget::Global => (old(self).scopes@.len() == 0
                    || old(self).views().last().resolve(name@) is None)
                    && !(old(self).scopes@.len() >= 2 && declared_in_enclosing(old(self).views(), old(self).scopes@.len() - 1, name@)
                        && old(self).views().last().upvalue_index(name@) is None),
            },
    {
        proof {
            if self.scopes@.len() > 0 {
                assert(self.views().last() == self.scopes@.last()@);
            }
        }
        if let Some(local) = self.resolve_local(name) {
            return VariableTarget::Local(local);
        }
        let ghost before = self.views();
        let n = self.scopes.len();
        let found = self.resolve_upvalue(name);
        proof {
            if n >= 2 {
                let current = n - 1;
                lemma_capture_iff_declared_outside(before, current as int, name@);
                lemma_position_of(before[current as int].upvalue_names, name@);
                if before[current as int].upvalue_index(name@) is None {
                    lemma_chain_capture_frame(before, current as int, name@);
                }
            }
        }
        match found {
            Some(upvalue) => VariableTarget::Upvalue(upvalue),
            None => VariableTarget::Global,
        }
    }

    /// Declares a local in the current function. Gives `None` outside any
    /// function, and also when the function already holds 254 parameters and
    /// locals, in which case `had_error` is set.
    pub fn declare_local_with_type(&mut self, name: String, type_annotation: Option<Type>, had_error: &mut bool) -> (r: Option<(usize, bool)>)
        requires
            old(self).well_formed(),
        ensures
            final(self).scopes@.len() == old(self).scopes@.len(),
            final(self).well_formed(),
            old(self).scopes@.len() == 0 ==> r is None && final(self).views() == old(self).views() && *final(had_error) == *old(had_error),
            old(self).scopes@.len() > 0 ==> {
                let current = old(self).scopes@.len() - 1;
                let view = old(self).views()[current];
                if view.params.len() + view.locals.len() + 1 >= 255 {
                    r is None && *final(had_error) && final(self).views() == old(self).views()
                } else {
                    &&& r == Some(((view.declare_result(name@).0) as usize, view.declare_result(name@).1))
                    &&& final(self).views() == old(self).views().update(current, view.declare(name@))
                    &&& *final(had_error) == *old(had_error)
                }
            },
    {
        let n = self.scopes.len();
        if n == 0 {
            return None;
        }
        let count = self.scopes[n - 1].parameters.len() + self.scopes[n - 1].locals.len();
        if count + 1 >= 255 {
            *had_error = true;
            return None;
        }
        let ghost before = self.views();
        let r = self.scopes[n - 1].declare_with_type(name, type_annotation);
        proof {
            assert(self.views() =~= before.update(n - 1, before[n - 1].declare(name@)));
        }
        Some(r)
    }

    /// Declares a local without a type annotation in the current function, as
    /// [`ScopeChain::declare_local_with_type`] does.
    pub fn declare_local(&mut self, name: String, had_error: &mut bool) -> (r: Option<(usize, bool)>)
        requires
            old(self).well_formed(),
        ensures
            final(self).scopes@.len() == old(self).scopes@.len(),
            final(self).well_formed(),
            old(self).scopes@.len() == 0 ==> r is None && final(self).views() == old(self).views() && *final(had_error) == *old(had_error),
            old(self).scopes@.len() > 0 ==> {
                let current = old(self).scopes@.len() - 1;
                let view = old(self).views()[current];
                if view.params.len() + view.locals.len() + 1 >= 255 {
                    r is None && *final(had_error) && final(self).views() == old(self).views()
                } else {
                    &&& r == Some(((view.declare_result(name@).0) as usize, view.declare_result(name@).1))
                    &&& final(self).views() == old(self).views().update(current, view.declare(name@))
                    &&& *final(had_error) == *old(had_error)
                }
            },
    {
        self.declare_local_with_type(name, None, had_error)
    }
}

} // verus!
