//! Where calls and decorators lead: definitions, known operations and modules.

use vstd::prelude::*;

use crate::chalk;
use crate::chalk::ModuleOrigin;
use crate::order;
use crate::semantic::{
    Db, Definedness, Definition, DefinitionKind, File, FileRange, Module, ScopeNode, Type,
    TypeDefinition, TypeKind,
};
use crate::text;
use crate::text::TextRange;

verus! {

broadcast use vstd::string::group_string_axioms;

/// The kind of definition that a call leads to.
#[derive(Clone, Copy, Debug, PartialEq, Eq, Hash, Structural)]
pub enum CallTargetKind {
    Function,
    ClassConstructor,
}

/// A definition that a call leads to.
#[derive(Clone, Copy, Debug, PartialEq, Eq, Hash, Structural)]
pub struct CallTarget {
    pub definition: Definition,
    pub kind: CallTargetKind,
}

/// An operation that a call leads to and that has no definition.
#[derive(Clone, Copy, Debug, PartialEq, Eq, Hash, Structural)]
pub enum KnownCallTarget {
    StrStartswith,
}

/// Everything that a call may lead to.
#[derive(Debug)]
pub struct CallTargets {
    pub targets: Vec<CallTarget>,
    pub known_targets: Vec<KnownCallTarget>,
    /// Whether the call may also lead somewhere else.
    pub has_unresolved: bool,
}

/// A module and symbol that a call leads to.
#[derive(Debug)]
pub struct CallModuleProvenance {
    pub module: String,
    pub symbol: String,
    pub origin: ModuleOrigin,
    pub ownership_origin: ModuleOrigin,
    pub receiver_parameter: Option<u32>,
}

/// A module and symbol that a decorator leads to.
#[derive(Debug)]
pub struct DecoratorModuleProvenance {
    pub module: String,
    pub symbol: String,
    pub origin: ModuleOrigin,
    pub ownership_origin: ModuleOrigin,
}

/// The module and symbol of a top-level function.
#[derive(Debug)]
pub struct FunctionDefinitionOrigin {
    pub module: String,
    pub symbol: String,
    pub origin: ModuleOrigin,
    pub ownership_origin: ModuleOrigin,
}

/// The kind of scope that a called definition stands in.
#[derive(Clone, Copy, Debug, PartialEq, Eq, Hash, Structural)]
pub enum CallDefinitionOriginKind {
    TopLevelFunction,
    Method,
    NestedFunction,
    ClassConstructor,
}

/// The module, symbol and scope of a called definition.
#[derive(Debug)]
pub struct CallDefinitionOrigin {
    pub module: String,
    pub symbol: String,
    /// The symbol with the scopes that enclose it.
    pub qualified_symbol: String,
    pub definition_file: File,
    pub definition_range: TextRange,
    pub kind: CallDefinitionOriginKind,
    pub origin: ModuleOrigin,
    pub ownership_origin: ModuleOrigin,
}

impl CallDefinitionOrigin {
    /// The exact range of the definition's name.
    pub fn definition_range(&self) -> (range: FileRange)
        ensures
            range.file == self.definition_file,
            range.range == self.definition_range,
    {
        FileRange { file: self.definition_file, range: self.definition_range }
    }
}

/// Everything that a decorator may lead to.
#[derive(Debug)]
pub struct DecoratorProvenance {
    pub definitions: Vec<Definition>,
    pub modules: Vec<DecoratorModuleProvenance>,
    /// Whether the modules account for everything that the decorator may be.
    pub module_fallback_is_complete: bool,
    pub has_unresolved: bool,
}

/// A binding that may reach a use of a name.
#[derive(Clone, Copy, Debug, PartialEq, Eq, Structural)]
pub enum Binding {
    Defined { definition: Definition, ty: Type },
    /// The name is unbound or was deleted on some path.
    Missing,
}

/// The expression that is called.
#[derive(Debug)]
pub enum Callee {
    /// A name, with the bindings that may reach it, its type where no binding does, and the
    /// definitions that its name leads to in the source.
    Name { id: String, bindings: Vec<Binding>, inferred: Option<Type>, sources: Vec<Definition> },
    /// An attribute of a receiver, with the definitions that it leads to in the source.
    Attribute { receiver: Option<Type>, attr: String, sources: Vec<Definition> },
    /// Anything else.
    Other { inferred: Option<Type> },
}

/// A decorator, or a call that makes one.
#[derive(Debug)]
pub enum Decorator {
    Plain(Callee),
    Factory(Callee),
}

// ---------------------------------------------------------------------------------------------
// Origins of definitions
// ---------------------------------------------------------------------------------------------

/// The origin of the module that a file is; a file outside all modules is of no known origin.
pub open spec fn file_origin(db: Db, file: File) -> ModuleOrigin {
    match db.file(file).module {
        Some(module) => chalk::origin_of(db, Some(module)),
        None => ModuleOrigin::Other,
    }
}

/// Who owns the module that a file is.
pub open spec fn file_owner(db: Db, file: File) -> ModuleOrigin {
    match db.file(file).module {
        Some(module) => chalk::owner_of(db, file, db.module(module).name@, Some(module)),
        None => ModuleOrigin::Other,
    }
}

/// The name of the module that a file is.
pub open spec fn file_module_name(db: Db, file: File) -> Seq<char> {
    match db.file(file).module {
        Some(module) => db.module(module).name@,
        None => Seq::empty(),
    }
}

/// What a scope adds to a qualified name.
pub open spec fn scope_component(scope: ScopeNode) -> Option<Seq<char>> {
    match scope {
        ScopeNode::Class { name } => Some(name@),
        ScopeNode::Function { name } => Some(name@ + ".<locals>"@),
        _ => None,
    }
}

/// The components that scopes, innermost first, add to a qualified name, outermost first.
pub open spec fn scope_components(scopes: Seq<ScopeNode>) -> Seq<Seq<char>>
    decreases scopes.len(),
{
    if scopes.len() == 0 {
        Seq::empty()
    } else {
        let outer = scope_components(scopes.drop_first());
        match scope_component(scopes[0]) {
            Some(component) => outer.push(component),
            None => outer,
        }
    }
}

/// A symbol with the scopes that enclose it.
pub open spec fn qualified_symbol(scopes: Seq<ScopeNode>, symbol: Seq<char>) -> Seq<char> {
    text::joined(scope_components(scopes).push(symbol), "."@)
}

/// The kind of a called definition, if it is a function or a class.
pub open spec fn definition_kind(db: Db, definition: Definition) -> Option<
    CallDefinitionOriginKind,
> {
    let data = db.definition(definition);
    match data.kind {
        DefinitionKind::Function => Some(
            if data.scopes@.len() > 0 && data.scopes@[0] is Module {
                CallDefinitionOriginKind::TopLevelFunction
            } else if data.scopes@.len() > 0 && data.scopes@[0] is Class {
                CallDefinitionOriginKind::Method
            } else {
                CallDefinitionOriginKind::NestedFunction
            },
        ),
        DefinitionKind::Class => Some(CallDefinitionOriginKind::ClassConstructor),
        _ => None,
    }
}

/// Whether an origin describes a called definition.
pub open spec fn describes(
    db: Db,
    definition: Definition,
    kind: CallDefinitionOriginKind,
    origin: CallDefinitionOrigin,
) -> bool {
    let data = db.definition(definition);
    &&& origin.module@ == file_module_name(db, data.file)
    &&& origin.symbol@ == data.name@
    &&& origin.qualified_symbol@ == qualified_symbol(data.scopes@, data.name@)
    &&& origin.definition_file == data.file
    &&& origin.definition_range == data.focus
    &&& origin.kind == kind
    &&& origin.origin == file_origin(db, data.file)
    &&& origin.ownership_origin == file_owner(db, data.file)
}

/// The name and the two origins of the module that a file is.
fn file_module_facts(db: &Db, file: File) -> (facts: (String, ModuleOrigin, ModuleOrigin))
    requires
        db.wf(),
        db.has_file(file),
    ensures
        facts.0@ == file_module_name(*db, file),
        facts.1 == file_origin(*db, file),
        facts.2 == file_owner(*db, file),
{
    match db.files[file.id].module {
        Some(module) => {
            let name = &db.modules[module.id].name;
            let origin = chalk::module_origin(db, Some(module));
            let owner = chalk::module_ownership_origin(db, file, name.as_str(), Some(module));
            (name.clone(), origin, owner)
        },
        None => (String::new(), ModuleOrigin::Other, ModuleOrigin::Other),
    }
}

/// The module and symbol of a top-level function definition.
pub fn chalk_function_definition_origin(db: &Db, definition: Definition) -> (origin: Option<
    FunctionDefinitionOrigin,
>)
    requires
        db.wf(),
        db.has_definition(definition),
    ensures
        match origin {
            Some(origin) => {
                let file = db.definition(definition).file;
                &&& definition_kind(*db, definition) == Some(
                    CallDefinitionOriginKind::TopLevelFunction,
                )
                &&& origin.module@ == file_module_name(*db, file)
                &&& origin.symbol@ == db.definition(definition).name@
                &&& origin.origin == file_origin(*db, file)
                &&& origin.ownership_origin == file_owner(*db, file)
            },
            None => definition_kind(*db, definition) != Some(
                CallDefinitionOriginKind::TopLevelFunction,
            ),
        },
{
    assert(db.definition_wf(db.definitions@[definition.id as int]));
    let data = &db.definitions[definition.id];
    if data.scopes.len() == 0 {
        return None;
    }
    match (&data.scopes[0], &data.kind) {
        (ScopeNode::Module, DefinitionKind::Function) => {
            let (module, origin, ownership_origin) = file_module_facts(db, data.file);
            Some(
                FunctionDefinitionOrigin {
                    module,
                    symbol: data.name.clone(),
                    origin,
                    ownership_origin,
                },
            )
        },
        _ => None,
    }
}

/// The symbol of a definition with the scopes that enclose it.
fn call_definition_qualified_symbol(scopes: &Vec<ScopeNode>, symbol: &str) -> (qualified: String)
    ensures
        qualified@ == qualified_symbol(scopes@, symbol@),
{
    let mut components: Vec<String> = Vec::new();
    let mut i: usize = scopes.len();
    assert(scopes@.skip(scopes@.len() as int) =~= Seq::<ScopeNode>::empty());
    assert(order::keys(components@) =~= Seq::<Seq<char>>::empty());
    while i > 0
        invariant
            i <= scopes.len(),
            order::keys(components@) == scope_components(scopes@.skip(i as int)),
        decreases i,
    {
        let ghost before = components@;
        proof {
            assert(scopes@.skip(i - 1).drop_first() =~= scopes@.skip(i as int));
            assert(scopes@.skip(i - 1)[0] == scopes@[i - 1]);
        }
        match &scopes[i - 1] {
            ScopeNode::Class { name } => {
                components.push(name.clone());
                assert(order::keys(components@) =~= order::keys(before).push(name@));
            },
            ScopeNode::Function { name } => {
                let mut local = name.clone();
                text::push_text(&mut local, ".<locals>");
                components.push(local);
                assert(order::keys(components@) =~= order::keys(before).push(local@));
            },
            _ => {},
        }
        i = i - 1;
    }
    assert(scopes@.skip(0) =~= scopes@);
    let ghost outer = components@;
    components.push(symbol.to_owned());
    assert(order::keys(components@) =~= order::keys(outer).push(symbol@));
    order::join_texts(&components, ".")
}

/// The module, symbol and scope of a function or class definition that a call leads to.
pub fn chalk_call_definition_origin(db: &Db, definition: Definition) -> (origin: Option<
    CallDefinitionOrigin,
>)
    requires
        db.wf(),
        db.has_definition(definition),
    ensures
        match (origin, definition_kind(*db, definition)) {
            (Some(origin), Some(kind)) => describes(*db, definition, kind, origin),
            (None, None) => true,
            _ => false,
        },
{
    assert(db.definition_wf(db.definitions@[definition.id as int]));
    let data = &db.definitions[definition.id];
    let kind = match &data.kind {
        DefinitionKind::Function => {
            if data.scopes.len() == 0 {
                CallDefinitionOriginKind::NestedFunction
            } else {
                match &data.scopes[0] {
                    ScopeNode::Module => CallDefinitionOriginKind::TopLevelFunction,
                    ScopeNode::Class { .. } => CallDefinitionOriginKind::Method,
                    _ => CallDefinitionOriginKind::NestedFunction,
                }
            }
        },
        DefinitionKind::Class => CallDefinitionOriginKind::ClassConstructor,
        _ => {
            return None;
        },
    };
    let (module, origin, ownership_origin) = file_module_facts(db, data.file);
    Some(
        CallDefinitionOrigin {
            module,
            symbol: data.name.clone(),
            qualified_symbol: call_definition_qualified_symbol(&data.scopes, data.name.as_str()),
            definition_file: data.file,
            definition_range: data.focus,
            kind,
            origin,
            ownership_origin,
        },
    )
}

// ---------------------------------------------------------------------------------------------
// Targets of calls
// ---------------------------------------------------------------------------------------------

/// What is collected of the targets of a call.
pub struct Collected {
    pub targets: Seq<CallTarget>,
    pub known: Seq<KnownCallTarget>,
    pub unresolved: bool,
    pub never: bool,
}

impl Collected {
    pub open spec fn nothing() -> Self {
        Collected {
            targets: Seq::empty(),
            known: Seq::empty(),
            unresolved: false,
            never: false,
        }
    }

    /// With another definition, unless it is there already.
    pub open spec fn with(self, definition: Definition, kind: CallTargetKind) -> Self {
        let target = CallTarget { definition, kind };
        if self.targets.contains(target) {
            self
        } else {
            Collected { targets: self.targets.push(target), ..self }
        }
    }

    /// With a known operation, unless it is there already.
    pub open spec fn with_known(self, target: KnownCallTarget) -> Self {
        if self.known.contains(target) {
            self
        } else {
            Collected { known: self.known.push(target), ..self }
        }
    }

    pub open spec fn with_unresolved(self) -> Self {
        Collected { unresolved: true, ..self }
    }
}

/// The types that a type may be: the elements of a union, or the type itself.
pub open spec fn alternatives(db: Db, ty: Type) -> Seq<Type> {
    match db.ty(ty).kind {
        TypeKind::Union { elements } => elements@,
        _ => seq![ty],
    }
}

/// Collects where calling a value of a type that is no union leads.
pub open spec fn collect_one(db: Db, ty: Type, state: Collected) -> Collected {
    match db.ty(ty).kind {
        TypeKind::FunctionLiteral => match db.ty(ty).definition {
            Some(TypeDefinition::Function(definition)) => state.with(
                definition,
                CallTargetKind::Function,
            ),
            _ => state.with_unresolved(),
        },
        TypeKind::BoundMethod => match db.ty(ty).definition {
            Some(TypeDefinition::Function(definition)) => state.with(
                definition,
                CallTargetKind::Function,
            ),
            _ => state.with_unresolved(),
        },
        TypeKind::ClassLiteral { .. } => match db.ty(ty).definition {
            Some(TypeDefinition::StaticClass(definition)) => state.with(
                definition,
                CallTargetKind::ClassConstructor,
            ),
            _ => state.with_unresolved(),
        },
        TypeKind::StrStartswith => state.with_known(KnownCallTarget::StrStartswith),
        TypeKind::Never => Collected { never: true, ..state },
        _ => state.with_unresolved(),
    }
}

/// Collects where calling values of several types leads.
pub open spec fn collect_all(db: Db, types: Seq<Type>, state: Collected) -> Collected
    decreases types.len(),
{
    if types.len() == 0 {
        state
    } else {
        collect_one(db, types.last(), collect_all(db, types.drop_last(), state))
    }
}

/// Collects where calling a value of a type leads.
pub open spec fn collect(db: Db, ty: Type, state: Collected) -> Collected {
    collect_all(db, alternatives(db, ty), state)
}

/// Collects where calling an attribute of one receiver leads.
pub open spec fn collect_member(
    db: Db,
    receiver: Type,
    name: Seq<char>,
    state: Collected,
) -> Collected {
    match db.member(receiver, name) {
        Some((ty, definedness)) => collect(
            db,
            ty,
            if definedness == Definedness::PossiblyUndefined {
                state.with_unresolved()
            } else {
                state
            },
        ),
        None => state.with_unresolved(),
    }
}

/// Collects where calling an attribute of several receivers leads.
pub open spec fn collect_members(
    db: Db,
    receivers: Seq<Type>,
    name: Seq<char>,
    state: Collected,
) -> Collected
    decreases receivers.len(),
{
    if receivers.len() == 0 {
        state
    } else {
        collect_member(
            db,
            receivers.last(),
            name,
            collect_members(db, receivers.drop_last(), name, state),
        )
    }
}

/// Collects where the bindings of a name lead.
pub open spec fn collect_bindings(db: Db, bindings: Seq<Binding>, state: Collected) -> Collected
    decreases bindings.len(),
{
    if bindings.len() == 0 {
        state
    } else {
        let before = collect_bindings(db, bindings.drop_last(), state);
        match bindings.last() {
            Binding::Defined { ty, .. } => collect(db, ty, before),
            Binding::Missing => before,
        }
    }
}

/// Collects the definitions that the source names; they are only a fallback, so the call stays
/// unresolved too.
pub open spec fn collect_sources(
    db: Db,
    sources: Seq<Definition>,
    state: Collected,
) -> Collected
    decreases sources.len(),
{
    if sources.len() == 0 {
        state
    } else {
        let before = collect_sources(db, sources.drop_last(), state);
        match db.definition(sources.last()).kind {
            DefinitionKind::Function => before.with_unresolved().with(
                sources.last(),
                CallTargetKind::Function,
            ),
            DefinitionKind::Class => before.with_unresolved().with(
                sources.last(),
                CallTargetKind::ClassConstructor,
            ),
            _ => before,
        }
    }
}

/// Collects the source definitions where the types led nowhere.
pub open spec fn collect_fallback(
    db: Db,
    sources: Seq<Definition>,
    state: Collected,
) -> Collected {
    if state.targets.len() == 0 && state.known.len() == 0 {
        collect_sources(db, sources, state)
    } else {
        state
    }
}

/// Whether a binding defines the name.
pub open spec fn defines(binding: Binding) -> bool {
    binding is Defined
}

/// What is collected from a type that may not be known.
pub open spec fn collect_inferred(db: Db, inferred: Option<Type>, state: Collected) -> Collected {
    match inferred {
        Some(ty) => collect(db, ty, state),
        None => state.with_unresolved(),
    }
}

/// Where a callee leads.
pub open spec fn collect_callee(db: Db, callee: Callee) -> Collected {
    let start = Collected::nothing();
    match callee {
        Callee::Name { bindings, inferred, sources, .. } => {
            let bound = collect_bindings(db, bindings@, start);
            let has_definition = exists|i: int|
                0 <= i < bindings@.len() && defines(#[trigger] bindings@[i]);
            let has_missing = exists|i: int|
                0 <= i < bindings@.len() && !defines(#[trigger] bindings@[i]);
            let state = if has_definition {
                if has_missing {
                    bound.with_unresolved()
                } else {
                    bound
                }
            } else {
                collect_inferred(db, inferred, bound)
            };
            collect_fallback(db, sources@, state)
        },
        Callee::Attribute { receiver, attr, sources } => match receiver {
            Some(receiver) => collect_fallback(
                db,
                sources@,
                collect_members(db, alternatives(db, receiver), attr@, start),
            ),
            None => start.with_unresolved(),
        },
        Callee::Other { inferred } => collect_inferred(db, inferred, start),
    }
}

/// Whether targets are those that were collected; a call that can never return counts as
/// unresolved where it leads to no definition.
pub open spec fn are_targets(targets: CallTargets, state: Collected) -> bool {
    &&& targets.targets@ == state.targets
    &&& targets.known_targets@ == state.known
    &&& targets.has_unresolved == (state.unresolved || (state.never && state.targets.len() == 0))
}

/// What a callee mentions is in the picture.
pub open spec fn callee_wf(db: Db, callee: Callee) -> bool {
    match callee {
        Callee::Name { bindings, inferred, sources, .. } => {
            &&& forall|i: int|
                0 <= i < bindings@.len() ==> ((#[trigger] bindings@[i]) matches Binding::Defined {
                    definition,
                    ty,
                } ==> db.has_definition(definition) && db.has_type(ty))
            &&& inferred matches Some(ty) ==> db.has_type(ty)
            &&& forall|i: int|
                0 <= i < sources@.len() ==> db.has_definition(#[trigger] sources@[i])
        },
        Callee::Attribute { receiver, sources, .. } => {
            &&& receiver matches Some(ty) ==> db.has_type(ty)
            &&& forall|i: int|
                0 <= i < sources@.len() ==> db.has_definition(#[trigger] sources@[i])
        },
        Callee::Other { inferred } => inferred matches Some(ty) ==> db.has_type(ty),
    }
}

/// Targets as they are collected.
struct CallTargetCollector {
    targets: Vec<CallTarget>,
    known_targets: Vec<KnownCallTarget>,
    has_unresolved: bool,
    saw_never: bool,
}

impl CallTargetCollector {
    spec fn state(self) -> Collected {
        Collected {
            targets: self.targets@,
            known: self.known_targets@,
            unresolved: self.has_unresolved,
            never: self.saw_never,
        }
    }

    fn new() -> (collector: Self)
        ensures
            collector.state() == Collected::nothing(),
    {
        CallTargetCollector {
            targets: Vec::new(),
            known_targets: Vec::new(),
            has_unresolved: false,
            saw_never: false,
        }
    }

    fn push(&mut self, definition: Definition, kind: CallTargetKind)
        ensures
            final(self).state() == old(self).state().with(definition, kind),
    {
        let target = CallTarget { definition, kind };
        let mut i: usize = 0;
        while i < self.targets.len()
            invariant
                i <= self.targets.len(),
                *self == *old(self),
                target == (CallTarget { definition, kind }),
                forall|j: int| 0 <= j < i ==> #[trigger] self.targets@[j] != target,
            decreases self.targets.len() - i,
        {
            if self.targets[i] == target {
                assert(self.targets@[i as int] == target);
                assert(self.targets@.contains(target));
                return;
            }
            i = i + 1;
        }
        self.targets.push(target);
    }

    fn push_known(&mut self, target: KnownCallTarget)
        ensures
            final(self).state() == old(self).state().with_known(target),
    {
        let mut i: usize = 0;
        while i < self.known_targets.len()
            invariant
                i <= self.known_targets.len(),
                *self == *old(self),
                forall|j: int| 0 <= j < i ==> #[trigger] self.known_targets@[j] != target,
            decreases self.known_targets.len() - i,
        {
            if self.known_targets[i] == target {
                assert(self.known_targets@[i as int] == target);
                assert(self.known_targets@.contains(target));
                return;
            }
            i = i + 1;
        }
        self.known_targets.push(target);
    }

    fn collect_one(&mut self, db: &Db, ty: Type)
        requires
            db.wf(),
            db.has_type(ty),
        ensures
            final(self).state() == self::collect_one(*db, ty, old(self).state()),
    {
        let data = &db.types[ty.id];
        match &data.kind {
            TypeKind::FunctionLiteral | TypeKind::BoundMethod => match data.definition {
                Some(TypeDefinition::Function(definition)) => {
                    self.push(definition, CallTargetKind::Function);
                },
                _ => {
                    self.has_unresolved = true;
                },
            },
            TypeKind::ClassLiteral { .. } => match data.definition {
                Some(TypeDefinition::StaticClass(definition)) => {
                    self.push(definition, CallTargetKind::ClassConstructor);
                },
                _ => {
                    self.has_unresolved = true;
                },
            },
            TypeKind::StrStartswith => {
                self.push_known(KnownCallTarget::StrStartswith);
            },
            TypeKind::Never => {
                self.saw_never = true;
            },
            _ => {
                self.has_unresolved = true;
            },
        }
    }

    fn collect_type(&mut self, db: &Db, ty: Type)
        requires
            db.wf(),
            db.has_type(ty),
        ensures
            final(self).state() == collect(*db, ty, old(self).state()),
    {
        assert(db.type_wf(db.types@[ty.id as int]));
        match &db.types[ty.id].kind {
            TypeKind::Union { elements } => {
                let mut i: usize = 0;
                assert(elements@.take(0) =~= Seq::<Type>::empty());
                while i < elements.len()
                    invariant
                        i <= elements.len(),
                        db.wf(),
                        db.has_types(elements@),
                        self.state() == collect_all(
                            *db,
                            elements@.take(i as int),
                            old(self).state(),
                        ),
                    decreases elements.len() - i,
                {
                    proof {
                        assert(elements@.take(i + 1).drop_last() =~= elements@.take(i as int));
                        assert(elements@.take(i + 1).last() == elements@[i as int]);
                    }
                    self.collect_one(db, elements[i]);
                    i = i + 1;
                }
                assert(elements@.take(elements@.len() as int) =~= elements@);
            },
            _ => {
                self.collect_one(db, ty);
                proof {
                    let one = seq![ty];
                    assert(one.drop_last() =~= Seq::<Type>::empty());
                    assert(collect_all(*db, one.drop_last(), old(self).state()) == old(
                        self,
                    ).state());
                    assert(collect_all(*db, one, old(self).state()) == self.state());
                }
            },
        }
    }

    fn collect_member(&mut self, db: &Db, receiver: Type, name: &str)
        requires
            db.wf(),
            db.has_type(receiver),
        ensures
            final(self).state() == self::collect_member(*db, receiver, name@, old(self).state()),
    {
        match db.find_member(receiver, name) {
            Some((ty, definedness)) => {
                if definedness == Definedness::PossiblyUndefined {
                    self.has_unresolved = true;
                }
                self.collect_type(db, ty);
            },
            None => {
                self.has_unresolved = true;
            },
        }
    }

    fn collect_attribute_on_type(&mut self, db: &Db, receiver: Type, name: &str)
        requires
            db.wf(),
            db.has_type(receiver),
        ensures
            final(self).state() == collect_members(
                *db,
                alternatives(*db, receiver),
                name@,
                old(self).state(),
            ),
    {
        assert(db.type_wf(db.types@[receiver.id as int]));
        match &db.types[receiver.id].kind {
            TypeKind::Union { elements } => {
                let mut i: usize = 0;
                assert(elements@.take(0) =~= Seq::<Type>::empty());
                while i < elements.len()
                    invariant
                        i <= elements.len(),
                        db.wf(),
                        db.has_types(elements@),
                        self.state() == collect_members(
                            *db,
                            elements@.take(i as int),
                            name@,
                            old(self).state(),
                        ),
                    decreases elements.len() - i,
                {
                    proof {
                        assert(elements@.take(i + 1).drop_last() =~= elements@.take(i as int));
                        assert(elements@.take(i + 1).last() == elements@[i as int]);
                    }
                    self.collect_member(db, elements[i], name);
                    i = i + 1;
                }
                assert(elements@.take(elements@.len() as int) =~= elements@);
            },
            _ => {
                self.collect_member(db, receiver, name);
                proof {
                    let one = seq![receiver];
                    assert(one.drop_last() =~= Seq::<Type>::empty());
                    assert(collect_members(*db, one.drop_last(), name@, old(self).state()) == old(
                        self,
                    ).state());
                    assert(collect_members(*db, one, name@, old(self).state()) == self.state());
                }
            },
        }
    }

    fn collect_source_definitions(&mut self, db: &Db, sources: &Vec<Definition>)
        requires
            forall|i: int| 0 <= i < sources@.len() ==> db.has_definition(#[trigger] sources@[i]),
        ensures
            final(self).state() == collect_fallback(*db, sources@, old(self).state()),
    {
        if self.targets.len() > 0 || self.known_targets.len() > 0 {
            return;
        }
        let mut i: usize = 0;
        assert(sources@.take(0) =~= Seq::<Definition>::empty());
        while i < sources.len()
            invariant
                i <= sources.len(),
                forall|i: int|
                    0 <= i < sources@.len() ==> db.has_definition(#[trigger] sources@[i]),
                self.state() == collect_sources(*db, sources@.take(i as int), old(self).state()),
            decreases sources.len() - i,
        {
            proof {
                assert(sources@.take(i + 1).drop_last() =~= sources@.take(i as int));
                assert(sources@.take(i + 1).last() == sources@[i as int]);
            }
            let definition = sources[i];
            match &db.definitions[definition.id].kind {
                DefinitionKind::Function => {
                    self.has_unresolved = true;
                    self.push(definition, CallTargetKind::Function);
                },
                DefinitionKind::Class => {
                    self.has_unresolved = true;
                    self.push(definition, CallTargetKind::ClassConstructor);
                },
                _ => {},
            }
            i = i + 1;
        }
        assert(sources@.take(sources@.len() as int) =~= sources@);
    }

    fn collect_name(
        &mut self,
        db: &Db,
        bindings: &Vec<Binding>,
        inferred: Option<Type>,
        sources: &Vec<Definition>,
    )
        requires
            db.wf(),
            old(self).state() == Collected::nothing(),
            forall|i: int|
                0 <= i < bindings@.len() ==> ((#[trigger] bindings@[i]) matches Binding::Defined {
                    definition,
                    ty,
                } ==> db.has_definition(definition) && db.has_type(ty)),
            inferred matches Some(ty) ==> db.has_type(ty),
            forall|i: int| 0 <= i < sources@.len() ==> db.has_definition(#[trigger] sources@[i]),
        ensures
            ({
                let bound = collect_bindings(*db, bindings@, Collected::nothing());
                let has_definition = exists|i: int|
                    0 <= i < bindings@.len() && defines(#[trigger] bindings@[i]);
                let has_missing = exists|i: int|
                    0 <= i < bindings@.len() && !defines(#[trigger] bindings@[i]);
                let state = if has_definition {
                    if has_missing {
                        bound.with_unresolved()
                    } else {
                        bound
                    }
                } else {
                    collect_inferred(*db, inferred, bound)
                };
                final(self).state() == collect_fallback(*db, sources@, state)
            }),
    {
        let mut has_definition = false;
        let mut has_missing = false;
        let mut i: usize = 0;
        assert(bindings@.take(0) =~= Seq::<Binding>::empty());
        while i < bindings.len()
            invariant
                i <= bindings.len(),
                db.wf(),
                forall|i: int|
                    0 <= i < bindings@.len() ==> ((
                    #[trigger] bindings@[i]) matches Binding::Defined { definition, ty }
                        ==> db.has_definition(definition) && db.has_type(ty)),
                self.state() == collect_bindings(
                    *db,
                    bindings@.take(i as int),
                    Collected::nothing(),
                ),
                has_definition == exists|j: int| 0 <= j < i && defines(#[trigger] bindings@[j]),
                has_missing == exists|j: int| 0 <= j < i && !defines(#[trigger] bindings@[j]),
            decreases bindings.len() - i,
        {
            proof {
                assert(bindings@.take(i + 1).drop_last() =~= bindings@.take(i as int));
                assert(bindings@.take(i + 1).last() == bindings@[i as int]);
            }
            match bindings[i] {
                Binding::Defined { definition, ty } => {
                    assert(defines(bindings@[i as int]));
                    has_definition = true;
                    self.collect_type(db, ty);
                },
                Binding::Missing => {
                    assert(!defines(bindings@[i as int]));
                    has_missing = true;
                },
            }
            i = i + 1;
        }
        assert(bindings@.take(bindings@.len() as int) =~= bindings@);
        if has_definition {
            if has_missing {
                self.has_unresolved = true;
            }
        } else {
            match inferred {
                Some(ty) => self.collect_type(db, ty),
                None => {
                    self.has_unresolved = true;
                },
            }
        }
        self.collect_source_definitions(db, sources);
    }

    fn collect_expression(&mut self, db: &Db, callee: &Callee)
        requires
            db.wf(),
            callee_wf(*db, *callee),
            old(self).state() == Collected::nothing(),
        ensures
            final(self).state() == collect_callee(*db, *callee),
    {
        match callee {
            Callee::Name { bindings, inferred, sources, .. } => {
                self.collect_name(db, bindings, *inferred, sources);
            },
            Callee::Attribute { receiver, attr, sources } => match receiver {
                Some(receiver) => {
                    self.collect_attribute_on_type(db, *receiver, attr.as_str());
                    self.collect_source_definitions(db, sources);
                },
                None => {
                    self.has_unresolved = true;
                },
            },
            Callee::Other { inferred } => match inferred {
                Some(ty) => self.collect_type(db, *ty),
                None => {
                    self.has_unresolved = true;
                },
            },
        }
    }
}

/// Everything that a callee may lead to.
fn call_targets(db: &Db, callee: &Callee) -> (targets: CallTargets)
    requires
        db.wf(),
        callee_wf(*db, *callee),
    ensures
        are_targets(targets, collect_callee(*db, *callee)),
{
    let mut collector = CallTargetCollector::new();
    collector.collect_expression(db, callee);
    let has_unresolved = collector.has_unresolved || (collector.saw_never
        && collector.targets.len() == 0);
    CallTargets {
        targets: collector.targets,
        known_targets: collector.known_targets,
        has_unresolved,
    }
}

/// Whether the collected definitions are in the picture.
pub open spec fn targets_known(db: Db, targets: Seq<CallTarget>) -> bool {
    forall|i: int| 0 <= i < targets.len() ==> db.has_definition((#[trigger] targets[i]).definition)
}

proof fn lemma_collect_one_known(db: Db, ty: Type, state: Collected)
    requires
        db.wf(),
        db.has_type(ty),
        targets_known(db, state.targets),
    ensures
        targets_known(db, collect_one(db, ty, state).targets),
{
    assert(db.type_wf(db.types@[ty.id as int]));
}

proof fn lemma_collect_all_known(db: Db, types: Seq<Type>, state: Collected)
    requires
        db.wf(),
        forall|i: int| 0 <= i < types.len() ==> db.has_type(#[trigger] types[i]),
        targets_known(db, state.targets),
    ensures
        targets_known(db, collect_all(db, types, state).targets),
    decreases types.len(),
{
    if types.len() > 0 {
        lemma_collect_all_known(db, types.drop_last(), state);
        lemma_collect_one_known(
            db,
            types.last(),
            collect_all(db, types.drop_last(), state),
        );
    }
}

proof fn lemma_alternatives_known(db: Db, ty: Type)
    requires
        db.wf(),
        db.has_type(ty),
    ensures
        forall|i: int|
            0 <= i < alternatives(db, ty).len() ==> db.has_type(#[trigger] alternatives(db, ty)[i]),
{
    assert(db.type_wf(db.types@[ty.id as int]));
}

proof fn lemma_collect_known(db: Db, ty: Type, state: Collected)
    requires
        db.wf(),
        db.has_type(ty),
        targets_known(db, state.targets),
    ensures
        targets_known(db, collect(db, ty, state).targets),
{
    lemma_alternatives_known(db, ty);
    lemma_collect_all_known(db, alternatives(db, ty), state);
}

proof fn lemma_collect_members_known(
    db: Db,
    receivers: Seq<Type>,
    name: Seq<char>,
    state: Collected,
)
    requires
        db.wf(),
        forall|i: int| 0 <= i < receivers.len() ==> db.has_type(#[trigger] receivers[i]),
        targets_known(db, state.targets),
    ensures
        targets_known(db, collect_members(db, receivers, name, state).targets),
    decreases receivers.len(),
{
    if receivers.len() > 0 {
        lemma_collect_members_known(db, receivers.drop_last(), name, state);
        let before = collect_members(db, receivers.drop_last(), name, state);
        db.lemma_member(receivers.last(), name);
        match db.member(receivers.last(), name) {
            Some((ty, definedness)) => {
                lemma_collect_known(
                    db,
                    ty,
                    if definedness == Definedness::PossiblyUndefined {
                        before.with_unresolved()
                    } else {
                        before
                    },
                );
            },
            None => {},
        }
    }
}

proof fn lemma_collect_bindings_known(db: Db, bindings: Seq<Binding>, state: Collected)
    requires
        db.wf(),
        forall|i: int|
            0 <= i < bindings.len() ==> ((#[trigger] bindings[i]) matches Binding::Defined {
                ty,
                ..
            } ==> db.has_type(ty)),
        targets_known(db, state.targets),
    ensures
        targets_known(db, collect_bindings(db, bindings, state).targets),
    decreases bindings.len(),
{
    if bindings.len() > 0 {
        lemma_collect_bindings_known(db, bindings.drop_last(), state);
        assert(bindings.last() == bindings[bindings.len() - 1]);
        if let Binding::Defined { ty, .. } = bindings.last() {
            lemma_collect_known(db, ty, collect_bindings(db, bindings.drop_last(), state));
        }
    }
}

proof fn lemma_collect_sources_known(db: Db, sources: Seq<Definition>, state: Collected)
    requires
        forall|i: int| 0 <= i < sources.len() ==> db.has_definition(#[trigger] sources[i]),
        targets_known(db, state.targets),
    ensures
        targets_known(db, collect_sources(db, sources, state).targets),
    decreases sources.len(),
{
    if sources.len() > 0 {
        lemma_collect_sources_known(db, sources.drop_last(), state);
    }
}

/// A callee in the picture leads to definitions in the picture.
pub proof fn lemma_collect_callee_known(db: Db, callee: Callee)
    requires
        db.wf(),
        callee_wf(db, callee),
    ensures
        targets_known(db, collect_callee(db, callee).targets),
{
    let start = Collected::nothing();
    match callee {
        Callee::Name { bindings, inferred, sources, .. } => {
            lemma_collect_bindings_known(db, bindings@, start);
            let bound = collect_bindings(db, bindings@, start);
            if let Some(ty) = inferred {
                lemma_collect_known(db, ty, bound);
            }
            lemma_collect_sources_known(db, sources@, bound);
            lemma_collect_sources_known(db, sources@, bound.with_unresolved());
            lemma_collect_sources_known(db, sources@, collect_inferred(db, inferred, bound));
        },
        Callee::Attribute { receiver, attr, sources } => {
            if let Some(receiver) = receiver {
                lemma_alternatives_known(db, receiver);
                let state = collect_members(db, alternatives(db, receiver), attr@, start);
                lemma_collect_members_known(db, alternatives(db, receiver), attr@, start);
                lemma_collect_sources_known(db, sources@, state);
            }
        },
        Callee::Other { inferred } => {
            if let Some(ty) = inferred {
                lemma_collect_known(db, ty, start);
            }
        },
    }
}

// ---------------------------------------------------------------------------------------------
// Modules behind calls and decorators
// ---------------------------------------------------------------------------------------------

/// A module and symbol, with what is known of the module.
pub struct ModuleSymbol {
    pub module: Seq<char>,
    pub symbol: Seq<char>,
    pub origin: ModuleOrigin,
    pub owner: ModuleOrigin,
    pub receiver: Option<u32>,
}

impl CallModuleProvenance {
    pub open spec fn symbol_view(self) -> ModuleSymbol {
        ModuleSymbol {
            module: self.module@,
            symbol: self.symbol@,
            origin: self.origin,
            owner: self.ownership_origin,
            receiver: self.receiver_parameter,
        }
    }
}

impl DecoratorModuleProvenance {
    pub open spec fn symbol_view(self) -> ModuleSymbol {
        ModuleSymbol {
            module: self.module@,
            symbol: self.symbol@,
            origin: self.origin,
            owner: self.ownership_origin,
            receiver: None,
        }
    }
}

/// The symbols of a list.
pub open spec fn call_symbols(list: Seq<CallModuleProvenance>) -> Seq<ModuleSymbol> {
    Seq::new(list.len(), |i: int| list[i].symbol_view())
}

/// The symbols of a list.
pub open spec fn decorator_symbols(list: Seq<DecoratorModuleProvenance>) -> Seq<ModuleSymbol> {
    Seq::new(list.len(), |i: int| list[i].symbol_view())
}

/// A list with another symbol, unless it is there already.
pub open spec fn with_symbol(list: Seq<ModuleSymbol>, symbol: ModuleSymbol) -> Seq<ModuleSymbol> {
    if list.contains(symbol) {
        list
    } else {
        list.push(symbol)
    }
}

/// Whether a module is a package or lies in it.
pub open spec fn lies_in(module: Seq<char>, package: Seq<char>) -> bool {
    module == package || (package + "."@).is_prefix_of(module)
}

/// Whether a module belongs to the accelerator's own packages.
pub open spec fn in_chalk_namespace(module: Seq<char>) -> bool {
    lies_in(module, "chalk"@) || lies_in(module, "chalkdf"@)
}

/// Whether a module belongs to the accelerator's own packages.
pub fn is_chalk_namespace(module: &str) -> (inside: bool)
    ensures
        inside == in_chalk_namespace(module@),
{
    proof {
        reveal_strlit("chalk");
        reveal_strlit("chalkdf");
        reveal_strlit("chalk.");
        reveal_strlit("chalkdf.");
        reveal_strlit(".");
        assert("chalk"@ + "."@ =~= "chalk."@);
        assert("chalkdf"@ + "."@ =~= "chalkdf."@);
    }
    text::same_text(module, "chalk") || text::has_prefix(module, "chalk.") || text::same_text(
        module,
        "chalkdf",
    ) || text::has_prefix(module, "chalkdf.")
}

/// The symbol that an import definition brings in.
pub open spec fn imported_symbol(
    db: Db,
    definition: Definition,
    id: Seq<char>,
) -> Option<ModuleSymbol> {
    let data = db.definition(definition);
    match data.kind {
        DefinitionKind::ImportFrom { module: Some(module), symbol, typing_module } => Some(
            ModuleSymbol {
                module: module@,
                symbol: symbol@,
                origin: chalk::origin_of(db, typing_module),
                owner: chalk::owner_of(db, data.file, module@, typing_module),
                receiver: None,
            },
        ),
        DefinitionKind::StarImport { module: Some(module), typing_module } => Some(
            ModuleSymbol {
                module: module@,
                symbol: id,
                origin: chalk::origin_of(db, typing_module),
                owner: chalk::owner_of(db, data.file, module@, typing_module),
                receiver: None,
            },
        ),
        _ => None,
    }
}

/// The symbol that a binding brings in by an import.
pub open spec fn bound_symbol(db: Db, binding: Binding, id: Seq<char>) -> Option<ModuleSymbol> {
    match binding {
        Binding::Defined { definition, .. } => imported_symbol(db, definition, id),
        Binding::Missing => None,
    }
}

/// The symbols that bindings bring in by imports.
pub open spec fn imported_symbols(
    db: Db,
    bindings: Seq<Binding>,
    id: Seq<char>,
) -> Seq<ModuleSymbol>
    decreases bindings.len(),
{
    if bindings.len() == 0 {
        Seq::empty()
    } else {
        let before = imported_symbols(db, bindings.drop_last(), id);
        match bound_symbol(db, bindings.last(), id) {
            Some(symbol) => with_symbol(before, symbol),
            None => before,
        }
    }
}

/// Whether every binding of a name is an import of a known module, and there is one.
pub open spec fn is_directly_imported(db: Db, bindings: Seq<Binding>, id: Seq<char>) -> bool {
    bindings.len() > 0 && forall|i: int|
        0 <= i < bindings.len() ==> bound_symbol(db, #[trigger] bindings[i], id) is Some
}

/// The symbols that an attribute of module receivers names.
pub open spec fn module_attributes(
    db: Db,
    file: File,
    receivers: Seq<Type>,
    symbol: Seq<char>,
) -> Seq<ModuleSymbol>
    decreases receivers.len(),
{
    if receivers.len() == 0 {
        Seq::empty()
    } else {
        let before = module_attributes(db, file, receivers.drop_last(), symbol);
        match db.ty(receivers.last()).kind {
            TypeKind::ModuleLiteral { module } => with_symbol(
                before,
                ModuleSymbol {
                    module: db.module(module).name@,
                    symbol,
                    origin: chalk::origin_of(db, Some(module)),
                    owner: chalk::owner_of(db, file, db.module(module).name@, Some(module)),
                    receiver: None,
                },
            ),
            _ => before,
        }
    }
}

/// The symbols that a decorator names by way of modules.
pub open spec fn decorator_modules(db: Db, file: File, callee: Callee) -> Seq<ModuleSymbol> {
    match callee {
        Callee::Name { id, bindings, .. } => imported_symbols(db, bindings@, id@),
        Callee::Attribute { receiver: Some(receiver), attr, .. } => module_attributes(
            db,
            file,
            alternatives(db, receiver),
            attr@,
        ),
        _ => Seq::empty(),
    }
}

/// Whether those symbols account for everything that the decorator may be.
pub open spec fn decorator_modules_complete(db: Db, callee: Callee) -> bool {
    match callee {
        Callee::Name { id, bindings, .. } => is_directly_imported(db, bindings@, id@),
        Callee::Attribute { receiver: Some(receiver), .. } => forall|i: int|
            0 <= i < alternatives(db, receiver).len() ==> db.ty(
                #[trigger] alternatives(db, receiver)[i],
            ).kind is ModuleLiteral,
        _ => false,
    }
}

/// The symbols that belong to an installed package of the accelerator.
pub open spec fn is_installed_chalk(symbol: ModuleSymbol) -> bool {
    symbol.owner == ModuleOrigin::ThirdParty && in_chalk_namespace(symbol.module)
}

/// The symbol that an attribute of one receiver names: of a module, or of the module that defines
/// the receiver's class.
pub open spec fn receiver_symbol(
    db: Db,
    file: File,
    receiver: Type,
    symbol: Seq<char>,
) -> Option<ModuleSymbol> {
    let (module, parameter): (Option<Module>, Option<u32>) = match db.ty(receiver).kind {
        TypeKind::ModuleLiteral { module } => (Some(module), None),
        _ => (chalk::receiver_module(db, receiver), Some(0)),
    };
    match module {
        Some(module) => Some(
            ModuleSymbol {
                module: db.module(module).name@,
                symbol,
                origin: chalk::origin_of(db, Some(module)),
                owner: chalk::owner_of(db, file, db.module(module).name@, Some(module)),
                receiver: parameter,
            },
        ),
        None => None,
    }
}

/// The symbols of installed accelerator packages that an attribute of several receivers names.
pub open spec fn receiver_symbols(
    db: Db,
    file: File,
    receivers: Seq<Type>,
    symbol: Seq<char>,
) -> Seq<ModuleSymbol>
    decreases receivers.len(),
{
    if receivers.len() == 0 {
        Seq::empty()
    } else {
        let before = receiver_symbols(db, file, receivers.drop_last(), symbol);
        match receiver_symbol(db, file, receivers.last(), symbol) {
            Some(found) => if is_installed_chalk(found) {
                with_symbol(before, found)
            } else {
                before
            },
            None => before,
        }
    }
}

/// The symbols of installed accelerator packages that a call leads to, where it leads to no
/// definition and no known operation.
pub open spec fn call_modules(db: Db, file: File, callee: Callee) -> Seq<ModuleSymbol> {
    let state = collect_callee(db, callee);
    if state.targets.len() > 0 || state.known.len() > 0 {
        Seq::empty()
    } else {
        match callee {
            Callee::Name { id, bindings, .. } => imported_symbols(db, bindings@, id@).filter(
                |symbol: ModuleSymbol| is_installed_chalk(symbol),
            ),
            Callee::Attribute { receiver: Some(receiver), attr, .. } => receiver_symbols(
                db,
                file,
                alternatives(db, receiver),
                attr@,
            ),
            _ => Seq::empty(),
        }
    }
}

fn same_decorator_symbol(left: &DecoratorModuleProvenance, right: &DecoratorModuleProvenance) -> (
same: bool)
    ensures
        same == (left.symbol_view() == right.symbol_view()),
{
    left.origin == right.origin && left.ownership_origin == right.ownership_origin
        && text::same_text(left.module.as_str(), right.module.as_str()) && text::same_text(
        left.symbol.as_str(),
        right.symbol.as_str(),
    )
}

fn same_receiver(left: Option<u32>, right: Option<u32>) -> (same: bool)
    ensures
        same == (left == right),
{
    match (left, right) {
        (Some(left), Some(right)) => left == right,
        (None, None) => true,
        _ => false,
    }
}

fn same_call_symbol(left: &CallModuleProvenance, right: &CallModuleProvenance) -> (same: bool)
    ensures
        same == (left.symbol_view() == right.symbol_view()),
{
    left.origin == right.origin && left.ownership_origin == right.ownership_origin
        && same_receiver(left.receiver_parameter, right.receiver_parameter) && text::same_text(
        left.module.as_str(),
        right.module.as_str(),
    ) && text::same_text(left.symbol.as_str(), right.symbol.as_str())
}

fn push_decorator_symbol(
    list: &mut Vec<DecoratorModuleProvenance>,
    candidate: DecoratorModuleProvenance,
)
    ensures
        decorator_symbols(final(list)@) == with_symbol(
            decorator_symbols(old(list)@),
            candidate.symbol_view(),
        ),
{
    let ghost before = decorator_symbols(list@);
    let mut i: usize = 0;
    while i < list.len()
        invariant
            i <= list.len(),
            list@ == old(list)@,
            before == decorator_symbols(list@),
            forall|j: int| 0 <= j < i ==> #[trigger] before[j] != candidate.symbol_view(),
        decreases list.len() - i,
    {
        if same_decorator_symbol(&list[i], &candidate) {
            assert(before[i as int] == candidate.symbol_view());
            assert(before.contains(candidate.symbol_view()));
            return;
        }
        assert(before[i as int] != candidate.symbol_view());
        i = i + 1;
    }
    list.push(candidate);
    assert(decorator_symbols(list@) =~= before.push(candidate.symbol_view()));
}

fn push_call_symbol(list: &mut Vec<CallModuleProvenance>, candidate: CallModuleProvenance)
    ensures
        call_symbols(final(list)@) == with_symbol(
            call_symbols(old(list)@),
            candidate.symbol_view(),
        ),
{
    let ghost before = call_symbols(list@);
    let mut i: usize = 0;
    while i < list.len()
        invariant
            i <= list.len(),
            list@ == old(list)@,
            before == call_symbols(list@),
            forall|j: int| 0 <= j < i ==> #[trigger] before[j] != candidate.symbol_view(),
        decreases list.len() - i,
    {
        if same_call_symbol(&list[i], &candidate) {
            assert(before[i as int] == candidate.symbol_view());
            assert(before.contains(candidate.symbol_view()));
            return;
        }
        assert(before[i as int] != candidate.symbol_view());
        i = i + 1;
    }
    list.push(candidate);
    assert(call_symbols(list@) =~= before.push(candidate.symbol_view()));
}

/// The symbols that the bindings of a name bring in by imports, and whether there is nothing else.
fn directly_imported_symbols(db: &Db, id: &str, bindings: &Vec<Binding>) -> (imported: (
    Vec<DecoratorModuleProvenance>,
    bool,
))
    requires
        db.wf(),
        forall|i: int|
            0 <= i < bindings@.len() ==> ((#[trigger] bindings@[i]) matches Binding::Defined {
                definition,
                ty,
            } ==> db.has_definition(definition) && db.has_type(ty)),
    ensures
        decorator_symbols(imported.0@) == imported_symbols(*db, bindings@, id@),
        imported.1 == is_directly_imported(*db, bindings@, id@),
{
    let mut list: Vec<DecoratorModuleProvenance> = Vec::new();
    let mut complete = true;
    let mut i: usize = 0;
    proof {
        assert(bindings@.take(0) =~= Seq::<Binding>::empty());
        assert(decorator_symbols(list@) =~= Seq::<ModuleSymbol>::empty());
    }
    while i < bindings.len()
        invariant
            i <= bindings.len(),
            db.wf(),
            forall|i: int|
                0 <= i < bindings@.len() ==> ((#[trigger] bindings@[i]) matches Binding::Defined {
                    definition,
                    ty,
                } ==> db.has_definition(definition) && db.has_type(ty)),
            decorator_symbols(list@) == imported_symbols(*db, bindings@.take(i as int), id@),
            complete == forall|j: int|
                0 <= j < i ==> bound_symbol(*db, #[trigger] bindings@[j], id@) is Some,
        decreases bindings.len() - i,
    {
        proof {
            assert(bindings@.take(i + 1).drop_last() =~= bindings@.take(i as int));
            assert(bindings@.take(i + 1).last() == bindings@[i as int]);
        }
        let candidate = match bindings[i] {
            Binding::Missing => None,
            Binding::Defined { definition, ty } => import_provenance(db, definition, id),
        };
        match candidate {
            Some(candidate) => {
                assert(bound_symbol(*db, bindings@[i as int], id@) is Some);
                push_decorator_symbol(&mut list, candidate);
            },
            None => {
                assert(bound_symbol(*db, bindings@[i as int], id@) is None);
                complete = false;
            },
        }
        i = i + 1;
    }
    assert(bindings@.take(bindings@.len() as int) =~= bindings@);
    (list, bindings.len() > 0 && complete)
}

/// The symbol that an import definition brings in.
fn import_provenance(db: &Db, definition: Definition, id: &str) -> (symbol: Option<
    DecoratorModuleProvenance,
>)
    requires
        db.wf(),
        db.has_definition(definition),
    ensures
        match symbol {
            Some(symbol) => imported_symbol(*db, definition, id@) == Some(symbol.symbol_view()),
            None => imported_symbol(*db, definition, id@) is None,
        },
{
    assert(db.definition_wf(db.definitions@[definition.id as int]));
    let data = &db.definitions[definition.id];
    match &data.kind {
        DefinitionKind::ImportFrom { module: Some(module), symbol, typing_module } => Some(
            DecoratorModuleProvenance {
                module: module.clone(),
                symbol: symbol.clone(),
                origin: chalk::module_origin(db, *typing_module),
                ownership_origin: chalk::module_ownership_origin(
                    db,
                    data.file,
                    module.as_str(),
                    *typing_module,
                ),
            },
        ),
        DefinitionKind::StarImport { module: Some(module), typing_module } => Some(
            DecoratorModuleProvenance {
                module: module.clone(),
                symbol: id.to_owned(),
                origin: chalk::module_origin(db, *typing_module),
                ownership_origin: chalk::module_ownership_origin(
                    db,
                    data.file,
                    module.as_str(),
                    *typing_module,
                ),
            },
        ),
        _ => None,
    }
}

/// The types that a type may be.
fn type_alternatives(db: &Db, ty: Type) -> (types: Vec<Type>)
    requires
        db.wf(),
        db.has_type(ty),
    ensures
        types@ == alternatives(*db, ty),
        db.has_types(types@),
{
    assert(db.type_wf(db.types@[ty.id as int]));
    let mut types: Vec<Type> = Vec::new();
    match &db.types[ty.id].kind {
        TypeKind::Union { elements } => {
            let mut i: usize = 0;
            while i < elements.len()
                invariant
                    i <= elements.len(),
                    db.has_types(elements@),
                    types@ == elements@.take(i as int),
                decreases elements.len() - i,
            {
                types.push(elements[i]);
                assert(types@ =~= elements@.take(i + 1));
                i = i + 1;
            }
            assert(types@ =~= elements@);
        },
        _ => {
            types.push(ty);
            assert(types@ =~= seq![ty]);
        },
    }
    types
}

/// The symbols that an attribute of receivers names, and whether all receivers are modules.
fn module_attribute_provenance(db: &Db, file: File, receiver: Type, symbol: &str) -> (found: (
    Vec<DecoratorModuleProvenance>,
    bool,
))
    requires
        db.wf(),
        db.has_type(receiver),
    ensures
        decorator_symbols(found.0@) == module_attributes(
            *db,
            file,
            alternatives(*db, receiver),
            symbol@,
        ),
        found.1 == forall|i: int|
            0 <= i < alternatives(*db, receiver).len() ==> db.ty(
                #[trigger] alternatives(*db, receiver)[i],
            ).kind is ModuleLiteral,
{
    let receivers = type_alternatives(db, receiver);
    let mut list: Vec<DecoratorModuleProvenance> = Vec::new();
    let mut complete = true;
    let mut i: usize = 0;
    proof {
        assert(receivers@.take(0) =~= Seq::<Type>::empty());
        assert(decorator_symbols(list@) =~= Seq::<ModuleSymbol>::empty());
    }
    while i < receivers.len()
        invariant
            i <= receivers.len(),
            db.wf(),
            db.has_types(receivers@),
            decorator_symbols(list@) == module_attributes(
                *db,
                file,
                receivers@.take(i as int),
                symbol@,
            ),
            complete == forall|j: int|
                0 <= j < i ==> db.ty(#[trigger] receivers@[j]).kind is ModuleLiteral,
        decreases receivers.len() - i,
    {
        proof {
            assert(receivers@.take(i + 1).drop_last() =~= receivers@.take(i as int));
            assert(receivers@.take(i + 1).last() == receivers@[i as int]);
            assert(db.type_wf(db.types@[receivers@[i as int].id as int]));
        }
        let one = receivers[i];
        match &db.types[one.id].kind {
            TypeKind::ModuleLiteral { module } => {
                let name = &db.modules[module.id].name;
                let candidate = DecoratorModuleProvenance {
                    module: name.clone(),
                    symbol: symbol.to_owned(),
                    origin: chalk::module_origin(db, Some(*module)),
                    ownership_origin: chalk::module_ownership_origin(
                        db,
                        file,
                        name.as_str(),
                        Some(*module),
                    ),
                };
                push_decorator_symbol(&mut list, candidate);
            },
            _ => {
                assert(!(db.ty(receivers@[i as int]).kind is ModuleLiteral));
                complete = false;
            },
        }
        i = i + 1;
    }
    assert(receivers@.take(receivers@.len() as int) =~= receivers@);
    (list, complete)
}

/// The symbol that an attribute of one receiver names.
fn receiver_provenance(db: &Db, file: File, receiver: Type, symbol: &str) -> (found: Option<
    CallModuleProvenance,
>)
    requires
        db.wf(),
        db.has_type(receiver),
    ensures
        match found {
            Some(found) => receiver_symbol(*db, file, receiver, symbol@) == Some(
                found.symbol_view(),
            ),
            None => receiver_symbol(*db, file, receiver, symbol@) is None,
        },
{
    assert(db.type_wf(db.types@[receiver.id as int]));
    let (module, receiver_parameter): (Option<Module>, Option<u32>) = match &db.types[receiver.id].kind {
        TypeKind::ModuleLiteral { module } => (Some(*module), None),
        _ => (chalk::chalk_receiver_module(db, receiver), Some(0)),
    };
    match module {
        Some(module) => {
            let name = &db.modules[module.id].name;
            Some(
                CallModuleProvenance {
                    module: name.clone(),
                    symbol: symbol.to_owned(),
                    origin: chalk::module_origin(db, Some(module)),
                    ownership_origin: chalk::module_ownership_origin(
                        db,
                        file,
                        name.as_str(),
                        Some(module),
                    ),
                    receiver_parameter,
                },
            )
        },
        None => None,
    }
}

/// The symbols of installed accelerator packages that an attribute of receivers names.
fn receiver_call_module_provenance(db: &Db, file: File, receiver: Type, symbol: &str) -> (found:
    Vec<CallModuleProvenance>)
    requires
        db.wf(),
        db.has_type(receiver),
    ensures
        call_symbols(found@) == receiver_symbols(
            *db,
            file,
            alternatives(*db, receiver),
            symbol@,
        ),
{
    let receivers = type_alternatives(db, receiver);
    let mut list: Vec<CallModuleProvenance> = Vec::new();
    let mut i: usize = 0;
    proof {
        assert(receivers@.take(0) =~= Seq::<Type>::empty());
        assert(call_symbols(list@) =~= Seq::<ModuleSymbol>::empty());
    }
    while i < receivers.len()
        invariant
            i <= receivers.len(),
            db.wf(),
            db.has_types(receivers@),
            call_symbols(list@) == receiver_symbols(
                *db,
                file,
                receivers@.take(i as int),
                symbol@,
            ),
        decreases receivers.len() - i,
    {
        proof {
            assert(receivers@.take(i + 1).drop_last() =~= receivers@.take(i as int));
            assert(receivers@.take(i + 1).last() == receivers@[i as int]);
        }
        match receiver_provenance(db, file, receivers[i], symbol) {
            Some(candidate) => {
                if candidate.ownership_origin == ModuleOrigin::ThirdParty && is_chalk_namespace(
                    candidate.module.as_str(),
                ) {
                    push_call_symbol(&mut list, candidate);
                }
            },
            None => {},
        }
        i = i + 1;
    }
    assert(receivers@.take(receivers@.len() as int) =~= receivers@);
    list
}

/// The symbols of installed accelerator packages that a call leads to.
fn call_module_provenance(db: &Db, file: File, callee: &Callee) -> (found: Vec<
    CallModuleProvenance,
>)
    requires
        db.wf(),
        callee_wf(*db, *callee),
    ensures
        call_symbols(found@) == call_modules(*db, file, *callee),
{
    let targets = call_targets(db, callee);
    let mut list: Vec<CallModuleProvenance> = Vec::new();
    assert(call_symbols(list@) =~= Seq::<ModuleSymbol>::empty());
    if targets.targets.len() > 0 || targets.known_targets.len() > 0 {
        return list;
    }
    match callee {
        Callee::Name { id, bindings, .. } => {
            let (imported, _) = directly_imported_symbols(db, id.as_str(), bindings);
            let ghost wanted = |symbol: ModuleSymbol| is_installed_chalk(symbol);
            let ghost all = decorator_symbols(imported@);
            let mut i: usize = 0;
            proof {
                assert(all.take(0) =~= Seq::<ModuleSymbol>::empty());
                reveal(Seq::filter);
                assert(all.take(0).filter(wanted) =~= Seq::<ModuleSymbol>::empty());
            }
            while i < imported.len()
                invariant
                    i <= imported.len(),
                    all == decorator_symbols(imported@),
                    wanted == (|symbol: ModuleSymbol| is_installed_chalk(symbol)),
                    call_symbols(list@) == all.take(i as int).filter(wanted),
                decreases imported.len() - i,
            {
                let origin = &imported[i];
                let ghost before = call_symbols(list@);
                proof {
                    reveal(Seq::filter);
                    assert(all.take(i + 1).drop_last() =~= all.take(i as int));
                    assert(all.take(i + 1).last() == origin.symbol_view());
                }
                if origin.ownership_origin == ModuleOrigin::ThirdParty && is_chalk_namespace(
                    origin.module.as_str(),
                ) {
                    let candidate = CallModuleProvenance {
                        module: origin.module.clone(),
                        symbol: origin.symbol.clone(),
                        origin: origin.origin,
                        ownership_origin: origin.ownership_origin,
                        receiver_parameter: None,
                    };
                    list.push(candidate);
                    assert(call_symbols(list@) =~= before.push(origin.symbol_view()));
                }
                i = i + 1;
            }
            assert(all.take(all.len() as int) =~= all);
            list
        },
        Callee::Attribute { receiver: Some(receiver), attr, .. } => {
            receiver_call_module_provenance(db, file, *receiver, attr.as_str())
        },
        _ => list,
    }
}

/// The symbols that a decorator names by way of modules, and whether there is nothing else.
fn decorator_module_provenance(db: &Db, file: File, callee: &Callee) -> (found: (
    Vec<DecoratorModuleProvenance>,
    bool,
))
    requires
        db.wf(),
        callee_wf(*db, *callee),
    ensures
        decorator_symbols(found.0@) == decorator_modules(*db, file, *callee),
        found.1 == decorator_modules_complete(*db, *callee),
{
    match callee {
        Callee::Name { id, bindings, .. } => directly_imported_symbols(
            db,
            id.as_str(),
            bindings,
        ),
        Callee::Attribute { receiver: Some(receiver), attr, .. } => module_attribute_provenance(
            db,
            file,
            *receiver,
            attr.as_str(),
        ),
        _ => {
            let list: Vec<DecoratorModuleProvenance> = Vec::new();
            assert(decorator_symbols(list@) =~= Seq::<ModuleSymbol>::empty());
            (list, false)
        },
    }
}

// ---------------------------------------------------------------------------------------------
// The model of one file
// ---------------------------------------------------------------------------------------------

/// What is known from the point of view of one file.
#[derive(Clone, Copy)]
pub struct SemanticModel<'db> {
    pub db: &'db Db,
    pub file: File,
}

/// The callee behind a decorator: of a factory, what is called to make the decorator.
pub open spec fn decorator_callee(decorator: Decorator) -> Callee {
    match decorator {
        Decorator::Plain(callee) => callee,
        Decorator::Factory(callee) => callee,
    }
}

/// The function definitions among targets.
pub open spec fn function_definitions(targets: Seq<CallTarget>) -> Seq<Definition>
    decreases targets.len(),
{
    if targets.len() == 0 {
        Seq::empty()
    } else {
        let before = function_definitions(targets.drop_last());
        if targets.last().kind == CallTargetKind::Function {
            before.push(targets.last().definition)
        } else {
            before
        }
    }
}

/// Whether a decorator may lead somewhere that is no function definition.
pub open spec fn decorator_unresolved(state: Collected) -> bool {
    state.unresolved || (state.never && state.targets.len() == 0) || exists|i: int|
        0 <= i < state.targets.len() && (#[trigger] state.targets[i]).kind
            == CallTargetKind::ClassConstructor
}

impl<'db> SemanticModel<'db> {
    /// All function and class definitions that a call may lead to.
    pub fn chalk_call_targets(&self, callee: &Callee) -> (targets: CallTargets)
        requires
            self.db.wf(),
            callee_wf(*self.db, *callee),
        ensures
            are_targets(targets, collect_callee(*self.db, *callee)),
    {
        call_targets(self.db, callee)
    }

    /// The symbols of installed accelerator packages that a call leads to.
    pub fn chalk_call_module_provenance(&self, callee: &Callee) -> (found: Vec<
        CallModuleProvenance,
    >)
        requires
            self.db.wf(),
            callee_wf(*self.db, *callee),
        ensures
            call_symbols(found@) == call_modules(*self.db, self.file, *callee),
    {
        call_module_provenance(self.db, self.file, callee)
    }

    /// Everything that a decorator or decorator factory may lead to.
    pub fn chalk_decorator_provenance(&self, decorator: &Decorator) -> (provenance:
        DecoratorProvenance)
        requires
            self.db.wf(),
            callee_wf(*self.db, decorator_callee(*decorator)),
        ensures
            ({
                let callee = decorator_callee(*decorator);
                let state = collect_callee(*self.db, callee);
                &&& provenance.definitions@ == function_definitions(state.targets)
                &&& provenance.has_unresolved == decorator_unresolved(state)
                &&& decorator_symbols(provenance.modules@) == decorator_modules(
                    *self.db,
                    self.file,
                    callee,
                )
                &&& provenance.module_fallback_is_complete == decorator_modules_complete(
                    *self.db,
                    callee,
                )
            }),
    {
        let callee = match decorator {
            Decorator::Plain(callee) => callee,
            Decorator::Factory(callee) => callee,
        };
        let targets = call_targets(self.db, callee);
        let ghost all = targets.targets@;
        let mut definitions: Vec<Definition> = Vec::new();
        let mut has_unresolved = targets.has_unresolved;
        let mut i: usize = 0;
        assert(all.take(0) =~= Seq::<CallTarget>::empty());
        while i < targets.targets.len()
            invariant
                i <= targets.targets.len(),
                all == targets.targets@,
                definitions@ == function_definitions(all.take(i as int)),
                has_unresolved == (targets.has_unresolved || exists|j: int|
                    0 <= j < i && (#[trigger] all[j]).kind == CallTargetKind::ClassConstructor),
            decreases targets.targets.len() - i,
        {
            let target = targets.targets[i];
            proof {
                assert(all.take(i + 1).drop_last() =~= all.take(i as int));
                assert(all.take(i + 1).last() == target);
            }
            match target.kind {
                CallTargetKind::Function => {
                    definitions.push(target.definition);
                },
                CallTargetKind::ClassConstructor => {
                    assert(all[i as int].kind == CallTargetKind::ClassConstructor);
                    has_unresolved = true;
                },
            }
            i = i + 1;
        }
        assert(all.take(all.len() as int) =~= all);
        let (modules, module_fallback_is_complete) = decorator_module_provenance(
            self.db,
            self.file,
            callee,
        );
        DecoratorProvenance { definitions, modules, module_fallback_is_complete, has_unresolved }
    }

    /// The module and symbol of a top-level decorator function; methods and nested functions have
    /// none.
    pub fn chalk_decorator_definition_origin(&self, definition: Definition) -> (origin: Option<
        FunctionDefinitionOrigin,
    >)
        requires
            self.db.wf(),
            self.db.has_definition(definition),
        ensures
            match origin {
                Some(origin) => {
                    let file = self.db.definition(definition).file;
                    &&& definition_kind(*self.db, definition) == Some(
                        CallDefinitionOriginKind::TopLevelFunction,
                    )
                    &&& origin.module@ == file_module_name(*self.db, file)
                    &&& origin.symbol@ == self.db.definition(definition).name@
                    &&& origin.origin == file_origin(*self.db, file)
                    &&& origin.ownership_origin == file_owner(*self.db, file)
                },
                None => definition_kind(*self.db, definition) != Some(
                    CallDefinitionOriginKind::TopLevelFunction,
                ),
            },
    {
        chalk_function_definition_origin(self.db, definition)
    }
}

} // verus!
